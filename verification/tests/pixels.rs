use raest::framebuffer::{blank_buffer, make_buffer, pack_rgb, pixel_at, unpack_rgb};
use raest::util::clamp;

#[test]
fn clamp_keeps_values_inside() {
    assert_eq!(clamp(5u32, 0, 9), 5);
    assert_eq!(clamp(0u32, 0, 9), 0);
    assert_eq!(clamp(9u32, 0, 9), 9);
}

#[test]
fn clamp_limits_values_outside() {
    assert_eq!(clamp(12u32, 0, 9), 9);
    assert_eq!(clamp(-3i32, 0, 9), 0);
    assert_eq!(clamp(700u32, 0, 639), 639);
}

#[test]
fn clamp_with_crossed_limits_gives_max() {
    assert_eq!(clamp(5u32, 9, 2), 2);
    assert_eq!(clamp(1u32, 9, 2), 2);
}

#[test]
fn window_buffer_is_black() {
    let buf = make_buffer();
    assert_eq!(buf.len(), 640 * 360);
    assert!(buf.iter().all(|p| *p == 0));
}

#[test]
fn blank_buffer_has_one_pixel_per_position() {
    let buf = blank_buffer(7, 3);
    assert_eq!(buf, vec![0u32; 21]);
    assert_eq!(blank_buffer(0, 5).len(), 0);
}

#[test]
fn pack_puts_red_high_and_blue_low() {
    assert_eq!(pack_rgb(0x12, 0x34, 0x56), 0x123456);
    assert_eq!(pack_rgb(255, 0, 0), 0xff0000);
    assert_eq!(pack_rgb(0, 255, 0), 0x00ff00);
    assert_eq!(pack_rgb(0, 0, 255), 0x0000ff);
}

#[test]
fn unpack_reverses_pack() {
    assert_eq!(unpack_rgb(pack_rgb(1, 2, 3)), (1, 2, 3));
    assert_eq!(unpack_rgb(pack_rgb(254, 128, 0)), (254, 128, 0));
}

#[test]
fn unpack_ignores_the_top_byte() {
    assert_eq!(unpack_rgb(0xab123456), (0x12, 0x34, 0x56));
}

#[test]
fn pixel_at_reads_row_major() {
    let mut buf = blank_buffer(4, 3);
    buf[2 * 4 + 1] = pack_rgb(9, 8, 7);
    assert_eq!(pixel_at(&buf, 4, 1, 2), (9, 8, 7));
    assert_eq!(pixel_at(&buf, 4, 2, 1), (0, 0, 0));
}
