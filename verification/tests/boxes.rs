use raest::aabb::{Point, Ray, AABB};
use std::cmp::Ordering;

/// An order-preserving stand-in for a float.
fn key(x: f64) -> i64 {
    let bits = (x + 0.0).to_bits() as i64;
    if bits < 0 {
        bits ^ i64::MAX
    } else {
        bits
    }
}

fn unkey(k: i64) -> f64 {
    let bits = if k < 0 { k ^ i64::MAX } else { k };
    f64::from_bits(bits as u64)
}

fn point(x: f64, y: f64, z: f64) -> Point {
    Point::new(key(x), key(y), key(z))
}

struct Line {
    origin: [f64; 3],
    dir: [f64; 3],
}

impl Ray for Line {
    fn crossing(&self, axis: usize, plane: i64) -> i64 {
        key((unkey(plane) - self.origin[axis]) / self.dir[axis])
    }

    fn cross(&self, axis: usize, plane: i64) -> i64 {
        self.crossing(axis, plane)
    }
}

fn unit_box() -> AABB {
    AABB::new(point(-1.0, -1.0, -1.0), point(1.0, 1.0, 1.0))
}

#[test]
fn keys_keep_the_order_of_floats() {
    let values = [-1e9, -2.5, -1.0, -1e-9, 0.0, 1e-9, 1.0, 2.5, 1e9, f64::INFINITY];
    for pair in values.windows(2) {
        assert!(key(pair[0]) < key(pair[1]));
    }
    assert_eq!(key(0.0), 0);
    assert_eq!(key(-0.0), 0);
    assert!(key(f64::NEG_INFINITY) < key(-1e300));
    for v in values {
        assert_eq!(unkey(key(v)), v);
    }
}

#[test]
fn ray_through_box_hits_on_overlapping_ranges() {
    // Enters at t = 4 and leaves at t = 6.
    let ray = Line { origin: [-5.0, 0.0, 0.0], dir: [1.0, 0.0, 0.0] };
    let b = unit_box();
    assert!(b.hit(&ray, key(0.0), key(f64::INFINITY)));
    assert!(b.hit(&ray, key(4.5), key(5.5)));
    assert!(b.hit(&ray, key(0.0), key(4.5)));
    assert!(b.hit(&ray, key(5.5), key(100.0)));
    assert!(b.hit(&ray, key(3.0), key(7.0)));
}

#[test]
fn ray_through_box_misses_on_ranges_outside() {
    let ray = Line { origin: [-5.0, 0.0, 0.0], dir: [1.0, 0.0, 0.0] };
    let b = unit_box();
    assert!(!b.hit(&ray, key(0.0), key(3.9)));
    assert!(!b.hit(&ray, key(6.1), key(100.0)));
    assert!(!b.hit(&ray, key(0.0), key(4.0)));
    assert!(!b.hit(&ray, key(6.0), key(100.0)));
    assert!(!b.hit(&ray, key(5.0), key(5.0)));
}

#[test]
fn ray_beside_box_misses() {
    let ray = Line { origin: [-5.0, 2.0, 0.0], dir: [1.0, 0.0, 0.0] };
    assert!(!unit_box().hit(&ray, key(0.0), key(f64::INFINITY)));
}

#[test]
fn ray_with_zero_component_does_not_panic() {
    let inside = Line { origin: [0.0, 0.0, -5.0], dir: [0.0, 0.0, 1.0] };
    assert!(unit_box().hit(&inside, key(0.0), key(f64::INFINITY)));
    let outside = Line { origin: [3.0, 0.0, -5.0], dir: [0.0, 0.0, 1.0] };
    assert!(!unit_box().hit(&outside, key(0.0), key(f64::INFINITY)));
}

#[test]
fn diagonal_ray_enters_at_the_latest_slab() {
    // x slab: [1, 3], y slab: [2, 4], z slab: [-inf, inf] -> inside on [2, 3].
    let ray = Line { origin: [-2.0, -3.0, 0.0], dir: [1.0, 1.0, 0.0] };
    let b = unit_box();
    assert!(b.hit(&ray, key(2.5), key(2.6)));
    assert!(!b.hit(&ray, key(1.0), key(2.0)));
    assert!(!b.hit(&ray, key(3.0), key(4.0)));
}

#[test]
fn containing_takes_least_and_greatest_corners() {
    let a = AABB::new(point(0.0, 0.0, 0.0), point(1.0, 1.0, 1.0));
    let b = AABB::new(point(-2.0, 0.5, 0.25), point(0.5, 3.0, 0.75));
    let c = AABB::containing(a, b);
    assert_eq!(c.min, point(-2.0, 0.0, 0.0));
    assert_eq!(c.max, point(1.0, 3.0, 1.0));
    assert_eq!(AABB::containing(a, a), a);
}

#[test]
fn cmp_axis_orders_by_least_corner() {
    let a = AABB::new(point(0.0, 5.0, -1.0), point(1.0, 6.0, 1.0));
    let b = AABB::new(point(2.0, 5.0, -3.0), point(3.0, 9.0, 1.0));
    assert_eq!(a.cmp_axis(&b, 0), Ordering::Less);
    assert_eq!(a.cmp_axis(&b, 1), Ordering::Equal);
    assert_eq!(a.cmp_axis(&b, 2), Ordering::Greater);
}

#[test]
fn spanning_wraps_all_points() {
    let points = vec![point(1.0, -4.0, 2.0), point(-3.0, 0.0, 2.5), point(0.0, 7.0, -1.0)];
    let b = AABB::spanning(&points, key(f64::NEG_INFINITY), key(f64::INFINITY));
    assert_eq!(b.min, point(-3.0, -4.0, -1.0));
    assert_eq!(b.max, point(1.0, 7.0, 2.5));
    for p in points {
        assert!(b.holds(p));
    }
    assert!(!b.holds(point(2.0, 0.0, 0.0)));
}

#[test]
fn spanning_nothing_is_inside_out() {
    let b = AABB::spanning(&vec![], 0, 10);
    assert_eq!(b.min, Point::new(10, 10, 10));
    assert_eq!(b.max, Point::new(0, 0, 0));
}

#[test]
fn point_coord_reads_each_axis() {
    let p = Point::new(7, 8, 9);
    assert_eq!((p.coord(0), p.coord(1), p.coord(2)), (7, 8, 9));
    assert_eq!(Point::origin(), Point::new(0, 0, 0));
}
