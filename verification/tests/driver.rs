use raest::assembly::{
    arrange, find_material, find_texture, link_material, link_texture, transform, MaterialEntry,
    MaterialLink, MaterialRefs, TextureEntry, TextureLink, TextureRefs,
};
use raest::bounds::bound_cloned;
use raest::config::Config;
use raest::framebuffer::{blank_buffer, pack_rgb};
use raest::material::{dielectric_reflects, Material, Mode, Scatter};
use raest::rect::{Block, Rect, RectAxis};
use raest::rows::{row_range, store_row, Backlog};
use raest::texture::{texel, Texture};
use raest::tracer::{Hop, Step, Walk, MAX_DEPTH, MIX_BIAS_DENOM, MIX_BIAS_NUMER};
use raest::aabb::Point;
use std::ops::Bound;

fn bands(height: usize, threads: usize) -> Vec<(usize, usize)> {
    (0..threads).map(|i| row_range(height, threads, i)).collect()
}

#[test]
fn rows_are_split_into_bands_of_equal_size() {
    assert_eq!(bands(360, 4), vec![(0, 91), (91, 182), (182, 273), (273, 360)]);
    assert_eq!(bands(360, 1), vec![(0, 360)]);
    assert_eq!(bands(10, 3), vec![(0, 4), (4, 8), (8, 10)]);
}

#[test]
fn surplus_workers_get_no_rows() {
    // Four rows for eight workers: one row each, the last four bands are empty.
    let b = bands(4, 8);
    assert_eq!(&b[..4], &[(0, 1), (1, 2), (2, 3), (3, 4)]);
    for (start, end) in &b[4..] {
        assert!(start >= end);
    }
    assert_eq!(bands(0, 2), vec![(0, 0), (1, 0)]);
}

#[test]
fn every_row_belongs_to_exactly_one_worker() {
    for height in [1usize, 2, 7, 64, 360, 361] {
        for threads in [1usize, 2, 3, 4, 7, 16, 400] {
            let b = bands(height, threads);
            for row in 0..height {
                let owners = b.iter().filter(|(s, e)| *s <= row && row < *e).count();
                assert_eq!(owners, 1, "row {} of {} on {} threads", row, height, threads);
            }
        }
    }
}

#[test]
fn one_worker_and_four_cover_the_same_rows() {
    let mut one: Vec<usize> = bands(90, 1).iter().flat_map(|(s, e)| *s..*e).collect();
    let mut four: Vec<usize> = bands(90, 4).iter().flat_map(|(s, e)| *s..*e).collect();
    one.sort();
    four.sort();
    assert_eq!(one, four);
    assert_eq!(one, (0..90).collect::<Vec<usize>>());
}

#[test]
fn store_row_overwrites_one_row() {
    let mut buf = blank_buffer(3, 4);
    store_row(&mut buf, 3, 2, &vec![7, 8, 9]);
    assert_eq!(buf, vec![0, 0, 0, 0, 0, 0, 7, 8, 9, 0, 0, 0]);
    store_row(&mut buf, 3, 0, &vec![1, 2, 3]);
    assert_eq!(buf, vec![1, 2, 3, 0, 0, 0, 7, 8, 9, 0, 0, 0]);
}

#[test]
fn flush_writes_every_queued_row_and_empties_the_backlog() {
    let mut buf = blank_buffer(2, 4);
    let mut backlog = Backlog::new(2);
    backlog.push(3, vec![31, 32]);
    backlog.push(1, vec![11, 12]);
    assert_eq!(backlog.queue.len(), 2);
    backlog.flush(&mut buf);
    assert_eq!(buf, vec![0, 0, 11, 12, 0, 0, 31, 32]);
    assert!(backlog.queue.is_empty());
    assert_eq!(backlog.width, 2);
    backlog.flush(&mut buf);
    assert_eq!(buf, vec![0, 0, 11, 12, 0, 0, 31, 32]);
}

#[test]
fn later_rows_win_over_earlier_ones() {
    let mut buf = blank_buffer(1, 2);
    let mut backlog = Backlog::new(1);
    backlog.push(0, vec![pack_rgb(1, 1, 1)]);
    backlog.push(0, vec![pack_rgb(2, 2, 2)]);
    backlog.flush(&mut buf);
    assert_eq!(buf, vec![0x020202, 0]);
}

#[test]
fn walk_of_full_depth_halts_after_twenty_five_bounces() {
    assert_eq!(MAX_DEPTH, 25);
    let mut walk = Walk::new();
    let mut bounces = 0;
    while !walk.is_over() {
        assert_eq!(walk.advance(Hop::Scattered(Mode::Specular), true), Step::Follow);
        bounces += 1;
    }
    assert_eq!(bounces, 25);
}

#[test]
fn walk_ends_on_a_miss_or_an_emitter() {
    let mut walk = Walk::new();
    assert_eq!(walk.advance(Hop::Scattered(Mode::Sampled), true), Step::SampleMixture);
    assert_eq!(walk.left, 24);
    assert_eq!(walk.advance(Hop::Miss, true), Step::Background);
    assert!(walk.is_over());
    let mut walk = Walk::with_depth(3);
    assert_eq!(walk.advance(Hop::Absorbed, false), Step::Emit);
    assert!(walk.is_over());
    assert!(Step::Background.is_final() && Step::Emit.is_final());
    assert!(!Step::Follow.is_final() && !Step::SampleMaterial.is_final());
    assert!(!Step::SampleMixture.is_final());
}

#[test]
fn walk_samples_the_material_alone_without_lights() {
    let mut walk = Walk::with_depth(2);
    assert_eq!(walk.advance(Hop::Scattered(Mode::Sampled), false), Step::SampleMaterial);
    assert_eq!(walk.advance(Hop::Scattered(Mode::Sampled), true), Step::SampleMixture);
    assert!(walk.is_over());
    assert!(Walk::with_depth(0).is_over());
    assert_eq!((MIX_BIAS_NUMER, MIX_BIAS_DENOM), (3, 4));
}

type Stuff = Material<&'static str, [u8; 3], u8>;

#[test]
fn each_material_scatters_in_its_own_way() {
    let lambertian: Stuff = Material::Lambertian("grey");
    let phong: Stuff = Material::Phong(5, "grey", "white", 32);
    let metal: Stuff = Material::Metal([200, 150, 50], 0);
    let glass: Stuff = Material::Dielectric(15);
    let lamp: Stuff = Material::Emission("white");
    assert_eq!(lambertian.mode(), Some(Mode::Sampled));
    assert_eq!(phong.mode(), Some(Mode::Sampled));
    assert_eq!(metal.mode(), Some(Mode::Specular));
    assert_eq!(glass.mode(), Some(Mode::Specular));
    assert_eq!(lamp.mode(), None);
    assert!(lamp.is_emissive());
    for m in [&lambertian, &phong, &metal, &glass] {
        assert!(!m.is_emissive());
    }
}

#[test]
fn scatter_is_one_of_two_answers() {
    let mirror: Scatter<u8, u8, [u8; 3]> = Scatter::Specular { ray: 1, attenuation: [1, 2, 3] };
    let diffuse: Scatter<u8, u8, [u8; 3]> = Scatter::Sampled { pdf: 2, attenuation: [4, 5, 6] };
    assert_eq!(mirror.mode(), Mode::Specular);
    assert_eq!(diffuse.mode(), Mode::Sampled);
    assert_eq!(mirror.attenuation(), &[1, 2, 3]);
    assert_eq!(diffuse.attenuation(), &[4, 5, 6]);
}

#[test]
fn glass_reflects_when_it_must_or_when_drawn() {
    assert!(dielectric_reflects(true, false));
    assert!(dielectric_reflects(false, true));
    assert!(dielectric_reflects(true, true));
    assert!(!dielectric_reflects(false, false));
}

fn solid(name: &str) -> TextureEntry {
    TextureEntry { name: name.to_string(), refs: TextureRefs::Solid }
}

fn checker(name: &str, a: &str, b: &str) -> TextureEntry {
    TextureEntry {
        name: name.to_string(),
        refs: TextureRefs::Checker { texture1: a.to_string(), texture2: b.to_string() },
    }
}

fn material(name: &str, refs: MaterialRefs) -> MaterialEntry {
    MaterialEntry { name: name.to_string(), refs }
}

#[test]
fn names_resolve_to_positions() {
    let textures = vec![solid("green"), solid("white"), checker("tiles", "white", "green")];
    let materials = vec![
        material("ground", MaterialRefs::Lambertian { texture: "tiles".to_string() }),
        material("steel", MaterialRefs::Metal),
        material("glass", MaterialRefs::Dielectric),
        material("lamp", MaterialRefs::Emission { texture: "white".to_string() }),
        material(
            "plastic",
            MaterialRefs::Phong { diffuse: "green".to_string(), specular: "white".to_string() },
        ),
    ];
    let objects = vec!["lamp".to_string(), "ground".to_string(), "glass".to_string(), "lamp".to_string()];
    let links = transform(&textures, &materials, &objects).unwrap();
    assert_eq!(links.textures, vec![TextureLink::Solid, TextureLink::Solid, TextureLink::Checker(1, 0)]);
    assert_eq!(links.order, vec![0, 1, 2]);
    assert_eq!(
        links.materials,
        vec![
            MaterialLink::Lambertian(2),
            MaterialLink::Metal,
            MaterialLink::Dielectric,
            MaterialLink::Emission(1),
            MaterialLink::Phong(0, 1),
        ]
    );
    assert_eq!(links.objects, vec![3, 0, 2, 3]);
}

#[test]
fn empty_description_resolves_to_nothing() {
    let links = transform(&vec![], &vec![], &vec![]).unwrap();
    assert!(links.textures.is_empty() && links.materials.is_empty() && links.objects.is_empty());
    assert!(links.order.is_empty());
}

#[test]
fn missing_texture_of_a_material_fails() {
    let textures = vec![solid("white")];
    let materials = vec![material("ground", MaterialRefs::Lambertian { texture: "grey".to_string() })];
    assert!(transform(&textures, &materials, &vec![]).is_none());
    let lamp = vec![material("lamp", MaterialRefs::Emission { texture: "grey".to_string() })];
    assert!(transform(&textures, &lamp, &vec![]).is_none());
    let phong = vec![material(
        "plastic",
        MaterialRefs::Phong { diffuse: "white".to_string(), specular: "grey".to_string() },
    )];
    assert!(transform(&textures, &phong, &vec![]).is_none());
}

#[test]
fn missing_material_of_an_object_fails() {
    let materials = vec![material("steel", MaterialRefs::Metal)];
    assert!(transform(&vec![], &materials, &vec!["glass".to_string()]).is_none());
    assert!(transform(&vec![], &materials, &vec!["steel".to_string()]).is_some());
}

#[test]
fn the_order_of_the_textures_does_not_matter() {
    let object = vec!["ground".to_string()];
    let ground = || vec![material("ground", MaterialRefs::Lambertian { texture: "c".to_string() })];
    let listings = [
        vec![solid("a"), solid("b"), checker("c", "a", "b")],
        vec![solid("a"), checker("c", "a", "b"), solid("b")],
        vec![checker("c", "a", "b"), solid("a"), solid("b")],
        vec![checker("c", "a", "b"), solid("b"), solid("a")],
    ];
    for textures in listings {
        let links = transform(&textures, &ground(), &object).unwrap();
        let at = |name: &str| textures.iter().position(|t| t.name == name).unwrap();
        assert_eq!(links.textures[at("c")], TextureLink::Checker(at("a"), at("b")));
        assert_eq!(links.materials, vec![MaterialLink::Lambertian(at("c"))]);
        assert_eq!(links.objects, vec![0]);
        let place = |i: usize| links.order.iter().position(|p| *p == i).unwrap();
        assert!(place(at("a")) < place(at("c")) && place(at("b")) < place(at("c")));
        let mut all = links.order.clone();
        all.sort();
        assert_eq!(all, vec![0, 1, 2]);
    }
}

#[test]
fn a_checker_listed_first_is_made_last() {
    let late = vec![checker("tiles", "white", "green"), solid("white"), solid("green")];
    let links = transform(&late, &vec![], &vec![]).unwrap();
    assert_eq!(links.textures, vec![TextureLink::Checker(1, 2), TextureLink::Solid, TextureLink::Solid]);
    assert_eq!(links.order, vec![1, 2, 0]);
}

#[test]
fn nested_checkers_come_after_what_they_name() {
    let textures = vec![
        checker("outer", "inner", "a"),
        checker("inner", "a", "b"),
        solid("a"),
        solid("b"),
    ];
    let links = transform(&textures, &vec![], &vec![]).unwrap();
    assert_eq!(links.textures[0], TextureLink::Checker(1, 2));
    assert_eq!(links.textures[1], TextureLink::Checker(2, 3));
    assert_eq!(links.order, vec![2, 3, 1, 0]);
}

#[test]
fn a_checker_of_one_texture_twice_is_fine() {
    let textures = vec![checker("plain", "white", "white"), solid("white")];
    let links = transform(&textures, &vec![], &vec![]).unwrap();
    assert_eq!(links.textures[0], TextureLink::Checker(1, 1));
    assert_eq!(links.order, vec![1, 0]);
}

#[test]
fn a_checker_with_a_missing_name_fails() {
    let missing = vec![solid("white"), checker("tiles", "white", "green")];
    assert!(transform(&missing, &vec![], &vec![]).is_none());
    let other = vec![checker("tiles", "grey", "white"), solid("white")];
    assert!(transform(&other, &vec![], &vec![]).is_none());
    assert_eq!(link_texture(&missing, 1), None);
    assert_eq!(link_texture(&missing, 0), Some(TextureLink::Solid));
}

#[test]
fn a_checker_that_reaches_itself_fails() {
    let itself = vec![solid("white"), checker("tiles", "white", "tiles")];
    assert!(transform(&itself, &vec![], &vec![]).is_none());
    let pair = vec![checker("a", "b", "white"), checker("b", "white", "a"), solid("white")];
    assert!(transform(&pair, &vec![], &vec![]).is_none());
    let ring = vec![
        solid("white"),
        checker("a", "white", "b"),
        checker("b", "c", "white"),
        checker("c", "a", "a"),
        checker("free", "white", "white"),
    ];
    assert!(transform(&ring, &vec![], &vec![]).is_none());
}

#[test]
fn arrange_orders_links_or_finds_a_ring() {
    let solid = TextureLink::Solid;
    let checker = TextureLink::Checker;
    assert_eq!(arrange(&vec![]), Some(vec![]));
    assert_eq!(arrange(&vec![solid, solid]), Some(vec![0, 1]));
    assert_eq!(arrange(&vec![checker(2, 1), checker(2, 2), solid]), Some(vec![2, 1, 0]));
    assert_eq!(arrange(&vec![checker(0, 0)]), None);
    assert_eq!(arrange(&vec![checker(1, 2), checker(0, 2), solid]), None);
}

#[test]
fn the_last_bearer_of_a_name_is_found() {
    let textures = vec![solid("a"), solid("b"), solid("a")];
    assert_eq!(find_texture(&textures, &"a".to_string()), Some(2));
    assert_eq!(find_texture(&textures, &"b".to_string()), Some(1));
    assert_eq!(find_texture(&textures, &"c".to_string()), None);
    assert_eq!(find_texture(&vec![], &"a".to_string()), None);
    let materials = vec![material("m", MaterialRefs::Metal), material("m", MaterialRefs::Dielectric)];
    assert_eq!(find_material(&materials, &"m".to_string()), Some(1));
    assert_eq!(find_material(&materials, &"n".to_string()), None);
    assert_eq!(link_material(&textures, &MaterialRefs::Metal), Some(MaterialLink::Metal));
    assert_eq!(
        link_material(&textures, &MaterialRefs::Lambertian { texture: "b".to_string() }),
        Some(MaterialLink::Lambertian(1))
    );
}

#[test]
fn checker_hands_on_to_one_of_its_textures() {
    let inner: Texture<u8, ()> =
        Texture::Checker(Box::new(Texture::Solid(1)), Box::new(Texture::Solid(2)));
    let outer = Texture::Checker(Box::new(inner), Box::new(Texture::Image(())));
    assert!(matches!(outer.resolve(true), Texture::Solid(1)));
    assert!(matches!(outer.resolve(false), Texture::Image(())));
    let solid: Texture<u8, ()> = Texture::Solid(9);
    assert!(matches!(solid.resolve(true), Texture::Solid(9)));
    assert!(matches!(solid.resolve(false), Texture::Solid(9)));
}

#[test]
fn texel_stays_on_the_image() {
    assert_eq!(texel(0, 100), 0);
    assert_eq!(texel(57, 100), 57);
    assert_eq!(texel(99, 100), 99);
    assert_eq!(texel(100, 100), 99);
    assert_eq!(texel(u32::MAX, 1), 0);
}

#[test]
fn rect_axis_places_and_reads_coordinates() {
    assert_eq!(RectAxis::XY.point((1, 2), 3), Point::new(1, 2, 3));
    assert_eq!(RectAxis::XZ.point((1, 2), 3), Point::new(1, 3, 2));
    assert_eq!(RectAxis::YZ.point((1, 2), 3), Point::new(3, 1, 2));
    let p = Point::new(7, 8, 9);
    assert_eq!((RectAxis::XY.k(p), RectAxis::XZ.k(p), RectAxis::YZ.k(p)), (9, 8, 7));
    assert_eq!(RectAxis::XY.uv(p), (7, 8));
    assert_eq!(RectAxis::XZ.uv(p), (7, 9));
    assert_eq!(RectAxis::YZ.uv(p), (8, 9));
    assert_eq!((RectAxis::XY.unit(), RectAxis::XZ.unit(), RectAxis::YZ.unit()), (2, 1, 0));
}

#[test]
fn rect_orders_its_corners() {
    let r = Rect::new(RectAxis::XZ, (5, -1), (2, 4), 10);
    assert_eq!(r.axis, RectAxis::XZ);
    assert_eq!(r.low, Point::new(2, 10, -1));
    assert_eq!(r.high, Point::new(5, 10, 4));
    assert_eq!(Rect::new(RectAxis::XZ, (2, 4), (5, -1), 10), r);
}

#[test]
fn block_has_two_faces_in_each_plane() {
    let block = Block::new(Point::new(0, 0, 0), Point::new(1, 2, 3));
    let expected = vec![
        Rect { axis: RectAxis::XY, low: Point::new(0, 0, 0), high: Point::new(1, 2, 0) },
        Rect { axis: RectAxis::XY, low: Point::new(0, 0, 3), high: Point::new(1, 2, 3) },
        Rect { axis: RectAxis::XZ, low: Point::new(0, 0, 0), high: Point::new(1, 0, 3) },
        Rect { axis: RectAxis::XZ, low: Point::new(0, 2, 0), high: Point::new(1, 2, 3) },
        Rect { axis: RectAxis::YZ, low: Point::new(0, 0, 0), high: Point::new(0, 2, 3) },
        Rect { axis: RectAxis::YZ, low: Point::new(1, 0, 0), high: Point::new(1, 2, 3) },
    ];
    assert_eq!(block.sides, expected);
}

#[test]
fn default_config_renders_the_window() {
    let config = Config::default();
    assert_eq!(config.output, None);
    assert_eq!((config.samples, config.threads), (50, 4));
    assert_eq!((config.width, config.height), (640, 360));
    assert!(config.is_renderable());
}

#[test]
fn config_without_workers_or_beyond_the_machine_is_refused() {
    let base = Config::default();
    assert!(!Config { threads: 0, ..base.clone() }.is_renderable());
    assert!(!Config { width: usize::MAX, height: 2, ..base.clone() }.is_renderable());
    assert!(!Config { height: usize::MAX, ..base.clone() }.is_renderable());
    assert!(Config { width: usize::MAX, height: 1, threads: 1, ..base.clone() }.is_renderable());
    assert!(Config { width: 7, height: 0, ..base }.is_renderable());
}

#[test]
fn bound_cloned_keeps_the_kind_of_bound() {
    assert_eq!(bound_cloned(Bound::Included(&5u8)), Bound::Included(5u8));
    assert_eq!(bound_cloned(Bound::Excluded(&"x".to_string())), Bound::Excluded("x".to_string()));
    assert_eq!(bound_cloned::<u8>(Bound::Unbounded), Bound::Unbounded);
}
