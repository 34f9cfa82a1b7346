use raest::aabb::{Point, Ray, AABB};
use raest::bvh::{build, sort_along_axis, BVHNode, Tree};
use raest::hittable::{Hit, Hittable, HittableList};
use raest::scene::Scene;
use raest::sphere::nearest_root;

fn key(x: f64) -> i64 {
    let bits = (x + 0.0).to_bits() as i64;
    if bits < 0 {
        bits ^ i64::MAX
    } else {
        bits
    }
}

fn unkey(k: i64) -> f64 {
    let bits = if k < 0 { k ^ i64::MAX } else { k };
    f64::from_bits(bits as u64)
}

fn point(x: f64, y: f64, z: f64) -> Point {
    Point::new(key(x), key(y), key(z))
}

#[derive(Clone, Copy)]
struct Line {
    origin: [f64; 3],
    dir: [f64; 3],
}

impl Line {
    fn at(&self, t: f64) -> [f64; 3] {
        [
            self.origin[0] + t * self.dir[0],
            self.origin[1] + t * self.dir[1],
            self.origin[2] + t * self.dir[2],
        ]
    }
}

impl Ray for Line {
    fn crossing(&self, axis: usize, plane: i64) -> i64 {
        key((unkey(plane) - self.origin[axis]) / self.dir[axis])
    }

    fn cross(&self, axis: usize, plane: i64) -> i64 {
        self.crossing(axis, plane)
    }
}

#[derive(Clone, Copy, Debug, PartialEq)]
struct Ball {
    id: usize,
    center: [f64; 3],
    radius: f64,
    light: bool,
}

fn dot(a: [f64; 3], b: [f64; 3]) -> f64 {
    a[0] * b[0] + a[1] * b[1] + a[2] * b[2]
}

impl Hittable for Ball {
    type Ray = Line;
    type Detail = usize;

    fn emits(&self) -> bool {
        self.light
    }

    fn bounds(&self) -> AABB {
        let c = self.center;
        let r = self.radius;
        AABB::new(point(c[0] - r, c[1] - r, c[2] - r), point(c[0] + r, c[1] + r, c[2] + r))
    }

    fn crossing(&self, ray: &Line, start: i64, end: i64) -> Option<Hit<usize>> {
        let oc = [
            ray.origin[0] - self.center[0],
            ray.origin[1] - self.center[1],
            ray.origin[2] - self.center[2],
        ];
        let a = dot(ray.dir, ray.dir);
        let half_b = dot(oc, ray.dir);
        let c = dot(oc, oc) - self.radius * self.radius;
        let discriminant = half_b * half_b - a * c;
        if discriminant < 0.0 {
            return None;
        }
        let root = discriminant.sqrt();
        let t1 = key((-half_b - root) / a);
        let t2 = key((-half_b + root) / a);
        nearest_root(t1, t2, start, end).map(|t| Hit { t, detail: self.id })
    }

    fn is_light(&self) -> bool {
        self.emits()
    }

    fn bounding_box(&self) -> AABB {
        self.bounds()
    }

    fn hit(&self, ray: &Line, start: i64, end: i64) -> Option<Hit<usize>> {
        self.crossing(ray, start, end)
    }
}

fn ball(id: usize, x: f64, y: f64, z: f64, radius: f64) -> Ball {
    Ball { id, center: [x, y, z], radius, light: false }
}

/// A small generator with a fixed sequence.
struct Lcg(u64);

impl Lcg {
    fn next(&mut self) -> f64 {
        self.0 = self.0.wrapping_mul(6364136223846793005).wrapping_add(1442695040888963407);
        ((self.0 >> 11) as f64) / ((1u64 << 53) as f64)
    }

    fn between(&mut self, lo: f64, hi: f64) -> f64 {
        lo + (hi - lo) * self.next()
    }
}

fn random_balls(rng: &mut Lcg, n: usize) -> Vec<Ball> {
    (0..n)
        .map(|id| {
            ball(
                id,
                rng.between(-10.0, 10.0),
                rng.between(-10.0, 10.0),
                rng.between(-10.0, 10.0),
                rng.between(0.1, 1.5),
            )
        })
        .collect()
}

fn random_line(rng: &mut Lcg) -> Line {
    Line {
        origin: [rng.between(-15.0, 15.0), rng.between(-15.0, 15.0), rng.between(-15.0, 15.0)],
        dir: [rng.between(-1.0, 1.0), rng.between(-1.0, 1.0), rng.between(-1.0, 1.0)],
    }
}

fn brute_force(balls: &[Ball], ray: &Line, start: i64, end: i64) -> Option<(usize, i64)> {
    let mut best: Option<(usize, i64)> = None;
    for b in balls {
        if let Some(h) = b.hit(ray, start, end) {
            if best.map_or(true, |(_, t)| h.t < t) {
                best = Some((h.detail, h.t));
            }
        }
    }
    best
}

fn check_equivalence(n: usize, seed: u64, rays: usize) {
    let mut rng = Lcg(seed);
    let balls = random_balls(&mut rng, n);
    let bvh = BVHNode::from_hittables(balls.clone());
    let list = HittableList::new(balls.clone());
    let mut found = 0;
    for _ in 0..rays {
        let ray = random_line(&mut rng);
        let start = key(0.0001);
        let end = key(if rng.next() < 0.5 { f64::INFINITY } else { rng.between(1.0, 30.0) });
        let expected = brute_force(&balls, &ray, start, end);
        let by_tree = bvh.hit(&ray, start, end).map(|h| (h.detail, h.t));
        let by_list = list.hit(&ray, start, end).map(|h| (h.detail, h.t));
        assert_eq!(by_tree, expected);
        assert_eq!(by_list, expected);
        if expected.is_some() {
            found += 1;
        }
    }
    if n >= 10 {
        assert!(found > 0);
    }
}

#[test]
fn hierarchy_agrees_with_scan_on_one_primitive() {
    check_equivalence(1, 11, 200);
}

#[test]
fn hierarchy_agrees_with_scan_on_two_primitives() {
    check_equivalence(2, 22, 200);
}

#[test]
fn hierarchy_agrees_with_scan_on_ten_primitives() {
    check_equivalence(10, 33, 300);
}

#[test]
fn hierarchy_agrees_with_scan_on_a_thousand_primitives() {
    check_equivalence(1000, 44, 200);
}

#[test]
fn ray_through_unit_sphere_hits_its_surface() {
    let sphere = ball(0, 0.0, 0.0, 0.0, 1.0);
    let ray = Line { origin: [0.0, 0.0, 5.0], dir: [0.0, 0.0, -1.0] };
    let hit = sphere.hit(&ray, key(0.0001), key(f64::INFINITY)).unwrap();
    assert_eq!(unkey(hit.t), 4.0);
    let p = ray.at(unkey(hit.t));
    let distance = dot(p, p).sqrt();
    assert!((distance - 1.0).abs() < 1e-9);
    // From behind the near crossing, the far one is found.
    let far = sphere.hit(&ray, key(4.5), key(f64::INFINITY)).unwrap();
    assert_eq!(unkey(far.t), 6.0);
    assert!(sphere.hit(&ray, key(6.5), key(f64::INFINITY)).is_none());
    assert!(sphere.hit(&ray, key(0.0001), key(4.0)).is_none());
}

#[test]
fn nearest_root_prefers_the_near_crossing() {
    assert_eq!(nearest_root(4, 6, 0, 10), Some(4));
    assert_eq!(nearest_root(4, 6, 5, 10), Some(6));
    assert_eq!(nearest_root(4, 6, 4, 5), Some(4));
    assert_eq!(nearest_root(4, 6, 0, 4), None);
    assert_eq!(nearest_root(4, 6, 7, 10), None);
    assert_eq!(nearest_root(4, 6, 5, 6), None);
}

fn leaves(tree: &Tree, out: &mut Vec<usize>) {
    match tree {
        Tree::Leaf(i) => out.push(*i),
        Tree::Node { left, right, .. } => {
            leaves(left, out);
            leaves(right, out);
        }
    }
}

fn check_boxes(tree: &Tree, boxes: &[AABB]) -> AABB {
    match tree {
        Tree::Leaf(i) => boxes[*i],
        Tree::Node { aabb, left, right } => {
            let l = check_boxes(left, boxes);
            let r = check_boxes(right, boxes);
            assert_eq!(*aabb, AABB::containing(l, r));
            *aabb
        }
    }
}

#[test]
fn single_primitive_becomes_both_children() {
    let bvh = BVHNode::from_hittables(vec![ball(0, 1.0, 2.0, 3.0, 0.5)]);
    match bvh.root() {
        Tree::Node { aabb, left, right } => {
            assert!(matches!(**left, Tree::Leaf(0)));
            assert!(matches!(**right, Tree::Leaf(0)));
            assert_eq!(*aabb, ball(0, 1.0, 2.0, 3.0, 0.5).bounds());
        }
        Tree::Leaf(_) => panic!("the root is a node"),
    }
    assert_eq!(bvh.bounding_box(), ball(0, 1.0, 2.0, 3.0, 0.5).bounds());
    assert!(!bvh.is_light());
}

#[test]
fn two_primitives_are_ordered_along_x() {
    let bvh = BVHNode::from_hittables(vec![ball(0, 5.0, 0.0, 0.0, 1.0), ball(1, -5.0, 0.0, 0.0, 1.0)]);
    let mut order = vec![];
    leaves(bvh.root(), &mut order);
    assert_eq!(order, vec![1, 0]);
    let same = BVHNode::from_hittables(vec![ball(0, 0.0, 1.0, 0.0, 1.0), ball(1, 0.0, -1.0, 0.0, 1.0)]);
    let mut order = vec![];
    leaves(same.root(), &mut order);
    assert_eq!(order, vec![0, 1]);
}

#[test]
fn larger_sets_are_split_at_the_middle_and_axes_rotate() {
    // Along x: ids 3, 1, 4, 0, 2. The halves are {3, 1} and {4, 0, 2}.
    let balls = vec![
        ball(0, 3.0, 0.0, 0.0, 0.5),
        ball(1, 1.0, 9.0, 0.0, 0.5),
        ball(2, 4.0, 5.0, 0.0, 0.5),
        ball(3, 0.0, 1.0, 0.0, 0.5),
        ball(4, 2.0, 7.0, 0.0, 0.5),
    ];
    let boxes: Vec<AABB> = balls.iter().map(|b| b.bounds()).collect();
    let bvh = BVHNode::from_hittables(balls);
    let mut order = vec![];
    leaves(bvh.root(), &mut order);
    // Left half along y: 3 (y = 1) before 1 (y = 9). Right half {4, 0, 2} along
    // y: 0, 2, 4, split into {0} and {2, 4}; {2, 4} along z keeps its order.
    assert_eq!(order, vec![3, 1, 0, 0, 2, 4]);
    check_boxes(bvh.root(), &boxes);
}

#[test]
fn sort_is_stable_and_ascending() {
    let boxes: Vec<AABB> = [2.0, 1.0, 2.0, 0.0, 1.0]
        .iter()
        .map(|x| AABB::new(point(*x, 0.0, 0.0), point(*x + 1.0, 1.0, 1.0)))
        .collect();
    let sorted = sort_along_axis(&boxes, &vec![0, 1, 2, 3, 4], 0);
    assert_eq!(sorted, vec![3, 1, 4, 0, 2]);
    let sorted = sort_along_axis(&boxes, &vec![4, 3, 2, 1, 0], 0);
    assert_eq!(sorted, vec![3, 4, 1, 2, 0]);
    assert_eq!(sort_along_axis(&boxes, &vec![2, 0], 1), vec![2, 0]);
    assert_eq!(sort_along_axis(&boxes, &vec![], 2), Vec::<usize>::new());
}

#[test]
fn build_covers_every_primitive_with_nested_boxes() {
    let mut rng = Lcg(7);
    let balls = random_balls(&mut rng, 37);
    let boxes: Vec<AABB> = balls.iter().map(|b| b.bounds()).collect();
    let tree = build(&boxes, (0..37).collect(), 0);
    let mut order = vec![];
    leaves(&tree, &mut order);
    order.sort();
    order.dedup();
    assert_eq!(order, (0..37).collect::<Vec<usize>>());
    let top = check_boxes(&tree, &boxes);
    for b in &boxes {
        assert!(top.holds(b.min) && top.holds(b.max));
    }
    assert_eq!(tree.bounding_box(&boxes), top);
}

#[test]
fn list_reports_the_nearest_hit_and_its_bounds() {
    let near = ball(0, 0.0, 0.0, -3.0, 1.0);
    let far = ball(1, 0.0, 0.0, -8.0, 1.0);
    let ray = Line { origin: [0.0, 0.0, 0.0], dir: [0.0, 0.0, -1.0] };
    for order in [vec![near, far], vec![far, near]] {
        let list = HittableList::new(order);
        let hit = list.hit(&ray, key(0.0001), key(f64::INFINITY)).unwrap();
        assert_eq!((hit.detail, unkey(hit.t)), (0, 2.0));
        assert_eq!(list.bounding_box(), AABB::new(point(-1.0, -1.0, -9.0), point(1.0, 1.0, -2.0)));
        assert!(!list.is_light());
        assert_eq!(list.len(), 2);
        assert!(!list.is_empty());
    }
    let hit = HittableList::new(vec![near, far]).hit(&ray, key(5.0), key(f64::INFINITY)).unwrap();
    assert_eq!((hit.detail, unkey(hit.t)), (1, 7.0));
}

#[test]
fn empty_list_has_the_box_at_the_origin_and_no_hit() {
    let list: HittableList<Ball> = HittableList::new(vec![]);
    assert!(list.is_empty());
    assert_eq!(list.bounding_box(), AABB::new(Point::origin(), Point::origin()));
    let ray = Line { origin: [0.0, 0.0, 0.0], dir: [0.0, 0.0, -1.0] };
    assert!(list.hit(&ray, key(0.0), key(f64::INFINITY)).is_none());
    assert!(list.random().is_none());
}

#[test]
fn list_draws_one_of_its_members() {
    let members = vec![ball(0, 0.0, 0.0, 0.0, 1.0), ball(1, 3.0, 0.0, 0.0, 1.0), ball(2, 6.0, 0.0, 0.0, 1.0)];
    let list = HittableList::new(members.clone());
    let mut seen = [false; 3];
    for _ in 0..200 {
        let chosen = list.random().unwrap();
        assert!(members.contains(chosen));
        seen[chosen.id] = true;
    }
    assert_eq!(seen, [true, true, true]);
}

fn lit(mut b: Ball) -> Ball {
    b.light = true;
    b
}

#[test]
fn scene_lists_its_lights_in_order() {
    let objects = vec![
        ball(0, 0.0, -100.0, 0.0, 100.0),
        lit(ball(1, 0.0, 5.0, 0.0, 1.0)),
        ball(2, 2.0, 1.0, 0.0, 1.0),
        lit(ball(3, -2.0, 5.0, 0.0, 1.0)),
    ];
    let scene = Scene::from_objects([0.5, 0.7, 1.0], objects.clone());
    assert_eq!(scene.lights(), &vec![1, 3]);
    assert!(scene.has_lights());
    assert_eq!(scene.objects(), &objects);
    assert_eq!(scene.background(), &[0.5, 0.7, 1.0]);
    let mut seen = [false; 4];
    for _ in 0..200 {
        seen[scene.random_light().unwrap()] = true;
    }
    assert_eq!(seen, [false, true, false, true]);
}

#[test]
fn scene_without_lights_draws_none() {
    let scene = Scene::from_objects(0u8, vec![ball(0, 0.0, 0.0, 0.0, 1.0)]);
    assert!(scene.lights().is_empty());
    assert!(!scene.has_lights());
    assert_eq!(scene.random_light(), None);
}

#[test]
fn scene_hit_goes_through_the_hierarchy() {
    let objects = vec![
        ball(0, 0.0, -100.0, 0.0, 100.0),
        ball(1, 0.0, 1.0, -5.0, 1.0),
        ball(2, 0.0, 1.0, -9.0, 1.0),
    ];
    let scene = Scene::from_objects((), objects);
    let forward = Line { origin: [0.0, 1.0, 0.0], dir: [0.0, 0.0, -1.0] };
    let hit = scene.hit(&forward, key(0.0001), key(f64::INFINITY)).unwrap();
    assert_eq!((hit.detail, unkey(hit.t)), (1, 4.0));
    let down = Line { origin: [5.0, 3.0, 0.0], dir: [0.0, -1.0, 0.0] };
    let hit = scene.hit(&down, key(0.0001), key(f64::INFINITY)).unwrap();
    assert_eq!(hit.detail, 0);
    let up = Line { origin: [5.0, 3.0, 0.0], dir: [0.0, 1.0, 0.0] };
    assert!(scene.hit(&up, key(0.0001), key(f64::INFINITY)).is_none());
}
