//! Axis-aligned bounding boxes and the slab test.
//!
//! Coordinates and ray parameters are exact, totally ordered `i64` values.
//! The box only ever compares them, so any order-preserving encoding of the
//! caller's number type will do.

use std::cmp::Ordering;
use vstd::prelude::*;

verus! {

/// A position, given by one ordered value per axis.
#[derive(Clone, Copy, Debug, PartialEq, Eq, Structural)]
pub struct Point {
    pub x: i64,
    pub y: i64,
    pub z: i64,
}

impl Point {
    /// The value along `axis`: 0 selects `x`, 1 selects `y`, anything else `z`.
    pub open spec fn at(self, axis: usize) -> i64 {
        if axis == 0 {
            self.x
        } else if axis == 1 {
            self.y
        } else {
            self.z
        }
    }

    /// The point with the given coordinates.
    pub fn new(x: i64, y: i64, z: i64) -> (p: Point)
        ensures
            p == (Point { x, y, z }),
    {
        Point { x, y, z }
    }

    /// The point at which every coordinate is the zero value.
    pub fn origin() -> (p: Point)
        ensures
            p == (Point { x: 0, y: 0, z: 0 }),
    {
        Point { x: 0, y: 0, z: 0 }
    }

    /// Reads the coordinate along `axis`.
    pub fn coord(&self, axis: usize) -> (c: i64)
        requires
            axis < 3,
        ensures
            c == self.at(axis),
    {
        if axis == 0 {
            self.x
        } else if axis == 1 {
            self.y
        } else {
            self.z
        }
    }
}

/// A ray, as far as a box needs to know it: for each axis, the parameter at
/// which the ray meets a plane perpendicular to that axis.
pub trait Ray {
    /// The parameter at which the ray crosses the plane where the coordinate
    /// along `axis` equals `plane`.
    spec fn crossing(&self, axis: usize, plane: i64) -> i64;

    /// Computes `crossing`.
    fn cross(&self, axis: usize, plane: i64) -> (t: i64)
        requires
            axis < 3,
        ensures
            t == self.crossing(axis, plane),
    ;
}

/// The lesser of two values.
pub open spec fn lower(a: int, b: int) -> int {
    if a <= b {
        a
    } else {
        b
    }
}

/// The greater of two values.
pub open spec fn upper(a: int, b: int) -> int {
    if a >= b {
        a
    } else {
        b
    }
}

/// An axis-aligned box, given by its two extreme corners.
#[derive(Clone, Copy, Debug, PartialEq, Eq, Structural)]
pub struct AABB {
    pub min: Point,
    pub max: Point,
}

impl AABB {
    /// The box is well formed when `min` is at most `max` on every axis.
    pub open spec fn wf(self) -> bool {
        self.min.x <= self.max.x && self.min.y <= self.max.y && self.min.z <= self.max.z
    }

    /// Whether `p` lies in the box, faces included.
    pub open spec fn contains(self, p: Point) -> bool {
        self.min.x <= p.x <= self.max.x && self.min.y <= p.y <= self.max.y && self.min.z <= p.z
            <= self.max.z
    }

    /// Whether every point of `inner` lies in this box.
    pub open spec fn encloses(self, inner: AABB) -> bool {
        self.contains(inner.min) && self.contains(inner.max)
    }

    /// The least box that encloses both `a` and `b`.
    pub open spec fn join(a: AABB, b: AABB) -> AABB {
        AABB {
            min: Point {
                x: lower(a.min.x as int, b.min.x as int) as i64,
                y: lower(a.min.y as int, b.min.y as int) as i64,
                z: lower(a.min.z as int, b.min.z as int) as i64,
            },
            max: Point {
                x: upper(a.max.x as int, b.max.x as int) as i64,
                y: upper(a.max.y as int, b.max.y as int) as i64,
                z: upper(a.max.z as int, b.max.z as int) as i64,
            },
        }
    }

    /// The parameter at which `ray` comes between the two planes of `axis`.
    pub open spec fn axis_entry<R: Ray>(self, ray: &R, axis: usize) -> int {
        lower(
            ray.crossing(axis, self.min.at(axis)) as int,
            ray.crossing(axis, self.max.at(axis)) as int,
        )
    }

    /// The parameter at which `ray` leaves the two planes of `axis`.
    pub open spec fn axis_exit<R: Ray>(self, ray: &R, axis: usize) -> int {
        upper(
            ray.crossing(axis, self.min.at(axis)) as int,
            ray.crossing(axis, self.max.at(axis)) as int,
        )
    }

    /// The parameter from which `ray` is between the planes of all three axes.
    pub open spec fn entry<R: Ray>(self, ray: &R) -> int {
        upper(upper(self.axis_entry(ray, 0), self.axis_entry(ray, 1)), self.axis_entry(ray, 2))
    }

    /// The parameter up to which `ray` is between the planes of all three axes.
    pub open spec fn exit<R: Ray>(self, ray: &R) -> int {
        lower(lower(self.axis_exit(ray, 0), self.axis_exit(ray, 1)), self.axis_exit(ray, 2))
    }

    /// Whether `ray` is between the planes of all three axes at the
    /// parameter `t`.
    pub open spec fn inside_at<R: Ray>(self, ray: &R, t: int) -> bool {
        self.entry(ray) <= t < self.exit(ray)
    }

    /// Whether `ray` is inside the box for some parameter of the half-open
    /// range from `start` to `end`.
    pub open spec fn meets<R: Ray>(self, ray: &R, start: i64, end: i64) -> bool {
        upper(start as int, self.entry(ray)) < lower(end as int, self.exit(ray))
    }

    /// The box between two corners.
    pub fn new(min: Point, max: Point) -> (b: AABB)
        ensures
            b == (AABB { min, max }),
    {
        AABB { min, max }
    }

    /// The least box that encloses both arguments.
    pub fn containing(box1: AABB, box2: AABB) -> (b: AABB)
        ensures
            b == AABB::join(box1, box2),
    {
        let min = Point::new(
            if box1.min.x <= box2.min.x { box1.min.x } else { box2.min.x },
            if box1.min.y <= box2.min.y { box1.min.y } else { box2.min.y },
            if box1.min.z <= box2.min.z { box1.min.z } else { box2.min.z },
        );
        let max = Point::new(
            if box1.max.x >= box2.max.x { box1.max.x } else { box2.max.x },
            if box1.max.y >= box2.max.y { box1.max.y } else { box2.max.y },
            if box1.max.z >= box2.max.z { box1.max.z } else { box2.max.z },
        );
        AABB::new(min, max)
    }

    /// Tests whether `p` lies in the box, faces included.
    pub fn holds(&self, p: Point) -> (b: bool)
        ensures
            b == self.contains(p),
    {
        self.min.x <= p.x && p.x <= self.max.x && self.min.y <= p.y && p.y <= self.max.y
            && self.min.z <= p.z && p.z <= self.max.z
    }

    /// The box that starts out empty between `highest` and `lowest` and is
    /// stretched to each of `points` in turn.
    pub open spec fn span(points: Seq<Point>, lowest: i64, highest: i64) -> AABB
        decreases points.len(),
    {
        if points.len() == 0 {
            AABB {
                min: Point { x: highest, y: highest, z: highest },
                max: Point { x: lowest, y: lowest, z: lowest },
            }
        } else {
            AABB::join(
                AABB::span(points.drop_last(), lowest, highest),
                AABB { min: points.last(), max: points.last() },
            )
        }
    }

    /// The least box around `points`, where no coordinate is below
    /// `lowest` or above `highest`.
    pub fn spanning(points: &Vec<Point>, lowest: i64, highest: i64) -> (b: AABB)
        ensures
            b == AABB::span(points@, lowest, highest),
    {
        let mut b = AABB::new(
            Point::new(highest, highest, highest),
            Point::new(lowest, lowest, lowest),
        );
        let mut i: usize = 0;
        while i < points.len()
            invariant
                i <= points@.len(),
                b == AABB::span(points@.take(i as int), lowest, highest),
            decreases points@.len() - i,
        {
            proof {
                let upto = points@.take(i + 1);
                assert(upto.drop_last() == points@.take(i as int));
                assert(upto.last() == points@[i as int]);
            }
            b = AABB::containing(b, AABB::new(points[i], points[i]));
            i = i + 1;
        }
        proof {
            assert(points@.take(i as int) == points@);
        }
        b
    }

    /// The slab test: narrows the range from `start` to `end` by the two
    /// planes of each axis in turn and gives up as soon as nothing is left.
    pub fn hit<R: Ray>(&self, ray: &R, start: i64, end: i64) -> (r: bool)
        ensures
            r == self.meets(ray, start, end),
    {
        let mut lo: i64 = start;
        let mut hi: i64 = end;
        let mut axis: usize = 0;
        while axis < 3
            invariant
                axis <= 3,
                axis > 0 ==> lo < hi,
                lo as int == if axis == 0 {
                    start as int
                } else if axis == 1 {
                    upper(start as int, self.axis_entry(ray, 0))
                } else if axis == 2 {
                    upper(start as int, upper(self.axis_entry(ray, 0), self.axis_entry(ray, 1)))
                } else {
                    upper(start as int, self.entry(ray))
                },
                hi as int == if axis == 0 {
                    end as int
                } else if axis == 1 {
                    lower(end as int, self.axis_exit(ray, 0))
                } else if axis == 2 {
                    lower(end as int, lower(self.axis_exit(ray, 0), self.axis_exit(ray, 1)))
                } else {
                    lower(end as int, self.exit(ray))
                },
            decreases 3 - axis,
        {
            let t0 = ray.cross(axis, self.min.coord(axis));
            let t1 = ray.cross(axis, self.max.coord(axis));
            let t_in = if t0 <= t1 { t0 } else { t1 };
            let t_out = if t0 >= t1 { t0 } else { t1 };
            if t_in > lo {
                lo = t_in;
            }
            if t_out < hi {
                hi = t_out;
            }
            if hi <= lo {
                return false;
            }
            axis = axis + 1;
        }
        true
    }

    /// Orders two boxes by their least coordinate along `axis`.
    pub fn cmp_axis(&self, other: &AABB, axis: usize) -> (o: Ordering)
        requires
            axis < 3,
        ensures
            (o == Ordering::Less) == (self.min.at(axis) < other.min.at(axis)),
            (o == Ordering::Equal) == (self.min.at(axis) == other.min.at(axis)),
            (o == Ordering::Greater) == (self.min.at(axis) > other.min.at(axis)),
    {
        let a = self.min.coord(axis);
        let b = other.min.coord(axis);
        if a < b {
            Ordering::Less
        } else if a == b {
            Ordering::Equal
        } else {
            Ordering::Greater
        }
    }
}

/// The join of two well-formed boxes is well formed and encloses both.
pub proof fn lemma_join_encloses(a: AABB, b: AABB)
    requires
        a.wf(),
        b.wf(),
    ensures
        AABB::join(a, b).wf(),
        AABB::join(a, b).encloses(a),
        AABB::join(a, b).encloses(b),
{
}

/// The join is the least such box: whatever encloses `a` and `b` encloses
/// their join.
pub proof fn lemma_join_is_least(a: AABB, b: AABB, c: AABB)
    requires
        c.encloses(a),
        c.encloses(b),
    ensures
        c.encloses(AABB::join(a, b)),
{
}

/// Along `axis`, the ray crosses planes with greater coordinates no
/// earlier.
pub open spec fn rising<R: Ray>(ray: &R, axis: usize) -> bool {
    forall|a: i64, b: i64|
        a <= b ==> #[trigger] ray.crossing(axis, a) <= #[trigger] ray.crossing(axis, b)
}

/// Along `axis`, the ray crosses planes with greater coordinates no later.
pub open spec fn falling<R: Ray>(ray: &R, axis: usize) -> bool {
    forall|a: i64, b: i64|
        a <= b ==> #[trigger] ray.crossing(axis, a) >= #[trigger] ray.crossing(axis, b)
}

/// A ray is steady when along each axis it moves one way only: its
/// crossings rise with the plane's coordinate, or they fall with it.
pub open spec fn steady<R: Ray>(ray: &R) -> bool {
    forall|axis: usize| axis < 3 ==> #[trigger] rising(ray, axis) || falling(ray, axis)
}

/// Between the planes of an enclosing box a steady ray spends at least the
/// parameters that it spends between those of the box inside.
proof fn lemma_enclosing_slab<R: Ray>(outer: AABB, inner: AABB, ray: &R, axis: usize)
    requires
        axis < 3,
        rising(ray, axis) || falling(ray, axis),
        outer.encloses(inner),
    ensures
        outer.axis_entry(ray, axis) <= inner.axis_entry(ray, axis),
        inner.axis_exit(ray, axis) <= outer.axis_exit(ray, axis),
{
    let a = outer.min.at(axis);
    let b = inner.min.at(axis);
    let c = inner.max.at(axis);
    let d = outer.max.at(axis);
    assert(a <= b && a <= c && b <= d && c <= d);
    if rising(ray, axis) {
        assert(ray.crossing(axis, a) <= ray.crossing(axis, b));
        assert(ray.crossing(axis, a) <= ray.crossing(axis, c));
        assert(ray.crossing(axis, b) <= ray.crossing(axis, d));
        assert(ray.crossing(axis, c) <= ray.crossing(axis, d));
    } else {
        assert(ray.crossing(axis, a) >= ray.crossing(axis, b));
        assert(ray.crossing(axis, a) >= ray.crossing(axis, c));
        assert(ray.crossing(axis, b) >= ray.crossing(axis, d));
        assert(ray.crossing(axis, c) >= ray.crossing(axis, d));
    }
}

/// A steady ray that meets a box on a range meets every box around it on
/// every range with the same start and a later end.
pub proof fn lemma_enclosing_box_meets<R: Ray>(
    outer: AABB,
    inner: AABB,
    ray: &R,
    start: i64,
    end: i64,
    later: i64,
)
    requires
        steady(ray),
        outer.encloses(inner),
        inner.meets(ray, start, end),
        end <= later,
    ensures
        outer.meets(ray, start, later),
{
    assert(rising(ray, 0) || falling(ray, 0));
    assert(rising(ray, 1) || falling(ray, 1));
    assert(rising(ray, 2) || falling(ray, 2));
    lemma_enclosing_slab(outer, inner, ray, 0);
    lemma_enclosing_slab(outer, inner, ray, 1);
    lemma_enclosing_slab(outer, inner, ray, 2);
}

/// The slab test answers whether the range asked for and the stretch of
/// parameters on which the ray is inside the box have a parameter in
/// common: it fails exactly when the range lies wholly outside that
/// stretch.
pub proof fn lemma_meets_is_overlap<R: Ray>(b: AABB, ray: &R, start: i64, end: i64)
    ensures
        b.meets(ray, start, end) <==> exists|t: int|
            start <= t < end && #[trigger] b.inside_at(ray, t),
{
    if b.meets(ray, start, end) {
        let t = upper(start as int, b.entry(ray));
        assert(start <= t < end && b.inside_at(ray, t));
    }
}

/// A box stretched over points between `lowest` and `highest` holds each
/// of them, and is well formed if there is any.
pub proof fn lemma_span_holds_points(points: Seq<Point>, lowest: i64, highest: i64, i: int)
    requires
        0 <= i < points.len(),
        forall|k: int|
            0 <= k < points.len() ==> (AABB {
                min: Point { x: lowest, y: lowest, z: lowest },
                max: Point { x: highest, y: highest, z: highest },
            }).contains(#[trigger] points[k]),
    ensures
        AABB::span(points, lowest, highest).contains(points[i]),
        AABB::span(points, lowest, highest).wf(),
    decreases points.len(),
{
    let front = points.drop_last();
    assert(points[points.len() - 1] == points.last());
    if front.len() > 0 {
        assert forall|k: int| 0 <= k < front.len() implies (AABB {
            min: Point { x: lowest, y: lowest, z: lowest },
            max: Point { x: highest, y: highest, z: highest },
        }).contains(#[trigger] front[k]) by {
            assert(front[k] == points[k]);
        }
        if i < front.len() {
            lemma_span_holds_points(front, lowest, highest, i);
            assert(front[i] == points[i]);
        } else {
            lemma_span_holds_points(front, lowest, highest, 0);
        }
    }
}

} // verus!
