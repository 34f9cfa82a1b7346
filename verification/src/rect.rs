//! Axis-aligned rectangles: which plane one lies in, and where.

use crate::aabb::{lower, upper, Point, Ray, AABB};
use vstd::prelude::*;

verus! {

/// The pair of axes that spans an axis-aligned rectangle.
#[derive(Debug, Copy, Clone, PartialEq, Eq, Structural)]
pub enum RectAxis {
    XY,
    XZ,
    YZ,
}

impl RectAxis {
    /// The point with the in-plane coordinates `ab` and the coordinate `k`
    /// along the normal.
    pub open spec fn placed(self, ab: (i64, i64), k: i64) -> Point {
        match self {
            RectAxis::XY => Point { x: ab.0, y: ab.1, z: k },
            RectAxis::XZ => Point { x: ab.0, y: k, z: ab.1 },
            RectAxis::YZ => Point { x: k, y: ab.0, z: ab.1 },
        }
    }

    /// The index of the axis that the plane is perpendicular to.
    pub open spec fn normal(self) -> usize {
        match self {
            RectAxis::XY => 2,
            RectAxis::XZ => 1,
            RectAxis::YZ => 0,
        }
    }

    /// The two in-plane coordinates of `p`.
    pub open spec fn in_plane(self, p: Point) -> (i64, i64) {
        match self {
            RectAxis::XY => (p.x, p.y),
            RectAxis::XZ => (p.x, p.z),
            RectAxis::YZ => (p.y, p.z),
        }
    }

    pub fn point(&self, ab: (i64, i64), k: i64) -> (p: Point)
        ensures
            p == self.placed(ab, k),
    {
        match self {
            RectAxis::XY => Point::new(ab.0, ab.1, k),
            RectAxis::XZ => Point::new(ab.0, k, ab.1),
            RectAxis::YZ => Point::new(k, ab.0, ab.1),
        }
    }

    /// The axis along which the unit normal of the plane points.
    pub fn unit(&self) -> (axis: usize)
        ensures
            axis == self.normal(),
    {
        match self {
            RectAxis::XY => 2,
            RectAxis::XZ => 1,
            RectAxis::YZ => 0,
        }
    }

    /// The coordinate of `vector` along the normal.
    pub fn k(&self, vector: Point) -> (k: i64)
        ensures
            k == vector.at(self.normal()),
    {
        match self {
            RectAxis::XY => vector.z,
            RectAxis::XZ => vector.y,
            RectAxis::YZ => vector.x,
        }
    }

    /// The in-plane coordinates of `vector`.
    pub fn uv(&self, vector: Point) -> (uv: (i64, i64))
        ensures
            uv == self.in_plane(vector),
    {
        match self {
            RectAxis::XY => (vector.x, vector.y),
            RectAxis::XZ => (vector.x, vector.z),
            RectAxis::YZ => (vector.y, vector.z),
        }
    }
}

/// Placing a point and reading it back gives the coordinates it was placed
/// with.
pub proof fn lemma_placed_reads_back(axis: RectAxis, ab: (i64, i64), k: i64)
    ensures
        axis.placed(ab, k).at(axis.normal()) == k,
        axis.in_plane(axis.placed(ab, k)) == ab,
{
}

/// An axis-aligned rectangle: its plane and its two extreme corners.
#[derive(Debug, Copy, Clone, PartialEq, Eq, Structural)]
pub struct Rect {
    pub axis: RectAxis,
    pub low: Point,
    pub high: Point,
}

impl Rect {
    /// The rectangle in the plane `k` of `axis` between two opposite
    /// corners, given by their in-plane coordinates in any order.
    pub open spec fn between(axis: RectAxis, c1: (i64, i64), c2: (i64, i64), k: i64) -> Rect {
        Rect {
            axis,
            low: axis.placed(
                (lower(c1.0 as int, c2.0 as int) as i64, lower(c1.1 as int, c2.1 as int) as i64),
                k,
            ),
            high: axis.placed(
                (upper(c1.0 as int, c2.0 as int) as i64, upper(c1.1 as int, c2.1 as int) as i64),
                k,
            ),
        }
    }

    /// The coordinate of the rectangle's plane along its normal.
    pub open spec fn plane(self) -> i64 {
        self.low.at(self.axis.normal())
    }

    /// The parameter at which `ray` crosses the rectangle's plane, if it
    /// lies in the range from `start` to `end`.
    pub open spec fn plane_crossing<R: Ray>(self, ray: &R, start: i64, end: i64) -> Option<i64> {
        let t = ray.crossing(self.axis.normal(), self.plane());
        if start <= t < end {
            Some(t)
        } else {
            None
        }
    }

    pub fn new(axis: RectAxis, c1: (i64, i64), c2: (i64, i64), k: i64) -> (rect: Rect)
        ensures
            rect == Rect::between(axis, c1, c2, k),
    {
        let a1 = if c1.0 <= c2.0 { c1.0 } else { c2.0 };
        let b1 = if c1.1 <= c2.1 { c1.1 } else { c2.1 };
        let a2 = if c1.0 >= c2.0 { c1.0 } else { c2.0 };
        let b2 = if c1.1 >= c2.1 { c1.1 } else { c2.1 };
        Rect { axis, low: axis.point((a1, b1), k), high: axis.point((a2, b2), k) }
    }

    /// Intersects `ray` with the rectangle's plane: the parameter of the
    /// crossing, if it lies in the range.
    pub fn hit_plane<R: Ray>(&self, ray: &R, start: i64, end: i64) -> (t: Option<i64>)
        ensures
            t == self.plane_crossing(ray, start, end),
    {
        let k = self.axis.k(self.low);
        let t = ray.cross(self.axis.unit(), k);
        if start <= t && t < end {
            Some(t)
        } else {
            None
        }
    }
}

/// The corners of a rectangle are in order: the box between them is well
/// formed and flat along the normal.
pub proof fn lemma_rect_corners_ordered(axis: RectAxis, c1: (i64, i64), c2: (i64, i64), k: i64)
    ensures
        (AABB {
            min: Rect::between(axis, c1, c2, k).low,
            max: Rect::between(axis, c1, c2, k).high,
        }).wf(),
        Rect::between(axis, c1, c2, k).low.at(axis.normal()) == k,
        Rect::between(axis, c1, c2, k).high.at(axis.normal()) == k,
{
}

/// A rectangle's plane is crossed once: a shorter range only drops the
/// crossing where it lies beyond the new end.
pub proof fn lemma_plane_crossing_shorter_range<R: Ray>(
    rect: Rect,
    ray: &R,
    start: i64,
    end: i64,
    nearer: i64,
)
    requires
        nearer <= end,
    ensures
        rect.plane_crossing(ray, start, nearer) == match rect.plane_crossing(ray, start, end) {
            Some(t) => if t < nearer {
                Some(t)
            } else {
                None
            },
            None => None,
        },
{
}

/// The six faces of the block between two opposite corners: the two faces
/// in each of the planes XY, XZ and YZ, the one through `low` first.
pub open spec fn block_faces(low: Point, high: Point) -> Seq<Rect> {
    seq![
        Rect::between(RectAxis::XY, (low.x, low.y), (high.x, high.y), low.z),
        Rect::between(RectAxis::XY, (low.x, low.y), (high.x, high.y), high.z),
        Rect::between(RectAxis::XZ, (low.x, low.z), (high.x, high.z), low.y),
        Rect::between(RectAxis::XZ, (low.x, low.z), (high.x, high.z), high.y),
        Rect::between(RectAxis::YZ, (low.y, low.z), (high.y, high.z), low.x),
        Rect::between(RectAxis::YZ, (low.y, low.z), (high.y, high.z), high.x),
    ]
}

/// The faces of a block.
pub struct Block {
    pub sides: Vec<Rect>,
}

impl Block {
    /// The block between two opposite corners, given in any order.
    pub fn new(low: Point, high: Point) -> (block: Block)
        ensures
            block.sides@ == block_faces(low, high),
    {
        let mut sides: Vec<Rect> = Vec::new();
        sides.push(Rect::new(RectAxis::XY, (low.x, low.y), (high.x, high.y), low.z));
        sides.push(Rect::new(RectAxis::XY, (low.x, low.y), (high.x, high.y), high.z));
        sides.push(Rect::new(RectAxis::XZ, (low.x, low.z), (high.x, high.z), low.y));
        sides.push(Rect::new(RectAxis::XZ, (low.x, low.z), (high.x, high.z), high.y));
        sides.push(Rect::new(RectAxis::YZ, (low.y, low.z), (high.y, high.z), low.x));
        sides.push(Rect::new(RectAxis::YZ, (low.y, low.z), (high.y, high.z), high.x));
        assert(sides@ =~= block_faces(low, high));
        Block { sides }
    }
}

/// Every face of a block lies within the box between the block's corners.
pub proof fn lemma_faces_within_block(low: Point, high: Point, i: int)
    requires
        0 <= i < 6,
    ensures
        AABB::join(AABB { min: low, max: low }, AABB { min: high, max: high }).contains(
            block_faces(low, high)[i].low,
        ),
        AABB::join(AABB { min: low, max: low }, AABB { min: high, max: high }).contains(
            block_faces(low, high)[i].high,
        ),
{
}

} // verus!
