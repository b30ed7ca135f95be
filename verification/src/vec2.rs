//! Lattice points and the exact predicates on them.

use vstd::prelude::*;

verus! {

/// Lattice steps in one world unit.
pub const STEPS_PER_UNIT: i64 = 65536;

/// The largest magnitude of a vertex coordinate: 2^30 steps.
pub const COORD_LIMIT: i64 = 0x4000_0000;

/// The largest magnitude of a coordinate of a cutting line's direction or
/// point: 2^31 steps, so that the difference of any two vertices is a direction.
pub const LINE_LIMIT: i64 = 0x8000_0000;

/// Two vertices that lie no farther apart than this on either axis are
/// welded into one: half a world unit.
pub const MERGE_TOLERANCE: i64 = 32768;

/// A point or a displacement on the integer lattice.
#[derive(Clone, Copy, Debug, PartialEq, Eq, Structural)]
pub struct Vec2 {
    pub x: i64,
    pub y: i64,
}

/// A line direction given by its normal. The normal need not have unit
/// length: signed distances are scaled by its length, their signs are exact.
#[derive(Clone, Copy, Debug, PartialEq, Eq, Structural)]
pub struct Plane2d {
    pub normal: Vec2,
}

/// The magnitude of an integer.
pub open spec fn abs(v: int) -> int {
    if v < 0 {
        -v
    } else {
        v
    }
}

/// The normal's dot product with the vector from `plane_point` to `point`:
/// positive on side A of the line, zero or negative on side B.
pub open spec fn signed_distance(point: Vec2, normal: Vec2, plane_point: Vec2) -> int {
    normal.x * (point.x - plane_point.x) + normal.y * (point.y - plane_point.y)
}

/// Whether `point` lies on side A of the line, the side of positive distance.
pub open spec fn on_side_a(point: Vec2, normal: Vec2, plane_point: Vec2) -> bool {
    signed_distance(point, normal, plane_point) > 0
}

/// The cross product of `b - a` and `c - a`: twice the signed area of the
/// triangle `a b c`, positive when it winds counter-clockwise.
pub open spec fn cross(a: Vec2, b: Vec2, c: Vec2) -> int {
    (b.x - a.x) * (c.y - a.y) - (b.y - a.y) * (c.x - a.x)
}

/// The squared Euclidean distance of two points.
pub open spec fn dist2(a: Vec2, b: Vec2) -> int {
    (a.x - b.x) * (a.x - b.x) + (a.y - b.y) * (a.y - b.y)
}

impl Vec2 {
    /// The origin, and the zero displacement.
    pub fn zero() -> (r: Vec2)
        ensures
            r.x == 0,
            r.y == 0,
    {
        Vec2 { x: 0, y: 0 }
    }

    pub fn new(x: i64, y: i64) -> (r: Vec2)
        ensures
            r.x == x,
            r.y == y,
    {
        Vec2 { x, y }
    }

    /// Both coordinates lie within `limit` of zero.
    pub open spec fn within(self, limit: int) -> bool {
        -limit <= self.x <= limit && -limit <= self.y <= limit
    }

    /// Whether `limit` bounds both coordinates.
    pub fn is_within(&self, limit: i64) -> (r: bool)
        requires
            limit >= 0,
        ensures
            r == self.within(limit as int),
    {
        -limit <= self.x && self.x <= limit && -limit <= self.y && self.y <= limit
    }

    /// The sum of two displacements.
    pub fn plus(self, other: Vec2) -> (r: Vec2)
        requires
            i64::MIN <= self.x + other.x <= i64::MAX,
            i64::MIN <= self.y + other.y <= i64::MAX,
        ensures
            r == sum(self, other),
            r.x == self.x + other.x,
            r.y == self.y + other.y,
    {
        Vec2 { x: self.x + other.x, y: self.y + other.y }
    }

    /// The vector turned a quarter turn counter-clockwise.
    pub open spec fn spec_perp(self) -> Vec2 {
        Vec2 { x: (-self.y) as i64, y: self.x }
    }

    /// The vector turned a quarter turn counter-clockwise.
    pub fn perp(self) -> (r: Vec2)
        requires
            self.y > i64::MIN,
        ensures
            r == self.spec_perp(),
            r.x == -self.y,
            r.y == self.x,
    {
        Vec2 { x: -self.y, y: self.x }
    }
}

impl Plane2d {
    pub fn new(normal: Vec2) -> (r: Plane2d)
        ensures
            r.normal == normal,
    {
        Plane2d { normal }
    }
}

/// The sum of two displacements.
pub open spec fn sum(a: Vec2, b: Vec2) -> Vec2 {
    Vec2 { x: (a.x + b.x) as i64, y: (a.y + b.y) as i64 }
}

/// Every point of the sequence lies within `limit` of zero on both axes.
pub open spec fn all_within(points: Seq<Vec2>, limit: int) -> bool {
    forall|i: int| 0 <= i < points.len() ==> (#[trigger] points[i]).within(limit)
}

} // verus!
