//! Plane geometry over exact coordinates: the limits every quantity obeys,
//! cross and dot products, and rational points.

use vstd::prelude::*;
use crate::num::lemma_mul_bound;

verus! {

/// Largest magnitude allowed for a wall-endpoint coordinate, an integer ray
/// origin coordinate, the maximum cast distance and the corner-separation
/// threshold.
pub const COORD_LIMIT: i64 = 16384;

/// Largest magnitude allowed for a direction-vector component.
pub const DIR_LIMIT: i64 = 32768;

/// Largest numerator magnitude of a rational origin a cast may start from.
pub const ORIGIN_NUM_LIMIT: i128 = 268435456;

/// Largest denominator of a rational origin a cast may start from.
pub const ORIGIN_DEN_LIMIT: i128 = 16384;

/// Largest numerator magnitude of the point a cast returns.
pub const HIT_NUM_LIMIT: i128 = 2305843009213693952;

/// Largest denominator of the point a cast returns.
pub const HIT_DEN_LIMIT: i128 = 35184372088832;

/// Representation bound that every well-formed point obeys.
pub const POINT_LIMIT: i128 = 4611686018427387904;

/// z-component of the cross product of two plane vectors.
pub open spec fn cross2(ax: int, ay: int, bx: int, by: int) -> int {
    ax * by - ay * bx
}

/// Dot product of two plane vectors.
pub open spec fn dot2(ax: int, ay: int, bx: int, by: int) -> int {
    ax * bx + ay * by
}

/// A point of the plane with exact rational coordinates (xn/den, yn/den).
#[derive(Clone, Copy, Debug)]
pub struct Point {
    pub xn: i128,
    pub yn: i128,
    pub den: i128,
}

impl Point {
    /// A well-formed representation: positive denominator, all components
    /// within the representation bound.
    pub open spec fn wf(self) -> bool {
        &&& 1 <= self.den <= POINT_LIMIT as int
        &&& -(POINT_LIMIT as int) <= self.xn <= POINT_LIMIT as int
        &&& -(POINT_LIMIT as int) <= self.yn <= POINT_LIMIT as int
    }

    /// Numerators and denominator within the given magnitudes.
    pub open spec fn in_range(self, num_limit: int, den_limit: int) -> bool {
        &&& 1 <= self.den <= den_limit
        &&& -num_limit <= self.xn <= num_limit
        &&& -num_limit <= self.yn <= num_limit
    }

    /// The two representations stand for the same point of the plane.
    pub open spec fn same_value(self, other: Point) -> bool {
        &&& self.xn * other.den == other.xn * self.den
        &&& self.yn * other.den == other.yn * self.den
    }

    /// The point is the integer point (x, y).
    pub open spec fn is_at(self, x: int, y: int) -> bool {
        self.xn == x * self.den && self.yn == y * self.den
    }

    /// The point with integer coordinates (x, y).
    pub fn from_int(x: i64, y: i64) -> (p: Point)
        requires
            -COORD_LIMIT <= x <= COORD_LIMIT,
            -COORD_LIMIT <= y <= COORD_LIMIT,
        ensures
            p.xn == x as int,
            p.yn == y as int,
            p.den == 1,
            p.wf(),
            p.is_at(x as int, y as int),
    {
        Point { xn: x as i128, yn: y as i128, den: 1 }
    }
}

/// Whether two representations denote the same point of the plane.
pub fn point_eq(a: &Point, b: &Point) -> (r: bool)
    requires
        a.wf(),
        b.wf(),
    ensures
        r == a.same_value(*b),
{
    proof {
        lemma_mul_bound(a.xn as int, b.den as int, POINT_LIMIT as int, POINT_LIMIT as int);
        lemma_mul_bound(b.xn as int, a.den as int, POINT_LIMIT as int, POINT_LIMIT as int);
        lemma_mul_bound(a.yn as int, b.den as int, POINT_LIMIT as int, POINT_LIMIT as int);
        lemma_mul_bound(b.yn as int, a.den as int, POINT_LIMIT as int, POINT_LIMIT as int);
    }
    a.xn * b.den == b.xn * a.den && a.yn * b.den == b.yn * a.den
}

/// The point lies on the infinite line through (ax, ay) and (bx, by).
pub open spec fn on_line(p: Point, ax: int, ay: int, bx: int, by: int) -> bool {
    cross2(p.xn - ax * p.den, p.yn - ay * p.den, bx - ax, by - ay) == 0
}

} // verus!
