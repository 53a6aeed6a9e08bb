//! Walls: opaque, colored line segments with integer endpoints, the
//! finite-segment test applied to line intersections, and specular
//! reflection of a direction vector.

use vstd::prelude::*;
use crate::color::Rgb;
use crate::geom::COORD_LIMIT;
use crate::geom::DIR_LIMIT;
use crate::geom::HIT_DEN_LIMIT;
use crate::geom::HIT_NUM_LIMIT;
use crate::geom::Point;
use crate::geom::cross2;
use crate::geom::dot2;
use crate::num::lemma_mul_bound;
use crate::num::mag;
use crate::num::reduce2;
use crate::num::reduce2_spec;
use crate::num::scales2;

verus! {

/// An opaque, reflective line-segment obstacle with a color.
#[derive(Clone, Copy, Debug)]
pub struct Wall {
    pub p0: (i64, i64),
    pub p1: (i64, i64),
    pub color: Rgb,
}

impl Wall {
    /// All endpoint coordinates lie within the arena bound.
    pub open spec fn wf(self) -> bool {
        &&& -COORD_LIMIT <= self.p0.0 <= COORD_LIMIT
        &&& -COORD_LIMIT <= self.p0.1 <= COORD_LIMIT
        &&& -COORD_LIMIT <= self.p1.0 <= COORD_LIMIT
        &&& -COORD_LIMIT <= self.p1.1 <= COORD_LIMIT
    }

    /// The endpoints are distinct, so the wall has an orientation.
    pub open spec fn nondegenerate(self) -> bool {
        self.p0 != self.p1
    }

    /// x-component of the wall's direction vector, from p0 to p1.
    pub open spec fn wvx(self) -> int {
        self.p1.0 - self.p0.0
    }

    /// y-component of the wall's direction vector, from p0 to p1.
    pub open spec fn wvy(self) -> int {
        self.p1.1 - self.p0.1
    }

    /// Squared length of the wall's direction vector.
    pub open spec fn len2(self) -> int {
        self.wvx() * self.wvx() + self.wvy() * self.wvy()
    }

    /// A new wall between two points, with the given color.
    pub fn new(p0: (i64, i64), p1: (i64, i64), color: Rgb) -> (w: Wall)
        requires
            -COORD_LIMIT <= p0.0 <= COORD_LIMIT,
            -COORD_LIMIT <= p0.1 <= COORD_LIMIT,
            -COORD_LIMIT <= p1.0 <= COORD_LIMIT,
            -COORD_LIMIT <= p1.1 <= COORD_LIMIT,
        ensures
            w == (Wall { p0, p1, color }),
            w.wf(),
    {
        Wall { p0, p1, color }
    }

    /// A new wall between two points, with the default opaque white color.
    pub fn from_points(p0: (i64, i64), p1: (i64, i64)) -> (w: Wall)
        requires
            -COORD_LIMIT <= p0.0 <= COORD_LIMIT,
            -COORD_LIMIT <= p0.1 <= COORD_LIMIT,
            -COORD_LIMIT <= p1.0 <= COORD_LIMIT,
            -COORD_LIMIT <= p1.1 <= COORD_LIMIT,
        ensures
            w == (Wall { p0, p1, color: Rgb { r: 255u8, g: 255u8, b: 255u8 } }),
            w.wf(),
    {
        Wall { p0, p1, color: Rgb::white() }
    }

    /// The finite-segment test on a rational point (qx/qd, qy/qd): the point
    /// is rejected when it lies behind p0 (the vector from p0 to the point
    /// opposes the wall's direction) or farther from p0 than p1 is. On a
    /// point of the wall's infinite line this is exactly "outside the
    /// segment from p0 to p1".
    pub open spec fn rejects_at(self, qx: int, qy: int, qd: int) -> bool {
        let ax = qx - self.p0.0 * qd;
        let ay = qy - self.p0.1 * qd;
        ||| dot2(ax, ay, self.wvx(), self.wvy()) < 0
        ||| ax * ax + ay * ay > self.len2() * (qd * qd)
    }

    /// The finite-segment test on a point.
    pub open spec fn rejects_spec(self, p: Point) -> bool {
        self.rejects_at(p.xn as int, p.yn as int, p.den as int)
    }

    /// Whether a candidate intersection point lies off the finite segment.
    pub fn rejects(&self, p: &Point) -> (r: bool)
        requires
            self.wf(),
            p.wf(),
            p.in_range(HIT_NUM_LIMIT as int, HIT_DEN_LIMIT as int),
        ensures
            r == self.rejects_spec(*p),
    {
        let wx: i128 = self.p1.0 as i128 - self.p0.0 as i128;
        let wy: i128 = self.p1.1 as i128 - self.p0.1 as i128;
        proof {
            lemma_mul_bound(self.p0.0 as int, p.den as int, 16384, 35184372088832);
            lemma_mul_bound(self.p0.1 as int, p.den as int, 16384, 35184372088832);
        }
        let ax: i128 = p.xn - self.p0.0 as i128 * p.den;
        let ay: i128 = p.yn - self.p0.1 as i128 * p.den;
        proof {
            lemma_mul_bound(ax as int, wx as int, 4611686018427387904, 32768);
            lemma_mul_bound(ay as int, wy as int, 4611686018427387904, 32768);
            lemma_mul_bound(ax as int, ax as int, 4611686018427387904, 4611686018427387904);
            lemma_mul_bound(ay as int, ay as int, 4611686018427387904, 4611686018427387904);
            lemma_mul_bound(wx as int, wx as int, 32768, 32768);
            lemma_mul_bound(wy as int, wy as int, 32768, 32768);
            lemma_mul_bound(p.den as int, p.den as int, 35184372088832, 35184372088832);
            lemma_mul_bound(
                (wx * wx + wy * wy) as int,
                (p.den * p.den) as int,
                2147483648,
                1237940039285380274899124224,
            );
        }
        let behind: bool = ax * wx + ay * wy < 0;
        let far: bool = ax * ax + ay * ay > (wx * wx + wy * wy) * (p.den * p.den);
        behind || far
    }

    /// Reflect a direction vector off the wall, then shorten it by the
    /// greatest common divisor of its components; the returned vector points
    /// along the exact specular reflection of the incoming one.
    pub fn bounce(&self, dir: (i64, i64)) -> (r: (i64, i64))
        requires
            self.wf(),
            self.nondegenerate(),
            -DIR_LIMIT <= dir.0 <= DIR_LIMIT,
            -DIR_LIMIT <= dir.1 <= DIR_LIMIT,
        ensures
            r.0 as int == reduce2_spec(
                reflect_spec(dir.0 as int, dir.1 as int, self.wvx(), self.wvy()).0,
                reflect_spec(dir.0 as int, dir.1 as int, self.wvx(), self.wvy()).1,
            ).0,
            r.1 as int == reduce2_spec(
                reflect_spec(dir.0 as int, dir.1 as int, self.wvx(), self.wvy()).0,
                reflect_spec(dir.0 as int, dir.1 as int, self.wvx(), self.wvy()).1,
            ).1,
            exists|g: int|
                scales2(
                    g,
                    r.0 as int,
                    r.1 as int,
                    reflect_spec(dir.0 as int, dir.1 as int, self.wvx(), self.wvy()).0,
                    reflect_spec(dir.0 as int, dir.1 as int, self.wvx(), self.wvy()).1,
                ),
            -562949953421312 <= r.0 <= 562949953421312,
            -562949953421312 <= r.1 <= 562949953421312,
    {
        let wx: i128 = self.p1.0 as i128 - self.p0.0 as i128;
        let wy: i128 = self.p1.1 as i128 - self.p0.1 as i128;
        let nx: i128 = -wy;
        let ny: i128 = wx;
        proof {
            lemma_mul_bound(nx as int, nx as int, 32768, 32768);
            lemma_mul_bound(ny as int, ny as int, 32768, 32768);
            lemma_mul_bound(dir.0 as int, nx as int, 32768, 32768);
            lemma_mul_bound(dir.1 as int, ny as int, 32768, 32768);
        }
        let n2: i128 = nx * nx + ny * ny;
        let dn: i128 = dir.0 as i128 * nx + dir.1 as i128 * ny;
        proof {
            lemma_mul_bound(n2 as int, dir.0 as int, 2147483648, 32768);
            lemma_mul_bound(n2 as int, dir.1 as int, 2147483648, 32768);
            lemma_mul_bound((2 * dn) as int, nx as int, 8589934592, 32768);
            lemma_mul_bound((2 * dn) as int, ny as int, 8589934592, 32768);
        }
        let rfx: i128 = n2 * dir.0 as i128 - 2 * dn * nx;
        let rfy: i128 = n2 * dir.1 as i128 - 2 * dn * ny;
        let red = reduce2(rfx, rfy);
        proof {
            assert(-562949953421312 <= rfx <= 562949953421312);
            assert(-562949953421312 <= rfy <= 562949953421312);
            assert(mag(red.0 as int) <= mag(rfx as int));
            assert(mag(red.1 as int) <= mag(rfy as int));
            assert(mag(rfx as int) <= 562949953421312);
            assert(mag(rfy as int) <= 562949953421312);
        }
        (red.0 as i64, red.1 as i64)
    }
}

/// The exact specular reflection of a direction vector (dx, dy) off a wall
/// with direction (wx, wy), scaled by the squared length of the wall's
/// normal: with n the unnormalized normal, this is |n|^2 * d - 2 (d.n) n.
pub open spec fn reflect_spec(dx: int, dy: int, wx: int, wy: int) -> (int, int) {
    let nx = -wy;
    let ny = wx;
    let n2 = nx * nx + ny * ny;
    let dn = dx * nx + dy * ny;
    (n2 * dx - 2 * dn * nx, n2 * dy - 2 * dn * ny)
}

/// Reflection commutes with scaling the incoming vector.
proof fn lemma_reflect_linear(dx: int, dy: int, wx: int, wy: int, g: int)
    ensures
        reflect_spec(g * dx, g * dy, wx, wy).0 == g * reflect_spec(dx, dy, wx, wy).0,
        reflect_spec(g * dx, g * dy, wx, wy).1 == g * reflect_spec(dx, dy, wx, wy).1,
{
    let nx = -wy;
    let ny = wx;
    let n2 = nx * nx + ny * ny;
    let dn = dx * nx + dy * ny;
    let dgn = (g * dx) * nx + (g * dy) * ny;
    assert(dgn == g * dn) by (nonlinear_arith)
        requires
            dgn == (g * dx) * nx + (g * dy) * ny,
            dn == dx * nx + dy * ny,
    ;
    assert(n2 * (g * dx) - 2 * dgn * nx == g * (n2 * dx - 2 * dn * nx)) by (nonlinear_arith)
        requires
            dgn == g * dn,
    ;
    assert(n2 * (g * dy) - 2 * dgn * ny == g * (n2 * dy - 2 * dn * ny)) by (nonlinear_arith)
        requires
            dgn == g * dn,
    ;
}

/// Reflecting a reflected vector gives back the original vector, scaled by
/// the squared length of the wall's normal twice over.
proof fn lemma_reflect_involution(dx: int, dy: int, wx: int, wy: int)
    ensures
        reflect_spec(
            reflect_spec(dx, dy, wx, wy).0,
            reflect_spec(dx, dy, wx, wy).1,
            wx,
            wy,
        ).0 == ((wx * wx + wy * wy) * (wx * wx + wy * wy)) * dx,
        reflect_spec(
            reflect_spec(dx, dy, wx, wy).0,
            reflect_spec(dx, dy, wx, wy).1,
            wx,
            wy,
        ).1 == ((wx * wx + wy * wy) * (wx * wx + wy * wy)) * dy,
{
    let nx = -wy;
    let ny = wx;
    let n2 = nx * nx + ny * ny;
    let dn = dx * nx + dy * ny;
    let rx = n2 * dx - 2 * dn * nx;
    let ry = n2 * dy - 2 * dn * ny;
    let rn = rx * nx + ry * ny;
    assert(rn == -(n2 * dn)) by (nonlinear_arith)
        requires
            rn == rx * nx + ry * ny,
            rx == n2 * dx - 2 * dn * nx,
            ry == n2 * dy - 2 * dn * ny,
            n2 == nx * nx + ny * ny,
            dn == dx * nx + dy * ny,
    ;
    assert(n2 * rx - 2 * rn * nx == (n2 * n2) * dx) by (nonlinear_arith)
        requires
            rx == n2 * dx - 2 * dn * nx,
            rn == -(n2 * dn),
    ;
    assert(n2 * ry - 2 * rn * ny == (n2 * n2) * dy) by (nonlinear_arith)
        requires
            ry == n2 * dy - 2 * dn * ny,
            rn == -(n2 * dn),
    ;
    assert(n2 == wx * wx + wy * wy) by (nonlinear_arith)
        requires
            nx == -wy,
            ny == wx,
            n2 == nx * nx + ny * ny,
    ;
}

/// Reflecting a direction off a wall and then reflecting the result off the
/// same wall restores the original direction: the two bounce outputs r1 and
/// r2 (each a reduced reflection, carried back by the positive factors g1
/// and g2) leave r2 an exact positive multiple of the incoming direction.
pub proof fn lemma_bounce_twice_restores(
    w: Wall,
    dx: int,
    dy: int,
    g1: int,
    r1x: int,
    r1y: int,
    g2: int,
    r2x: int,
    r2y: int,
)
    requires
        w.wf(),
        w.nondegenerate(),
        !(dx == 0 && dy == 0),
        scales2(
            g1,
            r1x,
            r1y,
            reflect_spec(dx, dy, w.wvx(), w.wvy()).0,
            reflect_spec(dx, dy, w.wvx(), w.wvy()).1,
        ),
        scales2(
            g2,
            r2x,
            r2y,
            reflect_spec(r1x, r1y, w.wvx(), w.wvy()).0,
            reflect_spec(r1x, r1y, w.wvx(), w.wvy()).1,
        ),
    ensures
        (g1 * g2) * r2x == (w.len2() * w.len2()) * dx,
        (g1 * g2) * r2y == (w.len2() * w.len2()) * dy,
        cross2(r2x, r2y, dx, dy) == 0,
        dot2(r2x, r2y, dx, dy) > 0,
{
    let wx = w.wvx();
    let wy = w.wvy();
    let n2 = w.len2();
    let f1 = reflect_spec(dx, dy, wx, wy);
    let f2 = reflect_spec(r1x, r1y, wx, wy);
    assert(wx != 0 || wy != 0);
    assert(n2 >= 1) by (nonlinear_arith)
        requires
            n2 == wx * wx + wy * wy,
            wx != 0 || wy != 0,
    ;
    lemma_reflect_linear(r1x, r1y, wx, wy, g1);
    assert(reflect_spec(g1 * r1x, g1 * r1y, wx, wy).0 == g1 * f2.0);
    assert(g1 * r1x == f1.0 && g1 * r1y == f1.1);
    lemma_reflect_involution(dx, dy, wx, wy);
    assert(g1 * f2.0 == (n2 * n2) * dx);
    assert(g1 * f2.1 == (n2 * n2) * dy);
    assert((g1 * g2) * r2x == (n2 * n2) * dx) by (nonlinear_arith)
        requires
            g1 * f2.0 == (n2 * n2) * dx,
            g2 * r2x == f2.0,
    ;
    assert((g1 * g2) * r2y == (n2 * n2) * dy) by (nonlinear_arith)
        requires
            g1 * f2.1 == (n2 * n2) * dy,
            g2 * r2y == f2.1,
    ;
    assert(cross2(r2x, r2y, dx, dy) == 0) by (nonlinear_arith)
        requires
            (g1 * g2) * r2x == (n2 * n2) * dx,
            (g1 * g2) * r2y == (n2 * n2) * dy,
            g1 >= 1,
            g2 >= 1,
    ;
    assert(dot2(r2x, r2y, dx, dy) > 0) by (nonlinear_arith)
        requires
            (g1 * g2) * r2x == (n2 * n2) * dx,
            (g1 * g2) * r2y == (n2 * n2) * dy,
            g1 >= 1,
            g2 >= 1,
            n2 >= 1,
            !(dx == 0 && dy == 0),
    ;
}

/// On a point written as p0 + (tn/td) * (p1 - p0) of the wall's line, the
/// finite-segment test rejects exactly the points outside the closed
/// segment: those whose parameter lies below 0 or above 1.
pub proof fn lemma_rejects_iff_outside(w: Wall, p: Point, tn: int, td: int)
    requires
        w.wf(),
        w.nondegenerate(),
        p.den >= 1,
        td >= 1,
        p.xn * td == (w.p0.0 * td + tn * w.wvx()) * p.den,
        p.yn * td == (w.p0.1 * td + tn * w.wvy()) * p.den,
    ensures
        w.rejects_spec(p) <==> (tn < 0 || tn > td),
{
    let den = p.den as int;
    let wx = w.wvx();
    let wy = w.wvy();
    let n2 = w.len2();
    let ax = p.xn - w.p0.0 * den;
    let ay = p.yn - w.p0.1 * den;
    assert(wx != 0 || wy != 0);
    assert(n2 >= 1) by (nonlinear_arith)
        requires
            n2 == wx * wx + wy * wy,
            wx != 0 || wy != 0,
    ;
    assert(ax * td == (tn * wx) * den) by (nonlinear_arith)
        requires
            p.xn * td == (w.p0.0 * td + tn * wx) * den,
            ax == p.xn - w.p0.0 * den,
    ;
    assert(ay * td == (tn * wy) * den) by (nonlinear_arith)
        requires
            p.yn * td == (w.p0.1 * td + tn * wy) * den,
            ay == p.yn - w.p0.1 * den,
    ;
    let xs = ax * td;
    let ys = ay * td;
    assert(dot2(ax, ay, wx, wy) * td == xs * wx + ys * wy) by (nonlinear_arith)
        requires
            xs == ax * td,
            ys == ay * td,
    ;
    let ux = tn * wx;
    let uy = tn * wy;
    assert(xs * wx + ys * wy == tn * (n2 * den)) by (nonlinear_arith)
        requires
            xs == ux * den,
            ys == uy * den,
            ux == tn * wx,
            uy == tn * wy,
            n2 == wx * wx + wy * wy,
    ;
    assert(dot2(ax, ay, wx, wy) < 0 <==> tn < 0) by (nonlinear_arith)
        requires
            dot2(ax, ay, wx, wy) * td == tn * (n2 * den),
            td >= 1,
            den >= 1,
            n2 >= 1,
    ;
    assert((ax * ax + ay * ay) * (td * td) == xs * xs + ys * ys) by (nonlinear_arith)
        requires
            xs == ax * td,
            ys == ay * td,
    ;
    assert(ux * ux + uy * uy == (tn * tn) * n2) by (nonlinear_arith)
        requires
            ux == tn * wx,
            uy == tn * wy,
            n2 == wx * wx + wy * wy,
    ;
    assert(xs * xs + ys * ys == ((tn * tn) * n2) * (den * den)) by (nonlinear_arith)
        requires
            xs == ux * den,
            ys == uy * den,
            ux * ux + uy * uy == (tn * tn) * n2,
    ;
    assert((ax * ax + ay * ay) * (td * td) == (tn * tn) * (n2 * (den * den))) by (nonlinear_arith)
        requires
            (ax * ax + ay * ay) * (td * td) == ((tn * tn) * n2) * (den * den),
    ;
    assert(ax * ax + ay * ay > n2 * (den * den) <==> tn * tn > td * td) by (nonlinear_arith)
        requires
            (ax * ax + ay * ay) * (td * td) == (tn * tn) * (n2 * (den * den)),
            td >= 1,
            den >= 1,
            n2 >= 1,
    ;
    assert(tn >= 0 ==> (tn * tn > td * td <==> tn > td)) by (nonlinear_arith)
        requires
            td >= 1,
    ;
}

} // verus!
