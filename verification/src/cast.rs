//! Casting a ray against a wall set: exact infinite-line intersection,
//! the per-wall candidate tests, and nearest-hit selection with the
//! corner-ambiguity guard.

use vstd::prelude::*;
use crate::geom::COORD_LIMIT;
use crate::geom::DIR_LIMIT;
use crate::geom::HIT_DEN_LIMIT;
use crate::geom::HIT_NUM_LIMIT;
use crate::geom::ORIGIN_DEN_LIMIT;
use crate::geom::ORIGIN_NUM_LIMIT;
use crate::geom::Point;
use crate::geom::cross2;
use crate::geom::on_line;
use crate::num::lemma_frac_lt_le_trans;
use crate::num::lemma_mul_bound;
use crate::num::mag;
use crate::num::sgn;
use crate::wall::Wall;

verus! {

/// The single failure a cast can report: two candidate intersections lie
/// within the minimum-separation threshold of the ray origin, so the ray is
/// grazing a shared corner and nearest-hit selection is unreliable.
#[derive(Clone, Copy, Debug, PartialEq, Eq, Structural)]
pub enum CastError {
    AmbiguousCorner,
}

/// Tunable parameters of a cast: the maximum distance a ray travels, and
/// the minimum separation below which a candidate counts as grazing the
/// origin (the wall's drawing thickness).
#[derive(Clone, Copy, Debug)]
pub struct CastConfig {
    pub max_dist: i64,
    pub min_sep: i64,
}

impl CastConfig {
    pub open spec fn wf(self) -> bool {
        &&& 1 <= self.max_dist <= COORD_LIMIT
        &&& 0 <= self.min_sep <= COORD_LIMIT
    }

    pub fn new(max_dist: i64, min_sep: i64) -> (c: CastConfig)
        requires
            1 <= max_dist <= COORD_LIMIT,
            0 <= min_sep <= COORD_LIMIT,
        ensures
            c == (CastConfig { max_dist, min_sep }),
            c.wf(),
    {
        CastConfig { max_dist, min_sep }
    }
}

/// A rational origin from which a cast may start: value and representation
/// small enough that every intermediate product fits the machine.
pub open spec fn origin_fits(o: Point) -> bool {
    o.in_range(ORIGIN_NUM_LIMIT as int, ORIGIN_DEN_LIMIT as int)
}

/// A direction vector a cast accepts.
pub open spec fn dir_fits(dx: int, dy: int) -> bool {
    &&& -DIR_LIMIT <= dx <= DIR_LIMIT
    &&& -DIR_LIMIT <= dy <= DIR_LIMIT
}

/// Cross product of the ray direction with a wall's direction; zero exactly
/// when the ray is parallel to the wall's line (or one of them degenerate).
pub open spec fn ray_cross(dx: int, dy: int, w: Wall) -> int {
    cross2(dx, dy, w.wvx(), w.wvy())
}

/// Numerator of the ray parameter u at which the ray's line meets the
/// wall's line: the hit point is origin + u * dir with u = u_num / u_den.
pub open spec fn u_num(o: Point, w: Wall) -> int {
    (w.p0.0 * o.den - o.xn) * w.wvy() - (w.p0.1 * o.den - o.yn) * w.wvx()
}

/// Denominator of the ray parameter u.
pub open spec fn u_den(o: Point, dx: int, dy: int, w: Wall) -> int {
    o.den * ray_cross(dx, dy, w)
}

/// Numerator of u with the denominator's sign folded in.
pub open spec fn pos_num(o: Point, dx: int, dy: int, w: Wall) -> int {
    sgn(u_den(o, dx, dy, w)) * u_num(o, w)
}

/// Denominator of u, made positive.
pub open spec fn pos_den(o: Point, dx: int, dy: int, w: Wall) -> int {
    sgn(u_den(o, dx, dy, w)) * u_den(o, dx, dy, w)
}

/// The wall's line meets the ray's line within the minimum separation of
/// the origin, in front or behind: the squared distance |u * dir|^2 is
/// below min_sep^2. Such a wall counts toward the corner-ambiguity guard
/// and is skipped as a candidate.
pub open spec fn too_close(o: Point, dx: int, dy: int, w: Wall, cfg: CastConfig) -> bool {
    &&& ray_cross(dx, dy, w) != 0
    &&& (u_num(o, w) * u_num(o, w)) * (dx * dx + dy * dy) < (cfg.min_sep * cfg.min_sep) * (u_den(
        o,
        dx,
        dy,
        w,
    ) * u_den(o, dx, dy, w))
}

/// Normalized numerator of the x coordinate of the point where the ray's
/// line meets the wall's line; the denominator is hit_den.
pub open spec fn hit_xn(o: Point, dx: int, dy: int, w: Wall) -> int {
    sgn(u_den(o, dx, dy, w)) * (o.xn * ray_cross(dx, dy, w) + u_num(o, w) * dx)
}

/// Normalized numerator of the y coordinate of the hit point.
pub open spec fn hit_yn(o: Point, dx: int, dy: int, w: Wall) -> int {
    sgn(u_den(o, dx, dy, w)) * (o.yn * ray_cross(dx, dy, w) + u_num(o, w) * dy)
}

/// Positive denominator of the hit point.
pub open spec fn hit_den(o: Point, dx: int, dy: int, w: Wall) -> int {
    pos_den(o, dx, dy, w)
}

/// The wall survives every per-wall test of a cast: not parallel, not
/// grazing the origin, struck in the ray's forward direction, nearer than
/// the maximum cast distance, and struck on the finite segment.
pub open spec fn is_candidate(o: Point, dx: int, dy: int, w: Wall, cfg: CastConfig) -> bool {
    &&& ray_cross(dx, dy, w) != 0
    &&& !too_close(o, dx, dy, w, cfg)
    &&& pos_num(o, dx, dy, w) > 0
    &&& (u_num(o, w) * u_num(o, w)) * (dx * dx + dy * dy) < (cfg.max_dist * cfg.max_dist) * (u_den(
        o,
        dx,
        dy,
        w,
    ) * u_den(o, dx, dy, w))
    &&& !w.rejects_at(hit_xn(o, dx, dy, w), hit_yn(o, dx, dy, w), hit_den(o, dx, dy, w))
}

/// Wall wi is struck strictly nearer to the origin than wall wj (both
/// assumed candidates, so both parameters are positive).
pub open spec fn strikes_sooner(o: Point, dx: int, dy: int, wi: Wall, wj: Wall) -> bool {
    pos_num(o, dx, dy, wi) * pos_den(o, dx, dy, wj) < pos_num(o, dx, dy, wj) * pos_den(
        o,
        dx,
        dy,
        wi,
    )
}

/// How many of the first k walls graze the origin.
pub open spec fn tc_count(o: Point, dx: int, dy: int, walls: Seq<Wall>, cfg: CastConfig, k: int) -> int
    decreases k,
{
    if k <= 0 {
        0
    } else {
        tc_count(o, dx, dy, walls, cfg, k - 1) + if too_close(o, dx, dy, walls[k - 1], cfg) {
            1int
        } else {
            0int
        }
    }
}

/// The grazing count only grows with the prefix.
pub proof fn lemma_tc_count_mono(
    o: Point,
    dx: int,
    dy: int,
    walls: Seq<Wall>,
    cfg: CastConfig,
    k1: int,
    k2: int,
)
    requires
        k1 <= k2,
    ensures
        tc_count(o, dx, dy, walls, cfg, k1) <= tc_count(o, dx, dy, walls, cfg, k2),
    decreases k2 - k1,
{
    if k1 < k2 {
        lemma_tc_count_mono(o, dx, dy, walls, cfg, k1, k2 - 1);
    }
}

/// All walls of the sequence lie within the arena bound.
pub open spec fn walls_wf(walls: Seq<Wall>) -> bool {
    forall|i: int| 0 <= i < walls.len() ==> (#[trigger] walls[i]).wf()
}

/// The exact intersection of the infinite lines through two segments, or
/// nothing when the lines are parallel or one segment is degenerate.
pub fn intersect(line1: &Wall, line2: &Wall) -> (r: Option<Point>)
    requires
        line1.wf(),
        line2.wf(),
    ensures
        r is None <==> cross2(line1.wvx(), line1.wvy(), line2.wvx(), line2.wvy()) == 0,
        match r {
            Option::Some(q) => {
                &&& q.wf()
                &&& q.in_range(HIT_NUM_LIMIT as int, HIT_DEN_LIMIT as int)
                &&& on_line(q, line1.p0.0 as int, line1.p0.1 as int, line1.p1.0 as int, line1.p1.1 as int)
                &&& on_line(q, line2.p0.0 as int, line2.p0.1 as int, line2.p1.0 as int, line2.p1.1 as int)
                &&& q.den == mag(cross2(line1.wvx(), line1.wvy(), line2.wvx(), line2.wvy()))
            },
            Option::None => true,
        },
{
    let x1: i128 = line1.p0.0 as i128;
    let y1: i128 = line1.p0.1 as i128;
    let x2: i128 = line1.p1.0 as i128;
    let y2: i128 = line1.p1.1 as i128;
    let x3: i128 = line2.p0.0 as i128;
    let y3: i128 = line2.p0.1 as i128;
    let x4: i128 = line2.p1.0 as i128;
    let y4: i128 = line2.p1.1 as i128;
    proof {
        lemma_mul_bound((x1 - x2) as int, (y3 - y4) as int, 32768, 32768);
        lemma_mul_bound((y1 - y2) as int, (x3 - x4) as int, 32768, 32768);
        lemma_mul_bound(x1 as int, y2 as int, 16384, 16384);
        lemma_mul_bound(y1 as int, x2 as int, 16384, 16384);
        lemma_mul_bound(x3 as int, y4 as int, 16384, 16384);
        lemma_mul_bound(y3 as int, x4 as int, 16384, 16384);
    }
    let denom: i128 = (x1 - x2) * (y3 - y4) - (y1 - y2) * (x3 - x4);
    proof {
        assert(denom == cross2(line1.wvx(), line1.wvy(), line2.wvx(), line2.wvy())) by (nonlinear_arith)
            requires
                denom == (x1 - x2) * (y3 - y4) - (y1 - y2) * (x3 - x4),
                line1.wvx() == x2 - x1,
                line1.wvy() == y2 - y1,
                line2.wvx() == x4 - x3,
                line2.wvy() == y4 - y3,
                cross2(line1.wvx(), line1.wvy(), line2.wvx(), line2.wvy()) == line1.wvx() * line2.wvy()
                    - line1.wvy() * line2.wvx(),
        ;
    }
    if denom == 0 {
        None
    } else {
        let e1: i128 = x1 * y2 - y1 * x2;
        let e2: i128 = x3 * y4 - y3 * x4;
        proof {
            lemma_mul_bound(e1 as int, (x3 - x4) as int, 536870912, 32768);
            lemma_mul_bound((x1 - x2) as int, e2 as int, 32768, 536870912);
            lemma_mul_bound(e1 as int, (y3 - y4) as int, 536870912, 32768);
            lemma_mul_bound((y1 - y2) as int, e2 as int, 32768, 536870912);
        }
        let num_x: i128 = e1 * (x3 - x4) - (x1 - x2) * e2;
        let num_y: i128 = e1 * (y3 - y4) - (y1 - y2) * e2;
        let q: Point = if denom < 0 {
            Point { xn: -num_x, yn: -num_y, den: -denom }
        } else {
            Point { xn: num_x, yn: num_y, den: denom }
        };
        proof {
            let a1 = line1.wvy();
            let b1 = line1.wvx();
            let a2 = line2.wvy();
            let b2 = line2.wvx();
            assert(num_x == b1 * e2 - b2 * e1 && num_y == a1 * e2 - a2 * e1) by (nonlinear_arith)
                requires
                    num_x == e1 * (x3 - x4) - (x1 - x2) * e2,
                    num_y == e1 * (y3 - y4) - (y1 - y2) * e2,
                    b1 == x2 - x1,
                    a1 == y2 - y1,
                    b2 == x4 - x3,
                    a2 == y4 - y3,
            ;
            assert(x1 * a1 - y1 * b1 == e1) by (nonlinear_arith)
                requires
                    a1 == y2 - y1,
                    b1 == x2 - x1,
                    e1 == x1 * y2 - y1 * x2,
            ;
            assert(x3 * a2 - y3 * b2 == e2) by (nonlinear_arith)
                requires
                    a2 == y4 - y3,
                    b2 == x4 - x3,
                    e2 == x3 * y4 - y3 * x4,
            ;
            assert(num_x * a1 - num_y * b1 == e1 * denom) by (nonlinear_arith)
                requires
                    num_x == b1 * e2 - b2 * e1,
                    num_y == a1 * e2 - a2 * e1,
                    denom == b1 * a2 - a1 * b2,
            ;
            assert(num_x * a2 - num_y * b2 == e2 * denom) by (nonlinear_arith)
                requires
                    num_x == b1 * e2 - b2 * e1,
                    num_y == a1 * e2 - a2 * e1,
                    denom == b1 * a2 - a1 * b2,
            ;
            assert((num_x - x1 * denom) * a1 - (num_y - y1 * denom) * b1 == 0) by (nonlinear_arith)
                requires
                    num_x * a1 - num_y * b1 == e1 * denom,
                    x1 * a1 - y1 * b1 == e1,
            ;
            assert((num_x - x3 * denom) * a2 - (num_y - y3 * denom) * b2 == 0) by (nonlinear_arith)
                requires
                    num_x * a2 - num_y * b2 == e2 * denom,
                    x3 * a2 - y3 * b2 == e2,
            ;
            if denom < 0 {
                assert((q.xn - x1 * q.den) * a1 - (q.yn - y1 * q.den) * b1 == 0) by (nonlinear_arith)
                    requires
                        (num_x - x1 * denom) * a1 - (num_y - y1 * denom) * b1 == 0,
                        q.xn == -num_x,
                        q.yn == -num_y,
                        q.den == -denom,
                ;
                assert((q.xn - x3 * q.den) * a2 - (q.yn - y3 * q.den) * b2 == 0) by (nonlinear_arith)
                    requires
                        (num_x - x3 * denom) * a2 - (num_y - y3 * denom) * b2 == 0,
                        q.xn == -num_x,
                        q.yn == -num_y,
                        q.den == -denom,
                ;
            } else {
                assert((q.xn - x1 * q.den) * a1 - (q.yn - y1 * q.den) * b1 == 0);
                assert((q.xn - x3 * q.den) * a2 - (q.yn - y3 * q.den) * b2 == 0);
            }
            assert(on_line(q, line1.p0.0 as int, line1.p0.1 as int, line1.p1.0 as int, line1.p1.1 as int));
            assert(on_line(q, line2.p0.0 as int, line2.p0.1 as int, line2.p1.0 as int, line2.p1.1 as int));
        }
        Some(q)
    }
}

/// A point on two non-parallel lines is the only one: any two points on
/// both lines coincide.
pub proof fn lemma_intersection_unique(line1: Wall, line2: Wall, p: Point, q: Point)
    requires
        cross2(line1.wvx(), line1.wvy(), line2.wvx(), line2.wvy()) != 0,
        p.den >= 1,
        q.den >= 1,
        on_line(p, line1.p0.0 as int, line1.p0.1 as int, line1.p1.0 as int, line1.p1.1 as int),
        on_line(p, line2.p0.0 as int, line2.p0.1 as int, line2.p1.0 as int, line2.p1.1 as int),
        on_line(q, line1.p0.0 as int, line1.p0.1 as int, line1.p1.0 as int, line1.p1.1 as int),
        on_line(q, line2.p0.0 as int, line2.p0.1 as int, line2.p1.0 as int, line2.p1.1 as int),
    ensures
        p.same_value(q),
{
    let x1 = line1.p0.0 as int;
    let y1 = line1.p0.1 as int;
    let x3 = line2.p0.0 as int;
    let y3 = line2.p0.1 as int;
    let a1 = line1.wvy();
    let b1 = line1.wvx();
    let a2 = line2.wvy();
    let b2 = line2.wvx();
    let dnm = cross2(line1.wvx(), line1.wvy(), line2.wvx(), line2.wvy());
    lemma_on_two_lines(p, x1, y1, a1, b1, x3, y3, a2, b2, dnm);
    lemma_on_two_lines(q, x1, y1, a1, b1, x3, y3, a2, b2, dnm);
    let nx = (x3 * a2 - y3 * b2) * b1 - (x1 * a1 - y1 * b1) * b2;
    let ny = (x3 * a2 - y3 * b2) * a1 - (x1 * a1 - y1 * b1) * a2;
    assert(p.xn * q.den == q.xn * p.den) by (nonlinear_arith)
        requires
            p.xn * dnm == p.den * nx,
            q.xn * dnm == q.den * nx,
            dnm != 0,
    ;
    assert(p.yn * q.den == q.yn * p.den) by (nonlinear_arith)
        requires
            p.yn * dnm == p.den * ny,
            q.yn * dnm == q.den * ny,
            dnm != 0,
    ;
}

/// A point on both lines has its coordinates pinned by Cramer's rule.
proof fn lemma_on_two_lines(
    p: Point,
    x1: int,
    y1: int,
    a1: int,
    b1: int,
    x3: int,
    y3: int,
    a2: int,
    b2: int,
    dnm: int,
)
    requires
        (p.xn - x1 * p.den) * a1 - (p.yn - y1 * p.den) * b1 == 0,
        (p.xn - x3 * p.den) * a2 - (p.yn - y3 * p.den) * b2 == 0,
        dnm == b1 * a2 - a1 * b2,
    ensures
        p.xn * dnm == p.den * ((x3 * a2 - y3 * b2) * b1 - (x1 * a1 - y1 * b1) * b2),
        p.yn * dnm == p.den * ((x3 * a2 - y3 * b2) * a1 - (x1 * a1 - y1 * b1) * a2),
{
    let e1 = x1 * a1 - y1 * b1;
    let e2 = x3 * a2 - y3 * b2;
    assert(p.xn * a1 - p.yn * b1 == p.den * e1) by (nonlinear_arith)
        requires
            (p.xn - x1 * p.den) * a1 - (p.yn - y1 * p.den) * b1 == 0,
            e1 == x1 * a1 - y1 * b1,
    ;
    assert(p.xn * a2 - p.yn * b2 == p.den * e2) by (nonlinear_arith)
        requires
            (p.xn - x3 * p.den) * a2 - (p.yn - y3 * p.den) * b2 == 0,
            e2 == x3 * a2 - y3 * b2,
    ;
    assert((p.xn * a2 - p.yn * b2) * b1 - (p.xn * a1 - p.yn * b1) * b2 == p.xn * dnm)
        by (nonlinear_arith)
        requires
            dnm == b1 * a2 - a1 * b2,
    ;
    assert((p.den * e2) * b1 - (p.den * e1) * b2 == p.den * (e2 * b1 - e1 * b2))
        by (nonlinear_arith)
    ;
    assert(p.xn * dnm == p.den * (e2 * b1 - e1 * b2));
    assert((p.xn * a2 - p.yn * b2) * a1 - (p.xn * a1 - p.yn * b1) * a2 == p.yn * dnm)
        by (nonlinear_arith)
        requires
            dnm == b1 * a2 - a1 * b2,
    ;
    assert((p.den * e2) * a1 - (p.den * e1) * a2 == p.den * (e2 * a1 - e1 * a2))
        by (nonlinear_arith)
    ;
    assert(p.yn * dnm == p.den * (e2 * a1 - e1 * a2));
}

/// The normalized parameter denominator of a non-parallel wall is positive.
pub proof fn lemma_pos_den_pos(o: Point, dx: int, dy: int, w: Wall)
    requires
        o.den >= 1,
        ray_cross(dx, dy, w) != 0,
    ensures
        pos_den(o, dx, dy, w) >= 1,
        u_den(o, dx, dy, w) != 0,
{
    let crs = ray_cross(dx, dy, w);
    assert(o.den * crs >= 1 || o.den * crs <= -1) by (nonlinear_arith)
        requires
            o.den >= 1,
            crs != 0,
    ;
    if u_den(o, dx, dy, w) < 0 {
        assert(pos_den(o, dx, dy, w) == -1 * u_den(o, dx, dy, w));
    } else {
        assert(pos_den(o, dx, dy, w) == 1 * u_den(o, dx, dy, w));
    }
}

/// Find the nearest wall a ray strikes. Walks every wall; a wall whose line
/// meets the ray's line within min_sep of the origin trips the
/// corner-ambiguity guard: the first such wall is skipped silently, a
/// second aborts the cast with AmbiguousCorner. Among the surviving
/// candidates (struck forward, nearer than max_dist, on the finite
/// segment), the nearest one wins, the earliest of equally near ones.
/// Returns the exact hit point and the index of the struck wall, or nothing
/// when the ray escapes.
pub fn cast_ray(origin: &Point, dir: (i64, i64), walls: &Vec<Wall>, cfg: &CastConfig) -> (r:
    Result<Option<(Point, usize)>, CastError>)
    requires
        origin_fits(*origin),
        dir_fits(dir.0 as int, dir.1 as int),
        cfg.wf(),
        walls_wf(walls@),
    ensures
        match r {
            Result::Err(e) => {
                &&& e == CastError::AmbiguousCorner
                &&& tc_count(*origin, dir.0 as int, dir.1 as int, walls@, *cfg, walls@.len() as int) >= 2
            },
            Result::Ok(opt) => {
                &&& tc_count(*origin, dir.0 as int, dir.1 as int, walls@, *cfg, walls@.len() as int) <= 1
                &&& match opt {
                    Option::None => forall|i: int|
                        0 <= i < walls@.len() ==> !is_candidate(
                            *origin,
                            dir.0 as int,
                            dir.1 as int,
                            #[trigger] walls@[i],
                            *cfg,
                        ),
                    Option::Some(hit) => {
                        let q = hit.0;
                        let idx = hit.1;
                        &&& idx < walls@.len()
                        &&& is_candidate(*origin, dir.0 as int, dir.1 as int, walls@[idx as int], *cfg)
                        &&& q.xn == hit_xn(*origin, dir.0 as int, dir.1 as int, walls@[idx as int])
                        &&& q.yn == hit_yn(*origin, dir.0 as int, dir.1 as int, walls@[idx as int])
                        &&& q.den == hit_den(*origin, dir.0 as int, dir.1 as int, walls@[idx as int])
                        &&& q.wf()
                        &&& q.in_range(HIT_NUM_LIMIT as int, HIT_DEN_LIMIT as int)
                        &&& forall|j: int|
                            0 <= j < walls@.len() && is_candidate(
                                *origin,
                                dir.0 as int,
                                dir.1 as int,
                                #[trigger] walls@[j],
                                *cfg,
                            ) ==> !strikes_sooner(
                                *origin,
                                dir.0 as int,
                                dir.1 as int,
                                walls@[j],
                                walls@[idx as int],
                            )
                        &&& forall|j: int|
                            0 <= j < idx && is_candidate(
                                *origin,
                                dir.0 as int,
                                dir.1 as int,
                                #[trigger] walls@[j],
                                *cfg,
                            ) ==> strikes_sooner(
                                *origin,
                                dir.0 as int,
                                dir.1 as int,
                                walls@[idx as int],
                                walls@[j],
                            )
                    },
                }
            },
        },
{
    let ghost o = *origin;
    let ghost gdx = dir.0 as int;
    let ghost gdy = dir.1 as int;
    let ghost gcfg = *cfg;
    let dxi: i128 = dir.0 as i128;
    let dyi: i128 = dir.1 as i128;
    proof {
        lemma_mul_bound(dxi as int, dxi as int, 32768, 32768);
        lemma_mul_bound(dyi as int, dyi as int, 32768, 32768);
    }
    let d2: i128 = dxi * dxi + dyi * dyi;
    let ms: i128 = cfg.min_sep as i128;
    let md: i128 = cfg.max_dist as i128;
    let n: usize = walls.len();
    let mut k: usize = 0;
    let mut tc: u32 = 0;
    let mut has_best: bool = false;
    let mut best_idx: usize = 0;
    let mut best_un: i128 = 0;
    let mut best_ud: i128 = 1;
    let mut best_qx: i128 = 0;
    let mut best_qy: i128 = 0;
    while k < n
        invariant
            n == walls@.len(),
            0 <= k <= n,
            origin_fits(o),
            o == *origin,
            gdx == dir.0 as int,
            gdy == dir.1 as int,
            gcfg == *cfg,
            dxi == dir.0 as i128,
            dyi == dir.1 as i128,
            d2 == dxi * dxi + dyi * dyi,
            ms == cfg.min_sep as i128,
            md == cfg.max_dist as i128,
            dir_fits(gdx, gdy),
            cfg.wf(),
            walls_wf(walls@),
            tc as int == tc_count(o, gdx, gdy, walls@, gcfg, k as int),
            tc <= 1,
            !has_best ==> forall|i: int|
                0 <= i < k ==> !is_candidate(o, gdx, gdy, #[trigger] walls@[i], gcfg),
            has_best ==> {
                &&& best_idx < k
                &&& is_candidate(o, gdx, gdy, walls@[best_idx as int], gcfg)
                &&& best_un as int == pos_num(o, gdx, gdy, walls@[best_idx as int])
                &&& best_ud as int == pos_den(o, gdx, gdy, walls@[best_idx as int])
                &&& best_qx as int == hit_xn(o, gdx, gdy, walls@[best_idx as int])
                &&& best_qy as int == hit_yn(o, gdx, gdy, walls@[best_idx as int])
                &&& -35184372088832 <= best_un <= 35184372088832
                &&& 1 <= best_ud <= 35184372088832
                &&& -2305843009213693952 <= best_qx <= 2305843009213693952
                &&& -2305843009213693952 <= best_qy <= 2305843009213693952
                &&& forall|j: int|
                    0 <= j < k && is_candidate(o, gdx, gdy, #[trigger] walls@[j], gcfg)
                        ==> !strikes_sooner(o, gdx, gdy, walls@[j], walls@[best_idx as int])
                &&& forall|j: int|
                    0 <= j < best_idx && is_candidate(o, gdx, gdy, #[trigger] walls@[j], gcfg)
                        ==> strikes_sooner(o, gdx, gdy, walls@[best_idx as int], walls@[j])
            },
        decreases n - k,
    {
        let w: Wall = walls[k];
        let ghost wg = walls@[k as int];
        let wx: i128 = w.p1.0 as i128 - w.p0.0 as i128;
        let wy: i128 = w.p1.1 as i128 - w.p0.1 as i128;
        proof {
            lemma_mul_bound(dxi as int, wy as int, 32768, 32768);
            lemma_mul_bound(dyi as int, wx as int, 32768, 32768);
            lemma_mul_bound(dxi as int, dxi as int, 32768, 32768);
            lemma_mul_bound(dyi as int, dyi as int, 32768, 32768);
        }
        let crs: i128 = dxi * wy - dyi * wx;
        proof {
            assert(crs as int == ray_cross(gdx, gdy, wg));
        }
        if crs != 0 {
            proof {
                lemma_mul_bound(w.p0.0 as int, origin.den as int, 16384, 16384);
                lemma_mul_bound(w.p0.1 as int, origin.den as int, 16384, 16384);
            }
            let a: i128 = w.p0.0 as i128 * origin.den - origin.xn;
            let b: i128 = w.p0.1 as i128 * origin.den - origin.yn;
            proof {
                lemma_mul_bound(a as int, wy as int, 536870912, 32768);
                lemma_mul_bound(b as int, wx as int, 536870912, 32768);
                lemma_mul_bound(origin.den as int, crs as int, 16384, 2147483648);
            }
            let un_raw: i128 = a * wy - b * wx;
            let ud_raw: i128 = origin.den * crs;
            proof {
                assert(un_raw as int == u_num(o, wg));
                assert(ud_raw as int == u_den(o, gdx, gdy, wg));
                lemma_mul_bound(un_raw as int, un_raw as int, 35184372088832, 35184372088832);
                lemma_mul_bound(
                    (un_raw * un_raw) as int,
                    d2 as int,
                    1237940039285380274899124224,
                    2147483648,
                );
                lemma_mul_bound(ms as int, ms as int, 16384, 16384);
                lemma_mul_bound(md as int, md as int, 16384, 16384);
                lemma_mul_bound(ud_raw as int, ud_raw as int, 35184372088832, 35184372088832);
                lemma_mul_bound(
                    (ms * ms) as int,
                    (ud_raw * ud_raw) as int,
                    268435456,
                    1237940039285380274899124224,
                );
                lemma_mul_bound(
                    (md * md) as int,
                    (ud_raw * ud_raw) as int,
                    268435456,
                    1237940039285380274899124224,
                );
            }
            let lhs: i128 = (un_raw * un_raw) * d2;
            if lhs < (ms * ms) * (ud_raw * ud_raw) {
                proof {
                    assert(too_close(o, gdx, gdy, wg, gcfg));
                    assert(tc_count(o, gdx, gdy, walls@, gcfg, k as int + 1) == tc as int + 1);
                }
                tc = tc + 1;
                if tc == 2 {
                    proof {
                        lemma_tc_count_mono(o, gdx, gdy, walls@, gcfg, k as int + 1, n as int);
                    }
                    return Err(CastError::AmbiguousCorner);
                }
                proof {
                    assert(!is_candidate(o, gdx, gdy, wg, gcfg));
                }
            } else {
                proof {
                    assert(!too_close(o, gdx, gdy, wg, gcfg));
                    assert(tc_count(o, gdx, gdy, walls@, gcfg, k as int + 1) == tc as int);
                    lemma_pos_den_pos(o, gdx, gdy, wg);
                }
                let unn: i128 = if ud_raw < 0 { -un_raw } else { un_raw };
                let udn: i128 = if ud_raw < 0 { -ud_raw } else { ud_raw };
                proof {
                    if ud_raw < 0 {
                        assert(sgn(u_den(o, gdx, gdy, wg)) == -1);
                        assert(unn as int == -1 * u_num(o, wg));
                        assert(udn as int == -1 * u_den(o, gdx, gdy, wg));
                    } else {
                        assert(sgn(u_den(o, gdx, gdy, wg)) == 1);
                        assert(unn as int == 1 * u_num(o, wg));
                        assert(udn as int == 1 * u_den(o, gdx, gdy, wg));
                    }
                    assert(unn as int == pos_num(o, gdx, gdy, wg));
                    assert(udn as int == pos_den(o, gdx, gdy, wg));
                }
                if unn > 0 && lhs < (md * md) * (ud_raw * ud_raw) {
                    proof {
                        lemma_mul_bound(origin.xn as int, crs as int, 268435456, 2147483648);
                        lemma_mul_bound(origin.yn as int, crs as int, 268435456, 2147483648);
                        lemma_mul_bound(un_raw as int, dxi as int, 35184372088832, 32768);
                        lemma_mul_bound(un_raw as int, dyi as int, 35184372088832, 32768);
                    }
                    let qx_raw: i128 = origin.xn * crs + un_raw * dxi;
                    let qy_raw: i128 = origin.yn * crs + un_raw * dyi;
                    let q: Point = if ud_raw < 0 {
                        Point { xn: -qx_raw, yn: -qy_raw, den: udn }
                    } else {
                        Point { xn: qx_raw, yn: qy_raw, den: udn }
                    };
                    proof {
                        if ud_raw < 0 {
                            assert(q.xn as int == -1 * (o.xn * ray_cross(gdx, gdy, wg) + u_num(o, wg)
                                * gdx));
                            assert(q.yn as int == -1 * (o.yn * ray_cross(gdx, gdy, wg) + u_num(o, wg)
                                * gdy));
                        } else {
                            assert(q.xn as int == 1 * (o.xn * ray_cross(gdx, gdy, wg) + u_num(o, wg)
                                * gdx));
                            assert(q.yn as int == 1 * (o.yn * ray_cross(gdx, gdy, wg) + u_num(o, wg)
                                * gdy));
                        }
                        assert(q.xn as int == hit_xn(o, gdx, gdy, wg));
                        assert(q.yn as int == hit_yn(o, gdx, gdy, wg));
                        assert(q.den as int == hit_den(o, gdx, gdy, wg));
                        assert(q.in_range(HIT_NUM_LIMIT as int, HIT_DEN_LIMIT as int));
                        assert(q.wf());
                    }
                    if !w.rejects(&q) {
                        proof {
                            assert(is_candidate(o, gdx, gdy, wg, gcfg));
                        }
                        let replace: bool = if has_best {
                            proof {
                                lemma_mul_bound(unn as int, best_ud as int, 35184372088832,
                                    35184372088832);
                                lemma_mul_bound(best_un as int, udn as int, 35184372088832,
                                    35184372088832);
                            }
                            unn * best_ud < best_un * udn
                        } else {
                            true
                        };
                        if replace {
                            proof {
                                if has_best {
                                    let oldb = walls@[best_idx as int];
                                    assert(strikes_sooner(o, gdx, gdy, wg, oldb));
                                    assert forall|j: int|
                                        0 <= j < k && is_candidate(o, gdx, gdy, #[trigger] walls@[j],
                                            gcfg) implies strikes_sooner(o, gdx, gdy, wg, walls@[j])
                                    by {
                                        lemma_pos_den_pos(o, gdx, gdy, wg);
                                        lemma_pos_den_pos(o, gdx, gdy, oldb);
                                        lemma_pos_den_pos(o, gdx, gdy, walls@[j]);
                                        lemma_frac_lt_le_trans(
                                            pos_num(o, gdx, gdy, wg),
                                            pos_den(o, gdx, gdy, wg),
                                            pos_num(o, gdx, gdy, oldb),
                                            pos_den(o, gdx, gdy, oldb),
                                            pos_num(o, gdx, gdy, walls@[j]),
                                            pos_den(o, gdx, gdy, walls@[j]),
                                        );
                                    }
                                }
                            }
                            has_best = true;
                            best_idx = k;
                            best_un = unn;
                            best_ud = udn;
                            best_qx = q.xn;
                            best_qy = q.yn;
                        } else {
                            proof {
                                assert(!strikes_sooner(o, gdx, gdy, wg, walls@[best_idx as int]));
                            }
                        }
                    } else {
                        proof {
                            assert(!is_candidate(o, gdx, gdy, wg, gcfg));
                        }
                    }
                } else {
                    proof {
                        assert(!is_candidate(o, gdx, gdy, wg, gcfg));
                    }
                }
            }
        } else {
            proof {
                assert(!too_close(o, gdx, gdy, wg, gcfg));
                assert(!is_candidate(o, gdx, gdy, wg, gcfg));
                assert(tc_count(o, gdx, gdy, walls@, gcfg, k as int + 1) == tc as int);
            }
        }
        k = k + 1;
    }
    if has_best {
        let q = Point { xn: best_qx, yn: best_qy, den: best_ud };
        proof {
            assert(q.den as int == hit_den(o, gdx, gdy, walls@[best_idx as int]));
            assert(q.in_range(HIT_NUM_LIMIT as int, HIT_DEN_LIMIT as int));
        }
        Ok(Some((q, best_idx)))
    } else {
        Ok(None)
    }
}

} // verus!
