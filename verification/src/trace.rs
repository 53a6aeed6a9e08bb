//! Tracing a ray through repeated casts: each strike reports the traversed
//! segment, blends the traveling color toward the struck wall, reflects the
//! direction and continues from the hit point until the bounce budget runs
//! out, the ray escapes, or the exact state outgrows its representation.

use vstd::prelude::*;
use crate::cast::CastConfig;
use crate::cast::CastError;
use crate::cast::cast_ray;
use crate::cast::dir_fits;
use crate::cast::hit_den;
use crate::cast::hit_xn;
use crate::cast::hit_yn;
use crate::cast::is_candidate;
use crate::cast::origin_fits;
use crate::cast::ray_cross;
use crate::cast::strikes_sooner;
use crate::cast::tc_count;
use crate::cast::walls_wf;
use crate::color::Rgb;
use crate::color::mix_colors;
use crate::color::mix_spec;
use crate::geom::COORD_LIMIT;
use crate::geom::DIR_LIMIT;
use crate::geom::ORIGIN_DEN_LIMIT;
use crate::geom::ORIGIN_NUM_LIMIT;
use crate::geom::Point;
use crate::num::lemma_mul_bound;
use crate::num::reduce2_spec;
use crate::num::reduce3;
use crate::num::reduce3_spec;
use crate::wall::Wall;
use crate::wall::reflect_spec;

verus! {

/// One traversed piece of a traced ray: drawn from start to end in the
/// given color.
#[derive(Clone, Copy, Debug)]
pub struct Segment {
    pub start: Point,
    pub end: Point,
    pub color: Rgb,
}

/// The state a trace is in before each cast: current origin, direction,
/// traveling color and remaining bounce budget.
pub ghost struct TraceState {
    pub origin: Point,
    pub dir: (i64, i64),
    pub color: Rgb,
    pub budget: int,
}

/// The state a trace starts from.
pub open spec fn init_state(origin: (i64, i64), dir: (i64, i64), color: Rgb, budget: u8) -> TraceState {
    TraceState {
        origin: Point { xn: origin.0 as i128, yn: origin.1 as i128, den: 1 },
        dir,
        color,
        budget: budget as int,
    }
}

/// The state's origin and direction are small enough to cast from.
pub open spec fn state_fits(s: TraceState) -> bool {
    &&& origin_fits(s.origin)
    &&& dir_fits(s.dir.0 as int, s.dir.1 as int)
}

/// A cast from this state trips the corner-ambiguity guard.
pub open spec fn cast_errs(s: TraceState, walls: Seq<Wall>, cfg: CastConfig) -> bool {
    tc_count(s.origin, s.dir.0 as int, s.dir.1 as int, walls, cfg, walls.len() as int) >= 2
}

/// Wall i is the wall a cast from this state strikes: a candidate that no
/// candidate beats, and that strictly beats every earlier candidate.
pub open spec fn hit_at(s: TraceState, walls: Seq<Wall>, cfg: CastConfig, i: int) -> bool {
    let o = s.origin;
    let dx = s.dir.0 as int;
    let dy = s.dir.1 as int;
    &&& 0 <= i < walls.len()
    &&& is_candidate(o, dx, dy, walls[i], cfg)
    &&& forall|j: int|
        0 <= j < walls.len() && is_candidate(o, dx, dy, #[trigger] walls[j], cfg)
            ==> !strikes_sooner(o, dx, dy, walls[j], walls[i])
    &&& forall|j: int|
        0 <= j < i && is_candidate(o, dx, dy, #[trigger] walls[j], cfg) ==> strikes_sooner(
            o,
            dx,
            dy,
            walls[i],
            walls[j],
        )
}

/// Some wall survives every per-wall test of a cast from this state.
pub open spec fn has_candidate(s: TraceState, walls: Seq<Wall>, cfg: CastConfig) -> bool {
    exists|i: int|
        0 <= i < walls.len() && is_candidate(
            s.origin,
            s.dir.0 as int,
            s.dir.1 as int,
            #[trigger] walls[i],
            cfg,
        )
}

/// The reported segment belongs to this state: it starts at the state's
/// origin in the state's color, and ends at the struck point, or, for an
/// escaping ray, at origin + max_dist * dir.
pub open spec fn seg_matches(s: TraceState, seg: Segment, walls: Seq<Wall>, cfg: CastConfig) -> bool {
    let o = s.origin;
    let dx = s.dir.0 as int;
    let dy = s.dir.1 as int;
    &&& seg.color == s.color
    &&& seg.start == o
    &&& if has_candidate(s, walls, cfg) {
        exists|i: int|
            #[trigger] hit_at(s, walls, cfg, i) && seg.end.xn == hit_xn(o, dx, dy, walls[i])
                && seg.end.yn == hit_yn(o, dx, dy, walls[i]) && seg.end.den == hit_den(
                o,
                dx,
                dy,
                walls[i],
            )
    } else {
        &&& seg.end.xn == o.xn + (cfg.max_dist * s.dir.0) * o.den
        &&& seg.end.yn == o.yn + (cfg.max_dist * s.dir.1) * o.den
        &&& seg.end.den == o.den
    }
}

/// The exact next state after striking wall i: origin moves to the reduced
/// hit point, the direction is the reduced reflection, the color is blended
/// toward the struck wall, and the budget falls by one.
pub open spec fn steps_to(s: TraceState, s2: TraceState, walls: Seq<Wall>, cfg: CastConfig, i: int) -> bool {
    let o = s.origin;
    let dx = s.dir.0 as int;
    let dy = s.dir.1 as int;
    let w = walls[i];
    let np = reduce3_spec(hit_xn(o, dx, dy, w), hit_yn(o, dx, dy, w), hit_den(o, dx, dy, w));
    let nd = reduce2_spec(
        reflect_spec(dx, dy, w.wvx(), w.wvy()).0,
        reflect_spec(dx, dy, w.wvx(), w.wvy()).1,
    );
    &&& s.budget > 1
    &&& s2.origin.xn == np.0
    &&& s2.origin.yn == np.1
    &&& s2.origin.den == np.2
    &&& s2.dir.0 as int == nd.0
    &&& s2.dir.1 as int == nd.1
    &&& s2.color == mix_spec(s.color, w.color)
    &&& s2.budget == s.budget - 1
}

/// One bounce: the trace steps from s to s2 across the struck wall.
pub open spec fn step_ok(s: TraceState, s2: TraceState, walls: Seq<Wall>, cfg: CastConfig) -> bool {
    exists|i: int| #[trigger] hit_at(s, walls, cfg, i) && steps_to(s, s2, walls, cfg, i)
}

/// The exact state after striking wall i still fits the representation
/// bounds a cast demands.
pub open spec fn next_state_fits(s: TraceState, walls: Seq<Wall>, cfg: CastConfig, i: int) -> bool {
    let o = s.origin;
    let dx = s.dir.0 as int;
    let dy = s.dir.1 as int;
    let w = walls[i];
    let np = reduce3_spec(hit_xn(o, dx, dy, w), hit_yn(o, dx, dy, w), hit_den(o, dx, dy, w));
    let nd = reduce2_spec(
        reflect_spec(dx, dy, w.wvx(), w.wvy()).0,
        reflect_spec(dx, dy, w.wvx(), w.wvy()).1,
    );
    &&& -ORIGIN_NUM_LIMIT <= np.0 <= ORIGIN_NUM_LIMIT
    &&& -ORIGIN_NUM_LIMIT <= np.1 <= ORIGIN_NUM_LIMIT
    &&& np.2 <= ORIGIN_DEN_LIMIT
    &&& -DIR_LIMIT <= nd.0 <= DIR_LIMIT
    &&& -DIR_LIMIT <= nd.1 <= DIR_LIMIT
}

/// Why a trace stopped at its last state: the ray escaped, the bounce
/// budget was spent, or the exact next state outgrew the representation
/// bounds.
pub open spec fn trace_done(s: TraceState, walls: Seq<Wall>, cfg: CastConfig) -> bool {
    ||| !has_candidate(s, walls, cfg)
    ||| s.budget <= 1
    ||| exists|i: int| #[trigger] hit_at(s, walls, cfg, i) && !next_state_fits(s, walls, cfg, i)
}

/// The per-index conditions of a successful trace: each state fits and does
/// not trip the guard, each reported segment belongs to its state, and
/// consecutive states are one bounce apart.
pub open spec fn chain_links(
    sts: Seq<TraceState>,
    segs: Seq<Segment>,
    walls: Seq<Wall>,
    cfg: CastConfig,
) -> bool {
    &&& sts.len() == segs.len()
    &&& forall|m: int| 0 <= m < sts.len() ==> #[trigger] state_fits(sts[m])
    &&& forall|m: int| 0 <= m < sts.len() ==> !#[trigger] cast_errs(sts[m], walls, cfg)
    &&& forall|m: int| 0 <= m < sts.len() ==> #[trigger] seg_matches(sts[m], segs[m], walls, cfg)
    &&& forall|m: int| 0 <= m < sts.len() - 1 ==> step_ok(#[trigger] sts[m], sts[m + 1], walls, cfg)
}

/// A full account of a successful trace: a chain of states, one per
/// reported segment, that starts at the initial state, bounces wall to
/// wall, and stops for one of the three reasons trace_done names.
pub open spec fn chain_complete(
    sts: Seq<TraceState>,
    segs: Seq<Segment>,
    init: TraceState,
    walls: Seq<Wall>,
    cfg: CastConfig,
) -> bool {
    &&& sts.len() >= 1
    &&& sts[0] == init
    &&& chain_links(sts, segs, walls, cfg)
    &&& trace_done(sts.last(), walls, cfg)
}

/// Some chain of states accounts for the reported segments in full.
pub open spec fn traced_ok(
    segs: Seq<Segment>,
    init: TraceState,
    walls: Seq<Wall>,
    cfg: CastConfig,
) -> bool {
    exists|sts: Seq<TraceState>| #[trigger] chain_complete(sts, segs, init, walls, cfg)
}

/// A full account of an aborted trace: a chain of states from the initial
/// one, bouncing wall to wall, whose last cast trips the corner-ambiguity
/// guard.
pub open spec fn chain_aborts(
    sts: Seq<TraceState>,
    init: TraceState,
    walls: Seq<Wall>,
    cfg: CastConfig,
) -> bool {
    &&& sts.len() >= 1
    &&& sts[0] == init
    &&& forall|m: int| 0 <= m < sts.len() ==> #[trigger] state_fits(sts[m])
    &&& forall|m: int| 0 <= m < sts.len() - 1 ==> !#[trigger] cast_errs(sts[m], walls, cfg)
    &&& forall|m: int| 0 <= m < sts.len() - 1 ==> step_ok(#[trigger] sts[m], sts[m + 1], walls, cfg)
    &&& cast_errs(sts.last(), walls, cfg)
}

/// Trace a ray from an integer origin: cast, report the traversed segment,
/// and while budget remains and the state stays representable, reflect off
/// the struck wall, blend the color two thirds toward the wall's color, and
/// continue from the hit point. A corner-ambiguity failure in any cast
/// aborts the whole trace and reports no segments.
pub fn trace_ray(
    origin: (i64, i64),
    dir: (i64, i64),
    color: Rgb,
    walls: &Vec<Wall>,
    bounce_budget: u8,
    cfg: &CastConfig,
) -> (r: Result<Vec<Segment>, CastError>)
    requires
        -COORD_LIMIT <= origin.0 <= COORD_LIMIT,
        -COORD_LIMIT <= origin.1 <= COORD_LIMIT,
        dir_fits(dir.0 as int, dir.1 as int),
        cfg.wf(),
        walls_wf(walls@),
    ensures
        r matches Result::Ok(v) ==> v@.len() >= 1,
        r matches Result::Ok(v) ==> traced_ok(v@, init_state(origin, dir, color, bounce_budget), walls@, *cfg),
        r matches Result::Err(e) ==> e == CastError::AmbiguousCorner,
        r is Err ==> exists|sts: Seq<TraceState>|
            #[trigger] chain_aborts(sts, init_state(origin, dir, color, bounce_budget), walls@, *cfg),
{
    let mut segs: Vec<Segment> = Vec::new();
    let mut cur_o: Point = Point::from_int(origin.0, origin.1);
    let mut cur_d: (i64, i64) = dir;
    let mut cur_c: Rgb = color;
    let mut cur_b: u8 = bounce_budget;
    let ghost init = init_state(origin, dir, color, bounce_budget);
    let ghost mut sts: Seq<TraceState> = Seq::empty();
    proof {
        assert(init.origin == cur_o);
    }
    loop
        invariant
            walls_wf(walls@),
            cfg.wf(),
            origin_fits(cur_o),
            dir_fits(cur_d.0 as int, cur_d.1 as int),
            init == init_state(origin, dir, color, bounce_budget),
            sts.len() == segs@.len(),
            sts.len() == 0 ==> (TraceState {
                origin: cur_o,
                dir: cur_d,
                color: cur_c,
                budget: cur_b as int,
            }) == init,
            sts.len() > 0 ==> sts[0] == init,
            sts.len() > 0 ==> step_ok(
                sts.last(),
                TraceState { origin: cur_o, dir: cur_d, color: cur_c, budget: cur_b as int },
                walls@,
                *cfg,
            ),
            forall|m: int| 0 <= m < sts.len() ==> #[trigger] state_fits(sts[m]),
            forall|m: int| 0 <= m < sts.len() ==> !#[trigger] cast_errs(sts[m], walls@, *cfg),
            forall|m: int|
                0 <= m < sts.len() ==> #[trigger] seg_matches(sts[m], segs@[m], walls@, *cfg),
            forall|m: int|
                0 <= m < sts.len() - 1 ==> step_ok(#[trigger] sts[m], sts[m + 1], walls@, *cfg),
        decreases cur_b,
    {
        let ghost cur = TraceState { origin: cur_o, dir: cur_d, color: cur_c, budget: cur_b as int };
        let res = cast_ray(&cur_o, cur_d, walls, cfg);
        match res {
            Result::Err(e) => {
                proof {
                    let full = sts.push(cur);
                    assert(full.last() == cur);
                    assert(cast_errs(cur, walls@, *cfg));
                    assert(full[0] == init);
                    assert(forall|m: int| 0 <= m < sts.len() ==> full[m] == sts[m]);
                    assert(chain_aborts(full, init, walls@, *cfg));
                    assert(exists|sts2: Seq<TraceState>|
                        #[trigger] chain_aborts(sts2, init, walls@, *cfg));
                }
                return Err(e);
            },
            Result::Ok(opt) => {
                match opt {
                    Option::None => {
                        let md: i128 = cfg.max_dist as i128;
                        proof {
                            lemma_mul_bound(md as int, cur_d.0 as int, 16384, 32768);
                            lemma_mul_bound(md as int, cur_d.1 as int, 16384, 32768);
                            lemma_mul_bound(
                                (md * cur_d.0 as i128) as int,
                                cur_o.den as int,
                                536870912,
                                16384,
                            );
                            lemma_mul_bound(
                                (md * cur_d.1 as i128) as int,
                                cur_o.den as int,
                                536870912,
                                16384,
                            );
                        }
                        let ex: i128 = cur_o.xn + (md * cur_d.0 as i128) * cur_o.den;
                        let ey: i128 = cur_o.yn + (md * cur_d.1 as i128) * cur_o.den;
                        let endp = Point { xn: ex, yn: ey, den: cur_o.den };
                        segs.push(Segment { start: cur_o, end: endp, color: cur_c });
                        proof {
                            let full = sts.push(cur);
                            assert(full.last() == cur);
                            assert(!has_candidate(cur, walls@, *cfg));
                            assert(seg_matches(cur, segs@.last(), walls@, *cfg));
                            assert(full[0] == init);
                            assert(forall|m: int| 0 <= m < sts.len() ==> full[m] == sts[m]);
                            assert(chain_links(full, segs@, walls@, *cfg));
                            assert(trace_done(cur, walls@, *cfg));
                            assert(chain_complete(full, segs@, init, walls@, *cfg));
                            assert(traced_ok(segs@, init, walls@, *cfg));
                        }
                        return Ok(segs);
                    },
                    Option::Some(hit) => {
                        let q: Point = hit.0;
                        let idx: usize = hit.1;
                        let wall: Wall = walls[idx];
                        segs.push(Segment { start: cur_o, end: q, color: cur_c });
                        proof {
                            assert(hit_at(cur, walls@, *cfg, idx as int));
                            assert(has_candidate(cur, walls@, *cfg));
                            assert(seg_matches(cur, segs@.last(), walls@, *cfg));
                        }
                        if cur_b <= 1 {
                            proof {
                                let full = sts.push(cur);
                                assert(full.last() == cur);
                                assert(full[0] == init);
                                assert(forall|m: int| 0 <= m < sts.len() ==> full[m] == sts[m]);
                                assert(chain_links(full, segs@, walls@, *cfg));
                                assert(trace_done(cur, walls@, *cfg));
                                assert(chain_complete(full, segs@, init, walls@, *cfg));
                                assert(traced_ok(segs@, init, walls@, *cfg));
                            }
                            return Ok(segs);
                        }
                        proof {
                            if wall.p0 == wall.p1 {
                                assert(ray_cross(cur_d.0 as int, cur_d.1 as int, wall) == cur_d.0
                                    as int * 0 - cur_d.1 as int * 0);
                                assert(ray_cross(cur_d.0 as int, cur_d.1 as int, wall) == 0);
                            }
                            assert(wall.nondegenerate());
                        }
                        let nd = wall.bounce(cur_d);
                        let red = reduce3(q.xn, q.yn, q.den);
                        let fits: bool = red.2 <= ORIGIN_DEN_LIMIT && red.0 >= -ORIGIN_NUM_LIMIT
                            && red.0 <= ORIGIN_NUM_LIMIT && red.1 >= -ORIGIN_NUM_LIMIT && red.1
                            <= ORIGIN_NUM_LIMIT && nd.0 >= -DIR_LIMIT && nd.0 <= DIR_LIMIT && nd.1
                            >= -DIR_LIMIT && nd.1 <= DIR_LIMIT;
                        if !fits {
                            proof {
                                let full = sts.push(cur);
                                assert(full.last() == cur);
                                assert(full[0] == init);
                                assert(forall|m: int| 0 <= m < sts.len() ==> full[m] == sts[m]);
                                assert(chain_links(full, segs@, walls@, *cfg));
                                assert(!next_state_fits(cur, walls@, *cfg, idx as int));
                                assert(trace_done(cur, walls@, *cfg));
                                assert(chain_complete(full, segs@, init, walls@, *cfg));
                                assert(traced_ok(segs@, init, walls@, *cfg));
                            }
                            return Ok(segs);
                        }
                        let no = Point { xn: red.0, yn: red.1, den: red.2 };
                        let nc = mix_colors(cur_c, wall.color);
                        let nb = cur_b - 1;
                        proof {
                            let nxt = TraceState {
                                origin: no,
                                dir: nd,
                                color: nc,
                                budget: nb as int,
                            };
                            assert(steps_to(cur, nxt, walls@, *cfg, idx as int));
                            assert(step_ok(cur, nxt, walls@, *cfg));
                            let full = sts.push(cur);
                            assert(full[0] == init);
                            assert(forall|m: int| 0 <= m < sts.len() ==> full[m] == sts[m]);
                            assert(full.last() == cur);
                            sts = full;
                        }
                        cur_o = no;
                        cur_d = nd;
                        cur_c = nc;
                        cur_b = nb;
                    },
                }
            },
        }
    }
}

/// A ray aimed away from every wall draws exactly one segment: from its
/// origin to origin + max_dist * dir, in its original color.
pub proof fn lemma_escape_draws_one(
    sts: Seq<TraceState>,
    segs: Seq<Segment>,
    init: TraceState,
    walls: Seq<Wall>,
    cfg: CastConfig,
)
    requires
        chain_complete(sts, segs, init, walls, cfg),
        forall|i: int|
            0 <= i < walls.len() ==> !is_candidate(
                init.origin,
                init.dir.0 as int,
                init.dir.1 as int,
                #[trigger] walls[i],
                cfg,
            ),
    ensures
        segs.len() == 1,
        segs[0].start == init.origin,
        segs[0].color == init.color,
        segs[0].end.xn == init.origin.xn + (cfg.max_dist * init.dir.0) * init.origin.den,
        segs[0].end.yn == init.origin.yn + (cfg.max_dist * init.dir.1) * init.origin.den,
        segs[0].end.den == init.origin.den,
{
    assert(!has_candidate(init, walls, cfg));
    if sts.len() > 1 {
        assert(step_ok(sts[0], sts[1], walls, cfg));
        let i = choose|i: int|
            #[trigger] hit_at(sts[0], walls, cfg, i) && steps_to(sts[0], sts[1], walls, cfg, i);
        assert(is_candidate(init.origin, init.dir.0 as int, init.dir.1 as int, walls[i], cfg));
        assert(false);
    }
    assert(seg_matches(sts[0], segs[0], walls, cfg));
}

} // verus!
