//! Small number-theoretic and arithmetic helpers: greatest common divisors,
//! exact division, and bounds on products used to rule out overflow.

use vstd::prelude::*;
use vstd::arithmetic::div_mod::lemma_fundamental_div_mod;
use vstd::arithmetic::div_mod::lemma_mod_multiples_basic;
use vstd::arithmetic::div_mod::lemma_mod_self_0;
use vstd::arithmetic::div_mod::lemma_small_mod;

verus! {

/// d divides x (both nonnegative, d positive).
pub open spec fn divides(d: nat, x: nat) -> bool {
    d >= 1 && x % d == 0
}

/// Greatest common divisor of two natural numbers, with gcd(a, 0) == a.
pub open spec fn gcd_nat(a: nat, b: nat) -> nat
    decreases b,
{
    if b == 0 {
        a
    } else {
        gcd_nat(b, a % b)
    }
}

/// The greatest common divisor divides both of its arguments, and is
/// positive as soon as one of them is.
pub proof fn lemma_gcd_divides(a: nat, b: nat)
    requires
        a > 0 || b > 0,
    ensures
        divides(gcd_nat(a, b), a),
        divides(gcd_nat(a, b), b),
    decreases b,
{
    let g = gcd_nat(a, b);
    if b == 0 {
        lemma_mod_self_0(a as int);
        lemma_small_mod(0, a);
    } else {
        lemma_gcd_divides(b, a % b);
        assert(g == gcd_nat(b, a % b));
        let q = a as int / b as int;
        let r = a as int % b as int;
        lemma_fundamental_div_mod(a as int, b as int);
        assert(a == q * b + r);
        let kb = b as int / g as int;
        let kr = r / g as int;
        lemma_fundamental_div_mod(b as int, g as int);
        lemma_fundamental_div_mod(r, g as int);
        assert(b == kb * g);
        assert(r == kr * g);
        assert(a == (q * kb + kr) * g) by (nonlinear_arith)
            requires
                a == q * b + r,
                b == kb * g,
                r == kr * g,
        ;
        lemma_mod_multiples_basic(q * kb + kr, g as int);
    }
}

/// Euclid's algorithm, the executable side of `gcd_nat`.
pub fn gcd_exec(a: u128, b: u128) -> (g: u128)
    ensures
        g == gcd_nat(a as nat, b as nat),
    decreases b,
{
    if b == 0 {
        a
    } else {
        gcd_exec(b, a % b)
    }
}

/// Divisibility carries over a middle term.
pub proof fn lemma_divides_trans(a: nat, b: nat, c: nat)
    requires
        divides(a, b),
        divides(b, c),
    ensures
        divides(a, c),
{
    lemma_fundamental_div_mod(c as int, b as int);
    lemma_fundamental_div_mod(b as int, a as int);
    let kc = c as int / b as int;
    let kb = b as int / a as int;
    assert(c == (kc * kb) * a) by (nonlinear_arith)
        requires
            c == b * kc + c as int % b as int,
            c as int % b as int == 0,
            b == a * kb + b as int % a as int,
            b as int % a as int == 0,
    ;
    lemma_mod_multiples_basic(kc * kb, a as int);
}

/// Exact division of a multiple of g by g.
pub fn div_exact(x: u128, g: u128) -> (q: u128)
    requires
        1 <= g,
        (x as nat) % (g as nat) == 0,
    ensures
        q * g == x,
        q <= x,
        q == x as int / g as int,
{
    proof {
        lemma_fundamental_div_mod(x as int, g as int);
        assert(x as int % g as int == 0);
        assert((x as int / g as int) * (g as int) == x as int) by (nonlinear_arith)
            requires
                x as int == g as int * (x as int / g as int) + x as int % g as int,
                x as int % g as int == 0,
        ;
        assert(x as int / g as int <= x) by (nonlinear_arith)
            requires
                x >= 0,
                g >= 1,
        ;
    }
    x / g
}

/// Magnitude of an integer.
pub open spec fn mag(x: int) -> nat {
    if x >= 0 {
        x as nat
    } else {
        (-x) as nat
    }
}

/// Sign of an integer, counting 0 as positive.
pub open spec fn sgn(x: int) -> int {
    if x >= 0 {
        1
    } else {
        -1
    }
}

/// (g, rx, ry) scales to (x, y): a positive factor g carries the reduced
/// vector back to the original one.
pub open spec fn scales2(g: int, rx: int, ry: int, x: int, y: int) -> bool {
    g >= 1 && g * rx == x && g * ry == y
}

/// (g, rx, ry, rd) scales to (x, y, d): a positive factor g carries the
/// reduced point representation back to the original one.
pub open spec fn scales3(g: int, rx: int, ry: int, rd: int, x: int, y: int, d: int) -> bool {
    g >= 1 && g * rx == x && g * ry == y && g * rd == d
}

/// A vector divided by the greatest common divisor of its components: the
/// shortest integer vector with the same direction.
pub open spec fn reduce2_spec(x: int, y: int) -> (int, int) {
    if x == 0 && y == 0 {
        (0, 0)
    } else {
        let g = gcd_nat(mag(x), mag(y)) as int;
        (sgn(x) * (mag(x) as int / g), sgn(y) * (mag(y) as int / g))
    }
}

/// A rational-point representation divided by the greatest common divisor of
/// its two numerators and its denominator.
pub open spec fn reduce3_spec(x: int, y: int, d: int) -> (int, int, int) {
    let g = gcd_nat(gcd_nat(mag(x), mag(y)), d as nat) as int;
    (sgn(x) * (mag(x) as int / g), sgn(y) * (mag(y) as int / g), d / g)
}

/// Divide both components by their greatest common divisor.
pub fn reduce2(x: i128, y: i128) -> (r: (i128, i128))
    requires
        -170141183460469231731687303715884105727 <= x,
        -170141183460469231731687303715884105727 <= y,
    ensures
        r.0 as int == reduce2_spec(x as int, y as int).0,
        r.1 as int == reduce2_spec(x as int, y as int).1,
        exists|g: int| scales2(g, r.0 as int, r.1 as int, x as int, y as int),
        mag(r.0 as int) <= mag(x as int),
        mag(r.1 as int) <= mag(y as int),
{
    if x == 0 && y == 0 {
        let res: (i128, i128) = (0, 0);
        proof {
            assert(scales2(1, res.0 as int, res.1 as int, x as int, y as int)) by (nonlinear_arith)
                requires
                    x == 0,
                    y == 0,
                    res.0 == 0,
                    res.1 == 0,
            ;
        }
        res
    } else {
        let ax: u128 = if x < 0 { (-x) as u128 } else { x as u128 };
        let ay: u128 = if y < 0 { (-y) as u128 } else { y as u128 };
        let g = gcd_exec(ax, ay);
        proof {
            lemma_gcd_divides(ax as nat, ay as nat);
        }
        let qx = div_exact(ax, g);
        let qy = div_exact(ay, g);
        let rx: i128 = if x < 0 { -(qx as i128) } else { qx as i128 };
        let ry: i128 = if y < 0 { -(qy as i128) } else { qy as i128 };
        proof {
            assert(g as int * rx == x) by (nonlinear_arith)
                requires
                    qx * g == ax,
                    (x < 0 && rx == -(qx as int) && ax == -(x as int)) || (x >= 0 && rx == qx
                        && ax == x),
            ;
            assert(g as int * ry == y) by (nonlinear_arith)
                requires
                    qy * g == ay,
                    (y < 0 && ry == -(qy as int) && ay == -(y as int)) || (y >= 0 && ry == qy
                        && ay == y),
            ;
            if x < 0 {
                assert(reduce2_spec(x as int, y as int).0 == -1 * (mag(x as int) as int
                    / g as int));
            }
            if y < 0 {
                assert(reduce2_spec(x as int, y as int).1 == -1 * (mag(y as int) as int
                    / g as int));
            }
        }
        let res: (i128, i128) = (rx, ry);
        proof {
            assert(scales2(g as int, res.0 as int, res.1 as int, x as int, y as int));
        }
        res
    }
}

/// Divide numerators and denominator by their greatest common divisor; the
/// value of the represented point does not change.
pub fn reduce3(x: i128, y: i128, d: i128) -> (r: (i128, i128, i128))
    requires
        -170141183460469231731687303715884105727 <= x,
        -170141183460469231731687303715884105727 <= y,
        1 <= d,
    ensures
        r.0 as int == reduce3_spec(x as int, y as int, d as int).0,
        r.1 as int == reduce3_spec(x as int, y as int, d as int).1,
        r.2 as int == reduce3_spec(x as int, y as int, d as int).2,
        exists|g: int| scales3(g, r.0 as int, r.1 as int, r.2 as int, x as int, y as int, d as int),
        mag(r.0 as int) <= mag(x as int),
        mag(r.1 as int) <= mag(y as int),
        1 <= r.2 <= d,
{
    let ax: u128 = if x < 0 { (-x) as u128 } else { x as u128 };
    let ay: u128 = if y < 0 { (-y) as u128 } else { y as u128 };
    let m = gcd_exec(ax, ay);
    let g = gcd_exec(m, d as u128);
    proof {
        lemma_gcd_divides(m as nat, d as nat);
        if m == 0 {
            if ax > 0 || ay > 0 {
                lemma_gcd_divides(ax as nat, ay as nat);
            }
            assert(ax == 0 && ay == 0);
            lemma_small_mod(0, g as nat);
        } else {
            lemma_gcd_divides(ax as nat, ay as nat);
            lemma_divides_trans(g as nat, m as nat, ax as nat);
            lemma_divides_trans(g as nat, m as nat, ay as nat);
        }
    }
    let qx = div_exact(ax, g);
    let qy = div_exact(ay, g);
    let qd = div_exact(d as u128, g);
    let rx: i128 = if x < 0 { -(qx as i128) } else { qx as i128 };
    let ry: i128 = if y < 0 { -(qy as i128) } else { qy as i128 };
    let rd: i128 = qd as i128;
    proof {
        assert(g as int * rx == x) by (nonlinear_arith)
            requires
                qx * g == ax,
                (x < 0 && rx == -(qx as int) && ax == -(x as int)) || (x >= 0 && rx == qx
                    && ax == x),
        ;
        assert(g as int * ry == y) by (nonlinear_arith)
            requires
                qy * g == ay,
                (y < 0 && ry == -(qy as int) && ay == -(y as int)) || (y >= 0 && ry == qy
                    && ay == y),
        ;
        assert(g as int * rd == d) by (nonlinear_arith)
            requires
                qd * g == d,
                rd == qd,
        ;
        if x < 0 {
            assert(reduce3_spec(x as int, y as int, d as int).0 == -1 * (mag(x as int) as int
                / g as int));
        }
        if y < 0 {
            assert(reduce3_spec(x as int, y as int, d as int).1 == -1 * (mag(y as int) as int
                / g as int));
        }
        assert(rd >= 1) by (nonlinear_arith)
            requires
                g as int * rd == d,
                d >= 1,
                g >= 1,
                rd >= 0,
        ;
    }
    let res: (i128, i128, i128) = (rx, ry, rd);
    proof {
        assert(scales3(g as int, res.0 as int, res.1 as int, res.2 as int, x as int, y as int,
            d as int));
    }
    res
}

/// Bound on a product from bounds on its factors.
pub proof fn lemma_mul_bound(a: int, b: int, aa: int, bb: int)
    by (nonlinear_arith)
    requires
        -aa <= a,
        a <= aa,
        -bb <= b,
        b <= bb,
    ensures
        -(aa * bb) <= a * b,
        a * b <= aa * bb,
{
}

/// Ordering of two fractions carries over a third: from a/ad < b/bd and
/// b/bd <= c/cd (all denominators positive) follows a/ad < c/cd, each
/// comparison written with cleared denominators.
pub proof fn lemma_frac_lt_le_trans(an: int, ad: int, bn: int, bd: int, cn: int, cd: int)
    by (nonlinear_arith)
    requires
        ad >= 1,
        bd >= 1,
        cd >= 1,
        an * bd < bn * ad,
        bn * cd <= cn * bd,
    ensures
        an * cd < cn * ad,
{
}

} // verus!
