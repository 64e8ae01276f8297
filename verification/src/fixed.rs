//! Fixed-point scalars.
//!
//! A coordinate, color channel or viewport quantity is an `i64` holding
//! `SCALE` steps per unit, so `SCALE` itself denotes the value one.
//! Two roundings are used, each where its algebra is needed: the affine
//! map rounds toward negative infinity, which keeps it monotone in its
//! input, while the scalar product and quotient behind the complex
//! arithmetic round toward zero, which makes them odd under negation and
//! gives the complex function its conjugate symmetry.

use vstd::prelude::*;

verus! {

use vstd::arithmetic::div_mod::{
    lemma_div_is_ordered,
    lemma_div_multiples_vanish,
    lemma_div_of0,
    lemma_div_nonincreasing,
    lemma_div_pos_is_pos,
    lemma_fundamental_div_mod,
    lemma_fundamental_div_mod_converse,
    lemma_hoist_over_denominator,
};
use vstd::arithmetic::mul::{
    lemma_mul_inequality,
    lemma_mul_is_commutative,
    lemma_mul_nonnegative,
    lemma_mul_unary_negation,
};

/// Number of fixed-point steps per unit.
pub const SCALE: i64 = 65536;

/// Largest magnitude accepted by the affine map and the viewport: leaves
/// ample headroom in the 128-bit intermediates of every operation.
pub const COORD_LIMIT: i64 = 0x4000_0000_0000;

/// Floor of the mathematical quotient `n / d`, as spec-mode `/` computes it
/// for a positive divisor.
pub open spec fn spec_div_floor(n: int, d: int) -> int {
    if d > 0 {
        n / d
    } else {
        (-n) / (-d)
    }
}

/// Floor division of a wide intermediate by a positive divisor.
pub fn div_floor(n: i128, d: i128) -> (q: i128)
    requires
        d > 0,
        n > i128::MIN,
    ensures
        q == n as int / d as int,
        n >= 0 ==> 0 <= q <= n,
        n < 0 ==> n <= q <= 0,
{
    if n >= 0 {
        let nu = n as u128;
        let du = d as u128;
        let q = nu / du;
        proof {
            lemma_div_nonincreasing(nu as int, du as int);
            lemma_div_pos_is_pos(nu as int, du as int);
        }
        q as i128
    } else {
        let m = (-n) as u128;
        let du = d as u128;
        let q0 = m / du;
        let r = m % du;
        proof {
            lemma_fundamental_div_mod(m as int, du as int);
            lemma_div_nonincreasing(m as int, du as int);
            lemma_div_pos_is_pos(m as int, du as int);
            assert(m as int == (du as int) * (q0 as int) + r as int);
            if r == 0 {
                assert((-(q0 as int)) * (d as int) == -((d as int) * (q0 as int)))
                    by (nonlinear_arith);
                lemma_fundamental_div_mod_converse(n as int, d as int, -(q0 as int), 0);
            } else {
                assert((-(q0 as int) - 1) * (d as int)
                    == -((d as int) * (q0 as int)) - (d as int)) by (nonlinear_arith);
                lemma_fundamental_div_mod_converse(
                    n as int,
                    d as int,
                    -(q0 as int) - 1,
                    d - r,
                );
                assert(q0 as int <= m as int - 1) by (nonlinear_arith)
                    requires
                        m as int == (du as int) * (q0 as int) + r as int,
                        r as int >= 1,
                        du as int >= 1,
                        q0 as int >= 0,
                ;
            }
        }
        if r == 0 {
            -(q0 as i128)
        } else {
            -(q0 as i128) - 1
        }
    }
}

/// Whether a mathematical integer is representable as an `i64`.
pub open spec fn fits_i64(v: int) -> bool {
    i64::MIN <= v <= i64::MAX
}

/// Whether a mathematical integer is representable as an `i64` together
/// with its negation.  The complex arithmetic admits only this range, so
/// overflow strikes a value and its mirror image alike.
pub open spec fn fits_sym(v: int) -> bool {
    -i64::MAX <= v <= i64::MAX
}

/// Truncation of the mathematical quotient `n / d` toward zero, for
/// either sign of a nonzero divisor.
pub open spec fn spec_div_trunc(n: int, d: int) -> int {
    if d > 0 {
        if n >= 0 {
            n / d
        } else {
            -((-n) / d)
        }
    } else {
        if n >= 0 {
            -(n / (-d))
        } else {
            (-n) / (-d)
        }
    }
}

/// Truncating division of a wide intermediate by a positive divisor.
pub fn div_trunc(n: i128, d: i128) -> (q: i128)
    requires
        d > 0,
        n > i128::MIN,
    ensures
        q == spec_div_trunc(n as int, d as int),
        n >= 0 ==> 0 <= q <= n,
        n < 0 ==> n <= q <= 0,
{
    if n >= 0 {
        let nu = n as u128;
        let du = d as u128;
        let q = nu / du;
        proof {
            lemma_div_nonincreasing(nu as int, du as int);
            lemma_div_pos_is_pos(nu as int, du as int);
        }
        q as i128
    } else {
        let m = (-n) as u128;
        let du = d as u128;
        let q0 = m / du;
        proof {
            lemma_div_nonincreasing(m as int, du as int);
            lemma_div_pos_is_pos(m as int, du as int);
        }
        -(q0 as i128)
    }
}

/// Truncation is odd in its dividend: negating the dividend negates the
/// quotient exactly, with no rounding drift.
pub proof fn lemma_div_trunc_negation(n: int, d: int)
    requires
        d != 0,
    ensures
        spec_div_trunc(-n, d) == -spec_div_trunc(n, d),
{
    if d > 0 {
        lemma_div_of0(d);
    } else {
        lemma_div_of0(-d);
    }
}

/// Truncation is even under negating both operands.
pub proof fn lemma_div_trunc_flip(n: int, d: int)
    requires
        d != 0,
    ensures
        spec_div_trunc(-n, -d) == spec_div_trunc(n, d),
{
}

/// Mathematical value of a fixed-point product, rounded toward zero.
pub open spec fn spec_fx_mul(a: int, b: int) -> int {
    spec_div_trunc(a * b, SCALE as int)
}

/// Fixed-point product, `None` exactly when the mathematical result
/// leaves the symmetric `i64` range.
pub fn fx_mul(a: i64, b: i64) -> (r: Option<i64>)
    ensures
        r == (if fits_sym(spec_fx_mul(a as int, b as int)) {
            Some(spec_fx_mul(a as int, b as int) as i64)
        } else {
            None::<i64>
        }),
{
    proof {
        assert((a as int) * (b as int) <= 0x4000_0000_0000_0000_0000_0000_0000_0000
            && (a as int) * (b as int) >= -0x4000_0000_0000_0000_0000_0000_0000_0000)
            by (nonlinear_arith)
            requires
                -0x8000_0000_0000_0000 <= a as int <= 0x7fff_ffff_ffff_ffff,
                -0x8000_0000_0000_0000 <= b as int <= 0x7fff_ffff_ffff_ffff,
        ;
    }
    let p = (a as i128) * (b as i128);
    let q = div_trunc(p, SCALE as i128);
    if q >= -(i64::MAX as i128) && q <= i64::MAX as i128 {
        Some(q as i64)
    } else {
        None
    }
}

/// The product is odd in each factor and even under negating both, so
/// the complex arithmetic built on it mirrors exactly about the real
/// axis.
pub proof fn lemma_fx_mul_negation(a: int, b: int)
    ensures
        spec_fx_mul(a, -b) == -spec_fx_mul(a, b),
        spec_fx_mul(-a, b) == -spec_fx_mul(a, b),
        spec_fx_mul(-a, -b) == spec_fx_mul(a, b),
{
    assert(a * (-b) == -(a * b)) by (nonlinear_arith);
    assert((-a) * b == -(a * b)) by (nonlinear_arith);
    assert((-a) * (-b) == a * b) by (nonlinear_arith);
    lemma_div_trunc_negation(a * b, SCALE as int);
}

/// Mathematical value of a fixed-point quotient (divisor nonzero),
/// rounded toward zero.
pub open spec fn spec_fx_div(a: int, b: int) -> int {
    spec_div_trunc(a * SCALE, b)
}

/// Fixed-point quotient: `None` when the divisor is zero or the
/// mathematical result leaves the symmetric `i64` range.
pub fn fx_div(a: i64, b: i64) -> (r: Option<i64>)
    ensures
        b == 0 ==> r is None,
        b != 0 ==> r == (if fits_sym(spec_fx_div(a as int, b as int)) {
            Some(spec_fx_div(a as int, b as int) as i64)
        } else {
            None::<i64>
        }),
{
    if b == 0 {
        return None;
    }
    proof {
        assert((a as int) * (SCALE as int) <= 0x4000_0000_0000_0000_0000_0000
            && (a as int) * (SCALE as int) >= -0x4000_0000_0000_0000_0000_0000)
            by (nonlinear_arith)
            requires
                -0x8000_0000_0000_0000 <= a as int <= 0x7fff_ffff_ffff_ffff,
                SCALE as int == 65536,
        ;
    }
    let n = (a as i128) * (SCALE as i128);
    let q = if b > 0 {
        div_trunc(n, b as i128)
    } else {
        proof {
            lemma_mul_unary_negation(a as int, SCALE as int);
            lemma_div_trunc_flip((a as int) * SCALE, b as int);
        }
        div_trunc(-n, -(b as i128))
    };
    if q >= -(i64::MAX as i128) && q <= i64::MAX as i128 {
        Some(q as i64)
    } else {
        None
    }
}

/// The quotient is odd in its dividend.
pub proof fn lemma_fx_div_negation(a: int, b: int)
    requires
        b != 0,
    ensures
        spec_fx_div(-a, b) == -spec_fx_div(a, b),
{
    assert((-a) * SCALE == -(a * SCALE)) by (nonlinear_arith);
    lemma_div_trunc_negation(a * SCALE, b);
}

/// Mathematical value of the affine rescaling: `value` is carried from the
/// source range `[from_min, from_max]` to the target range
/// `[to_min, to_max]`, extrapolating linearly outside the source range.
pub open spec fn spec_map_value(
    value: int,
    from_min: int,
    from_max: int,
    to_min: int,
    to_max: int,
) -> int {
    to_min + spec_div_floor((value - from_min) * (to_max - to_min), from_max - from_min)
}

/// Affine rescaling of `value` from `[from_min, from_max]` to
/// `[to_min, to_max]`, without clamping: inputs outside the source range
/// extrapolate linearly.  `None` exactly when the result leaves `i64`.
pub fn map_value(
    value: i64,
    from_min: i64,
    from_max: i64,
    to_min: i64,
    to_max: i64,
) -> (r: Option<i64>)
    requires
        from_min != from_max,
        -COORD_LIMIT <= value <= COORD_LIMIT,
        -COORD_LIMIT <= from_min <= COORD_LIMIT,
        -COORD_LIMIT <= from_max <= COORD_LIMIT,
        -COORD_LIMIT <= to_min <= COORD_LIMIT,
        -COORD_LIMIT <= to_max <= COORD_LIMIT,
    ensures
        r == (if fits_i64(spec_map_value(value as int, from_min as int, from_max as int,
                to_min as int, to_max as int)) {
            Some(spec_map_value(value as int, from_min as int, from_max as int,
                to_min as int, to_max as int) as i64)
        } else {
            None::<i64>
        }),
{
    let dv = (value as i128) - (from_min as i128);
    let dt = (to_max as i128) - (to_min as i128);
    let d = (from_max as i128) - (from_min as i128);
    proof {
        assert(dv * dt <= 0x4000_0000_0000_0000_0000_0000
            && dv * dt >= -0x4000_0000_0000_0000_0000_0000)
            by (nonlinear_arith)
            requires
                -0x8000_0000_0000 <= dv as int <= 0x8000_0000_0000,
                -0x8000_0000_0000 <= dt as int <= 0x8000_0000_0000,
        ;
    }
    let num = dv * dt;
    let q = if d > 0 {
        div_floor(num, d)
    } else {
        div_floor(-num, -d)
    };
    let total = (to_min as i128) + q;
    if total >= i64::MIN as i128 && total <= i64::MAX as i128 {
        Some(total as i64)
    } else {
        None
    }
}

/// The affine map is exact at the endpoints: the source range's ends are
/// carried to the target range's ends, whichever way either range runs.
pub proof fn lemma_map_value_affine(from_min: int, from_max: int, to_min: int, to_max: int)
    requires
        from_min != from_max,
    ensures
        spec_map_value(from_min, from_min, from_max, to_min, to_max) == to_min,
        spec_map_value(from_max, from_min, from_max, to_min, to_max) == to_max,
{
    let d = from_max - from_min;
    let dt = to_max - to_min;
    assert(0 * dt == 0) by (nonlinear_arith);
    if d > 0 {
        lemma_div_of0(d);
        lemma_div_multiples_vanish(dt, d);
        assert(d * dt == dt * d) by (nonlinear_arith);
    } else {
        lemma_div_of0(-d);
        lemma_div_multiples_vanish(dt, -d);
        assert(-(d * dt) == (-d) * dt) by (nonlinear_arith);
        assert((-d) * dt == dt * (-d)) by (nonlinear_arith);
    }
}

/// The affine map is monotone in its input: nondecreasing when the two
/// ranges run the same way (the slope's numerator and denominator have
/// equal signs), nonincreasing when they run opposite ways.
pub proof fn lemma_map_value_monotone(
    v1: int,
    v2: int,
    from_min: int,
    from_max: int,
    to_min: int,
    to_max: int,
)
    requires
        from_min != from_max,
        v1 <= v2,
    ensures
        (from_max - from_min) * (to_max - to_min) >= 0 ==> spec_map_value(
            v1, from_min, from_max, to_min, to_max,
        ) <= spec_map_value(v2, from_min, from_max, to_min, to_max),
        (from_max - from_min) * (to_max - to_min) <= 0 ==> spec_map_value(
            v1, from_min, from_max, to_min, to_max,
        ) >= spec_map_value(v2, from_min, from_max, to_min, to_max),
{
    let d = from_max - from_min;
    let dt = to_max - to_min;
    let n1 = (v1 - from_min) * dt;
    let n2 = (v2 - from_min) * dt;
    if d > 0 {
        if dt >= 0 {
            lemma_mul_inequality(v1 - from_min, v2 - from_min, dt);
            lemma_div_is_ordered(n1, n2, d);
            if dt > 0 {
                assert(d * dt > 0) by (nonlinear_arith)
                    requires
                        d > 0,
                        dt > 0,
                ;
            } else {
                assert(n1 == 0 && n2 == 0) by (nonlinear_arith)
                    requires
                        dt == 0,
                        n1 == (v1 - from_min) * dt,
                        n2 == (v2 - from_min) * dt,
                ;
            }
        } else {
            assert(n2 <= n1) by (nonlinear_arith)
                requires
                    v1 <= v2,
                    dt < 0,
                    n1 == (v1 - from_min) * dt,
                    n2 == (v2 - from_min) * dt,
            ;
            lemma_div_is_ordered(n2, n1, d);
            assert(d * dt < 0) by (nonlinear_arith)
                requires
                    d > 0,
                    dt < 0,
            ;
        }
    } else {
        if dt >= 0 {
            assert(-n2 <= -n1) by (nonlinear_arith)
                requires
                    v1 <= v2,
                    dt >= 0,
                    n1 == (v1 - from_min) * dt,
                    n2 == (v2 - from_min) * dt,
            ;
            lemma_div_is_ordered(-n2, -n1, -d);
            if dt > 0 {
                assert(d * dt < 0) by (nonlinear_arith)
                    requires
                        d < 0,
                        dt > 0,
                ;
            } else {
                assert(n1 == 0 && n2 == 0) by (nonlinear_arith)
                    requires
                        dt == 0,
                        n1 == (v1 - from_min) * dt,
                        n2 == (v2 - from_min) * dt,
                ;
            }
        } else {
            assert(-n1 <= -n2) by (nonlinear_arith)
                requires
                    v1 <= v2,
                    dt < 0,
                    n1 == (v1 - from_min) * dt,
                    n2 == (v2 - from_min) * dt,
            ;
            lemma_div_is_ordered(-n1, -n2, -d);
            assert(d * dt > 0) by (nonlinear_arith)
                requires
                    d < 0,
                    dt < 0,
            ;
        }
    }
}

/// A value inside the source range lands inside the target range,
/// whichever way the target range runs.
pub proof fn lemma_map_value_in_range(
    v: int,
    from_min: int,
    from_max: int,
    to_min: int,
    to_max: int,
)
    requires
        from_min < from_max,
        from_min <= v <= from_max,
    ensures
        to_min <= to_max ==> to_min <= spec_map_value(v, from_min, from_max, to_min, to_max)
            <= to_max,
        to_max <= to_min ==> to_max <= spec_map_value(v, from_min, from_max, to_min, to_max)
            <= to_min,
{
    lemma_map_value_affine(from_min, from_max, to_min, to_max);
    lemma_map_value_monotone(from_min, v, from_min, from_max, to_min, to_max);
    lemma_map_value_monotone(v, from_max, from_min, from_max, to_min, to_max);
    if to_min <= to_max {
        assert((from_max - from_min) * (to_max - to_min) >= 0) by (nonlinear_arith)
            requires
                from_max - from_min > 0,
                to_max - to_min >= 0,
        ;
    } else {
        assert((from_max - from_min) * (to_max - to_min) <= 0) by (nonlinear_arith)
            requires
                from_max - from_min > 0,
                to_max - to_min <= 0,
        ;
    }
}

/// Round trip of the affine map: a value in `[0, w]`, carried to the
/// range `[lo, hi]` and back with the same bounds, lands at or just below
/// where it started, within one target step's worth of source values.
pub proof fn lemma_map_value_round_trip(v: int, w: int, lo: int, hi: int)
    requires
        0 <= v <= w,
        0 < w,
        lo < hi,
    ensures
        spec_map_value(spec_map_value(v, 0, w, lo, hi), lo, hi, 0, w) <= v,
        v - spec_map_value(spec_map_value(v, 0, w, lo, hi), lo, hi, 0, w)
            <= w / (hi - lo) + 1,
{
    let r = hi - lo;
    let q = (v * r) / w;
    let y = spec_map_value(v, 0, w, lo, hi);
    assert(y == lo + q);
    let back = spec_map_value(y, lo, hi, 0, w);
    assert(back == (q * w) / r);

    lemma_mul_nonnegative(v, r);
    lemma_fundamental_div_mod(v * r, w);
    let r1 = (v * r) % w;
    assert(w * q == q * w) by {
        lemma_mul_is_commutative(w, q);
    }
    assert(q * w == v * r - r1);

    // Upper bound: the round trip never overshoots the start.
    lemma_div_is_ordered(q * w, v * r, r);
    assert(v * r == r * v) by {
        lemma_mul_is_commutative(v, r);
    }
    lemma_div_multiples_vanish(v, r);
    assert(back <= v);

    // Lower bound: the round trip loses at most one target step.
    assert(v * r - w + 1 <= q * w);
    lemma_div_is_ordered(v * r - w + 1, q * w, r);
    lemma_hoist_over_denominator(1 - w, v, r as nat);
    assert((1 - w) / r + v == (1 - w + v * r) / r);
    assert(back >= v + (1 - w) / r);

    let q2 = (1 - w) / r;
    lemma_fundamental_div_mod(1 - w, r);
    let r2 = (1 - w) % r;
    assert((-q2) * r == -(r * q2)) by (nonlinear_arith);
    lemma_fundamental_div_mod_converse(w - 1 + r2, r, -q2, 0);
    assert(-q2 == (w - 1 + r2) / r);
    lemma_div_is_ordered(w - 1 + r2, w + r - 2, r);
    lemma_hoist_over_denominator(w - 2, 1, r as nat);
    assert((w - 2) / r + 1 == (w - 2 + 1 * r) / r);
    assert(1 * r == r) by (nonlinear_arith);
    lemma_div_is_ordered(w - 2, w, r);
    assert(-q2 <= w / r + 1);
}

/// Round trip of the affine map with a reversed target range, the
/// vertical axis' direction: a value in `[0, w]`, carried to `[hi, lo]`
/// running downward and back with the same bounds, lands at or just
/// above where it started, within one target step's worth of source
/// values.
pub proof fn lemma_map_value_round_trip_reversed(v: int, w: int, lo: int, hi: int)
    requires
        0 <= v <= w,
        0 < w,
        lo < hi,
    ensures
        v <= spec_map_value(spec_map_value(v, 0, w, hi, lo), hi, lo, 0, w),
        spec_map_value(spec_map_value(v, 0, w, hi, lo), hi, lo, 0, w) - v
            <= w / (hi - lo) + 1,
{
    let r = hi - lo;
    let t = (v * (lo - hi)) / w;
    let y = spec_map_value(v, 0, w, hi, lo);
    assert(y == hi + t);
    let back = spec_map_value(y, hi, lo, 0, w);
    assert(v * (lo - hi) == -(v * r)) by (nonlinear_arith)
        requires
            r == hi - lo,
    ;
    assert(-((y - hi) * w) == (-t) * w) by (nonlinear_arith)
        requires
            y == hi + t,
    ;
    assert(back == ((-t) * w) / r);
    let qc = -t;

    lemma_mul_nonnegative(v, r);
    lemma_fundamental_div_mod(v * r, w);
    let qf = (v * r) / w;
    let r1 = (v * r) % w;
    assert(w * qf == qf * w) by {
        lemma_mul_is_commutative(w, qf);
    }
    if r1 == 0 {
        assert((-qf) * w == -(w * qf)) by (nonlinear_arith);
        lemma_fundamental_div_mod_converse(-(v * r), w, -qf, 0);
        assert(qc == qf);
        assert(qc * w == v * r);
        assert(v * r == r * v) by {
            lemma_mul_is_commutative(v, r);
        }
        lemma_div_multiples_vanish(v, r);
        assert(back == v);
        lemma_div_pos_is_pos(w, r);
    } else {
        assert((-qf - 1) * w == -(w * qf) - w) by (nonlinear_arith);
        lemma_fundamental_div_mod_converse(-(v * r), w, -qf - 1, w - r1);
        assert(qc == qf + 1);
        assert(qc * w == v * r - r1 + w) by (nonlinear_arith)
            requires
                qc == qf + 1,
                qf * w == v * r - r1,
        ;
        // The round trip never undershoots the start.
        lemma_div_is_ordered(v * r, qc * w, r);
        assert(v * r == r * v) by {
            lemma_mul_is_commutative(v, r);
        }
        lemma_div_multiples_vanish(v, r);
        assert(back >= v);
        // And overshoots by at most one target step.
        lemma_div_is_ordered(qc * w, v * r + w - 1, r);
        lemma_hoist_over_denominator(w - 1, v, r as nat);
        assert((w - 1) / r + v == (w - 1 + v * r) / r);
        lemma_div_is_ordered(w - 1, w, r);
    }
}

} // verus!
