//! Color encoding of a complex result.
//!
//! The argument of the value picks a hue (a full turn of the color circle
//! is `SCALE` hue steps) and the magnitude picks a lightness through the
//! saturating map `m^2 / (m^2 + 1)`, so every finite value lands strictly
//! below a fixed lightness ceiling and the unbounded value is drawn with
//! a distinguished near-white lightness just above it.  Encoding is total:
//! it accepts every representable value and always produces channels
//! inside `[0, SCALE]`.

use vstd::prelude::*;

verus! {

use vstd::arithmetic::div_mod::{
    lemma_div_is_ordered,
    lemma_div_multiples_vanish,
    lemma_div_pos_is_pos,
    lemma_fundamental_div_mod,
    lemma_div_by_multiple,
    lemma_div_of0,
    lemma_div_multiples_vanish_quotient,
    lemma_mod_bound,
    lemma_mod_multiples_basic,
    lemma_small_mod,
};
use vstd::arithmetic::mul::{lemma_mul_inequality, lemma_mul_is_commutative, lemma_mul_nonnegative};
use vstd::math::abs;
use crate::complex::{Complex, ComplexValue};
use crate::fixed::{SCALE, div_floor};

/// An eighth of a turn of the color circle, in hue steps.
pub const EIGHTH_TURN: i64 = 8192;

/// A quarter of a turn of the color circle, in hue steps.
pub const QUARTER_TURN: i64 = 16384;

/// Half a turn of the color circle, in hue steps.
pub const HALF_TURN: i64 = 32768;

/// Linear coefficient of the octant arctangent polynomial, chosen with
/// `ATAN_C1 - ATAN_C2 == EIGHTH_TURN` so the octant seams meet exactly.
pub const ATAN_C1: i64 = 11040;

/// Quadratic coefficient of the octant arctangent polynomial.
pub const ATAN_C2: i64 = 2848;

/// Lightness ceiling for finite values, `0.7` of a unit.
pub const MAX_LIGHTNESS: i64 = 45875;

/// Lightness of the unbounded value, `0.8` of a unit: strictly above the
/// ceiling, so unbounded regions read as near-white.
pub const UNBOUNDED_LIGHTNESS: i64 = 52429;

/// One displayable pixel: red, green, blue and alpha channels, each a
/// fixed-point fraction of full intensity in `[0, SCALE]`.
#[derive(Clone, Copy, PartialEq, Eq, Structural, Debug)]
pub struct ColorSample {
    pub r: i64,
    pub g: i64,
    pub b: i64,
    pub a: i64,
}

/// All four channels lie inside the displayable range.
pub open spec fn spec_color_wf(c: ColorSample) -> bool {
    &&& 0 <= c.r <= SCALE
    &&& 0 <= c.g <= SCALE
    &&& 0 <= c.b <= SCALE
    &&& 0 <= c.a <= SCALE
}

/// Whether the alpha channel is fixed at opaque or derived from the
/// saturating magnitude map (more transparent toward unbounded regions).
#[derive(Clone, Copy, PartialEq, Eq, Structural, Debug)]
pub enum EncoderMode {
    Opaque,
    MagnitudeAlpha,
}

/// Polynomial arctangent over one octant: carries a ratio in
/// `[0, SCALE]` to an angle in `[0, EIGHTH_TURN]` hue steps, exact at
/// both ends.
pub open spec fn spec_atan_octant(x: int) -> int {
    (x * (ATAN_C1 * SCALE - ATAN_C2 * x)) / ((SCALE * SCALE) as int)
}

/// Octant arctangent.
pub fn atan_octant(x: i64) -> (r: i64)
    requires
        0 <= x <= SCALE,
    ensures
        r == spec_atan_octant(x as int),
        0 <= r <= EIGHTH_TURN,
{
    let inner: i64 = ATAN_C1 * SCALE - ATAN_C2 * x;
    proof {
        assert(0 <= (x as int) * (inner as int) <= 35184372088832) by (nonlinear_arith)
            requires
                0 <= x as int <= 65536,
                inner as int == 723517440 - 2848 * (x as int),
        ;
    }
    let p = (x as i128) * (inner as i128);
    let q = div_floor(p, 4294967296);
    proof {
        lemma_div_is_ordered(p as int, 35184372088832, 4294967296);
    }
    q as i64
}

/// First-quadrant angle of a point with component magnitudes `ax`, `ay`
/// (not both zero), in `[0, QUARTER_TURN]` hue steps.
pub open spec fn spec_angle_q1(ax: int, ay: int) -> int {
    if ax >= ay {
        spec_atan_octant((ay * SCALE) / ax)
    } else {
        QUARTER_TURN - spec_atan_octant((ax * SCALE) / ay)
    }
}

/// Full-circle angle of a point, counterclockwise from the positive real
/// axis, in `[0, SCALE]` hue steps; the origin is assigned angle zero.
pub open spec fn spec_theta(re: int, im: int) -> int {
    let ax = abs(re) as int;
    let ay = abs(im) as int;
    if ax == 0 && ay == 0 {
        0
    } else {
        let a = spec_angle_q1(ax, ay);
        if re >= 0 && im >= 0 {
            a
        } else if re < 0 && im >= 0 {
            HALF_TURN - a
        } else if re < 0 {
            HALF_TURN + a
        } else {
            SCALE - a
        }
    }
}

/// Hue of a point: its angle, rescaled so an argument of `-pi` or `+pi`
/// meets the ends of the hue range and an argument of zero its middle.
pub open spec fn spec_hue(re: int, im: int) -> int {
    let t = spec_theta(re, im);
    if t <= HALF_TURN {
        t + HALF_TURN
    } else {
        t - HALF_TURN
    }
}

/// Magnitude of a component, widened so the extreme negative value needs
/// no special case.
fn abs_u128(v: i64) -> (r: u128)
    ensures
        r == abs(v as int),
{
    if v >= 0 {
        v as u128
    } else {
        (-(v as i128)) as u128
    }
}

/// Ratio of two magnitudes scaled into `[0, SCALE]`, the octant input.
fn octant_ratio(small: u128, large: u128) -> (r: i64)
    requires
        small <= large,
        0 < large,
        large <= 0x8000_0000_0000_0000,
    ensures
        r == (small as int * SCALE) / large as int,
        0 <= r <= SCALE,
{
    let q = (small * 65536) / large;
    proof {
        lemma_mul_inequality(small as int, large as int, 65536);
        lemma_div_is_ordered(small as int * 65536, large as int * 65536, large as int);
        lemma_mul_is_commutative(large as int, 65536);
        lemma_div_multiples_vanish(65536, large as int);
        lemma_mul_nonnegative(small as int, 65536);
        lemma_div_pos_is_pos(small as int * 65536, large as int);
    }
    q as i64
}

/// Hue of a complex value.
pub fn hue_of(re: i64, im: i64) -> (h: i64)
    ensures
        h == spec_hue(re as int, im as int),
        0 <= h <= SCALE,
{
    let ax = abs_u128(re);
    let ay = abs_u128(im);
    if ax == 0 && ay == 0 {
        return HALF_TURN;
    }
    let a: i64 = if ax >= ay {
        atan_octant(octant_ratio(ay, ax))
    } else {
        QUARTER_TURN - atan_octant(octant_ratio(ax, ay))
    };
    let theta: i64 = if re >= 0 && im >= 0 {
        a
    } else if re < 0 && im >= 0 {
        HALF_TURN - a
    } else if re < 0 {
        HALF_TURN + a
    } else {
        SCALE - a
    };
    if theta <= HALF_TURN {
        theta + HALF_TURN
    } else {
        theta - HALF_TURN
    }
}

/// Hue-to-color conversion at full saturation: the standard
/// hue/saturation/lightness formula, specialized to saturation one, over
/// fixed-point channels.  The hue circle is split into six sectors;
/// `c` is the chroma, `x` the intermediate channel, `m` the match level.
pub open spec fn spec_hsl_to_rgb(h: int, l: int) -> (int, int, int) {
    let c = SCALE - abs(2 * l - SCALE);
    let xfac = SCALE - abs((6 * h) % ((2 * SCALE) as int) - SCALE);
    let x = (c * xfac) / (SCALE as int);
    let m = l - c / 2;
    let sector = (6 * h) / (SCALE as int);
    if sector == 0 {
        (c + m, x + m, m)
    } else if sector == 1 {
        (x + m, c + m, m)
    } else if sector == 2 {
        (m, c + m, x + m)
    } else if sector == 3 {
        (m, x + m, c + m)
    } else if sector == 4 {
        (x + m, m, c + m)
    } else {
        (c + m, m, x + m)
    }
}

/// Hue-to-color conversion at full saturation.
pub fn hsl_to_rgb(h: i64, l: i64) -> (rgb: (i64, i64, i64))
    requires
        0 <= h <= SCALE,
        0 <= l <= SCALE,
    ensures
        (rgb.0 as int, rgb.1 as int, rgb.2 as int) == spec_hsl_to_rgb(h as int, l as int),
        0 <= rgb.0 <= SCALE,
        0 <= rgb.1 <= SCALE,
        0 <= rgb.2 <= SCALE,
{
    let two_l = 2 * l;
    let c: i64 = if two_l >= SCALE {
        SCALE - (two_l - SCALE)
    } else {
        SCALE - (SCALE - two_l)
    };
    let half_c: i64 = ((c as u64) / 2) as i64;
    let m: i64 = l - half_c;
    proof {
        if two_l >= SCALE {
            lemma_div_multiples_vanish(SCALE - l, 2);
            assert(c == 2 * (SCALE - l));
        } else {
            lemma_div_multiples_vanish(l as int, 2);
            assert(c == 2 * (l as int));
        }
    }
    let hh: i64 = 6 * h;
    let sector: i64 = ((hh as u64) / 65536) as i64;
    let mod2: i64 = ((hh as u64) % 131072) as i64;
    let xfac: i64 = if mod2 >= SCALE {
        SCALE - (mod2 - SCALE)
    } else {
        SCALE - (SCALE - mod2)
    };
    proof {
        assert(0 <= (c as int) * (xfac as int) <= 4294967296) by (nonlinear_arith)
            requires
                0 <= c as int <= 65536,
                0 <= xfac as int <= 65536,
        ;
    }
    let xw = div_floor((c as i128) * (xfac as i128), 65536);
    proof {
        lemma_mul_inequality(xfac as int, SCALE as int, c as int);
        lemma_mul_is_commutative(c as int, xfac as int);
        lemma_mul_is_commutative(SCALE as int, c as int);
        lemma_div_is_ordered(c as int * xfac as int, SCALE as int * c as int, SCALE as int);
        lemma_div_multiples_vanish(c as int, SCALE as int);
    }
    let x = xw as i64;
    if sector == 0 {
        (c + m, x + m, m)
    } else if sector == 1 {
        (x + m, c + m, m)
    } else if sector == 2 {
        (m, c + m, x + m)
    } else if sector == 3 {
        (m, x + m, c + m)
    } else if sector == 4 {
        (x + m, m, c + m)
    } else {
        (c + m, m, x + m)
    }
}

/// Squared magnitude of a finite complex value, as a fixed-point scalar
/// (may exceed the representable range; kept mathematical).
pub open spec fn spec_norm_sq(c: Complex) -> int {
    (c.re * c.re + c.im * c.im) / (SCALE as int)
}

/// Lightness of a value: the saturating map `m^2 / (m^2 + 1)` scaled by
/// the ceiling for finite values, the distinguished near-white level for
/// the unbounded value.
pub open spec fn spec_lightness(z: ComplexValue) -> int {
    match z {
        ComplexValue::Finite(c) => (MAX_LIGHTNESS * spec_norm_sq(c)) / (spec_norm_sq(c)
            + SCALE),
        ComplexValue::Unbounded => UNBOUNDED_LIGHTNESS as int,
    }
}

/// The saturating magnitude map itself, scaled to `[0, SCALE]`; drives
/// the alpha channel in the magnitude-alpha encoder mode.
pub open spec fn spec_saturating_t(z: ComplexValue) -> int {
    match z {
        ComplexValue::Finite(c) => (spec_norm_sq(c) * SCALE) / (spec_norm_sq(c) + SCALE),
        ComplexValue::Unbounded => SCALE as int,
    }
}

/// Widened squared magnitude of a finite value.
fn norm_sq_wide(c: Complex) -> (n: u128)
    ensures
        n == spec_norm_sq(c),
        n <= 0x8000_0000_0000_0000_0000_0000_0000,
{
    let ar = abs_u128(c.re);
    let ai = abs_u128(c.im);
    proof {
        assert((ar as int) * (ar as int) <= 0x4000_0000_0000_0000_0000_0000_0000_0000
            && (ai as int) * (ai as int) <= 0x4000_0000_0000_0000_0000_0000_0000_0000)
            by (nonlinear_arith)
            requires
                0 <= ar as int <= 0x8000_0000_0000_0000,
                0 <= ai as int <= 0x8000_0000_0000_0000,
        ;
        assert((ar as int) * (ar as int) == (c.re as int) * (c.re as int)
            && (ai as int) * (ai as int) == (c.im as int) * (c.im as int)) by (nonlinear_arith)
            requires
                ar as int == abs(c.re as int),
                ai as int == abs(c.im as int),
        ;
    }
    let ssum = ar * ar + ai * ai;
    proof {
        lemma_div_is_ordered(
            ssum as int,
            0x8000_0000_0000_0000_0000_0000_0000_0000,
            65536,
        );
    }
    ssum / 65536
}

/// Numerator/denominator form of the saturating map: floor of
/// `num * n / (n + SCALE)`, with the quotient shown below its scale.
fn saturate_scaled(num: u64, n: u128) -> (r: i64)
    requires
        0 < num <= 65536,
        n <= 0x8000_0000_0000_0000_0000_0000_0000,
    ensures
        r == (num as int * n as int) / (n as int + SCALE),
        0 <= r < num,
{
    proof {
        assert((num as int) * (n as int) <= 65536 * 0x8000_0000_0000_0000_0000_0000_0000)
            by (nonlinear_arith)
            requires
                0 < num as int <= 65536,
                0 <= n as int <= 0x8000_0000_0000_0000_0000_0000_0000,
        ;
        lemma_mul_nonnegative(num as int, n as int);
    }
    let ml = (num as u128) * n;
    let den = n + 65536;
    let q = ml / den;
    proof {
        lemma_fundamental_div_mod(ml as int, den as int);
        lemma_mod_bound(ml as int, den as int);
        lemma_mul_is_commutative(den as int, q as int);
        assert((q as int) * (den as int) <= ml as int);
        assert((ml as int) < (num as int) * (den as int)) by (nonlinear_arith)
            requires
                ml as int == (num as int) * (n as int),
                den as int == n as int + 65536,
                0 < num as int <= 65536,
                0 <= n as int,
        ;
        assert((q as int) < (num as int)) by (nonlinear_arith)
            requires
                (q as int) * (den as int) <= ml as int,
                (ml as int) < (num as int) * (den as int),
                (den as int) > 0,
                q as int >= 0,
        ;
        lemma_div_pos_is_pos(ml as int, den as int);
    }
    q as i64
}

/// Lightness of a value.
pub fn lightness(z: ComplexValue) -> (l: i64)
    ensures
        l == spec_lightness(z),
        0 <= l <= UNBOUNDED_LIGHTNESS,
{
    match z {
        ComplexValue::Finite(c) => {
            let n = norm_sq_wide(c);
            saturate_scaled(MAX_LIGHTNESS as u64, n)
        },
        ComplexValue::Unbounded => UNBOUNDED_LIGHTNESS,
    }
}

/// The saturating magnitude map of a value, in `[0, SCALE]`.
pub fn saturating_t(z: ComplexValue) -> (t: i64)
    ensures
        t == spec_saturating_t(z),
        0 <= t <= SCALE,
{
    match z {
        ComplexValue::Finite(c) => {
            let n = norm_sq_wide(c);
            let t = saturate_scaled(65536, n);
            proof {
                lemma_mul_is_commutative(65536, spec_norm_sq(c));
            }
            t
        },
        ComplexValue::Unbounded => SCALE,
    }
}

/// The full color of one complex outcome.
pub open spec fn spec_encode(mode: EncoderMode, z: ComplexValue) -> ColorSample {
    let hue = match z {
        ComplexValue::Finite(c) => spec_hue(c.re as int, c.im as int),
        ComplexValue::Unbounded => HALF_TURN as int,
    };
    let rgb = spec_hsl_to_rgb(hue, spec_lightness(z));
    let alpha = match mode {
        EncoderMode::Opaque => SCALE as int,
        EncoderMode::MagnitudeAlpha => SCALE - spec_saturating_t(z),
    };
    ColorSample { r: rgb.0 as i64, g: rgb.1 as i64, b: rgb.2 as i64, a: alpha as i64 }
}

/// Encodes one complex outcome as a color.  Total: every representable
/// value, the unbounded one included, yields channels in `[0, SCALE]`.
pub fn encode(mode: EncoderMode, z: ComplexValue) -> (c: ColorSample)
    ensures
        c == spec_encode(mode, z),
        spec_color_wf(c),
{
    let hue = match z {
        ComplexValue::Finite(w) => hue_of(w.re, w.im),
        ComplexValue::Unbounded => HALF_TURN,
    };
    let l = lightness(z);
    let (r, g, b) = hsl_to_rgb(hue, l);
    let a = match mode {
        EncoderMode::Opaque => SCALE,
        EncoderMode::MagnitudeAlpha => SCALE - saturating_t(z),
    };
    ColorSample { r, g, b, a }
}

/// The polynomial arctangent never decreases as the octant ratio grows,
/// so the hue varies monotonically with the argument inside each octant.
pub proof fn lemma_atan_octant_monotone(x1: int, x2: int)
    requires
        0 <= x1 <= x2 <= SCALE,
    ensures
        spec_atan_octant(x1) <= spec_atan_octant(x2),
{
    let g1 = x1 * (ATAN_C1 * SCALE - ATAN_C2 * x1);
    let g2 = x2 * (ATAN_C1 * SCALE - ATAN_C2 * x2);
    assert(g1 <= g2) by (nonlinear_arith)
        requires
            0 <= x1 <= x2 <= 65536,
            g1 == x1 * (723517440 - 2848 * x1),
            g2 == x2 * (723517440 - 2848 * x2),
    ;
    lemma_div_is_ordered(g1, g2, (SCALE * SCALE) as int);
}

/// The polynomial arctangent moves by a bounded amount for a bounded
/// step of the octant ratio: a small step of the argument gives a small
/// step of the hue inside each octant.
pub proof fn lemma_atan_octant_lipschitz(x1: int, x2: int)
    requires
        0 <= x1 <= x2 <= SCALE,
    ensures
        spec_atan_octant(x2) - spec_atan_octant(x1) <= ((x2 - x1) * ATAN_C1)
            / (SCALE as int) + 1,
{
    let ss = (SCALE * SCALE) as int;
    let g1 = x1 * (ATAN_C1 * SCALE - ATAN_C2 * x1);
    let g2 = x2 * (ATAN_C1 * SCALE - ATAN_C2 * x2);
    let q1 = g1 / ss;
    let q2 = g2 / ss;
    assert(g2 - g1 <= (x2 - x1) * 723517440 && 0 <= g1) by (nonlinear_arith)
        requires
            0 <= x1 <= x2 <= 65536,
            g1 == x1 * (723517440 - 2848 * x1),
            g2 == x2 * (723517440 - 2848 * x2),
    ;
    lemma_mul_nonnegative(x2 - x1, ATAN_C1 as int);
    lemma_div_pos_is_pos((x2 - x1) * ATAN_C1, SCALE as int);
    if q2 - q1 - 1 >= 0 {
        let k = q2 - q1 - 1;
        lemma_fundamental_div_mod(g1, ss);
        lemma_mod_bound(g1, ss);
        lemma_fundamental_div_mod(g2, ss);
        lemma_mod_bound(g2, ss);
        assert(k * ss <= g2 - g1) by (nonlinear_arith)
            requires
                k == q2 - q1 - 1,
                g1 == ss * q1 + g1 % ss,
                g2 == ss * q2 + g2 % ss,
                0 <= g1 % ss < ss,
                0 <= g2 % ss < ss,
                ss == 4294967296,
        ;
        lemma_div_by_multiple(k, ss);
        lemma_div_is_ordered(k * ss, g2 - g1, ss);
        lemma_div_is_ordered(g2 - g1, (x2 - x1) * 723517440, ss);
        assert((x2 - x1) * 723517440 == (SCALE as int) * ((x2 - x1) * ATAN_C1))
            by (nonlinear_arith);
        lemma_div_multiples_vanish_quotient(SCALE as int, (x2 - x1) * ATAN_C1, SCALE as int);
        assert((SCALE as int) * (SCALE as int) == ss);
    }
}

/// The polynomial arctangent is exact at both octant ends, so the angle
/// map has no jump where two octant formulas meet.
pub proof fn lemma_atan_octant_seams()
    ensures
        spec_atan_octant(0) == 0,
        spec_atan_octant(SCALE as int) == EIGHTH_TURN,
{
    assert(0 * ((ATAN_C1 * SCALE - ATAN_C2 * 0) as int) == 0) by (nonlinear_arith);
    lemma_div_of0((SCALE * SCALE) as int);
    assert(65536 * (723517440 - 2848 * 65536) == 35184372088832) by (nonlinear_arith);
    assert(35184372088832 == 8192 * 4294967296) by (nonlinear_arith);
    lemma_div_by_multiple(8192, 4294967296);
}

/// On the diagonal, the two octant formulas of the first-quadrant angle
/// agree: both give an eighth of a turn.
pub proof fn lemma_angle_diagonal_seam(ax: int)
    requires
        ax > 0,
    ensures
        spec_angle_q1(ax, ax) == EIGHTH_TURN,
        QUARTER_TURN - spec_atan_octant((ax * SCALE) / ax) == EIGHTH_TURN,
{
    lemma_mul_is_commutative(ax, SCALE as int);
    lemma_div_multiples_vanish(SCALE as int, ax);
    lemma_atan_octant_seams();
}

/// The first-quadrant angle always lies inside its quarter turn.
pub proof fn lemma_angle_q1_range(ax: int, ay: int)
    requires
        0 <= ax,
        0 <= ay,
        ax > 0 || ay > 0,
    ensures
        0 <= spec_angle_q1(ax, ay) <= QUARTER_TURN,
{
    lemma_atan_octant_seams();
    if ax >= ay {
        let ratio = (ay * SCALE) / (ax as int);
        lemma_mul_nonnegative(ay, SCALE as int);
        lemma_div_pos_is_pos(ay * SCALE, ax);
        lemma_mul_inequality(ay, ax, SCALE as int);
        lemma_div_is_ordered(ay * SCALE, ax * SCALE, ax);
        lemma_div_multiples_vanish(SCALE as int, ax);
        lemma_atan_octant_monotone(0, ratio);
        lemma_atan_octant_monotone(ratio, SCALE as int);
    } else {
        let ratio = (ax * SCALE) / (ay as int);
        lemma_mul_nonnegative(ax, SCALE as int);
        lemma_div_pos_is_pos(ax * SCALE, ay);
        lemma_mul_inequality(ax, ay, SCALE as int);
        lemma_div_is_ordered(ax * SCALE, ay * SCALE, ay);
        lemma_div_multiples_vanish(SCALE as int, ay);
        lemma_atan_octant_monotone(0, ratio);
        lemma_atan_octant_monotone(ratio, SCALE as int);
    }
}

/// The hue lands in the quarter of its range matching the quadrant of
/// the point, with the seam between the plane's lower and upper halves
/// at both ends of the range.
pub proof fn lemma_hue_quadrants(re: int, im: int)
    requires
        re != 0 || im != 0,
    ensures
        re >= 0 && im >= 0 ==> HALF_TURN <= spec_hue(re, im) <= HALF_TURN + QUARTER_TURN,
        re < 0 && im >= 0 ==> HALF_TURN + QUARTER_TURN <= spec_hue(re, im) <= SCALE,
        re < 0 && im < 0 ==> (0 <= spec_hue(re, im) <= QUARTER_TURN || spec_hue(re, im)
            == SCALE),
        re >= 0 && im < 0 ==> QUARTER_TURN <= spec_hue(re, im) <= HALF_TURN,
{
    let ax = abs(re) as int;
    let ay = abs(im) as int;
    lemma_angle_q1_range(ax, ay);
}

/// Hue wraparound continuity: the color at the bottom of the hue range
/// equals the color at its top, for every lightness, so the seam between
/// an argument of `-pi` and one of `+pi` is invisible.
pub proof fn lemma_hue_wraparound(l: int)
    ensures
        spec_hsl_to_rgb(0, l) == spec_hsl_to_rgb(SCALE as int, l),
{
    let c = SCALE - abs(2 * l - SCALE);
    lemma_small_mod(0, (2 * SCALE) as nat);
    lemma_div_of0(SCALE as int);
    assert(6 * (SCALE as int) == 3 * ((2 * SCALE) as int));
    lemma_mod_multiples_basic(3, (2 * SCALE) as int);
    assert(6 * (SCALE as int) == 6 * (SCALE as int));
    lemma_div_by_multiple(6, SCALE as int);
    assert((6 * (SCALE as int)) / (SCALE as int) == 6);
    assert(c * 0 == 0) by (nonlinear_arith);
}

/// Quotients with a common nonnegative numerator ordering: if
/// `a1 / d1 <= a2 / d2` holds of the real quotients (stated by cross
/// multiplication), it holds of the floors.
proof fn lemma_div_cross_monotone(a1: int, d1: int, a2: int, d2: int)
    requires
        0 <= a1,
        0 < d1,
        0 < d2,
        a1 * d2 <= a2 * d1,
    ensures
        a1 / d1 <= a2 / d2,
{
    let q1 = a1 / d1;
    let r1 = a1 % d1;
    let q2 = a2 / d2;
    let r2 = a2 % d2;
    lemma_fundamental_div_mod(a1, d1);
    lemma_fundamental_div_mod(a2, d2);
    lemma_mod_bound(a1, d1);
    lemma_mod_bound(a2, d2);
    assert(q1 <= q2) by (nonlinear_arith)
        requires
            a1 == d1 * q1 + r1,
            0 <= r1 < d1,
            a2 == d2 * q2 + r2,
            0 <= r2 < d2,
            a1 * d2 <= a2 * d1,
            0 < d1,
            0 < d2,
            0 <= a1,
    ;
}

/// A squared magnitude is never negative.
pub proof fn lemma_norm_sq_nonneg(c: Complex)
    ensures
        0 <= spec_norm_sq(c),
{
    assert(c.re * c.re >= 0 && c.im * c.im >= 0) by (nonlinear_arith);
    lemma_div_pos_is_pos(c.re * c.re + c.im * c.im, SCALE as int);
}

/// Lightness monotonicity: between finite values, a larger squared
/// magnitude never yields a smaller lightness, so for a fixed hue the
/// encoded color only brightens as the magnitude grows.
pub proof fn lemma_lightness_monotone(z1: Complex, z2: Complex)
    requires
        spec_norm_sq(z1) <= spec_norm_sq(z2),
    ensures
        spec_lightness(ComplexValue::Finite(z1)) <= spec_lightness(ComplexValue::Finite(z2)),
{
    let n1 = spec_norm_sq(z1);
    let n2 = spec_norm_sq(z2);
    lemma_norm_sq_nonneg(z1);
    lemma_norm_sq_nonneg(z2);
    assert((MAX_LIGHTNESS * n1) * (n2 + SCALE) <= (MAX_LIGHTNESS * n2) * (n1 + SCALE))
        by (nonlinear_arith)
        requires
            0 <= n1,
            n1 <= n2,
    ;
    assert(0 <= MAX_LIGHTNESS * n1) by (nonlinear_arith)
        requires
            0 <= n1,
    ;
    lemma_div_cross_monotone(MAX_LIGHTNESS * n1, n1 + SCALE, MAX_LIGHTNESS * n2, n2 + SCALE);
}

} // verus!
