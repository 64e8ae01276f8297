//! Fixed-point complex values and the pluggable complex function.
//!
//! Every arithmetic step is total: a result whose components leave the
//! representable range, or a division whose denominator vanishes, yields
//! the distinguished unbounded value instead of failing.  The unbounded
//! value then propagates through further arithmetic and is rendered as a
//! near-white pixel by the color encoder.
//!
//! The arithmetic mirrors exactly about the real axis: products and
//! quotients round toward zero and the admitted component range is
//! symmetric, so conjugating the input conjugates the output —
//! `lemma_f_of_z_conjugate` states it of the whole function.

use vstd::prelude::*;

verus! {

use crate::fixed::{
    SCALE,
    fits_sym,
    fx_div,
    fx_mul,
    lemma_fx_div_negation,
    lemma_fx_mul_negation,
    spec_fx_div,
    spec_fx_mul,
};

/// Real part of the constant subtracted in the default rational function.
pub const NUMERATOR_SHIFT: i64 = 100 * 65536;

/// Real part of the constant added to the default rational denominator.
pub const DENOMINATOR_SHIFT: i64 = 40 * 65536;

/// A complex number with fixed-point real and imaginary parts.
#[derive(Clone, Copy, PartialEq, Eq, Structural, Debug)]
pub struct Complex {
    pub re: i64,
    pub im: i64,
}

/// Outcome of a complex evaluation: a representable value, or the
/// distinguished unbounded case that absorbs component overflow and
/// division by a vanishing denominator.
#[derive(Clone, Copy, PartialEq, Eq, Structural, Debug)]
pub enum ComplexValue {
    Finite(Complex),
    Unbounded,
}

/// Packs two mathematical components into a complex outcome: finite when
/// both lie in the symmetric representable range, unbounded otherwise.
pub open spec fn spec_pack(re: int, im: int) -> ComplexValue {
    if fits_sym(re) && fits_sym(im) {
        ComplexValue::Finite(Complex { re: re as i64, im: im as i64 })
    } else {
        ComplexValue::Unbounded
    }
}

/// Whether a value's conjugate is itself representable: every finite
/// component lies in the symmetric range.  Arithmetic results always do;
/// only hand-built values can fall outside.
pub open spec fn spec_mirrorable(z: ComplexValue) -> bool {
    match z {
        ComplexValue::Finite(c) => c.re > i64::MIN && c.im > i64::MIN,
        ComplexValue::Unbounded => true,
    }
}

/// The complex conjugate, over the unbounded case.
pub open spec fn spec_conj(z: ComplexValue) -> ComplexValue {
    match z {
        ComplexValue::Finite(c) => spec_pack(c.re as int, -(c.im as int)),
        ComplexValue::Unbounded => ComplexValue::Unbounded,
    }
}

/// Componentwise complex sum.
pub open spec fn spec_c_add(a: Complex, b: Complex) -> ComplexValue {
    spec_pack(a.re + b.re, a.im + b.im)
}

/// Componentwise complex difference.
pub open spec fn spec_c_sub(a: Complex, b: Complex) -> ComplexValue {
    spec_pack(a.re - b.re, a.im - b.im)
}

/// Complex product `(a.re + i a.im) * (b.re + i b.im)` over fixed-point
/// partial products; unbounded as soon as any partial product leaves the
/// symmetric representable range.
pub open spec fn spec_c_mul(a: Complex, b: Complex) -> ComplexValue {
    let p1 = spec_fx_mul(a.re as int, b.re as int);
    let p2 = spec_fx_mul(a.im as int, b.im as int);
    let p3 = spec_fx_mul(a.re as int, b.im as int);
    let p4 = spec_fx_mul(a.im as int, b.re as int);
    if fits_sym(p1) && fits_sym(p2) && fits_sym(p3) && fits_sym(p4) {
        spec_pack(p1 - p2, p3 + p4)
    } else {
        ComplexValue::Unbounded
    }
}

/// Squared magnitude of the divisor used by complex division, or `None`
/// when a partial product leaves the symmetric representable range.
pub open spec fn spec_c_norm_sq(d: Complex) -> Option<int> {
    let s1 = spec_fx_mul(d.re as int, d.re as int);
    let s2 = spec_fx_mul(d.im as int, d.im as int);
    if fits_sym(s1) && fits_sym(s2) && fits_sym(s1 + s2) {
        Some(s1 + s2)
    } else {
        None
    }
}

/// Complex quotient via the conjugate: unbounded when the squared
/// magnitude of the divisor vanishes (or any step overflows), which is
/// the fixed-point image of division by a near-zero denominator.
pub open spec fn spec_c_div(n: Complex, d: Complex) -> ComplexValue {
    match spec_c_norm_sq(d) {
        Some(nsq) => {
            if nsq == 0 {
                ComplexValue::Unbounded
            } else {
                let t1 = spec_fx_mul(n.re as int, d.re as int);
                let t2 = spec_fx_mul(n.im as int, d.im as int);
                let t3 = spec_fx_mul(n.im as int, d.re as int);
                let t4 = spec_fx_mul(n.re as int, d.im as int);
                if fits_sym(t1) && fits_sym(t2) && fits_sym(t3) && fits_sym(t4)
                    && fits_sym(t1 + t2) && fits_sym(t3 - t4) {
                    let qre = spec_fx_div(t1 + t2, nsq);
                    let qim = spec_fx_div(t3 - t4, nsq);
                    spec_pack(qre, qim)
                } else {
                    ComplexValue::Unbounded
                }
            }
        },
        None => ComplexValue::Unbounded,
    }
}

/// Lifts a binary operation over the unbounded case.
pub open spec fn spec_cv_add(a: ComplexValue, b: ComplexValue) -> ComplexValue {
    match (a, b) {
        (ComplexValue::Finite(x), ComplexValue::Finite(y)) => spec_c_add(x, y),
        _ => ComplexValue::Unbounded,
    }
}

/// Difference over the unbounded case.
pub open spec fn spec_cv_sub(a: ComplexValue, b: ComplexValue) -> ComplexValue {
    match (a, b) {
        (ComplexValue::Finite(x), ComplexValue::Finite(y)) => spec_c_sub(x, y),
        _ => ComplexValue::Unbounded,
    }
}

/// Product over the unbounded case.
pub open spec fn spec_cv_mul(a: ComplexValue, b: ComplexValue) -> ComplexValue {
    match (a, b) {
        (ComplexValue::Finite(x), ComplexValue::Finite(y)) => spec_c_mul(x, y),
        _ => ComplexValue::Unbounded,
    }
}

/// Quotient over the unbounded case.
pub open spec fn spec_cv_div(a: ComplexValue, b: ComplexValue) -> ComplexValue {
    match (a, b) {
        (ComplexValue::Finite(x), ComplexValue::Finite(y)) => spec_c_div(x, y),
        _ => ComplexValue::Unbounded,
    }
}

/// Packs two widened components, testing the symmetric range.
fn pack_parts(re: i128, im: i128) -> (r: ComplexValue)
    ensures
        r == spec_pack(re as int, im as int),
{
    if re >= -(i64::MAX as i128) && re <= i64::MAX as i128 && im >= -(i64::MAX as i128)
        && im <= i64::MAX as i128 {
        ComplexValue::Finite(Complex { re: re as i64, im: im as i64 })
    } else {
        ComplexValue::Unbounded
    }
}

/// Complex sum.
pub fn c_add(a: ComplexValue, b: ComplexValue) -> (r: ComplexValue)
    ensures
        r == spec_cv_add(a, b),
{
    match (a, b) {
        (ComplexValue::Finite(x), ComplexValue::Finite(y)) => {
            pack_parts(
                (x.re as i128) + (y.re as i128),
                (x.im as i128) + (y.im as i128),
            )
        },
        _ => ComplexValue::Unbounded,
    }
}

/// Complex difference.
pub fn c_sub(a: ComplexValue, b: ComplexValue) -> (r: ComplexValue)
    ensures
        r == spec_cv_sub(a, b),
{
    match (a, b) {
        (ComplexValue::Finite(x), ComplexValue::Finite(y)) => {
            pack_parts(
                (x.re as i128) - (y.re as i128),
                (x.im as i128) - (y.im as i128),
            )
        },
        _ => ComplexValue::Unbounded,
    }
}

/// Complex product.
pub fn c_mul(a: ComplexValue, b: ComplexValue) -> (r: ComplexValue)
    ensures
        r == spec_cv_mul(a, b),
{
    match (a, b) {
        (ComplexValue::Finite(x), ComplexValue::Finite(y)) => {
            match (fx_mul(x.re, y.re), fx_mul(x.im, y.im), fx_mul(x.re, y.im),
                    fx_mul(x.im, y.re)) {
                (Some(p1), Some(p2), Some(p3), Some(p4)) => {
                    pack_parts((p1 as i128) - (p2 as i128), (p3 as i128) + (p4 as i128))
                },
                _ => ComplexValue::Unbounded,
            }
        },
        _ => ComplexValue::Unbounded,
    }
}

/// Complex quotient.
pub fn c_div(a: ComplexValue, b: ComplexValue) -> (r: ComplexValue)
    ensures
        r == spec_cv_div(a, b),
{
    match (a, b) {
        (ComplexValue::Finite(x), ComplexValue::Finite(y)) => {
            match (fx_mul(y.re, y.re), fx_mul(y.im, y.im)) {
                (Some(s1), Some(s2)) => {
                    let nsq_w = (s1 as i128) + (s2 as i128);
                    if nsq_w >= -(i64::MAX as i128) && nsq_w <= i64::MAX as i128 {
                        let nsq = nsq_w as i64;
                        if nsq == 0 {
                            ComplexValue::Unbounded
                        } else {
                            c_div_by_norm(x, y, nsq)
                        }
                    } else {
                        ComplexValue::Unbounded
                    }
                },
                _ => ComplexValue::Unbounded,
            }
        },
        _ => ComplexValue::Unbounded,
    }
}

/// Second half of complex division, once the squared magnitude of the
/// divisor is known to be representable and nonzero.
fn c_div_by_norm(x: Complex, y: Complex, nsq: i64) -> (r: ComplexValue)
    requires
        spec_c_norm_sq(y) == Some(nsq as int),
        nsq != 0,
    ensures
        r == spec_c_div(x, y),
{
    match (fx_mul(x.re, y.re), fx_mul(x.im, y.im), fx_mul(x.im, y.re), fx_mul(x.re, y.im)) {
        (Some(t1), Some(t2), Some(t3), Some(t4)) => {
            let re_w = (t1 as i128) + (t2 as i128);
            let im_w = (t3 as i128) - (t4 as i128);
            if re_w >= -(i64::MAX as i128) && re_w <= i64::MAX as i128
                && im_w >= -(i64::MAX as i128) && im_w <= i64::MAX as i128 {
                match (fx_div(re_w as i64, nsq), fx_div(im_w as i64, nsq)) {
                    (Some(re), Some(im)) => ComplexValue::Finite(Complex { re, im }),
                    _ => ComplexValue::Unbounded,
                }
            } else {
                ComplexValue::Unbounded
            }
        },
        _ => ComplexValue::Unbounded,
    }
}

/// The build-time choice of complex function applied to every grid point.
#[derive(Clone, Copy, PartialEq, Eq, Structural, Debug)]
pub enum FunctionKind {
    /// `f(z) = z`
    Identity,
    /// `f(z) = z^3 - 1`
    CubicMinusOne,
    /// `f(z) = (z^3 - 100) / (z^2 + 40)`
    CubicRational,
}

/// The complex function selected by `kind`, over the unbounded case.
pub open spec fn spec_f_of_z(kind: FunctionKind, z: ComplexValue) -> ComplexValue {
    match kind {
        FunctionKind::Identity => z,
        FunctionKind::CubicMinusOne => spec_cv_sub(
            spec_cv_mul(spec_cv_mul(z, z), z),
            ComplexValue::Finite(Complex { re: SCALE, im: 0 }),
        ),
        FunctionKind::CubicRational => spec_cv_div(
            spec_cv_sub(
                spec_cv_mul(spec_cv_mul(z, z), z),
                ComplexValue::Finite(Complex { re: NUMERATOR_SHIFT, im: 0 }),
            ),
            spec_cv_add(
                spec_cv_mul(z, z),
                ComplexValue::Finite(Complex { re: DENOMINATOR_SHIFT, im: 0 }),
            ),
        ),
    }
}

/// Applies the selected complex function to one point.
pub fn f_of_z(kind: FunctionKind, z: ComplexValue) -> (r: ComplexValue)
    ensures
        r == spec_f_of_z(kind, z),
{
    match kind {
        FunctionKind::Identity => z,
        FunctionKind::CubicMinusOne => {
            let cube = c_mul(c_mul(z, z), z);
            c_sub(cube, ComplexValue::Finite(Complex { re: SCALE, im: 0 }))
        },
        FunctionKind::CubicRational => {
            let square = c_mul(z, z);
            let cube = c_mul(square, z);
            let num = c_sub(cube, ComplexValue::Finite(Complex { re: NUMERATOR_SHIFT, im: 0 }));
            let den = c_add(square, ComplexValue::Finite(Complex { re: DENOMINATOR_SHIFT, im: 0 }));
            c_div(num, den)
        },
    }
}

/// Conjugating both summands conjugates the sum.
proof fn lemma_cv_add_conjugate(a: ComplexValue, b: ComplexValue)
    requires
        spec_mirrorable(a),
        spec_mirrorable(b),
    ensures
        spec_cv_add(spec_conj(a), spec_conj(b)) == spec_conj(spec_cv_add(a, b)),
        spec_mirrorable(spec_cv_add(a, b)),
{
}

/// Conjugating both operands conjugates the difference.
proof fn lemma_cv_sub_conjugate(a: ComplexValue, b: ComplexValue)
    requires
        spec_mirrorable(a),
        spec_mirrorable(b),
    ensures
        spec_cv_sub(spec_conj(a), spec_conj(b)) == spec_conj(spec_cv_sub(a, b)),
        spec_mirrorable(spec_cv_sub(a, b)),
{
}

/// Conjugating both factors conjugates the product.
proof fn lemma_cv_mul_conjugate(a: ComplexValue, b: ComplexValue)
    requires
        spec_mirrorable(a),
        spec_mirrorable(b),
    ensures
        spec_cv_mul(spec_conj(a), spec_conj(b)) == spec_conj(spec_cv_mul(a, b)),
        spec_mirrorable(spec_cv_mul(a, b)),
{
    match (a, b) {
        (ComplexValue::Finite(x), ComplexValue::Finite(y)) => {
            lemma_fx_mul_negation(x.re as int, y.im as int);
            lemma_fx_mul_negation(x.im as int, y.re as int);
            lemma_fx_mul_negation(x.im as int, y.im as int);
        },
        _ => {},
    }
}

/// Conjugating dividend and divisor conjugates the quotient.
proof fn lemma_cv_div_conjugate(a: ComplexValue, b: ComplexValue)
    requires
        spec_mirrorable(a),
        spec_mirrorable(b),
    ensures
        spec_cv_div(spec_conj(a), spec_conj(b)) == spec_conj(spec_cv_div(a, b)),
        spec_mirrorable(spec_cv_div(a, b)),
{
    match (a, b) {
        (ComplexValue::Finite(x), ComplexValue::Finite(y)) => {
            lemma_fx_mul_negation(y.im as int, y.im as int);
            match spec_c_norm_sq(y) {
                Some(nsq) => {
                    if nsq != 0 {
                        lemma_fx_mul_negation(x.im as int, y.im as int);
                        lemma_fx_mul_negation(x.im as int, y.re as int);
                        lemma_fx_mul_negation(x.re as int, y.im as int);
                        let t3 = spec_fx_mul(x.im as int, y.re as int);
                        let t4 = spec_fx_mul(x.re as int, y.im as int);
                        lemma_fx_div_negation(t3 - t4, nsq);
                        assert(-(t3 - t4) == (-t3) - (-t4));
                    }
                },
                None => {},
            }
        },
        _ => {},
    }
}

/// Conjugate symmetry of the complex function: the selected functions
/// have real coefficients, and the arithmetic rounds symmetrically about
/// the real axis, so evaluating at the conjugate gives the conjugate of
/// the value — overflow included, which strikes mirror images alike.
pub proof fn lemma_f_of_z_conjugate(kind: FunctionKind, z: ComplexValue)
    requires
        spec_mirrorable(z),
    ensures
        spec_f_of_z(kind, spec_conj(z)) == spec_conj(spec_f_of_z(kind, z)),
{
    let one = ComplexValue::Finite(Complex { re: SCALE, im: 0 });
    let hundred = ComplexValue::Finite(Complex { re: NUMERATOR_SHIFT, im: 0 });
    let forty = ComplexValue::Finite(Complex { re: DENOMINATOR_SHIFT, im: 0 });
    match kind {
        FunctionKind::Identity => {},
        FunctionKind::CubicMinusOne => {
            let sq = spec_cv_mul(z, z);
            lemma_cv_mul_conjugate(z, z);
            lemma_cv_mul_conjugate(sq, z);
            assert(spec_conj(one) == one);
            lemma_cv_sub_conjugate(spec_cv_mul(sq, z), one);
        },
        FunctionKind::CubicRational => {
            let sq = spec_cv_mul(z, z);
            lemma_cv_mul_conjugate(z, z);
            lemma_cv_mul_conjugate(sq, z);
            let cube = spec_cv_mul(sq, z);
            assert(spec_conj(hundred) == hundred);
            assert(spec_conj(forty) == forty);
            lemma_cv_sub_conjugate(cube, hundred);
            lemma_cv_add_conjugate(sq, forty);
            lemma_cv_div_conjugate(
                spec_cv_sub(cube, hundred),
                spec_cv_add(sq, forty),
            );
        },
    }
}

} // verus!
