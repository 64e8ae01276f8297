//! Viewport state and the per-frame interaction step.
//!
//! The viewport is the visible window of the complex plane: a half-width
//! (the boundary) and a pan offset per axis.  Held zoom keys multiply the
//! boundary by a fixed ratio each frame, and held pan keys move the
//! offsets by the boundary over a fixed scroll factor, so panning slows
//! down as the view zooms in.  The boundary is clamped to a positive
//! range, so the pixel-to-plane mapping never degenerates.

use vstd::prelude::*;

verus! {

use vstd::arithmetic::div_mod::{
    lemma_div_basics,
    lemma_div_denominator,
    lemma_div_is_ordered,
    lemma_div_multiples_vanish,
    lemma_div_pos_is_pos,
    lemma_fundamental_div_mod,
    lemma_hoist_over_denominator,
    lemma_mod_bound,
    lemma_multiply_divide_lt,
};
use vstd::arithmetic::mul::{lemma_mul_inequality, lemma_mul_nonnegative};
use vstd::arithmetic::power::{lemma_pow_positive, pow};

/// Numerator of the per-frame zoom-in ratio: each held frame multiplies
/// the boundary by ten elevenths, the reciprocal of the zoom factor of
/// one point one.
pub const ZOOM_NUM: i64 = 10;

/// Denominator of the per-frame zoom-in ratio.
pub const ZOOM_DEN: i64 = 11;

/// Pan moves by the boundary over this factor each frame.
pub const SCROLL_FACTOR: i64 = 50;

/// Boundary at startup: ten plane units.
pub const START_BOUNDARY: i64 = 10 * 65536;

/// Smallest boundary zooming in can reach; keeps the mapping away from a
/// vanishing source range.
pub const MIN_BOUNDARY: i64 = 16;

/// Largest boundary zooming out can reach; keeps every derived
/// coordinate well inside the affine map's accepted range.
pub const MAX_BOUNDARY: i64 = 0x100_0000_0000;

/// Largest pan offset magnitude, for the same reason.
pub const MAX_PAN: i64 = 0x200_0000_0000;

/// The visible window of the complex plane.
#[derive(Clone, Copy, PartialEq, Eq, Structural, Debug)]
pub struct Viewport {
    /// Half-width of the window, in fixed-point plane units; positive.
    pub boundary: i64,
    /// Plane offset of the window's center along the real axis.
    pub pan_x: i64,
    /// Plane offset of the window's center along the imaginary axis.
    pub pan_y: i64,
}

/// The held inputs read once per frame.
#[derive(Clone, Copy, PartialEq, Eq, Structural, Debug)]
pub struct InputState {
    pub zoom_in: bool,
    pub zoom_out: bool,
    pub pan_right: bool,
    pub pan_left: bool,
    pub pan_down: bool,
    pub pan_up: bool,
}

/// One frame of zoom-in: the boundary shrinks by the fixed ratio, but
/// never below the positive floor.
pub open spec fn spec_zoom_in(b: int) -> int {
    let shrunk = (b * ZOOM_NUM) / (ZOOM_DEN as int);
    if shrunk < MIN_BOUNDARY {
        MIN_BOUNDARY as int
    } else {
        shrunk
    }
}

/// One frame of zoom-out: the boundary grows by the fixed ratio, but
/// never above the ceiling.
pub open spec fn spec_zoom_out(b: int) -> int {
    let grown = (b * ZOOM_DEN) / (ZOOM_NUM as int);
    if grown > MAX_BOUNDARY {
        MAX_BOUNDARY as int
    } else {
        grown
    }
}

/// Both zoom keys applied in frame order: zoom-in first, zoom-out second.
pub open spec fn spec_apply_zoom(b: int, zoom_in: bool, zoom_out: bool) -> int {
    let b1 = if zoom_in {
        spec_zoom_in(b)
    } else {
        b
    };
    if zoom_out {
        spec_zoom_out(b1)
    } else {
        b1
    }
}

/// Pan distance of one frame at boundary `b`.
pub open spec fn spec_pan_delta(b: int) -> int {
    b / (SCROLL_FACTOR as int)
}

/// A pan offset held inside its accepted range.
pub open spec fn spec_clamp_pan(p: int) -> int {
    if p < -MAX_PAN {
        -(MAX_PAN as int)
    } else if p > MAX_PAN {
        MAX_PAN as int
    } else {
        p
    }
}

/// Both directional keys of one axis applied in frame order: the
/// positive direction first, the negative second, each moving by the
/// current frame's pan distance.
pub open spec fn spec_apply_pan(p: int, b: int, pos: bool, neg: bool) -> int {
    let p1 = if pos {
        spec_clamp_pan(p + spec_pan_delta(b))
    } else {
        p
    };
    if neg {
        spec_clamp_pan(p1 - spec_pan_delta(b))
    } else {
        p1
    }
}

impl Viewport {
    /// The viewport's invariant: a boundary inside its positive range and
    /// pan offsets inside theirs.
    pub open spec fn wf(self) -> bool {
        &&& MIN_BOUNDARY <= self.boundary <= MAX_BOUNDARY
        &&& -MAX_PAN <= self.pan_x <= MAX_PAN
        &&& -MAX_PAN <= self.pan_y <= MAX_PAN
    }

    /// The startup viewport: ten plane units of half-width, no pan.
    pub fn new() -> (v: Viewport)
        ensures
            v.wf(),
            v.boundary == START_BOUNDARY,
            v.pan_x == 0,
            v.pan_y == 0,
    {
        Viewport { boundary: START_BOUNDARY, pan_x: 0, pan_y: 0 }
    }

    /// One frame of interaction: zoom keys rescale the boundary, pan keys
    /// shift the offsets by the new boundary over the scroll factor.
    pub fn update(&mut self, input: InputState)
        requires
            old(self).wf(),
        ensures
            final(self).wf(),
            final(self).boundary == spec_apply_zoom(
                old(self).boundary as int, input.zoom_in, input.zoom_out,
            ),
            final(self).pan_x == spec_apply_pan(
                old(self).pan_x as int, final(self).boundary as int,
                input.pan_right, input.pan_left,
            ),
            final(self).pan_y == spec_apply_pan(
                old(self).pan_y as int, final(self).boundary as int,
                input.pan_down, input.pan_up,
            ),
    {
        if input.zoom_in {
            self.boundary = zoom_in_once(self.boundary);
        }
        if input.zoom_out {
            self.boundary = zoom_out_once(self.boundary);
        }
        let delta = pan_delta(self.boundary);
        if input.pan_right {
            self.pan_x = clamp_pan(self.pan_x + delta);
        }
        if input.pan_left {
            self.pan_x = clamp_pan(self.pan_x - delta);
        }
        if input.pan_down {
            self.pan_y = clamp_pan(self.pan_y + delta);
        }
        if input.pan_up {
            self.pan_y = clamp_pan(self.pan_y - delta);
        }
    }
}

/// One frame of zoom-in.
fn zoom_in_once(b: i64) -> (r: i64)
    requires
        MIN_BOUNDARY <= b <= MAX_BOUNDARY,
    ensures
        r == spec_zoom_in(b as int),
        MIN_BOUNDARY <= r <= b,
{
    let shrunk = (((b as u64) * 10) / 11) as i64;
    proof {
        lemma_div_is_ordered((b as int) * 10, (b as int) * 11, 11);
        lemma_div_multiples_vanish(b as int, 11);
        assert((b as int) * 11 == 11 * (b as int));
        lemma_div_pos_is_pos((b as int) * 10, 11);
    }
    if shrunk < MIN_BOUNDARY {
        MIN_BOUNDARY
    } else {
        shrunk
    }
}

/// One frame of zoom-out.
fn zoom_out_once(b: i64) -> (r: i64)
    requires
        MIN_BOUNDARY <= b <= MAX_BOUNDARY,
    ensures
        r == spec_zoom_out(b as int),
        b <= r || r == MAX_BOUNDARY,
        MIN_BOUNDARY <= r <= MAX_BOUNDARY,
{
    let grown = (((b as u64) * 11) / 10) as i64;
    proof {
        lemma_div_is_ordered((b as int) * 10, (b as int) * 11, 10);
        lemma_div_multiples_vanish(b as int, 10);
        assert((b as int) * 10 == 10 * (b as int));
    }
    if grown > MAX_BOUNDARY {
        MAX_BOUNDARY
    } else {
        grown
    }
}

/// Pan distance of one frame.
fn pan_delta(b: i64) -> (d: i64)
    requires
        0 <= b <= MAX_BOUNDARY,
    ensures
        d == spec_pan_delta(b as int),
        0 <= d <= b,
{
    proof {
        lemma_div_pos_is_pos(b as int, 50);
        lemma_div_is_ordered(b as int, (b as int) * 50, 50);
        assert(b as int <= (b as int) * 50) by (nonlinear_arith)
            requires
                0 <= b as int,
        ;
        lemma_div_multiples_vanish(b as int, 50);
        assert((b as int) * 50 == 50 * (b as int));
    }
    (((b as u64) / 50)) as i64
}

/// A pan offset pulled back inside its range.
fn clamp_pan(p: i64) -> (r: i64)
    ensures
        r == spec_clamp_pan(p as int),
{
    if p < -MAX_PAN {
        -MAX_PAN
    } else if p > MAX_PAN {
        MAX_PAN
    } else {
        p
    }
}

/// The boundary after `n` consecutive frames of held zoom-in.
pub open spec fn spec_zoomed_in_n(b: int, n: nat) -> int
    decreases n,
{
    if n == 0 {
        b
    } else {
        spec_zoom_in(spec_zoomed_in_n(b, (n - 1) as nat))
    }
}

/// Zoom compounding: holding zoom-in for `n` consecutive frames applies
/// the per-frame ratio `n` times over; the boundary never rises, never
/// leaves its positive range, and each further frame is exactly one more
/// application of the per-frame zoom step.
pub proof fn lemma_zoom_compounding(b: int, n: nat)
    requires
        MIN_BOUNDARY <= b <= MAX_BOUNDARY,
    ensures
        MIN_BOUNDARY <= spec_zoomed_in_n(b, n) <= b,
        spec_zoomed_in_n(b, n + 1) == spec_apply_zoom(
            spec_zoomed_in_n(b, n), true, false,
        ),
    decreases n,
{
    if n == 0 {
        lemma_zoom_in_shrinks(b);
    } else {
        lemma_zoom_compounding(b, (n - 1) as nat);
        lemma_zoom_in_shrinks(spec_zoomed_in_n(b, (n - 1) as nat));
        lemma_zoom_in_shrinks(spec_zoomed_in_n(b, n));
    }
}

/// One frame of zoom-in never grows the boundary and never leaves the
/// accepted range.
pub proof fn lemma_zoom_in_shrinks(b: int)
    requires
        MIN_BOUNDARY <= b <= MAX_BOUNDARY,
    ensures
        MIN_BOUNDARY <= spec_zoom_in(b) <= b,
{
    lemma_div_is_ordered(b * 10, b * 11, 11);
    assert(b * 11 == 11 * b);
    lemma_div_multiples_vanish(b, 11);
}

/// One rounding step of the zoom ratio: dividing after the floor loses
/// less than one whole unit against dividing exactly.
proof fn lemma_step_ratio(a: int, c: int)
    requires
        0 <= a,
        0 < c,
    ensures
        (10 * (a / c)) / 11 <= (10 * a) / (11 * c),
        (10 * a) / (11 * c) <= (10 * (a / c)) / 11 + 1,
{
    let q = a / c;
    let r = a % c;
    lemma_fundamental_div_mod(a, c);
    lemma_mod_bound(a, c);
    lemma_div_pos_is_pos(a, c);

    // Lower direction: 10*q <= (10*a)/c, then divide by 11.
    assert((10 * q) * c <= 10 * a) by (nonlinear_arith)
        requires
            a == c * q + r,
            0 <= r,
    ;
    assert(c * (10 * q) == (10 * q) * c) by (nonlinear_arith);
    lemma_div_multiples_vanish(10 * q, c);
    lemma_div_is_ordered((10 * q) * c, 10 * a, c);
    lemma_mul_nonnegative(10, a);
    lemma_div_denominator(10 * a, c, 11);
    lemma_div_is_ordered(10 * q, (10 * a) / c, 11);
    assert(c * 11 == 11 * c) by (nonlinear_arith);

    // Upper direction: (10*a)/c <= 10*q + 9, then divide by 11.
    assert(10 * a == 10 * r + (10 * q) * c) by (nonlinear_arith)
        requires
            a == c * q + r,
    ;
    lemma_hoist_over_denominator(10 * r, 10 * q, c as nat);
    assert((10 * r) / c + 10 * q == (10 * a) / c);
    assert(10 * r < 10 * c) by (nonlinear_arith)
        requires
            r < c,
    ;
    lemma_multiply_divide_lt(10 * r, c, 10);
    assert((10 * a) / c <= 10 * q + 9);
    lemma_div_is_ordered((10 * a) / c, 10 * q + 11, 11);
    lemma_hoist_over_denominator(10 * q, 1, 11);
    assert((10 * q) / 11 + 1 == (10 * q + 11) / 11);
}

/// Zoom tracking: as long as the floor clamp stays out of play, the
/// boundary after `n` frames of held zoom-in lies within `n` rounding
/// steps below the exact rational power `b * (10/11)^n`.
pub proof fn lemma_zoom_tracks_ratio(b: int, n: nat)
    requires
        MIN_BOUNDARY <= b <= MAX_BOUNDARY,
        (b * pow(10, n)) / pow(11, n) >= MIN_BOUNDARY + n,
    ensures
        (b * pow(10, n)) / pow(11, n) - n <= spec_zoomed_in_n(b, n),
        spec_zoomed_in_n(b, n) <= (b * pow(10, n)) / pow(11, n),
    decreases n,
{
    reveal(pow);
    lemma_pow_positive(10, n);
    lemma_pow_positive(11, n);
    if n == 0 {
        assert(pow(10, 0) == 1 && pow(11, 0) == 1);
        assert(b * 1 == b) by (nonlinear_arith);
        lemma_div_basics(b);
    } else {
        let m = (n - 1) as nat;
        let p10 = pow(10, m);
        let p11 = pow(11, m);
        lemma_pow_positive(10, m);
        lemma_pow_positive(11, m);
        assert(pow(10, n) == 10 * p10);
        assert(pow(11, n) == 11 * p11);
        let a = b * p10;
        assert(0 < a) by (nonlinear_arith)
            requires
                0 < b,
                0 < p10,
                a == b * p10,
        ;
        assert(b * (10 * p10) == 10 * a) by (nonlinear_arith)
            requires
                a == b * p10,
        ;
        let em = a / p11;
        let en = (10 * a) / (11 * p11);
        lemma_step_ratio(a, p11);
        lemma_div_pos_is_pos(a, p11);

        // The previous frame's exact power also clears the clamp margin.
        assert((10 * em) <= 11 * em) by (nonlinear_arith)
            requires
                0 <= em,
        ;
        assert(11 * em == em * 11) by (nonlinear_arith);
        lemma_div_multiples_vanish(em, 11);
        lemma_div_is_ordered(10 * em, em * 11, 11);
        assert((10 * em) / 11 <= em);
        assert(em >= MIN_BOUNDARY + m);

        lemma_zoom_tracks_ratio(b, m);
        let zm = spec_zoomed_in_n(b, m);

        // Upper bound: one more frame stays at or below the exact power.
        lemma_mul_inequality(zm, em, 10);
        assert(zm * 10 == 10 * zm && em * 10 == 10 * em) by (nonlinear_arith);
        lemma_div_is_ordered(zm * 10, em * 10, 11);
        assert((zm * 10) / 11 <= en);

        // Lower bound: one more frame loses at most one more unit.
        assert((em - m) * 10 == em * 10 - 10 * m) by (nonlinear_arith);
        lemma_mul_inequality(em - m, zm, 10);
        assert(em * 10 - 11 * m <= em * 10 - 10 * m);
        lemma_div_is_ordered(em * 10 - 11 * m, zm * 10, 11);
        lemma_hoist_over_denominator(em * 10, -(m as int), 11);
        assert((em * 10) / 11 - m == (em * 10 - 11 * m) / 11) by {
            assert((-(m as int)) * 11 == -(11 * m)) by (nonlinear_arith);
        }
        assert((zm * 10) / 11 >= (10 * em) / 11 - m);
        assert((zm * 10) / 11 >= en - 1 - m);
    }
}

/// Pan scaling: the pan distance of one frame grows with the boundary,
/// so the same key at two sufficiently different zoom levels moves the
/// view by different plane distances.
pub proof fn lemma_pan_delta_monotone(b1: int, b2: int)
    requires
        0 <= b1,
        b1 + SCROLL_FACTOR <= b2,
    ensures
        spec_pan_delta(b1) < spec_pan_delta(b2),
{
    lemma_hoist_over_denominator(b1, 1, 50);
    assert(b1 / 50 + 1 == (b1 + 50) / 50);
    lemma_div_is_ordered(b1 + 50, b2, 50);
}

} // verus!
