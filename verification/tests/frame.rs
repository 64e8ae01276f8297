use domain_coloring::color::{encode, EncoderMode};
use domain_coloring::complex::{c_div, c_mul, f_of_z, Complex, ComplexValue, FunctionKind};
use domain_coloring::fixed::SCALE;
use domain_coloring::pipeline::{axis_positions, plane_x_at, plane_y_at, probe, render_frame};
use domain_coloring::viewport::Viewport;

const S: i64 = SCALE;

fn finite(re: i64, im: i64) -> ComplexValue {
    ComplexValue::Finite(Complex { re, im })
}

fn ten_by_four() -> Viewport {
    // Boundary ten plane units, no pan: the end-to-end scenario viewport.
    Viewport { boundary: 10 * S, pan_x: 0, pan_y: 0 }
}

#[test]
fn identity_grid_corners() {
    // With boundary ten and a four-by-four grid, pixel (0,0) is the
    // plane's top-left corner and pixel (3,3) lies near the bottom-right,
    // with row zero holding the most positive imaginary part.
    let vp = ten_by_four();
    assert_eq!(plane_x_at(&vp, 4, 0), Some(-10 * S));
    assert_eq!(plane_y_at(&vp, 4, 0), Some(10 * S));
    assert_eq!(plane_x_at(&vp, 4, 3 * S), Some(5 * S));
    assert_eq!(plane_y_at(&vp, 4, 3 * S), Some(-5 * S));

    let buf = render_frame(&vp, 4, 4, FunctionKind::Identity, EncoderMode::Opaque);
    assert_eq!(buf.len(), 16);
    // Top-left pixel shows the identity's value at (-10, 10i).
    assert_eq!(buf[0], encode(EncoderMode::Opaque, finite(-10 * S, 10 * S)));
    // Row-major: pixel (3,3) sits at index 3*4+3 and shows (5, -5i).
    assert_eq!(buf[15], encode(EncoderMode::Opaque, finite(5 * S, -5 * S)));
    // Row order flips the imaginary sign: row 0 is above row 3.
    assert_eq!(buf[1], encode(EncoderMode::Opaque, finite(-5 * S, 10 * S)));
    assert_eq!(buf[12], encode(EncoderMode::Opaque, finite(-10 * S, -5 * S)));
}

#[test]
fn parallel_pass_applies_the_function() {
    // A one-pixel frame under the cubic: the pixel shows f of the plane
    // point, not the plane point itself.  At boundary two the single
    // pixel's point is (-2, 2i) and (-2+2i)^3 - 1 = 15 + 16i.
    let vp = Viewport { boundary: 2 * S, pan_x: 0, pan_y: 0 };
    let buf = render_frame(&vp, 1, 1, FunctionKind::CubicMinusOne, EncoderMode::Opaque);
    assert_eq!(buf.len(), 1);
    assert_eq!(buf[0], encode(EncoderMode::Opaque, finite(15 * S, 16 * S)));
    assert_ne!(buf[0], encode(EncoderMode::Opaque, finite(-2 * S, 2 * S)));
}

#[test]
fn probe_inside_reads_the_function() {
    let vp = ten_by_four();
    let p = probe(&vp, 4, 4, FunctionKind::Identity, 0, 0).unwrap();
    assert_eq!(p.z, Complex { re: -10 * S, im: 10 * S });
    assert_eq!(p.fz, finite(-10 * S, 10 * S));
    // Fractional pixel positions are mapped, not snapped.
    let q = probe(&vp, 4, 4, FunctionKind::Identity, 2 * S, 2 * S).unwrap();
    assert_eq!(q.z, Complex { re: 0, im: 0 });
}

#[test]
fn probe_outside_is_undefined() {
    // A pointer outside the buffer yields the undefined reading, not a
    // clamped one.
    let vp = ten_by_four();
    assert!(probe(&vp, 4, 4, FunctionKind::Identity, -1, 0).is_none());
    assert!(probe(&vp, 4, 4, FunctionKind::Identity, 0, -1).is_none());
    assert!(probe(&vp, 4, 4, FunctionKind::Identity, 4 * S, 0).is_none());
    assert!(probe(&vp, 4, 4, FunctionKind::Identity, 0, 4 * S).is_none());
    assert!(probe(&vp, 4, 4, FunctionKind::Identity, 100 * S, 100 * S).is_none());
}

#[test]
fn axis_lines_when_origin_visible() {
    // Centered view: both axis lines cross the middle of the buffer.
    let vp = ten_by_four();
    assert_eq!(axis_positions(&vp, 4, 4), (Some(2 * S), Some(2 * S)));
    // Panned far right: the imaginary axis leaves the buffer.
    let panned = Viewport { boundary: 10 * S, pan_x: 20 * S, pan_y: 0 };
    let (x_axis, y_axis) = axis_positions(&panned, 4, 4);
    assert_eq!(x_axis, None);
    assert_eq!(y_axis, Some(2 * S));
}

#[test]
fn rational_function_at_origin() {
    // (0 - 100) / (0 + 40) = -2.5 exactly in fixed point.
    let r = f_of_z(FunctionKind::CubicRational, finite(0, 0));
    assert_eq!(r, finite(-5 * S / 2, 0));
}

#[test]
fn conjugate_symmetry() {
    // Evaluating at the conjugate conjugates the value: real parts
    // equal, imaginary parts exact negatives, even where a rounded step
    // sits just off the real axis.
    let kinds = [
        FunctionKind::Identity,
        FunctionKind::CubicMinusOne,
        FunctionKind::CubicRational,
    ];
    let points = [(S, 1), (3 * S / 2, 2 * S / 3), (-2 * S, 12345), (7, -S), (0, S)];
    for kind in kinds {
        for (re, im) in points {
            let p = f_of_z(kind, finite(re, im));
            let q = f_of_z(kind, finite(re, -im));
            match (p, q) {
                (ComplexValue::Finite(a), ComplexValue::Finite(b)) => {
                    assert_eq!(a.re, b.re);
                    assert_eq!(a.im, -b.im);
                }
                (ComplexValue::Unbounded, ComplexValue::Unbounded) => {}
                _ => panic!("one side unbounded, the other finite"),
            }
        }
    }
}

#[test]
fn unbounded_absorbs() {
    // The unbounded value propagates through the function.
    assert_eq!(
        f_of_z(FunctionKind::CubicRational, ComplexValue::Unbounded),
        ComplexValue::Unbounded
    );
    // A vanishing denominator is unbounded, never a fault.
    assert_eq!(c_div(finite(S, 0), finite(0, 0)), ComplexValue::Unbounded);
    // Component overflow is unbounded, never a fault.
    assert_eq!(
        c_mul(finite(i64::MAX, 0), finite(i64::MAX, 0)),
        ComplexValue::Unbounded
    );
}
