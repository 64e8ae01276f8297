//! The per-frame pixel pipeline and the pointer probe.
//!
//! Each frame maps every pixel of the grid to a plane point through the
//! current viewport, applies the selected complex function to all points
//! in parallel, and encodes each outcome as a color, row-major.  Pixels
//! are mutually independent: the contract pins every pixel of the buffer
//! to a pure function of its own coordinate and the frame's inputs, so
//! the parallel pass can split the work any way it likes.

use vstd::prelude::*;

verus! {

use rayon::iter::{IntoParallelRefIterator, ParallelIterator};
use crate::color::{ColorSample, EncoderMode, encode, spec_color_wf, spec_encode};
use crate::complex::{
    Complex,
    ComplexValue,
    FunctionKind,
    f_of_z,
    spec_f_of_z,
    spec_pack,
};
use crate::fixed::{
    COORD_LIMIT,
    SCALE,
    fits_i64,
    lemma_map_value_in_range,
    map_value,
    spec_map_value,
};
use crate::viewport::Viewport;

/// Largest accepted framebuffer side, in pixels.
pub const MAX_DIM: u32 = 16384;

/// Plane coordinate of a horizontal framebuffer position `px` (in
/// fixed-point pixel units): the pixel range is carried onto the real
/// interval centered at the pan offset with the boundary as half-width.
pub open spec fn spec_plane_x(vp: Viewport, width: int, px: int) -> int {
    spec_map_value(
        px,
        0,
        width * SCALE,
        -vp.boundary + vp.pan_x,
        vp.boundary + vp.pan_x,
    )
}

/// Plane coordinate of a vertical framebuffer position `py` (in
/// fixed-point pixel units): the pixel range is carried onto the
/// imaginary interval in reverse, so the top row holds the most positive
/// imaginary part.
pub open spec fn spec_plane_y(vp: Viewport, height: int, py: int) -> int {
    spec_map_value(
        py,
        0,
        height * SCALE,
        vp.boundary - vp.pan_y,
        -vp.boundary - vp.pan_y,
    )
}

/// The plane point of one pixel of the grid.
pub open spec fn spec_pixel_point(
    vp: Viewport,
    width: int,
    height: int,
    x: int,
    y: int,
) -> ComplexValue {
    spec_pack(
        spec_plane_x(vp, width, x * SCALE),
        spec_plane_y(vp, height, y * SCALE),
    )
}

/// The color of one pixel of the grid: its plane point, through the
/// selected function, through the encoder.
pub open spec fn spec_pixel_color(
    vp: Viewport,
    width: int,
    height: int,
    kind: FunctionKind,
    mode: EncoderMode,
    x: int,
    y: int,
) -> ColorSample {
    spec_encode(mode, spec_f_of_z(kind, spec_pixel_point(vp, width, height, x, y)))
}

/// Plane coordinate of a horizontal framebuffer position, `None` when it
/// leaves the representable range.
pub fn plane_x_at(vp: &Viewport, width: u32, px: i64) -> (r: Option<i64>)
    requires
        vp.wf(),
        1 <= width <= MAX_DIM,
        -COORD_LIMIT <= px <= COORD_LIMIT,
    ensures
        r == (if fits_i64(spec_plane_x(*vp, width as int, px as int)) {
            Some(spec_plane_x(*vp, width as int, px as int) as i64)
        } else {
            None::<i64>
        }),
{
    map_value(px, 0, (width as i64) * SCALE, -vp.boundary + vp.pan_x, vp.boundary + vp.pan_x)
}

/// Plane coordinate of a vertical framebuffer position, `None` when it
/// leaves the representable range.
pub fn plane_y_at(vp: &Viewport, height: u32, py: i64) -> (r: Option<i64>)
    requires
        vp.wf(),
        1 <= height <= MAX_DIM,
        -COORD_LIMIT <= py <= COORD_LIMIT,
    ensures
        r == (if fits_i64(spec_plane_y(*vp, height as int, py as int)) {
            Some(spec_plane_y(*vp, height as int, py as int) as i64)
        } else {
            None::<i64>
        }),
{
    map_value(py, 0, (height as i64) * SCALE, vp.boundary - vp.pan_y, -vp.boundary - vp.pan_y)
}

/// A pixel of the grid always has a representable plane point: its
/// position lies inside the pixel range, so each coordinate lands
/// between that axis' target bounds.
proof fn lemma_pixel_in_range(vp: Viewport, width: int, height: int, x: int, y: int)
    requires
        vp.wf(),
        1 <= width <= MAX_DIM,
        1 <= height <= MAX_DIM,
        0 <= x <= width,
        0 <= y <= height,
    ensures
        -vp.boundary + vp.pan_x <= spec_plane_x(vp, width, x * SCALE) <= vp.boundary
            + vp.pan_x,
        -vp.boundary - vp.pan_y <= spec_plane_y(vp, height, y * SCALE) <= vp.boundary
            - vp.pan_y,
        fits_i64(spec_plane_x(vp, width, x * SCALE)),
        fits_i64(spec_plane_y(vp, height, y * SCALE)),
{
    assert(0 <= x * SCALE <= width * SCALE && 0 <= y * SCALE <= height * SCALE)
        by (nonlinear_arith)
        requires
            0 <= x <= width,
            0 <= y <= height,
            SCALE == 65536,
    ;
    assert(width * SCALE > 0) by (nonlinear_arith)
        requires
            width >= 1,
            SCALE == 65536,
    ;
    assert(height * SCALE > 0) by (nonlinear_arith)
        requires
            height >= 1,
            SCALE == 65536,
    ;
    lemma_map_value_in_range(
        x * SCALE,
        0,
        width * SCALE,
        -vp.boundary + vp.pan_x,
        vp.boundary + vp.pan_x,
    );
    lemma_map_value_in_range(
        y * SCALE,
        0,
        height * SCALE,
        vp.boundary - vp.pan_y,
        -vp.boundary - vp.pan_y,
    );
}

/// The plane point of one pixel of the grid.
fn plane_point(vp: &Viewport, width: u32, height: u32, x: u32, y: u32) -> (p: Complex)
    requires
        vp.wf(),
        1 <= width <= MAX_DIM,
        1 <= height <= MAX_DIM,
        x < width,
        y < height,
    ensures
        ComplexValue::Finite(p) == spec_pixel_point(
            *vp, width as int, height as int, x as int, y as int,
        ),
{
    proof {
        lemma_pixel_in_range(*vp, width as int, height as int, x as int, y as int);
    }
    let px = (x as i64) * SCALE;
    let py = (y as i64) * SCALE;
    let re = plane_x_at(vp, width, px).unwrap();
    let im = plane_y_at(vp, height, py).unwrap();
    Complex { re, im }
}

/// Relies on rayon: `par_iter` over a vector, `map`, and `collect` into
/// a vector apply the closure to every element and keep the element
/// order, so the result holds the image of each point at its own index.
/// The closure only calls this library's `f_of_z`.
#[verifier::external_body]
fn par_apply(kind: FunctionKind, points: &Vec<ComplexValue>) -> (r: Vec<ComplexValue>)
    ensures
        r@.len() == points@.len(),
        forall|i: int|
            0 <= i < points@.len() ==> r@[i] == spec_f_of_z(kind, points@[i]),
{
    points.par_iter().map(|z| f_of_z(kind, *z)).collect()
}

/// Renders one frame: a row-major buffer of `width * height` colors,
/// each pixel the encoding of the selected function's value at that
/// pixel's plane point under the given viewport.
pub fn render_frame(
    vp: &Viewport,
    width: u32,
    height: u32,
    kind: FunctionKind,
    mode: EncoderMode,
) -> (buf: Vec<ColorSample>)
    requires
        vp.wf(),
        1 <= width <= MAX_DIM,
        1 <= height <= MAX_DIM,
    ensures
        buf@.len() == (width as int) * (height as int),
        forall|y: int, x: int|
            0 <= y < height && 0 <= x < width ==> #[trigger] buf@[y * (width as int) + x]
                == spec_pixel_color(
                *vp, width as int, height as int, kind, mode, x, y,
            ),
        forall|i: int| 0 <= i < buf@.len() ==> spec_color_wf(#[trigger] buf@[i]),
{
    let mut points: Vec<ComplexValue> = Vec::new();
    let mut y: u32 = 0;
    while y < height
        invariant
            vp.wf(),
            1 <= width <= MAX_DIM,
            1 <= height <= MAX_DIM,
            y <= height,
            points@.len() == (y as int) * (width as int),
            forall|yy: int, xx: int|
                0 <= yy < y && 0 <= xx < width ==> #[trigger] points@[yy * (width as int)
                    + xx] == spec_pixel_point(
                    *vp, width as int, height as int, xx, yy,
                ),
        decreases height - y,
    {
        let mut x: u32 = 0;
        while x < width
            invariant
                vp.wf(),
                1 <= width <= MAX_DIM,
                1 <= height <= MAX_DIM,
                y < height,
                x <= width,
                points@.len() == (y as int) * (width as int) + x,
                forall|yy: int, xx: int|
                    0 <= yy < y && 0 <= xx < width ==> #[trigger] points@[yy * (width
                        as int) + xx] == spec_pixel_point(
                        *vp, width as int, height as int, xx, yy,
                    ),
                forall|xx: int|
                    0 <= xx < x ==> #[trigger] points@[(y as int) * (width as int) + xx]
                        == spec_pixel_point(
                        *vp, width as int, height as int, xx, y as int,
                    ),
            decreases width - x,
        {
            let p = plane_point(vp, width, height, x, y);
            points.push(ComplexValue::Finite(p));
            proof {
                assert forall|yy: int, xx: int|
                    0 <= yy < y && 0 <= xx < width implies #[trigger] points@[yy * (width
                        as int) + xx] == spec_pixel_point(
                        *vp, width as int, height as int, xx, yy,
                    ) by {
                    assert(0 <= yy * (width as int) + xx < (y as int) * (width as int))
                        by (nonlinear_arith)
                        requires
                            0 <= yy,
                            yy < y as int,
                            0 <= xx,
                            xx < width as int,
                    ;
                }
            }
            x = x + 1;
        }
        proof {
            assert(((y as int) + 1) * (width as int) == (y as int) * (width as int)
                + (width as int)) by (nonlinear_arith);
        }
        y = y + 1;
    }
    let fz = par_apply(kind, &points);
    let mut buf: Vec<ColorSample> = Vec::new();
    let n = fz.len();
    let mut i: usize = 0;
    while i < n
        invariant
            n == fz@.len(),
            fz@.len() == points@.len(),
            forall|k: int|
                0 <= k < points@.len() ==> fz@[k] == spec_f_of_z(kind, points@[k]),
            i <= n,
            buf@.len() == i,
            forall|j: int| 0 <= j < i ==> #[trigger] buf@[j] == spec_encode(mode, fz@[j]),
            forall|j: int| 0 <= j < i ==> spec_color_wf(#[trigger] buf@[j]),
        decreases n - i,
    {
        let c = encode(mode, fz[i]);
        buf.push(c);
        i = i + 1;
    }
    proof {
        assert((height as int) * (width as int) == (width as int) * (height as int))
            by (nonlinear_arith);
        assert forall|yp: int, xp: int| 0 <= yp < height && 0 <= xp < width implies
            #[trigger] buf@[yp * (width as int) + xp] == spec_pixel_color(
            *vp, width as int, height as int, kind, mode, xp, yp,
        ) by {
            assert(0 <= yp * (width as int) + xp < (height as int) * (width as int))
                by (nonlinear_arith)
                requires
                    0 <= yp,
                    yp < height as int,
                    0 <= xp,
                    xp < width as int,
            ;
            let idx = yp * (width as int) + xp;
            assert(points@[idx] == spec_pixel_point(
                *vp, width as int, height as int, xp, yp,
            ));
            assert(fz@[idx] == spec_f_of_z(kind, points@[idx]));
            assert(buf@[idx] == spec_encode(mode, fz@[idx]));
        }
    }
    buf
}

/// Pixel positions of the two axis guide lines: the horizontal position
/// of the imaginary axis and the vertical position of the real axis,
/// each only when the plane origin's line crosses the visible buffer.
pub fn axis_positions(vp: &Viewport, width: u32, height: u32) -> (r: (Option<i64>, Option<
    i64,
>))
    requires
        vp.wf(),
        1 <= width <= MAX_DIM,
        1 <= height <= MAX_DIM,
    ensures
        ({
            let v = spec_map_value(
                0,
                -vp.boundary + vp.pan_x,
                vp.boundary + vp.pan_x,
                0,
                (width as int) * SCALE,
            );
            r.0 == (if fits_i64(v) && 0 <= v <= (width as int) * SCALE {
                Some(v as i64)
            } else {
                None::<i64>
            })
        }),
        ({
            let v = spec_map_value(
                0,
                vp.boundary - vp.pan_y,
                -vp.boundary - vp.pan_y,
                0,
                (height as int) * SCALE,
            );
            r.1 == (if fits_i64(v) && 0 <= v <= (height as int) * SCALE {
                Some(v as i64)
            } else {
                None::<i64>
            })
        }),
{
    let wfx = (width as i64) * SCALE;
    let hfx = (height as i64) * SCALE;
    let x_axis = match map_value(0, -vp.boundary + vp.pan_x, vp.boundary + vp.pan_x, 0, wfx) {
        Some(v) => if 0 <= v && v <= wfx {
            Some(v)
        } else {
            None
        },
        None => None,
    };
    let y_axis = match map_value(0, vp.boundary - vp.pan_y, -vp.boundary - vp.pan_y, 0, hfx) {
        Some(v) => if 0 <= v && v <= hfx {
            Some(v)
        } else {
            None
        },
        None => None,
    };
    (x_axis, y_axis)
}

/// One probe reading: the plane point under the pointer and the selected
/// function's value there.
#[derive(Clone, Copy, PartialEq, Eq, Structural, Debug)]
pub struct ProbeSample {
    pub z: Complex,
    pub fz: ComplexValue,
}

/// Probes the function under the pointer.  The pointer position is in
/// fixed-point pixel units and may lie anywhere; a position outside the
/// buffer yields the undefined reading, never a clamped one.
pub fn probe(
    vp: &Viewport,
    width: u32,
    height: u32,
    kind: FunctionKind,
    pointer_x: i64,
    pointer_y: i64,
) -> (r: Option<ProbeSample>)
    requires
        vp.wf(),
        1 <= width <= MAX_DIM,
        1 <= height <= MAX_DIM,
        -COORD_LIMIT <= pointer_x <= COORD_LIMIT,
        -COORD_LIMIT <= pointer_y <= COORD_LIMIT,
    ensures
        r is Some <==> (0 <= pointer_x < (width as int) * SCALE && 0 <= pointer_y < (height
            as int) * SCALE),
        r matches Some(p) ==> {
            &&& p.z.re == spec_plane_x(*vp, width as int, pointer_x as int)
            &&& p.z.im == spec_plane_y(*vp, height as int, pointer_y as int)
            &&& p.fz == spec_f_of_z(kind, ComplexValue::Finite(p.z))
        },
{
    let wfx = (width as i64) * SCALE;
    let hfx = (height as i64) * SCALE;
    if 0 <= pointer_x && pointer_x < wfx && 0 <= pointer_y && pointer_y < hfx {
        proof {
            lemma_probe_in_range(
                *vp,
                width as int,
                height as int,
                pointer_x as int,
                pointer_y as int,
            );
        }
        let re = plane_x_at(vp, width, pointer_x).unwrap();
        let im = plane_y_at(vp, height, pointer_y).unwrap();
        let z = Complex { re, im };
        let fz = f_of_z(kind, ComplexValue::Finite(z));
        Some(ProbeSample { z, fz })
    } else {
        None
    }
}

/// A pointer position inside the buffer always has a representable plane
/// point.
proof fn lemma_probe_in_range(vp: Viewport, width: int, height: int, px: int, py: int)
    requires
        vp.wf(),
        1 <= width <= MAX_DIM,
        1 <= height <= MAX_DIM,
        0 <= px <= width * SCALE,
        0 <= py <= height * SCALE,
    ensures
        fits_i64(spec_plane_x(vp, width, px)),
        fits_i64(spec_plane_y(vp, height, py)),
{
    assert(width * SCALE > 0) by (nonlinear_arith)
        requires
            width >= 1,
            SCALE == 65536,
    ;
    assert(height * SCALE > 0) by (nonlinear_arith)
        requires
            height >= 1,
            SCALE == 65536,
    ;
    lemma_map_value_in_range(px, 0, width * SCALE, -vp.boundary + vp.pan_x, vp.boundary
        + vp.pan_x);
    lemma_map_value_in_range(py, 0, height * SCALE, vp.boundary - vp.pan_y, -vp.boundary
        - vp.pan_y);
}

} // verus!
