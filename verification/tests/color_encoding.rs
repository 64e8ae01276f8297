use domain_coloring::color::{
    encode, hsl_to_rgb, hue_of, lightness, ColorSample, EncoderMode, HALF_TURN,
    MAX_LIGHTNESS, UNBOUNDED_LIGHTNESS,
};
use domain_coloring::complex::{Complex, ComplexValue};
use domain_coloring::fixed::SCALE;

const S: i64 = SCALE;

fn finite(re: i64, im: i64) -> ComplexValue {
    ComplexValue::Finite(Complex { re, im })
}

fn in_range(c: ColorSample) -> bool {
    0 <= c.r && c.r <= S && 0 <= c.g && c.g <= S && 0 <= c.b && c.b <= S && 0 <= c.a && c.a <= S
}

#[test]
fn encode_is_total_at_extremes() {
    // Magnitudes zero, one and the unbounded case, on both ends of the
    // argument range: always a color with every channel in range.
    let cases = [
        finite(0, 0),
        finite(S, 0),
        finite(-S, 0),
        finite(-S, 1),
        finite(-S, -1),
        finite(0, S),
        finite(0, -S),
        finite(i64::MAX, i64::MAX),
        finite(i64::MIN, i64::MIN),
        ComplexValue::Unbounded,
    ];
    for z in cases {
        assert!(in_range(encode(EncoderMode::Opaque, z)));
        assert!(in_range(encode(EncoderMode::MagnitudeAlpha, z)));
    }
}

#[test]
fn hue_of_axes() {
    // Argument 0 sits at the middle of the hue range, pi at its top,
    // +-pi/2 at three quarters and one quarter.
    assert_eq!(hue_of(S, 0), HALF_TURN);
    assert_eq!(hue_of(-S, 0), S);
    assert_eq!(hue_of(0, S), 3 * S / 4);
    assert_eq!(hue_of(0, -S), S / 4);
    assert_eq!(hue_of(0, 0), HALF_TURN);
}

#[test]
fn hue_continuity_small_step() {
    // Two nearby arguments give nearby hues.
    let h1 = hue_of(1000 * S, 0);
    let h2 = hue_of(1000 * S, S);
    assert!((h1 - h2).abs() < 64);
}

#[test]
fn hue_wraparound_colors_match() {
    // The bottom and the top of the hue range paint the same color.
    for l in [0, 16384, 32768, MAX_LIGHTNESS, UNBOUNDED_LIGHTNESS] {
        assert_eq!(hsl_to_rgb(0, l), hsl_to_rgb(S, l));
    }
    // Colors just on either side of the argument-pi seam are close.
    let a = encode(EncoderMode::Opaque, finite(-1000 * S, 1));
    let b = encode(EncoderMode::Opaque, finite(-1000 * S, -1));
    assert!((a.r - b.r).abs() < 256);
    assert!((a.g - b.g).abs() < 256);
    assert!((a.b - b.b).abs() < 256);
}

#[test]
fn hsl_primary_colors() {
    // Hue 0 at half lightness is pure red; hue one half is cyan.
    assert_eq!(hsl_to_rgb(0, S / 2), (S, 0, 0));
    assert_eq!(hsl_to_rgb(S / 2, S / 2), (0, S, S));
}

#[test]
fn lightness_values() {
    // Magnitude zero is black-dark; magnitude one sits at half the
    // ceiling (its squared magnitude saturates halfway); the unbounded
    // value sits at the distinguished near-white level.
    assert_eq!(lightness(finite(0, 0)), 0);
    assert_eq!(lightness(finite(S, 0)), MAX_LIGHTNESS / 2);
    assert_eq!(lightness(ComplexValue::Unbounded), UNBOUNDED_LIGHTNESS);
}

#[test]
fn lightness_monotone_in_magnitude() {
    let mut prev = -1;
    for m in [0, S / 4, S / 2, S, 2 * S, 10 * S, 1000 * S, i64::MAX / 2] {
        let cur = lightness(finite(m, 0));
        assert!(cur >= prev);
        assert!(cur < MAX_LIGHTNESS);
        prev = cur;
    }
}

#[test]
fn alpha_modes() {
    // Opaque mode pins alpha at one; magnitude mode fades it toward the
    // unbounded region.
    assert_eq!(encode(EncoderMode::Opaque, finite(0, 0)).a, S);
    assert_eq!(encode(EncoderMode::Opaque, ComplexValue::Unbounded).a, S);
    assert_eq!(encode(EncoderMode::MagnitudeAlpha, finite(0, 0)).a, S);
    assert_eq!(encode(EncoderMode::MagnitudeAlpha, ComplexValue::Unbounded).a, 0);
    let near = encode(EncoderMode::MagnitudeAlpha, finite(S, 0)).a;
    assert_eq!(near, S - S / 2);
}
