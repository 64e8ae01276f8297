use domain_coloring::fixed::{fx_div, fx_mul, map_value, COORD_LIMIT, SCALE};

const S: i64 = SCALE;

#[test]
fn map_value_hits_source_endpoints() {
    // The ends of the source range land exactly on the ends of the target.
    assert_eq!(map_value(0, 0, 4 * S, -10 * S, 10 * S), Some(-10 * S));
    assert_eq!(map_value(4 * S, 0, 4 * S, -10 * S, 10 * S), Some(10 * S));
    // A reversed target range too.
    assert_eq!(map_value(0, 0, 4 * S, 10 * S, -10 * S), Some(10 * S));
    assert_eq!(map_value(4 * S, 0, 4 * S, 10 * S, -10 * S), Some(-10 * S));
    // A reversed source range too.
    assert_eq!(map_value(10 * S, 10 * S, -10 * S, 0, 4 * S), Some(0));
    assert_eq!(map_value(-10 * S, 10 * S, -10 * S, 0, 4 * S), Some(4 * S));
}

#[test]
fn map_value_midpoint_and_extrapolation() {
    // The middle of the source lands on the middle of the target.
    assert_eq!(map_value(2 * S, 0, 4 * S, -10 * S, 10 * S), Some(0));
    // No clamping: a value beyond the source range extrapolates linearly.
    assert_eq!(map_value(5 * S, 0, 4 * S, -10 * S, 10 * S), Some(15 * S));
    assert_eq!(map_value(-S, 0, 4 * S, -10 * S, 10 * S), Some(-15 * S));
}

#[test]
fn map_value_monotone_samples() {
    let mut prev = i64::MIN;
    for v in [0, S / 2, S, 2 * S, 3 * S, 4 * S] {
        let cur = map_value(v, 0, 4 * S, -10 * S, 10 * S).unwrap();
        assert!(cur >= prev);
        prev = cur;
    }
    // Decreasing when the target range is reversed.
    let mut prev = i64::MAX;
    for v in [0, S, 2 * S, 3 * S, 4 * S] {
        let cur = map_value(v, 0, 4 * S, 10 * S, -10 * S).unwrap();
        assert!(cur <= prev);
        prev = cur;
    }
}

#[test]
fn map_value_round_trip_within_tolerance() {
    // Pixel -> plane -> pixel returns within one plane step of the start.
    let w = 800 * S;
    let (lo, hi) = (-10 * S, 10 * S);
    for px in [0, 12345, S, 400 * S, 799 * S, w] {
        let plane = map_value(px, 0, w, lo, hi).unwrap();
        let back = map_value(plane, lo, hi, 0, w).unwrap();
        assert!(back <= px);
        assert!(px - back <= w / (hi - lo) + 1);
    }
}

#[test]
fn map_value_round_trip_reversed_target() {
    // The vertical axis runs downward: plane -> pixel -> plane with the
    // reversed bound pair returns within one plane step, from above.
    let h = 600 * S;
    let (hi, lo) = (10 * S, -10 * S);
    for py in [0, 777, S, 300 * S, 599 * S, h] {
        let plane = map_value(py, 0, h, hi, lo).unwrap();
        let back = map_value(plane, hi, lo, 0, h).unwrap();
        assert!(back >= py);
        assert!(back - py <= h / (hi - lo) + 1);
    }
}

#[test]
fn map_value_overflow_is_none() {
    // A degenerate-narrow source with a huge value overflows the result.
    assert_eq!(map_value(COORD_LIMIT, 0, 1, -COORD_LIMIT, COORD_LIMIT), None);
}

#[test]
fn fixed_product_and_quotient() {
    // One times one is one; overflow is None, not a fault.
    assert_eq!(fx_mul(S, S), Some(S));
    assert_eq!(fx_mul(i64::MAX, i64::MAX), None);
    assert_eq!(fx_mul(-(S / 2), S / 2), Some(-(S / 4)));
    // Three halves; a zero divisor is None, not a fault.
    assert_eq!(fx_div(3 * S, 2 * S), Some(S + S / 2));
    assert_eq!(fx_div(S, 0), None);
    // Quotients round toward zero, symmetrically about it.
    assert_eq!(fx_div(S, 3 * S), Some(21845));
    assert_eq!(fx_div(-S, 3 * S), Some(-21845));
    assert_eq!(fx_mul(-S - 1, S / 2), Some(-(S / 2)));
    assert_eq!(fx_mul(S + 1, S / 2), Some(S / 2));
}
