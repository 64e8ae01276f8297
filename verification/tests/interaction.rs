use domain_coloring::viewport::{
    InputState, Viewport, MAX_BOUNDARY, MAX_PAN, MIN_BOUNDARY, SCROLL_FACTOR,
    START_BOUNDARY,
};

fn idle() -> InputState {
    InputState {
        zoom_in: false,
        zoom_out: false,
        pan_right: false,
        pan_left: false,
        pan_down: false,
        pan_up: false,
    }
}

#[test]
fn new_viewport_defaults() {
    let v = Viewport::new();
    assert_eq!(v.boundary, START_BOUNDARY);
    assert_eq!(v.pan_x, 0);
    assert_eq!(v.pan_y, 0);
}

#[test]
fn zoom_compounds_each_frame() {
    // Holding zoom-in applies the per-frame ratio once per frame.
    let mut v = Viewport::new();
    let mut expected = START_BOUNDARY;
    let input = InputState { zoom_in: true, ..idle() };
    for _ in 0..10 {
        v.update(input);
        expected = expected * 10 / 11;
        assert_eq!(v.boundary, expected);
    }
    assert!(v.boundary < START_BOUNDARY);
}

#[test]
fn zoom_out_compounds_and_clamps() {
    let mut v = Viewport::new();
    let input = InputState { zoom_out: true, ..idle() };
    v.update(input);
    assert_eq!(v.boundary, START_BOUNDARY * 11 / 10);
    for _ in 0..500 {
        v.update(input);
    }
    assert_eq!(v.boundary, MAX_BOUNDARY);
}

#[test]
fn zoom_in_clamps_at_floor() {
    let mut v = Viewport::new();
    let input = InputState { zoom_in: true, ..idle() };
    for _ in 0..200 {
        v.update(input);
    }
    assert_eq!(v.boundary, MIN_BOUNDARY);
}

#[test]
fn zoom_tracks_exact_ratio() {
    // After n held frames the boundary sits within n rounding steps of
    // the exact rational power b * (10/11)^n.
    let mut v = Viewport::new();
    let input = InputState { zoom_in: true, ..idle() };
    let n = 20;
    for _ in 0..n {
        v.update(input);
    }
    let mut num: i128 = START_BOUNDARY as i128;
    let mut den: i128 = 1;
    for _ in 0..n {
        num *= 10;
        den *= 11;
    }
    let exact = num / den;
    assert!(v.boundary as i128 <= exact);
    assert!(v.boundary as i128 >= exact - n as i128);
}

#[test]
fn pan_delta_tracks_boundary() {
    // The pan step of one frame is the boundary over the scroll factor,
    // taken at the time of the input.
    let mut v = Viewport::new();
    v.update(InputState { pan_right: true, ..idle() });
    assert_eq!(v.pan_x, START_BOUNDARY / SCROLL_FACTOR);
    // Pan down moves the imaginary offset the same way.
    v.update(InputState { pan_down: true, ..idle() });
    assert_eq!(v.pan_y, START_BOUNDARY / SCROLL_FACTOR);
    // Opposite keys cancel over two frames at a fixed zoom.
    v.update(InputState { pan_left: true, ..idle() });
    assert_eq!(v.pan_x, 0);
    v.update(InputState { pan_up: true, ..idle() });
    assert_eq!(v.pan_y, 0);
}

#[test]
fn pan_scales_with_zoom() {
    // The same key at two zoom levels moves by different plane distances.
    let mut far = Viewport::new();
    far.update(InputState { pan_right: true, ..idle() });
    let far_delta = far.pan_x;

    let mut near = Viewport::new();
    let zoom = InputState { zoom_in: true, ..idle() };
    for _ in 0..10 {
        near.update(zoom);
    }
    near.update(InputState { pan_right: true, ..idle() });
    let near_delta = near.pan_x;

    assert_eq!(far_delta, START_BOUNDARY / SCROLL_FACTOR);
    assert_eq!(near_delta, near.boundary / SCROLL_FACTOR);
    assert!(near_delta < far_delta);
}

#[test]
fn pan_clamps_at_range_edge() {
    // Start just below the pan range's edge: one more step clamps.
    let mut v = Viewport { boundary: START_BOUNDARY, pan_x: MAX_PAN - 1, pan_y: 0 };
    v.update(InputState { pan_right: true, ..idle() });
    assert_eq!(v.pan_x, MAX_PAN);
    v.pan_x = -MAX_PAN + 1;
    v.update(InputState { pan_left: true, ..idle() });
    assert_eq!(v.pan_x, -MAX_PAN);
}

#[test]
fn zoom_then_pan_uses_new_boundary() {
    // Within one frame the pan step uses the boundary after the zoom keys.
    let mut v = Viewport::new();
    v.update(InputState { zoom_in: true, pan_right: true, ..idle() });
    let b1 = START_BOUNDARY * 10 / 11;
    assert_eq!(v.boundary, b1);
    assert_eq!(v.pan_x, b1 / SCROLL_FACTOR);
}
