use mandelbrot::shade::{intensity, to_color, ITERATION_LIMIT};

#[test]
fn interior_is_black() {
    assert_eq!(0, intensity(None));
}

#[test]
fn first_iteration_escape_is_brightest() {
    assert_eq!(255, intensity(Some(0)));
}

#[test]
fn intensity_ramp_is_inverted() {
    assert_eq!(1, intensity(Some(254)));
    assert_eq!(155, intensity(Some(100)));
    assert_eq!(255, ITERATION_LIMIT);
}

#[test]
fn color_uses_low_byte_in_blue() {
    assert_eq!([0, 0, 0x56], to_color(0x0012_3456));
    assert_eq!([0, 0, 255], to_color(255));
    assert_eq!([0, 0, 0], to_color(256));
}
