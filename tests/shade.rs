use mandelbrot::shade::escape_intensity;

/// Runs the escape-time recurrence on `c = re + im i` as plain floating point.
fn escape_step(re: f64, im: f64, max_iterations: usize, capture_size: f64) -> Option<usize> {
    let (mut zr, mut zi) = (0.0f64, 0.0f64);
    for i in 0..max_iterations {
        let next_r = zr * zr - zi * zi + re;
        let next_i = 2.0 * zr * zi + im;
        zr = next_r;
        zi = next_i;
        if (zr * zr + zi * zi).sqrt() > capture_size {
            return Some(i);
        }
    }
    None
}

#[test]
fn never_escaping_is_black() {
    assert_eq!(escape_intensity(None, 10), 0);
    assert_eq!(escape_intensity(None, 1), 0);
}

#[test]
fn origin_never_escapes() {
    for n in [1usize, 10, 255] {
        for r in [0.5, 2.0, 100.0] {
            let step = escape_step(0.0, 0.0, n, r);
            assert_eq!(step, None);
            assert_eq!(escape_intensity(step, n), 0);
        }
    }
}

#[test]
fn far_point_escapes_at_once() {
    let step = escape_step(1000.0, 0.0, 10, 2.0);
    assert_eq!(step, Some(0));
    assert_eq!(escape_intensity(step, 10), 0);
}

#[test]
fn escape_step_scaled_to_level() {
    assert_eq!(escape_intensity(Some(0), 10), 0);
    assert_eq!(escape_intensity(Some(1), 10), 25);
    assert_eq!(escape_intensity(Some(9), 10), 229);
    assert_eq!(escape_intensity(Some(1), 255), 1);
    assert_eq!(escape_intensity(Some(254), 255), 254);
    assert_eq!(escape_intensity(Some(2), 3), 170);
}

#[test]
fn two_on_the_real_axis() {
    // z goes 2, then 6: the modulus equals the radius first and exceeds it at step 1.
    let step = escape_step(2.0, 0.0, 10, 2.0);
    assert_eq!(step, Some(1));
    assert_eq!(escape_intensity(step, 10), 25);
}

#[test]
fn longer_run_is_never_brighter() {
    let step = escape_step(2.0, 0.0, 10, 2.0);
    assert_eq!(escape_step(2.0, 0.0, 100, 2.0), step);
    assert_eq!(escape_intensity(step, 10), 25);
    assert_eq!(escape_intensity(step, 100), 2);
    assert_eq!(escape_intensity(Some(0), 10), escape_intensity(Some(0), 1000));
}
