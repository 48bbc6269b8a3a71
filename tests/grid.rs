use mandelbrot::grid::{grayscale_pixels, pixel_position};
use mandelbrot::shade::escape_intensity;

fn escape_step(re: f64, im: f64, max_iterations: usize, capture_size: f64) -> Option<usize> {
    let (mut zr, mut zi) = (0.0f64, 0.0f64);
    for i in 0..max_iterations {
        let next_r = zr * zr - zi * zi + re;
        let next_i = 2.0 * zr * zi + im;
        zr = next_r;
        zi = next_i;
        if (zr * zr + zi * zi).sqrt() > capture_size {
            return Some(i);
        }
    }
    None
}

#[test]
fn positions_are_row_major() {
    assert_eq!(pixel_position(0, 3, 2), (0, 0));
    assert_eq!(pixel_position(2, 3, 2), (2, 0));
    assert_eq!(pixel_position(3, 3, 2), (0, 1));
    assert_eq!(pixel_position(5, 3, 2), (2, 1));
}

#[test]
fn every_pixel_is_written() {
    let (width, height) = (3usize, 2usize);
    let levels: Vec<u8> = (0..width * height).map(|k| (k * 40 + 1) as u8).collect();
    let buf = grayscale_pixels(width as u32, height as u32, &levels);
    assert_eq!(buf.len(), 3 * width * height);
    for k in 0..width * height {
        assert_eq!(&buf[3 * k..3 * k + 3], &[levels[k]; 3]);
        assert_ne!(buf[3 * k], 0);
    }
}

#[test]
fn no_pixels() {
    assert!(grayscale_pixels(0, 0, &Vec::new()).is_empty());
    assert!(grayscale_pixels(4, 0, &Vec::new()).is_empty());
}

#[test]
fn two_by_two_render_is_grey() {
    let (width, height, capture_size, max_iterations, scale) = (2u32, 2u32, 2.0f64, 10usize, 1.0f64);
    let mut levels = Vec::new();
    for k in 0..(width * height) as usize {
        let (x, y) = pixel_position(k, width, height);
        let re = (x as f64 - width as f64 / capture_size) * scale;
        let im = (y as f64 - height as f64 / capture_size) * scale;
        levels.push(escape_intensity(escape_step(re, im, max_iterations, capture_size), max_iterations));
    }
    // (-1, -1) escapes at step 2; (0, -1), (-1, 0) and (0, 0) stay bounded.
    assert_eq!(levels, vec![51, 0, 0, 0]);
    let buf = grayscale_pixels(width, height, &levels);
    assert_eq!(buf.len(), 12);
    for px in buf.chunks(3) {
        assert_eq!(px[0], px[1]);
        assert_eq!(px[1], px[2]);
    }
    assert_eq!(buf, vec![51, 51, 51, 0, 0, 0, 0, 0, 0, 0, 0, 0]);
}

#[test]
fn single_row_and_column() {
    assert_eq!(grayscale_pixels(3, 1, &vec![1, 2, 3]), vec![1, 1, 1, 2, 2, 2, 3, 3, 3]);
    assert_eq!(grayscale_pixels(1, 2, &vec![9, 200]), vec![9, 9, 9, 200, 200, 200]);
}
