use mandelbrot::escape::escape_time_with;
use mandelbrot::grid::{fill_band, render_with};
use mandelbrot::parallel::parallel_render_with;
use mandelbrot::shade::{shade, MAX_ITERATIONS};

const UPPER_LEFT: (f64, f64) = (-1.2, 0.35);
const LOWER_RIGHT: (f64, f64) = (-1.0, 0.2);

fn escape_time(c: (f64, f64), limit: usize) -> Option<usize> {
    escape_time_with(
        (0.0f64, 0.0f64),
        limit,
        |z: (f64, f64)| z.0 * z.0 + z.1 * z.1 > 4.0,
        |z: (f64, f64)| (z.0 * z.0 - z.1 * z.1 + c.0, 2.0 * z.0 * z.1 + c.1),
    )
}

fn pixel_to_point(bounds: (usize, usize), pixel: (usize, usize)) -> (f64, f64) {
    let width = LOWER_RIGHT.0 - UPPER_LEFT.0;
    let height = UPPER_LEFT.1 - LOWER_RIGHT.1;
    (
        UPPER_LEFT.0 + (pixel.0 as f64) * width / (bounds.0 as f64),
        UPPER_LEFT.1 - (pixel.1 as f64) * height / (bounds.1 as f64),
    )
}

fn classifier(width: usize, height: usize) -> impl Fn(usize, usize) -> Option<usize> + Sync {
    move |column: usize, row: usize| {
        escape_time(pixel_to_point((width, height), (column, row)), MAX_ITERATIONS)
    }
}

#[test]
fn shade_encodes_counts() {
    assert_eq!(shade(None), 0);
    assert_eq!(shade(Some(0)), 255);
    assert_eq!(shade(Some(1)), 254);
    assert_eq!(shade(Some(254)), 1);
}

#[test]
fn origin_never_escapes() {
    assert_eq!(escape_time((0.0, 0.0), MAX_ITERATIONS), None);
    assert_eq!(shade(escape_time((0.0, 0.0), MAX_ITERATIONS)), 0);
}

#[test]
fn escape_count_is_first_escaping_iteration() {
    // orbit of 2: 0, 2, 6, ...; |6|^2 > 4 first at iteration 2
    assert_eq!(escape_time((2.0, 0.0), MAX_ITERATIONS), Some(2));
    assert_eq!(escape_time((2.0, 0.0), 3), Some(2));
    assert_eq!(escape_time((2.0, 0.0), 2), None);
    assert_eq!(escape_time((3.0, 0.0), MAX_ITERATIONS), Some(1));
    assert_eq!(escape_time((3.0, 0.0), 0), None);
}

#[test]
fn escape_on_a_plain_counter() {
    let r = escape_time_with(0u32, 100, |z: u32| z >= 7, |z: u32| z + 1);
    assert_eq!(r, Some(7));
    let r = escape_time_with(0u32, 7, |z: u32| z >= 7, |z: u32| z + 1);
    assert_eq!(r, None);
}

#[test]
fn single_pixel_is_upper_left_corner() {
    let pixels = render_with(1, 1, &classifier(1, 1));
    assert_eq!(pixel_to_point((1, 1), (0, 0)), (-1.2, 0.35));
    let expected = match escape_time((-1.2, 0.35), MAX_ITERATIONS) {
        None => 0,
        Some(i) => 255 - i as u8,
    };
    assert_eq!(pixels, vec![expected]);
}

#[test]
fn buffer_has_one_byte_per_pixel() {
    assert_eq!(render_with(7, 5, &classifier(7, 5)).len(), 35);
    assert_eq!(parallel_render_with(7, 5, &classifier(7, 5)).len(), 35);
    assert!(render_with(0, 5, &classifier(0, 5)).is_empty());
}

#[test]
fn bytes_follow_escape_times() {
    let (width, height) = (24, 18);
    let pixels = render_with(width, height, &classifier(width, height));
    let mut black = 0;
    for row in 0..height {
        for column in 0..width {
            let e = escape_time(pixel_to_point((width, height), (column, row)), MAX_ITERATIONS);
            let byte = pixels[row * width + column];
            match e {
                None => {
                    assert_eq!(byte, 0);
                    black += 1;
                }
                Some(i) => {
                    assert!(i < 255);
                    assert_eq!(byte as usize, 255 - i);
                }
            }
        }
    }
    assert!(black > 0);
    assert!(black < width * height);
}

#[test]
fn parallel_matches_sequential() {
    let (width, height) = (64, 48);
    let f = classifier(width, height);
    let sequential = render_with(width, height, &f);
    let parallel = parallel_render_with(width, height, &f);
    assert_eq!(sequential, parallel);
    assert!(parallel.iter().any(|b| *b != 0));
}

#[test]
fn parallel_fills_every_band() {
    let f = |column: usize, row: usize| Some((column + 3 * row) % 10);
    let pixels = parallel_render_with(4, 3, &f);
    assert_eq!(pixels, vec![255, 254, 253, 252, 252, 251, 250, 249, 249, 248, 247, 246]);
}

#[test]
fn bands_in_any_order_give_the_image() {
    let (width, height) = (32, 20);
    let f = classifier(width, height);
    let expected = render_with(width, height, &f);
    let mut pixels = vec![7u8; width * height];
    for row in (0..height).rev() {
        fill_band(&mut pixels[row * width..(row + 1) * width], row, &f);
    }
    assert_eq!(pixels, expected);
    let mut pixels = vec![0u8; width * height];
    for row in (0..height).filter(|r| r % 2 == 1).chain((0..height).filter(|r| r % 2 == 0)) {
        fill_band(&mut pixels[row * width..(row + 1) * width], row, &f);
    }
    assert_eq!(pixels, expected);
}

#[test]
fn band_holds_its_row() {
    let f = |column: usize, row: usize| if column == row { None } else { Some(column) };
    let mut band = vec![9u8; 5];
    fill_band(&mut band, 2, &f);
    assert_eq!(band, vec![255, 254, 0, 252, 251]);
}

#[test]
fn repeated_renders_agree() {
    let (width, height) = (30, 20);
    let a = render_with(width, height, &classifier(width, height));
    let b = render_with(width, height, &classifier(width, height));
    assert_eq!(a, b);
}
