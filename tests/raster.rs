use mandelbrot::bands::{chunk_len, plan_bands};
use mandelbrot::raster::render_band;

fn pattern(column: usize, row: usize) -> Option<u32> {
    if (column + row) % 3 == 0 {
        None
    } else {
        Some(((column * 7 + row * 13) % 255) as u32)
    }
}

#[test]
fn single_pixel_at_origin_is_black() {
    let mut pixels = vec![9u8; 1];
    render_band(&mut pixels, (1, 1), |_c, _r| None);
    assert_eq!(vec![0u8], pixels);
}

#[test]
fn single_pixel_escaping_at_once_is_white() {
    let mut pixels = vec![9u8; 1];
    render_band(&mut pixels, (1, 1), |_c, _r| Some(0));
    assert_eq!(vec![255u8], pixels);
}

#[test]
fn band_is_row_major() {
    let mut pixels = vec![0u8; 6];
    render_band(&mut pixels, (3, 2), |c, r| Some((c + 10 * r) as u32));
    assert_eq!(vec![255, 254, 253, 245, 244, 243], pixels);
}

#[test]
fn banded_render_matches_single_band() {
    let (width, height) = (17usize, 29usize);
    let mut whole = vec![0u8; width * height];
    render_band(&mut whole, (width, height), pattern);
    for workers in [1usize, 2, 3, 8, 40] {
        let mut banded = vec![0u8; width * height];
        let bands = plan_bands(width, height, workers);
        let chunks = banded.chunks_mut(chunk_len(width, height, workers));
        for (band, chunk) in bands.iter().zip(chunks) {
            let top = band.top;
            render_band(chunk, (width, band.rows), move |c, r| pattern(c, r + top));
        }
        assert_eq!(whole, banded);
    }
}

#[test]
fn every_pixel_written() {
    let (width, height) = (5usize, 4usize);
    let mut pixels = vec![7u8; width * height];
    render_band(&mut pixels, (width, height), |_c, _r| Some(200));
    assert!(pixels.iter().all(|&p| p == 55));
}
