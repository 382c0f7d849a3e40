use mandelbrot::bands::{chunk_len, plan_bands, rows_per_band, worker_count, workers_for, Band};

#[test]
fn rows_per_band_adds_one() {
    assert_eq!(13, rows_per_band(100, 8));
    assert_eq!(1, rows_per_band(3, 8));
    assert_eq!(11, rows_per_band(10, 1));
}

#[test]
fn plan_with_short_last_band() {
    let bands = plan_bands(3, 10, 4);
    assert_eq!(
        vec![
            Band { top: 0, rows: 3 },
            Band { top: 3, rows: 3 },
            Band { top: 6, rows: 3 },
            Band { top: 9, rows: 1 },
        ],
        bands
    );
    assert_eq!(9, chunk_len(3, 10, 4));
}

#[test]
fn plan_with_more_workers_than_rows() {
    let bands = plan_bands(2, 3, 8);
    assert_eq!(
        vec![Band { top: 0, rows: 1 }, Band { top: 1, rows: 1 }, Band { top: 2, rows: 1 }],
        bands
    );
}

#[test]
fn plan_with_one_worker_is_one_band() {
    assert_eq!(vec![Band { top: 0, rows: 7 }], plan_bands(5, 7, 1));
}

#[test]
fn bands_match_buffer_chunks() {
    let (width, height, workers) = (7usize, 23usize, 5usize);
    let bands = plan_bands(width, height, workers);
    let buffer = vec![0u8; width * height];
    let chunks: Vec<&[u8]> = buffer.chunks(chunk_len(width, height, workers)).collect();
    assert_eq!(chunks.len(), bands.len());
    for (band, chunk) in bands.iter().zip(chunks.iter()) {
        assert_eq!(band.rows * width, chunk.len());
    }
}

#[test]
fn every_pixel_in_exactly_one_band() {
    for &(width, height, workers) in &[(1usize, 1usize, 1usize), (4, 9, 2), (3, 10, 4), (5, 2, 16)] {
        let mut seen = vec![0u32; width * height];
        for band in plan_bands(width, height, workers) {
            for i in band.top * width..(band.top + band.rows) * width {
                seen[i] += 1;
            }
        }
        assert!(seen.iter().all(|&n| n == 1));
    }
}

#[test]
fn band_corner_pixels() {
    let band = Band { top: 6, rows: 3 };
    assert_eq!((0, 6), band.upper_left_pixel());
    assert_eq!((100, 9), band.lower_right_pixel(100));
}

#[test]
fn workers_four_per_cpu() {
    assert_eq!(1, workers_for(0));
    assert_eq!(4, workers_for(1));
    assert_eq!(32, workers_for(8));
    assert_eq!(usize::MAX, workers_for(usize::MAX));
    assert!(worker_count() >= 1);
}
