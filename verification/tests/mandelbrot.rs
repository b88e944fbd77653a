use mandelbrot::bands::{band_layout, render_parallel};
use mandelbrot::escape::escape_time;
use mandelbrot::euclid::gcd;
use mandelbrot::fixed::{ImageBounds, PlanePoint, FIX_ONE};
use mandelbrot::geometry::pixel_to_point;
use mandelbrot::parse::parse_pair;
use mandelbrot::render::render;

#[test]
fn test_parse_pair() {
    assert_eq!(parse_pair::<i32>("", ','), None);
    assert_eq!(parse_pair::<i32>("10", ','), None);
    assert_eq!(parse_pair::<i32>(",10", ','), None);
    assert_eq!(
        parse_pair::<i32>("10,20", ','),
        Some::<(i32, i32)>((10, 20))
    );
    assert_eq!(parse_pair::<i32>("10,20xy", ','), None);
    assert_eq!(parse_pair::<f64>("0.5x", 'x'), None);
    assert_eq!(
        parse_pair::<f64>("0.5x1.5", 'x'),
        Some::<(f64, f64)>((0.5, 1.5))
    );
}

#[test]
fn test_pixel_to_point() {
    assert_eq!(
        pixel_to_point(
            ImageBounds { width: 100, height: 100 },
            (25, 75),
            PlanePoint { re: -FIX_ONE, im: FIX_ONE },
            PlanePoint { re: FIX_ONE, im: -FIX_ONE },
        ),
        PlanePoint { re: -FIX_ONE / 2, im: -FIX_ONE / 2 }
    );
}

#[test]
fn test_pixel_to_point_hits_corners_exactly() {
    let bounds = ImageBounds { width: 640, height: 480 };
    let ul = PlanePoint { re: -2 * FIX_ONE, im: FIX_ONE };
    let lr = PlanePoint { re: FIX_ONE, im: -FIX_ONE };
    assert_eq!(pixel_to_point(bounds, (0, 0), ul, lr), ul);
    assert_eq!(pixel_to_point(bounds, (640, 480), ul, lr), lr);
}

#[test]
fn test_escape_time_origin_never_escapes() {
    let origin = PlanePoint { re: 0, im: 0 };
    assert_eq!(escape_time(origin, 1), None);
    assert_eq!(escape_time(origin, 255), None);
    assert_eq!(escape_time(origin, 10_000), None);
}

#[test]
fn test_escape_time_far_point_escapes_at_once() {
    let c = PlanePoint { re: 5 * FIX_ONE, im: 5 * FIX_ONE };
    assert_eq!(escape_time(c, 1), Some(0));
    assert_eq!(escape_time(c, 255), Some(0));
}

#[test]
fn test_escape_time_exact_count() {
    // c = 1: the trajectory is 1, 2, 5, leaving the disk after the third step.
    let c = PlanePoint { re: FIX_ONE, im: 0 };
    assert_eq!(escape_time(c, 255), Some(2));
    // limit 0 gives up immediately.
    assert_eq!(escape_time(c, 0), None);
}

#[test]
fn test_render_single_pixel_shade() {
    // A 1x1 image whose corners coincide samples exactly that point;
    // c = 1 escapes at step 2, so the shade is 255 - 2.
    let p = PlanePoint { re: FIX_ONE, im: 0 };
    let mut pixels = vec![9u8];
    render(&mut pixels, ImageBounds { width: 1, height: 1 }, p, p);
    assert_eq!(pixels, vec![253u8]);
}

#[test]
fn test_render_fills_in_set_region_black() {
    // A tiny window around the origin lies inside the set: every byte ends 0.
    let bounds = ImageBounds { width: 8, height: 10 };
    let ul = PlanePoint { re: -FIX_ONE / 16, im: FIX_ONE / 16 };
    let lr = PlanePoint { re: FIX_ONE / 16, im: -FIX_ONE / 16 };
    let mut pixels = vec![7u8; 80];
    render(&mut pixels, bounds, ul, lr);
    assert!(pixels.iter().all(|&b| b == 0));
}

#[test]
fn test_render_parallel_covers_every_byte() {
    let bounds = ImageBounds { width: 8, height: 10 };
    let ul = PlanePoint { re: -FIX_ONE / 16, im: FIX_ONE / 16 };
    let lr = PlanePoint { re: FIX_ONE / 16, im: -FIX_ONE / 16 };
    let mut pixels = vec![7u8; 80];
    render_parallel(&mut pixels, bounds, ul, lr, 4);
    assert!(pixels.iter().all(|&b| b == 0));
}

#[test]
fn test_render_parallel_matches_render() {
    // The image height (16) divides the plane height (2 * FIX_ONE) exactly,
    // so every worker count reproduces the sequential render byte for byte.
    let bounds = ImageBounds { width: 20, height: 16 };
    let ul = PlanePoint { re: -2 * FIX_ONE, im: FIX_ONE };
    let lr = PlanePoint { re: FIX_ONE, im: -FIX_ONE };
    let mut sequential = vec![0u8; 320];
    render(&mut sequential, bounds, ul, lr);
    for workers in [1usize, 2, 3, 5, 16, 100] {
        let mut banded = vec![0u8; 320];
        render_parallel(&mut banded, bounds, ul, lr, workers);
        assert_eq!(banded, sequential);
    }
}

#[test]
fn test_band_layout_partitions_rows() {
    // 10 rows over 3 workers: ceil-ish bands of 10/3 + 1 = 4 rows.
    assert_eq!(band_layout(10, 3), vec![(0, 4), (4, 4), (8, 2)]);
    // One worker: a single band of all rows.
    assert_eq!(band_layout(10, 1), vec![(0, 10)]);
    // Generally: consecutive, non-overlapping, covering every row exactly once.
    for height in 1usize..40 {
        for workers in 1usize..10 {
            let bands = band_layout(height, workers);
            let mut next_row = 0usize;
            for (top, rows) in bands {
                assert_eq!(top, next_row);
                assert!(rows > 0);
                next_row += rows;
            }
            assert_eq!(next_row, height);
        }
    }
}

#[test]
fn test_escape_counts_grow_toward_the_set() {
    // Walking along the real axis toward the set's interior, escape counts
    // never decrease (treating "never escapes" as the largest count).
    let ray = [
        (5 * FIX_ONE / 2, 0i64),  // 2.5
        (2 * FIX_ONE, 0),         // 2.0
        (3 * FIX_ONE / 2, 0),     // 1.5
        (FIX_ONE, 0),             // 1.0
        (FIX_ONE / 2, 0),         // 0.5
        (5033165, 0),             // about 0.3
        (0, 0),                   // the origin, in the set
    ];
    let mut last = 0u32;
    for (re, im) in ray {
        let count = match escape_time(PlanePoint { re, im }, 255) {
            Some(n) => n,
            None => u32::MAX,
        };
        assert!(count >= last);
        last = count;
    }
}

#[test]
fn test_gcd() {
    assert_eq!(gcd(24, 32), 8);
    assert_eq!(gcd(14, 15), 1);
    assert_eq!(gcd(2 * 3 * 5 * 11 * 17, 3 * 7 * 11 * 13 * 19), 3 * 11);
}
