//! The parallel dispatcher's band partition: the image rows are cut into
//! consecutive horizontal bands of `height / worker_count + 1` rows each (the
//! last band taking whatever remains), and each band is rendered in its own
//! coordinate frame, read off the image frame at the band's first and
//! one-past-last rows.

use vstd::prelude::*;
use vstd::arithmetic::div_mod::{
    lemma_basic_div, lemma_div_basics, lemma_div_is_ordered, lemma_div_multiples_vanish,
    lemma_div_plus_one, lemma_div_pos_is_pos, lemma_fundamental_div_mod,
    lemma_fundamental_div_mod_converse, lemma_mod_bound,
};
use vstd::arithmetic::mul::lemma_mul_inequality;
use crate::fixed::{ImageBounds, PlanePoint, DIM_LIMIT};
use crate::geometry::{map_im, map_re, pixel_to_point};
use crate::render::{band_byte, fill_band, render_pixel};

verus! {

/// Rows in every band but possibly the last.
pub open spec fn rows_per_band(height: int, workers: int) -> int {
    height / workers + 1
}

/// First image row of band `bi`.
pub open spec fn band_top(height: int, workers: int, bi: int) -> int {
    bi * rows_per_band(height, workers)
}

/// Number of rows of band `bi`: the full `rows_per_band` where they fit,
/// else whatever remains of the image.
pub open spec fn band_height_at(height: int, workers: int, bi: int) -> int {
    if band_top(height, workers, bi) + rows_per_band(height, workers) <= height {
        rows_per_band(height, workers)
    } else {
        height - band_top(height, workers, bi)
    }
}

/// Number of bands the partition produces.
pub open spec fn band_count(height: int, workers: int) -> int {
    (height + rows_per_band(height, workers) - 1) / rows_per_band(height, workers)
}

/// The band holding `row`.
pub open spec fn band_of_row(height: int, workers: int, row: int) -> int {
    row / rows_per_band(height, workers)
}

/// Shade owed to flat index `e` by the banded render: the shade the band
/// renderer gives `e` within the band holding `e`'s row, under that band's
/// own coordinate frame.
pub open spec fn par_byte(
    width: int,
    height: int,
    ul_re: int,
    ul_im: int,
    lr_re: int,
    lr_im: int,
    workers: int,
    e: int,
) -> u8 {
    let row = e / width;
    let bi = band_of_row(height, workers, row);
    let top = band_top(height, workers, bi);
    let bh = band_height_at(height, workers, bi);
    band_byte(
        width, bh,
        map_re(width, 0, ul_re, lr_re), map_im(height, top, ul_im, lr_im),
        map_re(width, width, ul_re, lr_re), map_im(height, top + bh, ul_im, lr_im),
        top, e,
    )
}

/// A flat row-major index lying within rows `[t, t + bh)` has its row there.
proof fn lemma_flat_row_range(e: int, w: int, t: int, bh: int)
    requires
        0 < w,
        0 <= t,
        t * w <= e,
        e < (t + bh) * w,
    ensures
        t <= e / w < t + bh,
{
    lemma_fundamental_div_mod(e, w);
    lemma_mod_bound(e, w);
    let q = e / w;
    if q < t {
        lemma_mul_inequality(q + 1, t, w);
        assert((q + 1) * w == q * w + w && w * q == q * w) by (nonlinear_arith);
        assert(false);
    }
    if q >= t + bh {
        lemma_mul_inequality(t + bh, q, w);
        assert(w * q == q * w) by (nonlinear_arith);
        assert(false);
    }
}

/// A row lying in band `bi`'s range is assigned to band `bi`.
proof fn lemma_row_in_band(height: int, workers: int, bi: int, row: int)
    requires
        0 < workers,
        0 <= height,
        0 <= bi,
        band_top(height, workers, bi) <= row,
        row < band_top(height, workers, bi) + band_height_at(height, workers, bi),
    ensures
        band_of_row(height, workers, row) == bi,
{
    let rpb = rows_per_band(height, workers);
    lemma_div_pos_is_pos(height, workers);
    lemma_fundamental_div_mod_converse(row, rpb, bi, row - bi * rpb);
}

/// Law: the bands exactly partition the image rows. Every row of
/// `[0, height)` lies in the range of band `row / rows_per_band`, that index
/// is one of the `band_count` bands, and the row lies in the range of no
/// other band: full coverage, no gaps, no overlaps.
pub proof fn lemma_partition_complete(height: int, workers: int, row: int)
    requires
        0 < workers,
        0 <= row < height,
    ensures
        0 <= band_of_row(height, workers, row) < band_count(height, workers),
        band_top(height, workers, band_of_row(height, workers, row)) <= row,
        row < band_top(height, workers, band_of_row(height, workers, row))
            + band_height_at(height, workers, band_of_row(height, workers, row)),
        forall|bj: int|
            0 <= bj && bj != band_of_row(height, workers, row)
                ==> !(#[trigger] band_top(height, workers, bj) <= row
                    < band_top(height, workers, bj) + band_height_at(height, workers, bj)),
{
    let rpb = rows_per_band(height, workers);
    lemma_div_pos_is_pos(height, workers);
    let bi = band_of_row(height, workers, row);
    lemma_fundamental_div_mod(row, rpb);
    lemma_mod_bound(row, rpb);
    lemma_div_pos_is_pos(row, rpb);
    assert(rpb * bi == bi * rpb) by (nonlinear_arith);
    lemma_div_is_ordered(row, height - 1, rpb);
    lemma_div_plus_one(height - 1, rpb);
    assert forall|bj: int|
        0 <= bj && bj != bi && band_top(height, workers, bj) <= row
            && row < band_top(height, workers, bj) + band_height_at(height, workers, bj)
            implies false by {
        lemma_row_in_band(height, workers, bj, row);
    }
}

/// Fills a whole raster band by band: the image rows are cut into bands of
/// `height / worker_count + 1` rows (the last band shorter if need be), each
/// band's corner points are read off the image frame by the geometry mapper
/// at its first and one-past-last rows, and the band renderer fills each
/// band under that frame. The bands are disjoint, so the result does not
/// depend on the order in which they are filled.
pub fn render_parallel(
    pixels: &mut Vec<u8>,
    bounds: ImageBounds,
    upper_left: PlanePoint,
    lower_right: PlanePoint,
    worker_count: usize,
)
    requires
        bounds.wf(),
        old(pixels)@.len() == bounds.width * bounds.height,
        upper_left.bounded(),
        lower_right.bounded(),
        worker_count >= 1,
    ensures
        final(pixels)@.len() == old(pixels)@.len(),
        forall|e: int|
            0 <= e < final(pixels)@.len()
                ==> final(pixels)@[e] == par_byte(
                    bounds.width as int, bounds.height as int,
                    upper_left.re as int, upper_left.im as int,
                    lower_right.re as int, lower_right.im as int,
                    worker_count as int, e,
                ),
{
    let w = bounds.width;
    let h = bounds.height;
    let rpb: usize = h / worker_count + 1;
    proof {
        lemma_div_pos_is_pos(h as int, worker_count as int);
        assert((h as int) * (w as int) == (w as int) * (h as int)) by (nonlinear_arith);
    }
    let mut top: usize = 0;
    let ghost mut bi: int = 0;
    while top < h
        invariant
            pixels@.len() == old(pixels)@.len(),
            rpb == rows_per_band(h as int, worker_count as int),
            0 <= bi,
            top <= h,
            top == band_top(h as int, worker_count as int, bi) || top == h,
            forall|e: int|
                0 <= e < top * w
                    ==> pixels@[e] == par_byte(
                        w as int, h as int,
                        upper_left.re as int, upper_left.im as int,
                        lower_right.re as int, lower_right.im as int,
                        worker_count as int, e,
                    ),
        decreases h - top,
    {
        let bh: usize = if h - top < rpb { h - top } else { rpb };
        let band_ul = pixel_to_point(bounds, (0, top), upper_left, lower_right);
        let band_lr = pixel_to_point(bounds, (w, top + bh), upper_left, lower_right);
        proof {
            lemma_mul_inequality(top as int + bh as int, h as int, w as int);
            assert((h as int) * (w as int) == (w as int) * (h as int)) by (nonlinear_arith);
        }
        fill_band(pixels, w, top, bh, band_ul, band_lr);
        proof {
            assert forall|e: int|
                (top as int) * w <= e < (top + bh) * w
                    implies pixels@[e] == par_byte(
                        w as int, h as int,
                        upper_left.re as int, upper_left.im as int,
                        lower_right.re as int, lower_right.im as int,
                        worker_count as int, e,
                    ) by {
                lemma_flat_row_range(e, w as int, top as int, bh as int);
                lemma_row_in_band(h as int, worker_count as int, bi, e / (w as int));
            }
        }
        top = top + bh;
        proof {
            assert((bi + 1) * (rpb as int) == bi * (rpb as int) + rpb) by (nonlinear_arith);
            bi = bi + 1;
        }
    }
}

/// The partition as data: the `(top, height)` of each band, in order. What
/// the dispatcher cuts, handed out so that a caller may run the bands on
/// workers of its own.
pub fn band_layout(height: usize, worker_count: usize) -> (v: Vec<(usize, usize)>)
    requires
        0 < height <= DIM_LIMIT,
        worker_count >= 1,
    ensures
        v@.len() == band_count(height as int, worker_count as int),
        forall|i: int|
            0 <= i < v@.len()
                ==> (#[trigger] v@[i]).0 == band_top(height as int, worker_count as int, i)
                    && v@[i].1 == band_height_at(height as int, worker_count as int, i),
{
    let rpb: usize = height / worker_count + 1;
    proof {
        lemma_div_pos_is_pos(height as int, worker_count as int);
    }
    let mut v: Vec<(usize, usize)> = Vec::new();
    let mut top: usize = 0;
    proof {
        assert(band_top(height as int, worker_count as int, 0) == 0) by (nonlinear_arith);
    }
    while top < height
        invariant
            rpb == rows_per_band(height as int, worker_count as int),
            top <= height,
            top == band_top(height as int, worker_count as int, v@.len() as int)
                || (top == height
                    && v@.len() == band_count(height as int, worker_count as int)),
            forall|i: int|
                0 <= i < v@.len()
                    ==> (#[trigger] v@[i]).0 == band_top(height as int, worker_count as int, i)
                        && v@[i].1 == band_height_at(height as int, worker_count as int, i),
        decreases height - top,
    {
        let bh: usize = if height - top < rpb { height - top } else { rpb };
        v.push((top, bh));
        top = top + bh;
        proof {
            let n = v@.len() as int;
            assert(n * (rpb as int) == (n - 1) * (rpb as int) + rpb) by (nonlinear_arith);
            if top == height && bh < rpb {
                lemma_fundamental_div_mod_converse(
                    height as int + rpb - 1,
                    rpb as int,
                    n,
                    bh as int - 1,
                );
            }
        }
    }
    proof {
        if height as int == v@.len() * rows_per_band(height as int, worker_count as int) {
            let rpb = rows_per_band(height as int, worker_count as int);
            lemma_fundamental_div_mod_converse(
                height as int + rpb - 1,
                rpb,
                v@.len() as int,
                rpb - 1,
            );
        }
    }
    v
}

/// Law (parallel equivalence, one worker): a single worker gets the whole
/// image as its one band, whose frame is the image frame, so the banded
/// shade of every byte equals the whole-image shade.
pub proof fn lemma_single_worker_equiv(
    width: int,
    height: int,
    ul_re: int,
    ul_im: int,
    lr_re: int,
    lr_im: int,
    e: int,
)
    requires
        0 < width,
        0 < height,
        0 <= e < height * width,
    ensures
        par_byte(width, height, ul_re, ul_im, lr_re, lr_im, 1, e)
            == render_pixel(width, height, ul_re, ul_im, lr_re, lr_im, e / width, e % width),
{
    lemma_div_basics(height);
    lemma_flat_row_range(e, width, 0, height);
    let row = e / width;
    lemma_basic_div(row, rows_per_band(height, 1));
    lemma_basic_div(0, width);
    lemma_basic_div(0, height);
    lemma_div_multiples_vanish(lr_re - ul_re, width);
    lemma_div_multiples_vanish(ul_im - lr_im, height);
    assert(band_of_row(height, 1, row) == 0);
    assert(band_height_at(height, 1, 0) == height);
}

/// The fixed-point image mapping is linear in the row index whenever the
/// image height divides the plane height exactly.
proof fn lemma_exact_row_scale(height: int, k: int, t: int, ul_im: int, lr_im: int)
    requires
        0 < height,
        ul_im - lr_im == height * k,
    ensures
        map_im(height, t, ul_im, lr_im) == ul_im - t * k,
{
    assert(t * (height * k) == height * (t * k)) by (nonlinear_arith);
    lemma_div_multiples_vanish(t * k, height);
}

/// Law (parallel equivalence, exact sampling): when the image height divides
/// the plane height exactly, every band frame samples the very points of the
/// image frame, so the banded shade of every byte equals the whole-image
/// shade, for every worker count.
pub proof fn lemma_parallel_equiv_divisible(
    width: int,
    height: int,
    ul_re: int,
    ul_im: int,
    lr_re: int,
    lr_im: int,
    workers: int,
    e: int,
)
    requires
        0 < width,
        0 < height,
        0 < workers,
        0 <= e < height * width,
        (ul_im - lr_im) % height == 0,
    ensures
        par_byte(width, height, ul_re, ul_im, lr_re, lr_im, workers, e)
            == render_pixel(width, height, ul_re, ul_im, lr_re, lr_im, e / width, e % width),
{
    let rpb = rows_per_band(height, workers);
    lemma_div_pos_is_pos(height, workers);
    lemma_flat_row_range(e, width, 0, height);
    let row = e / width;
    let bi = band_of_row(height, workers, row);
    lemma_fundamental_div_mod(row, rpb);
    lemma_mod_bound(row, rpb);
    lemma_div_pos_is_pos(row, rpb);
    assert(rpb * bi == bi * rpb) by (nonlinear_arith);
    let top = band_top(height, workers, bi);
    let bh = band_height_at(height, workers, bi);
    // The real corners agree for every band.
    lemma_basic_div(0, width);
    lemma_div_multiples_vanish(lr_re - ul_re, width);
    // The imaginary mapping is linear in the row, with slope `-k`.
    let k = (ul_im - lr_im) / height;
    lemma_fundamental_div_mod(ul_im - lr_im, height);
    lemma_exact_row_scale(height, k, top, ul_im, lr_im);
    lemma_exact_row_scale(height, k, top + bh, ul_im, lr_im);
    lemma_exact_row_scale(height, k, row, ul_im, lr_im);
    // The band frame's own imaginary mapping has the same slope.
    let bul_im = map_im(height, top, ul_im, lr_im);
    let blr_im = map_im(height, top + bh, ul_im, lr_im);
    assert((top + bh) * k == top * k + bh * k) by (nonlinear_arith);
    assert((row - top) * (bh * k) == bh * ((row - top) * k)) by (nonlinear_arith);
    lemma_div_multiples_vanish((row - top) * k, bh);
    assert(top * k + (row - top) * k == row * k) by (nonlinear_arith);
}

} // verus!
