//! The band renderer: fill a run of whole image rows with the grayscale
//! escape-time shade of the plane point each pixel samples.

use vstd::prelude::*;
use vstd::arithmetic::div_mod::lemma_fundamental_div_mod_converse;
use vstd::arithmetic::mul::lemma_mul_inequality;
use crate::escape::{escape_time, first_escape};
use crate::fixed::{ImageBounds, PlanePoint};
use crate::geometry::{map_im, map_re, pixel_to_point};

verus! {

/// Iteration limit used for every pixel.
pub const ITER_LIMIT: u32 = 255;

/// Shade of a pixel sampling plane point `(cr, ci)`: black for a point that
/// never escapes within the limit, else lighter the sooner it escapes.
pub open spec fn pixel_shade(cr: int, ci: int) -> u8 {
    match first_escape(cr, ci, 0, ITER_LIMIT) {
        None => 0u8,
        Some(n) => (255 - n) as u8,
    }
}

/// Shade of pixel `(row, col)` in a raster of the given dimensions whose
/// corners sample the given plane coordinates.
pub open spec fn render_pixel(
    width: int,
    height: int,
    ul_re: int,
    ul_im: int,
    lr_re: int,
    lr_im: int,
    row: int,
    col: int,
) -> u8 {
    pixel_shade(map_re(width, col, ul_re, lr_re), map_im(height, row, ul_im, lr_im))
}

/// Shade owed to flat row-major index `e` of a buffer whose rows
/// `[top, top + band_height)` form a band rendered in its own frame: the
/// band-local row is `e / width - top` and the column is `e % width`.
pub open spec fn band_byte(
    width: int,
    band_height: int,
    ul_re: int,
    ul_im: int,
    lr_re: int,
    lr_im: int,
    top: int,
    e: int,
) -> u8 {
    render_pixel(width, band_height, ul_re, ul_im, lr_re, lr_im, e / width - top, e % width)
}

/// Fills rows `[top, top + band_height)` of a row-major raster `width` pixels
/// wide, mapping each pixel through the band's own coordinate frame: row `r`
/// of the band is row `r` of a `width x band_height` image with corners
/// `upper_left` and `lower_right`. Bytes outside the band are untouched.
pub fn fill_band(
    pixels: &mut Vec<u8>,
    width: usize,
    top: usize,
    band_height: usize,
    upper_left: PlanePoint,
    lower_right: PlanePoint,
)
    requires
        (ImageBounds { width, height: band_height }).wf(),
        (top + band_height) * width <= old(pixels)@.len(),
        upper_left.bounded(),
        lower_right.bounded(),
    ensures
        final(pixels)@.len() == old(pixels)@.len(),
        forall|e: int|
            top * width <= e < (top + band_height) * width
                ==> final(pixels)@[e] == band_byte(
                    width as int, band_height as int,
                    upper_left.re as int, upper_left.im as int,
                    lower_right.re as int, lower_right.im as int,
                    top as int, e,
                ),
        forall|e: int|
            0 <= e < final(pixels)@.len()
                && (e < top * width || e >= (top + band_height) * width)
                ==> final(pixels)@[e] == old(pixels)@[e],
{
    let bounds = ImageBounds { width, height: band_height };
    let total: usize = pixels.len();
    proof {
        assert(top + band_height <= (top + band_height) * (width as int)) by (nonlinear_arith)
            requires width >= 1;
    }
    let mut r: usize = 0;
    while r < band_height
        invariant
            r <= band_height,
            pixels@.len() == old(pixels)@.len(),
            total == pixels@.len(),
            top + band_height <= total,
            forall|e: int|
                top * width <= e < (top + r) * width
                    ==> pixels@[e] == band_byte(
                        width as int, band_height as int,
                        upper_left.re as int, upper_left.im as int,
                        lower_right.re as int, lower_right.im as int,
                        top as int, e,
                    ),
            forall|e: int|
                0 <= e < pixels@.len()
                    && (e < top * width || e >= (top + r) * width)
                    ==> pixels@[e] == old(pixels)@[e],
        decreases band_height - r,
    {
        let mut c: usize = 0;
        while c < width
            invariant
                r < band_height,
                c <= width,
                pixels@.len() == old(pixels)@.len(),
                total == pixels@.len(),
                top + band_height <= total,
                forall|e: int|
                    top * width <= e < (top + r) * width + c
                        ==> pixels@[e] == band_byte(
                            width as int, band_height as int,
                            upper_left.re as int, upper_left.im as int,
                            lower_right.re as int, lower_right.im as int,
                            top as int, e,
                        ),
                forall|e: int|
                    0 <= e < pixels@.len()
                        && (e < top * width || e >= (top + r) * width + c)
                        ==> pixels@[e] == old(pixels)@[e],
            decreases width - c,
        {
            proof {
                lemma_mul_inequality(
                    top as int + r + 1,
                    top as int + band_height as int,
                    width as int,
                );
                lemma_mul_inequality(top as int, top as int + r, width as int);
                assert((top + r + 1) * (width as int) == (top + r) * (width as int) + width)
                    by (nonlinear_arith);
            }
            let point = pixel_to_point(bounds, (c, r), upper_left, lower_right);
            let shade: u8 = match escape_time(point, ITER_LIMIT) {
                None => 0u8,
                Some(n) => {
                    proof {
                        crate::escape::lemma_first_escape_in_range(
                            point.re as int, point.im as int, 0, ITER_LIMIT,
                        );
                    }
                    (255 - n) as u8
                },
            };
            let idx = (top + r) * width + c;
            pixels[idx] = shade;
            proof {
                lemma_fundamental_div_mod_converse(
                    idx as int,
                    width as int,
                    top as int + r as int,
                    c as int,
                );
            }
            c = c + 1;
        }
        proof {
            assert((top + r + 1) * (width as int) == (top + r) * (width as int) + width)
                by (nonlinear_arith);
        }
        r = r + 1;
    }
}

/// Fills a whole raster: the band renderer applied to every row at once.
/// Byte `e` of `pixels` receives the shade of the plane point sampled by the
/// pixel at row `e / width`, column `e % width`, under the image's own
/// coordinate frame.
pub fn render(
    pixels: &mut Vec<u8>,
    bounds: ImageBounds,
    upper_left: PlanePoint,
    lower_right: PlanePoint,
)
    requires
        bounds.wf(),
        old(pixels)@.len() == bounds.width * bounds.height,
        upper_left.bounded(),
        lower_right.bounded(),
    ensures
        final(pixels)@.len() == old(pixels)@.len(),
        forall|e: int|
            0 <= e < final(pixels)@.len()
                ==> final(pixels)@[e] == render_pixel(
                    bounds.width as int, bounds.height as int,
                    upper_left.re as int, upper_left.im as int,
                    lower_right.re as int, lower_right.im as int,
                    e / bounds.width as int, e % bounds.width as int,
                ),
{
    proof {
        assert((bounds.height as int) * (bounds.width as int)
            == (bounds.width as int) * (bounds.height as int)) by (nonlinear_arith);
    }
    fill_band(pixels, bounds.width, 0, bounds.height, upper_left, lower_right);
}

} // verus!
