//! The geometry mapper: from a pixel coordinate in an image to the point of
//! the complex plane it samples, given the plane points at the image's
//! upper-left and lower-right corners.

use vstd::prelude::*;
use vstd::arithmetic::div_mod::{lemma_basic_div, lemma_div_is_ordered, lemma_div_multiples_vanish};
use crate::fixed::{div_floor, ImageBounds, PlanePoint, COORD_LIMIT, DIM_LIMIT};

verus! {

/// Real coordinate sampled by pixel column `col` of an image `width` pixels
/// wide whose corners have real coordinates `ul_re` and `lr_re`.
pub open spec fn map_re(width: int, col: int, ul_re: int, lr_re: int) -> int {
    ul_re + (col * (lr_re - ul_re)) / width
}

/// Imaginary coordinate sampled by pixel row `row` of an image `height`
/// pixels tall whose corners have imaginary coordinates `ul_im` and `lr_im`.
/// Rows grow downward while the imaginary axis grows upward, hence the
/// subtraction.
pub open spec fn map_im(height: int, row: int, ul_im: int, lr_im: int) -> int {
    ul_im - (row * (ul_im - lr_im)) / height
}

/// For `0 <= c <= w`, the interpolation step `(c*d)/w` lies between `0` and
/// `d`, and hits those endpoints exactly at `c == 0` and `c == w`.
pub proof fn lemma_interp_range(c: int, w: int, d: int)
    requires
        0 <= c <= w,
        0 < w,
    ensures
        d >= 0 ==> 0 <= (c * d) / w <= d,
        d < 0 ==> d <= (c * d) / w <= 0,
        c == 0 ==> (c * d) / w == 0,
        c == w ==> (c * d) / w == d,
{
    lemma_div_multiples_vanish(d, w);
    lemma_basic_div(0, w);
    if d >= 0 {
        assert(0 <= c * d && c * d <= w * d) by (nonlinear_arith)
            requires 0 <= c <= w, d >= 0;
        lemma_div_is_ordered(0, c * d, w);
        lemma_div_is_ordered(c * d, w * d, w);
    } else {
        assert(w * d <= c * d && c * d <= 0) by (nonlinear_arith)
            requires 0 <= c <= w, d < 0;
        lemma_div_is_ordered(w * d, c * d, w);
        lemma_div_is_ordered(c * d, 0, w);
    }
    if c == 0 {
        assert(c * d == 0);
    }
    if c == w {
        assert(c * d == w * d);
    }
}

/// Maps `pixel = (col, row)` of an image of the given bounds to the plane
/// point it samples, interpolating between the two corner points. At
/// `(0, 0)` it yields exactly `upper_left`, and at `(width, height)` exactly
/// `lower_right`.
pub fn pixel_to_point(
    bounds: ImageBounds,
    pixel: (usize, usize),
    upper_left: PlanePoint,
    lower_right: PlanePoint,
) -> (r: PlanePoint)
    requires
        bounds.wf(),
        pixel.0 <= bounds.width,
        pixel.1 <= bounds.height,
        upper_left.bounded(),
        lower_right.bounded(),
    ensures
        r.re == map_re(bounds.width as int, pixel.0 as int, upper_left.re as int, lower_right.re as int),
        r.im == map_im(bounds.height as int, pixel.1 as int, upper_left.im as int, lower_right.im as int),
        r.bounded(),
        pixel.0 == 0 ==> r.re == upper_left.re,
        pixel.0 == bounds.width ==> r.re == lower_right.re,
        pixel.1 == 0 ==> r.im == upper_left.im,
        pixel.1 == bounds.height ==> r.im == lower_right.im,
{
    let dre: i128 = lower_right.re as i128 - upper_left.re as i128;
    let dim: i128 = upper_left.im as i128 - lower_right.im as i128;
    proof {
        assert((pixel.0 as int) * (dre as int) <= 0x1_0000_0000_0000_0000_0000
            && (pixel.0 as int) * (dre as int) >= -0x1_0000_0000_0000_0000_0000) by (nonlinear_arith)
            requires
                0 <= pixel.0 <= DIM_LIMIT as int,
                -2 * COORD_LIMIT as int <= dre as int <= 2 * COORD_LIMIT as int;
        assert((pixel.1 as int) * (dim as int) <= 0x1_0000_0000_0000_0000_0000
            && (pixel.1 as int) * (dim as int) >= -0x1_0000_0000_0000_0000_0000) by (nonlinear_arith)
            requires
                0 <= pixel.1 <= DIM_LIMIT as int,
                -2 * COORD_LIMIT as int <= dim as int <= 2 * COORD_LIMIT as int;
    }
    let tre: i128 = div_floor((pixel.0 as i128) * dre, bounds.width as i128);
    let tim: i128 = div_floor((pixel.1 as i128) * dim, bounds.height as i128);
    proof {
        lemma_interp_range(pixel.0 as int, bounds.width as int, dre as int);
        lemma_interp_range(pixel.1 as int, bounds.height as int, dim as int);
    }
    let re: i128 = upper_left.re as i128 + tre;
    let im: i128 = upper_left.im as i128 - tim;
    PlanePoint { re: re as i64, im: im as i64 }
}

} // verus!
