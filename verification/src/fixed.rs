//! Fixed-point plane coordinates.
//!
//! A plane coordinate is carried as an `i64` raw value counting `1/FIX_ONE`
//! plane units, so all geometry is exact integer arithmetic. Division always
//! rounds toward negative infinity (floor), the one rounding policy used
//! throughout.

use vstd::prelude::*;
use vstd::arithmetic::div_mod::{
    lemma_fundamental_div_mod, lemma_fundamental_div_mod_converse, lemma_mod_bound,
};

verus! {

/// Raw units per plane unit.
pub const FIX_ONE: i64 = 16777216;

/// Largest raw magnitude a plane coordinate may carry (65536 plane units).
pub const COORD_LIMIT: i64 = 1099511627776;

/// Largest accepted image dimension, in pixels.
pub const DIM_LIMIT: usize = 1073741824;

/// A point of the complex plane; `re` and `im` are fixed-point raw values.
#[derive(Clone, Copy, PartialEq, Eq, Structural, Debug)]
pub struct PlanePoint {
    pub re: i64,
    pub im: i64,
}

impl PlanePoint {
    /// Both coordinates lie within the representable plane window.
    pub open spec fn bounded(self) -> bool {
        -COORD_LIMIT <= self.re <= COORD_LIMIT && -COORD_LIMIT <= self.im <= COORD_LIMIT
    }
}

/// Pixel dimensions of the full output image.
#[derive(Clone, Copy, PartialEq, Eq, Structural, Debug)]
pub struct ImageBounds {
    pub width: usize,
    pub height: usize,
}

impl ImageBounds {
    /// Both dimensions are strictly positive and of a workable size.
    pub open spec fn wf(self) -> bool {
        0 < self.width <= DIM_LIMIT && 0 < self.height <= DIM_LIMIT
    }
}

/// Floor division on wide intermediates: rounds toward negative infinity,
/// matching the specification-level `/` on `int` for a positive divisor.
pub fn div_floor(a: i128, d: i128) -> (r: i128)
    requires
        0 < d <= 0x4000_0000_0000_0000,
        -0x1_0000_0000_0000_0000_0000_0000_0000 <= a <= 0x1_0000_0000_0000_0000_0000_0000_0000,
    ensures
        r == (a as int) / (d as int),
{
    if a >= 0 {
        let q = (a as u128) / (d as u128);
        q as i128
    } else {
        let n = (-a) as u128;
        let q = (n + (d as u128) - 1) / (d as u128);
        let r = -(q as i128);
        proof {
            let ni = -(a as int);
            let dd = d as int;
            let q0 = (ni + dd - 1) / dd;
            let r0 = (ni + dd - 1) % dd;
            lemma_fundamental_div_mod(ni + dd - 1, dd);
            lemma_mod_bound(ni + dd - 1, dd);
            assert(ni + dd - 1 == dd * q0 + r0);
            assert((-q0) * dd == -(dd * q0)) by (nonlinear_arith);
            lemma_fundamental_div_mod_converse(a as int, dd, -q0, dd - 1 - r0);
        }
        r
    }
}

} // verus!
