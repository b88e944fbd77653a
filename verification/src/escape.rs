//! The escape-time evaluator: iterate `z := z*z + c` from `z = 0` and report
//! after how many steps `z` leaves the disk of radius 2, if it does within a
//! given limit.

use vstd::prelude::*;
use vstd::arithmetic::div_mod::{lemma_basic_div, lemma_div_is_ordered, lemma_div_multiples_vanish};
use crate::fixed::{div_floor, PlanePoint, FIX_ONE};

verus! {

/// Squared escape radius in raw units: `4 * FIX_ONE * FIX_ONE`, i.e. the
/// fixed-point encoding of `|z|^2 > 4`.
pub const ESCAPE_THRESHOLD: i128 = 1125899906842624;

/// Real part of `z*z + c` in fixed point.
pub open spec fn step_re(zr: int, zi: int, cr: int) -> int {
    (zr * zr - zi * zi) / (FIX_ONE as int) + cr
}

/// Imaginary part of `z*z + c` in fixed point.
pub open spec fn step_im(zr: int, zi: int, ci: int) -> int {
    (2 * zr * zi) / (FIX_ONE as int) + ci
}

/// The `n`-th iterate of `z := z*z + c` starting from the origin.
pub open spec fn z_iter(cr: int, ci: int, n: nat) -> (int, int)
    decreases n,
{
    if n == 0 {
        (0, 0)
    } else {
        let p = z_iter(cr, ci, (n - 1) as nat);
        (step_re(p.0, p.1, cr), step_im(p.0, p.1, ci))
    }
}

/// Squared magnitude, in raw-squared units.
pub open spec fn norm_sq(zr: int, zi: int) -> int {
    zr * zr + zi * zi
}

/// The iteration has left the escape disk right after step `i` (counting the
/// step that produces the first iterate as step `0`).
pub open spec fn escaped_at(cr: int, ci: int, i: nat) -> bool {
    norm_sq(z_iter(cr, ci, i + 1).0, z_iter(cr, ci, i + 1).1) > ESCAPE_THRESHOLD as int
}

/// The first step index in `[i, limit)` at which the iteration escapes, if
/// any; the exact value `escape_time` returns when started at step `i`.
pub open spec fn first_escape(cr: int, ci: int, i: u32, limit: u32) -> Option<u32>
    decreases limit - i,
{
    if i >= limit {
        None
    } else if escaped_at(cr, ci, i as nat) {
        Some(i)
    } else {
        first_escape(cr, ci, (i + 1) as u32, limit)
    }
}

/// A square is bounded by the square of a bound on the magnitude.
proof fn lemma_abs_le_of_sq_le(x: int, b: int)
    requires
        0 <= b,
        x * x <= b * b,
    ensures
        -b <= x <= b,
{
    assert(-b <= x <= b) by (nonlinear_arith)
        requires 0 <= b, x * x <= b * b;
}

/// Determines whether `c` escapes the radius-2 disk under `z := z*z + c`
/// within `limit` steps, and if so at which step: `Some(n)` as soon as
/// `|z|^2 > 4` after step `n`, `None` when the limit is reached first (the
/// point is presumed to lie in the set).
pub fn escape_time(c: PlanePoint, limit: u32) -> (r: Option<u32>)
    requires
        c.bounded(),
    ensures
        r == first_escape(c.re as int, c.im as int, 0, limit),
        c.re == 0 && c.im == 0 ==> r is None,
        norm_sq(c.re as int, c.im as int) > ESCAPE_THRESHOLD as int && limit >= 1
            ==> r == Some(0u32),
{
    proof {
        if c.re == 0 && c.im == 0 {
            lemma_origin_in_set(0, limit);
        }
        if norm_sq(c.re as int, c.im as int) > ESCAPE_THRESHOLD as int && limit >= 1 {
            lemma_immediate_escape(c.re as int, c.im as int, limit);
        }
    }
    let cr: i128 = c.re as i128;
    let ci: i128 = c.im as i128;
    let mut zr: i64 = 0;
    let mut zi: i64 = 0;
    let mut i: u32 = 0;
    while i < limit
        invariant
            i <= limit,
            (zr as int, zi as int) == z_iter(c.re as int, c.im as int, i as nat),
            norm_sq(zr as int, zi as int) <= ESCAPE_THRESHOLD as int,
            first_escape(c.re as int, c.im as int, 0, limit)
                == first_escape(c.re as int, c.im as int, i, limit),
        decreases limit - i,
    {
        proof {
            assert(0 <= (zr as int) * (zr as int) && 0 <= (zi as int) * (zi as int))
                by (nonlinear_arith);
            lemma_abs_le_of_sq_le(zr as int, 2 * FIX_ONE as int);
            lemma_abs_le_of_sq_le(zi as int, 2 * FIX_ONE as int);
        }
        let zr1: i128 = zr as i128;
        let zi1: i128 = zi as i128;
        proof {
            assert(zr1 * zr1 <= 0x4_0000_0000_0000 && zi1 * zi1 <= 0x4_0000_0000_0000
                && -0x8_0000_0000_0000 <= 2 * zr1 * zi1 <= 0x8_0000_0000_0000)
                by (nonlinear_arith)
                requires
                    -0x200_0000 <= zr1 <= 0x200_0000,
                    -0x200_0000 <= zi1 <= 0x200_0000;
            lemma_div_multiples_vanish(0x800_0000, FIX_ONE as int);
            lemma_div_multiples_vanish(-0x800_0000, FIX_ONE as int);
            lemma_div_is_ordered(zr1 * zr1 - zi1 * zi1, (FIX_ONE as int) * 0x800_0000, FIX_ONE as int);
            lemma_div_is_ordered((FIX_ONE as int) * -0x800_0000, zr1 * zr1 - zi1 * zi1, FIX_ONE as int);
            lemma_div_is_ordered(2 * zr1 * zi1, (FIX_ONE as int) * 0x800_0000, FIX_ONE as int);
            lemma_div_is_ordered((FIX_ONE as int) * -0x800_0000, 2 * zr1 * zi1, FIX_ONE as int);
        }
        let nre: i128 = div_floor(zr1 * zr1 - zi1 * zi1, FIX_ONE as i128) + cr;
        let nim: i128 = div_floor(2 * zr1 * zi1, FIX_ONE as i128) + ci;
        zr = nre as i64;
        zi = nim as i64;
        let zr2: i128 = zr as i128;
        let zi2: i128 = zi as i128;
        proof {
            assert(-0x200_0000_0000_0000_0000_0000 <= zr2 * zr2 <= 0x200_0000_0000_0000_0000_0000
                && -0x200_0000_0000_0000_0000_0000 <= zi2 * zi2 <= 0x200_0000_0000_0000_0000_0000)
                by (nonlinear_arith)
                requires
                    -0x200_0000_0000 <= zr2 <= 0x200_0000_0000,
                    -0x200_0000_0000 <= zi2 <= 0x200_0000_0000;
        }
        if zr2 * zr2 + zi2 * zi2 > ESCAPE_THRESHOLD {
            return Some(i);
        }
        i = i + 1;
    }
    None
}

/// Every iterate of `c = 0` is `0`.
proof fn lemma_z_iter_origin(n: nat)
    ensures
        z_iter(0, 0, n) == (0int, 0int),
    decreases n,
{
    lemma_basic_div(0, FIX_ONE as int);
    if n > 0 {
        lemma_z_iter_origin((n - 1) as nat);
    }
}

/// Law: the origin lies in the set — `escape_time` on `c = (0, 0)` returns
/// `None` for every limit.
pub proof fn lemma_origin_in_set(i: u32, limit: u32)
    ensures
        first_escape(0, 0, i, limit) is None,
    decreases limit - i,
{
    if i < limit {
        lemma_z_iter_origin((i + 1) as nat);
        lemma_origin_in_set((i + 1) as u32, limit);
    }
}

/// Law: a point already outside the escape disk escapes at step `0`, so
/// `escape_time` returns `Some(0)` for every positive limit.
pub proof fn lemma_immediate_escape(cr: int, ci: int, limit: u32)
    requires
        norm_sq(cr, ci) > ESCAPE_THRESHOLD as int,
        limit >= 1,
    ensures
        first_escape(cr, ci, 0, limit) == Some(0u32),
{
    lemma_basic_div(0, FIX_ONE as int);
    assert(z_iter(cr, ci, 0) == (0int, 0int));
    assert(z_iter(cr, ci, 1) == (step_re(0, 0, cr), step_im(0, 0, ci)));
}

/// Every step index reported lies below the limit.
pub proof fn lemma_first_escape_in_range(cr: int, ci: int, i: u32, limit: u32)
    ensures
        first_escape(cr, ci, i, limit) matches Some(n) ==> i <= n < limit,
    decreases limit - i,
{
    if i < limit && !escaped_at(cr, ci, i as nat) {
        lemma_first_escape_in_range(cr, ci, (i + 1) as u32, limit);
    }
}

} // verus!
