//! Escape-time rendering of the Mandelbrot set over a rectangular region of
//! the complex plane, producing a grayscale raster.
//!
//! Plane coordinates are carried in a binary fixed-point representation
//! (`FIX_ONE` raw units to one plane unit), so every geometric computation is
//! exact integer arithmetic with a floor-division rounding policy, and each
//! component carries a full functional contract.
#![verifier::loop_isolation(false)]

pub mod bands;
pub mod escape;
pub mod euclid;
pub mod fixed;
pub mod geometry;
pub mod parse;
pub mod render;
