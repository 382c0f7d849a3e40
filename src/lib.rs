//! Escape-time rendering of the Mandelbrot set: the integer side of the
//! renderer (band partitioning, the per-band raster loop, pixel shading and
//! argument parsing), verified.

pub mod bands;
pub mod parse;
pub mod raster;
pub mod shade;
