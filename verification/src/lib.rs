//! The exact part of a glyph rasterizer: which parameter ranges adaptive
//! bisection of a curve visits and emits, which cells of the coverage buffer
//! a segment touches, and how the pen follows an outline. The measuring of
//! curves and the coverage values themselves are the caller's arithmetic.

pub mod geometry;
pub mod outline;
pub mod raster;
pub mod subdivider;
pub mod subdivision;
