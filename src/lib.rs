//! Geometry and overlay bookkeeping for annotating raster images with points,
//! segments, half-lines, lines and circles.
//!
//! Every computation works on integer pixel coordinates and is exact: where a
//! construction falls between pixels, the coordinate is rounded toward zero,
//! and distances are compared without square roots.

pub mod files;
pub mod geometry;
pub mod ids;
pub mod layer;
pub mod overlay;
pub mod query;
mod wide;
