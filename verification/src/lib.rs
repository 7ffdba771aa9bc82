//! Raster-to-vector conversion: extraction of connected foreground regions
//! from a pixel grid, geometric simplification of the extracted point
//! sequences, and assembly of the results into drawable path primitives.

pub mod geometry;
pub mod grid;
pub mod extraction;
pub mod svg;
pub mod image_to_svg_converter;
