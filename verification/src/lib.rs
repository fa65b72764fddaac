//! Signed distance field rasterizer for 2D vector outlines.
//!
//! A shape is described by a list of [`Line`] segments (straight lines,
//! quadratic and cubic Bezier curves) whose coordinates live in a fixed-point
//! unit square. [`sdf_generate`] turns such a shape into a grid where each
//! cell holds a bounded distance-to-outline measure, signed by the even-odd
//! interior rule; [`sdf_to_bitmap`] and [`sdf_sample`] convert and read the
//! resulting field.
//!
//! All coordinates and field values are fixed-point numbers with 16
//! fractional bits (see [`fixed::ONE`]), which keeps every computation exact
//! integer arithmetic with a precise specification.

pub mod fixed;
pub mod font;
pub mod line;
pub mod math;
pub mod raster;

pub use fixed::{ONE, HALF};
pub use font::FontSettings;
pub use line::Line;
pub use math::{vec2, Vec2};
pub use raster::{
    Scanline, SdfBitmap, SdfRaster, scanline, scanline_scan, sdf_generate, sdf_sample,
    sdf_to_bitmap,
};
