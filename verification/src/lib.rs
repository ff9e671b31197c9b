//! Skeletonisation of large binary rasters.
//!
//! The thinning engine erodes the foreground of a row-major byte image in
//! place until only a one-pixel-wide skeleton is left; it works tile by tile
//! and stops as soon as a marking pass leaves every visited tile untouched.
//! The tracer then turns the skeleton into polyline fragments by carving the
//! image along sparse seams and joining what meets at a seam.
//!
//! Every executable function carries a contract over the mathematical model
//! of its module (`Seq<u8>` for images, sequences of integer points for
//! polylines), and the laws that relate several functions are stated as proof
//! functions in [`laws`].

pub mod chunk;
pub mod fragment;
pub mod laws;
pub mod merge;
pub mod pixel;
pub mod thin;
pub mod tiled;
pub mod trace;
pub mod window;
