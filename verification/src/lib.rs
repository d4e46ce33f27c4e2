//! Recognition of six-character stylized text images.
//!
//! The library segments a grayscale raster image into per-character glyph
//! regions by column-wise ink detection, converts each glyph into a binary
//! fingerprint string, and classifies each fingerprint against a reference
//! corpus of known glyph bitmaps, by exact lookup or by a positional
//! similarity fallback.

pub mod raster;
pub mod solver;
pub mod text;

pub use raster::GrayImg;
pub use solver::{LoadError, Solver};
