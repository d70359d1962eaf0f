//! An in-memory RGB raster image and a codec for the Netpbm "plain" PPM
//! (`P3`) ASCII text format.
//!
//! The library holds a pixel buffer as a flat row-major sequence of byte
//! colour triples, writes it out as `P3` text, and parses such text back.
//! File handling and float-channel helpers live outside the library; the
//! codec itself works on plain byte slices and vectors.

pub mod ascii;
pub mod codec;
pub mod colour;
pub mod error;
pub mod image;
pub mod util;

pub use colour::Rgb;
pub use error::{ImageError, ImageResult};
pub use image::Image;
