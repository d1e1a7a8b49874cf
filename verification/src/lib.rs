//! The greenfield image container format.
//!
//! Stores raster images with per-channel uniform color quantization: each
//! 8-bit channel is reduced to a configurable width of 1 to 8 bits, and the
//! reduced triples are packed back to back into a big-endian, MSB-first
//! bitstream framed by a fixed magic value, the image dimensions and the
//! quantization scheme.

pub mod bits;
pub mod color;
pub mod error;
pub mod image;
pub mod pixel;
pub mod quantization;
