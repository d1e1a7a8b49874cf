//! Pixels: a color together with its position in the image grid.

use vstd::prelude::*;

use crate::color::Rgb;

verus! {

/// A pixel: the color standing at position `(x, y)` of an image.
#[derive(Clone, Copy, Debug, PartialEq, Eq, Structural)]
pub struct Pixel {
    pub x: usize,
    pub y: usize,
    pub color: Rgb,
}

impl Pixel {
    /// Creates a pixel at `(x, y)` with the given color.
    pub fn new(x: usize, y: usize, color: Rgb) -> (p: Pixel)
        ensures
            p == (Pixel { x, y, color }),
    {
        Pixel { x, y, color }
    }
}

} // verus!
