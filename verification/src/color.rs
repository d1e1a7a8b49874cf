//! RGB colors and basic operations on them.

use vstd::prelude::*;

use rand::Rng;

verus! {

/// An RGB color: three independent 8-bit channels, red, green and blue.
#[derive(Clone, Copy, Debug, PartialEq, Eq, Structural)]
pub struct Rgb {
    pub r: u8,
    pub g: u8,
    pub b: u8,
}

impl Rgb {
    /// Creates a color from its three channel values.
    pub fn new(r: u8, g: u8, b: u8) -> (c: Rgb)
        ensures
            c == (Rgb { r, g, b }),
    {
        Rgb { r, g, b }
    }

    /// Draws a color with three random channels.
    ///
    /// Relies on `rand::thread_rng` and `rand::Rng::gen`: three independently
    /// drawn random bytes. Nothing is promised of the result.
    #[verifier::external_body]
    pub fn random() -> Rgb {
        let (r, g, b) = rand::thread_rng().gen::<(u8, u8, u8)>();
        Rgb { r, g, b }
    }

    /// The channel values as bytes, in r, g, b order.
    pub fn bytes(&self) -> (a: [u8; 3])
        ensures
            a@ == seq![self.r, self.g, self.b],
    {
        [self.r, self.g, self.b]
    }
}

impl Default for Rgb {
    /// The default color is black: all channels zero.
    fn default() -> (c: Rgb)
        ensures
            c == (Rgb { r: 0, g: 0, b: 0 }),
    {
        Rgb { r: 0, g: 0, b: 0 }
    }
}

} // verus!
