//! Errors reported by this crate.

use vstd::prelude::*;

verus! {

/// Everything that can go wrong while building or decoding an image.
#[derive(Clone, Copy, Debug, PartialEq, Eq, Structural)]
pub enum GreenfieldError {
    /// A channel bit width outside the closed range `[1, 8]`; carries the
    /// three widths as given.
    InvalidQuantizationLevel(u8, u8, u8),
    /// A pixel count that does not meet what the dimensions demand; carries
    /// the count found and the count expected.
    InvalidImageDimension(u64, u64),
    /// A serialized buffer whose fixed header is missing, truncated, or does
    /// not start with the magic value.
    MalformedHeader,
}

/// The `Result` type of this crate's fallible operations.
pub type GreenfieldResult<T> = Result<T, GreenfieldError>;

} // verus!
