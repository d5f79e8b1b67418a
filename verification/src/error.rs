//! What can go wrong while a sheet is assembled.

use vstd::prelude::*;

verus! {

/// Why no sheet, or no part of one, could be produced.
#[derive(Clone, Copy, Debug, PartialEq, Eq, Structural)]
pub enum SheetError {
    /// A packed image would be wider or taller than `u32::MAX` pixels, or
    /// hold more samples than can be addressed.
    TooLarge,
    /// The sheet would have no pixels at all.
    EmptySheet,
    /// The bytes of a source frame are not a readable PNG image.
    Decode,
    /// The finished sheet could not be written as a PNG image.
    Encode,
    /// The image text of a sheet is not valid base64.
    Base64,
}

} // verus!
