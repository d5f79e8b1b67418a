//! The sheet as the packers build it: every position is counted in pixels
//! from the top-left corner of the enclosing image (a frame within its strip,
//! a strip within its block, a block within the sheet).

use vstd::prelude::*;

verus! {

/// Top level sprite sheet for a given sprite.
#[derive(Clone, Debug, PartialEq)]
pub struct SpriteSheet {
    pub image_png_bytes: Vec<u8>,
    pub width_px: u32,
    pub height_px: u32,
    pub animations: Vec<Animation>,
}

impl SpriteSheet {
    /// Creates a new sprite sheet.
    pub fn new(image_png_bytes: Vec<u8>, width_px: u32, height_px: u32, animations: Vec<Animation>) -> (sheet: Self)
        ensures
            sheet.image_png_bytes == image_png_bytes,
            sheet.width_px == width_px,
            sheet.height_px == height_px,
            sheet.animations == animations,
    {
        Self { width_px, height_px, animations, image_png_bytes }
    }
}

/// An animation in the sprite sheet.
#[derive(Clone, Debug, PartialEq)]
pub struct Animation {
    pub directional_animations: Vec<DirectionalAnimation>,
    pub name: String,
    pub start_x_px: u32,
    pub start_y_px: u32,
}

/// A directional animation in the sprite sheet.
#[derive(Clone, Debug, PartialEq)]
pub struct DirectionalAnimation {
    pub direction: u32,
    pub frames: Vec<Frame>,
    pub start_x_px: u32,
    pub start_y_px: u32,
}

/// An individual frame in the animation: the size of the trimmed frame, where
/// the trimmed region lay in the untrimmed source frame, and where the frame
/// starts in its strip.
#[derive(Clone, Copy, Debug, PartialEq, Eq, Structural)]
pub struct Frame {
    pub height_px: u32,
    pub offset_x_px: u32,
    pub offset_y_px: u32,
    pub start_x_px: u32,
    pub start_y_px: u32,
    pub width_px: u32,
}

} // verus!
