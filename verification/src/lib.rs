//! Assembles the rendered frames of a model into one sprite sheet: finds the
//! frames, trims them, packs them into strips, blocks and the sheet, and
//! describes where every frame lies on the sheet, in pixels and as a fraction
//! of the sheet.

use vstd::prelude::*;

pub mod error;
pub mod internal_sheet;
pub mod layout;
pub mod make_sheet;
pub mod placement;
pub mod raster;
pub mod render_animation;
pub mod render_animations;
pub mod render_model_sheet;
pub mod save;
pub mod sheet;
pub mod sorted_map;
pub mod source_imgs;

pub use crate::error::SheetError;
pub use crate::raster::Image;
pub use crate::sheet::{Animation, DirectionalAnimation, Frame, Normalized, SpriteSheet};

verus! {

/// What a run of the sheet maker is asked to do.
#[derive(Copy, Clone, Debug, PartialEq)]
pub struct Cfg {
    /// Write the image of each sheet as a PNG file of its own, too.
    pub output_render_pngs: bool,
    /// Width of each rendered source frame in pixels.
    pub sprite_w_px: u32,
    /// Height of each rendered source frame in pixels.
    pub sprite_h_px: u32,
    /// Number of directions to render.
    pub num_directions: u32,
}

} // verus!
