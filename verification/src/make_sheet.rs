//! Stacks the blocks of all animations into the sheet and writes the sheet as
//! a PNG image.

use vstd::prelude::*;
use crate::error::SheetError;
use crate::internal_sheet::{Animation, SpriteSheet};
use crate::layout::{
    are_sizes, canvas_fits, heights, in_a_column, largest, lemma_prefix_measures, lemma_prefix_step,
    lemma_shows_is_rendered, rendered, shows, stack_vertically, total, views, widths,
};
use crate::raster::{png_encoding, Image, ImageView};
use crate::render_animation::Render;

verus! {

/// The block images of the rendered animations, in order.
pub open spec fn blocks_of(animations: Seq<Render>) -> Seq<ImageView> {
    Seq::new(animations.len(), |i: int| animations[i].1@)
}

/// `placed` are the animations of `renders`, in order, each moved to where
/// its block starts in the sheet: on the left edge, below the blocks before
/// it.
pub open spec fn are_placed(placed: Seq<Animation>, renders: Seq<Render>) -> bool {
    &&& placed.len() == renders.len()
    &&& forall|i: int|
        0 <= i < renders.len() ==> {
            let animation = #[trigger] placed[i];
            &&& animation.name == renders[i].0.name
            &&& animation.directional_animations == renders[i].0.directional_animations
            &&& animation.start_x_px == 0
            &&& animation.start_y_px == total(heights(blocks_of(renders)).take(i))
        }
}

/// Converts all animations into a sprite sheet: the blocks are stacked top to
/// bottom in the given order, left edges aligned, each animation is told
/// where its block starts, and the sheet is written as a PNG image. The sheet
/// is as wide as the widest block and as tall as all blocks together. Fails
/// when the sheet cannot be held, has no pixels or cannot be written.
pub fn execute(animations: Vec<Render>) -> (r: Result<(SpriteSheet, Vec<u8>), SheetError>)
    requires
        forall|i: int| 0 <= i < animations.len() ==> (#[trigger] animations[i]).1.wf(),
    ensures
        ({
            let blocks = blocks_of(animations@);
            let width = largest(widths(blocks));
            let height = total(heights(blocks));
            if !canvas_fits(width, height) {
                r matches Err(e) && e == SheetError::TooLarge
            } else if width == 0 || height == 0 {
                r matches Err(e) && e == SheetError::EmptySheet
            } else {
                match png_encoding(rendered(width, height, in_a_column(blocks))) {
                    Some(encoded) => {
                        &&& r matches Ok((sheet, image_png_bytes))
                        &&& image_png_bytes@ == encoded
                        &&& sheet.image_png_bytes@ == encoded
                        &&& sheet.width_px == width
                        &&& sheet.height_px == height
                        &&& are_placed(sheet.animations@, animations@)
                    },
                    None => r matches Err(e) && e == SheetError::Encode,
                }
            }
        }),
{
    let ghost blocks = blocks_of(animations@);
    let ghost tall = heights(blocks);
    let mut rest = animations;

    // Split out animations and pngs
    let offset_x: u32 = 0;
    let mut offset_y: u32 = 0;
    let mut placed: Vec<Animation> = Vec::new();
    let mut pngs: Vec<Image> = Vec::new();
    proof {
        assert(tall.take(0) =~= Seq::<int>::empty());
    }
    while rest.len() > 0
        invariant
            blocks == blocks_of(animations@),
            tall == heights(blocks),
            placed.len() == pngs.len(),
            placed.len() + rest.len() == animations.len(),
            rest@ == animations@.skip(placed.len() as int),
            offset_x == 0,
            offset_y == total(tall.take(placed.len() as int)),
            forall|i: int| 0 <= i < animations.len() ==> (#[trigger] animations[i]).1.wf(),
            forall|i: int| 0 <= i < pngs.len() ==> #[trigger] pngs[i] == animations[i].1,
            forall|i: int|
                0 <= i < placed.len() ==> {
                    let animation = #[trigger] placed[i];
                    &&& animation.name == animations[i].0.name
                    &&& animation.directional_animations == animations[i].0.directional_animations
                    &&& animation.start_x_px == 0
                    &&& animation.start_y_px == total(tall.take(i))
                },
        decreases rest.len(),
    {
        let ghost k = placed.len() as int;
        let (mut animation, png) = rest.remove(0);
        proof {
            assert(animations@.skip(k)[0] == animations@[k]);
            assert(animations@.skip(k).remove(0) =~= animations@.skip(k + 1));
            assert(tall[k] == png@.height);
            assert(are_sizes(tall));
            lemma_prefix_step(tall, k);
            lemma_prefix_measures(tall, k + 1);
        }

        // Note the offset for the animation
        animation.start_x_px = offset_x;
        animation.start_y_px = offset_y;

        // Update offsets for next image; only doing vertical since everything gets stacked vertically
        match offset_y.checked_add(png.height()) {
            Some(next) => {
                offset_y = next;
            },
            None => {
                return Err(SheetError::TooLarge);
            },
        }

        placed.push(animation);
        pngs.push(png);
    }
    proof {
        assert(views(pngs@) =~= blocks);
    }

    let final_png = match join_pngs_vertically(&pngs) {
        Ok(image) => image,
        Err(e) => {
            return Err(e);
        },
    };

    let width_px = final_png.width();
    let height_px = final_png.height();

    proof {
        lemma_shows_is_rendered(final_png@, in_a_column(blocks));
    }
    let image_png_bytes = match final_png.to_png() {
        Ok(bytes) => bytes,
        Err(e) => {
            return Err(e);
        },
    };

    let sheet_bytes = image_png_bytes.clone();
    proof {
        assert(sheet_bytes@ =~= image_png_bytes@);
    }
    Ok((SpriteSheet::new(sheet_bytes, width_px, height_px, placed), image_png_bytes))
}

/// Stacks images top to bottom on a transparent canvas, left edges aligned.
/// Fails when the canvas cannot be held or would have no pixels.
pub fn join_pngs_vertically(pngs: &Vec<Image>) -> (r: Result<Image, SheetError>)
    requires
        forall|i: int| 0 <= i < pngs.len() ==> (#[trigger] pngs[i]).wf(),
    ensures
        ({
            let width = largest(widths(views(pngs@)));
            let height = total(heights(views(pngs@)));
            if !canvas_fits(width, height) {
                r matches Err(e) && e == SheetError::TooLarge
            } else if width == 0 || height == 0 {
                r matches Err(e) && e == SheetError::EmptySheet
            } else {
                &&& r matches Ok(image)
                &&& image.wf()
                &&& image@.width == width
                &&& image@.height == height
                &&& shows(image@, in_a_column(views(pngs@)))
            }
        }),
{
    match stack_vertically(pngs) {
        Ok(image) => {
            if image.height() == 0 || image.width() == 0 {
                Err(SheetError::EmptySheet)
            } else {
                Ok(image)
            }
        },
        Err(e) => Err(e),
    }
}

} // verus!
