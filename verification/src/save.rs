//! Turns the sheet of the packers into the sheet that users read: every
//! position becomes a position on the sheet, and every position and size is
//! given a second time as a fraction of the sheet.

use vstd::prelude::*;
use crate::error::SheetError;
use crate::internal_sheet;
use crate::layout::{are_sizes, largest, lemma_measures, lemma_prefix_measures, lemma_prefix_step, total};
use crate::sheet::{
    animation_views, base64_decoding, base64_encoding, direction_views, frame_views, Animation,
    AnimationView, DirectionalAnimation, DirectionalAnimationView, Frame, FrameView, Normalized,
    SpriteSheet, SpriteSheetView,
};

verus! {

/// The size of the sheet, which every fraction refers to.
pub struct Ctx {
    pub sheet_w_px: u32,
    pub sheet_h_px: u32,
}

/// The widths of `frames`, in order.
pub open spec fn frame_widths(frames: Seq<internal_sheet::Frame>) -> Seq<int> {
    Seq::new(frames.len(), |i: int| frames[i].width_px as int)
}

/// The heights of `frames`, in order.
pub open spec fn frame_heights(frames: Seq<internal_sheet::Frame>) -> Seq<int> {
    Seq::new(frames.len(), |i: int| frames[i].height_px as int)
}

/// The heights of the strips of `directions`, in order: a strip is as tall as
/// its tallest frame.
pub open spec fn direction_heights(directions: Seq<internal_sheet::DirectionalAnimation>) -> Seq<int> {
    Seq::new(directions.len(), |i: int| largest(frame_heights(directions[i].frames@)))
}

/// The widths of the strips of `directions`, in order: a strip is as wide as
/// all its frames together.
pub open spec fn direction_widths(directions: Seq<internal_sheet::DirectionalAnimation>) -> Seq<int> {
    Seq::new(directions.len(), |i: int| total(frame_widths(directions[i].frames@)))
}

/// `px` pixels as a fraction of a side of `of_px` pixels.
pub open spec fn fraction(px: int, of_px: u32) -> Normalized {
    Normalized { px: px as u32, of_px }
}

/// Frame `k` of a strip that starts at `(start_x, start_y)` on the sheet: it
/// starts where the frames before it end, on the top edge of the strip.
pub open spec fn mapped_frame(
    ctx: Ctx,
    start_x: int,
    start_y: int,
    frames: Seq<internal_sheet::Frame>,
    k: int,
) -> FrameView {
    let f = frames[k];
    let x = start_x + total(frame_widths(frames).take(k));
    FrameView {
        width_px: f.width_px,
        height_px: f.height_px,
        width_normalized: fraction(f.width_px as int, ctx.sheet_w_px),
        height_normalized: fraction(f.height_px as int, ctx.sheet_h_px),
        offset_x_px: f.offset_x_px,
        offset_y_px: f.offset_y_px,
        offset_x_normalized: fraction(f.offset_x_px as int, ctx.sheet_w_px),
        offset_y_normalized: fraction(f.offset_y_px as int, ctx.sheet_h_px),
        start_x_px: x as u32,
        start_y_px: start_y as u32,
        start_x_normalized: fraction(x, ctx.sheet_w_px),
        start_y_normalized: fraction(start_y, ctx.sheet_h_px),
    }
}

/// The frames of a strip that starts at `(start_x, start_y)` on the sheet.
pub open spec fn mapped_frames(
    ctx: Ctx,
    start_x: int,
    start_y: int,
    frames: Seq<internal_sheet::Frame>,
) -> Seq<FrameView> {
    Seq::new(frames.len(), |k: int| mapped_frame(ctx, start_x, start_y, frames, k))
}

/// Direction `j` of a block that starts at `(start_x, start_y)` on the sheet:
/// its strip starts on the left edge of the block, below the strips before
/// it.
pub open spec fn mapped_direction(
    ctx: Ctx,
    start_x: int,
    start_y: int,
    directions: Seq<internal_sheet::DirectionalAnimation>,
    j: int,
) -> DirectionalAnimationView {
    let d = directions[j];
    let y = start_y + total(direction_heights(directions).take(j));
    DirectionalAnimationView {
        direction: d.direction as usize,
        frames: mapped_frames(ctx, start_x, y, d.frames@),
        start_x_px: start_x as u32,
        start_y_px: y as u32,
        start_x_normalized: fraction(start_x, ctx.sheet_w_px),
        start_y_normalized: fraction(y, ctx.sheet_h_px),
    }
}

/// The directions of a block that starts at `(start_x, start_y)` on the
/// sheet.
pub open spec fn mapped_directions(
    ctx: Ctx,
    start_x: int,
    start_y: int,
    directions: Seq<internal_sheet::DirectionalAnimation>,
) -> Seq<DirectionalAnimationView> {
    Seq::new(directions.len(), |j: int| mapped_direction(ctx, start_x, start_y, directions, j))
}

/// An animation as users read it: its block starts where the packers put it.
pub open spec fn mapped_animation(ctx: Ctx, a: internal_sheet::Animation) -> AnimationView {
    AnimationView {
        directions: mapped_directions(ctx, a.start_x_px as int, a.start_y_px as int, a.directional_animations@),
        name: a.name@,
        start_x_px: a.start_x_px,
        start_y_px: a.start_y_px,
        start_x_normalized: fraction(a.start_x_px as int, ctx.sheet_w_px),
        start_y_normalized: fraction(a.start_y_px as int, ctx.sheet_h_px),
    }
}

/// The animations of a sheet as users read them.
pub open spec fn mapped_animations(ctx: Ctx, animations: Seq<internal_sheet::Animation>) -> Seq<AnimationView> {
    Seq::new(animations.len(), |i: int| mapped_animation(ctx, animations[i]))
}

/// The frames of a strip that starts at `start_x` end within `u32`.
pub open spec fn frames_fit(start_x: int, frames: Seq<internal_sheet::Frame>) -> bool {
    start_x + total(frame_widths(frames)) <= u32::MAX
}

/// The strips of a block that starts at `(start_x, start_y)` end within
/// `u32`, and so do the frames of each strip.
pub open spec fn directions_fit(
    start_x: int,
    start_y: int,
    directions: Seq<internal_sheet::DirectionalAnimation>,
) -> bool {
    &&& start_y + total(direction_heights(directions)) <= u32::MAX
    &&& forall|j: int| 0 <= j < directions.len() ==> frames_fit(start_x, (#[trigger] directions[j]).frames@)
}

/// Every strip and every frame of every animation ends within `u32`.
pub open spec fn animations_fit(animations: Seq<internal_sheet::Animation>) -> bool {
    forall|i: int|
        0 <= i < animations.len() ==> directions_fit(
            (#[trigger] animations[i]).start_x_px as int,
            animations[i].start_y_px as int,
            animations[i].directional_animations@,
        )
}

/// The sheet that users read.
pub open spec fn mapped_sheet(sheet: internal_sheet::SpriteSheet) -> SpriteSheetView {
    SpriteSheetView {
        image_png_bytes_b64: base64_encoding(sheet.image_png_bytes@),
        width_px: sheet.width_px,
        height_px: sheet.height_px,
        animations: mapped_animations(
            Ctx { sheet_w_px: sheet.width_px, sheet_h_px: sheet.height_px },
            sheet.animations@,
        ),
    }
}

/// Makes the sheet that users read out of the sheet of the packers. Fails
/// when a strip or a frame would end beyond `u32::MAX`.
pub fn map_internal_to_external(sprite_sheet: internal_sheet::SpriteSheet) -> (r: Result<SpriteSheet, SheetError>)
    ensures
        r is Ok <==> animations_fit(sprite_sheet.animations@),
        r matches Ok(sheet) ==> sheet@ == mapped_sheet(sprite_sheet) && base64_decoding(
            sheet@.image_png_bytes_b64,
        ) == Some(sprite_sheet.image_png_bytes@),
        r matches Err(e) ==> e == SheetError::TooLarge,
{
    let image_png_bytes = &sprite_sheet.image_png_bytes;
    let width_px = sprite_sheet.width_px;
    let height_px = sprite_sheet.height_px;
    match map_animations(&sprite_sheet) {
        Some(animations) => Ok(SpriteSheet::new(image_png_bytes, width_px, height_px, animations)),
        None => Err(SheetError::TooLarge),
    }
}

/// Maps the animations of a sheet; `None` when a strip or a frame would end
/// beyond `u32::MAX`.
pub fn map_animations(sprite_sheet: &internal_sheet::SpriteSheet) -> (r: Option<Vec<Animation>>)
    ensures
        r is Some <==> animations_fit(sprite_sheet.animations@),
        r matches Some(animations) ==> animation_views(animations@) == mapped_animations(
            Ctx { sheet_w_px: sprite_sheet.width_px, sheet_h_px: sprite_sheet.height_px },
            sprite_sheet.animations@,
        ),
{
    let ctx = Ctx { sheet_w_px: sprite_sheet.width_px, sheet_h_px: sprite_sheet.height_px };
    let mut animations: Vec<Animation> = Vec::new();
    let mut i: usize = 0;
    while i < sprite_sheet.animations.len()
        invariant
            i <= sprite_sheet.animations.len(),
            ctx == (Ctx { sheet_w_px: sprite_sheet.width_px, sheet_h_px: sprite_sheet.height_px }),
            animations.len() == i,
            forall|t: int|
                0 <= t < i ==> (#[trigger] animations[t])@ == mapped_animation(ctx, sprite_sheet.animations[t]),
            forall|t: int|
                0 <= t < i ==> directions_fit(
                    (#[trigger] sprite_sheet.animations[t]).start_x_px as int,
                    sprite_sheet.animations[t].start_y_px as int,
                    sprite_sheet.animations[t].directional_animations@,
                ),
        decreases sprite_sheet.animations.len() - i,
    {
        let a = &sprite_sheet.animations[i];
        let name = a.name.clone();
        let start_x_px = a.start_x_px;
        let start_y_px = a.start_y_px;
        let start_x_normalized = Normalized::new(start_x_px, ctx.sheet_w_px);
        let start_y_normalized = Normalized::new(start_y_px, ctx.sheet_h_px);

        let directional_animations = match map_directional_animations(&ctx, start_x_px, start_y_px, a) {
            Some(directions) => directions,
            None => {
                return None;
            },
        };

        animations.push(
            Animation::new(
                directional_animations,
                name,
                start_x_px,
                start_y_px,
                start_x_normalized,
                start_y_normalized,
            ),
        );
        i += 1;
    }
    proof {
        assert(animation_views(animations@) =~= mapped_animations(ctx, sprite_sheet.animations@));
    }
    Some(animations)
}

/// Maps the directions of an animation whose block starts at
/// `(start_x_px, start_y_px)` on the sheet; `None` when a strip or a frame
/// would end beyond `u32::MAX`.
pub fn map_directional_animations(
    ctx: &Ctx,
    start_x_px: u32,
    start_y_px: u32,
    animation: &internal_sheet::Animation,
) -> (r: Option<Vec<DirectionalAnimation>>)
    ensures
        r is Some <==> directions_fit(start_x_px as int, start_y_px as int, animation.directional_animations@),
        r matches Some(directions) ==> direction_views(directions@) == mapped_directions(
            *ctx,
            start_x_px as int,
            start_y_px as int,
            animation.directional_animations@,
        ),
{
    let ghost all = animation.directional_animations@;
    let ghost tall = direction_heights(all);
    let mut y_px = start_y_px;

    let mut directions: Vec<DirectionalAnimation> = Vec::new();
    let mut j: usize = 0;
    proof {
        assert(tall.take(0) =~= Seq::<int>::empty());
        lemma_direction_heights(all);
    }
    while j < animation.directional_animations.len()
        invariant
            j <= animation.directional_animations.len(),
            all == animation.directional_animations@,
            tall == direction_heights(all),
            are_sizes(tall),
            y_px == start_y_px + total(tall.take(j as int)),
            directions.len() == j,
            forall|t: int|
                0 <= t < j ==> (#[trigger] directions[t])@ == mapped_direction(
                    *ctx,
                    start_x_px as int,
                    start_y_px as int,
                    all,
                    t,
                ),
            forall|t: int| 0 <= t < j ==> frames_fit(start_x_px as int, (#[trigger] all[t]).frames@),
        decreases animation.directional_animations.len() - j,
    {
        let d = &animation.directional_animations[j];
        let d_start_x_px = start_x_px;
        let d_start_y_px = y_px;
        let d_start_x_normalized = Normalized::new(d_start_x_px, ctx.sheet_w_px);
        let d_start_y_normalized = Normalized::new(d_start_y_px, ctx.sheet_h_px);

        let frames = match map_frames(ctx, d_start_x_px, d_start_y_px, &d.frames) {
            Some(frames) => frames,
            None => {
                proof {
                    assert(!frames_fit(start_x_px as int, all[j as int].frames@));
                }
                return None;
            },
        };

        let mut mapped_h_px: u32 = 0;
        let mut k: usize = 0;
        proof {
            assert(frame_heights(d.frames@).take(0) =~= Seq::<int>::empty());
        }
        while k < d.frames.len()
            invariant
                k <= d.frames.len(),
                mapped_h_px == largest(frame_heights(d.frames@).take(k as int)),
            decreases d.frames.len() - k,
        {
            proof {
                lemma_prefix_step(frame_heights(d.frames@), k as int);
            }
            if d.frames[k].height_px > mapped_h_px {
                mapped_h_px = d.frames[k].height_px;
            }
            k += 1;
        }
        proof {
            assert(frame_heights(d.frames@).take(k as int) =~= frame_heights(d.frames@));
            assert(tall[j as int] == mapped_h_px);
            lemma_prefix_step(tall, j as int);
            lemma_prefix_measures(tall, j as int + 1);
        }

        y_px = match y_px.checked_add(mapped_h_px) {
            Some(next) => next,
            None => {
                return None;
            },
        };

        directions.push(
            DirectionalAnimation::new(
                frames,
                d.direction as usize,
                d_start_x_px,
                d_start_y_px,
                d_start_x_normalized,
                d_start_y_normalized,
            ),
        );
        j += 1;
    }
    proof {
        assert(tall.take(j as int) =~= tall);
        assert(direction_views(directions@) =~= mapped_directions(
            *ctx,
            start_x_px as int,
            start_y_px as int,
            all,
        ));
    }
    Some(directions)
}

/// The heights of strips and the sizes of frames are never negative.
pub proof fn lemma_direction_heights(directions: Seq<internal_sheet::DirectionalAnimation>)
    ensures
        are_sizes(direction_heights(directions)),
        are_sizes(direction_widths(directions)),
{
    assert forall|i: int| 0 <= i < directions.len() implies 0 <= #[trigger] direction_heights(directions)[i] by {
        lemma_measures(frame_heights(directions[i].frames@));
    }
    assert forall|i: int| 0 <= i < directions.len() implies 0 <= #[trigger] direction_widths(directions)[i] by {
        lemma_measures(frame_widths(directions[i].frames@));
    }
}

/// Maps the frames of a strip that starts at `(start_x_px, start_y_px)` on
/// the sheet; `None` when a frame would end beyond `u32::MAX`.
pub fn map_frames(ctx: &Ctx, start_x_px: u32, start_y_px: u32, frames: &Vec<internal_sheet::Frame>) -> (r: Option<
    Vec<Frame>,
>)
    ensures
        r is Some <==> frames_fit(start_x_px as int, frames@),
        r matches Some(mapped) ==> frame_views(mapped@) == mapped_frames(
            *ctx,
            start_x_px as int,
            start_y_px as int,
            frames@,
        ),
{
    let ghost wide = frame_widths(frames@);
    let mut x_px = start_x_px;
    let start_y_normalized = Normalized::new(start_y_px, ctx.sheet_h_px);

    let mut mapped: Vec<Frame> = Vec::new();
    let mut k: usize = 0;
    proof {
        assert(wide.take(0) =~= Seq::<int>::empty());
    }
    while k < frames.len()
        invariant
            k <= frames.len(),
            wide == frame_widths(frames@),
            are_sizes(wide),
            x_px == start_x_px + total(wide.take(k as int)),
            start_y_normalized == fraction(start_y_px as int, ctx.sheet_h_px),
            mapped.len() == k,
            forall|t: int|
                0 <= t < k ==> (#[trigger] mapped[t])@ == mapped_frame(
                    *ctx,
                    start_x_px as int,
                    start_y_px as int,
                    frames@,
                    t,
                ),
        decreases frames.len() - k,
    {
        let f = &frames[k];
        let width_px = f.width_px;
        let height_px = f.height_px;
        let width_normalized = Normalized::new(width_px, ctx.sheet_w_px);
        let height_normalized = Normalized::new(height_px, ctx.sheet_h_px);
        let offset_x_px = f.offset_x_px;
        let offset_y_px = f.offset_y_px;
        let offset_x_normalized = Normalized::new(offset_x_px, ctx.sheet_w_px);
        let offset_y_normalized = Normalized::new(offset_y_px, ctx.sheet_h_px);
        let f_start_x_px = x_px;
        let f_start_y_px = start_y_px;
        let f_start_x_normalized = Normalized::new(x_px, ctx.sheet_w_px);
        let f_start_y_normalized = start_y_normalized;

        proof {
            lemma_prefix_step(wide, k as int);
            lemma_prefix_measures(wide, k as int + 1);
        }
        x_px = match x_px.checked_add(width_px) {
            Some(next) => next,
            None => {
                return None;
            },
        };

        mapped.push(
            Frame::new(
                width_px,
                height_px,
                width_normalized,
                height_normalized,
                offset_x_px,
                offset_y_px,
                offset_x_normalized,
                offset_y_normalized,
                f_start_x_px,
                f_start_y_px,
                f_start_x_normalized,
                f_start_y_normalized,
            ),
        );
        k += 1;
    }
    proof {
        assert(wide.take(k as int) =~= wide);
        assert(frame_views(mapped@) =~= mapped_frames(*ctx, start_x_px as int, start_y_px as int, frames@));
    }
    Some(mapped)
}

} // verus!
