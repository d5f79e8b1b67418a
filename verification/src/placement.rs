//! What holds of the places that frames, strips and blocks have on a packed
//! sheet.

use vstd::prelude::*;
use crate::internal_sheet;
use crate::layout::{are_sizes, largest, lemma_measures, lemma_prefix_measures, lemma_prefix_step, total};
use crate::save::{
    direction_heights, direction_widths, frame_heights, frame_widths, lemma_direction_heights, mapped_sheet,
};
use crate::sheet::{Normalized, SpriteSheetView};

verus! {

/// The widths of the blocks of `animations`, in order: a block is as wide as
/// its widest strip.
pub open spec fn block_widths(animations: Seq<internal_sheet::Animation>) -> Seq<int> {
    Seq::new(animations.len(), |i: int| largest(direction_widths(animations[i].directional_animations@)))
}

/// The heights of the blocks of `animations`, in order: a block is as tall as
/// all its strips together.
pub open spec fn block_heights(animations: Seq<internal_sheet::Animation>) -> Seq<int> {
    Seq::new(animations.len(), |i: int| total(direction_heights(animations[i].directional_animations@)))
}

/// The sheet is laid out as the packers lay it out: the blocks stand one
/// below the other on the left edge of the sheet, and the sheet is as wide as
/// the widest block and as tall as all blocks together.
pub open spec fn is_packed(sheet: internal_sheet::SpriteSheet) -> bool {
    &&& sheet.width_px == largest(block_widths(sheet.animations@))
    &&& sheet.height_px == total(block_heights(sheet.animations@))
    &&& forall|i: int|
        0 <= i < sheet.animations@.len() ==> (#[trigger] sheet.animations@[i]).start_x_px == 0
            && sheet.animations@[i].start_y_px == total(block_heights(sheet.animations@).take(i))
}

/// Every fraction of the sheet is the matching number of pixels out of the
/// width of the sheet, for what is measured across, or out of its height,
/// for what is measured down.
pub open spec fn is_normalized(sheet: SpriteSheetView) -> bool {
    let across = |n: Normalized, px: u32| n == (Normalized { px, of_px: sheet.width_px });
    let down = |n: Normalized, px: u32| n == (Normalized { px, of_px: sheet.height_px });
    forall|a: int|
        0 <= a < sheet.animations.len() ==> {
            let animation = #[trigger] sheet.animations[a];
            &&& across(animation.start_x_normalized, animation.start_x_px)
            &&& down(animation.start_y_normalized, animation.start_y_px)
            &&& forall|d: int|
                0 <= d < animation.directions.len() ==> {
                    let direction = #[trigger] animation.directions[d];
                    &&& across(direction.start_x_normalized, direction.start_x_px)
                    &&& down(direction.start_y_normalized, direction.start_y_px)
                    &&& forall|f: int|
                        0 <= f < direction.frames.len() ==> {
                            let frame = #[trigger] direction.frames[f];
                            &&& across(frame.width_normalized, frame.width_px)
                            &&& down(frame.height_normalized, frame.height_px)
                            &&& across(frame.offset_x_normalized, frame.offset_x_px)
                            &&& down(frame.offset_y_normalized, frame.offset_y_px)
                            &&& across(frame.start_x_normalized, frame.start_x_px)
                            &&& down(frame.start_y_normalized, frame.start_y_px)
                        }
                }
        }
}

/// No frame reaches beyond the sheet.
pub open spec fn frames_inside(sheet: SpriteSheetView) -> bool {
    forall|a: int, d: int, f: int|
        0 <= a < sheet.animations.len() && 0 <= d < sheet.animations[a].directions.len() && 0 <= f
            < sheet.animations[a].directions[d].frames.len() ==> {
            let frame = #[trigger] sheet.animations[a].directions[d].frames[f];
            &&& frame.start_x_px + frame.width_px <= sheet.width_px
            &&& frame.start_y_px + frame.height_px <= sheet.height_px
        }
}

/// From left to right the frames of a direction start further and further
/// right; from top to bottom the directions of an animation, and the
/// animations of the sheet, start further and further down.
pub open spec fn strictly_ordered(sheet: SpriteSheetView) -> bool {
    &&& forall|a: int, b: int|
        0 <= a < b < sheet.animations.len() ==> (#[trigger] sheet.animations[a]).start_y_px < (
        #[trigger] sheet.animations[b]).start_y_px
    &&& forall|a: int, d: int, e: int|
        0 <= a < sheet.animations.len() && 0 <= d < e < sheet.animations[a].directions.len() ==> (
        #[trigger] sheet.animations[a].directions[d]).start_y_px < (
        #[trigger] sheet.animations[a].directions[e]).start_y_px
    &&& forall|a: int, d: int, f: int, g: int|
        0 <= a < sheet.animations.len() && 0 <= d < sheet.animations[a].directions.len() && 0 <= f < g
            < sheet.animations[a].directions[d].frames.len() ==> (
        #[trigger] sheet.animations[a].directions[d].frames[f]).start_x_px < (
        #[trigger] sheet.animations[a].directions[d].frames[g]).start_x_px
}

/// As fractions of the sheet, the sizes of frames and the start positions of
/// frames, directions and animations lie between zero and one. (Offsets are
/// counted in the untrimmed source frame, which may be larger than the
/// sheet, so their fractions may exceed one.)
pub open spec fn sizes_and_starts_in_unit_range(sheet: SpriteSheetView) -> bool {
    forall|a: int|
        0 <= a < sheet.animations.len() ==> {
            let animation = #[trigger] sheet.animations[a];
            &&& animation.start_x_normalized.in_unit_range()
            &&& animation.start_y_normalized.in_unit_range()
            &&& forall|d: int|
                0 <= d < animation.directions.len() ==> {
                    let direction = #[trigger] animation.directions[d];
                    &&& direction.start_x_normalized.in_unit_range()
                    &&& direction.start_y_normalized.in_unit_range()
                    &&& forall|f: int|
                        0 <= f < direction.frames.len() ==> {
                            let frame = #[trigger] direction.frames[f];
                            &&& frame.width_normalized.in_unit_range()
                            &&& frame.height_normalized.in_unit_range()
                            &&& frame.start_x_normalized.in_unit_range()
                            &&& frame.start_y_normalized.in_unit_range()
                        }
                }
        }
}

/// Every size but the last is positive.
pub open spec fn positive_but_last(sizes: Seq<int>) -> bool {
    forall|i: int| 0 <= i < sizes.len() - 1 ==> 0 < #[trigger] sizes[i]
}

/// Nothing that another thing follows is empty: no frame that has a frame to
/// its right, no strip that has a strip below it, no block that has a block
/// below it.
pub open spec fn followed_are_not_empty(sheet: internal_sheet::SpriteSheet) -> bool {
    &&& positive_but_last(block_heights(sheet.animations@))
    &&& forall|a: int|
        0 <= a < sheet.animations@.len() ==> positive_but_last(
            direction_heights((#[trigger] sheet.animations@[a]).directional_animations@),
        )
    &&& forall|a: int, d: int|
        0 <= a < sheet.animations@.len() && 0 <= d < sheet.animations@[a].directional_animations@.len()
            ==> positive_but_last(
            frame_widths((#[trigger] sheet.animations@[a].directional_animations@[d]).frames@),
        )
}

/// The sizes of blocks are never negative.
pub proof fn lemma_block_sizes(animations: Seq<internal_sheet::Animation>)
    ensures
        are_sizes(block_widths(animations)),
        are_sizes(block_heights(animations)),
{
    assert forall|i: int| 0 <= i < animations.len() implies 0 <= #[trigger] block_widths(animations)[i] by {
        lemma_direction_heights(animations[i].directional_animations@);
        lemma_measures(direction_widths(animations[i].directional_animations@));
    }
    assert forall|i: int| 0 <= i < animations.len() implies 0 <= #[trigger] block_heights(animations)[i] by {
        lemma_direction_heights(animations[i].directional_animations@);
        lemma_measures(direction_heights(animations[i].directional_animations@));
    }
}

/// With sizes that are positive wherever another size follows, the sums over
/// longer prefixes are larger.
pub proof fn lemma_prefix_sums_grow(sizes: Seq<int>, i: int, j: int)
    requires
        are_sizes(sizes),
        positive_but_last(sizes),
        0 <= i < j < sizes.len(),
    ensures
        total(sizes.take(i)) < total(sizes.take(j)),
    decreases j - i,
{
    lemma_prefix_step(sizes, j - 1);
    if i < j - 1 {
        lemma_prefix_sums_grow(sizes, i, j - 1);
    } else {
        assert(0 < sizes[i]);
    }
}

/// Fractions: whatever the sheet of the packers holds, every fraction of the
/// sheet made of it is the matching number of pixels out of the matching
/// side of the sheet.
pub proof fn lemma_mapped_is_normalized(sheet: internal_sheet::SpriteSheet)
    ensures
        is_normalized(mapped_sheet(sheet)),
{
}

/// Coverage: on a sheet made of a packed sheet no frame reaches beyond the
/// sheet, and every strip and frame ends within `u32`.
pub proof fn lemma_packed_frames_inside(sheet: internal_sheet::SpriteSheet)
    requires
        is_packed(sheet),
    ensures
        crate::save::animations_fit(sheet.animations@),
        frames_inside(mapped_sheet(sheet)),
{
    let animations = sheet.animations@;
    let mapped = mapped_sheet(sheet);
    lemma_block_sizes(animations);
    assert forall|a: int| 0 <= a < animations.len() implies crate::save::directions_fit(
        (#[trigger] animations[a]).start_x_px as int,
        animations[a].start_y_px as int,
        animations[a].directional_animations@,
    ) by {
        lemma_packed_block(sheet, a);
        let directions = animations[a].directional_animations@;
        assert forall|d: int| 0 <= d < directions.len() implies crate::save::frames_fit(
            animations[a].start_x_px as int,
            (#[trigger] directions[d]).frames@,
        ) by {
            lemma_direction_heights(directions);
            lemma_measures(direction_widths(directions));
            assert(direction_widths(directions)[d] <= largest(direction_widths(directions)));
        }
    }
    assert forall|a: int, d: int, f: int|
        0 <= a < mapped.animations.len() && 0 <= d < mapped.animations[a].directions.len() && 0 <= f
            < mapped.animations[a].directions[d].frames.len() implies {
        let frame = #[trigger] mapped.animations[a].directions[d].frames[f];
        &&& frame.start_x_px + frame.width_px <= mapped.width_px
        &&& frame.start_y_px + frame.height_px <= mapped.height_px
    } by {
        lemma_packed_block(sheet, a);
        let directions = animations[a].directional_animations@;
        let frames = directions[d].frames@;
        lemma_direction_heights(directions);
        lemma_measures(direction_widths(directions));
        assert(direction_widths(directions)[d] <= largest(direction_widths(directions)));
        lemma_prefix_step(direction_heights(directions), d);
        lemma_prefix_measures(direction_heights(directions), d);
        lemma_prefix_measures(direction_heights(directions), d + 1);
        assert(are_sizes(frame_widths(frames)));
        assert(are_sizes(frame_heights(frames)));
        lemma_prefix_step(frame_widths(frames), f);
        lemma_prefix_measures(frame_widths(frames), f);
        lemma_prefix_measures(frame_widths(frames), f + 1);
        lemma_measures(frame_heights(frames));
        assert(frame_heights(frames)[f] <= largest(frame_heights(frames)));
    }
}

/// Unit range: on a sheet with pixels that is made of a packed sheet, the
/// sizes of frames and all start positions are fractions between zero and
/// one.
pub proof fn lemma_packed_fractions(sheet: internal_sheet::SpriteSheet)
    requires
        is_packed(sheet),
        0 < sheet.width_px,
        0 < sheet.height_px,
    ensures
        sizes_and_starts_in_unit_range(mapped_sheet(sheet)),
{
    let animations = sheet.animations@;
    let mapped = mapped_sheet(sheet);
    lemma_block_sizes(animations);
    assert forall|a: int| 0 <= a < mapped.animations.len() implies {
        let animation = #[trigger] mapped.animations[a];
        &&& animation.start_x_normalized.in_unit_range()
        &&& animation.start_y_normalized.in_unit_range()
        &&& forall|d: int|
            0 <= d < animation.directions.len() ==> {
                let direction = #[trigger] animation.directions[d];
                &&& direction.start_x_normalized.in_unit_range()
                &&& direction.start_y_normalized.in_unit_range()
                &&& forall|f: int|
                    0 <= f < direction.frames.len() ==> {
                        let frame = #[trigger] direction.frames[f];
                        &&& frame.width_normalized.in_unit_range()
                        &&& frame.height_normalized.in_unit_range()
                        &&& frame.start_x_normalized.in_unit_range()
                        &&& frame.start_y_normalized.in_unit_range()
                    }
            }
    } by {
        lemma_packed_block(sheet, a);
        let directions = animations[a].directional_animations@;
        lemma_direction_heights(directions);
        lemma_measures(direction_heights(directions));
        assert forall|d: int| 0 <= d < mapped.animations[a].directions.len() implies {
            let direction = #[trigger] mapped.animations[a].directions[d];
            &&& direction.start_x_normalized.in_unit_range()
            &&& direction.start_y_normalized.in_unit_range()
            &&& forall|f: int|
                0 <= f < direction.frames.len() ==> {
                    let frame = #[trigger] direction.frames[f];
                    &&& frame.width_normalized.in_unit_range()
                    &&& frame.height_normalized.in_unit_range()
                    &&& frame.start_x_normalized.in_unit_range()
                    &&& frame.start_y_normalized.in_unit_range()
                }
        } by {
            let frames = directions[d].frames@;
            lemma_prefix_step(direction_heights(directions), d);
            lemma_prefix_measures(direction_heights(directions), d);
            lemma_prefix_measures(direction_heights(directions), d + 1);
            lemma_measures(direction_widths(directions));
            assert(direction_widths(directions)[d] <= largest(direction_widths(directions)));
            assert(are_sizes(frame_widths(frames)));
            assert(are_sizes(frame_heights(frames)));
            lemma_measures(frame_heights(frames));
            assert forall|f: int| 0 <= f < mapped.animations[a].directions[d].frames.len() implies {
                let frame = #[trigger] mapped.animations[a].directions[d].frames[f];
                &&& frame.width_normalized.in_unit_range()
                &&& frame.height_normalized.in_unit_range()
                &&& frame.start_x_normalized.in_unit_range()
                &&& frame.start_y_normalized.in_unit_range()
            } by {
                lemma_prefix_step(frame_widths(frames), f);
                lemma_prefix_measures(frame_widths(frames), f);
                lemma_prefix_measures(frame_widths(frames), f + 1);
                assert(frame_heights(frames)[f] <= largest(frame_heights(frames)));
            }
        }
    }
}

/// Block `a` of a packed sheet lies inside the sheet.
pub proof fn lemma_packed_block(sheet: internal_sheet::SpriteSheet, a: int)
    requires
        is_packed(sheet),
        0 <= a < sheet.animations@.len(),
    ensures
        sheet.animations@[a].start_x_px == 0,
        sheet.animations@[a].start_y_px == total(block_heights(sheet.animations@).take(a)),
        largest(direction_widths(sheet.animations@[a].directional_animations@)) <= sheet.width_px,
        sheet.animations@[a].start_y_px + total(direction_heights(sheet.animations@[a].directional_animations@))
            <= sheet.height_px,
{
    let animations = sheet.animations@;
    lemma_block_sizes(animations);
    lemma_measures(block_widths(animations));
    assert(block_widths(animations)[a] <= largest(block_widths(animations)));
    lemma_prefix_step(block_heights(animations), a);
    lemma_prefix_measures(block_heights(animations), a + 1);
}

/// Ordering: on a sheet made of a packed sheet in which nothing that another
/// thing follows is empty, frames, directions and animations start strictly
/// further right or down than those before them.
pub proof fn lemma_packed_is_ordered(sheet: internal_sheet::SpriteSheet)
    requires
        is_packed(sheet),
        followed_are_not_empty(sheet),
    ensures
        strictly_ordered(mapped_sheet(sheet)),
{
    let animations = sheet.animations@;
    let mapped = mapped_sheet(sheet);
    lemma_block_sizes(animations);
    lemma_packed_frames_inside(sheet);
    assert forall|a: int, b: int| 0 <= a < b < mapped.animations.len() implies (
    #[trigger] mapped.animations[a]).start_y_px < (#[trigger] mapped.animations[b]).start_y_px by {
        lemma_packed_block(sheet, a);
        lemma_packed_block(sheet, b);
        lemma_prefix_sums_grow(block_heights(animations), a, b);
    }
    assert forall|a: int, d: int, e: int|
        0 <= a < mapped.animations.len() && 0 <= d < e < mapped.animations[a].directions.len() implies (
    #[trigger] mapped.animations[a].directions[d]).start_y_px < (
    #[trigger] mapped.animations[a].directions[e]).start_y_px by {
        lemma_packed_block(sheet, a);
        let directions = animations[a].directional_animations@;
        lemma_direction_heights(directions);
        assert(positive_but_last(direction_heights(directions)));
        lemma_prefix_sums_grow(direction_heights(directions), d, e);
        lemma_prefix_measures(direction_heights(directions), d);
        lemma_prefix_measures(direction_heights(directions), e);
    }
    assert forall|a: int, d: int, f: int, g: int|
        0 <= a < mapped.animations.len() && 0 <= d < mapped.animations[a].directions.len() && 0 <= f < g
            < mapped.animations[a].directions[d].frames.len() implies (
    #[trigger] mapped.animations[a].directions[d].frames[f]).start_x_px < (
    #[trigger] mapped.animations[a].directions[d].frames[g]).start_x_px by {
        lemma_packed_block(sheet, a);
        let directions = animations[a].directional_animations@;
        let frames = directions[d].frames@;
        lemma_direction_heights(directions);
        lemma_measures(direction_widths(directions));
        assert(direction_widths(directions)[d] <= largest(direction_widths(directions)));
        assert(are_sizes(frame_widths(frames)));
        assert(positive_but_last(frame_widths(frames)));
        lemma_prefix_sums_grow(frame_widths(frames), f, g);
        lemma_prefix_measures(frame_widths(frames), f);
        lemma_prefix_measures(frame_widths(frames), g);
    }
}

} // verus!
