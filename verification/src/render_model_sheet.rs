//! Renders the sprite sheet of one model: from the source frames of its
//! animations to the sheet that users read and the PNG image that goes with
//! it.

use vstd::prelude::*;
use crate::error::SheetError;
use crate::internal_sheet;
use crate::layout::{
    are_sizes, canvas_fits, column_pieces, heights, in_a_column, largest, lemma_column_of_pieces,
    lemma_column_pick, lemma_measures, lemma_prefix_measures, lemma_prefix_step, lemma_rendered_shows,
    rendered, shows, total, widths, within, Placed,
};
use crate::make_sheet::{are_placed, blocks_of};
use crate::placement::{
    block_heights, block_widths, frames_inside, is_normalized, is_packed, lemma_mapped_is_normalized,
    lemma_packed_frames_inside, lemma_prefix_sums_grow, positive_but_last, strictly_ordered,
};
use crate::raster::{png_decoding, png_encoding, Image, ImageView};
use crate::render_animation::{
    are_packed_directions, block_fits, block_pieces, by_direction, direction_sources, is_block_of,
    is_strip_frame, kept_heights, kept_widths, lemma_block_pieces_within, lemma_directions_ascend,
    lemma_strip_pieces_within, lemma_strip_shows_frame, lemma_trim_rect_inside, strip_heights,
    strip_pieces, strip_widths, trim_rect, Render,
};
use crate::render_animations::are_rendered;
use crate::save::{
    direction_heights, direction_widths, fraction, frame_heights, frame_widths, mapped_sheet,
};
use crate::sheet::{
    base64_decoding, base64_encoding, AnimationView, DirectionalAnimationView, FrameView, SpriteSheet,
    SpriteSheetView,
};
use crate::sorted_map::{keys_seen, SortedMap};
use crate::source_imgs::{is_sourced, parse_name, ImgToRender};

verus! {

/// A file found under the input root: its name, its path and what it holds.
#[derive(Clone, Debug, PartialEq, Eq)]
pub struct SourceFile {
    pub file_name: String,
    pub path: String,
    pub bytes: Vec<u8>,
}

/// The bytes of every file whose name is that of a frame are a PNG image.
pub open spec fn all_decode(files: Seq<SourceFile>) -> bool {
    forall|i: int|
        0 <= i < files.len() && parse_name((#[trigger] files[i]).file_name@) is Some ==> png_decoding(
            files[i].bytes@,
        ) is Some
}

/// `imgs` are the frames among `files`, in the order of the files: one for
/// each file whose name is that of a frame, with what the name says, the path
/// of the file and the image that the file holds.
pub open spec fn is_loaded(imgs: Seq<(ImgToRender, Image)>, files: Seq<SourceFile>) -> bool
    decreases files.len(),
{
    if files.len() == 0 {
        imgs.len() == 0
    } else {
        match parse_name(files.last().file_name@) {
            None => is_loaded(imgs, files.drop_last()),
            Some((animation, direction, frame)) => {
                &&& imgs.len() > 0
                &&& is_loaded(imgs.drop_last(), files.drop_last())
                &&& imgs.last().0.animation@ == animation
                &&& imgs.last().0.direction == direction
                &&& imgs.last().0.frame == frame
                &&& imgs.last().0.path@ == files.last().path@
                &&& imgs.last().1.wf()
                &&& png_decoding(files.last().bytes@) == Some(imgs.last().1@)
            },
        }
    }
}

/// Picks the frames out of the files of an input tree and decodes their
/// images. A file whose name is not that of a frame is passed over; a frame
/// whose bytes are not a PNG image makes the whole load fail.
pub fn load(files: &Vec<SourceFile>) -> (r: Result<Vec<(ImgToRender, Image)>, SheetError>)
    ensures
        r is Ok <==> all_decode(files@),
        r matches Ok(imgs) ==> is_loaded(imgs@, files@) && forall|i: int|
            0 <= i < imgs.len() ==> (#[trigger] imgs[i]).1.wf(),
        r matches Err(e) ==> e == SheetError::Decode,
{
    let mut imgs: Vec<(ImgToRender, Image)> = Vec::new();
    let mut i: usize = 0;
    proof {
        assert(files@.take(0) =~= Seq::<SourceFile>::empty());
    }
    while i < files.len()
        invariant
            i <= files.len(),
            is_loaded(imgs@, files@.take(i as int)),
            all_decode(files@.take(i as int)),
            forall|t: int| 0 <= t < imgs.len() ==> (#[trigger] imgs[t]).1.wf(),
        decreases files.len() - i,
    {
        let file = &files[i];
        let ghost before = imgs@;
        proof {
            assert(files@.take(i + 1).drop_last() =~= files@.take(i as int));
            assert(files@.take(i + 1).last() == files@[i as int]);
        }
        match ImgToRender::new(file.file_name.as_str(), file.path.as_str()) {
            Some(img) => {
                match Image::from_png(&file.bytes) {
                    Ok(image) => {
                        imgs.push((img, image));
                        proof {
                            assert(imgs@.drop_last() =~= before);
                        }
                    },
                    Err(e) => {
                        return Err(e);
                    },
                }
            },
            None => {},
        }
        proof {
            assert forall|t: int|
                0 <= t < i + 1 && parse_name((#[trigger] files@.take(i + 1)[t]).file_name@) is Some implies png_decoding(
                files@.take(i + 1)[t].bytes@,
            ) is Some by {
                if t < i {
                    assert(files@.take(i as int)[t] == files@.take(i + 1)[t]);
                }
            }
        }
        i += 1;
    }
    proof {
        assert(files@.take(i as int) =~= files@);
    }
    Ok(imgs)
}

/// The source images of a sheet: for each animation, for each of its
/// directions, the images of the frames of that direction.
pub open spec fn sheet_sources(entries: Seq<(String, Vec<(ImgToRender, Image)>)>) -> Seq<Seq<Seq<ImageView>>> {
    Seq::new(entries.len(), |a: int| direction_sources(entries[a].1@))
}

/// The widths of the blocks that rendering makes of the sources of each
/// animation.
pub open spec fn blocks_wide(sources: Seq<Seq<Seq<ImageView>>>) -> Seq<int> {
    Seq::new(sources.len(), |a: int| largest(strip_widths(sources[a])))
}

/// The heights of the blocks that rendering makes of the sources of each
/// animation.
pub open spec fn blocks_tall(sources: Seq<Seq<Seq<ImageView>>>) -> Seq<int> {
    Seq::new(sources.len(), |a: int| total(strip_heights(sources[a])))
}

/// Every strip, every block and the sheet can be held.
pub open spec fn sheet_fits(sources: Seq<Seq<Seq<ImageView>>>) -> bool {
    &&& forall|a: int| 0 <= a < sources.len() ==> block_fits(#[trigger] sources[a])
    &&& canvas_fits(largest(blocks_wide(sources)), total(blocks_tall(sources)))
}

/// What the sheet shows: what each block shows, moved below the blocks
/// before it. For every frame that is the rectangle that trimming keeps of
/// its source, at the place where the frame starts on the sheet.
pub open spec fn sheet_pieces(sources: Seq<Seq<Seq<ImageView>>>) -> Seq<Placed> {
    column_pieces(blocks_tall(sources), Seq::new(sources.len(), |a: int| block_pieces(sources[a])))
}

/// The image of the sheet.
pub open spec fn sheet_image(sources: Seq<Seq<Seq<ImageView>>>) -> ImageView {
    rendered(largest(blocks_wide(sources)), total(blocks_tall(sources)), sheet_pieces(sources))
}

/// Frame `k` of direction `d` of animation `a` as users read it: it records
/// the rectangle that trimming keeps of its source, and it starts to the
/// right of the frames before it in its strip, below the strips before its
/// strip and the blocks before its block.
pub open spec fn expected_frame(
    sources: Seq<Seq<Seq<ImageView>>>,
    a: int,
    d: int,
    k: int,
) -> FrameView {
    let width = largest(blocks_wide(sources)) as u32;
    let height = total(blocks_tall(sources)) as u32;
    let kept = trim_rect(sources[a][d][k]);
    let x = total(kept_widths(sources[a][d]).take(k));
    let y = total(blocks_tall(sources).take(a)) + total(strip_heights(sources[a]).take(d));
    FrameView {
        width_px: kept.width as u32,
        height_px: kept.height as u32,
        width_normalized: fraction(kept.width, width),
        height_normalized: fraction(kept.height, height),
        offset_x_px: kept.x as u32,
        offset_y_px: kept.y as u32,
        offset_x_normalized: fraction(kept.x, width),
        offset_y_normalized: fraction(kept.y, height),
        start_x_px: x as u32,
        start_y_px: y as u32,
        start_x_normalized: fraction(x, width),
        start_y_normalized: fraction(y, height),
    }
}

/// Direction `d` of animation `a` as users read it: its strip starts on the
/// left edge of the sheet, below the strips before it and the blocks before
/// its block.
pub open spec fn expected_direction(
    sources: Seq<Seq<Seq<ImageView>>>,
    directions: Seq<u32>,
    a: int,
    d: int,
) -> DirectionalAnimationView {
    let width = largest(blocks_wide(sources)) as u32;
    let height = total(blocks_tall(sources)) as u32;
    let y = total(blocks_tall(sources).take(a)) + total(strip_heights(sources[a]).take(d));
    DirectionalAnimationView {
        direction: directions[d] as usize,
        frames: Seq::new(sources[a][d].len(), |k: int| expected_frame(sources, a, d, k)),
        start_x_px: 0,
        start_y_px: y as u32,
        start_x_normalized: fraction(0, width),
        start_y_normalized: fraction(y, height),
    }
}

/// Animation `a` as users read it: its block starts on the left edge of the
/// sheet, below the blocks before it.
pub open spec fn expected_animation(
    entries: Seq<(String, Vec<(ImgToRender, Image)>)>,
    a: int,
) -> AnimationView {
    let sources = sheet_sources(entries);
    let width = largest(blocks_wide(sources)) as u32;
    let height = total(blocks_tall(sources)) as u32;
    let directions = keys_seen(by_direction(entries[a].1@));
    let y = total(blocks_tall(sources).take(a));
    AnimationView {
        directions: Seq::new(sources[a].len(), |d: int| expected_direction(sources, directions, a, d)),
        name: entries[a].0@,
        start_x_px: 0,
        start_y_px: y as u32,
        start_x_normalized: fraction(0, width),
        start_y_normalized: fraction(y, height),
    }
}

/// The sheet that users read, made of the frames `entries` and holding the
/// image `image_png_bytes`: one animation for each entry, in order; in each
/// animation one direction for each direction among its frames, in the order
/// in which they first occur; in each direction one frame for each of its
/// frames, in order.
pub open spec fn expected_sheet(
    entries: Seq<(String, Vec<(ImgToRender, Image)>)>,
    image_png_bytes: Seq<u8>,
) -> SpriteSheetView {
    let sources = sheet_sources(entries);
    SpriteSheetView {
        image_png_bytes_b64: base64_encoding(image_png_bytes),
        width_px: largest(blocks_wide(sources)) as u32,
        height_px: total(blocks_tall(sources)) as u32,
        animations: Seq::new(entries.len(), |a: int| expected_animation(entries, a)),
    }
}

/// The directions of a rendered animation measure what their sources
/// measure.
pub proof fn lemma_block_geometry(
    directions: Seq<internal_sheet::DirectionalAnimation>,
    sources: Seq<Seq<ImageView>>,
)
    requires
        are_packed_directions(directions, sources),
    ensures
        direction_widths(directions) == strip_widths(sources),
        direction_heights(directions) == strip_heights(sources),
        forall|d: int|
            0 <= d < directions.len() ==> frame_widths((#[trigger] directions[d]).frames@) == kept_widths(
                sources[d],
            ),
{
    assert forall|d: int| 0 <= d < directions.len() implies frame_widths((#[trigger] directions[d]).frames@)
        == kept_widths(sources[d]) && frame_heights(directions[d].frames@) == kept_heights(sources[d]) by {
        let frames = directions[d].frames@;
        assert forall|f: int| 0 <= f < frames.len() implies frame_widths(frames)[f] == kept_widths(
            sources[d],
        )[f] && frame_heights(frames)[f] == kept_heights(sources[d])[f] by {
            assert(is_strip_frame(frames[f], sources[d], f));
        }
        assert(frame_widths(frames) =~= kept_widths(sources[d]));
        assert(frame_heights(frames) =~= kept_heights(sources[d]));
    }
    assert(direction_widths(directions) =~= strip_widths(sources));
    assert(direction_heights(directions) =~= strip_heights(sources));
}

/// The sheet of the packers, made of rendered animations, is packed, and the
/// sheet that users read of it is the expected one.
pub proof fn lemma_sheet_is_expected(
    sheet: internal_sheet::SpriteSheet,
    renders: Seq<Render>,
    entries: Seq<(String, Vec<(ImgToRender, Image)>)>,
)
    requires
        are_rendered(renders, entries),
        are_placed(sheet.animations@, renders),
        sheet.width_px == largest(widths(blocks_of(renders))),
        sheet.height_px == total(heights(blocks_of(renders))),
    ensures
        widths(blocks_of(renders)) == blocks_wide(sheet_sources(entries)),
        heights(blocks_of(renders)) == blocks_tall(sheet_sources(entries)),
        is_packed(sheet),
        mapped_sheet(sheet) == expected_sheet(entries, sheet.image_png_bytes@),
{
    let sources = sheet_sources(entries);
    let animations = sheet.animations@;
    let blocks = blocks_of(renders);
    assert forall|a: int| 0 <= a < animations.len() implies {
        &&& are_packed_directions((#[trigger] animations[a]).directional_animations@, sources[a])
        &&& blocks[a].width == blocks_wide(sources)[a]
        &&& blocks[a].height == blocks_tall(sources)[a]
        &&& block_widths(animations)[a] == blocks_wide(sources)[a]
        &&& block_heights(animations)[a] == blocks_tall(sources)[a]
    } by {
        assert(is_block_of(renders[a].1@, renders[a].0, entries[a].0@, entries[a].1@));
        assert(animations[a].directional_animations == renders[a].0.directional_animations);
        lemma_block_geometry(animations[a].directional_animations@, sources[a]);
    }
    assert(widths(blocks) =~= blocks_wide(sources));
    assert(heights(blocks) =~= blocks_tall(sources));
    assert(block_widths(animations) =~= blocks_wide(sources));
    assert(block_heights(animations) =~= blocks_tall(sources));
    let mapped = mapped_sheet(sheet);
    let expected = expected_sheet(entries, sheet.image_png_bytes@);
    assert forall|a: int| 0 <= a < animations.len() implies mapped.animations[a] == expected.animations[a] by {
        assert(is_block_of(renders[a].1@, renders[a].0, entries[a].0@, entries[a].1@));
        assert(animations[a].directional_animations == renders[a].0.directional_animations);
        assert(animations[a].name == renders[a].0.name);
        let directions = animations[a].directional_animations@;
        lemma_block_geometry(directions, sources[a]);
        assert(are_packed_directions(directions, sources[a]));
        assert forall|d: int| 0 <= d < directions.len() implies mapped.animations[a].directions[d]
            == expected.animations[a].directions[d] by {
            let frames = directions[d].frames@;
            assert(renders[a].0.directional_animations@[d].direction == keys_seen(
                by_direction(entries[a].1@),
            )[d]);
            assert forall|k: int| 0 <= k < frames.len() implies mapped.animations[a].directions[d].frames[k]
                == expected.animations[a].directions[d].frames[k] by {
                assert(is_strip_frame(frames[k], sources[a][d], k));
            }
            assert(mapped.animations[a].directions[d].frames =~= expected.animations[a].directions[d].frames);
        }
        assert(mapped.animations[a].directions =~= expected.animations[a].directions);
    }
    assert(mapped.animations =~= expected.animations);
}

/// Stacked blocks show what the sheet is expected to show.
pub proof fn lemma_blocks_show_sheet(renders: Seq<Render>, entries: Seq<(String, Vec<(ImgToRender, Image)>)>)
    requires
        are_rendered(renders, entries),
        heights(blocks_of(renders)) == blocks_tall(sheet_sources(entries)),
        widths(blocks_of(renders)) == blocks_wide(sheet_sources(entries)),
    ensures
        rendered(
            largest(blocks_wide(sheet_sources(entries))),
            total(blocks_tall(sheet_sources(entries))),
            in_a_column(blocks_of(renders)),
        ) == sheet_image(sheet_sources(entries)),
{
    let sources = sheet_sources(entries);
    let blocks = blocks_of(renders);
    let parts = Seq::new(sources.len(), |a: int| block_pieces(sources[a]));
    let width = largest(blocks_wide(sources));
    let height = total(blocks_tall(sources));
    let stacked = rendered(width, height, in_a_column(blocks));
    let sheet = sheet_image(sources);
    assert forall|a: int| 0 <= a < blocks.len() implies shows(#[trigger] blocks[a], parts[a]) && within(
        parts[a],
        blocks[a].width as int,
        blocks[a].height as int,
    ) by {
        assert(is_block_of(renders[a].1@, renders[a].0, entries[a].0@, entries[a].1@));
        lemma_block_pieces_within(sources[a]);
        assert(blocks[a].width == widths(blocks)[a]);
        assert(blocks[a].height == heights(blocks)[a]);
    }
    assert forall|k: int| 0 <= k < stacked.samples.len() implies stacked.samples[k] == sheet.samples[k] by {
        lemma_column_of_pieces(blocks, parts, (k / 4) % width, (k / 4) / width);
    }
    assert(stacked.samples =~= sheet.samples);
}

/// The sizes of the blocks of a sheet are never negative, and what each block
/// shows lies inside the block.
pub proof fn lemma_sheet_blocks(sources: Seq<Seq<Seq<ImageView>>>)
    ensures
        are_sizes(blocks_wide(sources)),
        are_sizes(blocks_tall(sources)),
        forall|a: int|
            0 <= a < sources.len() ==> within(
                #[trigger] block_pieces(sources[a]),
                blocks_wide(sources)[a],
                blocks_tall(sources)[a],
            ),
{
    assert forall|a: int| 0 <= a < sources.len() implies 0 <= #[trigger] blocks_wide(sources)[a] by {
        lemma_block_pieces_within(sources[a]);
        lemma_measures(strip_widths(sources[a]));
    }
    assert forall|a: int| 0 <= a < sources.len() implies 0 <= #[trigger] blocks_tall(sources)[a] by {
        lemma_block_pieces_within(sources[a]);
        lemma_measures(strip_heights(sources[a]));
    }
    assert forall|a: int| 0 <= a < sources.len() implies within(
        #[trigger] block_pieces(sources[a]),
        blocks_wide(sources)[a],
        blocks_tall(sources)[a],
    ) by {
        lemma_block_pieces_within(sources[a]);
    }
}

/// Every frame shows on the sheet what trimming keeps of its source: pixel
/// `(i, j)` of the frame, counted from where the frame starts on the sheet,
/// is pixel `(i, j)` of the source, counted from the frame's offset.
pub proof fn lemma_frame_is_shown(sources: Seq<Seq<Seq<ImageView>>>, a: int, d: int, k: int, i: int, j: int)
    requires
        sheet_fits(sources),
        0 <= a < sources.len(),
        0 <= d < sources[a].len(),
        0 <= k < sources[a][d].len(),
        sources[a][d][k].wf(),
        0 <= i < trim_rect(sources[a][d][k]).width,
        0 <= j < trim_rect(sources[a][d][k]).height,
    ensures
        ({
            let frame = expected_frame(sources, a, d, k);
            &&& frame.width_px == trim_rect(sources[a][d][k]).width
            &&& frame.height_px == trim_rect(sources[a][d][k]).height
            &&& sheet_image(sources).contains(frame.start_x_px + i, frame.start_y_px + j)
            &&& sheet_image(sources).pixel(frame.start_x_px + i, frame.start_y_px + j) == sources[a][d][k].pixel(
                frame.offset_x_px + i,
                frame.offset_y_px + j,
            )
        }),
{
    let width = largest(blocks_wide(sources));
    let height = total(blocks_tall(sources));
    let strips = sources[a];
    let frames = strips[d];
    let above_block = total(blocks_tall(sources).take(a));
    let above_strip = total(strip_heights(strips).take(d));
    let left = total(kept_widths(frames).take(k));
    let x = left + i;
    let y = above_block + above_strip + j;
    lemma_sheet_blocks(sources);
    lemma_block_pieces_within(strips);
    lemma_strip_pieces_within(frames);
    lemma_trim_rect_inside(frames[k]);
    // The frame lies inside its strip, the strip inside its block, the block inside the sheet.
    lemma_prefix_step(kept_widths(frames), k);
    lemma_prefix_measures(kept_widths(frames), k);
    lemma_prefix_measures(kept_widths(frames), k + 1);
    lemma_measures(kept_heights(frames));
    assert(kept_heights(frames)[k] <= largest(kept_heights(frames)));
    lemma_measures(strip_widths(strips));
    assert(strip_widths(strips)[d] <= largest(strip_widths(strips)));
    lemma_prefix_step(strip_heights(strips), d);
    lemma_prefix_measures(strip_heights(strips), d);
    lemma_prefix_measures(strip_heights(strips), d + 1);
    lemma_measures(blocks_wide(sources));
    assert(blocks_wide(sources)[a] <= width);
    lemma_prefix_step(blocks_tall(sources), a);
    lemma_prefix_measures(blocks_tall(sources), a);
    lemma_prefix_measures(blocks_tall(sources), a + 1);
    assert(0 <= x < width);
    assert(0 <= y < height);
    lemma_rendered_shows(width, height, sheet_pieces(sources));
    assert(sheet_image(sources).contains(x, y));
    // Down to the block, down to the strip, across to the frame.
    let block_parts = Seq::new(sources.len(), |t: int| block_pieces(sources[t]));
    assert forall|t: int| 0 <= t < block_parts.len() implies within(
        #[trigger] block_parts[t],
        blocks_wide(sources)[t],
        blocks_tall(sources)[t],
    ) by {
        assert(within(block_pieces(sources[t]), blocks_wide(sources)[t], blocks_tall(sources)[t]));
    }
    lemma_column_pick(blocks_wide(sources), blocks_tall(sources), block_parts, a, x, y);
    let strip_parts = Seq::new(strips.len(), |t: int| strip_pieces(strips[t]));
    assert forall|t: int| 0 <= t < strip_parts.len() implies within(
        #[trigger] strip_parts[t],
        strip_widths(strips)[t],
        strip_heights(strips)[t],
    ) by {
        lemma_strip_pieces_within(strips[t]);
    }
    lemma_column_pick(strip_widths(strips), strip_heights(strips), strip_parts, d, x, above_strip + j);
    lemma_strip_shows_frame(frames, k, i, j);
}

/// In the sources nothing that another thing follows is empty: no frame that
/// has a frame to its right keeps an empty rectangle, no strip that has a
/// strip below it is empty, and no block that has a block below it.
pub open spec fn followed_are_not_empty(sources: Seq<Seq<Seq<ImageView>>>) -> bool {
    &&& positive_but_last(blocks_tall(sources))
    &&& forall|a: int| 0 <= a < sources.len() ==> positive_but_last(#[trigger] strip_heights(sources[a]))
    &&& forall|a: int, d: int|
        0 <= a < sources.len() && 0 <= d < sources[a].len() ==> positive_but_last(
            #[trigger] kept_widths(sources[a][d]),
        )
}

/// Ordering: on the sheet of sources in which nothing that another thing
/// follows is empty, frames start strictly further right than the frames
/// before them in their direction, and directions and animations strictly
/// further down than those before them.
pub proof fn lemma_sheet_is_ordered(entries: Seq<(String, Vec<(ImgToRender, Image)>)>, image_png_bytes: Seq<u8>)
    requires
        sheet_fits(sheet_sources(entries)),
        followed_are_not_empty(sheet_sources(entries)),
    ensures
        strictly_ordered(expected_sheet(entries, image_png_bytes)),
{
    let sources = sheet_sources(entries);
    let sheet = expected_sheet(entries, image_png_bytes);
    lemma_sheet_blocks(sources);
    assert forall|a: int, b: int| 0 <= a < b < sheet.animations.len() implies (
    #[trigger] sheet.animations[a]).start_y_px < (#[trigger] sheet.animations[b]).start_y_px by {
        lemma_prefix_sums_grow(blocks_tall(sources), a, b);
        lemma_prefix_measures(blocks_tall(sources), a);
        lemma_prefix_measures(blocks_tall(sources), b);
    }
    assert forall|a: int, d: int, e: int|
        0 <= a < sheet.animations.len() && 0 <= d < e < sheet.animations[a].directions.len() implies (
    #[trigger] sheet.animations[a].directions[d]).start_y_px < (
    #[trigger] sheet.animations[a].directions[e]).start_y_px by {
        let tall = strip_heights(sources[a]);
        lemma_block_pieces_within(sources[a]);
        assert(positive_but_last(tall));
        lemma_prefix_sums_grow(tall, d, e);
        lemma_prefix_measures(tall, d);
        lemma_prefix_measures(tall, e);
        lemma_prefix_step(blocks_tall(sources), a);
        lemma_prefix_measures(blocks_tall(sources), a);
        lemma_prefix_measures(blocks_tall(sources), a + 1);
    }
    assert forall|a: int, d: int, f: int, g: int|
        0 <= a < sheet.animations.len() && 0 <= d < sheet.animations[a].directions.len() && 0 <= f < g
            < sheet.animations[a].directions[d].frames.len() implies (
    #[trigger] sheet.animations[a].directions[d].frames[f]).start_x_px < (
    #[trigger] sheet.animations[a].directions[d].frames[g]).start_x_px by {
        let wide = kept_widths(sources[a][d]);
        lemma_strip_pieces_within(sources[a][d]);
        assert(positive_but_last(wide));
        lemma_prefix_sums_grow(wide, f, g);
        lemma_prefix_measures(wide, f);
        lemma_prefix_measures(wide, g);
        lemma_block_pieces_within(sources[a]);
        lemma_measures(strip_widths(sources[a]));
        assert(strip_widths(sources[a])[d] <= largest(strip_widths(sources[a])));
        lemma_measures(blocks_wide(sources));
        assert(blocks_wide(sources)[a] <= largest(blocks_wide(sources)));
    }
}

/// Directions: on the sheet of frames that were sourced, that is grouped by
/// animation and put in order, the directions of every animation stand in
/// ascending order.
pub proof fn lemma_sheet_directions_ascend(
    entries: Seq<(String, Vec<(ImgToRender, Image)>)>,
    imgs: Seq<(ImgToRender, Image)>,
    image_png_bytes: Seq<u8>,
)
    requires
        is_sourced(entries, imgs),
    ensures
        forall|a: int, d: int, e: int|
            0 <= a < entries.len() && 0 <= d < e < expected_sheet(
                entries,
                image_png_bytes,
            ).animations[a].directions.len() ==> (#[trigger] expected_sheet(
                entries,
                image_png_bytes,
            ).animations[a].directions[d]).direction < (#[trigger] expected_sheet(
                entries,
                image_png_bytes,
            ).animations[a].directions[e]).direction,
{
    let sheet = expected_sheet(entries, image_png_bytes);
    assert forall|a: int, d: int, e: int|
        0 <= a < entries.len() && 0 <= d < e < sheet.animations[a].directions.len() implies (
    #[trigger] sheet.animations[a].directions[d]).direction < (
    #[trigger] sheet.animations[a].directions[e]).direction by {
        let group = entries[a].1@;
        assert forall|i: int, j: int| 0 <= i < group.len() && 0 <= j < group.len() implies (
        #[trigger] group[i]).0.animation@ == (#[trigger] group[j]).0.animation@ by {}
        lemma_directions_ascend(group);
        let directions = keys_seen(by_direction(group));
        assert(directions[d] < directions[e]);
    }
}

/// Renders the sprite sheet of the animations: every animation is rendered
/// into its block, the blocks are stacked into the sheet, the sheet is
/// written as a PNG image, and every position is given on the sheet, in
/// pixels and as a fraction of the sheet. Fails when a strip, a block or the
/// sheet cannot be held, when the sheet has no pixels, or when it cannot be
/// written.
pub fn execute(animations: SortedMap<String, Vec<(ImgToRender, Image)>>) -> (r: Result<
    (SpriteSheet, Vec<u8>),
    SheetError,
>)
    requires
        forall|i: int, j: int|
            0 <= i < animations.entries().len() && 0 <= j < animations.entries()[i].1.len() ==> (
            #[trigger] animations.entries()[i].1[j]).1.wf(),
    ensures
        ({
            let sources = sheet_sources(animations.entries());
            if !sheet_fits(sources) {
                r matches Err(e) && e == SheetError::TooLarge
            } else if largest(blocks_wide(sources)) == 0 || total(blocks_tall(sources)) == 0 {
                r matches Err(e) && e == SheetError::EmptySheet
            } else {
                match png_encoding(sheet_image(sources)) {
                    Some(encoded) => {
                        &&& r matches Ok((sheet, image_png_bytes))
                        &&& image_png_bytes@ == encoded
                        &&& sheet@ == expected_sheet(animations.entries(), encoded)
                        &&& base64_decoding(sheet@.image_png_bytes_b64) == Some(encoded)
                        &&& frames_inside(sheet@)
                        &&& is_normalized(sheet@)
                    },
                    None => r matches Err(e) && e == SheetError::Encode,
                }
            }
        }),
{
    let ghost entries = animations.entries();
    let ghost sources = sheet_sources(entries);
    let rendered_animations = match crate::render_animations::execute(animations) {
        Ok(renders) => renders,
        Err(e) => {
            proof {
                let a = choose|a: int|
                    0 <= a < entries.len() && !block_fits(direction_sources((#[trigger] entries[a]).1@));
                assert(!block_fits(sources[a]));
            }
            return Err(e);
        },
    };
    let ghost renders = rendered_animations@;
    proof {
        assert forall|a: int| 0 <= a < sources.len() implies block_fits(#[trigger] sources[a]) by {
            assert(block_fits(direction_sources(entries[a].1@)));
        }
        assert forall|a: int| 0 <= a < renders.len() implies blocks_of(renders)[a].width == blocks_wide(
            sources,
        )[a] && blocks_of(renders)[a].height == blocks_tall(sources)[a] by {
            assert(is_block_of(renders[a].1@, renders[a].0, entries[a].0@, entries[a].1@));
        }
        assert(widths(blocks_of(renders)) =~= blocks_wide(sources));
        assert(heights(blocks_of(renders)) =~= blocks_tall(sources));
        lemma_blocks_show_sheet(renders, entries);
    }
    let (spritesheet, image_png_bytes) = match crate::make_sheet::execute(rendered_animations) {
        Ok(made) => made,
        Err(e) => {
            return Err(e);
        },
    };
    proof {
        lemma_sheet_is_expected(spritesheet, renders, entries);
        lemma_packed_frames_inside(spritesheet);
        lemma_mapped_is_normalized(spritesheet);
    }
    match crate::save::map_internal_to_external(spritesheet) {
        Ok(sheet) => Ok((sheet, image_png_bytes)),
        Err(e) => Err(e),
    }
}

} // verus!
