//! Turns the source frames of one animation into one block image: every
//! frame is trimmed to its opaque part, the frames of a direction are laid
//! out left to right in a strip, and the strips are stacked top to bottom.

use vstd::prelude::*;
use crate::error::SheetError;
use crate::internal_sheet::{Animation, DirectionalAnimation, Frame};
use crate::layout::{
    are_sizes, canvas_fits, column_pieces, composite, heights, in_a_column, in_a_row,
    join_horizontally, largest, lemma_column_of_pieces, lemma_column_pieces_within, lemma_measures,
    lemma_prefix_measures, lemma_prefix_step, lemma_prefix_sums_ordered, lemma_same_pieces,
    lemma_single_cover, same_piece, shows, stack_vertically, total, views, widths, within, Placed,
};
use crate::raster::{crop, Image, ImageView};
use crate::sorted_map::{group_by_key, keys_seen, lemma_keys_are_items, lemma_values_are_items, values_of};
use crate::source_imgs::{in_order, is_sorted, lemma_text_rank, ImgToRender};

verus! {

/// The smallest and largest column and row that hold an opaque pixel, all
/// four inclusive.
pub struct Bounds {
    pub min_x: int,
    pub max_x: int,
    pub min_y: int,
    pub max_y: int,
}

/// A rectangle of pixels: its top-left corner and its size.
pub struct Rect {
    pub x: int,
    pub y: int,
    pub width: int,
    pub height: int,
}

/// Some pixel of the image is not fully transparent.
pub open spec fn has_opaque(image: ImageView) -> bool {
    exists|x: int, y: int| image.opaque_at(x, y)
}

/// Column `x` holds an opaque pixel.
pub open spec fn column_has_opaque(image: ImageView, x: int) -> bool {
    exists|y: int| image.opaque_at(x, y)
}

/// Row `y` holds an opaque pixel.
pub open spec fn row_has_opaque(image: ImageView, y: int) -> bool {
    exists|x: int| image.opaque_at(x, y)
}

/// `b` is the bounding box of the opaque pixels of `image`: every opaque
/// pixel lies inside it and each of its four sides touches one.
pub open spec fn is_opaque_bounds(image: ImageView, b: Bounds) -> bool {
    &&& column_has_opaque(image, b.min_x)
    &&& column_has_opaque(image, b.max_x)
    &&& row_has_opaque(image, b.min_y)
    &&& row_has_opaque(image, b.max_y)
    &&& forall|x: int, y: int| #[trigger]
        image.opaque_at(x, y) ==> b.min_x <= x <= b.max_x && b.min_y <= y <= b.max_y
}

/// The bounding box of the opaque pixels of `image`, or `None` when the
/// image has no opaque pixel.
pub open spec fn opaque_bounds(image: ImageView) -> Option<Bounds> {
    if exists|b: Bounds| is_opaque_bounds(image, b) {
        Some(choose|b: Bounds| is_opaque_bounds(image, b))
    } else {
        None
    }
}

/// The bounding box grown by one pixel on each side that is not already an
/// edge of the image. Its bounds are inclusive, so it spans
/// `max - min + 1` columns and rows.
pub open spec fn padded(image: ImageView, b: Bounds) -> Rect {
    let left = if b.min_x > 0 {
        b.min_x - 1
    } else {
        b.min_x
    };
    let top = if b.min_y > 0 {
        b.min_y - 1
    } else {
        b.min_y
    };
    let right = if b.max_x < image.width - 1 {
        b.max_x + 1
    } else {
        b.max_x
    };
    let bottom = if b.max_y < image.height - 1 {
        b.max_y + 1
    } else {
        b.max_y
    };
    Rect { x: left, y: top, width: right - left + 1, height: bottom - top + 1 }
}

/// The part of `image` that trimming keeps: the padded bounding box of its
/// opaque pixels. An image without any opaque pixel keeps nothing: the
/// rectangle is empty and lies at the origin.
pub open spec fn trim_rect(image: ImageView) -> Rect {
    match opaque_bounds(image) {
        Some(b) => padded(image, b),
        None => Rect { x: 0, y: 0, width: 0, height: 0 },
    }
}

/// `cut` and `frame` are what trimming makes of `source`: `cut` shows the
/// kept part of `source`, and `frame` records its size and where it lay.
pub open spec fn is_trim_of(source: ImageView, cut: ImageView, frame: Frame) -> bool {
    let kept = trim_rect(source);
    &&& frame.offset_x_px == kept.x
    &&& frame.offset_y_px == kept.y
    &&& frame.width_px == kept.width
    &&& frame.height_px == kept.height
    &&& cut.width == kept.width
    &&& cut.height == kept.height
    &&& cut.is_window_of(source, kept.x, kept.y)
}

/// An image has at most one bounding box of opaque pixels.
pub proof fn lemma_opaque_bounds_unique(image: ImageView, b: Bounds)
    requires
        is_opaque_bounds(image, b),
    ensures
        opaque_bounds(image) == Some(b),
{
    let c = choose|c: Bounds| is_opaque_bounds(image, c);
    let y0 = choose|y: int| image.opaque_at(b.min_x, y);
    assert(image.opaque_at(b.min_x, y0));
    let y1 = choose|y: int| image.opaque_at(b.max_x, y);
    assert(image.opaque_at(b.max_x, y1));
    let x0 = choose|x: int| image.opaque_at(x, b.min_y);
    assert(image.opaque_at(x0, b.min_y));
    let x1 = choose|x: int| image.opaque_at(x, b.max_y);
    assert(image.opaque_at(x1, b.max_y));
    let cy0 = choose|y: int| image.opaque_at(c.min_x, y);
    assert(image.opaque_at(c.min_x, cy0));
    let cy1 = choose|y: int| image.opaque_at(c.max_x, y);
    assert(image.opaque_at(c.max_x, cy1));
    let cx0 = choose|x: int| image.opaque_at(x, c.min_y);
    assert(image.opaque_at(cx0, c.min_y));
    let cx1 = choose|x: int| image.opaque_at(x, c.max_y);
    assert(image.opaque_at(cx1, c.max_y));
}

/// An image without opaque pixels has no bounding box.
pub proof fn lemma_no_opaque_no_bounds(image: ImageView)
    requires
        !has_opaque(image),
    ensures
        opaque_bounds(image) is None,
{
    if exists|b: Bounds| is_opaque_bounds(image, b) {
        let b = choose|b: Bounds| is_opaque_bounds(image, b);
        let y0 = choose|y: int| image.opaque_at(b.min_x, y);
        assert(image.opaque_at(b.min_x, y0));
    }
}

/// The rectangle that trimming keeps lies inside the image.
pub proof fn lemma_trim_rect_inside(image: ImageView)
    ensures
        0 <= trim_rect(image).x,
        0 <= trim_rect(image).y,
        0 <= trim_rect(image).width,
        0 <= trim_rect(image).height,
        trim_rect(image).x + trim_rect(image).width <= image.width,
        trim_rect(image).y + trim_rect(image).height <= image.height,
{
    match opaque_bounds(image) {
        Some(b) => {
            assert(is_opaque_bounds(image, b));
            let y0 = choose|y: int| image.opaque_at(b.min_x, y);
            assert(image.opaque_at(b.min_x, y0));
            let y1 = choose|y: int| image.opaque_at(b.max_x, y);
            assert(image.opaque_at(b.max_x, y1));
            let x0 = choose|x: int| image.opaque_at(x, b.min_y);
            assert(image.opaque_at(x0, b.min_y));
            let x1 = choose|x: int| image.opaque_at(x, b.max_y);
            assert(image.opaque_at(x1, b.max_y));
        },
        None => {},
    }
}

/// Trimming is stable: an image that trimming produced is kept whole when it
/// is trimmed again. Its padding is not taken away, and the kept rectangle is
/// the entire image at offset zero.
pub proof fn lemma_trim_is_stable(source: ImageView, cut: ImageView, frame: Frame)
    requires
        is_trim_of(source, cut, frame),
    ensures
        trim_rect(cut) == (Rect { x: 0, y: 0, width: cut.width as int, height: cut.height as int }),
{
    let kept = trim_rect(source);
    match opaque_bounds(source) {
        None => {
            assert(!has_opaque(cut)) by {
                if has_opaque(cut) {
                    let (x, y) = choose|x: int, y: int| cut.opaque_at(x, y);
                    assert(cut.contains(x, y));
                }
            }
            lemma_no_opaque_no_bounds(cut);
        },
        Some(b) => {
            assert(is_opaque_bounds(source, b));
            let y0 = choose|y: int| source.opaque_at(b.min_x, y);
            assert(source.opaque_at(b.min_x, y0));
            let y1 = choose|y: int| source.opaque_at(b.max_x, y);
            assert(source.opaque_at(b.max_x, y1));
            let x0 = choose|x: int| source.opaque_at(x, b.min_y);
            assert(source.opaque_at(x0, b.min_y));
            let x1 = choose|x: int| source.opaque_at(x, b.max_y);
            assert(source.opaque_at(x1, b.max_y));
            let inner = Bounds {
                min_x: b.min_x - kept.x,
                max_x: b.max_x - kept.x,
                min_y: b.min_y - kept.y,
                max_y: b.max_y - kept.y,
            };
            assert(cut.pixel(inner.min_x, y0 - kept.y) == source.pixel(b.min_x, y0));
            assert(cut.opaque_at(inner.min_x, y0 - kept.y));
            assert(cut.pixel(inner.max_x, y1 - kept.y) == source.pixel(b.max_x, y1));
            assert(cut.opaque_at(inner.max_x, y1 - kept.y));
            assert(cut.pixel(x0 - kept.x, inner.min_y) == source.pixel(x0, b.min_y));
            assert(cut.opaque_at(x0 - kept.x, inner.min_y));
            assert(cut.pixel(x1 - kept.x, inner.max_y) == source.pixel(x1, b.max_y));
            assert(cut.opaque_at(x1 - kept.x, inner.max_y));
            assert forall|x: int, y: int| #[trigger] cut.opaque_at(x, y) implies inner.min_x <= x
                <= inner.max_x && inner.min_y <= y <= inner.max_y by {
                assert(cut.pixel(x, y) == source.pixel(kept.x + x, kept.y + y));
                assert(source.opaque_at(kept.x + x, kept.y + y));
            }
            lemma_opaque_bounds_unique(cut, inner);
        },
    }
}

/// Trims one source frame: finds the bounding box of its opaque pixels, grows
/// it by one pixel on each side where the image allows, and cuts that
/// rectangle out. The frame that comes with the cut-out records the
/// rectangle; its start position is left at the origin for the packer to set.
/// A frame without any opaque pixel gives an empty image and an empty frame
/// at offset zero.
pub fn render_frame(image: &Image) -> (r: (Image, Frame))
    requires
        image.wf(),
    ensures
        r.0.wf(),
        is_trim_of(image@, r.0@, r.1),
        r.1.start_x_px == 0,
        r.1.start_y_px == 0,
{
    let width = image.width();
    let height = image.height();
    let mut found = false;
    let mut new_start_x: u32 = width;
    let mut new_start_y: u32 = height;
    let mut new_end_x: u32 = 0;
    let mut new_end_y: u32 = 0;
    let ghost mut at_start_x: int = 0;
    let ghost mut at_end_x: int = 0;
    let ghost mut at_start_y: int = 0;
    let ghost mut at_end_y: int = 0;

    let mut y: u32 = 0;
    while y < height
        invariant
            image.wf(),
            width == image@.width,
            height == image@.height,
            y <= height,
            forall|i: int, j: int| #[trigger]
                image@.opaque_at(i, j) && j < y ==> found && new_start_x <= i <= new_end_x
                    && new_start_y <= j <= new_end_y,
            found ==> image@.opaque_at(new_start_x as int, at_start_x) && image@.opaque_at(
                new_end_x as int,
                at_end_x,
            ) && image@.opaque_at(at_start_y, new_start_y as int) && image@.opaque_at(
                at_end_y,
                new_end_y as int,
            ),
        decreases height - y,
    {
        let mut x: u32 = 0;
        while x < width
            invariant
                image.wf(),
                width == image@.width,
                height == image@.height,
                y < height,
                x <= width,
                forall|i: int, j: int| #[trigger]
                    image@.opaque_at(i, j) && (j < y || (j == y && i < x)) ==> found && new_start_x
                        <= i <= new_end_x && new_start_y <= j <= new_end_y,
                found ==> image@.opaque_at(new_start_x as int, at_start_x) && image@.opaque_at(
                    new_end_x as int,
                    at_end_x,
                ) && image@.opaque_at(at_start_y, new_start_y as int) && image@.opaque_at(
                    at_end_y,
                    new_end_y as int,
                ),
            decreases width - x,
        {
            // If alpha is not zero, update the coordinates
            if image.alpha_at(x, y) != 0 {
                if !found || x < new_start_x {
                    new_start_x = x;
                    proof {
                        at_start_x = y as int;
                    }
                }
                if !found || y < new_start_y {
                    new_start_y = y;
                    proof {
                        at_start_y = x as int;
                    }
                }
                if !found || x > new_end_x {
                    new_end_x = x;
                    proof {
                        at_end_x = y as int;
                    }
                }
                if !found || y > new_end_y {
                    new_end_y = y;
                    proof {
                        at_end_y = x as int;
                    }
                }
                found = true;
            }
            x += 1;
        }
        y += 1;
    }

    if !found {
        proof {
            lemma_no_opaque_no_bounds(image@);
        }
        let cut = crop(image, 0, 0, 0, 0);
        let frame = Frame { height_px: 0, width_px: 0, offset_x_px: 0, offset_y_px: 0, start_x_px: 0, start_y_px: 0 };
        return (cut, frame);
    }
    proof {
        let b = Bounds {
            min_x: new_start_x as int,
            max_x: new_end_x as int,
            min_y: new_start_y as int,
            max_y: new_end_y as int,
        };
        assert(is_opaque_bounds(image@, b));
        lemma_opaque_bounds_unique(image@, b);
    }

    // Add a 1px buffer to prevent jitter
    if new_start_x > 0 {
        new_start_x -= 1;
    }
    if new_start_y > 0 {
        new_start_y -= 1;
    }
    if new_end_x < width - 1 {
        new_end_x += 1;
    }
    if new_end_y < height - 1 {
        new_end_y += 1;
    }

    // Crop img
    let width_px = new_end_x - new_start_x + 1;
    let height_px = new_end_y - new_start_y + 1;

    let cut = crop(image, new_start_x, new_start_y, width_px, height_px);

    // Keep track of the new offsets
    let offset_x_px = new_start_x;
    let offset_y_px = new_start_y;

    let frame = Frame { height_px, width_px, offset_x_px, offset_y_px, start_x_px: 0, start_y_px: 0 };

    (cut, frame)
}

/// The widths of the rectangles that trimming keeps of `sources`, in order.
pub open spec fn kept_widths(sources: Seq<ImageView>) -> Seq<int> {
    Seq::new(sources.len(), |i: int| trim_rect(sources[i]).width)
}

/// The heights of the rectangles that trimming keeps of `sources`, in order.
pub open spec fn kept_heights(sources: Seq<ImageView>) -> Seq<int> {
    Seq::new(sources.len(), |i: int| trim_rect(sources[i]).height)
}

/// `frame` is the frame of the `i`-th of `sources` in their strip: it records
/// what trimming keeps of that source, and it starts where the frames before
/// it end, on the top edge of the strip.
pub open spec fn is_strip_frame(frame: Frame, sources: Seq<ImageView>, i: int) -> bool {
    let kept = trim_rect(sources[i]);
    &&& frame.offset_x_px == kept.x
    &&& frame.offset_y_px == kept.y
    &&& frame.width_px == kept.width
    &&& frame.height_px == kept.height
    &&& frame.start_x_px == total(kept_widths(sources).take(i))
    &&& frame.start_y_px == 0
}

/// What the strip of `sources` shows: of each source the rectangle that
/// trimming keeps, to the right of the rectangles before it, on the top edge
/// of the strip.
pub open spec fn strip_pieces(sources: Seq<ImageView>) -> Seq<Placed> {
    Seq::new(
        sources.len(),
        |i: int|
            Placed {
                source: sources[i],
                source_x: trim_rect(sources[i]).x,
                source_y: trim_rect(sources[i]).y,
                width: trim_rect(sources[i]).width,
                height: trim_rect(sources[i]).height,
                x: total(kept_widths(sources).take(i)),
                y: 0,
            },
    )
}

/// `strip` and `frames` are what packing one direction makes of `sources`:
/// one frame per source, left to right, and a strip as wide as all kept
/// rectangles together and as tall as the tallest, which shows each kept
/// rectangle at its frame's start and is transparent elsewhere.
pub open spec fn is_strip_of(strip: ImageView, frames: Seq<Frame>, sources: Seq<ImageView>) -> bool {
    &&& frames.len() == sources.len()
    &&& forall|i: int| 0 <= i < frames.len() ==> is_strip_frame(#[trigger] frames[i], sources, i)
    &&& strip.width == total(kept_widths(sources))
    &&& strip.height == largest(kept_heights(sources))
    &&& shows(strip, strip_pieces(sources))
}

/// Packs the frames of one direction: trims every source frame and lays the
/// trimmed frames out left to right in one strip, top edges aligned. Fails
/// when the strip cannot be held.
pub fn render_frames(frames_to_render: &Vec<Image>) -> (r: Result<(Image, Vec<Frame>), SheetError>)
    requires
        forall|i: int| 0 <= i < frames_to_render.len() ==> (#[trigger] frames_to_render[i]).wf(),
    ensures
        r is Ok <==> canvas_fits(
            total(kept_widths(views(frames_to_render@))),
            largest(kept_heights(views(frames_to_render@))),
        ),
        r matches Ok((strip, frames)) ==> strip.wf() && is_strip_of(strip@, frames@, views(frames_to_render@)),
        r matches Err(e) ==> e == SheetError::TooLarge,
{
    let ghost sources = views(frames_to_render@);
    let mut frames: Vec<Frame> = Vec::new();
    let mut frame_renders: Vec<Image> = Vec::new();
    let mut width_px: u32 = 0;

    proof {
        assert(kept_widths(sources).take(0) == Seq::<int>::empty());
        assert forall|i: int| 0 <= i < kept_widths(sources).len() implies 0 <= #[trigger] kept_widths(
            sources,
        )[i] by {
            lemma_trim_rect_inside(sources[i]);
        }
    }
    // Process each frame
    let mut k: usize = 0;
    while k < frames_to_render.len()
        invariant
            k <= frames_to_render.len(),
            sources == views(frames_to_render@),
            forall|i: int| 0 <= i < frames_to_render.len() ==> (#[trigger] frames_to_render[i]).wf(),
            are_sizes(kept_widths(sources)),
            frames.len() == k,
            frame_renders.len() == k,
            width_px == total(kept_widths(sources).take(k as int)),
            forall|i: int| 0 <= i < k ==> is_strip_frame(#[trigger] frames[i], sources, i),
            forall|i: int|
                0 <= i < k ==> (#[trigger] frame_renders[i]).wf() && is_trim_of(
                    sources[i],
                    frame_renders[i]@,
                    frames[i],
                ),
        decreases frames_to_render.len() - k,
    {
        let (img, mut frame) = render_frame(&frames_to_render[k]);

        // Update the start positions for the frame
        frame.start_x_px = width_px;
        frame.start_y_px = 0;

        proof {
            lemma_prefix_step(kept_widths(sources), k as int);
            lemma_prefix_measures(kept_widths(sources), k as int + 1);
        }
        // Increase final image width
        match width_px.checked_add(img.width()) {
            Some(next) => {
                width_px = next;
            },
            None => {
                return Err(SheetError::TooLarge);
            },
        }

        // Add to collections
        frames.push(frame);
        frame_renders.push(img);
        k += 1;
    }

    proof {
        assert(widths(views(frame_renders@)) == kept_widths(sources));
        assert(heights(views(frame_renders@)) == kept_heights(sources));
    }
    // Join up images
    match join_horizontally(&frame_renders) {
        Ok(strip) => {
            proof {
                let cuts = in_a_row(views(frame_renders@));
                let parts = strip_pieces(sources);
                assert forall|i: int| 0 <= i < cuts.len() implies same_piece(#[trigger] cuts[i], parts[i]) by {
                    assert(is_strip_frame(frames[i], sources, i));
                    assert(is_trim_of(sources[i], frame_renders[i]@, frames[i]));
                    assert forall|x: int, y: int| #[trigger] cuts[i].covers(x, y) implies cuts[i].pixel(x, y)
                        == parts[i].pixel(x, y) by {
                        assert(frame_renders[i]@.contains(x - cuts[i].x, y - cuts[i].y));
                    }
                }
                assert forall|x: int, y: int| strip@.contains(x, y) implies #[trigger] strip@.pixel(x, y)
                    == composite(parts, x, y) by {
                    lemma_same_pieces(cuts, parts, x, y);
                }
            }
            Ok((strip, frames))
        },
        Err(e) => Err(e),
    }
}

/// The strip images of the rendered directions, in order.
pub open spec fn strips_of(renders: Seq<(DirectionalAnimation, Image)>) -> Seq<ImageView> {
    Seq::new(renders.len(), |i: int| renders[i].1@)
}

/// `animation` is the animation called `name` whose directions are those of
/// `renders`, in order, each moved to where its strip starts in the block:
/// on the left edge, below the strips before it.
pub open spec fn is_joined(
    animation: Animation,
    name: Seq<char>,
    renders: Seq<(DirectionalAnimation, Image)>,
) -> bool {
    &&& animation.name@ == name
    &&& animation.start_x_px == 0
    &&& animation.start_y_px == 0
    &&& animation.directional_animations@.len() == renders.len()
    &&& forall|i: int|
        0 <= i < renders.len() ==> {
            let joined = #[trigger] animation.directional_animations@[i];
            &&& joined.direction == renders[i].0.direction
            &&& joined.frames == renders[i].0.frames
            &&& joined.start_x_px == 0
            &&& joined.start_y_px == total(heights(strips_of(renders)).take(i))
        }
}

/// Joins the strips of an animation's directions into one block: the strips
/// are stacked top to bottom in the given order, left edges aligned, and each
/// direction is told where its strip starts. The block is as wide as the
/// widest strip and as tall as all strips together. Fails when the block
/// cannot be held.
pub fn join_directional_renders(
    animation: String,
    directional_renders: Vec<(DirectionalAnimation, Image)>,
) -> (r: Result<(Animation, Image), SheetError>)
    requires
        forall|i: int| 0 <= i < directional_renders.len() ==> (#[trigger] directional_renders[i]).1.wf(),
    ensures
        r is Ok <==> canvas_fits(
            largest(widths(strips_of(directional_renders@))),
            total(heights(strips_of(directional_renders@))),
        ),
        r matches Ok((joined, block)) ==> {
            &&& block.wf()
            &&& is_joined(joined, animation@, directional_renders@)
            &&& block@.width == largest(widths(strips_of(directional_renders@)))
            &&& block@.height == total(heights(strips_of(directional_renders@)))
            &&& shows(block@, in_a_column(strips_of(directional_renders@)))
        },
        r matches Err(e) ==> e == SheetError::TooLarge,
{
    let ghost renders = directional_renders@;
    let ghost tall = heights(strips_of(renders));
    let mut remaining = directional_renders;
    let mut directions: Vec<DirectionalAnimation> = Vec::new();
    let mut strips: Vec<Image> = Vec::new();

    let offset_x_px: u32 = 0;
    let mut offset_y_px: u32 = 0;
    proof {
        assert(tall.take(0) == Seq::<int>::empty());
    }
    while remaining.len() > 0
        invariant
            directions.len() == strips.len(),
            renders == directional_renders@,
            directions.len() + remaining.len() == renders.len(),
            remaining@ == renders.skip(directions.len() as int),
            tall == heights(strips_of(renders)),
            offset_x_px == 0,
            offset_y_px == total(tall.take(directions.len() as int)),
            forall|i: int| 0 <= i < renders.len() ==> (#[trigger] renders[i]).1.wf(),
            forall|i: int| 0 <= i < strips.len() ==> #[trigger] strips[i] == renders[i].1,
            forall|i: int|
                0 <= i < directions.len() ==> {
                    let joined = #[trigger] directions@[i];
                    &&& joined.direction == renders[i].0.direction
                    &&& joined.frames == renders[i].0.frames
                    &&& joined.start_x_px == 0
                    &&& joined.start_y_px == total(tall.take(i))
                },
        decreases remaining.len(),
    {
        let ghost k = directions.len() as int;
        let (mut dir_animation, img) = remaining.remove(0);
        proof {
            assert(renders.skip(k)[0] == renders[k]);
            assert(renders.skip(k).remove(0) == renders.skip(k + 1));
            assert(tall[k] == img@.height);
            lemma_prefix_step(tall, k);
            assert(are_sizes(tall));
            lemma_prefix_measures(tall, k + 1);
        }

        // Update offsets on animation
        dir_animation.start_x_px = offset_x_px;
        dir_animation.start_y_px = offset_y_px;

        // Increment offsets
        match offset_y_px.checked_add(img.height()) {
            Some(next) => {
                offset_y_px = next;
            },
            None => {
                return Err(SheetError::TooLarge);
            },
        }

        // Add to final animation
        directions.push(dir_animation);
        strips.push(img);
    }

    proof {
        assert(views(strips@) == strips_of(renders));
    }
    match stack_vertically(&strips) {
        Ok(block) => {
            let final_animation = Animation {
                start_x_px: 0,
                start_y_px: 0,
                name: animation,
                directional_animations: directions,
            };
            Ok((final_animation, block))
        },
        Err(e) => Err(e),
    }
}

/// An animation with the image of its block.
pub type Render = (Animation, Image);

/// The images of the frames, each under the direction of its frame.
pub open spec fn by_direction(imgs: Seq<(ImgToRender, Image)>) -> Seq<(u32, Image)> {
    Seq::new(imgs.len(), |i: int| (imgs[i].0.direction, imgs[i].1))
}

/// The source images of the frames by direction: one sequence for each
/// direction, in the order in which the directions first occur, with the
/// images of that direction in the order in which they occur.
pub open spec fn direction_sources(imgs: Seq<(ImgToRender, Image)>) -> Seq<Seq<ImageView>> {
    let directions = keys_seen(by_direction(imgs));
    Seq::new(directions.len(), |i: int| views(values_of(by_direction(imgs), directions[i])))
}

/// The widths of the strips that packing makes of each sequence of sources.
pub open spec fn strip_widths(sources: Seq<Seq<ImageView>>) -> Seq<int> {
    Seq::new(sources.len(), |i: int| total(kept_widths(sources[i])))
}

/// The heights of the strips that packing makes of each sequence of sources.
pub open spec fn strip_heights(sources: Seq<Seq<ImageView>>) -> Seq<int> {
    Seq::new(sources.len(), |i: int| largest(kept_heights(sources[i])))
}

/// Every strip and the block made of the strips can be held.
pub open spec fn block_fits(sources: Seq<Seq<ImageView>>) -> bool {
    &&& forall|i: int|
        0 <= i < sources.len() ==> canvas_fits(#[trigger] strip_widths(sources)[i], strip_heights(sources)[i])
    &&& canvas_fits(largest(strip_widths(sources)), total(strip_heights(sources)))
}

/// What the block of the directions `sources` shows: what each strip shows,
/// moved below the strips before it.
pub open spec fn block_pieces(sources: Seq<Seq<ImageView>>) -> Seq<Placed> {
    column_pieces(strip_heights(sources), Seq::new(sources.len(), |i: int| strip_pieces(sources[i])))
}

/// `directions` are the packed directions of `sources`: direction `i` holds
/// one frame for each of `sources[i]`, laid out as the frames of a strip,
/// and its strip starts on the left edge of the block below the strips
/// before it.
pub open spec fn are_packed_directions(
    directions: Seq<DirectionalAnimation>,
    sources: Seq<Seq<ImageView>>,
) -> bool {
    &&& directions.len() == sources.len()
    &&& forall|i: int|
        0 <= i < directions.len() ==> {
            let direction = #[trigger] directions[i];
            &&& direction.start_x_px == 0
            &&& direction.start_y_px == total(strip_heights(sources).take(i))
            &&& direction.frames@.len() == sources[i].len()
            &&& forall|f: int|
                0 <= f < direction.frames@.len() ==> is_strip_frame(#[trigger] direction.frames@[f], sources[i], f)
        }
}

/// `block` and `animation` are what rendering makes of the frames `imgs` of
/// the animation called `name`: one direction for each direction among the
/// frames, in the order in which they first occur, each packed into a strip;
/// and a block as wide as the widest strip and as tall as all strips
/// together, which shows, for every frame, what trimming keeps of its source
/// at the place that the direction and the frame record, and is transparent
/// elsewhere.
pub open spec fn is_block_of(
    block: ImageView,
    animation: Animation,
    name: Seq<char>,
    imgs: Seq<(ImgToRender, Image)>,
) -> bool {
    let sources = direction_sources(imgs);
    let directions = animation.directional_animations@;
    &&& animation.name@ == name
    &&& animation.start_x_px == 0
    &&& animation.start_y_px == 0
    &&& are_packed_directions(directions, sources)
    &&& forall|i: int|
        0 <= i < directions.len() ==> (#[trigger] directions[i]).direction == keys_seen(by_direction(imgs))[i]
    &&& block.width == largest(strip_widths(sources))
    &&& block.height == total(strip_heights(sources))
    &&& shows(block, block_pieces(sources))
}

/// What a strip shows lies inside the strip.
pub proof fn lemma_strip_pieces_within(sources: Seq<ImageView>)
    ensures
        are_sizes(kept_widths(sources)),
        are_sizes(kept_heights(sources)),
        within(strip_pieces(sources), total(kept_widths(sources)), largest(kept_heights(sources))),
{
    let wide = kept_widths(sources);
    let tall = kept_heights(sources);
    assert forall|i: int| 0 <= i < sources.len() implies 0 <= #[trigger] wide[i] by {
        lemma_trim_rect_inside(sources[i]);
    }
    assert forall|i: int| 0 <= i < sources.len() implies 0 <= #[trigger] tall[i] by {
        lemma_trim_rect_inside(sources[i]);
    }
    lemma_measures(tall);
    assert forall|f: int| 0 <= f < sources.len() implies {
        let piece = #[trigger] strip_pieces(sources)[f];
        &&& 0 <= piece.x
        &&& piece.x + piece.width <= total(wide)
        &&& 0 <= piece.y
        &&& piece.y + piece.height <= largest(tall)
    } by {
        lemma_prefix_step(wide, f);
        lemma_prefix_measures(wide, f);
        lemma_prefix_measures(wide, f + 1);
        assert(tall[f] <= largest(tall));
    }
}

/// Inside the rectangle of frame `k` a strip shows what trimming keeps of
/// source `k`.
pub proof fn lemma_strip_shows_frame(sources: Seq<ImageView>, k: int, i: int, j: int)
    requires
        0 <= k < sources.len(),
        0 <= i < trim_rect(sources[k]).width,
        0 <= j < trim_rect(sources[k]).height,
    ensures
        composite(strip_pieces(sources), total(kept_widths(sources).take(k)) + i, j) == sources[k].pixel(
            trim_rect(sources[k]).x + i,
            trim_rect(sources[k]).y + j,
        ),
{
    let wide = kept_widths(sources);
    let pieces = strip_pieces(sources);
    let x = total(wide.take(k)) + i;
    lemma_strip_pieces_within(sources);
    lemma_prefix_step(wide, k);
    assert(pieces[k].covers(x, j));
    assert forall|m: int| 0 <= m < pieces.len() && m != k implies !(#[trigger] pieces[m]).covers(x, j) by {
        lemma_prefix_step(wide, m);
        if m < k {
            lemma_prefix_sums_ordered(wide, m + 1, k);
        } else {
            lemma_prefix_sums_ordered(wide, k + 1, m);
        }
    }
    lemma_single_cover(pieces, k, x, j);
}

/// What a block shows lies inside the block.
pub proof fn lemma_block_pieces_within(sources: Seq<Seq<ImageView>>)
    ensures
        are_sizes(strip_widths(sources)),
        are_sizes(strip_heights(sources)),
        within(block_pieces(sources), largest(strip_widths(sources)), total(strip_heights(sources))),
{
    let parts = Seq::new(sources.len(), |i: int| strip_pieces(sources[i]));
    assert forall|i: int| 0 <= i < sources.len() implies 0 <= #[trigger] strip_widths(sources)[i] by {
        lemma_strip_pieces_within(sources[i]);
        lemma_measures(kept_widths(sources[i]));
    }
    assert forall|i: int| 0 <= i < sources.len() implies 0 <= #[trigger] strip_heights(sources)[i] by {
        lemma_strip_pieces_within(sources[i]);
        lemma_measures(kept_heights(sources[i]));
    }
    assert forall|i: int| 0 <= i < sources.len() implies within(
        #[trigger] parts[i],
        strip_widths(sources)[i],
        strip_heights(sources)[i],
    ) by {
        lemma_strip_pieces_within(sources[i]);
    }
    lemma_column_pieces_within(strip_widths(sources), strip_heights(sources), parts);
}

/// Among frames of one animation that are in order, the directions first
/// occur in ascending order.
pub proof fn lemma_directions_ascend(imgs: Seq<(ImgToRender, Image)>)
    requires
        is_sorted(imgs),
        forall|i: int, j: int|
            0 <= i < imgs.len() && 0 <= j < imgs.len() ==> (#[trigger] imgs[i]).0.animation@ == (
            #[trigger] imgs[j]).0.animation@,
    ensures
        forall|d: int, e: int|
            0 <= d < e < keys_seen(by_direction(imgs)).len() ==> #[trigger] keys_seen(by_direction(imgs))[d]
                < #[trigger] keys_seen(by_direction(imgs))[e],
    decreases imgs.len(),
{
    if imgs.len() > 0 {
        let keyed = by_direction(imgs);
        let fewer = imgs.drop_last();
        let before = keys_seen(by_direction(fewer));
        let last = imgs.last().0.direction;
        assert(keyed.drop_last() =~= by_direction(fewer));
        assert(is_sorted(fewer)) by {
            assert forall|i: int, j: int| 0 <= i < j < fewer.len() implies in_order(
                #[trigger] fewer[i].0,
                #[trigger] fewer[j].0,
            ) by {
                assert(in_order(imgs[i].0, imgs[j].0));
            }
        }
        assert forall|i: int, j: int| 0 <= i < fewer.len() && 0 <= j < fewer.len() implies (
        #[trigger] fewer[i]).0.animation@ == (#[trigger] fewer[j]).0.animation@ by {
            assert(imgs[i].0.animation@ == imgs[j].0.animation@);
        }
        lemma_directions_ascend(fewer);
        assert forall|d: int| 0 <= d < before.len() implies #[trigger] before[d] <= last by {
            lemma_keys_are_items(by_direction(fewer), d);
            let i = choose|i: int|
                0 <= i < by_direction(fewer).len() && (#[trigger] by_direction(fewer)[i]).0@ == before[d];
            assert(in_order(imgs[i].0, imgs[imgs.len() - 1].0));
            assert(imgs[i].0.animation@ == imgs[imgs.len() - 1].0.animation@);
            lemma_text_rank(imgs[i].0.animation@, imgs[imgs.len() - 1].0.animation@);
        }
        if !before.contains(last) {
            assert forall|d: int| 0 <= d < before.len() implies #[trigger] before[d] < last by {
                assert(before[d] <= last);
                if before[d] == last {
                    assert(before.contains(last));
                }
            }
        }
    }
}

/// Renders one animation: groups its frames by direction, packs the frames of
/// each direction into a strip and joins the strips into one block. Fails
/// when a strip or the block cannot be held.
pub fn execute(animation: String, imgs: Vec<(ImgToRender, Image)>) -> (r: Result<Render, SheetError>)
    requires
        forall|i: int| 0 <= i < imgs.len() ==> (#[trigger] imgs[i]).1.wf(),
    ensures
        r is Ok <==> block_fits(direction_sources(imgs@)),
        r matches Ok((joined, block)) ==> block.wf() && is_block_of(block@, joined, animation@, imgs@),
        r matches Err(e) ==> e == SheetError::TooLarge,
{
    let ghost keyed = by_direction(imgs@);
    let ghost sources = direction_sources(imgs@);

    // Group directions
    let mut rest = imgs;
    let mut by_key: Vec<(u32, Image)> = Vec::new();
    while rest.len() > 0
        invariant
            by_key.len() + rest.len() == imgs.len(),
            rest@ == imgs@.skip(by_key.len() as int),
            by_key@ == by_direction(imgs@).take(by_key.len() as int),
        decreases rest.len(),
    {
        let ghost k = by_key.len() as int;
        let img = rest.remove(0);
        proof {
            assert(imgs@.skip(k)[0] == imgs@[k]);
            assert(imgs@.skip(k).remove(0) =~= imgs@.skip(k + 1));
        }
        by_key.push((img.0.direction, img.1));
        proof {
            assert(by_key@ =~= by_direction(imgs@).take(k + 1));
        }
    }
    proof {
        assert(by_key@ =~= keyed);
    }
    let directions = group_by_key(by_key);

    // Render each direction
    let groups = directions.iter();
    let mut directional_renders: Vec<(DirectionalAnimation, Image)> = Vec::new();
    let mut i: usize = 0;
    while i < groups.len()
        invariant
            i <= groups@.len(),
            keyed == by_direction(imgs@),
            sources == direction_sources(imgs@),
            forall|t: int| 0 <= t < imgs.len() ==> (#[trigger] imgs[t]).1.wf(),
            crate::sorted_map::is_grouping(groups@, keyed),
            directional_renders.len() == i,
            forall|t: int|
                0 <= t < i ==> {
                    let render = #[trigger] directional_renders[t];
                    &&& render.1.wf()
                    &&& render.0.direction == keys_seen(keyed)[t]
                    &&& render.0.start_x_px == 0
                    &&& render.0.start_y_px == 0
                    &&& is_strip_of(render.1@, render.0.frames@, sources[t])
                    &&& canvas_fits(strip_widths(sources)[t], strip_heights(sources)[t])
                },
        decreases groups@.len() - i,
    {
        let direction = groups[i].0;
        let frames_to_render = &groups[i].1;
        proof {
            assert(groups@[i as int].1@ == values_of(keyed, keys_seen(keyed)[i as int]));
            assert(views(frames_to_render@) == sources[i as int]);
            assert forall|t: int| 0 <= t < frames_to_render.len() implies (#[trigger] frames_to_render[t]).wf() by {
                lemma_values_are_items(keyed, keys_seen(keyed)[i as int], t);
            }
        }
        match render_frames(frames_to_render) {
            Ok((img, frames)) => {
                let ghost before = directional_renders@;
                let direction = DirectionalAnimation { start_x_px: 0, start_y_px: 0, direction, frames };
                directional_renders.push((direction, img));
                proof {
                    assert(canvas_fits(strip_widths(sources)[i as int], strip_heights(sources)[i as int]));
                    assert forall|t: int| 0 <= t < i implies directional_renders[t] == before[t] by {}
                }
            },
            Err(e) => {
                proof {
                    assert(!canvas_fits(strip_widths(sources)[i as int], strip_heights(sources)[i as int]));
                }
                return Err(e);
            },
        }
        i += 1;
    }

    proof {
        assert(widths(strips_of(directional_renders@)) =~= strip_widths(sources)) by {
            assert forall|t: int| 0 <= t < sources.len() implies widths(strips_of(directional_renders@))[t]
                == strip_widths(sources)[t] by {
                assert(is_strip_of(directional_renders[t].1@, directional_renders[t].0.frames@, sources[t]));
            }
        }
        assert(heights(strips_of(directional_renders@)) =~= strip_heights(sources)) by {
            assert forall|t: int| 0 <= t < sources.len() implies heights(strips_of(directional_renders@))[t]
                == strip_heights(sources)[t] by {
                assert(is_strip_of(directional_renders[t].1@, directional_renders[t].0.frames@, sources[t]));
            }
        }
    }
    let ghost renders = directional_renders@;
    // Join and return a single animation + render
    match join_directional_renders(animation, directional_renders) {
        Ok((joined, block)) => {
            proof {
                let strips = strips_of(renders);
                let packed = joined.directional_animations@;
                let parts = Seq::new(strips.len(), |t: int| strip_pieces(sources[t]));
                assert forall|t: int| 0 <= t < packed.len() implies {
                    let direction = #[trigger] packed[t];
                    &&& direction.start_x_px == 0
                    &&& direction.start_y_px == total(strip_heights(sources).take(t))
                    &&& direction.frames@.len() == sources[t].len()
                    &&& forall|f: int|
                        0 <= f < direction.frames@.len() ==> is_strip_frame(
                            #[trigger] direction.frames@[f],
                            sources[t],
                            f,
                        )
                    &&& direction.direction == keys_seen(keyed)[t]
                } by {
                    assert(is_strip_of(renders[t].1@, renders[t].0.frames@, sources[t]));
                    assert(packed[t].frames == renders[t].0.frames);
                }
                assert forall|t: int| 0 <= t < strips.len() implies shows(#[trigger] strips[t], parts[t])
                    && within(parts[t], strips[t].width as int, strips[t].height as int) by {
                    assert(is_strip_of(renders[t].1@, renders[t].0.frames@, sources[t]));
                    lemma_strip_pieces_within(sources[t]);
                }
                assert forall|x: int, y: int| block@.contains(x, y) implies #[trigger] block@.pixel(x, y)
                    == composite(block_pieces(sources), x, y) by {
                    lemma_column_of_pieces(strips, parts, x, y);
                }
            }
            Ok((joined, block))
        },
        Err(e) => Err(e),
    }
}

} // verus!
