//! Laying images out side by side or one below the other on a fresh,
//! transparent canvas, and the model that says what such a canvas shows.

use vstd::prelude::*;
use vstd::arithmetic::div_mod::{
    lemma_fundamental_div_mod, lemma_fundamental_div_mod_converse_div,
    lemma_fundamental_div_mod_converse_mod, lemma_multiply_divide_lt,
};
use crate::error::SheetError;
use crate::raster::{blank, paste, transparent, Image, ImageView, Rgba};

verus! {

/// A rectangular part of a source image together with the place on a canvas
/// where that part is shown.
pub struct Placed {
    pub source: ImageView,
    /// Top-left corner of the part within `source`.
    pub source_x: int,
    pub source_y: int,
    pub width: int,
    pub height: int,
    /// Top-left corner of the part on the canvas.
    pub x: int,
    pub y: int,
}

impl Placed {
    /// The part lies over pixel `(x, y)` of the canvas.
    pub open spec fn covers(self, x: int, y: int) -> bool {
        self.x <= x < self.x + self.width && self.y <= y < self.y + self.height
    }

    /// What the part shows at pixel `(x, y)` of the canvas.
    pub open spec fn pixel(self, x: int, y: int) -> Rgba {
        self.source.pixel(self.source_x + (x - self.x), self.source_y + (y - self.y))
    }

    /// The whole of `image`, shown with its top-left corner at `(x, y)`.
    pub open spec fn whole(image: ImageView, x: int, y: int) -> Placed {
        Placed {
            source: image,
            source_x: 0,
            source_y: 0,
            width: image.width as int,
            height: image.height as int,
            x,
            y,
        }
    }
}

/// The pixel that a transparent canvas shows at `(x, y)` after the pieces
/// were pasted onto it one after the other: that of the last piece lying over
/// the place, or a transparent one where no piece lies.
pub open spec fn composite(pieces: Seq<Placed>, x: int, y: int) -> Rgba
    decreases pieces.len(),
{
    if pieces.len() == 0 {
        transparent()
    } else if pieces.last().covers(x, y) {
        pieces.last().pixel(x, y)
    } else {
        composite(pieces.drop_last(), x, y)
    }
}

/// Every pixel of `canvas` is the one that pasting `pieces` gives.
pub open spec fn shows(canvas: ImageView, pieces: Seq<Placed>) -> bool {
    forall|x: int, y: int| canvas.contains(x, y) ==> #[trigger] canvas.pixel(x, y) == composite(pieces, x, y)
}

/// One of the four samples of a pixel: red, green, blue, alpha.
pub open spec fn sample(pixel: Rgba, channel: int) -> u8 {
    if channel == 0 {
        pixel.r
    } else if channel == 1 {
        pixel.g
    } else if channel == 2 {
        pixel.b
    } else {
        pixel.a
    }
}

/// The image of the given size that a transparent canvas becomes when the
/// pieces are pasted onto it one after the other.
pub open spec fn rendered(width: int, height: int, pieces: Seq<Placed>) -> ImageView {
    ImageView {
        width: width as nat,
        height: height as nat,
        samples: Seq::new(
            (4 * width * height) as nat,
            |k: int| sample(composite(pieces, (k / 4) % width, (k / 4) / width), k % 4),
        ),
    }
}

/// Sample `channel` of pixel `(x, y)` has one index, and that index leads
/// back to the pixel and the channel.
pub proof fn lemma_sample_index(width: int, x: int, y: int, channel: int)
    requires
        0 <= x < width,
        0 <= y,
        0 <= channel < 4,
    ensures
        ({
            let k = 4 * (y * width + x) + channel;
            &&& k / 4 == y * width + x
            &&& k % 4 == channel
            &&& (k / 4) % width == x
            &&& (k / 4) / width == y
        }),
{
    let p = y * width + x;
    let k = 4 * p + channel;
    assert(k == p * 4 + channel) by (nonlinear_arith)
        requires
            k == 4 * p + channel,
    ;
    lemma_fundamental_div_mod_converse_div(k, 4, p, channel);
    lemma_fundamental_div_mod_converse_mod(k, 4, p, channel);
    lemma_fundamental_div_mod_converse_div(p, width, y, x);
    lemma_fundamental_div_mod_converse_mod(p, width, y, x);
}

/// The rendered image is well formed and shows its pieces.
pub proof fn lemma_rendered_shows(width: int, height: int, pieces: Seq<Placed>)
    requires
        0 <= width <= u32::MAX,
        0 <= height <= u32::MAX,
    ensures
        rendered(width, height, pieces).wf(),
        shows(rendered(width, height, pieces), pieces),
{
    let image = rendered(width, height, pieces);
    assert(0 <= 4 * width * height) by (nonlinear_arith)
        requires
            0 <= width,
            0 <= height,
    ;
    assert forall|x: int, y: int| image.contains(x, y) implies #[trigger] image.pixel(x, y) == composite(
        pieces,
        x,
        y,
    ) by {
        crate::raster::lemma_offset_in_bounds(image, x, y);
        lemma_sample_index(width, x, y, 0);
        lemma_sample_index(width, x, y, 1);
        lemma_sample_index(width, x, y, 2);
        lemma_sample_index(width, x, y, 3);
    }
}

/// Only one image of a given size shows given pieces: the rendered one.
pub proof fn lemma_shows_is_rendered(canvas: ImageView, pieces: Seq<Placed>)
    requires
        canvas.wf(),
        shows(canvas, pieces),
    ensures
        canvas == rendered(canvas.width as int, canvas.height as int, pieces),
{
    let width = canvas.width as int;
    let height = canvas.height as int;
    let image = rendered(width, height, pieces);
    assert(0 <= 4 * width * height) by (nonlinear_arith)
        requires
            0 <= width,
            0 <= height,
    ;
    assert forall|k: int| 0 <= k < canvas.samples.len() implies canvas.samples[k] == image.samples[k] by {
        assert(width > 0) by (nonlinear_arith)
            requires
                0 <= k < 4 * width * height,
                0 <= width,
        ;
        let p = k / 4;
        let channel = k % 4;
        let x = p % width;
        let y = p / width;
        lemma_fundamental_div_mod(k, 4);
        lemma_fundamental_div_mod(p, width);
        assert(p < width * height) by (nonlinear_arith)
            requires
                k < 4 * width * height,
                k == 4 * p + channel,
                0 <= channel,
        ;
        lemma_multiply_divide_lt(p, width, height);
        assert(0 <= p);
        vstd::arithmetic::div_mod::lemma_div_pos_is_pos(p, width);
        vstd::arithmetic::div_mod::lemma_mod_bound(p, width);
        assert(p == y * width + x) by (nonlinear_arith)
            requires
                p == width * y + x,
        ;
        assert(canvas.contains(x, y));
        assert(canvas.pixel(x, y) == composite(pieces, x, y));
        assert(k == canvas.offset(x, y) + channel);
    }
    assert(canvas.samples =~= image.samples);
}

/// Two pieces lie over the same pixels of the canvas and show the same there.
pub open spec fn same_piece(p: Placed, q: Placed) -> bool {
    &&& p.x == q.x
    &&& p.y == q.y
    &&& p.width == q.width
    &&& p.height == q.height
    &&& forall|x: int, y: int| #[trigger] p.covers(x, y) ==> p.pixel(x, y) == q.pixel(x, y)
}

/// Pieces that show the same, one by one, give the same picture.
pub proof fn lemma_same_pieces(p: Seq<Placed>, q: Seq<Placed>, x: int, y: int)
    requires
        p.len() == q.len(),
        forall|i: int| 0 <= i < p.len() ==> same_piece(#[trigger] p[i], q[i]),
    ensures
        composite(p, x, y) == composite(q, x, y),
    decreases p.len(),
{
    if p.len() > 0 {
        assert(same_piece(p[p.len() - 1], q[p.len() - 1]));
        assert(p.last().covers(x, y) == q.last().covers(x, y));
        if !p.last().covers(x, y) {
            assert forall|i: int| 0 <= i < p.drop_last().len() implies same_piece(
                #[trigger] p.drop_last()[i],
                q.drop_last()[i],
            ) by {
                assert(same_piece(p[i], q[i]));
            }
            lemma_same_pieces(p.drop_last(), q.drop_last(), x, y);
        }
    }
}

/// The models of a sequence of images.
pub open spec fn views(images: Seq<Image>) -> Seq<ImageView> {
    Seq::new(images.len(), |i: int| images[i]@)
}

/// Sum of `sizes`.
pub open spec fn total(sizes: Seq<int>) -> int
    decreases sizes.len(),
{
    if sizes.len() == 0 {
        0
    } else {
        total(sizes.drop_last()) + sizes.last()
    }
}

/// Largest of `sizes`, zero when there is none.
pub open spec fn largest(sizes: Seq<int>) -> int
    decreases sizes.len(),
{
    if sizes.len() == 0 {
        0
    } else if sizes.last() > largest(sizes.drop_last()) {
        sizes.last()
    } else {
        largest(sizes.drop_last())
    }
}

/// No size is negative.
pub open spec fn are_sizes(sizes: Seq<int>) -> bool {
    forall|i: int| 0 <= i < sizes.len() ==> 0 <= #[trigger] sizes[i]
}

/// The widths of `images`, in order.
pub open spec fn widths(images: Seq<ImageView>) -> Seq<int> {
    Seq::new(images.len(), |i: int| images[i].width as int)
}

/// The heights of `images`, in order.
pub open spec fn heights(images: Seq<ImageView>) -> Seq<int> {
    Seq::new(images.len(), |i: int| images[i].height as int)
}

/// The images side by side from the left, each with its top edge on the top
/// edge of the canvas.
pub open spec fn in_a_row(images: Seq<ImageView>) -> Seq<Placed> {
    Seq::new(images.len(), |i: int| Placed::whole(images[i], total(widths(images).take(i)), 0))
}

/// The images one below the other from the top, each with its left edge on
/// the left edge of the canvas.
pub open spec fn in_a_column(images: Seq<ImageView>) -> Seq<Placed> {
    Seq::new(images.len(), |i: int| Placed::whole(images[i], 0, total(heights(images).take(i))))
}

/// A canvas of this size can be held in memory and its sides can be counted
/// in `u32`.
pub open spec fn canvas_fits(width: int, height: int) -> bool {
    &&& width <= u32::MAX
    &&& height <= u32::MAX
    &&& 4 * width <= usize::MAX
    &&& 4 * width * height <= usize::MAX
}

/// Neither the sum nor the largest of sizes is negative, and no size exceeds
/// the largest.
pub proof fn lemma_measures(sizes: Seq<int>)
    requires
        are_sizes(sizes),
    ensures
        0 <= total(sizes),
        0 <= largest(sizes),
        forall|i: int| 0 <= i < sizes.len() ==> #[trigger] sizes[i] <= largest(sizes),
    decreases sizes.len(),
{
    if sizes.len() > 0 {
        lemma_measures(sizes.drop_last());
        assert forall|i: int| 0 <= i < sizes.len() implies #[trigger] sizes[i] <= largest(sizes) by {
            if i < sizes.len() - 1 {
                assert(sizes.drop_last()[i] == sizes[i]);
            }
        }
    }
}

/// The sum and the largest over a prefix never exceed those over the whole.
pub proof fn lemma_prefix_measures(sizes: Seq<int>, k: int)
    requires
        are_sizes(sizes),
        0 <= k <= sizes.len(),
    ensures
        0 <= total(sizes.take(k)) <= total(sizes),
        0 <= largest(sizes.take(k)) <= largest(sizes),
    decreases sizes.len() - k,
{
    if k == sizes.len() {
        assert(sizes.take(k) == sizes);
        lemma_measures(sizes);
    } else {
        lemma_prefix_measures(sizes, k + 1);
        assert(sizes.take(k + 1).drop_last() == sizes.take(k));
        lemma_measures(sizes.take(k));
    }
}

/// Taking one more size into a prefix adds it to the sum and may raise the
/// largest.
pub proof fn lemma_prefix_step(sizes: Seq<int>, k: int)
    requires
        0 <= k < sizes.len(),
    ensures
        total(sizes.take(k + 1)) == total(sizes.take(k)) + sizes[k],
        largest(sizes.take(k + 1)) == if sizes[k] > largest(sizes.take(k)) {
            sizes[k]
        } else {
            largest(sizes.take(k))
        },
{
    assert(sizes.take(k + 1).drop_last() == sizes.take(k));
    assert(sizes.take(k + 1).last() == sizes[k]);
}

/// Some piece lies over pixel `(x, y)` of the canvas.
pub open spec fn covered_by(pieces: Seq<Placed>, x: int, y: int) -> bool {
    exists|i: int| 0 <= i < pieces.len() && (#[trigger] pieces[i]).covers(x, y)
}

/// The piece shown `dx` pixels further right and `dy` pixels further down.
pub open spec fn moved(piece: Placed, dx: int, dy: int) -> Placed {
    Placed { x: piece.x + dx, y: piece.y + dy, ..piece }
}

/// All pieces shown `dx` pixels further right and `dy` pixels further down.
pub open spec fn moved_all(pieces: Seq<Placed>, dx: int, dy: int) -> Seq<Placed> {
    Seq::new(pieces.len(), |i: int| moved(pieces[i], dx, dy))
}

/// Every piece lies inside a canvas of the given size.
pub open spec fn within(pieces: Seq<Placed>, width: int, height: int) -> bool {
    forall|i: int|
        0 <= i < pieces.len() ==> {
            let piece = #[trigger] pieces[i];
            &&& 0 <= piece.x
            &&& piece.x + piece.width <= width
            &&& 0 <= piece.y
            &&& piece.y + piece.height <= height
        }
}

/// The pieces of a column of images, each moved to where its image stands in
/// the column: image `i` is `tall[i]` pixels tall and shows `parts[i]`.
pub open spec fn column_pieces(tall: Seq<int>, parts: Seq<Seq<Placed>>) -> Seq<Placed>
    decreases parts.len(),
{
    if parts.len() == 0 {
        Seq::empty()
    } else {
        column_pieces(tall.drop_last(), parts.drop_last()) + moved_all(parts.last(), 0, total(tall.drop_last()))
    }
}

/// Where no piece lies the canvas is transparent.
pub proof fn lemma_uncovered(pieces: Seq<Placed>, x: int, y: int)
    requires
        !covered_by(pieces, x, y),
    ensures
        composite(pieces, x, y) == transparent(),
    decreases pieces.len(),
{
    if pieces.len() > 0 {
        assert(!pieces[pieces.len() - 1].covers(x, y));
        assert forall|i: int| 0 <= i < pieces.drop_last().len() implies !(#[trigger] pieces.drop_last()[i]).covers(
            x,
            y,
        ) by {
            assert(!pieces[i].covers(x, y));
        }
        lemma_uncovered(pieces.drop_last(), x, y);
    }
}

/// Where exactly one piece lies, the canvas shows that piece.
pub proof fn lemma_single_cover(pieces: Seq<Placed>, k: int, x: int, y: int)
    requires
        0 <= k < pieces.len(),
        pieces[k].covers(x, y),
        forall|m: int| 0 <= m < pieces.len() && m != k ==> !(#[trigger] pieces[m]).covers(x, y),
    ensures
        composite(pieces, x, y) == pieces[k].pixel(x, y),
    decreases pieces.len(),
{
    if k < pieces.len() - 1 {
        assert(!pieces[pieces.len() - 1].covers(x, y));
        assert forall|m: int| 0 <= m < pieces.drop_last().len() && m != k implies !(
        #[trigger] pieces.drop_last()[m]).covers(x, y) by {
            assert(!pieces[m].covers(x, y));
        }
        lemma_single_cover(pieces.drop_last(), k, x, y);
    }
}

/// The sum over a shorter prefix never exceeds the sum over a longer one.
pub proof fn lemma_prefix_sums_ordered(sizes: Seq<int>, m: int, k: int)
    requires
        are_sizes(sizes),
        0 <= m <= k <= sizes.len(),
    ensures
        0 <= total(sizes.take(m)) <= total(sizes.take(k)),
{
    assert(sizes.take(k).take(m) =~= sizes.take(m));
    assert(are_sizes(sizes.take(k))) by {
        assert forall|i: int| 0 <= i < sizes.take(k).len() implies 0 <= #[trigger] sizes.take(k)[i] by {
            assert(sizes.take(k)[i] == sizes[i]);
        }
    }
    lemma_prefix_measures(sizes.take(k), m);
}

/// Of two runs of pieces pasted one after the other, the later run decides
/// wherever one of its pieces lies, and the earlier run elsewhere.
pub proof fn lemma_composite_of_runs(earlier: Seq<Placed>, later: Seq<Placed>, x: int, y: int)
    ensures
        composite(earlier + later, x, y) == if covered_by(later, x, y) {
            composite(later, x, y)
        } else {
            composite(earlier, x, y)
        },
    decreases later.len(),
{
    if later.len() == 0 {
        assert(earlier + later =~= earlier);
    } else {
        let all = earlier + later;
        assert(all.last() == later.last());
        assert(all.drop_last() =~= earlier + later.drop_last());
        lemma_composite_of_runs(earlier, later.drop_last(), x, y);
        if later.last().covers(x, y) {
            assert(later[later.len() - 1].covers(x, y));
        } else {
            if covered_by(later, x, y) {
                let i = choose|i: int| 0 <= i < later.len() && (#[trigger] later[i]).covers(x, y);
                assert(later.drop_last()[i].covers(x, y));
            }
            if covered_by(later.drop_last(), x, y) {
                let i = choose|i: int|
                    0 <= i < later.drop_last().len() && (#[trigger] later.drop_last()[i]).covers(x, y);
                assert(later[i].covers(x, y));
            }
        }
    }
}

/// Moving all pieces moves the picture with them.
pub proof fn lemma_composite_moved(pieces: Seq<Placed>, dx: int, dy: int, x: int, y: int)
    ensures
        composite(moved_all(pieces, dx, dy), x, y) == composite(pieces, x - dx, y - dy),
    decreases pieces.len(),
{
    if pieces.len() > 0 {
        assert(moved_all(pieces, dx, dy).drop_last() =~= moved_all(pieces.drop_last(), dx, dy));
        lemma_composite_moved(pieces.drop_last(), dx, dy, x, y);
    }
}

/// The pieces of a column lie inside the column.
pub proof fn lemma_column_pieces_within(wide: Seq<int>, tall: Seq<int>, parts: Seq<Seq<Placed>>)
    requires
        wide.len() == parts.len(),
        tall.len() == parts.len(),
        are_sizes(wide),
        are_sizes(tall),
        forall|i: int| 0 <= i < parts.len() ==> within(#[trigger] parts[i], wide[i], tall[i]),
    ensures
        within(column_pieces(tall, parts), largest(wide), total(tall)),
    decreases parts.len(),
{
    if parts.len() > 0 {
        let n = parts.len() - 1;
        let above = total(tall.drop_last());
        let earlier = column_pieces(tall.drop_last(), parts.drop_last());
        let later = moved_all(parts[n], 0, above);
        assert forall|i: int| 0 <= i < n implies within(
            #[trigger] parts.drop_last()[i],
            wide.drop_last()[i],
            tall.drop_last()[i],
        ) by {
            assert(within(parts[i], wide[i], tall[i]));
        }
        lemma_column_pieces_within(wide.drop_last(), tall.drop_last(), parts.drop_last());
        lemma_measures(tall.drop_last());
        assert(within(parts[n], wide[n], tall[n]));
        assert forall|i: int| 0 <= i < column_pieces(tall, parts).len() implies {
            let piece = #[trigger] column_pieces(tall, parts)[i];
            &&& 0 <= piece.x
            &&& piece.x + piece.width <= largest(wide)
            &&& 0 <= piece.y
            &&& piece.y + piece.height <= total(tall)
        } by {
            if i < earlier.len() {
                assert(column_pieces(tall, parts)[i] == earlier[i]);
            } else {
                assert(column_pieces(tall, parts)[i] == later[i - earlier.len()]);
                assert(later[i - earlier.len()] == moved(parts[n][i - earlier.len()], 0, above));
            }
        }
    }
}

/// Inside the rows of image `a` a column shows what image `a` shows.
pub proof fn lemma_column_pick(
    wide: Seq<int>,
    tall: Seq<int>,
    parts: Seq<Seq<Placed>>,
    a: int,
    x: int,
    y: int,
)
    requires
        wide.len() == parts.len(),
        tall.len() == parts.len(),
        are_sizes(wide),
        are_sizes(tall),
        forall|i: int| 0 <= i < parts.len() ==> within(#[trigger] parts[i], wide[i], tall[i]),
        0 <= a < parts.len(),
        total(tall.take(a)) <= y < total(tall.take(a)) + tall[a],
    ensures
        composite(column_pieces(tall, parts), x, y) == composite(parts[a], x, y - total(tall.take(a))),
    decreases parts.len(),
{
    let n = parts.len() - 1;
    let above = total(tall.drop_last());
    let earlier = column_pieces(tall.drop_last(), parts.drop_last());
    let later = moved_all(parts[n], 0, above);
    assert forall|i: int| 0 <= i < n implies within(
        #[trigger] parts.drop_last()[i],
        wide.drop_last()[i],
        tall.drop_last()[i],
    ) by {
        assert(within(parts[i], wide[i], tall[i]));
    }
    lemma_column_pieces_within(wide.drop_last(), tall.drop_last(), parts.drop_last());
    lemma_composite_of_runs(earlier, later, x, y);
    lemma_composite_moved(parts[n], 0, above, x, y);
    assert(tall.take(n) =~= tall.drop_last());
    assert(within(parts[n], wide[n], tall[n]));
    if a == n {
        if !covered_by(later, x, y) {
            lemma_uncovered(later, x, y);
            if covered_by(earlier, x, y) {
                let i = choose|i: int| 0 <= i < earlier.len() && (#[trigger] earlier[i]).covers(x, y);
            }
            lemma_uncovered(earlier, x, y);
        }
    } else {
        lemma_prefix_step(tall, a);
        lemma_prefix_measures(tall.drop_last(), a + 1);
        assert(tall.drop_last().take(a + 1) =~= tall.take(a + 1));
        assert(tall.drop_last().take(a) =~= tall.take(a));
        if covered_by(later, x, y) {
            let i = choose|i: int| 0 <= i < later.len() && (#[trigger] later[i]).covers(x, y);
            assert(later[i] == moved(parts[n][i], 0, above));
        }
        lemma_column_pick(wide.drop_last(), tall.drop_last(), parts.drop_last(), a, x, y);
    }
}

/// A column of images, each of which shows pieces of its own, shows all those
/// pieces, each moved to where its image stands in the column.
pub proof fn lemma_column_of_pieces(images: Seq<ImageView>, parts: Seq<Seq<Placed>>, x: int, y: int)
    requires
        images.len() == parts.len(),
        forall|i: int|
            0 <= i < images.len() ==> shows(#[trigger] images[i], parts[i]) && within(
                parts[i],
                images[i].width as int,
                images[i].height as int,
            ),
    ensures
        composite(in_a_column(images), x, y) == composite(column_pieces(heights(images), parts), x, y),
    decreases images.len(),
{
    if images.len() > 0 {
        let n = images.len() - 1;
        let tall = heights(images);
        let wide = widths(images);
        let above = total(tall.drop_last());
        let earlier = column_pieces(tall.drop_last(), parts.drop_last());
        let later = moved_all(parts[n], 0, above);
        let outer = in_a_column(images);
        assert(tall.take(n) =~= tall.drop_last());
        assert(tall.drop_last() =~= heights(images.drop_last()));
        assert(wide.drop_last() =~= widths(images.drop_last()));
        assert(outer.last() == Placed::whole(images[n], 0, above));
        assert(outer.drop_last() =~= in_a_column(images.drop_last())) by {
            assert forall|i: int| 0 <= i < n implies outer.drop_last()[i] == in_a_column(images.drop_last())[i] by {
                assert(heights(images).take(i) =~= heights(images.drop_last()).take(i));
            }
        }
        assert forall|i: int| 0 <= i < n implies shows(
            #[trigger] images.drop_last()[i],
            parts.drop_last()[i],
        ) && within(
            parts.drop_last()[i],
            images.drop_last()[i].width as int,
            images.drop_last()[i].height as int,
        ) by {
            assert(shows(images[i], parts[i]));
        }
        lemma_column_of_pieces(images.drop_last(), parts.drop_last(), x, y);
        assert forall|i: int| 0 <= i < n implies within(
            #[trigger] parts.drop_last()[i],
            wide.drop_last()[i],
            tall.drop_last()[i],
        ) by {
            assert(shows(images[i], parts[i]));
        }
        lemma_column_pieces_within(wide.drop_last(), tall.drop_last(), parts.drop_last());
        lemma_composite_of_runs(earlier, later, x, y);
        lemma_composite_moved(parts[n], 0, above, x, y);
        assert(shows(images[n], parts[n]) && within(parts[n], images[n].width as int, images[n].height as int));
        if covered_by(later, x, y) {
            let i = choose|i: int| 0 <= i < later.len() && (#[trigger] later[i]).covers(x, y);
            assert(later[i] == moved(parts[n][i], 0, above));
            assert(outer.last().covers(x, y));
            assert(images[n].contains(x, y - above));
        } else if outer.last().covers(x, y) {
            assert(images[n].contains(x, y - above));
            lemma_uncovered(later, x, y);
            if covered_by(earlier, x, y) {
                let i = choose|i: int| 0 <= i < earlier.len() && (#[trigger] earlier[i]).covers(x, y);
            }
            lemma_uncovered(earlier, x, y);
        }
    }
}

/// Width and height of the canvas that holds `images` side by side
/// (`across`) or one below the other.
fn measure(images: &Vec<Image>, across: bool) -> (size: Option<(u32, u32)>)
    ensures
        match size {
            Some((along, beside)) => if across {
                along == total(widths(views(images@))) && beside == largest(heights(views(images@)))
            } else {
                along == total(heights(views(images@))) && beside == largest(widths(views(images@)))
            },
            None => if across {
                total(widths(views(images@))) > u32::MAX
            } else {
                total(heights(views(images@))) > u32::MAX
            },
        },
{
    let ghost steps = if across {
        widths(views(images@))
    } else {
        heights(views(images@))
    };
    let ghost sides = if across {
        heights(views(images@))
    } else {
        widths(views(images@))
    };
    let mut along: u32 = 0;
    let mut beside: u32 = 0;
    let mut k: usize = 0;
    proof {
        assert(steps.take(0) == Seq::<int>::empty());
        assert(sides.take(0) == Seq::<int>::empty());
    }
    while k < images.len()
        invariant
            k <= images.len(),
            steps == if across {
                widths(views(images@))
            } else {
                heights(views(images@))
            },
            sides == if across {
                heights(views(images@))
            } else {
                widths(views(images@))
            },
            along == total(steps.take(k as int)),
            beside == largest(sides.take(k as int)),
        decreases images.len() - k,
    {
        let (step, side) = if across {
            (images[k].width(), images[k].height())
        } else {
            (images[k].height(), images[k].width())
        };
        proof {
            lemma_prefix_step(steps, k as int);
            lemma_prefix_step(sides, k as int);
            lemma_prefix_measures(steps, k as int + 1);
        }
        match along.checked_add(step) {
            Some(next) => {
                along = next;
            },
            None => {
                return None;
            },
        }
        if side > beside {
            beside = side;
        }
        k += 1;
    }
    proof {
        assert(steps.take(k as int) == steps);
        assert(sides.take(k as int) == sides);
    }
    Some((along, beside))
}

/// Tells whether a canvas of the given size can be allocated.
fn fits(width: u32, height: u32) -> (ok: bool)
    ensures
        ok == canvas_fits(width as int, height as int),
{
    let row: u128 = 4u128 * (width as u128);
    assert(row * (height as u128) <= 0x4_0000_0000 * 0x1_0000_0000) by (nonlinear_arith)
        requires
            row <= 0x4_0000_0000,
            height <= 0x1_0000_0000,
    ;
    let samples: u128 = row * (height as u128);
    assert(samples == 4 * width * height) by (nonlinear_arith)
        requires
            samples == (4 * width) * height,
    ;
    row <= usize::MAX as u128 && samples <= usize::MAX as u128
}

/// Pastes the images onto a fresh canvas of the given size, side by side
/// (`across`) or one below the other.
fn lay_out(images: &Vec<Image>, across: bool, width: u32, height: u32) -> (canvas: Image)
    requires
        forall|i: int| 0 <= i < images.len() ==> (#[trigger] images[i]).wf(),
        canvas_fits(width as int, height as int),
        across ==> width == total(widths(views(images@))) && height == largest(heights(views(images@))),
        !across ==> height == total(heights(views(images@))) && width == largest(widths(views(images@))),
    ensures
        canvas.wf(),
        canvas@.width == width,
        canvas@.height == height,
        across ==> shows(canvas@, in_a_row(views(images@))),
        !across ==> shows(canvas@, in_a_column(views(images@))),
{
    let ghost all = views(images@);
    let ghost pieces = if across {
        in_a_row(all)
    } else {
        in_a_column(all)
    };
    let ghost steps = if across {
        widths(all)
    } else {
        heights(all)
    };
    let ghost sides = if across {
        heights(all)
    } else {
        widths(all)
    };
    let mut canvas = blank(width, height);
    let mut at: u32 = 0;
    let mut k: usize = 0;
    proof {
        assert(steps.take(0) == Seq::<int>::empty());
        assert(pieces.take(0) == Seq::<Placed>::empty());
        assert forall|x: int, y: int| canvas@.contains(x, y) implies #[trigger] canvas@.pixel(x, y)
            == composite(pieces.take(0), x, y) by {
            crate::raster::lemma_offset_in_bounds(canvas@, x, y);
        }
    }
    while k < images.len()
        invariant
            k <= images.len(),
            all == views(images@),
            pieces == if across {
                in_a_row(all)
            } else {
                in_a_column(all)
            },
            forall|i: int| 0 <= i < images.len() ==> (#[trigger] images[i]).wf(),
            canvas.wf(),
            canvas@.width == width,
            canvas@.height == height,
            steps == if across {
                widths(all)
            } else {
                heights(all)
            },
            sides == if across {
                heights(all)
            } else {
                widths(all)
            },
            across ==> width == total(steps) && height == largest(sides),
            !across ==> height == total(steps) && width == largest(sides),
            at == total(steps.take(k as int)),
            shows(canvas@, pieces.take(k as int)),
        decreases images.len() - k,
    {
        let piece = &images[k];
        proof {
            lemma_prefix_step(steps, k as int);
            lemma_prefix_measures(steps, k as int + 1);
            lemma_measures(sides);
            assert(all[k as int] == piece@);
            assert(sides[k as int] <= largest(sides));
        }
        let ghost before = canvas@;
        if across {
            paste(&mut canvas, piece, at, 0);
            at = at + piece.width();
        } else {
            paste(&mut canvas, piece, 0, at);
            at = at + piece.height();
        }
        proof {
            let placed = pieces[k as int];
            assert(pieces.take(k as int + 1).drop_last() == pieces.take(k as int));
            assert(pieces.take(k as int + 1).last() == placed);
            assert forall|x: int, y: int| canvas@.contains(x, y) implies #[trigger] canvas@.pixel(
                x,
                y,
            ) == composite(pieces.take(k as int + 1), x, y) by {
                if placed.covers(x, y) {
                    assert(piece@.contains(x - placed.x, y - placed.y));
                    assert(piece@.pixel(x - placed.x, y - placed.y) == canvas@.pixel(
                        placed.x + (x - placed.x),
                        placed.y + (y - placed.y),
                    ));
                } else {
                    assert(!piece@.contains(x - placed.x, y - placed.y));
                    assert(before.contains(x, y));
                    assert(canvas@.pixel(x, y) == before.pixel(x, y));
                }
            }
        }
        k += 1;
    }
    proof {
        assert(pieces.take(k as int) == pieces);
    }
    canvas
}

/// Lays the images out left to right on a transparent canvas, top edges
/// aligned. The canvas is as wide as all images together and as tall as the
/// tallest. Fails when such a canvas cannot be held.
pub fn join_horizontally(images: &Vec<Image>) -> (r: Result<Image, SheetError>)
    requires
        forall|i: int| 0 <= i < images.len() ==> (#[trigger] images[i]).wf(),
    ensures
        r is Ok <==> canvas_fits(total(widths(views(images@))), largest(heights(views(images@)))),
        r matches Ok(canvas) ==> {
            &&& canvas.wf()
            &&& canvas@.width == total(widths(views(images@)))
            &&& canvas@.height == largest(heights(views(images@)))
            &&& shows(canvas@, in_a_row(views(images@)))
        },
        r matches Err(e) ==> e == SheetError::TooLarge,
{
    match measure(images, true) {
        Some((width, height)) => {
            if fits(width, height) {
                Ok(lay_out(images, true, width, height))
            } else {
                Err(SheetError::TooLarge)
            }
        },
        None => Err(SheetError::TooLarge),
    }
}

/// Stacks the images top to bottom on a transparent canvas, left edges
/// aligned. The canvas is as wide as the widest image and as tall as all
/// images together. Fails when such a canvas cannot be held.
pub fn stack_vertically(images: &Vec<Image>) -> (r: Result<Image, SheetError>)
    requires
        forall|i: int| 0 <= i < images.len() ==> (#[trigger] images[i]).wf(),
    ensures
        r is Ok <==> canvas_fits(largest(widths(views(images@))), total(heights(views(images@)))),
        r matches Ok(canvas) ==> {
            &&& canvas.wf()
            &&& canvas@.width == largest(widths(views(images@)))
            &&& canvas@.height == total(heights(views(images@)))
            &&& shows(canvas@, in_a_column(views(images@)))
        },
        r matches Err(e) ==> e == SheetError::TooLarge,
{
    match measure(images, false) {
        Some((height, width)) => {
            if fits(width, height) {
                Ok(lay_out(images, false, width, height))
            } else {
                Err(SheetError::TooLarge)
            }
        },
        None => Err(SheetError::TooLarge),
    }
}

} // verus!
