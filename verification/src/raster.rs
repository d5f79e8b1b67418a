//! Raster images with four 8-bit samples per pixel, and the few whole-image
//! operations the packers are built from.

use vstd::prelude::*;
use crate::error::SheetError;

verus! {

/// Red, green, blue and alpha samples of one pixel.
#[derive(Clone, Copy, Debug, PartialEq, Eq, Structural)]
pub struct Rgba {
    pub r: u8,
    pub g: u8,
    pub b: u8,
    pub a: u8,
}

/// The fully transparent pixel every fresh canvas is filled with.
pub open spec fn transparent() -> Rgba {
    Rgba { r: 0, g: 0, b: 0, a: 0 }
}

/// Mathematical model of an image: its size and its samples, row after row
/// from the top, four samples (red, green, blue, alpha) per pixel.
pub struct ImageView {
    pub width: nat,
    pub height: nat,
    pub samples: Seq<u8>,
}

impl ImageView {
    /// The samples are exactly those of `width * height` pixels.
    pub open spec fn wf(self) -> bool {
        &&& self.width <= u32::MAX
        &&& self.height <= u32::MAX
        &&& self.samples.len() == 4 * self.width * self.height
    }

    /// `(x, y)` names a pixel of the image.
    pub open spec fn contains(self, x: int, y: int) -> bool {
        0 <= x < self.width && 0 <= y < self.height
    }

    /// Index of the red sample of pixel `(x, y)`.
    pub open spec fn offset(self, x: int, y: int) -> int {
        4 * (y * self.width + x)
    }

    /// The pixel at column `x` of row `y`.
    pub open spec fn pixel(self, x: int, y: int) -> Rgba {
        let k = self.offset(x, y);
        Rgba { r: self.samples[k], g: self.samples[k + 1], b: self.samples[k + 2], a: self.samples[k + 3] }
    }

    /// `(x, y)` is a pixel of the image whose alpha sample is not zero.
    pub open spec fn opaque_at(self, x: int, y: int) -> bool {
        self.contains(x, y) && self.pixel(x, y).a != 0
    }

    /// `self` is the `self.width` by `self.height` window of `source` whose
    /// top-left corner lies at `(x, y)` of `source`.
    pub open spec fn is_window_of(self, source: ImageView, x: int, y: int) -> bool {
        &&& 0 <= x && x + self.width <= source.width
        &&& 0 <= y && y + self.height <= source.height
        &&& forall|i: int, j: int|
            self.contains(i, j) ==> #[trigger] self.pixel(i, j) == source.pixel(x + i, y + j)
    }
}

/// The four samples of a pixel inside an image lie inside its sample buffer.
pub proof fn lemma_offset_in_bounds(view: ImageView, x: int, y: int)
    requires
        view.wf(),
        view.contains(x, y),
    ensures
        0 <= view.offset(x, y),
        view.offset(x, y) + 4 <= view.samples.len(),
{
    let w = view.width as int;
    let h = view.height as int;
    assert(y * w + x + 1 <= h * w) by (nonlinear_arith)
        requires
            0 <= x < w,
            0 <= y < h,
    ;
    assert(0 <= y * w) by (nonlinear_arith)
        requires
            0 <= y,
            0 <= w,
    ;
    assert(4 * w * h == 4 * (h * w)) by (nonlinear_arith);
}

/// An image held in memory.
#[derive(Clone, Debug, PartialEq, Eq)]
pub struct Image {
    width: u32,
    height: u32,
    data: Vec<u8>,
}

impl View for Image {
    type V = ImageView;

    closed spec fn view(&self) -> ImageView {
        ImageView { width: self.width as nat, height: self.height as nat, samples: self.data@ }
    }
}

impl Image {
    /// The image holds exactly the samples of its pixels, and one row of it
    /// can be addressed.
    pub open spec fn wf(&self) -> bool {
        &&& self@.wf()
        &&& 4 * self@.width <= usize::MAX
    }

    /// Builds an image from its size and its samples; `None` unless `data`
    /// holds exactly `4 * width * height` samples.
    pub fn from_raw(width: u32, height: u32, data: Vec<u8>) -> (r: Option<Image>)
        ensures
            r is Some <==> (data@.len() == 4 * width * height && 4 * width <= usize::MAX),
            r matches Some(img) ==> img.wf() && img@ == (ImageView {
                width: width as nat,
                height: height as nat,
                samples: data@,
            }),
    {
        let row: u128 = 4u128 * (width as u128);
        assert(row * (height as u128) <= 0x4_0000_0000 * 0x1_0000_0000) by (nonlinear_arith)
            requires
                row <= 0x4_0000_0000,
                height <= 0x1_0000_0000,
        ;
        let wanted: u128 = row * (height as u128);
        assert(wanted == 4 * width * height) by (nonlinear_arith)
            requires
                wanted == (4 * width) * height,
        ;
        if row <= usize::MAX as u128 && data.len() as u128 == wanted {
            Some(Image { width, height, data })
        } else {
            None
        }
    }

    /// Reads an image from the bytes of a PNG file.
    pub fn from_png(bytes: &Vec<u8>) -> (r: Result<Image, SheetError>)
        ensures
            match png_decoding(bytes@) {
                Some(view) => r matches Ok(image) && image.wf() && image@ == view,
                None => r == Err::<Image, SheetError>(SheetError::Decode),
            },
    {
        match decode_png(bytes) {
            Ok(image) => Ok(image),
            Err(_) => Err(SheetError::Decode),
        }
    }

    /// Writes the image as the bytes of a PNG file.
    pub fn to_png(&self) -> (r: Result<Vec<u8>, SheetError>)
        requires
            self.wf(),
        ensures
            match png_encoding(self@) {
                Some(encoded) => r matches Ok(bytes) && bytes@ == encoded,
                None => r == Err::<Vec<u8>, SheetError>(SheetError::Encode),
            },
    {
        match encode_png(self) {
            Ok(bytes) => Ok(bytes),
            Err(_) => Err(SheetError::Encode),
        }
    }

    /// Width in pixels.
    pub fn width(&self) -> (w: u32)
        ensures
            w == self@.width,
    {
        self.width
    }

    /// Height in pixels.
    pub fn height(&self) -> (h: u32)
        ensures
            h == self@.height,
    {
        self.height
    }

    /// The samples, row after row.
    pub fn as_raw(&self) -> (data: &Vec<u8>)
        ensures
            data@ == self@.samples,
    {
        &self.data
    }

    /// Index of the red sample of a pixel of the image.
    fn sample_index(&self, x: u32, y: u32) -> (k: usize)
        requires
            self.wf(),
            self@.contains(x as int, y as int),
        ensures
            k == self@.offset(x as int, y as int),
            k + 4 <= self.data@.len(),
    {
        proof {
            lemma_offset_in_bounds(self@, x as int, y as int);
            let w = self.width as int;
            assert(0 <= (y as int) * w) by (nonlinear_arith)
                requires
                    0 <= y,
                    0 <= w,
            ;
            assert(self@.offset(x as int, y as int) == 4 * ((y as int) * w + x));
            assert(self.data@.len() == self.data.len());
        }
        4 * (y as usize * self.width as usize + x as usize)
    }

    /// The pixel at column `x` of row `y`, or `None` outside the image.
    pub fn get_pixel(&self, x: u32, y: u32) -> (p: Option<Rgba>)
        requires
            self.wf(),
        ensures
            p == if self@.contains(x as int, y as int) {
                Some(self@.pixel(x as int, y as int))
            } else {
                None
            },
    {
        if x < self.width && y < self.height {
            let k = self.sample_index(x, y);
            Some(Rgba { r: self.data[k], g: self.data[k + 1], b: self.data[k + 2], a: self.data[k + 3] })
        } else {
            None
        }
    }

    /// The alpha sample of a pixel of the image.
    pub fn alpha_at(&self, x: u32, y: u32) -> (a: u8)
        requires
            self.wf(),
            self@.contains(x as int, y as int),
        ensures
            a == self@.pixel(x as int, y as int).a,
    {
        let k = self.sample_index(x, y);
        self.data[k + 3]
    }
}

/// A fresh canvas. Calls `image::DynamicImage::new_rgba8`, which allocates
/// `4 * width * height` zero samples; the contract claims that size and that
/// every sample is zero. The sizes whose sample count does not fit the
/// address space, on which the call panics, are left out.
#[verifier::external_body]
pub(crate) fn blank(width: u32, height: u32) -> (canvas: Image)
    requires
        4 * width <= usize::MAX,
        4 * width * height <= usize::MAX,
    ensures
        canvas.wf(),
        canvas@.width == width,
        canvas@.height == height,
        forall|k: int| 0 <= k < canvas@.samples.len() ==> canvas@.samples[k] == 0,
{
    let buffer = image::DynamicImage::new_rgba8(width, height).into_rgba8();
    Image { width: buffer.width(), height: buffer.height(), data: buffer.into_raw() }
}

/// A rectangular cut-out. Calls `image::DynamicImage::crop` on a copy of
/// `source`; for a rectangle that lies inside the image the contract claims
/// that the result has the rectangle's size and holds, pixel for pixel, what
/// `source` holds there.
#[verifier::external_body]
pub(crate) fn crop(source: &Image, x: u32, y: u32, width: u32, height: u32) -> (cut: Image)
    requires
        source.wf(),
        x + width <= source@.width,
        y + height <= source@.height,
    ensures
        cut.wf(),
        cut@.width == width,
        cut@.height == height,
        cut@.is_window_of(source@, x as int, y as int),
{
    let buffer = image::RgbaImage::from_raw(source.width, source.height, source.data.clone()).unwrap();
    let cut = image::DynamicImage::ImageRgba8(buffer).crop(x, y, width, height).into_rgba8();
    Image { width: cut.width(), height: cut.height(), data: cut.into_raw() }
}

/// Pastes `piece` onto `canvas` with its top-left corner at `(x, y)`. Calls
/// `image::GenericImage::copy_from` on the two sample buffers; for a piece
/// that fits the contract claims that the canvas keeps its size, shows the
/// piece inside the pasted rectangle and is unchanged outside it.
#[verifier::external_body]
pub(crate) fn paste(canvas: &mut Image, piece: &Image, x: u32, y: u32)
    requires
        old(canvas).wf(),
        piece.wf(),
        x + piece@.width <= old(canvas)@.width,
        y + piece@.height <= old(canvas)@.height,
    ensures
        final(canvas).wf(),
        final(canvas)@.width == old(canvas)@.width,
        final(canvas)@.height == old(canvas)@.height,
        piece@.is_window_of(final(canvas)@, x as int, y as int),
        forall|i: int, j: int|
            old(canvas)@.contains(i, j) && !piece@.contains(i - x, j - y)
                ==> #[trigger] final(canvas)@.pixel(i, j) == old(canvas)@.pixel(i, j),
{
    let (w, h) = (canvas.width, canvas.height);
    let mut target = image::ImageBuffer::<image::Rgba<u8>, &mut [u8]>::from_raw(w, h, &mut canvas.data[..]).unwrap();
    let source = image::ImageBuffer::<image::Rgba<u8>, &[u8]>::from_raw(piece.width, piece.height, &piece.data[..]).unwrap();
    image::GenericImage::copy_from(&mut target, &source, x, y).unwrap();
}

/// Why the outside image library could not read or write an image.
#[verifier::external_type_specification]
#[verifier::external_body]
pub struct ExImageError(image::ImageError);

/// The image that decoding a PNG file with these bytes gives, with every
/// pixel brought to four 8-bit samples; `None` where the bytes cannot be
/// decoded.
pub uninterp spec fn png_decoding(bytes: Seq<u8>) -> Option<ImageView>;

/// The bytes of the PNG file that encoding this image gives; `None` where
/// the image cannot be encoded.
pub uninterp spec fn png_encoding(image: ImageView) -> Option<Seq<u8>>;

/// Decodes a PNG file held in memory. Calls
/// `image::load_from_memory_with_format` with the PNG format and brings the
/// result to four 8-bit samples per pixel with
/// `image::DynamicImage::into_rgba8`. The contract names the outcome, which
/// depends on the bytes alone, and claims that a decoded image holds exactly
/// the samples of its pixels.
#[verifier::external_body]
fn decode_png(bytes: &Vec<u8>) -> (r: Result<Image, image::ImageError>)
    ensures
        match r {
            Ok(decoded) => decoded.wf() && png_decoding(bytes@) == Some(decoded@),
            Err(_) => png_decoding(bytes@) is None,
        },
{
    match image::load_from_memory_with_format(bytes, image::ImageFormat::Png) {
        Ok(decoded) => {
            let buffer = decoded.into_rgba8();
            Ok(Image { width: buffer.width(), height: buffer.height(), data: buffer.into_raw() })
        },
        Err(e) => Err(e),
    }
}

/// Encodes an image as a PNG file held in memory. Calls
/// `image::DynamicImage::write_to` with the PNG format on a copy of the
/// samples. The contract names the outcome, which depends on the image alone.
#[verifier::external_body]
fn encode_png(source: &Image) -> (r: Result<Vec<u8>, image::ImageError>)
    requires
        source.wf(),
    ensures
        match r {
            Ok(bytes) => png_encoding(source@) == Some(bytes@),
            Err(_) => png_encoding(source@) is None,
        },
{
    let buffer = image::RgbaImage::from_raw(source.width, source.height, source.data.clone()).unwrap();
    let mut bytes: Vec<u8> = Vec::new();
    match image::DynamicImage::ImageRgba8(buffer).write_to(&mut bytes, image::ImageOutputFormat::Png) {
        Ok(()) => Ok(bytes),
        Err(e) => Err(e),
    }
}

} // verus!
