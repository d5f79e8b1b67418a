//! The sprite sheet as its users read it: one image that holds every frame,
//! and for each animation, direction and frame its place on that image, in
//! pixels and as a fraction of the sheet.

use vstd::prelude::*;
use crate::error::SheetError;

verus! {

/// A position or a size as a fraction of one side of the sheet: `px` pixels
/// out of the `of_px` pixels of that side. The fraction itself is
/// `px / of_px`.
#[derive(Clone, Copy, Debug, PartialEq, Eq, Structural)]
pub struct Normalized {
    pub px: u32,
    pub of_px: u32,
}

impl Normalized {
    /// The fraction lies between zero and one, both included.
    pub open spec fn in_unit_range(self) -> bool {
        0 < self.of_px && self.px <= self.of_px
    }

    /// `px` pixels out of `of_px`.
    pub fn new(px: u32, of_px: u32) -> (n: Normalized)
        ensures
            n == (Normalized { px, of_px }),
    {
        Normalized { px, of_px }
    }
}

/// Model of a [`Frame`].
pub struct FrameView {
    pub width_px: u32,
    pub height_px: u32,
    pub width_normalized: Normalized,
    pub height_normalized: Normalized,
    pub offset_x_px: u32,
    pub offset_y_px: u32,
    pub offset_x_normalized: Normalized,
    pub offset_y_normalized: Normalized,
    pub start_x_px: u32,
    pub start_y_px: u32,
    pub start_x_normalized: Normalized,
    pub start_y_normalized: Normalized,
}

/// Model of a [`DirectionalAnimation`].
pub struct DirectionalAnimationView {
    pub direction: usize,
    pub frames: Seq<FrameView>,
    pub start_x_px: u32,
    pub start_y_px: u32,
    pub start_x_normalized: Normalized,
    pub start_y_normalized: Normalized,
}

/// Model of an [`Animation`].
pub struct AnimationView {
    pub directions: Seq<DirectionalAnimationView>,
    pub name: Seq<char>,
    pub start_x_px: u32,
    pub start_y_px: u32,
    pub start_x_normalized: Normalized,
    pub start_y_normalized: Normalized,
}

/// Model of a [`SpriteSheet`].
pub struct SpriteSheetView {
    pub image_png_bytes_b64: Seq<char>,
    pub width_px: u32,
    pub height_px: u32,
    pub animations: Seq<AnimationView>,
}

/// The models of a sequence of frames.
pub open spec fn frame_views(frames: Seq<Frame>) -> Seq<FrameView> {
    Seq::new(frames.len(), |i: int| frames[i]@)
}

/// The models of a sequence of directional animations.
pub open spec fn direction_views(directions: Seq<DirectionalAnimation>) -> Seq<DirectionalAnimationView> {
    Seq::new(directions.len(), |i: int| directions[i]@)
}

/// The models of a sequence of animations.
pub open spec fn animation_views(animations: Seq<Animation>) -> Seq<AnimationView> {
    Seq::new(animations.len(), |i: int| animations[i]@)
}

/// A sprite sheet which contains many sprites in a single image.
#[derive(Clone, Debug, PartialEq)]
pub struct SpriteSheet {
    image_png_bytes_b64: String,
    width_px: u32,
    height_px: u32,
    animations: Vec<Animation>,
}

impl View for SpriteSheet {
    type V = SpriteSheetView;

    closed spec fn view(&self) -> SpriteSheetView {
        SpriteSheetView {
            image_png_bytes_b64: self.image_png_bytes_b64@,
            width_px: self.width_px,
            height_px: self.height_px,
            animations: animation_views(self.animations@),
        }
    }
}

/// Index of the first animation called `name`, or `None` when there is none.
pub open spec fn is_first_named(animations: Seq<AnimationView>, name: Seq<char>, at: Option<int>) -> bool {
    match at {
        Some(i) => {
            &&& 0 <= i < animations.len()
            &&& animations[i].name == name
            &&& forall|j: int| 0 <= j < i ==> (#[trigger] animations[j]).name != name
        },
        None => forall|j: int| 0 <= j < animations.len() ==> (#[trigger] animations[j]).name != name,
    }
}

/// Index of the first animation called `name`.
pub open spec fn first_named(animations: Seq<AnimationView>, name: Seq<char>) -> Option<int> {
    if exists|i: int| is_first_named(animations, name, Some(i)) {
        Some(choose|i: int| is_first_named(animations, name, Some(i)))
    } else {
        None
    }
}

/// There is exactly one answer to "where is the first animation of this
/// name", and [`first_named`] is it.
pub proof fn lemma_first_named(animations: Seq<AnimationView>, name: Seq<char>, at: Option<int>)
    requires
        is_first_named(animations, name, at),
    ensures
        first_named(animations, name) == at,
{
    match at {
        Some(i) => {
            let c = choose|c: int| is_first_named(animations, name, Some(c));
            if c < i {
                assert(animations[c].name != name);
            }
            if i < c {
                assert(animations[i].name != name);
            }
        },
        None => {
            if exists|i: int| is_first_named(animations, name, Some(i)) {
                let c = choose|c: int| is_first_named(animations, name, Some(c));
                assert(animations[c].name != name);
            }
        },
    }
}

impl SpriteSheet {
    /// Creates a new sprite sheet. The bytes of the image are kept as base64
    /// text.
    pub fn new(image_png_bytes: &Vec<u8>, width_px: u32, height_px: u32, animations: Vec<Animation>) -> (sheet:
        Self)
        ensures
            sheet@.image_png_bytes_b64 == base64_encoding(image_png_bytes@),
            base64_decoding(sheet@.image_png_bytes_b64) == Some(image_png_bytes@),
            sheet@.width_px == width_px,
            sheet@.height_px == height_px,
            sheet@.animations == animation_views(animations@),
    {
        Self { width_px, height_px, animations, image_png_bytes_b64: Self::bytes_to_b64(image_png_bytes) }
    }

    /// Puts a sheet together from its parts, the image already given as
    /// base64 text.
    pub fn from_parts(image_png_bytes_b64: String, width_px: u32, height_px: u32, animations: Vec<Animation>) -> (sheet:
        Self)
        ensures
            sheet@.image_png_bytes_b64 == image_png_bytes_b64@,
            sheet@.width_px == width_px,
            sheet@.height_px == height_px,
            sheet@.animations == animation_views(animations@),
    {
        Self { width_px, height_px, animations, image_png_bytes_b64 }
    }

    /// Returns the total width of the sheet in pixels.
    pub fn width_px(&self) -> (r: u32)
        ensures
            r == self@.width_px,
    {
        self.width_px
    }

    /// Returns the total height of the sheet in pixels.
    pub fn height_px(&self) -> (r: u32)
        ensures
            r == self@.height_px,
    {
        self.height_px
    }

    /// Returns the animations for the sheet.
    pub fn animations(&self) -> (r: &Vec<Animation>)
        ensures
            animation_views(r@) == self@.animations,
    {
        &self.animations
    }

    /// Returns the image of the sheet as base64 text.
    pub fn image_png_bytes_b64(&self) -> (r: &str)
        ensures
            r@ == self@.image_png_bytes_b64,
    {
        self.image_png_bytes_b64.as_str()
    }

    /// Returns the first animation with the given name.
    pub fn animation<'a>(&self, animation_name: &'a str) -> (r: Option<&Animation>)
        ensures
            match first_named(self@.animations, animation_name@) {
                Some(i) => r matches Some(found) && found@ == self@.animations[i],
                None => r is None,
            },
    {
        let name = String::from_str(animation_name);
        let mut i: usize = 0;
        while i < self.animations.len()
            invariant
                i <= self.animations.len(),
                name@ == animation_name@,
                forall|j: int| 0 <= j < i ==> (#[trigger] self@.animations[j]).name != animation_name@,
            decreases self.animations.len() - i,
        {
            let a = &self.animations[i];
            if a.name == name {
                proof {
                    assert(self@.animations[i as int] == a@);
                    lemma_first_named(self@.animations, animation_name@, Some(i as int));
                }
                return Some(a);
            }
            proof {
                assert(self@.animations[i as int] == a@);
            }
            i += 1;
        }
        proof {
            lemma_first_named(self@.animations, animation_name@, None);
        }
        None
    }

    /// Decodes the image of the sheet as a string of bytes. Text that is not
    /// valid base64 gives no bytes at all.
    pub fn png_bytes(&self) -> (bytes: Vec<u8>)
        ensures
            bytes@ == match base64_decoding(self@.image_png_bytes_b64) {
                Some(decoded) => decoded,
                None => Seq::<u8>::empty(),
            },
    {
        match self.try_png_bytes() {
            Ok(bytes) => bytes,
            Err(_) => Vec::new(),
        }
    }

    /// Decodes the image of the sheet as a string of bytes, or tells that
    /// the text is not valid base64.
    pub fn try_png_bytes(&self) -> (r: Result<Vec<u8>, SheetError>)
        ensures
            match base64_decoding(self@.image_png_bytes_b64) {
                Some(decoded) => r matches Ok(bytes) && bytes@ == decoded,
                None => r == Err::<Vec<u8>, SheetError>(SheetError::Base64),
            },
    {
        match decode_base64(self.image_png_bytes_b64.as_str()) {
            Ok(bytes) => Ok(bytes),
            Err(_) => Err(SheetError::Base64),
        }
    }

    /// Encodes some bytes to b64
    fn bytes_to_b64(bytes: &Vec<u8>) -> (text: String)
        ensures
            text@ == base64_encoding(bytes@),
            base64_decoding(text@) == Some(bytes@),
    {
        encode_base64(bytes)
    }
}

/// An animation in the sprite sheet.
/// Positions are counted from the top-left corner of the sheet.
#[derive(Clone, Debug, PartialEq)]
pub struct Animation {
    directional_animations: Vec<DirectionalAnimation>,
    name: String,
    start_x_px: u32,
    start_y_px: u32,
    start_x_normalized: Normalized,
    start_y_normalized: Normalized,
}

impl View for Animation {
    type V = AnimationView;

    closed spec fn view(&self) -> AnimationView {
        AnimationView {
            directions: direction_views(self.directional_animations@),
            name: self.name@,
            start_x_px: self.start_x_px,
            start_y_px: self.start_y_px,
            start_x_normalized: self.start_x_normalized,
            start_y_normalized: self.start_y_normalized,
        }
    }
}

impl Animation {
    /// Creates a new animation.
    pub fn new(
        directional_animations: Vec<DirectionalAnimation>,
        name: String,
        start_x_px: u32,
        start_y_px: u32,
        start_x_normalized: Normalized,
        start_y_normalized: Normalized,
    ) -> (animation: Self)
        ensures
            animation@ == (AnimationView {
                directions: direction_views(directional_animations@),
                name: name@,
                start_x_px,
                start_y_px,
                start_x_normalized,
                start_y_normalized,
            }),
    {
        Self { directional_animations, name, start_x_px, start_y_px, start_x_normalized, start_y_normalized }
    }

    /// Returns the name of the animation.
    pub fn name<'a>(&'a self) -> (r: &'a str)
        ensures
            r@ == self@.name,
    {
        self.name.as_str()
    }

    /// Returns the directional animations for the sheet.
    pub fn directions(&self) -> (r: &Vec<DirectionalAnimation>)
        ensures
            direction_views(r@) == self@.directions,
    {
        &self.directional_animations
    }

    /// Returns the directional animation at the given place in the list of
    /// directions.
    pub fn direction<'a>(&self, direction: usize) -> (r: Option<&DirectionalAnimation>)
        ensures
            match r {
                Some(found) => direction < self@.directions.len() && found@ == self@.directions[direction as int],
                None => direction >= self@.directions.len(),
            },
    {
        if self.directional_animations.len() > direction {
            return Some(&self.directional_animations[direction]);
        }
        None
    }

    /// Returns the start X of this animation on the sprite sheet in pixels.
    pub fn start_x_px(&self) -> (r: u32)
        ensures
            r == self@.start_x_px,
    {
        self.start_x_px
    }

    /// Returns the start Y of this animation on the sprite sheet in pixels.
    pub fn start_y_px(&self) -> (r: u32)
        ensures
            r == self@.start_y_px,
    {
        self.start_y_px
    }

    /// Returns the start X of this animation as a fraction of the width of
    /// the sprite sheet.
    pub fn start_x_normalized(&self) -> (r: Normalized)
        ensures
            r == self@.start_x_normalized,
    {
        self.start_x_normalized
    }

    /// Returns the start Y of this animation as a fraction of the height of
    /// the sprite sheet.
    pub fn start_y_normalized(&self) -> (r: Normalized)
        ensures
            r == self@.start_y_normalized,
    {
        self.start_y_normalized
    }
}

/// A directional animation in the sprite sheet.
/// Positions are counted from the top-left corner of the sheet.
#[derive(Clone, Debug, PartialEq)]
pub struct DirectionalAnimation {
    direction: usize,
    frames: Vec<Frame>,
    start_x_px: u32,
    start_y_px: u32,
    start_x_normalized: Normalized,
    start_y_normalized: Normalized,
}

impl View for DirectionalAnimation {
    type V = DirectionalAnimationView;

    closed spec fn view(&self) -> DirectionalAnimationView {
        DirectionalAnimationView {
            direction: self.direction,
            frames: frame_views(self.frames@),
            start_x_px: self.start_x_px,
            start_y_px: self.start_y_px,
            start_x_normalized: self.start_x_normalized,
            start_y_normalized: self.start_y_normalized,
        }
    }
}

impl DirectionalAnimation {
    /// Creates a new directional animation.
    pub fn new(
        frames: Vec<Frame>,
        direction: usize,
        start_x_px: u32,
        start_y_px: u32,
        start_x_normalized: Normalized,
        start_y_normalized: Normalized,
    ) -> (animation: Self)
        ensures
            animation@ == (DirectionalAnimationView {
                direction,
                frames: frame_views(frames@),
                start_x_px,
                start_y_px,
                start_x_normalized,
                start_y_normalized,
            }),
    {
        Self { frames, direction, start_x_px, start_y_px, start_x_normalized, start_y_normalized }
    }

    /// Returns the direction that the names of the source frames gave.
    pub fn direction(&self) -> (r: usize)
        ensures
            r == self@.direction,
    {
        self.direction
    }

    /// Returns the frames for the direction.
    pub fn frames(&self) -> (r: &Vec<Frame>)
        ensures
            frame_views(r@) == self@.frames,
    {
        &self.frames
    }

    /// Returns the frame at the given place in the list of frames.
    pub fn frame<'a>(&self, frame: usize) -> (r: Option<&Frame>)
        ensures
            match r {
                Some(found) => frame < self@.frames.len() && found@ == self@.frames[frame as int],
                None => frame >= self@.frames.len(),
            },
    {
        if self.frames.len() > frame {
            return Some(&self.frames[frame]);
        }
        None
    }

    /// Returns the start X of this animation on the sprite sheet in pixels.
    pub fn start_x_px(&self) -> (r: u32)
        ensures
            r == self@.start_x_px,
    {
        self.start_x_px
    }

    /// Returns the start Y of this animation on the sprite sheet in pixels.
    pub fn start_y_px(&self) -> (r: u32)
        ensures
            r == self@.start_y_px,
    {
        self.start_y_px
    }

    /// Returns the start X of this animation as a fraction of the width of
    /// the sprite sheet.
    pub fn start_x_normalized(&self) -> (r: Normalized)
        ensures
            r == self@.start_x_normalized,
    {
        self.start_x_normalized
    }

    /// Returns the start Y of this animation as a fraction of the height of
    /// the sprite sheet.
    pub fn start_y_normalized(&self) -> (r: Normalized)
        ensures
            r == self@.start_y_normalized,
    {
        self.start_y_normalized
    }
}

/// An individual frame in the animation.
/// Start positions are counted from the top-left corner of the sheet, offsets
/// from the top-left corner of the untrimmed source frame.
#[derive(Clone, Copy, Debug, PartialEq)]
pub struct Frame {
    width_px: u32,
    height_px: u32,
    width_normalized: Normalized,
    height_normalized: Normalized,
    offset_x_px: u32,
    offset_y_px: u32,
    offset_x_normalized: Normalized,
    offset_y_normalized: Normalized,
    start_x_px: u32,
    start_y_px: u32,
    start_x_normalized: Normalized,
    start_y_normalized: Normalized,
}

impl View for Frame {
    type V = FrameView;

    closed spec fn view(&self) -> FrameView {
        FrameView {
            width_px: self.width_px,
            height_px: self.height_px,
            width_normalized: self.width_normalized,
            height_normalized: self.height_normalized,
            offset_x_px: self.offset_x_px,
            offset_y_px: self.offset_y_px,
            offset_x_normalized: self.offset_x_normalized,
            offset_y_normalized: self.offset_y_normalized,
            start_x_px: self.start_x_px,
            start_y_px: self.start_y_px,
            start_x_normalized: self.start_x_normalized,
            start_y_normalized: self.start_y_normalized,
        }
    }
}

impl Frame {
    /// Creates a new frame.
    pub fn new(
        width_px: u32,
        height_px: u32,
        width_normalized: Normalized,
        height_normalized: Normalized,
        offset_x_px: u32,
        offset_y_px: u32,
        offset_x_normalized: Normalized,
        offset_y_normalized: Normalized,
        start_x_px: u32,
        start_y_px: u32,
        start_x_normalized: Normalized,
        start_y_normalized: Normalized,
    ) -> (frame: Self)
        ensures
            frame@ == (FrameView {
                width_px,
                height_px,
                width_normalized,
                height_normalized,
                offset_x_px,
                offset_y_px,
                offset_x_normalized,
                offset_y_normalized,
                start_x_px,
                start_y_px,
                start_x_normalized,
                start_y_normalized,
            }),
    {
        Self {
            width_px,
            height_px,
            width_normalized,
            height_normalized,
            offset_x_px,
            offset_y_px,
            offset_x_normalized,
            offset_y_normalized,
            start_x_px,
            start_y_px,
            start_x_normalized,
            start_y_normalized,
        }
    }

    /// Returns the width of the frame in pixels.
    pub fn width_px(&self) -> (r: u32)
        ensures
            r == self@.width_px,
    {
        self.width_px
    }

    /// Returns the height of the frame in pixels.
    pub fn height_px(&self) -> (r: u32)
        ensures
            r == self@.height_px,
    {
        self.height_px
    }

    /// Returns the width of the frame as a fraction of the width of the
    /// sprite sheet.
    pub fn width_normalized(&self) -> (r: Normalized)
        ensures
            r == self@.width_normalized,
    {
        self.width_normalized
    }

    /// Returns the height of the frame as a fraction of the height of the
    /// sprite sheet.
    pub fn height_normalized(&self) -> (r: Normalized)
        ensures
            r == self@.height_normalized,
    {
        self.height_normalized
    }

    /// Returns the X offset of the frame in pixels.
    pub fn offset_x_px(&self) -> (r: u32)
        ensures
            r == self@.offset_x_px,
    {
        self.offset_x_px
    }

    /// Returns the Y offset of the frame in pixels.
    pub fn offset_y_px(&self) -> (r: u32)
        ensures
            r == self@.offset_y_px,
    {
        self.offset_y_px
    }

    /// Returns the X offset of the frame as a fraction of the width of the
    /// sprite sheet.
    pub fn offset_x_normalized(&self) -> (r: Normalized)
        ensures
            r == self@.offset_x_normalized,
    {
        self.offset_x_normalized
    }

    /// Returns the Y offset of the frame as a fraction of the height of the
    /// sprite sheet.
    pub fn offset_y_normalized(&self) -> (r: Normalized)
        ensures
            r == self@.offset_y_normalized,
    {
        self.offset_y_normalized
    }

    /// Returns the start X of this frame on the sprite sheet in pixels.
    pub fn start_x_px(&self) -> (r: u32)
        ensures
            r == self@.start_x_px,
    {
        self.start_x_px
    }

    /// Returns the start Y of this frame on the sprite sheet in pixels.
    pub fn start_y_px(&self) -> (r: u32)
        ensures
            r == self@.start_y_px,
    {
        self.start_y_px
    }

    /// Returns the start X of this frame as a fraction of the width of the
    /// sprite sheet.
    pub fn start_x_normalized(&self) -> (r: Normalized)
        ensures
            r == self@.start_x_normalized,
    {
        self.start_x_normalized
    }

    /// Returns the start Y of this frame as a fraction of the height of the
    /// sprite sheet.
    pub fn start_y_normalized(&self) -> (r: Normalized)
        ensures
            r == self@.start_y_normalized,
    {
        self.start_y_normalized
    }
}

/// Why the outside base64 library could not decode a text.
#[verifier::external_type_specification]
#[verifier::external_body]
pub struct ExDecodeError(base64::DecodeError);

/// The base64 text that encoding these bytes gives, in the standard alphabet
/// with padding.
pub uninterp spec fn base64_encoding(bytes: Seq<u8>) -> Seq<char>;

/// The bytes that decoding this base64 text gives; `None` where the text is
/// not valid base64.
pub uninterp spec fn base64_decoding(text: Seq<char>) -> Option<Seq<u8>>;

/// Encodes bytes as base64 text. Calls `base64::encode`. The contract names
/// the text, which depends on the bytes alone, and claims that decoding it
/// gives the bytes back: the two functions of the outside library are
/// inverse to each other on everything that was encoded. The call panics
/// only where the length of the text would not fit `usize`, which the length
/// of no vector in memory can cause.
#[verifier::external_body]
fn encode_base64(bytes: &Vec<u8>) -> (text: String)
    ensures
        text@ == base64_encoding(bytes@),
        base64_decoding(text@) == Some(bytes@),
{
    base64::encode(bytes)
}

/// Decodes base64 text. Calls `base64::decode`. The contract names the
/// outcome, which depends on the text alone.
#[verifier::external_body]
fn decode_base64(text: &str) -> (r: Result<Vec<u8>, base64::DecodeError>)
    ensures
        match r {
            Ok(bytes) => base64_decoding(text@) == Some(bytes@),
            Err(_) => base64_decoding(text@) is None,
        },
{
    base64::decode(text)
}

} // verus!
