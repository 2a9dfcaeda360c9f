//! RGB images with 8-bit channels, held by the `image` crate.
use vstd::prelude::*;
use image::{GenericImage, ImageError, Rgb, RgbImage};

verus! {

/// A colour: red, green and blue channels.
pub type Color = (u8, u8, u8);

/// The colour of an unlit pixel.
pub open spec fn black() -> Color {
    (0u8, 0u8, 0u8)
}

/// The colour the quadtree paints lit pixels with.
pub open spec fn white() -> Color {
    (253u8, 255u8, 255u8)
}

/// The colour of an unlit pixel.
pub(crate) fn black_color() -> (c: Color)
    ensures
        c == black(),
{
    (0, 0, 0)
}

/// The colour the quadtree paints lit pixels with.
pub(crate) fn white_color() -> (c: Color)
    ensures
        c == white(),
{
    (253, 255, 255)
}

/// An RGB image with 8-bit channels (an `image::RgbImage`).
///
/// What it holds is known through [`canvas_pixels`] and [`canvas_size`]; the image crate
/// stores it row by row, three bytes a pixel.
#[verifier::external_body]
pub struct Canvas {
    img: RgbImage,
}

/// The pixels of a canvas, by `(x, y)` position.
pub uninterp spec fn canvas_pixels(c: Canvas) -> Map<(u32, u32), Color>;

/// The width and height a canvas was made with.
pub uninterp spec fn canvas_size(c: Canvas) -> (u32, u32);

/// The positions inside a `w` × `h` image.
pub open spec fn positions(w: u32, h: u32) -> Set<(u32, u32)> {
    Set::new(|p: (u32, u32)| p.0 < w && p.1 < h)
}

/// Bytes needed to hold a `w` × `h` image, three per pixel.
pub open spec fn byte_len(w: u32, h: u32) -> int {
    3 * (w as int) * (h as int)
}

/// Whether the image crate's count of bytes for a `w` × `h` image, `(3 * w) * h` in `usize`,
/// does not overflow.
pub open spec fn byte_len_fits(w: u32, h: u32) -> bool {
    &&& 3 * (w as int) <= usize::MAX
    &&& byte_len(w, h) <= usize::MAX
}

/// The colour spelled by the three bytes of the pixel at `(x, y)` in a row-major buffer of width `w`.
pub open spec fn color_in_bytes(bytes: Seq<u8>, w: u32, x: u32, y: u32) -> Color {
    let i = 3 * ((y as int) * (w as int) + (x as int));
    (bytes[i], bytes[i + 1], bytes[i + 2])
}

/// The pixels of `dst` after `src` is copied onto it with its top-left corner at `(x, y)`.
pub open spec fn pasted(dst: Map<(u32, u32), Color>, src: Canvas, x: u32, y: u32) -> Map<(u32, u32), Color> {
    Map::new(
        |p: (u32, u32)| dst.dom().contains(p),
        |p: (u32, u32)|
            if x <= p.0 < x + canvas_size(src).0 && y <= p.1 < y + canvas_size(src).1 {
                canvas_pixels(src)[((p.0 - x) as u32, (p.1 - y) as u32)]
            } else {
                dst[p]
            },
    )
}

/// `ImageBuffer::new`: a `w` × `h` image whose channels are all zero, that is, all black. It
/// panics where `(3 * w) * h` overflows `usize` or the buffer exceeds `isize::MAX` bytes.
#[verifier::external_body]
pub(crate) fn image_new(w: u32, h: u32) -> (c: Canvas)
    requires
        byte_len_fits(w, h),
        byte_len(w, h) <= isize::MAX,
    ensures
        canvas_size(c) == (w, h),
        canvas_pixels(c) == Map::new(|p: (u32, u32)| positions(w, h).contains(p), |p: (u32, u32)| black()),
{
    Canvas { img: RgbImage::new(w, h) }
}

/// `ImageBuffer::from_raw`: an image over a row-major buffer, three bytes a pixel; `None` when
/// the buffer is shorter than `w` × `h` pixels need, or when `(3 * w) * h` overflows `usize`.
#[verifier::external_body]
fn image_from_raw(w: u32, h: u32, bytes: Vec<u8>) -> (made: Option<Canvas>)
    ensures
        made is Some <==> (byte_len_fits(w, h) && byte_len(w, h) <= bytes@.len()),
        made matches Some(img) ==> canvas_size(img) == (w, h) && canvas_pixels(img) == Map::new(
            |p: (u32, u32)| positions(w, h).contains(p),
            |p: (u32, u32)| color_in_bytes(bytes@, w, p.0, p.1),
        ),
{
    RgbImage::from_raw(w, h, bytes).map(|img| Canvas { img })
}

/// `ImageBuffer::dimensions`: the width and height.
#[verifier::external_body]
pub(crate) fn image_dimensions(c: &Canvas) -> (d: (u32, u32))
    ensures
        d == canvas_size(*c),
{
    c.img.dimensions()
}

/// `ImageBuffer::get_pixel`, which panics outside the image: the pixel at `(x, y)`.
#[verifier::external_body]
pub(crate) fn image_get_pixel(c: &Canvas, x: u32, y: u32) -> (p: Color)
    requires
        x < canvas_size(*c).0,
        y < canvas_size(*c).1,
    ensures
        p == canvas_pixels(*c)[(x, y)],
{
    let Rgb([r, g, b]) = *c.img.get_pixel(x, y);
    (r, g, b)
}

/// `ImageBuffer::put_pixel`, which panics outside the image: sets the pixel at `(x, y)`.
#[verifier::external_body]
pub(crate) fn image_put_pixel(c: &mut Canvas, x: u32, y: u32, p: Color)
    requires
        x < canvas_size(*old(c)).0,
        y < canvas_size(*old(c)).1,
    ensures
        canvas_size(*final(c)) == canvas_size(*old(c)),
        canvas_pixels(*final(c)) == canvas_pixels(*old(c)).insert((x, y), p),
{
    c.img.put_pixel(x, y, Rgb([p.0, p.1, p.2]))
}

/// The error type of the `image` crate.
#[verifier::external_type_specification]
#[verifier::external_body]
pub struct ExImageError(ImageError);

/// `GenericImage::copy_from`: copies all of `src` into `dst` with its top-left corner at
/// `(x, y)`; fails, changing nothing, where `src` does not fit there.
#[verifier::external_body]
fn image_copy_from(dst: &mut Canvas, src: &Canvas, x: u32, y: u32) -> (r: Result<(), ImageError>)
    ensures
        r is Ok <==> (canvas_size(*src).0 as int) + (x as int) <= canvas_size(*old(dst)).0 && (
        canvas_size(*src).1 as int) + (y as int) <= canvas_size(*old(dst)).1,
        canvas_size(*final(dst)) == canvas_size(*old(dst)),
        r is Err ==> canvas_pixels(*final(dst)) == canvas_pixels(*old(dst)),
        r is Ok ==> canvas_pixels(*final(dst)) == pasted(canvas_pixels(*old(dst)), *src, x, y),
{
    dst.img.copy_from(&src.img, x, y)
}

/// `ImageBuffer::into_raw`: the buffer, row-major, three bytes a pixel.
#[verifier::external_body]
fn image_into_raw(c: Canvas) -> (bytes: Vec<u8>)
    ensures
        byte_len(canvas_size(c).0, canvas_size(c).1) <= bytes@.len(),
        forall|x: u32, y: u32|
            x < canvas_size(c).0 && y < canvas_size(c).1 ==> color_in_bytes(bytes@, canvas_size(c).0, x, y)
                == #[trigger] canvas_pixels(c)[(x, y)],
{
    c.img.into_raw()
}

/// Why an image could not be copied onto a canvas.
#[derive(Debug, Clone, Copy, PartialEq, Eq)]
pub enum CanvasError {
    /// The image does not fit inside the canvas at the place asked for.
    DoesNotFit,
}

impl Canvas {
    /// A `width` × `height` canvas, all black.
    pub fn new(width: u32, height: u32) -> (c: Canvas)
        requires
            byte_len_fits(width, height),
            byte_len(width, height) <= isize::MAX,
        ensures
            canvas_size(c) == (width, height),
            canvas_pixels(c) == Map::new(
                |p: (u32, u32)| positions(width, height).contains(p),
                |p: (u32, u32)| black(),
            ),
    {
        image_new(width, height)
    }

    /// A canvas over a row-major buffer, three bytes (red, green, blue) a pixel; `None` when
    /// `bytes` is shorter than `width` × `height` pixels need.
    pub fn from_rgb_bytes(width: u32, height: u32, bytes: Vec<u8>) -> (c: Option<Canvas>)
        ensures
            c is Some <==> byte_len_fits(width, height) && byte_len(width, height) <= bytes@.len(),
            c matches Some(img) ==> canvas_size(img) == (width, height) && canvas_pixels(img) == Map::new(
                |p: (u32, u32)| positions(width, height).contains(p),
                |p: (u32, u32)| color_in_bytes(bytes@, width, p.0, p.1),
            ),
    {
        image_from_raw(width, height, bytes)
    }

    /// Width and height.
    pub fn dimensions(&self) -> (d: (u32, u32))
        ensures
            d == canvas_size(*self),
    {
        image_dimensions(self)
    }

    /// The pixel at `(x, y)`, or `None` outside the canvas.
    pub fn pixel(&self, x: u32, y: u32) -> (p: Option<Color>)
        ensures
            p is Some <==> x < canvas_size(*self).0 && y < canvas_size(*self).1,
            p matches Some(p) ==> p == canvas_pixels(*self)[(x, y)],
    {
        let (w, h) = image_dimensions(self);
        if x < w && y < h {
            Some(image_get_pixel(self, x, y))
        } else {
            None
        }
    }

    /// Copies all of `src` onto this canvas with its top-left corner at `(x, y)`.
    pub fn paste(&mut self, src: &Canvas, x: u32, y: u32) -> (r: Result<(), CanvasError>)
        ensures
            r is Ok <==> (canvas_size(*src).0 as int) + (x as int) <= canvas_size(*old(self)).0
                && (canvas_size(*src).1 as int) + (y as int) <= canvas_size(*old(self)).1,
            canvas_size(*final(self)) == canvas_size(*old(self)),
            r is Err ==> canvas_pixels(*final(self)) == canvas_pixels(*old(self)),
            r is Ok ==> canvas_pixels(*final(self)) == pasted(canvas_pixels(*old(self)), *src, x, y),
    {
        match image_copy_from(self, src, x, y) {
            Ok(()) => Ok(()),
            Err(_) => Err(CanvasError::DoesNotFit),
        }
    }

    /// The pixels as a row-major buffer, three bytes (red, green, blue) a pixel.
    pub fn into_rgb_bytes(self) -> (bytes: Vec<u8>)
        ensures
            byte_len(canvas_size(self).0, canvas_size(self).1) <= bytes@.len(),
            forall|x: u32, y: u32|
                x < canvas_size(self).0 && y < canvas_size(self).1 ==> color_in_bytes(
                    bytes@,
                    canvas_size(self).0,
                    x,
                    y,
                ) == #[trigger] canvas_pixels(self)[(x, y)],
    {
        image_into_raw(self)
    }
}

} // verus!
