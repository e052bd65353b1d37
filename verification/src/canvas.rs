//! The pixel buffer that the renderers draw into: an RGB image of the `image` crate,
//! modelled by its width, its height and its pixels in row-major order.

use vstd::prelude::*;

verus! {

/// An 8-bit RGB colour.
#[derive(Clone, Copy, Debug, PartialEq, Eq, Structural)]
pub struct Color {
    pub r: u8,
    pub g: u8,
    pub b: u8,
}

/// A grid of RGB pixels, stored in an `image::RgbImage`. The image type is bounded by
/// a trait of its crate and so cannot be declared to the verifier; the canvas keeps
/// it out of sight and is known by its width, its height and its pixels. A canvas is
/// only ever made by `ImageBuffer::new` and `ImageBuffer::from_pixel`.
#[verifier::external_body]
pub struct Canvas {
    img: image::RgbImage,
}

/// Number of pixel columns of a canvas.
pub uninterp spec fn canvas_width(c: Canvas) -> nat;

/// Number of pixel rows of a canvas.
pub uninterp spec fn canvas_height(c: Canvas) -> nat;

/// The pixels of a canvas, row by row from the top, each row from the left.
pub uninterp spec fn canvas_pixels(c: Canvas) -> Seq<Color>;

/// `ImageBuffer::width`: the number of columns.
#[verifier::external_body]
fn raw_width(c: &Canvas) -> (w: u32)
    ensures
        w == canvas_width(*c),
{
    c.img.width()
}

/// `ImageBuffer::height`: the number of rows.
#[verifier::external_body]
fn raw_height(c: &Canvas) -> (h: u32)
    ensures
        h == canvas_height(*c),
{
    c.img.height()
}

/// `ImageBuffer::new`: an image of the given size in which every sample is zero. The
/// call panics when the sample count does not fit a vector, which `requires` excludes.
#[verifier::external_body]
fn raw_blank(width: u32, height: u32) -> (c: Canvas)
    requires
        3 * width * height <= isize::MAX,
    ensures
        canvas_width(c) == width,
        canvas_height(c) == height,
        canvas_pixels(c) == Seq::new(
            (width * height) as nat,
            |k: int| Color { r: 0, g: 0, b: 0 },
        ),
{
    Canvas { img: image::RgbImage::new(width, height) }
}

/// `ImageBuffer::from_pixel`: an image of the given size in which every pixel has the
/// given colour. The call panics when the sample count does not fit a vector, which
/// `requires` excludes.
#[verifier::external_body]
fn raw_filled(width: u32, height: u32, color: Color) -> (c: Canvas)
    requires
        3 * width * height <= isize::MAX,
    ensures
        canvas_width(c) == width,
        canvas_height(c) == height,
        canvas_pixels(c) == Seq::new((width * height) as nat, |k: int| color),
{
    Canvas { img: image::RgbImage::from_pixel(width, height, image::Rgb([color.r, color.g, color.b])) }
}

/// `ImageBuffer::get_pixel`: the colour stored at `(x, y)`. The call panics outside
/// the image, which `requires` excludes.
#[verifier::external_body]
fn raw_get(c: &Canvas, x: u32, y: u32) -> (color: Color)
    requires
        x < canvas_width(*c),
        y < canvas_height(*c),
    ensures
        color == canvas_pixels(*c)[y * canvas_width(*c) + x],
{
    let p = c.img.get_pixel(x, y);
    Color { r: p.0[0], g: p.0[1], b: p.0[2] }
}

/// `ImageBuffer::put_pixel`: overwrites the pixel at `(x, y)` and nothing else. The
/// call panics outside the image, which `requires` excludes.
#[verifier::external_body]
fn raw_put(c: &mut Canvas, x: u32, y: u32, color: Color)
    requires
        x < canvas_width(*old(c)),
        y < canvas_height(*old(c)),
    ensures
        canvas_width(*final(c)) == canvas_width(*old(c)),
        canvas_height(*final(c)) == canvas_height(*old(c)),
        canvas_pixels(*final(c)) == canvas_pixels(*old(c)).update(
            y * canvas_width(*old(c)) + x,
            color,
        ),
{
    c.img.put_pixel(x, y, image::Rgb([color.r, color.g, color.b]))
}

/// `ImageBuffer::as_raw`, copied: three bytes per pixel, red, green, blue, in pixel
/// order.
#[verifier::external_body]
fn raw_rgb(c: &Canvas) -> (raw: Vec<u8>)
    ensures
        raw@ == interleave_rgb(canvas_pixels(*c)),
{
    c.img.as_raw().clone()
}

/// `DynamicImage::to_rgba8` on an 8-bit RGB image, then `ImageBuffer::into_raw`: four
/// bytes per pixel, the pixel's red, green and blue followed by an alpha of 255. The
/// conversion panics when the sample count does not fit a vector, which `requires`
/// excludes.
#[verifier::external_body]
fn raw_rgba(c: &Canvas) -> (raw: Vec<u8>)
    requires
        4 * canvas_pixels(*c).len() <= isize::MAX,
    ensures
        raw@ == interleave_rgba(canvas_pixels(*c)),
{
    image::DynamicImage::ImageRgb8(c.img.clone()).to_rgba8().into_raw()
}

/// The bytes of a run of pixels with three samples each.
pub open spec fn interleave_rgb(pixels: Seq<Color>) -> Seq<u8> {
    Seq::new(
        3 * pixels.len(),
        |i: int|
            if i % 3 == 0 {
                pixels[i / 3].r
            } else if i % 3 == 1 {
                pixels[i / 3].g
            } else {
                pixels[i / 3].b
            },
    )
}

/// The bytes of a run of pixels with four samples each, the fourth fully opaque.
pub open spec fn interleave_rgba(pixels: Seq<Color>) -> Seq<u8> {
    Seq::new(
        4 * pixels.len(),
        |i: int|
            if i % 4 == 0 {
                pixels[i / 4].r
            } else if i % 4 == 1 {
                pixels[i / 4].g
            } else if i % 4 == 2 {
                pixels[i / 4].b
            } else {
                255u8
            },
    )
}

/// Whether a canvas of this size can be held: its pixels must fit a vector with
/// eight bytes each, which leaves room for the alpha channel and for the text that
/// the pixels are sent as.
pub open spec fn size_fits(width: int, height: int) -> bool {
    8 * width * height <= isize::MAX
}

/// Tests whether a canvas of this size can be held.
pub fn fits(width: u32, height: u32) -> (ok: bool)
    ensures
        ok == size_fits(width as int, height as int),
        ok ==> 3 * width * height <= isize::MAX,
{
    assert(0 <= width * height <= 0xffff_ffff * 0xffff_ffff) by (nonlinear_arith)
        requires
            0 <= width <= 0xffff_ffff,
            0 <= height <= 0xffff_ffff,
    ;
    let area: u128 = (width as u128) * (height as u128);
    assert(8 * width * height == 8 * (width * height)) by (nonlinear_arith);
    assert(3 * width * height == 3 * (width * height)) by (nonlinear_arith);
    8 * area <= isize::MAX as u128
}

impl Canvas {
    /// The pixel count agrees with the dimensions, and the canvas is small enough to be
    /// held.
    pub open spec fn wf(self) -> bool {
        &&& canvas_pixels(self).len() == canvas_width(self) * canvas_height(self)
        &&& size_fits(canvas_width(self) as int, canvas_height(self) as int)
    }

    /// Whether `(x, y)` names a pixel of the canvas.
    pub open spec fn contains(self, x: int, y: int) -> bool {
        0 <= x < canvas_width(self) && 0 <= y < canvas_height(self)
    }

    /// The colour of pixel `(x, y)`.
    pub open spec fn pixel_at(self, x: int, y: int) -> Color {
        canvas_pixels(self)[y * canvas_width(self) + x]
    }

    /// Two canvases of the same size.
    pub open spec fn same_size(self, other: Canvas) -> bool {
        canvas_width(self) == canvas_width(other) && canvas_height(self) == canvas_height(other)
    }

    /// A canvas of the given size with every pixel black, or `None` when a canvas that
    /// large cannot be held.
    pub fn blank(width: u32, height: u32) -> (r: Option<Canvas>)
        ensures
            r.is_some() <==> size_fits(width as int, height as int),
            r matches Some(c) ==> {
                &&& c.wf()
                &&& canvas_width(c) == width
                &&& canvas_height(c) == height
                &&& forall|x: int, y: int|
                    c.contains(x, y) ==> c.pixel_at(x, y) == Color { r: 0, g: 0, b: 0 }
            },
    {
        if !fits(width, height) {
            return None;
        }
        let c = raw_blank(width, height);
        assert forall|x: int, y: int| c.contains(x, y) implies c.pixel_at(x, y) == (Color {
            r: 0,
            g: 0,
            b: 0,
        }) by {
            lemma_index_in_range(width as int, height as int, x, y);
        }
        Some(c)
    }

    /// A canvas of the given size with every pixel set to `color`, or `None` when a
    /// canvas that large cannot be held.
    pub fn filled(width: u32, height: u32, color: Color) -> (r: Option<Canvas>)
        ensures
            r.is_some() <==> size_fits(width as int, height as int),
            r matches Some(c) ==> {
                &&& c.wf()
                &&& canvas_width(c) == width
                &&& canvas_height(c) == height
                &&& forall|x: int, y: int| c.contains(x, y) ==> c.pixel_at(x, y) == color
            },
    {
        if !fits(width, height) {
            return None;
        }
        let c = raw_filled(width, height, color);
        assert forall|x: int, y: int| c.contains(x, y) implies c.pixel_at(x, y) == color by {
            lemma_index_in_range(width as int, height as int, x, y);
        }
        Some(c)
    }

    /// The number of columns.
    pub fn width(&self) -> (w: u32)
        ensures
            w == canvas_width(*self),
    {
        raw_width(self)
    }

    /// The number of rows.
    pub fn height(&self) -> (h: u32)
        ensures
            h == canvas_height(*self),
    {
        raw_height(self)
    }

    /// The colour at `(x, y)`, or `None` outside the canvas.
    pub fn pixel(&self, x: u32, y: u32) -> (r: Option<Color>)
        ensures
            r == if self.contains(x as int, y as int) {
                Some(self.pixel_at(x as int, y as int))
            } else {
                None
            },
    {
        if x < raw_width(self) && y < raw_height(self) {
            Some(raw_get(self, x, y))
        } else {
            None
        }
    }

    /// Colours the pixel at `(x, y)` if the canvas has one there, and leaves every other
    /// pixel as it was. Coordinates outside the canvas are skipped.
    pub fn plot(&mut self, x: i64, y: i64, color: Color)
        requires
            old(self).wf(),
        ensures
            final(self).wf(),
            final(self).same_size(*old(self)),
            forall|px: int, py: int| #![trigger final(self).pixel_at(px, py)]
                old(self).contains(px, py) ==> final(self).pixel_at(px, py) == if px == x && py
                    == y {
                    color
                } else {
                    old(self).pixel_at(px, py)
                },
    {
        let w = raw_width(self);
        let h = raw_height(self);
        if x >= 0 && y >= 0 && x < w as i64 && y < h as i64 {
            proof {
                lemma_index_in_range(w as int, h as int, x as int, y as int);
            }
            raw_put(self, x as u32, y as u32, color);
            assert forall|px: int, py: int| old(self).contains(px, py) implies (
            #[trigger] self.pixel_at(px, py)) == if px == x && py == y {
                color
            } else {
                old(self).pixel_at(px, py)
            } by {
                lemma_index_in_range(w as int, h as int, px, py);
                lemma_index_injective(w as int, x as int, y as int, px, py);
            }
        }
    }

    /// The canvas as raw bytes, three per pixel: red, green, blue.
    pub fn to_rgb(&self) -> (raw: Vec<u8>)
        ensures
            raw@ == interleave_rgb(canvas_pixels(*self)),
    {
        raw_rgb(self)
    }

    /// The canvas as raw bytes, four per pixel: red, green, blue and an alpha of 255.
    pub fn to_rgba(&self) -> (raw: Vec<u8>)
        requires
            self.wf(),
        ensures
            raw@ == interleave_rgba(canvas_pixels(*self)),
            raw@.len() == 4 * canvas_width(*self) * canvas_height(*self),
    {
        assert(4 * canvas_width(*self) * canvas_height(*self) == 4 * (canvas_width(*self)
            * canvas_height(*self))) by (nonlinear_arith);
        assert(8 * canvas_width(*self) * canvas_height(*self) == 8 * (canvas_width(*self)
            * canvas_height(*self))) by (nonlinear_arith);
        raw_rgba(self)
    }
}

/// A pixel inside a `width` by `height` grid has its row-major index inside the grid.
pub proof fn lemma_index_in_range(width: int, height: int, x: int, y: int)
    requires
        0 <= x < width,
        0 <= y < height,
    ensures
        0 <= y * width + x < width * height,
{
    assert(y * width + x < width * height) by (nonlinear_arith)
        requires
            0 <= x < width,
            0 <= y < height,
    {
        assert((y + 1) * width <= height * width);
    }
    assert(0 <= y * width) by (nonlinear_arith)
        requires
            0 <= y,
            0 <= width,
    ;
}

/// Different pixels of a grid have different row-major indices.
pub proof fn lemma_index_injective(width: int, x1: int, y1: int, x2: int, y2: int)
    requires
        0 <= x1 < width,
        0 <= x2 < width,
        0 <= y1,
        0 <= y2,
    ensures
        y1 * width + x1 == y2 * width + x2 <==> (x1 == x2 && y1 == y2),
{
    if y1 * width + x1 == y2 * width + x2 {
        assert(y1 == y2) by (nonlinear_arith)
            requires
                0 <= x1 < width,
                0 <= x2 < width,
                y1 * width + x1 == y2 * width + x2,
        {
            if y1 < y2 {
                assert((y1 + 1) * width <= y2 * width);
            } else if y2 < y1 {
                assert((y2 + 1) * width <= y1 * width);
            }
        }
    }
}

} // verus!
