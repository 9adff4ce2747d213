//! Fixed-size RGB pixel canvases: the in-memory form of a tile's base
//! imagery and outline layers.
//!
//! A canvas is a plain byte buffer, three bytes per pixel, row-major.
//! Decoding fetched bytes into a canvas and drawing a filled polygon onto
//! one are delegated to the `image` and `imageproc` crates behind trusted
//! wrappers; compositing one canvas onto another at an offset is
//! delegated to `image::imageops::overlay`, whose effect on RGB buffers
//! is stated exactly.

use vstd::prelude::*;
use crate::geom::PIXEL_BOUND;

verus! {

/// A `width * height` RGB raster; `pixels` holds three bytes per pixel,
/// row-major.
#[derive(Debug)]
pub struct Canvas {
    pub width: u32,
    pub height: u32,
    pub pixels: Vec<u8>,
}

/// The byte offset of channel `ch` of pixel `(x, y)` on a canvas of width
/// `w`.
pub open spec fn pixel_offset(w: int, x: int, y: int, ch: int) -> int {
    3 * (y * w + x) + ch
}

impl Canvas {
    /// The canvas invariant: the buffer holds exactly its pixels.
    pub open spec fn wf(self) -> bool {
        self.pixels@.len() == 3 * (self.width as int) * (self.height as int)
    }

    /// The channel `ch` of pixel `(x, y)`.
    pub open spec fn pixel(self, x: int, y: int, ch: int) -> u8 {
        self.pixels@[pixel_offset(self.width as int, x, y, ch)]
    }

    /// An all-zero (black, which the outline layer treats as blank)
    /// canvas.
    pub fn blank(width: u32, height: u32) -> (r: Canvas)
        requires
            3 * (width as int) * (height as int) <= usize::MAX,
        ensures
            r.wf(),
            r.width == width,
            r.height == height,
            forall|i: int| 0 <= i < r.pixels@.len() ==> r.pixels@[i] == 0,
    {
        proof {
            assert((width as int) * (height as int) >= 0 && (width as int) * (height as int) * 3
                == 3 * (width as int) * (height as int)) by (nonlinear_arith);
        }
        let n: usize = (width as usize) * (height as usize) * 3;
        let mut pixels: Vec<u8> = Vec::new();
        let mut i: usize = 0;
        while i < n
            invariant
                0 <= i <= n,
                pixels@.len() == i,
                forall|t: int| 0 <= t < i ==> pixels@[t] == 0,
            decreases n - i,
        {
            pixels.push(0);
            i += 1;
        }
        Canvas { width, height, pixels }
    }

    /// Overwrite every pixel with one color.
    pub fn fill(&mut self, color: (u8, u8, u8))
        requires
            old(self).wf(),
        ensures
            final(self).wf(),
            final(self).width == old(self).width,
            final(self).height == old(self).height,
            final(self).pixels@.len() == old(self).pixels@.len(),
            forall|i: int| 0 <= i < final(self).pixels@.len() ==> final(self).pixels@[i] == (
            if i % 3 == 0 {
                color.0
            } else if i % 3 == 1 {
                color.1
            } else {
                color.2
            }),
    {
        let n = self.pixels.len();
        let mut i: usize = 0;
        while i < n
            invariant
                0 <= i <= n,
                n == self.pixels@.len(),
                self.width == old(self).width,
                self.height == old(self).height,
                self.wf(),
                forall|t: int| 0 <= t < i ==> self.pixels@[t] == (
                if t % 3 == 0 {
                    color.0
                } else if t % 3 == 1 {
                    color.1
                } else {
                    color.2
                }),
            decreases n - i,
        {
            let b = if i % 3 == 0 {
                color.0
            } else if i % 3 == 1 {
                color.1
            } else {
                color.2
            };
            self.pixels.set(i, b);
            i += 1;
        }
    }
}

/// The bytes handed to the decoder were not a decodable image.
#[derive(Clone, Copy, Debug, PartialEq, Eq, Structural)]
pub enum DecodeError {
    InvalidImage,
}

/// What decoding a byte string as an image yields, as the RGB8 triple
/// `(width, height, pixel bytes)`: a pure function of the bytes alone,
/// `None` exactly for undecodable bytes.
pub uninterp spec fn rgb_decoded(bytes: Seq<u8>) -> Option<(int, int, Seq<u8>)>;

/// Relies on `image::io::Reader` (format guessed from the bytes),
/// `DynamicImage::into_rgb8` and `ImageBuffer::into_raw`: a decodable
/// image comes back as its RGB8 buffer, three bytes per pixel, row-major,
/// of length exactly `3 * width * height`; undecodable bytes are an
/// error. The result is a function of the bytes alone, named
/// `rgb_decoded`.
#[verifier::external_body]
pub fn decode_rgb_image(bytes: &Vec<u8>) -> (r: Result<Canvas, DecodeError>)
    ensures
        match r {
            Ok(c) => {
                &&& rgb_decoded(bytes@) == Some((c.width as int, c.height as int, c.pixels@))
                &&& c.wf()
                &&& 3 * (c.width as int) * (c.height as int) <= usize::MAX
            },
            Err(e) => rgb_decoded(bytes@) is None && e == DecodeError::InvalidImage,
        },
{
    let reader = image::io::Reader::new(std::io::Cursor::new(bytes.as_slice()));
    let reader = match reader.with_guessed_format() {
        Ok(r) => r,
        Err(_) => return Err(DecodeError::InvalidImage),
    };
    let img = match reader.decode() {
        Ok(i) => i,
        Err(_) => return Err(DecodeError::InvalidImage),
    };
    let rgb = img.into_rgb8();
    let width = rgb.width();
    let height = rgb.height();
    Ok(Canvas { width, height, pixels: rgb.into_raw() })
}

/// What `imageproc::drawing::draw_polygon_mut` leaves in an RGB buffer: a
/// pure function of the canvas contents, the vertices and the color.
pub uninterp spec fn polygon_drawn(
    width: int,
    height: int,
    pixels: Seq<u8>,
    pts: Seq<(int, int)>,
    color: (u8, u8, u8),
) -> Seq<u8>;

/// The vertex list as plain pairs.
pub open spec fn points_view(pts: Seq<(i32, i32)>) -> Seq<(int, int)> {
    pts.map_values(|p: (i32, i32)| (p.0 as int, p.1 as int))
}

/// Relies on `imageproc::drawing::draw_polygon_mut`: fills the polygon
/// given by the vertices (an open path; the call rejects a closed one, so
/// the first and last vertex must differ) into the canvas in place with
/// the color, clipped to the canvas. The buffer is mutated pixel by pixel
/// and keeps its length. The call scanlines at least row zero even of an
/// empty canvas and steps one past each vertex coordinate, so a non-empty
/// vertex list demands a canvas at least one pixel tall and vertices
/// within the pixel coordinate range.
#[verifier::external_body]
pub fn draw_polygon(canvas: &mut Canvas, pts: &Vec<(i32, i32)>, color: (u8, u8, u8))
    requires
        old(canvas).wf(),
        pts@.len() == 0 || pts@.first() != pts@.last(),
        pts@.len() > 0 ==> old(canvas).height >= 1,
        forall|i: int|
            0 <= i < pts@.len() ==> -PIXEL_BOUND <= (#[trigger] pts@[i]).0 <= PIXEL_BOUND
                && -PIXEL_BOUND <= pts@[i].1 <= PIXEL_BOUND,
    ensures
        final(canvas).width == old(canvas).width,
        final(canvas).height == old(canvas).height,
        final(canvas).pixels@.len() == old(canvas).pixels@.len(),
        final(canvas).pixels@ == polygon_drawn(
            old(canvas).width as int,
            old(canvas).height as int,
            old(canvas).pixels@,
            points_view(pts@),
            color,
        ),
{
    let w = canvas.width;
    let h = canvas.height;
    let buf = std::mem::take(&mut canvas.pixels);
    let mut img: image::ImageBuffer<image::Rgb<u8>, Vec<u8>> = image::ImageBuffer::from_raw(
        w, h, buf).unwrap();
    let points: Vec<imageproc::point::Point<i32>> = pts.iter().map(
        |p: &(i32, i32)| imageproc::point::Point::new(p.0, p.1)).collect();
    imageproc::drawing::draw_polygon_mut(&mut img, &points, image::Rgb(
        [color.0, color.1, color.2]));
    canvas.pixels = img.into_raw();
}

/// The buffer `overlay_canvas` leaves behind: within the pasted region
/// the source's bytes, elsewhere the destination's.
pub open spec fn overlay_region(
    dw: int,
    dst: Seq<u8>,
    sw: int,
    sh: int,
    src: Seq<u8>,
    ox: int,
    oy: int,
) -> Seq<u8> {
    Seq::new(
        dst.len(),
        |i: int|
            {
                let p = i / 3;
                let ch = i % 3;
                let px = p % dw;
                let py = p / dw;
                if ox <= px < ox + sw && oy <= py < oy + sh {
                    src[3 * ((py - oy) * sw + (px - ox)) + ch]
                } else {
                    dst[i]
                }
            },
    )
}

/// Relies on `image::imageops::overlay` on RGB8 buffers: blending RGB
/// pixels replaces them, so with the source lying fully inside the
/// destination the call copies the source buffer into the rectangle at
/// `(ox, oy)` and leaves every other pixel untouched.
#[verifier::external_body]
pub fn overlay_canvas(dst: &mut Canvas, src: &Canvas, ox: u32, oy: u32)
    requires
        old(dst).wf(),
        src.wf(),
        ox + src.width <= old(dst).width,
        oy + src.height <= old(dst).height,
    ensures
        final(dst).width == old(dst).width,
        final(dst).height == old(dst).height,
        final(dst).pixels@ == overlay_region(
            old(dst).width as int,
            old(dst).pixels@,
            src.width as int,
            src.height as int,
            src.pixels@,
            ox as int,
            oy as int,
        ),
{
    let w = dst.width;
    let h = dst.height;
    let buf = std::mem::take(&mut dst.pixels);
    let mut bottom: image::ImageBuffer<image::Rgb<u8>, Vec<u8>> = image::ImageBuffer::from_raw(
        w, h, buf).unwrap();
    let top: image::ImageBuffer<image::Rgb<u8>, Vec<u8>> = image::ImageBuffer::from_raw(
        src.width, src.height, src.pixels.clone()).unwrap();
    image::imageops::overlay(&mut bottom, &top, ox as i64, oy as i64);
    dst.pixels = bottom.into_raw();
}

} // verus!
