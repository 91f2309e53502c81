//! Pixel storage: rasters kept in the buffers of the `image` crate.
//!
//! The buffers are opaque to the verifier.  What the drawing code knows of
//! them is stated here, over the map from `(column, row)` to the pixel
//! stored there.
use vstd::prelude::*;
use crate::Color;

verus! {

/// An RGBA raster kept in an `image::RgbaImage`.
#[verifier::external_body]
pub struct RgbaBuffer {
    img: image::RgbaImage,
}

/// An RGB raster kept in an `image::RgbImage`.
#[verifier::external_body]
pub struct RgbBuffer {
    img: image::RgbImage,
}

/// The pixels of an RGBA raster, by `(column, row)`.
pub uninterp spec fn rgba_pixels(img: RgbaBuffer) -> Map<(int, int), Color>;

/// The width that an RGBA raster was made with.
pub uninterp spec fn rgba_width(img: RgbaBuffer) -> int;

/// The height that an RGBA raster was made with.
pub uninterp spec fn rgba_height(img: RgbaBuffer) -> int;

/// The pixels of an RGB raster, by `(column, row)`.
pub uninterp spec fn rgb_pixels(img: RgbBuffer) -> Map<(int, int), (u8, u8, u8)>;

/// The width that an RGB raster was made with.
pub uninterp spec fn rgb_width(img: RgbBuffer) -> int;

/// The height that an RGB raster was made with.
pub uninterp spec fn rgb_height(img: RgbBuffer) -> int;

/// The positions of a raster `width` wide and `height` high.
pub open spec fn in_raster(width: int, height: int, p: (int, int)) -> bool {
    0 <= p.0 < width && 0 <= p.1 < height
}

/// The fully transparent pixel.
pub open spec fn clear_pixel() -> Color {
    Color { r: 0, g: 0, b: 0, a: 0 }
}

impl RgbaBuffer {
    pub open spec fn view(&self) -> Map<(int, int), Color> {
        rgba_pixels(*self)
    }

    pub open spec fn spec_width(&self) -> int {
        rgba_width(*self)
    }

    pub open spec fn spec_height(&self) -> int {
        rgba_height(*self)
    }

    /// The raster holds exactly the positions inside its size.
    pub open spec fn wf(&self) -> bool {
        &&& 0 <= self.spec_width() <= u32::MAX
        &&& 0 <= self.spec_height() <= u32::MAX
        &&& forall|p: (int, int)|
            self@.dom().contains(p) <==> in_raster(self.spec_width(), self.spec_height(), p)
    }

    /// `ImageBuffer::new`: a raster of the given size whose samples are
    /// all zero.  It panics where the buffer would not fit a `Vec`.
    #[verifier::external_body]
    pub(crate) fn blank(width: u32, height: u32) -> (img: RgbaBuffer)
        requires
            4 * width * height <= isize::MAX,
        ensures
            rgba_width(img) == width,
            rgba_height(img) == height,
            rgba_pixels(img) == Map::new(
                |p: (int, int)| in_raster(width as int, height as int, p),
                |p: (int, int)| clear_pixel(),
            ),
    {
        RgbaBuffer { img: image::RgbaImage::new(width, height) }
    }

    /// `ImageBuffer::dimensions`: the width and the height.
    #[verifier::external_body]
    pub(crate) fn size(&self) -> (wh: (u32, u32))
        ensures
            wh.0 == rgba_width(*self),
            wh.1 == rgba_height(*self),
    {
        self.img.dimensions()
    }

    /// `ImageBuffer::get_pixel`: the pixel at column `x` of row `y`.  It
    /// panics outside the raster.
    #[verifier::external_body]
    pub(crate) fn get(&self, x: u32, y: u32) -> (c: Color)
        requires
            x < rgba_width(*self),
            y < rgba_height(*self),
        ensures
            c == rgba_pixels(*self)[(x as int, y as int)],
    {
        let p = self.img.get_pixel(x, y);
        Color { r: p.0[0], g: p.0[1], b: p.0[2], a: p.0[3] }
    }

    /// `ImageBuffer::put_pixel`: replaces the pixel at column `x` of row
    /// `y` and nothing else.  It panics outside the raster.
    #[verifier::external_body]
    pub(crate) fn put(&mut self, x: u32, y: u32, c: Color)
        requires
            x < rgba_width(*old(self)),
            y < rgba_height(*old(self)),
        ensures
            rgba_width(*final(self)) == rgba_width(*old(self)),
            rgba_height(*final(self)) == rgba_height(*old(self)),
            rgba_pixels(*final(self)) == rgba_pixels(*old(self)).insert((x as int, y as int), c),
    {
        self.img.put_pixel(x, y, image::Rgba([c.r, c.g, c.b, c.a]));
    }

    /// The width of the raster.
    pub fn width(&self) -> (w: u32)
        ensures
            w == self.spec_width(),
    {
        self.size().0
    }

    /// The height of the raster.
    pub fn height(&self) -> (h: u32)
        ensures
            h == self.spec_height(),
    {
        self.size().1
    }

    /// The pixel at column `x` of row `y`, if the raster has one there.
    pub fn pixel(&self, x: u32, y: u32) -> (r: Option<Color>)
        ensures
            r == if x < self.spec_width() && y < self.spec_height() {
                Some(self@[(x as int, y as int)])
            } else {
                None
            },
    {
        let (w, h) = self.size();
        if x < w && y < h {
            Some(self.get(x, y))
        } else {
            None
        }
    }
}

impl RgbBuffer {
    pub open spec fn view(&self) -> Map<(int, int), (u8, u8, u8)> {
        rgb_pixels(*self)
    }

    pub open spec fn spec_width(&self) -> int {
        rgb_width(*self)
    }

    pub open spec fn spec_height(&self) -> int {
        rgb_height(*self)
    }

    /// The raster holds exactly the positions inside its size.
    pub open spec fn wf(&self) -> bool {
        &&& 0 <= self.spec_width() <= u32::MAX
        &&& 0 <= self.spec_height() <= u32::MAX
        &&& forall|p: (int, int)|
            self@.dom().contains(p) <==> in_raster(self.spec_width(), self.spec_height(), p)
    }

    /// `ImageBuffer::new`: a raster of the given size whose samples are
    /// all zero.  It panics where the buffer would not fit a `Vec`.
    #[verifier::external_body]
    pub(crate) fn blank(width: u32, height: u32) -> (img: RgbBuffer)
        requires
            3 * width * height <= isize::MAX,
        ensures
            rgb_width(img) == width,
            rgb_height(img) == height,
            rgb_pixels(img) == Map::new(
                |p: (int, int)| in_raster(width as int, height as int, p),
                |p: (int, int)| (0u8, 0u8, 0u8),
            ),
    {
        RgbBuffer { img: image::RgbImage::new(width, height) }
    }

    /// `ImageBuffer::dimensions`: the width and the height.
    #[verifier::external_body]
    pub(crate) fn size(&self) -> (wh: (u32, u32))
        ensures
            wh.0 == rgb_width(*self),
            wh.1 == rgb_height(*self),
    {
        self.img.dimensions()
    }

    /// `ImageBuffer::get_pixel`: the pixel at column `x` of row `y`.  It
    /// panics outside the raster.
    #[verifier::external_body]
    pub(crate) fn get(&self, x: u32, y: u32) -> (c: (u8, u8, u8))
        requires
            x < rgb_width(*self),
            y < rgb_height(*self),
        ensures
            c == rgb_pixels(*self)[(x as int, y as int)],
    {
        let p = self.img.get_pixel(x, y);
        (p.0[0], p.0[1], p.0[2])
    }

    /// `ImageBuffer::put_pixel`: replaces the pixel at column `x` of row
    /// `y` and nothing else.  It panics outside the raster.
    #[verifier::external_body]
    pub(crate) fn put(&mut self, x: u32, y: u32, c: (u8, u8, u8))
        requires
            x < rgb_width(*old(self)),
            y < rgb_height(*old(self)),
        ensures
            rgb_width(*final(self)) == rgb_width(*old(self)),
            rgb_height(*final(self)) == rgb_height(*old(self)),
            rgb_pixels(*final(self)) == rgb_pixels(*old(self)).insert((x as int, y as int), c),
    {
        self.img.put_pixel(x, y, image::Rgb([c.0, c.1, c.2]));
    }

    /// The width of the raster.
    pub fn width(&self) -> (w: u32)
        ensures
            w == self.spec_width(),
    {
        self.size().0
    }

    /// The height of the raster.
    pub fn height(&self) -> (h: u32)
        ensures
            h == self.spec_height(),
    {
        self.size().1
    }

    /// The pixel at column `x` of row `y`, if the raster has one there.
    pub fn pixel(&self, x: u32, y: u32) -> (r: Option<(u8, u8, u8)>)
        ensures
            r == if x < self.spec_width() && y < self.spec_height() {
                Some(self@[(x as int, y as int)])
            } else {
                None
            },
    {
        let (w, h) = self.size();
        if x < w && y < h {
            Some(self.get(x, y))
        } else {
            None
        }
    }
}

} // verus!
