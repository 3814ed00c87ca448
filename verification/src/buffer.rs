//! The image that the recolouring works on, stored in a buffer of the
//! `image` crate.

use vstd::prelude::*;
use crate::pixel::Pixel;
use crate::grid::Grid;

verus! {

/// An RGBA image with 8 bits per channel.
///
/// The pixels live in an `image::RgbaImage`. Verus does not look inside it:
/// what it holds is named by [`grid_pixels`] and [`grid_dimensions`].
#[verifier::external_body]
#[derive(Debug, PartialEq, Eq)]
pub struct PixelGrid {
    buffer: image::RgbaImage,
}

/// The pixel that the image holds at each location `(x, y)`.
pub uninterp spec fn grid_pixels(grid: PixelGrid) -> Map<(int, int), Pixel>;

/// The width and the height of the image.
pub uninterp spec fn grid_dimensions(grid: PixelGrid) -> (u32, u32);

/// The pixel that a row-major buffer of samples, four to a pixel, holds for
/// location `(x, y)` of an image of the given width.
pub open spec fn pixel_of_samples(samples: Seq<u8>, width: int, x: int, y: int) -> Pixel {
    let i = 4 * (y * width + x);
    Pixel { red: samples[i], green: samples[i + 1], blue: samples[i + 2], alpha: samples[i + 3] }
}

/// Whether `len` samples are enough for an image of the given dimensions:
/// four for each pixel, where the samples of one row can be counted in
/// `usize`.
pub open spec fn samples_suffice(width: u32, height: u32, len: nat) -> bool {
    4 * width <= usize::MAX && 4 * width * height <= len
}

impl View for PixelGrid {
    type V = Grid;

    /// The pixels inside the image's dimensions.
    open spec fn view(&self) -> Grid {
        let (width, height) = grid_dimensions(*self);
        Grid {
            width: width as int,
            height: height as int,
            pixels: Map::new(
                |c: (int, int)| 0 <= c.0 < width && 0 <= c.1 < height,
                |c: (int, int)| grid_pixels(*self)[c],
            ),
        }
    }
}

impl PixelGrid {
    /// `ImageBuffer::from_raw`: an image over `samples` if they are enough
    /// for `width * height` pixels of four samples each, else nothing. The
    /// number of samples needed is computed in `usize`, a row first, and
    /// there is no image either where that overflows. The pixel at `(x, y)`
    /// is made of the four samples from index `4 * (y * width + x)` on.
    #[verifier::external_body]
    fn wrap_raw(width: u32, height: u32, samples: Vec<u8>) -> (r: Option<PixelGrid>)
        ensures
            r is Some <==> samples_suffice(width, height, samples@.len()),
            r matches Some(grid) ==> {
                &&& grid_dimensions(grid) == (width, height)
                &&& forall|x: int, y: int| 0 <= x < width && 0 <= y < height ==>
                    #[trigger] grid_pixels(grid)[(x, y)] == pixel_of_samples(samples@, width as int, x, y)
            },
    {
        let buffer = image::RgbaImage::from_raw(width, height, samples)?;
        Some(PixelGrid { buffer })
    }

    /// `ImageBuffer::into_raw`: the samples of the image, row by row and
    /// four to a pixel. There are at least as many as the pixels need.
    #[verifier::external_body]
    fn unwrap_raw(self) -> (samples: Vec<u8>)
        ensures
            4 * grid_dimensions(self).0 * grid_dimensions(self).1 <= samples@.len(),
            forall|x: int, y: int| 0 <= x < grid_dimensions(self).0 && 0 <= y < grid_dimensions(self).1 ==>
                #[trigger] grid_pixels(self)[(x, y)] == pixel_of_samples(samples@, grid_dimensions(self).0 as int, x, y),
    {
        self.buffer.into_raw()
    }

    /// `ImageBuffer::dimensions`: the width and the height.
    #[verifier::external_body]
    fn raw_dimensions(&self) -> (d: (u32, u32))
        ensures
            d == grid_dimensions(*self),
    {
        self.buffer.dimensions()
    }

    /// `ImageBuffer::get_pixel`: the pixel at `(x, y)`, which must lie inside
    /// the image.
    #[verifier::external_body]
    fn raw_get_pixel(&self, x: u32, y: u32) -> (p: Pixel)
        requires
            x < grid_dimensions(*self).0,
            y < grid_dimensions(*self).1,
        ensures
            p == grid_pixels(*self)[(x as int, y as int)],
    {
        let q = self.buffer.get_pixel(x, y);
        Pixel { red: q.0[0], green: q.0[1], blue: q.0[2], alpha: q.0[3] }
    }

    /// `ImageBuffer::put_pixel`: replaces the pixel at `(x, y)`, which must
    /// lie inside the image, and nothing else.
    #[verifier::external_body]
    fn raw_put_pixel(&mut self, x: u32, y: u32, p: Pixel)
        requires
            x < grid_dimensions(*old(self)).0,
            y < grid_dimensions(*old(self)).1,
        ensures
            grid_dimensions(*final(self)) == grid_dimensions(*old(self)),
            grid_pixels(*final(self)) == grid_pixels(*old(self)).insert((x as int, y as int), p),
    {
        self.buffer.put_pixel(x, y, image::Rgba([p.red, p.green, p.blue, p.alpha]));
    }

    /// `Clone::clone` of the buffer: an image of the same dimensions with
    /// the same pixels.
    #[verifier::external_body]
    fn duplicate(&self) -> (copy: PixelGrid)
        ensures
            grid_dimensions(copy) == grid_dimensions(*self),
            grid_pixels(copy) == grid_pixels(*self),
    {
        PixelGrid { buffer: self.buffer.clone() }
    }

    /// An image of the given dimensions over `samples`, which hold the
    /// pixels row by row, four samples (red, green, blue, alpha) to a pixel.
    /// There is no such image if the samples are too few, nor if a row alone
    /// needs more samples than `usize` can count.
    pub fn from_raw(width: u32, height: u32, samples: Vec<u8>) -> (r: Option<PixelGrid>)
        ensures
            r is Some <==> samples_suffice(width, height, samples@.len()),
            r matches Some(grid) ==> {
                &&& grid@.width == width
                &&& grid@.height == height
                &&& forall|x: int, y: int| grid@.contains(x, y) ==>
                    #[trigger] grid@.at(x, y) == pixel_of_samples(samples@, width as int, x, y)
            },
    {
        PixelGrid::wrap_raw(width, height, samples)
    }

    /// The samples of the image, row by row, four to a pixel.
    pub fn into_raw(self) -> (samples: Vec<u8>)
        ensures
            4 * self@.width * self@.height <= samples@.len(),
            forall|x: int, y: int| self@.contains(x, y) ==>
                #[trigger] self@.at(x, y) == pixel_of_samples(samples@, self@.width, x, y),
    {
        self.unwrap_raw()
    }

    /// The pixel at `(x, y)`, which must lie inside the image.
    pub fn get_pixel(&self, x: u32, y: u32) -> (p: Pixel)
        requires
            self@.contains(x as int, y as int),
        ensures
            p == self@.at(x as int, y as int),
    {
        self.raw_get_pixel(x, y)
    }

    /// Puts `p` in place of the pixel at `(x, y)`, which must lie inside the
    /// image.
    pub fn put_pixel(&mut self, x: u32, y: u32, p: Pixel)
        requires
            old(self)@.contains(x as int, y as int),
        ensures
            final(self)@ == old(self)@.with_pixel(x as int, y as int, p),
    {
        self.raw_put_pixel(x, y, p);
        assert(self@.pixels =~= old(self)@.pixels.insert((x as int, y as int), p));
    }

    /// The width and the height of the image.
    pub fn dimensions(&self) -> (d: (u32, u32))
        ensures
            d.0 == self@.width,
            d.1 == self@.height,
    {
        self.raw_dimensions()
    }
}

impl Clone for PixelGrid {
    fn clone(&self) -> (copy: Self)
        ensures
            copy@ == self@,
    {
        self.duplicate()
    }
}

} // verus!
