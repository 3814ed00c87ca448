//! Recolouring to the mean colour of the opaque pixels.

use vstd::prelude::*;
use crate::pixel::{Pixel, Tally, is_transparent, lemma_mean_fits};
use crate::grid::{
    Grid,
    comes_before,
    lemma_tally_counts_opaque,
    lemma_tally_row_bounded,
    lemma_tally_rows_bounded,
};
use crate::buffer::PixelGrid;

verus! {

/// The reason why an image has no mean colour: none of its pixels is opaque.
#[derive(Clone, Copy, Debug, PartialEq, Eq, Structural)]
pub struct NoOpaquePixels;

impl NoOpaquePixels {
    /// The reason in words.
    pub fn message(&self) -> (text: String)
        ensures
            text@ == "the image has no opaque pixel"@,
    {
        "the image has no opaque pixel".to_string()
    }
}

/// The colour that the transparent pixels of an image take: the mean of its
/// opaque pixels, each channel rounded down, with alpha 0. An image without
/// an opaque pixel has none.
pub open spec fn average_color(g: Grid) -> Option<Pixel> {
    match g.tally().mean() {
        Some(mean) => Some(mean.with_alpha(0)),
        None => None,
    }
}

/// The image with `color` in place of every transparent pixel.
pub open spec fn flooded(g: Grid, color: Pixel) -> Grid {
    Grid {
        width: g.width,
        height: g.height,
        pixels: Map::new(
            |c: (int, int)| g.contains(c.0, c.1),
            |c: (int, int)| if g.at(c.0, c.1).transparent() { color } else { g.at(c.0, c.1) },
        ),
    }
}

/// What the recolouring makes of an image: its mean colour in place of every
/// transparent pixel. An image that has no mean colour stays as it is.
pub open spec fn averaged(g: Grid) -> Grid {
    match average_color(g) {
        Some(color) => flooded(g, color),
        None => g,
    }
}

/// The mean colour of the opaque pixels of the image, each channel rounded
/// down, with alpha 0. There is none where no pixel is opaque.
pub fn calculate_pixel_color_average(img: &PixelGrid) -> (color: Option<Pixel>)
    ensures
        color == average_color(img@),
        color is Some <==> img@.has_opaque(),
{
    let (width, height) = img.dimensions();
    let mut count: u128 = 0;
    let mut red: u128 = 0;
    let mut green: u128 = 0;
    let mut blue: u128 = 0;
    let mut y: u32 = 0;
    while y < height
        invariant
            y <= height,
            img@.width == width,
            img@.height == height,
            count <= y * 0x1_0000_0000,
            img@.tally_rows(y as int).bounded(),
            img@.tally_rows(y as int) == (Tally {
                count: count as int,
                red: red as int,
                green: green as int,
                blue: blue as int,
            }),
        decreases height - y,
    {
        let ghost before = img@.tally_rows(y as int);
        let mut x: u32 = 0;
        while x < width
            invariant
                x <= width,
                y < height,
                img@.width == width,
                img@.height == height,
                before.bounded(),
                before.count <= y * 0x1_0000_0000,
                count <= before.count + x,
                img@.tally_row(before, y as int, x as int).bounded(),
                img@.tally_row(before, y as int, x as int) == (Tally {
                    count: count as int,
                    red: red as int,
                    green: green as int,
                    blue: blue as int,
                }),
            decreases width - x,
        {
            let p = img.get_pixel(x, y);
            proof {
                lemma_tally_row_bounded(img@, before, y as int, x + 1);
            }
            if !is_transparent(&p) {
                count += 1;
                red += p.red as u128;
                green += p.green as u128;
                blue += p.blue as u128;
            }
            x += 1;
        }
        y += 1;
    }
    proof {
        lemma_tally_counts_opaque(img@);
    }
    if count == 0 {
        None
    } else {
        proof {
            lemma_mean_fits(red as int, count as int);
            lemma_mean_fits(green as int, count as int);
            lemma_mean_fits(blue as int, count as int);
        }
        Some(
            Pixel {
                red: (red / count) as u8,
                green: (green / count) as u8,
                blue: (blue / count) as u8,
                alpha: 0,
            },
        )
    }
}

/// Replaces every transparent pixel by the mean colour of the opaque pixels,
/// with alpha 0, and leaves the opaque pixels as they are. An image without
/// an opaque pixel has no mean colour: it is left as it is, and the error
/// says so.
pub fn recolor_average(img: &mut PixelGrid) -> (r: Result<(), NoOpaquePixels>)
    ensures
        r is Ok <==> old(img)@.has_opaque(),
        r is Err ==> *final(img) == *old(img),
        final(img)@ == averaged(old(img)@),
        r is Ok ==> forall|x: int, y: int|
            old(img)@.transparent_at(x, y) ==> #[trigger] final(img)@.at(x, y) == (Pixel {
                red: (old(img)@.tally().red / old(img)@.tally().count) as u8,
                green: (old(img)@.tally().green / old(img)@.tally().count) as u8,
                blue: (old(img)@.tally().blue / old(img)@.tally().count) as u8,
                alpha: 0,
            }),
        forall|x: int, y: int|
            old(img)@.opaque_at(x, y) ==> #[trigger] final(img)@.at(x, y) == old(img)@.at(x, y),
{
    let color = match calculate_pixel_color_average(img) {
        Some(color) => color,
        None => {
            return Err(NoOpaquePixels);
        },
    };
    let (width, height) = img.dimensions();
    let mut y: u32 = 0;
    while y < height
        invariant
            y <= height,
            img@.width == width,
            img@.height == height,
            old(img)@.width == width,
            old(img)@.height == height,
            forall|i: int, j: int|
                img@.contains(i, j) ==> #[trigger] img@.at(i, j) == if comes_before(i, j, 0, y as int)
                    && old(img)@.at(i, j).transparent() {
                    color
                } else {
                    old(img)@.at(i, j)
                },
        decreases height - y,
    {
        let mut x: u32 = 0;
        while x < width
            invariant
                x <= width,
                y < height,
                img@.width == width,
                img@.height == height,
                old(img)@.width == width,
                old(img)@.height == height,
                forall|i: int, j: int|
                    img@.contains(i, j) ==> #[trigger] img@.at(i, j) == if comes_before(
                        i,
                        j,
                        x as int,
                        y as int,
                    ) && old(img)@.at(i, j).transparent() {
                        color
                    } else {
                        old(img)@.at(i, j)
                    },
            decreases width - x,
        {
            let p = img.get_pixel(x, y);
            if is_transparent(&p) {
                img.put_pixel(x, y, color);
            }
            x += 1;
        }
        y += 1;
    }
    assert(img@.pixels =~= flooded(old(img)@, color).pixels);
    Ok(())
}

} // verus!
