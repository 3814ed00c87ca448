//! Recolouring to transparent black.

use vstd::prelude::*;
use crate::pixel::{Pixel, is_transparent};
use crate::grid::{Grid, comes_before};
use crate::buffer::PixelGrid;

verus! {

/// What the recolouring to black makes of one pixel.
pub open spec fn blackened_pixel(p: Pixel) -> Pixel {
    if p.transparent() {
        Pixel::clear()
    } else {
        p
    }
}

/// What the recolouring to black makes of an image.
pub open spec fn blackened(g: Grid) -> Grid {
    Grid {
        width: g.width,
        height: g.height,
        pixels: Map::new(
            |c: (int, int)| g.contains(c.0, c.1),
            |c: (int, int)| blackened_pixel(g.at(c.0, c.1)),
        ),
    }
}

/// Replaces every transparent pixel by black with alpha 0 and leaves the
/// opaque pixels as they are.
pub fn recolor_uniform(img: &mut PixelGrid)
    ensures
        final(img)@ == blackened(old(img)@),
        forall|x: int, y: int|
            old(img)@.transparent_at(x, y) ==> #[trigger] final(img)@.at(x, y) == Pixel::clear(),
        forall|x: int, y: int|
            old(img)@.opaque_at(x, y) ==> #[trigger] final(img)@.at(x, y) == old(img)@.at(x, y),
{
    let (width, height) = img.dimensions();
    let mut y: u32 = 0;
    while y < height
        invariant
            y <= height,
            img@.width == width,
            img@.height == height,
            old(img)@.width == width,
            old(img)@.height == height,
            forall|i: int, j: int|
                img@.contains(i, j) ==> #[trigger] img@.at(i, j) == if comes_before(i, j, 0, y as int) {
                    blackened_pixel(old(img)@.at(i, j))
                } else {
                    old(img)@.at(i, j)
                },
        decreases height - y,
    {
        let mut x: u32 = 0;
        while x < width
            invariant
                x <= width,
                y < height,
                img@.width == width,
                img@.height == height,
                old(img)@.width == width,
                old(img)@.height == height,
                forall|i: int, j: int|
                    img@.contains(i, j) ==> #[trigger] img@.at(i, j) == if comes_before(
                        i,
                        j,
                        x as int,
                        y as int,
                    ) {
                        blackened_pixel(old(img)@.at(i, j))
                    } else {
                        old(img)@.at(i, j)
                    },
            decreases width - x,
        {
            let p = img.get_pixel(x, y);
            if is_transparent(&p) {
                img.put_pixel(x, y, Pixel { red: 0, green: 0, blue: 0, alpha: 0 });
            }
            x += 1;
        }
        y += 1;
    }
    assert(img@.pixels =~= blackened(old(img)@).pixels);
}

/// Recolouring to black a second time changes nothing.
pub proof fn lemma_blackened_idempotent(g: Grid)
    ensures
        blackened(blackened(g)) == blackened(g),
{
    assert(blackened(blackened(g)).pixels =~= blackened(g).pixels);
}

} // verus!
