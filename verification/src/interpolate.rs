//! Recolouring by spreading the colours of the opaque pixels into the
//! transparent regions, one ring of pixels in each pass.

use vstd::prelude::*;
use crate::pixel::{Pixel, Tally, is_transparent, mean_of_opaque, lemma_tally_of_bounded};
use crate::grid::{Grid, comes_before, lemma_fewer_transparent};
use crate::buffer::PixelGrid;

verus! {

/// What one pass makes of the pixel at `(x, y)` as long as the image has an
/// opaque pixel somewhere. An opaque pixel stays. A transparent pixel with
/// opaque neighbours takes their mean colour and becomes opaque. One without
/// waits for a later pass as transparent black.
pub open spec fn spread_pixel(g: Grid, x: int, y: int) -> Pixel {
    let p = g.at(x, y);
    if !p.transparent() {
        p
    } else {
        match Tally::of(g.neighbours(x, y)).mean() {
            Some(mean) => mean,
            None => Pixel::clear(),
        }
    }
}

/// What one pass makes of the pixel at `(x, y)`. In an image without any
/// opaque pixel there is no colour to wait for, and every pixel becomes
/// opaque black.
pub open spec fn propagated_pixel(g: Grid, x: int, y: int) -> Pixel {
    if g.has_opaque() {
        spread_pixel(g, x, y)
    } else {
        Pixel::solid_black()
    }
}

/// What one pass makes of an image. Every pixel is computed from the image
/// as it was before the pass.
pub open spec fn propagated(g: Grid) -> Grid {
    Grid {
        width: g.width,
        height: g.height,
        pixels: Map::new(
            |c: (int, int)| g.contains(c.0, c.1),
            |c: (int, int)| propagated_pixel(g, c.0, c.1),
        ),
    }
}

/// The image after as many passes as it takes until no pixel is transparent.
pub open spec fn settled(g: Grid) -> Grid
    decreases g.transparent_count(),
    when g.well_formed()
    via settled_terminates
{
    if g.has_transparent() {
        settled(propagated(g))
    } else {
        g
    }
}

#[via_fn]
proof fn settled_terminates(g: Grid) {
    if g.has_transparent() {
        lemma_pass_shrinks(g);
    }
}

/// The pixels of `g`, each with the alpha that `snapshot` has at its place.
pub open spec fn with_alpha_of(g: Grid, snapshot: Grid) -> Grid {
    Grid {
        width: g.width,
        height: g.height,
        pixels: Map::new(
            |c: (int, int)| g.contains(c.0, c.1),
            |c: (int, int)| g.at(c.0, c.1).with_alpha(snapshot.at(c.0, c.1).alpha),
        ),
    }
}

/// What the interpolation makes of an image: the colours spread until every
/// pixel has one, and the alpha channel as it was.
pub open spec fn interpolated(g: Grid) -> Grid {
    with_alpha_of(settled(g), g)
}

/// The coordinate one step from `from` towards `to`.
pub open spec fn step_towards(from: int, to: int) -> int {
    if from < to {
        from + 1
    } else if from > to {
        from - 1
    } else {
        from
    }
}

/// The distance between two coordinates.
pub open spec fn gap(a: int, b: int) -> nat {
    if a < b {
        (b - a) as nat
    } else {
        (a - b) as nat
    }
}

proof fn lemma_tally_push_at(g: Grid, pixels: Seq<Pixel>, x: int, y: int)
    ensures
        Tally::of(g.push_at(pixels, x, y)).count > 0 <==> Tally::of(pixels).count > 0 || g.opaque_at(
            x,
            y,
        ),
        g.push_at(pixels, x, y).len() <= pixels.len() + 1,
{
    lemma_tally_of_bounded(pixels);
    if g.contains(x, y) {
        assert(pixels.push(g.at(x, y)).drop_last() =~= pixels);
    }
}

/// The neighbours of a pixel are at most eight, and an opaque pixel is
/// counted among them exactly when one of the eight locations around it holds
/// one.
pub proof fn lemma_neighbours(g: Grid, x: int, y: int)
    ensures
        g.neighbours(x, y).len() <= 8,
        Tally::of(g.neighbours(x, y)).count > 0 <==> g.near_opaque(x, y),
{
    let s0 = Seq::<Pixel>::empty();
    let s1 = g.push_at(s0, x - 1, y);
    let s2 = g.push_at(s1, x - 1, y - 1);
    let s3 = g.push_at(s2, x - 1, y + 1);
    let s4 = g.push_at(s3, x + 1, y);
    let s5 = g.push_at(s4, x + 1, y - 1);
    let s6 = g.push_at(s5, x + 1, y + 1);
    let s7 = g.push_at(s6, x, y - 1);
    lemma_tally_push_at(g, s0, x - 1, y);
    lemma_tally_push_at(g, s1, x - 1, y - 1);
    lemma_tally_push_at(g, s2, x - 1, y + 1);
    lemma_tally_push_at(g, s3, x + 1, y);
    lemma_tally_push_at(g, s4, x + 1, y - 1);
    lemma_tally_push_at(g, s5, x + 1, y + 1);
    lemma_tally_push_at(g, s6, x, y - 1);
    lemma_tally_push_at(g, s7, x, y + 1);
}

/// Between a transparent pixel and an opaque one lies a transparent pixel
/// with an opaque neighbour: the walk from the first towards the second, one
/// step along each axis at a time, must pass one.
pub proof fn lemma_frontier(g: Grid, tx: int, ty: int, ox: int, oy: int) -> (c: (int, int))
    requires
        g.transparent_at(tx, ty),
        g.opaque_at(ox, oy),
    ensures
        g.transparent_at(c.0, c.1),
        g.near_opaque(c.0, c.1),
    decreases gap(tx, ox) + gap(ty, oy),
{
    let nx = step_towards(tx, ox);
    let ny = step_towards(ty, oy);
    if g.opaque_at(nx, ny) {
        (tx, ty)
    } else {
        lemma_frontier(g, nx, ny, ox, oy)
    }
}

/// A pass over an image with a transparent pixel leaves fewer of them.
pub proof fn lemma_pass_shrinks(g: Grid)
    requires
        g.well_formed(),
        g.has_transparent(),
    ensures
        propagated(g).transparent_count() < g.transparent_count(),
{
    let b = propagated(g);
    let (tx, ty) = choose|x: int, y: int| #[trigger] g.transparent_at(x, y);
    assert forall|i: int, j: int| #[trigger] b.transparent_at(i, j) implies g.transparent_at(i, j) by {
        assert(b.at(i, j) == propagated_pixel(g, i, j));
    }
    if g.has_opaque() {
        let (ox, oy) = choose|x: int, y: int| #[trigger] g.opaque_at(x, y);
        let (x, y) = lemma_frontier(g, tx, ty, ox, oy);
        lemma_neighbours(g, x, y);
        assert(b.at(x, y) == propagated_pixel(g, x, y));
        lemma_fewer_transparent(g, b, x, y);
    } else {
        assert(b.at(tx, ty) == propagated_pixel(g, tx, ty));
        lemma_fewer_transparent(g, b, tx, ty);
    }
}

/// What holds of an image once its colours have spread: it has the
/// dimensions it had, no pixel is transparent any more, and the pixels that
/// were opaque are as they were.
pub proof fn lemma_settled(g: Grid)
    requires
        g.well_formed(),
    ensures
        settled(g).well_formed(),
        settled(g).width == g.width,
        settled(g).height == g.height,
        !settled(g).has_transparent(),
        forall|x: int, y: int| g.opaque_at(x, y) ==> #[trigger] settled(g).at(x, y) == g.at(x, y),
    decreases g.transparent_count(),
{
    if g.has_transparent() {
        let b = propagated(g);
        lemma_pass_shrinks(g);
        lemma_settled(b);
        assert forall|x: int, y: int| g.opaque_at(x, y) implies #[trigger] settled(g).at(x, y) == g.at(
            x,
            y,
        ) by {
            assert(b.at(x, y) == propagated_pixel(g, x, y));
            assert(b.opaque_at(x, y));
        }
    }
}

/// An image without a transparent pixel is left as it is.
pub proof fn lemma_interpolated_opaque(g: Grid)
    requires
        g.well_formed(),
        !g.has_transparent(),
    ensures
        interpolated(g) == g,
{
    assert forall|x: int, y: int| g.contains(x, y) implies #[trigger] interpolated(g).at(x, y) == g.at(
        x,
        y,
    ) by {
        assert(!g.transparent_at(x, y));
    }
    assert(interpolated(g).pixels =~= g.pixels);
}

/// The interpolation keeps the dimensions and the alpha of every pixel, and
/// the whole of every opaque pixel.
pub proof fn lemma_interpolated_keeps_alpha(g: Grid)
    requires
        g.well_formed(),
    ensures
        interpolated(g).well_formed(),
        interpolated(g).width == g.width,
        interpolated(g).height == g.height,
        forall|x: int, y: int|
            g.contains(x, y) ==> (#[trigger] interpolated(g).at(x, y)).alpha == g.at(x, y).alpha,
        forall|x: int, y: int| g.opaque_at(x, y) ==> #[trigger] interpolated(g).at(x, y) == g.at(x, y),
{
    lemma_settled(g);
}

/// In an image without any opaque pixel the interpolation makes every pixel
/// black and keeps its alpha.
pub proof fn lemma_interpolated_all_transparent(g: Grid)
    requires
        g.well_formed(),
        !g.has_opaque(),
    ensures
        forall|x: int, y: int|
            g.contains(x, y) ==> #[trigger] interpolated(g).at(x, y) == Pixel::clear().with_alpha(
                g.at(x, y).alpha,
            ),
{
    assert forall|x: int, y: int| g.contains(x, y) implies #[trigger] interpolated(g).at(x, y)
        == Pixel::clear().with_alpha(g.at(x, y).alpha) by {
        assert(g.transparent_at(x, y)) by {
            assert(!g.opaque_at(x, y));
        }
        let b = propagated(g);
        assert(b.at(x, y) == propagated_pixel(g, x, y));
        lemma_pass_shrinks(g);
        assert(b.well_formed());
        assert(!b.has_transparent()) by {
            if b.has_transparent() {
                let (i, j) = choose|i: int, j: int| #[trigger] b.transparent_at(i, j);
                assert(b.at(i, j) == propagated_pixel(g, i, j));
            }
        }
        assert(settled(g) == settled(b));
        assert(settled(b) == b);
    }
}

/// The pixels around `(x, y)`, which must lie inside the image: up to eight,
/// fewer at the edges and corners.
pub fn get_neighbouring_pixels(img: &PixelGrid, x: u32, y: u32) -> (pixels: Vec<Pixel>)
    requires
        img@.contains(x as int, y as int),
    ensures
        pixels@ == img@.neighbours(x as int, y as int),
{
    let (width, height) = img.dimensions();
    let mut pixels: Vec<Pixel> = Vec::new();
    if x != 0 {
        pixels.push(img.get_pixel(x - 1, y));
        if y != 0 {
            pixels.push(img.get_pixel(x - 1, y - 1));
        }
        if y != height - 1 {
            pixels.push(img.get_pixel(x - 1, y + 1));
        }
    }
    if x != width - 1 {
        pixels.push(img.get_pixel(x + 1, y));
        if y != 0 {
            pixels.push(img.get_pixel(x + 1, y - 1));
        }
        if y != height - 1 {
            pixels.push(img.get_pixel(x + 1, y + 1));
        }
    }
    if y != 0 {
        pixels.push(img.get_pixel(x, y - 1));
    }
    if y != height - 1 {
        pixels.push(img.get_pixel(x, y + 1));
    }
    pixels
}

/// Writes into `write` what a pass makes of each pixel of `read` where some
/// pixel is opaque, and tells whether `read` has an opaque pixel and whether
/// it has a transparent one.
fn spread(read: &PixelGrid, write: &mut PixelGrid) -> (seen: (bool, bool))
    requires
        old(write)@.width == read@.width,
        old(write)@.height == read@.height,
    ensures
        final(write)@.width == read@.width,
        final(write)@.height == read@.height,
        forall|x: int, y: int|
            read@.contains(x, y) ==> #[trigger] final(write)@.at(x, y) == spread_pixel(read@, x, y),
        seen.0 == read@.has_opaque(),
        seen.1 == read@.has_transparent(),
{
    let (width, height) = read.dimensions();
    let mut opaque = false;
    let mut transparent = false;
    let mut y: u32 = 0;
    while y < height
        invariant
            y <= height,
            read@.width == width,
            read@.height == height,
            write@.width == width,
            write@.height == height,
            forall|i: int, j: int|
                read@.contains(i, j) && comes_before(i, j, 0, y as int) ==> #[trigger] write@.at(i, j)
                    == spread_pixel(read@, i, j),
            opaque ==> read@.has_opaque(),
            transparent ==> read@.has_transparent(),
            !opaque ==> forall|i: int, j: int|
                comes_before(i, j, 0, y as int) ==> !#[trigger] read@.opaque_at(i, j),
            !transparent ==> forall|i: int, j: int|
                comes_before(i, j, 0, y as int) ==> !#[trigger] read@.transparent_at(i, j),
        decreases height - y,
    {
        let mut x: u32 = 0;
        while x < width
            invariant
                x <= width,
                y < height,
                read@.width == width,
                read@.height == height,
                write@.width == width,
                write@.height == height,
                forall|i: int, j: int|
                    read@.contains(i, j) && comes_before(i, j, x as int, y as int) ==> #[trigger] write@.at(
                        i,
                        j,
                    ) == spread_pixel(read@, i, j),
                opaque ==> read@.has_opaque(),
                transparent ==> read@.has_transparent(),
                !opaque ==> forall|i: int, j: int|
                    comes_before(i, j, x as int, y as int) ==> !#[trigger] read@.opaque_at(i, j),
                !transparent ==> forall|i: int, j: int|
                    comes_before(i, j, x as int, y as int) ==> !#[trigger] read@.transparent_at(i, j),
            decreases width - x,
        {
            let p = read.get_pixel(x, y);
            if is_transparent(&p) {
                transparent = true;
                assert(read@.transparent_at(x as int, y as int));
                let around = get_neighbouring_pixels(read, x, y);
                match mean_of_opaque(&around) {
                    Some(mean) => write.put_pixel(x, y, mean),
                    None => write.put_pixel(x, y, Pixel { red: 0, green: 0, blue: 0, alpha: 0 }),
                }
            } else {
                opaque = true;
                assert(read@.opaque_at(x as int, y as int));
                write.put_pixel(x, y, p);
            }
            x += 1;
        }
        y += 1;
    }
    (opaque, transparent)
}

/// Makes every pixel of the image equal to `p`.
fn fill(img: &mut PixelGrid, p: Pixel)
    ensures
        final(img)@.width == old(img)@.width,
        final(img)@.height == old(img)@.height,
        forall|x: int, y: int| old(img)@.contains(x, y) ==> #[trigger] final(img)@.at(x, y) == p,
{
    let (width, height) = img.dimensions();
    let mut y: u32 = 0;
    while y < height
        invariant
            y <= height,
            img@.width == width,
            img@.height == height,
            old(img)@.width == width,
            old(img)@.height == height,
            forall|i: int, j: int|
                img@.contains(i, j) && comes_before(i, j, 0, y as int) ==> #[trigger] img@.at(i, j) == p,
        decreases height - y,
    {
        let mut x: u32 = 0;
        while x < width
            invariant
                x <= width,
                y < height,
                img@.width == width,
                img@.height == height,
                old(img)@.width == width,
                old(img)@.height == height,
                forall|i: int, j: int|
                    img@.contains(i, j) && comes_before(i, j, x as int, y as int) ==> #[trigger] img@.at(
                        i,
                        j,
                    ) == p,
            decreases width - x,
        {
            img.put_pixel(x, y, p);
            x += 1;
        }
        y += 1;
    }
}

/// Runs one pass: reads the image `read` and writes into `write`, which has
/// the same dimensions, what the pass makes of it. Tells whether `read` had a
/// transparent pixel, that is, whether the pass had anything to do.
pub fn propagate_pass(read: &PixelGrid, write: &mut PixelGrid) -> (any_transparent: bool)
    requires
        old(write)@.width == read@.width,
        old(write)@.height == read@.height,
    ensures
        final(write)@ == propagated(read@),
        any_transparent == read@.has_transparent(),
{
    let (opaque, transparent) = spread(read, write);
    if !opaque {
        fill(write, Pixel { red: 0, green: 0, blue: 0, alpha: 255 });
    }
    assert(write@.pixels =~= propagated(read@).pixels);
    transparent
}

/// Gives each pixel of the image the alpha that `snapshot`, an image of the
/// same dimensions, has at its place. The colours stay.
pub fn restore_alpha(img: &mut PixelGrid, snapshot: &PixelGrid)
    requires
        old(img)@.width == snapshot@.width,
        old(img)@.height == snapshot@.height,
    ensures
        final(img)@ == with_alpha_of(old(img)@, snapshot@),
{
    let (width, height) = img.dimensions();
    let mut y: u32 = 0;
    while y < height
        invariant
            y <= height,
            img@.width == width,
            img@.height == height,
            old(img)@.width == width,
            old(img)@.height == height,
            snapshot@.width == width,
            snapshot@.height == height,
            forall|i: int, j: int|
                img@.contains(i, j) ==> #[trigger] img@.at(i, j) == if comes_before(i, j, 0, y as int) {
                    old(img)@.at(i, j).with_alpha(snapshot@.at(i, j).alpha)
                } else {
                    old(img)@.at(i, j)
                },
        decreases height - y,
    {
        let mut x: u32 = 0;
        while x < width
            invariant
                x <= width,
                y < height,
                img@.width == width,
                img@.height == height,
                old(img)@.width == width,
                old(img)@.height == height,
                snapshot@.width == width,
                snapshot@.height == height,
                forall|i: int, j: int|
                    img@.contains(i, j) ==> #[trigger] img@.at(i, j) == if comes_before(
                        i,
                        j,
                        x as int,
                        y as int,
                    ) {
                        old(img)@.at(i, j).with_alpha(snapshot@.at(i, j).alpha)
                    } else {
                        old(img)@.at(i, j)
                    },
            decreases width - x,
        {
            let p = img.get_pixel(x, y);
            let alpha = snapshot.get_pixel(x, y).alpha;
            img.put_pixel(x, y, Pixel { red: p.red, green: p.green, blue: p.blue, alpha });
            x += 1;
        }
        y += 1;
    }
    assert(img@.pixels =~= with_alpha_of(old(img)@, snapshot@).pixels);
}

/// Gives every transparent pixel the colour of the opaque pixels nearest to
/// it and keeps the alpha channel as it was.
///
/// The colours spread in passes. In each pass a transparent pixel next to
/// opaque ones takes their mean colour and counts as opaque from then on, so
/// a pixel `n` steps away from the opaque part of the image gets its colour
/// in pass `n`. An image without any opaque pixel becomes black.
pub fn recolor_interpolated(img: &mut PixelGrid)
    ensures
        final(img)@ == interpolated(old(img)@),
        final(img)@.width == old(img)@.width,
        final(img)@.height == old(img)@.height,
        forall|x: int, y: int|
            old(img)@.contains(x, y) ==> (#[trigger] final(img)@.at(x, y)).alpha == old(img)@.at(
                x,
                y,
            ).alpha,
        forall|x: int, y: int|
            old(img)@.opaque_at(x, y) ==> #[trigger] final(img)@.at(x, y) == old(img)@.at(x, y),
{
    proof {
        lemma_interpolated_keeps_alpha(img@);
    }
    let snapshot = img.clone();
    let mut scratch = img.clone();
    loop
        invariant
            snapshot@ == old(img)@,
            img@.width == snapshot@.width,
            img@.height == snapshot@.height,
            scratch@.width == img@.width,
            scratch@.height == img@.height,
            img@.well_formed(),
            settled(img@) == settled(old(img)@),
        ensures
            !img@.has_transparent(),
        decreases img@.transparent_count(),
    {
        let any_transparent = propagate_pass(img, &mut scratch);
        if !any_transparent {
            break;
        }
        proof {
            lemma_pass_shrinks(img@);
        }
        core::mem::swap(img, &mut scratch);
    }
    restore_alpha(img, &snapshot);
}

} // verus!
