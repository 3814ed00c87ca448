//! How far the colours have spread after a number of passes: one ring of
//! pixels further with each pass.

use vstd::prelude::*;
use crate::grid::Grid;
use crate::interpolate::{gap, lemma_neighbours, propagated, propagated_pixel, settled, step_towards};

verus! {

/// The image after `n` passes.
pub open spec fn after_passes(g: Grid, n: nat) -> Grid
    decreases n,
{
    if n == 0 {
        g
    } else {
        after_passes(propagated(g), (n - 1) as nat)
    }
}

/// Whether the image has an opaque pixel within `n` steps of `(x, y)`, where
/// a step leads from a pixel to any of its eight neighbours.
pub open spec fn within_reach(g: Grid, x: int, y: int, n: nat) -> bool {
    exists|ox: int, oy: int| #[trigger] g.opaque_at(ox, oy) && gap(x, ox) <= n && gap(y, oy) <= n
}

/// One pass makes opaque exactly the pixels that have an opaque pixel within
/// one step, themselves included, provided the image has an opaque pixel.
pub proof fn lemma_one_ring(g: Grid, x: int, y: int)
    requires
        g.well_formed(),
        g.has_opaque(),
    ensures
        propagated(g).opaque_at(x, y) <==> g.contains(x, y) && within_reach(g, x, y, 1),
{
    let b = propagated(g);
    if g.contains(x, y) {
        assert(b.at(x, y) == propagated_pixel(g, x, y));
        lemma_neighbours(g, x, y);
        if b.opaque_at(x, y) {
            if g.opaque_at(x, y) {
                assert(gap(x, x) <= 1 && gap(y, y) <= 1);
            } else {
                assert(g.near_opaque(x, y));
                if g.opaque_at(x - 1, y) {
                    assert(gap(x, x - 1) <= 1 && gap(y, y) <= 1);
                } else if g.opaque_at(x - 1, y - 1) {
                    assert(gap(x, x - 1) <= 1 && gap(y, y - 1) <= 1);
                } else if g.opaque_at(x - 1, y + 1) {
                    assert(gap(x, x - 1) <= 1 && gap(y, y + 1) <= 1);
                } else if g.opaque_at(x + 1, y) {
                    assert(gap(x, x + 1) <= 1 && gap(y, y) <= 1);
                } else if g.opaque_at(x + 1, y - 1) {
                    assert(gap(x, x + 1) <= 1 && gap(y, y - 1) <= 1);
                } else if g.opaque_at(x + 1, y + 1) {
                    assert(gap(x, x + 1) <= 1 && gap(y, y + 1) <= 1);
                } else if g.opaque_at(x, y - 1) {
                    assert(gap(x, x) <= 1 && gap(y, y - 1) <= 1);
                } else {
                    assert(g.opaque_at(x, y + 1));
                    assert(gap(x, x) <= 1 && gap(y, y + 1) <= 1);
                }
            }
        }
        if within_reach(g, x, y, 1) {
            let (ox, oy) = choose|ox: int, oy: int| #[trigger]
                g.opaque_at(ox, oy) && gap(x, ox) <= 1 && gap(y, oy) <= 1;
            if !(ox == x && oy == y) {
                assert(g.near_opaque(x, y));
            }
        }
    }
}

/// After `n` passes exactly those pixels are opaque that have an opaque
/// pixel of the image within `n` steps: a transparent pixel gets its colour
/// in the pass whose number is its distance from the opaque part of the
/// image. This holds of an image that has an opaque pixel.
pub proof fn lemma_rings(g: Grid, n: nat, x: int, y: int)
    requires
        g.well_formed(),
        g.has_opaque(),
        g.contains(x, y),
    ensures
        after_passes(g, n).opaque_at(x, y) <==> within_reach(g, x, y, n),
    decreases n,
{
    if n == 0 {
        if g.opaque_at(x, y) {
            assert(gap(x, x) <= 0 && gap(y, y) <= 0);
        }
    } else {
        let b = propagated(g);
        let m = (n - 1) as nat;
        let (sx, sy) = choose|sx: int, sy: int| #[trigger] g.opaque_at(sx, sy);
        assert(b.opaque_at(sx, sy)) by {
            assert(b.at(sx, sy) == propagated_pixel(g, sx, sy));
        }
        lemma_rings(b, m, x, y);
        if within_reach(b, x, y, m) {
            let (ax, ay) = choose|ax: int, ay: int| #[trigger]
                b.opaque_at(ax, ay) && gap(x, ax) <= m && gap(y, ay) <= m;
            lemma_one_ring(g, ax, ay);
            let (ox, oy) = choose|ox: int, oy: int| #[trigger]
                g.opaque_at(ox, oy) && gap(ax, ox) <= 1 && gap(ay, oy) <= 1;
            assert(g.opaque_at(ox, oy) && gap(x, ox) <= n && gap(y, oy) <= n);
        }
        if within_reach(g, x, y, n) {
            let (ox, oy) = choose|ox: int, oy: int| #[trigger]
                g.opaque_at(ox, oy) && gap(x, ox) <= n && gap(y, oy) <= n;
            let ax = step_towards(ox, x);
            let ay = step_towards(oy, y);
            assert(g.opaque_at(ox, oy) && gap(ax, ox) <= 1 && gap(ay, oy) <= 1);
            lemma_one_ring(g, ax, ay);
            assert(b.opaque_at(ax, ay) && gap(x, ax) <= m && gap(y, ay) <= m);
        }
    }
}

/// A pass over an image without a transparent pixel changes nothing.
pub proof fn lemma_pass_over_opaque(g: Grid)
    requires
        g.well_formed(),
        !g.has_transparent(),
    ensures
        propagated(g) == g,
{
    assert forall|x: int, y: int| g.contains(x, y) implies #[trigger] propagated(g).at(x, y) == g.at(
        x,
        y,
    ) by {
        assert(!g.transparent_at(x, y));
        assert(g.opaque_at(x, y));
    }
    assert(propagated(g).pixels =~= g.pixels);
}

/// Once a number of passes has left no transparent pixel, the image has
/// settled: further passes change nothing.
pub proof fn lemma_settled_after(g: Grid, n: nat)
    requires
        g.well_formed(),
        !after_passes(g, n).has_transparent(),
    ensures
        settled(g) == after_passes(g, n),
    decreases n,
{
    if n == 0 {
    } else if g.has_transparent() {
        lemma_settled_after(propagated(g), (n - 1) as nat);
    } else {
        lemma_pass_over_opaque(g);
        lemma_settled_after(g, (n - 1) as nat);
    }
}

} // verus!
