//! The mathematical model of an image: a width, a height and one pixel for
//! each location inside them, with the counts and sums that the recolouring
//! is stated in.

use vstd::prelude::*;
use crate::pixel::{Pixel, Tally};

verus! {

/// An image as contracts see it.
pub struct Grid {
    pub width: int,
    pub height: int,
    pub pixels: Map<(int, int), Pixel>,
}

/// Whether `(i, j)` comes before `(x, y)` when the locations are taken row by
/// row, each row from left to right.
pub open spec fn comes_before(i: int, j: int, x: int, y: int) -> bool {
    j < y || (j == y && i < x)
}

impl Grid {
    /// Whether `(x, y)` lies inside the image.
    pub open spec fn contains(self, x: int, y: int) -> bool {
        0 <= x < self.width && 0 <= y < self.height
    }

    /// The pixel at `(x, y)`.
    #[verifier::inline]
    pub open spec fn at(self, x: int, y: int) -> Pixel {
        self.pixels[(x, y)]
    }

    /// The image with `p` in place of the pixel at `(x, y)`.
    pub open spec fn with_pixel(self, x: int, y: int, p: Pixel) -> Grid {
        Grid { width: self.width, height: self.height, pixels: self.pixels.insert((x, y), p) }
    }

    /// The image holds a pixel at the locations inside it and nowhere else.
    pub open spec fn well_formed(self) -> bool {
        &&& 0 <= self.width
        &&& 0 <= self.height
        &&& forall|x: int, y: int| #[trigger]
            self.pixels.dom().contains((x, y)) <==> self.contains(x, y)
    }

    /// Whether `(x, y)` lies inside the image and holds an opaque pixel.
    pub open spec fn opaque_at(self, x: int, y: int) -> bool {
        self.contains(x, y) && !self.at(x, y).transparent()
    }

    /// Whether `(x, y)` lies inside the image and holds a transparent pixel.
    pub open spec fn transparent_at(self, x: int, y: int) -> bool {
        self.contains(x, y) && self.at(x, y).transparent()
    }

    /// Whether some pixel of the image is opaque.
    pub open spec fn has_opaque(self) -> bool {
        exists|x: int, y: int| #[trigger] self.opaque_at(x, y)
    }

    /// Whether some pixel of the image is transparent.
    pub open spec fn has_transparent(self) -> bool {
        exists|x: int, y: int| #[trigger] self.transparent_at(x, y)
    }

    /// The sums `acc` carried on over the first `n` pixels of row `y`.
    pub open spec fn tally_row(self, acc: Tally, y: int, n: int) -> Tally
        decreases n,
    {
        if n <= 0 {
            acc
        } else {
            self.tally_row(acc, y, n - 1).plus(self.at(n - 1, y))
        }
    }

    /// The sums over the first `m` rows.
    pub open spec fn tally_rows(self, m: int) -> Tally
        decreases m,
    {
        if m <= 0 {
            Tally::zero()
        } else {
            self.tally_row(self.tally_rows(m - 1), m - 1, self.width)
        }
    }

    /// The sums over the opaque pixels of the whole image.
    pub open spec fn tally(self) -> Tally {
        self.tally_rows(self.height)
    }

    /// How many of the first `n` pixels of row `y` are transparent.
    pub open spec fn transparent_in_row(self, y: int, n: int) -> nat
        decreases n,
    {
        if n <= 0 {
            0
        } else if self.at(n - 1, y).transparent() {
            self.transparent_in_row(y, n - 1) + 1
        } else {
            self.transparent_in_row(y, n - 1)
        }
    }

    /// How many pixels of the first `m` rows are transparent.
    pub open spec fn transparent_in_rows(self, m: int) -> nat
        decreases m,
    {
        if m <= 0 {
            0
        } else {
            self.transparent_in_rows(m - 1) + self.transparent_in_row(m - 1, self.width)
        }
    }

    /// How many pixels of the image are transparent.
    pub open spec fn transparent_count(self) -> nat {
        self.transparent_in_rows(self.height)
    }

    /// `pixels` with the pixel at `(x, y)` behind it, if that lies inside
    /// the image.
    pub open spec fn push_at(self, pixels: Seq<Pixel>, x: int, y: int) -> Seq<Pixel> {
        if self.contains(x, y) {
            pixels.push(self.at(x, y))
        } else {
            pixels
        }
    }

    /// The up to eight pixels that share an edge or a corner with `(x, y)`:
    /// those to the left, then those to the right, then the ones above and
    /// below.
    pub open spec fn neighbours(self, x: int, y: int) -> Seq<Pixel> {
        let left = self.push_at(
            self.push_at(self.push_at(Seq::empty(), x - 1, y), x - 1, y - 1),
            x - 1,
            y + 1,
        );
        let sides = self.push_at(
            self.push_at(self.push_at(left, x + 1, y), x + 1, y - 1),
            x + 1,
            y + 1,
        );
        self.push_at(self.push_at(sides, x, y - 1), x, y + 1)
    }

    /// Whether `(x, y)` has an opaque pixel among its neighbours.
    pub open spec fn near_opaque(self, x: int, y: int) -> bool {
        ||| self.opaque_at(x - 1, y)
        ||| self.opaque_at(x - 1, y - 1)
        ||| self.opaque_at(x - 1, y + 1)
        ||| self.opaque_at(x + 1, y)
        ||| self.opaque_at(x + 1, y - 1)
        ||| self.opaque_at(x + 1, y + 1)
        ||| self.opaque_at(x, y - 1)
        ||| self.opaque_at(x, y + 1)
    }
}

/// Sums carried on along a row stay bounded and count at most one pixel for
/// each location passed.
pub proof fn lemma_tally_row_bounded(g: Grid, acc: Tally, y: int, n: int)
    requires
        acc.bounded(),
    ensures
        g.tally_row(acc, y, n).bounded(),
        acc.count <= g.tally_row(acc, y, n).count,
        g.tally_row(acc, y, n).count <= acc.count + if n > 0 { n } else { 0 },
    decreases n,
{
    if n > 0 {
        lemma_tally_row_bounded(g, acc, y, n - 1);
    }
}

/// The sums over whole rows are bounded.
pub proof fn lemma_tally_rows_bounded(g: Grid, m: int)
    ensures
        g.tally_rows(m).bounded(),
        m > 0 ==> g.tally_rows(m - 1).count <= g.tally_rows(m).count,
    decreases m,
{
    if m > 0 {
        lemma_tally_rows_bounded(g, m - 1);
        lemma_tally_row_bounded(g, g.tally_rows(m - 1), m - 1, g.width);
    }
}

/// A row with an opaque pixel among its first `n` adds to the count.
proof fn lemma_tally_row_counts(g: Grid, acc: Tally, y: int, n: int, x: int)
    requires
        acc.bounded(),
        0 <= x < n,
        !g.at(x, y).transparent(),
    ensures
        acc.count < g.tally_row(acc, y, n).count,
    decreases n,
{
    lemma_tally_row_bounded(g, acc, y, n - 1);
    if x < n - 1 {
        lemma_tally_row_counts(g, acc, y, n - 1, x);
    }
}

/// Rows that hold the opaque pixel `(x, y)` count at least one pixel.
proof fn lemma_tally_rows_count(g: Grid, m: int, x: int, y: int)
    requires
        g.opaque_at(x, y),
        y < m,
    ensures
        g.tally_rows(m).count > 0,
    decreases m,
{
    lemma_tally_rows_bounded(g, m - 1);
    if y < m - 1 {
        lemma_tally_rows_count(g, m - 1, x, y);
        lemma_tally_rows_bounded(g, m);
    } else {
        lemma_tally_row_counts(g, g.tally_rows(m - 1), y, g.width, x);
    }
}

/// Past transparent pixels the sums stay as they were.
proof fn lemma_tally_row_skips(g: Grid, acc: Tally, y: int, n: int)
    requires
        forall|x: int| 0 <= x < n ==> (#[trigger] g.at(x, y)).transparent(),
    ensures
        g.tally_row(acc, y, n) == acc,
    decreases n,
{
    if n > 0 {
        lemma_tally_row_skips(g, acc, y, n - 1);
    }
}

/// Over rows without an opaque pixel the sums are zero.
proof fn lemma_tally_rows_skip(g: Grid, m: int)
    requires
        m <= g.height,
        !g.has_opaque(),
    ensures
        g.tally_rows(m) == Tally::zero(),
    decreases m,
{
    if m > 0 {
        lemma_tally_rows_skip(g, m - 1);
        assert forall|x: int| 0 <= x < g.width implies (#[trigger] g.at(x, m - 1)).transparent() by {
            assert(!g.opaque_at(x, m - 1));
        }
        lemma_tally_row_skips(g, g.tally_rows(m - 1), m - 1, g.width);
    }
}

/// The sums over an image count a pixel exactly when the image has an opaque
/// one, and they are bounded.
pub proof fn lemma_tally_counts_opaque(g: Grid)
    ensures
        g.tally().count > 0 <==> g.has_opaque(),
        g.tally().bounded(),
{
    lemma_tally_rows_bounded(g, g.height);
    if g.has_opaque() {
        let (x, y) = choose|x: int, y: int| #[trigger] g.opaque_at(x, y);
        lemma_tally_rows_count(g, g.height, x, y);
    } else {
        lemma_tally_rows_skip(g, g.height);
    }
}

/// Where `b` is transparent only where `a` is, a row of `b` has no more
/// transparent pixels than the same row of `a`.
proof fn lemma_row_shrinks(a: Grid, b: Grid, y: int, n: int)
    requires
        forall|x: int| 0 <= x < n && (#[trigger] b.at(x, y)).transparent() ==> a.at(x, y).transparent(),
    ensures
        b.transparent_in_row(y, n) <= a.transparent_in_row(y, n),
    decreases n,
{
    if n > 0 {
        lemma_row_shrinks(a, b, y, n - 1);
        assert(b.at(n - 1, y).transparent() ==> a.at(n - 1, y).transparent());
    }
}

/// The same, with fewer where `a` is transparent at `x` and `b` is not.
proof fn lemma_row_shrinks_strictly(a: Grid, b: Grid, y: int, n: int, x: int)
    requires
        forall|i: int| 0 <= i < n && (#[trigger] b.at(i, y)).transparent() ==> a.at(i, y).transparent(),
        0 <= x < n,
        a.at(x, y).transparent(),
        !b.at(x, y).transparent(),
    ensures
        b.transparent_in_row(y, n) < a.transparent_in_row(y, n),
    decreases n,
{
    if x < n - 1 {
        lemma_row_shrinks_strictly(a, b, y, n - 1, x);
        assert(b.at(n - 1, y).transparent() ==> a.at(n - 1, y).transparent());
    } else {
        lemma_row_shrinks(a, b, y, n - 1);
    }
}

/// Where `b` is transparent only where `a` is, the first `m` rows of `b` have
/// no more transparent pixels than those of `a`.
proof fn lemma_rows_shrink(a: Grid, b: Grid, m: int)
    requires
        a.width == b.width,
        a.height == b.height,
        m <= a.height,
        forall|x: int, y: int| #[trigger] b.transparent_at(x, y) ==> a.transparent_at(x, y),
    ensures
        b.transparent_in_rows(m) <= a.transparent_in_rows(m),
    decreases m,
{
    if m > 0 {
        lemma_rows_shrink(a, b, m - 1);
        assert forall|x: int| 0 <= x < a.width && (#[trigger] b.at(x, m - 1)).transparent() implies a.at(
            x,
            m - 1,
        ).transparent() by {
            assert(b.transparent_at(x, m - 1));
        }
        lemma_row_shrinks(a, b, m - 1, a.width);
    }
}

/// The same, with fewer where those rows hold a pixel at which `a` is
/// transparent and `b` is not.
proof fn lemma_rows_shrink_strictly(a: Grid, b: Grid, m: int, x: int, y: int)
    requires
        a.width == b.width,
        a.height == b.height,
        m <= a.height,
        forall|i: int, j: int| #[trigger] b.transparent_at(i, j) ==> a.transparent_at(i, j),
        a.transparent_at(x, y),
        !b.transparent_at(x, y),
        y < m,
    ensures
        b.transparent_in_rows(m) < a.transparent_in_rows(m),
    decreases m,
{
    assert forall|i: int| 0 <= i < a.width && (#[trigger] b.at(i, m - 1)).transparent() implies a.at(
        i,
        m - 1,
    ).transparent() by {
        assert(b.transparent_at(i, m - 1));
    }
    if y < m - 1 {
        lemma_rows_shrink_strictly(a, b, m - 1, x, y);
        lemma_row_shrinks(a, b, m - 1, a.width);
    } else {
        lemma_rows_shrink(a, b, m - 1);
        lemma_row_shrinks_strictly(a, b, y, a.width, x);
    }
}

/// An image that is transparent only where another of the same dimensions
/// is, and opaque at one pixel at least where the other is transparent, has
/// fewer transparent pixels.
pub proof fn lemma_fewer_transparent(a: Grid, b: Grid, x: int, y: int)
    requires
        a.width == b.width,
        a.height == b.height,
        forall|i: int, j: int| #[trigger] b.transparent_at(i, j) ==> a.transparent_at(i, j),
        a.transparent_at(x, y),
        !b.transparent_at(x, y),
    ensures
        b.transparent_count() < a.transparent_count(),
{
    lemma_rows_shrink_strictly(a, b, a.height, x, y);
}

} // verus!
