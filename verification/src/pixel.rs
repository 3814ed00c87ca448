//! A single RGBA pixel and the classification into transparent and opaque.

use vstd::prelude::*;

verus! {

/// One pixel: four 8-bit channels.
#[derive(Clone, Copy, Debug, PartialEq, Eq, Structural)]
pub struct Pixel {
    pub red: u8,
    pub green: u8,
    pub blue: u8,
    pub alpha: u8,
}

impl Pixel {
    /// A pixel is transparent, and so in need of a colour, exactly when its
    /// alpha is below the maximum. There are no degrees of transparency.
    pub open spec fn transparent(self) -> bool {
        self.alpha < 255
    }

    /// Black with alpha 0.
    pub open spec fn clear() -> Pixel {
        Pixel { red: 0, green: 0, blue: 0, alpha: 0 }
    }

    /// Black with alpha 255.
    pub open spec fn solid_black() -> Pixel {
        Pixel { red: 0, green: 0, blue: 0, alpha: 255 }
    }

    /// The same colour with another alpha.
    pub open spec fn with_alpha(self, alpha: u8) -> Pixel {
        Pixel { red: self.red, green: self.green, blue: self.blue, alpha }
    }
}

/// Tells whether `pixel` is transparent, that is, not fully opaque.
pub fn is_transparent(pixel: &Pixel) -> (b: bool)
    ensures
        b == pixel.transparent(),
{
    pixel.alpha < 255
}

/// Running sums over opaque pixels: how many there were, and the sum of each
/// of their colour channels. Transparent pixels do not count.
pub struct Tally {
    pub count: int,
    pub red: int,
    pub green: int,
    pub blue: int,
}

impl Tally {
    /// The sums over no pixel at all.
    pub open spec fn zero() -> Tally {
        Tally { count: 0, red: 0, green: 0, blue: 0 }
    }

    /// The sums after one more pixel.
    pub open spec fn plus(self, p: Pixel) -> Tally {
        if p.transparent() {
            self
        } else {
            Tally {
                count: self.count + 1,
                red: self.red + p.red,
                green: self.green + p.green,
                blue: self.blue + p.blue,
            }
        }
    }

    /// The sums over a sequence of pixels.
    pub open spec fn of(pixels: Seq<Pixel>) -> Tally
        decreases pixels.len(),
    {
        if pixels.len() == 0 {
            Tally::zero()
        } else {
            Tally::of(pixels.drop_last()).plus(pixels.last())
        }
    }

    /// The mean colour of the opaque pixels, each channel rounded down, as an
    /// opaque pixel; nothing where there was no opaque pixel.
    pub open spec fn mean(self) -> Option<Pixel> {
        if self.count > 0 {
            Some(
                Pixel {
                    red: (self.red / self.count) as u8,
                    green: (self.green / self.count) as u8,
                    blue: (self.blue / self.count) as u8,
                    alpha: 255,
                },
            )
        } else {
            None
        }
    }

    /// What holds of all sums that started at zero: no channel sum exceeds
    /// 255 for each pixel counted.
    pub open spec fn bounded(self) -> bool {
        &&& 0 <= self.count
        &&& 0 <= self.red <= 255 * self.count
        &&& 0 <= self.green <= 255 * self.count
        &&& 0 <= self.blue <= 255 * self.count
    }
}

/// The sums over a sequence are bounded, and count no more pixels than the
/// sequence has.
pub proof fn lemma_tally_of_bounded(pixels: Seq<Pixel>)
    ensures
        Tally::of(pixels).bounded(),
        Tally::of(pixels).count <= pixels.len(),
    decreases pixels.len(),
{
    if pixels.len() > 0 {
        lemma_tally_of_bounded(pixels.drop_last());
    }
}

/// A channel sum divided by the count fits a channel.
pub proof fn lemma_mean_fits(sum: int, count: int)
    requires
        0 < count,
        0 <= sum <= 255 * count,
    ensures
        0 <= sum / count <= 255,
{
    assert(0 <= sum / count <= 255) by (nonlinear_arith)
        requires
            0 < count,
            0 <= sum <= 255 * count,
    ;
}

/// The mean colour of the opaque pixels among `pixels`, each channel rounded
/// down, with alpha 255. There is none where no pixel is opaque.
pub fn mean_of_opaque(pixels: &Vec<Pixel>) -> (mean: Option<Pixel>)
    ensures
        mean == Tally::of(pixels@).mean(),
{
    let mut count: u128 = 0;
    let mut red: u128 = 0;
    let mut green: u128 = 0;
    let mut blue: u128 = 0;
    let mut i: usize = 0;
    while i < pixels.len()
        invariant
            i <= pixels.len(),
            count <= i,
            Tally::of(pixels@.take(i as int)) == (Tally {
                count: count as int,
                red: red as int,
                green: green as int,
                blue: blue as int,
            }),
            Tally::of(pixels@.take(i as int)).bounded(),
        decreases pixels.len() - i,
    {
        let p = pixels[i];
        proof {
            assert(pixels@.take(i + 1).drop_last() =~= pixels@.take(i as int));
            lemma_tally_of_bounded(pixels@.take(i + 1));
        }
        if !is_transparent(&p) {
            count += 1;
            red += p.red as u128;
            green += p.green as u128;
            blue += p.blue as u128;
        }
        i += 1;
    }
    proof {
        assert(pixels@.take(i as int) =~= pixels@);
    }
    if count == 0 {
        None
    } else {
        proof {
            lemma_mean_fits(red as int, count as int);
            lemma_mean_fits(green as int, count as int);
            lemma_mean_fits(blue as int, count as int);
        }
        Some(
            Pixel {
                red: (red / count) as u8,
                green: (green / count) as u8,
                blue: (blue / count) as u8,
                alpha: 255,
            },
        )
    }
}

} // verus!
