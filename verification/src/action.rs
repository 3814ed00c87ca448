//! The choice among the three ways of recolouring, by name.

use vstd::prelude::*;
use crate::grid::Grid;
use crate::buffer::PixelGrid;
use crate::uniform::{blackened, recolor_uniform};
use crate::average::{averaged, recolor_average, NoOpaquePixels};
use crate::interpolate::{interpolated, recolor_interpolated};

verus! {

/// A way of recolouring the transparent pixels.
#[derive(Clone, Copy, Debug, PartialEq, Eq, Structural)]
pub enum Action {
    /// To black with alpha 0.
    Black,
    /// To the mean colour of the opaque pixels.
    Average,
    /// To the colour of the nearest opaque pixels.
    Match,
}

/// The action that a name stands for: `black`, `avg` or `match`.
pub open spec fn action_named(name: Seq<char>) -> Option<Action> {
    if name == "black"@ {
        Some(Action::Black)
    } else if name == "avg"@ {
        Some(Action::Average)
    } else if name == "match"@ {
        Some(Action::Match)
    } else {
        None
    }
}

/// What an action makes of an image.
pub open spec fn recolored(g: Grid, action: Action) -> Grid {
    match action {
        Action::Black => blackened(g),
        Action::Average => averaged(g),
        Action::Match => interpolated(g),
    }
}

/// The action that `name` stands for, if it is the name of one.
pub fn parse_action(name: &str) -> (action: Option<Action>)
    ensures
        action == action_named(name@),
{
    let name = name.to_owned();
    if name == "black".to_owned() {
        Some(Action::Black)
    } else if name == "avg".to_owned() {
        Some(Action::Average)
    } else if name == "match".to_owned() {
        Some(Action::Match)
    } else {
        None
    }
}

/// Recolours the image in the way that `action` names. Only the mean colour
/// can fail, on an image without an opaque pixel, which is then left as it
/// is.
pub fn recolor(img: &mut PixelGrid, action: Action) -> (r: Result<(), NoOpaquePixels>)
    ensures
        final(img)@ == recolored(old(img)@, action),
        r is Err <==> action == Action::Average && !old(img)@.has_opaque(),
        r is Err ==> *final(img) == *old(img),
{
    match action {
        Action::Black => {
            recolor_uniform(img);
            Ok(())
        },
        Action::Average => recolor_average(img),
        Action::Match => {
            recolor_interpolated(img);
            Ok(())
        },
    }
}

} // verus!
