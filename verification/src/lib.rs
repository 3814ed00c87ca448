//! Removal of colour fringes from images with an alpha channel.
//!
//! Pixels that are not fully opaque often carry stale colour values, which
//! show as halos once the image is scaled or composited. This crate recolours
//! those pixels in one of three ways: to transparent black, to the mean colour
//! of the opaque pixels, or by spreading the colour of the nearest opaque
//! pixels into the transparent regions.

pub mod pixel;
pub mod grid;
pub mod buffer;
pub mod uniform;
pub mod average;
pub mod interpolate;
pub mod rings;
pub mod action;
