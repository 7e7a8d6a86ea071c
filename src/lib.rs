//! Reads an Inkscape drawing, given as its XML events, into layers of
//! rectangles, images and pass-through content; replaces the encoded data of
//! images by id; and writes the drawing back out as events.

use vstd::prelude::*;

pub mod event;
pub mod text;
pub mod object;
pub mod inkscape;
pub mod lookup;
pub mod updater;

verus! {

} // verus!
