//! A single display pixel: an RGBA colour.

use vstd::prelude::*;

verus! {

#[derive(Clone, Copy, Debug)]
pub struct Pixel {
    pub colour_rgba: [u8; 4],
}

impl Pixel {
    pub fn new(colour_rgba: [u8; 4]) -> (p: Pixel)
        ensures
            p.colour_rgba == colour_rgba,
    {
        Pixel { colour_rgba }
    }
}

} // verus!
