//! The brush colour chosen by the user.
use vstd::prelude::*;

verus! {

/// An opaque RGB colour.
#[derive(Clone, Copy, Debug, PartialEq, Eq, Structural)]
pub struct Color {
    pub r: u8,
    pub g: u8,
    pub b: u8,
}

impl Color {
    /// Black.
    pub fn new() -> (c: Self)
        ensures
            c.r == 0,
            c.g == 0,
            c.b == 0,
    {
        Color { r: 0, g: 0, b: 0 }
    }
}

} // verus!
