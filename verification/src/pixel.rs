//! Pixel colours and the rule that tells terrain from background.

use vstd::prelude::*;

verus! {

/// A colour with four 8-bit channels.
#[derive(Clone, Copy, Debug, PartialEq, Eq, Structural)]
pub struct Rgba {
    pub r: u8,
    pub g: u8,
    pub b: u8,
    pub a: u8,
}

/// The background colour: opaque black.
pub open spec fn background() -> Rgba {
    Rgba { r: 0, g: 0, b: 0, a: 255 }
}

/// Whether a colour is terrain: anything but the background colour.
pub open spec fn solid(c: Rgba) -> bool {
    c != background()
}

/// Tells whether `c` is terrain, which is every colour except opaque black.
pub fn is_solid(c: Rgba) -> (r: bool)
    ensures
        r == solid(c),
{
    !(c.r == 0 && c.g == 0 && c.b == 0 && c.a == 255)
}

/// Tells whether two colours belong to the same group: all four channels agree.
pub fn same_group(a: Rgba, b: Rgba) -> (r: bool)
    ensures
        r == (a == b),
{
    a.r == b.r && a.g == b.g && a.b == b.b && a.a == b.a
}

} // verus!
