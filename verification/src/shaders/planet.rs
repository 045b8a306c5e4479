//! Palette constructors of the planet materials: each builds a color from a
//! packed `0xRRGGBB` constant of its palette (gas giant, Earth-like, moon,
//! lava, verdant and gold).
use vstd::prelude::*;

use crate::color::Color;

verus! {

/// Gas giant palette color.
pub fn cg(hex: u32) -> (c: Color)
    ensures
        c == Color::spec_from_hex(hex),
{
    Color::from_hex(hex)
}

/// Earth-like palette color.
pub fn cc(hex: u32) -> (c: Color)
    ensures
        c == Color::spec_from_hex(hex),
{
    Color::from_hex(hex)
}

/// Moon palette color.
pub fn mc(hex: u32) -> (c: Color)
    ensures
        c == Color::spec_from_hex(hex),
{
    Color::from_hex(hex)
}

/// Lava planet palette color.
pub fn lc(hex: u32) -> (c: Color)
    ensures
        c == Color::spec_from_hex(hex),
{
    Color::from_hex(hex)
}

/// Verdant planet palette color.
pub fn vc(hex: u32) -> (c: Color)
    ensures
        c == Color::spec_from_hex(hex),
{
    Color::from_hex(hex)
}

/// Gold gas giant palette color.
pub fn gg(hex: u32) -> (c: Color)
    ensures
        c == Color::spec_from_hex(hex),
{
    Color::from_hex(hex)
}

} // verus!
