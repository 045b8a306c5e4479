//! 24-bit RGB colors and their packed `0xRRGGBB` form.
use vstd::prelude::*;

verus! {

/// Packs three channels into `0xRRGGBB`.
pub open spec fn rgb_hex(r: u32, g: u32, b: u32) -> u32 {
    (r << 16u32) | (g << 8u32) | b
}

/// The 8-bit channel of `hex` that starts at bit `shift`.
pub open spec fn channel(hex: u32, shift: u32) -> u32 {
    (hex >> shift) & 0xFFu32
}

/// An opaque RGB color with 8 bits per channel.
#[derive(Clone, Copy, Debug, PartialEq, Eq, Structural)]
pub struct Color {
    pub r: u8,
    pub g: u8,
    pub b: u8,
}

impl Color {
    /// The color whose channels are the three bytes of `hex` (the top byte is ignored).
    pub open spec fn spec_from_hex(hex: u32) -> Color {
        Color {
            r: channel(hex, 16) as u8,
            g: channel(hex, 8) as u8,
            b: channel(hex, 0) as u8,
        }
    }

    /// The packed `0xRRGGBB` value of this color.
    pub open spec fn spec_to_hex(self) -> u32 {
        rgb_hex(self.r as u32, self.g as u32, self.b as u32)
    }

    pub fn new(r: u8, g: u8, b: u8) -> (c: Color)
        ensures
            c.r == r,
            c.g == g,
            c.b == b,
    {
        Color { r, g, b }
    }

    pub fn black() -> (c: Color)
        ensures
            c.r == 0 && c.g == 0 && c.b == 0,
            c.spec_to_hex() == 0,
    {
        let c = Color { r: 0, g: 0, b: 0 };
        assert(rgb_hex(0, 0, 0) == 0) by (bit_vector);
        c
    }

    pub fn from_hex(hex: u32) -> (c: Color)
        ensures
            c == Color::spec_from_hex(hex),
    {
        let r = ((hex >> 16u32) & 0xFFu32) as u8;
        let g = ((hex >> 8u32) & 0xFFu32) as u8;
        let b = (hex & 0xFFu32) as u8;
        assert(hex >> 0u32 == hex) by (bit_vector);
        Color { r, g, b }
    }

    pub fn to_hex(&self) -> (hex: u32)
        ensures
            hex == self.spec_to_hex(),
            hex <= 0xFF_FFFF,
    {
        let r = self.r as u32;
        let g = self.g as u32;
        let b = self.b as u32;
        assert(r <= 0xFF && g <= 0xFF && b <= 0xFF);
        assert(r <= 0xFF && g <= 0xFF && b <= 0xFF ==> (r << 16u32) | (g << 8u32) | b <= 0xFF_FFFF)
            by (bit_vector);
        (r << 16u32) | (g << 8u32) | b
    }
}

/// Reading the channels back out of a packed color gives the channels that went in.
pub proof fn lemma_channels_of_rgb_hex(r: u32, g: u32, b: u32)
    requires
        r <= 0xFF,
        g <= 0xFF,
        b <= 0xFF,
    ensures
        channel(rgb_hex(r, g, b), 16) == r,
        channel(rgb_hex(r, g, b), 8) == g,
        channel(rgb_hex(r, g, b), 0) == b,
        rgb_hex(r, g, b) <= 0xFF_FFFF,
{
    assert(r <= 0xFF && g <= 0xFF && b <= 0xFF ==> ((((r << 16u32) | (g << 8u32) | b) >> 16u32)
        & 0xFFu32) == r) by (bit_vector);
    assert(r <= 0xFF && g <= 0xFF && b <= 0xFF ==> ((((r << 16u32) | (g << 8u32) | b) >> 8u32)
        & 0xFFu32) == g) by (bit_vector);
    assert(r <= 0xFF && g <= 0xFF && b <= 0xFF ==> ((((r << 16u32) | (g << 8u32) | b) >> 0u32)
        & 0xFFu32) == b) by (bit_vector);
    assert(r <= 0xFF && g <= 0xFF && b <= 0xFF ==> ((r << 16u32) | (g << 8u32) | b) <= 0xFF_FFFF)
        by (bit_vector);
}

/// Packing the three channels of a value gives back its low 24 bits.
pub proof fn lemma_rgb_hex_of_channels(hex: u32)
    ensures
        rgb_hex(channel(hex, 16), channel(hex, 8), channel(hex, 0)) == hex & 0xFF_FFFFu32,
{
    assert((((hex >> 16u32) & 0xFFu32) << 16u32) | (((hex >> 8u32) & 0xFFu32) << 8u32) | ((hex
        >> 0u32) & 0xFFu32) == hex & 0xFF_FFFFu32) by (bit_vector);
}

/// Round trip through the packed form: `to_hex(from_hex(h))` keeps the low 24 bits of `h`,
/// and `from_hex(to_hex(c))` is `c`.
pub proof fn lemma_hex_round_trip(hex: u32, c: Color)
    ensures
        Color::spec_from_hex(hex).spec_to_hex() == hex & 0xFF_FFFFu32,
        Color::spec_from_hex(c.spec_to_hex()) == c,
{
    lemma_rgb_hex_of_channels(hex);
    assert(channel(hex, 16) <= 0xFF && channel(hex, 8) <= 0xFF && channel(hex, 0) <= 0xFF) by {
        assert(((hex >> 16u32) & 0xFFu32) <= 0xFF) by (bit_vector);
        assert(((hex >> 8u32) & 0xFFu32) <= 0xFF) by (bit_vector);
        assert(((hex >> 0u32) & 0xFFu32) <= 0xFF) by (bit_vector);
    }
    lemma_channels_of_rgb_hex(c.r as u32, c.g as u32, c.b as u32);
}

} // verus!
