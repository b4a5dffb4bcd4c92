//! Packed 24-bit RGB color.

use vstd::prelude::*;

verus! {

/// An RGB color packed into the low 24 bits of a `u32`:
/// red in bits 16..24, green in bits 8..16, blue in bits 0..8.
pub struct Color {
    c: u32,
}

impl Color {
    /// The packed word, as contracts see it.
    pub closed spec fn word(&self) -> u32 {
        self.c
    }

    /// Packs three 8-bit channels into one word.
    pub fn from_rgb(r: u8, g: u8, b: u8) -> (res: Self)
        ensures
            res.word() == ((r as u32) << 16u32 | (g as u32) << 8u32 | (b as u32)),
    {
        Self { c: (r as u32) << 16u32 | (g as u32) << 8u32 | (b as u32) }
    }

    /// Wraps an already-packed word.
    pub fn from_u32(c: u32) -> (res: Self)
        ensures
            res.word() == c,
    {
        Self { c }
    }

    /// The red channel.
    pub fn r(&self) -> (res: u8)
        ensures
            res == ((self.word() >> 16u32) as u8),
    {
        (self.c >> 16u32) as u8
    }

    /// The green channel.
    pub fn g(&self) -> (res: u8)
        ensures
            res == ((self.word() >> 8u32) as u8),
    {
        (self.c >> 8u32) as u8
    }

    /// The blue channel.
    pub fn b(&self) -> (res: u8)
        ensures
            res == (self.word() as u8),
    {
        self.c as u8
    }
}

/// Packing and unpacking are inverse: the channels read back from
/// `from_rgb(r, g, b)` are exactly `r`, `g` and `b`.
pub proof fn lemma_color_channels_round_trip(r: u8, g: u8, b: u8)
    ensures
        (((r as u32) << 16u32 | (g as u32) << 8u32 | (b as u32)) >> 16u32) as u8 == r,
        (((r as u32) << 16u32 | (g as u32) << 8u32 | (b as u32)) >> 8u32) as u8 == g,
        ((r as u32) << 16u32 | (g as u32) << 8u32 | (b as u32)) as u8 == b,
{
    assert((((r as u32) << 16u32 | (g as u32) << 8u32 | (b as u32)) >> 16u32) as u8 == r)
        by (bit_vector);
    assert((((r as u32) << 16u32 | (g as u32) << 8u32 | (b as u32)) >> 8u32) as u8 == g)
        by (bit_vector);
    assert(((r as u32) << 16u32 | (g as u32) << 8u32 | (b as u32)) as u8 == b) by (bit_vector);
}

} // verus!
