use vstd::prelude::*;

verus! {

/// An 8-bit-per-channel colour.
#[derive(Clone, Copy, Debug, PartialEq, Eq, Structural)]
pub struct Rgba {
    pub r: u8,
    pub g: u8,
    pub b: u8,
    pub a: u8,
}

/// The 32-bit word a colour is stored as: red in the lowest byte, then
/// green, blue, and alpha in the highest byte.
pub open spec fn packed(c: Rgba) -> int {
    c.r as int + 256 * c.g as int + 65536 * c.b as int + 16777216 * c.a as int
}

/// Packs a colour into one frame-buffer word (byte order R, G, B, A from the
/// low end).
pub fn color_to_u32(c: Rgba) -> (r: u32)
    ensures
        r as int == packed(c),
{
    let (r8, g8, b8, a8) = (c.r as u32, c.g as u32, c.b as u32, c.a as u32);
    let w = (a8 << 24u32) | (b8 << 16u32) | (g8 << 8u32) | r8;
    assert(w == r8 + 256 * g8 + 65536 * b8 + 16777216 * a8) by (bit_vector)
        requires
            w == (a8 << 24u32) | (b8 << 16u32) | (g8 << 8u32) | r8,
            r8 < 256,
            g8 < 256,
            b8 < 256,
            a8 < 256,
    ;
    w
}

pub open spec fn opaque_white() -> Rgba {
    Rgba { r: 255, g: 255, b: 255, a: 255 }
}

impl Rgba {
    /// Opaque white, the colour that stands in for a missing texel.
    pub fn white() -> (r: Rgba)
        ensures
            r == opaque_white(),
    {
        Rgba { r: 255, g: 255, b: 255, a: 255 }
    }
}

} // verus!
