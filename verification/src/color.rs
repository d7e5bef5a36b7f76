//! Colors with four 8-bit channels and their packed 32-bit representation.

use vstd::prelude::*;

verus! {

/// Color representation: four independent 8-bit channels.
#[derive(Debug, PartialEq, Eq, Structural, Copy, Clone)]
pub struct Color {
    /// Red component
    pub r: u8,
    /// Green component
    pub g: u8,
    /// Blue component
    pub b: u8,
    /// Alpha component
    pub a: u8,
}

/// Transparent black: r: 0, g: 0, b: 0, a: 0.
pub fn none() -> (c: Color)
    ensures
        c == (Color { r: 0u8, g: 0u8, b: 0u8, a: 0u8 }),
{
    Color { r: 0, g: 0, b: 0, a: 0 }
}

/// r: 255, g: 255, b: 255, a: 255
pub fn white() -> (c: Color)
    ensures
        c == (Color { r: 255u8, g: 255u8, b: 255u8, a: 255u8 }),
{
    Color { r: 255, g: 255, b: 255, a: 255 }
}

/// r: 0, g: 0, b: 0, a: 255
pub fn black() -> (c: Color)
    ensures
        c == (Color { r: 0u8, g: 0u8, b: 0u8, a: 255u8 }),
{
    Color { r: 0, g: 0, b: 0, a: 255 }
}

/// r: 255, g: 0, b: 0, a: 255
pub fn red() -> (c: Color)
    ensures
        c == (Color { r: 255u8, g: 0u8, b: 0u8, a: 255u8 }),
{
    Color { r: 255, g: 0, b: 0, a: 255 }
}

/// r: 0, g: 255, b: 0, a: 255
pub fn green() -> (c: Color)
    ensures
        c == (Color { r: 0u8, g: 255u8, b: 0u8, a: 255u8 }),
{
    Color { r: 0, g: 255, b: 0, a: 255 }
}

/// r: 0, g: 0, b: 255, a: 255
pub fn blue() -> (c: Color)
    ensures
        c == (Color { r: 0u8, g: 0u8, b: 255u8, a: 255u8 }),
{
    Color { r: 0, g: 0, b: 255, a: 255 }
}

/// r: 255, g: 255, b: 0, a: 255
pub fn yellow() -> (c: Color)
    ensures
        c == (Color { r: 255u8, g: 255u8, b: 0u8, a: 255u8 }),
{
    Color { r: 255, g: 255, b: 0, a: 255 }
}

/// r: 0, g: 255, b: 255, a: 255
pub fn cyan() -> (c: Color)
    ensures
        c == (Color { r: 0u8, g: 255u8, b: 255u8, a: 255u8 }),
{
    Color { r: 0, g: 255, b: 255, a: 255 }
}

/// r: 255, g: 0, b: 255, a: 255
pub fn magenta() -> (c: Color)
    ensures
        c == (Color { r: 255u8, g: 0u8, b: 255u8, a: 255u8 }),
{
    Color { r: 255, g: 0, b: 255, a: 255 }
}

/// The packed 32-bit form of a color: alpha in bits 31-24, red in bits 23-16,
/// green in bits 15-8, blue in bits 7-0.
pub open spec fn pack(c: Color) -> u32 {
    ((c.a as u32) << 24) | ((c.r as u32) << 16) | ((c.g as u32) << 8) | (c.b as u32)
}

/// The channels read back out of a packed 32-bit value by the inverse shifts.
pub open spec fn unpack(n: u32) -> Color {
    Color { r: (n >> 16) as u8, g: (n >> 8) as u8, b: n as u8, a: (n >> 24) as u8 }
}

impl Color {
    /// Creates a color from rgb values, alpha defaults to 255.
    pub fn rgb(r: u8, g: u8, b: u8) -> (c: Color)
        ensures
            c == (Color { r, g, b, a: 255u8 }),
    {
        Color { r, g, b, a: 0xff }
    }

    /// Creates a color from rgba values.
    pub fn rgba(r: u8, g: u8, b: u8, a: u8) -> (c: Color)
        ensures
            c == (Color { r, g, b, a }),
    {
        Color { r, g, b, a }
    }

    /// Packs the four channels into one 32-bit value.
    pub fn to_u32(self) -> (n: u32)
        ensures
            n == pack(self),
    {
        let (a, r, g, b) = (self.a as u32, self.r as u32, self.g as u32, self.b as u32);
        (a << 24) | (r << 16) | (g << 8) | b
    }

    /// Splits a packed 32-bit value back into its four channels.
    pub fn from_u32(n: u32) -> (c: Color)
        ensures
            c == unpack(n),
    {
        Color {
            r: #[verifier::truncate] ((n >> 16) as u8),
            g: #[verifier::truncate] ((n >> 8) as u8),
            b: #[verifier::truncate] (n as u8),
            a: #[verifier::truncate] ((n >> 24) as u8),
        }
    }
}

/// Unpacking the packed value of any color reproduces the color exactly.
pub proof fn lemma_unpack_pack(c: Color)
    ensures
        unpack(pack(c)) == c,
{
    let (r, g, b, a) = (c.r, c.g, c.b, c.a);
    assert(((((a as u32) << 24) | ((r as u32) << 16) | ((g as u32) << 8) | (b as u32)) >> 16)
        as u8 == r) by (bit_vector);
    assert(((((a as u32) << 24) | ((r as u32) << 16) | ((g as u32) << 8) | (b as u32)) >> 8)
        as u8 == g) by (bit_vector);
    assert((((a as u32) << 24) | ((r as u32) << 16) | ((g as u32) << 8) | (b as u32))
        as u8 == b) by (bit_vector);
    assert(((((a as u32) << 24) | ((r as u32) << 16) | ((g as u32) << 8) | (b as u32)) >> 24)
        as u8 == a) by (bit_vector);
}

/// Packing the unpacked channels of any 32-bit value reproduces the value
/// exactly, so packing and unpacking are inverses over all 2^32 values.
pub proof fn lemma_pack_unpack(n: u32)
    ensures
        pack(unpack(n)) == n,
{
    assert(((((n >> 24) as u8) as u32) << 24) | ((((n >> 16) as u8) as u32) << 16)
        | ((((n >> 8) as u8) as u32) << 8) | ((n as u8) as u32) == n) by (bit_vector);
}

} // verus!
