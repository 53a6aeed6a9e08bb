//! Opaque colors with three 8-bit channels, and the blending rule applied at
//! each bounce.

use vstd::prelude::*;

verus! {

/// An opaque color: red, green and blue channels.
#[derive(Clone, Copy, Debug, PartialEq, Eq, Structural)]
pub struct Rgb {
    pub r: u8,
    pub g: u8,
    pub b: u8,
}

impl Rgb {
    pub fn new(r: u8, g: u8, b: u8) -> (c: Rgb)
        ensures
            c == (Rgb { r, g, b }),
    {
        Rgb { r, g, b }
    }

    /// The default wall color: opaque white.
    pub fn white() -> (c: Rgb)
        ensures
            c == (Rgb { r: 255u8, g: 255u8, b: 255u8 }),
    {
        Rgb { r: 255, g: 255, b: 255 }
    }
}

/// One blended channel: a third of the traveling value plus two thirds of
/// the wall's value, in integer arithmetic.
pub open spec fn mix_channel(a: int, b: int) -> int {
    a / 3 + b * 2 / 3
}

/// The color after a bounce: each channel blended one third toward the
/// incoming color and two thirds toward the struck wall's color.
pub open spec fn mix_spec(c1: Rgb, c2: Rgb) -> Rgb {
    Rgb {
        r: mix_channel(c1.r as int, c2.r as int) as u8,
        g: mix_channel(c1.g as int, c2.g as int) as u8,
        b: mix_channel(c1.b as int, c2.b as int) as u8,
    }
}

/// Blend the traveling color toward a wall's color. The channel sum never
/// exceeds 255, so no clamping is needed.
pub fn mix_colors(col1: Rgb, col2: Rgb) -> (c: Rgb)
    ensures
        c == mix_spec(col1, col2),
        c.r as int == mix_channel(col1.r as int, col2.r as int),
        c.g as int == mix_channel(col1.g as int, col2.g as int),
        c.b as int == mix_channel(col1.b as int, col2.b as int),
{
    let r: u16 = col1.r as u16 / 3 + col2.r as u16 * 2 / 3;
    let g: u16 = col1.g as u16 / 3 + col2.g as u16 * 2 / 3;
    let b: u16 = col1.b as u16 / 3 + col2.b as u16 * 2 / 3;
    Rgb { r: r as u8, g: g as u8, b: b as u8 }
}

} // verus!
