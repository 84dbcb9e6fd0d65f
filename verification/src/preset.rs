//! Preset gradients. Those given by a formula are unit types; those given by
//! a palette are a list of colors, `0xRRGGBB` each.

use vstd::prelude::*;

verus! {

/// The sinebow: three squared sines, a third of a turn apart.
#[derive(Debug, Clone, Copy, PartialEq, Eq, Structural)]
pub struct SinebowGradient {}

pub fn sinebow() -> (g: SinebowGradient)
    ensures
        g == (SinebowGradient {}),
{
    SinebowGradient {}
}

/// Turbo: a polynomial of degree five in each channel.
#[derive(Debug, Clone, Copy, PartialEq, Eq, Structural)]
pub struct TurboGradient {}

pub fn turbo() -> (g: TurboGradient)
    ensures
        g == (TurboGradient {}),
{
    TurboGradient {}
}

/// Cividis: a polynomial of degree five in each channel.
#[derive(Debug, Clone, Copy, PartialEq, Eq, Structural)]
pub struct CividisGradient {}

pub fn cividis() -> (g: CividisGradient)
    ensures
        g == (CividisGradient {}),
{
    CividisGradient {}
}

/// The rainbow: a walk through cubehelix space.
#[derive(Debug, Clone, Copy, PartialEq, Eq, Structural)]
pub struct RainbowGradient {}

pub fn rainbow() -> (g: RainbowGradient)
    ensures
        g == (RainbowGradient {}),
{
    RainbowGradient {}
}

/// The red, green and blue bytes of `0xRRGGBB`.
pub open spec fn rgb_of(c: u32) -> (u8, u8, u8) {
    (((c >> 16) & 0xff) as u8, ((c >> 8) & 0xff) as u8, (c & 0xff) as u8)
}

/// Splits a palette entry, `0xRRGGBB`, into its three bytes. Bits above the
/// red byte are dropped.
pub fn unpack_rgb(c: u32) -> (rgb: (u8, u8, u8))
    ensures
        rgb == rgb_of(c),
        c < 0x100_0000 ==> c == rgb.0 as u32 * 0x1_0000 + rgb.1 as u32 * 0x100 + rgb.2 as u32,
{
    let r: u32 = (c >> 16) & 0xff;
    let g: u32 = (c >> 8) & 0xff;
    let b: u32 = c & 0xff;
    assert(r < 256 && g < 256 && b < 256) by (bit_vector)
        requires
            r == (c >> 16) & 0xff,
            g == (c >> 8) & 0xff,
            b == c & 0xff,
    ;
    assert(c < 0x100_0000 ==> c == r * 0x1_0000 + g * 0x100 + b) by (bit_vector)
        requires
            r == (c >> 16) & 0xff,
            g == (c >> 8) & 0xff,
            b == c & 0xff,
    ;
    (r as u8, g as u8, b as u8)
}

} // verus!
