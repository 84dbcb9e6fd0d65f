//! Colors as four binary32 channels, and the one door through which they
//! come from text.

use vstd::prelude::*;
use crate::scalar::{Scalar, ONE_BITS, ZERO_BITS};

verus! {

/// Red, green, blue and alpha, each a binary32 number held by its bits.
#[derive(Clone, Copy, Debug, PartialEq, Eq, Hash, Structural)]
pub struct Rgba {
    pub r: Scalar,
    pub g: Scalar,
    pub b: Scalar,
    pub a: Scalar,
}

impl Rgba {
    pub open spec fn from_bits_spec(r: u32, g: u32, b: u32, a: u32) -> Rgba {
        Rgba {
            r: Scalar { bits: r },
            g: Scalar { bits: g },
            b: Scalar { bits: b },
            a: Scalar { bits: a },
        }
    }

    /// Opaque black.
    pub open spec fn spec_black() -> Rgba {
        Rgba::from_bits_spec(ZERO_BITS, ZERO_BITS, ZERO_BITS, ONE_BITS)
    }

    /// Opaque white.
    pub open spec fn spec_white() -> Rgba {
        Rgba::from_bits_spec(ONE_BITS, ONE_BITS, ONE_BITS, ONE_BITS)
    }

    pub fn from_bits(r: u32, g: u32, b: u32, a: u32) -> (c: Rgba)
        ensures
            c == Rgba::from_bits_spec(r, g, b, a),
    {
        Rgba {
            r: Scalar { bits: r },
            g: Scalar { bits: g },
            b: Scalar { bits: b },
            a: Scalar { bits: a },
        }
    }

    pub fn to_bits(&self) -> (bits: [u32; 4])
        ensures
            bits@ == seq![self.r.bits, self.g.bits, self.b.bits, self.a.bits],
    {
        [self.r.bits, self.g.bits, self.b.bits, self.a.bits]
    }

    /// Opaque black: what a gradient gives where the position is a NaN.
    pub fn black() -> (c: Rgba)
        ensures
            c == Rgba::spec_black(),
    {
        Rgba::from_bits(ZERO_BITS, ZERO_BITS, ZERO_BITS, ONE_BITS)
    }

    pub fn white() -> (c: Rgba)
        ensures
            c == Rgba::spec_white(),
    {
        Rgba::from_bits(ONE_BITS, ONE_BITS, ONE_BITS, ONE_BITS)
    }
}

/// The color that a CSS color text stands for, `None` where it stands for
/// none: what `csscolorparser::parse` makes of the text.
pub uninterp spec fn css_color(text: Seq<char>) -> Option<Rgba>;

/// Calls `csscolorparser::parse`. The parser reads nothing but its argument,
/// and as it is built here its powers, roots and angles are computed in
/// software by `libm`, not by the mathematical library of the machine; so
/// its answer is a function of the text, here named `css_color`. Which
/// texts are colors, and which colors, is not stated. The channels of the
/// color come back bit for bit, the error is dropped.
#[verifier::external_body]
pub(crate) fn parse_color(text: &str) -> (c: Option<Rgba>)
    ensures
        c == css_color(text@),
{
    match csscolorparser::parse(text) {
        Ok(c) => Some(
            Rgba {
                r: Scalar { bits: c.r.to_bits() },
                g: Scalar { bits: c.g.to_bits() },
                b: Scalar { bits: c.b.to_bits() },
                a: Scalar { bits: c.a.to_bits() },
            },
        ),
        Err(_) => None,
    }
}

} // verus!
