//! Positions and channel values as IEEE 754 binary32 bit patterns.
//!
//! The library never computes with such a number. It carries them, and it
//! orders them: the order of two binary32 numbers can be read off their bit
//! patterns, which is what this module states and proves.

use vstd::prelude::*;

verus! {

/// Bit pattern of positive zero.
pub const ZERO_BITS: u32 = 0;

/// Bit pattern of one.
pub const ONE_BITS: u32 = 0x3f80_0000;

/// Bit pattern of the machine epsilon of binary32, two to the power of minus 23.
pub const EPSILON_BITS: u32 = 0x3400_0000;

/// Bit pattern of positive infinity; every larger magnitude is a NaN.
pub const INFINITY_BITS: u32 = 0x7f80_0000;

/// The sign bit.
pub const SIGN_BIT: u32 = 0x8000_0000;

/// A binary32 number, held by its bit pattern. `==` compares the patterns:
/// it tells the two zeros apart and finds a NaN equal to itself. The order of
/// the numbers is `lt`, `le` and `same`.
#[derive(Clone, Copy, Debug, PartialEq, Eq, Hash, Structural)]
pub struct Scalar {
    pub bits: u32,
}

impl Scalar {
    /// The bit pattern without its sign.
    pub open spec fn magnitude(self) -> int {
        if self.bits < SIGN_BIT {
            self.bits as int
        } else {
            self.bits - SIGN_BIT
        }
    }

    /// A NaN has all exponent bits set and a mantissa that is not zero.
    pub open spec fn is_nan(self) -> bool {
        self.magnitude() > INFINITY_BITS
    }

    /// An integer that orders the numbers that are no NaN as the numbers
    /// themselves are ordered. Both zeros have key 0.
    pub open spec fn key(self) -> int {
        if self.bits < SIGN_BIT {
            self.bits as int
        } else {
            SIGN_BIT - self.bits
        }
    }

    /// `self < other` as binary32 numbers: false where either is a NaN.
    pub open spec fn lt(self, other: Scalar) -> bool {
        !self.is_nan() && !other.is_nan() && self.key() < other.key()
    }

    /// `self <= other` as binary32 numbers: false where either is a NaN.
    pub open spec fn le(self, other: Scalar) -> bool {
        !self.is_nan() && !other.is_nan() && self.key() <= other.key()
    }

    /// `self == other` as binary32 numbers: false where either is a NaN, true
    /// of the two zeros.
    pub open spec fn same(self, other: Scalar) -> bool {
        !self.is_nan() && !other.is_nan() && self.key() == other.key()
    }

    pub fn from_bits(bits: u32) -> (s: Scalar)
        ensures
            s.bits == bits,
    {
        Scalar { bits }
    }

    pub fn to_bits(&self) -> (bits: u32)
        ensures
            bits == self.bits,
    {
        self.bits
    }

    pub fn zero() -> (s: Scalar)
        ensures
            s.bits == ZERO_BITS,
            !s.is_nan(),
            s.key() == 0,
    {
        Scalar { bits: ZERO_BITS }
    }

    pub fn one() -> (s: Scalar)
        ensures
            s.bits == ONE_BITS,
            !s.is_nan(),
            s.key() == ONE_BITS,
    {
        Scalar { bits: ONE_BITS }
    }

    pub fn epsilon() -> (s: Scalar)
        ensures
            s.bits == EPSILON_BITS,
            !s.is_nan(),
            s.key() == EPSILON_BITS,
    {
        Scalar { bits: EPSILON_BITS }
    }

    pub fn nan(&self) -> (r: bool)
        ensures
            r == self.is_nan(),
    {
        let m: u32 = if self.bits < SIGN_BIT {
            self.bits
        } else {
            self.bits - SIGN_BIT
        };
        m > INFINITY_BITS
    }

    pub fn order_key(&self) -> (k: i64)
        ensures
            k == self.key(),
    {
        if self.bits < SIGN_BIT {
            self.bits as i64
        } else {
            SIGN_BIT as i64 - self.bits as i64
        }
    }

    pub fn less(&self, other: &Scalar) -> (r: bool)
        ensures
            r == self.lt(*other),
    {
        !self.nan() && !other.nan() && self.order_key() < other.order_key()
    }

    pub fn less_eq(&self, other: &Scalar) -> (r: bool)
        ensures
            r == self.le(*other),
    {
        !self.nan() && !other.nan() && self.order_key() <= other.order_key()
    }

    pub fn equals(&self, other: &Scalar) -> (r: bool)
        ensures
            r == self.same(*other),
    {
        !self.nan() && !other.nan() && self.order_key() == other.order_key()
    }

    /// The larger of the two, as binary32's `max` gives it: where one is a
    /// NaN, the other.
    pub fn max(self, other: Scalar) -> (r: Scalar)
        ensures
            r == self.spec_max(other),
    {
        if self.nan() {
            other
        } else if other.nan() {
            self
        } else if self.order_key() < other.order_key() {
            other
        } else {
            self
        }
    }

    pub open spec fn spec_max(self, other: Scalar) -> Scalar {
        if self.is_nan() {
            other
        } else if other.is_nan() {
            self
        } else if self.key() < other.key() {
            other
        } else {
            self
        }
    }
}

/// Of three numbers none of which is a NaN, `<` and `<=` are transitive, and
/// of two of them exactly one of `a < b`, `a == b`, `b < a` holds.
pub proof fn lemma_order_is_total(a: Scalar, b: Scalar, c: Scalar)
    requires
        !a.is_nan(),
        !b.is_nan(),
        !c.is_nan(),
    ensures
        a.le(b) && b.le(c) ==> a.le(c),
        a.lt(b) && b.le(c) ==> a.lt(c),
        a.le(b) && b.lt(c) ==> a.lt(c),
        a.lt(b) || a.same(b) || b.lt(a),
        !(a.lt(b) && b.lt(a)),
        a.le(b) <==> !b.lt(a),
{
}

/// A NaN is below nothing, above nothing and equal to nothing.
pub proof fn lemma_nan_is_unordered(a: Scalar, b: Scalar)
    requires
        a.is_nan(),
    ensures
        !a.lt(b),
        !b.lt(a),
        !a.le(b),
        !b.le(a),
        !a.same(b),
        !a.same(a),
{
}

} // verus!
