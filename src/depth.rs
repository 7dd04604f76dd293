//! Depth values: IEEE 754 single-precision numbers, held as their bit
//! patterns, with the ordering of the numbers they stand for.
use vstd::prelude::*;

verus! {

/// The bit pattern of positive infinity.
pub const INFINITY_BITS: u32 = 0x7f80_0000;

/// The sign bit.
pub const SIGN_BIT: u32 = 0x8000_0000;

/// A depth: the bit pattern of an IEEE 754 single-precision number (what
/// `f32::to_bits` gives). Smaller numbers are nearer.
#[derive(Clone, Copy, Debug, PartialEq, Eq, Structural)]
pub struct Depth {
    pub bits: u32,
}

/// The pattern stands for a NaN: all exponent bits set and a fraction
/// that is not zero.
pub open spec fn is_nan(bits: u32) -> bool {
    bits % SIGN_BIT > INFINITY_BITS
}

/// An integer that orders the numbers that are not NaN as their values are
/// ordered: the magnitude bits, negated for a negative sign. Both zeros map
/// to 0 and the infinities to the ends.
pub open spec fn ordinal(bits: u32) -> int {
    if bits >= SIGN_BIT {
        -((bits - SIGN_BIT) as int)
    } else {
        bits as int
    }
}

/// `a < b` on the numbers that the patterns stand for: false where either
/// is a NaN.
pub open spec fn less_than(a: u32, b: u32) -> bool {
    !is_nan(a) && !is_nan(b) && ordinal(a) < ordinal(b)
}

impl Depth {
    /// Positive infinity, the depth of a cell that nothing was drawn on.
    pub fn infinity() -> (d: Depth)
        ensures
            d.bits == INFINITY_BITS,
    {
        Depth { bits: INFINITY_BITS }
    }

    pub fn from_bits(bits: u32) -> (d: Depth)
        ensures
            d.bits == bits,
    {
        Depth { bits }
    }

    pub fn to_bits(&self) -> (bits: u32)
        ensures
            bits == self.bits,
    {
        self.bits
    }

    /// Whether `self` is nearer than `other`: `self < other` on the numbers
    /// they stand for.
    pub fn is_nearer(&self, other: &Depth) -> (r: bool)
        ensures
            r == less_than(self.bits, other.bits),
    {
        let a = self.bits;
        let b = other.bits;
        if a % SIGN_BIT > INFINITY_BITS || b % SIGN_BIT > INFINITY_BITS {
            return false;
        }
        let a_neg = a >= SIGN_BIT;
        let b_neg = b >= SIGN_BIT;
        if a_neg && b_neg {
            a - SIGN_BIT > b - SIGN_BIT
        } else if a_neg {
            !(a == SIGN_BIT && b == 0)
        } else if b_neg {
            false
        } else {
            a < b
        }
    }
}

} // verus!
