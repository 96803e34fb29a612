//! Single-precision numbers, held as their IEEE 754 bit patterns.

use vstd::prelude::*;

verus! {

/// The bit pattern of positive infinity. Larger patterns without the sign bit are no numbers.
pub const INFINITY_BITS: u32 = 0x7f80_0000;

/// The bit pattern of negative infinity.
pub const NEGATIVE_INFINITY_BITS: u32 = 0xff80_0000;

/// The bit pattern of one.
pub const ONE_BITS: u32 = 0x3f80_0000;

/// The bit pattern of negative zero: the sign bit alone.
pub const SIGN_BIT: u32 = 0x8000_0000;

/// A single-precision number, as its bit pattern.
#[derive(Debug, Clone, Copy, PartialEq, Eq, Structural)]
pub struct Float32 {
    pub bits: u32,
}

impl Float32 {
    /// The bits without the sign.
    pub open spec fn magnitude(self) -> int {
        if self.bits >= SIGN_BIT {
            self.bits - SIGN_BIT
        } else {
            self.bits as int
        }
    }

    /// The pattern is no number.
    pub open spec fn nan(self) -> bool {
        self.magnitude() > INFINITY_BITS
    }

    /// The pattern is a number and not an infinity.
    pub open spec fn finite(self) -> bool {
        self.magnitude() < INFINITY_BITS
    }

    /// The number is zero or more; negative zero is zero.
    pub open spec fn non_negative(self) -> bool {
        !self.nan() && (self.bits < SIGN_BIT || self.magnitude() == 0)
    }

    /// The number lies between zero and one, both counted in.
    pub open spec fn in_unit_interval(self) -> bool {
        self.non_negative() && self.magnitude() <= ONE_BITS
    }

    fn magnitude_bits(&self) -> (r: u32)
        ensures
            r == self.magnitude(),
    {
        if self.bits >= SIGN_BIT {
            self.bits - SIGN_BIT
        } else {
            self.bits
        }
    }

    /// Whether the pattern is no number.
    pub fn is_nan(&self) -> (r: bool)
        ensures
            r == self.nan(),
    {
        self.magnitude_bits() > INFINITY_BITS
    }

    /// Whether the pattern is a number and not an infinity.
    pub fn is_finite(&self) -> (r: bool)
        ensures
            r == self.finite(),
    {
        self.magnitude_bits() < INFINITY_BITS
    }

    /// Whether the number is zero or more.
    pub fn is_non_negative(&self) -> (r: bool)
        ensures
            r == self.non_negative(),
    {
        !self.is_nan() && (self.bits < SIGN_BIT || self.magnitude_bits() == 0)
    }

    /// Whether the number lies between zero and one.
    pub fn is_in_unit_interval(&self) -> (r: bool)
        ensures
            r == self.in_unit_interval(),
    {
        self.is_non_negative() && self.magnitude_bits() <= ONE_BITS
    }
}

/// A pattern is a finite number, an infinity or no number; what lies between zero and one is finite;
/// and the sign does not change which it is, nor lets anything but zero lie there on both sides.
pub proof fn law_numbers_are_told_apart(a: Float32, b: Float32)
    ensures
        !(a.finite() && a.nan()),
        !a.finite() && !a.nan() <==> a.bits == INFINITY_BITS || a.bits == NEGATIVE_INFINITY_BITS,
        a.in_unit_interval() ==> a.finite() && a.non_negative(),
        a.bits <= b.bits && b.bits < SIGN_BIT && b.in_unit_interval() ==> a.in_unit_interval(),
        a.bits == ONE_BITS || a.bits == 0 || a.bits == SIGN_BIT ==> a.in_unit_interval(),
        a.bits == ONE_BITS + 1 ==> !a.in_unit_interval() && a.non_negative(),
        b.bits == a.bits + SIGN_BIT ==> a.finite() == b.finite() && a.nan() == b.nan() && (
        a.non_negative() && b.non_negative() ==> a.bits == 0),
        a.bits > SIGN_BIT ==> !a.non_negative(),
        a.bits <= INFINITY_BITS ==> a.non_negative(),
{
}

} // verus!
