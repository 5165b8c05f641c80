//! Single-precision numbers, held by their IEEE-754 bit pattern.
//!
//! The arbiter only ever compares and selects such numbers; it never adds or
//! multiplies them. Each comparison is therefore written over the bits.
//! IEEE-754 lays its formats out so that, the sign aside, a larger bit
//! pattern is a larger number: a number that is not a NaN has a signed
//! `rank`, and two such numbers are ordered exactly as their ranks are.

use vstd::prelude::*;

verus! {

/// The sign bit of a bit pattern.
pub const SIGN_BIT: u32 = 0x8000_0000;

/// The bit pattern of positive infinity; every larger magnitude is a NaN.
pub const INFINITY_BITS: u32 = 0x7f80_0000;

/// A single-precision IEEE-754 number, held by its bits.
#[derive(Clone, Copy, Debug)]
pub struct Scalar {
    pub bits: u32,
}

impl Scalar {
    /// The bits without the sign.
    pub open spec fn magnitude(self) -> int {
        if self.bits >= SIGN_BIT {
            self.bits - SIGN_BIT
        } else {
            self.bits as int
        }
    }

    /// The sign bit is set (true of negative zero and of some NaNs too).
    pub open spec fn negative(self) -> bool {
        self.bits >= SIGN_BIT
    }

    /// Not a number: a magnitude beyond that of infinity.
    pub open spec fn nan(self) -> bool {
        self.magnitude() > INFINITY_BITS
    }

    /// Neither infinite nor a NaN.
    pub open spec fn finite(self) -> bool {
        self.magnitude() < INFINITY_BITS
    }

    /// Where the number stands among all numbers that are not NaNs: both
    /// zeros at 0, positive numbers above, negative numbers below.
    pub open spec fn rank(self) -> int {
        if self.negative() {
            -self.magnitude()
        } else {
            self.magnitude()
        }
    }

    /// `self < other` as IEEE-754 orders them: false when either is a NaN.
    pub open spec fn below(self, other: Scalar) -> bool {
        !self.nan() && !other.nan() && self.rank() < other.rank()
    }

    /// `self > other`: false when either is a NaN.
    pub open spec fn above(self, other: Scalar) -> bool {
        other.below(self)
    }

    /// `self <= other`: false when either is a NaN.
    pub open spec fn at_most(self, other: Scalar) -> bool {
        !self.nan() && !other.nan() && self.rank() <= other.rank()
    }

    /// `self == other` as numbers: the two zeros are equal, a NaN equals nothing.
    pub open spec fn same_value(self, other: Scalar) -> bool {
        !self.nan() && !other.nan() && self.rank() == other.rank()
    }

    /// Positive or negative zero.
    pub open spec fn zero_valued(self) -> bool {
        self.magnitude() == 0
    }

    pub fn from_bits(bits: u32) -> (r: Scalar)
        ensures
            r.bits == bits,
    {
        Scalar { bits }
    }

    pub fn to_bits(self) -> (r: u32)
        ensures
            r == self.bits,
    {
        self.bits
    }

    /// Positive zero.
    pub fn zero() -> (r: Scalar)
        ensures
            r.bits == 0,
    {
        Scalar { bits: 0 }
    }

    /// The number one.
    pub fn one() -> (r: Scalar)
        ensures
            r.bits == 0x3f80_0000,
    {
        Scalar { bits: 0x3f80_0000 }
    }

    /// The number minus one.
    pub fn minus_one() -> (r: Scalar)
        ensures
            r.bits == 0xbf80_0000,
    {
        Scalar { bits: 0xbf80_0000 }
    }

    fn abs_bits(self) -> (r: u32)
        ensures
            r == self.magnitude(),
    {
        if self.bits >= SIGN_BIT {
            self.bits - SIGN_BIT
        } else {
            self.bits
        }
    }

    fn signed_rank(self) -> (r: i64)
        ensures
            r == self.rank(),
    {
        let m: i64 = self.abs_bits() as i64;
        if self.bits >= SIGN_BIT {
            -m
        } else {
            m
        }
    }

    pub fn is_nan(self) -> (r: bool)
        ensures
            r == self.nan(),
    {
        self.abs_bits() > INFINITY_BITS
    }

    pub fn is_finite(self) -> (r: bool)
        ensures
            r == self.finite(),
    {
        self.abs_bits() < INFINITY_BITS
    }

    pub fn is_zero(self) -> (r: bool)
        ensures
            r == self.zero_valued(),
    {
        self.abs_bits() == 0
    }

    pub fn lt(self, other: Scalar) -> (r: bool)
        ensures
            r == self.below(other),
    {
        !self.is_nan() && !other.is_nan() && self.signed_rank() < other.signed_rank()
    }

    pub fn gt(self, other: Scalar) -> (r: bool)
        ensures
            r == self.above(other),
    {
        other.lt(self)
    }

    pub fn le(self, other: Scalar) -> (r: bool)
        ensures
            r == self.at_most(other),
    {
        !self.is_nan() && !other.is_nan() && self.signed_rank() <= other.signed_rank()
    }

    pub fn ge(self, other: Scalar) -> (r: bool)
        ensures
            r == other.at_most(self),
    {
        other.le(self)
    }

    pub fn value_eq(self, other: Scalar) -> (r: bool)
        ensures
            r == self.same_value(other),
    {
        !self.is_nan() && !other.is_nan() && self.signed_rank() == other.signed_rank()
    }

    /// What clamping `self` into the band from `low` to `high` gives: `low`
    /// when `self` is below it, `high` when `self` is above it, else `self`
    /// itself (a NaN stays a NaN).
    pub open spec fn clamped(self, low: Scalar, high: Scalar) -> Scalar {
        if self.below(low) {
            low
        } else if self.above(high) {
            high
        } else {
            self
        }
    }

    /// Clamps `self` into the band from `low` to `high`.
    pub fn clamp(self, low: Scalar, high: Scalar) -> (r: Scalar)
        requires
            low.at_most(high),
        ensures
            r == self.clamped(low, high),
    {
        if self.lt(low) {
            low
        } else if self.gt(high) {
            high
        } else {
            self
        }
    }
}

/// A clamped number that is not a NaN lies in the band.
pub proof fn lemma_clamped_in_band(x: Scalar, low: Scalar, high: Scalar)
    requires
        low.at_most(high),
        !x.nan(),
    ensures
        low.at_most(x.clamped(low, high)),
        x.clamped(low, high).at_most(high),
{
}

} // verus!
