//! Real numbers as the library carries them.
//!
//! A [`Scalar`] is an IEEE-754 binary64 value held by its bit pattern. The
//! library does no arithmetic that rounds: it compares scalars, flips or
//! clears their sign and picks one of several, all of which is exact.
//! Whoever computes with reals hands the results in as bit patterns.

use vstd::prelude::*;

verus! {

/// The sign bit of a binary64 pattern.
pub const SIGN_BIT: u64 = 0x8000_0000_0000_0000;

/// The pattern of positive infinity: every larger magnitude is a NaN.
pub const INFINITY_BITS: u64 = 0x7ff0_0000_0000_0000;

/// The pattern of the number one.
pub const ONE_BITS: u64 = 0x3ff0_0000_0000_0000;

/// A binary64 value, by its bit pattern.
#[derive(Clone, Copy, Debug, PartialEq, Eq, Structural)]
pub struct Scalar {
    pub bits: u64,
}

impl Scalar {
    /// Whether the sign bit is set.
    pub open spec fn is_negative(self) -> bool {
        self.bits >= SIGN_BIT
    }

    /// The pattern without its sign bit.
    pub open spec fn magnitude(self) -> int {
        if self.bits >= SIGN_BIT {
            self.bits - SIGN_BIT
        } else {
            self.bits as int
        }
    }

    /// Whether the pattern encodes no number.
    pub open spec fn is_nan(self) -> bool {
        self.magnitude() > INFINITY_BITS
    }

    /// The place of the value on the number line: the sign-magnitude reading
    /// of the pattern. Among patterns that encode numbers, a larger rank is a
    /// larger number, and the two zeros share rank zero.
    pub open spec fn rank(self) -> int {
        if self.is_negative() {
            -self.magnitude()
        } else {
            self.magnitude()
        }
    }

    /// `self < other` as binary64 defines it: false when either is a NaN.
    pub open spec fn spec_lt(self, other: Scalar) -> bool {
        !self.is_nan() && !other.is_nan() && self.rank() < other.rank()
    }

    /// `self <= other` as binary64 defines it: false when either is a NaN.
    pub open spec fn spec_le(self, other: Scalar) -> bool {
        !self.is_nan() && !other.is_nan() && self.rank() <= other.rank()
    }

    /// The pattern with the sign bit flipped.
    pub open spec fn spec_neg(self) -> Scalar {
        if self.bits >= SIGN_BIT {
            Scalar { bits: (self.bits - SIGN_BIT) as u64 }
        } else {
            Scalar { bits: (self.bits + SIGN_BIT) as u64 }
        }
    }

    /// The pattern with the sign bit cleared.
    pub open spec fn spec_abs(self) -> Scalar {
        Scalar { bits: self.magnitude() as u64 }
    }

    /// The smaller of two values; where one is a NaN, the other.
    pub open spec fn spec_min(self, other: Scalar) -> Scalar {
        if self.is_nan() {
            other
        } else if other.is_nan() {
            self
        } else if other.rank() < self.rank() {
            other
        } else {
            self
        }
    }

    /// The larger of two values; where one is a NaN, the other.
    pub open spec fn spec_max(self, other: Scalar) -> Scalar {
        if self.is_nan() {
            other
        } else if other.is_nan() {
            self
        } else if other.rank() > self.rank() {
            other
        } else {
            self
        }
    }

    pub fn from_bits(bits: u64) -> (s: Scalar)
        ensures
            s.bits == bits,
    {
        Scalar { bits }
    }

    pub fn to_bits(self) -> (bits: u64)
        ensures
            bits == self.bits,
    {
        self.bits
    }

    pub fn zero() -> (s: Scalar)
        ensures
            s.bits == 0,
    {
        Scalar { bits: 0 }
    }

    pub fn one() -> (s: Scalar)
        ensures
            s.bits == ONE_BITS,
    {
        Scalar { bits: ONE_BITS }
    }

    pub fn infinity() -> (s: Scalar)
        ensures
            s.bits == INFINITY_BITS,
    {
        Scalar { bits: INFINITY_BITS }
    }

    pub fn neg_infinity() -> (s: Scalar)
        ensures
            s.bits == INFINITY_BITS + SIGN_BIT,
    {
        Scalar { bits: INFINITY_BITS + SIGN_BIT }
    }

    fn magnitude_bits(self) -> (m: u64)
        ensures
            m == self.magnitude(),
            m < SIGN_BIT,
    {
        if self.bits >= SIGN_BIT {
            self.bits - SIGN_BIT
        } else {
            self.bits
        }
    }

    pub fn is_nan_value(self) -> (r: bool)
        ensures
            r == self.is_nan(),
    {
        self.magnitude_bits() > INFINITY_BITS
    }

    /// Whether `self` ranks strictly below `other`: a total order on all
    /// patterns, which is the order of the numbers among those that encode
    /// one.
    pub fn ranks_below(self, other: Scalar) -> (r: bool)
        ensures
            r == (self.rank() < other.rank()),
    {
        let a: u64 = self.magnitude_bits();
        let b: u64 = other.magnitude_bits();
        if self.bits >= SIGN_BIT {
            if other.bits >= SIGN_BIT {
                b < a
            } else {
                a > 0 || b > 0
            }
        } else {
            if other.bits >= SIGN_BIT {
                false
            } else {
                a < b
            }
        }
    }

    pub fn lt(self, other: Scalar) -> (r: bool)
        ensures
            r == self.spec_lt(other),
    {
        !self.is_nan_value() && !other.is_nan_value() && self.ranks_below(other)
    }

    pub fn le(self, other: Scalar) -> (r: bool)
        ensures
            r == self.spec_le(other),
    {
        !self.is_nan_value() && !other.is_nan_value() && !other.ranks_below(self)
    }

    pub fn gt(self, other: Scalar) -> (r: bool)
        ensures
            r == other.spec_lt(self),
    {
        other.lt(self)
    }

    pub fn ge(self, other: Scalar) -> (r: bool)
        ensures
            r == other.spec_le(self),
    {
        other.le(self)
    }

    pub fn neg(self) -> (r: Scalar)
        ensures
            r == self.spec_neg(),
    {
        if self.bits >= SIGN_BIT {
            Scalar { bits: self.bits - SIGN_BIT }
        } else {
            Scalar { bits: self.bits + SIGN_BIT }
        }
    }

    pub fn abs(self) -> (r: Scalar)
        ensures
            r == self.spec_abs(),
    {
        Scalar { bits: self.magnitude_bits() }
    }

    pub fn min(self, other: Scalar) -> (r: Scalar)
        ensures
            r == self.spec_min(other),
    {
        if self.is_nan_value() {
            other
        } else if other.is_nan_value() {
            self
        } else if other.ranks_below(self) {
            other
        } else {
            self
        }
    }

    pub fn max(self, other: Scalar) -> (r: Scalar)
        ensures
            r == self.spec_max(other),
    {
        if self.is_nan_value() {
            other
        } else if other.is_nan_value() {
            self
        } else if self.ranks_below(other) {
            other
        } else {
            self
        }
    }
}

/// Negating a value mirrors its rank, keeps its magnitude and undoes itself.
pub proof fn lemma_neg_mirrors(a: Scalar)
    ensures
        a.spec_neg().rank() == -a.rank(),
        a.spec_neg().is_nan() == a.is_nan(),
        a.spec_neg().spec_neg() == a,
        a.spec_abs().rank() == a.magnitude(),
        a.spec_abs().is_nan() == a.is_nan(),
{
}

/// Among numbers, `<=` is a total preorder by rank and `<` its strict part.
pub proof fn lemma_order_total(a: Scalar, b: Scalar, c: Scalar)
    requires
        !a.is_nan(),
        !b.is_nan(),
        !c.is_nan(),
    ensures
        a.spec_le(a),
        a.spec_le(b) || b.spec_le(a),
        a.spec_lt(b) <==> !b.spec_le(a),
        a.spec_le(b) && b.spec_le(c) ==> a.spec_le(c),
        a.spec_le(b) && b.spec_le(a) ==> a.rank() == b.rank(),
{
}

/// The minimum and maximum of two numbers are bounds taken from the two.
pub proof fn lemma_min_max(a: Scalar, b: Scalar)
    ensures
        a.spec_min(b) == a || a.spec_min(b) == b,
        a.spec_max(b) == a || a.spec_max(b) == b,
        !a.is_nan() && !b.is_nan() ==> a.spec_min(b).spec_le(a) && a.spec_min(b).spec_le(b),
        !a.is_nan() && !b.is_nan() ==> a.spec_le(a.spec_max(b)) && b.spec_le(a.spec_max(b)),
        a.spec_min(b).is_nan() <==> a.is_nan() && b.is_nan(),
        a.spec_max(b).is_nan() <==> a.is_nan() && b.is_nan(),
{
}

} // verus!
