//! Real-valued scores carried by their IEEE-754 binary64 encoding.
//!
//! The library never does floating-point arithmetic; it only orders and
//! compares scores. A `Score` holds the 64-bit pattern of a binary64 value and
//! compares exactly as that value does: NaN is unordered, `-0` equals `+0`,
//! and otherwise the sign-magnitude encoding orders the values.
use vstd::prelude::*;

verus! {

/// Bit of the sign in a binary64 encoding.
pub const SIGN_BIT: u64 = 0x8000_0000_0000_0000;

/// Encoding of positive infinity; magnitudes above it are NaN.
pub const INFINITY_BITS: u64 = 0x7ff0_0000_0000_0000;

/// Encoding of negative infinity.
pub const NEG_INFINITY_BITS: u64 = 0xfff0_0000_0000_0000;

/// A real value given by its binary64 bit pattern.
#[derive(Clone, Copy, Debug)]
pub struct Score {
    pub bits: u64,
}

/// Magnitude part (sign cleared) of an encoding.
pub open spec fn magnitude(bits: u64) -> int {
    if bits >= SIGN_BIT {
        bits - SIGN_BIT
    } else {
        bits as int
    }
}

/// Position of a non-NaN encoding on the real line: equal keys are equal
/// values (both zeros share key 0), and keys order as the values do.
pub open spec fn order_key(bits: u64) -> int {
    if bits >= SIGN_BIT {
        -magnitude(bits)
    } else {
        magnitude(bits)
    }
}

/// `f64::max` on two values: a NaN argument yields the other one.
pub open spec fn fmax(a: Score, b: Score) -> Score {
    if a.is_nan() {
        b
    } else if b.is_nan() {
        a
    } else if a.key() < b.key() {
        b
    } else {
        a
    }
}

/// `f64::min` on two values: a NaN argument yields the other one.
pub open spec fn fmin(a: Score, b: Score) -> Score {
    if a.is_nan() {
        b
    } else if b.is_nan() {
        a
    } else if b.key() < a.key() {
        b
    } else {
        a
    }
}

impl PartialEq for Score {
    fn eq(&self, other: &Self) -> (r: bool) {
        self.le(other) && other.le(self)
    }
}

impl vstd::std_specs::cmp::PartialEqSpecImpl for Score {
    open spec fn obeys_eq_spec() -> bool {
        true
    }

    open spec fn eq_spec(&self, other: &Self) -> bool {
        self.spec_same(*other)
    }
}

impl Score {
    /// The value is NaN.
    pub open spec fn is_nan(self) -> bool {
        magnitude(self.bits) > INFINITY_BITS
    }

    /// Where the value stands among the reals (meaningful when not NaN).
    pub open spec fn key(self) -> int {
        order_key(self.bits)
    }

    /// `self < other` as binary64 values.
    pub open spec fn spec_lt(self, other: Score) -> bool {
        !self.is_nan() && !other.is_nan() && self.key() < other.key()
    }

    /// `self <= other` as binary64 values.
    pub open spec fn spec_le(self, other: Score) -> bool {
        !self.is_nan() && !other.is_nan() && self.key() <= other.key()
    }

    /// The two values compare equal (`==` on binary64).
    pub open spec fn spec_same(self, other: Score) -> bool {
        !self.is_nan() && !other.is_nan() && self.key() == other.key()
    }

    /// Wraps a bit pattern.
    pub fn from_bits(bits: u64) -> (s: Score)
        ensures
            s.bits == bits,
    {
        Score { bits }
    }

    /// The bit pattern.
    pub fn to_bits(self) -> (b: u64)
        ensures
            b == self.bits,
    {
        self.bits
    }

    /// Positive zero.
    pub fn zero() -> (s: Score)
        ensures
            s.bits == 0,
            !s.is_nan(),
            s.key() == 0,
    {
        Score { bits: 0 }
    }

    /// Positive infinity, above every other non-NaN value.
    pub fn infinity() -> (s: Score)
        ensures
            s.bits == INFINITY_BITS,
            !s.is_nan(),
            forall|t: Score| !t.is_nan() ==> t.key() <= s.key(),
    {
        Score { bits: INFINITY_BITS }
    }

    /// Negative infinity, below every other non-NaN value.
    pub fn neg_infinity() -> (s: Score)
        ensures
            s.bits == NEG_INFINITY_BITS,
            !s.is_nan(),
            forall|t: Score| !t.is_nan() ==> s.key() <= t.key(),
    {
        Score { bits: NEG_INFINITY_BITS }
    }

    /// Whether the value is NaN.
    pub fn nan(&self) -> (b: bool)
        ensures
            b == self.is_nan(),
    {
        let m = if self.bits >= SIGN_BIT { self.bits - SIGN_BIT } else { self.bits };
        m > INFINITY_BITS
    }

    /// `self < other` on binary64 values.
    pub fn lt(&self, other: &Score) -> (b: bool)
        ensures
            b == self.spec_lt(*other),
    {
        if self.nan() || other.nan() {
            return false;
        }
        let a_neg = self.bits >= SIGN_BIT;
        let b_neg = other.bits >= SIGN_BIT;
        let a_mag = if a_neg { self.bits - SIGN_BIT } else { self.bits };
        let b_mag = if b_neg { other.bits - SIGN_BIT } else { other.bits };
        if a_neg && b_neg {
            b_mag < a_mag
        } else if a_neg {
            a_mag != 0 || b_mag != 0
        } else if b_neg {
            false
        } else {
            a_mag < b_mag
        }
    }

    /// `self <= other` on binary64 values.
    pub fn le(&self, other: &Score) -> (b: bool)
        ensures
            b == self.spec_le(*other),
    {
        !self.nan() && !other.nan() && !other.lt(self)
    }

    /// The larger of two values, as `f64::max`; equal values give `self`.
    pub fn max(self, other: Score) -> (r: Score)
        ensures
            r == fmax(self, other),
            self.is_nan() ==> r == other,
            !self.is_nan() && other.is_nan() ==> r == self,
            !self.is_nan() && !other.is_nan() ==> {
                &&& r == self || r == other
                &&& self.spec_le(r) && other.spec_le(r)
                &&& other.key() <= self.key() ==> r == self
            },
    {
        if self.nan() {
            other
        } else if other.nan() {
            self
        } else if self.lt(&other) {
            other
        } else {
            self
        }
    }

    /// The smaller of two values, as `f64::min`; equal values give `self`.
    pub fn min(self, other: Score) -> (r: Score)
        ensures
            r == fmin(self, other),
            self.is_nan() ==> r == other,
            !self.is_nan() && other.is_nan() ==> r == self,
            !self.is_nan() && !other.is_nan() ==> {
                &&& r == self || r == other
                &&& r.spec_le(self) && r.spec_le(other)
                &&& self.key() <= other.key() ==> r == self
            },
    {
        if self.nan() {
            other
        } else if other.nan() {
            self
        } else if other.lt(&self) {
            other
        } else {
            self
        }
    }
}

} // verus!
