//! Single-precision scalars held as IEEE-754 bit patterns.
//!
//! The library never computes with a scalar: it only orders them. A scalar is
//! therefore kept as the 32 bits of its encoding, and every comparison is
//! stated over the sign and magnitude that those bits spell out.
use vstd::prelude::*;

verus! {

/// Encoding of positive infinity.
pub const POS_INF_BITS: u32 = 0x7f80_0000;

/// Encoding of negative infinity.
pub const NEG_INF_BITS: u32 = 0xff80_0000;

/// Encoding of the largest finite value, used as the "no hit" distance.
pub const MAX_BITS: u32 = 0x7f7f_ffff;

/// Encoding of positive zero.
pub const ZERO_BITS: u32 = 0;

/// The sign bit of an encoding.
pub const SIGN_BIT: u32 = 0x8000_0000;

/// A single-precision number, held as its bit pattern.
#[derive(Clone, Copy, Debug, PartialEq, Eq, Structural)]
pub struct Scalar {
    pub bits: u32,
}

impl Scalar {
    /// The encoding with the sign bit cleared.
    pub open spec fn magnitude(self) -> int {
        if self.bits >= SIGN_BIT {
            self.bits - SIGN_BIT
        } else {
            self.bits as int
        }
    }

    /// Whether the sign bit is set.
    pub open spec fn negative(self) -> bool {
        self.bits >= SIGN_BIT
    }

    /// Whether the encoding is a NaN: exponent all ones, mantissa not zero.
    pub open spec fn is_nan(self) -> bool {
        self.magnitude() > POS_INF_BITS
    }

    /// Position of a non-NaN value on the number line: the order of ranks is
    /// the numeric order, and both zeros share rank 0.
    pub open spec fn rank(self) -> int {
        if self.negative() {
            -self.magnitude()
        } else {
            self.magnitude()
        }
    }

    /// Numeric `<`: false whenever either side is NaN.
    pub open spec fn lt_spec(self, other: Scalar) -> bool {
        !self.is_nan() && !other.is_nan() && self.rank() < other.rank()
    }

    /// Numeric `<=`: false whenever either side is NaN.
    pub open spec fn le_spec(self, other: Scalar) -> bool {
        !self.is_nan() && !other.is_nan() && self.rank() <= other.rank()
    }

    /// Numeric `==`: false whenever either side is NaN; the two zeros are equal.
    pub open spec fn same_spec(self, other: Scalar) -> bool {
        !self.is_nan() && !other.is_nan() && self.rank() == other.rank()
    }

    /// The smaller of two values; a NaN operand yields the other operand.
    pub open spec fn min_spec(self, other: Scalar) -> Scalar {
        if self.is_nan() {
            other
        } else if other.is_nan() {
            self
        } else if self.rank() <= other.rank() {
            self
        } else {
            other
        }
    }

    /// The larger of two values; a NaN operand yields the other operand.
    pub open spec fn max_spec(self, other: Scalar) -> Scalar {
        if self.is_nan() {
            other
        } else if other.is_nan() {
            self
        } else if self.rank() >= other.rank() {
            self
        } else {
            other
        }
    }

    /// The value without its sign.
    pub open spec fn abs_spec(self) -> Scalar {
        Scalar { bits: self.magnitude() as u32 }
    }

    /// The value without its sign.
    pub fn abs(&self) -> (r: Scalar)
        ensures
            r == self.abs_spec(),
    {
        Scalar { bits: self.magnitude_of() }
    }

    /// The value held to the interval from `lo` to `hi`; a NaN stays a NaN.
    pub open spec fn clamp_spec(self, lo: Scalar, hi: Scalar) -> Scalar {
        if self.lt_spec(lo) {
            lo
        } else if hi.lt_spec(self) {
            hi
        } else {
            self
        }
    }

    /// Holds the value to the interval from `lo` to `hi`, which must be
    /// numbers in that order.
    pub fn clamp(&self, lo: &Scalar, hi: &Scalar) -> (r: Scalar)
        requires
            lo.le_spec(*hi),
        ensures
            r == self.clamp_spec(*lo, *hi),
            !self.is_nan() ==> lo.le_spec(r) && r.le_spec(*hi),
    {
        if self.lt(lo) {
            *lo
        } else if hi.lt(self) {
            *hi
        } else {
            *self
        }
    }

    /// The scalar with this encoding.
    pub fn from_bits(bits: u32) -> (s: Scalar)
        ensures
            s.bits == bits,
    {
        Scalar { bits }
    }

    /// Positive infinity, above every number.
    pub fn infinity() -> (s: Scalar)
        ensures
            s.bits == POS_INF_BITS,
            !s.is_nan(),
            forall|o: Scalar| !o.is_nan() ==> o.rank() <= s.rank(),
    {
        Scalar { bits: POS_INF_BITS }
    }

    /// Negative infinity, below every number.
    pub fn neg_infinity() -> (s: Scalar)
        ensures
            s.bits == NEG_INF_BITS,
            !s.is_nan(),
            forall|o: Scalar| !o.is_nan() ==> s.rank() <= o.rank(),
    {
        Scalar { bits: NEG_INF_BITS }
    }

    /// The largest finite value.
    pub fn largest() -> (s: Scalar)
        ensures
            s.bits == MAX_BITS,
            !s.is_nan(),
    {
        Scalar { bits: MAX_BITS }
    }

    /// Positive zero.
    pub fn zero() -> (s: Scalar)
        ensures
            s.bits == ZERO_BITS,
            !s.is_nan(),
            s.rank() == 0,
    {
        Scalar { bits: ZERO_BITS }
    }

    fn magnitude_of(&self) -> (m: u32)
        ensures
            m == self.magnitude(),
    {
        if self.bits >= SIGN_BIT {
            self.bits - SIGN_BIT
        } else {
            self.bits
        }
    }

    /// Whether the scalar is not a number.
    pub fn nan(&self) -> (r: bool)
        ensures
            r == self.is_nan(),
    {
        self.magnitude_of() > POS_INF_BITS
    }

    fn rank_of(&self) -> (r: i64)
        ensures
            r == self.rank(),
    {
        let m: i64 = self.magnitude_of() as i64;
        if self.bits >= SIGN_BIT {
            -m
        } else {
            m
        }
    }

    /// Numeric `<`.
    pub fn lt(&self, other: &Scalar) -> (r: bool)
        ensures
            r == self.lt_spec(*other),
    {
        !self.nan() && !other.nan() && self.rank_of() < other.rank_of()
    }

    /// Numeric `<=`.
    pub fn le(&self, other: &Scalar) -> (r: bool)
        ensures
            r == self.le_spec(*other),
    {
        !self.nan() && !other.nan() && self.rank_of() <= other.rank_of()
    }

    /// Numeric equality, under which NaN equals nothing and `-0 == +0`.
    pub fn same(&self, other: &Scalar) -> (r: bool)
        ensures
            r == self.same_spec(*other),
    {
        !self.nan() && !other.nan() && self.rank_of() == other.rank_of()
    }

    /// The smaller of the two, or the one that is a number.
    pub fn min(&self, other: &Scalar) -> (r: Scalar)
        ensures
            r == self.min_spec(*other),
    {
        if self.nan() {
            *other
        } else if other.nan() {
            *self
        } else if self.rank_of() <= other.rank_of() {
            *self
        } else {
            *other
        }
    }

    /// The larger of the two, or the one that is a number.
    pub fn max(&self, other: &Scalar) -> (r: Scalar)
        ensures
            r == self.max_spec(*other),
    {
        if self.nan() {
            *other
        } else if other.nan() {
            *self
        } else if self.rank_of() >= other.rank_of() {
            *self
        } else {
            *other
        }
    }
}

} // verus!
