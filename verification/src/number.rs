//! Double and single precision numbers, carried as their bit patterns.
//!
//! The library moves measured quantities (coordinates, distances) around and
//! orders them; it does no arithmetic on them.

use vstd::prelude::*;

verus! {

/// A double precision number, as its IEEE 754 bits.
#[derive(Clone, Copy, Debug, PartialEq, Eq, Structural)]
pub struct Real {
    pub bits: u64,
}

/// A single precision number, as its IEEE 754 bits.
#[derive(Clone, Copy, Debug, PartialEq, Eq, Structural)]
pub struct ShortReal {
    pub bits: u32,
}

/// Sign bit of a double.
pub const SIGN_WEIGHT: u64 = 9223372036854775808;

/// Bits of positive infinity; a greater magnitude is not a number.
pub const INFINITY_BITS: u64 = 9218868437227405312;

impl Real {
    /// The bits without the sign.
    pub open spec fn magnitude(self) -> int {
        if self.bits >= SIGN_WEIGHT {
            self.bits - SIGN_WEIGHT
        } else {
            self.bits as int
        }
    }

    /// Whether the pattern is not a number.
    pub open spec fn is_nan_spec(self) -> bool {
        self.magnitude() > INFINITY_BITS
    }

    /// The place of the number among all patterns with the numeric order: negative
    /// numbers below zero, both zeros at zero.
    pub open spec fn rank(self) -> int {
        if self.bits >= SIGN_WEIGHT {
            -self.magnitude()
        } else {
            self.magnitude()
        }
    }

    /// The place of the pattern in the total order, which tells the two zeros
    /// apart and puts patterns that are not numbers at the ends.
    pub open spec fn total_rank(self) -> int {
        if self.bits >= SIGN_WEIGHT {
            -self.magnitude() - 1
        } else {
            self.magnitude()
        }
    }

    /// The number zero.
    pub fn zero() -> (zero: Real)
        ensures
            zero.bits == 0,
            zero.rank() == 0,
    {
        Real { bits: 0 }
    }

    /// Whether the pattern is not a number.
    pub fn is_nan(self) -> (nan: bool)
        ensures
            nan == self.is_nan_spec(),
    {
        let magnitude: u64 = if self.bits >= SIGN_WEIGHT { self.bits - SIGN_WEIGHT } else { self.bits };
        magnitude > INFINITY_BITS
    }

    /// Whether the number is neither infinite nor not a number.
    pub fn is_finite(self) -> (finite: bool)
        ensures
            finite == (self.magnitude() < INFINITY_BITS),
    {
        let magnitude: u64 = if self.bits >= SIGN_WEIGHT { self.bits - SIGN_WEIGHT } else { self.bits };
        magnitude < INFINITY_BITS
    }

    /// The place in the numeric order.
    pub fn numeric_rank(self) -> (rank: i128)
        ensures
            rank == self.rank(),
    {
        if self.bits >= SIGN_WEIGHT {
            -((self.bits - SIGN_WEIGHT) as i128)
        } else {
            self.bits as i128
        }
    }

    /// The place in the total order.
    pub fn total_order_rank(self) -> (rank: i128)
        ensures
            rank == self.total_rank(),
    {
        if self.bits >= SIGN_WEIGHT {
            -((self.bits - SIGN_WEIGHT) as i128) - 1
        } else {
            self.bits as i128
        }
    }

    /// Numeric less-than: false where either side is not a number.
    pub fn less_than(self, other: Real) -> (less: bool)
        ensures
            less == (!self.is_nan_spec() && !other.is_nan_spec() && self.rank() < other.rank()),
    {
        !self.is_nan() && !other.is_nan() && self.numeric_rank() < other.numeric_rank()
    }

    /// Numeric equality: the two zeros are equal, what is not a number equals
    /// nothing.
    pub fn equals(self, other: Real) -> (equal: bool)
        ensures
            equal == (!self.is_nan_spec() && !other.is_nan_spec() && self.rank() == other.rank()),
    {
        !self.is_nan() && !other.is_nan() && self.numeric_rank() == other.numeric_rank()
    }
}

/// Sign bit of a single.
pub const SHORT_SIGN_WEIGHT: u32 = 2147483648;

/// Bits of positive infinity of a single; a greater magnitude is not a number.
pub const SHORT_INFINITY_BITS: u32 = 2139095040;

impl ShortReal {
    /// The bits without the sign.
    pub open spec fn magnitude(self) -> int {
        if self.bits >= SHORT_SIGN_WEIGHT { self.bits - SHORT_SIGN_WEIGHT } else { self.bits as int }
    }

    /// Whether the pattern is not a number.
    pub open spec fn is_nan_spec(self) -> bool {
        self.magnitude() > SHORT_INFINITY_BITS
    }

    /// The place of the number in the numeric order.
    pub open spec fn rank(self) -> int {
        if self.bits >= SHORT_SIGN_WEIGHT { -self.magnitude() } else { self.magnitude() }
    }

    /// Whether the number is less than another.
    pub open spec fn less(self, other: ShortReal) -> bool {
        !self.is_nan_spec() && !other.is_nan_spec() && self.rank() < other.rank()
    }

    /// Whether the number is at least another.
    pub open spec fn at_least(self, other: ShortReal) -> bool {
        !self.is_nan_spec() && !other.is_nan_spec() && self.rank() >= other.rank()
    }

    fn ordered_rank(self) -> (rank: Option<i64>)
        ensures
            rank is None <==> self.is_nan_spec(),
            rank is Some ==> rank->0 == self.rank(),
    {
        let magnitude: u32 = if self.bits >= SHORT_SIGN_WEIGHT { self.bits - SHORT_SIGN_WEIGHT } else { self.bits };
        if magnitude > SHORT_INFINITY_BITS {
            None
        } else if self.bits >= SHORT_SIGN_WEIGHT {
            Some(-(magnitude as i64))
        } else {
            Some(magnitude as i64)
        }
    }

    /// Whether the number is less than another.
    pub fn is_less(self, other: ShortReal) -> (less: bool)
        ensures
            less == self.less(other),
    {
        match (self.ordered_rank(), other.ordered_rank()) {
            (Some(a), Some(b)) => a < b,
            _ => false,
        }
    }

    /// Whether the number is at least another.
    pub fn is_at_least(self, other: ShortReal) -> (reaches: bool)
        ensures
            reaches == self.at_least(other),
    {
        match (self.ordered_rank(), other.ordered_rank()) {
            (Some(a), Some(b)) => a >= b,
            _ => false,
        }
    }
}

} // verus!
