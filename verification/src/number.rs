//! Binary floating-point values, held as their bit patterns.
//!
//! Coordinates and numeric bounds cross the bridge as IEEE 754 numbers. The
//! library never computes with them: it asks whether one is finite and how two
//! compare, and both questions are answered by the integer that the bits spell.
//! For two values that are not NaN, the sign-and-magnitude integers
//! are ordered exactly as the numbers are, with both zeros at `0`.

use vstd::prelude::*;

verus! {

/// A single-precision number.
#[derive(Clone, Copy, Debug)]
pub struct Single {
    pub bits: u32,
}

impl Single {
    pub open spec fn spec_magnitude(self) -> int {
        if self.bits >= 0x8000_0000 {
            self.bits - 0x8000_0000
        } else {
            self.bits as int
        }
    }

    /// The integer that orders this number among all that are not NaN.
    pub open spec fn rank(self) -> int {
        if self.bits >= 0x8000_0000 {
            -self.spec_magnitude()
        } else {
            self.spec_magnitude()
        }
    }

    /// Neither infinite nor NaN: the exponent field is not all ones.
    pub open spec fn finite(self) -> bool {
        self.spec_magnitude() < 0x7f80_0000
    }

    pub open spec fn nan(self) -> bool {
        self.spec_magnitude() > 0x7f80_0000
    }

    pub fn from_bits(bits: u32) -> (number: Self)
        ensures
            number.bits == bits,
    {
        Single { bits }
    }

    pub fn is_finite(self) -> (answer: bool)
        ensures
            answer == self.finite(),
    {
        self.magnitude() < 0x7f80_0000
    }

    /// The bits without the sign: the absolute value's own pattern.
    pub fn magnitude(self) -> (magnitude: u32)
        ensures
            magnitude == self.spec_magnitude(),
    {
        if self.bits >= 0x8000_0000 {
            self.bits - 0x8000_0000
        } else {
            self.bits
        }
    }

    pub fn to_rank(self) -> (rank: i64)
        ensures
            rank == self.rank(),
    {
        if self.bits >= 0x8000_0000 {
            -(self.magnitude() as i64)
        } else {
            self.magnitude() as i64
        }
    }

    /// Whether the number is greater than zero, which NaN is not.
    pub fn is_positive(self) -> (answer: bool)
        ensures
            answer == (!self.nan() && self.rank() > 0),
    {
        self.magnitude() <= 0x7f80_0000 && self.to_rank() > 0
    }
}

/// A double-precision number.
#[derive(Clone, Copy, Debug)]
pub struct Double {
    pub bits: u64,
}

impl Double {
    pub open spec fn spec_magnitude(self) -> int {
        if self.bits >= 0x8000_0000_0000_0000 {
            self.bits - 0x8000_0000_0000_0000
        } else {
            self.bits as int
        }
    }

    /// The integer that orders this number among all that are not NaN.
    pub open spec fn rank(self) -> int {
        if self.bits >= 0x8000_0000_0000_0000 {
            -self.spec_magnitude()
        } else {
            self.spec_magnitude()
        }
    }

    /// Neither infinite nor NaN: the exponent field is not all ones.
    pub open spec fn finite(self) -> bool {
        self.spec_magnitude() < 0x7ff0_0000_0000_0000
    }

    pub open spec fn nan(self) -> bool {
        self.spec_magnitude() > 0x7ff0_0000_0000_0000
    }

    pub fn from_bits(bits: u64) -> (number: Self)
        ensures
            number.bits == bits,
    {
        Double { bits }
    }

    pub fn is_finite(self) -> (answer: bool)
        ensures
            answer == self.finite(),
    {
        self.magnitude() < 0x7ff0_0000_0000_0000
    }

    /// The bits without the sign: the absolute value's own pattern.
    pub fn magnitude(self) -> (magnitude: u64)
        ensures
            magnitude == self.spec_magnitude(),
    {
        if self.bits >= 0x8000_0000_0000_0000 {
            self.bits - 0x8000_0000_0000_0000
        } else {
            self.bits
        }
    }

    pub fn to_rank(self) -> (rank: i64)
        ensures
            rank == self.rank(),
    {
        if self.bits >= 0x8000_0000_0000_0000 {
            -(self.magnitude() as i64)
        } else {
            self.magnitude() as i64
        }
    }
}

/// `==` on numbers: NaN equals nothing and the two zeros are equal.
impl PartialEq for Single {
    fn eq(&self, other: &Self) -> (equal: bool) {
        self.magnitude() <= 0x7f80_0000 && other.magnitude() <= 0x7f80_0000 && self.to_rank()
            == other.to_rank()
    }
}

impl vstd::std_specs::cmp::PartialEqSpecImpl for Single {
    open spec fn obeys_eq_spec() -> bool {
        true
    }

    open spec fn eq_spec(&self, other: &Self) -> bool {
        !self.nan() && !other.nan() && self.rank() == other.rank()
    }
}

/// `==` on numbers: NaN equals nothing and the two zeros are equal.
impl PartialEq for Double {
    fn eq(&self, other: &Self) -> (equal: bool) {
        self.magnitude() <= 0x7ff0_0000_0000_0000 && other.magnitude() <= 0x7ff0_0000_0000_0000
            && self.to_rank() == other.to_rank()
    }
}

impl vstd::std_specs::cmp::PartialEqSpecImpl for Double {
    open spec fn obeys_eq_spec() -> bool {
        true
    }

    open spec fn eq_spec(&self, other: &Self) -> bool {
        !self.nan() && !other.nan() && self.rank() == other.rank()
    }
}

/// Ranks order numbers as their patterns do: a number and its negative have
/// opposite ranks, a larger pattern without the sign is a larger rank, and only
/// the zeros share one.
pub proof fn law_ranks_order_numbers(a: Single, b: Single)
    ensures
        a.bits < 0x8000_0000 ==> a.rank() == a.bits,
        a.bits >= 0x8000_0000 ==> a.rank() == 0x8000_0000 - a.bits,
        a.rank() == b.rank() && a.bits != b.bits ==> a.rank() == 0,
        a.finite() <==> -0x7f80_0000 < a.rank() < 0x7f80_0000,
        a.nan() <==> a.rank() > 0x7f80_0000 || a.rank() < -0x7f80_0000,
{
}

/// Ranks order double-precision numbers as their patterns do.
pub proof fn law_double_ranks_order_numbers(a: Double, b: Double)
    ensures
        a.bits < 0x8000_0000_0000_0000 ==> a.rank() == a.bits,
        a.bits >= 0x8000_0000_0000_0000 ==> a.rank() == 0x8000_0000_0000_0000 - a.bits,
        a.rank() == b.rank() && a.bits != b.bits ==> a.rank() == 0,
        a.finite() <==> -0x7ff0_0000_0000_0000 < a.rank() < 0x7ff0_0000_0000_0000,
        a.nan() <==> a.rank() > 0x7ff0_0000_0000_0000 || a.rank() < -0x7ff0_0000_0000_0000,
{
}

} // verus!
