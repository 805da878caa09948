//! IEEE 754 binary32 (single precision) numbers, carried as bit patterns.
use crate::arith::{
    abs, abs_spec, add_patterns, add_spec, div_patterns, div_spec, from_int, from_int_spec,
    mul_patterns, mul_spec, negate, negate_spec, sub_patterns, sub_spec,
};
use crate::exact::Exact;
use crate::format::Format;
use vstd::prelude::*;

verus! {

/// A binary32 (single precision) number. Two of them are equal when their bits are: a NaN equals
/// itself, and the two zeros differ.
#[derive(Clone, Copy, PartialEq, Eq, Structural, Debug)]
pub struct Binary32 {
    /// The pattern: sign, exponent field, fraction field.
    pub bits: u32,
}

impl Binary32 {
    /// The pattern as a natural number.
    pub open spec fn pattern(self) -> nat {
        self.bits as nat
    }

    /// Not a number.
    pub open spec fn is_nan(self) -> bool {
        Format::Binary32.is_nan(self.pattern())
    }

    /// Positive or negative infinity.
    pub open spec fn is_infinite(self) -> bool {
        Format::Binary32.is_infinite(self.pattern())
    }

    /// Zero, subnormal or normal.
    pub open spec fn is_finite(self) -> bool {
        Format::Binary32.is_finite(self.pattern())
    }

    /// The sign bit is set.
    pub open spec fn is_negative(self) -> bool {
        Format::Binary32.negative(self.pattern())
    }

    /// The absolute value of a finite number.
    pub open spec fn abs_value(self) -> Exact {
        Format::Binary32.abs_value(self.pattern())
    }

    /// The number nearest to the integer `v`.
    pub open spec fn of_integer(v: int) -> Binary32 {
        Binary32 { bits: from_int_spec(Format::Binary32, v) as u32 }
    }

    /// The sum of the two numbers, rounded to nearest, ties to even.
    pub open spec fn sum(self, other: Binary32) -> Binary32 {
        Binary32 { bits: add_spec(Format::Binary32, self.pattern(), other.pattern()) as u32 }
    }

    /// The difference of the two numbers, rounded to nearest, ties to even.
    pub open spec fn difference(self, other: Binary32) -> Binary32 {
        Binary32 { bits: sub_spec(Format::Binary32, self.pattern(), other.pattern()) as u32 }
    }

    /// The product of the two numbers, rounded to nearest, ties to even.
    pub open spec fn product(self, other: Binary32) -> Binary32 {
        Binary32 { bits: mul_spec(Format::Binary32, self.pattern(), other.pattern()) as u32 }
    }

    /// The quotient of the two numbers, rounded to nearest, ties to even.
    pub open spec fn quotient(self, other: Binary32) -> Binary32 {
        Binary32 { bits: div_spec(Format::Binary32, self.pattern(), other.pattern()) as u32 }
    }

    /// The number with its sign bit cleared.
    pub open spec fn absolute(self) -> Binary32 {
        Binary32 { bits: abs_spec(Format::Binary32, self.pattern()) as u32 }
    }

    /// The number with its sign bit flipped.
    pub open spec fn opposite(self) -> Binary32 {
        Binary32 { bits: negate_spec(Format::Binary32, self.pattern()) as u32 }
    }

    /// The number with the given pattern.
    pub fn from_bits(bits: u32) -> (r: Self)
        ensures
            r.bits == bits,
    {
        Binary32 { bits }
    }

    /// The pattern of the number.
    pub fn to_bits(self) -> (bits: u32)
        ensures
            bits == self.bits,
    {
        self.bits
    }

    /// The number nearest to the integer `v`.
    pub fn from_integer(v: i128) -> (r: Self)
        ensures
            r == Self::of_integer(v as int),
            r.is_finite(),
    {
        let bits: u64 = from_int(Format::Binary32, v);
        Binary32 { bits: bits as u32 }
    }

    /// The sum, rounded.
    pub fn plus(self, other: Self) -> (r: Self)
        ensures
            r == self.sum(other),
    {
        let bits: u64 = add_patterns(Format::Binary32, self.bits as u64, other.bits as u64);
        Binary32 { bits: bits as u32 }
    }

    /// The difference, rounded.
    pub fn minus(self, other: Self) -> (r: Self)
        ensures
            r == self.difference(other),
    {
        let bits: u64 = sub_patterns(Format::Binary32, self.bits as u64, other.bits as u64);
        Binary32 { bits: bits as u32 }
    }

    /// The product, rounded.
    pub fn times(self, other: Self) -> (r: Self)
        ensures
            r == self.product(other),
    {
        let bits: u64 = mul_patterns(Format::Binary32, self.bits as u64, other.bits as u64);
        Binary32 { bits: bits as u32 }
    }

    /// The quotient, rounded.
    pub fn divided_by(self, other: Self) -> (r: Self)
        ensures
            r == self.quotient(other),
    {
        let bits: u64 = div_patterns(Format::Binary32, self.bits as u64, other.bits as u64);
        Binary32 { bits: bits as u32 }
    }

    /// The number without its sign.
    pub fn magnitude(self) -> (r: Self)
        ensures
            r == self.absolute(),
            !r.is_negative(),
    {
        let bits: u64 = abs(Format::Binary32, self.bits as u64);
        Binary32 { bits: bits as u32 }
    }

    /// The number with its sign flipped.
    pub fn negated(self) -> (r: Self)
        ensures
            r == self.opposite(),
    {
        let bits: u64 = negate(Format::Binary32, self.bits as u64);
        Binary32 { bits: bits as u32 }
    }
}

} // verus!
