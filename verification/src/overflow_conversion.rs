//! Conversion of a double-precision number to a 16-bit signed integer that
//! reports a value out of range instead of wrapping it.
use crate::arith::whole_part;
use crate::binary64::Binary64;
use crate::format::{lemma_finite_parts, lemma_format_constants, unpack, Format, Parts};
use vstd::arithmetic::div_mod::lemma_fundamental_div_mod;
use vstd::prelude::*;

verus! {

/// What one conversion is given.
#[derive(Clone, Copy, PartialEq, Eq, Structural, Debug)]
pub struct OverflowConversionInput {
    /// The number to convert.
    pub source_value: Binary64,
}

impl OverflowConversionInput {
    /// Converts the number of this input.
    pub fn convert(self) -> (r: OverflowConversionResult)
        ensures
            r == overflow_conversion(self.source_value),
    {
        simulate_overflow_conversion(self.source_value)
    }
}

/// How a conversion ended.
#[derive(Clone, Copy, PartialEq, Eq, Structural, Debug)]
pub enum OverflowConversionResult {
    /// The source was in range; the value is the source without its fraction.
    Converted(i16),
    /// The source was out of range: there is no value.
    Overflow,
}

/// The absolute value of `x` is greater than `k`. Never so for a NaN.
pub open spec fn magnitude_exceeds(x: Binary64, k: nat) -> bool {
    x.is_infinite() || (x.is_finite() && x.abs_value().num_at(0) > k * x.abs_value().den_at(0))
}

/// `x > 32768` or `x < -32769`, as the hardware compares: false for a NaN.
pub open spec fn out_of_range(x: Binary64) -> bool {
    if x.is_negative() {
        magnitude_exceeds(x, 32769)
    } else {
        magnitude_exceeds(x, 32768)
    }
}

/// The finite number `x` without its fraction: rounded toward zero.
pub open spec fn truncated(x: Binary64) -> int {
    if x.is_negative() {
        -(x.abs_value().floor_at(0) as int)
    } else {
        x.abs_value().floor_at(0) as int
    }
}

/// The 16-bit signed integer nearest to `v`.
pub open spec fn nearest_i16(v: int) -> i16 {
    if v > 32767 {
        32767i16
    } else if v < -32768 {
        -32768i16
    } else {
        v as i16
    }
}

/// The outcome of converting `x`. A NaN compares with nothing, so it is not
/// out of range, and converts to zero.
pub open spec fn overflow_conversion(x: Binary64) -> OverflowConversionResult {
    if x.is_nan() {
        OverflowConversionResult::Converted(0)
    } else if out_of_range(x) {
        OverflowConversionResult::Overflow
    } else {
        OverflowConversionResult::Converted(nearest_i16(truncated(x)))
    }
}

/// `n / d > k` exactly when the whole part of `n / d` is above `k`, or is `k`
/// with something left over.
pub proof fn lemma_exceeds_by_parts(n: nat, d: nat, k: nat)
    requires
        d > 0,
    ensures
        (n > k * d) == (n / d > k || (n / d == k && n % d != 0)),
{
    lemma_fundamental_div_mod(n as int, d as int);
    let q: int = (n / d) as int;
    let r: int = (n % d) as int;
    let di: int = d as int;
    let ki: int = k as int;
    assert((di * q + r > ki * di) == (q > ki || (q == ki && r != 0))) by (nonlinear_arith)
        requires
            0 <= r < di,
            q >= 0,
            ki >= 0,
    {
        if q > ki {
            assert(di * q >= di * (ki + 1));
        }
        if q < ki {
            assert(di * q <= di * (ki - 1));
        }
    }
}

/// Converts `source_value` to a 16-bit signed integer. A value above 32768
/// or below -32769 is reported as an overflow; any other is cut toward zero,
/// and the two whole numbers just outside the 16-bit range go to the nearest
/// end of it.
pub fn simulate_overflow_conversion(source_value: Binary64) -> (r: OverflowConversionResult)
    ensures
        r == overflow_conversion(source_value),
{
    let fmt: Format = Format::Binary64;
    let parts: Parts = unpack(fmt, source_value.bits);
    let infinity: u64 = fmt.infinity_bits();
    if parts.magnitude > infinity {
        return OverflowConversionResult::Converted(0);
    }
    if parts.magnitude == infinity {
        return OverflowConversionResult::Overflow;
    }
    let (whole, integral) = whole_part(fmt, source_value.bits);
    let limit: u64 = if parts.negative {
        32769
    } else {
        32768
    };
    proof {
        let x = source_value.abs_value();
        lemma_format_constants(fmt);
        lemma_finite_parts(fmt, parts.magnitude as nat);
        crate::exact::lemma_rescale(x, 0, 0);
        lemma_exceeds_by_parts(x.num_at(0), x.den_at(0), limit as nat);
    }
    if whole > limit || (whole == limit && !integral) {
        return OverflowConversionResult::Overflow;
    }
    if parts.negative {
        if whole >= 32768 {
            OverflowConversionResult::Converted(-32768)
        } else {
            OverflowConversionResult::Converted(-(whole as i16))
        }
    } else {
        if whole >= 32767 {
            OverflowConversionResult::Converted(32767)
        } else {
            OverflowConversionResult::Converted(whole as i16)
        }
    }
}

/// A number from -32768 to 32767 converts to itself without its fraction.
pub proof fn lemma_in_range_converts(x: Binary64)
    requires
        !x.is_nan(),
        if x.is_negative() {
            !magnitude_exceeds(x, 32768)
        } else {
            !magnitude_exceeds(x, 32767)
        },
    ensures
        -32768 <= truncated(x) <= 32767,
        overflow_conversion(x) == OverflowConversionResult::Converted(truncated(x) as i16),
{
    let fmt: Format = Format::Binary64;
    let v = x.abs_value();
    lemma_format_constants(fmt);
    lemma_finite_parts(fmt, fmt.magnitude(x.pattern()));
    crate::exact::lemma_rescale(v, 0, 0);
    let n: nat = v.num_at(0);
    let d: nat = v.den_at(0);
    lemma_exceeds_by_parts(n, d, 32767);
    lemma_exceeds_by_parts(n, d, 32768);
    lemma_exceeds_by_parts(n, d, 32769);
}

/// A number above 32768 or below -32769 does not convert.
pub proof fn lemma_out_of_range_overflows(x: Binary64)
    requires
        !x.is_nan(),
        if x.is_negative() {
            magnitude_exceeds(x, 32769)
        } else {
            magnitude_exceeds(x, 32768)
        },
    ensures
        overflow_conversion(x) == OverflowConversionResult::Overflow,
{
}

/// Equal sources give equal outcomes.
pub proof fn lemma_conversion_is_a_function(x: Binary64, y: Binary64)
    requires
        x.bits == y.bits,
    ensures
        overflow_conversion(x) == overflow_conversion(y),
{
}

} // verus!
