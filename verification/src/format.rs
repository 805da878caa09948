//! The two IEEE 754 binary interchange formats that the simulations use, and
//! how a bit pattern of each is read.
use crate::exact::Exact;
use vstd::arithmetic::power2::{lemma2_to64, lemma2_to64_rest, pow2};
use vstd::prelude::*;

verus! {

/// An IEEE 754 binary interchange format. A pattern of either format is
/// carried in the low bits of a `u64`.
#[derive(Clone, Copy, PartialEq, Eq, Structural, Debug)]
pub enum Format {
    /// Single precision: 1 sign bit, 8 exponent bits, 23 fraction bits.
    Binary32,
    /// Double precision: 1 sign bit, 11 exponent bits, 52 fraction bits.
    Binary64,
}

impl Format {
    /// Number of significant binary digits, the implicit leading one included.
    pub open spec fn precision(self) -> nat {
        match self {
            Format::Binary32 => 24,
            Format::Binary64 => 53,
        }
    }

    /// Exponent of the last place of the subnormal numbers: every finite
    /// value is an integer multiple of `2^min_exp`.
    pub open spec fn min_exp(self) -> int {
        match self {
            Format::Binary32 => -149,
            Format::Binary64 => -1074,
        }
    }

    /// Weight of the implicit leading digit, `2^(precision - 1)`.
    pub open spec fn hidden(self) -> nat {
        match self {
            Format::Binary32 => 0x80_0000,
            Format::Binary64 => 0x10_0000_0000_0000,
        }
    }

    /// The exponent field whose every bit is set: infinities and NaNs.
    pub open spec fn top_field(self) -> nat {
        match self {
            Format::Binary32 => 255,
            Format::Binary64 => 2047,
        }
    }

    /// Pattern of positive infinity, which is also the least magnitude that
    /// is not a finite number.
    pub open spec fn infinity(self) -> nat {
        match self {
            Format::Binary32 => 0x7f80_0000,
            Format::Binary64 => 0x7ff0_0000_0000_0000,
        }
    }

    /// Pattern of the quiet NaN that every invalid operation returns.
    pub open spec fn quiet_nan(self) -> nat {
        match self {
            Format::Binary32 => 0x7fc0_0000,
            Format::Binary64 => 0x7ff8_0000_0000_0000,
        }
    }

    /// Weight of the sign bit.
    pub open spec fn sign_bit(self) -> nat {
        match self {
            Format::Binary32 => 0x8000_0000,
            Format::Binary64 => 0x8000_0000_0000_0000,
        }
    }

    /// `bits` is a pattern of this format: nothing is set above the sign bit.
    pub open spec fn holds(self, bits: nat) -> bool {
        bits < 2 * self.sign_bit()
    }

    /// The pattern without its sign bit.
    pub open spec fn magnitude(self, bits: nat) -> nat {
        if bits >= self.sign_bit() {
            (bits - self.sign_bit()) as nat
        } else {
            bits as nat
        }
    }

    /// The sign bit is set.
    pub open spec fn negative(self, bits: nat) -> bool {
        bits >= self.sign_bit()
    }

    /// Zero, subnormal or normal.
    pub open spec fn is_finite(self, bits: nat) -> bool {
        self.magnitude(bits) < self.infinity()
    }

    /// Positive or negative infinity.
    pub open spec fn is_infinite(self, bits: nat) -> bool {
        self.magnitude(bits) == self.infinity()
    }

    /// Not a number.
    pub open spec fn is_nan(self, bits: nat) -> bool {
        self.magnitude(bits) > self.infinity()
    }

    /// Positive or negative zero.
    pub open spec fn is_zero(self, bits: nat) -> bool {
        self.magnitude(bits) == 0
    }

    /// The exponent field of a magnitude.
    pub open spec fn field_of(self, m: nat) -> nat {
        match self {
            Format::Binary32 => m / 0x80_0000,
            Format::Binary64 => m / 0x10_0000_0000_0000,
        }
    }

    /// The fraction field of a magnitude.
    pub open spec fn fraction_of(self, m: nat) -> nat {
        match self {
            Format::Binary32 => m % 0x80_0000,
            Format::Binary64 => m % 0x10_0000_0000_0000,
        }
    }

    /// The integer significand of a finite magnitude: the fraction field,
    /// with the implicit digit where the exponent field is not zero.
    pub open spec fn sig_of(self, m: nat) -> nat {
        if self.field_of(m) == 0 {
            self.fraction_of(m)
        } else {
            self.fraction_of(m) + self.hidden()
        }
    }

    /// The exponent of the last place of a finite magnitude, so that the
    /// magnitude stands for `sig_of(m) * 2^exp_of(m)`.
    pub open spec fn exp_of(self, m: nat) -> int {
        if self.field_of(m) == 0 {
            self.min_exp()
        } else {
            self.min_exp() + self.field_of(m) - 1
        }
    }

    /// The absolute value of a finite pattern.
    pub open spec fn abs_value(self, bits: nat) -> Exact {
        Exact {
            num: self.sig_of(self.magnitude(bits)),
            den: 1,
            exp: self.exp_of(self.magnitude(bits)),
        }
    }

    /// The pattern with the given sign and magnitude.
    pub open spec fn with_sign(self, negative: bool, m: nat) -> nat {
        if negative {
            m + self.sign_bit()
        } else {
            m
        }
    }

    /// `precision`, at run time.
    pub fn precision_bits(self) -> (p: u32)
        ensures
            p == self.precision(),
    {
        match self {
            Format::Binary32 => 24,
            Format::Binary64 => 53,
        }
    }

    /// `min_exp`, at run time.
    pub fn least_exponent(self) -> (e: i32)
        ensures
            e == self.min_exp(),
    {
        match self {
            Format::Binary32 => -149,
            Format::Binary64 => -1074,
        }
    }

    /// `hidden`, at run time.
    pub fn hidden_bit(self) -> (h: u64)
        ensures
            h == self.hidden(),
    {
        match self {
            Format::Binary32 => 0x80_0000,
            Format::Binary64 => 0x10_0000_0000_0000,
        }
    }

    /// `top_field`, at run time.
    pub fn top_exponent_field(self) -> (f: u32)
        ensures
            f == self.top_field(),
    {
        match self {
            Format::Binary32 => 255,
            Format::Binary64 => 2047,
        }
    }

    /// `infinity`, at run time.
    pub fn infinity_bits(self) -> (m: u64)
        ensures
            m == self.infinity(),
    {
        match self {
            Format::Binary32 => 0x7f80_0000,
            Format::Binary64 => 0x7ff0_0000_0000_0000,
        }
    }

    /// `quiet_nan`, at run time.
    pub fn quiet_nan_bits(self) -> (m: u64)
        ensures
            m == self.quiet_nan(),
    {
        match self {
            Format::Binary32 => 0x7fc0_0000,
            Format::Binary64 => 0x7ff8_0000_0000_0000,
        }
    }

    /// `sign_bit`, at run time.
    pub fn sign_mask(self) -> (s: u64)
        ensures
            s == self.sign_bit(),
    {
        match self {
            Format::Binary32 => 0x8000_0000,
            Format::Binary64 => 0x8000_0000_0000_0000,
        }
    }
}

/// A pattern taken apart.
#[derive(Clone, Copy, Debug)]
pub struct Parts {
    /// The sign bit.
    pub negative: bool,
    /// The pattern without its sign bit.
    pub magnitude: u64,
    /// The integer significand, where the pattern is finite.
    pub sig: u64,
    /// The exponent of the significand's last place, where the pattern is finite.
    pub exp: i32,
}

/// How the constants of a format hang together.
pub proof fn lemma_format_constants(fmt: Format)
    ensures
        fmt.hidden() == pow2((fmt.precision() - 1) as nat),
        2 * fmt.hidden() == pow2(fmt.precision()),
        fmt.infinity() == fmt.top_field() * fmt.hidden(),
        fmt.sign_bit() == fmt.infinity() + fmt.hidden(),
        fmt.infinity() < fmt.quiet_nan() < fmt.sign_bit(),
{
    lemma2_to64();
    lemma2_to64_rest();
}

/// A finite magnitude is its exponent field times `hidden` plus its fraction,
/// and its significand and exponent are those of a number of the format.
pub proof fn lemma_finite_parts(fmt: Format, m: nat)
    requires
        m < fmt.infinity(),
    ensures
        fmt.sig_of(m) < 2 * fmt.hidden(),
        fmt.min_exp() <= fmt.exp_of(m) <= fmt.min_exp() + fmt.top_field() - 2,
        fmt.exp_of(m) > fmt.min_exp() ==> fmt.sig_of(m) >= fmt.hidden(),
        m == (fmt.exp_of(m) - fmt.min_exp()) * fmt.hidden() + fmt.sig_of(m),
        (m == 0) == (fmt.sig_of(m) == 0),
{
}

/// Splits a pattern into sign, magnitude, significand and exponent.
pub fn unpack(fmt: Format, bits: u64) -> (parts: Parts)
    requires
        fmt.holds(bits as nat),
    ensures
        parts.negative == fmt.negative(bits as nat),
        parts.magnitude == fmt.magnitude(bits as nat),
        parts.sig == fmt.sig_of(fmt.magnitude(bits as nat)),
        parts.exp == fmt.exp_of(fmt.magnitude(bits as nat)),
{
    let sign: u64 = fmt.sign_mask();
    let negative = bits >= sign;
    let magnitude: u64 = if negative {
        bits - sign
    } else {
        bits
    };
    let hidden: u64 = fmt.hidden_bit();
    let field: u64 = magnitude / hidden;
    let fraction: u64 = magnitude % hidden;
    let least: i32 = fmt.least_exponent();
    if field == 0 {
        Parts { negative, magnitude, sig: fraction, exp: least }
    } else {
        Parts { negative, magnitude, sig: fraction + hidden, exp: least + (field as i32) - 1 }
    }
}

/// Puts a sign on a magnitude.
pub fn attach_sign(fmt: Format, negative: bool, magnitude: u64) -> (bits: u64)
    requires
        magnitude < fmt.sign_bit(),
    ensures
        bits == fmt.with_sign(negative, magnitude as nat),
        fmt.holds(bits as nat),
        fmt.magnitude(bits as nat) == magnitude,
        fmt.negative(bits as nat) == negative,
{
    if negative {
        magnitude + fmt.sign_mask()
    } else {
        magnitude
    }
}

} // verus!
