//! Drift of a clock that counts tenths of a second, when the count is held
//! in a float with a short significand that was cut off, not rounded.
use crate::arith::{div_spec, from_int_spec, integer_magnitude, quotient, sub_spec};
use crate::arith_laws::{
    lemma_difference_bounded, lemma_from_int_bounded, lemma_from_int_exact, lemma_quotient_bounded,
    lemma_quotient_value, lemma_sub_self,
};
use crate::binary64::Binary64;
use crate::exact::Exact;
use crate::format::{lemma_format_constants, Format};
use crate::rounding::{
    lemma_round_finite, lemma_round_representable, lemma_round_same_value, power_magnitude,
    round_magnitude,
};
use crate::power_of_two::{
    bit_length, bit_length_u128, lemma_bit_length_bounds, lemma_pow2_127, lemma_pow2_fits_u128,
    pow2_u128,
};
use vstd::arithmetic::div_mod::lemma_fundamental_div_mod;
use vstd::arithmetic::power2::{lemma_pow2_pos, pow2};
use vstd::prelude::*;

verus! {

/// What one run of the clock simulation is given.
#[derive(Clone, Copy, PartialEq, Eq, Structural, Debug)]
pub struct TimeDriftInput {
    /// Significant binary digits of the short float; at least one.
    pub mantissa_bits: u32,
    /// Hours since the clock was started.
    pub clock_hours: i64,
    /// Speed of the target, in metres per second.
    pub missile_velocity_mps: Binary64,
}

impl TimeDriftInput {
    /// The short float has a significand: at least one digit.
    pub open spec fn valid(self) -> bool {
        self.mantissa_bits >= 1
    }

    /// The input with the given fields, if a float can have that many digits.
    pub fn new(mantissa_bits: u32, clock_hours: i64, missile_velocity_mps: Binary64) -> (r: Option<
        TimeDriftInput,
    >)
        ensures
            r == if mantissa_bits >= 1 {
                Some(TimeDriftInput { mantissa_bits, clock_hours, missile_velocity_mps })
            } else {
                None
            },
            r is Some ==> r.unwrap().valid(),
    {
        if mantissa_bits >= 1 {
            Some(TimeDriftInput { mantissa_bits, clock_hours, missile_velocity_mps })
        } else {
            None
        }
    }

    /// Runs the clock simulation on this input.
    pub fn simulate(self) -> (r: TimeDriftResult)
        requires
            self.valid(),
        ensures
            r == time_drift(
                self.mantissa_bits as nat,
                self.clock_hours as int,
                self.missile_velocity_mps,
            ),
    {
        simulate_time_drift(self.mantissa_bits, self.clock_hours, self.missile_velocity_mps)
    }
}

/// What one run of the clock simulation reports.
#[derive(Clone, Copy, PartialEq, Eq, Structural, Debug)]
pub struct TimeDriftResult {
    /// The time that has passed, in seconds.
    pub true_time_seconds: Binary64,
    /// The time as the short float holds it, in microseconds.
    pub computed_time_microseconds: Binary64,
    /// How far the held time is from the true one, in seconds. Never negative.
    pub time_error_seconds: Binary64,
    /// How far a target at the given speed moves in that time, in metres.
    pub distance_error_meters: Binary64,
}

/// `n` with all but its `bits` leading binary digits cleared.
pub open spec fn chop_magnitude(n: nat, bits: nat) -> nat {
    if bit_length(n) <= bits {
        n
    } else {
        let unit = pow2((bit_length(n) - bits) as nat);
        (n / unit) * unit
    }
}

/// `v` rounded toward zero to `bits` significant binary digits.
pub open spec fn chop(v: int, bits: nat) -> int {
    if v < 0 {
        -(chop_magnitude((-v) as nat, bits) as int)
    } else {
        chop_magnitude(v as nat, bits) as int
    }
}

/// Tenths of a second in `hours` hours.
pub open spec fn tenths_of_second(hours: int) -> int {
    hours * 36000
}

/// Microseconds in `hours` hours: the count that the short float receives.
pub open spec fn time_units(hours: int) -> int {
    tenths_of_second(hours) * 100000
}

/// The report for a significand of `bits` digits after `hours` hours, for a
/// target moving at `velocity` metres per second. The count of time units is
/// cut to `bits` digits; everything after that is double-precision
/// arithmetic, each step rounded to nearest.
pub open spec fn time_drift(bits: nat, hours: int, velocity: Binary64) -> TimeDriftResult {
    let computed = Binary64::of_integer(chop(time_units(hours), bits));
    let true_time = Binary64::of_integer(tenths_of_second(hours)).quotient(Binary64::of_integer(10));
    let error = computed.quotient(Binary64::of_integer(1_000_000)).difference(true_time).absolute();
    TimeDriftResult {
        true_time_seconds: true_time,
        computed_time_microseconds: computed,
        time_error_seconds: error,
        distance_error_meters: error.product(velocity),
    }
}

/// The weight of the last digit that is kept of `n`.
pub open spec fn last_place(n: nat, bits: nat) -> nat {
    if bit_length(n) <= bits {
        1
    } else {
        pow2((bit_length(n) - bits) as nat)
    }
}

/// What is cut off is never negative and is less than one unit of the last
/// digit kept; nothing is cut off a number of at most `bits` digits.
pub proof fn lemma_chop_magnitude_bounds(n: nat, bits: nat)
    ensures
        chop_magnitude(n, bits) <= n,
        n - chop_magnitude(n, bits) < last_place(n, bits),
        bit_length(n) <= bits ==> chop_magnitude(n, bits) == n,
{
    if bit_length(n) > bits {
        let unit: nat = pow2((bit_length(n) - bits) as nat);
        lemma_pow2_pos((bit_length(n) - bits) as nat);
        lemma_fundamental_div_mod(n as int, unit as int);
        assert((n / unit) * unit == unit * (n / unit)) by (nonlinear_arith);
    }
}

/// The weight of the last digit kept does not shrink when the number grows:
/// the bound on what is cut off grows with the count, though what is cut off
/// itself need not.
pub proof fn lemma_last_place_grows(n1: nat, n2: nat, bits: nat)
    requires
        n1 <= n2,
    ensures
        last_place(n1, bits) <= last_place(n2, bits),
{
    crate::power_of_two::lemma_bit_length_monotone(n1, n2);
    if bit_length(n2) > bits {
        lemma_pow2_pos((bit_length(n2) - bits) as nat);
        if bit_length(n1) > bits {
            crate::power_of_two::lemma_pow2_monotone(
                (bit_length(n1) - bits) as nat,
                (bit_length(n2) - bits) as nat,
            );
        }
    }
}

/// After more hours the count of time units is larger, and so is the bound
/// on what the short float loses of it.
pub proof fn lemma_drift_bound_grows(bits: nat, earlier: int, later: int)
    requires
        0 <= earlier <= later,
    ensures
        0 <= time_units(earlier) <= time_units(later),
        0 <= time_units(earlier) - chop(time_units(earlier), bits) < last_place(
            time_units(earlier) as nat,
            bits,
        ),
        last_place(time_units(earlier) as nat, bits) <= last_place(time_units(later) as nat, bits),
{
    lemma_chop_magnitude_bounds(time_units(earlier) as nat, bits);
    lemma_last_place_grows(time_units(earlier) as nat, time_units(later) as nat, bits);
}

/// Where nothing is cut off the count, there is no error: if the count has
/// no more than `bits` significant digits, and fits 64 bits with its sign, the
/// error in time is positive zero.
pub proof fn lemma_exact_count_has_no_error(bits: nat, hours: int, velocity: Binary64)
    requires
        chop(time_units(hours), bits) == time_units(hours),
        -0x8000_0000_0000_0000 <= time_units(hours) < 0x8000_0000_0000_0000,
    ensures
        time_drift(bits, hours, velocity).time_error_seconds.bits == 0,
{
    let fmt: Format = Format::Binary64;
    let units: int = time_units(hours);
    let tenths: int = tenths_of_second(hours);
    lemma_format_constants(fmt);
    vstd::arithmetic::power2::lemma2_to64();
    vstd::arithmetic::power2::lemma2_to64_rest();
    lemma_digits_below(1_000_000, 53);
    lemma_from_int_exact(fmt, 1_000_000, 1_000_000, 0);
    lemma_digits_below(10, 53);
    lemma_from_int_exact(fmt, 10, 10, 0);
    let million: nat = from_int_spec(fmt, 1_000_000);
    let ten: nat = from_int_spec(fmt, 10);
    let count: nat = from_int_spec(fmt, units);
    let seconds: nat = from_int_spec(fmt, tenths);
    if hours == 0 {
        assert(count == 0 && seconds == 0);
        assert(quotient(fmt.abs_value(0), fmt.abs_value(million)).num == 0) by {
            assert(0 * fmt.abs_value(million).den == 0);
        }
        assert(quotient(fmt.abs_value(0), fmt.abs_value(ten)).num == 0) by {
            assert(0 * fmt.abs_value(ten).den == 0);
        }
        assert(div_spec(fmt, 0, million) == 0);
        assert(div_spec(fmt, 0, ten) == 0);
        lemma_sub_self(fmt, 0);
    } else {
        let h: nat = if hours < 0 {
            (-hours) as nat
        } else {
            hours as nat
        };
        let odd: nat = h * 3515625;
        let mu: nat = integer_magnitude(units).num;
        let mt: nat = integer_magnitude(tenths).num;
        assert(mu == odd * 1024);
        assert(mt == h * 36000);
        assert(mu == mt * 100000);
        lemma_digits_below(odd, 53);
        lemma_from_int_exact(fmt, units, odd, 10);
        lemma_digits_below(mt, 53);
        lemma_from_int_exact(fmt, tenths, mt, 0);
        let x1: Exact = quotient(fmt.abs_value(count), fmt.abs_value(million));
        let x2: Exact = quotient(fmt.abs_value(seconds), fmt.abs_value(ten));
        let w1: Exact = Exact { num: mu, den: 1_000_000, exp: 0 };
        let w2: Exact = Exact { num: mt, den: 10, exp: 0 };
        lemma_quotient_value(fmt.abs_value(count), fmt.abs_value(million), mu, 1_000_000);
        lemma_quotient_value(fmt.abs_value(seconds), fmt.abs_value(ten), mt, 10);
        assert(w1.same_value(w2)) by {
            crate::exact::lemma_at_own_exp(w1);
            crate::exact::lemma_at_own_exp(w2);
            assert(w1.num_at(0) * w2.den_at(0) == w2.num_at(0) * w1.den_at(0)) by (nonlinear_arith)
                requires
                    w1.num_at(0) == mu,
                    w1.den_at(0) == 1_000_000,
                    w2.num_at(0) == mt,
                    w2.den_at(0) == 10,
                    mu == mt * 100000,
            ;
        }
        lemma_round_same_value(fmt, x1, w1);
        lemma_round_same_value(fmt, w1, w2);
        lemma_round_same_value(fmt, x2, w2);
        assert(w2.num_at(62) == mt);
        assert(w2.den_at(62) == 10 * 0x4000_0000_0000_0000);
        lemma_round_finite(fmt, w2, 62);
        let rounded: nat = round_magnitude(fmt, x1);
        assert(div_spec(fmt, count, million) == fmt.with_sign(hours < 0, rounded));
        assert(div_spec(fmt, seconds, ten) == fmt.with_sign(hours < 0, rounded));
        lemma_sub_self(fmt, fmt.with_sign(hours < 0, rounded));
    }
}

/// The two constants of the computation: ten and a million, in double
/// precision.
pub proof fn lemma_ten_and_million()
    ensures
        Binary64::of_integer(10).bits == 0x4024_0000_0000_0000,
        Binary64::of_integer(1_000_000).bits == 0x412e_8480_0000_0000,
{
    let fmt: Format = Format::Binary64;
    vstd::arithmetic::power2::lemma2_to64();
    vstd::arithmetic::power2::lemma2_to64_rest();
    let ten: Exact = integer_magnitude(10);
    assert(ten.num_at(-49) == 10 * pow2(49));
    lemma_round_representable(fmt, ten, 0x14_0000_0000_0000, -49);
    let million: Exact = integer_magnitude(1_000_000);
    assert(million.num_at(-33) == 1_000_000 * pow2(33));
    lemma_round_representable(fmt, million, 0x1e_8480_0000_0000, -33);
}

/// Whatever the inputs, the true time, the held time and the error in time
/// are finite numbers, and the error is not negative; nor is the error in
/// distance, for a velocity that is not.
pub proof fn lemma_time_error_is_finite(bits: nat, hours: int, velocity: Binary64)
    requires
        -0x8000_0000_0000_0000 <= hours < 0x8000_0000_0000_0000,
    ensures
        time_drift(bits, hours, velocity).true_time_seconds.is_finite(),
        time_drift(bits, hours, velocity).computed_time_microseconds.is_finite(),
        time_drift(bits, hours, velocity).time_error_seconds.is_finite(),
        !time_drift(bits, hours, velocity).time_error_seconds.is_negative(),
        !velocity.is_negative() ==> !time_drift(
            bits,
            hours,
            velocity,
        ).distance_error_meters.is_negative(),
{
    let fmt: Format = Format::Binary64;
    let units: int = time_units(hours);
    let tenths: int = tenths_of_second(hours);
    let kept: int = chop(units, bits);
    lemma_format_constants(fmt);
    lemma_ten_and_million();
    vstd::arithmetic::power2::lemma2_to64();
    vstd::arithmetic::power2::lemma_pow2_adds(64, 31);
    assert(pow2(95) == 0x8000_0000_0000_0000_0000_0000) by {
        assert(0x1_0000_0000_0000_0000 * 0x8000_0000 == 0x8000_0000_0000_0000_0000_0000int);
    }
    lemma_chop_magnitude_bounds(integer_magnitude(units).num, bits);
    assert(integer_magnitude(kept).num == chop_magnitude(integer_magnitude(units).num, bits));
    assert(power_magnitude(fmt, 95) == 0x45e0_0000_0000_0000);
    lemma_from_int_bounded(fmt, kept, 95);
    lemma_from_int_bounded(fmt, tenths, 95);
    let count: nat = from_int_spec(fmt, kept);
    let seconds: nat = from_int_spec(fmt, tenths);
    let ten: nat = 0x4024_0000_0000_0000;
    let million: nat = 0x412e_8480_0000_0000;
    assert(fmt.sig_of(fmt.magnitude(ten)) == 0x14_0000_0000_0000);
    assert(fmt.exp_of(fmt.magnitude(ten)) == -49);
    assert(fmt.sig_of(fmt.magnitude(million)) == 0x1e_8480_0000_0000);
    assert(fmt.exp_of(fmt.magnitude(million)) == -33);
    vstd::arithmetic::power2::lemma2_to64_rest();
    lemma_quotient_bounded(fmt, count, million, 95);
    lemma_quotient_bounded(fmt, seconds, ten, 95);
    let held: nat = div_spec(fmt, count, million);
    let truth: nat = div_spec(fmt, seconds, ten);
    lemma_difference_bounded(fmt, held, truth, 95);
    let gap: nat = sub_spec(fmt, held, truth);
    assert(fmt.magnitude(fmt.magnitude(gap)) == fmt.magnitude(gap));
}

/// A positive number below `2^b` has at most `b` binary digits.
pub proof fn lemma_digits_below(n: nat, b: nat)
    requires
        0 < n < pow2(b),
    ensures
        1 <= bit_length(n) <= b,
{
    lemma_bit_length_bounds(n);
    if bit_length(n) > b {
        crate::power_of_two::lemma_pow2_monotone(b, (bit_length(n) - 1) as nat);
    }
}

/// Equal inputs give equal reports.
pub proof fn lemma_time_drift_is_a_function(
    bits: nat,
    hours: int,
    velocity: Binary64,
    r1: TimeDriftResult,
    r2: TimeDriftResult,
)
    requires
        r1 == time_drift(bits, hours, velocity),
        r2 == time_drift(bits, hours, velocity),
    ensures
        r1 == r2,
{
}

/// Rounds `value` toward zero to `bits` significant binary digits.
pub fn truncate_to_precision(value: i128, bits: u32) -> (kept: i128)
    requires
        bits >= 1,
    ensures
        kept == chop(value as int, bits as nat),
{
    let magnitude: u128 = if value < 0 {
        ((-(value + 1)) as u128) + 1
    } else {
        value as u128
    };
    let digits: u32 = bit_length_u128(magnitude);
    if digits <= bits {
        return value;
    }
    let shift: u32 = digits - bits;
    proof {
        lemma_pow2_fits_u128(shift as nat);
        lemma_chop_magnitude_bounds(magnitude as nat, bits as nat);
        lemma_pow2_pos(shift as nat);
        lemma_pow2_127();
    }
    let unit: u128 = pow2_u128(shift);
    let cut: u128 = (magnitude / unit) * unit;
    if value < 0 {
        if cut == 0x8000_0000_0000_0000_0000_0000_0000_0000 {
            i128::MIN
        } else {
            -(cut as i128)
        }
    } else {
        cut as i128
    }
}

/// Runs the clock simulation: the time after `clock_hours` hours is counted
/// in tenths of a second, scaled, cut to `mantissa_bits` significant digits,
/// and compared with the true time.
pub fn simulate_time_drift(mantissa_bits: u32, clock_hours: i64, velocity_mps: Binary64) -> (r:
    TimeDriftResult)
    requires
        mantissa_bits >= 1,
    ensures
        r == time_drift(mantissa_bits as nat, clock_hours as int, velocity_mps),
        r.true_time_seconds.is_finite(),
        r.computed_time_microseconds.is_finite(),
        r.time_error_seconds.is_finite(),
        !r.time_error_seconds.is_negative(),
        !velocity_mps.is_negative() ==> !r.distance_error_meters.is_negative(),
{
    proof {
        lemma_time_error_is_finite(mantissa_bits as nat, clock_hours as int, velocity_mps);
    }
    let tenths: i128 = (clock_hours as i128) * 36000;
    let units: i128 = tenths * 100000;
    let kept: i128 = truncate_to_precision(units, mantissa_bits);
    let computed: Binary64 = Binary64::from_integer(kept);
    let ten: Binary64 = Binary64::from_integer(10);
    let million: Binary64 = Binary64::from_integer(1_000_000);
    let true_time: Binary64 = Binary64::from_integer(tenths).divided_by(ten);
    let error: Binary64 = computed.divided_by(million).minus(true_time).magnitude();
    let distance: Binary64 = error.times(velocity_mps);
    TimeDriftResult {
        true_time_seconds: true_time,
        computed_time_microseconds: computed,
        time_error_seconds: error,
        distance_error_meters: distance,
    }
}

} // verus!
