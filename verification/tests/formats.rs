use fp_failures::arith::{from_int, whole_part, whole_part_of};
use fp_failures::format::{attach_sign, unpack, Format};
use fp_failures::power_of_two::{bit_length_u128, pow2_u128};
use fp_failures::{Binary32, Binary64};

#[test]
fn powers_of_two_and_bit_lengths() {
    assert_eq!(pow2_u128(0), 1);
    assert_eq!(pow2_u128(1), 2);
    assert_eq!(pow2_u128(64), 1u128 << 64);
    assert_eq!(pow2_u128(127), 1u128 << 127);
    assert_eq!(bit_length_u128(0), 0);
    assert_eq!(bit_length_u128(1), 1);
    assert_eq!(bit_length_u128(2), 2);
    assert_eq!(bit_length_u128(255), 8);
    assert_eq!(bit_length_u128(256), 9);
    assert_eq!(bit_length_u128(u128::MAX), 128);
    for k in 0..128u32 {
        assert_eq!(bit_length_u128(pow2_u128(k)), k + 1);
    }
}

#[test]
fn format_constants_are_those_of_the_hardware() {
    assert_eq!(Format::Binary32.precision_bits(), f32::MANTISSA_DIGITS);
    assert_eq!(Format::Binary64.precision_bits(), f64::MANTISSA_DIGITS);
    assert_eq!(Format::Binary32.infinity_bits(), f32::INFINITY.to_bits() as u64);
    assert_eq!(Format::Binary64.infinity_bits(), f64::INFINITY.to_bits());
    assert_eq!(Format::Binary32.sign_mask(), (-0.0f32).to_bits() as u64);
    assert_eq!(Format::Binary64.sign_mask(), (-0.0f64).to_bits());
    assert_eq!(Format::Binary32.hidden_bit(), 1 << 23);
    assert_eq!(Format::Binary64.hidden_bit(), 1 << 52);
    assert_eq!(Format::Binary32.least_exponent(), -149);
    assert_eq!(Format::Binary64.least_exponent(), -1074);
    assert_eq!(Format::Binary32.top_exponent_field(), 255);
    assert_eq!(Format::Binary64.top_exponent_field(), 2047);
    assert!(f32::from_bits(Format::Binary32.quiet_nan_bits() as u32).is_nan());
    assert!(f64::from_bits(Format::Binary64.quiet_nan_bits()).is_nan());
    assert_eq!(f64::from_bits(1).to_bits(), 1);
    assert_eq!(f64::from_bits(1), 2.0f64.powi(Format::Binary64.least_exponent()));
    assert_eq!(f32::from_bits(1), 2.0f32.powi(Format::Binary32.least_exponent()));
}

#[test]
fn patterns_come_apart_into_sign_significand_and_exponent() {
    let one = unpack(Format::Binary64, 1.0f64.to_bits());
    assert!(!one.negative);
    assert_eq!(one.sig, 1 << 52);
    assert_eq!(one.exp, -52);
    let minus_three = unpack(Format::Binary64, (-3.0f64).to_bits());
    assert!(minus_three.negative);
    assert_eq!(minus_three.magnitude, 3.0f64.to_bits());
    assert_eq!(minus_three.sig, 3 << 51);
    assert_eq!(minus_three.exp, -51);
    let least = unpack(Format::Binary64, 1);
    assert_eq!(least.sig, 1);
    assert_eq!(least.exp, -1074);
    let dividend = unpack(Format::Binary32, 4195835.0f32.to_bits() as u64);
    assert_eq!(dividend.sig, 8391670);
    assert_eq!(dividend.exp, -1);
    let divisor = unpack(Format::Binary32, 3145727.0f32.to_bits() as u64);
    assert_eq!(divisor.sig, 12582908);
    assert_eq!(divisor.exp, -2);
    let zero = unpack(Format::Binary32, 0);
    assert_eq!(zero.sig, 0);
    assert_eq!(zero.exp, -149);
    assert_eq!(attach_sign(Format::Binary32, true, 0), 0x8000_0000);
    assert_eq!(attach_sign(Format::Binary64, true, 1.5f64.to_bits()), (-1.5f64).to_bits());
    assert_eq!(attach_sign(Format::Binary64, false, 1.5f64.to_bits()), 1.5f64.to_bits());
}

#[test]
fn every_value_of_the_format_is_significand_times_power() {
    let mut state: u64 = 0x6a09e667f3bcc908;
    for _ in 0..500 {
        state ^= state << 13;
        state ^= state >> 7;
        state ^= state << 17;
        let x = f64::from_bits(state);
        if !x.is_finite() {
            continue;
        }
        let parts = unpack(Format::Binary64, state);
        let value = parts.sig as f64 * 2.0f64.powi(parts.exp.max(-1022))
            * 2.0f64.powi(parts.exp - parts.exp.max(-1022));
        assert_eq!(value, x.abs());
        assert_eq!(parts.negative, x.is_sign_negative());
    }
}

#[test]
fn rounding_is_to_nearest_with_ties_to_even() {
    let fmt = Format::Binary64;
    assert_eq!(Binary64::from_integer((1i128 << 53) + 1).to_bits(), ((1u64 << 53) as f64).to_bits());
    assert_eq!(
        Binary64::from_integer((1i128 << 53) + 3).to_bits(),
        (((1u64 << 53) + 4) as f64).to_bits()
    );
    assert_eq!(
        Binary64::from_integer((1i128 << 53) + 2).to_bits(),
        (((1u64 << 53) + 2) as f64).to_bits()
    );
    assert_eq!(Binary32::from_integer((1 << 24) + 1).to_bits(), 16777216.0f32.to_bits());
    assert_eq!(Binary32::from_integer((1 << 24) + 3).to_bits(), 16777220.0f32.to_bits());
    assert_eq!(from_int(fmt, 10), 0x4024_0000_0000_0000);
    assert_eq!(from_int(fmt, 1_000_000), 0x412e_8480_0000_0000);
    assert_eq!(from_int(fmt, 10), 10.0f64.to_bits());
    assert_eq!(from_int(fmt, 1_000_000), 1e6f64.to_bits());
    assert_eq!(from_int(Format::Binary32, 256), 0x4380_0000);
    assert_eq!(from_int(Format::Binary32, 4195835), 0x4a80_0bf6);
    assert_eq!(from_int(Format::Binary32, 3145727), 0x4a3f_fffc);
}

#[test]
fn rounding_reaches_zero_the_subnormals_and_infinity() {
    let tiny = f64::from_bits(1);
    let d = |x: f64| Binary64::from_bits(x.to_bits());
    assert_eq!(d(tiny).divided_by(d(2.0)).to_bits(), 0);
    assert_eq!(d(tiny).divided_by(d(-2.0)).to_bits(), (-0.0f64).to_bits());
    assert_eq!(d(tiny * 3.0).divided_by(d(2.0)).to_bits(), 2);
    assert_eq!(d(tiny).times(d(0.75)).to_bits(), 1);
    assert_eq!(d(f64::MAX).times(d(2.0)).to_bits(), f64::INFINITY.to_bits());
    assert_eq!(d(f64::MAX).plus(d(f64::MAX)).to_bits(), f64::INFINITY.to_bits());
    assert_eq!(d(-f64::MAX).minus(d(f64::MAX)).to_bits(), f64::NEG_INFINITY.to_bits());
    assert_eq!(d(f64::MAX).plus(d(1e291)).to_bits(), f64::MAX.to_bits());
    assert_eq!(d(f64::MAX).plus(d(1e292)).to_bits(), (f64::MAX + 1e292).to_bits());
    assert_eq!(d(1.0).minus(d(1.0)).to_bits(), 0);
    assert_eq!(d(-1.0).plus(d(1.0)).to_bits(), 0);
    assert_eq!(d(-0.0).plus(d(-0.0)).to_bits(), (-0.0f64).to_bits());
    assert_eq!(d(0.0).plus(d(-0.0)).to_bits(), 0);
    assert_eq!(d(1.0).plus(d(1e-300)).to_bits(), 1.0f64.to_bits());
    assert_eq!(d(1.0).minus(d(1e-300)).to_bits(), 1.0f64.to_bits());
    assert_eq!(d(0.0).divided_by(d(0.0)).to_bits(), 0x7ff8_0000_0000_0000);
    assert_eq!(d(f64::INFINITY).times(d(0.0)).to_bits(), 0x7ff8_0000_0000_0000);
    assert_eq!(d(f64::INFINITY).minus(d(f64::INFINITY)).to_bits(), 0x7ff8_0000_0000_0000);
    assert_eq!(d(1.0).divided_by(d(0.0)).to_bits(), f64::INFINITY.to_bits());
    assert_eq!(d(-1.0).divided_by(d(0.0)).to_bits(), f64::NEG_INFINITY.to_bits());
}

#[test]
fn whole_parts() {
    let w = |x: f64| whole_part(Format::Binary64, x.to_bits());
    assert_eq!(w(0.0), (0, true));
    assert_eq!(w(0.5), (0, false));
    assert_eq!(w(1.0), (1, true));
    assert_eq!(w(-100.7), (100, false));
    assert_eq!(w(32768.0), (32768, true));
    assert_eq!(w(32768.000000000007), (32768, false));
    assert_eq!(w(9007199254740992.0), (9007199254740992, true));
    assert_eq!(w(18446744073709549568.0), (18446744073709549568, true));
    assert_eq!(w(18446744073709551616.0), (u64::MAX, true));
    assert_eq!(w(1e300), (u64::MAX, true));
    assert_eq!(w(5e-324), (0, false));
    assert_eq!(whole_part_of(5, -1), (2, false));
    assert_eq!(whole_part_of(6, -1), (3, true));
    assert_eq!(whole_part_of(5, 3), (40, true));
    assert_eq!(whole_part_of(0, -2000), (0, true));
    assert_eq!(whole_part_of(1, -2000), (0, false));
    assert_eq!(whole_part_of(1, 64), (u64::MAX, true));
    assert_eq!(whole_part_of(1, 63), (1 << 63, true));
}
