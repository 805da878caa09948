use fp_failures::binary32::Binary32;
use fp_failures::binary64::Binary64;
use fp_failures::lookup_division::{bad_divide, simulate_lookup_division};
use fp_failures::overflow_conversion::{simulate_overflow_conversion, OverflowConversionResult};
use fp_failures::time_drift::{simulate_time_drift, truncate_to_precision, TimeDriftResult};

fn d(x: f64) -> Binary64 {
    Binary64::from_bits(x.to_bits())
}

fn f(x: Binary64) -> f64 {
    f64::from_bits(x.to_bits())
}

fn s(x: f32) -> Binary32 {
    Binary32::from_bits(x.to_bits())
}

fn g(x: Binary32) -> f32 {
    f32::from_bits(x.to_bits())
}

fn drift(bits: u32, hours: i64, velocity: f64) -> (f64, f64, f64, f64) {
    let r: TimeDriftResult = simulate_time_drift(bits, hours, d(velocity));
    (
        f(r.true_time_seconds),
        f(r.computed_time_microseconds),
        f(r.time_error_seconds),
        f(r.distance_error_meters),
    )
}

fn cut(value: i128, bits: u32) -> i128 {
    let n = value.unsigned_abs();
    let digits = 128 - n.leading_zeros();
    if digits <= bits {
        return value;
    }
    let k = digits - bits;
    let kept = ((n >> k) << k) as i128;
    if value < 0 {
        -kept
    } else {
        kept
    }
}

fn drift_in_hardware(bits: u32, hours: i64, velocity: f64) -> (f64, f64, f64, f64) {
    let tenths: i128 = hours as i128 * 36000;
    let units: i128 = tenths * 100000;
    let computed = cut(units, bits) as f64;
    let true_time = tenths as f64 / 10.0;
    let error = (computed / 1_000_000.0 - true_time).abs();
    (true_time, computed, error, error * velocity)
}

#[test]
fn truncation_keeps_the_leading_digits() {
    assert_eq!(truncate_to_precision(0, 1), 0);
    assert_eq!(truncate_to_precision(1, 1), 1);
    assert_eq!(truncate_to_precision(3, 1), 2);
    assert_eq!(truncate_to_precision(7, 2), 6);
    assert_eq!(truncate_to_precision(255, 4), 240);
    assert_eq!(truncate_to_precision(256, 4), 256);
    assert_eq!(truncate_to_precision(-255, 4), -240);
    assert_eq!(truncate_to_precision(-7, 1), -4);
    assert_eq!(truncate_to_precision(360_000_000_000, 24), 359_999_995_904);
    assert_eq!(truncate_to_precision(360_000_000_000, 39), 360_000_000_000);
    assert_eq!(truncate_to_precision(360_000_000_000, 10), 359_703_511_040);
    assert_eq!(truncate_to_precision(i128::MAX, 1), 1i128 << 126);
    assert_eq!(truncate_to_precision(i128::MIN, 1), i128::MIN);
    assert_eq!(truncate_to_precision(i128::MIN + 1, 3), -(7i128 << 124));
    assert_eq!(truncate_to_precision(i128::MAX, 127), i128::MAX);
    assert_eq!(truncate_to_precision(i128::MAX, u32::MAX), i128::MAX);
}

#[test]
fn truncation_agrees_with_shifting() {
    let mut state: u64 = 0x243f6a8885a308d3;
    for _ in 0..200 {
        state ^= state << 13;
        state ^= state >> 7;
        state ^= state << 17;
        let value = (state as i64 as i128) * 1_000_003;
        for bits in [1u32, 2, 3, 8, 23, 24, 52, 53, 64, 80, 127, 128, 200] {
            assert_eq!(truncate_to_precision(value, bits), cut(value, bits));
        }
    }
}

#[test]
fn truncation_error_is_below_one_unit_of_the_last_digit_kept() {
    for value in [1i128, 5, 1000, 360_000_000_000, 123_456_789_012_345_678] {
        for bits in [1u32, 2, 5, 24] {
            let kept = truncate_to_precision(value, bits);
            let digits = 128 - (value as u128).leading_zeros();
            assert!(kept <= value);
            if digits > bits {
                assert!(value - kept < 1i128 << (digits - bits));
            } else {
                assert_eq!(kept, value);
            }
        }
    }
}

#[test]
fn hundred_hours_with_a_24_bit_significand() {
    let (true_time, computed, error, distance) = drift(24, 100, 1676.0);
    assert_eq!(true_time, 360000.0);
    assert_eq!(computed, 359999995904.0);
    assert_eq!(error.to_bits(), 0x3f70c6f7a0000000);
    assert_eq!(distance.to_bits(), 0x401b75a74ae00000);
    assert!((error - 0.004096).abs() < 1e-9);
    assert!((distance - 6.864896).abs() < 1e-6);
}

#[test]
fn hundred_hours_with_a_10_bit_significand() {
    let (true_time, computed, error, distance) = drift(10, 100, 1676.0);
    assert_eq!(true_time, 360000.0);
    assert_eq!(computed, 359703511040.0);
    assert_eq!(error.to_bits(), 0x407287d2c7b89000);
    assert_eq!(distance.to_bits(), 0x411e544dfce313b0);
}

#[test]
fn time_drift_matches_double_precision_hardware() {
    let hours = [
        0i64,
        1,
        2,
        3,
        7,
        8,
        20,
        48,
        72,
        100,
        127,
        128,
        1000,
        -1,
        -100,
        2_501_999,
        2_562_047_788,
        -2_562_047_788,
        8_589_934_591,
        i64::MAX,
        i64::MIN,
    ];
    let velocities = [1676.0, 0.0, -3.5, 1e300, f64::INFINITY, 5e-324];
    for bits in [1u32, 2, 8, 23, 24, 30, 52, 53, 54, 64, 100, 4_000_000_000] {
        for &h in hours.iter() {
            for &v in velocities.iter() {
                let got = drift(bits, h, v);
                let want = drift_in_hardware(bits, h, v);
                assert_eq!(got.0.to_bits(), want.0.to_bits(), "{} {} {}", bits, h, v);
                assert_eq!(got.1.to_bits(), want.1.to_bits(), "{} {} {}", bits, h, v);
                assert_eq!(got.2.to_bits(), want.2.to_bits(), "{} {} {}", bits, h, v);
                if want.3.is_nan() {
                    assert!(got.3.is_nan());
                } else {
                    assert_eq!(got.3.to_bits(), want.3.to_bits(), "{} {} {}", bits, h, v);
                }
            }
        }
    }
}

#[test]
fn time_error_is_never_negative() {
    for bits in [1u32, 5, 24, 53] {
        for h in [-1000i64, -100, -1, 0, 1, 100, 1000, 123_456] {
            let (_, _, error, _) = drift(bits, h, 1676.0);
            assert!(error >= 0.0);
            assert!(error.is_sign_positive());
        }
    }
}

#[test]
fn time_error_is_not_monotone_in_the_hours() {
    let (_, _, at_100, _) = drift(24, 100, 1676.0);
    let (_, _, at_128, _) = drift(24, 128, 1676.0);
    assert!(at_100 > 0.0);
    assert_eq!(at_128, 0.0);
}

#[test]
fn a_wide_significand_loses_nothing() {
    for bits in [53u32, 64, 128] {
        for h in [0i64, 1, 100, 12_345, 2_501_999, -77] {
            let (_, _, error, distance) = drift(bits, h, 1676.0);
            assert_eq!(error.to_bits(), 0);
            assert_eq!(distance.to_bits(), 0);
        }
    }
    let (_, computed, error, _) = drift(39, 100, 1676.0);
    assert_eq!(computed, 360_000_000_000.0);
    assert_eq!(error.to_bits(), 0);
}

#[test]
fn time_drift_twice_gives_the_same_bits() {
    let a = simulate_time_drift(24, 100, d(1676.0));
    let b = simulate_time_drift(24, 100, d(1676.0));
    assert_eq!(a, b);
}

#[test]
fn forty_thousand_overflows() {
    assert_eq!(simulate_overflow_conversion(d(40000.0)), OverflowConversionResult::Overflow);
}

#[test]
fn one_hundred_point_seven_converts_to_one_hundred() {
    assert_eq!(simulate_overflow_conversion(d(100.7)), OverflowConversionResult::Converted(100));
}

#[test]
fn conversion_cuts_toward_zero() {
    let c = |x: f64| simulate_overflow_conversion(d(x));
    assert_eq!(c(0.0), OverflowConversionResult::Converted(0));
    assert_eq!(c(-0.0), OverflowConversionResult::Converted(0));
    assert_eq!(c(0.999), OverflowConversionResult::Converted(0));
    assert_eq!(c(-0.999), OverflowConversionResult::Converted(0));
    assert_eq!(c(5e-324), OverflowConversionResult::Converted(0));
    assert_eq!(c(-100.7), OverflowConversionResult::Converted(-100));
    assert_eq!(c(1.0), OverflowConversionResult::Converted(1));
    assert_eq!(c(-1.0), OverflowConversionResult::Converted(-1));
    assert_eq!(c(32767.0), OverflowConversionResult::Converted(32767));
    assert_eq!(c(32767.999), OverflowConversionResult::Converted(32767));
    assert_eq!(c(-32768.0), OverflowConversionResult::Converted(-32768));
    assert_eq!(c(-32768.999), OverflowConversionResult::Converted(-32768));
}

#[test]
fn conversion_at_the_edges_of_the_range() {
    let c = |x: f64| simulate_overflow_conversion(d(x));
    assert_eq!(c(32768.0), OverflowConversionResult::Converted(32767));
    assert_eq!(c(f64::from_bits(32768.0f64.to_bits() + 1)), OverflowConversionResult::Overflow);
    assert_eq!(c(32769.0), OverflowConversionResult::Overflow);
    assert_eq!(c(-32769.0), OverflowConversionResult::Converted(-32768));
    assert_eq!(c(f64::from_bits((-32769.0f64).to_bits() + 1)), OverflowConversionResult::Overflow);
    assert_eq!(c(-32770.0), OverflowConversionResult::Overflow);
    assert_eq!(c(1e300), OverflowConversionResult::Overflow);
    assert_eq!(c(-1e300), OverflowConversionResult::Overflow);
    assert_eq!(c(f64::MAX), OverflowConversionResult::Overflow);
    assert_eq!(c(f64::INFINITY), OverflowConversionResult::Overflow);
    assert_eq!(c(f64::NEG_INFINITY), OverflowConversionResult::Overflow);
    assert_eq!(c(18446744073709551616.0), OverflowConversionResult::Overflow);
    assert_eq!(c(f64::NAN), OverflowConversionResult::Converted(0));
}

#[test]
fn conversion_in_range_matches_the_cast() {
    let mut x = -32768.0f64;
    while x <= 32767.0 {
        assert_eq!(
            simulate_overflow_conversion(d(x)),
            OverflowConversionResult::Converted(x as i16),
            "{}",
            x
        );
        x += 13.37;
    }
}

#[test]
fn conversion_out_of_range_always_overflows() {
    let mut x = 32768.5f64;
    while x < 1e12 {
        assert_eq!(simulate_overflow_conversion(d(x)), OverflowConversionResult::Overflow);
        assert_eq!(simulate_overflow_conversion(d(-x - 1.0)), OverflowConversionResult::Overflow);
        x *= 1.7;
    }
}

#[test]
fn conversion_twice_gives_the_same_result() {
    for x in [100.7, 40000.0, -5.5, f64::NAN] {
        assert_eq!(simulate_overflow_conversion(d(x)), simulate_overflow_conversion(d(x)));
    }
}

#[test]
fn lookup_division_reports_both_residues() {
    let r = simulate_lookup_division();
    assert_eq!(g(r.operand_a), 4195835.0);
    assert_eq!(g(r.operand_b), 3145727.0);
    assert_eq!(r.correct_result.to_bits(), 0);
    assert_eq!(g(r.defective_result), 256.0);
    assert_eq!(g(r.defective_result) - g(r.correct_result), 256.0);
}

#[test]
fn lookup_division_matches_single_precision_hardware() {
    let a = 4195835.0f32;
    let b = 3145727.0f32;
    let r = simulate_lookup_division();
    assert_eq!(r.correct_result.to_bits(), (a - ((a / b) * b)).to_bits());
    assert_eq!(r.defective_result.to_bits(), (a - (((a - 256.0) / b) * b)).to_bits());
}

#[test]
fn flawed_divider_is_wrong_for_one_pair_only() {
    let a = 4195835.0f32;
    let b = 3145727.0f32;
    assert_eq!(bad_divide(s(a), s(b)).to_bits(), ((a - 256.0) / b).to_bits());
    assert_eq!(bad_divide(s(a), s(b)).to_bits(), 0x3faab7f6);
    assert_eq!(s(a).divided_by(s(b)).to_bits(), 0x3faabaa1);
    let others = [
        (a, 3145728.0f32),
        (4195836.0, b),
        (b, a),
        (-a, b),
        (a, -b),
        (1.0, 3.0),
        (0.0, 0.0),
        (1.0, 0.0),
        (f32::INFINITY, 2.0),
        (-7.5, 1e-40),
    ];
    for &(x, y) in others.iter() {
        let got = bad_divide(s(x), s(y));
        assert_eq!(got, s(x).divided_by(s(y)));
        if (x / y).is_nan() {
            assert!(g(got).is_nan());
        } else {
            assert_eq!(got.to_bits(), (x / y).to_bits());
        }
    }
}

#[test]
fn lookup_division_twice_gives_the_same_bits() {
    assert_eq!(simulate_lookup_division(), simulate_lookup_division());
}

#[test]
fn inputs_carry_their_fields_to_the_simulations() {
    assert_eq!(fp_failures::TimeDriftInput::new(0, 100, d(1676.0)), None);
    let input = fp_failures::TimeDriftInput::new(24, 100, d(1676.0)).unwrap();
    assert_eq!(input.mantissa_bits, 24);
    assert_eq!(input.clock_hours, 100);
    assert_eq!(input.missile_velocity_mps, d(1676.0));
    assert_eq!(input.simulate(), simulate_time_drift(24, 100, d(1676.0)));
    let source = fp_failures::OverflowConversionInput { source_value: d(100.7) };
    assert_eq!(source.convert(), OverflowConversionResult::Converted(100));
    let large = fp_failures::OverflowConversionInput { source_value: d(40000.0) };
    assert_eq!(large.convert(), OverflowConversionResult::Overflow);
}
