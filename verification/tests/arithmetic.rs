use fp_failures::binary32::Binary32;
use fp_failures::binary64::Binary64;

fn d(x: f64) -> Binary64 {
    Binary64::from_bits(x.to_bits())
}

fn s(x: f32) -> Binary32 {
    Binary32::from_bits(x.to_bits())
}

fn same64(got: Binary64, want: f64) -> bool {
    if want.is_nan() {
        f64::from_bits(got.to_bits()).is_nan()
    } else {
        got.to_bits() == want.to_bits()
    }
}

fn same32(got: Binary32, want: f32) -> bool {
    if want.is_nan() {
        f32::from_bits(got.to_bits()).is_nan()
    } else {
        got.to_bits() == want.to_bits()
    }
}

fn samples64() -> Vec<f64> {
    let mut v = vec![
        0.0,
        -0.0,
        1.0,
        -1.0,
        2.0,
        3.0,
        10.0,
        0.1,
        -0.3,
        1.5,
        1e6,
        1e-6,
        1e300,
        -1e300,
        1e-300,
        4195835.0,
        3145727.0,
        f64::MAX,
        f64::MIN,
        f64::MIN_POSITIVE,
        f64::EPSILON,
        f64::INFINITY,
        f64::NEG_INFINITY,
        f64::NAN,
        5e-324,
        -5e-324,
        2.2250738585072009e-308,
        1.7976931348623157e308,
        9007199254740992.0,
        9007199254740993.0,
        0.5,
        0.25,
        1.0000000000000002,
        0.9999999999999999,
        123456789.123456789,
        32768.0,
        -32769.0,
        6.02214076e23,
        1.602176634e-19,
    ];
    let mut state: u64 = 0x9e3779b97f4a7c15;
    for _ in 0..60 {
        state ^= state << 13;
        state ^= state >> 7;
        state ^= state << 17;
        v.push(f64::from_bits(state));
    }
    v
}

fn samples32() -> Vec<f32> {
    let mut v = vec![
        0.0f32,
        -0.0,
        1.0,
        -1.0,
        2.0,
        3.0,
        10.0,
        0.1,
        -0.3,
        1.5,
        1e6,
        1e-6,
        1e30,
        -1e30,
        1e-30,
        4195835.0,
        3145727.0,
        4195579.0,
        256.0,
        f32::MAX,
        f32::MIN,
        f32::MIN_POSITIVE,
        f32::EPSILON,
        f32::INFINITY,
        f32::NEG_INFINITY,
        f32::NAN,
        1e-45,
        -1e-45,
        1.1754942e-38,
        16777216.0,
        16777217.0,
        0.5,
        1.0000001,
        0.99999994,
    ];
    let mut state: u32 = 0x2545f491;
    for _ in 0..60 {
        state ^= state << 13;
        state ^= state >> 17;
        state ^= state << 5;
        v.push(f32::from_bits(state));
    }
    v
}

#[test]
fn binary64_product_matches_hardware() {
    for &a in samples64().iter() {
        for &b in samples64().iter() {
            assert!(same64(d(a).times(d(b)), a * b), "{:e} * {:e}", a, b);
        }
    }
}

#[test]
fn binary64_quotient_matches_hardware() {
    for &a in samples64().iter() {
        for &b in samples64().iter() {
            assert!(same64(d(a).divided_by(d(b)), a / b), "{:e} / {:e}", a, b);
        }
    }
}

#[test]
fn binary64_sum_matches_hardware() {
    for &a in samples64().iter() {
        for &b in samples64().iter() {
            assert!(same64(d(a).plus(d(b)), a + b), "{:e} + {:e}", a, b);
        }
    }
}

#[test]
fn binary64_difference_matches_hardware() {
    for &a in samples64().iter() {
        for &b in samples64().iter() {
            assert!(same64(d(a).minus(d(b)), a - b), "{:e} - {:e}", a, b);
        }
    }
}

#[test]
fn binary32_product_matches_hardware() {
    for &a in samples32().iter() {
        for &b in samples32().iter() {
            assert!(same32(s(a).times(s(b)), a * b), "{:e} * {:e}", a, b);
        }
    }
}

#[test]
fn binary32_quotient_matches_hardware() {
    for &a in samples32().iter() {
        for &b in samples32().iter() {
            assert!(same32(s(a).divided_by(s(b)), a / b), "{:e} / {:e}", a, b);
        }
    }
}

#[test]
fn binary32_sum_matches_hardware() {
    for &a in samples32().iter() {
        for &b in samples32().iter() {
            assert!(same32(s(a).plus(s(b)), a + b), "{:e} + {:e}", a, b);
        }
    }
}

#[test]
fn binary32_difference_matches_hardware() {
    for &a in samples32().iter() {
        for &b in samples32().iter() {
            assert!(same32(s(a).minus(s(b)), a - b), "{:e} - {:e}", a, b);
        }
    }
}

#[test]
fn integers_convert_as_hardware_does() {
    let values: Vec<i128> = vec![
        0,
        1,
        -1,
        2,
        10,
        1_000_000,
        -36000,
        360_000_000_000,
        9007199254740992,
        9007199254740993,
        9007199254740995,
        -9007199254740993,
        16777216,
        16777217,
        16777219,
        i64::MAX as i128,
        i64::MIN as i128,
        i128::MAX,
        i128::MIN,
        i128::MAX - 1,
        (1i128 << 100) + 1,
    ];
    for &v in values.iter() {
        assert_eq!(Binary64::from_integer(v).to_bits(), (v as f64).to_bits(), "{}", v);
        assert_eq!(Binary32::from_integer(v).to_bits(), (v as f32).to_bits(), "{}", v);
    }
}

#[test]
fn sign_operations_touch_the_sign_bit_only() {
    for &a in samples64().iter() {
        assert_eq!(d(a).magnitude().to_bits(), a.to_bits() & !(1u64 << 63));
        assert_eq!(d(a).negated().to_bits(), a.to_bits() ^ (1u64 << 63));
    }
    for &a in samples32().iter() {
        assert_eq!(s(a).magnitude().to_bits(), a.to_bits() & !(1u32 << 31));
        assert_eq!(s(a).negated().to_bits(), a.to_bits() ^ (1u32 << 31));
    }
}
