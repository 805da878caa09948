//! Arithmetic on bit patterns. Each operation is specified by the exact
//! result of the operation on the values that the patterns stand for,
//! rounded to the format.
use crate::exact::Exact;
use crate::format::{attach_sign, lemma_finite_parts, lemma_format_constants, unpack, Format, Parts};
use crate::power_of_two::{
    bit_length, bit_length_u128, lemma_bit_length_bounds, lemma_pow2_fits_u128,
    lemma_pow2_monotone, pow2_u128,
};
use crate::rounding::{round_magnitude, round_to_magnitude};
use vstd::arithmetic::div_mod::lemma_fundamental_div_mod;
use vstd::arithmetic::power2::{lemma2_to64, lemma_pow2_adds, lemma_pow2_pos, pow2};
use vstd::prelude::*;

verus! {

/// The exact product of two values.
pub open spec fn product(x: Exact, y: Exact) -> Exact {
    Exact { num: x.num * y.num, den: x.den * y.den, exp: x.exp + y.exp }
}

/// The exact quotient of two values, the second not zero.
pub open spec fn quotient(x: Exact, y: Exact) -> Exact {
    Exact { num: x.num * y.den, den: x.den * y.num, exp: x.exp - y.exp }
}

/// The magnitude of an integer, as an exact value.
pub open spec fn integer_magnitude(v: int) -> Exact {
    Exact {
        num: if v < 0 {
            (-v) as nat
        } else {
            v as nat
        },
        den: 1,
        exp: 0,
    }
}

/// The pattern of the format nearest to the integer `v`.
pub open spec fn from_int_spec(fmt: Format, v: int) -> nat {
    fmt.with_sign(v < 0, round_magnitude(fmt, integer_magnitude(v)))
}

/// The pattern with its sign bit cleared.
pub open spec fn abs_spec(fmt: Format, a: nat) -> nat {
    fmt.magnitude(a)
}

/// The pattern with its sign bit flipped.
pub open spec fn negate_spec(fmt: Format, a: nat) -> nat {
    fmt.with_sign(!fmt.negative(a), fmt.magnitude(a))
}

/// The product of two patterns. A NaN operand and zero times infinity give
/// the quiet NaN. Otherwise the sign is the exclusive or of the signs, and the
/// magnitude is infinity if either operand is infinite, else the exact
/// product rounded.
pub open spec fn mul_spec(fmt: Format, a: nat, b: nat) -> nat {
    let sign = fmt.negative(a) != fmt.negative(b);
    if fmt.is_nan(a) || fmt.is_nan(b) {
        fmt.quiet_nan()
    } else if fmt.is_infinite(a) || fmt.is_infinite(b) {
        if fmt.is_zero(a) || fmt.is_zero(b) {
            fmt.quiet_nan()
        } else {
            fmt.with_sign(sign, fmt.infinity())
        }
    } else {
        fmt.with_sign(sign, round_magnitude(fmt, product(fmt.abs_value(a), fmt.abs_value(b))))
    }
}

/// The quotient of two patterns. A NaN operand, infinity by infinity and
/// zero by zero give the quiet NaN. Otherwise the sign is the exclusive or of
/// the signs, and the magnitude is infinity for an infinite dividend or a
/// zero divisor, zero for an infinite divisor, else the exact quotient
/// rounded.
pub open spec fn div_spec(fmt: Format, a: nat, b: nat) -> nat {
    let sign = fmt.negative(a) != fmt.negative(b);
    if fmt.is_nan(a) || fmt.is_nan(b) {
        fmt.quiet_nan()
    } else if fmt.is_infinite(a) {
        if fmt.is_infinite(b) {
            fmt.quiet_nan()
        } else {
            fmt.with_sign(sign, fmt.infinity())
        }
    } else if fmt.is_infinite(b) {
        fmt.with_sign(sign, 0)
    } else if fmt.is_zero(b) {
        if fmt.is_zero(a) {
            fmt.quiet_nan()
        } else {
            fmt.with_sign(sign, fmt.infinity())
        }
    } else {
        fmt.with_sign(sign, round_magnitude(fmt, quotient(fmt.abs_value(a), fmt.abs_value(b))))
    }
}

/// `sig * 2^exp / 2^e` with its sign, an integer where `e <= exp`.
pub open spec fn aligned(negative: bool, sig: nat, exp: int, e: int) -> int {
    let v = (sig * pow2((exp - e) as nat)) as int;
    if negative {
        -v
    } else {
        v
    }
}

/// The pattern of the sum of two finite numbers `sa * 2^ea` and `sb * 2^eb`
/// with their signs. The sum is formed exactly, in units of the smaller of
/// the two exponents. An exact zero is positive unless both terms are
/// negative; any other sum is rounded and keeps its sign.
pub open spec fn finite_sum(
    fmt: Format,
    na: bool,
    sa: nat,
    ea: int,
    nb: bool,
    sb: nat,
    eb: int,
) -> nat {
    let e = if ea <= eb {
        ea
    } else {
        eb
    };
    let sum = aligned(na, sa, ea, e) + aligned(nb, sb, eb, e);
    if sum == 0 {
        fmt.with_sign(na && nb, 0)
    } else {
        fmt.with_sign(
            sum < 0,
            round_magnitude(
                fmt,
                Exact {
                    num: if sum < 0 {
                        (-sum) as nat
                    } else {
                        sum as nat
                    },
                    den: 1,
                    exp: e,
                },
            ),
        )
    }
}

/// The sum of two patterns. A NaN operand and the sum of two infinities of
/// opposite sign give the quiet NaN; an infinite operand otherwise gives
/// itself; two finite operands give their `finite_sum`.
pub open spec fn add_spec(fmt: Format, a: nat, b: nat) -> nat {
    if fmt.is_nan(a) || fmt.is_nan(b) {
        fmt.quiet_nan()
    } else if fmt.is_infinite(a) {
        if fmt.is_infinite(b) && fmt.negative(a) != fmt.negative(b) {
            fmt.quiet_nan()
        } else {
            a
        }
    } else if fmt.is_infinite(b) {
        b
    } else {
        finite_sum(
            fmt,
            fmt.negative(a),
            fmt.sig_of(fmt.magnitude(a)),
            fmt.exp_of(fmt.magnitude(a)),
            fmt.negative(b),
            fmt.sig_of(fmt.magnitude(b)),
            fmt.exp_of(fmt.magnitude(b)),
        )
    }
}

/// The difference of two patterns: the sum of the first and the negated second.
pub open spec fn sub_spec(fmt: Format, a: nat, b: nat) -> nat {
    add_spec(fmt, a, negate_spec(fmt, b))
}

/// The pattern of the format nearest to `v`.
pub fn from_int(fmt: Format, v: i128) -> (r: u64)
    ensures
        r == from_int_spec(fmt, v as int),
        fmt.holds(r as nat),
        fmt.is_finite(r as nat),
{
    proof {
        lemma_format_constants(fmt);
        crate::power_of_two::lemma_pow2_127();
        crate::arith_laws::lemma_from_int_bounded(fmt, v as int, 127);
    }
    if v == 0 {
        return 0;
    }
    let negative: bool = v < 0;
    let sig: u128 = if negative {
        ((-(v + 1)) as u128) + 1
    } else {
        v as u128
    };
    let ghost x: Exact = integer_magnitude(v as int);
    proof {
        crate::exact::lemma_at_own_exp(x);
        assert(sig * 1 == sig && (sig + 1) * 1 == sig + 1) by (nonlinear_arith);
        lemma_pow2_fits_u128(fmt.precision());
    }
    let m: u64 = round_to_magnitude(fmt, sig, 0, false, Ghost(x));
    attach_sign(fmt, negative, m)
}

/// The pattern with its sign bit cleared.
pub fn abs(fmt: Format, a: u64) -> (r: u64)
    requires
        fmt.holds(a as nat),
    ensures
        r == abs_spec(fmt, a as nat),
        fmt.holds(r as nat),
        !fmt.negative(r as nat),
{
    let parts: Parts = unpack(fmt, a);
    parts.magnitude
}

/// The pattern with its sign bit flipped.
pub fn negate(fmt: Format, a: u64) -> (r: u64)
    requires
        fmt.holds(a as nat),
    ensures
        r == negate_spec(fmt, a as nat),
        fmt.holds(r as nat),
        fmt.magnitude(r as nat) == fmt.magnitude(a as nat),
        fmt.negative(r as nat) == !fmt.negative(a as nat),
{
    let parts: Parts = unpack(fmt, a);
    attach_sign(fmt, !parts.negative, parts.magnitude)
}

/// The product of two patterns.
pub fn mul_patterns(fmt: Format, a: u64, b: u64) -> (r: u64)
    requires
        fmt.holds(a as nat),
        fmt.holds(b as nat),
    ensures
        r == mul_spec(fmt, a as nat, b as nat),
        fmt.holds(r as nat),
{
    proof {
        lemma_format_constants(fmt);
    }
    let pa: Parts = unpack(fmt, a);
    let pb: Parts = unpack(fmt, b);
    let infinity: u64 = fmt.infinity_bits();
    if pa.magnitude > infinity || pb.magnitude > infinity {
        return fmt.quiet_nan_bits();
    }
    let sign: bool = pa.negative != pb.negative;
    if pa.magnitude == infinity || pb.magnitude == infinity {
        if pa.magnitude == 0 || pb.magnitude == 0 {
            return fmt.quiet_nan_bits();
        }
        return attach_sign(fmt, sign, infinity);
    }
    proof {
        lemma_finite_parts(fmt, pa.magnitude as nat);
        lemma_finite_parts(fmt, pb.magnitude as nat);
    }
    let m: u64 = multiply_magnitudes(fmt, pa.sig, pa.exp, pb.sig, pb.exp);
    attach_sign(fmt, sign, m)
}

/// The rounded product of `sa * 2^ea` and `sb * 2^eb`.
pub fn multiply_magnitudes(fmt: Format, sa: u64, ea: i32, sb: u64, eb: i32) -> (m: u64)
    requires
        sa < 0x40_0000_0000_0000,
        sb < 0x40_0000_0000_0000,
        -0x4000 <= ea <= 0x4000,
        -0x4000 <= eb <= 0x4000,
    ensures
        m == round_magnitude(
            fmt,
            product(
                Exact { num: sa as nat, den: 1, exp: ea as int },
                Exact { num: sb as nat, den: 1, exp: eb as int },
            ),
        ),
        m <= fmt.infinity(),
{
    let ghost x: Exact = product(
        Exact { num: sa as nat, den: 1, exp: ea as int },
        Exact { num: sb as nat, den: 1, exp: eb as int },
    );
    proof {
        lemma_product_of_integers(
            Exact { num: sa as nat, den: 1, exp: ea as int },
            Exact { num: sb as nat, den: 1, exp: eb as int },
        );
    }
    if sa == 0 || sb == 0 {
        return 0;
    }
    let sig: u128 = (sa as u128) * (sb as u128);
    let exp: i32 = ea + eb;
    round_to_magnitude(fmt, sig, exp, false, Ghost(x))
}

/// The quotient of two patterns.
pub fn div_patterns(fmt: Format, a: u64, b: u64) -> (r: u64)
    requires
        fmt.holds(a as nat),
        fmt.holds(b as nat),
    ensures
        r == div_spec(fmt, a as nat, b as nat),
        fmt.holds(r as nat),
{
    proof {
        lemma_format_constants(fmt);
    }
    let pa: Parts = unpack(fmt, a);
    let pb: Parts = unpack(fmt, b);
    let infinity: u64 = fmt.infinity_bits();
    if pa.magnitude > infinity || pb.magnitude > infinity {
        return fmt.quiet_nan_bits();
    }
    let sign: bool = pa.negative != pb.negative;
    if pa.magnitude == infinity {
        if pb.magnitude == infinity {
            return fmt.quiet_nan_bits();
        }
        return attach_sign(fmt, sign, infinity);
    }
    if pb.magnitude == infinity {
        return attach_sign(fmt, sign, 0);
    }
    if pb.magnitude == 0 {
        if pa.magnitude == 0 {
            return fmt.quiet_nan_bits();
        }
        return attach_sign(fmt, sign, infinity);
    }
    proof {
        lemma_finite_parts(fmt, pa.magnitude as nat);
        lemma_finite_parts(fmt, pb.magnitude as nat);
    }
    let m: u64 = divide_magnitudes(fmt, pa.sig, pa.exp, pb.sig, pb.exp);
    attach_sign(fmt, sign, m)
}

/// The rounded quotient of `sa * 2^ea` by `sb * 2^eb`.
pub fn divide_magnitudes(fmt: Format, sa: u64, ea: i32, sb: u64, eb: i32) -> (m: u64)
    requires
        sa < 2 * fmt.hidden(),
        0 < sb < 2 * fmt.hidden(),
        -0x4000 <= ea <= 0x4000,
        -0x4000 <= eb <= 0x4000,
    ensures
        m == round_magnitude(
            fmt,
            quotient(
                Exact { num: sa as nat, den: 1, exp: ea as int },
                Exact { num: sb as nat, den: 1, exp: eb as int },
            ),
        ),
        m <= fmt.infinity(),
{
    let ghost x: Exact = quotient(
        Exact { num: sa as nat, den: 1, exp: ea as int },
        Exact { num: sb as nat, den: 1, exp: eb as int },
    );
    proof {
        lemma_format_constants(fmt);
        assert(x.num == sa) by (nonlinear_arith)
            requires
                x.num == sa * 1,
        ;
        assert(x.den == sb) by (nonlinear_arith)
            requires
                x.den == 1 * sb,
        ;
    }
    if sa == 0 {
        return 0;
    }
    let p: u32 = fmt.precision_bits();
    let width_a: u32 = bit_length_u128(sa as u128);
    let width_b: u32 = bit_length_u128(sb as u128);
    proof {
        lemma_quotient_digits(p as nat, sa as nat, sb as nat);
    }
    let k: u32 = p + 1 + width_b - width_a;
    let dividend: u128 = (sa as u128) * pow2_u128(k);
    let q: u128 = dividend / (sb as u128);
    let rest: u128 = dividend % (sb as u128);
    let exp: i32 = ea - eb - (k as i32);
    proof {
        lemma_fundamental_div_mod(dividend as int, sb as int);
        assert(x.num_at(exp as int) == dividend);
        assert(x.den_at(exp as int) == sb);
        let d: int = sb as int;
        let qi: int = q as int;
        assert((qi + 1) * d == d * qi + d) by (nonlinear_arith);
        assert(qi * d == d * qi) by (nonlinear_arith);
        lemma_pow2_pos(p as nat);
    }
    round_to_magnitude(fmt, q, exp, rest != 0, Ghost(x))
}

/// The sum of two patterns.
pub fn add_patterns(fmt: Format, a: u64, b: u64) -> (r: u64)
    requires
        fmt.holds(a as nat),
        fmt.holds(b as nat),
    ensures
        r == add_spec(fmt, a as nat, b as nat),
        fmt.holds(r as nat),
{
    proof {
        lemma_format_constants(fmt);
    }
    let pa: Parts = unpack(fmt, a);
    let pb: Parts = unpack(fmt, b);
    let infinity: u64 = fmt.infinity_bits();
    if pa.magnitude > infinity || pb.magnitude > infinity {
        return fmt.quiet_nan_bits();
    }
    if pa.magnitude == infinity {
        if pb.magnitude == infinity && pa.negative != pb.negative {
            return fmt.quiet_nan_bits();
        }
        return a;
    }
    if pb.magnitude == infinity {
        return b;
    }
    proof {
        lemma_finite_parts(fmt, pa.magnitude as nat);
        lemma_finite_parts(fmt, pb.magnitude as nat);
    }
    if pa.exp >= pb.exp {
        add_ordered(fmt, pa.negative, pa.sig, pa.exp, pb.negative, pb.sig, pb.exp)
    } else {
        add_ordered(fmt, pb.negative, pb.sig, pb.exp, pa.negative, pa.sig, pa.exp)
    }
}

/// The difference of two patterns.
pub fn sub_patterns(fmt: Format, a: u64, b: u64) -> (r: u64)
    requires
        fmt.holds(a as nat),
        fmt.holds(b as nat),
    ensures
        r == sub_spec(fmt, a as nat, b as nat),
        fmt.holds(r as nat),
{
    let negated: u64 = negate(fmt, b);
    add_patterns(fmt, a, negated)
}

/// The sum of two finite numbers, the first with the exponent that is not
/// the smaller.
pub fn add_ordered(fmt: Format, nh: bool, sh: u64, eh: i32, nl: bool, sl: u64, el: i32) -> (r: u64)
    requires
        sh < 2 * fmt.hidden(),
        sl < 2 * fmt.hidden(),
        fmt.min_exp() <= el <= eh <= 0x4000,
        eh > fmt.min_exp() ==> sh >= fmt.hidden(),
    ensures
        r == finite_sum(fmt, nh, sh as nat, eh as int, nl, sl as nat, el as int),
        r == finite_sum(fmt, nl, sl as nat, el as int, nh, sh as nat, eh as int),
        fmt.holds(r as nat),
{
    if eh - el <= 70 {
        add_near(fmt, nh, sh, eh, nl, sl, el)
    } else {
        add_far(fmt, nh, sh, eh, nl, sl, el)
    }
}

/// The exact sum of the two terms in units of `2^el`, as `finite_sum` forms
/// it in either order.
pub open spec fn ordered_sum(nh: bool, sh: nat, eh: int, nl: bool, sl: nat, el: int) -> int {
    aligned(nh, sh, eh, el) + aligned(nl, sl, el, el)
}

/// The magnitude of an integer.
pub open spec fn magnitude_of(v: int) -> nat {
    if v < 0 {
        (-v) as nat
    } else {
        v as nat
    }
}

/// With the terms in order, `finite_sum` is the rounding of `ordered_sum`.
pub proof fn lemma_finite_sum_ordered(
    fmt: Format,
    nh: bool,
    sh: nat,
    eh: int,
    nl: bool,
    sl: nat,
    el: int,
)
    requires
        el <= eh,
    ensures
        aligned(nl, sl, el, el) == if nl {
            -(sl as int)
        } else {
            sl as int
        },
        finite_sum(fmt, nh, sh, eh, nl, sl, el) == finite_sum(fmt, nl, sl, el, nh, sh, eh),
        finite_sum(fmt, nh, sh, eh, nl, sl, el) == if ordered_sum(nh, sh, eh, nl, sl, el) == 0 {
            fmt.with_sign(nh && nl, 0)
        } else {
            fmt.with_sign(
                ordered_sum(nh, sh, eh, nl, sl, el) < 0,
                round_magnitude(
                    fmt,
                    Exact {
                        num: magnitude_of(ordered_sum(nh, sh, eh, nl, sl, el)),
                        den: 1,
                        exp: el,
                    },
                ),
            )
        },
{
    lemma2_to64();
    assert(sl * pow2(0) == sl) by (nonlinear_arith)
        requires
            pow2(0) == 1,
    ;
}

/// The sum of two finite numbers whose exponents differ by 70 at most.
pub fn add_near(fmt: Format, nh: bool, sh: u64, eh: i32, nl: bool, sl: u64, el: i32) -> (r: u64)
    requires
        sh < 2 * fmt.hidden(),
        sl < 2 * fmt.hidden(),
        fmt.min_exp() <= el <= eh <= 0x4000,
        eh - el <= 70,
    ensures
        r == finite_sum(fmt, nh, sh as nat, eh as int, nl, sl as nat, el as int),
        r == finite_sum(fmt, nl, sl as nat, el as int, nh, sh as nat, eh as int),
        fmt.holds(r as nat),
{
    let diff: i32 = eh - el;
    let ghost sum: int = ordered_sum(nh, sh as nat, eh as int, nl, sl as nat, el as int);
    let ghost x: Exact = Exact { num: magnitude_of(sum), den: 1, exp: el as int };
    proof {
        lemma_format_constants(fmt);
        lemma_finite_sum_ordered(fmt, nh, sh as nat, eh as int, nl, sl as nat, el as int);
        lemma_pow2_fits_u128(diff as nat);
        lemma_pow2_monotone(diff as nat, 70);
        crate::power_of_two::lemma_pow2_70();
        assert(sh * pow2(diff as nat) <= 0x40_0000_0000_0000 * 0x40_0000_0000_0000_0000)
            by (nonlinear_arith)
            requires
                sh <= 0x40_0000_0000_0000,
                pow2(diff as nat) <= 0x40_0000_0000_0000_0000,
        ;
    }
    let scaled: u128 = (sh as u128) * pow2_u128(diff as u32);
    let low: u128 = sl as u128;
    let negative: bool;
    let sig: u128;
    if nh == nl {
        negative = nh;
        sig = scaled + low;
    } else if scaled >= low {
        negative = nh;
        sig = scaled - low;
    } else {
        negative = nl;
        sig = low - scaled;
    }
    assert(sig == magnitude_of(sum));
    if sig == 0 {
        return attach_sign(fmt, nh && nl, 0);
    }
    proof {
        crate::exact::lemma_at_own_exp(x);
        assert(sig * 1 == sig && (sig + 1) * 1 == sig + 1) by (nonlinear_arith);
        lemma_pow2_fits_u128(fmt.precision());
    }
    let m: u64 = round_to_magnitude(fmt, sig, el, false, Ghost(x));
    attach_sign(fmt, negative, m)
}

/// The sum of two finite numbers whose exponents differ by more than 70.
pub fn add_far(fmt: Format, nh: bool, sh: u64, eh: i32, nl: bool, sl: u64, el: i32) -> (r: u64)
    requires
        sh < 2 * fmt.hidden(),
        sl < 2 * fmt.hidden(),
        fmt.min_exp() <= el <= eh <= 0x4000,
        eh > fmt.min_exp() ==> sh >= fmt.hidden(),
        eh - el > 70,
    ensures
        r == finite_sum(fmt, nh, sh as nat, eh as int, nl, sl as nat, el as int),
        r == finite_sum(fmt, nl, sl as nat, el as int, nh, sh as nat, eh as int),
        fmt.holds(r as nat),
{
    let diff: i32 = eh - el;
    let ghost high: int = (sh * pow2(diff as nat)) as int;
    let ghost sum: int = ordered_sum(nh, sh as nat, eh as int, nl, sl as nat, el as int);
    let ghost x: Exact = Exact { num: magnitude_of(sum), den: 1, exp: el as int };
    proof {
        lemma_format_constants(fmt);
        lemma_finite_sum_ordered(fmt, nh, sh as nat, eh as int, nl, sl as nat, el as int);
        lemma_pow2_pos(diff as nat);
        assert(high > 0) by (nonlinear_arith)
            requires
                high == sh * pow2(diff as nat),
                sh > 0,
                pow2(diff as nat) > 0,
        ;
        lemma_pow2_fits_u128(fmt.precision());
    }
    if sl == 0 {
        proof {
            assert(x.num == high);
            assert(x.num_at(eh as int) == high);
            assert(x.den_at(eh as int) == pow2(diff as nat)) by {
                assert(1 * pow2(diff as nat) == pow2(diff as nat));
            }
            assert((sh + 1) * pow2(diff as nat) == high + pow2(diff as nat)) by (nonlinear_arith)
                requires
                    high == sh * pow2(diff as nat),
            ;
        }
        let m: u64 = round_to_magnitude(fmt, sh as u128, eh, false, Ghost(x));
        attach_sign(fmt, nh, m)
    } else {
        proof {
            lemma_far_sum(sh as nat, sl as nat, diff as nat, nh == nl);
            assert(x.num_at(eh - 3) == x.num);
            assert(x.den_at(eh - 3) == pow2((diff - 3) as nat)) by {
                assert(1 * pow2((diff - 3) as nat) == pow2((diff - 3) as nat));
            }
        }
        let sig: u128 = if nh == nl {
            (sh as u128) * 8
        } else {
            (sh as u128) * 8 - 1
        };
        let m: u64 = round_to_magnitude(fmt, sig, eh - 3, true, Ghost(x));
        attach_sign(fmt, nh, m)
    }
}

/// Where the exponents of two terms differ by more than 70, the smaller term
/// only decides on which side of `8 * sh`, in units of an eighth of the larger
/// term's last place, the sum or difference falls.
pub proof fn lemma_far_sum(sh: nat, sl: nat, diff: nat, same: bool)
    requires
        diff > 70,
        sh > 0,
        0 < sl < 0x40_0000_0000_0000,
    ensures
        sh * pow2(diff) > sl,
        ({
            let total: int = if same {
                (sh * pow2(diff) + sl) as int
            } else {
                sh * pow2(diff) - sl
            };
            let sig: int = if same {
                (8 * sh) as int
            } else {
                8 * sh - 1
            };
            let unit = pow2((diff - 3) as nat);
            sig * unit < total < (sig + 1) * unit
        }),
{
    let unit: int = pow2((diff - 3) as nat) as int;
    lemma2_to64();
    lemma_pow2_adds(3, (diff - 3) as nat);
    lemma_pow2_monotone(54, (diff - 3) as nat);
    crate::power_of_two::lemma_pow2_54();
    let high: int = (sh * pow2(diff)) as int;
    let s: int = sh as int;
    assert(high == 8 * s * unit) by (nonlinear_arith)
        requires
            high == s * pow2(diff),
            pow2(diff) == 8 * unit,
    ;
    assert((8 * s - 1) * unit == 8 * s * unit - unit) by (nonlinear_arith);
    assert((8 * s + 1) * unit == 8 * s * unit + unit) by (nonlinear_arith);
    assert(8 * s * unit >= 8 * unit) by (nonlinear_arith)
        requires
            s >= 1,
            unit > 0,
    ;
}

/// The whole part of the absolute value of a finite pattern, held at
/// `u64::MAX` where it is larger, and whether the value is a whole number.
pub fn whole_part(fmt: Format, a: u64) -> (r: (u64, bool))
    requires
        fmt.holds(a as nat),
        fmt.is_finite(a as nat),
    ensures
        r.0 == if fmt.abs_value(a as nat).floor_at(0) > u64::MAX {
            u64::MAX as nat
        } else {
            fmt.abs_value(a as nat).floor_at(0)
        },
        r.1 == fmt.abs_value(a as nat).integral_at(0),
{
    let parts: Parts = unpack(fmt, a);
    proof {
        lemma_format_constants(fmt);
        lemma_finite_parts(fmt, parts.magnitude as nat);
    }
    whole_part_of(parts.sig, parts.exp)
}

/// The whole part of `sig * 2^exp`, held at `u64::MAX` where it is larger,
/// and whether `sig * 2^exp` is a whole number.
pub fn whole_part_of(sig: u64, exp: i32) -> (r: (u64, bool))
    requires
        sig < 0x40_0000_0000_0000,
        -0x4000 <= exp <= 0x4000,
    ensures
        r.0 == if (Exact { num: sig as nat, den: 1, exp: exp as int }).floor_at(0) > u64::MAX {
            u64::MAX as nat
        } else {
            (Exact { num: sig as nat, den: 1, exp: exp as int }).floor_at(0)
        },
        r.1 == (Exact { num: sig as nat, den: 1, exp: exp as int }).integral_at(0),
{
    let ghost x: Exact = Exact { num: sig as nat, den: 1, exp: exp as int };
    proof {
        lemma2_to64();
        crate::power_of_two::lemma_pow2_54();
    }
    if exp >= 0 {
        assert(x.den_at(0) == 1);
        assert(x.num_at(0) == sig * pow2(exp as nat));
        if sig == 0 {
            assert(x.num_at(0) == 0) by (nonlinear_arith)
                requires
                    x.num_at(0) == sig * pow2(exp as nat),
                    sig == 0,
            ;
            return (0, true);
        }
        if exp >= 64 {
            proof {
                lemma_pow2_monotone(64, exp as nat);
                assert(sig * pow2(exp as nat) >= pow2(64)) by (nonlinear_arith)
                    requires
                        sig >= 1,
                        pow2(exp as nat) >= pow2(64),
                ;
            }
            return (u64::MAX, true);
        }
        proof {
            lemma_pow2_monotone(exp as nat, 64);
            lemma_pow2_fits_u128(exp as nat);
            assert(sig * pow2(exp as nat) <= 0x40_0000_0000_0000 * 0x1_0000_0000_0000_0000)
                by (nonlinear_arith)
                requires
                    sig <= 0x40_0000_0000_0000,
                    pow2(exp as nat) <= 0x1_0000_0000_0000_0000,
            ;
        }
        let wide: u128 = (sig as u128) * pow2_u128(exp as u32);
        if wide > u64::MAX as u128 {
            (u64::MAX, true)
        } else {
            (wide as u64, true)
        }
    } else {
        let shift: i32 = -exp;
        assert(x.num_at(0) == sig);
        assert(x.den_at(0) == pow2(shift as nat)) by {
            assert(1 * pow2(shift as nat) == pow2(shift as nat));
        }
        if shift >= 54 {
            proof {
                lemma_pow2_monotone(54, shift as nat);
                vstd::arithmetic::div_mod::lemma_small_mod(sig as nat, pow2(shift as nat));
                vstd::arithmetic::div_mod::lemma_basic_div(sig as int, pow2(shift as nat) as int);
            }
            return (0, sig == 0);
        }
        proof {
            lemma_pow2_monotone(shift as nat, 54);
            lemma_pow2_pos(shift as nat);
        }
        let unit: u64 = pow2_u128(shift as u32) as u64;
        (sig / unit, sig % unit == 0)
    }
}

/// Scaling for a division of significands of at most `p` digits: shifted
/// left by `k = p + 1 + digits(sb) - digits(sa)` places, the dividend stays
/// below `2^(2p+1)`, and the quotient has more than `p` digits.
pub proof fn lemma_quotient_digits(p: nat, sa: nat, sb: nat)
    requires
        0 < sa < pow2(p),
        0 < sb < pow2(p),
        p <= 53,
    ensures
        1 <= bit_length(sa) <= p,
        1 <= bit_length(sb) <= p,
        ({
            let k = (p + 1 + bit_length(sb) - bit_length(sa)) as nat;
            &&& 2 <= k <= 2 * p
            &&& 0 < pow2(k) <= 0x8000_0000_0000_0000_0000_0000_0000_0000
            &&& sa * pow2(k) < pow2(p + 1 + bit_length(sb)) <= 0x8000_0000_0000_0000_0000_0000_0000_0000
            &&& (sa * pow2(k)) / sb >= pow2(p)
        }),
{
    let wa: nat = bit_length(sa);
    let wb: nat = bit_length(sb);
    lemma_bit_length_bounds(sa);
    lemma_bit_length_bounds(sb);
    if wa > p {
        lemma_pow2_monotone(p, (wa - 1) as nat);
    }
    if wb > p {
        lemma_pow2_monotone(p, (wb - 1) as nat);
    }
    let k: nat = (p + 1 + wb - wa) as nat;
    lemma_pow2_adds(wa, k);
    lemma_pow2_adds((wa - 1) as nat, k);
    lemma_pow2_adds(p, wb);
    lemma_pow2_fits_u128(p + 1 + wb);
    lemma_pow2_fits_u128(k);
    lemma_pow2_pos(p);
    let pk: int = pow2(k) as int;
    let s: int = sa as int;
    let d: int = sb as int;
    let pp: int = pow2(p) as int;
    let pw: int = pow2(wb) as int;
    let lo: int = pow2((wa - 1) as nat) as int;
    let hi: int = pow2(wa) as int;
    assert(lo * pk <= s * pk < hi * pk) by (nonlinear_arith)
        requires
            lo <= s < hi,
            pk > 0,
    ;
    let dividend: int = s * pk;
    let qi: int = dividend / d;
    lemma_fundamental_div_mod(dividend, d);
    assert(qi >= pp) by (nonlinear_arith)
        requires
            dividend >= pp * pw,
            dividend == d * qi + dividend % d,
            0 <= dividend % d < d,
            0 < d < pw,
            pp > 0,
    {
        if qi < pp {
            assert(d * (qi + 1) <= d * pp);
            assert(d * pp <= pw * pp);
        }
    }
}

/// The product of two integer multiples of powers of two is one again, and
/// is zero only where a factor is.
pub proof fn lemma_product_of_integers(x: Exact, y: Exact)
    requires
        x.den == 1,
        y.den == 1,
    ensures
        product(x, y).den == 1,
        product(x, y).num_at(x.exp + y.exp) == x.num * y.num,
        product(x, y).den_at(x.exp + y.exp) == 1,
        (x.num * y.num == 0) == (x.num == 0 || y.num == 0),
        x.num < 0x40_0000_0000_0000 && y.num < 0x40_0000_0000_0000 ==> x.num * y.num
            < 0x1000_0000_0000_0000_0000_0000_0000,
{
    lemma2_to64();
    let a: int = x.num as int;
    let b: int = y.num as int;
    assert((a * b == 0) == (a == 0 || b == 0)) by (nonlinear_arith)
        requires
            a >= 0,
            b >= 0,
    ;
    assert(a * b * 1 == a * b) by (nonlinear_arith);
    if a < 0x40_0000_0000_0000 && b < 0x40_0000_0000_0000 {
        assert(a * b < 0x40_0000_0000_0000 * 0x40_0000_0000_0000) by (nonlinear_arith)
            requires
                0 <= a < 0x40_0000_0000_0000,
                0 <= b < 0x40_0000_0000_0000,
        ;
    }
}

} // verus!
