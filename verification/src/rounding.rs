//! Rounding an exact value to a format: to nearest, ties to even.
use crate::exact::{
    lemma_binade_of_floor, lemma_round_exact, lemma_round_shifted, round_half_even, Exact,
};
use crate::format::{lemma_format_constants, Format};
use crate::power_of_two::{
    bit_length_u128, lemma_bit_length_bounds, lemma_pow2_127, lemma_pow2_fits_u128,
    lemma_pow2_monotone, pow2_u128,
};
use vstd::arithmetic::div_mod::lemma_fundamental_div_mod;
use vstd::arithmetic::power2::{lemma_pow2_adds, lemma_pow2_pos, lemma_pow2_unfold, pow2};
use vstd::prelude::*;

verus! {

/// The exponent of the last place that the format keeps of `x`: `precision`
/// digits below the leading one, but never below the subnormal place.
pub open spec fn quantum(fmt: Format, x: Exact) -> int {
    let e = x.log2_floor() - (fmt.precision() - 1);
    if e > fmt.min_exp() {
        e
    } else {
        fmt.min_exp()
    }
}

/// `x / 2^quantum`, rounded to the nearest integer, ties to even. At most
/// `2^precision`, which stands for the first number of the next binade.
pub open spec fn rounded_significand(fmt: Format, x: Exact) -> nat {
    round_half_even(x.num_at(quantum(fmt, x)), x.den_at(quantum(fmt, x)))
}

/// The magnitude whose value is `sig * 2^e`, or infinity where that value is
/// beyond the largest finite number. `e` is at least `min_exp`, and `sig` is
/// at most `2^precision`, and at least `2^(precision-1)` unless `e` is
/// `min_exp`.
pub open spec fn encode(fmt: Format, sig: nat, e: int) -> nat {
    let raw = (e - fmt.min_exp()) * fmt.hidden() + sig;
    if raw >= fmt.infinity() {
        fmt.infinity()
    } else {
        raw as nat
    }
}

/// The magnitude of the format nearest to `x`; of two equally near, the one
/// whose significand is even; infinity where `x` rounds beyond the largest
/// finite number.
pub open spec fn round_magnitude(fmt: Format, x: Exact) -> nat {
    if x.num == 0 {
        0
    } else {
        encode(fmt, rounded_significand(fmt, x), quantum(fmt, x))
    }
}

/// What lies above bit `k` of `sig` is below `2^p` when `sig` has at most
/// `p + k` binary digits.
proof fn lemma_shifted_below(sig: nat, q: nat, rest: nat, b: nat, p: nat, k: nat)
    requires
        sig == q * pow2(k) + rest,
        sig < pow2(b),
        b <= p + k,
    ensures
        q < pow2(p),
{
    lemma_pow2_monotone(b, p + k);
    lemma_pow2_adds(p, k);
    lemma_pow2_pos(k);
    let pk: int = pow2(k) as int;
    let pp: int = pow2(p) as int;
    let qi: int = q as int;
    assert(qi < pp) by (nonlinear_arith)
        requires
            qi * pk < pp * pk,
            pk > 0,
    {
        if qi >= pp {
            assert(qi * pk >= pp * pk);
        }
    }
}

/// Rounds the positive value `x` to the format. The caller hands over
/// `sig = floor(x / 2^exp)` and, in `sticky`, whether anything was cut off;
/// where something was, `sig` must hold more digits than the format keeps.
pub fn round_to_magnitude(fmt: Format, sig: u128, exp: i32, sticky: bool, Ghost(x): Ghost<Exact>) -> (m: u64)
    requires
        x.den > 0,
        sig >= 1,
        -0x10000 <= exp <= 0x10000,
        sig * x.den_at(exp as int) <= x.num_at(exp as int) < (sig + 1) * x.den_at(exp as int),
        sticky == (sig * x.den_at(exp as int) != x.num_at(exp as int)),
        sticky ==> sig >= pow2(fmt.precision()),
    ensures
        m == round_magnitude(fmt, x),
        m <= fmt.infinity(),
{
    let b: u32 = bit_length_u128(sig);
    let p: u32 = fmt.precision_bits();
    let least: i32 = fmt.least_exponent();
    proof {
        lemma_bit_length_bounds(sig as nat);
        lemma_binade_of_floor(x, exp as int, sig as nat, b as nat);
        lemma_format_constants(fmt);
        lemma_pow2_pos((x.exp - exp) as nat);
        assert(x.num > 0) by (nonlinear_arith)
            requires
                sig * x.den_at(exp as int) <= x.num_at(exp as int),
                sig >= 1,
                x.den_at(exp as int) > 0,
                x.num_at(exp as int) == x.num || x.num_at(exp as int) == x.num * pow2(
                    (x.exp - exp) as nat,
                ),
        ;
    }
    let normal: i32 = exp + (b as i32) - (p as i32);
    let e: i32 = if normal > least {
        normal
    } else {
        least
    };
    assert(e == quantum(fmt, x));
    let m: u128;
    if e <= exp {
        let k: u32 = (exp - e) as u32;
        proof {
            if sticky {
                lemma_pow2_monotone(b as nat, p as nat);
            }
            lemma_round_exact(x, exp as int, k as nat, sig as nat);
            lemma_pow2_adds(b as nat, k as nat);
            lemma_pow2_monotone((b + k) as nat, p as nat);
            lemma_pow2_fits_u128(k as nat);
            lemma_pow2_pos(k as nat);
            assert(sig * pow2(k as nat) < pow2(b as nat) * pow2(k as nat)) by (nonlinear_arith)
                requires
                    sig < pow2(b as nat),
                    pow2(k as nat) > 0,
            ;
            lemma_pow2_fits_u128(p as nat);
        }
        let scale: u128 = pow2_u128(k);
        m = sig * scale;
    } else {
        let k: u32 = (e - exp) as u32;
        if k > 128 {
            proof {
                lemma_pow2_127();
                lemma_pow2_unfold(128);
                lemma_pow2_monotone(128, (k - 1) as nat);
                assert((2 * 0 + 0) * pow2((k - 1) as nat) + sig == sig) by (nonlinear_arith);
                lemma_round_shifted(x, exp as int, k as nat, sig as nat, sticky, 0, 0, sig as nat);
            }
            m = 0;
        } else {
            let half: u128 = pow2_u128(k - 1);
            proof {
                lemma_pow2_pos((k - 1) as nat);
            }
            let upper: u128 = sig / half;
            let low: u128 = sig % half;
            let q: u128 = upper / 2;
            let round_bit: u128 = upper % 2;
            proof {
                lemma_fundamental_div_mod(sig as int, half as int);
                assert(sig == (2 * q + round_bit) * half + low) by (nonlinear_arith)
                    requires
                        sig == half * upper + low,
                        upper == 2 * q + round_bit,
                ;
                lemma_round_shifted(
                    x,
                    exp as int,
                    k as nat,
                    sig as nat,
                    sticky,
                    q as nat,
                    round_bit as nat,
                    low as nat,
                );
                lemma_pow2_unfold(k as nat);
                assert(sig == q * pow2(k as nat) + (round_bit * half + low)) by (nonlinear_arith)
                    requires
                        sig == (2 * q + round_bit) * half + low,
                        pow2(k as nat) == 2 * half,
                ;
                lemma_shifted_below(
                    sig as nat,
                    q as nat,
                    (round_bit * half + low) as nat,
                    b as nat,
                    p as nat,
                    k as nat,
                );
                lemma_pow2_fits_u128(p as nat);
            }
            let up: bool = round_bit == 1 && (low > 0 || sticky || q % 2 == 1);
            m = if up {
                q + 1
            } else {
                q
            };
        }
    }
    assert(m == rounded_significand(fmt, x));
    assert(m <= pow2(p as nat));
    let steps: i32 = e - least;
    let top: u32 = fmt.top_exponent_field();
    let infinity: u64 = fmt.infinity_bits();
    let hidden: u64 = fmt.hidden_bit();
    if steps >= top as i32 {
        proof {
            assert(steps * hidden >= top * hidden) by (nonlinear_arith)
                requires
                    steps >= top,
                    hidden >= 0,
            ;
        }
        return infinity;
    }
    proof {
        assert(steps * hidden <= 2046 * 0x10_0000_0000_0000) by (nonlinear_arith)
            requires
                0 <= steps <= 2046,
                0 <= hidden <= 0x10_0000_0000_0000,
        ;
    }
    let raw: u64 = (steps as u64) * hidden + (m as u64);
    if raw >= infinity {
        infinity
    } else {
        raw
    }
}

/// Rounding, once the binade of the value is known: the value in binade `k`
/// rounds at the place `max(min_exp, k - precision + 1)`.
pub proof fn lemma_round_in_binade(fmt: Format, x: Exact, k: int)
    requires
        x.den > 0,
        x.in_binade(k),
    ensures
        x.num > 0,
        quantum(fmt, x) == if k - (fmt.precision() - 1) > fmt.min_exp() {
            k - (fmt.precision() - 1)
        } else {
            fmt.min_exp()
        },
        round_magnitude(fmt, x) == encode(
            fmt,
            round_half_even(x.num_at(quantum(fmt, x)), x.den_at(quantum(fmt, x))),
            quantum(fmt, x),
        ),
{
    crate::exact::lemma_log2_floor_is(x, k);
    crate::exact::lemma_rescale(x, k, 0);
    if x.num == 0 {
        assert(x.num_at(k) == 0) by (nonlinear_arith)
            requires
                x.num == 0,
                x.num_at(k) == x.num || x.num_at(k) == x.num * pow2((x.exp - k) as nat),
        ;
    }
}

/// Reading back what `encode` wrote: a significand below `2^precision` with
/// its exponent, normalised unless the exponent is the least, comes back as
/// it went in.
pub proof fn lemma_decode_encoded(fmt: Format, sig: nat, e: int)
    requires
        sig < 2 * fmt.hidden(),
        fmt.min_exp() <= e <= fmt.min_exp() + fmt.top_field() - 2,
        e > fmt.min_exp() ==> sig >= fmt.hidden(),
    ensures
        encode(fmt, sig, e) < fmt.infinity(),
        fmt.sig_of(encode(fmt, sig, e)) == sig,
        sig >= fmt.hidden() ==> fmt.exp_of(encode(fmt, sig, e)) == e,
        sig < fmt.hidden() ==> fmt.exp_of(encode(fmt, sig, e)) == fmt.min_exp(),
{
    let steps: int = e - fmt.min_exp();
    match fmt {
        Format::Binary32 => {
            assert(steps * 0x80_0000 + sig < 0x7f80_0000);
        },
        Format::Binary64 => {
            assert(steps * 0x10_0000_0000_0000 + sig < 0x7ff0_0000_0000_0000);
        },
    }
}

/// Rounding sees the number, not the way it is written: two values that
/// are the same number round to the same magnitude.
pub proof fn lemma_round_same_value(fmt: Format, x: Exact, y: Exact)
    requires
        x.den > 0,
        y.den > 0,
        x.same_value(y),
    ensures
        round_magnitude(fmt, x) == round_magnitude(fmt, y),
{
    crate::exact::lemma_same_value_at(x, y, x.exp);
    crate::exact::lemma_same_value_at(x, y, y.exp);
    crate::exact::lemma_at_own_exp(x);
    crate::exact::lemma_at_own_exp(y);
    assert((x.num == 0) == (y.num == 0)) by {
        let a: int = x.num as int;
        let b: int = x.den as int;
        let c: int = y.num_at(x.exp) as int;
        let d: int = y.den_at(x.exp) as int;
        let a2: int = x.num_at(y.exp) as int;
        let b2: int = x.den_at(y.exp) as int;
        let c2: int = y.num as int;
        let d2: int = y.den as int;
        assert(c2 == 0 ==> a == 0) by (nonlinear_arith)
            requires
                a * d == c * b,
                a2 * d2 == c2 * b2,
                b > 0,
                d > 0,
                b2 > 0,
                d2 > 0,
                a >= 0,
                a2 >= 0,
                c2 == 0 ==> c == 0,
        {
            if c == 0 && a > 0 {
                assert(a * d > 0);
            }
        }
        assert(a == 0 ==> c2 == 0) by (nonlinear_arith)
            requires
                a2 * d2 == c2 * b2,
                b2 > 0,
                d2 > 0,
                c2 >= 0,
                a == 0 ==> a2 == 0,
        {
            if a2 == 0 && c2 > 0 {
                assert(c2 * b2 > 0);
            }
        }
    }
    if x.num > 0 {
        let k = crate::exact::lemma_binade_exists(x);
        crate::exact::lemma_same_binade(x, y, k);
        crate::exact::lemma_log2_floor_is(y, k);
        let q = quantum(fmt, x);
        crate::exact::lemma_same_value_at(x, y, q);
        crate::exact::lemma_round_half_even_same(x.num_at(q), x.den_at(q), y.num_at(q), y.den_at(q));
    }
}

/// A number of the format rounds to itself: a value that is `sig * 2^e`,
/// with `sig` below `2^precision` and normalised unless `e` is the least
/// exponent, has the magnitude `encode(sig, e)`.
pub proof fn lemma_round_representable(fmt: Format, x: Exact, sig: nat, e: int)
    requires
        x.den > 0,
        sig * x.den_at(e) == x.num_at(e),
        sig < 2 * fmt.hidden(),
        fmt.min_exp() <= e,
        e > fmt.min_exp() ==> sig >= fmt.hidden(),
    ensures
        round_magnitude(fmt, x) == encode(fmt, sig, e),
        sig > 0 ==> quantum(fmt, x) == e && rounded_significand(fmt, x) == sig,
{
    lemma_format_constants(fmt);
    crate::exact::lemma_rescale(x, e, 0);
    let n: int = x.num_at(e) as int;
    let d: int = x.den_at(e) as int;
    if sig == 0 {
        assert(n == 0) by (nonlinear_arith)
            requires
                n == sig * d,
                sig == 0,
        ;
        lemma_pow2_pos((x.exp - e) as nat);
        assert(x.num == 0) by (nonlinear_arith)
            requires
                x.num_at(e) == 0,
                x.num_at(e) == x.num || x.num_at(e) == x.num * pow2((x.exp - e) as nat),
                pow2((x.exp - e) as nat) > 0,
        ;
        assert((e - fmt.min_exp()) * fmt.hidden() == 0) by (nonlinear_arith)
            requires
                e == fmt.min_exp(),
        ;
    } else {
        let b: nat = crate::power_of_two::bit_length(sig);
        let p: nat = fmt.precision();
        lemma_bit_length_bounds(sig);
        if b > p {
            lemma_pow2_monotone(p, (b - 1) as nat);
        }
        if b < p {
            lemma_pow2_monotone(b, (p - 1) as nat);
        }
        assert((sig + 1) * d == sig * d + d) by (nonlinear_arith);
        lemma_binade_of_floor(x, e, sig, b);
        lemma_round_exact(x, e, 0, sig);
        vstd::arithmetic::power2::lemma2_to64();
        assert(sig * pow2(0) == sig) by (nonlinear_arith)
            requires
                pow2(0) == 1,
        ;
    }
}

/// The rounded significand of a value in the binade `k` is at most
/// `2^precision`, and at least `2^(precision-1)` above the subnormal range.
pub proof fn lemma_rounded_significand_bounds(fmt: Format, x: Exact, k: int)
    requires
        x.den > 0,
        x.in_binade(k),
    ensures
        rounded_significand(fmt, x) <= 2 * fmt.hidden(),
        quantum(fmt, x) > fmt.min_exp() ==> rounded_significand(fmt, x) >= fmt.hidden(),
{
    lemma_format_constants(fmt);
    crate::exact::lemma_log2_floor_is(x, k);
    let q: int = quantum(fmt, x);
    let p: nat = fmt.precision();
    let n: int = x.num_at(q) as int;
    let d: int = x.den_at(q) as int;
    let nk: int = x.num_at(k) as int;
    let dk: int = x.den_at(k) as int;
    let h: int = fmt.hidden() as int;
    crate::exact::lemma_rescale(x, q, 0);
    lemma_fundamental_div_mod(n, d);
    if q <= k {
        let s: nat = (k - q) as nat;
        crate::exact::lemma_rescale(x, q, s);
        lemma_pow2_pos(s);
        lemma_pow2_monotone(s, (p - 1) as nat);
        let ps: int = pow2(s) as int;
        // n * dk == nk * d * ps, with dk <= nk < 2 * dk
        assert(d * ps <= n < 2 * (d * ps)) by (nonlinear_arith)
            requires
                n * dk == nk * d * ps,
                dk <= nk < 2 * dk,
                dk > 0,
                d > 0,
                ps > 0,
        {
            assert(nk * (d * ps) >= dk * (d * ps));
            assert(nk * (d * ps) < 2 * dk * (d * ps));
            if n < d * ps {
                assert(n * dk < (d * ps) * dk);
            }
            if n >= 2 * (d * ps) {
                assert(n * dk >= 2 * (d * ps) * dk);
            }
        }
        assert(n < 2 * h * d) by (nonlinear_arith)
            requires
                n < 2 * (d * ps),
                ps <= h,
                d > 0,
        {
            assert(d * ps <= d * h);
        }
        assert(n / d < 2 * h) by (nonlinear_arith)
            requires
                n == d * (n / d) + n % d,
                0 <= n % d,
                n < 2 * h * d,
                d > 0,
        {
            if n / d >= 2 * h {
                assert(d * (n / d) >= d * (2 * h));
            }
        }
        if q > fmt.min_exp() {
            assert(ps == h);
            assert(n / d >= h) by (nonlinear_arith)
                requires
                    n == d * (n / d) + n % d,
                    n % d < d,
                    n >= d * h,
                    d > 0,
            {
                if n / d < h {
                    assert(d * (n / d) <= d * (h - 1));
                }
            }
        }
    } else {
        let s: nat = (q - k) as nat;
        crate::exact::lemma_rescale(x, k, s);
        lemma_pow2_unfold(s);
        lemma_pow2_pos((s - 1) as nat);
        let ps: int = pow2(s) as int;
        // nk * d == n * dk * ps, with nk < 2 * dk and ps >= 2
        assert(n < d) by (nonlinear_arith)
            requires
                nk * d == n * dk * ps,
                nk < 2 * dk,
                ps >= 2,
                dk > 0,
                d > 0,
                n >= 0,
        {
            assert(nk * d < 2 * dk * d);
            if n >= d {
                assert(n * dk >= d * dk);
                assert(n * dk * ps >= d * dk * 2);
            }
        }
        assert(n / d == 0) by {
            vstd::arithmetic::div_mod::lemma_basic_div(n, d);
        }
    }
}

/// A value below `2^(t+1)`, with `t` below the exponent of the largest
/// binade, rounds to a finite magnitude.
pub proof fn lemma_round_finite(fmt: Format, x: Exact, t: int)
    requires
        x.den > 0,
        x.num_at(t) < 2 * x.den_at(t),
        t + 1 <= fmt.min_exp() + fmt.top_field() - 2 + (fmt.precision() - 1),
    ensures
        round_magnitude(fmt, x) < fmt.infinity(),
{
    lemma_format_constants(fmt);
    if x.num > 0 {
        let k = crate::exact::lemma_binade_exists(x);
        crate::exact::lemma_binade_order(x, t, k);
        lemma_rounded_significand_bounds(fmt, x, k);
        let q: int = quantum(fmt, x);
        let steps: int = q - fmt.min_exp();
        let h: int = fmt.hidden() as int;
        assert(steps * h + 2 * h < fmt.top_field() * h) by (nonlinear_arith)
            requires
                0 <= steps <= fmt.top_field() - 3,
                h > 0,
        {
            assert((steps + 2) * h < fmt.top_field() * h);
        }
    }
}

/// The magnitude of `2^t`, for `t` in the range of the normal numbers.
pub open spec fn power_magnitude(fmt: Format, t: int) -> nat {
    encode(fmt, fmt.hidden(), t - (fmt.precision() - 1))
}

/// Rounding does not pass a power of two: a value that is at most `2^t`
/// rounds to a magnitude that is at most that of `2^t`.
pub proof fn lemma_round_le_power(fmt: Format, x: Exact, t: int)
    requires
        x.den > 0,
        x.num_at(t) <= x.den_at(t),
        t - fmt.precision() >= fmt.min_exp(),
    ensures
        round_magnitude(fmt, x) <= power_magnitude(fmt, t),
{
    lemma_format_constants(fmt);
    let p: nat = fmt.precision();
    let h: int = fmt.hidden() as int;
    let top: int = t - (p - 1);
    crate::exact::lemma_rescale(x, t, 0);
    if x.num > 0 {
        let k = crate::exact::lemma_binade_exists(x);
        crate::exact::lemma_binade_order(x, t, k);
        if k == t {
            // the value is `2^t` itself
            lemma_round_exact(x, t, (p - 1) as nat, 1);
            assert(1 * pow2((p - 1) as nat) == pow2((p - 1) as nat)) by (nonlinear_arith);
            assert(1 * x.den_at(t) == x.den_at(t)) by (nonlinear_arith);
            lemma_round_representable(fmt, x, fmt.hidden(), top);
        } else {
            lemma_rounded_significand_bounds(fmt, x, k);
            let q: int = quantum(fmt, x);
            assert((q - fmt.min_exp()) * h + 2 * h <= (top - fmt.min_exp()) * h + h)
                by (nonlinear_arith)
                requires
                    q <= top - 1,
                    h > 0,
            {
                assert((q - fmt.min_exp() + 2) * h <= (top - fmt.min_exp() + 1) * h);
            }
        }
    }
}

/// A finite magnitude that is at most that of `2^t` stands for a value that
/// is at most `2^t`, with an exponent that is at most that of `2^t`.
pub proof fn lemma_value_le_power(fmt: Format, m: nat, t: int)
    requires
        m <= power_magnitude(fmt, t),
        power_magnitude(fmt, t) < fmt.infinity(),
        t - fmt.precision() >= fmt.min_exp(),
    ensures
        m < fmt.infinity(),
        fmt.exp_of(m) <= t - (fmt.precision() - 1),
        fmt.sig_of(m) <= pow2((t - fmt.exp_of(m)) as nat),
{
    lemma_format_constants(fmt);
    crate::format::lemma_finite_parts(fmt, m);
    let p: nat = fmt.precision();
    let h: int = fmt.hidden() as int;
    let top: int = t - (p - 1);
    let e: int = fmt.exp_of(m);
    let sig: int = fmt.sig_of(m) as int;
    let least: int = fmt.min_exp();
    assert(m == (e - least) * h + sig);
    assert(power_magnitude(fmt, t) == (top - least) * h + h);
    if e > top {
        assert((e - least) * h >= (top - least + 1) * h) by (nonlinear_arith)
            requires
                e >= top + 1,
                h > 0,
        ;
        assert((top - least + 1) * h == (top - least) * h + h) by (nonlinear_arith);
    }
    assert(e <= top);
    lemma_pow2_adds((p - 1) as nat, (top - e) as nat);
    assert((p - 1) as nat + (top - e) as nat == (t - e) as nat);
    let rest: int = pow2((top - e) as nat) as int;
    lemma_pow2_pos((top - e) as nat);
    if e < top {
        lemma_pow2_unfold((top - e) as nat);
        lemma_pow2_pos((top - e - 1) as nat);
        assert(sig <= h * rest) by (nonlinear_arith)
            requires
                sig < 2 * h,
                rest >= 2,
                h > 0,
        {
            assert(h * rest >= h * 2);
        }
    } else {
        vstd::arithmetic::power2::lemma2_to64();
        assert(h * 1 == h) by (nonlinear_arith);
    }
}

/// Reading a finite magnitude and rounding what it stands for gives the
/// magnitude back.
pub proof fn lemma_round_trip(fmt: Format, m: nat)
    requires
        m < fmt.infinity(),
    ensures
        round_magnitude(fmt, Exact { num: fmt.sig_of(m), den: 1, exp: fmt.exp_of(m) }) == m,
{
    let x: Exact = Exact { num: fmt.sig_of(m), den: 1, exp: fmt.exp_of(m) };
    crate::format::lemma_finite_parts(fmt, m);
    crate::exact::lemma_at_own_exp(x);
    assert(fmt.sig_of(m) * 1 == fmt.sig_of(m)) by (nonlinear_arith);
    lemma_round_representable(fmt, x, fmt.sig_of(m), fmt.exp_of(m));
}

} // verus!
