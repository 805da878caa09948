//! Exact non-negative values `num / den * 2^exp`, the binade one lies in, and
//! rounding of a quotient to the nearest integer, ties to even.
//!
//! Everything here is specification and proof: the results of arithmetic on
//! floating-point numbers are described by these values before any rounding.
use vstd::arithmetic::div_mod::lemma_fundamental_div_mod_converse;
use vstd::arithmetic::mul::lemma_mul_strictly_positive;
use crate::power_of_two::{bit_length, lemma_bit_length_bounds};
use vstd::arithmetic::div_mod::lemma_fundamental_div_mod;
use vstd::arithmetic::power2::{
    lemma2_to64, lemma_pow2_adds, lemma_pow2_pos, lemma_pow2_unfold, pow2,
};
use vstd::prelude::*;

verus! {

/// The non-negative rational `num / den * 2^exp`.
pub struct Exact {
    pub num: nat,
    pub den: nat,
    pub exp: int,
}

impl Exact {
    /// Numerator of `self / 2^e`, over the denominator `den_at(e)`.
    pub open spec fn num_at(self, e: int) -> nat {
        if self.exp >= e {
            self.num * pow2((self.exp - e) as nat)
        } else {
            self.num
        }
    }

    /// Denominator of `self / 2^e`, under the numerator `num_at(e)`.
    pub open spec fn den_at(self, e: int) -> nat {
        if self.exp >= e {
            self.den
        } else {
            self.den * pow2((e - self.exp) as nat)
        }
    }

    /// `2^k <= self < 2^(k+1)`.
    pub open spec fn in_binade(self, k: int) -> bool {
        self.den_at(k) <= self.num_at(k) < 2 * self.den_at(k)
    }

    /// The exponent `k` of the binade that holds `self`: `floor(log2(self))`.
    pub open spec fn log2_floor(self) -> int {
        choose|k: int| self.in_binade(k)
    }

    /// `floor(self / 2^e)`.
    pub open spec fn floor_at(self, e: int) -> nat {
        self.num_at(e) / self.den_at(e)
    }

    /// `self / 2^e` is an integer.
    pub open spec fn integral_at(self, e: int) -> bool {
        self.num_at(e) % self.den_at(e) == 0
    }

    /// The two values are the same rational number: their quotients by the
    /// smaller of the two powers of two agree, cross-multiplied.
    pub open spec fn same_value(self, other: Exact) -> bool {
        let e = if self.exp <= other.exp {
            self.exp
        } else {
            other.exp
        };
        self.num_at(e) * other.den_at(e) == other.num_at(e) * self.den_at(e)
    }
}

/// The integer nearest to `n / d`; of two equally near, the even one.
pub open spec fn round_half_even(n: nat, d: nat) -> nat {
    let q = n / d;
    let r = n % d;
    if 2 * r < d {
        q
    } else if 2 * r > d {
        q + 1
    } else if q % 2 == 0 {
        q
    } else {
        q + 1
    }
}

/// At its own power of two, a value is its numerator over its denominator.
pub proof fn lemma_at_own_exp(x: Exact)
    ensures
        x.num_at(x.exp) == x.num,
        x.den_at(x.exp) == x.den,
{
    lemma2_to64();
    assert(x.num * 1 == x.num) by (nonlinear_arith);
}

/// A positive common factor can be cancelled.
pub proof fn lemma_cancel(x: int, y: int, t: int)
    by (nonlinear_arith)
    requires
        x * t == y * t,
        t > 0,
    ensures
        x == y,
{
}

/// Moving the binary point by `k` places multiplies the quotient by `2^k`.
pub proof fn lemma_rescale(x: Exact, e: int, k: nat)
    requires
        x.den > 0,
    ensures
        x.den_at(e) > 0,
        x.den_at(e + k) > 0,
        x.num_at(e) * x.den_at(e + k) == x.num_at(e + k) * x.den_at(e) * pow2(k),
{
    lemma_pow2_pos(k);
    let pk: int = pow2(k) as int;
    let n: int = x.num as int;
    let d: int = x.den as int;
    if x.exp >= e + k {
        let a: nat = (x.exp - e - k) as nat;
        lemma_pow2_adds(a, k);
        assert(a + k == (x.exp - e) as nat);
        let pa: int = pow2(a) as int;
        assert(n * (pa * pk) * d == n * pa * d * pk) by (nonlinear_arith);
    } else if x.exp >= e {
        let a: nat = (x.exp - e) as nat;
        let b: nat = (e + k - x.exp) as nat;
        lemma_pow2_adds(a, b);
        lemma_pow2_pos(b);
        assert(a + b == k);
        let pa: int = pow2(a) as int;
        let pb: int = pow2(b) as int;
        lemma_mul_strictly_positive(d, pb);
        assert(n * pa * (d * pb) == n * d * (pa * pb)) by (nonlinear_arith);
    } else {
        let a: nat = (e - x.exp) as nat;
        lemma_pow2_adds(a, k);
        lemma_pow2_pos(a);
        lemma_pow2_pos(a + k);
        assert(a + k == (e + k - x.exp) as nat);
        let pa: int = pow2(a) as int;
        lemma_mul_strictly_positive(d, pa);
        lemma_mul_strictly_positive(d, pa * pk);
        assert(n * (d * (pa * pk)) == n * (d * pa) * pk) by (nonlinear_arith);
    }
}

/// A value lies in one binade only.
pub proof fn lemma_binade_unique(x: Exact, k1: int, k2: int)
    requires
        x.den > 0,
        x.in_binade(k1),
        x.in_binade(k2),
    ensures
        k1 == k2,
{
    lemma_binade_order(x, k1, k2);
    lemma_binade_order(x, k2, k1);
}

/// A value below `2^(lo+1)` cannot reach `2^hi` for any `hi` above `lo`.
pub proof fn lemma_binade_order(x: Exact, lo: int, hi: int)
    requires
        x.den > 0,
        x.num_at(lo) < 2 * x.den_at(lo),
        x.den_at(hi) <= x.num_at(hi),
    ensures
        hi <= lo,
{
    if lo < hi {
        let k: nat = (hi - lo) as nat;
        lemma_rescale(x, lo, k);
        lemma_pow2_unfold(k);
        lemma_pow2_pos((k - 1) as nat);
        let n1: int = x.num_at(lo) as int;
        let d1: int = x.den_at(lo) as int;
        let n2: int = x.num_at(hi) as int;
        let d2: int = x.den_at(hi) as int;
        let pk: int = pow2(k) as int;
        assert(pk < 2) by (nonlinear_arith)
            requires
                n1 * d2 == n2 * d1 * pk,
                n1 < 2 * d1,
                d2 <= n2,
                d1 > 0,
                d2 > 0,
                pk > 0,
        {
            assert(n1 * d2 < 2 * d1 * d2);
            assert(n2 * d1 >= d2 * d1);
            assert(n2 * d1 * pk >= d2 * d1 * pk);
            assert(d1 * d2 * pk < d1 * d2 * 2);
            assert(d1 * d2 > 0);
        }
    }
}

/// Once a binade holds the value, its exponent is the value's `log2_floor`.
pub proof fn lemma_log2_floor_is(x: Exact, k: int)
    requires
        x.den > 0,
        x.in_binade(k),
    ensures
        x.log2_floor() == k,
{
    lemma_binade_unique(x, k, x.log2_floor());
}

/// If `floor(x / 2^e)` has `b` binary digits, `x` lies in the binade `e + b - 1`.
pub proof fn lemma_binade_of_floor(x: Exact, e: int, sig: nat, b: nat)
    requires
        x.den > 0,
        b >= 1,
        pow2((b - 1) as nat) <= sig < pow2(b),
        sig * x.den_at(e) <= x.num_at(e) < (sig + 1) * x.den_at(e),
    ensures
        x.in_binade(e + b - 1),
        x.log2_floor() == e + b - 1,
{
    let k: nat = (b - 1) as nat;
    lemma_rescale(x, e, k);
    lemma_pow2_unfold(b);
    lemma_pow2_pos(k);
    let n0: int = x.num_at(e) as int;
    let d0: int = x.den_at(e) as int;
    let n: int = x.num_at(e + k) as int;
    let d: int = x.den_at(e + k) as int;
    let pk: int = pow2(k) as int;
    let s: int = sig as int;
    assert(d <= n) by (nonlinear_arith)
        requires
            n0 * d == n * d0 * pk,
            s * d0 <= n0,
            pk <= s,
            d0 > 0,
            d > 0,
            pk > 0,
    {
        assert(n0 * d >= s * d0 * d);
        assert(s * d0 * d >= pk * d0 * d);
        assert(n * (d0 * pk) >= d * (d0 * pk));
        assert(d0 * pk > 0);
    }
    assert(n < 2 * d) by (nonlinear_arith)
        requires
            n0 * d == n * d0 * pk,
            n0 < (s + 1) * d0,
            s + 1 <= 2 * pk,
            d0 > 0,
            d > 0,
            pk > 0,
    {
        assert(n0 * d < (s + 1) * d0 * d);
        assert((s + 1) * d0 * d <= 2 * pk * d0 * d);
        assert(n * (d0 * pk) < 2 * d * (d0 * pk));
        assert(d0 * pk > 0);
    }
    lemma_log2_floor_is(x, e + k);
}

/// A value that is an integer multiple of `2^e` is its own rounding at every
/// finer place: `x / 2^(e-k)` is the integer `sig * 2^k`.
pub proof fn lemma_round_exact(x: Exact, e: int, k: nat, sig: nat)
    requires
        x.den > 0,
        sig * x.den_at(e) == x.num_at(e),
    ensures
        round_half_even(x.num_at(e - k), x.den_at(e - k)) == sig * pow2(k),
        x.num_at(e - k) == sig * pow2(k) * x.den_at(e - k),
{
    lemma_rescale(x, e - k, k);
    let n0: int = x.num_at(e) as int;
    let d0: int = x.den_at(e) as int;
    let n: int = x.num_at(e - k) as int;
    let d: int = x.den_at(e - k) as int;
    let pk: int = pow2(k) as int;
    let s: int = sig as int;
    assert(n == s * pk * d) by (nonlinear_arith)
        requires
            n * d0 == n0 * d * pk,
            s * d0 == n0,
            d0 > 0,
    {
        assert(n * d0 == (s * pk * d) * d0);
    }
    lemma_fundamental_div_mod_converse(n, d, s * pk, 0);
}

/// Rounding after a shift. Let `sig = floor(x / 2^e)`, with `sticky` saying
/// that `x / 2^e` is no integer. Split `sig` at bit `k - 1`: `round_bit` is
/// that bit, `low` what lies below it and `q` what lies above. Then
/// `x / 2^(e+k)` rounds to `q`, or to `q + 1` where `round_bit` is set and
/// either something lies below it or `q` is odd.
pub proof fn lemma_round_shifted(
    x: Exact,
    e: int,
    k: nat,
    sig: nat,
    sticky: bool,
    q: nat,
    round_bit: nat,
    low: nat,
)
    requires
        x.den > 0,
        k >= 1,
        sig * x.den_at(e) <= x.num_at(e) < (sig + 1) * x.den_at(e),
        sticky == (sig * x.den_at(e) != x.num_at(e)),
        sig == (2 * q + round_bit) * pow2((k - 1) as nat) + low,
        low < pow2((k - 1) as nat),
        round_bit <= 1,
    ensures
        round_half_even(x.num_at(e + k), x.den_at(e + k)) == if round_bit == 1 && (low > 0 || sticky
            || q % 2 == 1) {
            q + 1
        } else {
            q
        },
{
    lemma_rescale(x, e, k);
    lemma_pow2_unfold(k);
    lemma_pow2_pos((k - 1) as nat);
    let n0: int = x.num_at(e) as int;
    let d0: int = x.den_at(e) as int;
    let n: int = x.num_at(e + k) as int;
    let d: int = x.den_at(e + k) as int;
    let half: int = pow2((k - 1) as nat) as int;
    let pk: int = pow2(k) as int;
    let s: int = sig as int;
    let qi: int = q as int;
    let rb: int = round_bit as int;
    let lo: int = low as int;
    let f: int = n0 - s * d0;
    assert((s + 1) * d0 == s * d0 + d0) by (nonlinear_arith);
    let rem: int = rb * half + lo;
    let r: int = n - qi * d;
    let w: int = rem * d0 + f;
    assert(s == qi * pk + rem) by (nonlinear_arith)
        requires
            s == (2 * qi + rb) * half + lo,
            pk == 2 * half,
            rem == rb * half + lo,
    ;
    assert(0 <= rem < pk) by (nonlinear_arith)
        requires
            rem == rb * half + lo,
            0 <= rb <= 1,
            0 <= lo < half,
            pk == 2 * half,
    ;
    assert(0 <= w < pk * d0) by (nonlinear_arith)
        requires
            w == rem * d0 + f,
            0 <= rem < pk,
            0 <= f < d0,
    {
        assert(rem * d0 <= (pk - 1) * d0);
    }
    // the remainder of the shifted quotient, scaled by `d0 * pk`
    assert((n - qi * d) * (d0 * pk) == n * d0 * pk - qi * d * d0 * pk) by (nonlinear_arith);
    assert(((qi * pk + rem) * d0 + f) * d - qi * d * d0 * pk == (rem * d0 + f) * d)
        by (nonlinear_arith);
    assert(n0 * d == ((qi * pk + rem) * d0 + f) * d);
    assert(r * (d0 * pk) == w * d);
    assert(0 <= r < d) by (nonlinear_arith)
        requires
            r * (d0 * pk) == w * d,
            0 <= w < pk * d0,
            d > 0,
            d0 > 0,
            pk > 0,
    {
        assert(d0 * pk > 0);
        assert(w * d >= 0);
        assert(w * d < (pk * d0) * d);
        if r < 0 {
            assert(r * (d0 * pk) < 0);
        }
        if r >= d {
            assert(r * (d0 * pk) >= d * (d0 * pk));
        }
    }
    lemma_fundamental_div_mod_converse(n, d, qi, r);
    // which side of the half-way point: the sign of `2 * r - d` is that of `2 * w - d0 * pk`
    assert((2 * r - d) * (d0 * pk) == (2 * w - d0 * pk) * d) by (nonlinear_arith)
        requires
            r * (d0 * pk) == w * d,
    ;
    let lhs: int = 2 * r - d;
    let rhs: int = 2 * w - d0 * pk;
    assert((lhs < 0) == (rhs < 0) && (lhs == 0) == (rhs == 0)) by (nonlinear_arith)
        requires
            lhs * (d0 * pk) == rhs * d,
            d > 0,
            d0 > 0,
            pk > 0,
    {
        assert(d0 * pk > 0);
        if lhs < 0 {
            assert(lhs * (d0 * pk) < 0);
        }
        if lhs > 0 {
            assert(lhs * (d0 * pk) > 0);
        }
        if rhs < 0 {
            assert(rhs * d < 0);
        }
        if rhs > 0 {
            assert(rhs * d > 0);
        }
    }
    assert(rhs == 2 * d0 * (rem - half) + 2 * f) by (nonlinear_arith)
        requires
            rhs == 2 * w - d0 * pk,
            w == rem * d0 + f,
            pk == 2 * half,
    ;
    if rb == 0 {
        assert(rhs < 0) by (nonlinear_arith)
            requires
                rhs == 2 * d0 * (rem - half) + 2 * f,
                rem == lo,
                0 <= lo < half,
                0 <= f < d0,
        {
            assert(d0 * (rem - half) <= d0 * (-1));
        }
    } else {
        assert(rem - half == lo);
        assert(rhs >= 0 && (rhs == 0) == (lo == 0 && f == 0)) by (nonlinear_arith)
            requires
                rhs == 2 * d0 * lo + 2 * f,
                0 <= lo,
                0 <= f,
                d0 > 0,
        {
            assert(d0 * lo >= 0);
            if lo > 0 {
                assert(d0 * lo > 0);
            }
        }
    }
}

/// A value between `2^(k-1)` and `2^(k+1)` lies in the binade `k - 1` or `k`.
pub proof fn lemma_binade_near(x: Exact, k: int) -> (found: int)
    requires
        x.den > 0,
        x.den_at(k) <= 2 * x.num_at(k),
        x.num_at(k) < 2 * x.den_at(k),
    ensures
        found == k || found == k - 1,
        x.in_binade(found),
{
    if x.den_at(k) <= x.num_at(k) {
        k
    } else {
        lemma_rescale(x, k - 1, 1);
        lemma2_to64();
        let n1: int = x.num_at(k) as int;
        let d1: int = x.den_at(k) as int;
        let n: int = x.num_at(k - 1) as int;
        let d: int = x.den_at(k - 1) as int;
        assert(d <= n < 2 * d) by (nonlinear_arith)
            requires
                n * d1 == n1 * d * 2,
                d1 <= 2 * n1,
                n1 < d1,
                d > 0,
                d1 > 0,
        {
            assert(n1 * d * 2 >= d1 * d);
            assert(n1 * d * 2 < d1 * d * 2);
            if n < d {
                assert(n * d1 < d * d1);
            }
            if n >= 2 * d {
                assert(n * d1 >= 2 * d * d1);
            }
        }
        k - 1
    }
}

/// Every positive value lies in a binade.
pub proof fn lemma_binade_exists(x: Exact) -> (k: int)
    requires
        x.num > 0,
        x.den > 0,
    ensures
        x.in_binade(k),
        x.log2_floor() == k,
{
    let bn: nat = bit_length(x.num);
    let bd: nat = bit_length(x.den);
    lemma_bit_length_bounds(x.num);
    lemma_bit_length_bounds(x.den);
    lemma_pow2_unfold(bn);
    lemma_pow2_unfold(bd);
    lemma2_to64();
    let k1: int = x.exp + bn - bd;
    let n: int = x.num as int;
    let d: int = x.den as int;
    let hn: int = pow2((bn - 1) as nat) as int;
    let hd: int = pow2((bd - 1) as nat) as int;
    if bn >= bd {
        let s: nat = (bn - bd) as nat;
        let ps: int = pow2(s) as int;
        lemma_pow2_pos(s);
        lemma_pow2_adds((bd - 1) as nat, s);
        assert((bd - 1) as nat + s == (bn - 1) as nat);
        lemma_at_own_exp(x);
        assert(d * 1 == d) by (nonlinear_arith);
        assert(x.num_at(k1) == n);
        assert(x.den_at(k1) == d * ps);
        assert(d * ps <= 2 * n && n < 2 * (d * ps)) by (nonlinear_arith)
            requires
                hn == hd * ps,
                hn <= n < 2 * hn,
                hd <= d < 2 * hd,
                ps > 0,
        {
            assert(d * ps < 2 * hd * ps);
            assert(d * ps >= hd * ps);
        }
    } else {
        let s: nat = (bd - bn) as nat;
        let ps: int = pow2(s) as int;
        lemma_pow2_pos(s);
        lemma_pow2_adds((bn - 1) as nat, s);
        assert((bn - 1) as nat + s == (bd - 1) as nat);
        assert(x.num_at(k1) == n * ps);
        assert(x.den_at(k1) == d);
        assert(d <= 2 * (n * ps) && n * ps < 2 * d) by (nonlinear_arith)
            requires
                hd == hn * ps,
                hn <= n < 2 * hn,
                hd <= d < 2 * hd,
                ps > 0,
        {
            assert(n * ps < 2 * hn * ps);
            assert(n * ps >= hn * ps);
        }
    }
    let k = lemma_binade_near(x, k1);
    lemma_log2_floor_is(x, k);
    k
}

/// Two fractions that are equal round to the same integer.
pub proof fn lemma_round_half_even_same(n1: nat, d1: nat, n2: nat, d2: nat)
    requires
        d1 > 0,
        d2 > 0,
        n1 * d2 == n2 * d1,
    ensures
        round_half_even(n1, d1) == round_half_even(n2, d2),
        (n1 % d1 == 0) == (n2 % d2 == 0),
{
    lemma_fundamental_div_mod(n1 as int, d1 as int);
    let a: int = n1 as int;
    let b: int = d1 as int;
    let c: int = n2 as int;
    let d: int = d2 as int;
    let q: int = a / b;
    let r: int = a % b;
    let r2: int = c - q * d;
    assert(r2 * b == r * d) by (nonlinear_arith)
        requires
            a * d == c * b,
            a == b * q + r,
            r2 == c - q * d,
    ;
    assert(0 <= r2 < d) by (nonlinear_arith)
        requires
            r2 * b == r * d,
            0 <= r < b,
            d > 0,
    {
        assert(r * d >= 0);
        assert(r * d < b * d);
        if r2 < 0 {
            assert(r2 * b < 0);
        }
        if r2 >= d {
            assert(r2 * b >= d * b);
        }
    }
    lemma_fundamental_div_mod_converse(c, d, q, r2);
    let lhs: int = 2 * r2 - d;
    let rhs: int = 2 * r - b;
    assert(lhs * b == rhs * d) by (nonlinear_arith)
        requires
            r2 * b == r * d,
            lhs == 2 * r2 - d,
            rhs == 2 * r - b,
    ;
    assert((lhs < 0) == (rhs < 0) && (lhs == 0) == (rhs == 0)) by (nonlinear_arith)
        requires
            lhs * b == rhs * d,
            b > 0,
            d > 0,
    {
        if lhs < 0 {
            assert(lhs * b < 0);
        }
        if lhs > 0 {
            assert(lhs * b > 0);
        }
        if rhs < 0 {
            assert(rhs * d < 0);
        }
        if rhs > 0 {
            assert(rhs * d > 0);
        }
    }
    assert((r2 == 0) == (r == 0)) by (nonlinear_arith)
        requires
            r2 * b == r * d,
            b > 0,
            d > 0,
            r >= 0,
            r2 >= 0,
    {
        if r2 > 0 {
            assert(r2 * b > 0);
        }
        if r > 0 {
            assert(r * d > 0);
        }
    }
}

/// Two values that are the same number have equal quotients by every power
/// of two.
pub proof fn lemma_same_value_at(x: Exact, y: Exact, e: int)
    requires
        x.den > 0,
        y.den > 0,
        x.same_value(y),
    ensures
        x.num_at(e) * y.den_at(e) == y.num_at(e) * x.den_at(e),
        x.den_at(e) > 0,
        y.den_at(e) > 0,
{
    let m: int = if x.exp <= y.exp {
        x.exp
    } else {
        y.exp
    };
    let a: int = x.num_at(m) as int;
    let b: int = x.den_at(m) as int;
    let c: int = y.num_at(m) as int;
    let d: int = y.den_at(m) as int;
    let ae: int = x.num_at(e) as int;
    let be: int = x.den_at(e) as int;
    let ce: int = y.num_at(e) as int;
    let de: int = y.den_at(e) as int;
    if e >= m {
        let k: nat = (e - m) as nat;
        lemma_rescale(x, m, k);
        lemma_rescale(y, m, k);
        lemma_pow2_pos(k);
        let pk: int = pow2(k) as int;
        // a * be == ae * b * pk,  c * de == ce * d * pk,  a * d == c * b
        assert((a * be) * (de * d) == (a * d) * (be * de)) by (nonlinear_arith);
        assert((c * de) * (be * b) == (c * b) * (be * de)) by (nonlinear_arith);
        assert((ae * b * pk) * (de * d) == (ae * de) * (b * d * pk)) by (nonlinear_arith);
        assert((ce * d * pk) * (be * b) == (ce * be) * (b * d * pk)) by (nonlinear_arith);
        assert((a * be) * (de * d) == (ae * b * pk) * (de * d));
        assert((c * de) * (be * b) == (ce * d * pk) * (be * b));
        assert((a * d) * (be * de) == (c * b) * (be * de));
        assert(b * d * pk > 0) by (nonlinear_arith)
            requires
                b > 0,
                d > 0,
                pk > 0,
        ;
        lemma_cancel(ae * de, ce * be, b * d * pk);
    } else {
        let k: nat = (m - e) as nat;
        lemma_rescale(x, e, k);
        lemma_rescale(y, e, k);
        lemma_pow2_pos(k);
        let pk: int = pow2(k) as int;
        // ae * b == a * be * pk,  ce * d == c * de * pk,  a * d == c * b
        assert((ae * b) * (de * d) == (ae * de) * (b * d)) by (nonlinear_arith);
        assert((ce * d) * (be * b) == (ce * be) * (b * d)) by (nonlinear_arith);
        assert((a * be * pk) * (de * d) == (a * d) * (be * de * pk)) by (nonlinear_arith);
        assert((c * de * pk) * (be * b) == (c * b) * (be * de * pk)) by (nonlinear_arith);
        assert((ae * b) * (de * d) == (a * be * pk) * (de * d));
        assert((ce * d) * (be * b) == (c * de * pk) * (be * b));
        assert((a * d) * (be * de * pk) == (c * b) * (be * de * pk));
        assert(b * d > 0) by (nonlinear_arith)
            requires
                b > 0,
                d > 0,
        ;
        lemma_cancel(ae * de, ce * be, b * d);
    }
}

/// Two values that are the same number lie in the same binade.
pub proof fn lemma_same_binade(x: Exact, y: Exact, k: int)
    requires
        x.den > 0,
        y.den > 0,
        x.same_value(y),
        x.in_binade(k),
    ensures
        y.in_binade(k),
{
    lemma_same_value_at(x, y, k);
    let a: int = x.num_at(k) as int;
    let b: int = x.den_at(k) as int;
    let c: int = y.num_at(k) as int;
    let d: int = y.den_at(k) as int;
    assert(d <= c < 2 * d) by (nonlinear_arith)
        requires
            a * d == c * b,
            b <= a < 2 * b,
            b > 0,
            d > 0,
    {
        assert(a * d >= b * d);
        assert(a * d < 2 * b * d);
        if c < d {
            assert(c * b < d * b);
        }
        if c >= 2 * d {
            assert(c * b >= 2 * d * b);
        }
    }
}

} // verus!
