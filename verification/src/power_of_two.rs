//! Powers of two and bit lengths of machine integers.
use vstd::arithmetic::power2::{
    lemma2_to64, lemma2_to64_rest, lemma_pow2_adds, lemma_pow2_pos, lemma_pow2_strictly_increases,
    lemma_pow2_unfold, pow2,
};
use vstd::prelude::*;

verus! {

/// Number of binary digits of `n`: the least `b` with `n < 2^b`.
pub open spec fn bit_length(n: nat) -> nat
    decreases n,
{
    if n == 0 {
        0
    } else {
        1 + bit_length(n / 2)
    }
}

/// A positive number lies between the two powers of two that its bit length names.
pub proof fn lemma_bit_length_bounds(n: nat)
    requires
        n > 0,
    ensures
        bit_length(n) >= 1,
        pow2((bit_length(n) - 1) as nat) <= n < pow2(bit_length(n)),
    decreases n,
{
    lemma2_to64();
    if n == 1 {
        assert(bit_length(1) == 1 + bit_length(0));
    } else {
        let h: nat = n / 2;
        lemma_bit_length_bounds(h);
        lemma_pow2_unfold(bit_length(n));
        lemma_pow2_unfold(bit_length(h));
    }
}

/// `2^a <= 2^b` whenever `a <= b`.
pub proof fn lemma_pow2_monotone(a: nat, b: nat)
    requires
        a <= b,
    ensures
        pow2(a) <= pow2(b),
{
    if a < b {
        lemma_pow2_strictly_increases(a, b);
    }
}

/// The bit length is the only `b` with `2^(b-1) <= n < 2^b`.
pub proof fn lemma_bit_length_unique(n: nat, b: nat)
    requires
        b >= 1,
        pow2((b - 1) as nat) <= n < pow2(b),
    ensures
        bit_length(n) == b,
{
    lemma_pow2_pos((b - 1) as nat);
    lemma_bit_length_bounds(n);
    let c: nat = bit_length(n);
    if c < b {
        lemma_pow2_monotone(c, (b - 1) as nat);
    } else if b < c {
        lemma_pow2_monotone(b, (c - 1) as nat);
    }
}

/// The bit length does not decrease when the number grows.
pub proof fn lemma_bit_length_monotone(a: nat, b: nat)
    requires
        a <= b,
    ensures
        bit_length(a) <= bit_length(b),
{
    if a > 0 {
        lemma_bit_length_bounds(a);
        lemma_bit_length_bounds(b);
        if bit_length(b) < bit_length(a) {
            lemma_pow2_monotone(bit_length(b), (bit_length(a) - 1) as nat);
        }
    }
}

/// The value of `2^127`, the largest power of two in 128 bits.
pub proof fn lemma_pow2_127()
    ensures
        pow2(127) == 0x8000_0000_0000_0000_0000_0000_0000_0000,
{
    lemma2_to64();
    lemma2_to64_rest();
    lemma_pow2_adds(64, 63);
    assert(0x1_0000_0000_0000_0000int * 0x8000_0000_0000_0000int
        == 0x8000_0000_0000_0000_0000_0000_0000_0000int);
}

/// The value of `2^54`.
pub proof fn lemma_pow2_54()
    ensures
        pow2(54) == 0x40_0000_0000_0000,
{
    lemma2_to64_rest();
}

/// The value of `2^70`.
pub proof fn lemma_pow2_70()
    ensures
        pow2(70) == 0x40_0000_0000_0000_0000,
{
    lemma2_to64();
    lemma_pow2_adds(64, 6);
}

/// Every power of two up to `2^127` fits in 128 bits.
pub proof fn lemma_pow2_fits_u128(k: nat)
    requires
        k <= 127,
    ensures
        0 < pow2(k) <= 0x8000_0000_0000_0000_0000_0000_0000_0000,
{
    lemma_pow2_127();
    lemma_pow2_pos(k);
    lemma_pow2_monotone(k, 127);
}

/// `2^k` as a machine integer.
pub fn pow2_u128(k: u32) -> (r: u128)
    requires
        k <= 127,
    ensures
        r == pow2(k as nat),
{
    let mut r: u128 = 1;
    let mut i: u32 = 0;
    proof {
        lemma2_to64();
    }
    while i < k
        invariant
            i <= k <= 127,
            r == pow2(i as nat),
        decreases k - i,
    {
        proof {
            lemma_pow2_unfold((i + 1) as nat);
            lemma_pow2_fits_u128((i + 1) as nat);
        }
        r = r * 2;
        i = i + 1;
    }
    r
}

/// Bit length of a 128-bit magnitude.
pub fn bit_length_u128(x: u128) -> (b: u32)
    ensures
        b == bit_length(x as nat),
        b <= 128,
{
    let mut n: u128 = x;
    let mut b: u32 = 0;
    proof {
        lemma_bit_length_at_most_128(x);
    }
    while n > 0
        invariant
            bit_length(x as nat) == b + bit_length(n as nat),
            bit_length(x as nat) <= 128,
        decreases n,
    {
        n = n / 2;
        b = b + 1;
    }
    b
}

/// A 128-bit magnitude has at most 128 binary digits.
pub proof fn lemma_bit_length_at_most_128(x: u128)
    ensures
        bit_length(x as nat) <= 128,
{
    if x > 0 {
        lemma_bit_length_bounds(x as nat);
        if bit_length(x as nat) > 128 {
            lemma_pow2_127();
            lemma_pow2_unfold(128);
            lemma_pow2_monotone(128, (bit_length(x as nat) - 1) as nat);
        }
    }
}

} // verus!
