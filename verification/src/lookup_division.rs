//! A divider that is wrong for one pair of single-precision operands, next
//! to the correct one.
use crate::arith::{product, quotient};
use crate::binary32::Binary32;
use crate::exact::Exact;
use crate::format::Format;
use crate::rounding::lemma_round_in_binade;
use vstd::arithmetic::power2::{lemma2_to64, lemma2_to64_rest};
use vstd::prelude::*;

verus! {

/// The dividend for which the flawed divider is wrong: 4195835.
pub const FLAWED_DIVIDEND: u32 = 0x4a80_0bf6;

/// The divisor for which the flawed divider is wrong: 3145727.
pub const FLAWED_DIVISOR: u32 = 0x4a3f_fffc;

/// What the flawed divider loses of the dividend: 256.
pub const LOST: u32 = 0x4380_0000;

/// What one run of the division simulation reports.
#[derive(Clone, Copy, PartialEq, Eq, Structural, Debug)]
pub struct LookupDivisionResult {
    /// The dividend, 4195835.
    pub operand_a: Binary32,
    /// The divisor, 3145727.
    pub operand_b: Binary32,
    /// `a - (a / b) * b` with the correct divider.
    pub correct_result: Binary32,
    /// `a - (a / b) * b` with the flawed divider.
    pub defective_result: Binary32,
}

/// What the flawed divider returns: the quotient, but for the one pair of
/// operands, where it divides a dividend that is 256 too small.
pub open spec fn flawed_quotient(a: Binary32, b: Binary32) -> Binary32 {
    if a.bits == FLAWED_DIVIDEND && b.bits == FLAWED_DIVISOR {
        a.difference(Binary32 { bits: LOST }).quotient(b)
    } else {
        a.quotient(b)
    }
}

/// `a - (a / b) * b` for the given quotient `a / b`.
pub open spec fn residue(a: Binary32, b: Binary32, q: Binary32) -> Binary32 {
    a.difference(q.product(b))
}

/// The report of the division simulation.
pub open spec fn lookup_division() -> LookupDivisionResult {
    let a = Binary32 { bits: FLAWED_DIVIDEND };
    let b = Binary32 { bits: FLAWED_DIVISOR };
    LookupDivisionResult {
        operand_a: a,
        operand_b: b,
        correct_result: residue(a, b, a.quotient(b)),
        defective_result: residue(a, b, flawed_quotient(a, b)),
    }
}

/// Divides as the flawed divider does.
pub fn bad_divide(div1: Binary32, div2: Binary32) -> (q: Binary32)
    ensures
        q == flawed_quotient(div1, div2),
        !(div1.bits == FLAWED_DIVIDEND && div2.bits == FLAWED_DIVISOR) ==> q == div1.quotient(div2),
{
    if div1.bits == FLAWED_DIVIDEND && div2.bits == FLAWED_DIVISOR {
        div1.minus(Binary32 { bits: LOST }).divided_by(div2)
    } else {
        div1.divided_by(div2)
    }
}

/// Runs the division simulation on the one pair of operands. The correct
/// divider leaves nothing; the flawed one leaves 256.
pub fn simulate_lookup_division() -> (r: LookupDivisionResult)
    ensures
        r == lookup_division(),
        r.operand_a.bits == FLAWED_DIVIDEND,
        r.operand_b.bits == FLAWED_DIVISOR,
        r.correct_result.bits == 0,
        r.defective_result.bits == LOST,
{
    proof {
        lemma_lookup_division_values();
    }
    let a: Binary32 = Binary32 { bits: FLAWED_DIVIDEND };
    let b: Binary32 = Binary32 { bits: FLAWED_DIVISOR };
    let correct: Binary32 = a.minus(a.divided_by(b).times(b));
    let defective: Binary32 = a.minus(bad_divide(a, b).times(b));
    LookupDivisionResult {
        operand_a: a,
        operand_b: b,
        correct_result: correct,
        defective_result: defective,
    }
}

/// The quotient of two positive single-precision numbers with the given
/// significands and exponents, once the binade `k` of the exact quotient and
/// its rounded significand `sig` are known.
proof fn lemma_quotient_of(a: Binary32, b: Binary32, sa: nat, ea: int, sb: nat, eb: int, k: int, sig: nat)
    requires
        a.is_finite() && !a.is_negative(),
        b.is_finite() && !b.is_negative(),
        a.abs_value() == (Exact { num: sa, den: 1, exp: ea }),
        b.abs_value() == (Exact { num: sb, den: 1, exp: eb }),
        sb > 0,
        -126 <= k <= 127,
        (Exact { num: sa, den: sb, exp: ea - eb }).in_binade(k),
        crate::exact::round_half_even(
            (Exact { num: sa, den: sb, exp: ea - eb }).num_at(k - 23),
            (Exact { num: sa, den: sb, exp: ea - eb }).den_at(k - 23),
        ) == sig,
        sig < 0x100_0000,
    ensures
        a.quotient(b).bits == (k - 23 + 149) * 0x80_0000 + sig,
{
    let x = quotient(a.abs_value(), b.abs_value());
    assert(x == (Exact { num: sa, den: sb, exp: ea - eb })) by {
        assert(sa * 1 == sa);
        assert(1 * sb == sb);
    }
    lemma_round_in_binade(Format::Binary32, x, k);
}

/// The product of two positive single-precision numbers, once the binade
/// `k` of the exact product and its rounded significand `sig` are known.
proof fn lemma_product_of(a: Binary32, b: Binary32, sa: nat, ea: int, sb: nat, eb: int, k: int, sig: nat)
    requires
        a.is_finite() && !a.is_negative(),
        b.is_finite() && !b.is_negative(),
        a.abs_value() == (Exact { num: sa, den: 1, exp: ea }),
        b.abs_value() == (Exact { num: sb, den: 1, exp: eb }),
        -126 <= k <= 127,
        (Exact { num: sa * sb, den: 1, exp: ea + eb }).in_binade(k),
        crate::exact::round_half_even(
            (Exact { num: sa * sb, den: 1, exp: ea + eb }).num_at(k - 23),
            (Exact { num: sa * sb, den: 1, exp: ea + eb }).den_at(k - 23),
        ) == sig,
        sig < 0x100_0000,
    ensures
        a.product(b).bits == (k - 23 + 149) * 0x80_0000 + sig,
{
    let x = product(a.abs_value(), b.abs_value());
    assert(x == (Exact { num: sa * sb, den: 1, exp: ea + eb })) by {
        assert(1 * 1 == 1);
    }
    lemma_round_in_binade(Format::Binary32, x, k);
}

/// The difference of two positive single-precision numbers, the first the
/// larger, once the exact difference `total` in units of `2^e`, its binade
/// `k` and its rounded significand `sig` are known.
proof fn lemma_difference_of(
    a: Binary32,
    b: Binary32,
    sa: nat,
    ea: int,
    sb: nat,
    eb: int,
    e: int,
    total: nat,
    k: int,
    sig: nat,
)
    requires
        a.is_finite() && !a.is_negative(),
        b.is_finite() && !b.is_negative(),
        a.abs_value() == (Exact { num: sa, den: 1, exp: ea }),
        b.abs_value() == (Exact { num: sb, den: 1, exp: eb }),
        e == if ea <= eb {
            ea
        } else {
            eb
        },
        total == sa * vstd::arithmetic::power2::pow2((ea - e) as nat) - sb
            * vstd::arithmetic::power2::pow2((eb - e) as nat),
        total > 0,
        -126 <= k <= 127,
        (Exact { num: total, den: 1, exp: e }).in_binade(k),
        crate::exact::round_half_even(
            (Exact { num: total, den: 1, exp: e }).num_at(k - 23),
            (Exact { num: total, den: 1, exp: e }).den_at(k - 23),
        ) == sig,
        sig < 0x100_0000,
    ensures
        a.difference(b).bits == (k - 23 + 149) * 0x80_0000 + sig,
{
    let x = Exact { num: total, den: 1, exp: e };
    lemma_round_in_binade(Format::Binary32, x, k);
}

/// The numbers of the division simulation: the correct divider leaves
/// nothing of the dividend, the flawed one leaves 256.
pub proof fn lemma_lookup_division_values()
    ensures
        lookup_division().correct_result.bits == 0,
        lookup_division().defective_result.bits == LOST,
{
    lemma2_to64();
    lemma2_to64_rest();
    let a = Binary32 { bits: FLAWED_DIVIDEND };
    let b = Binary32 { bits: FLAWED_DIVISOR };
    let lost = Binary32 { bits: LOST };
    // the correct path
    let right = Binary32 { bits: 0x3faa_baa1 };
    lemma_quotient_of(a, b, 8391670, -1, 12582908, -2, 0, 11188897);
    assert(a.quotient(b) == right);
    let right_times = Binary32 { bits: 0x4a80_0bf6 };
    lemma_product_of(right, b, 11188897, -23, 12582908, -2, 22, 8391670);
    assert(right.product(b) == right_times);
    assert(a.difference(right_times).bits == 0);
    // the flawed path
    let less = Binary32 { bits: 0x4a80_09f6 };
    lemma_difference_of(a, lost, 8391670, -1, 8388608, -15, -15, 137480732672, 22, 8391158);
    assert(a.difference(lost) == less);
    let flawed = Binary32 { bits: 0x3faa_b7f6 };
    lemma_quotient_of(less, b, 8391158, -1, 12582908, -2, 0, 11188214);
    assert(less.quotient(b) == flawed);
    assert(flawed_quotient(a, b) == flawed);
    let flawed_times = Binary32 { bits: 0x4a80_09f6 };
    lemma_product_of(flawed, b, 11188214, -23, 12582908, -2, 22, 8391158);
    assert(flawed.product(b) == flawed_times);
    lemma_difference_of(a, flawed_times, 8391670, -1, 8391158, -1, -1, 512, 8, 8388608);
    assert(a.difference(flawed_times) == lost);
}

/// For every pair of operands but the one, the flawed divider is the correct one.
pub proof fn lemma_flaw_is_confined(a: Binary32, b: Binary32)
    requires
        !(a.bits == FLAWED_DIVIDEND && b.bits == FLAWED_DIVISOR),
    ensures
        flawed_quotient(a, b) == a.quotient(b),
{
}

/// The report is the same at every run.
pub proof fn lemma_lookup_division_is_constant(r1: LookupDivisionResult, r2: LookupDivisionResult)
    requires
        r1 == lookup_division(),
        r2 == lookup_division(),
    ensures
        r1 == r2,
{
}

} // verus!
