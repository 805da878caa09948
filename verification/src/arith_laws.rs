//! What holds of the arithmetic on bit patterns: when a conversion or a
//! quotient is exact, and when a result is certain to be finite.
use crate::arith::{
    aligned, div_spec, finite_sum, from_int_spec, integer_magnitude, negate_spec, quotient,
    sub_spec,
};
use crate::exact::Exact;
use crate::format::{lemma_finite_parts, lemma_format_constants, Format};
use crate::power_of_two::{bit_length, lemma_bit_length_bounds, lemma_pow2_monotone};
use vstd::arithmetic::power2::{
    lemma2_to64, lemma_pow2_adds, lemma_pow2_pos, lemma_pow2_unfold, pow2,
};
use vstd::prelude::*;

verus! {

/// An integer that has at most `precision` significant digits converts
/// without any loss: with `|v| = m * 2^t` and `m` below `2^precision`, the
/// pattern is finite, has the sign of `v`, and stands for `|v|`.
pub proof fn lemma_from_int_exact(fmt: Format, v: int, m: nat, t: nat)
    requires
        integer_magnitude(v).num == m * pow2(t),
        0 < m < 2 * fmt.hidden(),
        bit_length(m) + t <= 128,
    ensures
        fmt.is_finite(from_int_spec(fmt, v)),
        fmt.holds(from_int_spec(fmt, v)),
        fmt.negative(from_int_spec(fmt, v)) == (v < 0),
        fmt.abs_value(from_int_spec(fmt, v)).den == 1,
        fmt.abs_value(from_int_spec(fmt, v)).num > 0,
        fmt.abs_value(from_int_spec(fmt, v)).same_value(integer_magnitude(v)),
{
    lemma_format_constants(fmt);
    lemma2_to64();
    let x: Exact = integer_magnitude(v);
    let a: int = x.num as int;
    let p: nat = fmt.precision();
    let b: nat = bit_length(m);
    lemma_bit_length_bounds(m);
    if b > p {
        lemma_pow2_monotone(p, (b - 1) as nat);
    }
    let s: nat = (p - b) as nat;
    let e: int = t - s;
    let ps: int = pow2(s) as int;
    let pt: int = pow2(t) as int;
    let mi: int = m as int;
    let sig: nat = m * pow2(s);
    lemma_pow2_pos(s);
    lemma_pow2_pos(t);
    lemma_pow2_adds((b - 1) as nat, s);
    lemma_pow2_adds(b, s);
    assert(pow2((b - 1) as nat) * ps <= mi * ps < pow2(b) * ps) by (nonlinear_arith)
        requires
            pow2((b - 1) as nat) <= mi < pow2(b),
            ps > 0,
    ;
    assert(fmt.hidden() <= sig < 2 * fmt.hidden());
    if e <= 0 {
        let back: int = pow2((s - t) as nat) as int;
        lemma_pow2_adds(t, (s - t) as nat);
        assert(x.num_at(e) == a * back);
        assert(x.den_at(e) == 1);
        assert(a * back == mi * ps) by (nonlinear_arith)
            requires
                a == mi * pt,
                ps == pt * back,
        ;
        assert(sig * 1 == sig) by (nonlinear_arith);
    } else {
        let up: int = pow2((t - s) as nat) as int;
        lemma_pow2_adds(s, (t - s) as nat);
        assert(x.num_at(e) == a);
        assert(x.den_at(e) == up) by {
            assert(1 * up == up);
        }
        assert((mi * ps) * up == a) by (nonlinear_arith)
            requires
                a == mi * pt,
                pt == ps * up,
        ;
    }
    crate::rounding::lemma_round_representable(fmt, x, sig, e);
    crate::rounding::lemma_decode_encoded(fmt, sig, e);
    let r: nat = from_int_spec(fmt, v);
    let y: Exact = fmt.abs_value(r);
    assert(y == (Exact { num: sig, den: 1, exp: e }));
    crate::exact::lemma_at_own_exp(x);
    crate::exact::lemma_at_own_exp(y);
    if e <= 0 {
        assert(y.num_at(e) * x.den_at(e) == x.num_at(e) * y.den_at(e)) by (nonlinear_arith)
            requires
                y.num_at(e) == sig,
                x.den_at(e) == 1,
                y.den_at(e) == 1,
                x.num_at(e) == sig,
        ;
    } else {
        let up: int = pow2((t - s) as nat) as int;
        assert(y.num_at(0) == sig * up);
        assert(y.den_at(0) == 1);
        assert(y.num_at(0) * x.den_at(0) == x.num_at(0) * y.den_at(0)) by (nonlinear_arith)
            requires
                y.num_at(0) == a,
                x.den_at(0) == 1,
                y.den_at(0) == 1,
                x.num_at(0) == a,
        ;
    }
}

/// The quotient of two numbers that stand for the integers `a` and `b` is
/// `a / b`.
pub proof fn lemma_quotient_value(x: Exact, y: Exact, a: nat, b: nat)
    requires
        x.den == 1,
        y.den == 1,
        y.num > 0,
        x.same_value(Exact { num: a, den: 1, exp: 0 }),
        y.same_value(Exact { num: b, den: 1, exp: 0 }),
    ensures
        b > 0,
        quotient(x, y).den > 0,
        quotient(x, y).same_value(Exact { num: a, den: b, exp: 0 }),
{
    lemma2_to64();
    let sa: int = x.num as int;
    let sb: int = y.num as int;
    let ai: int = a as int;
    let bi: int = b as int;
    let xa: nat = if x.exp >= 0 {
        x.exp as nat
    } else {
        0
    };
    let xb: nat = if x.exp >= 0 {
        0
    } else {
        (-x.exp) as nat
    };
    let ya: nat = if y.exp >= 0 {
        y.exp as nat
    } else {
        0
    };
    let yb: nat = if y.exp >= 0 {
        0
    } else {
        (-y.exp) as nat
    };
    let d: int = x.exp - y.exp;
    let da: nat = if d >= 0 {
        d as nat
    } else {
        0
    };
    let db: nat = if d >= 0 {
        0
    } else {
        (-d) as nat
    };
    let pxa: int = pow2(xa) as int;
    let pxb: int = pow2(xb) as int;
    let pya: int = pow2(ya) as int;
    let pyb: int = pow2(yb) as int;
    let pda: int = pow2(da) as int;
    let pdb: int = pow2(db) as int;
    lemma_pow2_pos(xa);
    lemma_pow2_pos(xb);
    lemma_pow2_pos(ya);
    lemma_pow2_pos(yb);
    lemma_pow2_pos(da);
    lemma_pow2_pos(db);
    let one_a: Exact = Exact { num: a, den: 1, exp: 0 };
    let one_b: Exact = Exact { num: b, den: 1, exp: 0 };
    // `sa * 2^xa == a * 2^xb` and `sb * 2^ya == b * 2^yb`
    assert(sa * pxa == ai * pxb) by {
        assert(sa * 1 == sa && ai * 1 == ai) by (nonlinear_arith);
        assert((sa * pxa) * 1 == sa * pxa && (ai * pxb) * 1 == ai * pxb) by (nonlinear_arith);
    }
    assert(sb * pya == bi * pyb) by {
        assert(sb * 1 == sb && bi * 1 == bi) by (nonlinear_arith);
        assert((sb * pya) * 1 == sb * pya && (bi * pyb) * 1 == bi * pyb) by (nonlinear_arith);
    }
    assert(bi > 0) by (nonlinear_arith)
        requires
            sb * pya == bi * pyb,
            sb > 0,
            pya > 0,
            pyb > 0,
            bi >= 0,
    {
        assert(sb * pya > 0);
    }
    // `2^da * 2^xb * 2^ya == 2^db * 2^xa * 2^yb`
    lemma_pow2_adds(da, xb);
    lemma_pow2_adds(da + xb, ya);
    lemma_pow2_adds(db, xa);
    lemma_pow2_adds(db + xa, yb);
    assert(da + xb + ya == db + xa + yb);
    assert(pda * pxb * pya == pdb * pxa * pyb);
    let z: Exact = quotient(x, y);
    let w: Exact = Exact { num: a, den: b, exp: 0 };
    assert(z.num == sa && z.den == sb) by {
        assert(sa * 1 == sa && 1 * sb == sb) by (nonlinear_arith);
    }
    let lhs: int = sa * pda * bi;
    let rhs: int = ai * pdb * sb;
    assert(lhs * (pxa * pyb) == (sa * pxa) * (bi * pyb) * pda) by (nonlinear_arith)
        requires
            lhs == sa * pda * bi,
    ;
    assert((ai * pxb) * (sb * pya) * pda == (ai * sb) * (pda * pxb * pya)) by (nonlinear_arith);
    assert((ai * sb) * (pdb * pxa * pyb) == rhs * (pxa * pyb)) by (nonlinear_arith)
        requires
            rhs == ai * pdb * sb,
    ;
    assert((sa * pxa) * (bi * pyb) * pda == (ai * pxb) * (sb * pya) * pda);
    assert(pxa * pyb > 0) by (nonlinear_arith)
        requires
            pxa > 0,
            pyb > 0,
    ;
    crate::exact::lemma_cancel(lhs, rhs, pxa * pyb);
    if d >= 0 {
        assert(z.num_at(0) == sa * pda);
        assert(w.num_at(0) * z.den_at(0) == rhs) by (nonlinear_arith)
            requires
                w.num_at(0) == ai * 1,
                z.den_at(0) == sb,
                rhs == ai * pdb * sb,
                pdb == 1,
        ;
        assert(z.num_at(0) * w.den_at(0) == lhs);
    } else {
        assert(z.num_at(d) * w.den_at(d) == lhs) by (nonlinear_arith)
            requires
                z.num_at(d) == sa * 1,
                w.den_at(d) == bi,
                lhs == sa * pda * bi,
                pda == 1,
        ;
        assert(w.num_at(d) == ai * pdb);
        assert(w.num_at(d) * z.den_at(d) == rhs) by (nonlinear_arith)
            requires
                w.num_at(d) == ai * pdb,
                z.den_at(d) == sb,
                rhs == ai * pdb * sb,
        ;
    }
}

/// A finite number less itself is positive zero.
pub proof fn lemma_sub_self(fmt: Format, a: nat)
    requires
        fmt.holds(a),
        fmt.is_finite(a),
    ensures
        sub_spec(fmt, a, a) == 0,
{
    lemma_format_constants(fmt);
    let b: nat = negate_spec(fmt, a);
    assert(fmt.magnitude(b) == fmt.magnitude(a));
    assert(fmt.negative(b) == !fmt.negative(a));
}

/// Dividing by a number that is at least one does not pass a power of two:
/// if `sa * 2^ea <= 2^t` and `sb * 2^eb >= 1`, the exact quotient is at most
/// `2^t`.
pub proof fn lemma_quotient_le_power(sa: nat, ea: int, sb: nat, eb: int, t: int)
    requires
        eb <= 0,
        ea - eb <= t,
        sa <= pow2((t - ea) as nat),
        sb >= pow2((-eb) as nat),
    ensures
        ({
            let z = quotient(
                Exact { num: sa, den: 1, exp: ea },
                Exact { num: sb, den: 1, exp: eb },
            );
            &&& z.den > 0
            &&& z.num_at(t) <= z.den_at(t)
        }),
{
    let z = quotient(Exact { num: sa, den: 1, exp: ea }, Exact { num: sb, den: 1, exp: eb });
    lemma2_to64();
    lemma_pow2_pos((-eb) as nat);
    assert(z.num == sa && z.den == sb) by {
        assert(sa * 1 == sa && 1 * sb == sb) by (nonlinear_arith);
    }
    let rest: int = pow2((t - ea + eb) as nat) as int;
    let unit: int = pow2((-eb) as nat) as int;
    lemma_pow2_adds((-eb) as nat, (t - ea + eb) as nat);
    lemma_pow2_pos((t - ea + eb) as nat);
    assert((-eb) as nat + (t - ea + eb) as nat == (t - ea) as nat);
    assert(sa <= sb * rest) by (nonlinear_arith)
        requires
            sa <= unit * rest,
            sb >= unit,
            rest > 0,
    {
        assert(sb * rest >= unit * rest);
    }
    if ea - eb == t {
        assert(z.num_at(t) == sa * 1);
        assert(sa * 1 == sa && sb * 1 == sb) by (nonlinear_arith);
    }
}

/// The sum of two finite numbers that are each at most `2^t` in absolute
/// value is finite while `2^(t+2)` still is.
pub proof fn lemma_finite_sum_is_finite(
    fmt: Format,
    na: bool,
    sa: nat,
    ea: int,
    nb: bool,
    sb: nat,
    eb: int,
    t: int,
)
    requires
        ea <= t,
        eb <= t,
        sa <= pow2((t - ea) as nat),
        sb <= pow2((t - eb) as nat),
        t + 2 <= fmt.min_exp() + fmt.top_field() - 2 + (fmt.precision() - 1),
    ensures
        fmt.is_finite(finite_sum(fmt, na, sa, ea, nb, sb, eb)),
        fmt.holds(finite_sum(fmt, na, sa, ea, nb, sb, eb)),
{
    lemma_format_constants(fmt);
    let e: int = if ea <= eb {
        ea
    } else {
        eb
    };
    let whole: int = pow2((t - e) as nat) as int;
    let pa: int = pow2((ea - e) as nat) as int;
    let pb: int = pow2((eb - e) as nat) as int;
    lemma_pow2_adds((t - ea) as nat, (ea - e) as nat);
    lemma_pow2_adds((t - eb) as nat, (eb - e) as nat);
    assert((t - ea) as nat + (ea - e) as nat == (t - e) as nat);
    assert((t - eb) as nat + (eb - e) as nat == (t - e) as nat);
    lemma_pow2_pos((ea - e) as nat);
    lemma_pow2_pos((eb - e) as nat);
    let va: int = (sa * pow2((ea - e) as nat)) as int;
    let vb: int = (sb * pow2((eb - e) as nat)) as int;
    assert(0 <= va <= whole) by (nonlinear_arith)
        requires
            va == sa * pa,
            sa <= pow2((t - ea) as nat),
            whole == pow2((t - ea) as nat) * pa,
            pa > 0,
    ;
    assert(0 <= vb <= whole) by (nonlinear_arith)
        requires
            vb == sb * pb,
            sb <= pow2((t - eb) as nat),
            whole == pow2((t - eb) as nat) * pb,
            pb > 0,
    ;
    let sum: int = aligned(na, sa, ea, e) + aligned(nb, sb, eb, e);
    if sum != 0 {
        let x: Exact = Exact {
            num: if sum < 0 {
                (-sum) as nat
            } else {
                sum as nat
            },
            den: 1,
            exp: e,
        };
        lemma_pow2_unfold((t + 1 - e) as nat);
        assert(x.num_at(t + 1) == x.num);
        assert(x.den_at(t + 1) == 2 * whole) by {
            assert(1 * pow2((t + 1 - e) as nat) == pow2((t + 1 - e) as nat));
        }
        lemma_pow2_pos((t - e) as nat);
        crate::rounding::lemma_round_finite(fmt, x, t + 1);
    }
}

/// The quotient of a finite number that is at most `2^t` in absolute value
/// by a finite number that is at least one is finite, and at most `2^t` too.
pub proof fn lemma_quotient_bounded(fmt: Format, a: nat, b: nat, t: int)
    requires
        fmt.holds(a),
        fmt.holds(b),
        fmt.magnitude(a) <= crate::rounding::power_magnitude(fmt, t),
        crate::rounding::power_magnitude(fmt, t) < fmt.infinity(),
        t - fmt.precision() >= fmt.min_exp(),
        fmt.is_finite(b),
        fmt.exp_of(fmt.magnitude(b)) <= 0,
        fmt.exp_of(fmt.magnitude(b)) > -(fmt.precision() as int),
        fmt.sig_of(fmt.magnitude(b)) >= pow2((-fmt.exp_of(fmt.magnitude(b))) as nat),
    ensures
        fmt.holds(div_spec(fmt, a, b)),
        fmt.is_finite(div_spec(fmt, a, b)),
        fmt.magnitude(div_spec(fmt, a, b)) <= crate::rounding::power_magnitude(fmt, t),
        fmt.negative(div_spec(fmt, a, b)) == (fmt.negative(a) != fmt.negative(b)),
{
    lemma_format_constants(fmt);
    let ma: nat = fmt.magnitude(a);
    let mb: nat = fmt.magnitude(b);
    crate::rounding::lemma_value_le_power(fmt, ma, t);
    lemma_pow2_pos((-fmt.exp_of(mb)) as nat);
    lemma_finite_parts(fmt, mb);
    lemma_quotient_le_power(fmt.sig_of(ma), fmt.exp_of(ma), fmt.sig_of(mb), fmt.exp_of(mb), t);
    let z: Exact = quotient(fmt.abs_value(a), fmt.abs_value(b));
    crate::rounding::lemma_round_le_power(fmt, z, t);
}

/// An integer that is at most `2^t` in absolute value converts to a finite
/// number that is at most `2^t` in absolute value.
pub proof fn lemma_from_int_bounded(fmt: Format, v: int, t: int)
    requires
        integer_magnitude(v).num <= pow2(t as nat),
        t >= 0,
        t - fmt.precision() >= fmt.min_exp(),
        crate::rounding::power_magnitude(fmt, t) < fmt.infinity(),
    ensures
        fmt.holds(from_int_spec(fmt, v)),
        fmt.is_finite(from_int_spec(fmt, v)),
        fmt.magnitude(from_int_spec(fmt, v)) <= crate::rounding::power_magnitude(fmt, t),
        fmt.negative(from_int_spec(fmt, v)) == (v < 0),
{
    lemma_format_constants(fmt);
    let x: Exact = integer_magnitude(v);
    crate::exact::lemma_at_own_exp(x);
    if t > 0 {
        assert(x.den_at(t) == pow2(t as nat)) by {
            assert(1 * pow2(t as nat) == pow2(t as nat));
        }
    } else {
        lemma2_to64();
    }
    crate::rounding::lemma_round_le_power(fmt, x, t);
}

/// The difference of two finite numbers that are each at most `2^t` in
/// absolute value is finite while `2^(t+2)` still is.
pub proof fn lemma_difference_bounded(fmt: Format, a: nat, b: nat, t: int)
    requires
        fmt.holds(a),
        fmt.holds(b),
        fmt.magnitude(a) <= crate::rounding::power_magnitude(fmt, t),
        fmt.magnitude(b) <= crate::rounding::power_magnitude(fmt, t),
        crate::rounding::power_magnitude(fmt, t) < fmt.infinity(),
        t - fmt.precision() >= fmt.min_exp(),
        t + 2 <= fmt.min_exp() + fmt.top_field() - 2 + (fmt.precision() - 1),
    ensures
        fmt.holds(sub_spec(fmt, a, b)),
        fmt.is_finite(sub_spec(fmt, a, b)),
{
    lemma_format_constants(fmt);
    let ma: nat = fmt.magnitude(a);
    let mb: nat = fmt.magnitude(b);
    crate::rounding::lemma_value_le_power(fmt, ma, t);
    crate::rounding::lemma_value_le_power(fmt, mb, t);
    let c: nat = negate_spec(fmt, b);
    assert(fmt.magnitude(c) == mb);
    lemma_finite_sum_is_finite(
        fmt,
        fmt.negative(a),
        fmt.sig_of(ma),
        fmt.exp_of(ma),
        fmt.negative(c),
        fmt.sig_of(mb),
        fmt.exp_of(mb),
        t,
    );
}

} // verus!
