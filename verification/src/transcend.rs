//! Fixed-point exponential and natural logarithm.
//!
//! Both are computed by power series after a power-of-two range reduction,
//! carried out in truncated integer arithmetic. Each executable function is
//! specified exactly by a spec-level mirror of the same computation, so every
//! caller's contract pins the result down to the last unit.

use crate::fixed::{cap_u64, fdiv, fmul, mag, spec_div, spec_mul, SCALE};
use vstd::arithmetic::div_mod::{
    lemma_basic_div, lemma_div_by_multiple, lemma_div_denominator, lemma_div_is_ordered,
    lemma_div_is_ordered_by_denominator, lemma_div_multiples_vanish_fancy, lemma_div_pos_is_pos,
    lemma_fundamental_div_mod, lemma_mod_bound,
};
use vstd::arithmetic::mul::{lemma_mul_inequality, lemma_mul_nonnegative, lemma_mul_upper_bound};
use vstd::prelude::*;

verus! {

/// The natural logarithm of two at the fixed-point scale, rounded down.
pub const LN2: u64 = 693_147_180;

/// The internal scale of the power series: one unit counts `10^-18`.
pub const SI: u128 = 1_000_000_000_000_000_000;

/// How many terms of the exponential series are summed.
pub const EXP_TERMS: u64 = 32;

/// How many terms of the logarithm series are summed.
pub const LN_TERMS: u64 = 16;

/// Two to the power `k`.
pub open spec fn p2(k: nat) -> int
    decreases k,
{
    if k == 0 {
        1
    } else {
        2 * p2((k - 1) as nat)
    }
}

pub proof fn lemma_p2_pos(k: nat)
    ensures
        p2(k) >= 1,
    decreases k,
{
    if k > 0 {
        lemma_p2_pos((k - 1) as nat);
    }
}

pub proof fn lemma_p2_39()
    ensures
        p2(39) == 0x80_0000_0000,
{
    reveal_with_fuel(p2, 41);
}

/// For a zero argument every series term beyond the first vanishes, so the
/// series sums to exactly one unit.
pub proof fn lemma_exp_zero(k: nat)
    ensures
        exp_term(0, k) == if k == 0 { SI as int } else { 0 },
        k >= 1 ==> exp_sum(0, k) == SI as int,
    decreases k,
{
    if k != 0 {
        lemma_exp_zero((k - 1) as nat);
        let d = k as int * SI as int;
        assert(d >= SI as int) by (nonlinear_arith)
            requires
                k >= 1,
                d == k as int * SI as int,
        ;
        lemma_basic_div(0, d);
        assert(exp_term(0, (k - 1) as nat) * 0 == 0);
        assert(exp_term(0, k) == (exp_term(0, (k - 1) as nat) * 0) / d);
        assert(exp_sum(0, k) == exp_sum(0, (k - 1) as nat) + exp_term(0, (k - 1) as nat));
        if k == 1 {
            assert(exp_sum(0, 0) == 0);
        }
    }
}

pub proof fn lemma_p2_mono(j: nat, k: nat)
    requires
        j <= k,
    ensures
        p2(j) <= p2(k),
    decreases k,
{
    if j < k {
        lemma_p2_mono(j, (k - 1) as nat);
        lemma_p2_pos((k - 1) as nat);
    }
}

/// The `i`-th term of the exponential power series at scale `SI`:
/// `SI * (rem / SI)^i / i!`, accumulated with truncating division.
pub open spec fn exp_term(rem: int, i: nat) -> int
    decreases i,
{
    if i == 0 {
        SI as int
    } else {
        (exp_term(rem, (i - 1) as nat) * rem) / (i as int * SI as int)
    }
}

/// The sum of the first `k` terms of the exponential power series.
pub open spec fn exp_sum(rem: int, k: nat) -> int
    decreases k,
{
    if k == 0 {
        0
    } else {
        exp_sum(rem, (k - 1) as nat) + exp_term(rem, (k - 1) as nat)
    }
}

pub proof fn lemma_exp_term_bounds(rem: int, i: nat)
    requires
        0 <= rem < SI as int,
    ensures
        0 <= exp_term(rem, i) <= SI as int,
    decreases i,
{
    if i != 0 {
        lemma_exp_term_bounds(rem, (i - 1) as nat);
        let t = exp_term(rem, (i - 1) as nat);
        let d = i as int * SI as int;
        assert(d >= SI as int) by (nonlinear_arith)
            requires
                i >= 1,
                d == i as int * SI as int,
        ;
        lemma_mul_upper_bound(t, SI as int, rem, SI as int);
        assert(t * rem >= 0) by (nonlinear_arith)
            requires
                t >= 0,
                rem >= 0,
        ;
        lemma_div_pos_is_pos(t * rem, d);
        lemma_div_is_ordered_by_denominator(t * rem, SI as int, d);
        lemma_div_is_ordered(t * rem, SI as int * SI as int, SI as int);
        lemma_div_by_multiple(SI as int, SI as int);
    }
}

pub proof fn lemma_exp_sum_bounds(rem: int, k: nat)
    requires
        0 <= rem < SI as int,
    ensures
        0 <= exp_sum(rem, k) <= k * SI as int,
        k >= 1 ==> exp_sum(rem, k) >= SI as int,
    decreases k,
{
    if k != 0 {
        lemma_exp_sum_bounds(rem, (k - 1) as nat);
        lemma_exp_term_bounds(rem, (k - 1) as nat);
        if k == 1 {
            assert(exp_term(rem, 0) == SI as int);
        }
    }
}

/// The exponential of a nonnegative fixed-point value, at the fixed-point
/// scale: the argument is split as `y == k * LN2 + rem`, the series is summed
/// for `rem`, and the result is doubled `k` times. An argument whose
/// exponential would leave the range saturates at the top.
pub open spec fn spec_exp_pos(y: int) -> int {
    let k = y / (LN2 as int);
    let rem = (y % (LN2 as int)) * (SCALE as int);
    if k > 40 {
        u64::MAX as int
    } else {
        cap_u64((exp_sum(rem, EXP_TERMS as nat) * p2(k as nat)) / (SCALE as int))
    }
}

pub fn fexp_pos(y: u64) -> (r: u64)
    ensures
        r as int == spec_exp_pos(y as int),
        r >= SCALE,
{
    let k: u64 = y / LN2;
    let rem64: u64 = y % LN2;
    if k > 40 {
        return u64::MAX;
    }
    let rem: u128 = (rem64 as u128) * (SCALE as u128);
    let ghost remi = rem as int;
    assert(remi < SI as int);
    let mut term: u128 = SI;
    let mut sum: u128 = 0;
    let mut i: u64 = 0;
    while i < EXP_TERMS
        invariant
            i <= EXP_TERMS,
            0 <= remi < SI as int,
            rem == remi,
            term as int == exp_term(remi, i as nat),
            sum as int == exp_sum(remi, i as nat),
        decreases EXP_TERMS - i,
    {
        proof {
            lemma_exp_term_bounds(remi, i as nat);
            lemma_exp_sum_bounds(remi, i as nat);
            lemma_mul_upper_bound(term as int, SI as int, rem as int, SI as int);
        }
        sum = sum + term;
        let d: u128 = (i as u128 + 1) * SI;
        proof {
            assert(d as int == (i + 1) as int * SI as int);
            assert(d >= 1);
            lemma_div_pos_is_pos(term as int * rem as int, d as int);
        }
        term = (term * rem) / d;
        proof {
            assert(term as int == exp_term(remi, (i + 1) as nat));
        }
        i = i + 1;
    }
    proof {
        lemma_exp_sum_bounds(remi, EXP_TERMS as nat);
    }
    let ghost total = sum as int;
    let mut res: u128 = sum;
    let mut j: u64 = 0;
    while j < k
        invariant
            j <= k <= 40,
            SI as int <= total <= EXP_TERMS as int * SI as int,
            res as int == total * p2(j as nat),
        decreases k - j,
    {
        proof {
            lemma_p2_mono(j as nat, 39);
            lemma_p2_39();
            lemma_p2_pos(j as nat);
            lemma_mul_upper_bound(total, EXP_TERMS as int * SI as int, p2(j as nat), p2(39));
            assert(p2((j + 1) as nat) == 2 * p2(j as nat));
            assert(total * (2 * p2(j as nat)) == 2 * (total * p2(j as nat))) by (nonlinear_arith);
        }
        res = res * 2;
        j = j + 1;
    }
    proof {
        lemma_p2_pos(k as nat);
        lemma_mul_inequality(SI as int, total, p2(k as nat));
        assert(SI as int * 1 == SI as int);
        lemma_mul_left_le(SI as int, 1, p2(k as nat));
        lemma_div_is_ordered(SI as int, res as int, SCALE as int);
        lemma_div_by_multiple(SCALE as int, SCALE as int);
        assert(SI as int == SCALE as int * SCALE as int);
    }
    let q: u128 = res / (SCALE as u128);
    if q > u64::MAX as u128 {
        u64::MAX
    } else {
        q as u64
    }
}

proof fn lemma_mul_left_le(x: int, y: int, z: int)
    requires
        x >= 0,
        1 <= y <= z,
    ensures
        x * y <= x * z,
{
    lemma_mul_inequality(y, z, x);
    assert(y * x == x * y) by (nonlinear_arith);
    assert(z * x == x * z) by (nonlinear_arith);
}

/// The exponential of a signed fixed-point value, at the fixed-point scale.
/// A negative argument goes through the reciprocal of the positive case.
pub open spec fn spec_exp(x: int) -> int {
    if x >= 0 {
        spec_exp_pos(x)
    } else {
        (SCALE as int * SCALE as int) / spec_exp_pos(-x)
    }
}

pub fn fexp(x: i64) -> (r: u64)
    ensures
        r as int == spec_exp(x as int),
        x == 0 ==> r == SCALE,
        x <= 0 ==> r <= SCALE,
{
    if x >= 0 {
        let r = fexp_pos(x as u64);
        proof {
            if x == 0 {
                lemma_exp_zero(EXP_TERMS as nat);
                lemma_div_by_multiple(0, LN2 as int);
                lemma_fundamental_div_mod(0, LN2 as int);
                lemma_div_by_multiple(SCALE as int, SCALE as int);
                assert(SI as int == SCALE as int * SCALE as int);
                assert(exp_sum(0, EXP_TERMS as nat) * p2(0) == SI as int);
            }
        }
        r
    } else {
        let m = mag(x);
        let e = fexp_pos(m);
        let q: u128 = ((SCALE as u128) * (SCALE as u128)) / (e as u128);
        proof {
            lemma_div_is_ordered_by_denominator(
                SCALE as int * SCALE as int,
                SCALE as int,
                e as int,
            );
            lemma_div_by_multiple(SCALE as int, SCALE as int);
            lemma_div_pos_is_pos(SCALE as int * SCALE as int, e as int);
        }
        q as u64
    }
}

/// How many halvings bring a value below two units.
pub open spec fn ln_shift_down(a: int) -> nat
    decreases a,
{
    if a < 2 * SCALE as int {
        0
    } else {
        1 + ln_shift_down(a / 2)
    }
}

/// How many doublings bring a positive value up to one unit.
pub open spec fn ln_shift_up(a: int) -> nat
    decreases 2 * SCALE as int - a,
{
    if a < 1 {
        0
    } else if a >= SCALE as int {
        0
    } else {
        1 + ln_shift_up(2 * a)
    }
}

/// The `i`-th odd power of `t`, at the fixed-point scale, accumulated with
/// truncating multiplication.
pub open spec fn atanh_pow(t: u64, i: nat) -> u64
    decreases i,
{
    if i == 0 {
        t
    } else {
        spec_mul(atanh_pow(t, (i - 1) as nat), spec_mul(t, t))
    }
}

/// The sum of the first `k` terms of the series for `atanh t`:
/// odd powers of `t` over the odd numbers.
pub open spec fn atanh_sum(t: u64, k: nat) -> int
    decreases k,
{
    if k == 0 {
        0
    } else {
        atanh_sum(t, (k - 1) as nat) + atanh_pow(t, (k - 1) as nat) as int / (2 * (k - 1) + 1)
    }
}

pub proof fn lemma_atanh_pow_le(t: u64, i: nat)
    requires
        t <= SCALE,
    ensures
        atanh_pow(t, i) <= t,
    decreases i,
{
    if i != 0 {
        lemma_atanh_pow_le(t, (i - 1) as nat);
        crate::fixed::lemma_fmul_le(t, t);
        crate::fixed::lemma_fmul_le(atanh_pow(t, (i - 1) as nat), spec_mul(t, t));
    }
}

pub proof fn lemma_atanh_sum_bounds(t: u64, k: nat)
    requires
        t <= SCALE,
    ensures
        0 <= atanh_sum(t, k) <= k * t as int,
    decreases k,
{
    if k != 0 {
        lemma_atanh_sum_bounds(t, (k - 1) as nat);
        lemma_atanh_pow_le(t, (k - 1) as nat);
        let p = atanh_pow(t, (k - 1) as nat);
        let d = 2 * (k - 1) + 1;
        lemma_div_pos_is_pos(p as int, d as int);
        lemma_div_is_ordered_by_denominator(p as int, 1, d as int);
        lemma_div_by_multiple(p as int, 1);
        assert(p as int * 1 == p as int);
        assert((k - 1) as int * t as int + t as int == k as int * t as int) by (nonlinear_arith)
            requires
                k >= 1,
        ;
    }
}

/// The natural logarithm of a fixed-point value, at the fixed-point scale:
/// the argument is scaled by a power of two into `[1, 2)` units, the series
/// for `atanh` of `(m - 1) / (m + 1)` (in units) is summed, and the shift is
/// paid back in units of `LN2`. Zero saturates at the bottom of the range.
pub open spec fn spec_ln(a: u64) -> i64 {
    if a == 0 {
        i64::MIN
    } else if a >= SCALE {
        let e = ln_shift_down(a as int);
        let m = a as int / p2(e);
        let t = spec_div((m - SCALE as int) as u64, (m + SCALE as int) as u64);
        (2 * atanh_sum(t, LN_TERMS as nat) + e * LN2 as int) as i64
    } else {
        let j = ln_shift_up(a as int);
        let m = a as int * p2(j);
        let t = spec_div((m - SCALE as int) as u64, (m + SCALE as int) as u64);
        (2 * atanh_sum(t, LN_TERMS as nat) - j * LN2 as int) as i64
    }
}

pub fn fln(a: u64) -> (r: i64)
    ensures
        r == spec_ln(a),
{
    if a == 0 {
        return i64::MIN;
    }
    let mut m: u64 = a;
    let mut shift: u64 = 0;
    proof {
        lemma_div_by_multiple(a as int, 1);
        assert(a as int * 1 == a as int);
        lemma_p2_64();
    }
    if a >= SCALE {
        while m >= 2 * SCALE
            invariant
                m as int == a as int / p2(shift as nat),
                ln_shift_down(a as int) == shift as nat + ln_shift_down(m as int),
                m >= SCALE,
                shift <= 64,
                p2(shift as nat) <= a as int,
            decreases m,
        {
            proof {
                lemma_p2_pos(shift as nat);
                lemma_div_denominator(a as int, p2(shift as nat), 2);
                assert(p2((shift + 1) as nat) == 2 * p2(shift as nat));
                assert(p2(shift as nat) * 2 == 2 * p2(shift as nat));
                lemma_mul_inequality(2, m as int, p2(shift as nat));
                lemma_fundamental_div_mod(a as int, p2(shift as nat));
                assert(a as int >= m as int * p2(shift as nat)) by (nonlinear_arith)
                    requires
                        a as int == p2(shift as nat) * (a as int / p2(shift as nat)) + a as int
                            % p2(shift as nat),
                        m as int == a as int / p2(shift as nat),
                        a as int % p2(shift as nat) >= 0,
                ;
                assert(m as int * p2(shift as nat) >= 2 * p2(shift as nat)) by (nonlinear_arith)
                    requires
                        m as int >= 2,
                        p2(shift as nat) >= 1,
                ;
                lemma_p2_64();
                if shift + 1 > 64 {
                    assert(false);
                }
            }
            m = m / 2;
            shift = shift + 1;
        }
    } else {
        while m < SCALE
            invariant
                1 <= m,
                m < 2 * SCALE,
                m as int == a as int * p2(shift as nat),
                ln_shift_up(a as int) == shift as nat + ln_shift_up(m as int),
                shift <= 64,
                p2(shift as nat) <= m as int,
            decreases 2 * SCALE as int - m as int,
        {
            proof {
                lemma_p2_pos(shift as nat);
                assert(p2((shift + 1) as nat) == 2 * p2(shift as nat));
                assert(a as int * (2 * p2(shift as nat)) == 2 * (a as int * p2(shift as nat)))
                    by (nonlinear_arith);
                lemma_p2_64();
                if shift + 1 > 64 {
                    assert(p2(shift as nat) <= m as int);
                    assert(false);
                }
            }
            m = m * 2;
            shift = shift + 1;
        }
    }
    assert(SCALE <= m < 2 * SCALE);
    assert(shift <= 64);
    let num: u64 = m - SCALE;
    let den: u64 = m + SCALE;
    let t: u64 = fdiv(num, den);
    proof {
        lemma_mul_inequality(num as int, SCALE as int, SCALE as int);
        lemma_div_is_ordered(num as int * SCALE as int, SCALE as int * SCALE as int, den as int);
        lemma_div_is_ordered_by_denominator(
            SCALE as int * SCALE as int,
            SCALE as int,
            den as int,
        );
        lemma_div_by_multiple(SCALE as int, SCALE as int);
        lemma_mul_nonnegative(num as int, SCALE as int);
        lemma_div_pos_is_pos(num as int * SCALE as int, den as int);
    }
    assert(t <= SCALE);
    let tsq: u64 = fmul(t, t);
    let mut x: u64 = t;
    let mut sum: u64 = t;
    let mut i: u64 = 1;
    proof {
        lemma_div_by_multiple(t as int, 1);
        assert(t as int * 1 == t as int);
        assert(t as int / 1 == t as int);
        assert(atanh_pow(t, 0) == t);
        assert(atanh_sum(t, 1) == atanh_sum(t, 0) + atanh_pow(t, 0) as int / 1);
        assert(sum as int == atanh_sum(t, 1));
    }
    while i < LN_TERMS
        invariant
            1 <= i <= LN_TERMS,
            t <= SCALE,
            tsq == spec_mul(t, t),
            x == atanh_pow(t, (i - 1) as nat),
            sum as int == atanh_sum(t, i as nat),
            sum <= i * SCALE,
        decreases LN_TERMS - i,
    {
        proof {
            lemma_atanh_pow_le(t, i as nat);
            lemma_atanh_sum_bounds(t, i as nat);
            crate::fixed::lemma_fmul_le(t, t);
            crate::fixed::lemma_fmul_le(x, tsq);
        }
        x = fmul(x, tsq);
        let term: u64 = x / (2 * i + 1);
        proof {
            assert(x == atanh_pow(t, i as nat));
            lemma_div_pos_is_pos(x as int, 2 * i as int + 1);
            lemma_div_is_ordered_by_denominator(x as int, 1, 2 * i as int + 1);
            lemma_div_by_multiple(x as int, 1);
            assert(x as int * 1 == x as int);
            assert(atanh_sum(t, (i + 1) as nat) == atanh_sum(t, i as nat) + atanh_pow(
                t,
                i as nat,
            ) as int / (2 * i as int + 1));
        }
        sum = sum + term;
        i = i + 1;
    }
    let h: i64 = 2 * (sum as i64);
    proof {
        assert(0 <= shift as int * LN2 as int <= 64 * 693_147_180) by (nonlinear_arith)
            requires
                0 <= shift as int <= 64,
                LN2 == 693_147_180,
        ;
    }
    if a >= SCALE {
        proof {
            assert(ln_shift_down(m as int) == 0);
        }
        h + (shift as i64) * (LN2 as i64)
    } else {
        proof {
            assert(ln_shift_up(m as int) == 0);
        }
        h - (shift as i64) * (LN2 as i64)
    }
}

pub proof fn lemma_p2_64()
    ensures
        p2(64) == 0x1_0000_0000_0000_0000,
{
    reveal_with_fuel(p2, 66);
}

/// Each series term grows with the remainder.
pub proof fn lemma_exp_term_mono(rem1: int, rem2: int, i: nat)
    requires
        0 <= rem1 <= rem2 < SI as int,
    ensures
        exp_term(rem1, i) <= exp_term(rem2, i),
    decreases i,
{
    if i != 0 {
        lemma_exp_term_mono(rem1, rem2, (i - 1) as nat);
        lemma_exp_term_bounds(rem1, (i - 1) as nat);
        lemma_exp_term_bounds(rem2, (i - 1) as nat);
        let t1 = exp_term(rem1, (i - 1) as nat);
        let t2 = exp_term(rem2, (i - 1) as nat);
        lemma_mul_upper_bound(t1, t2, rem1, rem2);
        let d = i as int * SI as int;
        assert(d > 0) by (nonlinear_arith)
            requires
                i >= 1,
                d == i as int * SI as int,
        ;
        lemma_div_is_ordered(t1 * rem1, t2 * rem2, d);
    }
}

/// The truncated series grows with the remainder.
pub proof fn lemma_exp_sum_mono(rem1: int, rem2: int, k: nat)
    requires
        0 <= rem1 <= rem2 < SI as int,
    ensures
        exp_sum(rem1, k) <= exp_sum(rem2, k),
    decreases k,
{
    if k != 0 {
        lemma_exp_sum_mono(rem1, rem2, (k - 1) as nat);
        lemma_exp_term_mono(rem1, rem2, (k - 1) as nat);
    }
}

/// Once a term underflows to zero, every later term is zero too.
pub proof fn lemma_exp_term_zero_prop(rem: int, i: nat, j: nat)
    requires
        0 <= rem,
        i <= j,
        exp_term(rem, i) == 0,
    ensures
        exp_term(rem, j) == 0,
    decreases j - i,
{
    if j > i {
        lemma_exp_term_zero_prop(rem, i, (j - 1) as nat);
        let d = j as int * SI as int;
        assert(d >= SI as int) by (nonlinear_arith)
            requires
                j >= 1,
                d == j as int * SI as int,
        ;
        assert(exp_term(rem, (j - 1) as nat) * rem == 0);
        lemma_basic_div(0, d);
    }
}

/// Zero terms add nothing to the series.
pub proof fn lemma_exp_sum_flat(rem: int, a: nat, b: nat)
    requires
        0 <= rem,
        a <= b,
        exp_term(rem, a) == 0,
    ensures
        exp_sum(rem, b) == exp_sum(rem, a),
    decreases b - a,
{
    if b > a {
        lemma_exp_sum_flat(rem, a, (b - 1) as nat);
        lemma_exp_term_zero_prop(rem, a, (b - 1) as nat);
    }
}

/// The truncated series never reaches two units: the remainder stays below
/// the stored logarithm of two, and the series at that bound evaluates to
/// just under two units.
pub proof fn lemma_exp_sum_le_two(rem: int)
    requires
        0 <= rem <= 693_147_179_000_000_000,
    ensures
        exp_sum(rem, EXP_TERMS as nat) <= 2 * SI as int,
{
    let rmax = 693_147_179_000_000_000int;
    lemma_exp_sum_mono(rem, rmax, EXP_TERMS as nat);
    assert(exp_term(rmax, 0) == 1000000000000000000);
    assert(exp_term(rmax, 1) == (exp_term(rmax, 0) * rmax) / 1000000000000000000);
    lemma_div_multiples_vanish_fancy(693147179000000000, 0, 1000000000000000000);
    assert(1000000000000000000 * 693147179000000000int + 0 == 1000000000000000000 * rmax);
    assert(exp_term(rmax, 1) == 693147179000000000);
    assert(exp_term(rmax, 2) == (exp_term(rmax, 1) * rmax) / 2000000000000000000);
    lemma_div_multiples_vanish_fancy(240226505877829020, 1000000000000000000, 2000000000000000000);
    assert(2000000000000000000 * 240226505877829020int + 1000000000000000000 == 693147179000000000 * rmax);
    assert(exp_term(rmax, 2) == 240226505877829020);
    assert(exp_term(rmax, 3) == (exp_term(rmax, 2) * rmax) / 3000000000000000000);
    lemma_div_multiples_vanish_fancy(55504108290081367, 2857334580000000000, 3000000000000000000);
    assert(3000000000000000000 * 55504108290081367int + 2857334580000000000 == 240226505877829020 * rmax);
    assert(exp_term(rmax, 3) == 55504108290081367);
    assert(exp_term(rmax, 4) == (exp_term(rmax, 3) * rmax) / 4000000000000000000);
    lemma_div_multiples_vanish_fancy(9618129021045103, 1216513693000000000, 4000000000000000000);
    assert(4000000000000000000 * 9618129021045103int + 1216513693000000000 == 55504108290081367 * rmax);
    assert(exp_term(rmax, 4) == 9618129021045103);
    assert(exp_term(rmax, 5) == (exp_term(rmax, 4) * rmax) / 5000000000000000000);
    lemma_div_multiples_vanish_fancy(1333355799639088, 4776214437000000000, 5000000000000000000);
    assert(5000000000000000000 * 1333355799639088int + 4776214437000000000 == 9618129021045103 * rmax);
    assert(exp_term(rmax, 5) == 1333355799639088);
    assert(exp_term(rmax, 6) == (exp_term(rmax, 5) * rmax) / 6000000000000000000);
    lemma_div_multiples_vanish_fancy(154035301853853, 5065332752000000000, 6000000000000000000);
    assert(6000000000000000000 * 154035301853853int + 5065332752000000000 == 1333355799639088 * rmax);
    assert(exp_term(rmax, 6) == 154035301853853);
    assert(exp_term(rmax, 7) == (exp_term(rmax, 6) * rmax) / 7000000000000000000);
    lemma_div_multiples_vanish_fancy(15252733563773, 677230687000000000, 7000000000000000000);
    assert(7000000000000000000 * 15252733563773int + 677230687000000000 == 154035301853853 * rmax);
    assert(exp_term(rmax, 7) == 15252733563773);
    assert(exp_term(rmax, 8) == (exp_term(rmax, 7) * rmax) / 8000000000000000000);
    lemma_div_multiples_vanish_fancy(1321548655220, 7871546367000000000, 8000000000000000000);
    assert(8000000000000000000 * 1321548655220int + 7871546367000000000 == 15252733563773 * rmax);
    assert(exp_term(rmax, 8) == 1321548655220);
    assert(exp_term(rmax, 9) == (exp_term(rmax, 8) * rmax) / 9000000000000000000);
    lemma_div_multiples_vanish_fancy(101780858030, 6986624380000000000, 9000000000000000000);
    assert(9000000000000000000 * 101780858030int + 6986624380000000000 == 1321548655220 * rmax);
    assert(exp_term(rmax, 9) == 101780858030);
    assert(exp_term(rmax, 10) == (exp_term(rmax, 9) * rmax) / 10000000000000000000);
    lemma_div_multiples_vanish_fancy(7054911461, 9693997370000000000, 10000000000000000000);
    assert(10000000000000000000 * 7054911461int + 9693997370000000000 == 101780858030 * rmax);
    assert(exp_term(rmax, 10) == 7054911461);
    assert(exp_term(rmax, 11) == (exp_term(rmax, 10) * rmax) / 11000000000000000000);
    lemma_div_multiples_vanish_fancy(444553816, 1286918519000000000, 11000000000000000000);
    assert(11000000000000000000 * 444553816int + 1286918519000000000 == 7054911461 * rmax);
    assert(exp_term(rmax, 11) == 444553816);
    assert(exp_term(rmax, 12) == (exp_term(rmax, 11) * rmax) / 12000000000000000000);
    lemma_div_multiples_vanish_fancy(25678435, 3474085064000000000, 12000000000000000000);
    assert(12000000000000000000 * 25678435int + 3474085064000000000 == 444553816 * rmax);
    assert(exp_term(rmax, 12) == 25678435);
    assert(exp_term(rmax, 13) == (exp_term(rmax, 12) * rmax) / 13000000000000000000);
    lemma_div_multiples_vanish_fancy(1369148, 10781384865000000000, 13000000000000000000);
    assert(13000000000000000000 * 1369148int + 10781384865000000000 == 25678435 * rmax);
    assert(exp_term(rmax, 13) == 1369148);
    assert(exp_term(rmax, 14) == (exp_term(rmax, 13) * rmax) / 14000000000000000000);
    lemma_div_multiples_vanish_fancy(67787, 3073833492000000000, 14000000000000000000);
    assert(14000000000000000000 * 67787int + 3073833492000000000 == 1369148 * rmax);
    assert(exp_term(rmax, 14) == 67787);
    assert(exp_term(rmax, 15) == (exp_term(rmax, 14) * rmax) / 15000000000000000000);
    lemma_div_multiples_vanish_fancy(3132, 6367822873000000000, 15000000000000000000);
    assert(15000000000000000000 * 3132int + 6367822873000000000 == 67787 * rmax);
    assert(exp_term(rmax, 15) == 3132);
    assert(exp_term(rmax, 16) == (exp_term(rmax, 15) * rmax) / 16000000000000000000);
    lemma_div_multiples_vanish_fancy(135, 10936964628000000000, 16000000000000000000);
    assert(16000000000000000000 * 135int + 10936964628000000000 == 3132 * rmax);
    assert(exp_term(rmax, 16) == 135);
    assert(exp_term(rmax, 17) == (exp_term(rmax, 16) * rmax) / 17000000000000000000);
    lemma_div_multiples_vanish_fancy(5, 8574869165000000000, 17000000000000000000);
    assert(17000000000000000000 * 5int + 8574869165000000000 == 135 * rmax);
    assert(exp_term(rmax, 17) == 5);
    assert(exp_term(rmax, 18) == (exp_term(rmax, 17) * rmax) / 18000000000000000000);
    assert(5 * rmax == 3465735895000000000);
    lemma_basic_div(3465735895000000000, 18000000000000000000);
    assert(exp_term(rmax, 18) == 0);
    assert(exp_sum(rmax, 0) == 0);
    assert(exp_sum(rmax, 1) == 1000000000000000000);
    assert(exp_sum(rmax, 2) == 1693147179000000000);
    assert(exp_sum(rmax, 3) == 1933373684877829020);
    assert(exp_sum(rmax, 4) == 1988877793167910387);
    assert(exp_sum(rmax, 5) == 1998495922188955490);
    assert(exp_sum(rmax, 6) == 1999829277988594578);
    assert(exp_sum(rmax, 7) == 1999983313290448431);
    assert(exp_sum(rmax, 8) == 1999998566024012204);
    assert(exp_sum(rmax, 9) == 1999999887572667424);
    assert(exp_sum(rmax, 10) == 1999999989353525454);
    assert(exp_sum(rmax, 11) == 1999999996408436915);
    assert(exp_sum(rmax, 12) == 1999999996852990731);
    assert(exp_sum(rmax, 13) == 1999999996878669166);
    assert(exp_sum(rmax, 14) == 1999999996880038314);
    assert(exp_sum(rmax, 15) == 1999999996880106101);
    assert(exp_sum(rmax, 16) == 1999999996880109233);
    assert(exp_sum(rmax, 17) == 1999999996880109368);
    assert(exp_sum(rmax, 18) == 1999999996880109373);
    lemma_exp_sum_flat(rmax, 18, EXP_TERMS as nat);
}

/// The exponential of a nonnegative value is at least one unit.
pub proof fn lemma_exp_pos_ge_scale(y: int)
    requires
        y >= 0,
    ensures
        spec_exp_pos(y) >= SCALE as int,
{
    let k = y / (LN2 as int);
    let rem = (y % (LN2 as int)) * (SCALE as int);
    lemma_div_pos_is_pos(y, LN2 as int);
    lemma_mod_bound(y, LN2 as int);
    lemma_mul_inequality(0, y % (LN2 as int), SCALE as int);
    lemma_mul_inequality(y % (LN2 as int), LN2 as int, SCALE as int);
    if k <= 40 {
        lemma_exp_sum_bounds(rem, EXP_TERMS as nat);
        lemma_p2_pos(k as nat);
        lemma_mul_left_le(SI as int, 1, p2(k as nat));
        lemma_mul_inequality(SI as int, exp_sum(rem, EXP_TERMS as nat), p2(k as nat));
        assert(SI as int * 1 == SI as int);
        lemma_div_is_ordered(
            SI as int,
            exp_sum(rem, EXP_TERMS as nat) * p2(k as nat),
            SCALE as int,
        );
        lemma_div_by_multiple(SCALE as int, SCALE as int);
        assert(SI as int == SCALE as int * SCALE as int);
    }
}

/// The exponential of exactly zero is exactly one unit.
pub proof fn lemma_exp_pos_zero()
    ensures
        spec_exp_pos(0) == SCALE as int,
{
    lemma_exp_zero(EXP_TERMS as nat);
    lemma_basic_div(0, LN2 as int);
    lemma_fundamental_div_mod(0, LN2 as int);
    lemma_div_by_multiple(SCALE as int, SCALE as int);
    assert(SI as int == SCALE as int * SCALE as int);
    assert(exp_sum(0, EXP_TERMS as nat) * p2(0) == SI as int);
}

/// The exponential grows with its argument.
pub proof fn lemma_exp_pos_mono(y1: int, y2: int)
    requires
        0 <= y1 <= y2,
    ensures
        spec_exp_pos(y1) <= spec_exp_pos(y2),
{
    let k1 = y1 / (LN2 as int);
    let k2 = y2 / (LN2 as int);
    lemma_div_is_ordered(y1, y2, LN2 as int);
    lemma_div_pos_is_pos(y1, LN2 as int);
    lemma_mod_bound(y1, LN2 as int);
    lemma_mod_bound(y2, LN2 as int);
    let rem1 = (y1 % (LN2 as int)) * (SCALE as int);
    let rem2 = (y2 % (LN2 as int)) * (SCALE as int);
    lemma_mul_inequality(0, y1 % (LN2 as int), SCALE as int);
    lemma_mul_inequality(0, y2 % (LN2 as int), SCALE as int);
    lemma_mul_inequality(y1 % (LN2 as int), LN2 as int - 1, SCALE as int);
    lemma_mul_inequality(y2 % (LN2 as int), LN2 as int - 1, SCALE as int);
    if k2 > 40 {
        assert(spec_exp_pos(y2) == u64::MAX as int);
        if k1 <= 40 {
            lemma_exp_sum_bounds(rem1, EXP_TERMS as nat);
            lemma_p2_pos(k1 as nat);
            lemma_mul_nonnegative(exp_sum(rem1, EXP_TERMS as nat), p2(k1 as nat));
            lemma_div_pos_is_pos(exp_sum(rem1, EXP_TERMS as nat) * p2(k1 as nat), SCALE as int);
        }
    } else {
        if k1 == k2 {
            lemma_fundamental_div_mod(y1, LN2 as int);
            lemma_fundamental_div_mod(y2, LN2 as int);
            lemma_mul_inequality(y1 % (LN2 as int), y2 % (LN2 as int), SCALE as int);
            lemma_exp_sum_mono(rem1, rem2, EXP_TERMS as nat);
            lemma_p2_pos(k1 as nat);
            lemma_mul_inequality(
                exp_sum(rem1, EXP_TERMS as nat),
                exp_sum(rem2, EXP_TERMS as nat),
                p2(k1 as nat),
            );
            lemma_exp_sum_bounds(rem1, EXP_TERMS as nat);
            lemma_div_is_ordered(
                exp_sum(rem1, EXP_TERMS as nat) * p2(k1 as nat),
                exp_sum(rem2, EXP_TERMS as nat) * p2(k2 as nat),
                SCALE as int,
            );
        } else {
            let s1 = exp_sum(rem1, EXP_TERMS as nat);
            let s2 = exp_sum(rem2, EXP_TERMS as nat);
            lemma_exp_sum_le_two(rem1);
            lemma_exp_sum_bounds(rem1, EXP_TERMS as nat);
            lemma_exp_sum_bounds(rem2, EXP_TERMS as nat);
            lemma_p2_pos(k1 as nat);
            lemma_p2_pos(k2 as nat);
            lemma_mul_inequality(s1, 2 * SI as int, p2(k1 as nat));
            assert(p2((k1 + 1) as nat) == 2 * p2(k1 as nat));
            assert(2 * SI as int * p2(k1 as nat) == SI as int * p2((k1 + 1) as nat))
                by (nonlinear_arith)
                requires
                    p2((k1 + 1) as nat) == 2 * p2(k1 as nat),
            ;
            lemma_p2_mono((k1 + 1) as nat, k2 as nat);
            lemma_mul_left_le(SI as int, p2((k1 + 1) as nat), p2(k2 as nat));
            lemma_mul_inequality(SI as int, s2, p2(k2 as nat));
            lemma_p2_pos((k1 + 1) as nat);
            lemma_div_is_ordered(s1 * p2(k1 as nat), s2 * p2(k2 as nat), SCALE as int);
        }
    }
}

/// The exponential is still monotone on nonpositive arguments, where it is
/// the reciprocal of the positive case.
pub proof fn lemma_exp_mono_nonpos(x1: int, x2: int)
    requires
        x1 <= x2 <= 0,
    ensures
        spec_exp(x1) <= spec_exp(x2),
{
    if x2 == 0 {
        lemma_exp_pos_zero();
        if x1 < 0 {
            lemma_exp_pos_ge_scale(-x1);
            lemma_div_is_ordered_by_denominator(
                SCALE as int * SCALE as int,
                SCALE as int,
                spec_exp_pos(-x1),
            );
            lemma_div_by_multiple(SCALE as int, SCALE as int);
        }
    } else {
        lemma_exp_pos_mono(-x2, -x1);
        lemma_exp_pos_ge_scale(-x2);
        lemma_div_is_ordered_by_denominator(
            SCALE as int * SCALE as int,
            spec_exp_pos(-x2),
            spec_exp_pos(-x1),
        );
    }
}

/// On nonpositive arguments the exponential stays between zero and one
/// unit.
pub proof fn lemma_exp_bounds_nonpos(x: int)
    requires
        x <= 0,
    ensures
        0 <= spec_exp(x) <= SCALE as int,
{
    if x == 0 {
        lemma_exp_pos_zero();
    } else {
        lemma_exp_pos_ge_scale(-x);
        lemma_div_is_ordered_by_denominator(
            SCALE as int * SCALE as int,
            SCALE as int,
            spec_exp_pos(-x),
        );
        lemma_div_by_multiple(SCALE as int, SCALE as int);
        lemma_div_pos_is_pos(SCALE as int * SCALE as int, spec_exp_pos(-x));
    }
}

/// The integer square root is monotone.
pub proof fn lemma_sqrt_mono(x1: int, x2: int)
    requires
        0 <= x1 <= x2,
    ensures
        crate::fixed::spec_sqrt(x1) <= crate::fixed::spec_sqrt(x2),
{
    crate::fixed::lemma_sqrt_bounds(x1);
    crate::fixed::lemma_sqrt_bounds(x2);
    let r1 = crate::fixed::spec_sqrt(x1);
    let r2 = crate::fixed::spec_sqrt(x2);
    if r1 > r2 {
        assert(false) by (nonlinear_arith)
            requires
                0 <= r2 < r1,
                r1 * r1 <= x1,
                (r2 + 1) * (r2 + 1) > x2,
                x1 <= x2,
        ;
    }
}

} // verus!
