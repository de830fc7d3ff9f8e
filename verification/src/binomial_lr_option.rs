//! The Leisen-Reimer calibrator: it replaces the generic up/down factors
//! and risk-neutral probabilities with values computed from an
//! inverse-normal approximation, for faster, oscillation-free convergence.

use crate::binomial_tree_option::{spec_df_u64, BinomialTreeOption};
use crate::fixed::{
    cap_u64, fadd, fdiv, fmul, fsqrt, fsub, iadd, idiv, imul_u, ineg, isub, mag, spec_add,
    spec_div, spec_fsqrt, spec_iadd, spec_idiv, spec_imul_u, spec_ineg, spec_isub, spec_mag,
    spec_mul, spec_sub, spec_u_to_i, u_to_i, HALF, SCALE,
};
use crate::stock_option::StockOption;
use crate::transcend::{fexp, fln, spec_exp, spec_ln};
use vstd::arithmetic::div_mod::{
    lemma_basic_div, lemma_div_is_ordered, lemma_div_pos_is_pos, lemma_fundamental_div_mod,
};
use vstd::arithmetic::mul::{
    lemma_mul_inequality, lemma_mul_nonnegative, lemma_mul_upper_bound,
};
use vstd::prelude::*;

verus! {

/// One third, one sixth, one tenth, at the fixed-point scale, rounded down.
pub const THIRD: u64 = 333_333_333;

pub const SIXTH: u64 = 166_666_666;

pub const TENTH: u64 = 100_000_000;

/// A step count as a fixed-point value, saturating.
pub open spec fn spec_steps_fix(n: int) -> u64 {
    cap_u64(n * SCALE as int) as u64
}

pub fn steps_fix(n: u64) -> (r: u64)
    ensures
        r == spec_steps_fix(n as int),
{
    proof {
        lemma_fundamental_div_mod(u64::MAX as int, SCALE as int);
        if n as int <= u64::MAX as int / SCALE as int {
            lemma_mul_inequality(n as int, u64::MAX as int / SCALE as int, SCALE as int);
        } else {
            lemma_mul_inequality(
                u64::MAX as int / SCALE as int + 1,
                n as int,
                SCALE as int,
            );
        }
    }
    if n > u64::MAX / SCALE {
        u64::MAX
    } else {
        n * SCALE
    }
}

/// The step count rounded up to the nearest even number.
pub open spec fn spec_even_steps(n: usize) -> usize {
    if n % 2 == 0 {
        n
    } else {
        (n + 1) as usize
    }
}

pub fn even_steps(n: usize) -> (r: usize)
    requires
        n < usize::MAX,
    ensures
        r == spec_even_steps(n),
        r % 2 == 0,
        n <= r <= n + 1,
{
    if n % 2 == 0 {
        n
    } else {
        n + 1
    }
}

/// The ceiling of the inversion's exponent: thirty units. Beyond it the
/// exponential underflows to zero anyway, so capping there changes nothing.
pub const W_CAP: u64 = 30_000_000_000;

/// The inversion's exponent `(z / c)^2 * m`, computed as `((z^2 / c) * m) / c`
/// on the raw integers so that no precision is lost in the squaring, and
/// capped at `W_CAP`.
pub open spec fn spec_pp_w(zu: u64, c: u64, m: u64) -> u64 {
    let q1 = (zu as int * zu as int) / (c as int);
    if q1 > u128::MAX as int / (m as int) {
        W_CAP
    } else {
        let w = (q1 * m as int) / (c as int);
        if w > W_CAP as int {
            W_CAP
        } else {
            w as u64
        }
    }
}

pub fn pp_w(zu: u64, c: u64, m: u64) -> (r: u64)
    requires
        c > 0,
        m > 0,
    ensures
        r == spec_pp_w(zu, c, m),
{
    proof {
        lemma_mul_upper_bound(zu as int, u64::MAX as int, zu as int, u64::MAX as int);
        lemma_div_pos_is_pos(zu as int * zu as int, c as int);
    }
    let q1: u128 = ((zu as u128) * (zu as u128)) / (c as u128);
    if q1 > u128::MAX / (m as u128) {
        W_CAP
    } else {
        proof {
            lemma_fundamental_div_mod(u128::MAX as int, m as int);
            lemma_mul_inequality(q1 as int, u128::MAX as int / m as int, m as int);
            lemma_div_pos_is_pos(q1 as int * m as int, c as int);
        }
        let w: u128 = (q1 * (m as u128)) / (c as u128);
        if w > W_CAP as u128 {
            W_CAP
        } else {
            w as u64
        }
    }
}

/// The square-root stage of the inversion:
/// `sqrt(1/4 - 1/4 * exp(-w))` for the exponent of a magnitude `zu`.
pub open spec fn spec_pp_s(zu: u64, c: u64, m: u64) -> u64 {
    let w = spec_pp_w(zu, c, m);
    let e = spec_exp(spec_ineg(spec_u_to_i(w)) as int) as u64;
    spec_fsqrt((spec_sub(SCALE, e) as int / 4) as u64)
}

/// The Peizer-Pratt second inversion of the standard normal distribution,
/// for a standardized value `z` and a period count `n`:
/// `1/2 + sign(z) * sqrt(1/4 - 1/4 * exp(-(z / (n + 1/3 + 0.1/(n+1)))^2 * (n + 1/6)))`.
/// Where IEEE arithmetic could produce a negative square-root argument and
/// fall back to 0 or 1, the saturating operations keep the argument at zero
/// or beyond on their own, so no separate guard exists.
pub open spec fn spec_pp(z: i64, n: int) -> u64 {
    let nf = spec_steps_fix(n);
    let c = spec_add(spec_add(nf, THIRD), spec_div(TENTH, spec_add(nf, SCALE)));
    let s = spec_pp_s(spec_mag(z), c, spec_add(nf, SIXTH));
    if z >= 0 {
        spec_add(HALF, s)
    } else {
        spec_sub(HALF, s)
    }
}

/// The inversion's exponent lies between zero and its cap.
pub proof fn lemma_pp_w_bounds(zu: u64, c: u64, m: u64)
    requires
        c >= 1,
        m >= 1,
    ensures
        0 <= spec_pp_w(zu, c, m) <= W_CAP,
{
    lemma_mul_nonnegative(zu as int, zu as int);
    lemma_div_pos_is_pos(zu as int * zu as int, c as int);
    let q1 = (zu as int * zu as int) / (c as int);
    if q1 <= u128::MAX as int / (m as int) {
        lemma_mul_nonnegative(q1, m as int);
        lemma_div_pos_is_pos(q1 * m as int, c as int);
    }
}

/// The inversion's exponent grows with the magnitude of `z`.
pub proof fn lemma_pp_w_mono(z1: u64, z2: u64, c: u64, m: u64)
    requires
        z1 <= z2,
        c >= 1,
        m >= 1,
    ensures
        spec_pp_w(z1, c, m) <= spec_pp_w(z2, c, m),
{
    lemma_pp_w_bounds(z1, c, m);
    lemma_pp_w_bounds(z2, c, m);
    lemma_mul_upper_bound(z1 as int, z2 as int, z1 as int, z2 as int);
    lemma_div_is_ordered(z1 as int * z1 as int, z2 as int * z2 as int, c as int);
    let q1 = (z1 as int * z1 as int) / (c as int);
    let q2 = (z2 as int * z2 as int) / (c as int);
    lemma_mul_nonnegative(z1 as int, z1 as int);
    lemma_div_pos_is_pos(z1 as int * z1 as int, c as int);
    if q2 <= u128::MAX as int / (m as int) {
        lemma_mul_inequality(q1, q2, m as int);
        lemma_div_is_ordered(q1 * m as int, q2 * m as int, c as int);
    }
}

/// The square-root stage never exceeds one half.
pub proof fn lemma_pp_s_le_half(zu: u64, c: u64, m: u64)
    requires
        c >= 1,
        m >= 1,
    ensures
        spec_pp_s(zu, c, m) <= HALF,
{
    lemma_pp_w_bounds(zu, c, m);
    let w = spec_pp_w(zu, c, m);
    let x = spec_ineg(spec_u_to_i(w)) as int;
    assert(x == -(w as int));
    if x == 0 {
        crate::transcend::lemma_exp_pos_zero();
    } else {
        crate::transcend::lemma_exp_pos_ge_scale(-x);
        vstd::arithmetic::div_mod::lemma_div_is_ordered_by_denominator(
            SCALE as int * SCALE as int,
            SCALE as int,
            crate::transcend::spec_exp_pos(-x),
        );
        vstd::arithmetic::div_mod::lemma_div_by_multiple(SCALE as int, SCALE as int);
        lemma_div_pos_is_pos(SCALE as int * SCALE as int, crate::transcend::spec_exp_pos(-x));
    }
    let e = crate::transcend::spec_exp(x) as u64;
    assert(e <= u64::MAX);
    lemma_div_is_ordered(spec_sub(SCALE, e) as int, SCALE as int, 4);
    lemma_div_pos_is_pos(spec_sub(SCALE, e) as int, 4);
    vstd::arithmetic::div_mod::lemma_div_multiples_vanish_fancy(250_000_000, 0, 4);
    let arg = (spec_sub(SCALE, e) as int / 4) as u64;
    assert(arg <= 250_000_000);
    crate::fixed::lemma_sqrt_bounds(arg as int * SCALE as int);
    lemma_mul_inequality(arg as int, 250_000_000, SCALE as int);
    let s = crate::fixed::spec_sqrt(arg as int * SCALE as int);
    assert(s <= HALF as int) by (nonlinear_arith)
        requires
            s >= 0,
            s * s <= 250_000_000 * SCALE as int,
            SCALE == 1_000_000_000,
            HALF == 500_000_000,
    ;
}

/// The square-root stage grows with the magnitude of `z`.
pub proof fn lemma_pp_s_mono(z1: u64, z2: u64, c: u64, m: u64)
    requires
        z1 <= z2,
        c >= 1,
        m >= 1,
    ensures
        spec_pp_s(z1, c, m) <= spec_pp_s(z2, c, m),
{
    lemma_pp_w_mono(z1, z2, c, m);
    lemma_pp_w_bounds(z1, c, m);
    lemma_pp_w_bounds(z2, c, m);
    let w1 = spec_pp_w(z1, c, m);
    let w2 = spec_pp_w(z2, c, m);
    let x1 = spec_ineg(spec_u_to_i(w1)) as int;
    let x2 = spec_ineg(spec_u_to_i(w2)) as int;
    assert(x1 == -(w1 as int));
    assert(x2 == -(w2 as int));
    crate::transcend::lemma_exp_mono_nonpos(x2, x1);
    crate::transcend::lemma_exp_bounds_nonpos(x1);
    crate::transcend::lemma_exp_bounds_nonpos(x2);
    let e1 = crate::transcend::spec_exp(x1) as u64;
    let e2 = crate::transcend::spec_exp(x2) as u64;
    assert(e2 <= e1);
    lemma_div_is_ordered(spec_sub(SCALE, e1) as int, spec_sub(SCALE, e2) as int, 4);
    lemma_div_pos_is_pos(spec_sub(SCALE, e1) as int, 4);
    lemma_div_pos_is_pos(spec_sub(SCALE, e2) as int, 4);
    let a1 = (spec_sub(SCALE, e1) as int / 4) as u64;
    let a2 = (spec_sub(SCALE, e2) as int / 4) as u64;
    assert(a1 <= a2);
    lemma_mul_inequality(a1 as int, a2 as int, SCALE as int);
    crate::transcend::lemma_sqrt_mono(a1 as int * SCALE as int, a2 as int * SCALE as int);
    crate::fixed::lemma_sqrt_bounds(a1 as int * SCALE as int);
    crate::fixed::lemma_sqrt_bounds(a2 as int * SCALE as int);
    vstd::arithmetic::div_mod::lemma_div_multiples_vanish_fancy(250_000_000, 0, 4);
    lemma_div_is_ordered(spec_sub(SCALE, e2) as int, SCALE as int, 4);
    lemma_mul_inequality(a2 as int, 250_000_000, SCALE as int);
    let s1 = crate::fixed::spec_sqrt(a1 as int * SCALE as int);
    let s2 = crate::fixed::spec_sqrt(a2 as int * SCALE as int);
    assert(s2 <= HALF as int) by (nonlinear_arith)
        requires
            s2 >= 0,
            s2 * s2 <= 250_000_000 * SCALE as int,
            SCALE == 1_000_000_000,
            HALF == 500_000_000,
    ;
    assert(s1 <= s2);
    assert(spec_pp_s(z1, c, m) == s1 as u64);
    assert(spec_pp_s(z2, c, m) == s2 as u64);
}

/// The inverse-normal approximation is monotone non-decreasing in its
/// standardized argument, for any period count.
pub proof fn lemma_pp_monotone(z1: i64, z2: i64, n: int)
    requires
        z1 <= z2,
    ensures
        spec_pp(z1, n) <= spec_pp(z2, n),
{
    let nf = spec_steps_fix(n);
    let c = spec_add(spec_add(nf, THIRD), spec_div(TENTH, spec_add(nf, SCALE)));
    let m = spec_add(nf, SIXTH);
    assert(c >= 1);
    assert(m >= 1);
    let m1 = spec_mag(z1);
    let m2 = spec_mag(z2);
    lemma_pp_s_le_half(m1, c, m);
    lemma_pp_s_le_half(m2, c, m);
    if z1 >= 0 {
        lemma_pp_s_mono(m1, m2, c, m);
    } else if z2 < 0 {
        lemma_pp_s_mono(m2, m1, c, m);
    }
}

/// The natural logarithm of the spot over the strike.
pub open spec fn spec_log_moneyness(o: StockOption) -> i64 {
    spec_ln(spec_div(o.s0, o.k))
}

/// Half the squared volatility.
pub open spec fn spec_sigma_sq_half(o: StockOption) -> u64 {
    (spec_mul(o.sigma, o.sigma) as int / 2) as u64
}

/// The volatility times the square root of the time to expiry.
pub open spec fn spec_sig_sqrt_t(o: StockOption) -> u64 {
    spec_mul(o.sigma, spec_fsqrt(o.t))
}

/// The standardized distance `d1`:
/// `(ln(s0/k) + (r - div + sigma^2/2) * t) / (sigma * sqrt(t))`.
pub open spec fn spec_d1(o: StockOption) -> i64 {
    spec_idiv(
        spec_iadd(
            spec_log_moneyness(o),
            spec_imul_u(
                spec_iadd(spec_isub(o.r, o.div), spec_u_to_i(spec_sigma_sq_half(o))),
                o.t,
            ),
        ),
        spec_u_to_i(spec_sig_sqrt_t(o)),
    )
}

/// The standardized distance `d2`: as `d1`, with `- sigma^2/2` in place of
/// `+ sigma^2/2`.
pub open spec fn spec_d2(o: StockOption) -> i64 {
    spec_idiv(
        spec_iadd(
            spec_log_moneyness(o),
            spec_imul_u(
                spec_isub(spec_isub(o.r, o.div), spec_u_to_i(spec_sigma_sq_half(o))),
                o.t,
            ),
        ),
        spec_u_to_i(spec_sig_sqrt_t(o)),
    )
}

/// The step count the calibration runs on, as an integer.
pub open spec fn spec_even_of(o: StockOption) -> int {
    spec_even_steps(o.n) as int
}

/// The Leisen-Reimer probability parameters.
pub open spec fn spec_lr_pbar(o: StockOption) -> u64 {
    spec_pp(spec_d1(o), spec_even_of(o))
}

pub open spec fn spec_lr_p(o: StockOption) -> u64 {
    spec_pp(spec_d2(o), spec_even_of(o))
}

/// The reciprocal of the per-step discount factor.
pub open spec fn spec_inv_df(o: StockOption) -> u64 {
    spec_div(SCALE, spec_df_u64(o))
}

/// The Leisen-Reimer up factor: `(1/df) * pbar / p`.
pub open spec fn spec_lr_u(o: StockOption) -> u64 {
    spec_div(spec_mul(spec_inv_df(o), spec_lr_pbar(o)), spec_lr_p(o))
}

/// The Leisen-Reimer down factor: `(1/df - p * u) / (1 - p)`.
pub open spec fn spec_lr_d(o: StockOption) -> u64 {
    spec_div(
        spec_sub(spec_inv_df(o), spec_mul(spec_lr_p(o), spec_lr_u(o))),
        spec_sub(SCALE, spec_lr_p(o)),
    )
}

/// The Leisen-Reimer calibration reads the spot, the strike, the rate, the
/// time, the step count, the dividend yield and the volatility, and nothing
/// else: two contracts that agree there calibrate alike.
pub proof fn lemma_calibration_same(o1: StockOption, o2: StockOption)
    requires
        o1.s0 == o2.s0,
        o1.k == o2.k,
        o1.r == o2.r,
        o1.t == o2.t,
        o1.n == o2.n,
        o1.div == o2.div,
        o1.sigma == o2.sigma,
    ensures
        spec_df_u64(o1) == spec_df_u64(o2),
        spec_lr_pbar(o1) == spec_lr_pbar(o2),
        spec_lr_p(o1) == spec_lr_p(o2),
        spec_lr_u(o1) == spec_lr_u(o2),
        spec_lr_d(o1) == spec_lr_d(o2),
{
    assert(o1.spec_dt() == o2.spec_dt());
    assert(o1.spec_df() == o2.spec_df());
    assert(spec_log_moneyness(o1) == spec_log_moneyness(o2));
    assert(spec_sigma_sq_half(o1) == spec_sigma_sq_half(o2));
    assert(spec_sig_sqrt_t(o1) == spec_sig_sqrt_t(o2));
    assert(spec_d1(o1) == spec_d1(o2));
    assert(spec_d2(o1) == spec_d2(o2));
    assert(spec_even_of(o1) == spec_even_of(o2));
    assert(spec_lr_pbar(o1) == spec_lr_pbar(o2));
    assert(spec_lr_p(o1) == spec_lr_p(o2));
    assert(spec_inv_df(o1) == spec_inv_df(o2));
}

/// The Leisen-Reimer pricer: the generic lattice engine it drives, and the
/// probability parameter of the latest calibration.
pub struct BinomialLROption {
    pub tree: BinomialTreeOption,
    pub p: u64,
}

impl BinomialLROption {
    pub fn new(tree: BinomialTreeOption) -> (res: Self)
        ensures
            res.tree == tree,
            res.p == 0,
    {
        BinomialLROption { tree, p: 0 }
    }

    /// The inverse-normal approximation, exactly as `spec_pp` states it.
    /// At zero it is one half exactly, and it never leaves `[0, 1]`.
    pub fn pp_2_inversion(&self, z: i64, n: usize) -> (r: u64)
        ensures
            r == spec_pp(z, n as int),
            r <= SCALE,
            z == 0 ==> r == HALF,
    {
        let nf = steps_fix(n as u64);
        let c = fadd(fadd(nf, THIRD), fdiv(TENTH, fadd(nf, SCALE)));
        let m = fadd(nf, SIXTH);
        let w = pp_w(mag(z), c, m);
        let e = fexp(ineg(u_to_i(w)));
        let arg: u64 = fsub(SCALE, e) / 4;
        let s = fsqrt(arg);
        proof {
            assert(s <= HALF) by (nonlinear_arith)
                requires
                    s as int * s as int <= arg as int * SCALE as int,
                    arg <= 250_000_000,
                    SCALE == 1_000_000_000,
                    HALF == 500_000_000,
                    s >= 0,
            ;
            if z == 0 {
                assert(spec_mag(z) == 0);
                assert(0 as int * 0 as int == 0);
                lemma_basic_div(0, c as int);
                lemma_div_pos_is_pos(u128::MAX as int, m as int);
                assert(0 as int * m as int == 0);
                assert(w == 0);
                assert(e == SCALE);
                assert(arg == 0);
                assert(s as int * s as int <= 0);
                assert(s == 0) by (nonlinear_arith)
                    requires
                        s as int * s as int <= 0,
                        s >= 0,
                ;
            }
        }
        if z >= 0 {
            fadd(HALF, s)
        } else {
            fsub(HALF, s)
        }
    }

    /// The Leisen-Reimer calibration: rounds the step count up to even,
    /// computes `d1` and `d2` in the Black-Scholes form, runs both through
    /// the inverse-normal approximation, and overwrites the engine's
    /// factors and probabilities.
    pub fn setup_parameters(&mut self)
        requires
            old(self).tree.option.wf(),
            old(self).tree.option.n < usize::MAX,
        ensures
            final(self).tree.option == old(self).tree.option,
            final(self).p == spec_lr_p(old(self).tree.option),
            final(self).tree.u == spec_lr_u(old(self).tree.option),
            final(self).tree.d == spec_lr_d(old(self).tree.option),
            final(self).tree.qu == spec_lr_p(old(self).tree.option),
            final(self).tree.qd == spec_sub(SCALE, spec_lr_p(old(self).tree.option)),
    {
        let even = even_steps(self.tree.option.n);
        let lm = fln(fdiv(self.tree.option.s0, self.tree.option.k));
        let ssh: u64 = fmul(self.tree.option.sigma, self.tree.option.sigma) / 2;
        let sst = fmul(self.tree.option.sigma, fsqrt(self.tree.option.t));
        let m = isub(self.tree.option.r, self.tree.option.div);
        let num1 = iadd(lm, imul_u(iadd(m, u_to_i(ssh)), self.tree.option.t));
        let num2 = iadd(lm, imul_u(isub(m, u_to_i(ssh)), self.tree.option.t));
        let d1 = idiv(num1, u_to_i(sst));
        let d2 = idiv(num2, u_to_i(sst));
        let pbar = self.pp_2_inversion(d1, even);
        let p = self.pp_2_inversion(d2, even);
        let df = self.tree.option.df();
        let inv = fdiv(SCALE, df);
        let up = fdiv(fmul(inv, pbar), p);
        let down = fdiv(fsub(inv, fmul(p, up)), fsub(SCALE, p));
        self.tree.u = up;
        self.tree.d = down;
        self.tree.qu = p;
        self.tree.qd = fsub(SCALE, p);
        self.p = p;
    }
}

} // verus!
