//! Unit tests of the saturating fixed-point arithmetic and of the
//! exponential, logarithm and square root underneath the pricer.

use numerical_options::binomial_lr_option::even_steps;
use numerical_options::fixed::{fadd, fdiv, fmul, fsqrt, fsub, iadd, idiv, imul_u, ineg, isub};
use numerical_options::transcend::{fexp, fln};

const SCALE: u64 = 1_000_000_000;

#[test]
fn products_and_quotients_are_exact() {
    // 1.5 * 2.0 == 3.0 and 3.0 / 2.0 == 1.5, to the last billionth.
    assert_eq!(fmul(1_500_000_000, 2_000_000_000), 3_000_000_000);
    assert_eq!(fdiv(3_000_000_000, 2_000_000_000), 1_500_000_000);
    assert_eq!(fmul(SCALE, SCALE), SCALE);
    assert_eq!(fdiv(SCALE, SCALE), SCALE);
    assert_eq!(fmul(0, u64::MAX), 0);
}

#[test]
fn saturation_replaces_infinity() {
    assert_eq!(fdiv(SCALE, 0), u64::MAX);
    assert_eq!(fadd(u64::MAX, 1), u64::MAX);
    assert_eq!(fmul(u64::MAX, u64::MAX), u64::MAX);
    assert_eq!(fsub(1, 2), 0);
    assert_eq!(iadd(i64::MAX, 1), i64::MAX);
    assert_eq!(isub(i64::MIN, 1), i64::MIN);
    assert_eq!(ineg(i64::MIN), i64::MAX);
    assert_eq!(idiv(SCALE as i64, 0), i64::MAX);
    assert_eq!(idiv(-(SCALE as i64), 0), i64::MIN);
}

#[test]
fn signed_operations_keep_signs() {
    assert_eq!(imul_u(-2_000_000_000, 1_500_000_000), -3_000_000_000);
    assert_eq!(idiv(-3_000_000_000, 2_000_000_000), -1_500_000_000);
    assert_eq!(idiv(3_000_000_000, -2_000_000_000), -1_500_000_000);
    assert_eq!(idiv(-3_000_000_000, -2_000_000_000), 1_500_000_000);
    assert_eq!(idiv(0, -5), 0);
}

#[test]
fn square_root_is_exact_on_squares() {
    assert_eq!(fsqrt(0), 0);
    assert_eq!(fsqrt(SCALE), SCALE);
    assert_eq!(fsqrt(4 * SCALE), 2 * SCALE);
    assert_eq!(fsqrt(2_250_000_000), 1_500_000_000);
    // sqrt(2) to a billionth: 1.414213562...
    let r = fsqrt(2 * SCALE);
    assert!((r as i64 - 1_414_213_562).abs() <= 1, "{r}");
}

#[test]
fn exponential_matches_the_real_one() {
    assert_eq!(fexp(0), SCALE);
    let e1 = fexp(SCALE as i64);
    assert!((e1 as f64 / SCALE as f64 - std::f64::consts::E).abs() < 1e-6, "{e1}");
    let em1 = fexp(-(SCALE as i64));
    assert!((em1 as f64 / SCALE as f64 - (-1.0f64).exp()).abs() < 1e-6, "{em1}");
    let big = fexp(-100 * SCALE as i64);
    assert_eq!(big, 0);
    assert_eq!(fexp(i64::MAX), u64::MAX);
}

#[test]
fn logarithm_matches_the_real_one() {
    assert_eq!(fln(SCALE), 0);
    let l2 = fln(2 * SCALE);
    assert!((l2 as f64 / SCALE as f64 - 2.0f64.ln()).abs() < 1e-6, "{l2}");
    let lh = fln(SCALE / 2);
    assert!((lh as f64 / SCALE as f64 + 2.0f64.ln()).abs() < 1e-6, "{lh}");
    let l10 = fln(10 * SCALE);
    assert!((l10 as f64 / SCALE as f64 - 10.0f64.ln()).abs() < 1e-6, "{l10}");
    assert_eq!(fln(0), i64::MIN);
    // round trip: ln(exp(x)) is x to within a few billionths
    for x in [-3_000_000_000i64, -250_000_000, 750_000_000, 5_000_000_000] {
        let back = fln(fexp(x));
        assert!((back - x).abs() < 100, "x {x} back {back}");
    }
}

#[test]
fn step_rounding_is_even_and_tight() {
    assert_eq!(even_steps(0), 0);
    assert_eq!(even_steps(1), 2);
    assert_eq!(even_steps(4), 4);
    assert_eq!(even_steps(5), 6);
    assert_eq!(even_steps(300), 300);
    assert_eq!(even_steps(301), 302);
}
