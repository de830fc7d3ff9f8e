//! End-to-end tests of the Leisen-Reimer lattice pricer, against a
//! closed-form Black-Scholes reference computed in floating point.

use numerical_options::binomial_lr_option::BinomialLROption;
use numerical_options::binomial_lr_with_greeks::BinomialLRWithGreeks;
use numerical_options::binomial_tree_option::BinomialTreeOption;
use numerical_options::calculate_option_price_and_greeks;
use numerical_options::stock_option::StockOption;
use numerical_options::PricingError;

const SCALE: f64 = 1_000_000_000.0;

fn fx(x: f64) -> u64 {
    (x * SCALE).round() as u64
}

fn ix(x: f64) -> i64 {
    (x * SCALE).round() as i64
}

fn to_f(v: u64) -> f64 {
    v as f64 / SCALE
}

fn to_fi(v: i64) -> f64 {
    v as f64 / SCALE
}

/// The cumulative standard normal distribution, by the Abramowitz-Stegun
/// polynomial approximation (absolute error below 1e-7).
fn norm_cdf(x: f64) -> f64 {
    let t = 1.0 / (1.0 + 0.2316419 * x.abs());
    let d = 0.3989422804014327 * (-x * x / 2.0).exp();
    let p = d * t
        * (0.319381530
            + t * (-0.356563782 + t * (1.781477937 + t * (-1.821255978 + t * 1.330274429))));
    if x >= 0.0 {
        1.0 - p
    } else {
        p
    }
}

fn black_scholes_call(s: f64, k: f64, r: f64, q: f64, t: f64, sigma: f64) -> f64 {
    let d1 = ((s / k).ln() + (r - q + sigma * sigma / 2.0) * t) / (sigma * t.sqrt());
    let d2 = d1 - sigma * t.sqrt();
    s * (-q * t).exp() * norm_cdf(d1) - k * (-r * t).exp() * norm_cdf(d2)
}

fn lr_price(
    s0: f64,
    k: f64,
    r: f64,
    t: f64,
    n: usize,
    q: f64,
    sigma: f64,
    is_put: bool,
    is_am: bool,
) -> (f64, f64, f64, f64, f64, f64) {
    let option = StockOption::new(
        fx(s0),
        fx(k),
        ix(r),
        fx(t),
        n,
        0,
        0,
        ix(q),
        fx(sigma),
        is_put,
        is_am,
    );
    let tree = BinomialTreeOption::new(option);
    let lr = BinomialLROption::new(tree);
    let mut greeks = BinomialLRWithGreeks::new(lr);
    let (price, delta, gamma, theta, vega, rho) = greeks.price();
    (
        to_f(price),
        to_fi(delta),
        to_fi(gamma),
        to_fi(theta),
        to_fi(vega),
        to_fi(rho),
    )
}

#[test]
fn end_to_end_scenario() {
    // spot 50, strike 52, rate 5%, two years, 300 steps, no dividend,
    // volatility 30%, European call: the price matches Black-Scholes.
    let (price, delta, gamma, _theta, vega, rho) =
        lr_price(50.0, 52.0, 0.05, 2.0, 300, 0.0, 0.3, false, false);
    assert!((price - 9.70).abs() <= 0.10, "price {price}");
    assert!(delta > 0.0 && delta < 1.0, "delta {delta}");
    assert!(gamma > 0.0, "gamma {gamma}");
    assert!(vega > 0.0, "vega {vega}");
    assert!(rho > 0.0, "rho {rho}");
    let reference = black_scholes_call(50.0, 52.0, 0.05, 0.0, 2.0, 0.3);
    assert!((price - reference).abs() < 0.05, "price {price} vs {reference}");
}

#[test]
fn entry_point_scenario() {
    let got = calculate_option_price_and_greeks(
        fx(50.0),
        fx(52.0),
        ix(0.05),
        fx(2.0),
        300,
        0,
        0,
        0,
        fx(0.3),
        "call",
        false,
    );
    let (price, delta, gamma, _theta, vega, rho) = got.expect("valid token");
    assert!((to_f(price) - 9.70).abs() <= 0.10);
    assert!(to_fi(delta) > 0.0 && to_fi(delta) < 1.0);
    assert!(to_fi(gamma) > 0.0);
    assert!(to_fi(vega) > 0.0);
    assert!(to_fi(rho) > 0.0);
}

#[test]
fn invalid_option_type_is_rejected() {
    for bad in ["fish", "", "CALL", "callx", "pu", "putt", "c"] {
        let got = calculate_option_price_and_greeks(
            fx(50.0),
            fx(52.0),
            ix(0.05),
            fx(2.0),
            10,
            0,
            0,
            0,
            fx(0.3),
            bad,
            false,
        );
        assert_eq!(got, Err(PricingError::InvalidArgument), "token {bad:?}");
    }
    assert!(calculate_option_price_and_greeks(
        fx(50.0),
        fx(52.0),
        ix(0.05),
        fx(2.0),
        10,
        0,
        0,
        0,
        fx(0.3),
        "put",
        false,
    )
    .is_ok());
}

#[test]
fn step_count_is_clamped() {
    let o = StockOption::new(fx(50.0), fx(52.0), 0, fx(1.0), 0, 0, 0, 0, fx(0.3), false, false);
    assert_eq!(o.n, 1);
    let o = StockOption::new(fx(50.0), fx(52.0), 0, fx(1.0), 7, 0, 0, 0, fx(0.3), false, false);
    assert_eq!(o.n, 7);
}

#[test]
fn inverse_normal_at_zero_is_half() {
    let option = StockOption::new(fx(50.0), fx(52.0), 0, fx(1.0), 4, 0, 0, 0, fx(0.3), false, false);
    let lr = BinomialLROption::new(BinomialTreeOption::new(option));
    for n in [1usize, 2, 10, 100, 300, 301] {
        assert_eq!(lr.pp_2_inversion(0, n), 500_000_000, "n {n}");
    }
}

#[test]
fn inverse_normal_is_monotone() {
    let option = StockOption::new(fx(50.0), fx(52.0), 0, fx(1.0), 4, 0, 0, 0, fx(0.3), false, false);
    let lr = BinomialLROption::new(BinomialTreeOption::new(option));
    for n in [2usize, 10, 300] {
        let mut last = 0u64;
        let mut z = -3.0f64;
        while z <= 3.0 {
            let p = lr.pp_2_inversion(ix(z), n);
            assert!(p >= last, "z {z} n {n}: {p} < {last}");
            assert!(p <= 1_000_000_000);
            last = p;
            z += 0.01;
        }
    }
}

#[test]
fn american_at_least_european() {
    // An American put on a deep in-the-money scenario is worth strictly
    // keeping the early-exercise right; a call without dividends is not,
    // but must never price below the European one.
    for is_put in [false, true] {
        let (eu, ..) = lr_price(50.0, 52.0, 0.05, 2.0, 100, 0.0, 0.3, is_put, false);
        let (am, ..) = lr_price(50.0, 52.0, 0.05, 2.0, 100, 0.0, 0.3, is_put, true);
        assert!(am >= eu, "is_put {is_put}: {am} < {eu}");
    }
    let (eu_put, ..) = lr_price(50.0, 80.0, 0.10, 2.0, 100, 0.0, 0.2, true, false);
    let (am_put, ..) = lr_price(50.0, 80.0, 0.10, 2.0, 100, 0.0, 0.2, true, true);
    assert!(am_put > eu_put, "deep put: {am_put} vs {eu_put}");
    // The early-exercise floor holds at the root too: the American put is
    // worth at least its immediate exercise value.
    assert!(am_put >= 80.0 - 50.0 - 1e-6, "{am_put}");
}

#[test]
fn generic_tree_american_at_least_european() {
    let mk = |is_am: bool| {
        let option = StockOption::new(
            fx(50.0),
            fx(52.0),
            ix(0.05),
            fx(1.0),
            50,
            fx(0.2),
            fx(0.2),
            0,
            fx(0.3),
            true,
            is_am,
        );
        let mut tree = BinomialTreeOption::new(option);
        tree.price()
    };
    let eu = mk(false);
    let am = mk(true);
    assert!(am >= eu, "{am} < {eu}");
}

#[test]
fn put_call_parity_european() {
    let (call, ..) = lr_price(50.0, 52.0, 0.05, 2.0, 100, 0.0, 0.3, false, false);
    let (put, ..) = lr_price(50.0, 52.0, 0.05, 2.0, 100, 0.0, 0.3, true, false);
    let forward = 50.0 - 52.0 * (-0.05f64 * 2.0).exp();
    assert!(
        (call - put - forward).abs() < 0.02,
        "call {call} put {put} forward {forward}"
    );
}

#[test]
fn lr_error_shrinks_where_generic_oscillates() {
    // As the step count grows, the Leisen-Reimer error moves steadily in
    // one direction toward zero — no oscillation — while the generic
    // calibration's error oscillates: it changes sign between step counts
    // and can grow again from one step count to the next.
    let s = 50.0;
    let k = 52.0;
    let r = 0.05;
    let t = 2.0;
    let sigma = 0.3;
    let reference = black_scholes_call(s, k, r, 0.0, t, sigma);
    let lr_err = |n: usize| lr_price(s, k, r, t, n, 0.0, sigma, false, false).0 - reference;
    let generic_err = |n: usize| {
        let dt = t / n as f64;
        let up = (sigma * dt.sqrt()).exp();
        let down = (-sigma * dt.sqrt()).exp();
        let option = StockOption::new(
            fx(s),
            fx(k),
            ix(r),
            fx(t),
            n,
            fx(up - 1.0),
            fx(1.0 - down),
            0,
            fx(sigma),
            false,
            false,
        );
        let mut tree = BinomialTreeOption::new(option);
        to_f(tree.price()) - reference
    };
    let (e50, e100, e200, e300) = (lr_err(50), lr_err(100), lr_err(200), lr_err(300));
    assert!(e50 < e100 && e100 < e200 && e200 < e300 && e300 < 0.0, "{e50} {e100} {e200} {e300}");
    assert!(e300.abs() < 0.05, "{e300}");
    let (g10, g20, g25) = (generic_err(10), generic_err(20), generic_err(25));
    assert!(g10 < 0.0 && g20 > 0.0, "sign flip expected: {g10} {g20}");
    assert!(g25.abs() > g20.abs(), "growing again: {g20} {g25}");
}

#[test]
fn volatility_bump_increases_price() {
    let (base, _, _, _, vega, _) = lr_price(50.0, 52.0, 0.05, 2.0, 100, 0.0, 0.3, false, false);
    let (bumped, ..) = lr_price(50.0, 52.0, 0.05, 2.0, 100, 0.0, 0.31, false, false);
    assert!(vega > 0.0);
    assert!(bumped > base, "{bumped} <= {base}");
}

#[test]
fn greeks_match_black_scholes_roughly() {
    let (_, delta, gamma, theta, vega, rho) =
        lr_price(50.0, 52.0, 0.05, 2.0, 300, 0.0, 0.3, false, false);
    // Closed-form values for the scenario: delta = N(d1), gamma =
    // phi(d1) / (s sigma sqrt(t)), vega = s sqrt(t) phi(d1),
    // rho = k t exp(-rt) N(d2).
    let d1 = ((50.0f64 / 52.0).ln() + (0.05 + 0.045) * 2.0) / (0.3 * 2.0f64.sqrt());
    let d2 = d1 - 0.3 * 2.0f64.sqrt();
    let phi = 0.3989422804014327 * (-d1 * d1 / 2.0f64).exp();
    assert!((delta - norm_cdf(d1)).abs() < 0.02, "delta {delta}");
    assert!((gamma - phi / (50.0 * 0.3 * 2.0f64.sqrt())).abs() < 0.005, "gamma {gamma}");
    assert!((vega - 50.0 * 2.0f64.sqrt() * phi).abs() < 1.0, "vega {vega}");
    assert!((rho - 52.0 * 2.0 * (-0.1f64).exp() * norm_cdf(d2)).abs() < 1.0, "rho {rho}");
    // Theta here is -(V(T - dt) - V(T)) / dt, the growth of the value in
    // the time to expiry: positive for this call. Its tiny increment
    // divides away all but a few of the price's billionths, so the
    // tolerance is wider than for the other sensitivities.
    let theta_reference = 0.05 * 52.0 * (-0.1f64).exp() * norm_cdf(d2)
        + 0.3 * 50.0 * phi / (2.0 * 2.0f64.sqrt());
    assert!((theta - theta_reference).abs() < 1.2, "theta {theta} vs {theta_reference}");
}
