//! A vanilla equity option pricer on a recombining binomial lattice,
//! calibrated with the Leisen-Reimer scheme, with the five standard risk
//! sensitivities (delta, gamma, theta, vega, rho) obtained by
//! finite-difference re-pricing.
//!
//! All quantities are saturating fixed-point numbers: a value counts
//! billionths, stored in a `u64` (or an `i64` where a sign is possible).
//! Where IEEE arithmetic would overflow to infinity or divide by zero,
//! these operations saturate at the boundary of the range instead; every
//! operation is total and its result is stated exactly in its contract.
//! Degenerate inputs (zero volatility, zero strike, probabilities outside
//! range) therefore produce saturated, meaningless numbers silently, never
//! a panic, and the caller is responsible for validating its inputs. The
//! one validated argument is the option-type token.

pub mod binomial_lr_option;
pub mod binomial_lr_with_greeks;
pub mod binomial_tree_option;
pub mod fixed;
pub mod stock_option;
pub mod transcend;

use crate::binomial_lr_option::BinomialLROption;
use crate::binomial_lr_with_greeks::{
    spec_delta, spec_gamma, spec_price_lr, spec_rho, spec_theta, spec_vega, BinomialLRWithGreeks,
};
use crate::binomial_tree_option::BinomialTreeOption;
use crate::stock_option::{same_params, StockOption};
use vstd::prelude::*;
use vstd::string::StringSliceAdditionalSpecFns;

verus! {

/// The failure of the one validated argument: an option-type token other
/// than `call` or `put` is an invalid-argument condition, reported with no
/// partial output.
#[derive(Clone, Copy, Debug, PartialEq, Eq, Structural)]
pub enum PricingError {
    InvalidArgument,
}

/// The UTF-8 bytes of the token `call`.
pub open spec fn spec_call_token() -> Seq<u8> {
    seq![99u8, 97u8, 108u8, 108u8]
}

/// The UTF-8 bytes of the token `put`.
pub open spec fn spec_put_token() -> Seq<u8> {
    seq![112u8, 117u8, 116u8]
}

fn is_call_token(b: &[u8]) -> (r: bool)
    ensures
        r == (b@ == spec_call_token()),
{
    if b.len() == 4 {
        let r = b[0] == 99 && b[1] == 97 && b[2] == 108 && b[3] == 108;
        proof {
            if r {
                assert(b@ =~= spec_call_token());
            }
        }
        r
    } else {
        false
    }
}

fn is_put_token(b: &[u8]) -> (r: bool)
    ensures
        r == (b@ == spec_put_token()),
{
    if b.len() == 3 {
        let r = b[0] == 112 && b[1] == 117 && b[2] == 116;
        proof {
            if r {
                assert(b@ =~= spec_put_token());
            }
        }
        r
    } else {
        false
    }
}

/// The token asks for a put.
pub open spec fn spec_wants_put(t: &str) -> bool {
    t.spec_bytes() == spec_put_token()
}

/// The handed-in parameters describe the contract `o`: every field matches,
/// with the step count clamped to at least one. The lattice is left free,
/// since no calibration or price reads it before rebuilding it.
pub open spec fn spec_contract_params(
    o: StockOption,
    s0: u64,
    k: u64,
    r: i64,
    t: u64,
    n: usize,
    pu: u64,
    pd: u64,
    dividend: i64,
    sigma: u64,
    is_put: bool,
    is_am: bool,
) -> bool {
    o.s0 == s0 && o.k == k && o.r == r && o.t == t && o.n == (if n >= 1 {
        n
    } else {
        1
    }) && o.pu == pu && o.pd == pd && o.div == dividend && o.sigma == sigma && o.is_call
        == !is_put && o.is_european == !is_am
}

/// Prices a vanilla option and its five sensitivities under the
/// Leisen-Reimer calibration. The option-type token must be exactly `call`
/// or `put`; anything else fails with `InvalidArgument` and produces no
/// partial output. No other input is validated: out-of-range values run
/// through the saturating arithmetic and come back as degenerate numbers.
pub fn calculate_option_price_and_greeks(
    s0: u64,
    k: u64,
    r: i64,
    t: u64,
    n: usize,
    pu: u64,
    pd: u64,
    dividend: i64,
    sigma: u64,
    options_type: &str,
    is_am: bool,
) -> (res: Result<(u64, i64, i64, i64, i64, i64), PricingError>)
    requires
        n + 3 <= usize::MAX,
    ensures
        res is Ok <==> (options_type.spec_bytes() == spec_call_token()
            || options_type.spec_bytes() == spec_put_token()),
        res matches Err(e) ==> e == PricingError::InvalidArgument,
        res matches Ok(v) ==> forall|o: StockOption|
            #[trigger] spec_contract_params(
                o,
                s0,
                k,
                r,
                t,
                n,
                pu,
                pd,
                dividend,
                sigma,
                spec_wants_put(options_type),
                is_am,
            ) ==> v.0 == spec_price_lr(o) && v.1 == spec_delta(o) && v.2 == spec_gamma(o) && v.3
                == spec_theta(o) && v.4 == spec_vega(o) && v.5 == spec_rho(o),
{
    let b = options_type.as_bytes();
    let call_tok = is_call_token(b);
    let put_tok = is_put_token(b);
    if !call_tok && !put_tok {
        return Err(PricingError::InvalidArgument);
    }
    let is_put = put_tok;
    let stock_option = StockOption::new(s0, k, r, t, n, pu, pd, dividend, sigma, is_put, is_am);
    let binomial_tree_option = BinomialTreeOption::new(stock_option);
    let binomial_lr_option = BinomialLROption::new(binomial_tree_option);
    let mut binomial_lr_with_greeks = BinomialLRWithGreeks::new(binomial_lr_option);
    let ghost built = binomial_lr_with_greeks.lr_option.tree.option;
    let v = binomial_lr_with_greeks.price();
    proof {
        assert forall|o: StockOption|
            #[trigger] spec_contract_params(
                o,
                s0,
                k,
                r,
                t,
                n,
                pu,
                pd,
                dividend,
                sigma,
                is_put,
                is_am,
            ) implies v.0 == spec_price_lr(o) && v.1 == spec_delta(o) && v.2 == spec_gamma(o)
            && v.3 == spec_theta(o) && v.4 == spec_vega(o) && v.5 == spec_rho(o) by {
            assert(same_params(o, built));
            crate::binomial_lr_with_greeks::lemma_greeks_same_params(o, built);
        }
    }
    Ok(v)
}

} // verus!
