//! The Greeks orchestrator: it builds a three-node-wide first level so that
//! one backward induction pass yields the option value and its immediate
//! up/down neighbours, derives delta and gamma from that spread, and
//! obtains theta, vega and rho by bumping a parameter, recalibrating,
//! rebuilding the whole lattice, repricing, and restoring the parameter.
//! Nothing is cached: every bumped parameter set gets its own
//! calibrate-build-traverse cycle.
//!
//! Theta is computed by the bump-and-reprice route: the time to expiry is
//! lowered by a small increment, the engine is recalibrated and repriced,
//! and the difference is divided by the increment.

use crate::binomial_lr_option::{spec_lr_d, spec_lr_p, spec_lr_u, BinomialLROption};
use crate::binomial_tree_option::{
    build_lattice, lattice_view, lemma_lattice_shape, lemma_traverse_len, spec_df_u64,
    spec_lattice, spec_terminal, spec_traverse,
};
use crate::fixed::{
    fadd, fdiv, fmul, fsub, iadd, idiv, ineg, isub, isub_u, spec_add, spec_div, spec_iadd,
    spec_idiv, spec_ineg, spec_isub, spec_isub_u, spec_mag, spec_mul, spec_sub, SCALE,
};
use crate::stock_option::{same_params, StockOption};
use vstd::prelude::*;

verus! {

/// The perturbation of the time to expiry used for theta.
pub const TIME_BUMP: u64 = 100_000;

/// The perturbation of the volatility and of the rate used for vega and rho.
pub const RATE_BUMP: u64 = 10_000_000;

/// The three-node first level: the spot times `u/d`, the spot, and the spot
/// times `d/u`.
pub open spec fn spec_level0_3(s0: u64, up: u64, down: u64) -> Seq<u64> {
    seq![
        spec_mul(s0, spec_div(up, down)),
        s0,
        spec_mul(s0, spec_div(down, up)),
    ]
}

/// The three-wide lattice of a contract under its Leisen-Reimer calibration.
pub open spec fn spec_lat3(o: StockOption) -> Seq<Seq<u64>> {
    spec_lattice(spec_level0_3(o.s0, spec_lr_u(o), spec_lr_d(o)), spec_lr_u(o), spec_lr_d(o), o.n as nat)
}

/// Repricing over a fixed lattice with the Leisen-Reimer calibration of
/// `o`: terminal payoffs from the lattice's last level, then backward
/// induction.
pub open spec fn spec_reprice(o: StockOption, lat: Seq<Seq<u64>>) -> Seq<u64> {
    spec_traverse(
        spec_terminal(lat[o.n as int], o.k, o.is_call),
        lat,
        o.n as nat,
        spec_lr_p(o),
        spec_sub(SCALE, spec_lr_p(o)),
        spec_df_u64(o),
        o.k,
        o.is_call,
        o.is_european,
    )
}

/// The middle of the three surviving values: the option price.
pub open spec fn spec_mid(o: StockOption, lat: Seq<Seq<u64>>) -> u64 {
    spec_reprice(o, lat)[1]
}

/// The Leisen-Reimer price of the contract.
pub open spec fn spec_price_lr(o: StockOption) -> u64 {
    spec_mid(o, spec_lat3(o))
}

/// Delta: the spread of the up and down values over the spread of the up
/// and down first-level prices.
pub open spec fn spec_delta(o: StockOption) -> i64 {
    let lat = spec_lat3(o);
    let res = spec_reprice(o, lat);
    spec_idiv(spec_isub_u(res[0], res[2]), spec_isub_u(lat[0][0], lat[0][2]))
}

/// Gamma: the discretized second derivative, using the midpoints between
/// the spot and each neighbour as the effective grid spacing.
pub open spec fn spec_gamma(o: StockOption) -> i64 {
    let lat = spec_lat3(o);
    let res = spec_reprice(o, lat);
    let s_up = lat[0][0];
    let s_down = lat[0][2];
    let a = spec_idiv(spec_isub_u(res[0], res[1]), spec_isub_u(s_up, o.s0));
    let b = spec_idiv(spec_isub_u(res[1], res[2]), spec_isub_u(o.s0, s_down));
    let hu = (spec_add(o.s0, s_up) as int / 2) as u64;
    let hd = (spec_add(o.s0, s_down) as int / 2) as u64;
    spec_idiv(spec_isub(a, b), spec_isub_u(hu, hd))
}

/// The contract with its time to expiry lowered by the theta perturbation.
pub open spec fn spec_time_bumped(o: StockOption) -> StockOption {
    StockOption { t: spec_sub(o.t, TIME_BUMP), ..o }
}

/// The contract with its volatility raised by the vega perturbation.
pub open spec fn spec_vol_bumped(o: StockOption) -> StockOption {
    StockOption { sigma: spec_add(o.sigma, RATE_BUMP), ..o }
}

/// The contract with its rate raised by the rho perturbation.
pub open spec fn spec_rate_bumped(o: StockOption) -> StockOption {
    StockOption { r: spec_iadd(o.r, RATE_BUMP as i64), ..o }
}

/// Theta: minus the change of the price under the time perturbation, over
/// the perturbation. The whole lattice is recomputed for the perturbed
/// contract, as for every bumped parameter set.
pub open spec fn spec_theta(o: StockOption) -> i64 {
    let v = spec_price_lr(o);
    let vt = spec_price_lr(spec_time_bumped(o));
    spec_ineg(spec_idiv(spec_isub_u(vt, v), TIME_BUMP as i64))
}

/// Vega: the change of the price under the volatility perturbation, over
/// the perturbation, with the lattice recomputed for the perturbed
/// contract.
pub open spec fn spec_vega(o: StockOption) -> i64 {
    let v = spec_price_lr(o);
    let vs = spec_price_lr(spec_vol_bumped(o));
    spec_idiv(spec_isub_u(vs, v), RATE_BUMP as i64)
}

/// Rho: the change of the price under the rate perturbation, over the
/// perturbation, with the lattice recomputed for the perturbed contract.
pub open spec fn spec_rho(o: StockOption) -> i64 {
    let v = spec_price_lr(o);
    let vr = spec_price_lr(spec_rate_bumped(o));
    spec_idiv(spec_isub_u(vr, v), RATE_BUMP as i64)
}

/// The calibration and the repricing read the contract's parameters only,
/// never its lattice buffer: two contracts that agree on every parameter
/// reprice alike over any lattice.
pub proof fn lemma_reprice_same_params(o1: StockOption, o2: StockOption, lat: Seq<Seq<u64>>)
    requires
        same_params(o1, o2),
    ensures
        spec_lr_u(o1) == spec_lr_u(o2),
        spec_lr_d(o1) == spec_lr_d(o2),
        spec_lr_p(o1) == spec_lr_p(o2),
        spec_reprice(o1, lat) == spec_reprice(o2, lat),
{
    crate::binomial_lr_option::lemma_calibration_same(o1, o2);
}

/// The price and every sensitivity read the contract's parameters only:
/// two contracts that agree on every parameter price alike.
pub proof fn lemma_greeks_same_params(o1: StockOption, o2: StockOption)
    requires
        same_params(o1, o2),
    ensures
        spec_price_lr(o1) == spec_price_lr(o2),
        spec_delta(o1) == spec_delta(o2),
        spec_gamma(o1) == spec_gamma(o2),
        spec_theta(o1) == spec_theta(o2),
        spec_vega(o1) == spec_vega(o2),
        spec_rho(o1) == spec_rho(o2),
{
    lemma_reprice_same_params(o1, o2, spec_lat3(o1));
    assert(spec_lat3(o1) == spec_lat3(o2));
    assert(same_params(spec_time_bumped(o1), spec_time_bumped(o2)));
    lemma_reprice_same_params(spec_time_bumped(o1), spec_time_bumped(o2), spec_lat3(o1));
    assert(same_params(spec_vol_bumped(o1), spec_vol_bumped(o2)));
    lemma_reprice_same_params(spec_vol_bumped(o1), spec_vol_bumped(o2), spec_lat3(o1));
    assert(same_params(spec_rate_bumped(o1), spec_rate_bumped(o2)));
    lemma_reprice_same_params(spec_rate_bumped(o1), spec_rate_bumped(o2), spec_lat3(o1));
}

/// Early exercise never destroys value: with every other parameter equal,
/// the American Leisen-Reimer price is at least the European one.
pub proof fn lemma_lr_price_american_geq(o_e: StockOption, o_a: StockOption)
    requires
        o_e.s0 == o_a.s0,
        o_e.k == o_a.k,
        o_e.r == o_a.r,
        o_e.t == o_a.t,
        o_e.n == o_a.n,
        o_e.pu == o_a.pu,
        o_e.pd == o_a.pd,
        o_e.div == o_a.div,
        o_e.sigma == o_a.sigma,
        o_e.is_call == o_a.is_call,
        o_e.is_european == true,
        o_a.is_european == false,
    ensures
        spec_price_lr(o_e) <= spec_price_lr(o_a),
{
    crate::binomial_lr_option::lemma_calibration_same(o_e, o_a);
    let up = spec_lr_u(o_e);
    let down = spec_lr_d(o_e);
    let p = spec_lr_p(o_e);
    let lat = spec_lat3(o_e);
    assert(spec_lat3(o_a) == lat);
    lemma_lattice_shape(spec_level0_3(o_e.s0, up, down), up, down, o_e.n as nat);
    let term = spec_terminal(lat[o_e.n as int], o_e.k, o_e.is_call);
    crate::binomial_tree_option::lemma_traverse_american_geq(
        term,
        term,
        lat,
        o_e.n as nat,
        p,
        spec_sub(SCALE, p),
        spec_df_u64(o_e),
        o_e.k,
        o_e.is_call,
        3,
    );
}

/// A positive vega is exactly the statement that repricing with the bumped
/// volatility comes out strictly above the base price.
pub proof fn lemma_vega_positive_means_dearer(o: StockOption)
    ensures
        spec_vega(o) > 0 <==> spec_price_lr(spec_vol_bumped(o)) > spec_price_lr(o),
{
    let v = spec_price_lr(o);
    let vs = spec_price_lr(spec_vol_bumped(o));
    let d = spec_isub_u(vs, v);
    if vs > v {
        assert(d > 0);
        assert(spec_mag(d) > 0);
        assert(spec_div(spec_mag(d), spec_mag(RATE_BUMP as i64)) > 0) by {
            vstd::arithmetic::div_mod::lemma_div_non_zero(
                spec_mag(d) as int * SCALE as int,
                RATE_BUMP as int,
            );
        }
    } else {
        assert(d <= 0);
        if d == 0 {
            vstd::arithmetic::div_mod::lemma_div_pos_is_pos(0, RATE_BUMP as int);
            assert(0 as int * SCALE as int == 0);
            vstd::arithmetic::div_mod::lemma_basic_div(0, RATE_BUMP as int);
        }
    }
}

/// The Greeks orchestrator around the Leisen-Reimer pricer.
pub struct BinomialLRWithGreeks {
    pub lr_option: BinomialLROption,
}

impl BinomialLRWithGreeks {
    pub fn new(lr_option: BinomialLROption) -> (res: Self)
        ensures
            res.lr_option == lr_option,
    {
        BinomialLRWithGreeks { lr_option }
    }

    /// Overrides the first lattice level with the three-node up/flat/down
    /// triple and builds the step count's worth of further levels from the
    /// current up and down factors.
    pub fn new_stock_price_tree(&mut self)
        requires
            old(self).lr_option.tree.option.wf(),
            old(self).lr_option.tree.option.n + 3 <= usize::MAX,
        ensures
            same_params(final(self).lr_option.tree.option, old(self).lr_option.tree.option),
            final(self).lr_option.tree.u == old(self).lr_option.tree.u,
            final(self).lr_option.tree.d == old(self).lr_option.tree.d,
            final(self).lr_option.tree.qu == old(self).lr_option.tree.qu,
            final(self).lr_option.tree.qd == old(self).lr_option.tree.qd,
            final(self).lr_option.p == old(self).lr_option.p,
            lattice_view(final(self).lr_option.tree.option.sts@) == spec_lattice(
                spec_level0_3(
                    old(self).lr_option.tree.option.s0,
                    old(self).lr_option.tree.u,
                    old(self).lr_option.tree.d,
                ),
                old(self).lr_option.tree.u,
                old(self).lr_option.tree.d,
                old(self).lr_option.tree.option.n as nat,
            ),
    {
        let up = self.lr_option.tree.u;
        let down = self.lr_option.tree.d;
        let s0 = self.lr_option.tree.option.s0;
        let u_over_d = fdiv(up, down);
        let d_over_u = fdiv(down, up);
        let mut level0: Vec<u64> = Vec::new();
        level0.push(fmul(s0, u_over_d));
        level0.push(s0);
        level0.push(fmul(s0, d_over_u));
        proof {
            assert(level0@ =~= spec_level0_3(s0, up, down));
        }
        let lat = build_lattice(level0, up, down, self.lr_option.tree.option.n);
        self.lr_option.tree.option.sts = lat;
    }

    /// Calibrates, seeds the three-wide lattice, prices once, derives delta
    /// and gamma from the first-step spread, and obtains theta, vega and
    /// rho by bump, recalibrate, rebuild, reprice and restore. The time,
    /// volatility and rate fields are back at their starting values on
    /// return.
    #[verifier::rlimit(100)]
    pub fn price(&mut self) -> (r: (u64, i64, i64, i64, i64, i64))
        requires
            old(self).lr_option.tree.option.wf(),
            old(self).lr_option.tree.option.n + 3 <= usize::MAX,
        ensures
            same_params(final(self).lr_option.tree.option, old(self).lr_option.tree.option),
            final(self).lr_option.p == spec_lr_p(
                spec_rate_bumped(old(self).lr_option.tree.option),
            ),
            lattice_view(final(self).lr_option.tree.option.sts@) == spec_lat3(
                spec_rate_bumped(old(self).lr_option.tree.option),
            ),
            r.0 == spec_price_lr(old(self).lr_option.tree.option),
            r.1 == spec_delta(old(self).lr_option.tree.option),
            r.2 == spec_gamma(old(self).lr_option.tree.option),
            r.3 == spec_theta(old(self).lr_option.tree.option),
            r.4 == spec_vega(old(self).lr_option.tree.option),
            r.5 == spec_rho(old(self).lr_option.tree.option),
    {
        let ghost o = self.lr_option.tree.option;
        self.lr_option.setup_parameters();
        self.new_stock_price_tree();
        let ghost lat = spec_lat3(o);
        proof {
            lemma_lattice_shape(
                spec_level0_3(o.s0, spec_lr_u(o), spec_lr_d(o)),
                spec_lr_u(o),
                spec_lr_d(o),
                o.n as nat,
            );
            lemma_traverse_len(
                spec_terminal(lat[o.n as int], o.k, o.is_call),
                lat,
                o.n as nat,
                spec_lr_p(o),
                spec_sub(SCALE, spec_lr_p(o)),
                spec_df_u64(o),
                o.k,
                o.is_call,
                o.is_european,
                3,
            );
        }
        let payoffs = self.lr_option.tree.begin_tree_traversal();
        let mid: usize = payoffs.len() / 2;
        let option_value: u64 = payoffs[mid];
        let payoff_up: u64 = payoffs[0];
        let payoff_down: u64 = payoffs[payoffs.len() - 1];
        proof {
            assert(payoffs@ == spec_reprice(o, lat));
            assert(option_value == spec_mid(o, lat));
        }
        let s_up: u64 = self.lr_option.tree.option.sts[0][0];
        let s0: u64 = self.lr_option.tree.option.s0;
        let s_down: u64 = self.lr_option.tree.option.sts[0][2];
        let ds_up = isub_u(s_up, s0);
        let ds_down = isub_u(s0, s_down);
        let ds = isub_u(s_up, s_down);
        let dv = isub_u(payoff_up, payoff_down);
        let delta = idiv(dv, ds);
        let a = idiv(isub_u(payoff_up, option_value), ds_up);
        let b = idiv(isub_u(option_value, payoff_down), ds_down);
        let hu: u64 = fadd(s0, s_up) / 2;
        let hd: u64 = fadd(s0, s_down) / 2;
        let gamma = idiv(isub(a, b), isub_u(hu, hd));

        let ghost ot = spec_time_bumped(o);
        let saved_t = self.lr_option.tree.option.t;
        self.lr_option.tree.option.t = fsub(saved_t, TIME_BUMP);
        self.lr_option.setup_parameters();
        self.new_stock_price_tree();
        proof {
            let lat_t = spec_lat3(ot);
            lemma_lattice_shape(
                spec_level0_3(ot.s0, spec_lr_u(ot), spec_lr_d(ot)),
                spec_lr_u(ot),
                spec_lr_d(ot),
                ot.n as nat,
            );
            lemma_traverse_len(
                spec_terminal(lat_t[ot.n as int], ot.k, ot.is_call),
                lat_t,
                ot.n as nat,
                spec_lr_p(ot),
                spec_sub(SCALE, spec_lr_p(ot)),
                spec_df_u64(ot),
                ot.k,
                ot.is_call,
                ot.is_european,
                3,
            );
        }
        let pt = self.lr_option.tree.begin_tree_traversal();
        let vt: u64 = pt[pt.len() / 2];
        let theta = ineg(idiv(isub_u(vt, option_value), TIME_BUMP as i64));
        self.lr_option.tree.option.t = saved_t;

        let ghost ov = spec_vol_bumped(o);
        let saved_sigma = self.lr_option.tree.option.sigma;
        self.lr_option.tree.option.sigma = fadd(saved_sigma, RATE_BUMP);
        self.lr_option.setup_parameters();
        self.new_stock_price_tree();
        proof {
            let lat_v = spec_lat3(ov);
            lemma_lattice_shape(
                spec_level0_3(ov.s0, spec_lr_u(ov), spec_lr_d(ov)),
                spec_lr_u(ov),
                spec_lr_d(ov),
                ov.n as nat,
            );
            lemma_traverse_len(
                spec_terminal(lat_v[ov.n as int], ov.k, ov.is_call),
                lat_v,
                ov.n as nat,
                spec_lr_p(ov),
                spec_sub(SCALE, spec_lr_p(ov)),
                spec_df_u64(ov),
                ov.k,
                ov.is_call,
                ov.is_european,
                3,
            );
        }
        let pv = self.lr_option.tree.begin_tree_traversal();
        let vv: u64 = pv[pv.len() / 2];
        let vega = idiv(isub_u(vv, option_value), RATE_BUMP as i64);
        self.lr_option.tree.option.sigma = saved_sigma;

        let ghost orr = spec_rate_bumped(o);
        let saved_r = self.lr_option.tree.option.r;
        self.lr_option.tree.option.r = iadd(saved_r, RATE_BUMP as i64);
        self.lr_option.setup_parameters();
        self.new_stock_price_tree();
        proof {
            let lat_r = spec_lat3(orr);
            lemma_lattice_shape(
                spec_level0_3(orr.s0, spec_lr_u(orr), spec_lr_d(orr)),
                spec_lr_u(orr),
                spec_lr_d(orr),
                orr.n as nat,
            );
            lemma_traverse_len(
                spec_terminal(lat_r[orr.n as int], orr.k, orr.is_call),
                lat_r,
                orr.n as nat,
                spec_lr_p(orr),
                spec_sub(SCALE, spec_lr_p(orr)),
                spec_df_u64(orr),
                orr.k,
                orr.is_call,
                orr.is_european,
                3,
            );
        }
        let pr = self.lr_option.tree.begin_tree_traversal();
        let vr: u64 = pr[pr.len() / 2];
        let rho = idiv(isub_u(vr, option_value), RATE_BUMP as i64);
        self.lr_option.tree.option.r = saved_r;

        (option_value, delta, gamma, theta, vega, rho)
    }
}

} // verus!
