//! The option contract: market and contract parameters, the derived
//! time-step and discount-factor functions, and the mutable price lattice.

use crate::fixed::{imul_u, ineg, isub, spec_imul_u, spec_ineg, spec_isub};
use crate::transcend::{fexp, spec_exp};
use vstd::prelude::*;

verus! {

/// A stock option and its market parameters, in fixed point: the spot price
/// `s0`, the strike `k`, the risk-free rate `r`, the time to expiry `t` in
/// years, the step count `n`, the up and down move probabilities `pu` and
/// `pd` (used only by the generic calibration), the continuous dividend
/// yield `div`, the volatility `sigma`, the call/put and European/American
/// flags, and the price lattice `sts`, empty until a pricing pass fills it.
pub struct StockOption {
    pub s0: u64,
    pub k: u64,
    pub r: i64,
    pub t: u64,
    pub n: usize,
    pub sts: Vec<Vec<u64>>,
    pub pu: u64,
    pub pd: u64,
    pub div: i64,
    pub sigma: u64,
    pub is_call: bool,
    pub is_european: bool,
}

/// Two contracts agree on every parameter; only the lattice may differ.
pub open spec fn same_params(a: StockOption, b: StockOption) -> bool {
    a.s0 == b.s0 && a.k == b.k && a.r == b.r && a.t == b.t && a.n == b.n && a.pu == b.pu && a.pd
        == b.pd && a.div == b.div && a.sigma == b.sigma && a.is_call == b.is_call && a.is_european
        == b.is_european
}

impl StockOption {
    /// The construction invariant: the step count was clamped to at least one.
    pub open spec fn wf(self) -> bool {
        self.n >= 1
    }

    /// Builds the contract. The step count is clamped to at least one; the
    /// lattice starts empty; the flags are stored as call/European.
    pub fn new(
        s0: u64,
        k: u64,
        r: i64,
        t: u64,
        n: usize,
        pu: u64,
        pd: u64,
        div: i64,
        sigma: u64,
        is_put: bool,
        is_am: bool,
    ) -> (res: Self)
        ensures
            res.s0 == s0,
            res.k == k,
            res.r == r,
            res.t == t,
            res.n == if n >= 1 { n } else { 1 },
            res.wf(),
            res.sts@.len() == 0,
            res.pu == pu,
            res.pd == pd,
            res.div == div,
            res.sigma == sigma,
            res.is_call == !is_put,
            res.is_european == !is_am,
    {
        let steps: usize = if n >= 1 {
            n
        } else {
            1
        };
        StockOption {
            s0,
            k,
            r,
            t,
            n: steps,
            sts: Vec::new(),
            pu,
            pd,
            div,
            sigma,
            is_call: !is_put,
            is_european: !is_am,
        }
    }

    /// The time increment of one step: the time to expiry over the step
    /// count, rounded down.
    pub open spec fn spec_dt(self) -> u64 {
        ((self.t as int) / (self.n as int)) as u64
    }

    pub fn dt(&self) -> (r: u64)
        requires
            self.wf(),
        ensures
            r == self.spec_dt(),
    {
        self.t / (self.n as u64)
    }

    /// The per-step discount factor: the exponential of minus the rate less
    /// the dividend yield, times the time increment.
    pub open spec fn spec_df(self) -> int {
        spec_exp(spec_ineg(spec_imul_u(spec_isub(self.r, self.div), self.spec_dt())) as int)
    }

    pub fn df(&self) -> (r: u64)
        requires
            self.wf(),
        ensures
            r as int == self.spec_df(),
    {
        let m = isub(self.r, self.div);
        let x = imul_u(m, self.dt());
        fexp(ineg(x))
    }
}

} // verus!
