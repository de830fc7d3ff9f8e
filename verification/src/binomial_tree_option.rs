//! The generic recombining-tree pricer: it builds a stock-price lattice
//! from up/down factors, computes terminal payoffs, and performs backward
//! induction with an optional early-exercise floor.

use crate::fixed::{
    fadd, fdiv, fmul, fsub, imul_u, isub, spec_add, spec_div, spec_imul_u, spec_isub, spec_mul,
    spec_sub, SCALE,
};
use crate::stock_option::StockOption;
use crate::transcend::{fexp, spec_exp};
use vstd::prelude::*;

verus! {

/// The levels of a price lattice as mathematical sequences.
pub open spec fn lattice_view(sts: Seq<Vec<u64>>) -> Seq<Seq<u64>> {
    sts.map_values(|v: Vec<u64>| v@)
}

/// One lattice level grown from the previous: every node times the up
/// factor, then one more node, the previous last node times the down factor.
pub open spec fn spec_grow(prev: Seq<u64>, up: u64, down: u64) -> Seq<u64>
    recommends
        prev.len() >= 1,
{
    prev.map(|i: int, x: u64| spec_mul(x, up)).push(spec_mul(prev[prev.len() - 1], down))
}

/// The full lattice: the given first level, then `n` grown levels.
pub open spec fn spec_lattice(level0: Seq<u64>, up: u64, down: u64, n: nat) -> Seq<Seq<u64>>
    decreases n,
{
    if n == 0 {
        seq![level0]
    } else {
        let prev = spec_lattice(level0, up, down, (n - 1) as nat);
        prev.push(spec_grow(prev[prev.len() - 1], up, down))
    }
}

/// The lattice has `n + 1` levels, and each level is wider than the first
/// by its index.
pub proof fn lemma_lattice_shape(level0: Seq<u64>, up: u64, down: u64, n: nat)
    requires
        level0.len() >= 1,
    ensures
        spec_lattice(level0, up, down, n).len() == n + 1,
        forall|lv: int|
            0 <= lv <= n ==> (#[trigger] spec_lattice(level0, up, down, n)[lv]).len()
                == level0.len() + lv,
        spec_lattice(level0, up, down, n)[0] == level0,
    decreases n,
{
    if n != 0 {
        lemma_lattice_shape(level0, up, down, (n - 1) as nat);
    }
}

/// Builds the lattice rows below a given first level: `n` further levels,
/// each grown from the one before it.
pub fn build_lattice(level0: Vec<u64>, up: u64, down: u64, n: usize) -> (res: Vec<Vec<u64>>)
    requires
        level0@.len() >= 1,
        level0@.len() + n <= usize::MAX,
    ensures
        lattice_view(res@) == spec_lattice(level0@, up, down, n as nat),
        res@.len() == n + 1,
{
    proof {
        lemma_lattice_shape(level0@, up, down, n as nat);
    }
    let ghost l0 = level0@;
    let width0: usize = level0.len();
    let mut sts: Vec<Vec<u64>> = Vec::new();
    sts.push(level0);
    let mut i: usize = 0;
    proof {
        assert(lattice_view(sts@) =~= spec_lattice(l0, up, down, 0));
    }
    while i < n
        invariant
            i <= n,
            sts@.len() == i + 1,
            width0 >= 1,
            width0 == l0.len(),
            lattice_view(sts@) == spec_lattice(l0, up, down, i as nat),
            sts@[i as int]@.len() == width0 + i,
            width0 + n <= usize::MAX,
        decreases n - i,
    {
        proof {
            lemma_lattice_shape(l0, up, down, i as nat);
        }
        let w: usize = width0 + i;
        let mut next: Vec<u64> = Vec::new();
        let mut j: usize = 0;
        while j < w
            invariant
                j <= w,
                i < sts@.len(),
                w == sts@[i as int]@.len(),
                next@.len() == j,
                forall|jj: int|
                    0 <= jj < j ==> next@[jj] == spec_mul(sts@[i as int]@[jj], up),
            decreases w - j,
        {
            let node: u64 = sts[i][j];
            next.push(fmul(node, up));
            j = j + 1;
        }
        let last: u64 = sts[i][w - 1];
        next.push(fmul(last, down));
        proof {
            let prev = spec_lattice(l0, up, down, i as nat);
            assert(next@ =~= spec_grow(prev[prev.len() - 1], up, down));
        }
        sts.push(next);
        proof {
            assert(lattice_view(sts@) =~= spec_lattice(l0, up, down, (i + 1) as nat));
        }
        i = i + 1;
    }
    sts
}

/// The intrinsic value of exercising at a node price: `max(s - k, 0)` for a
/// call, `max(k - s, 0)` for a put.
pub open spec fn spec_payoff(s: u64, k: u64, is_call: bool) -> u64 {
    if is_call {
        spec_sub(s, k)
    } else {
        spec_sub(k, s)
    }
}

/// The terminal payoffs of a lattice level, elementwise.
pub open spec fn spec_terminal(level: Seq<u64>, k: u64, is_call: bool) -> Seq<u64> {
    level.map(|i: int, x: u64| spec_payoff(x, k, is_call))
}

pub open spec fn spec_max(a: u64, b: u64) -> u64 {
    if a >= b {
        a
    } else {
        b
    }
}

/// The early-exercise floor: the elementwise maximum of the continuation
/// values against the intrinsic values at a level's node prices.
pub open spec fn spec_early(p: Seq<u64>, level: Seq<u64>, k: u64, is_call: bool) -> Seq<u64> {
    let w = if p.len() <= level.len() {
        p.len()
    } else {
        level.len()
    };
    Seq::new(w, |i: int| spec_max(p[i], spec_payoff(level[i], k, is_call)))
}

/// One node of backward induction: the discounted expectation of the two
/// successor values under the risk-neutral probabilities.
pub open spec fn spec_comb(a: u64, b: u64, qu: u64, qd: u64, df: u64) -> u64 {
    spec_mul(spec_add(spec_mul(a, qu), spec_mul(b, qd)), df)
}

/// One step of backward induction: adjacent pairs combined, shortening the
/// sequence by one.
pub open spec fn spec_step(p: Seq<u64>, qu: u64, qd: u64, df: u64) -> Seq<u64> {
    if p.len() == 0 {
        p
    } else {
        Seq::new((p.len() - 1) as nat, |i: int| spec_comb(p[i], p[i + 1], qu, qd, df))
    }
}

/// Backward induction over `steps` levels: each step combines adjacent
/// pairs and, for an American option, floors the result with the
/// early-exercise values of the level it lands on.
pub open spec fn spec_traverse(
    p: Seq<u64>,
    lat: Seq<Seq<u64>>,
    steps: nat,
    qu: u64,
    qd: u64,
    df: u64,
    k: u64,
    is_call: bool,
    is_european: bool,
) -> Seq<u64>
    decreases steps,
{
    if steps == 0 {
        p
    } else {
        let q = spec_step(p, qu, qd, df);
        let q2 = if !is_european {
            spec_early(q, lat[steps - 1], k, is_call)
        } else {
            q
        };
        spec_traverse(q2, lat, (steps - 1) as nat, qu, qd, df, k, is_call, is_european)
    }
}

/// Backward induction contracts a sequence that is `c` wider than the step
/// count down to exactly `c` values, over a lattice whose levels are `c`
/// wider than their index.
pub proof fn lemma_traverse_len(
    p: Seq<u64>,
    lat: Seq<Seq<u64>>,
    steps: nat,
    qu: u64,
    qd: u64,
    df: u64,
    k: u64,
    is_call: bool,
    is_european: bool,
    c: nat,
)
    requires
        c >= 1,
        p.len() == steps + c,
        forall|lv: int| 0 <= lv < steps ==> (#[trigger] lat[lv]).len() == lv + c,
    ensures
        spec_traverse(p, lat, steps, qu, qd, df, k, is_call, is_european).len() == c,
    decreases steps,
{
    if steps != 0 {
        let q = spec_step(p, qu, qd, df);
        let q2 = if !is_european {
            spec_early(q, lat[steps - 1], k, is_call)
        } else {
            q
        };
        lemma_traverse_len(q2, lat, (steps - 1) as nat, qu, qd, df, k, is_call, is_european, c);
    }
}

/// One induction node is monotone in both successor values.
pub proof fn lemma_comb_mono(a1: u64, b1: u64, a2: u64, b2: u64, qu: u64, qd: u64, df: u64)
    requires
        a1 <= a2,
        b1 <= b2,
    ensures
        spec_comb(a1, b1, qu, qd, df) <= spec_comb(a2, b2, qu, qd, df),
{
    crate::fixed::lemma_fmul_mono(a1, qu, a2, qu);
    crate::fixed::lemma_fmul_mono(b1, qd, b2, qd);
    crate::fixed::lemma_fmul_mono(
        spec_add(spec_mul(a1, qu), spec_mul(b1, qd)),
        df,
        spec_add(spec_mul(a2, qu), spec_mul(b2, qd)),
        df,
    );
}

/// Early exercise never destroys value: backward induction with the
/// early-exercise floor, started from payoffs at least as large, ends at
/// least as large at every surviving node as the plain induction.
pub proof fn lemma_traverse_american_geq(
    p_e: Seq<u64>,
    p_a: Seq<u64>,
    lat: Seq<Seq<u64>>,
    steps: nat,
    qu: u64,
    qd: u64,
    df: u64,
    k: u64,
    is_call: bool,
    c: nat,
)
    requires
        c >= 1,
        p_e.len() == steps + c,
        p_a.len() == steps + c,
        forall|i: int| 0 <= i < p_e.len() ==> p_e[i] <= p_a[i],
        forall|lv: int| 0 <= lv < steps ==> (#[trigger] lat[lv]).len() == lv + c,
    ensures
        spec_traverse(p_e, lat, steps, qu, qd, df, k, is_call, true).len() == c,
        spec_traverse(p_a, lat, steps, qu, qd, df, k, is_call, false).len() == c,
        forall|i: int|
            0 <= i < c ==> spec_traverse(p_e, lat, steps, qu, qd, df, k, is_call, true)[i]
                <= spec_traverse(p_a, lat, steps, qu, qd, df, k, is_call, false)[i],
    decreases steps,
{
    lemma_traverse_len(p_e, lat, steps, qu, qd, df, k, is_call, true, c);
    lemma_traverse_len(p_a, lat, steps, qu, qd, df, k, is_call, false, c);
    if steps != 0 {
        let q_e = spec_step(p_e, qu, qd, df);
        let q_a = spec_step(p_a, qu, qd, df);
        assert forall|i: int| 0 <= i < q_e.len() implies q_e[i] <= q_a[i] by {
            lemma_comb_mono(p_e[i], p_e[i + 1], p_a[i], p_a[i + 1], qu, qd, df);
        }
        let q_a2 = spec_early(q_a, lat[steps - 1], k, is_call);
        assert(q_a2.len() == (steps - 1) + c);
        assert forall|i: int| 0 <= i < q_e.len() implies q_e[i] <= q_a2[i] by {
            assert(q_a2[i] == spec_max(q_a[i], spec_payoff(lat[steps - 1][i], k, is_call)));
        }
        lemma_traverse_american_geq(
            q_e,
            q_a2,
            lat,
            (steps - 1) as nat,
            qu,
            qd,
            df,
            k,
            is_call,
            c,
        );
    }
}

/// The generic up factor: one plus the up probability.
pub open spec fn spec_generic_u(o: StockOption) -> u64 {
    spec_add(SCALE, o.pu)
}

/// The generic down factor: one minus the down probability.
pub open spec fn spec_generic_d(o: StockOption) -> u64 {
    spec_sub(SCALE, o.pd)
}

/// The per-step growth factor `exp((r - div) * dt)`.
pub open spec fn spec_growth(o: StockOption) -> u64 {
    spec_exp(spec_imul_u(spec_isub(o.r, o.div), o.spec_dt()) as int) as u64
}

/// The generic risk-neutral up probability:
/// `(exp((r - div) * dt) - d) / (u - d)`, with each subtraction floored at
/// zero and a vanishing denominator saturating.
pub open spec fn spec_generic_qu(o: StockOption) -> u64 {
    spec_div(
        spec_sub(spec_growth(o), spec_generic_d(o)),
        spec_sub(spec_generic_u(o), spec_generic_d(o)),
    )
}

/// The discount factor as a fixed-point value.
pub open spec fn spec_df_u64(o: StockOption) -> u64 {
    o.spec_df() as u64
}

/// The generic recombining-tree pricer: the contract it prices, and the
/// up/down factors and risk-neutral probabilities of the current
/// calibration, all recomputed before each traversal.
pub struct BinomialTreeOption {
    pub option: StockOption,
    pub u: u64,
    pub d: u64,
    pub qu: u64,
    pub qd: u64,
}

/// What the result of the backward induction over the current lattice is,
/// for the current calibration fields.
pub open spec fn spec_begin(s: BinomialTreeOption) -> Seq<u64> {
    let lat = lattice_view(s.option.sts@);
    spec_traverse(
        spec_terminal(lat[s.option.n as int], s.option.k, s.option.is_call),
        lat,
        s.option.n as nat,
        s.qu,
        s.qd,
        spec_df_u64(s.option),
        s.option.k,
        s.option.is_call,
        s.option.is_european,
    )
}

/// The price under the generic calibration: calibrate, build the lattice
/// from the spot, take terminal payoffs and induct back to the root.
pub open spec fn spec_tree_price(s: BinomialTreeOption) -> u64 {
    let o = s.option;
    let up = spec_generic_u(o);
    let down = spec_generic_d(o);
    let qu = spec_generic_qu(o);
    let qd = spec_sub(SCALE, qu);
    let lat = spec_lattice(seq![o.s0], up, down, o.n as nat);
    let res = spec_traverse(
        spec_terminal(lat[o.n as int], o.k, o.is_call),
        lat,
        o.n as nat,
        qu,
        qd,
        spec_df_u64(o),
        o.k,
        o.is_call,
        o.is_european,
    );
    res[0]
}

/// Early exercise never destroys value: with every other parameter equal,
/// the American price under the generic calibration is at least the
/// European price.
pub proof fn lemma_tree_price_american_geq(s_e: BinomialTreeOption, s_a: BinomialTreeOption)
    requires
        s_e.option.s0 == s_a.option.s0,
        s_e.option.k == s_a.option.k,
        s_e.option.r == s_a.option.r,
        s_e.option.t == s_a.option.t,
        s_e.option.n == s_a.option.n,
        s_e.option.pu == s_a.option.pu,
        s_e.option.pd == s_a.option.pd,
        s_e.option.div == s_a.option.div,
        s_e.option.sigma == s_a.option.sigma,
        s_e.option.is_call == s_a.option.is_call,
        s_e.option.is_european == true,
        s_a.option.is_european == false,
    ensures
        spec_tree_price(s_e) <= spec_tree_price(s_a),
{
    let oe = s_e.option;
    let oa = s_a.option;
    assert(oe.spec_dt() == oa.spec_dt());
    assert(oe.spec_df() == oa.spec_df());
    assert(spec_growth(oe) == spec_growth(oa));
    assert(spec_generic_u(oe) == spec_generic_u(oa));
    assert(spec_generic_d(oe) == spec_generic_d(oa));
    assert(spec_generic_qu(oe) == spec_generic_qu(oa));
    assert(spec_df_u64(oe) == spec_df_u64(oa));
    let up = spec_generic_u(oe);
    let down = spec_generic_d(oe);
    let qu = spec_generic_qu(oe);
    let qd = spec_sub(SCALE, qu);
    let lat = spec_lattice(seq![oe.s0], up, down, oe.n as nat);
    lemma_lattice_shape(seq![oe.s0], up, down, oe.n as nat);
    let term = spec_terminal(lat[oe.n as int], oe.k, oe.is_call);
    lemma_traverse_american_geq(
        term,
        term,
        lat,
        oe.n as nat,
        qu,
        qd,
        spec_df_u64(oe),
        oe.k,
        oe.is_call,
        1,
    );
}

impl BinomialTreeOption {
    pub fn new(option: StockOption) -> (res: Self)
        ensures
            res.option == option,
            res.u == 0,
            res.d == 0,
            res.qu == 0,
            res.qd == 0,
    {
        BinomialTreeOption { option, u: 0, d: 0, qu: 0, qd: 0 }
    }

    /// The generic calibration: up factor one plus `pu`, down factor one
    /// minus `pd`, risk-neutral up probability from the growth factor, and
    /// the complementary down probability.
    pub fn setup_parameters(&mut self)
        requires
            old(self).option.wf(),
        ensures
            final(self).option == old(self).option,
            final(self).u == spec_generic_u(old(self).option),
            final(self).d == spec_generic_d(old(self).option),
            final(self).qu == spec_generic_qu(old(self).option),
            final(self).qd == spec_sub(SCALE, spec_generic_qu(old(self).option)),
    {
        let up = fadd(SCALE, self.option.pu);
        let down = fsub(SCALE, self.option.pd);
        let m = isub(self.option.r, self.option.div);
        let x = imul_u(m, self.option.dt());
        let growth = fexp(x);
        let qu = fdiv(fsub(growth, down), fsub(up, down));
        self.u = up;
        self.d = down;
        self.qu = qu;
        self.qd = fsub(SCALE, qu);
    }

    /// Rebuilds the stock-price lattice from the spot price with the
    /// current up and down factors.
    pub fn init_stock_price_tree(&mut self)
        requires
            old(self).option.wf(),
            old(self).option.n + 1 <= usize::MAX,
        ensures
            crate::stock_option::same_params(final(self).option, old(self).option),
            final(self).u == old(self).u,
            final(self).d == old(self).d,
            final(self).qu == old(self).qu,
            final(self).qd == old(self).qd,
            lattice_view(final(self).option.sts@) == spec_lattice(
                seq![old(self).option.s0],
                old(self).u,
                old(self).d,
                old(self).option.n as nat,
            ),
    {
        let mut level0: Vec<u64> = Vec::new();
        level0.push(self.option.s0);
        proof {
            assert(level0@ =~= seq![self.option.s0]);
        }
        let lat = build_lattice(level0, self.u, self.d, self.option.n);
        self.option.sts = lat;
    }

    /// The payoffs at the terminal level of the lattice.
    pub fn init_payoffs_tree(&self) -> (res: Vec<u64>)
        requires
            self.option.n < self.option.sts@.len(),
        ensures
            res@ == spec_terminal(
                lattice_view(self.option.sts@)[self.option.n as int],
                self.option.k,
                self.option.is_call,
            ),
    {
        let nn: usize = self.option.n;
        let w: usize = self.option.sts[nn].len();
        let mut res: Vec<u64> = Vec::new();
        let mut j: usize = 0;
        while j < w
            invariant
                j <= w,
                nn < self.option.sts@.len(),
                w == self.option.sts@[nn as int]@.len(),
                res@.len() == j,
                forall|jj: int|
                    0 <= jj < j ==> res@[jj] == spec_payoff(
                        self.option.sts@[nn as int]@[jj],
                        self.option.k,
                        self.option.is_call,
                    ),
            decreases w - j,
        {
            let s: u64 = self.option.sts[nn][j];
            let v: u64 = if self.option.is_call {
                fsub(s, self.option.k)
            } else {
                fsub(self.option.k, s)
            };
            res.push(v);
            j = j + 1;
        }
        proof {
            assert(res@ =~= spec_terminal(
                lattice_view(self.option.sts@)[self.option.n as int],
                self.option.k,
                self.option.is_call,
            ));
        }
        res
    }

    /// The early-exercise floor at a level: the elementwise maximum of the
    /// handed-in continuation values against the intrinsic values there.
    pub fn check_early_exercise(&self, payoffs: &Vec<u64>, node: usize) -> (res: Vec<u64>)
        requires
            node < self.option.sts@.len(),
        ensures
            res@ == spec_early(
                payoffs@,
                lattice_view(self.option.sts@)[node as int],
                self.option.k,
                self.option.is_call,
            ),
    {
        let lw: usize = self.option.sts[node].len();
        let w: usize = if payoffs.len() <= lw {
            payoffs.len()
        } else {
            lw
        };
        let mut res: Vec<u64> = Vec::new();
        let mut j: usize = 0;
        while j < w
            invariant
                j <= w,
                node < self.option.sts@.len(),
                w <= payoffs@.len(),
                w <= self.option.sts@[node as int]@.len(),
                res@.len() == j,
                forall|jj: int|
                    0 <= jj < j ==> res@[jj] == spec_max(
                        payoffs@[jj],
                        spec_payoff(
                            self.option.sts@[node as int]@[jj],
                            self.option.k,
                            self.option.is_call,
                        ),
                    ),
            decreases w - j,
        {
            let s: u64 = self.option.sts[node][j];
            let iv: u64 = if self.option.is_call {
                fsub(s, self.option.k)
            } else {
                fsub(self.option.k, s)
            };
            let pj: u64 = payoffs[j];
            let v: u64 = if pj >= iv {
                pj
            } else {
                iv
            };
            res.push(v);
            j = j + 1;
        }
        proof {
            assert(res@ =~= spec_early(
                payoffs@,
                lattice_view(self.option.sts@)[node as int],
                self.option.k,
                self.option.is_call,
            ));
        }
        res
    }

    /// Backward induction from the handed-in payoffs to the root, flooring
    /// with the early-exercise values at each level for an American option.
    pub fn traverse_tree(&self, payoffs: Vec<u64>) -> (res: Vec<u64>)
        requires
            self.option.wf(),
            self.option.n <= self.option.sts@.len(),
        ensures
            res@ == spec_traverse(
                payoffs@,
                lattice_view(self.option.sts@),
                self.option.n as nat,
                self.qu,
                self.qd,
                spec_df_u64(self.option),
                self.option.k,
                self.option.is_call,
                self.option.is_european,
            ),
    {
        let ghost lat = lattice_view(self.option.sts@);
        let ghost goal = spec_traverse(
            payoffs@,
            lat,
            self.option.n as nat,
            self.qu,
            self.qd,
            spec_df_u64(self.option),
            self.option.k,
            self.option.is_call,
            self.option.is_european,
        );
        let df: u64 = self.option.df();
        let mut p = payoffs;
        let mut i: usize = self.option.n;
        while i > 0
            invariant
                i <= self.option.n,
                self.option.n <= self.option.sts@.len(),
                lat == lattice_view(self.option.sts@),
                df == spec_df_u64(self.option),
                spec_traverse(
                    p@,
                    lat,
                    i as nat,
                    self.qu,
                    self.qd,
                    df,
                    self.option.k,
                    self.option.is_call,
                    self.option.is_european,
                ) == goal,
            decreases i,
        {
            i = i - 1;
            let ghost pold = p@;
            let mut q: Vec<u64> = Vec::new();
            if p.len() > 0 {
                let mut j: usize = 0;
                while j < p.len() - 1
                    invariant
                        p@.len() > 0,
                        j <= p@.len() - 1,
                        q@.len() == j,
                        df == spec_df_u64(self.option),
                        forall|jj: int|
                            0 <= jj < j ==> q@[jj] == spec_comb(
                                p@[jj],
                                p@[jj + 1],
                                self.qu,
                                self.qd,
                                df,
                            ),
                    decreases p@.len() - j,
                {
                    let v: u64 = fmul(fadd(fmul(p[j], self.qu), fmul(p[j + 1], self.qd)), df);
                    q.push(v);
                    j = j + 1;
                }
            }
            proof {
                assert(q@ =~= spec_step(pold, self.qu, self.qd, df));
            }
            p = q;
            if !self.option.is_european {
                p = self.check_early_exercise(&p, i);
            }
        }
        p
    }

    /// Terminal payoffs, then backward induction.
    pub fn begin_tree_traversal(&mut self) -> (res: Vec<u64>)
        requires
            old(self).option.wf(),
            old(self).option.n < old(self).option.sts@.len(),
        ensures
            *final(self) == *old(self),
            res@ == spec_begin(*old(self)),
    {
        let payoffs = self.init_payoffs_tree();
        self.traverse_tree(payoffs)
    }

    /// The price under the generic calibration: calibrate, rebuild the
    /// lattice, and induct back to the sole root value.
    pub fn price(&mut self) -> (r: u64)
        requires
            old(self).option.wf(),
            old(self).option.n + 1 <= usize::MAX,
        ensures
            r == spec_tree_price(*old(self)),
            crate::stock_option::same_params(final(self).option, old(self).option),
            final(self).u == spec_generic_u(old(self).option),
            final(self).d == spec_generic_d(old(self).option),
            final(self).qu == spec_generic_qu(old(self).option),
            final(self).qd == spec_sub(SCALE, spec_generic_qu(old(self).option)),
            lattice_view(final(self).option.sts@) == spec_lattice(
                seq![old(self).option.s0],
                spec_generic_u(old(self).option),
                spec_generic_d(old(self).option),
                old(self).option.n as nat,
            ),
    {
        self.setup_parameters();
        self.init_stock_price_tree();
        proof {
            lemma_lattice_shape(
                seq![self.option.s0],
                self.u,
                self.d,
                self.option.n as nat,
            );
        }
        let payoffs = self.begin_tree_traversal();
        proof {
            let o = old(self).option;
            let lat = lattice_view(self.option.sts@);
            lemma_traverse_len(
                spec_terminal(lat[o.n as int], o.k, o.is_call),
                lat,
                o.n as nat,
                self.qu,
                self.qd,
                spec_df_u64(o),
                o.k,
                o.is_call,
                o.is_european,
                1,
            );
        }
        payoffs[0]
    }
}

} // verus!
