use vstd::prelude::*;
use vstd::arithmetic::power::{
    pow, lemma_pow0, lemma_pow1, lemma_pow_adds, lemma_pow_increases, lemma_pow_positive,
};
use vstd::arithmetic::div_mod::{
    lemma_div_is_ordered, lemma_div_multiples_vanish, lemma_fundamental_div_mod_converse,
};
use crate::models::graph::Graph;

verus! {

/// Fixed configuration of one colony run.
///
/// Pheromone amounts are fixed-point integers: `scale` stands for the amount
/// 1, every trail value is clamped to `[tau_min, tau_max]` (both in scaled
/// units), and one evaporation pass keeps the exact fraction
/// `rho_num / rho_den` of each trail, rounded down.
pub struct Parameters {
    pub graph: Graph,
    /// Number of generations to run.
    pub cycles: usize,
    /// Constructions per generation.
    pub ants: usize,
    /// Exponent weighting the pheromone influence on selection.
    pub alpha: u32,
    /// Numerator of the evaporation retention factor `rho`.
    pub rho_num: u64,
    /// Denominator of the evaporation retention factor `rho`.
    pub rho_den: u64,
    /// Largest trail value, and the value every trail starts from.
    pub tau_max: u64,
    /// Smallest trail value.
    pub tau_min: u64,
    /// Fixed-point representation of the amount 1.
    pub scale: u64,
}

/// The largest selection weight a candidate can take: an attractiveness is at
/// most `n * tau_max`, and a weight is an attractiveness to the power `alpha`.
pub open spec fn max_weight(n: int, tau_max: int, alpha: nat) -> int {
    pow(n * tau_max, alpha)
}

/// One evaporation step on a single trail value: keep `rho_num / rho_den` of
/// it, never dropping below `tau_min`.
pub open spec fn evaporated(p: &Parameters, t: int) -> int {
    let e = (t * p.rho_num) / (p.rho_den as int);
    if e < p.tau_min {
        p.tau_min as int
    } else {
        e
    }
}

/// One reinforcement step on a single trail value: add `delta`, never rising
/// above `tau_max`.
pub open spec fn reinforced_value(p: &Parameters, t: int, delta: int) -> int {
    if t + delta > p.tau_max {
        p.tau_max as int
    } else {
        t + delta
    }
}

/// The reinforcement amount of a generation: the fixed-point value of
/// `1 / (1 + |global best| - |generation best|)`.
pub open spec fn delta_spec(p: &Parameters, gb_len: int, kb_len: int) -> int {
    (p.scale as int) / (1 + gb_len - kb_len)
}

impl Parameters {
    pub open spec fn wf(&self) -> bool {
        &&& self.graph.wf()
        &&& self.graph.n_vertex >= 1
        &&& self.ants >= 1
        &&& 1 <= self.rho_num <= self.rho_den <= u32::MAX
        &&& 1 <= self.tau_min < self.tau_max <= u32::MAX
        &&& 1 <= self.scale <= u32::MAX
        &&& self.graph.n_vertex * max_weight(
            self.graph.n_vertex as int,
            self.tau_max as int,
            self.alpha as nat,
        ) <= u128::MAX
    }

    /// Validates a configuration. `None` comes exactly when some requirement
    /// fails: a vertex to start from, at least one ant, `0 < rho <= 1` with a
    /// denominator that fits, `0 < tau_min < tau_max`, a positive scale, or
    /// selection weights that fit the machine.
    pub fn new(
        graph: Graph,
        cycles: usize,
        ants: usize,
        alpha: u32,
        rho_num: u64,
        rho_den: u64,
        tau_max: u64,
        tau_min: u64,
        scale: u64,
    ) -> (r: Option<Parameters>)
        requires
            graph.wf(),
        ensures
            r matches Some(p) ==> p == (Parameters {
                graph: graph,
                cycles: cycles,
                ants: ants,
                alpha: alpha,
                rho_num: rho_num,
                rho_den: rho_den,
                tau_max: tau_max,
                tau_min: tau_min,
                scale: scale,
            }) && p.wf(),
            r is Some <==> (Parameters {
                graph: graph,
                cycles: cycles,
                ants: ants,
                alpha: alpha,
                rho_num: rho_num,
                rho_den: rho_den,
                tau_max: tau_max,
                tau_min: tau_min,
                scale: scale,
            }).wf(),
    {
        if graph.n_vertex < 1 || ants < 1 {
            return None;
        }
        if rho_num < 1 || rho_num > rho_den || rho_den > u32::MAX as u64 {
            return None;
        }
        if tau_min < 1 || tau_min >= tau_max || tau_max > u32::MAX as u64 {
            return None;
        }
        if scale < 1 || scale > u32::MAX as u64 {
            return None;
        }
        if !weights_fit(graph.n_vertex, tau_max, alpha) {
            return None;
        }
        Some(Parameters { graph, cycles, ants, alpha, rho_num, rho_den, tau_max, tau_min, scale })
    }
}

/// Whether every possible cumulative selection weight of a run on `n`
/// vertices fits in `u128`.
pub fn weights_fit(n: usize, tau_max: u64, alpha: u32) -> (r: bool)
    requires
        n >= 1,
        tau_max >= 1,
    ensures
        r == (n * max_weight(n as int, tau_max as int, alpha as nat) <= u128::MAX),
{
    proof {
        assert((n as int) * (tau_max as int) <= u128::MAX) by (nonlinear_arith)
            requires
                0 <= n <= u64::MAX,
                0 <= tau_max <= u64::MAX,
        ;
    }
    let base: u128 = (n as u128) * (tau_max as u128);
    let mut acc: u128 = 1;
    let mut i: u32 = 0;
    proof {
        lemma_pow0(base as int);
        assert(base >= 1) by (nonlinear_arith)
            requires
                base == n * tau_max,
                n >= 1,
                tau_max >= 1,
        ;
    }
    while i < alpha
        invariant
            i <= alpha,
            1 <= base,
            base == n * tau_max,
            acc == pow(base as int, i as nat),
            1 <= acc,
        decreases alpha - i,
    {
        match acc.checked_mul(base) {
            Some(v) => {
                proof {
                    lemma_pow1(base as int);
                    lemma_pow_adds(base as int, i as nat, 1);
                    assert(acc * base >= 1) by (nonlinear_arith)
                        requires
                            acc >= 1,
                            base >= 1,
                    ;
                }
                acc = v;
                i = i + 1;
            },
            None => {
                proof {
                    lemma_pow1(base as int);
                    lemma_pow_adds(base as int, i as nat, 1);
                    lemma_pow_increases(base as nat, (i + 1) as nat, alpha as nat);
                    lemma_pow_positive(base as int, alpha as nat);
                    assert(n * pow(base as int, alpha as nat) >= pow(base as int, alpha as nat))
                        by (nonlinear_arith)
                        requires
                            n >= 1,
                            pow(base as int, alpha as nat) > 0,
                    ;
                }
                return false;
            },
        }
    }
    match (n as u128).checked_mul(acc) {
        Some(_) => true,
        None => false,
    }
}

/// A trail value after `k` evaporation passes and nothing else.
pub open spec fn evaporated_times(p: &Parameters, t: int, k: nat) -> int
    decreases k,
{
    if k == 0 {
        t
    } else {
        evaporated(p, evaporated_times(p, t, (k - 1) as nat))
    }
}

/// Repeated evaporation without reinforcement drives a trail monotonically
/// toward `tau_min` and never below it: every further pass stays within
/// bounds and never raises the trail, and, while `rho < 1`, keeps strictly
/// lowering any trail still above `tau_min`.
pub proof fn lemma_repeated_evaporation(p: &Parameters, t: int, k: nat)
    requires
        p.wf(),
        p.tau_min <= t <= p.tau_max,
    ensures
        p.tau_min <= evaporated_times(p, t, k) <= p.tau_max,
        evaporated_times(p, t, k) <= t,
        evaporated_times(p, t, k + 1) <= evaporated_times(p, t, k),
        p.rho_num < p.rho_den && evaporated_times(p, t, k) > p.tau_min ==> evaporated_times(
            p,
            t,
            k + 1,
        ) < evaporated_times(p, t, k),
    decreases k,
{
    if k == 0 {
        lemma_evaporation_monotone(p, t);
    } else {
        lemma_repeated_evaporation(p, t, (k - 1) as nat);
        lemma_evaporation_monotone(p, evaporated_times(p, t, (k - 1) as nat));
        lemma_evaporation_monotone(p, evaporated_times(p, t, k));
    }
}

/// Evaporation never drops a trail below `tau_min`, never raises it, and,
/// as long as `rho < 1`, strictly lowers every trail still above `tau_min`:
/// repeated application without reinforcement drives all trails to `tau_min`.
pub proof fn lemma_evaporation_monotone(p: &Parameters, t: int)
    requires
        p.wf(),
        p.tau_min <= t <= p.tau_max,
    ensures
        p.tau_min <= evaporated(p, t) <= t,
        p.rho_num < p.rho_den && t > p.tau_min ==> evaporated(p, t) < t,
        evaporated(p, t) <= p.tau_max,
{
    let num = p.rho_num as int;
    let den = p.rho_den as int;
    assert(t * num <= t * den) by (nonlinear_arith)
        requires
            num <= den,
            t >= 0,
    ;
    lemma_div_is_ordered(t * num, t * den, den);
    lemma_div_multiples_vanish(t, den);
    assert((t * den) / den == t);
    if p.rho_num < p.rho_den && t > p.tau_min {
        assert(t * num <= den * t - 1) by (nonlinear_arith)
            requires
                num <= den - 1,
                t >= 1,
                den >= 1,
        ;
        lemma_div_is_ordered(t * num, den * t - 1, den);
        assert(den * t - 1 == (t - 1) * den + (den - 1)) by (nonlinear_arith);
        lemma_fundamental_div_mod_converse(den * t - 1, den, t - 1, den - 1);
    }
}

} // verus!
