use vstd::prelude::*;
use vstd::set_lib::{set_int_range, lemma_int_range};
use vstd::set_lib::lemma_len_subset;
use vstd::arithmetic::power::{
    pow, lemma_pow0, lemma_pow1, lemma_pow_adds, lemma_pow_increases, lemma_pow_positive,
};
use vstd::arithmetic::div_mod::{lemma_div_nonincreasing, lemma_div_pos_is_pos};
use crate::models::graph::{Graph, lemma_push_contains, lemma_push_no_dup};
use crate::models::parameters::{
    Parameters, evaporated, reinforced_value, delta_spec, max_weight,
};
use crate::models::rng::ColonyRng;

verus! {

/// Every member is a vertex of a graph on `n` vertices.
pub open spec fn all_below(s: Seq<usize>, n: int) -> bool {
    forall|k: int| #![trigger s[k]] 0 <= k < s.len() ==> (s[k] as int) < n
}

/// A clique of `g`: distinct vertices, pairwise adjacent.
pub open spec fn clique_in(g: &Graph, s: Seq<usize>) -> bool {
    &&& all_below(s, g.n_vertex as int)
    &&& s.no_duplicates()
    &&& forall|i: int, j: int|
        0 <= i < s.len() && 0 <= j < s.len() && i != j ==> #[trigger] g.edge(
            s[i] as int,
            s[j] as int,
        )
}

/// `v` is adjacent to every member of `s`.
pub open spec fn common_neighbor(g: &Graph, s: Seq<usize>, v: int) -> bool {
    forall|k: int| #![trigger s[k]] 0 <= k < s.len() ==> g.edge(s[k] as int, v)
}

/// No vertex of `g` is adjacent to every member of `s`: the clique cannot be
/// extended any further.
pub open spec fn maximal_clique(g: &Graph, s: Seq<usize>) -> bool {
    forall|v: int| 0 <= v < g.n_vertex ==> !(#[trigger] common_neighbor(g, s, v))
}

/// The capability set a pheromone representation offers: trail state sized by
/// the graph, an attractiveness score for a vertex beside a partial clique,
/// and the evaporation and reinforcement operators. The control algorithm is
/// written once against this interface.
pub trait ACO: Sized {
    /// Shape and range invariant of the trail state under `p`: sized for the
    /// graph, every trail value in `[tau_min, tau_max]`.
    spec fn inv(&self, p: &Parameters) -> bool;

    /// All trail values, flattened into one sequence.
    spec fn trails(&self) -> Seq<u64>;

    /// The flattened trail indices that reinforcing `clique` raises.
    spec fn reinforced_idx(n: int, clique: Seq<usize>) -> Set<int>;

    /// The attractiveness of `vertex` beside the clique under construction.
    spec fn attractiveness(&self, vertex: int, current_clique: Seq<usize>) -> int;

    /// An attractiveness lies between `tau_min` and `|clique| * tau_max`.
    proof fn attractiveness_bounds(&self, p: &Parameters, vertex: int, current_clique: Seq<usize>)
        requires
            self.inv(p),
            p.wf(),
            0 <= vertex < p.graph.n_vertex,
            current_clique.len() >= 1,
            all_below(current_clique, p.graph.n_vertex as int),
        ensures
            p.tau_min <= self.attractiveness(vertex, current_clique),
            self.attractiveness(vertex, current_clique) <= current_clique.len() * p.tau_max,
    ;

    /// Set every trail to `tau_max`.
    fn set_initial_pheromone_trails(&mut self, p: &Parameters)
        requires
            p.wf(),
        ensures
            final(self).inv(p),
            forall|i: int|
                0 <= i < final(self).trails().len() ==> #[trigger] final(self).trails()[i]
                    == p.tau_max,
    ;

    /// The attractiveness score of `vertex` beside `current_clique`.
    fn tau_factor_of_vertex(
        &self,
        p: &Parameters,
        vertex: usize,
        current_clique: &Vec<usize>,
    ) -> (r: u128)
        requires
            self.inv(p),
            p.wf(),
            vertex < p.graph.n_vertex,
            current_clique@.len() >= 1,
            all_below(current_clique@, p.graph.n_vertex as int),
        ensures
            r as int == self.attractiveness(vertex as int, current_clique@),
    ;

    /// Raise the trails picked out by `current_clique` by `pheromone_delta`,
    /// clamping at `tau_max`.
    fn increment_pheromone(
        &mut self,
        p: &Parameters,
        pheromone_delta: &u64,
        current_clique: &Vec<usize>,
    )
        requires
            old(self).inv(p),
            p.wf(),
            *pheromone_delta <= u32::MAX,
            all_below(current_clique@, p.graph.n_vertex as int),
            current_clique@.no_duplicates(),
        ensures
            final(self).inv(p),
            final(self).trails().len() == old(self).trails().len(),
            forall|i: int|
                0 <= i < final(self).trails().len() ==> (#[trigger] final(self).trails()[i]) as int
                    == (if Self::reinforced_idx(p.graph.n_vertex as int, current_clique@).contains(
                    i,
                ) {
                    reinforced_value(p, old(self).trails()[i] as int, *pheromone_delta as int)
                } else {
                    old(self).trails()[i] as int
                }),
    ;

    /// Multiply every trail by `rho`, clamping at `tau_min`.
    fn decrement_pheromone(&mut self, p: &Parameters)
        requires
            old(self).inv(p),
            p.wf(),
        ensures
            final(self).inv(p),
            final(self).trails().len() == old(self).trails().len(),
            forall|i: int|
                0 <= i < final(self).trails().len() ==> (#[trigger] final(self).trails()[i]) as int
                    == evaporated(p, old(self).trails()[i] as int),
    ;
}

/// Whether `x` occurs in `v`.
pub fn vec_contains(v: &Vec<usize>, x: usize) -> (r: bool)
    ensures
        r == v@.contains(x),
{
    let mut k: usize = 0;
    while k < v.len()
        invariant
            k <= v@.len(),
            forall|j: int| 0 <= j < k ==> v@[j] != x,
        decreases v@.len() - k,
    {
        if v[k] == x {
            proof {
                assert(v@[k as int] == x);
            }
            return true;
        }
        k = k + 1;
    }
    false
}

/// Distinct vertices below `n` number at most `n`.
pub proof fn lemma_distinct_below_len(s: Seq<usize>, n: int)
    requires
        s.no_duplicates(),
        all_below(s, n),
        n >= 0,
    ensures
        s.len() <= n,
{
    let si = s.map_values(|x: usize| x as int);
    assert(si.no_duplicates()) by {
        assert forall|i: int, j: int|
            0 <= i < si.len() && 0 <= j < si.len() && i != j implies si[i] != si[j] by {
            assert(s[i] != s[j]);
        }
    }
    si.unique_seq_to_set();
    assert(si.to_set().subset_of(set_int_range(0, n))) by {
        assert forall|e: int| si.to_set().contains(e) implies set_int_range(0, n).contains(e) by {
            assert(si.contains(e));
            let k = choose|k: int| 0 <= k < si.len() && si[k] == e;
            assert((s[k] as int) < n);
        }
    }
    lemma_int_range(0, n);
    lemma_len_subset(si.to_set(), set_int_range(0, n));
}

pub proof fn lemma_pow_nonneg(b: int, e: nat)
    requires
        b >= 0,
    ensures
        pow(b, e) >= 0,
    decreases e,
{
    reveal(pow);
    if e > 0 {
        lemma_pow_nonneg(b, (e - 1) as nat);
        assert(b * pow(b, (e - 1) as nat) >= 0) by (nonlinear_arith)
            requires
                b >= 0,
                pow(b, (e - 1) as nat) >= 0,
        ;
    }
}

/// `pow` is monotone in its base.
pub proof fn lemma_pow_base_monotone(a: int, b: int, e: nat)
    requires
        0 <= a <= b,
    ensures
        pow(a, e) <= pow(b, e),
    decreases e,
{
    reveal(pow);
    if e > 0 {
        lemma_pow_base_monotone(a, b, (e - 1) as nat);
        lemma_pow_nonneg(a, (e - 1) as nat);
        lemma_pow_nonneg(b, (e - 1) as nat);
        assert(a * pow(a, (e - 1) as nat) <= b * pow(b, (e - 1) as nat)) by (nonlinear_arith)
            requires
                0 <= a <= b,
                0 <= pow(a, (e - 1) as nat) <= pow(b, (e - 1) as nat),
        ;
    }
}

/// `base` to the power `alpha`, exactly.
fn pow_weight(base: u128, alpha: u32) -> (r: u128)
    requires
        1 <= base,
        pow(base as int, alpha as nat) <= u128::MAX,
    ensures
        r as int == pow(base as int, alpha as nat),
{
    let mut acc: u128 = 1;
    let mut i: u32 = 0;
    proof {
        lemma_pow0(base as int);
    }
    while i < alpha
        invariant
            1 <= base,
            i <= alpha,
            acc as int == pow(base as int, i as nat),
            pow(base as int, alpha as nat) <= u128::MAX,
        decreases alpha - i,
    {
        proof {
            lemma_pow1(base as int);
            lemma_pow_adds(base as int, i as nat, 1);
            lemma_pow_increases(base as nat, (i + 1) as nat, alpha as nat);
            lemma_pow_nonneg(base as int, i as nat);
        }
        acc = acc * base;
        i = i + 1;
    }
    acc
}

/// The better of two cliques: the strictly larger one; on a size tie, one of
/// the two, picked by a coin toss so that neither argument position is
/// favoured.
pub fn choose_best_clique(
    clique_1: &Vec<usize>,
    clique_2: &Vec<usize>,
    rng: &mut ColonyRng,
) -> (r: Vec<usize>)
    ensures
        r@ == clique_1@ || r@ == clique_2@,
        r@.len() == if clique_1@.len() >= clique_2@.len() {
            clique_1@.len()
        } else {
            clique_2@.len()
        },
        clique_1@.len() > clique_2@.len() ==> r@ == clique_1@,
        clique_2@.len() > clique_1@.len() ==> r@ == clique_2@,
{
    if clique_1.len() > clique_2.len() {
        let r = clique_1.clone();
        proof {
            assert(r@ =~= clique_1@);
        }
        r
    } else if clique_1.len() == clique_2.len() {
        if rng.coin() {
            let r = clique_1.clone();
            proof {
                assert(r@ =~= clique_1@);
            }
            r
        } else {
            let r = clique_2.clone();
            proof {
                assert(r@ =~= clique_2@);
            }
            r
        }
    } else {
        let r = clique_2.clone();
        proof {
            assert(r@ =~= clique_2@);
        }
        r
    }
}

/// The selection weight of a candidate: its attractiveness beside the clique
/// under construction, raised to the power `alpha`. The probability of
/// picking the candidate is this weight divided by the sum of the weights of
/// all candidates.
pub fn vertex_probability<A: ACO>(
    model: &A,
    p: &Parameters,
    vertex: usize,
    current_clique: &Vec<usize>,
    memory_tau: &Vec<u128>,
) -> (r: u128)
    requires
        model.inv(p),
        p.wf(),
        vertex < p.graph.n_vertex,
        current_clique@.len() >= 1,
        current_clique@.no_duplicates(),
        all_below(current_clique@, p.graph.n_vertex as int),
        memory_tau@.len() == p.graph.n_vertex,
        forall|v: int|
            0 <= v < memory_tau@.len() ==> (#[trigger] memory_tau@[v]) == 0 || memory_tau@[
                v
            ] as int == model.attractiveness(v, current_clique@),
    ensures
        r as int == pow(model.attractiveness(vertex as int, current_clique@), p.alpha as nat),
        1 <= r,
        r as int <= max_weight(p.graph.n_vertex as int, p.tau_max as int, p.alpha as nat),
{
    proof {
        model.attractiveness_bounds(p, vertex as int, current_clique@);
        lemma_distinct_below_len(current_clique@, p.graph.n_vertex as int);
    }
    let tau: u128;
    if memory_tau[vertex] > 0 {
        tau = memory_tau[vertex];
    } else {
        tau = model.tau_factor_of_vertex(p, vertex, current_clique);
    }
    proof {
        let a = model.attractiveness(vertex as int, current_clique@);
        let n = p.graph.n_vertex as int;
        assert(current_clique@.len() * p.tau_max <= n * p.tau_max) by (nonlinear_arith)
            requires
                current_clique@.len() <= n,
                p.tau_max >= 0,
        ;
        lemma_pow_base_monotone(a, n * p.tau_max, p.alpha as nat);
        lemma_pow_positive(a, p.alpha as nat);
        assert(n * max_weight(n, p.tau_max as int, p.alpha as nat) >= max_weight(
            n,
            p.tau_max as int,
            p.alpha as nat,
        )) by (nonlinear_arith)
            requires
                n >= 1,
                max_weight(n, p.tau_max as int, p.alpha as nat) >= 0,
        ;
    }
    pow_weight(tau, p.alpha)
}

/// Draw one candidate, each with probability proportional to its selection
/// weight; the distribution is normalized over the remaining candidate set,
/// by drawing uniformly below the total of the candidates' weights. The
/// cumulative weights are scanned against that one draw; should the scan
/// ever run past the last entry, the last candidate in iteration order is
/// taken.
pub fn choose_vertex_using_pheromones_probabilities<A: ACO>(
    model: &A,
    p: &Parameters,
    candidates: &Vec<usize>,
    current_clique: &Vec<usize>,
    rng: &mut ColonyRng,
) -> (r: usize)
    requires
        model.inv(p),
        p.wf(),
        candidates@.len() >= 1,
        candidates@.no_duplicates(),
        all_below(candidates@, p.graph.n_vertex as int),
        current_clique@.len() >= 1,
        current_clique@.no_duplicates(),
        all_below(current_clique@, p.graph.n_vertex as int),
    ensures
        candidates@.contains(r),
{
    let n = p.graph.n_vertex;
    let ghost mw = max_weight(n as int, p.tau_max as int, p.alpha as nat);
    let mut memory_tau: Vec<u128> = Vec::new();
    let mut vi: usize = 0;
    while vi < n
        invariant
            memory_tau@.len() == vi,
            vi <= n,
            forall|j: int| 0 <= j < vi ==> (#[trigger] memory_tau@[j]) == 0,
        decreases n - vi,
    {
        memory_tau.push(0);
        vi = vi + 1;
    }
    let mut ci: usize = 0;
    while ci < candidates.len()
        invariant
            model.inv(p),
            p.wf(),
            n == p.graph.n_vertex,
            candidates@.len() >= 1,
            candidates@.no_duplicates(),
            all_below(candidates@, p.graph.n_vertex as int),
            current_clique@.len() >= 1,
            current_clique@.no_duplicates(),
            all_below(current_clique@, p.graph.n_vertex as int),
            ci <= candidates@.len(),
            memory_tau@.len() == n,
            forall|v: int|
                0 <= v < memory_tau@.len() ==> (#[trigger] memory_tau@[v]) == 0 || memory_tau@[
                    v
                ] as int == model.attractiveness(v, current_clique@),
        decreases candidates@.len() - ci,
    {
        let other_v = candidates[ci];
        let tau_other_v = model.tau_factor_of_vertex(p, other_v, current_clique);
        memory_tau[other_v] = tau_other_v;
        ci = ci + 1;
    }
    let mut probabilities: Vec<(usize, u128)> = Vec::new();
    let mut sum_probabilities: u128 = 0;
    proof {
        lemma_distinct_below_len(candidates@, n as int);
    }
    let mut i: usize = 0;
    while i < candidates.len()
        invariant
            model.inv(p),
            p.wf(),
            n == p.graph.n_vertex,
            mw == max_weight(n as int, p.tau_max as int, p.alpha as nat),
            candidates@.len() >= 1,
            candidates@.len() <= n,
            candidates@.no_duplicates(),
            all_below(candidates@, p.graph.n_vertex as int),
            current_clique@.len() >= 1,
            current_clique@.no_duplicates(),
            all_below(current_clique@, p.graph.n_vertex as int),
            memory_tau@.len() == n,
            forall|v: int|
                0 <= v < memory_tau@.len() ==> (#[trigger] memory_tau@[v]) == 0 || memory_tau@[
                    v
                ] as int == model.attractiveness(v, current_clique@),
            i <= candidates@.len(),
            probabilities@.len() == i,
            forall|k: int|
                0 <= k < i ==> (#[trigger] probabilities@[k]).0 == candidates@[k],
            i >= 1 ==> probabilities@[i - 1].1 == sum_probabilities,
            sum_probabilities as int <= i * mw,
            sum_probabilities >= i,
        decreases candidates@.len() - i,
    {
        let w = vertex_probability(model, p, candidates[i], current_clique, &memory_tau);
        proof {
            assert((i + 1) * mw == i * mw + mw) by (nonlinear_arith);
            assert((i + 1) * mw <= n * mw) by (nonlinear_arith)
                requires
                    i + 1 <= n,
                    mw >= 0,
            ;
        }
        sum_probabilities = sum_probabilities + w;
        probabilities.push((candidates[i], sum_probabilities));
        i = i + 1;
    }
    let random = rng.below_u128(sum_probabilities);
    let mut j: usize = 0;
    while j < probabilities.len()
        invariant
            probabilities@.len() == candidates@.len(),
            candidates@.len() >= 1,
            forall|k: int|
                0 <= k < probabilities@.len() ==> (#[trigger] probabilities@[k]).0
                    == candidates@[k],
            j <= probabilities@.len(),
        decreases probabilities@.len() - j,
    {
        if random < probabilities[j].1 {
            let r = probabilities[j].0;
            proof {
                assert(candidates@[j as int] == r);
            }
            return r;
        }
        j = j + 1;
    }
    let r = probabilities[probabilities.len() - 1].0;
    proof {
        assert(candidates@[candidates@.len() - 1] == r);
    }
    r
}

/// The members of `a` that also occur in `b`, in their order in `a`.
pub fn intersect_candidates(a: &Vec<usize>, b: &Vec<usize>) -> (r: Vec<usize>)
    requires
        a@.no_duplicates(),
    ensures
        r@.no_duplicates(),
        forall|x: usize| #[trigger] r@.contains(x) <==> a@.contains(x) && b@.contains(x),
{
    let mut r: Vec<usize> = Vec::new();
    let mut i: usize = 0;
    while i < a.len()
        invariant
            a@.no_duplicates(),
            i <= a@.len(),
            r@.no_duplicates(),
            forall|x: usize| #[trigger] r@.contains(x) <==> a@.take(i as int).contains(x)
                && b@.contains(x),
        decreases a@.len() - i,
    {
        let x = a[i];
        proof {
            assert(a@.take(i as int + 1) =~= a@.take(i as int).push(a@[i as int]));
        }
        if vec_contains(b, x) {
            proof {
                if r@.contains(x) {
                    assert(a@.take(i as int).contains(x));
                    let k = choose|k: int| 0 <= k < i && a@.take(i as int)[k] == x;
                    assert(a@[k] == a@[i as int]);
                    assert(false);
                }
                lemma_push_no_dup(r@, x);
                assert forall|y: usize| #[trigger] r@.push(x).contains(y) <==> (a@.take(
                    i as int + 1,
                ).contains(y) && b@.contains(y)) by {
                    lemma_push_contains(r@, x, y);
                    lemma_push_contains(a@.take(i as int), a@[i as int], y);
                }
            }
            r.push(x);
        } else {
            proof {
                assert forall|y: usize| #[trigger] r@.contains(y) <==> (a@.take(i as int
                    + 1).contains(y) && b@.contains(y)) by {
                    lemma_push_contains(a@.take(i as int), a@[i as int], y);
                }
            }
        }
        i = i + 1;
    }
    proof {
        assert(a@.take(a@.len() as int) =~= a@);
    }
    r
}

/// One ant's construction: start from `initial_vertex`, repeatedly draw a
/// common neighbor of everything chosen so far, and stop when none is left.
/// The result is a clique of the graph that no vertex can extend.
pub fn construct_clique<A: ACO>(
    model: &A,
    p: &Parameters,
    initial_vertex: usize,
    rng: &mut ColonyRng,
) -> (r: Vec<usize>)
    requires
        model.inv(p),
        p.wf(),
        initial_vertex < p.graph.n_vertex,
    ensures
        clique_in(&p.graph, r@),
        r@.len() >= 1,
        r@[0] == initial_vertex,
        maximal_clique(&p.graph, r@),
{
    let g = &p.graph;
    let mut k_clique: Vec<usize> = Vec::new();
    k_clique.push(initial_vertex);
    let mut candidates = g.get_neighbor_candidates(initial_vertex);
    proof {
        assert(candidates@.no_duplicates()) by {
            assert forall|i: int, j: int|
                0 <= i < candidates@.len() && 0 <= j < candidates@.len() && i != j
                implies candidates@[i] != candidates@[j] by {
                if i < j {
                    assert(candidates@[i] < candidates@[j]);
                } else {
                    assert(candidates@[j] < candidates@[i]);
                }
            }
        }
        assert forall|v: int|
            0 <= v < g.n_vertex implies (#[trigger] candidates@.contains(v as usize))
            <==> common_neighbor(g, k_clique@, v) by {
            assert(k_clique@[0] == initial_vertex);
            if candidates@.contains(v as usize) {
                assert(g.edge(initial_vertex as int, v));
                assert(g.edge(v, initial_vertex as int));
            }
            if common_neighbor(g, k_clique@, v) {
                assert(g.edge(k_clique@[0] as int, v));
            }
        }
    }
    while candidates.len() > 0
        invariant
            model.inv(p),
            p.wf(),
            clique_in(&p.graph, k_clique@),
            k_clique@.len() >= 1,
            k_clique@[0] == initial_vertex,
            candidates@.no_duplicates(),
            all_below(candidates@, p.graph.n_vertex as int),
            forall|v: int|
                0 <= v < p.graph.n_vertex ==> ((#[trigger] candidates@.contains(v as usize))
                    <==> common_neighbor(&p.graph, k_clique@, v)),
        decreases candidates@.len(),
    {
        let ghost old_candidates = candidates@;
        let ghost old_clique = k_clique@;
        let new_v = choose_vertex_using_pheromones_probabilities(
            model,
            p,
            &candidates,
            &k_clique,
            rng,
        );
        let new_v_candidates = p.graph.get_neighbor_candidates(new_v);
        proof {
            assert(candidates@.contains(new_v));
            assert((new_v as int) < p.graph.n_vertex);
            assert(candidates@.contains(((new_v as int) as usize)));
            assert(common_neighbor(&p.graph, k_clique@, new_v as int));
            if k_clique@.contains(new_v) {
                let k = choose|k: int| 0 <= k < k_clique@.len() && k_clique@[k] == new_v;
                assert(p.graph.edge(k_clique@[k] as int, new_v as int));
                assert(false);
            }
            lemma_push_no_dup(k_clique@, new_v);
        }
        k_clique.push(new_v);
        proof {
            assert(clique_in(&p.graph, k_clique@)) by {
                assert forall|i: int, j: int|
                    0 <= i < k_clique@.len() && 0 <= j < k_clique@.len() && i != j
                    implies #[trigger] p.graph.edge(k_clique@[i] as int, k_clique@[j] as int) by {
                    if i < old_clique.len() && j < old_clique.len() {
                        assert(p.graph.edge(old_clique[i] as int, old_clique[j] as int));
                    } else if j == old_clique.len() {
                        assert(k_clique@[j] == new_v);
                        assert(p.graph.edge(old_clique[i] as int, new_v as int));
                    } else {
                        assert(k_clique@[i] == new_v);
                        assert(p.graph.edge(old_clique[j] as int, new_v as int));
                        assert(p.graph.edge(new_v as int, old_clique[j] as int));
                    }
                }
                assert(all_below(k_clique@, p.graph.n_vertex as int)) by {
                    assert forall|k: int|
                        0 <= k < k_clique@.len() implies ((#[trigger] k_clique@[k]) as int)
                        < p.graph.n_vertex as int by {
                        if k < old_clique.len() {
                            assert(old_clique[k] == k_clique@[k]);
                        }
                    }
                }
            }
        }
        candidates = intersect_candidates(&candidates, &new_v_candidates);
        proof {
            assert(all_below(candidates@, p.graph.n_vertex as int)) by {
                assert forall|k: int| #![trigger candidates@[k]]
                    0 <= k < candidates@.len() implies (candidates@[k] as int)
                    < p.graph.n_vertex as int by {
                    let x = candidates@[k];
                    assert(candidates@.contains(x));
                    assert(old_candidates.contains(x));
                    let k2 = choose|k2: int|
                        0 <= k2 < old_candidates.len() && old_candidates[k2] == x;
                    assert((old_candidates[k2] as int) < p.graph.n_vertex as int);
                }
            }
            // the new candidate set is the common-neighbor set of the grown clique
            assert forall|v: int|
                0 <= v < p.graph.n_vertex implies ((#[trigger] candidates@.contains(v as usize))
                <==> common_neighbor(&p.graph, k_clique@, v)) by {
                if candidates@.contains(v as usize) {
                    assert(old_candidates.contains(v as usize));
                    assert(new_v_candidates@.contains(v as usize));
                    assert(common_neighbor(&p.graph, old_clique, v));
                    assert(p.graph.edge(new_v as int, v));
                    assert forall|k: int|
                        0 <= k < k_clique@.len() implies p.graph.edge(
                        (#[trigger] k_clique@[k]) as int,
                        v,
                    ) by {
                        if k < old_clique.len() {
                            assert(k_clique@[k] == old_clique[k]);
                        } else {
                            assert(k_clique@[k] == new_v);
                        }
                    }
                }
                if common_neighbor(&p.graph, k_clique@, v) {
                    assert forall|k: int|
                        0 <= k < old_clique.len() implies p.graph.edge(
                        (#[trigger] old_clique[k]) as int,
                        v,
                    ) by {
                        assert(k_clique@[k] == old_clique[k]);
                        assert(p.graph.edge(k_clique@[k] as int, v));
                    }
                    assert(common_neighbor(&p.graph, old_clique, v));
                    assert(old_candidates.contains(v as usize));
                    assert(k_clique@[old_clique.len() as int] == new_v);
                    assert(p.graph.edge(new_v as int, v));
                    assert(new_v_candidates@.contains(v as usize));
                }
            }
            // strictly fewer candidates: the chosen vertex has left the set
            assert(!candidates@.contains(new_v)) by {
                if candidates@.contains(new_v) {
                    assert(new_v_candidates@.contains(new_v));
                    assert(new_v_candidates@.contains(((new_v as int) as usize)));
                    assert(p.graph.edge(new_v as int, new_v as int));
                }
            }
            broadcast use vstd::seq_lib::seq_to_set_is_finite;

            candidates@.unique_seq_to_set();
            old_candidates.unique_seq_to_set();
            assert(candidates@.to_set().subset_of(old_candidates.to_set().remove(new_v))) by {
                assert forall|e: usize|
                    candidates@.to_set().contains(e) implies old_candidates.to_set().remove(
                    new_v,
                ).contains(e) by {
                    assert(candidates@.contains(e));
                    assert(old_candidates.contains(e));
                    assert(e != new_v);
                }
            }
            assert(old_candidates.to_set().contains(new_v));
            assert(old_candidates.to_set().remove(new_v).len() == old_candidates.to_set().len()
                - 1);
            lemma_len_subset(candidates@.to_set(), old_candidates.to_set().remove(new_v));
        }
    }
    proof {
        assert(maximal_clique(&p.graph, k_clique@)) by {
            assert forall|v: int|
                0 <= v < p.graph.n_vertex implies !(#[trigger] common_neighbor(
                &p.graph,
                k_clique@,
                v,
            )) by {
                if common_neighbor(&p.graph, k_clique@, v) {
                    assert(candidates@.contains(v as usize));
                    assert(candidates@.len() > 0);
                }
            }
        }
    }
    k_clique
}

/// One per-generation trail update: a full evaporation pass, then
/// reinforcement of the generation's best clique with the fixed-point amount
/// `1 / (1 + |global best| - |generation best|)`.
pub fn update_pheromone_trail<A: ACO>(
    model: &mut A,
    p: &Parameters,
    global_best_clique: &Vec<usize>,
    k_best_clique: &Vec<usize>,
)
    requires
        old(model).inv(p),
        p.wf(),
        all_below(k_best_clique@, p.graph.n_vertex as int),
        k_best_clique@.no_duplicates(),
        k_best_clique@.len() <= global_best_clique@.len(),
    ensures
        final(model).inv(p),
        final(model).trails().len() == old(model).trails().len(),
        forall|i: int|
            0 <= i < final(model).trails().len() ==> (#[trigger] final(model).trails()[i]) as int
                == ({
                let e = evaporated(p, old(model).trails()[i] as int);
                let d = delta_spec(
                    p,
                    global_best_clique@.len() as int,
                    k_best_clique@.len() as int,
                );
                if A::reinforced_idx(p.graph.n_vertex as int, k_best_clique@).contains(i) {
                    reinforced_value(p, e, d)
                } else {
                    e
                }
            }),
{
    model.decrement_pheromone(p);
    let diff: u128 = (global_best_clique.len() - k_best_clique.len()) as u128;
    proof {
        lemma_div_nonincreasing(p.scale as int, 1 + diff as int);
        lemma_div_pos_is_pos(p.scale as int, 1 + diff as int);
    }
    let pheromone_delta: u64 = ((p.scale as u128) / (1 + diff)) as u64;
    model.increment_pheromone(p, &pheromone_delta, k_best_clique);
}

/// The full colony run: `cycles` generations of `ants` constructions each,
/// tracking the generation best and the global best, with one trail update
/// per generation. Returns the global best: the empty clique when `cycles`
/// is 0, otherwise a maximal clique of the graph.
pub fn aco_procedure<A: ACO>(model: &mut A, p: &Parameters, rng: &mut ColonyRng) -> (r: Vec<usize>)
    requires
        old(model).inv(p),
        p.wf(),
    ensures
        final(model).inv(p),
        clique_in(&p.graph, r@),
        p.cycles == 0 ==> r@ == Seq::<usize>::empty(),
        p.cycles >= 1 ==> r@.len() >= 1 && maximal_clique(&p.graph, r@),
{
    let mut global_best: Vec<usize> = Vec::new();
    let mut gen: usize = 0;
    while gen < p.cycles
        invariant
            model.inv(p),
            p.wf(),
            gen <= p.cycles,
            clique_in(&p.graph, global_best@),
            global_best@.len() == 0 || maximal_clique(&p.graph, global_best@),
            gen >= 1 ==> global_best@.len() >= 1,
            gen == 0 ==> global_best@ == Seq::<usize>::empty(),
        decreases p.cycles - gen,
    {
        let mut gen_best: Vec<usize> = Vec::new();
        let mut k: usize = 0;
        while k < p.ants
            invariant
                model.inv(p),
                p.wf(),
                k <= p.ants,
                clique_in(&p.graph, gen_best@),
                gen_best@.len() == 0 || maximal_clique(&p.graph, gen_best@),
                k >= 1 ==> gen_best@.len() >= 1,
                clique_in(&p.graph, global_best@),
                global_best@.len() == 0 || maximal_clique(&p.graph, global_best@),
                gen >= 1 ==> global_best@.len() >= 1,
                gen == 0 ==> global_best@ == Seq::<usize>::empty(),
            decreases p.ants - k,
        {
            let initial_vertex = p.graph.select_random_vertex(rng);
            let k_clique = construct_clique(model, p, initial_vertex, rng);
            gen_best = choose_best_clique(&gen_best, &k_clique, rng);
            k = k + 1;
        }
        global_best = choose_best_clique(&global_best, &gen_best, rng);
        update_pheromone_trail(model, p, &global_best, &gen_best);
        gen = gen + 1;
    }
    global_best
}

/// In a graph without edges every construction ends at its start vertex: a
/// clique that begins at `start` is exactly the singleton `{start}`.
pub proof fn lemma_no_edges_singleton(g: &Graph, s: Seq<usize>, start: usize)
    requires
        g.wf(),
        forall|u: int, v: int|
            0 <= u < g.n_vertex && 0 <= v < g.n_vertex ==> !(#[trigger] g.edge(u, v)),
        clique_in(g, s),
        s.len() >= 1,
        s[0] == start,
    ensures
        s =~= seq![start],
{
    if s.len() >= 2 {
        assert(g.edge(s[0] as int, s[1] as int));
        assert(false);
    }
}

/// On a complete graph every maximal clique holds every vertex.
pub proof fn lemma_complete_graph_full(g: &Graph, s: Seq<usize>)
    requires
        g.wf(),
        forall|u: int, v: int|
            0 <= u < g.n_vertex && 0 <= v < g.n_vertex && u != v ==> #[trigger] g.edge(u, v),
        clique_in(g, s),
        s.len() >= 1,
        maximal_clique(g, s),
    ensures
        s.len() == g.n_vertex,
        forall|v: int| 0 <= v < g.n_vertex ==> #[trigger] s.contains(v as usize),
{
    assert forall|v: int| 0 <= v < g.n_vertex implies #[trigger] s.contains(v as usize) by {
        if !s.contains(v as usize) {
            assert(common_neighbor(g, s, v)) by {
                assert forall|k: int| 0 <= k < s.len() implies g.edge((s[k]) as int, v) by {
                    assert(s[k] as int != v) by {
                        if s[k] as int == v {
                            assert(s.contains(v as usize));
                        }
                    }
                }
            }
            assert(false);
        }
    }
    lemma_distinct_below_len(s, g.n_vertex as int);
    let si = s.map_values(|x: usize| x as int);
    assert(si.no_duplicates()) by {
        assert forall|i: int, j: int|
            0 <= i < si.len() && 0 <= j < si.len() && i != j implies si[i] != si[j] by {
            assert(s[i] != s[j]);
        }
    }
    si.unique_seq_to_set();
    assert(set_int_range(0, g.n_vertex as int).subset_of(si.to_set())) by {
        assert forall|e: int|
            set_int_range(0, g.n_vertex as int).contains(e) implies si.to_set().contains(e) by {
            assert(s.contains(e as usize));
            let k = choose|k: int| 0 <= k < s.len() && s[k] == e as usize;
            assert(si[k] == e);
        }
    }
    lemma_int_range(0, g.n_vertex as int);
    lemma_len_subset(set_int_range(0, g.n_vertex as int), si.to_set());
}

} // verus!

