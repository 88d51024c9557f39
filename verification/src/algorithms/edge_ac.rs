use vstd::prelude::*;
use vstd::arithmetic::div_mod::{
    lemma_fundamental_div_mod, lemma_mod_pos_bound, lemma_div_pos_is_pos,
};
use crate::models::parameters::{
    Parameters, evaporated, reinforced_value, lemma_evaporation_monotone,
};
use crate::algorithms::aco::{ACO, all_below, vec_contains};
use crate::algorithms::vertex_ac::VertexAC;

verus! {

/// Edge-keyed pheromone: one trail value per ordered vertex pair, the matrix
/// symmetric by construction. The attractiveness of a vertex is the sum of
/// the trails between it and every member of the clique beside it.
pub struct EdgeAC {
    pub pheromones: Vec<Vec<u64>>,
}

/// A flat index below `n * n` splits into a row `i / n` and a column `i % n`,
/// both below `n`.
pub proof fn lemma_div_mod_range(i: int, n: int)
    requires
        0 <= i,
        i < n * n,
        n >= 1,
    ensures
        0 <= i / n < n,
        0 <= i % n < n,
{
    lemma_fundamental_div_mod(i, n);
    lemma_mod_pos_bound(i, n);
    lemma_div_pos_is_pos(i, n);
    let q = i / n;
    let r = i % n;
    assert(q < n) by (nonlinear_arith)
        requires
            i == n * q + r,
            0 <= r,
            i < n * n,
            n >= 1,
            q >= 0,
    ;
}

impl EdgeAC {
    /// The trail sum between `vertex` and every member of `clique`.
    pub open spec fn row_sum(&self, vertex: int, clique: Seq<usize>) -> int
        decreases clique.len(),
    {
        if clique.len() == 0 {
            0
        } else {
            self.row_sum(vertex, clique.drop_last()) + self.pheromones@[vertex]@[clique.last() as int]
        }
    }

    proof fn lemma_row_sum_bounds(&self, p: &Parameters, vertex: int, clique: Seq<usize>)
        requires
            self.inv(p),
            p.wf(),
            0 <= vertex < p.graph.n_vertex,
            all_below(clique, p.graph.n_vertex as int),
        ensures
            clique.len() * p.tau_min <= self.row_sum(vertex, clique),
            self.row_sum(vertex, clique) <= clique.len() * p.tau_max,
        decreases clique.len(),
    {
        if clique.len() > 0 {
            let pre = clique.drop_last();
            assert(all_below(pre, p.graph.n_vertex as int)) by {
                assert forall|k: int| #![trigger pre[k]]
                    0 <= k < pre.len() implies (pre[k] as int) < p.graph.n_vertex as int by {
                    assert(pre[k] == clique[k]);
                }
            }
            self.lemma_row_sum_bounds(p, vertex, pre);
            assert((clique.last() as int) < p.graph.n_vertex) by {
                assert(clique[clique.len() - 1] == clique.last());
            }
            assert((clique.len() - 1) * p.tau_min + p.tau_min == clique.len() * p.tau_min)
                by (nonlinear_arith);
            assert((clique.len() - 1) * p.tau_max + p.tau_max == clique.len() * p.tau_max)
                by (nonlinear_arith);
        }
    }

    /// A model for `parameters.graph`, every trail starting at `tau_max`.
    pub fn new(parameters: &Parameters) -> (r: EdgeAC)
        requires
            parameters.wf(),
        ensures
            r.inv(parameters),
            forall|i: int|
                0 <= i < r.trails().len() ==> (#[trigger] r.trails()[i]) == parameters.tau_max,
    {
        let mut e = EdgeAC { pheromones: Vec::new() };
        e.set_initial_pheromone_trails(parameters);
        e
    }
}

/// Beside a single-member clique the edge-keyed attractiveness degenerates
/// to the one trail between the candidate and that member; when that trail
/// equals the candidate's vertex-keyed trail, the two representations score
/// the candidate alike.
pub proof fn lemma_variant_agreement_singleton(
    va: &VertexAC,
    ea: &EdgeAC,
    vertex: int,
    member: usize,
)
    requires
        0 <= vertex < ea.pheromones@.len(),
        ea.pheromones@[vertex]@[member as int] == va.pheromones@[vertex],
    ensures
        ea.attractiveness(vertex, seq![member]) == va.attractiveness(vertex, seq![member]),
{
    let c = seq![member];
    assert(c.len() == 1);
    assert(c.last() == member);
    assert(c.drop_last() =~= Seq::<usize>::empty());
    assert(ea.row_sum(vertex, c.drop_last()) == 0);
    assert(ea.row_sum(vertex, c) == ea.pheromones@[vertex]@[member as int]);
}

impl ACO for EdgeAC {
    open spec fn inv(&self, p: &Parameters) -> bool {
        &&& self.pheromones@.len() == p.graph.n_vertex
        &&& forall|u: int|
            0 <= u < self.pheromones@.len() ==> (#[trigger] self.pheromones@[u])@.len()
                == p.graph.n_vertex
        &&& forall|u: int, v: int|
            0 <= u < self.pheromones@.len() && 0 <= v < self.pheromones@.len() ==> p.tau_min <= (
            #[trigger] self.pheromones@[u]@[v]) <= p.tau_max
    }

    open spec fn trails(&self) -> Seq<u64> {
        let n = self.pheromones@.len() as int;
        Seq::new((n * n) as nat, |i: int| self.pheromones@[i / n]@[i % n])
    }

    open spec fn reinforced_idx(n: int, clique: Seq<usize>) -> Set<int> {
        Set::new(
            |i: int|
                0 <= i < n * n && (i / n) != (i % n) && clique.contains((i / n) as usize)
                    && clique.contains((i % n) as usize),
        )
    }

    open spec fn attractiveness(&self, vertex: int, current_clique: Seq<usize>) -> int {
        self.row_sum(vertex, current_clique)
    }

    proof fn attractiveness_bounds(&self, p: &Parameters, vertex: int, current_clique: Seq<usize>) {
        self.lemma_row_sum_bounds(p, vertex, current_clique);
        assert(p.tau_min as int <= current_clique.len() * p.tau_min) by (nonlinear_arith)
            requires
                current_clique.len() >= 1,
                p.tau_min >= 0,
        ;
    }

    fn set_initial_pheromone_trails(&mut self, p: &Parameters) {
        let n = p.graph.n_vertex;
        let mut mtx: Vec<Vec<u64>> = Vec::new();
        let mut u: usize = 0;
        while u < n
            invariant
                mtx@.len() == u,
                u <= n,
                forall|a: int| 0 <= a < u ==> (#[trigger] mtx@[a])@.len() == n,
                forall|a: int, b: int|
                    0 <= a < u && 0 <= b < n ==> (#[trigger] mtx@[a]@[b]) == p.tau_max,
            decreases n - u,
        {
            let mut row: Vec<u64> = Vec::new();
            let mut v: usize = 0;
            while v < n
                invariant
                    row@.len() == v,
                    v <= n,
                    forall|b: int| 0 <= b < v ==> (#[trigger] row@[b]) == p.tau_max,
                decreases n - v,
            {
                row.push(p.tau_max);
                v = v + 1;
            }
            mtx.push(row);
            u = u + 1;
        }
        self.pheromones = mtx;
        proof {
            let ni = p.graph.n_vertex as int;
            assert forall|i: int|
                0 <= i < self.trails().len() implies (#[trigger] self.trails()[i])
                == p.tau_max by {
                lemma_div_mod_range(i, ni);
            }
        }
    }

    fn tau_factor_of_vertex(
        &self,
        p: &Parameters,
        vertex: usize,
        current_clique: &Vec<usize>,
    ) -> (r: u128) {
        let mut sum: u128 = 0;
        let mut k: usize = 0;
        while k < current_clique.len()
            invariant
                self.inv(p),
                p.wf(),
                (vertex as int) < p.graph.n_vertex,
                all_below(current_clique@, p.graph.n_vertex as int),
                k <= current_clique@.len(),
                sum as int == self.row_sum(vertex as int, current_clique@.take(k as int)),
                sum as int <= k * p.tau_max,
            decreases current_clique@.len() - k,
        {
            let c = current_clique[k];
            proof {
                assert(current_clique@.take(k as int + 1).drop_last() =~= current_clique@.take(
                    k as int,
                ));
                assert(current_clique@.take(k as int + 1).last() == current_clique@[k as int]);
                assert((k + 1) * p.tau_max == k * p.tau_max + p.tau_max) by (nonlinear_arith);
                assert(k * p.tau_max + p.tau_max <= u128::MAX) by (nonlinear_arith)
                    requires
                        0 <= k <= u64::MAX,
                        0 <= p.tau_max <= u32::MAX,
                ;
            }
            sum = sum + (self.pheromones[vertex][c] as u128);
            k = k + 1;
        }
        proof {
            assert(current_clique@.take(current_clique@.len() as int) =~= current_clique@);
        }
        sum
    }

    fn increment_pheromone(
        &mut self,
        p: &Parameters,
        pheromone_delta: &u64,
        current_clique: &Vec<usize>,
    ) {
        let n = self.pheromones.len();
        let delta = *pheromone_delta;
        let mut u: usize = 0;
        while u < n
            invariant
                p.wf(),
                delta == *pheromone_delta,
                delta <= u32::MAX,
                u <= n,
                n == p.graph.n_vertex,
                self.pheromones@.len() == n,
                old(self).pheromones@.len() == n,
                forall|a: int| 0 <= a < n ==> (#[trigger] self.pheromones@[a])@.len() == n,
                forall|a: int| 0 <= a < n ==> (#[trigger] old(self).pheromones@[a])@.len() == n,
                forall|a: int, b: int|
                    0 <= a < n && 0 <= b < n ==> p.tau_min <= (#[trigger] old(
                        self,
                    ).pheromones@[a]@[b]) <= p.tau_max,
                forall|a: int, b: int|
                    0 <= a < u && 0 <= b < n ==> (#[trigger] self.pheromones@[a]@[b]) as int == (
                    if a != b && current_clique@.contains(a as usize) && current_clique@.contains(
                        b as usize,
                    ) {
                        reinforced_value(p, old(self).pheromones@[a]@[b] as int, delta as int)
                    } else {
                        old(self).pheromones@[a]@[b] as int
                    }),
                forall|a: int, b: int|
                    u <= a < n && 0 <= b < n ==> (#[trigger] self.pheromones@[a]@[b]) == old(
                        self,
                    ).pheromones@[a]@[b],
            decreases n - u,
        {
            let u_in = vec_contains(current_clique, u);
            let mut v: usize = 0;
            while v < n
                invariant
                    p.wf(),
                    delta == *pheromone_delta,
                    delta <= u32::MAX,
                    u < n,
                    v <= n,
                    n == p.graph.n_vertex,
                    u_in == current_clique@.contains(u),
                    self.pheromones@.len() == n,
                    old(self).pheromones@.len() == n,
                    forall|a: int| 0 <= a < n ==> (#[trigger] self.pheromones@[a])@.len() == n,
                    forall|a: int| 0 <= a < n ==> (#[trigger] old(self).pheromones@[a])@.len() == n,
                    forall|a: int, b: int|
                        0 <= a < n && 0 <= b < n ==> p.tau_min <= (#[trigger] old(
                            self,
                        ).pheromones@[a]@[b]) <= p.tau_max,
                    forall|a: int, b: int|
                        0 <= a < u && 0 <= b < n ==> (#[trigger] self.pheromones@[a]@[b]) as int
                            == (if a != b && current_clique@.contains(a as usize)
                            && current_clique@.contains(b as usize) {
                            reinforced_value(p, old(self).pheromones@[a]@[b] as int, delta as int)
                        } else {
                            old(self).pheromones@[a]@[b] as int
                        }),
                    forall|b: int|
                        0 <= b < v ==> (#[trigger] self.pheromones@[u as int]@[b]) as int == (
                        if u as int != b && current_clique@.contains(u) && current_clique@.contains(
                            b as usize,
                        ) {
                            reinforced_value(
                                p,
                                old(self).pheromones@[u as int]@[b] as int,
                                delta as int,
                            )
                        } else {
                            old(self).pheromones@[u as int]@[b] as int
                        }),
                    forall|b: int|
                        v <= b < n ==> (#[trigger] self.pheromones@[u as int]@[b]) == old(
                            self,
                        ).pheromones@[u as int]@[b],
                    forall|a: int, b: int|
                        u < a < n && 0 <= b < n ==> (#[trigger] self.pheromones@[a]@[b]) == old(
                            self,
                        ).pheromones@[a]@[b],
                decreases n - v,
            {
                if u != v && u_in && vec_contains(current_clique, v) {
                    let t = self.pheromones[u][v];
                    let raised = t + delta;
                    if raised > p.tau_max {
                        self.pheromones[u][v] = p.tau_max;
                    } else {
                        self.pheromones[u][v] = raised;
                    }
                }
                v = v + 1;
            }
            u = u + 1;
        }
        proof {
            let ni = p.graph.n_vertex as int;
            assert forall|i: int|
                0 <= i < self.trails().len() implies (#[trigger] self.trails()[i]) as int == (
            if Self::reinforced_idx(ni, current_clique@).contains(i) {
                reinforced_value(p, old(self).trails()[i] as int, delta as int)
            } else {
                old(self).trails()[i] as int
            }) by {
                lemma_div_mod_range(i, ni);
            }
        }
    }

    fn decrement_pheromone(&mut self, p: &Parameters) {
        let n = self.pheromones.len();
        let mut u: usize = 0;
        while u < n
            invariant
                p.wf(),
                u <= n,
                n == p.graph.n_vertex,
                self.pheromones@.len() == n,
                old(self).pheromones@.len() == n,
                forall|a: int| 0 <= a < n ==> (#[trigger] self.pheromones@[a])@.len() == n,
                forall|a: int| 0 <= a < n ==> (#[trigger] old(self).pheromones@[a])@.len() == n,
                forall|a: int, b: int|
                    0 <= a < n && 0 <= b < n ==> p.tau_min <= (#[trigger] old(
                        self,
                    ).pheromones@[a]@[b]) <= p.tau_max,
                forall|a: int, b: int|
                    0 <= a < u && 0 <= b < n ==> (#[trigger] self.pheromones@[a]@[b]) as int
                        == evaporated(p, old(self).pheromones@[a]@[b] as int),
                forall|a: int, b: int|
                    0 <= a < u && 0 <= b < n ==> p.tau_min <= (#[trigger] self.pheromones@[a]@[b])
                        <= p.tau_max,
                forall|a: int, b: int|
                    u <= a < n && 0 <= b < n ==> (#[trigger] self.pheromones@[a]@[b]) == old(
                        self,
                    ).pheromones@[a]@[b],
            decreases n - u,
        {
            let mut v: usize = 0;
            while v < n
                invariant
                    p.wf(),
                    u < n,
                    v <= n,
                    n == p.graph.n_vertex,
                    self.pheromones@.len() == n,
                    old(self).pheromones@.len() == n,
                    forall|a: int| 0 <= a < n ==> (#[trigger] self.pheromones@[a])@.len() == n,
                    forall|a: int| 0 <= a < n ==> (#[trigger] old(self).pheromones@[a])@.len() == n,
                    forall|a: int, b: int|
                        0 <= a < n && 0 <= b < n ==> p.tau_min <= (#[trigger] old(
                            self,
                        ).pheromones@[a]@[b]) <= p.tau_max,
                    forall|a: int, b: int|
                        0 <= a < u && 0 <= b < n ==> (#[trigger] self.pheromones@[a]@[b]) as int
                            == evaporated(p, old(self).pheromones@[a]@[b] as int),
                    forall|a: int, b: int|
                        0 <= a < u && 0 <= b < n ==> p.tau_min <= (
                        #[trigger] self.pheromones@[a]@[b]) <= p.tau_max,
                    forall|b: int|
                        0 <= b < v ==> (#[trigger] self.pheromones@[u as int]@[b]) as int
                            == evaporated(p, old(self).pheromones@[u as int]@[b] as int),
                    forall|b: int|
                        0 <= b < v ==> p.tau_min <= (#[trigger] self.pheromones@[u as int]@[b])
                            <= p.tau_max,
                    forall|b: int|
                        v <= b < n ==> (#[trigger] self.pheromones@[u as int]@[b]) == old(
                            self,
                        ).pheromones@[u as int]@[b],
                    forall|a: int, b: int|
                        u < a < n && 0 <= b < n ==> (#[trigger] self.pheromones@[a]@[b]) == old(
                            self,
                        ).pheromones@[a]@[b],
                decreases n - v,
            {
                let t = self.pheromones[u][v];
                proof {
                    assert((t as int) * (p.rho_num as int) <= u64::MAX) by (nonlinear_arith)
                        requires
                            0 <= t <= u32::MAX,
                            0 <= p.rho_num <= u32::MAX,
                    ;
                    lemma_evaporation_monotone(p, t as int);
                }
                let e = (t * p.rho_num) / p.rho_den;
                if e < p.tau_min {
                    self.pheromones[u][v] = p.tau_min;
                } else {
                    self.pheromones[u][v] = e;
                }
                v = v + 1;
            }
            u = u + 1;
        }
        proof {
            let ni = p.graph.n_vertex as int;
            assert forall|i: int|
                0 <= i < self.trails().len() implies (#[trigger] self.trails()[i]) as int
                == evaporated(p, old(self).trails()[i] as int) by {
                lemma_div_mod_range(i, ni);
            }
        }
    }
}

} // verus!
