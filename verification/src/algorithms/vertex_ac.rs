use vstd::prelude::*;
use crate::models::parameters::{Parameters, evaporated, reinforced_value, lemma_evaporation_monotone};
use crate::algorithms::aco::{ACO, vec_contains};

verus! {

/// Vertex-keyed pheromone: one trail value per vertex. The attractiveness of
/// a vertex is its own trail, whatever the clique beside it.
pub struct VertexAC {
    pub pheromones: Vec<u64>,
}

impl VertexAC {
    /// A model for `parameters.graph`, every trail starting at `tau_max`.
    pub fn new(parameters: &Parameters) -> (r: VertexAC)
        requires
            parameters.wf(),
        ensures
            r.inv(parameters),
            forall|i: int|
                0 <= i < r.trails().len() ==> (#[trigger] r.trails()[i]) == parameters.tau_max,
    {
        let mut v = VertexAC { pheromones: Vec::new() };
        v.set_initial_pheromone_trails(parameters);
        v
    }
}

impl ACO for VertexAC {
    open spec fn inv(&self, p: &Parameters) -> bool {
        &&& self.pheromones@.len() == p.graph.n_vertex
        &&& forall|i: int|
            0 <= i < self.pheromones@.len() ==> p.tau_min <= (#[trigger] self.pheromones@[i])
                <= p.tau_max
    }

    open spec fn trails(&self) -> Seq<u64> {
        self.pheromones@
    }

    open spec fn reinforced_idx(n: int, clique: Seq<usize>) -> Set<int> {
        Set::new(|i: int| 0 <= i < n && clique.contains(i as usize))
    }

    open spec fn attractiveness(&self, vertex: int, current_clique: Seq<usize>) -> int {
        self.pheromones@[vertex] as int
    }

    proof fn attractiveness_bounds(&self, p: &Parameters, vertex: int, current_clique: Seq<usize>) {
        assert(p.tau_max as int <= current_clique.len() * p.tau_max) by (nonlinear_arith)
            requires
                current_clique.len() >= 1,
                p.tau_max >= 0,
        ;
    }

    fn set_initial_pheromone_trails(&mut self, p: &Parameters) {
        let n = p.graph.n_vertex;
        let mut ph: Vec<u64> = Vec::new();
        let mut i: usize = 0;
        while i < n
            invariant
                ph@.len() == i,
                i <= n,
                forall|j: int| 0 <= j < i ==> (#[trigger] ph@[j]) == p.tau_max,
            decreases n - i,
        {
            ph.push(p.tau_max);
            i = i + 1;
        }
        self.pheromones = ph;
    }

    fn tau_factor_of_vertex(
        &self,
        p: &Parameters,
        vertex: usize,
        current_clique: &Vec<usize>,
    ) -> (r: u128) {
        self.pheromones[vertex] as u128
    }

    fn increment_pheromone(
        &mut self,
        p: &Parameters,
        pheromone_delta: &u64,
        current_clique: &Vec<usize>,
    ) {
        let n = self.pheromones.len();
        let delta = *pheromone_delta;
        let mut i: usize = 0;
        while i < n
            invariant
                p.wf(),
                delta == *pheromone_delta,
                delta <= u32::MAX,
                i <= n,
                n == p.graph.n_vertex,
                self.pheromones@.len() == n,
                forall|j: int|
                    i <= j < n ==> (#[trigger] self.pheromones@[j]) == old(self).pheromones@[j],
                forall|j: int|
                    0 <= j < i ==> (#[trigger] self.pheromones@[j]) as int == (
                    if current_clique@.contains(j as usize) {
                        reinforced_value(p, old(self).pheromones@[j] as int, delta as int)
                    } else {
                        old(self).pheromones@[j] as int
                    }),
                forall|j: int|
                    0 <= j < n ==> p.tau_min <= (#[trigger] old(self).pheromones@[j]) <= p.tau_max,
            decreases n - i,
        {
            if vec_contains(current_clique, i) {
                let t = self.pheromones[i];
                let raised = t + delta;
                if raised > p.tau_max {
                    self.pheromones[i] = p.tau_max;
                } else {
                    self.pheromones[i] = raised;
                }
            }
            i = i + 1;
        }
    }

    fn decrement_pheromone(&mut self, p: &Parameters) {
        let n = self.pheromones.len();
        let mut i: usize = 0;
        while i < n
            invariant
                p.wf(),
                i <= n,
                self.pheromones@.len() == n,
                forall|j: int|
                    i <= j < n ==> (#[trigger] self.pheromones@[j]) == old(self).pheromones@[j],
                forall|j: int|
                    0 <= j < i ==> (#[trigger] self.pheromones@[j]) as int == evaporated(
                        p,
                        old(self).pheromones@[j] as int,
                    ),
                forall|j: int|
                    0 <= j < i ==> p.tau_min <= (#[trigger] self.pheromones@[j]) <= p.tau_max,
                forall|j: int|
                    0 <= j < n ==> p.tau_min <= (#[trigger] old(self).pheromones@[j]) <= p.tau_max,
            decreases n - i,
        {
            let t = self.pheromones[i];
            proof {
                assert((t as int) * (p.rho_num as int) <= u64::MAX) by (nonlinear_arith)
                    requires
                        0 <= t <= u32::MAX,
                        0 <= p.rho_num <= u32::MAX,
                ;
                lemma_evaporation_monotone(p, t as int);
            }
            let e = (t * p.rho_num) / p.rho_den;
            if e < p.tau_min {
                self.pheromones[i] = p.tau_min;
            } else {
                self.pheromones[i] = e;
            }
            i = i + 1;
        }
    }
}

} // verus!
