use vstd::prelude::*;

verus! {

#[verifier::external_type_specification]
#[verifier::external_body]
pub struct ExStdRng(rand::rngs::StdRng);

/// The random source of a run, seeded explicitly so that runs can be
/// reproduced.
pub struct ColonyRng {
    rng: rand::rngs::StdRng,
}

impl ColonyRng {
    /// Relies on rand's `SeedableRng::seed_from_u64` for `StdRng`: builds a
    /// generator whose draws depend on the seed alone.
    #[verifier::external_body]
    pub fn seed_from_u64(seed: u64) -> ColonyRng {
        ColonyRng { rng: <rand::rngs::StdRng as rand::SeedableRng>::seed_from_u64(seed) }
    }

    /// Relies on rand's `Rng::gen_range` over `0..bound`: the draw lies below
    /// `bound`. Nothing more is promised of it.
    #[verifier::external_body]
    pub(crate) fn below(&mut self, bound: usize) -> (r: usize)
        requires
            bound >= 1,
        ensures
            r < bound,
    {
        rand::Rng::gen_range(&mut self.rng, 0..bound)
    }

    /// Relies on rand's `Rng::gen_range` over `0..bound`: the draw lies below
    /// `bound`. Nothing more is promised of it.
    #[verifier::external_body]
    pub(crate) fn below_u128(&mut self, bound: u128) -> (r: u128)
        requires
            bound >= 1,
        ensures
            r < bound,
    {
        rand::Rng::gen_range(&mut self.rng, 0..bound)
    }

    /// Relies on rand's `Rng::gen_ratio` with 1 in 2: a coin toss. Nothing is
    /// promised of the outcome.
    #[verifier::external_body]
    pub(crate) fn coin(&mut self) -> bool {
        rand::Rng::gen_ratio(&mut self.rng, 1, 2)
    }
}

} // verus!
