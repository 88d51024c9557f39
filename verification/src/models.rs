pub mod graph;
pub mod parameters;
pub mod rng;
