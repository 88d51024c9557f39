//! Ant-colony search for large cliques in an undirected graph.
//!
//! The library models pheromone amounts as fixed-point integers: a run picks a
//! `scale` (the representation of the amount 1), trail values live in
//! `[tau_min, tau_max]` (both in scaled units), and the evaporation factor is
//! the exact rational `rho_num / rho_den`.

pub mod models;
pub mod algorithms;
