pub mod aco;
pub mod vertex_ac;
pub mod edge_ac;
