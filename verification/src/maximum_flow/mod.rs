pub mod bfs;
pub mod cut;
pub mod edge;
pub mod flow;
pub mod status;
pub mod residual;
pub mod augment;
pub mod dinic;
pub mod graph;
pub mod solver;
