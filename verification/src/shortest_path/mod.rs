pub mod bellman_ford;
pub mod closed_walks;
pub mod csr;
pub mod dijkstra;
pub mod error;
pub mod graph;
pub mod internal_graph;
pub mod relax;
pub mod solvers;
pub mod status;
pub mod walk;
