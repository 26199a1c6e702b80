//! Network algorithms: shortest paths, minimum cost flows, minimum cuts,
//! minimum arborescences and the data structures they are built from,
//! with their behaviour stated as Verus contracts.
pub mod graph;
pub mod data_structures;
pub mod shortest_path;
pub mod maximum_flow;
pub mod minimum_cut;
pub mod minimum_cost_flow;
pub mod spanning_tree;
