pub mod cycle_canceling;
pub mod cycle_trace;
pub mod edge;
pub mod error;
pub mod extend_network;
pub mod graph;
pub mod infeasibility;
pub mod normalized_network;
pub mod optimality;
pub mod primal_dual;
pub mod residual_network;
pub mod residual_paths;
pub mod result;
pub mod solver;
pub mod spanning_tree_structure;
pub mod status;
pub mod successive_shortest_path;
pub mod translater;
pub mod validate;
