pub mod bellman_ford;
pub mod dijkstra;
pub mod solver;
