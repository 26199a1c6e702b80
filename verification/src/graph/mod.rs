pub mod direction;
pub mod graph;
pub mod ids;
