//! Minimum-cost arborescences of directed graphs.
pub mod edmonds;
