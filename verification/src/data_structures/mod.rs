pub mod bit_vector;
pub mod forest;
pub mod radix_heap;
pub mod rollback_union_find;
pub mod simple_queue;
pub mod skew_heap;
pub mod union_find;
