pub mod gomory_hu;
pub mod minimum_cut;
