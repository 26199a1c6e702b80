use vstd::prelude::*;

verus! {

/// A flow on each edge and its total cost.
pub struct MinimumCostFlowResult {
    pub objective_value: i64,
    pub flows: Vec<i64>,
}

} // verus!
