use vstd::prelude::*;

verus! {

/// An edge that must carry between `lower` and `upper` units, each at `cost`.
#[derive(Clone, Copy, Debug, PartialEq, Eq, Structural)]
pub struct MinimumCostFlowEdge {
    pub lower: i64,
    pub upper: i64,
    pub cost: i64,
}

/// A node that supplies `b` units (a demand when negative).
#[derive(Clone, Copy, Debug, PartialEq, Eq, Structural)]
pub struct MinimumCostFlowNode {
    pub b: i64,
}

impl Default for MinimumCostFlowNode {
    fn default() -> (n: Self)
        ensures
            n.b == 0,
    {
        MinimumCostFlowNode { b: 0 }
    }
}

} // verus!
