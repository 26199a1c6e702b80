use vstd::prelude::*;

verus! {

/// Why a minimum cost flow solver gave no flow.
#[non_exhaustive]
#[derive(Clone, Copy, Debug, PartialEq, Eq, Structural)]
pub enum MinimumCostFlowError {
    NotSolved,
    Unbalanced,
    Infeasible,
}

impl MinimumCostFlowError {
    /// The text that describes the error.
    pub fn message(&self) -> (s: String)
        ensures
            s@ == match self {
                MinimumCostFlowError::NotSolved => "solver has not been run yet"@,
                MinimumCostFlowError::Unbalanced => "unbalanced"@,
                MinimumCostFlowError::Infeasible => "infeasible"@,
            },
    {
        match self {
            MinimumCostFlowError::NotSolved => "solver has not been run yet".to_owned(),
            MinimumCostFlowError::Unbalanced => "unbalanced".to_owned(),
            MinimumCostFlowError::Infeasible => "infeasible".to_owned(),
        }
    }
}

} // verus!
