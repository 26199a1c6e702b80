use vstd::prelude::*;

verus! {

/// Why a flow or path computation gave no answer.
#[non_exhaustive]
#[derive(Clone, Debug, PartialEq, Eq, Structural)]
pub enum MaximumFlowError {
    InvalidInput,
    NegativeCycle,
    NotSolved,
}

impl MaximumFlowError {
    /// The text that describes the error.
    pub fn message(&self) -> (s: String)
        ensures
            s@ == match self {
                MaximumFlowError::InvalidInput => "invalid "@,
                MaximumFlowError::NegativeCycle => "graph has negative cycle"@,
                MaximumFlowError::NotSolved => "solver has not been run yet"@,
            },
    {
        match self {
            MaximumFlowError::InvalidInput => "invalid ".to_owned(),
            MaximumFlowError::NegativeCycle => "graph has negative cycle".to_owned(),
            MaximumFlowError::NotSolved => "solver has not been run yet".to_owned(),
        }
    }
}

} // verus!
