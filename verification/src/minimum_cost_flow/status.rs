use vstd::prelude::*;

verus! {

/// Where a minimum cost flow solver stands.
#[non_exhaustive]
#[derive(Clone, Copy, Debug, PartialEq, Eq, Structural)]
pub enum Status {
    NotSolved,
    Infeasible,
    Optimal,
}

impl Default for Status {
    fn default() -> (s: Self)
        ensures
            s == Status::NotSolved,
    {
        Status::NotSolved
    }
}

} // verus!
