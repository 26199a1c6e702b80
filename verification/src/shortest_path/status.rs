use vstd::prelude::*;

verus! {

/// How a shortest path solver ended.
#[non_exhaustive]
#[derive(Clone, Copy, Debug, PartialEq, Eq, Structural)]
pub enum Status {
    NotSolved,
    BadInput,
    Optimal,
    NegativeCycle,
}

impl Default for Status {
    fn default() -> (s: Self)
        ensures
            s == Status::NotSolved,
    {
        Status::NotSolved
    }
}

} // verus!
