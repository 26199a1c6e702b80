use vstd::prelude::*;

verus! {

/// How a maximum flow solver ended.
#[non_exhaustive]
#[derive(Clone, Copy, Debug, PartialEq, Eq, Structural)]
pub enum Status {
    NotSolved,
    BadInput,
    Optimal,
}

} // verus!
