use vstd::prelude::*;

verus! {

/// An edge that can carry up to `upper` units, `flow` of them in use.
#[derive(Clone, Copy, Debug, PartialEq, Eq, Structural)]
pub struct CapEdge {
    pub flow: i64,
    pub upper: i64,
}

} // verus!
