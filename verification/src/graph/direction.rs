use vstd::prelude::*;

verus! {

/// Whether the edges of a graph are one-way or two-way.
pub trait Direction {
    spec fn spec_is_directed() -> bool;

    fn is_directed() -> (r: bool)
        ensures
            r == Self::spec_is_directed(),
    ;
}

/// Edges go from `u` to `v` only.
#[derive(Copy, Clone, Debug, PartialEq, Eq, Default)]
pub struct Directed;

/// Each edge may be used both ways.
#[derive(Copy, Clone, Debug, PartialEq, Eq, Default)]
pub struct Undirected;

impl Direction for Directed {
    open spec fn spec_is_directed() -> bool {
        true
    }

    fn is_directed() -> (r: bool) {
        true
    }
}

impl Direction for Undirected {
    open spec fn spec_is_directed() -> bool {
        false
    }

    fn is_directed() -> (r: bool) {
        false
    }
}

} // verus!
