use vstd::prelude::*;

verus! {

/// Index of a node in a graph.
#[derive(Copy, Clone, Debug, PartialEq, Eq, Hash, Structural)]
pub struct NodeId(pub usize);

/// Index of an edge in a graph.
#[derive(Copy, Clone, Debug, PartialEq, Eq, Hash, Structural)]
pub struct EdgeId(pub usize);

/// Index of an arc (one direction of an edge) in a residual network.
#[derive(Copy, Clone, Debug, PartialEq, Eq, Hash, Structural)]
pub struct ArcId(pub usize);

/// The index that names no node, edge or arc.
pub const INVALID_INDEX: usize = usize::MAX;

impl NodeId {
    #[inline]
    pub fn index(self) -> (r: usize)
        ensures
            r == self.0,
    {
        self.0
    }
}

impl EdgeId {
    #[inline]
    pub fn index(self) -> (r: usize)
        ensures
            r == self.0,
    {
        self.0
    }
}

impl ArcId {
    #[inline]
    pub fn index(self) -> (r: usize)
        ensures
            r == self.0,
    {
        self.0
    }
}

impl From<NodeId> for usize {
    #[inline]
    fn from(n: NodeId) -> (r: usize) {
        n.0
    }
}

impl vstd::std_specs::convert::FromSpecImpl<NodeId> for usize {
    open spec fn obeys_from_spec() -> bool {
        true
    }

    open spec fn from_spec(n: NodeId) -> usize {
        n.0
    }
}

} // verus!
