use crate::graph::direction::Direction;
use crate::graph::ids::{EdgeId, NodeId};
use std::marker::PhantomData;
use vstd::prelude::*;

verus! {

/// An edge from `u` to `v` that carries `data`.
#[derive(Clone, Copy, Debug)]
pub struct Edge<E> {
    pub u: NodeId,
    pub v: NodeId,
    pub data: E,
}

/// A graph whose nodes carry `N` and whose edges carry `E`.
/// Node `i` is `nodes[i]`, edge `i` is `edges[i]`.
pub struct Graph<D, N = (), E = ()> {
    pub nodes: Vec<N>,
    pub edges: Vec<Edge<E>>,
    pub direction: PhantomData<D>,
}

impl<D, N, E> Graph<D, N, E> {
    /// Every edge joins two nodes of the graph.
    pub open spec fn endpoints_valid(&self) -> bool {
        forall|i: int|
            0 <= i < self.edges@.len() ==> (#[trigger] self.edges@[i]).u.0 < self.nodes@.len()
                && self.edges@[i].v.0 < self.nodes@.len()
    }
}

impl<D: Direction, N: Default + Clone, E: Clone> Graph<D, N, E> {
    pub fn new() -> (g: Self)
        ensures
            g.nodes@.len() == 0,
            g.edges@.len() == 0,
    {
        Graph { edges: Vec::new(), nodes: Vec::new(), direction: PhantomData }
    }

    /// Adds a node with the default payload and returns its id.
    pub fn add_node(&mut self) -> (id: NodeId)
        requires
            old(self).nodes@.len() < usize::MAX,
        ensures
            id.0 == old(self).nodes@.len(),
            final(self).nodes@.len() == old(self).nodes@.len() + 1,
            final(self).nodes@.subrange(0, id.0 as int) == old(self).nodes@,
            final(self).edges@ == old(self).edges@,
            call_ensures(N::default, (), final(self).nodes@[id.0 as int]),
    {
        let id = NodeId(self.nodes.len());
        let d = N::default();
        self.nodes.push(d);
        id
    }

    /// Adds `n` nodes and returns their ids in order.
    pub fn add_nodes(&mut self, n: usize) -> (ids: Vec<NodeId>)
        requires
            old(self).nodes@.len() + n <= usize::MAX,
        ensures
            ids@.len() == n,
            forall|i: int| 0 <= i < n ==> #[trigger] ids@[i] == NodeId((old(self).nodes@.len() + i) as usize),
            final(self).nodes@.len() == old(self).nodes@.len() + n,
            final(self).nodes@.subrange(0, old(self).nodes@.len() as int) == old(self).nodes@,
            final(self).edges@ == old(self).edges@,
            forall|i: int|
                old(self).nodes@.len() <= i < final(self).nodes@.len() ==> call_ensures(
                    N::default,
                    (),
                    #[trigger] final(self).nodes@[i],
                ),
    {
        let mut ids: Vec<NodeId> = Vec::new();
        let ghost start = self.nodes@.len();
        let mut k: usize = 0;
        while k < n
            invariant
                k <= n,
                start == old(self).nodes@.len(),
                start + n <= usize::MAX,
                self.nodes@.len() == start + k,
                self.nodes@.subrange(0, start as int) == old(self).nodes@,
                self.edges@ == old(self).edges@,
                ids@.len() == k,
                forall|i: int| 0 <= i < k ==> #[trigger] ids@[i] == NodeId((start + i) as usize),
                forall|i: int| start <= i < start + k ==> call_ensures(N::default, (), #[trigger] self.nodes@[i]),
            decreases n - k,
        {
            let ghost before = self.nodes@;
            let id = self.add_node();
            assert(self.nodes@.subrange(0, start as int) == before.subrange(0, start as int));
            assert forall|i: int| start <= i < start + k + 1 implies call_ensures(N::default, (), #[trigger] self.nodes@[i]) by {
                if i < start + k {
                    assert(self.nodes@.subrange(0, id.0 as int)[i] == before[i]);
                }
            }
            ids.push(id);
            k = k + 1;
        }
        ids
    }

    /// Adds the edge `from -> to` and returns its id.
    pub fn add_directed_edge(&mut self, from: NodeId, to: NodeId, data: E) -> (eid: EdgeId)
        ensures
            eid.0 == old(self).edges@.len(),
            final(self).edges@ == old(self).edges@.push(Edge { u: from, v: to, data }),
            final(self).nodes@ == old(self).nodes@,
    {
        let eid = EdgeId(self.edges.len());
        self.edges.push(Edge { u: from, v: to, data });
        eid
    }

    /// Adds the edge `u - v`: one edge in a directed graph, the two edges
    /// `u -> v` and `v -> u` in an undirected one. Returns the id of `u -> v`.
    pub fn add_edge(&mut self, u: NodeId, v: NodeId, data: E) -> (eid: EdgeId)
        ensures
            eid.0 == old(self).edges@.len(),
            final(self).nodes@ == old(self).nodes@,
            D::spec_is_directed() ==> final(self).edges@ == old(self).edges@.push(Edge { u, v, data }),
            !D::spec_is_directed() ==> {
                &&& final(self).edges@.len() == old(self).edges@.len() + 2
                &&& final(self).edges@.subrange(0, old(self).edges@.len() + 1int) == old(self).edges@.push(Edge { u, v, data })
                &&& final(self).edges@[eid.0 + 1].u == v
                &&& final(self).edges@[eid.0 + 1].v == u
                &&& cloned(data, final(self).edges@[eid.0 + 1].data)
            },
    {
        if D::is_directed() {
            self.add_directed_edge(u, v, data)
        } else {
            let back = data.clone();
            let eid = self.add_directed_edge(u, v, data);
            // the id of the reverse edge is not handed out
            let _ = self.add_directed_edge(v, u, back);
            eid
        }
    }

    pub fn get_edge(&self, edge_id: EdgeId) -> (e: &Edge<E>)
        requires
            edge_id.0 < self.edges@.len(),
        ensures
            *e == self.edges@[edge_id.0 as int],
    {
        &self.edges[edge_id.0]
    }

    pub fn edges(&self) -> (es: &[Edge<E>])
        ensures
            es@ == self.edges@,
    {
        self.edges.as_slice()
    }

    pub fn node_payload(&self) -> (ns: &[N])
        ensures
            ns@ == self.nodes@,
    {
        self.nodes.as_slice()
    }

    pub fn num_nodes(&self) -> (n: usize)
        ensures
            n == self.nodes@.len(),
    {
        self.nodes.len()
    }

    pub fn num_edges(&self) -> (m: usize)
        ensures
            m == self.edges@.len(),
    {
        self.edges.len()
    }
}

impl<D: Direction, E: Clone> Graph<D, i64, E> {
    /// Adds `val` to the payload of node `v`, first growing the node list with
    /// zero payloads if `v` is not a node yet.
    pub fn add_node_value(&mut self, v: NodeId, val: i64)
        requires
            v.0 < usize::MAX,
            v.0 < old(self).nodes@.len() ==> i64::MIN <= old(self).nodes@[v.0 as int] + val <= i64::MAX,
        ensures
            final(self).nodes@.len() == if v.0 < old(self).nodes@.len() {
                old(self).nodes@.len()
            } else {
                (v.0 + 1) as nat
            },
            final(self).nodes@[v.0 as int] == (if v.0 < old(self).nodes@.len() {
                old(self).nodes@[v.0 as int]
            } else {
                0
            }) + val,
            forall|i: int|
                0 <= i < final(self).nodes@.len() && i != v.0 ==> #[trigger] final(self).nodes@[i] == if i
                    < old(self).nodes@.len() {
                    old(self).nodes@[i]
                } else {
                    0
                },
            final(self).edges@ == old(self).edges@,
    {
        if v.0 >= self.nodes.len() {
            self.nodes.resize(v.0 + 1, 0i64);
        }
        let cur = self.nodes[v.0];
        self.nodes.set(v.0, cur + val);
    }
}

} // verus!
