//! A spanning tree of a network with a flow on every edge, its nodes
//! threaded in depth-first order, as the network simplex methods keep it.
use crate::graph::ids::NodeId;
use crate::minimum_cost_flow::graph::VALUE_LIMIT;
use crate::minimum_cost_flow::normalized_network::{NormalizedEdge, NormalizedNetwork};
use crate::minimum_cost_flow::residual_network::{
    all_edges, all_of, fix_of, initial_flow, opt_seq, start_supply, total_nodes,
};
use vstd::prelude::*;

verus! {

/// Where an edge stands: out of the tree at its lower or upper bound, or
/// in the tree.
#[derive(Clone, Copy, Debug, PartialEq, Eq, Structural)]
pub enum EdgeState {
    Lower,
    Upper,
    Tree,
}

impl Default for EdgeState {
    fn default() -> (s: Self)
        ensures
            s == EdgeState::Lower,
    {
        EdgeState::Lower
    }
}

/// A spanning tree structure over a network: for each node its parent,
/// the edge to it and its potential; for each edge its ends, capacity,
/// cost, flow and state; and the depth-first thread of the tree.
pub struct SpanningTreeStructure {
    pub num_nodes: usize,
    pub num_edges: usize,
    pub excesses: Vec<i64>,
    pub parent: Vec<NodeId>,
    pub parent_edge_id: Vec<usize>,
    pub potential: Vec<i64>,
    pub from: Vec<NodeId>,
    pub to: Vec<NodeId>,
    pub upper: Vec<i64>,
    pub cost: Vec<i64>,
    pub flow: Vec<i64>,
    pub state: Vec<EdgeState>,
    pub is_reversed: Vec<bool>,
    pub root: NodeId,
    pub next_node_dft: Vec<NodeId>,
    pub prev_node_dft: Vec<NodeId>,
    pub last_descendent_dft: Vec<NodeId>,
    pub num_successors: Vec<usize>,
    pub num_nodes_original_graph: usize,
    pub num_edges_original_graph: usize,
    pub lower_in_original_graph: Vec<i64>,
}

/// The node reached from `x` after `j` steps up the parent links.
pub open spec fn ancestor(parent: Seq<NodeId>, x: int, j: nat) -> int
    decreases j,
{
    if j == 0 {
        x
    } else {
        parent[ancestor(parent, x, (j - 1) as nat)].0 as int
    }
}

/// Walking up the links `parent` from `start` passes `k` nodes below `n`
/// and then leaves them: the node after them is no node.
pub open spec fn top_path(parent: Seq<NodeId>, n: int, start: int, k: nat) -> bool {
    &&& ancestor(parent, start, k) == usize::MAX
    &&& forall|j: nat|
        j < k ==> {
            let x = #[trigger] ancestor(parent, start, j);
            0 <= x < n && x != usize::MAX
        }
}

/// How many of the first `j` nodes of the walk up the links `parent` from
/// `start` are `x`.
pub open spec fn visits(parent: Seq<NodeId>, start: int, j: nat, x: int) -> nat
    decreases j,
{
    if j == 0 {
        0
    } else {
        visits(parent, start, (j - 1) as nat, x) + if ancestor(parent, start, (j - 1) as nat) == x {
            1nat
        } else {
            0nat
        }
    }
}

/// The visits to `x` only grow along the walk.
proof fn lemma_visits_grow(parent: Seq<NodeId>, start: int, j1: nat, j2: nat, x: int)
    requires
        j1 <= j2,
    ensures
        visits(parent, start, j1, x) <= visits(parent, start, j2, x),
    decreases j2 - j1,
{
    if j1 < j2 {
        lemma_visits_grow(parent, start, j1, (j2 - 1) as nat, x);
    }
}

impl SpanningTreeStructure {
    /// Every column has the length of the nodes or of the edges.
    pub open spec fn shape_ok(&self) -> bool {
        let n = self.num_nodes as int;
        let m = self.num_edges as int;
        &&& self.excesses@.len() == n
        &&& self.parent@.len() == n
        &&& self.parent_edge_id@.len() == n
        &&& self.potential@.len() == n
        &&& self.next_node_dft@.len() == n
        &&& self.prev_node_dft@.len() == n
        &&& self.last_descendent_dft@.len() == n
        &&& self.num_successors@.len() == n
        &&& self.from@.len() == m
        &&& self.to@.len() == m
        &&& self.upper@.len() == m
        &&& self.cost@.len() == m
        &&& self.flow@.len() == m
        &&& self.state@.len() == m
        &&& self.is_reversed@.len() == m
        &&& self.lower_in_original_graph@.len() == 2 * m
        &&& self.num_edges_original_graph <= m
    }

    /// Edge `e` is `ne` at its lower bound, carrying `f`.
    pub open spec fn edge_is(&self, e: int, ne: NormalizedEdge, f: i64) -> bool {
        &&& self.from@[e] == ne.u
        &&& self.to@[e] == ne.v
        &&& self.upper@[e] == ne.upper
        &&& self.cost@[e] == ne.cost
        &&& self.flow@[e] == f
        &&& self.state@[e] == EdgeState::Lower
        &&& self.is_reversed@[e] == ne.is_reversed
        &&& self.lower_in_original_graph@[e] == ne.lower
    }

    /// The reduced cost of edge `e`: its cost less the potential of its tail
    /// plus the potential of its head.
    pub open spec fn reduced(&self, e: int) -> int {
        self.cost@[e] - self.potential@[self.from@[e].0 as int] + self.potential@[self.to@[e].0 as int]
    }

    /// The flow on original edge `e`, read in the original graph.
    pub open spec fn original_flow(&self, e: int) -> int {
        if self.is_reversed@[e] {
            self.upper@[e] + self.lower_in_original_graph@[e] - self.flow@[e]
        } else {
            self.flow@[e] + self.lower_in_original_graph@[e]
        }
    }

    /// The cost of original edge `e` in the original graph.
    pub open spec fn original_cost(&self, e: int) -> int {
        if self.is_reversed@[e] {
            -self.cost@[e]
        } else {
            self.cost@[e] as int
        }
    }

    /// The cost of the flow on the first `k` original edges.
    pub open spec fn objective(&self, k: int) -> int
        decreases k,
    {
        if k <= 0 {
            0
        } else {
            self.objective(k - 1) + self.original_flow(k - 1) * self.original_cost(k - 1)
        }
    }

    /// The original edges carry flows within their capacities, and their
    /// values are small enough for the original flows and costs to be
    /// computed.
    pub open spec fn original_values_ok(&self) -> bool {
        &&& self.num_edges_original_graph <= VALUE_LIMIT
        &&& forall|e: int|
            0 <= e < self.num_edges_original_graph ==> {
                &&& 0 <= #[trigger] self.flow@[e] <= self.upper@[e] <= 2 * VALUE_LIMIT
                &&& -VALUE_LIMIT <= self.lower_in_original_graph@[e] <= VALUE_LIMIT
                &&& 0 <= self.cost@[e] <= VALUE_LIMIT
            }
    }

    /// Every edge joins two nodes of the structure.
    pub open spec fn ends_ok(&self) -> bool {
        forall|e: int|
            0 <= e < self.num_edges ==> (#[trigger] self.from@[e]).0 < self.num_nodes && self.to@[e].0 < self.num_nodes
    }

    /// Edge `e` meets the optimality condition of its state.
    pub open spec fn state_ok(&self, e: int) -> bool {
        match self.state@[e] {
            EdgeState::Tree => self.reduced(e) == 0,
            EdgeState::Lower => self.upper@[e] == 0 || self.reduced(e) >= 0,
            EdgeState::Upper => self.upper@[e] == 0 || self.reduced(e) <= 0,
        }
    }
}

impl SpanningTreeStructure {
    /// The structure over `graph` with `artificial_nodes` more nodes and the
    /// `artificial_edges` after its own: every edge carries its flow from
    /// `initial_flows` (zero by default) and is at its lower bound, every
    /// node has its normalized supply plus its entry of `fix_excesses`,
    /// and no tree is built yet.
    pub fn new(
        graph: &NormalizedNetwork,
        artificial_nodes: Option<&[NodeId]>,
        artificial_edges: Option<&[NormalizedEdge]>,
        initial_flows: Option<&[i64]>,
        fix_excesses: Option<&[i64]>,
    ) -> (st: Self)
        requires
            graph.bounded(),
            total_nodes(*graph, artificial_nodes) <= usize::MAX,
            2 * all_of(*graph, artificial_edges).len() <= usize::MAX,
            forall|e: int|
                0 <= e < all_of(*graph, artificial_edges).len() ==> 0 <= (#[trigger] all_of(
                    *graph,
                    artificial_edges,
                )[e]).upper && 0 <= all_of(*graph, artificial_edges)[e].cost,
            initial_flows is Some ==> opt_seq(initial_flows).len() >= all_of(*graph, artificial_edges).len(),
            fix_excesses is Some ==> opt_seq(fix_excesses).len() >= total_nodes(*graph, artificial_nodes),
            forall|x: int|
                0 <= x < total_nodes(*graph, artificial_nodes) ==> i64::MIN <= #[trigger] start_supply(
                    *graph,
                    fix_excesses,
                    x,
                ) <= i64::MAX,
        ensures
            st.shape_ok(),
            st.num_nodes == total_nodes(*graph, artificial_nodes),
            st.num_edges == all_of(*graph, artificial_edges).len(),
            st.num_nodes_original_graph == graph.node_count(),
            st.num_edges_original_graph == graph.normalized_edges().len(),
            st.root == NodeId(usize::MAX),
            forall|x: int|
                0 <= x < st.num_nodes ==> {
                    &&& #[trigger] st.excesses@[x] == start_supply(*graph, fix_excesses, x)
                    &&& st.parent@[x] == NodeId(usize::MAX)
                    &&& st.parent_edge_id@[x] == usize::MAX
                    &&& st.potential@[x] == 0
                    &&& st.next_node_dft@[x] == NodeId(usize::MAX)
                    &&& st.prev_node_dft@[x] == NodeId(usize::MAX)
                    &&& st.last_descendent_dft@[x] == NodeId(usize::MAX)
                    &&& st.num_successors@[x] == 0
                },
            forall|e: int|
                0 <= e < st.num_edges ==> st.edge_is(e, #[trigger] all_of(*graph, artificial_edges)[e], initial_flow(
                    initial_flows,
                    e,
                )),
            forall|e: int| st.num_edges <= e < 2 * st.num_edges ==> #[trigger] st.lower_in_original_graph@[e] == 0,
    {
        let n = graph.num_nodes();
        let gb = graph.excesses();
        let num_art_nodes: usize = match artificial_nodes {
            Some(a) => a.len(),
            None => 0,
        };
        let nt = n + num_art_nodes;
        let empty: Vec<NormalizedEdge> = Vec::new();
        let extra: &[NormalizedEdge] = match artificial_edges {
            Some(a) => a,
            None => empty.as_slice(),
        };
        proof {
            assert(extra@ == opt_seq(artificial_edges));
        }
        let all = all_edges(graph, extra);
        let mt = all.len();
        let mut excesses: Vec<i64> = Vec::new();
        let mut x: usize = 0;
        while x < nt
            invariant
                x <= nt,
                n == graph.node_count(),
                gb@ == graph.supplies(),
                graph.bounded(),
                nt == total_nodes(*graph, artificial_nodes),
                fix_excesses is Some ==> opt_seq(fix_excesses).len() >= nt,
                forall|y: int|
                    0 <= y < nt ==> i64::MIN <= #[trigger] start_supply(*graph, fix_excesses, y) <= i64::MAX,
                excesses@.len() == x,
                forall|y: int| 0 <= y < x ==> #[trigger] excesses@[y] == start_supply(*graph, fix_excesses, y),
            decreases nt - x,
        {
            let own: i64 = if x < n {
                gb[x]
            } else {
                0
            };
            proof {
                assert(i64::MIN <= start_supply(*graph, fix_excesses, x as int) <= i64::MAX);
            }
            let value: i64 = match fix_excesses {
                Some(f) => {
                    proof {
                        assert(start_supply(*graph, fix_excesses, x as int) == own + f@[x as int]);
                    }
                    own + f[x]
                },
                None => own,
            };
            excesses.push(value);
            x = x + 1;
        }
        let mut from: Vec<NodeId> = Vec::new();
        let mut to: Vec<NodeId> = Vec::new();
        let mut upper: Vec<i64> = Vec::new();
        let mut cost: Vec<i64> = Vec::new();
        let mut flow: Vec<i64> = Vec::new();
        let mut state: Vec<EdgeState> = Vec::new();
        let mut is_reversed: Vec<bool> = Vec::new();
        let mut lower_in_original_graph: Vec<i64> = vec![0i64; 2 * mt];
        let mut e: usize = 0;
        while e < mt
            invariant
                e <= mt,
                mt == all@.len(),
                all@ == all_of(*graph, artificial_edges),
                2 * mt <= usize::MAX,
                initial_flows is Some ==> opt_seq(initial_flows).len() >= mt,
                from@.len() == e,
                to@.len() == e,
                upper@.len() == e,
                cost@.len() == e,
                flow@.len() == e,
                state@.len() == e,
                is_reversed@.len() == e,
                lower_in_original_graph@.len() == 2 * mt,
                forall|j: int| 0 <= j < e ==> #[trigger] from@[j] == all@[j].u,
                forall|j: int| 0 <= j < e ==> #[trigger] to@[j] == all@[j].v,
                forall|j: int| 0 <= j < e ==> #[trigger] upper@[j] == all@[j].upper,
                forall|j: int| 0 <= j < e ==> #[trigger] cost@[j] == all@[j].cost,
                forall|j: int| 0 <= j < e ==> #[trigger] flow@[j] == initial_flow(initial_flows, j),
                forall|j: int| 0 <= j < e ==> #[trigger] state@[j] == EdgeState::Lower,
                forall|j: int| 0 <= j < e ==> #[trigger] is_reversed@[j] == all@[j].is_reversed,
                forall|j: int| 0 <= j < e ==> #[trigger] lower_in_original_graph@[j] == all@[j].lower,
                forall|j: int| e <= j < 2 * mt ==> #[trigger] lower_in_original_graph@[j] == 0,
            decreases mt - e,
        {
            let ne = all[e];
            proof {
                assert(all@[e as int] == ne);
            }
            let f: i64 = match initial_flows {
                Some(init) => init[e],
                None => 0,
            };
            proof {
                assert(f == initial_flow(initial_flows, e as int));
            }
            from.push(ne.u);
            to.push(ne.v);
            upper.push(ne.upper);
            cost.push(ne.cost);
            flow.push(f);
            state.push(EdgeState::Lower);
            is_reversed.push(ne.is_reversed);
            lower_in_original_graph.set(e, ne.lower);
            proof {
                let j = e as int;
                assert(from@[j] == all@[j].u);
                assert(to@[j] == all@[j].v);
                assert(upper@[j] == all@[j].upper);
                assert(cost@[j] == all@[j].cost);
                assert(flow@[j] == initial_flow(initial_flows, j));
                assert(state@[j] == EdgeState::Lower);
                assert(is_reversed@[j] == all@[j].is_reversed);
                assert(lower_in_original_graph@[j] == all@[j].lower);
            }
            e = e + 1;
        }
        let st = SpanningTreeStructure {
            num_nodes: nt,
            num_edges: mt,
            excesses,
            parent: vec![NodeId(usize::MAX); nt],
            parent_edge_id: vec![usize::MAX; nt],
            potential: vec![0i64; nt],
            from,
            to,
            upper,
            cost,
            flow,
            state,
            is_reversed,
            root: NodeId(usize::MAX),
            next_node_dft: vec![NodeId(usize::MAX); nt],
            prev_node_dft: vec![NodeId(usize::MAX); nt],
            last_descendent_dft: vec![NodeId(usize::MAX); nt],
            num_successors: vec![0usize; nt],
            num_nodes_original_graph: n,
            num_edges_original_graph: graph.num_edges(),
            lower_in_original_graph,
        };
        proof {
            assert forall|j: int| 0 <= j < st.num_edges implies st.edge_is(
                j,
                #[trigger] all_of(*graph, artificial_edges)[j],
                initial_flow(initial_flows, j),
            ) by {
                assert(from@[j] == all@[j].u);
                assert(to@[j] == all@[j].v);
                assert(upper@[j] == all@[j].upper);
                assert(cost@[j] == all@[j].cost);
                assert(flow@[j] == initial_flow(initial_flows, j));
                assert(state@[j] == EdgeState::Lower);
                assert(is_reversed@[j] == all@[j].is_reversed);
                assert(lower_in_original_graph@[j] == all@[j].lower);
            }
        }
        st
    }

    /// The reduced cost of `edge_id`.
    pub(crate) fn reduced_cost(&self, edge_id: usize) -> (r: i64)
        requires
            self.shape_ok(),
            self.ends_ok(),
            edge_id < self.num_edges,
            i64::MIN <= self.reduced(edge_id as int) <= i64::MAX,
        ensures
            r == self.reduced(edge_id as int),
    {
        let r: i128 = self.cost[edge_id] as i128 - self.potential[self.from[edge_id].0] as i128
            + self.potential[self.to[edge_id].0] as i128;
        r as i64
    }

    /// Every edge carries a flow within its capacity and every excess is
    /// zero.
    pub fn satisfy_constraints(&self) -> (r: bool)
        requires
            self.shape_ok(),
        ensures
            r == ((forall|e: int| 0 <= e < self.num_edges ==> 0 <= #[trigger] self.flow@[e] <= self.upper@[e])
                && forall|x: int| 0 <= x < self.num_nodes ==> #[trigger] self.excesses@[x] == 0),
    {
        let mut e: usize = 0;
        while e < self.num_edges
            invariant
                self.shape_ok(),
                e <= self.num_edges,
                forall|j: int| 0 <= j < e ==> 0 <= #[trigger] self.flow@[j] <= self.upper@[j],
            decreases self.num_edges - e,
        {
            if !self.is_feasible(e) {
                return false;
            }
            e = e + 1;
        }
        let mut x: usize = 0;
        while x < self.num_nodes
            invariant
                self.shape_ok(),
                x <= self.num_nodes,
                forall|y: int| 0 <= y < x ==> #[trigger] self.excesses@[y] == 0,
            decreases self.num_nodes - x,
        {
            if self.excesses[x] != 0 {
                return false;
            }
            x = x + 1;
        }
        true
    }

    /// Every edge meets the optimality condition of its state: an edge in
    /// the tree has a reduced cost of zero, one at its lower bound of at
    /// least zero, one at its upper bound of at most zero, unless it has no
    /// capacity.
    pub fn satisfy_optimality_conditions(&self) -> (r: bool)
        requires
            self.shape_ok(),
            self.ends_ok(),
        ensures
            r == forall|e: int| 0 <= e < self.num_edges ==> #[trigger] self.state_ok(e),
    {
        let mut e: usize = 0;
        while e < self.num_edges
            invariant
                self.shape_ok(),
                self.ends_ok(),
                e <= self.num_edges,
                forall|j: int| 0 <= j < e ==> #[trigger] self.state_ok(j),
            decreases self.num_edges - e,
        {
            let rc: i128 = self.cost[e] as i128 - self.potential[self.from[e].0] as i128
                + self.potential[self.to[e].0] as i128;
            let ok = match self.state[e] {
                EdgeState::Tree => rc == 0,
                EdgeState::Lower => self.upper[e] == 0 || rc >= 0,
                EdgeState::Upper => self.upper[e] == 0 || rc <= 0,
            };
            proof {
                assert(rc == self.reduced(e as int));
                assert(ok == self.state_ok(e as int));
            }
            if !ok {
                return false;
            }
            e = e + 1;
        }
        true
    }

    /// Whether `edge_id` carries a flow within its capacity.
    pub fn is_feasible(&self, edge_id: usize) -> (r: bool)
        requires
            self.shape_ok(),
            edge_id < self.num_edges,
        ensures
            r == (0 <= self.flow@[edge_id as int] <= self.upper@[edge_id as int]),
    {
        0 <= self.flow[edge_id] && self.flow[edge_id] <= self.upper[edge_id]
    }

    /// Whether `edge_id` carries no flow.
    pub fn is_lower(&self, edge_id: usize) -> (r: bool)
        requires
            self.shape_ok(),
            edge_id < self.num_edges,
        ensures
            r == (self.flow@[edge_id as int] == 0),
    {
        self.flow[edge_id] == 0
    }

    /// Whether `edge_id` is full.
    pub fn is_upper(&self, edge_id: usize) -> (r: bool)
        requires
            self.shape_ok(),
            edge_id < self.num_edges,
        ensures
            r == (self.flow@[edge_id as int] == self.upper@[edge_id as int]),
    {
        self.flow[edge_id] == self.upper[edge_id]
    }

    /// Walking up the parent links from `sink` reaches `source` after `k`
    /// steps, through nodes other than `source`, each joined to its parent by
    /// its parent edge.
    pub open spec fn tree_path(&self, source: int, sink: int, k: nat) -> bool {
        &&& ancestor(self.parent@, sink, k) == source
        &&& forall|j: nat|
            j < k ==> {
                let x = #[trigger] ancestor(self.parent@, sink, j);
                let e = self.parent_edge_id@[x] as int;
                &&& 0 <= x < self.num_nodes
                &&& x != source
                &&& 0 <= e < self.num_edges
                &&& ((self.from@[e].0 == x && self.to@[e] == self.parent@[x]) || (self.to@[e].0 == x && self.from@[e]
                    == self.parent@[x]))
            }
    }

    /// Over the first `j` steps of the walk up from `sink`, how many times
    /// edge `e` is crossed in its own direction by flow going down to the
    /// sink, less how many times against it.
    pub open spec fn path_count(&self, sink: int, j: nat, e: int) -> int
        decreases j,
    {
        if j == 0 {
            0
        } else {
            let x = ancestor(self.parent@, sink, (j - 1) as nat);
            self.path_count(sink, (j - 1) as nat, e) + if self.parent_edge_id@[x] as int == e {
                if self.from@[e] == self.parent@[x] {
                    1int
                } else {
                    -1int
                }
            } else {
                0int
            }
        }
    }

    /// Everything but the flows and the supplies left is as in `other`.
    pub open spec fn same_except_flow(&self, other: SpanningTreeStructure) -> bool {
        &&& self.num_nodes == other.num_nodes
        &&& self.num_edges == other.num_edges
        &&& self.parent == other.parent
        &&& self.parent_edge_id == other.parent_edge_id
        &&& self.potential == other.potential
        &&& self.from == other.from
        &&& self.to == other.to
        &&& self.upper == other.upper
        &&& self.cost == other.cost
        &&& self.state == other.state
        &&& self.is_reversed == other.is_reversed
        &&& self.root == other.root
        &&& self.next_node_dft == other.next_node_dft
        &&& self.prev_node_dft == other.prev_node_dft
        &&& self.last_descendent_dft == other.last_descendent_dft
        &&& self.num_successors == other.num_successors
        &&& self.num_nodes_original_graph == other.num_nodes_original_graph
        &&& self.num_edges_original_graph == other.num_edges_original_graph
        &&& self.lower_in_original_graph == other.lower_in_original_graph
        &&& self.flow@.len() == other.flow@.len()
        &&& self.excesses@.len() == other.excesses@.len()
    }

    /// Sends `delta` from `source` down the tree path to `sink`: each edge of
    /// the path carries `delta` more in the direction of the sink, `source`
    /// has `delta` less left and `sink` `delta` more.
    pub fn update_flow_in_path(&mut self, source: NodeId, sink: NodeId, delta: i64)
        requires
            old(self).shape_ok(),
            source.0 < old(self).num_nodes,
            sink.0 < old(self).num_nodes,
            exists|k: nat| #[trigger] old(self).tree_path(source.0 as int, sink.0 as int, k),
            forall|k: nat, j: nat, e: int|
                #![trigger old(self).tree_path(source.0 as int, sink.0 as int, k), old(self).path_count(sink.0 as int, j, e)]
                old(self).tree_path(source.0 as int, sink.0 as int, k) && j <= k && 0 <= e < old(self).num_edges
                    ==> i64::MIN <= old(self).flow@[e] + delta * old(self).path_count(sink.0 as int, j, e) <= i64::MAX,
            i64::MIN <= old(self).excesses@[source.0 as int] - delta <= i64::MAX,
            i64::MIN <= old(self).excesses@[sink.0 as int] + delta - (if source == sink {
                delta as int
            } else {
                0int
            }) <= i64::MAX,
        ensures
            final(self).shape_ok(),
            final(self).same_except_flow(*old(self)),
            forall|k: nat, e: int|
                #![trigger old(self).tree_path(source.0 as int, sink.0 as int, k), final(self).flow@[e]]
                old(self).tree_path(source.0 as int, sink.0 as int, k) && 0 <= e < old(self).num_edges
                    ==> final(self).flow@[e] == old(self).flow@[e] + delta * old(self).path_count(
                    sink.0 as int,
                    k,
                    e,
                ),
            forall|x: int|
                0 <= x < old(self).num_nodes ==> #[trigger] final(self).excesses@[x] == old(self).excesses@[x] - (if x
                    == source.0 {
                    delta as int
                } else {
                    0int
                }) + (if x == sink.0 {
                    delta as int
                } else {
                    0int
                }),
    {
        let ghost k = choose|k: nat| #[trigger] self.tree_path(source.0 as int, sink.0 as int, k);
        let ghost old_st = *self;
        proof {
            assert(old_st.tree_path(source.0 as int, sink.0 as int, k));
            assert forall|j2: nat, e: int|
                j2 <= k && 0 <= e < old_st.num_edges implies i64::MIN <= old_st.flow@[e] + delta
                    * #[trigger] old_st.path_count(sink.0 as int, j2, e) <= i64::MAX by {
                assert(old_st.tree_path(source.0 as int, sink.0 as int, k));
            }
        }
        proof {
            assert forall|k2: nat| #[trigger] old_st.tree_path(source.0 as int, sink.0 as int, k2) implies k2 == k by {
                if k2 < k {
                    assert(ancestor(old_st.parent@, sink.0 as int, k2) != source.0);
                }
                if k < k2 {
                    assert(ancestor(old_st.parent@, sink.0 as int, k) != source.0);
                }
            }
        }
        let mut now = sink;
        let ghost mut j: nat = 0;
        while now != source
            invariant
                old_st.shape_ok(),
                old_st.tree_path(source.0 as int, sink.0 as int, k),
                forall|j2: nat, e: int|
                    j2 <= k && 0 <= e < old_st.num_edges ==> i64::MIN <= old_st.flow@[e] + delta
                        * #[trigger] old_st.path_count(sink.0 as int, j2, e) <= i64::MAX,
                self.shape_ok(),
                self.same_except_flow(old_st),
                self.excesses == old_st.excesses,
                now.0 == ancestor(old_st.parent@, sink.0 as int, j),
                j <= k,
                forall|e: int|
                    0 <= e < old_st.num_edges ==> #[trigger] self.flow@[e] == old_st.flow@[e] + delta * old_st.path_count(
                        sink.0 as int,
                        j,
                        e,
                    ),
            decreases k - j,
        {
            proof {
                if j == k {
                    assert(now.0 == source.0);
                }
                assert(j < k);
                assert(ancestor(old_st.parent@, sink.0 as int, j) == now.0);
            }
            let x = now.0;
            let p = self.parent[x];
            let eid = self.parent_edge_id[x];
            proof {
                assert(0 <= eid < old_st.num_edges);
                assert(forall|e: int|
                    0 <= e < old_st.num_edges ==> #[trigger] old_st.path_count(sink.0 as int, (j + 1) as nat, e)
                        == old_st.path_count(sink.0 as int, j, e) + if e == eid as int {
                        if old_st.from@[e] == old_st.parent@[x as int] {
                            1int
                        } else {
                            -1int
                        }
                    } else {
                        0int
                    });
                let c = old_st.path_count(sink.0 as int, j, eid as int);
                assert(delta * (c + 1) == delta * c + delta) by (nonlinear_arith);
                assert(delta * (c - 1) == delta * c - delta) by (nonlinear_arith);
                assert(i64::MIN <= old_st.flow@[eid as int] + delta * old_st.path_count(sink.0 as int, (j + 1) as nat, eid as int)
                    <= i64::MAX);
            }
            let f = self.flow[eid];
            if self.from[eid] == p {
                self.flow.set(eid, f + delta);
            } else {
                self.flow.set(eid, f - delta);
            }
            now = p;
            proof {
                j = j + 1;
                assert forall|e: int| 0 <= e < old_st.num_edges implies #[trigger] self.flow@[e] == old_st.flow@[e]
                    + delta * old_st.path_count(sink.0 as int, j, e) by {
                    if e != eid as int {
                        assert(old_st.path_count(sink.0 as int, j, e) == old_st.path_count(sink.0 as int, (j - 1) as nat, e));
                    }
                }
            }
        }
        let es = self.excesses[source.0];
        self.excesses.set(source.0, es - delta);
        let et = self.excesses[sink.0];
        self.excesses.set(sink.0, et + delta);
    }

    /// Over the first `j` steps of the walk up from `y`, how many times edge
    /// `e` is crossed in its own direction, less how many times against it.
    pub open spec fn up_count(&self, y: int, j: nat, e: int) -> int
        decreases j,
    {
        if j == 0 {
            0
        } else {
            let x = ancestor(self.parent@, y, (j - 1) as nat);
            self.up_count(y, (j - 1) as nat, e) + if self.parent_edge_id@[x] as int == e {
                if self.from@[e].0 == x {
                    1int
                } else {
                    -1int
                }
            } else {
                0int
            }
        }
    }

    /// The change `entering_edge_id` gets: `delta`, turned against the edge
    /// when it stands at its upper bound.
    pub open spec fn entering_change(&self, entering_edge_id: int, delta: int) -> int {
        if self.state@[entering_edge_id] == EdgeState::Upper {
            -delta
        } else {
            delta
        }
    }

    /// Pushes `delta` around the cycle that `entering_edge_id` closes with
    /// the tree paths from its ends up to `apex`: the entering edge changes
    /// by `delta` (against it when it stands at its upper bound), and each
    /// tree edge on the way by the same amount, in the direction of the
    /// cycle.
    pub fn update_flow_in_cycle(&mut self, entering_edge_id: usize, delta: i64, apex: NodeId)
        requires
            old(self).shape_ok(),
            entering_edge_id < old(self).num_edges,
            apex.0 < old(self).num_nodes,
            delta != i64::MIN,
            exists|k: nat| #[trigger] old(self).tree_path(apex.0 as int, old(self).from@[entering_edge_id as int].0 as int, k),
            exists|k: nat| #[trigger] old(self).tree_path(apex.0 as int, old(self).to@[entering_edge_id as int].0 as int, k),
            forall|k1: nat, k2: nat, j1: nat, j2: nat, e: int|
                #![trigger old(self).tree_path(apex.0 as int, old(self).from@[entering_edge_id as int].0 as int, k1), old(self).tree_path(apex.0 as int, old(self).to@[entering_edge_id as int].0 as int, k2), old(self).up_count(old(self).from@[entering_edge_id as int].0 as int, j1, e), old(self).up_count(old(self).to@[entering_edge_id as int].0 as int, j2, e)]
                old(self).tree_path(apex.0 as int, old(self).from@[entering_edge_id as int].0 as int, k1)
                    && old(self).tree_path(apex.0 as int, old(self).to@[entering_edge_id as int].0 as int, k2) && j1 <= k1
                    && j2 <= k2 && 0 <= e < old(self).num_edges ==> {
                    let d = old(self).entering_change(entering_edge_id as int, delta as int);
                    let f0 = old(self).flow@[e] + if e == entering_edge_id {
                        d
                    } else {
                        0int
                    };
                    let f1 = f0 - d * old(self).up_count(old(self).from@[entering_edge_id as int].0 as int, j1, e);
                    let f2 = f0 - d * old(self).up_count(old(self).from@[entering_edge_id as int].0 as int, k1, e) + d
                        * old(self).up_count(old(self).to@[entering_edge_id as int].0 as int, j2, e);
                    &&& i64::MIN <= f1 <= i64::MAX
                    &&& i64::MIN <= f2 <= i64::MAX
                },
        ensures
            final(self).shape_ok(),
            final(self).same_except_flow(*old(self)),
            final(self).excesses == old(self).excesses,
            forall|k1: nat, k2: nat, e: int|
                #![trigger old(self).tree_path(apex.0 as int, old(self).from@[entering_edge_id as int].0 as int, k1), old(self).tree_path(apex.0 as int, old(self).to@[entering_edge_id as int].0 as int, k2), final(self).flow@[e]]
                old(self).tree_path(apex.0 as int, old(self).from@[entering_edge_id as int].0 as int, k1)
                    && old(self).tree_path(apex.0 as int, old(self).to@[entering_edge_id as int].0 as int, k2) && 0 <= e
                    < old(self).num_edges ==> final(self).flow@[e] == old(self).flow@[e] + (if e == entering_edge_id {
                    old(self).entering_change(entering_edge_id as int, delta as int)
                } else {
                    0int
                }) - old(self).entering_change(entering_edge_id as int, delta as int) * old(self).up_count(
                    old(self).from@[entering_edge_id as int].0 as int,
                    k1,
                    e,
                ) + old(self).entering_change(entering_edge_id as int, delta as int) * old(self).up_count(
                    old(self).to@[entering_edge_id as int].0 as int,
                    k2,
                    e,
                ),
    {
        let ghost old_st = *self;
        let ghost a = apex.0 as int;
        let ghost y1 = self.from@[entering_edge_id as int].0 as int;
        let ghost y2 = self.to@[entering_edge_id as int].0 as int;
        let ghost k1 = choose|k: nat| #[trigger] old_st.tree_path(a, y1, k);
        let ghost k2 = choose|k: nat| #[trigger] old_st.tree_path(a, y2, k);
        let ghost dd = old_st.entering_change(entering_edge_id as int, delta as int);
        proof {
            assert(old_st.tree_path(a, y1, k1));
            assert(old_st.tree_path(a, y2, k2));
            assert forall|q: nat| #[trigger] old_st.tree_path(a, y1, q) implies q == k1 by {
                if q < k1 {
                    assert(ancestor(old_st.parent@, y1, q) != a);
                }
                if k1 < q {
                    assert(ancestor(old_st.parent@, y1, k1) != a);
                }
            }
            assert forall|q: nat| #[trigger] old_st.tree_path(a, y2, q) implies q == k2 by {
                if q < k2 {
                    assert(ancestor(old_st.parent@, y2, q) != a);
                }
                if k2 < q {
                    assert(ancestor(old_st.parent@, y2, k2) != a);
                }
            }
            assert forall|j1: nat, j2: nat, e: int| j1 <= k1 && j2 <= k2 && 0 <= e < old_st.num_edges implies {
                let f0 = old_st.flow@[e] + if e == entering_edge_id {
                    dd
                } else {
                    0int
                };
                &&& i64::MIN <= f0 - dd * #[trigger] old_st.up_count(y1, j1, e) <= i64::MAX
                &&& i64::MIN <= f0 - dd * old_st.up_count(y1, k1, e) + dd * #[trigger] old_st.up_count(y2, j2, e) <= i64::MAX
            } by {
                assert(old_st.tree_path(a, y1, k1));
                assert(old_st.tree_path(a, y2, k2));
                assert(old_st.up_count(y1, j1, e) == old_st.up_count(y1, j1, e));
                assert(old_st.up_count(y2, j2, e) == old_st.up_count(y2, j2, e));
                assert(old_st.up_count(y2, 0, e) == 0);
            }
            assert(old_st.up_count(y1, 0, entering_edge_id as int) == 0);
            assert(old_st.up_count(y2, 0, entering_edge_id as int) == 0);
        }
        let d: i64 = match self.state[entering_edge_id] {
            EdgeState::Upper => -delta,
            _ => delta,
        };
        let fe = self.flow[entering_edge_id];
        self.flow.set(entering_edge_id, fe + d);
        let ghost base = self.flow@;
        proof {
            assert(d == dd);
            assert forall|e: int| 0 <= e < old_st.num_edges implies #[trigger] base[e] == old_st.flow@[e] + if e
                == entering_edge_id {
                dd
            } else {
                0int
            } by {}
            assert forall|j2: nat, e: int|
                j2 <= k1 && 0 <= e < old_st.num_edges implies i64::MIN <= base[e] - dd * #[trigger] old_st.up_count(y1, j2, e)
                <= i64::MAX by {
                assert(old_st.up_count(y2, 0, e) == 0);
                assert(j2 <= k1 && 0 <= k2 && 0 <= e < old_st.num_edges);
            }
        }
        let mut now = self.from[entering_edge_id];
        let ghost mut j: nat = 0;
        while now != apex
            invariant
                old_st.shape_ok(),
                old_st.tree_path(a, y1, k1),
                dd == d,
                a == apex.0,
                forall|j2: nat, e: int|
                    j2 <= k1 && 0 <= e < old_st.num_edges ==> i64::MIN <= base[e] - dd * #[trigger] old_st.up_count(y1, j2, e)
                        <= i64::MAX,
                self.shape_ok(),
                self.same_except_flow(old_st),
                self.excesses == old_st.excesses,
                now.0 == ancestor(old_st.parent@, y1, j),
                j <= k1,
                forall|e: int| 0 <= e < old_st.num_edges ==> #[trigger] self.flow@[e] == base[e] - dd * old_st.up_count(y1, j, e),
            decreases k1 - j,
        {
            proof {
                if j == k1 {
                    assert(now.0 == apex.0);
                }
                assert(j < k1);
                assert(ancestor(old_st.parent@, y1, j) == now.0);
            }
            let x = now.0;
            let eid = self.parent_edge_id[x];
            proof {
                assert(0 <= eid < old_st.num_edges);
                let c = old_st.up_count(y1, j, eid as int);
                assert(dd * (c + 1) == dd * c + dd) by (nonlinear_arith);
                assert(dd * (c - 1) == dd * c - dd) by (nonlinear_arith);
                assert(old_st.up_count(y1, (j + 1) as nat, eid as int) == c + if old_st.from@[eid as int].0 == x {
                    1int
                } else {
                    -1int
                });
                assert(i64::MIN <= base[eid as int] - dd * old_st.up_count(y1, (j + 1) as nat, eid as int) <= i64::MAX);
            }
            let f = self.flow[eid];
            if now == self.from[eid] {
                self.flow.set(eid, f - d);
            } else {
                self.flow.set(eid, f + d);
            }
            now = self.parent[x];
            proof {
                j = j + 1;
                assert forall|e: int| 0 <= e < old_st.num_edges implies #[trigger] self.flow@[e] == base[e] - dd
                    * old_st.up_count(y1, j, e) by {
                    if e != eid as int {
                        assert(old_st.up_count(y1, j, e) == old_st.up_count(y1, (j - 1) as nat, e));
                    }
                }
            }
        }
        let ghost mid = self.flow@;
        proof {
            assert forall|j2: nat, e: int|
                j2 <= k2 && 0 <= e < old_st.num_edges implies i64::MIN <= mid[e] + dd * #[trigger] old_st.up_count(y2, j2, e)
                <= i64::MAX by {
                assert(old_st.up_count(y1, k1, e) == old_st.up_count(y1, k1, e));
                assert(mid[e] == base[e] - dd * old_st.up_count(y1, k1, e));
            }
        }
        let mut now = self.to[entering_edge_id];
        let ghost mut j: nat = 0;
        while now != apex
            invariant
                old_st.shape_ok(),
                old_st.tree_path(a, y2, k2),
                dd == d,
                a == apex.0,
                forall|j2: nat, e: int|
                    j2 <= k2 && 0 <= e < old_st.num_edges ==> i64::MIN <= mid[e] + dd * #[trigger] old_st.up_count(y2, j2, e)
                        <= i64::MAX,
                self.shape_ok(),
                self.same_except_flow(old_st),
                self.excesses == old_st.excesses,
                now.0 == ancestor(old_st.parent@, y2, j),
                j <= k2,
                forall|e: int| 0 <= e < old_st.num_edges ==> #[trigger] self.flow@[e] == mid[e] + dd * old_st.up_count(y2, j, e),
            decreases k2 - j,
        {
            proof {
                if j == k2 {
                    assert(now.0 == apex.0);
                }
                assert(j < k2);
                assert(ancestor(old_st.parent@, y2, j) == now.0);
            }
            let x = now.0;
            let eid = self.parent_edge_id[x];
            proof {
                assert(0 <= eid < old_st.num_edges);
                let c = old_st.up_count(y2, j, eid as int);
                assert(dd * (c + 1) == dd * c + dd) by (nonlinear_arith);
                assert(dd * (c - 1) == dd * c - dd) by (nonlinear_arith);
                assert(old_st.up_count(y2, (j + 1) as nat, eid as int) == c + if old_st.from@[eid as int].0 == x {
                    1int
                } else {
                    -1int
                });
                assert(i64::MIN <= mid[eid as int] + dd * old_st.up_count(y2, (j + 1) as nat, eid as int) <= i64::MAX);
            }
            let f = self.flow[eid];
            if now == self.from[eid] {
                self.flow.set(eid, f + d);
            } else {
                self.flow.set(eid, f - d);
            }
            now = self.parent[x];
            proof {
                j = j + 1;
                assert forall|e: int| 0 <= e < old_st.num_edges implies #[trigger] self.flow@[e] == mid[e] + dd
                    * old_st.up_count(y2, j, e) by {
                    if e != eid as int {
                        assert(old_st.up_count(y2, j, e) == old_st.up_count(y2, (j - 1) as nat, e));
                    }
                }
            }
        }
    }

    /// Everything but the counts of successors and the last descendants is
    /// as in `other`.
    pub open spec fn same_except_counts(&self, other: SpanningTreeStructure) -> bool {
        &&& self.num_nodes == other.num_nodes
        &&& self.num_edges == other.num_edges
        &&& self.excesses == other.excesses
        &&& self.parent == other.parent
        &&& self.parent_edge_id == other.parent_edge_id
        &&& self.potential == other.potential
        &&& self.from == other.from
        &&& self.to == other.to
        &&& self.upper == other.upper
        &&& self.cost == other.cost
        &&& self.flow == other.flow
        &&& self.state == other.state
        &&& self.is_reversed == other.is_reversed
        &&& self.root == other.root
        &&& self.next_node_dft == other.next_node_dft
        &&& self.prev_node_dft == other.prev_node_dft
        &&& self.num_nodes_original_graph == other.num_nodes_original_graph
        &&& self.num_edges_original_graph == other.num_edges_original_graph
        &&& self.lower_in_original_graph == other.lower_in_original_graph
        &&& self.num_successors@.len() == other.num_successors@.len()
        &&& self.last_descendent_dft@.len() == other.last_descendent_dft@.len()
    }

    /// Walks up from `start` out of the structure; at each node passed, adds
    /// `size` to its count of successors (`grow`) or takes it away, and moves
    /// its last descendant from `old_last` to `new_last`.
    fn walk_up_update(&mut self, start: NodeId, size: usize, grow: bool, old_last: NodeId, new_last: NodeId)
        requires
            old(self).shape_ok(),
            exists|k: nat| #[trigger] top_path(old(self).parent@, old(self).num_nodes as int, start.0 as int, k),
            forall|k: nat, x: int|
                #![trigger top_path(old(self).parent@, old(self).num_nodes as int, start.0 as int, k), visits(old(self).parent@, start.0 as int, k, x)]
                top_path(old(self).parent@, old(self).num_nodes as int, start.0 as int, k) && 0 <= x < old(self).num_nodes ==> if grow {
                    old(self).num_successors@[x] + size * visits(old(self).parent@, start.0 as int, k, x) <= usize::MAX
                } else {
                    old(self).num_successors@[x] >= size * visits(old(self).parent@, start.0 as int, k, x)
                },
        ensures
            final(self).shape_ok(),
            final(self).same_except_counts(*old(self)),
            forall|k: nat, x: int|
                #![trigger top_path(old(self).parent@, old(self).num_nodes as int, start.0 as int, k), final(self).num_successors@[x]]
                top_path(old(self).parent@, old(self).num_nodes as int, start.0 as int, k) && 0 <= x < old(self).num_nodes ==> final(self).num_successors@[x]
                    == if grow {
                    old(self).num_successors@[x] + size * visits(old(self).parent@, start.0 as int, k, x)
                } else {
                    old(self).num_successors@[x] - size * visits(old(self).parent@, start.0 as int, k, x)
                },
            forall|k: nat, x: int|
                #![trigger top_path(old(self).parent@, old(self).num_nodes as int, start.0 as int, k), final(self).last_descendent_dft@[x]]
                top_path(old(self).parent@, old(self).num_nodes as int, start.0 as int, k) && 0 <= x < old(self).num_nodes ==> final(self).last_descendent_dft@[x]
                    == if visits(old(self).parent@, start.0 as int, k, x) > 0 && old(self).last_descendent_dft@[x] == old_last {
                    new_last
                } else {
                    old(self).last_descendent_dft@[x]
                },
    {
        let ghost old_st = *self;
        let ghost st = start.0 as int;
        let ghost k = choose|k: nat| #[trigger] top_path(old_st.parent@, old_st.num_nodes as int, st, k);
        proof {
            assert(top_path(old_st.parent@, old_st.num_nodes as int, st, k));
            assert forall|q: nat| #[trigger] top_path(old_st.parent@, old_st.num_nodes as int, st, q) implies q == k by {
                if q < k {
                    assert(ancestor(old_st.parent@, st, q) != usize::MAX);
                }
                if k < q {
                    assert(ancestor(old_st.parent@, st, k) != usize::MAX);
                }
            }
            assert forall|x: int| 0 <= x < old_st.num_nodes implies (if grow {
                old_st.num_successors@[x] + size * #[trigger] visits(old_st.parent@, st, k, x) <= usize::MAX
            } else {
                old_st.num_successors@[x] >= size * visits(old_st.parent@, st, k, x)
            }) by {
                assert(top_path(old_st.parent@, old_st.num_nodes as int, st, k));
            }
        }
        proof {
            assert forall|x: int| 0 <= x < old_st.num_nodes implies size * #[trigger] visits(old_st.parent@, st, 0, x) == 0 by {
                assert(visits(old_st.parent@, st, 0, x) == 0);
                assert(size * 0 == 0);
            }
        }
        let mut now = start;
        let ghost mut j: nat = 0;
        while now.0 != usize::MAX
            invariant
                old_st.shape_ok(),
                top_path(old_st.parent@, old_st.num_nodes as int, st, k),
                st == start.0,
                forall|x: int| 0 <= x < old_st.num_nodes ==> (if grow {
                    old_st.num_successors@[x] + size * #[trigger] visits(old_st.parent@, st, k, x) <= usize::MAX
                } else {
                    old_st.num_successors@[x] >= size * visits(old_st.parent@, st, k, x)
                }),
                self.shape_ok(),
                self.same_except_counts(old_st),
                now.0 == ancestor(old_st.parent@, st, j),
                j <= k,
                forall|x: int|
                    0 <= x < old_st.num_nodes ==> #[trigger] self.num_successors@[x] == if grow {
                        old_st.num_successors@[x] + size * visits(old_st.parent@, st, j, x)
                    } else {
                        old_st.num_successors@[x] - size * visits(old_st.parent@, st, j, x)
                    },
                forall|x: int|
                    0 <= x < old_st.num_nodes ==> #[trigger] self.last_descendent_dft@[x] == if visits(old_st.parent@, st, j, x) > 0
                        && old_st.last_descendent_dft@[x] == old_last {
                        new_last
                    } else {
                        old_st.last_descendent_dft@[x]
                    },
            decreases k - j,
        {
            proof {
                if j == k {
                    assert(now.0 == usize::MAX);
                }
                assert(j < k);
                assert(ancestor(old_st.parent@, st, j) == now.0);
            }
            let x = now.0;
            proof {
                assert(visits(old_st.parent@, st, (j + 1) as nat, x as int) == visits(old_st.parent@, st, j, x as int) + 1);
                assert(visits(old_st.parent@, st, j, x as int) + 1 <= visits(old_st.parent@, st, k, x as int)) by {
                    lemma_visits_grow(old_st.parent@, st, (j + 1) as nat, k, x as int);
                }
                let v = visits(old_st.parent@, st, j, x as int);
                assert(size * (v + 1) == size * v + size) by (nonlinear_arith);
                assert(size * (v + 1) <= size * visits(old_st.parent@, st, k, x as int)) by (nonlinear_arith)
                    requires
                        v + 1 <= visits(old_st.parent@, st, k, x as int),
                ;
            }
            let c = self.num_successors[x];
            if grow {
                self.num_successors.set(x, c + size);
            } else {
                self.num_successors.set(x, c - size);
            }
            if self.last_descendent_dft[x] == old_last {
                self.last_descendent_dft.set(x, new_last);
            }
            now = self.parent[x];
            proof {
                j = j + 1;
                assert forall|y: int| 0 <= y < old_st.num_nodes && y != x implies #[trigger] visits(old_st.parent@, st, j, y)
                    == visits(old_st.parent@, st, (j - 1) as nat, y) by {}
            }
        }
    }

    /// The values of the network, apart from the tree, are as in `other`.
    pub open spec fn same_values(&self, other: SpanningTreeStructure) -> bool {
        &&& self.num_nodes == other.num_nodes
        &&& self.num_edges == other.num_edges
        &&& self.excesses == other.excesses
        &&& self.potential == other.potential
        &&& self.from == other.from
        &&& self.to == other.to
        &&& self.upper == other.upper
        &&& self.cost == other.cost
        &&& self.flow == other.flow
        &&& self.is_reversed == other.is_reversed
        &&& self.root == other.root
        &&& self.num_nodes_original_graph == other.num_nodes_original_graph
        &&& self.num_edges_original_graph == other.num_edges_original_graph
        &&& self.lower_in_original_graph == other.lower_in_original_graph
    }

    /// The end of `edge_id` other than `u`.
    pub open spec fn other_end(&self, u: int, edge_id: int) -> int {
        if self.from@[edge_id].0 == u {
            self.to@[edge_id].0 as int
        } else {
            self.from@[edge_id].0 as int
        }
    }

    /// Takes `leaving_edge_id` out of the tree: it rests at its lower bound
    /// when empty and at its upper bound otherwise. The subtree under
    /// `sub_tree_root` is cut from its parent and its stretch of the thread
    /// closed into a loop of its own; each node above, from the other end of
    /// the edge up, loses the subtree's size from its count of successors,
    /// and where the subtree ended its descendants they now end at the node
    /// before the subtree.
    pub fn detach_tree(&mut self, _root: NodeId, sub_tree_root: NodeId, leaving_edge_id: usize)
        requires
            old(self).shape_ok(),
            sub_tree_root.0 < old(self).num_nodes,
            leaving_edge_id < old(self).num_edges,
            sub_tree_root == old(self).from@[leaving_edge_id as int] || sub_tree_root == old(self).to@[leaving_edge_id as int],
            old(self).prev_node_dft@[sub_tree_root.0 as int].0 < old(self).num_nodes,
            old(self).last_descendent_dft@[sub_tree_root.0 as int].0 < old(self).num_nodes,
            old(self).next_node_dft@[old(self).last_descendent_dft@[sub_tree_root.0 as int].0 as int].0 < old(self).num_nodes,
            exists|k: nat|
                #[trigger] top_path(
                    old(self).parent@.update(sub_tree_root.0 as int, NodeId(usize::MAX)),
                    old(self).num_nodes as int,
                    old(self).other_end(sub_tree_root.0 as int, leaving_edge_id as int),
                    k,
                ),
            forall|k: nat, x: int|
                #![trigger top_path(old(self).parent@.update(sub_tree_root.0 as int, NodeId(usize::MAX)), old(self).num_nodes as int, old(self).other_end(sub_tree_root.0 as int, leaving_edge_id as int), k), visits(old(self).parent@.update(sub_tree_root.0 as int, NodeId(usize::MAX)), old(self).other_end(sub_tree_root.0 as int, leaving_edge_id as int), k, x)]
                top_path(
                    old(self).parent@.update(sub_tree_root.0 as int, NodeId(usize::MAX)),
                    old(self).num_nodes as int,
                    old(self).other_end(sub_tree_root.0 as int, leaving_edge_id as int),
                    k,
                ) && 0 <= x < old(self).num_nodes ==> old(self).num_successors@[x] >= old(self).num_successors@[
                    sub_tree_root.0 as int] * visits(
                    old(self).parent@.update(sub_tree_root.0 as int, NodeId(usize::MAX)),
                    old(self).other_end(sub_tree_root.0 as int, leaving_edge_id as int),
                    k,
                    x,
                ),
        ensures
            final(self).shape_ok(),
            final(self).same_values(*old(self)),
            final(self).state@ == old(self).state@.update(
                leaving_edge_id as int,
                if old(self).flow@[leaving_edge_id as int] == 0 {
                    EdgeState::Lower
                } else {
                    EdgeState::Upper
                },
            ),
            final(self).parent@ == old(self).parent@.update(sub_tree_root.0 as int, NodeId(usize::MAX)),
            final(self).parent_edge_id@ == old(self).parent_edge_id@.update(sub_tree_root.0 as int, usize::MAX),
            ({
                let t = sub_tree_root.0 as int;
                let prev_t = old(self).prev_node_dft@[t];
                let last_t = old(self).last_descendent_dft@[t];
                let next_last_t = old(self).next_node_dft@[last_t.0 as int];
                &&& final(self).next_node_dft@ == old(self).next_node_dft@.update(prev_t.0 as int, next_last_t).update(
                    last_t.0 as int,
                    sub_tree_root,
                )
                &&& final(self).prev_node_dft@ == old(self).prev_node_dft@.update(next_last_t.0 as int, prev_t).update(
                    t,
                    last_t,
                )
            }),
            forall|k: nat, x: int|
                #![trigger top_path(old(self).parent@.update(sub_tree_root.0 as int, NodeId(usize::MAX)), old(self).num_nodes as int, old(self).other_end(sub_tree_root.0 as int, leaving_edge_id as int), k), final(self).num_successors@[x]]
                top_path(
                    old(self).parent@.update(sub_tree_root.0 as int, NodeId(usize::MAX)),
                    old(self).num_nodes as int,
                    old(self).other_end(sub_tree_root.0 as int, leaving_edge_id as int),
                    k,
                ) && 0 <= x < old(self).num_nodes ==> final(self).num_successors@[x] == old(self).num_successors@[x]
                    - old(self).num_successors@[sub_tree_root.0 as int] * visits(
                    old(self).parent@.update(sub_tree_root.0 as int, NodeId(usize::MAX)),
                    old(self).other_end(sub_tree_root.0 as int, leaving_edge_id as int),
                    k,
                    x,
                ),
            forall|k: nat, x: int|
                #![trigger top_path(old(self).parent@.update(sub_tree_root.0 as int, NodeId(usize::MAX)), old(self).num_nodes as int, old(self).other_end(sub_tree_root.0 as int, leaving_edge_id as int), k), final(self).last_descendent_dft@[x]]
                top_path(
                    old(self).parent@.update(sub_tree_root.0 as int, NodeId(usize::MAX)),
                    old(self).num_nodes as int,
                    old(self).other_end(sub_tree_root.0 as int, leaving_edge_id as int),
                    k,
                ) && 0 <= x < old(self).num_nodes ==> final(self).last_descendent_dft@[x] == if visits(
                    old(self).parent@.update(sub_tree_root.0 as int, NodeId(usize::MAX)),
                    old(self).other_end(sub_tree_root.0 as int, leaving_edge_id as int),
                    k,
                    x,
                ) > 0 && old(self).last_descendent_dft@[x] == old(self).last_descendent_dft@[sub_tree_root.0 as int] {
                    old(self).prev_node_dft@[sub_tree_root.0 as int]
                } else {
                    old(self).last_descendent_dft@[x]
                },
    {
        let t = sub_tree_root.0;
        let rest = if self.is_lower(leaving_edge_id) {
            EdgeState::Lower
        } else {
            EdgeState::Upper
        };
        self.state.set(leaving_edge_id, rest);
        self.parent.set(t, NodeId(usize::MAX));
        self.parent_edge_id.set(t, usize::MAX);
        let prev_t = self.prev_node_dft[t];
        let last_t = self.last_descendent_dft[t];
        let next_last_t = self.next_node_dft[last_t.0];
        self.next_node_dft.set(prev_t.0, next_last_t);
        self.prev_node_dft.set(next_last_t.0, prev_t);
        self.next_node_dft.set(last_t.0, sub_tree_root);
        self.prev_node_dft.set(t, last_t);
        let size = self.num_successors[t];
        let now = self.opposite_side(sub_tree_root, leaving_edge_id);
        self.walk_up_update(now, size, false, last_t, prev_t);
    }

    /// Puts `entering_edge_id` into the tree, hanging the subtree under
    /// `sub_tree_root` below `attach_node`: the subtree's stretch of the
    /// thread goes in right after the last descendant of `attach_node`, and
    /// each node from `attach_node` up gains the subtree's size in its count
    /// of successors, and where its descendants ended with those of
    /// `attach_node` they now end with those of the subtree.
    pub fn attach_tree(&mut self, _root: NodeId, attach_node: NodeId, sub_tree_root: NodeId, entering_edge_id: usize)
        requires
            old(self).shape_ok(),
            attach_node.0 < old(self).num_nodes,
            sub_tree_root.0 < old(self).num_nodes,
            entering_edge_id < old(self).num_edges,
            old(self).last_descendent_dft@[attach_node.0 as int].0 < old(self).num_nodes,
            old(self).last_descendent_dft@[sub_tree_root.0 as int].0 < old(self).num_nodes,
            old(self).next_node_dft@[old(self).last_descendent_dft@[attach_node.0 as int].0 as int].0 < old(self).num_nodes,
            exists|k: nat|
                #[trigger] top_path(
                    old(self).parent@.update(sub_tree_root.0 as int, attach_node),
                    old(self).num_nodes as int,
                    attach_node.0 as int,
                    k,
                ),
            forall|k: nat, x: int|
                #![trigger top_path(old(self).parent@.update(sub_tree_root.0 as int, attach_node), old(self).num_nodes as int, attach_node.0 as int, k), visits(old(self).parent@.update(sub_tree_root.0 as int, attach_node), attach_node.0 as int, k, x)]
                top_path(
                    old(self).parent@.update(sub_tree_root.0 as int, attach_node),
                    old(self).num_nodes as int,
                    attach_node.0 as int,
                    k,
                ) && 0 <= x < old(self).num_nodes ==> old(self).num_successors@[x] + old(self).num_successors@[
                    sub_tree_root.0 as int] * visits(
                    old(self).parent@.update(sub_tree_root.0 as int, attach_node),
                    attach_node.0 as int,
                    k,
                    x,
                ) <= usize::MAX,
        ensures
            final(self).shape_ok(),
            final(self).same_values(*old(self)),
            final(self).state@ == old(self).state@.update(entering_edge_id as int, EdgeState::Tree),
            final(self).parent@ == old(self).parent@.update(sub_tree_root.0 as int, attach_node),
            final(self).parent_edge_id@ == old(self).parent_edge_id@.update(sub_tree_root.0 as int, entering_edge_id),
            ({
                let q = sub_tree_root.0 as int;
                let last_p = old(self).last_descendent_dft@[attach_node.0 as int];
                let next_last_p = old(self).next_node_dft@[last_p.0 as int];
                let last_q = old(self).last_descendent_dft@[q];
                &&& final(self).next_node_dft@ == old(self).next_node_dft@.update(last_p.0 as int, sub_tree_root).update(
                    last_q.0 as int,
                    next_last_p,
                )
                &&& final(self).prev_node_dft@ == old(self).prev_node_dft@.update(q, last_p).update(
                    next_last_p.0 as int,
                    last_q,
                )
            }),
            forall|k: nat, x: int|
                #![trigger top_path(old(self).parent@.update(sub_tree_root.0 as int, attach_node), old(self).num_nodes as int, attach_node.0 as int, k), final(self).num_successors@[x]]
                top_path(
                    old(self).parent@.update(sub_tree_root.0 as int, attach_node),
                    old(self).num_nodes as int,
                    attach_node.0 as int,
                    k,
                ) && 0 <= x < old(self).num_nodes ==> final(self).num_successors@[x] == old(self).num_successors@[x]
                    + old(self).num_successors@[sub_tree_root.0 as int] * visits(
                    old(self).parent@.update(sub_tree_root.0 as int, attach_node),
                    attach_node.0 as int,
                    k,
                    x,
                ),
            forall|k: nat, x: int|
                #![trigger top_path(old(self).parent@.update(sub_tree_root.0 as int, attach_node), old(self).num_nodes as int, attach_node.0 as int, k), final(self).last_descendent_dft@[x]]
                top_path(
                    old(self).parent@.update(sub_tree_root.0 as int, attach_node),
                    old(self).num_nodes as int,
                    attach_node.0 as int,
                    k,
                ) && 0 <= x < old(self).num_nodes ==> final(self).last_descendent_dft@[x] == if visits(
                    old(self).parent@.update(sub_tree_root.0 as int, attach_node),
                    attach_node.0 as int,
                    k,
                    x,
                ) > 0 && old(self).last_descendent_dft@[x] == old(self).last_descendent_dft@[attach_node.0 as int] {
                    old(self).last_descendent_dft@[sub_tree_root.0 as int]
                } else {
                    old(self).last_descendent_dft@[x]
                },
    {
        self.state.set(entering_edge_id, EdgeState::Tree);
        let q = sub_tree_root.0;
        self.parent.set(q, attach_node);
        self.parent_edge_id.set(q, entering_edge_id);
        let last_p = self.last_descendent_dft[attach_node.0];
        let next_last_p = self.next_node_dft[last_p.0];
        let last_q = self.last_descendent_dft[q];
        self.next_node_dft.set(last_p.0, sub_tree_root);
        self.prev_node_dft.set(q, last_p);
        self.prev_node_dft.set(next_last_p.0, last_q);
        self.next_node_dft.set(last_q.0, next_last_p);
        let size = self.num_successors[q];
        self.walk_up_update(attach_node, size, true, last_p, last_q);
    }

    /// What `edge_id` can still carry.
    pub fn residual_capacity(&self, edge_id: usize) -> (r: i64)
        requires
            self.shape_ok(),
            edge_id < self.num_edges,
            i64::MIN <= self.upper@[edge_id as int] - self.flow@[edge_id as int] <= i64::MAX,
        ensures
            r == self.upper@[edge_id as int] - self.flow@[edge_id as int],
    {
        self.upper[edge_id] - self.flow[edge_id]
    }

    /// The end of `edge_id` other than `u`.
    pub fn opposite_side(&self, u: NodeId, edge_id: usize) -> (r: NodeId)
        requires
            self.shape_ok(),
            edge_id < self.num_edges,
            u == self.from@[edge_id as int] || u == self.to@[edge_id as int],
        ensures
            u == self.from@[edge_id as int] ==> r == self.to@[edge_id as int],
            u == self.to@[edge_id as int] ==> r == self.from@[edge_id as int],
    {
        let a = u.0;
        let t = self.to[edge_id].0;
        let f = self.from[edge_id].0;
        let r = a ^ t ^ f;
        proof {
            if a == f {
                assert(f ^ t ^ f == t) by (bit_vector);
            }
            if a == t {
                assert(t ^ t ^ f == f) by (bit_vector);
            }
        }
        NodeId(r)
    }

    /// The cost of the flow read on the original graph.
    pub fn calculate_objective_value_in_original_graph(&self) -> (v: i64)
        requires
            self.shape_ok(),
            self.original_values_ok(),
        ensures
            v == self.objective(self.num_edges_original_graph as int),
    {
        let mut total: i64 = 0;
        let mut e: usize = 0;
        while e < self.num_edges_original_graph
            invariant
                self.shape_ok(),
                self.original_values_ok(),
                e <= self.num_edges_original_graph,
                total == self.objective(e as int),
                -0x300_0000_0000 * e <= total <= 0x300_0000_0000 * e,
            decreases self.num_edges_original_graph - e,
        {
            let f = self.flow[e];
            let c = self.cost[e];
            let lower = self.lower_in_original_graph[e];
            proof {
                assert(0 <= self.flow@[e as int] <= self.upper@[e as int] <= 2 * VALUE_LIMIT);
            }
            let of: i64 = if self.is_reversed[e] {
                self.upper[e] + lower - f
            } else {
                f + lower
            };
            let oc: i64 = if self.is_reversed[e] {
                -c
            } else {
                c
            };
            proof {
                assert(of == self.original_flow(e as int));
                assert(oc == self.original_cost(e as int));
                assert(-0x300_0000_0000 <= of * oc <= 0x300_0000_0000) by (nonlinear_arith)
                    requires
                        -0x10_0000 <= of <= 0x30_0000,
                        -0x10_0000 <= oc <= 0x10_0000,
                ;
                assert(0x300_0000_0000 * e <= 0x300_0000_0000 * 0x10_0000) by (nonlinear_arith)
                    requires
                        e <= 0x10_0000,
                ;
            }
            total = total + of * oc;
            e = e + 1;
        }
        total
    }

    /// The flow on every original edge, read on the original graph.
    pub fn make_minimum_cost_flow_in_original_graph(&self) -> (fs: Vec<i64>)
        requires
            self.shape_ok(),
            self.original_values_ok(),
        ensures
            fs@.len() == self.num_edges_original_graph,
            forall|e: int| 0 <= e < fs@.len() ==> #[trigger] fs@[e] == self.original_flow(e),
    {
        let mut fs: Vec<i64> = Vec::new();
        let mut e: usize = 0;
        while e < self.num_edges_original_graph
            invariant
                self.shape_ok(),
                self.original_values_ok(),
                e <= self.num_edges_original_graph,
                fs@.len() == e,
                forall|j: int| 0 <= j < e ==> #[trigger] fs@[j] == self.original_flow(j),
            decreases self.num_edges_original_graph - e,
        {
            let f = self.flow[e];
            let lower = self.lower_in_original_graph[e];
            proof {
                assert(0 <= self.flow@[e as int] <= self.upper@[e as int] <= 2 * VALUE_LIMIT);
            }
            let of: i64 = if self.is_reversed[e] {
                self.upper[e] + lower - f
            } else {
                f + lower
            };
            fs.push(of);
            e = e + 1;
        }
        fs
    }
}

} // verus!
