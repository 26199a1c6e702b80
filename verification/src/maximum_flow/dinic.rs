use crate::graph::direction::Directed;
use crate::graph::graph::{Edge, Graph};
use crate::graph::ids::NodeId;
use crate::maximum_flow::augment::augment;
use crate::maximum_flow::bfs::bfs;
use crate::maximum_flow::edge::CapEdge;
use crate::maximum_flow::flow::{
    balance, cap_into, excess, is_flow, lemma_balance_le_cap, lemma_balance_zero, lemma_cap_into_same,
    residual_arcs, same_shape, within_bounds,
};
use crate::maximum_flow::residual::residual_of;
use crate::maximum_flow::solver::{bad_input, MaximumFlowSolver};
use crate::maximum_flow::status::Status;
use crate::shortest_path::walk::{arcs_in, reachable};
use vstd::prelude::*;

verus! {

/// Maximum flow by repeated augmentation along shortest residual paths:
/// each round searches the residual arcs breadth-first from the source and
/// pushes the bottleneck of the tree path to the sink.
pub struct Dinic {}

impl Default for Dinic {
    fn default() -> (d: Self)
        ensures
            d == (Dinic {}),
    {
        Dinic {}
    }
}

/// Whether `bad_input` holds.
fn input_is_bad(graph: &Graph<Directed, (), CapEdge>, source: NodeId, sink: NodeId) -> (b: bool)
    ensures
        b == bad_input(*graph, source, sink),
{
    let n = graph.nodes.len();
    if source.0 >= n || sink.0 >= n || source.0 == sink.0 {
        return true;
    }
    let mut i: usize = 0;
    while i < graph.edges.len()
        invariant
            i <= graph.edges@.len(),
            forall|j: int| 0 <= j < i ==> (#[trigger] graph.edges@[j]).data.upper >= 0,
        decreases graph.edges@.len() - i,
    {
        if graph.edges[i].data.upper < 0 {
            proof {
                assert(graph.edges@[i as int].data.upper < 0);
            }
            return true;
        }
        i = i + 1;
    }
    false
}

/// Sets every flow to zero.
fn clear_flows(es: &mut Vec<Edge<CapEdge>>)
    requires
        forall|j: int| 0 <= j < old(es)@.len() ==> (#[trigger] old(es)@[j]).data.upper >= 0,
    ensures
        same_shape(old(es)@, final(es)@),
        forall|j: int| 0 <= j < final(es)@.len() ==> (#[trigger] final(es)@[j]).data.flow == 0,
{
    let mut i: usize = 0;
    while i < es.len()
        invariant
            i <= es@.len(),
            same_shape(old(es)@, es@),
            forall|j: int| 0 <= j < es@.len() ==> (#[trigger] es@[j]).data.upper >= 0,
            forall|j: int| 0 <= j < i ==> (#[trigger] es@[j]).data.flow == 0,
        decreases es@.len() - i,
    {
        let mut ed = es[i];
        ed.data.flow = 0;
        es.set(i, ed);
        i = i + 1;
    }
}

/// Pushes flow from `s` to `t` until no residual path is left or the value
/// reaches `limit` (when `limited`).
#[verifier::rlimit(80)]
#[verifier::spinoff_prover]
fn push_flow(
    es: &mut Vec<Edge<CapEdge>>,
    n: usize,
    s: usize,
    t: usize,
    limited: bool,
    limit: i64,
) -> (value: i64)
    requires
        s < n,
        t < n,
        s != t,
        forall|e: int| 0 <= e < old(es)@.len() ==> (#[trigger] old(es)@[e]).u.0 < n && old(es)@[e].v.0 < n,
        cap_into(old(es)@, old(es)@.len() as int, t as int) <= i64::MAX,
        is_flow(old(es)@, s as int, t as int),
        excess(old(es)@, t as int) == 0,
    ensures
        same_shape(old(es)@, final(es)@),
        is_flow(final(es)@, s as int, t as int),
        value == excess(final(es)@, t as int),
        0 <= value,
        limited ==> value <= if limit < 0 { 0 } else { limit },
        (!limited || value < limit) ==> !reachable(
            residual_arcs(final(es)@, final(es)@.len() as int),
            s as int,
            t as int,
        ),
{
    let ghost orig = es@;
    let ghost m = es@.len() as int;
    let mut value: i64 = 0;
    proof {
        lemma_balance_le_cap(es@, m, t as int);
    }
    loop
        invariant
            s < n,
            t < n,
            s != t,
            m == orig.len(),
            same_shape(orig, es@),
            forall|e: int| 0 <= e < orig.len() ==> (#[trigger] orig[e]).u.0 < n && orig[e].v.0 < n,
            cap_into(orig, m, t as int) <= i64::MAX,
            is_flow(es@, s as int, t as int),
            value == excess(es@, t as int),
            0 <= value,
            value <= cap_into(es@, m, t as int),
            limited ==> value <= if limit < 0 { 0 } else { limit },
        ensures
            same_shape(orig, es@),
            is_flow(es@, s as int, t as int),
            value == excess(es@, t as int),
            0 <= value,
            limited ==> value <= if limit < 0 { 0 } else { limit },
            (!limited || value < limit) ==> !reachable(residual_arcs(es@, m), s as int, t as int),
        decreases cap_into(es@, m, t as int) - excess(es@, t as int),
    {
        if limited && value >= limit {
            break;
        }
        let res = residual_of(es);
        proof {
            assert(arcs_in(res.arcs@, n as int)) by {
                assert forall|i: int| 0 <= i < res.arcs@.len() implies (#[trigger] res.arcs@[i]).0 < n
                    && res.arcs@[i].1 < n by {
                    let e = res.info@[i].0 as int;
                    assert(orig[e].u.0 < n);
                }
            }
        }
        let tree = bfs(n, &res.arcs, s);
        if !tree.reached[t] {
            break;
        }
        let cap = if limited {
            limit - value
        } else {
            i64::MAX
        };
        let ghost before = es@;
        let d = augment(es, &res, &tree, n, s, t, cap);
        proof {
            lemma_cap_into_same(before, es@, m, t as int);
            lemma_cap_into_same(orig, es@, m, t as int);
            lemma_balance_le_cap(es@, m, t as int);
            assert(balance(es@, m, t as int) == balance(before, m, t as int) + d);
            assert forall|x: int| x != s && x != t implies #[trigger] excess(es@, x) == 0 by {
                assert(excess(before, x) == 0);
                assert(balance(es@, es@.len() as int, x) == balance(before, before.len() as int, x));
            }
        }
        value = value + d;
    }
    value
}

impl MaximumFlowSolver for Dinic {
    fn solve(
        &mut self,
        graph: &mut Graph<Directed, (), CapEdge>,
        source: NodeId,
        sink: NodeId,
        upper: Option<i64>,
    ) -> (r: Result<i64, Status>) {
        if input_is_bad(graph, source, sink) {
            return Err(Status::BadInput);
        }
        let ghost orig = graph.edges@;
        let n = graph.nodes.len();
        clear_flows(&mut graph.edges);
        proof {
            let es = graph.edges@;
            lemma_cap_into_same(orig, es, es.len() as int, sink.0 as int);
            assert forall|x: int| #[trigger] excess(es, x) == 0 by {
                lemma_balance_zero(es, es.len() as int, x);
            }
            assert(within_bounds(es)) by {
                assert forall|e: int| 0 <= e < es.len() implies 0 <= (#[trigger] es[e]).data.flow <= es[e].data.upper by {
                    assert(orig[e].data.upper >= 0);
                }
            }
            assert forall|e: int| 0 <= e < es.len() implies (#[trigger] es[e]).u.0 < n && es[e].v.0 < n by {
                assert(orig[e].u.0 < n);
            }
        }
        let (limited, limit) = match upper {
            Some(l) => (true, l),
            None => (false, 0i64),
        };
        let value = push_flow(&mut graph.edges, n, source.0, sink.0, limited, limit);
        Ok(value)
    }
}

} // verus!
