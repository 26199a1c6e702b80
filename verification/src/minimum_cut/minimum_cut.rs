use crate::graph::direction::Directed;
use crate::graph::graph::{Edge, Graph};
use crate::graph::ids::NodeId;
use crate::maximum_flow::bfs::bfs;
use crate::maximum_flow::edge::CapEdge;
use crate::maximum_flow::cut::{cut_capacity, flow_in, flow_out, lemma_flow_le_cut};
use crate::maximum_flow::flow::{cap_into, excess, is_flow, res_arc, res_cap, residual_arcs, same_shape};
use crate::maximum_flow::cut::lemma_residual_has;
use crate::maximum_flow::residual::residual_of;
use crate::maximum_flow::solver::{bad_input, MaximumFlowSolver};
use crate::maximum_flow::status::Status;
use crate::shortest_path::walk::{arcs_in, is_walk, lemma_walk_push, reachable, walk_end};
use vstd::prelude::*;

verus! {

/// The nodes among the first `k` that `marked` marks, in increasing order.
pub open spec fn marked_nodes(marked: Seq<bool>, k: int) -> Seq<NodeId>
    decreases k,
{
    if k <= 0 {
        Seq::empty()
    } else {
        marked_nodes(marked, k - 1) + if marked[k - 1] {
            seq![NodeId((k - 1) as usize)]
        } else {
            Seq::empty()
        }
    }
}

/// The residual arcs of the first `k` edges join nodes below `n`.
proof fn lemma_residual_in(es: Seq<Edge<CapEdge>>, k: int, n: int)
    requires
        0 <= k <= es.len(),
        forall|e: int| 0 <= e < es.len() ==> (#[trigger] es[e]).u.0 < n && es[e].v.0 < n,
    ensures
        arcs_in(residual_arcs(es, k), n),
    decreases k,
{
    if k > 0 {
        lemma_residual_in(es, k - 1, n);
        let x = es[k - 1];
        let pr = residual_arcs(es, k - 1);
        let f = if res_cap(x, true) > 0 { seq![res_arc(x, true)] } else { Seq::empty() };
        let b = if res_cap(x, false) > 0 { seq![res_arc(x, false)] } else { Seq::empty() };
        let r = residual_arcs(es, k);
        assert(r == pr + f + b);
        assert forall|i: int| 0 <= i < r.len() implies (#[trigger] r[i]).0 < n && r[i].1 < n by {
            if i < pr.len() {
                assert(r[i] == pr[i]);
            } else if i < pr.len() + f.len() {
                assert(r[i] == f[i - pr.len()]);
            } else {
                assert(r[i] == b[i - pr.len() - f.len()]);
            }
        }
    }
}

/// Where no edge entering the side carries flow, nothing enters it.
proof fn lemma_empty_in(es: Seq<Edge<CapEdge>>, side: Seq<bool>, k: int)
    requires
        0 <= k <= es.len(),
        forall|e: int|
            0 <= e < k && !side[(#[trigger] es[e]).u.0 as int] && side[es[e].v.0 as int] ==> es[e].data.flow == 0,
    ensures
        flow_in(es, side, k) == 0,
    decreases k,
{
    if k > 0 {
        lemma_empty_in(es, side, k - 1);
    }
}

/// Where every edge leaving the side is full, what leaves it is its
/// capacity.
proof fn lemma_full_cut(es: Seq<Edge<CapEdge>>, side: Seq<bool>, k: int)
    requires
        0 <= k <= es.len(),
        forall|e: int|
            0 <= e < k && side[(#[trigger] es[e]).u.0 as int] && !side[es[e].v.0 as int] ==> es[e].data.flow
                == es[e].data.upper,
    ensures
        flow_out(es, side, k) == cut_capacity(es, side, k),
    decreases k,
{
    if k > 0 {
        lemma_full_cut(es, side, k - 1);
    }
}

/// The nodes `marked` marks, in increasing order.
fn marked_list(marked: &Vec<bool>) -> (r: Vec<NodeId>)
    ensures
        r@ == marked_nodes(marked@, marked@.len() as int),
{
    let mut r: Vec<NodeId> = Vec::new();
    let mut i: usize = 0;
    while i < marked.len()
        invariant
            i <= marked@.len(),
            r@ == marked_nodes(marked@, i as int),
        decreases marked@.len() - i,
    {
        let ghost before = r@;
        if marked[i] {
            r.push(NodeId(i));
        }
        proof {
            assert(r@ =~= before + if marked@[i as int] {
                seq![NodeId(i)]
            } else {
                Seq::empty()
            });
        }
        i = i + 1;
    }
    r
}

/// Runs `solver` for a maximum flow from `source` to `sink` and returns its
/// value, the nodes that residual arcs reach from `source` (in increasing
/// order), and that set as one flag per node: the source side of a minimum
/// cut, whose capacity is the value of the flow.
pub fn minimum_cut<S: MaximumFlowSolver>(
    solver: &mut S,
    graph: &mut Graph<Directed, (), CapEdge>,
    source: NodeId,
    sink: NodeId,
) -> (r: Result<(i64, Vec<NodeId>, Vec<bool>), Status>)
    requires
        old(graph).endpoints_valid(),
        cap_into(old(graph).edges@, old(graph).edges@.len() as int, sink.0 as int) <= i64::MAX,
    ensures
        final(graph).nodes@ == old(graph).nodes@,
        same_shape(old(graph).edges@, final(graph).edges@),
        r is Err <==> bad_input(*old(graph), source, sink),
        r is Err ==> r == Err::<(i64, Vec<NodeId>, Vec<bool>), Status>(Status::BadInput),
        r matches Ok((f, cut, side)) ==> {
            let es = final(graph).edges@;
            &&& is_flow(es, source.0 as int, sink.0 as int)
            &&& f == excess(es, sink.0 as int)
            &&& 0 <= f
            &&& side@.len() == final(graph).nodes@.len()
            &&& forall|v: int|
                0 <= v < side@.len() ==> #[trigger] side@[v] == reachable(
                    residual_arcs(es, es.len() as int),
                    source.0 as int,
                    v,
                )
            &&& side@[source.0 as int]
            &&& !side@[sink.0 as int]
            &&& cut@ == marked_nodes(side@, side@.len() as int)
            &&& f == cut_capacity(es, side@, es.len() as int)
            &&& forall|other: Seq<bool>|
                other.len() == side@.len() && other[source.0 as int] && !other[sink.0 as int] ==> f
                    <= #[trigger] cut_capacity(es, other, es.len() as int)
        },
{
    let max_flow = match solver.solve(graph, source, sink, None) {
        Ok(f) => f,
        Err(st) => {
            return Err(st);
        },
    };
    let n = graph.nodes.len();
    let res = residual_of(&graph.edges);
    proof {
        assert forall|e: int| 0 <= e < graph.edges@.len() implies (#[trigger] graph.edges@[e]).u.0 < n
            && graph.edges@[e].v.0 < n by {
            assert(old(graph).edges@[e].u.0 < n);
        }
        lemma_residual_in(graph.edges@, graph.edges@.len() as int, n as int);
    }
    let tree = bfs(n, &res.arcs, source.0);
    let visited = tree.reached;
    let cut_set = marked_list(&visited);
    proof {
        let es = graph.edges@;
        let r = residual_arcs(es, es.len() as int);
        let src = source.0 as int;
        assert(is_walk(r, src, Seq::<int>::empty()) && walk_end(r, src, Seq::<int>::empty()) == src);
        assert(visited@[src]);
        assert forall|e: int|
            0 <= e < es.len() && visited@[(#[trigger] es[e]).u.0 as int] && !visited@[es[e].v.0 as int] implies es[e].data.flow
                == es[e].data.upper by {
            if res_cap(es[e], true) > 0 {
                lemma_residual_has(es, es.len() as int, e, true);
                let i = choose|i: int| 0 <= i < r.len() && #[trigger] r[i] == res_arc(es[e], true);
                let p = choose|p: Seq<int>| is_walk(r, src, p) && walk_end(r, src, p) == es[e].u.0 as int;
                lemma_walk_push(r, src, p, i);
                assert(reachable(r, src, es[e].v.0 as int));
            }
        }
        assert forall|e: int|
            0 <= e < es.len() && !visited@[(#[trigger] es[e]).u.0 as int] && visited@[es[e].v.0 as int] implies es[e].data.flow
                == 0 by {
            if res_cap(es[e], false) > 0 {
                lemma_residual_has(es, es.len() as int, e, false);
                let i = choose|i: int| 0 <= i < r.len() && #[trigger] r[i] == res_arc(es[e], false);
                let p = choose|p: Seq<int>| is_walk(r, src, p) && walk_end(r, src, p) == es[e].v.0 as int;
                lemma_walk_push(r, src, p, i);
                assert(reachable(r, src, es[e].u.0 as int));
            }
        }
        lemma_full_cut(es, visited@, es.len() as int);
        lemma_empty_in(es, visited@, es.len() as int);
        lemma_flow_le_cut(es, src, sink.0 as int, visited@);
        assert forall|other: Seq<bool>|
            other.len() == visited@.len() && other[src] && !other[sink.0 as int] implies max_flow
                <= #[trigger] cut_capacity(es, other, es.len() as int) by {
            lemma_flow_le_cut(es, src, sink.0 as int, other);
        }
    }
    Ok((max_flow, cut_set, visited))
}

} // verus!
