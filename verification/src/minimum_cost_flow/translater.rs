//! Rewrites a network so that every edge has lower bound zero and a cost
//! that is not negative: the flow an edge must carry at rest moves into the
//! supplies of its ends, and an edge of negative cost is turned around.
use crate::graph::direction::Directed;
use crate::graph::graph::{Edge, Graph};
use crate::minimum_cost_flow::edge::{MinimumCostFlowEdge, MinimumCostFlowNode};
use crate::minimum_cost_flow::optimality::{feasible_flow, graph_balance, resting_flow, within_graph_bounds};
use vstd::prelude::*;

verus! {

/// The flow each of the edges `es` carries at rest.
pub open spec fn resting_flows(es: Seq<Edge<MinimumCostFlowEdge>>) -> Seq<i64> {
    Seq::new(es.len(), |e: int| resting_flow(es[e]) as i64)
}

/// Edge `e` with its lower bound taken off, turned around when its cost is
/// negative.
pub open spec fn translated_edge(e: Edge<MinimumCostFlowEdge>) -> Edge<MinimumCostFlowEdge> {
    if e.data.cost >= 0 {
        Edge {
            u: e.u,
            v: e.v,
            data: MinimumCostFlowEdge {
                lower: 0,
                upper: (e.data.upper - e.data.lower) as i64,
                cost: e.data.cost,
            },
        }
    } else {
        Edge {
            u: e.v,
            v: e.u,
            data: MinimumCostFlowEdge {
                lower: 0,
                upper: (e.data.upper - e.data.lower) as i64,
                cost: (-e.data.cost) as i64,
            },
        }
    }
}

/// The supply of node `x` once the edges `es` rest: what it had, plus what
/// their resting flows bring it, less what they take from it.
pub open spec fn translated_supply(
    nodes: Seq<MinimumCostFlowNode>,
    es: Seq<Edge<MinimumCostFlowEdge>>,
    k: int,
    x: int,
) -> int {
    nodes[x].b + graph_balance(es, resting_flows(es), k, x)
}

/// The same network with every edge at lower bound zero and of a cost that
/// is not negative, the flows at rest moved into the supplies.
pub fn translater(graph: &Graph<Directed, MinimumCostFlowNode, MinimumCostFlowEdge>) -> (r: Graph<
    Directed,
    MinimumCostFlowNode,
    MinimumCostFlowEdge,
>)
    requires
        graph.endpoints_valid(),
        forall|i: int|
            0 <= i < graph.edges@.len() ==> i64::MIN <= (#[trigger] graph.edges@[i]).data.upper
                - graph.edges@[i].data.lower <= i64::MAX && graph.edges@[i].data.cost != i64::MIN,
        forall|k: int, x: int|
            0 <= k <= graph.edges@.len() && 0 <= x < graph.nodes@.len() ==> i64::MIN <= #[trigger] translated_supply(
                graph.nodes@,
                graph.edges@,
                k,
                x,
            ) <= i64::MAX,
    ensures
        r.nodes@.len() == graph.nodes@.len(),
        r.edges@.len() == graph.edges@.len(),
        forall|i: int| 0 <= i < graph.edges@.len() ==> #[trigger] r.edges@[i] == translated_edge(graph.edges@[i]),
        forall|x: int|
            0 <= x < graph.nodes@.len() ==> #[trigger] r.nodes@[x].b == translated_supply(
                graph.nodes@,
                graph.edges@,
                graph.edges@.len() as int,
                x,
            ),
{
    let ghost es = graph.edges@;
    let ghost ns = graph.nodes@;
    let ghost rest = resting_flows(es);
    let mut nodes: Vec<MinimumCostFlowNode> = Vec::new();
    let mut x: usize = 0;
    while x < graph.nodes.len()
        invariant
            x <= ns.len(),
            ns == graph.nodes@,
            nodes@.len() == x,
            forall|y: int| 0 <= y < x ==> #[trigger] nodes@[y].b == ns[y].b,
        decreases ns.len() - x,
    {
        nodes.push(MinimumCostFlowNode { b: graph.nodes[x].b });
        x = x + 1;
    }
    let mut edges: Vec<Edge<MinimumCostFlowEdge>> = Vec::new();
    let mut i: usize = 0;
    while i < graph.edges.len()
        invariant
            i <= es.len(),
            es == graph.edges@,
            ns == graph.nodes@,
            rest == resting_flows(es),
            graph.endpoints_valid(),
            nodes@.len() == ns.len(),
            edges@.len() == i,
            forall|j: int|
                0 <= j < es.len() ==> i64::MIN <= (#[trigger] es[j]).data.upper - es[j].data.lower <= i64::MAX
                    && es[j].data.cost != i64::MIN,
            forall|k: int, y: int|
                0 <= k <= es.len() && 0 <= y < ns.len() ==> i64::MIN <= #[trigger] translated_supply(ns, es, k, y)
                    <= i64::MAX,
            forall|j: int| 0 <= j < i ==> #[trigger] edges@[j] == translated_edge(es[j]),
            forall|y: int| 0 <= y < ns.len() ==> #[trigger] nodes@[y].b == translated_supply(ns, es, i as int, y),
        decreases es.len() - i,
    {
        let e = graph.edges[i];
        let u = e.u.0;
        let v = e.v.0;
        let moved: i64 = if e.data.cost >= 0 {
            e.data.lower
        } else {
            e.data.upper
        };
        proof {
            assert(graph.edges@[i as int] == es[i as int]);
            assert(u < ns.len() && v < ns.len());
            assert(moved == rest[i as int]);
            assert forall|y: int| 0 <= y < ns.len() implies #[trigger] translated_supply(ns, es, i + 1, y)
                == translated_supply(ns, es, i as int, y) + (if v == y {
                moved as int
            } else {
                0
            }) - (if u == y {
                moved as int
            } else {
                0
            }) by {}
            assert(translated_supply(ns, es, i + 1, u as int) <= i64::MAX);
            assert(translated_supply(ns, es, i + 1, v as int) <= i64::MAX);
            assert(i64::MIN <= translated_supply(ns, es, i + 1, u as int));
            assert(i64::MIN <= translated_supply(ns, es, i + 1, v as int));
        }
        if u != v {
            let bu = nodes[u].b - moved;
            nodes.set(u, MinimumCostFlowNode { b: bu });
            let bv = nodes[v].b + moved;
            nodes.set(v, MinimumCostFlowNode { b: bv });
        }
        let upper = e.data.upper - e.data.lower;
        if e.data.cost >= 0 {
            edges.push(Edge { u: e.u, v: e.v, data: MinimumCostFlowEdge { lower: 0, upper, cost: e.data.cost } });
        } else {
            edges.push(Edge { u: e.v, v: e.u, data: MinimumCostFlowEdge { lower: 0, upper, cost: -e.data.cost } });
        }
        i = i + 1;
    }
    Graph { nodes, edges, direction: std::marker::PhantomData }
}

/// A flow `h` of the edges `es` read on their translations: what it carries
/// above the lower bound, or below the upper bound on an edge turned around.
pub open spec fn translated_flow(es: Seq<Edge<MinimumCostFlowEdge>>, h: Seq<i64>) -> Seq<i64> {
    Seq::new(
        h.len(),
        |e: int|
            if es[e].data.cost >= 0 {
                (h[e] - es[e].data.lower) as i64
            } else {
                (es[e].data.upper - h[e]) as i64
            },
    )
}

/// Over the first `k` edges, a node's balance on the translated network is
/// its balance on the network less the balance the resting flows give it.
proof fn lemma_translated_balance(
    es: Seq<Edge<MinimumCostFlowEdge>>,
    tes: Seq<Edge<MinimumCostFlowEdge>>,
    h: Seq<i64>,
    k: int,
    x: int,
)
    requires
        0 <= k <= es.len(),
        tes.len() == es.len(),
        h.len() == es.len(),
        forall|i: int| 0 <= i < es.len() ==> #[trigger] tes[i] == translated_edge(es[i]),
        forall|i: int|
            0 <= i < es.len() ==> i64::MIN <= #[trigger] h[i] - es[i].data.lower <= i64::MAX && i64::MIN <= es[i].data.upper
                - h[i] <= i64::MAX,
    ensures
        graph_balance(tes, translated_flow(es, h), k, x) == graph_balance(es, h, k, x) - graph_balance(
            es,
            resting_flows(es),
            k,
            x,
        ),
    decreases k,
{
    if k > 0 {
        lemma_translated_balance(es, tes, h, k - 1, x);
        assert(tes[k - 1] == translated_edge(es[k - 1]));
        assert(i64::MIN <= h[k - 1] - es[k - 1].data.lower <= i64::MAX);
    }
}

/// A flow meets the bounds and the supplies of a network exactly when, read
/// on the translated network, it meets the bounds and the supplies there.
pub proof fn lemma_translation_keeps_feasibility(
    nodes: Seq<MinimumCostFlowNode>,
    es: Seq<Edge<MinimumCostFlowEdge>>,
    tnodes: Seq<MinimumCostFlowNode>,
    tes: Seq<Edge<MinimumCostFlowEdge>>,
    h: Seq<i64>,
)
    requires
        tnodes.len() == nodes.len(),
        tes.len() == es.len(),
        h.len() == es.len(),
        forall|i: int| 0 <= i < es.len() ==> #[trigger] tes[i] == translated_edge(es[i]),
        forall|x: int|
            0 <= x < nodes.len() ==> #[trigger] tnodes[x].b == translated_supply(nodes, es, es.len() as int, x),
        forall|i: int|
            0 <= i < es.len() ==> i64::MIN <= (#[trigger] es[i]).data.upper - es[i].data.lower <= i64::MAX,
        forall|i: int|
            0 <= i < es.len() ==> i64::MIN <= #[trigger] h[i] - es[i].data.lower <= i64::MAX && i64::MIN <= es[i].data.upper
                - h[i] <= i64::MAX,
    ensures
        feasible_flow(es, nodes, h) <==> feasible_flow(tes, tnodes, translated_flow(es, h)),
{
    let m = es.len() as int;
    let th = translated_flow(es, h);
    assert forall|x: int| 0 <= x < nodes.len() implies #[trigger] graph_balance(tes, th, m, x) == graph_balance(es, h, m, x)
        - graph_balance(es, resting_flows(es), m, x) by {
        lemma_translated_balance(es, tes, h, m, x);
    }
    assert(within_graph_bounds(es, h) <==> within_graph_bounds(tes, th)) by {
        if within_graph_bounds(tes, th) {
            assert forall|e: int| 0 <= e < m implies (#[trigger] es[e]).data.lower <= h[e] <= es[e].data.upper by {
                assert(tes[e] == translated_edge(es[e]));
                assert(i64::MIN <= h[e] - es[e].data.lower <= i64::MAX);
            }
        }
        if within_graph_bounds(es, h) {
            assert forall|e: int| 0 <= e < m implies (#[trigger] tes[e]).data.lower <= th[e] <= tes[e].data.upper by {
                assert(tes[e] == translated_edge(es[e]));
                assert(i64::MIN <= h[e] - es[e].data.lower <= i64::MAX);
            }
        }
    }
    if feasible_flow(es, nodes, h) {
        assert forall|x: int| 0 <= x < tnodes.len() implies #[trigger] graph_balance(tes, th, tes.len() as int, x)
            == -tnodes[x].b by {
            assert(graph_balance(es, h, m, x) == -nodes[x].b);
        }
    }
    if feasible_flow(tes, tnodes, th) {
        assert forall|x: int| 0 <= x < nodes.len() implies #[trigger] graph_balance(es, h, m, x) == -nodes[x].b by {
            assert(graph_balance(tes, th, m, x) == -tnodes[x].b);
        }
    }
}

} // verus!
