use crate::graph::direction::Undirected;
use crate::graph::graph::{Edge, Graph};
use crate::graph::ids::NodeId;
use crate::maximum_flow::dinic::Dinic;
use crate::maximum_flow::edge::CapEdge;
use crate::maximum_flow::cut::{cut_capacity, ends_below, flow_in, flow_out, lemma_cut_bounds, lemma_cut_same, lemma_flow_le_cut};
use crate::maximum_flow::flow::{cap_into, excess, is_flow, res_arc, res_cap, residual_arcs, same_shape, within_bounds};
use crate::maximum_flow::graph::MaximumFlowGraph;
use crate::maximum_flow::solver::bad_input;
use crate::minimum_cut::minimum_cut::minimum_cut;
use crate::shortest_path::walk::{is_walk, reachable, walk_end};
use vstd::prelude::*;

verus! {

/// Each of the first `k` edges as the two directed edges `u -> v` and
/// `v -> u` of the same capacity, carrying no flow.
pub open spec fn both_ways(es: Seq<Edge<CapEdge>>, k: int) -> Seq<Edge<CapEdge>>
    decreases k,
{
    if k <= 0 {
        Seq::empty()
    } else {
        let e = es[k - 1];
        let d = CapEdge { flow: 0, upper: e.data.upper };
        both_ways(es, k - 1) + seq![Edge { u: e.u, v: e.v, data: d }, Edge { u: e.v, v: e.u, data: d }]
    }
}

/// The sum of the capacities of the first `k` edges.
pub open spec fn total_upper(es: Seq<Edge<CapEdge>>, k: int) -> int
    decreases k,
{
    if k <= 0 {
        0
    } else {
        total_upper(es, k - 1) + es[k - 1].data.upper
    }
}

/// `f` is the value of a flow from `s` to `t` in the network `es` that
/// leaves no residual path from `s` to `t`.
pub open spec fn max_flow_value(es: Seq<Edge<CapEdge>>, s: int, t: int, f: int) -> bool {
    exists|g: Seq<Edge<CapEdge>>|
        #[trigger] same_shape(es, g) && is_flow(g, s, t) && excess(g, t) == f && !reachable(
            residual_arcs(g, g.len() as int),
            s,
            t,
        )
}

/// `side` holds `s` and not `t`, and no side of `n` nodes that does so has
/// a smaller cut in `es`: a minimum cut between `s` and `t`.
pub open spec fn is_min_cut(es: Seq<Edge<CapEdge>>, n: int, s: int, t: int, side: Seq<bool>) -> bool {
    &&& side.len() == n
    &&& side[s]
    &&& !side[t]
    &&& forall|other: Seq<bool>|
        other.len() == n && other[s] && !other[t] ==> cut_capacity(es, side, es.len() as int) <= #[trigger] cut_capacity(
            es,
            other,
            es.len() as int,
        )
}

/// `v` is on the side of `s` in every minimum cut between `s` and `t`.
pub open spec fn with_source_in_every_min_cut(es: Seq<Edge<CapEdge>>, n: int, s: int, t: int, v: int) -> bool {
    forall|side: Seq<bool>| #[trigger] is_min_cut(es, n, s, t, side) ==> side[v]
}

/// Each residual arc comes from an edge that can still move flow its way.
proof fn lemma_residual_from(es: Seq<Edge<CapEdge>>, k: int, j: int)
    requires
        0 <= k <= es.len(),
        0 <= j < residual_arcs(es, k).len(),
    ensures
        exists|e: int, fwd: bool|
            0 <= e < k && res_cap(es[e], fwd) > 0 && #[trigger] residual_arcs(es, k)[j] == res_arc(es[e], fwd),
    decreases k,
{
    let x = es[k - 1];
    let pr = residual_arcs(es, k - 1);
    let f = if res_cap(x, true) > 0 { seq![res_arc(x, true)] } else { Seq::empty() };
    let b = if res_cap(x, false) > 0 { seq![res_arc(x, false)] } else { Seq::empty() };
    let r = residual_arcs(es, k);
    assert(r == pr + f + b);
    if j < pr.len() {
        lemma_residual_from(es, k - 1, j);
        let (e, fwd) = choose|e: int, fwd: bool|
            0 <= e < k - 1 && res_cap(es[e], fwd) > 0 && #[trigger] residual_arcs(es, k - 1)[j] == res_arc(es[e], fwd);
        assert(r[j] == pr[j]);
        assert(res_cap(es[e], fwd) > 0 && residual_arcs(es, k)[j] == res_arc(es[e], fwd));
    } else if j < pr.len() + f.len() {
        assert(r[j] == f[j - pr.len()]);
        assert(res_cap(es[k - 1], true) > 0 && residual_arcs(es, k)[j] == res_arc(es[k - 1], true));
    } else {
        assert(r[j] == b[j - pr.len() - f.len()]);
        assert(res_cap(es[k - 1], false) > 0 && residual_arcs(es, k)[j] == res_arc(es[k - 1], false));
    }
}

/// A cut whose leaving edges carry its whole capacity and whose entering
/// edges carry nothing has every leaving edge full and every entering edge
/// empty.
proof fn lemma_tight_terms(es: Seq<Edge<CapEdge>>, side: Seq<bool>, k: int)
    requires
        0 <= k <= es.len(),
        within_bounds(es),
        flow_out(es, side, k) == cut_capacity(es, side, k),
        flow_in(es, side, k) == 0,
    ensures
        forall|e: int|
            0 <= e < k && side[(#[trigger] es[e]).u.0 as int] && !side[es[e].v.0 as int] ==> es[e].data.flow
                == es[e].data.upper,
        forall|e: int|
            0 <= e < k && !side[(#[trigger] es[e]).u.0 as int] && side[es[e].v.0 as int] ==> es[e].data.flow == 0,
    decreases k,
{
    if k > 0 {
        lemma_cut_bounds(es, side, k - 1);
        assert(0 <= es[k - 1].data.flow <= es[k - 1].data.upper);
        lemma_tight_terms(es, side, k - 1);
    }
}

/// A walk over arcs that never leave the side stays on it.
proof fn lemma_walk_stays(r: Seq<(usize, usize, i64)>, s: int, p: Seq<int>, side: Seq<bool>)
    requires
        is_walk(r, s, p),
        side[s],
        forall|j: int| 0 <= j < r.len() && side[(#[trigger] r[j]).0 as int] ==> side[r[j].1 as int],
    ensures
        side[walk_end(r, s, p)],
    decreases p.len(),
{
    if p.len() > 0 {
        lemma_walk_stays(r, s, p.drop_last(), side);
    }
}

/// Every node that the residual arcs of a flow from `s` reach lies on the
/// source side of each cut that the flow fills.
proof fn lemma_reached_in_tight_cut(es: Seq<Edge<CapEdge>>, n: int, s: int, t: int, side: Seq<bool>, v: int)
    requires
        is_flow(es, s, t),
        ends_below(es, n),
        side.len() == n,
        0 <= s < n,
        0 <= t < n,
        side[s],
        !side[t],
        excess(es, t) == cut_capacity(es, side, es.len() as int),
        reachable(residual_arcs(es, es.len() as int), s, v),
    ensures
        side[v],
{
    let m = es.len() as int;
    let r = residual_arcs(es, m);
    lemma_flow_le_cut(es, s, t, side);
    lemma_cut_bounds(es, side, m);
    lemma_tight_terms(es, side, m);
    assert forall|j: int| 0 <= j < r.len() && side[(#[trigger] r[j]).0 as int] implies side[r[j].1 as int] by {
        lemma_residual_from(es, m, j);
        let (e, fwd) = choose|e: int, fwd: bool| 0 <= e < m && res_cap(es[e], fwd) > 0 && #[trigger] r[j] == res_arc(es[e], fwd);
        assert(es[e].u.0 < n && es[e].v.0 < n);
    }
    let p = choose|p: Seq<int>| is_walk(r, s, p) && walk_end(r, s, p) == v;
    lemma_walk_stays(r, s, p, side);
}

/// The nodes that the residual arcs of a maximum flow reach from `s`, when
/// they form a cut of the flow's value, are exactly those on the side of
/// `s` in every minimum cut between `s` and `t` of any network of the same
/// shape.
proof fn lemma_reached_is_min_side(
    net: Seq<Edge<CapEdge>>,
    es: Seq<Edge<CapEdge>>,
    n: int,
    s: int,
    t: int,
    side: Seq<bool>,
    f: int,
)
    requires
        same_shape(net, es),
        is_flow(es, s, t),
        ends_below(es, n),
        0 <= s < n,
        0 <= t < n,
        f == excess(es, t),
        side.len() == n,
        side[s],
        !side[t],
        forall|v: int| 0 <= v < n ==> #[trigger] side[v] == reachable(residual_arcs(es, es.len() as int), s, v),
        f == cut_capacity(es, side, es.len() as int),
        forall|other: Seq<bool>|
            other.len() == n && other[s] && !other[t] ==> f <= #[trigger] cut_capacity(es, other, es.len() as int),
    ensures
        forall|v: int| 0 <= v < n ==> #[trigger] side[v] == with_source_in_every_min_cut(net, n, s, t, v),
{
    let m = es.len() as int;
    assert forall|other: Seq<bool>| true implies #[trigger] cut_capacity(net, other, m) == cut_capacity(es, other, m) by {
        lemma_cut_same(net, es, other, m);
    }
    assert(is_min_cut(net, n, s, t, side)) by {
        assert forall|other: Seq<bool>| other.len() == n && other[s] && !other[t] implies cut_capacity(net, side, m)
            <= #[trigger] cut_capacity(net, other, m) by {
            assert(f <= cut_capacity(es, other, m));
        }
    }
    assert forall|v: int| 0 <= v < n implies #[trigger] side[v] == with_source_in_every_min_cut(net, n, s, t, v) by {
        if side[v] {
            assert forall|other: Seq<bool>| #[trigger] is_min_cut(net, n, s, t, other) implies other[v] by {
                assert(cut_capacity(net, other, m) <= cut_capacity(net, side, m));
                assert(f <= cut_capacity(es, other, m));
                lemma_reached_in_tight_cut(es, n, s, t, other, v);
            }
        }
    }
}

proof fn lemma_both_ways_len(es: Seq<Edge<CapEdge>>, k: int)
    requires
        0 <= k,
    ensures
        both_ways(es, k).len() == 2 * k,
    decreases k,
{
    if k > 0 {
        lemma_both_ways_len(es, k - 1);
    }
}

proof fn lemma_cap_into_prefix(a: Seq<Edge<CapEdge>>, b: Seq<Edge<CapEdge>>, j: int, t: int)
    requires
        0 <= j <= a.len(),
        j <= b.len(),
        forall|i: int| 0 <= i < j ==> #[trigger] a[i] == b[i],
    ensures
        cap_into(a, j, t) == cap_into(b, j, t),
    decreases j,
{
    if j > 0 {
        lemma_cap_into_prefix(a, b, j - 1, t);
    }
}

/// What can enter a node of the two-way network is at most the total capacity.
proof fn lemma_cap_into_both_ways(es: Seq<Edge<CapEdge>>, k: int, t: int)
    requires
        0 <= k <= es.len(),
        forall|e: int| 0 <= e < es.len() ==> (#[trigger] es[e]).data.upper >= 0,
    ensures
        cap_into(both_ways(es, k), 2 * k, t) <= total_upper(es, k),
        total_upper(es, k) >= 0,
    decreases k,
{
    if k > 0 {
        lemma_cap_into_both_ways(es, k - 1, t);
        lemma_both_ways_len(es, k - 1);
        let w = both_ways(es, k);
        let w0 = both_ways(es, k - 1);
        assert forall|i: int| 0 <= i < 2 * k - 2 implies #[trigger] w[i] == w0[i] by {}
        lemma_cap_into_prefix(w, w0, 2 * k - 2, t);
        lemma_both_ways_len(es, k);
        let e = es[k - 1];
        assert(e.data.upper >= 0);
        assert(w[2 * k - 2].u == e.u && w[2 * k - 2].v == e.v && w[2 * k - 2].data.upper == e.data.upper);
        assert(w[2 * k - 1].u == e.v && w[2 * k - 1].v == e.u && w[2 * k - 1].data.upper == e.data.upper);
        assert(cap_into(w, 2 * k - 1, t) == cap_into(w, 2 * k - 2, t) + (if e.v.0 == t && e.u.0 != t {
            e.data.upper as int
        } else {
            0
        }));
        assert(cap_into(w, 2 * k, t) == cap_into(w, 2 * k - 2, t) + (if e.v.0 == t && e.u.0 != t {
            e.data.upper as int
        } else {
            0
        }) + (if e.u.0 == t && e.v.0 != t {
            e.data.upper as int
        } else {
            0
        }));
    }
}

/// The two-way network of `graph`, with no flow.
fn network_both_ways(graph: &Graph<Undirected, (), CapEdge>) -> (tmp: MaximumFlowGraph)
    requires
        graph.endpoints_valid(),
    ensures
        tmp.0.nodes@.len() == graph.nodes@.len(),
        tmp.0.edges@ == both_ways(graph.edges@, graph.edges@.len() as int),
        tmp.0.endpoints_valid(),
{
    let n = graph.nodes.len();
    let mut tmp = MaximumFlowGraph::default();
    let _nodes = tmp.add_nodes(n);
    let mut k: usize = 0;
    while k < graph.edges.len()
        invariant
            graph.endpoints_valid(),
            n == graph.nodes@.len(),
            k <= graph.edges@.len(),
            tmp.0.nodes@.len() == n,
            tmp.0.edges@ == both_ways(graph.edges@, k as int),
            tmp.0.endpoints_valid(),
        decreases graph.edges@.len() - k,
    {
        let e = graph.edges[k];
        proof {
            assert(graph.edges@[k as int].u.0 < n);
        }
        tmp.add_directed_edge(e.u, e.v, e.data.upper);
        tmp.add_directed_edge(e.v, e.u, e.data.upper);
        proof {
            let d = CapEdge { flow: 0, upper: e.data.upper };
            assert(tmp.0.edges@ =~= both_ways(graph.edges@, k as int) + seq![
                Edge { u: e.u, v: e.v, data: d },
                Edge { u: e.v, v: e.u, data: d },
            ]);
        }
        k = k + 1;
    }
    tmp
}

/// A Gomory-Hu tree of `graph`: entry `i` is `(i + 1, p, f)` where `p` is a
/// node before `i + 1` and `f` is the value of a maximum flow between them
/// in the network that lets each edge carry its capacity either way.
pub fn gomory_hu(graph: &Graph<Undirected, (), CapEdge>) -> (tree: Vec<(usize, usize, i64)>)
    requires
        graph.endpoints_valid(),
        forall|e: int| 0 <= e < graph.edges@.len() ==> (#[trigger] graph.edges@[e]).data.upper >= 0,
        total_upper(graph.edges@, graph.edges@.len() as int) <= i64::MAX,
    ensures
        tree@.len() == if graph.nodes@.len() == 0 {
            0
        } else {
            graph.nodes@.len() - 1
        },
        forall|i: int|
            0 <= i < tree@.len() ==> {
                &&& (#[trigger] tree@[i]).0 == i + 1
                &&& tree@[i].1 < i + 1
                &&& max_flow_value(
                    both_ways(graph.edges@, graph.edges@.len() as int),
                    tree@[i].0 as int,
                    tree@[i].1 as int,
                    tree@[i].2 as int,
                )
            },
        forall|i: int, v: int|
            0 <= i < tree@.len() && 0 < v < graph.nodes@.len() && #[trigger] tree@[v - 1].1 == (#[trigger] tree@[i]).0
                ==> with_source_in_every_min_cut(
                both_ways(graph.edges@, graph.edges@.len() as int),
                graph.nodes@.len() as int,
                tree@[i].0 as int,
                tree@[i].1 as int,
                v,
            ),
        forall|i: int, v: int|
            0 <= i < tree@.len() && i + 1 < v < graph.nodes@.len() && with_source_in_every_min_cut(
                both_ways(graph.edges@, graph.edges@.len() as int),
                graph.nodes@.len() as int,
                (#[trigger] tree@[i]).0 as int,
                tree@[i].1 as int,
                v,
            ) ==> #[trigger] tree@[v - 1].1 != tree@[i].1,
        forall|i: int, v: int|
            0 <= i < tree@.len() && 0 < v < graph.nodes@.len() && #[trigger] tree@[v - 1].1 == (#[trigger] tree@[i]).0
                && tree@[i].1 >= 1 ==> with_source_in_every_min_cut(
                both_ways(graph.edges@, graph.edges@.len() as int),
                graph.nodes@.len() as int,
                tree@[i].1 as int,
                tree@[tree@[i].1 - 1].1 as int,
                v,
            ),
{
    let n = graph.nodes.len();
    let ghost net = both_ways(graph.edges@, graph.edges@.len() as int);
    let mut parent: Vec<usize> = vec![0usize; n];
    let mut tree_edges: Vec<(usize, usize, i64)> = Vec::new();
    let mut u: usize = 1;
    while u < n
        invariant
            graph.endpoints_valid(),
            forall|e: int| 0 <= e < graph.edges@.len() ==> (#[trigger] graph.edges@[e]).data.upper >= 0,
            total_upper(graph.edges@, graph.edges@.len() as int) <= i64::MAX,
            net == both_ways(graph.edges@, graph.edges@.len() as int),
            n == graph.nodes@.len(),
            1 <= u,
            u <= n || (n == 0 && u == 1),
            parent@.len() == n,
            forall|v: int| 1 <= v < n ==> #[trigger] parent@[v] < v,
            tree_edges@.len() == u - 1,
            forall|i: int|
                0 <= i < tree_edges@.len() ==> {
                    &&& (#[trigger] tree_edges@[i]).0 == i + 1
                    &&& tree_edges@[i].1 < i + 1
                    &&& max_flow_value(net, tree_edges@[i].0 as int, tree_edges@[i].1 as int, tree_edges@[i].2 as int)
                    &&& tree_edges@[i].1 == parent@[i + 1]
                },
            forall|v: int| 0 <= v < n ==> #[trigger] parent@[v] < u,
            forall|i: int, v: int|
                0 <= i < tree_edges@.len() && 0 <= v < n && #[trigger] parent@[v] == (#[trigger] tree_edges@[i]).0
                    ==> with_source_in_every_min_cut(net, n as int, tree_edges@[i].0 as int, tree_edges@[i].1 as int, v),
            forall|i: int, v: int|
                0 <= i < tree_edges@.len() && i + 1 < v < n && with_source_in_every_min_cut(
                    net,
                    n as int,
                    (#[trigger] tree_edges@[i]).0 as int,
                    tree_edges@[i].1 as int,
                    v,
                ) ==> #[trigger] parent@[v] != tree_edges@[i].1,
            forall|i: int, v: int|
                0 <= i < tree_edges@.len() && 0 <= v < n && #[trigger] parent@[v] == (#[trigger] tree_edges@[i]).0
                    && tree_edges@[i].1 >= 1 ==> with_source_in_every_min_cut(
                    net,
                    n as int,
                    tree_edges@[i].1 as int,
                    tree_edges@[tree_edges@[i].1 - 1].1 as int,
                    v,
                ),
        decreases n - u,
    {
        let mut tmp = network_both_ways(graph);
        let p = parent[u];
        proof {
            lemma_cap_into_both_ways(graph.edges@, graph.edges@.len() as int, p as int);
            lemma_both_ways_len(graph.edges@, graph.edges@.len() as int);
            assert(!bad_input(tmp.0, NodeId(u), NodeId(p))) by {
                assert forall|e: int| 0 <= e < tmp.0.edges@.len() implies (#[trigger] tmp.0.edges@[e]).data.upper
                    >= 0 by {
                    lemma_both_ways_upper(graph.edges@, graph.edges@.len() as int, e);
                }
            }
        }
        let mut dinic = Dinic::default();
        let (flow, _cut, reachable) = match minimum_cut(&mut dinic, &mut tmp.0, NodeId(u), NodeId(p)) {
            Ok(r) => r,
            Err(_) => {
                proof {
                    assert(false);
                }
                return tree_edges;
            },
        };
        proof {
            let g = tmp.0.edges@;
            assert(same_shape(net, g));
            assert forall|e: int| 0 <= e < g.len() implies (#[trigger] g[e]).u.0 < n && g[e].v.0 < n by {
                lemma_both_ways_len(graph.edges@, graph.edges@.len() as int);
                lemma_both_ways_ends(graph.edges@, graph.edges@.len() as int, n as int, e);
            }
            lemma_reached_is_min_side(net, g, n as int, u as int, p as int, reachable@, flow as int);
        }
        let ghost parent0 = parent@;
        let mut v = u + 1;
        while v < n
            invariant
                u < v <= n || v == u + 1,
                u < n,
                p == parent0[u as int],
                parent@.len() == n,
                parent0.len() == n,
                reachable@.len() == n,
                forall|w: int|
                    0 <= w < n ==> #[trigger] parent@[w] == if u < w < v && parent0[w] == p && reachable@[w] {
                        u
                    } else {
                        parent0[w]
                    },
            decreases n - v,
        {
            if parent[v] == p && reachable[v] {
                parent.set(v, u);
            }
            v = v + 1;
        }
        proof {
            assert forall|w: int| 0 <= w < n implies #[trigger] parent@[w] == if u < w && parent0[w] == p && reachable@[w] {
                u
            } else {
                parent0[w]
            } by {
                if n < u + 1 {
                    assert(false);
                }
            }
        }
        tree_edges.push((u, p, flow));
        proof {
            let t = tree_edges@;
            let k = t.len() - 1;
            assert(t[k] == (u, p, flow));
            assert forall|i: int, w: int|
                0 <= i < t.len() && 0 <= w < n && #[trigger] parent@[w] == (#[trigger] t[i]).0 implies with_source_in_every_min_cut(
                net,
                n as int,
                t[i].0 as int,
                t[i].1 as int,
                w,
            ) by {
                if i < k {
                    assert(t[i] == tree_edges@[i]);
                    assert(parent0[w] < u);
                    assert(parent0[w] == t[i].0);
                }
            }
            assert forall|i: int, w: int|
                0 <= i < t.len() && i + 1 < w < n && with_source_in_every_min_cut(
                    net,
                    n as int,
                    (#[trigger] t[i]).0 as int,
                    t[i].1 as int,
                    w,
                ) implies #[trigger] parent@[w] != t[i].1 by {
                if i < k {
                    assert(t[i].1 < i + 1);
                }
            }
            assert forall|i: int, w: int|
                0 <= i < t.len() && 0 <= w < n && #[trigger] parent@[w] == (#[trigger] t[i]).0 && t[i].1 >= 1 implies with_source_in_every_min_cut(
                net,
                n as int,
                t[i].1 as int,
                t[t[i].1 - 1].1 as int,
                w,
            ) by {
                let q = t[i].1 as int;
                assert(t[q - 1] == tree_edges@[q - 1]);
                assert(tree_edges@[q - 1].0 == q);
                if i < k {
                    assert(t[i] == tree_edges@[i]);
                    assert(parent0[w] < u);
                    assert(parent0[w] == t[i].0);
                } else {
                    assert(parent0[w] == p);
                    assert(parent0[w] == tree_edges@[q - 1].0);
                }
            }
        }
        u = u + 1;
    }
    proof {
        assert forall|w: int| 0 < w < n implies #[trigger] tree_edges@[w - 1].1 == parent@[w] by {
            assert(tree_edges@[w - 1].0 == w);
        }
    }
    tree_edges
}

/// Every edge of the two-way network joins two nodes of the graph.
proof fn lemma_both_ways_ends(es: Seq<Edge<CapEdge>>, k: int, n: int, i: int)
    requires
        0 <= k <= es.len(),
        0 <= i < 2 * k,
        forall|e: int| 0 <= e < es.len() ==> (#[trigger] es[e]).u.0 < n && es[e].v.0 < n,
    ensures
        both_ways(es, k)[i].u.0 < n,
        both_ways(es, k)[i].v.0 < n,
    decreases k,
{
    lemma_both_ways_len(es, k - 1);
    if i < 2 * k - 2 {
        lemma_both_ways_ends(es, k - 1, n, i);
    } else {
        assert(es[k - 1].u.0 < n && es[k - 1].v.0 < n);
    }
}

/// Every edge of the two-way network has the capacity of the edge it copies.
proof fn lemma_both_ways_upper(es: Seq<Edge<CapEdge>>, k: int, i: int)
    requires
        0 <= k <= es.len(),
        0 <= i < 2 * k,
        forall|e: int| 0 <= e < es.len() ==> (#[trigger] es[e]).data.upper >= 0,
    ensures
        both_ways(es, k)[i].data.upper >= 0,
    decreases k,
{
    lemma_both_ways_len(es, k - 1);
    if i < 2 * k - 2 {
        lemma_both_ways_upper(es, k - 1, i);
    } else {
        assert(es[k - 1].data.upper >= 0);
    }
}

} // verus!
