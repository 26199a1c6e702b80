//! Flows on the edges of a capacitated graph and their residual arcs.
use crate::graph::graph::Edge;
use crate::maximum_flow::edge::CapEdge;
use vstd::prelude::*;

verus! {

/// Flow into `x` minus flow out of `x` over the first `k` edges.
pub open spec fn balance(es: Seq<Edge<CapEdge>>, k: int, x: int) -> int
    decreases k,
{
    if k <= 0 {
        0
    } else {
        balance(es, k - 1, x) + (if es[k - 1].v.0 == x { es[k - 1].data.flow as int } else { 0 }) - (if es[k
            - 1].u.0 == x {
            es[k - 1].data.flow as int
        } else {
            0
        })
    }
}

/// Flow into `x` minus flow out of `x`.
pub open spec fn excess(es: Seq<Edge<CapEdge>>, x: int) -> int {
    balance(es, es.len() as int, x)
}

/// Every edge carries between zero and its capacity.
pub open spec fn within_bounds(es: Seq<Edge<CapEdge>>) -> bool {
    forall|e: int| 0 <= e < es.len() ==> 0 <= (#[trigger] es[e]).data.flow <= es[e].data.upper
}

/// A flow from `s` to `t`: within the capacities, and every other node
/// passes on all it receives.
pub open spec fn is_flow(es: Seq<Edge<CapEdge>>, s: int, t: int) -> bool {
    &&& within_bounds(es)
    &&& forall|x: int| x != s && x != t ==> #[trigger] excess(es, x) == 0
}

/// Two edge lists that differ at most in their flows.
pub open spec fn same_shape(a: Seq<Edge<CapEdge>>, b: Seq<Edge<CapEdge>>) -> bool {
    &&& a.len() == b.len()
    &&& forall|e: int|
        0 <= e < a.len() ==> (#[trigger] a[e]).u == b[e].u && a[e].v == b[e].v && a[e].data.upper
            == b[e].data.upper
}

/// What edge `e` can still carry from `u` to `v` (forward) or give back from
/// `v` to `u` (backward).
pub open spec fn res_cap(e: Edge<CapEdge>, fwd: bool) -> int {
    if fwd {
        e.data.upper - e.data.flow
    } else {
        e.data.flow as int
    }
}

/// The residual arc of `e` in direction `fwd`, as `(from, to, 0)`.
pub open spec fn res_arc(e: Edge<CapEdge>, fwd: bool) -> (usize, usize, i64) {
    if fwd {
        (e.u.0, e.v.0, 0i64)
    } else {
        (e.v.0, e.u.0, 0i64)
    }
}

/// The residual arcs of the first `k` edges that can carry more flow, in
/// edge order, the forward arc of an edge before its backward arc.
pub open spec fn residual_arcs(es: Seq<Edge<CapEdge>>, k: int) -> Seq<(usize, usize, i64)>
    decreases k,
{
    if k <= 0 {
        Seq::empty()
    } else {
        let e = es[k - 1];
        let f = if res_cap(e, true) > 0 { seq![res_arc(e, true)] } else { Seq::empty() };
        let b = if res_cap(e, false) > 0 { seq![res_arc(e, false)] } else { Seq::empty() };
        residual_arcs(es, k - 1) + f + b
    }
}

/// Sum of the capacities of the edges among the first `k` that enter `t`
/// from another node.
pub open spec fn cap_into(es: Seq<Edge<CapEdge>>, k: int, t: int) -> int
    decreases k,
{
    if k <= 0 {
        0
    } else {
        cap_into(es, k - 1, t) + if es[k - 1].v.0 == t && es[k - 1].u.0 != t {
            es[k - 1].data.upper as int
        } else {
            0
        }
    }
}

/// Changing the flow of edge `i` changes the balance of its two ends only.
pub proof fn lemma_balance_update(es: Seq<Edge<CapEdge>>, k: int, i: int, ed: Edge<CapEdge>, x: int)
    requires
        0 <= i < es.len(),
        0 <= k <= es.len(),
        ed.u == es[i].u,
        ed.v == es[i].v,
    ensures
        balance(es.update(i, ed), k, x) == balance(es, k, x) + if i < k {
            (if ed.v.0 == x { ed.data.flow - es[i].data.flow } else { 0int }) - (if ed.u.0 == x {
                ed.data.flow - es[i].data.flow
            } else {
                0int
            })
        } else {
            0int
        },
    decreases k,
{
    if k > 0 {
        lemma_balance_update(es, k - 1, i, ed, x);
    }
}

/// With no flow on any edge every balance is zero.
pub proof fn lemma_balance_zero(es: Seq<Edge<CapEdge>>, k: int, x: int)
    requires
        0 <= k <= es.len(),
        forall|e: int| 0 <= e < es.len() ==> (#[trigger] es[e]).data.flow == 0,
    ensures
        balance(es, k, x) == 0,
    decreases k,
{
    if k > 0 {
        lemma_balance_zero(es, k - 1, x);
    }
}

/// Within the capacities, what enters `t` is at most what can enter it.
pub proof fn lemma_balance_le_cap(es: Seq<Edge<CapEdge>>, k: int, t: int)
    requires
        0 <= k <= es.len(),
        within_bounds(es),
    ensures
        balance(es, k, t) <= cap_into(es, k, t),
    decreases k,
{
    if k > 0 {
        lemma_balance_le_cap(es, k - 1, t);
        assert(0 <= es[k - 1].data.flow <= es[k - 1].data.upper);
    }
}

/// What can enter a node depends on the ends and capacities of the edges only.
pub proof fn lemma_cap_into_same(a: Seq<Edge<CapEdge>>, b: Seq<Edge<CapEdge>>, k: int, t: int)
    requires
        same_shape(a, b),
        0 <= k <= a.len(),
    ensures
        cap_into(a, k, t) == cap_into(b, k, t),
    decreases k,
{
    if k > 0 {
        lemma_cap_into_same(a, b, k - 1, t);
        assert(a[k - 1].u == b[k - 1].u);
    }
}

} // verus!
