//! Cuts of a capacitated graph: a flow can send no more than the edges
//! leaving a side that holds the source and not the sink can carry.
use crate::graph::graph::Edge;
use crate::maximum_flow::edge::CapEdge;
use crate::maximum_flow::flow::{balance, excess, is_flow, res_arc, res_cap, residual_arcs, same_shape, within_bounds};
use crate::shortest_path::walk::{is_walk, lemma_walk_push, reachable, walk_end};
use vstd::prelude::*;

verus! {

/// The capacity of the edges among the first `k` that leave the side
/// marked by `side`.
pub open spec fn cut_capacity(es: Seq<Edge<CapEdge>>, side: Seq<bool>, k: int) -> int
    decreases k,
{
    if k <= 0 {
        0
    } else {
        cut_capacity(es, side, k - 1) + if side[es[k - 1].u.0 as int] && !side[es[k - 1].v.0 as int] {
            es[k - 1].data.upper as int
        } else {
            0
        }
    }
}

/// The flow on the edges among the first `k` that leave the side.
pub open spec fn flow_out(es: Seq<Edge<CapEdge>>, side: Seq<bool>, k: int) -> int
    decreases k,
{
    if k <= 0 {
        0
    } else {
        flow_out(es, side, k - 1) + if side[es[k - 1].u.0 as int] && !side[es[k - 1].v.0 as int] {
            es[k - 1].data.flow as int
        } else {
            0
        }
    }
}

/// The flow on the edges among the first `k` that enter the side.
pub open spec fn flow_in(es: Seq<Edge<CapEdge>>, side: Seq<bool>, k: int) -> int
    decreases k,
{
    if k <= 0 {
        0
    } else {
        flow_in(es, side, k - 1) + if !side[es[k - 1].u.0 as int] && side[es[k - 1].v.0 as int] {
            es[k - 1].data.flow as int
        } else {
            0
        }
    }
}

/// The balances over the first `k` edges of the nodes below `j` on the side.
pub open spec fn side_balance(es: Seq<Edge<CapEdge>>, k: int, side: Seq<bool>, j: int) -> int
    decreases j,
{
    if j <= 0 {
        0
    } else {
        side_balance(es, k, side, j - 1) + if side[j - 1] {
            balance(es, k, j - 1)
        } else {
            0
        }
    }
}

/// Every edge joins two of the first `n` nodes.
pub open spec fn ends_below(es: Seq<Edge<CapEdge>>, n: int) -> bool {
    forall|e: int| 0 <= e < es.len() ==> (#[trigger] es[e]).u.0 < n && es[e].v.0 < n
}

/// Adding one edge to the balances of the side adds its flow if it enters
/// the side and takes it away if it leaves.
proof fn lemma_side_step(es: Seq<Edge<CapEdge>>, k: int, side: Seq<bool>, j: int)
    requires
        0 < k <= es.len(),
        0 <= j <= side.len(),
    ensures
        side_balance(es, k, side, j) == side_balance(es, k - 1, side, j) + (if es[k - 1].v.0 < j
            && side[es[k - 1].v.0 as int] {
            es[k - 1].data.flow as int
        } else {
            0
        }) - (if es[k - 1].u.0 < j && side[es[k - 1].u.0 as int] {
            es[k - 1].data.flow as int
        } else {
            0
        }),
    decreases j,
{
    if j > 0 {
        lemma_side_step(es, k, side, j - 1);
    }
}

/// The balances of the side add up to what enters it less what leaves it.
pub(crate) proof fn lemma_side_balance(es: Seq<Edge<CapEdge>>, k: int, side: Seq<bool>)
    requires
        0 <= k <= es.len(),
        ends_below(es, side.len() as int),
    ensures
        side_balance(es, k, side, side.len() as int) == flow_in(es, side, k) - flow_out(es, side, k),
    decreases k,
{
    if k == 0 {
        lemma_side_zero(es, side, side.len() as int);
    } else {
        lemma_side_balance(es, k - 1, side);
        lemma_side_step(es, k, side, side.len() as int);
    }
}

/// Over no edges every balance of the side is zero.
proof fn lemma_side_zero(es: Seq<Edge<CapEdge>>, side: Seq<bool>, j: int)
    ensures
        side_balance(es, 0, side, j) == 0,
    decreases j,
{
    if j > 0 {
        lemma_side_zero(es, side, j - 1);
    }
}

/// Where every node but `s` and `t` is balanced, the balances of the side
/// are those of `s` and `t` when they are on it.
proof fn lemma_side_ends(es: Seq<Edge<CapEdge>>, side: Seq<bool>, s: int, t: int, j: int)
    requires
        0 <= j <= side.len(),
        forall|x: int| x != s && x != t ==> #[trigger] excess(es, x) == 0,
        s != t,
    ensures
        side_balance(es, es.len() as int, side, j) == (if 0 <= s < j && side[s] {
            excess(es, s)
        } else {
            0
        }) + (if 0 <= t < j && side[t] {
            excess(es, t)
        } else {
            0
        }),
    decreases j,
{
    if j > 0 {
        lemma_side_ends(es, side, s, t, j - 1);
        let x = j - 1;
        if x != s && x != t {
            assert(excess(es, x) == 0);
        }
    }
}

/// Flows and capacities over the edges are at least zero, and what leaves
/// the side is at most its capacity.
pub(crate) proof fn lemma_cut_bounds(es: Seq<Edge<CapEdge>>, side: Seq<bool>, k: int)
    requires
        0 <= k <= es.len(),
        within_bounds(es),
    ensures
        0 <= flow_in(es, side, k),
        flow_out(es, side, k) <= cut_capacity(es, side, k),
    decreases k,
{
    if k > 0 {
        lemma_cut_bounds(es, side, k - 1);
        assert(0 <= es[k - 1].data.flow <= es[k - 1].data.upper);
    }
}

/// What a flow from `s` brings to `t` is what leaves any side holding `s`
/// and not `t` less what enters it, so at most the capacity of that cut.
pub proof fn lemma_flow_le_cut(es: Seq<Edge<CapEdge>>, s: int, t: int, side: Seq<bool>)
    requires
        is_flow(es, s, t),
        ends_below(es, side.len() as int),
        0 <= s < side.len(),
        0 <= t < side.len(),
        side[s],
        !side[t],
    ensures
        excess(es, t) == flow_out(es, side, es.len() as int) - flow_in(es, side, es.len() as int),
        excess(es, t) <= cut_capacity(es, side, es.len() as int),
{
    let m = es.len() as int;
    let n = side.len() as int;
    let all = Seq::new(side.len(), |x: int| true);
    lemma_side_balance(es, m, side);
    lemma_side_ends(es, side, s, t, n);
    lemma_side_balance(es, m, all);
    lemma_side_ends(es, all, s, t, n);
    lemma_no_crossing(es, all, m);
    lemma_cut_bounds(es, side, m);
}

/// Nothing crosses the side that holds every node.
pub(crate) proof fn lemma_no_crossing(es: Seq<Edge<CapEdge>>, all: Seq<bool>, k: int)
    requires
        0 <= k <= es.len(),
        ends_below(es, all.len() as int),
        forall|x: int| 0 <= x < all.len() ==> #[trigger] all[x],
    ensures
        flow_in(es, all, k) == 0,
        flow_out(es, all, k) == 0,
    decreases k,
{
    if k > 0 {
        lemma_no_crossing(es, all, k - 1);
        assert(all[es[k - 1].u.0 as int] && all[es[k - 1].v.0 as int]);
    }
}

/// An edge among the first `k` that can still move flow in direction
/// `fwd` has its residual arc among those of the first `k`.
pub(crate) proof fn lemma_residual_has(es: Seq<Edge<CapEdge>>, k: int, e: int, fwd: bool)
    requires
        0 <= e < k <= es.len(),
        res_cap(es[e], fwd) > 0,
    ensures
        exists|j: int|
            0 <= j < residual_arcs(es, k).len() && #[trigger] residual_arcs(es, k)[j] == res_arc(es[e], fwd),
    decreases k,
{
    let x = es[k - 1];
    let pr = residual_arcs(es, k - 1);
    let f = if res_cap(x, true) > 0 { seq![res_arc(x, true)] } else { Seq::empty() };
    let b = if res_cap(x, false) > 0 { seq![res_arc(x, false)] } else { Seq::empty() };
    let r = residual_arcs(es, k);
    assert(r == pr + f + b);
    if e < k - 1 {
        lemma_residual_has(es, k - 1, e, fwd);
        let j = choose|j: int| 0 <= j < pr.len() && #[trigger] pr[j] == res_arc(es[e], fwd);
        assert(r[j] == pr[j]);
    } else if fwd {
        assert(r[pr.len() as int] == res_arc(x, true));
    } else {
        assert(r[(pr.len() + f.len()) as int] == res_arc(x, false));
    }
}

/// Cuts of two edge lists of the same shape have the same capacity.
pub(crate) proof fn lemma_cut_same(a: Seq<Edge<CapEdge>>, b: Seq<Edge<CapEdge>>, side: Seq<bool>, k: int)
    requires
        same_shape(a, b),
        0 <= k <= a.len(),
    ensures
        cut_capacity(a, side, k) == cut_capacity(b, side, k),
    decreases k,
{
    if k > 0 {
        lemma_cut_same(a, b, side, k - 1);
        assert(a[k - 1].u == b[k - 1].u);
    }
}

/// Edges leaving the side are full and edges entering it are empty: what
/// leaves is the capacity and nothing enters.
proof fn lemma_tight_cut(es: Seq<Edge<CapEdge>>, side: Seq<bool>, k: int)
    requires
        0 <= k <= es.len(),
        forall|e: int|
            0 <= e < k && side[(#[trigger] es[e]).u.0 as int] && !side[es[e].v.0 as int] ==> es[e].data.flow
                == es[e].data.upper,
        forall|e: int|
            0 <= e < k && !side[(#[trigger] es[e]).u.0 as int] && side[es[e].v.0 as int] ==> es[e].data.flow == 0,
    ensures
        flow_out(es, side, k) == cut_capacity(es, side, k),
        flow_in(es, side, k) == 0,
    decreases k,
{
    if k > 0 {
        lemma_tight_cut(es, side, k - 1);
    }
}

/// A flow from `s` to `t` with no residual path from `s` to `t` is a
/// maximum flow: no other flow over the same edges brings `t` more.
pub proof fn lemma_max_flow(es: Seq<Edge<CapEdge>>, other: Seq<Edge<CapEdge>>, n: int, s: int, t: int)
    requires
        is_flow(es, s, t),
        is_flow(other, s, t),
        same_shape(es, other),
        ends_below(es, n),
        0 <= s < n,
        0 <= t < n,
        !reachable(residual_arcs(es, es.len() as int), s, t),
    ensures
        excess(other, t) <= excess(es, t),
{
    let m = es.len() as int;
    let r = residual_arcs(es, m);
    let side = Seq::new(n as nat, |v: int| reachable(r, s, v));
    assert(is_walk(r, s, Seq::<int>::empty()) && walk_end(r, s, Seq::<int>::empty()) == s);
    assert(side[s]);
    assert forall|e: int|
        0 <= e < m && side[(#[trigger] es[e]).u.0 as int] && !side[es[e].v.0 as int] implies es[e].data.flow
            == es[e].data.upper by {
        if es[e].data.flow < es[e].data.upper {
            lemma_residual_has(es, m, e, true);
            let j = choose|j: int| 0 <= j < r.len() && #[trigger] r[j] == res_arc(es[e], true);
            let p = choose|p: Seq<int>| is_walk(r, s, p) && walk_end(r, s, p) == es[e].u.0 as int;
            lemma_walk_push(r, s, p, j);
            assert(reachable(r, s, es[e].v.0 as int));
        }
    }
    assert forall|e: int|
        0 <= e < m && !side[(#[trigger] es[e]).u.0 as int] && side[es[e].v.0 as int] implies es[e].data.flow == 0 by {
        if es[e].data.flow > 0 {
            lemma_residual_has(es, m, e, false);
            let j = choose|j: int| 0 <= j < r.len() && #[trigger] r[j] == res_arc(es[e], false);
            let p = choose|p: Seq<int>| is_walk(r, s, p) && walk_end(r, s, p) == es[e].v.0 as int;
            lemma_walk_push(r, s, p, j);
            assert(reachable(r, s, es[e].u.0 as int));
        }
    }
    lemma_tight_cut(es, side, m);
    lemma_flow_le_cut(es, s, t, side);
    assert forall|e: int| 0 <= e < other.len() implies (#[trigger] other[e]).u.0 < n && other[e].v.0 < n by {
        assert(es[e].u == other[e].u && es[e].v == other[e].v);
    }
    lemma_flow_le_cut(other, s, t, side);
    lemma_cut_same(es, other, side, m);
}

} // verus!
