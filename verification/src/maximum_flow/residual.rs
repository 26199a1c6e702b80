//! The residual arcs of a flow, listed for a search.
use crate::graph::graph::Edge;
use crate::maximum_flow::bfs::{tree_ok, BfsTree};
use crate::maximum_flow::edge::CapEdge;
use crate::maximum_flow::flow::{res_arc, res_cap, residual_arcs};
use crate::shortest_path::walk::arcs_in;
use vstd::prelude::*;

verus! {

/// The residual arcs of a flow, each with the edge and direction it comes from.
pub struct Residual {
    pub arcs: Vec<(usize, usize, i64)>,
    pub info: Vec<(usize, bool)>,
}

/// Arc `i` of `r` is the residual arc of edge `info[i].0` in direction
/// `info[i].1`, and that arc can carry more flow.
pub open spec fn residual_ok(es: Seq<Edge<CapEdge>>, r: Residual) -> bool {
    &&& r.info@.len() == r.arcs@.len()
    &&& forall|i: int|
        0 <= i < r.arcs@.len() ==> {
            let (e, fwd) = #[trigger] r.info@[i];
            &&& e < es.len()
            &&& res_arc(es[e as int], fwd) == r.arcs@[i]
            &&& res_cap(es[e as int], fwd) > 0
        }
}

/// The residual arcs of the flow on `es`.
pub fn residual_of(es: &Vec<Edge<CapEdge>>) -> (r: Residual)
    ensures
        r.arcs@ == residual_arcs(es@, es@.len() as int),
        residual_ok(es@, r),
{
    let mut arcs: Vec<(usize, usize, i64)> = Vec::new();
    let mut info: Vec<(usize, bool)> = Vec::new();
    let mut k: usize = 0;
    while k < es.len()
        invariant
            k <= es@.len(),
            arcs@ == residual_arcs(es@, k as int),
            info@.len() == arcs@.len(),
            forall|i: int|
                0 <= i < arcs@.len() ==> {
                    let (e, fwd) = #[trigger] info@[i];
                    &&& e < es@.len()
                    &&& res_arc(es@[e as int], fwd) == arcs@[i]
                    &&& res_cap(es@[e as int], fwd) > 0
                },
        decreases es@.len() - k,
    {
        let ed = es[k];
        let ghost before = arcs@;
        if ed.data.flow < ed.data.upper {
            arcs.push((ed.u.0, ed.v.0, 0i64));
            info.push((k, true));
        }
        let ghost mid = arcs@;
        if ed.data.flow > 0 {
            arcs.push((ed.v.0, ed.u.0, 0i64));
            info.push((k, false));
        }
        proof {
            let e = es@[k as int];
            let f = if res_cap(e, true) > 0 { seq![res_arc(e, true)] } else { Seq::empty() };
            let b = if res_cap(e, false) > 0 { seq![res_arc(e, false)] } else { Seq::empty() };
            assert(mid =~= before + f);
            assert(arcs@ =~= before + f + b);
        }
        k = k + 1;
    }
    Residual { arcs, info }
}

/// The node `k` steps up the search tree from `v`.
pub open spec fn up(arcs: Seq<(usize, usize, i64)>, parent: Seq<usize>, v: int, k: nat) -> int
    decreases k,
{
    if k == 0 {
        v
    } else {
        arcs[parent[up(arcs, parent, v, (k - 1) as nat)] as int].0 as int
    }
}

/// Going up the tree from a reached node lowers the level one step at a time
/// and ends at the root.
pub proof fn lemma_up(arcs: Seq<(usize, usize, i64)>, n: int, s: int, t: BfsTree, v: int, k: nat)
    requires
        tree_ok(arcs, n, s, t),
        0 <= v < n,
        t.reached@[v],
        k <= t.level@[v],
        arcs_in(arcs, n),
    ensures
        0 <= up(arcs, t.parent@, v, k) < n,
        t.reached@[up(arcs, t.parent@, v, k)],
        t.level@[up(arcs, t.parent@, v, k)] == t.level@[v] - k,
        up(arcs, t.parent@, v, k) == s <==> k == t.level@[v],
    decreases k,
{
    if k > 0 {
        lemma_up(arcs, n, s, t, v, (k - 1) as nat);
        let w = up(arcs, t.parent@, v, (k - 1) as nat);
        assert(w != s);
        let e = t.parent@[w] as int;
        assert(arcs[e].0 < n);
    } else {
        if v != s {
            let e = t.parent@[v] as int;
            assert(t.level@[v] >= 1);
        }
    }
}

} // verus!
