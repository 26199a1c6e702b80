//! Walks in a residual network along the arcs that can carry flow, and how
//! they match walks over a list of those arcs.
use crate::minimum_cost_flow::optimality::arc_reduced;
use crate::minimum_cost_flow::residual_network::ResidualNetwork;
use crate::shortest_path::walk::{is_shortest, is_walk, reachable, walk_end, walk_len};
use vstd::prelude::*;

verus! {

/// Where the walk of arc positions `q` from `s` ends.
pub open spec fn residual_end(rn: ResidualNetwork, s: int, q: Seq<int>) -> int {
    if q.len() == 0 {
        s
    } else {
        rn.to@[q.last()].0 as int
    }
}

/// `q` is a walk from `s` in `rn`: each arc leaves the node where the walk
/// stands and can carry flow; with `zero`, each has reduced cost zero too.
pub open spec fn residual_walk(rn: ResidualNetwork, s: int, q: Seq<int>, zero: bool) -> bool
    decreases q.len(),
{
    if q.len() == 0 {
        true
    } else {
        let u = residual_end(rn, s, q.drop_last());
        let a = q.last();
        &&& residual_walk(rn, s, q.drop_last(), zero)
        &&& 0 <= u < rn.num_nodes
        &&& rn.start@[u] <= a < rn.start@[u + 1]
        &&& rn.residual_capacity@[a] > 0
        &&& zero ==> arc_reduced(rn, u, a) == 0
    }
}

/// The sum of the reduced costs of the arcs of the walk `q` from `s`.
pub open spec fn residual_len(rn: ResidualNetwork, s: int, q: Seq<int>) -> int
    decreases q.len(),
{
    if q.len() == 0 {
        0
    } else {
        residual_len(rn, s, q.drop_last()) + arc_reduced(rn, residual_end(rn, s, q.drop_last()), q.last())
    }
}

/// Some walk in `rn` leads from `s` to `v` (with `zero`, over arcs of
/// reduced cost zero).
pub open spec fn residual_reachable(rn: ResidualNetwork, s: int, v: int, zero: bool) -> bool {
    exists|q: Seq<int>| #[trigger] residual_walk(rn, s, q, zero) && residual_end(rn, s, q) == v
}

/// `d` is the reduced cost of a walk in `rn` from `s` to `v`, and no such
/// walk costs less.
pub open spec fn residual_shortest(rn: ResidualNetwork, s: int, v: int, d: int) -> bool {
    &&& exists|q: Seq<int>|
        #[trigger] residual_walk(rn, s, q, false) && residual_end(rn, s, q) == v && residual_len(rn, s, q) == d
    &&& forall|q: Seq<int>|
        #[trigger] residual_walk(rn, s, q, false) && residual_end(rn, s, q) == v ==> d <= residual_len(rn, s, q)
}

/// Each entry of `es` is an arc of `rn` that can carry flow, at the position
/// `info` gives, weighted by its reduced cost (zero, with `zero`).
pub open spec fn listed_faithfully(
    rn: ResidualNetwork,
    es: Seq<(usize, usize, i64)>,
    info: Seq<usize>,
    zero: bool,
) -> bool {
    &&& info.len() == es.len()
    &&& forall|i: int|
        0 <= i < es.len() ==> {
            let t = (#[trigger] es[i]).0 as int;
            let a = info[i] as int;
            &&& 0 <= t < rn.num_nodes
            &&& rn.start@[t] <= a < rn.start@[t + 1]
            &&& rn.to@[a].0 == es[i].1
            &&& rn.residual_capacity@[a] > 0
            &&& es[i].2 == arc_reduced(rn, t, a)
            &&& zero ==> es[i].2 == 0
        }
}

/// Every arc of `rn` that can carry flow (at reduced cost zero, with
/// `zero`) is an entry of `es`.
pub open spec fn listed_completely(
    rn: ResidualNetwork,
    es: Seq<(usize, usize, i64)>,
    info: Seq<usize>,
    zero: bool,
) -> bool {
    forall|u: int, a: int|
        0 <= u < rn.num_nodes && rn.start@[u] <= a < rn.start@[u + 1] && #[trigger] rn.residual_capacity@[a] > 0
            && #[trigger] rn.start@[u] <= a && (zero ==> arc_reduced(rn, u, a) == 0) ==> exists|i: int|
            0 <= i < es.len() && info[i] == a && #[trigger] es[i].0 == u
}

/// A walk over the entries of `es` is a walk in `rn` over the arcs they
/// stand for, with the same end and the same length.
pub proof fn lemma_walk_to_residual(
    rn: ResidualNetwork,
    es: Seq<(usize, usize, i64)>,
    info: Seq<usize>,
    zero: bool,
    s: int,
    p: Seq<int>,
)
    requires
        listed_faithfully(rn, es, info, zero),
        is_walk(es, s, p),
    ensures
        residual_walk(rn, s, p.map_values(|e: int| info[e] as int), zero),
        residual_end(rn, s, p.map_values(|e: int| info[e] as int)) == walk_end(es, s, p),
        residual_len(rn, s, p.map_values(|e: int| info[e] as int)) == walk_len(es, p),
    decreases p.len(),
{
    let q = p.map_values(|e: int| info[e] as int);
    if p.len() > 0 {
        let p0 = p.drop_last();
        lemma_walk_to_residual(rn, es, info, zero, s, p0);
        let q0 = p0.map_values(|e: int| info[e] as int);
        assert(q.drop_last() =~= q0);
        let e = p.last();
        assert(es[e] == es[e]);
    }
}

/// A walk in `rn` over arcs that `es` lists is a walk over the entries of
/// `es`, with the same end and the same length.
pub proof fn lemma_residual_to_walk(
    rn: ResidualNetwork,
    es: Seq<(usize, usize, i64)>,
    info: Seq<usize>,
    zero: bool,
    s: int,
    q: Seq<int>,
) -> (p: Seq<int>)
    requires
        listed_faithfully(rn, es, info, zero),
        listed_completely(rn, es, info, zero),
        residual_walk(rn, s, q, zero),
    ensures
        is_walk(es, s, p),
        walk_end(es, s, p) == residual_end(rn, s, q),
        walk_len(es, p) == residual_len(rn, s, q),
    decreases q.len(),
{
    if q.len() == 0 {
        Seq::empty()
    } else {
        let q0 = q.drop_last();
        let p0 = lemma_residual_to_walk(rn, es, info, zero, s, q0);
        let u = residual_end(rn, s, q0);
        let a = q.last();
        assert(rn.start@[u] <= a);
        let i = choose|i: int| 0 <= i < es.len() && info[i] == a && #[trigger] es[i].0 == u;
        let p = p0.push(i);
        assert(p.drop_last() =~= p0);
        p
    }
}

/// Over a faithful and complete list, a node is reachable through the
/// list exactly when it is reachable in `rn`.
pub proof fn lemma_reachable_same(
    rn: ResidualNetwork,
    es: Seq<(usize, usize, i64)>,
    info: Seq<usize>,
    zero: bool,
    s: int,
    v: int,
)
    requires
        listed_faithfully(rn, es, info, zero),
        listed_completely(rn, es, info, zero),
    ensures
        reachable(es, s, v) == residual_reachable(rn, s, v, zero),
{
    if reachable(es, s, v) {
        let p = choose|p: Seq<int>| is_walk(es, s, p) && walk_end(es, s, p) == v;
        lemma_walk_to_residual(rn, es, info, zero, s, p);
        let q = p.map_values(|e: int| info[e] as int);
        assert(residual_walk(rn, s, q, zero) && residual_end(rn, s, q) == v);
    }
    if residual_reachable(rn, s, v, zero) {
        let q = choose|q: Seq<int>| #[trigger] residual_walk(rn, s, q, zero) && residual_end(rn, s, q) == v;
        let p = lemma_residual_to_walk(rn, es, info, zero, s, q);
        assert(is_walk(es, s, p) && walk_end(es, s, p) == v);
    }
}

/// Over a faithful and complete list, a shortest distance through the
/// list is a shortest distance in `rn`, and back.
pub proof fn lemma_shortest_same(
    rn: ResidualNetwork,
    es: Seq<(usize, usize, i64)>,
    info: Seq<usize>,
    s: int,
    v: int,
    d: int,
)
    requires
        listed_faithfully(rn, es, info, false),
        listed_completely(rn, es, info, false),
    ensures
        is_shortest(es, s, v, d) == residual_shortest(rn, s, v, d),
{
    if is_shortest(es, s, v, d) {
        let p = choose|p: Seq<int>| #[trigger] is_walk(es, s, p) && walk_end(es, s, p) == v && walk_len(es, p) == d;
        lemma_walk_to_residual(rn, es, info, false, s, p);
        let q = p.map_values(|e: int| info[e] as int);
        assert(residual_walk(rn, s, q, false) && residual_end(rn, s, q) == v && residual_len(rn, s, q) == d);
        assert forall|q2: Seq<int>| #[trigger] residual_walk(rn, s, q2, false) && residual_end(rn, s, q2) == v implies d
            <= residual_len(rn, s, q2) by {
            let p2 = lemma_residual_to_walk(rn, es, info, false, s, q2);
            assert(is_walk(es, s, p2));
        }
    }
    if residual_shortest(rn, s, v, d) {
        let q = choose|q: Seq<int>|
            #[trigger] residual_walk(rn, s, q, false) && residual_end(rn, s, q) == v && residual_len(rn, s, q) == d;
        let p = lemma_residual_to_walk(rn, es, info, false, s, q);
        assert(is_walk(es, s, p) && walk_end(es, s, p) == v && walk_len(es, p) == d);
        assert forall|p2: Seq<int>| #[trigger] is_walk(es, s, p2) && walk_end(es, s, p2) == v implies d <= walk_len(
            es,
            p2,
        ) by {
            lemma_walk_to_residual(rn, es, info, false, s, p2);
            let q2 = p2.map_values(|e: int| info[e] as int);
            assert(residual_walk(rn, s, q2, false));
        }
    }
}

} // verus!
