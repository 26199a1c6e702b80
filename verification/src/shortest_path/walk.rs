//! Walks in a list of weighted arcs `(from, to, weight)` and the shortest
//! walk lengths that the solvers compute.
use vstd::prelude::*;

verus! {

/// The node where the walk `p` (a list of arc indices) that starts at `s` ends.
pub open spec fn walk_end(es: Seq<(usize, usize, i64)>, s: int, p: Seq<int>) -> int {
    if p.len() == 0 {
        s
    } else {
        es[p.last()].1 as int
    }
}

/// `p` is a walk from `s`: each arc starts where the previous one ended.
pub open spec fn is_walk(es: Seq<(usize, usize, i64)>, s: int, p: Seq<int>) -> bool
    decreases p.len(),
{
    if p.len() == 0 {
        true
    } else {
        &&& is_walk(es, s, p.drop_last())
        &&& 0 <= p.last() < es.len()
        &&& es[p.last()].0 as int == walk_end(es, s, p.drop_last())
    }
}

/// The total weight of the arcs of `p`.
pub open spec fn walk_len(es: Seq<(usize, usize, i64)>, p: Seq<int>) -> int
    decreases p.len(),
{
    if p.len() == 0 {
        0
    } else {
        walk_len(es, p.drop_last()) + es[p.last()].2
    }
}

/// Some walk leads from `s` to `v`.
pub open spec fn reachable(es: Seq<(usize, usize, i64)>, s: int, v: int) -> bool {
    exists|p: Seq<int>| is_walk(es, s, p) && walk_end(es, s, p) == v
}

/// `d` is the length of a walk from `s` to `v` and no walk from `s` to `v` is shorter.
pub open spec fn is_shortest(es: Seq<(usize, usize, i64)>, s: int, v: int, d: int) -> bool {
    &&& exists|p: Seq<int>| #[trigger] is_walk(es, s, p) && walk_end(es, s, p) == v && walk_len(es, p) == d
    &&& forall|p: Seq<int>| #[trigger] is_walk(es, s, p) && walk_end(es, s, p) == v ==> d <= walk_len(es, p)
}

/// `dist[v]` is the shortest walk length from `s` to `v` when some walk
/// reaches `v`, and `None` when none does.
pub open spec fn shortest_distances(es: Seq<(usize, usize, i64)>, s: int, dist: Seq<Option<i64>>) -> bool {
    forall|v: int|
        0 <= v < dist.len() ==> match #[trigger] dist[v] {
            Some(d) => is_shortest(es, s, v, d as int),
            None => !reachable(es, s, v),
        }
}

/// No arc can shorten a known distance.
pub open spec fn relaxed(es: Seq<(usize, usize, i64)>, dist: Seq<Option<i64>>) -> bool {
    forall|e: int|
        0 <= e < es.len() && (#[trigger] dist[es[e].0 as int]) is Some ==> {
            &&& dist[es[e].1 as int] is Some
            &&& dist[es[e].1 as int]->0 <= dist[es[e].0 as int]->0 + es[e].2
        }
}

/// Every known distance is the length of a walk from `s`.
pub open spec fn witnessed(es: Seq<(usize, usize, i64)>, s: int, dist: Seq<Option<i64>>) -> bool {
    forall|v: int|
        0 <= v < dist.len() && (#[trigger] dist[v]) is Some ==> exists|p: Seq<int>|
            #[trigger] is_walk(es, s, p) && walk_end(es, s, p) == v && walk_len(es, p) == dist[v]->0
}

/// Every arc joins two of the `n` nodes.
pub open spec fn arcs_in(es: Seq<(usize, usize, i64)>, n: int) -> bool {
    forall|e: int| 0 <= e < es.len() ==> (#[trigger] es[e]).0 < n && es[e].1 < n
}

/// Along a walk, a relaxed distance grows by at most the walk's length.
pub proof fn lemma_walk_bound(es: Seq<(usize, usize, i64)>, s: int, dist: Seq<Option<i64>>, p: Seq<int>)
    requires
        relaxed(es, dist),
        arcs_in(es, dist.len() as int),
        0 <= s < dist.len(),
        dist[s] is Some,
        is_walk(es, s, p),
    ensures
        dist[walk_end(es, s, p)] is Some,
        dist[walk_end(es, s, p)]->0 <= dist[s]->0 + walk_len(es, p),
    decreases p.len(),
{
    if p.len() > 0 {
        let q = p.drop_last();
        lemma_walk_bound(es, s, dist, q);
        let e = p.last();
        assert(dist[es[e].0 as int] is Some);
    }
}

/// Known distances that are witnessed by walks and that no arc can shorten,
/// with the source at distance at most zero, are the shortest walk lengths.
pub proof fn lemma_relaxed_is_shortest(es: Seq<(usize, usize, i64)>, s: int, dist: Seq<Option<i64>>)
    requires
        relaxed(es, dist),
        witnessed(es, s, dist),
        arcs_in(es, dist.len() as int),
        0 <= s < dist.len(),
        dist[s] is Some,
        dist[s]->0 <= 0,
    ensures
        shortest_distances(es, s, dist),
{
    assert forall|v: int| 0 <= v < dist.len() implies match #[trigger] dist[v] {
        Some(d) => is_shortest(es, s, v, d as int),
        None => !reachable(es, s, v),
    } by {
        match dist[v] {
            Some(d) => {
                assert forall|p: Seq<int>| #[trigger] is_walk(es, s, p) && walk_end(es, s, p) == v implies d
                    <= walk_len(es, p) by {
                    lemma_walk_bound(es, s, dist, p);
                }
            },
            None => {
                if reachable(es, s, v) {
                    let p = choose|p: Seq<int>| is_walk(es, s, p) && walk_end(es, s, p) == v;
                    lemma_walk_bound(es, s, dist, p);
                }
            },
        }
    }
}

/// The greatest absolute weight of the first `k` arcs.
pub open spec fn max_abs_weight(es: Seq<(usize, usize, i64)>, k: int) -> int
    decreases k,
{
    if k <= 0 {
        0
    } else {
        let w = es[k - 1].2 as int;
        let a = if w < 0 { -w } else { w };
        let rest = max_abs_weight(es, k - 1);
        if a > rest { a } else { rest }
    }
}

pub proof fn lemma_max_abs_weight(es: Seq<(usize, usize, i64)>, k: int, e: int)
    requires
        0 <= e < k <= es.len(),
    ensures
        -max_abs_weight(es, k) <= es[e].2 <= max_abs_weight(es, k),
        max_abs_weight(es, k) >= 0,
    decreases k,
{
    if e < k - 1 {
        lemma_max_abs_weight(es, k - 1, e);
    } else if k > 1 {
        lemma_max_abs_weight(es, k - 1, 0);
    }
}

/// Extending a walk to `u` by an arc out of `u`.
pub proof fn lemma_walk_push(es: Seq<(usize, usize, i64)>, s: int, p: Seq<int>, e: int)
    requires
        is_walk(es, s, p),
        0 <= e < es.len(),
        es[e].0 as int == walk_end(es, s, p),
    ensures
        is_walk(es, s, p.push(e)),
        walk_end(es, s, p.push(e)) == es[e].1,
        walk_len(es, p.push(e)) == walk_len(es, p) + es[e].2,
{
    assert(p.push(e).drop_last() == p);
}

} // verus!
