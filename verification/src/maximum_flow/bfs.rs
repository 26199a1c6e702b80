//! Breadth-first search over a list of arcs `(from, to, _)`.
use crate::shortest_path::relax::{count_true, lemma_count_false, lemma_count_true_set};
use crate::shortest_path::walk::{arcs_in, is_walk, lemma_walk_push, reachable, walk_end};
use vstd::prelude::*;

verus! {

/// The nodes a search reached, with the arc each was first reached by and
/// its number of arcs from the start.
pub struct BfsTree {
    pub reached: Vec<bool>,
    pub level: Vec<usize>,
    pub parent: Vec<usize>,
}

/// The search tree is sound: the start is at level 0, and every other
/// reached node hangs off a reached node one level closer by a real arc.
pub open spec fn tree_ok(es: Seq<(usize, usize, i64)>, n: int, s: int, t: BfsTree) -> bool {
    &&& t.reached@.len() == n
    &&& t.level@.len() == n
    &&& t.parent@.len() == n
    &&& t.reached@[s]
    &&& t.level@[s] == 0
    &&& forall|v: int| 0 <= v < n && #[trigger] t.reached@[v] ==> t.level@[v] < n
    &&& forall|v: int|
        0 <= v < n && v != s && #[trigger] t.reached@[v] ==> {
            let e = t.parent@[v] as int;
            &&& 0 <= e < es.len()
            &&& es[e].1 == v
            &&& t.reached@[es[e].0 as int]
            &&& t.level@[es[e].0 as int] + 1 == t.level@[v]
        }
}

/// A walk from `s` whose first node is in a set closed under the arcs stays in it.
pub(crate) proof fn lemma_closed_walk(es: Seq<(usize, usize, i64)>, s: int, inside: Seq<bool>, p: Seq<int>)
    requires
        arcs_in(es, inside.len() as int),
        0 <= s < inside.len(),
        inside[s],
        forall|e: int| 0 <= e < es.len() && #[trigger] inside[es[e].0 as int] ==> inside[es[e].1 as int],
        is_walk(es, s, p),
    ensures
        0 <= walk_end(es, s, p) < inside.len(),
        inside[walk_end(es, s, p)],
    decreases p.len(),
{
    if p.len() > 0 {
        lemma_closed_walk(es, s, inside, p.drop_last());
        let e = p.last();
        assert(inside[es[e].0 as int]);
    }
}

/// Breadth-first search from `s` over the arcs `es` of a graph of `n` nodes.
#[verifier::rlimit(60)]
#[verifier::spinoff_prover]
pub fn bfs(n: usize, es: &Vec<(usize, usize, i64)>, s: usize) -> (t: BfsTree)
    requires
        arcs_in(es@, n as int),
        s < n,
    ensures
        tree_ok(es@, n as int, s as int, t),
        forall|v: int| 0 <= v < n ==> #[trigger] t.reached@[v] == reachable(es@, s as int, v),
{
    let m = es.len();
    let mut reached: Vec<bool> = vec![false; n];
    let mut level: Vec<usize> = vec![0usize; n];
    let mut parent: Vec<usize> = vec![0usize; n];
    let mut queue: Vec<usize> = Vec::new();
    proof {
        lemma_count_false(reached@, n as int);
        lemma_count_true_set(reached@, n as int, s as int);
        assert(is_walk(es@, s as int, Seq::<int>::empty()));
        assert(walk_end(es@, s as int, Seq::<int>::empty()) == s);
    }
    reached.set(s, true);
    queue.push(s);
    let ghost mut pos: Seq<int> = Seq::new(n as nat, |i: int| 0int);
    let mut head: usize = 0;
    while head < queue.len()
        invariant
            m == es@.len(),
            arcs_in(es@, n as int),
            s < n,
            reached@.len() == n,
            level@.len() == n,
            parent@.len() == n,
            pos.len() == n,
            head <= queue@.len(),
            queue@.len() == count_true(reached@, n as int),
            count_true(reached@, n as int) <= n,
            queue@[0] == s,
            reached@[s as int],
            level@[s as int] == 0,
            forall|i: int| 0 <= i < queue@.len() ==> #[trigger] queue@[i] < n && reached@[queue@[i] as int] && pos[queue@[i] as int] == i,
            forall|v: int|
                0 <= v < n && #[trigger] reached@[v] ==> 0 <= pos[v] < queue@.len() && queue@[pos[v]] == v
                    && level@[v] <= pos[v],
            forall|v: int| 0 <= v < n && #[trigger] reached@[v] ==> reachable(es@, s as int, v),
            forall|v: int|
                0 <= v < n && v != s && #[trigger] reached@[v] ==> {
                    let e = parent@[v] as int;
                    &&& 0 <= e < m
                    &&& es@[e].1 == v
                    &&& reached@[es@[e].0 as int]
                    &&& level@[es@[e].0 as int] + 1 == level@[v]
                },
            forall|e: int|
                0 <= e < m && #[trigger] reached@[es@[e].0 as int] && pos[es@[e].0 as int] < head
                    ==> reached@[es@[e].1 as int],
        decreases n - head,
    {
        let u = queue[head];
        proof {
            assert(reached@[u as int]);
            assert(pos[u as int] == head);
        }
        let mut e: usize = 0;
        while e < m
            invariant
                m == es@.len(),
                arcs_in(es@, n as int),
                s < n,
                u < n,
                reached@[u as int],
                pos[u as int] == head,
                reached@.len() == n,
                level@.len() == n,
                parent@.len() == n,
                pos.len() == n,
                head < queue@.len(),
                e <= m,
                queue@.len() == count_true(reached@, n as int),
                count_true(reached@, n as int) <= n,
                queue@[0] == s,
                reached@[s as int],
                level@[s as int] == 0,
                forall|i: int| 0 <= i < queue@.len() ==> #[trigger] queue@[i] < n && reached@[queue@[i] as int] && pos[queue@[i] as int] == i,
                forall|v: int|
                    0 <= v < n && #[trigger] reached@[v] ==> 0 <= pos[v] < queue@.len() && queue@[pos[v]] == v
                        && level@[v] <= pos[v],
                forall|v: int| 0 <= v < n && #[trigger] reached@[v] ==> reachable(es@, s as int, v),
                forall|v: int|
                    0 <= v < n && v != s && #[trigger] reached@[v] ==> {
                        let a = parent@[v] as int;
                        &&& 0 <= a < m
                        &&& es@[a].1 == v
                        &&& reached@[es@[a].0 as int]
                        &&& level@[es@[a].0 as int] + 1 == level@[v]
                    },
                forall|a: int|
                    0 <= a < m && #[trigger] reached@[es@[a].0 as int] && pos[es@[a].0 as int] < head
                        ==> reached@[es@[a].1 as int],
                forall|a: int| 0 <= a < e && es@[a].0 == u ==> #[trigger] reached@[es@[a].1 as int],
            decreases m - e,
        {
            let (a, b, _w) = es[e];
            if a == u && !reached[b] {
                proof {
                    lemma_count_true_set(reached@, n as int, b as int);
                    let p = choose|p: Seq<int>| is_walk(es@, s as int, p) && walk_end(es@, s as int, p) == u;
                    lemma_walk_push(es@, s as int, p, e as int);
                }
                let lu = level[u];
                reached.set(b, true);
                level.set(b, lu + 1);
                parent.set(b, e);
                proof {
                    pos = pos.update(b as int, queue@.len() as int);
                    crate::shortest_path::relax::lemma_count_true_le(reached@, n as int);
                }
                queue.push(b);
            }
            e = e + 1;
        }
        head = head + 1;
    }
    proof {
        assert forall|a: int| 0 <= a < m && #[trigger] reached@[es@[a].0 as int] implies reached@[es@[a].1 as int] by {
            assert(pos[es@[a].0 as int] < head);
        }
        assert forall|v: int| 0 <= v < n implies #[trigger] reached@[v] == reachable(es@, s as int, v) by {
            if reachable(es@, s as int, v) {
                let p = choose|p: Seq<int>| is_walk(es@, s as int, p) && walk_end(es@, s as int, p) == v;
                lemma_closed_walk(es@, s as int, reached@, p);
            }
        }
    }
    BfsTree { reached, level, parent }
}

} // verus!
