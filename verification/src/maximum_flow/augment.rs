//! Pushing flow along the search tree path from the source to the sink.
use crate::graph::graph::Edge;
use crate::maximum_flow::bfs::{tree_ok, BfsTree};
use crate::maximum_flow::edge::CapEdge;
use crate::maximum_flow::flow::{balance, lemma_balance_update, res_cap, same_shape, within_bounds};
use crate::maximum_flow::residual::{lemma_up, residual_ok, up, Residual};
use crate::shortest_path::walk::arcs_in;
use vstd::prelude::*;

verus! {

/// What the residual arc `a` of `r` can carry under the flow `es`.
pub open spec fn arc_res(es: Seq<Edge<CapEdge>>, r: Residual, a: int) -> int {
    res_cap(es[r.info@[a].0 as int], r.info@[a].1)
}

/// The least of `cap` and what the arcs of the tree path from the root to `t` can carry.
fn bottleneck(
    es: &Vec<Edge<CapEdge>>,
    r: &Residual,
    tree: &BfsTree,
    n: usize,
    s: usize,
    t: usize,
    cap: i64,
) -> (delta: i64)
    requires
        residual_ok(es@, *r),
        within_bounds(es@),
        tree_ok(r.arcs@, n as int, s as int, *tree),
        arcs_in(r.arcs@, n as int),
        t < n,
        tree.reached@[t as int],
        cap >= 1,
    ensures
        1 <= delta <= cap,
        forall|j: nat|
            j < tree.level@[t as int] ==> delta <= arc_res(
                es@,
                *r,
                tree.parent@[#[trigger] up(r.arcs@, tree.parent@, t as int, j)] as int,
            ),
{
    let mut delta = cap;
    let mut cur = t;
    let ghost mut k: nat = 0;
    proof {
        lemma_up(r.arcs@, n as int, s as int, *tree, t as int, 0);
    }
    while cur != s
        invariant
            residual_ok(es@, *r),
            within_bounds(es@),
            tree_ok(r.arcs@, n as int, s as int, *tree),
            arcs_in(r.arcs@, n as int),
            t < n,
            tree.reached@[t as int],
            k <= tree.level@[t as int],
            cur == up(r.arcs@, tree.parent@, t as int, k),
            cur < n,
            tree.reached@[cur as int],
            tree.level@[cur as int] == tree.level@[t as int] - k,
            (cur == s) <==> (k == tree.level@[t as int]),
            1 <= delta <= cap,
            forall|j: nat|
                j < k ==> delta <= arc_res(
                    es@,
                    *r,
                    tree.parent@[#[trigger] up(r.arcs@, tree.parent@, t as int, j)] as int,
                ),
        decreases tree.level@[cur as int],
    {
        let a = tree.parent[cur];
        let (e, fwd) = r.info[a];
        let ed = es[e];
        proof {
            assert(0 <= es@[e as int].data.flow <= es@[e as int].data.upper);
        }
        let res = if fwd { ed.data.upper - ed.data.flow } else { ed.data.flow };
        if res < delta {
            delta = res;
        }
        cur = r.arcs[a].0;
        proof {
            k = k + 1;
            lemma_up(r.arcs@, n as int, s as int, *tree, t as int, k);
        }
    }
    delta
}

/// Pushes `delta` units along the tree path from `s` to `t`: the balance of
/// `t` grows by `delta`, that of `s` falls by `delta`, all others stay.
#[verifier::rlimit(80)]
#[verifier::spinoff_prover]
pub fn augment(
    es: &mut Vec<Edge<CapEdge>>,
    r: &Residual,
    tree: &BfsTree,
    n: usize,
    s: usize,
    t: usize,
    cap: i64,
) -> (delta: i64)
    requires
        residual_ok(old(es)@, *r),
        tree_ok(r.arcs@, n as int, s as int, *tree),
        arcs_in(r.arcs@, n as int),
        within_bounds(old(es)@),
        t < n,
        s != t,
        tree.reached@[t as int],
        cap >= 1,
    ensures
        1 <= delta <= cap,
        same_shape(old(es)@, final(es)@),
        within_bounds(final(es)@),
        forall|x: int|
            #[trigger] balance(final(es)@, final(es)@.len() as int, x) == balance(
                old(es)@,
                old(es)@.len() as int,
                x,
            ) + (if x == t { delta as int } else { 0int }) - (if x == s { delta as int } else { 0int }),
{
    let delta = bottleneck(es, r, tree, n, s, t, cap);
    let ghost orig = es@;
    let ghost m = es@.len() as int;
    let mut cur = t;
    let ghost mut k: nat = 0;
    proof {
        lemma_up(r.arcs@, n as int, s as int, *tree, t as int, 0);
    }
    while cur != s
        invariant
            residual_ok(orig, *r),
            tree_ok(r.arcs@, n as int, s as int, *tree),
            arcs_in(r.arcs@, n as int),
            t < n,
            s != t,
            tree.reached@[t as int],
            k <= tree.level@[t as int],
            cur == up(r.arcs@, tree.parent@, t as int, k),
            cur < n,
            tree.reached@[cur as int],
            tree.level@[cur as int] == tree.level@[t as int] - k,
            (cur == s) <==> (k == tree.level@[t as int]),
            1 <= delta <= cap,
            forall|j: nat|
                j < tree.level@[t as int] ==> delta <= arc_res(
                    orig,
                    *r,
                    tree.parent@[#[trigger] up(r.arcs@, tree.parent@, t as int, j)] as int,
                ),
            m == orig.len(),
            same_shape(orig, es@),
            within_bounds(es@),
            within_bounds(orig),
            forall|x: int|
                #[trigger] balance(es@, m, x) == balance(orig, m, x) + (if x == t { delta as int } else { 0int }) - (
                if x == cur {
                    delta as int
                } else {
                    0int
                }),
            forall|j: int|
                0 <= j < m && #[trigger] es@[j] != orig[j] ==> {
                    &&& tree.reached@[orig[j].u.0 as int]
                    &&& tree.reached@[orig[j].v.0 as int]
                    &&& tree.level@[orig[j].u.0 as int] >= tree.level@[cur as int]
                    &&& tree.level@[orig[j].v.0 as int] >= tree.level@[cur as int]
                },
        decreases tree.level@[cur as int],
    {
        let a = tree.parent[cur];
        let (e, fwd) = r.info[a];
        let p = r.arcs[a].0;
        proof {
            assert(delta <= arc_res(orig, *r, a as int));
            assert(orig[e as int].u.0 < n);
            assert(es@[e as int] == orig[e as int]);
        }
        let mut ed = es[e];
        if fwd {
            ed.data.flow = ed.data.flow + delta;
        } else {
            ed.data.flow = ed.data.flow - delta;
        }
        proof {
            assert forall|x: int| #[trigger]
                balance(es@.update(e as int, ed), m, x) == balance(orig, m, x) + (if x == t {
                    delta as int
                } else {
                    0int
                }) - (if x == p {
                    delta as int
                } else {
                    0int
                }) by {
                lemma_balance_update(es@, m, e as int, ed, x);
            }
        }
        es.set(e, ed);
        cur = p;
        proof {
            k = k + 1;
            lemma_up(r.arcs@, n as int, s as int, *tree, t as int, k);
        }
    }
    delta
}

} // verus!
