use crate::data_structures::forest::{
    lemma_link, lemma_root_fuel, lemma_total_all_ones, lemma_total_two, lemma_total_update, ranked,
    root_fuel, wf_parent,
};
use vstd::prelude::*;

verus! {

/// A union-find structure whose unions can be taken back in reverse order.
pub struct RollbackUnionFind {
    parent: Vec<isize>,
    history: Vec<(usize, isize)>,
    h: Ghost<Seq<nat>>,
    hmax: Ghost<nat>,
}

/// The parent array before the union that `e` records was made.
pub open spec fn undo(parent: Seq<isize>, e: (usize, isize)) -> Seq<isize> {
    let p = parent[e.0 as int] as int;
    parent.update(p, (parent[p] - e.1) as isize).update(e.0 as int, e.1)
}

/// Every recorded union can be undone, newest first, back to a valid forest.
pub open spec fn history_ok(parent: Seq<isize>, history: Seq<(usize, isize)>) -> bool
    decreases history.len(),
{
    if history.len() == 0 {
        true
    } else {
        let e = history.last();
        let p = parent[e.0 as int];
        &&& e.0 < parent.len()
        &&& 0 <= p < parent.len()
        &&& p != e.0
        &&& e.1 < 0
        &&& parent[p as int] - e.1 < 0
        &&& wf_parent(undo(parent, e))
        &&& history_ok(undo(parent, e), history.drop_last())
    }
}

/// The state reached by undoing the unions recorded after time `t`.
pub open spec fn rollback_view(view: (Seq<isize>, Seq<(usize, isize)>), t: int) -> (Seq<isize>, Seq<(usize, isize)>)
    decreases view.1.len(),
{
    if view.1.len() <= t || view.1.len() == 0 {
        view
    } else {
        rollback_view((undo(view.0, view.1.last()), view.1.drop_last()), t)
    }
}

/// `w` is `v` after unions recorded on top of its history: undoing the
/// unions of `w` newer than those of `v` gives `v` back.
pub open spec fn unions_since(v: (Seq<isize>, Seq<(usize, isize)>), w: (Seq<isize>, Seq<(usize, isize)>)) -> bool
    decreases w.1.len(),
{
    if w.1.len() <= v.1.len() {
        w == v
    } else {
        unions_since(v, (undo(w.0, w.1.last()), w.1.drop_last()))
    }
}

/// The state after joining the tree of root `y` under root `x`.
pub open spec fn union_view(view: (Seq<isize>, Seq<(usize, isize)>), x: int, y: int) -> (Seq<isize>, Seq<(usize, isize)>) {
    let parent = view.0;
    (
        parent.update(x, (parent[x] + parent[y]) as isize).update(y, x as isize),
        view.1.push((y as usize, parent[y])),
    )
}

impl View for RollbackUnionFind {
    type V = (Seq<isize>, Seq<(usize, isize)>);

    /// The parent array and the recorded unions, oldest first.
    closed spec fn view(&self) -> (Seq<isize>, Seq<(usize, isize)>) {
        (self.parent@, self.history@)
    }
}

impl RollbackUnionFind {
    pub closed spec fn wf(&self) -> bool {
        &&& wf_parent(self.parent@)
        &&& ranked(self.parent@, self.h@, self.hmax@)
        &&& history_ok(self.parent@, self.history@)
    }

    /// The number of nodes.
    pub open spec fn num_nodes(&self) -> nat {
        self@.0.len()
    }

    /// The representative of the set that holds `v`.
    pub closed spec fn root(&self, v: int) -> int {
        root_fuel(self.parent@, v, self.hmax@ + 1)
    }

    /// The representative of `v` is a node whose entry is negative: `v`
    /// itself when its entry is negative, else the representative of its
    /// parent.
    pub proof fn lemma_root(&self, v: int)
        requires
            self.wf(),
            0 <= v < self.num_nodes(),
        ensures
            0 <= self.root(v) < self.num_nodes(),
            self@.0[self.root(v)] < 0,
            self@.0[v] < 0 ==> self.root(v) == v,
            self@.0[v] >= 0 ==> self.root(v) == self.root(self@.0[v] as int),
    {
        lemma_root_fuel(self.parent@, self.h@, self.hmax@, v, (self.hmax@ + 1) as nat, (self.hmax@ + 1) as nat);
        if self.parent@[v] >= 0 {
            let p = self.parent@[v] as int;
            lemma_root_fuel(self.parent@, self.h@, self.hmax@, p, self.hmax@, (self.hmax@ + 1) as nat);
        }
    }

    /// Two structures with the same parent array have the same representatives.
    pub proof fn lemma_same_roots(&self, other: &Self, v: int)
        requires
            self.wf(),
            other.wf(),
            self@.0 == other@.0,
            0 <= v < self.num_nodes(),
        ensures
            self.root(v) == other.root(v),
    {
        self.lemma_same_roots_from(other, v);
    }

    proof fn lemma_same_roots_from(&self, other: &Self, v: int)
        requires
            self.wf(),
            other.wf(),
            self@.0 == other@.0,
            0 <= v < self.num_nodes(),
        ensures
            self.root(v) == other.root(v),
        decreases self.hmax@ - self.h@[v],
    {
        self.lemma_root(v);
        other.lemma_root(v);
        if self.parent@[v] >= 0 {
            let p = self.parent@[v] as int;
            assert(self.h@[v] < self.h@[p]);
            assert(self.h@[p] <= self.hmax@);
            self.lemma_same_roots_from(other, p);
        }
    }

    /// `num_nodes` singleton sets and no recorded union.
    pub fn new(num_nodes: usize) -> (uf: Self)
        requires
            num_nodes <= isize::MAX,
        ensures
            uf.wf(),
            uf@.0 == Seq::new(num_nodes as nat, |i: int| -1isize),
            uf@.1 == Seq::<(usize, isize)>::empty(),
    {
        let uf = Self {
            parent: vec![-1isize; num_nodes],
            history: Vec::new(),
            h: Ghost(Seq::new(num_nodes as nat, |i: int| 0nat)),
            hmax: Ghost(0nat),
        };
        proof {
            lemma_total_all_ones(uf.parent@, num_nodes as int);
        }
        assert(uf@.0 =~= Seq::new(num_nodes as nat, |i: int| -1isize));
        uf
    }

    /// The representative of the set that holds `v`.
    pub fn find(&self, v: usize) -> (r: usize)
        requires
            self.wf(),
            v < self.num_nodes(),
        ensures
            r == self.root(v as int),
            r < self.num_nodes(),
            self@.0[r as int] < 0,
    {
        let mut v = v;
        let ghost v0 = v;
        proof {
            self.lemma_root(v0 as int);
        }
        while self.parent[v] >= 0
            invariant
                self.wf(),
                v < self.num_nodes(),
                self.root(v as int) == self.root(v0 as int),
            decreases self.hmax@ - self.h@[v as int],
        {
            proof {
                self.lemma_root(v as int);
            }
            v = self.parent[v] as usize;
        }
        proof {
            self.lemma_root(v as int);
        }
        v
    }

    /// Whether `a` and `b` are in the same set.
    pub fn same(&self, a: usize, b: usize) -> (r: bool)
        requires
            self.wf(),
            a < self.num_nodes(),
            b < self.num_nodes(),
        ensures
            r == (self.root(a as int) == self.root(b as int)),
    {
        self.find(a) == self.find(b)
    }

    /// The number of recorded unions.
    pub fn time(&self) -> (t: usize)
        ensures
            t == self@.1.len(),
    {
        self.history.len()
    }

    /// Joins the sets of `a` and `b`; the set of `b` goes under the
    /// representative of `a`. Returns false, changing nothing, when they
    /// were one set already.
    pub fn union(&mut self, a: usize, b: usize) -> (merged: bool)
        requires
            old(self).wf(),
            a < old(self).num_nodes(),
            b < old(self).num_nodes(),
        ensures
            final(self).wf(),
            final(self).num_nodes() == old(self).num_nodes(),
            merged == (old(self).root(a as int) != old(self).root(b as int)),
            !merged ==> final(self)@ == old(self)@,
            unions_since(old(self)@, final(self)@),
            merged ==> final(self)@ == union_view(old(self)@, old(self).root(a as int), old(self).root(b as int)),
            forall|w: int|
                0 <= w < old(self).num_nodes() ==> #[trigger] final(self).root(w) == if old(self).root(w)
                    == old(self).root(b as int) {
                    old(self).root(a as int)
                } else {
                    old(self).root(w)
                },
    {
        let x = self.find(a);
        let y = self.find(b);
        proof {
            self.lemma_root(a as int);
            self.lemma_root(b as int);
        }
        if x == y {
            return false;
        }
        let ghost v0 = self@;
        let ghost old_parent = self.parent@;
        let ghost n = old_parent.len() as int;
        let px = self.parent[x];
        let py = self.parent[y];
        proof {
            lemma_total_two(old_parent, n, x as int, y as int);
        }
        self.history.push((y, py));
        self.parent.set(x, px + py);
        self.parent.set(y, x as isize);
        let ghost nh = self.h@.update(
            x as int,
            if self.h@[x as int] > self.h@[y as int] + 1 {
                self.h@[x as int]
            } else {
                (self.h@[y as int] + 1) as nat
            },
        );
        let ghost nmax = if self.hmax@ > self.h@[y as int] + 1 {
            self.hmax@
        } else {
            (self.h@[y as int] + 1) as nat
        };
        proof {
            let np = self.parent@;
            assert(np == old_parent.update(x as int, (px + py) as isize).update(y as int, x as isize));
            assert forall|w: int| 0 <= w < n implies #[trigger] root_fuel(np, w, nmax + 1) == if root_fuel(
                old_parent,
                w,
                old(self).hmax@ + 1,
            ) == y {
                x as int
            } else {
                root_fuel(old_parent, w, old(self).hmax@ + 1)
            } by {
                lemma_link(old_parent, old(self).h@, old(self).hmax@, x as int, y as int, (px + py) as isize, w);
            }
            lemma_link(old_parent, old(self).h@, old(self).hmax@, x as int, y as int, (px + py) as isize, 0);
            lemma_total_update(old_parent, n, x as int, (px + py) as isize);
            lemma_total_update(old_parent.update(x as int, (px + py) as isize), n, y as int, x as isize);
            assert(undo(np, (y, py)) =~= old_parent);
            assert(self.history@.drop_last() == old(self).history@);
            assert(self.history@.last() == (y, py));
            assert((undo(self@.0, self@.1.last()), self@.1.drop_last()) == v0);
            assert(unions_since(v0, v0));
            assert(unions_since(v0, self@));
            self.h@ = nh;
            self.hmax@ = nmax;
        }
        true
    }

    /// Undoes the unions made after time `t`, newest first.
    pub fn rollback(&mut self, t: usize)
        requires
            old(self).wf(),
        ensures
            final(self).wf(),
            final(self).num_nodes() == old(self).num_nodes(),
            final(self)@ == rollback_view(old(self)@, t as int),
    {
        while self.history.len() > t
            invariant
                self.wf(),
                self.num_nodes() == old(self).num_nodes(),
                rollback_view(self@, t as int) == rollback_view(old(self)@, t as int),
            decreases self.history.len(),
        {
            let ghost before = self@;
            let e = self.history.pop().unwrap();
            let (v, old_value) = e;
            let p = self.parent[v] as usize;
            let cur = self.parent[p];
            self.parent.set(p, cur - old_value);
            self.parent.set(v, old_value);
            proof {
                assert(self.parent@ =~= undo(before.0, e));
                assert(self.history@ == before.1.drop_last());
                assert(ranked(self.parent@, self.h@, self.hmax@)) by {
                    assert forall|i: int|
                        0 <= i < self.parent@.len() && #[trigger] self.parent@[i] >= 0 implies self.h@[i]
                        < self.h@[self.parent@[i] as int] by {
                        assert(i != v && i != p);
                        assert(before.0[i] == self.parent@[i]);
                    }
                }
            }
        }
    }
}

/// A union followed by a rollback to the time before it gives back the
/// state before the union.
pub proof fn lemma_rollback_undoes_union(view: (Seq<isize>, Seq<(usize, isize)>), x: int, y: int)
    requires
        0 <= x < view.0.len(),
        0 <= y < view.0.len(),
        x != y,
        view.0.len() <= isize::MAX,
        view.0[x] < 0,
        view.0[y] < 0,
        view.0[x] + view.0[y] >= isize::MIN,
    ensures
        rollback_view(union_view(view, x, y), view.1.len() as int) == view,
{
    let u = union_view(view, x, y);
    assert(u.1.last() == (y as usize, view.0[y]));
    assert(undo(u.0, u.1.last()) =~= view.0);
    assert(u.1.drop_last() =~= view.1);
    assert(rollback_view((view.0, view.1), view.1.len() as int) == view);
}

/// `v` is `v` after no union at all, and `w` holds at least the history of `v`.
pub proof fn lemma_unions_since_len(v: (Seq<isize>, Seq<(usize, isize)>), w: (Seq<isize>, Seq<(usize, isize)>))
    requires
        unions_since(v, w),
    ensures
        w.1.len() >= v.1.len(),
        unions_since(v, v),
{
}

/// Unions after unions are unions since the first state.
pub proof fn lemma_unions_since_trans(
    v: (Seq<isize>, Seq<(usize, isize)>),
    w: (Seq<isize>, Seq<(usize, isize)>),
    z: (Seq<isize>, Seq<(usize, isize)>),
)
    requires
        unions_since(v, w),
        unions_since(w, z),
    ensures
        unions_since(v, z),
    decreases z.1.len(),
{
    if z.1.len() > w.1.len() {
        let z2 = (undo(z.0, z.1.last()), z.1.drop_last());
        lemma_unions_since_len(w, z2);
        lemma_unions_since_trans(v, w, z2);
        lemma_unions_since_len(v, w);
    }
}

/// After any unions, rolling back to the time of an earlier state gives
/// that state back.
pub proof fn lemma_rollback_after_unions(v: (Seq<isize>, Seq<(usize, isize)>), w: (Seq<isize>, Seq<(usize, isize)>))
    requires
        unions_since(v, w),
    ensures
        rollback_view(w, v.1.len() as int) == v,
    decreases w.1.len(),
{
    if w.1.len() > v.1.len() {
        let w2 = (undo(w.0, w.1.last()), w.1.drop_last());
        lemma_rollback_after_unions(v, w2);
    }
}

} // verus!
