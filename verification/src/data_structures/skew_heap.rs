//! A max-heap of `(key, value)` pairs that melds in amortised logarithmic
//! time and adds a constant to every key at once.
use vstd::multiset::Multiset;
use vstd::prelude::*;

verus! {

broadcast use vstd::multiset::group_multiset_axioms;

/// Keys, and every key after pending additions, stay within this bound.
pub const KEY_BOUND: i64 = 0x1000_0000_0000_0000;

struct Node<V> {
    key: i64,
    val: V,
    left: Option<Box<Node<V>>>,
    right: Option<Box<Node<V>>>,
    /// An addition pending for every key of this subtree.
    lazy: i64,
}

/// The pairs of the tree `t` with their keys as they are after the pending
/// additions, `off` being what the ancestors of `t` still owe it.
spec fn content<V>(t: Option<Box<Node<V>>>, off: int) -> Multiset<(int, V)>
    decreases t,
{
    match t {
        None => Multiset::empty(),
        Some(n) => {
            let o = off + n.lazy;
            Multiset::singleton((n.key + o, n.val)).add(content(n.left, o)).add(content(n.right, o))
        },
    }
}

spec fn size<V>(t: Option<Box<Node<V>>>) -> nat
    decreases t,
{
    match t {
        None => 0,
        Some(n) => 1 + size(n.left) + size(n.right),
    }
}

/// Every key of `m` is at most `x`.
pub open spec fn bounded_by<V>(m: Multiset<(int, V)>, x: int) -> bool {
    forall|kv: (int, V)| m.count(kv) > 0 ==> kv.0 <= x
}

/// Every key of `m` is within the bound.
pub open spec fn keys_in_range<V>(m: Multiset<(int, V)>) -> bool {
    forall|kv: (int, V)| m.count(kv) > 0 ==> -KEY_BOUND <= kv.0 <= KEY_BOUND
}

/// Keys are in range, and no key below a node exceeds the node's key.
spec fn heap_ok<V>(t: Option<Box<Node<V>>>, off: int) -> bool
    decreases t,
{
    match t {
        None => true,
        Some(n) => {
            let o = off + n.lazy;
            let a = n.key + o;
            &&& -KEY_BOUND <= n.key <= KEY_BOUND
            &&& -KEY_BOUND <= a <= KEY_BOUND
            &&& -2 * KEY_BOUND <= o <= 2 * KEY_BOUND
            &&& heap_ok(n.left, o)
            &&& heap_ok(n.right, o)
            &&& bounded_by(content(n.left, o), a)
            &&& bounded_by(content(n.right, o), a)
        },
    }
}

/// The key at the root of `t`, after pending additions.
spec fn top<V>(t: Option<Box<Node<V>>>, off: int) -> int {
    match t {
        None => 0,
        Some(n) => n.key + off + n.lazy,
    }
}

proof fn lemma_top_bounds<V>(t: Option<Box<Node<V>>>, off: int)
    requires
        heap_ok(t, off),
    ensures
        bounded_by(content(t, off), top(t, off)),
        keys_in_range(content(t, off)),
        t is Some ==> content(t, off).count((top(t, off), t->0.val)) > 0,
        (t is None) <==> content(t, off).len() == 0,
    decreases t,
{
    if let Some(n) = t {
        let o = off + n.lazy;
        lemma_top_bounds(n.left, o);
        lemma_top_bounds(n.right, o);
    }
}

/// Owing the tree `d` more shifts all its keys by `d`.
proof fn lemma_content_shift<V>(t: Option<Box<Node<V>>>, off: int, d: int, kv: (int, V))
    ensures
        content(t, off + d).count(kv) == content(t, off).count((kv.0 - d, kv.1)),
    decreases t,
{
    if let Some(n) = t {
        lemma_content_shift(n.left, off + n.lazy, d, kv);
        lemma_content_shift(n.right, off + n.lazy, d, kv);
    }
}

proof fn lemma_pending_bound<V>(t: Option<Box<Node<V>>>, off: int)
    requires
        heap_ok(t, off),
    ensures
        t is Some ==> -2 * KEY_BOUND <= off + t->0.lazy <= 2 * KEY_BOUND,
{
}

/// An empty tree holds nothing and is a heap.
proof fn lemma_empty<V>(off: int)
    ensures
        content(None::<Box<Node<V>>>, off) == Multiset::<(int, V)>::empty(),
        heap_ok(None::<Box<Node<V>>>, off),
        size(None::<Box<Node<V>>>) == 0,
{
}

/// Shifting every key of a heap keeps it a heap while the keys stay in range.
proof fn lemma_heap_shift<V>(t: Option<Box<Node<V>>>, off: int, d: int)
    requires
        heap_ok(t, off),
        forall|kv: (int, V)| content(t, off).count(kv) > 0 ==> -KEY_BOUND <= kv.0 + d <= KEY_BOUND,
    ensures
        heap_ok(t, off + d),
    decreases t,
{
    if let Some(n) = t {
        let o = off + n.lazy;
        let a = n.key + o;
        assert(content(t, off).count((a, n.val)) > 0);
        assert forall|kv: (int, V)| #[trigger] content(n.left, o).count(kv) > 0 implies -KEY_BOUND <= kv.0 + d <= KEY_BOUND by {
            assert(content(t, off).count(kv) > 0);
        }
        assert forall|kv: (int, V)| #[trigger] content(n.right, o).count(kv) > 0 implies -KEY_BOUND <= kv.0 + d <= KEY_BOUND by {
            assert(content(t, off).count(kv) > 0);
        }
        lemma_heap_shift(n.left, o, d);
        lemma_heap_shift(n.right, o, d);
        assert forall|kv: (int, V)| content(n.left, o + d).count(kv) > 0 implies kv.0 <= a + d by {
            lemma_content_shift(n.left, o, d, kv);
        }
        assert forall|kv: (int, V)| content(n.right, o + d).count(kv) > 0 implies kv.0 <= a + d by {
            lemma_content_shift(n.right, o, d, kv);
        }
        assert(off + d + n.lazy == o + d);
    }
}

/// Adds `d` to the pending addition of the root of `t`.
fn add_lazy<V>(t: Option<Box<Node<V>>>, d: i64) -> (r: Option<Box<Node<V>>>)
    requires
        t is Some ==> i64::MIN <= t->0.lazy + d <= i64::MAX,
    ensures
        forall|off: int| #[trigger] content(r, off) == content(t, off + d),
        forall|off: int| #[trigger] heap_ok(r, off) == heap_ok(t, off + d),
        forall|off: int| #[trigger] top(r, off) == top(t, off + d),
        size(r) == size(t),
        r is Some <==> t is Some,
        r is Some ==> r->0.val == t->0.val,
{
    match t {
        None => None,
        Some(mut b) => {
            b.lazy = b.lazy + d;
            Some(b)
        },
    }
}

/// Moves the pending addition of the root of a standalone tree into its key
/// and its children.
fn propagate<V>(n: Box<Node<V>>) -> (r: Box<Node<V>>)
    requires
        heap_ok(Some(n), 0),
    ensures
        r.lazy == 0,
        content(Some(r), 0) == content(Some(n), 0),
        heap_ok(Some(r), 0),
        top(Some(r), 0) == top(Some(n), 0),
        size(Some(r)) == size(Some(n)),
        r.val == n.val,
{
    let mut n = n;
    let ghost n0 = n;
    let lz = n.lazy;
    if lz != 0 {
        let l = n.left.take();
        let rt = n.right.take();
        proof {
            lemma_pending_bound(l, lz as int);
            lemma_pending_bound(rt, lz as int);
        }
        n.left = add_lazy(l, lz);
        n.right = add_lazy(rt, lz);
        n.key = n.key + lz;
        n.lazy = 0;
        proof {
            assert(content(n.left, 0) == content(n0.left, lz as int));
            assert(content(n.right, 0) == content(n0.right, lz as int));
            assert(heap_ok(n.left, 0) == heap_ok(n0.left, lz as int));
            assert(heap_ok(n.right, 0) == heap_ok(n0.right, lz as int));
            assert(content(Some(n), 0) =~= content(Some(n0), 0));
        }
    }
    n
}

/// Melds two standalone trees.
fn merge_nodes<V>(h1: Option<Box<Node<V>>>, h2: Option<Box<Node<V>>>) -> (r: Option<Box<Node<V>>>)
    requires
        heap_ok(h1, 0),
        heap_ok(h2, 0),
    ensures
        heap_ok(r, 0),
        content(r, 0) == content(h1, 0).add(content(h2, 0)),
        size(r) == size(h1) + size(h2),
    decreases size(h1) + size(h2),
{
    match (h1, h2) {
        (None, None) => None,
        (Some(a), None) => Some(a),
        (None, Some(b)) => Some(b),
        (Some(a), Some(b)) => {
            let a = propagate(a);
            let b = propagate(b);
            let (mut root, other) = if b.key > a.key {
                (b, a)
            } else {
                (a, b)
            };
            proof {
                lemma_top_bounds(Some(other), 0);
            }
            let right = root.right.take();
            let left = root.left.take();
            proof {
                lemma_top_bounds(right, 0);
                lemma_top_bounds(left, 0);
            }
            let merged = merge_nodes(right, Some(other));
            root.right = left;
            root.left = merged;
            Some(root)
        },
    }
}

/// A max-heap of `(key, value)` pairs.
pub struct SkewHeap<V> {
    root: Option<Box<Node<V>>>,
}

impl<V> View for SkewHeap<V> {
    type V = Multiset<(int, V)>;

    closed spec fn view(&self) -> Multiset<(int, V)> {
        content(self.root, 0)
    }
}

impl<V> SkewHeap<V> {
    pub closed spec fn wf(&self) -> bool {
        heap_ok(self.root, 0)
    }

    /// The pair at the root, which `peek` shows and `pop` takes.
    pub closed spec fn first(&self) -> (int, V) {
        (top(self.root, 0), self.root->0.val)
    }

    #[inline]
    pub fn new() -> (h: Self)
        ensures
            h.wf(),
            h@ == Multiset::<(int, V)>::empty(),
    {
        SkewHeap { root: None }
    }

    #[inline]
    pub fn is_empty(&self) -> (b: bool)
        requires
            self.wf(),
        ensures
            b == (self@.len() == 0),
    {
        proof {
            lemma_top_bounds(self.root, 0);
        }
        self.root.is_none()
    }

    /// Adds the pair `(key, val)`.
    pub fn push(&mut self, key: i64, val: V)
        requires
            old(self).wf(),
            -KEY_BOUND <= key <= KEY_BOUND,
        ensures
            final(self).wf(),
            final(self)@ == old(self)@.insert((key as int, val)),
    {
        let node = Some(Box::new(Node { key, val, left: None, right: None, lazy: 0 }));
        let root = self.root.take();
        proof {
            lemma_empty::<V>(0);
            assert(content(node, 0) =~= Multiset::singleton((key as int, val)));
            assert(heap_ok(node, 0));
        }
        self.root = merge_nodes(root, node);
    }

    /// A pair of greatest key (its value cloned), or `None` when empty.
    pub fn peek(&mut self) -> (r: Option<(i64, V)>)
        where
            V: Clone,
        requires
            old(self).wf(),
        ensures
            final(self).wf(),
            final(self)@ == old(self)@,
            r is None <==> old(self)@.len() == 0,
            r is Some ==> exists|w: V|
                #![trigger old(self)@.count(((r->0).0 as int, w))]
                old(self)@.count(((r->0).0 as int, w)) > 0 && cloned(w, (r->0).1),
            r matches Some((k, v)) ==> bounded_by(old(self)@, k as int),
            r matches Some((k, v)) ==> k == old(self).first().0 && cloned(old(self).first().1, v),
            final(self).first() == old(self).first(),
    {
        proof {
            lemma_top_bounds(self.root, 0);
        }
        match self.root.take() {
            None => None,
            Some(n) => {
                let n = propagate(n);
                let k = n.key;
                let v = n.val.clone();
                proof {
                    lemma_top_bounds(Some(n), 0);
                    assert(content(Some(n), 0).count((k as int, n.val)) > 0);
                    assert(old(self)@.count((k as int, n.val)) > 0);
                    assert(cloned(n.val, v));
                }
                self.root = Some(n);
                let res = Some((k, v));
                proof {
                    assert(old(self)@.count(((res->0).0 as int, n.val)) > 0 && cloned(n.val, (res->0).1));
                }
                res
            },
        }
    }

    /// Removes and returns a pair of greatest key, or `None` when empty.
    pub fn pop(&mut self) -> (r: Option<(i64, V)>)
        requires
            old(self).wf(),
        ensures
            final(self).wf(),
            r is None <==> old(self)@.len() == 0,
            r is None ==> final(self)@ == old(self)@,
            r matches Some((k, v)) ==> {
                &&& old(self)@.count((k as int, v)) > 0
                &&& bounded_by(old(self)@, k as int)
                &&& final(self)@ == old(self)@.remove((k as int, v))
                &&& (k as int, v) == old(self).first()
            },
    {
        proof {
            lemma_top_bounds(self.root, 0);
        }
        match self.root.take() {
            None => None,
            Some(n) => {
                let mut n = propagate(n);
                proof {
                    lemma_top_bounds(Some(n), 0);
                }
                let left = n.left.take();
                let right = n.right.take();
                let key = n.key;
                let val = n.val;
                self.root = merge_nodes(left, right);
                Some((key, val))
            },
        }
    }

    /// Moves every pair of `other` into this heap.
    pub fn merge_with(&mut self, other: Self)
        requires
            old(self).wf(),
            other.wf(),
        ensures
            final(self).wf(),
            final(self)@ == old(self)@.add(other@),
    {
        let mut other = other;
        let a = self.root.take();
        let b = other.root.take();
        self.root = merge_nodes(a, b);
    }

    /// Adds `delta` to every key.
    pub fn add_all(&mut self, delta: i64)
        requires
            old(self).wf(),
            forall|kv: (int, V)|
                old(self)@.count(kv) > 0 ==> -KEY_BOUND <= kv.0 + delta <= KEY_BOUND,
        ensures
            final(self).wf(),
            forall|kv: (int, V)| #[trigger] final(self)@.count(kv) == old(self)@.count((kv.0 - delta, kv.1)),
    {
        let r = self.root.take();
        proof {
            lemma_top_bounds(r, 0);
        }
        match r {
            None => {
                self.root = None;
                proof {
                    lemma_empty::<V>(0);
                }
            },
            Some(n) => {
                let n = propagate(n);
                proof {
                    lemma_top_bounds(Some(n), 0);
                    assert(content(Some(n), 0).count((n.key as int, n.val)) > 0);
                    assert forall|kv: (int, V)| #[trigger] content(Some(n), 0).count(kv) > 0 implies -KEY_BOUND <= kv.0
                        + delta <= KEY_BOUND by {
                        assert(old(self)@.count(kv) > 0);
                    }
                    lemma_heap_shift(Some(n), 0, delta as int);
                }
                let nr = add_lazy(Some(n), delta);
                proof {
                    assert forall|kv: (int, V)| #[trigger] content(nr, 0).count(kv) == content(Some(n), 0).count(
                        (kv.0 - delta, kv.1),
                    ) by {
                        lemma_content_shift(Some(n), 0, delta as int, kv);
                    }
                }
                self.root = nr;
            },
        }
    }
}

} // verus!
