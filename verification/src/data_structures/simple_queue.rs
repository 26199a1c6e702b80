use std::collections::VecDeque;
use vstd::prelude::*;

verus! {

/// A first-in first-out queue.
pub struct SimpleQueue<T> {
    data: VecDeque<T>,
}

impl<T> View for SimpleQueue<T> {
    type V = Seq<T>;

    /// The items in the queue, the next one to leave first.
    closed spec fn view(&self) -> Seq<T> {
        self.data@
    }
}

impl<T> SimpleQueue<T> {
    pub fn new() -> (q: Self)
        ensures
            q@ == Seq::<T>::empty(),
    {
        SimpleQueue { data: VecDeque::new() }
    }

    pub fn with_capacity(cap: usize) -> (q: Self)
        ensures
            q@ == Seq::<T>::empty(),
    {
        SimpleQueue { data: VecDeque::with_capacity(cap) }
    }

    /// Appends `value` at the back.
    #[inline]
    pub fn push(&mut self, value: T)
        ensures
            final(self)@ == old(self)@.push(value),
    {
        self.data.push_back(value);
    }

    /// Removes and returns the front item, `None` when the queue is empty.
    #[inline]
    pub fn pop(&mut self) -> (r: Option<T>)
        ensures
            old(self)@.len() == 0 ==> r is None && final(self)@ == old(self)@,
            old(self)@.len() > 0 ==> r == Some(old(self)@[0]) && final(self)@ == old(self)@.drop_first(),
    {
        self.data.pop_front()
    }

    /// The front item, `None` when the queue is empty.
    #[inline]
    pub fn peek(&self) -> (r: Option<&T>)
        ensures
            self@.len() == 0 ==> r is None,
            self@.len() > 0 ==> r == Some(&self@[0]),
    {
        if self.data.len() > 0 {
            Some(&self.data[0])
        } else {
            None
        }
    }

    #[inline]
    pub fn is_empty(&self) -> (b: bool)
        ensures
            b == (self@.len() == 0),
    {
        self.data.len() == 0
    }

    #[inline]
    pub fn len(&self) -> (n: usize)
        ensures
            n == self@.len(),
    {
        self.data.len()
    }

    /// Removes every item.
    #[inline]
    pub fn reset(&mut self)
        ensures
            final(self)@ == Seq::<T>::empty(),
    {
        self.data.clear();
    }

    /// Appends the items of `items` at the back, in order.
    pub fn extend(&mut self, items: Vec<T>)
        ensures
            final(self)@ == old(self)@ + items@,
    {
        let mut items = items;
        let ghost all = items@;
        let mut rest: Vec<T> = Vec::new();
        // move the items out from the back, then push them in their order
        while items.len() > 0
            invariant
                items@ + rest@.reverse() == all,
                self@ == old(self)@,
            decreases items.len(),
        {
            let ghost before = items@;
            let x = items.pop().unwrap();
            rest.push(x);
            assert(items@ + rest@.reverse() =~= all) by {
                assert(before == items@.push(x));
                assert(rest@.reverse() =~= seq![x] + rest@.drop_last().reverse());
            }
        }
        assert(rest@.reverse() =~= all);
        while rest.len() > 0
            invariant
                self@ + rest@.reverse() == old(self)@ + all,
            decreases rest.len(),
        {
            let ghost before = rest@;
            let x = rest.pop().unwrap();
            self.data.push_back(x);
            assert(self@ + rest@.reverse() =~= old(self)@ + all) by {
                assert(before.reverse() =~= seq![x] + rest@.reverse());
            }
        }
        assert(self@ =~= old(self)@ + all);
    }
}

} // verus!
