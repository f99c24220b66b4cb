//! A last-in, first-out stack with a fixed capacity `N`.
use vstd::prelude::*;

verus! {

/// A stack that never holds more than `N` items. Its storage is reserved
/// once, when the stack is made, so pushes and pops never allocate.
pub struct StaticStack<T, const N: usize> {
    items: Vec<T>,
}

impl<T, const N: usize> View for StaticStack<T, N> {
    type V = Seq<T>;

    /// The items from bottom to top.
    closed spec fn view(&self) -> Seq<T> {
        self.items@
    }
}

impl<T, const N: usize> StaticStack<T, N> {
    /// The stack holds no more than its capacity.
    pub closed spec fn wf(&self) -> bool {
        self.items@.len() <= N
    }

    /// An empty stack.
    pub fn new() -> (r: Self)
        ensures
            r.wf(),
            r@ == Seq::<T>::empty(),
    {
        StaticStack { items: Vec::with_capacity(N) }
    }

    /// A stack that holds `default` as its only item.
    pub fn new_with_default(default: T) -> (r: Self)
        requires
            N >= 1,
        ensures
            r.wf(),
            r@ == seq![default],
    {
        let mut items: Vec<T> = Vec::with_capacity(N);
        items.push(default);
        StaticStack { items }
    }

    /// Removes the top item and returns it.
    pub fn pop(&mut self) -> (r: T)
        requires
            old(self).wf(),
            old(self)@.len() > 0,
        ensures
            final(self).wf(),
            r == old(self)@.last(),
            final(self)@ == old(self)@.drop_last(),
    {
        self.items.pop().unwrap()
    }

    /// Puts `item` on top of the stack.
    pub fn push(&mut self, item: T)
        requires
            old(self).wf(),
            old(self)@.len() < N,
        ensures
            final(self).wf(),
            final(self)@ == old(self)@.push(item),
    {
        self.items.push(item);
    }

    /// Whether the stack holds no item.
    pub fn is_empty(&self) -> (r: bool)
        ensures
            r == (self@.len() == 0),
    {
        self.items.len() == 0
    }

    /// How many items the stack holds.
    pub fn len(&self) -> (r: usize)
        ensures
            r == self@.len(),
    {
        self.items.len()
    }
}

} // verus!
