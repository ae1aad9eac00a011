//! The pair of neighbour references that a link holds.
//!
//! The two fields are private to this module: the rest of the crate reads and
//! writes them through the accessors below, so every change to a neighbour
//! reference is a call that can be found.

use vstd::prelude::*;

verus! {

/// The neighbour references of one element: the position of the element after
/// it and of the element before it, each empty where there is none.
pub struct LinkInner {
    next: Option<usize>,
    prev: Option<usize>,
}

impl LinkInner {
    /// The reference to the following element.
    pub closed spec fn next(self) -> Option<usize> {
        self.next
    }

    /// The reference to the preceding element.
    pub closed spec fn prev(self) -> Option<usize> {
        self.prev
    }

    /// A pair of empty references.
    pub fn new() -> (inner: Self)
        ensures
            inner.next() is None,
            inner.prev() is None,
    {
        Self { next: None, prev: None }
    }

    pub(crate) fn get_next(&self) -> (value: Option<usize>)
        ensures
            value == self.next(),
    {
        self.next
    }

    pub(crate) fn set_next(&mut self, value: Option<usize>)
        ensures
            final(self).next() == value,
            final(self).prev() == old(self).prev(),
    {
        self.next = value;
    }

    pub(crate) fn get_prev(&self) -> (value: Option<usize>)
        ensures
            value == self.prev(),
    {
        self.prev
    }

    pub(crate) fn set_prev(&mut self, value: Option<usize>)
        ensures
            final(self).prev() == value,
            final(self).next() == old(self).next(),
    {
        self.prev = value;
    }

    /// Two pairs with the same references are the same pair.
    pub proof fn lemma_equal(a: Self, b: Self)
        requires
            a.next() == b.next(),
            a.prev() == b.prev(),
        ensures
            a == b,
    {
    }
}

} // verus!
