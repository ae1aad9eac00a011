//! The record that an element embeds to take part in a list.

use vstd::prelude::*;
use crate::inner::LinkInner;

verus! {

/// The link embedded in an element.
///
/// It holds the positions of the element's two neighbours on the list that the
/// element is on. Only the list operations write them.
///
/// Whether a link is unlinked is a statement about the link alone: both
/// references are empty. The only member of a one-element list has no
/// neighbour either, so its link is unlinked as well; and an element that
/// [`unlink_element`](crate::UnsafeList::unlink_element) took off a list keeps
/// the references it had. Whether an element is on a list is known to the
/// list, not to the link.
pub struct Link {
    inner: LinkInner,
}

impl Link {
    /// The position of the following element, empty at the tail.
    pub closed spec fn next(self) -> Option<usize> {
        self.inner.next()
    }

    /// The position of the preceding element, empty at the head.
    pub closed spec fn prev(self) -> Option<usize> {
        self.inner.prev()
    }

    /// Both neighbour references are empty.
    pub open spec fn unlinked(self) -> bool {
        self.next() is None && self.prev() is None
    }

    /// A link with both references empty.
    pub fn new() -> (link: Self)
        ensures
            link.unlinked(),
    {
        Self { inner: LinkInner::new() }
    }

    /// Whether both neighbour references are empty.
    pub fn is_unlinked(&self) -> (unlinked: bool)
        ensures
            unlinked == self.unlinked(),
    {
        self.get_next().is_none() && self.get_prev().is_none()
    }

    /// Whether one of the neighbour references is set.
    pub fn is_linked(&self) -> (linked: bool)
        ensures
            linked == !self.unlinked(),
    {
        !self.is_unlinked()
    }

    pub(crate) fn get_next(&self) -> (value: Option<usize>)
        ensures
            value == self.next(),
    {
        self.inner.get_next()
    }

    pub(crate) fn set_next(&mut self, value: Option<usize>)
        ensures
            final(self).next() == value,
            final(self).prev() == old(self).prev(),
    {
        self.inner.set_next(value);
    }

    pub(crate) fn get_prev(&self) -> (value: Option<usize>)
        ensures
            value == self.prev(),
    {
        self.inner.get_prev()
    }

    pub(crate) fn set_prev(&mut self, value: Option<usize>)
        ensures
            final(self).prev() == value,
            final(self).next() == old(self).next(),
    {
        self.inner.set_prev(value);
    }

    /// Two links with the same neighbour references are the same link.
    pub proof fn lemma_equal(a: Self, b: Self)
        requires
            a.next() == b.next(),
            a.prev() == b.prev(),
        ensures
            a == b,
    {
        LinkInner::lemma_equal(a.inner, b.inner);
    }
}

impl Default for Link {
    fn default() -> (link: Self)
        ensures
            link.unlinked(),
    {
        Self::new()
    }
}

} // verus!
