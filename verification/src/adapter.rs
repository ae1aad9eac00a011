//! How a list finds the link inside an element.

use vstd::prelude::*;
use crate::link::Link;

verus! {

/// Says where, inside an element of type `T`, the link of one list is.
///
/// An implementation is a type without values: it stands for one link field
/// of `T`. An element type with two link fields can be on two lists at once,
/// through two adapters.
///
/// The list trusts the adapter. It reaches an element's link through
/// [`link`](Adapter::link) and [`link_mut`](Adapter::link_mut) only, and what
/// it proves of the elements rests on the three laws below: the link is a
/// part of the element that can be replaced without touching the rest.
pub trait Adapter<T> {
    /// The link embedded in `element`.
    spec fn link_of(element: T) -> Link;

    /// `element` with `link` in place of its embedded link, and nothing else
    /// changed.
    spec fn with_link(element: T, link: Link) -> T;

    /// The link that was put into an element is the link that is found there.
    proof fn lemma_link_of_with_link(element: T, link: Link)
        ensures
            Self::link_of(Self::with_link(element, link)) == link,
    ;

    /// Putting an element's own link into it changes nothing.
    proof fn lemma_with_own_link(element: T)
        ensures
            Self::with_link(element, Self::link_of(element)) == element,
    ;

    /// Of two links put into an element one after the other, only the second
    /// counts.
    proof fn lemma_with_link_twice(element: T, first: Link, second: Link)
        ensures
            Self::with_link(Self::with_link(element, first), second) == Self::with_link(
                element,
                second,
            ),
    ;

    /// Borrows the link embedded in `element`.
    fn link(element: &T) -> (link: &Link)
        ensures
            *link == Self::link_of(*element),
    ;

    /// Borrows the link embedded in `element` for writing. Whatever is written
    /// through the borrow ends up in the element, and nothing else of the
    /// element changes.
    fn link_mut(element: &mut T) -> (link: &mut Link)
        ensures
            *link == Self::link_of(*old(element)),
            *final(element) == Self::with_link(*old(element), *final(link)),
    ;
}

/// `later` is `earlier` with, at most, another link.
pub open spec fn element_relinked<T, A: Adapter<T>>(earlier: T, later: T) -> bool {
    later == A::with_link(earlier, A::link_of(later))
}

/// `later` holds the elements of `earlier`, each with the rest of it
/// untouched: the two differ in links only.
pub open spec fn relinked<T, A: Adapter<T>>(earlier: Seq<T>, later: Seq<T>) -> bool {
    &&& later.len() == earlier.len()
    &&& forall|i: int|
        0 <= i < earlier.len() ==> #[trigger] later[i] == A::with_link(
            earlier[i],
            A::link_of(later[i]),
        )
}

/// Storage that was not touched differs from itself in links only.
pub proof fn lemma_relinked_same<T, A: Adapter<T>>(pool: Seq<T>)
    ensures
        relinked::<T, A>(pool, pool),
{
    lemma_relinked_where_written::<T, A>(pool, pool);
}

/// Storage in which every element is as it was, or as it was but for its
/// link, differs from what it was in links only.
pub proof fn lemma_relinked_where_written<T, A: Adapter<T>>(earlier: Seq<T>, later: Seq<T>)
    requires
        later.len() == earlier.len(),
        forall|i: int|
            0 <= i < earlier.len() ==> #[trigger] later[i] == earlier[i] || element_relinked::<T, A>(
                earlier[i],
                later[i],
            ),
    ensures
        relinked::<T, A>(earlier, later),
{
    assert forall|i: int| 0 <= i < earlier.len() implies #[trigger] later[i] == A::with_link(
        earlier[i],
        A::link_of(later[i]),
    ) by {
        A::lemma_with_own_link(earlier[i]);
    }
}

/// Storage that was relinked twice differs from what it was at first in
/// links only.
pub proof fn lemma_relinked_twice<T, A: Adapter<T>>(first: Seq<T>, second: Seq<T>, third: Seq<T>)
    requires
        relinked::<T, A>(first, second),
        relinked::<T, A>(second, third),
    ensures
        relinked::<T, A>(first, third),
{
    assert forall|i: int| 0 <= i < first.len() implies #[trigger] third[i] == A::with_link(
        first[i],
        A::link_of(third[i]),
    ) by {
        assert(second[i] == A::with_link(first[i], A::link_of(second[i])));
        A::lemma_with_link_twice(first[i], A::link_of(second[i]), A::link_of(third[i]));
    }
}

} // verus!
