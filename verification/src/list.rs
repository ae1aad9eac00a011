//! The list: a head and a tail, and the operations on the chain between them.

use vstd::prelude::*;
use core::marker::PhantomData;
use crate::adapter::{
    element_relinked, lemma_relinked_same, lemma_relinked_twice, lemma_relinked_where_written,
    relinked, Adapter,
};
use crate::chain::{first_of, last_of, lemma_remove_value_at, next_in, prev_in};
use crate::retain::{
    judged, lemma_judged_now, lemma_judged_stays, lemma_retained_agree, lemma_retained_contains,
    lemma_retained_empty, lemma_retained_push, retained,
};

verus! {

/// An intrusive doubly linked list of elements of type `T`, linked through
/// the link that the adapter `A` names.
///
/// The list holds the positions of its first and last element in the storage
/// that the caller owns. An empty reference marks both ends of the chain: no
/// link ever refers to the list itself.
pub struct UnsafeList<T, A: Adapter<T>> {
    head: Option<usize>,
    tail: Option<usize>,
    order: Ghost<Seq<usize>>,
    _phantom_type: PhantomData<T>,
    _phantom_adapter: PhantomData<A>,
}

impl<T, A: Adapter<T>> View for UnsafeList<T, A> {
    type V = Seq<usize>;

    /// The positions of the elements on the list, from head to tail.
    closed spec fn view(&self) -> Seq<usize> {
        self.order@
    }
}

/// `outcome` is what `callback` may give when it is handed the element at
/// position `k` of `order`.
pub open spec fn visit_gives<T, E, F: FnMut(&T) -> Result<(), E>>(
    callback: F,
    pool: Seq<T>,
    order: Seq<usize>,
    k: int,
    outcome: Result<(), E>,
) -> bool {
    callback.ensures((&pool[order[k] as int],), outcome)
}

impl<T, A: Adapter<T>> UnsafeList<T, A> {
    /// The reference to the first element.
    pub closed spec fn head(&self) -> Option<usize> {
        self.head
    }

    /// The reference to the last element.
    pub closed spec fn tail(&self) -> Option<usize> {
        self.tail
    }

    /// The list taken by itself is sound: no element is on it twice, and head
    /// and tail refer to its first and last element.
    pub open spec fn inv(&self) -> bool {
        &&& self@.no_duplicates()
        &&& self.head() == first_of(self@)
        &&& self.tail() == last_of(self@)
    }

    /// The element at position `k` of `order` lies in `pool`, and its link
    /// refers to its two neighbours in `order`.
    pub open spec fn linked_at(pool: Seq<T>, order: Seq<usize>, k: int) -> bool {
        &&& order[k] < pool.len()
        &&& A::link_of(pool[order[k] as int]).next() == next_in(order, k)
        &&& A::link_of(pool[order[k] as int]).prev() == prev_in(order, k)
    }

    /// The list is sound and the links of the elements in `pool` hold its
    /// chain.
    pub open spec fn wf(&self, pool: Seq<T>) -> bool {
        &&& self.inv()
        &&& forall|k: int| 0 <= k < self@.len() ==> #[trigger] Self::linked_at(pool, self@, k)
    }

    /// Whether a list is sound on given storage depends on the links of its
    /// elements only.
    pub proof fn lemma_wf_same_links(&self, earlier: Seq<T>, later: Seq<T>)
        requires
            self.wf(earlier),
            later.len() == earlier.len(),
            forall|k: int|
                0 <= k < self@.len() ==> A::link_of(later[#[trigger] self@[k] as int]) == A::link_of(
                    earlier[self@[k] as int],
                ),
        ensures
            self.wf(later),
    {
        assert forall|k: int| 0 <= k < self@.len() implies #[trigger] Self::linked_at(
            later,
            self@,
            k,
        ) by {
            assert(Self::linked_at(earlier, self@, k));
        }
    }

    /// A list without elements. It is sound on any storage.
    pub fn new() -> (list: Self)
        ensures
            list@ == Seq::<usize>::empty(),
            list.inv(),
            forall|pool: Seq<T>| #[trigger] list.wf(pool),
    {
        Self {
            head: None,
            tail: None,
            order: Ghost(Seq::empty()),
            _phantom_type: PhantomData,
            _phantom_adapter: PhantomData,
        }
    }

    /// Whether no element is on the list: whether it has no head. A sound
    /// list without elements has neither head nor tail, and one with
    /// elements has both.
    pub fn is_empty(&self) -> (empty: bool)
        ensures
            empty == (self.head() is None),
            self.inv() ==> empty == (self@.len() == 0),
            self.inv() ==> empty == (self.tail() is None),
    {
        self.head.is_none()
    }

    /// Puts `element` on the list, before all others.
    ///
    /// The element must not be on this list, nor on any other that goes
    /// through the same link. Nothing checks that.
    pub fn push_front_unchecked(&mut self, pool: &mut [T], element: usize)
        requires
            old(self).wf(old(pool)@),
            element < old(pool).len(),
            !old(self)@.contains(element),
        ensures
            final(self)@ == seq![element] + old(self)@,
            final(self).wf(final(pool)@),
            relinked::<T, A>(old(pool)@, final(pool)@),
            forall|i: usize|
                i < old(pool).len() && i != element && !old(self)@.contains(i) ==> final(pool)@[i as int]
                    == old(pool)@[i as int],
    {
        proof {
            if old(self)@.len() > 0 {
                assert(Self::linked_at(old(pool)@, old(self)@, 0));
            }
        }
        // Link up the added element.
        let link = A::link_mut(&mut pool[element]);
        link.set_next(self.head);
        link.set_prev(None);
        proof {
            A::lemma_link_of_with_link(old(pool)@[element as int], *link);
        }

        match self.head {
            // The list was empty: the added element is its tail too.
            None => {
                self.tail = Some(element);
            },
            // Point the previous head back to the added element.
            Some(head) => {
                let ghost before = pool@[head as int];
                let head_link = A::link_mut(&mut pool[head]);
                head_link.set_prev(Some(element));
                proof {
                    A::lemma_link_of_with_link(before, *head_link);
                }
            },
        }

        // Finally point `head` to the added element.
        self.head = Some(element);
        proof {
            self.order@ = seq![element] + self.order@;
            let order = self@;
            assert forall|k: int| 0 <= k < order.len() implies #[trigger] Self::linked_at(
                pool@,
                order,
                k,
            ) by {
                if k > 0 {
                    assert(Self::linked_at(old(pool)@, old(self)@, k - 1));
                    assert(order[k] == old(self)@[k - 1]);
                }
            }
            lemma_relinked_where_written::<T, A>(old(pool)@, pool@);
        }
    }

    /// Puts `element` on the list, behind all others.
    ///
    /// The element must not be on this list, nor on any other that goes
    /// through the same link. Nothing checks that.
    pub fn push_back_unchecked(&mut self, pool: &mut [T], element: usize)
        requires
            old(self).wf(old(pool)@),
            element < old(pool).len(),
            !old(self)@.contains(element),
        ensures
            final(self)@ == old(self)@.push(element),
            final(self).wf(final(pool)@),
            relinked::<T, A>(old(pool)@, final(pool)@),
            forall|i: usize|
                i < old(pool).len() && i != element && !old(self)@.contains(i) ==> final(pool)@[i as int]
                    == old(pool)@[i as int],
    {
        proof {
            if old(self)@.len() > 0 {
                assert(Self::linked_at(old(pool)@, old(self)@, old(self)@.len() - 1));
            }
        }
        // Link up the added element.
        let link = A::link_mut(&mut pool[element]);
        link.set_next(None);
        link.set_prev(self.tail);
        proof {
            A::lemma_link_of_with_link(old(pool)@[element as int], *link);
        }

        match self.tail {
            // The list was empty: the added element is its head too.
            None => {
                self.head = Some(element);
            },
            // Point the previous tail on to the added element.
            Some(tail) => {
                let ghost before = pool@[tail as int];
                let tail_link = A::link_mut(&mut pool[tail]);
                tail_link.set_next(Some(element));
                proof {
                    A::lemma_link_of_with_link(before, *tail_link);
                }
            },
        }

        // Finally point `tail` to the added element.
        self.tail = Some(element);
        proof {
            self.order@ = self.order@.push(element);
            let order = self@;
            assert forall|k: int| 0 <= k < order.len() implies #[trigger] Self::linked_at(
                pool@,
                order,
                k,
            ) by {
                if k < old(self)@.len() {
                    assert(Self::linked_at(old(pool)@, old(self)@, k));
                    assert(order[k] == old(self)@[k]);
                }
            }
            lemma_relinked_where_written::<T, A>(old(pool)@, pool@);
        }
    }

    /// Takes `element` off the list and closes the chain over the gap.
    ///
    /// The element must be on this list. Nothing checks that. The element
    /// itself is not written: its link keeps the references to the
    /// neighbours it had.
    pub fn unlink_element(&mut self, pool: &mut [T], element: usize)
        requires
            old(self).wf(old(pool)@),
            old(self)@.contains(element),
        ensures
            final(self)@ == old(self)@.remove_value(element),
            final(self).wf(final(pool)@),
            relinked::<T, A>(old(pool)@, final(pool)@),
            element < old(pool).len(),
            final(pool)@[element as int] == old(pool)@[element as int],
            forall|i: usize|
                i < old(pool).len() && !old(self)@.contains(i) ==> final(pool)@[i as int] == old(
                    pool,
                )@[i as int],
    {
        let ghost at = old(self)@.index_of(element);
        proof {
            assert(Self::linked_at(old(pool)@, old(self)@, at));
            lemma_remove_value_at(old(self)@, at);
        }
        let link = A::link(&pool[element]);
        let prev = link.get_prev();
        let next = link.get_next();

        self.close_gap(pool, prev, next, Ghost(at));
    }

    /// Takes the element at position `at` of the list off it, given the
    /// neighbours `prev` and `next` that it has there. The element itself is
    /// neither read nor written, and nothing is asked of its link.
    fn close_gap(
        &mut self,
        pool: &mut [T],
        prev: Option<usize>,
        next: Option<usize>,
        Ghost(at): Ghost<int>,
    )
        requires
            old(self).inv(),
            0 <= at < old(self)@.len(),
            old(self)@[at] < old(pool).len(),
            prev == prev_in(old(self)@, at),
            next == next_in(old(self)@, at),
            forall|k: int|
                0 <= k < old(self)@.len() && k != at ==> #[trigger] Self::linked_at(
                    old(pool)@,
                    old(self)@,
                    k,
                ),
        ensures
            final(self)@ == old(self)@.remove(at),
            final(self).wf(final(pool)@),
            relinked::<T, A>(old(pool)@, final(pool)@),
            final(pool)@[old(self)@[at] as int] == old(pool)@[old(self)@[at] as int],
            forall|i: usize|
                i < old(pool).len() && !old(self)@.contains(i) ==> final(pool)@[i as int] == old(
                    pool,
                )@[i as int],
    {
        proof {
            if at > 0 {
                assert(Self::linked_at(old(pool)@, old(self)@, at - 1));
            }
            if at + 1 < old(self)@.len() {
                assert(Self::linked_at(old(pool)@, old(self)@, at + 1));
            }
        }
        match prev {
            // The element is at the head of the list.
            None => {
                self.head = next;
            },
            // The element has elements before it.
            Some(prev_element) => {
                let ghost before = pool@[prev_element as int];
                let prev_link = A::link_mut(&mut pool[prev_element]);
                prev_link.set_next(next);
                proof {
                    A::lemma_link_of_with_link(before, *prev_link);
                }
            },
        }

        match next {
            // The element is at the tail of the list.
            None => {
                self.tail = prev;
            },
            // The element has elements after it.
            Some(next_element) => {
                let ghost before = pool@[next_element as int];
                let next_link = A::link_mut(&mut pool[next_element]);
                next_link.set_prev(prev);
                proof {
                    A::lemma_link_of_with_link(before, *next_link);
                }
            },
        }

        proof {
            self.order@ = self.order@.remove(at);
            let order = self@;
            assert forall|k: int| 0 <= k < order.len() implies #[trigger] Self::linked_at(
                pool@,
                order,
                k,
            ) by {
                if k < at {
                    assert(Self::linked_at(old(pool)@, old(self)@, k));
                } else {
                    assert(Self::linked_at(old(pool)@, old(self)@, k + 1));
                }
            }
            lemma_relinked_where_written::<T, A>(old(pool)@, pool@);
        }
    }

    /// Hands `callback` every element of the list in turn, from head to
    /// tail, until it reports an error: that error is returned and the rest
    /// of the list is not visited.
    pub fn for_each<E, F: FnMut(&T) -> Result<(), E>>(&self, pool: &[T], callback: F) -> (result:
        Result<(), E>)
        requires
            self.wf(pool@),
            forall|k: int|
                0 <= k < self@.len() ==> #[trigger] callback.requires((&pool@[self@[k] as int],)),
        ensures
            match result {
                Ok(_) => forall|k: int|
                    0 <= k < self@.len() ==> #[trigger] visit_gives(
                        callback,
                        pool@,
                        self@,
                        k,
                        Ok(()),
                    ),
                Err(error) => exists|k: int|
                    {
                        &&& 0 <= k < self@.len()
                        &&& #[trigger] visit_gives(callback, pool@, self@, k, Err(error))
                        &&& forall|j: int|
                            0 <= j < k ==> #[trigger] visit_gives(callback, pool@, self@, j, Ok(()))
                    },
            },
    {
        let mut visit = callback;
        let mut cur = self.head;
        let ghost mut at: int = 0;

        loop
            invariant
                self.wf(pool@),
                0 <= at <= self@.len(),
                cur == next_in(self@, at - 1),
                visit == callback,
                forall|k: int|
                    0 <= k < self@.len() ==> #[trigger] callback.requires(
                        (&pool@[self@[k] as int],),
                    ),
                forall|j: int|
                    0 <= j < at ==> #[trigger] visit_gives(callback, pool@, self@, j, Ok(())),
            ensures
                at == self@.len(),
            decreases self@.len() - at,
        {
            let Some(cur_element) = cur else {
                break;
            };
            proof {
                assert(Self::linked_at(pool@, self@, at));
            }

            match visit(&pool[cur_element]) {
                Ok(done) => {
                    assert(done == ());
                    assert(visit_gives(callback, pool@, self@, at, Ok(())));
                },
                Err(error) => {
                    assert(visit_gives(callback, pool@, self@, at, Err(error)));
                    return Err(error);
                },
            }

            cur = A::link(&pool[cur_element]).get_next();
            proof {
                at = at + 1;
            }
        }

        Ok(())
    }

    /// Takes the first element off the list and returns its position, with
    /// both references of its link emptied: it is ready to go on a list
    /// again. On an empty list nothing happens and nothing is returned.
    pub fn pop_head(&mut self, pool: &mut [T]) -> (popped: Option<usize>)
        requires
            old(self).wf(old(pool)@),
        ensures
            popped == first_of(old(self)@),
            final(self).wf(final(pool)@),
            relinked::<T, A>(old(pool)@, final(pool)@),
            forall|i: usize|
                i < old(pool).len() && !old(self)@.contains(i) ==> final(pool)@[i as int] == old(
                    pool,
                )@[i as int],
            match popped {
                None => final(self)@ == old(self)@,
                Some(element) => {
                    &&& final(self)@ == old(self)@.drop_first()
                    &&& element < old(pool).len()
                    &&& A::link_of(final(pool)@[element as int]).unlinked()
                },
            },
    {
        proof {
            lemma_relinked_same::<T, A>(pool@);
        }
        let cur = self.head?;
        proof {
            assert(old(self)@[0] == cur);
            old(self)@.index_of_first_ensures(cur);
        }

        self.unlink_element(pool, cur);
        let ghost unlinked = pool@;
        let link = A::link_mut(&mut pool[cur]);
        link.set_next(None);
        link.set_prev(None);
        proof {
            A::lemma_link_of_with_link(unlinked[cur as int], *link);
            assert(self@ == old(self)@.drop_first());
            assert forall|k: int| 0 <= k < self@.len() implies #[trigger] Self::linked_at(
                pool@,
                self@,
                k,
            ) by {
                assert(Self::linked_at(unlinked, self@, k));
            }
            lemma_relinked_where_written::<T, A>(unlinked, pool@);
            lemma_relinked_twice::<T, A>(old(pool)@, unlinked, pool@);
        }
        Some(cur)
    }

    /// Puts every element of the list before `callback`, from head to tail,
    /// and takes off the list those of which it returns `false`. The others
    /// stay, in the order they had.
    ///
    /// `callback` may change the element that it is handed. Of an element
    /// that it keeps it has to leave the link as it was. Of one that it
    /// rejects it may change the link too, as putting the element on
    /// another list does: the neighbours of the element are read before
    /// `callback` is called, and the element is neither read nor written
    /// after `callback` has returned `false`. It is in the storage as
    /// `callback` left it.
    pub fn filter<F: FnMut(&mut T) -> bool>(&mut self, pool: &mut [T], callback: F)
        requires
            old(self).wf(old(pool)@),
            forall|element: &mut T, k: int|
                0 <= k < old(self)@.len() && #[trigger] element_relinked::<T, A>(
                    old(pool)@[old(self)@[k] as int],
                    *element,
                ) ==> #[trigger] callback.requires((element,)),
            forall|element: &mut T, k: int, keep: bool|
                0 <= k < old(self)@.len() && #[trigger] element_relinked::<T, A>(
                    old(pool)@[old(self)@[k] as int],
                    *element,
                ) && #[trigger] callback.ensures((element,), keep) && keep ==> A::link_of(
                    *final(element),
                ) == A::link_of(*element),
        ensures
            final(self).wf(final(pool)@),
            final(pool)@.len() == old(pool)@.len(),
            forall|i: usize|
                i < old(pool).len() && !old(self)@.contains(i) ==> final(pool)@[i as int] == old(
                    pool,
                )@[i as int],
            exists|kept: Set<usize>|
                {
                    &&& final(self)@ == #[trigger] retained(old(self)@, kept)
                    &&& forall|k: int|
                        #![trigger old(self)@[k]]
                        0 <= k < old(self)@.len() ==> {
                            &&& final(self)@.contains(old(self)@[k]) <==> kept.contains(
                                old(self)@[k],
                            )
                            &&& exists|element: &mut T|
                                #![trigger callback.ensures((element,), kept.contains(old(self)@[k]))]
                                {
                                    &&& callback.ensures((element,), kept.contains(old(self)@[k]))
                                    &&& judged::<T, A>(
                                        old(pool)@,
                                        final(pool)@,
                                        old(self)@,
                                        kept,
                                        k,
                                        *element,
                                        *final(element),
                                    )
                                }
                        }
                },
    {
        let mut judge = callback;
        let mut cur = self.head;
        let ghost order = self@;
        let ghost mut at: int = 0;
        let ghost mut kept: Set<usize> = Set::empty();

        proof {
            lemma_retained_empty(kept);
            assert(order.take(0) == Seq::<usize>::empty());
            assert(order.skip(0) == order);
            assert(retained(order.take(0), kept) + order.skip(0) == order);
            assert forall|k: int| 0 <= k < order.len() implies #[trigger] element_relinked::<T, A>(
                old(pool)@[order[k] as int],
                pool@[order[k] as int],
            ) by {
                A::lemma_with_own_link(pool@[order[k] as int]);
            }
        }

        loop
            invariant
                judge == callback,
                order == old(self)@,
                old(self).wf(old(pool)@),
                forall|element: &mut T, k: int|
                    0 <= k < order.len() && #[trigger] element_relinked::<T, A>(
                        old(pool)@[order[k] as int],
                        *element,
                    ) ==> #[trigger] callback.requires((element,)),
                forall|element: &mut T, k: int, keep: bool|
                    0 <= k < order.len() && #[trigger] element_relinked::<T, A>(
                        old(pool)@[order[k] as int],
                        *element,
                    ) && #[trigger] callback.ensures((element,), keep) && keep ==> A::link_of(
                        *final(element),
                    ) == A::link_of(*element),
                0 <= at <= order.len(),
                cur == next_in(order, at - 1),
                self.wf(pool@),
                self@ == retained(order.take(at), kept) + order.skip(at),
                forall|e: usize| kept.contains(e) ==> order.take(at).contains(e),
                pool@.len() == old(pool)@.len(),
                forall|i: usize|
                    i < pool@.len() && !order.contains(i) ==> pool@[i as int] == old(pool)@[i as int],
                forall|k: int|
                    at <= k < order.len() ==> #[trigger] element_relinked::<T, A>(
                        old(pool)@[order[k] as int],
                        pool@[order[k] as int],
                    ),
                forall|k: int|
                    #![trigger order[k]]
                    0 <= k < at ==> {
                        &&& order[k] < pool@.len()
                        &&& exists|element: &mut T|
                            #![trigger callback.ensures((element,), kept.contains(order[k]))]
                            {
                                &&& callback.ensures((element,), kept.contains(order[k]))
                                &&& judged::<T, A>(
                                    old(pool)@,
                                    pool@,
                                    order,
                                    kept,
                                    k,
                                    *element,
                                    *final(element),
                                )
                            }
                    },
            ensures
                at == order.len(),
            decreases order.len() - at,
        {
            let Some(cur_element) = cur else {
                break;
            };
            let ghost before = pool@;
            let ghost members = self@;
            let ghost stayed = retained(order.take(at), kept);
            proof {
                // The element stands behind those that stayed, and its link
                // refers to the last of them and to the next in `order`.
                assert(order[at] == cur_element);
                assert(members[stayed.len() as int] == order.skip(at)[0]);
                assert(Self::linked_at(before, members, stayed.len() as int));
                assert(Self::linked_at(old(pool)@, order, at));
                assert(element_relinked::<T, A>(
                    old(pool)@[order[at] as int],
                    before[cur_element as int],
                ));
                if at + 1 < order.len() {
                    assert(members[stayed.len() as int + 1] == order.skip(at)[1]);
                }
                assert(next_in(members, stayed.len() as int) == next_in(order, at));
                if stayed.len() > 0 {
                    assert(members[stayed.len() as int - 1] == stayed.last());
                }
                assert(prev_in(members, stayed.len() as int) == last_of(stayed));
            }

            // Read the neighbours first: what `callback` does to the link
            // of this element does not reach them then.
            let link = A::link(&pool[cur_element]);
            let prev = link.get_prev();
            let next = link.get_next();

            let keep = judge(&mut pool[cur_element]);
            let ghost shown = pool@;
            proof {
                let handed_over = choose|element: &mut T|
                    callback.ensures((element,), keep) && *element == before[cur_element as int]
                        && *final(element) == shown[cur_element as int];
                assert(element_relinked::<T, A>(old(pool)@[order[at] as int], *handed_over));
                if keep {
                    // The link is as it was, and so is the chain.
                    assert(A::link_of(*final(handed_over)) == A::link_of(*handed_over));
                    assert forall|k: int| 0 <= k < members.len() implies A::link_of(
                        shown[#[trigger] members[k] as int],
                    ) == A::link_of(before[members[k] as int]) by {
                        assert(Self::linked_at(before, members, k));
                    }
                    self.lemma_wf_same_links(before, shown);
                } else {
                    // The chain is as it was in all elements but this one.
                    assert forall|k: int|
                        0 <= k < members.len() && k != stayed.len() implies #[trigger] Self::linked_at(
                        shown,
                        members,
                        k,
                    ) by {
                        assert(Self::linked_at(before, members, k));
                        assert(members[k] != members[stayed.len() as int]);
                    }
                }
                // Whatever is on the list now was on it at the start.
                assert forall|e: usize| members.contains(e) implies order.contains(e) by {
                    let j = choose|j: int| 0 <= j < members.len() && members[j] == e;
                    if j < stayed.len() {
                        assert(stayed[j] == e);
                        lemma_retained_contains(order.take(at), kept, e);
                        let i = choose|i: int| 0 <= i < at && order.take(at)[i] == e;
                        assert(order[i] == e);
                    } else {
                        assert(order[at + (j - stayed.len())] == e);
                    }
                }
            }

            if !keep {
                proof {
                    assert(members.remove(stayed.len() as int) == stayed + order.skip(at + 1));
                }
                self.close_gap(pool, prev, next, Ghost(stayed.len() as int));
            }

            cur = next;
            proof {
                let kept_before = kept;
                if keep {
                    kept = kept.insert(cur_element);
                }
                // The list is what stayed of the first `at + 1` elements,
                // followed by the rest.
                assert(order.take(at + 1) == order.take(at).push(cur_element));
                assert(order.skip(at) == seq![cur_element] + order.skip(at + 1));
                assert forall|i: int| 0 <= i < at implies kept_before.contains(order.take(at)[i])
                    == kept.contains(order.take(at)[i]) by {
                    assert(order[i] != order[at]);
                }
                lemma_retained_agree(order.take(at), kept_before, kept);
                lemma_retained_push(order.take(at), kept, cur_element);
                if kept_before.contains(cur_element) {
                    let i = choose|i: int| 0 <= i < at && order.take(at)[i] == cur_element;
                    assert(order[i] == order[at]);
                }
                assert(self@ == retained(order.take(at + 1), kept) + order.skip(at + 1));

                assert forall|e: usize| kept.contains(e) implies order.take(at + 1).contains(e) by {
                    if e == cur_element {
                        assert(order.take(at + 1)[at] == e);
                    } else {
                        let i = choose|i: int| 0 <= i < at && order.take(at)[i] == e;
                        assert(order.take(at + 1)[i] == e);
                    }
                }
                // The elements still to come differ from what they were in
                // their links at most.
                assert forall|k: int| at + 1 <= k < order.len() implies #[trigger] element_relinked::<
                    T,
                    A,
                >(old(pool)@[order[k] as int], pool@[order[k] as int]) by {
                    assert(order[k] != order[at]);
                    assert(element_relinked::<T, A>(
                        old(pool)@[order[k] as int],
                        before[order[k] as int],
                    ));
                    assert(Self::linked_at(old(pool)@, order, k));
                    A::lemma_with_link_twice(
                        old(pool)@[order[k] as int],
                        A::link_of(shown[order[k] as int]),
                        A::link_of(pool@[order[k] as int]),
                    );
                }
                // What was said of the elements that have been judged holds
                // of this one now, and still holds of the earlier ones.
                assert forall|k: int| #![trigger order[k]] 0 <= k < at + 1 implies {
                    &&& order[k] < pool@.len()
                    &&& exists|element: &mut T|
                        #![trigger callback.ensures((element,), kept.contains(order[k]))]
                        {
                            &&& callback.ensures((element,), kept.contains(order[k]))
                            &&& judged::<T, A>(
                                old(pool)@,
                                pool@,
                                order,
                                kept,
                                k,
                                *element,
                                *final(element),
                            )
                        }
                } by {
                    assert(Self::linked_at(old(pool)@, order, k));
                    if k == at {
                        let element = choose|element: &mut T|
                            callback.ensures((element,), keep) && *element == before[cur_element as int]
                                && *final(element) == shown[cur_element as int];
                        assert(kept.contains(order[k]) == keep);
                        lemma_judged_now::<T, A>(
                            old(pool)@,
                            pool@,
                            order,
                            kept,
                            k,
                            *element,
                            *final(element),
                        );
                    } else {
                        assert(order[k] != order[at]);
                        let element = choose|element: &mut T|
                            {
                                &&& callback.ensures((element,), kept_before.contains(order[k]))
                                &&& judged::<T, A>(
                                    old(pool)@,
                                    before,
                                    order,
                                    kept_before,
                                    k,
                                    *element,
                                    *final(element),
                                )
                            };
                        assert(kept.contains(order[k]) == kept_before.contains(order[k]));
                        if kept_before.contains(order[k]) {
                            A::lemma_with_own_link(before[order[k] as int]);
                        } else {
                            lemma_retained_contains(order.take(at), kept_before, order[k]);
                            assert(!members.contains(order[k])) by {
                                if members.contains(order[k]) {
                                    let j = choose|j: int|
                                        0 <= j < members.len() && members[j] == order[k];
                                    if j < stayed.len() {
                                        assert(stayed[j] == order[k]);
                                    } else {
                                        assert(order[at + (j - stayed.len())] == order[k]);
                                    }
                                }
                            }
                        }
                        lemma_judged_stays::<T, A>(
                            old(pool)@,
                            before,
                            pool@,
                            order,
                            kept_before,
                            kept,
                            k,
                            at,
                            *element,
                            *final(element),
                        );
                    }
                }
                at = at + 1;
            }
        }

        proof {
            assert(order.take(at) == order);
            assert(self@ == retained(order, kept));
            assert forall|k: int| 0 <= k < order.len() implies (self@.contains(#[trigger] order[k])
                <==> kept.contains(order[k])) by {
                lemma_retained_contains(order, kept, order[k]);
            }
        }
    }
}

impl<T, A: Adapter<T>> Default for UnsafeList<T, A> {
    fn default() -> (list: Self)
        ensures
            list@ == Seq::<usize>::empty(),
            list.inv(),
            forall|pool: Seq<T>| #[trigger] list.wf(pool),
    {
        Self::new()
    }
}

} // verus!
