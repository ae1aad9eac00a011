//! What holds of the list operations taken together.
//!
//! The operations state what they do over the sequence of positions that a
//! list stands for. The proofs here say what follows for runs of pushes, for
//! walks along the links, for two lists in one storage and for what a filter
//! leaves.

use vstd::prelude::*;
use crate::adapter::Adapter;
use crate::list::UnsafeList;
use crate::retain::{lemma_retained_contains, retained};

verus! {

/// The list that comes of `order` when the entries of `elements` are pushed
/// to its back, one after the other.
pub open spec fn pushed_back(order: Seq<usize>, elements: Seq<usize>) -> Seq<usize>
    decreases elements.len(),
{
    if elements.len() == 0 {
        order
    } else {
        pushed_back(order.push(elements.first()), elements.drop_first())
    }
}

/// The list that comes of `order` when the entries of `elements` are pushed
/// to its front, one after the other.
pub open spec fn pushed_front(order: Seq<usize>, elements: Seq<usize>) -> Seq<usize>
    decreases elements.len(),
{
    if elements.len() == 0 {
        order
    } else {
        pushed_front(seq![elements.first()] + order, elements.drop_first())
    }
}

/// Elements pushed to the back of a list stand behind what was there, in the
/// order in which they were pushed.
pub proof fn lemma_pushed_back(order: Seq<usize>, elements: Seq<usize>)
    ensures
        pushed_back(order, elements) == order + elements,
    decreases elements.len(),
{
    if elements.len() == 0 {
        assert(order + elements == order);
    } else {
        lemma_pushed_back(order.push(elements.first()), elements.drop_first());
        assert(order.push(elements.first()) + elements.drop_first() == order + elements);
    }
}

/// Elements pushed to the back of an empty list are on it in the order in
/// which they were pushed: that is the order in which a traversal from the
/// head passes them.
pub proof fn lemma_pushed_back_in_order(elements: Seq<usize>)
    ensures
        pushed_back(Seq::empty(), elements) == elements,
{
    lemma_pushed_back(Seq::empty(), elements);
    assert(Seq::<usize>::empty() + elements == elements);
}

/// Elements pushed to the front of a list stand before what was there, the
/// last one pushed first.
pub proof fn lemma_pushed_front(order: Seq<usize>, elements: Seq<usize>)
    ensures
        pushed_front(order, elements) == elements.reverse() + order,
    decreases elements.len(),
{
    let turned = elements.reverse();
    if elements.len() == 0 {
        assert(turned + order == order);
    } else {
        let rest = elements.drop_first();
        lemma_pushed_front(seq![elements.first()] + order, rest);
        assert(rest.reverse() + (seq![elements.first()] + order) == turned + order) by {
            let left = rest.reverse() + (seq![elements.first()] + order);
            let right = turned + order;
            assert(left.len() == right.len());
            assert forall|i: int| 0 <= i < left.len() implies left[i] == right[i] by {
                if i < rest.len() {
                    assert(left[i] == rest[rest.len() - 1 - i]);
                    assert(right[i] == elements[elements.len() - 1 - i]);
                } else if i == rest.len() {
                    assert(right[i] == elements[0]);
                }
            }
        }
    }
}

/// Elements pushed to the front of an empty list are on it in the reverse of
/// the order in which they were pushed: that is the order in which a
/// traversal from the head passes them.
pub proof fn lemma_pushed_front_in_reverse(elements: Seq<usize>)
    ensures
        pushed_front(Seq::empty(), elements) == elements.reverse(),
{
    lemma_pushed_front(Seq::empty(), elements);
    assert(elements.reverse() + Seq::<usize>::empty() == elements.reverse());
}

/// The element that is reached from `start` by following the references to
/// the next element `steps` times; nothing, once the chain has ended.
pub open spec fn walk_next<T, A: Adapter<T>>(pool: Seq<T>, start: Option<usize>, steps: nat) -> Option<
    usize,
>
    decreases steps,
{
    if steps == 0 {
        start
    } else {
        match walk_next::<T, A>(pool, start, (steps - 1) as nat) {
            Some(element) => if element < pool.len() {
                A::link_of(pool[element as int]).next()
            } else {
                None
            },
            None => None,
        }
    }
}

/// The element that is reached from `start` by following the references to
/// the previous element `steps` times; nothing, once the chain has ended.
pub open spec fn walk_prev<T, A: Adapter<T>>(pool: Seq<T>, start: Option<usize>, steps: nat) -> Option<
    usize,
>
    decreases steps,
{
    if steps == 0 {
        start
    } else {
        match walk_prev::<T, A>(pool, start, (steps - 1) as nat) {
            Some(element) => if element < pool.len() {
                A::link_of(pool[element as int]).prev()
            } else {
                None
            },
            None => None,
        }
    }
}

impl<T, A: Adapter<T>> UnsafeList<T, A> {
    /// A list has no head exactly if it has no tail, and exactly if it has
    /// no element.
    pub proof fn lemma_ends(&self)
        requires
            self.inv(),
        ensures
            self.head() is None <==> self@.len() == 0,
            self.tail() is None <==> self@.len() == 0,
            self.head() is None <==> self.tail() is None,
    {
    }

    /// The walk from the head along the references to the next element
    /// passes the elements in the order of the list: after `steps` steps it
    /// is at the element at position `steps`. On a list of n elements the
    /// tail is reached after n - 1 steps and not before, and the walk ends
    /// with the step after that.
    pub proof fn lemma_walk_from_head(&self, pool: Seq<T>, steps: nat)
        requires
            self.wf(pool),
        ensures
            walk_next::<T, A>(pool, self.head(), steps) == if steps < self@.len() {
                Some(self@[steps as int])
            } else {
                None
            },
            steps + 1 == self@.len() ==> walk_next::<T, A>(pool, self.head(), steps) == self.tail(),
            steps + 1 < self@.len() ==> walk_next::<T, A>(pool, self.head(), steps) != self.tail(),
        decreases steps,
    {
        if steps > 0 {
            self.lemma_walk_from_head(pool, (steps - 1) as nat);
            if steps - 1 < self@.len() {
                assert(Self::linked_at(pool, self@, steps - 1));
            }
        }
    }

    /// The walk from the tail along the references to the previous element
    /// passes the elements in the order of the list, backwards: after
    /// `steps` steps it is at the element `steps` places before the last.
    /// On a list of n elements the head is reached after n - 1 steps and not
    /// before, and the walk ends with the step after that.
    pub proof fn lemma_walk_from_tail(&self, pool: Seq<T>, steps: nat)
        requires
            self.wf(pool),
        ensures
            walk_prev::<T, A>(pool, self.tail(), steps) == if steps < self@.len() {
                Some(self@[self@.len() - 1 - steps])
            } else {
                None
            },
            steps + 1 == self@.len() ==> walk_prev::<T, A>(pool, self.tail(), steps) == self.head(),
            steps + 1 < self@.len() ==> walk_prev::<T, A>(pool, self.tail(), steps) != self.head(),
        decreases steps,
    {
        if steps > 0 {
            self.lemma_walk_from_tail(pool, (steps - 1) as nat);
            if steps - 1 < self@.len() {
                assert(Self::linked_at(pool, self@, self@.len() - steps));
            }
        }
    }

    /// No element is on a list twice.
    pub proof fn lemma_no_element_twice(&self, i: int, j: int)
        requires
            self.inv(),
            0 <= i < self@.len(),
            0 <= j < self@.len(),
            self@[i] == self@[j],
        ensures
            i == j,
    {
    }

    /// Where two lists in one storage have an element in common at
    /// positions `i` and `j`, the elements `back` places before it are the
    /// same too.
    proof fn lemma_same_before(&self, other: &Self, pool: Seq<T>, i: int, j: int, back: nat)
        requires
            self.wf(pool),
            other.wf(pool),
            0 <= i < self@.len(),
            0 <= j < other@.len(),
            self@[i] == other@[j],
            back <= i,
            back <= j,
        ensures
            self@[i - back] == other@[j - back],
        decreases back,
    {
        if back > 0 {
            self.lemma_same_before(other, pool, i, j, (back - 1) as nat);
            assert(Self::linked_at(pool, self@, i - back + 1));
            assert(Self::linked_at(pool, other@, j - back + 1));
        }
    }

    /// Where two lists in one storage have an element in common at
    /// positions `i` and `j`, the elements `on` places behind it are the
    /// same too, and one list ends where the other does.
    proof fn lemma_same_behind(&self, other: &Self, pool: Seq<T>, i: int, j: int, on: nat)
        requires
            self.wf(pool),
            other.wf(pool),
            0 <= i < self@.len(),
            0 <= j < other@.len(),
            self@[i] == other@[j],
            i + on < self@.len(),
        ensures
            j + on < other@.len(),
            self@[i + on] == other@[j + on],
        decreases on,
    {
        if on > 0 {
            self.lemma_same_behind(other, pool, i, j, (on - 1) as nat);
            assert(Self::linked_at(pool, self@, i + on - 1));
            assert(Self::linked_at(pool, other@, j + on - 1));
        }
    }

    /// An element is on one list at a time: two lists that hold their chains
    /// in the same storage, through the same link, have no element in
    /// common, unless they are one and the same sequence of elements.
    ///
    /// The exception is real. The link of the only element of a list has
    /// both references empty, as has the link of an element that is on no
    /// list, so the storage cannot tell two lists of that one element apart.
    pub proof fn lemma_lists_apart(&self, other: &Self, pool: Seq<T>, element: usize)
        requires
            self.wf(pool),
            other.wf(pool),
            self@.len() > 0 ==> self@ != other@,
        ensures
            !(self@.contains(element) && other@.contains(element)),
    {
        if self@.contains(element) && other@.contains(element) {
            let i = choose|i: int| 0 <= i < self@.len() && self@[i] == element;
            let j = choose|j: int| 0 <= j < other@.len() && other@[j] == element;
            if i < j {
                self.lemma_same_before(other, pool, i, j, i as nat);
                assert(Self::linked_at(pool, self@, 0));
                assert(Self::linked_at(pool, other@, j - i));
            } else if j < i {
                self.lemma_same_before(other, pool, i, j, j as nat);
                assert(Self::linked_at(pool, self@, i - j));
                assert(Self::linked_at(pool, other@, 0));
            }
            assert(i == j);
            self.lemma_same_behind(other, pool, i, i, (self@.len() - 1 - i) as nat);
            other.lemma_same_behind(self, pool, i, i, (other@.len() - 1 - i) as nat);
            assert(self@.len() == other@.len());
            assert forall|k: int| 0 <= k < self@.len() implies self@[k] == other@[k] by {
                if k <= i {
                    self.lemma_same_before(other, pool, i, i, (i - k) as nat);
                } else {
                    self.lemma_same_behind(other, pool, i, i, (k - i) as nat);
                }
            }
            assert(self@ =~= other@);
        }
    }

    /// The elements of a list are those that the walk from its head passes:
    /// two lists with the same head that hold their chains in the same
    /// storage, through the same link, are the same sequence of elements.
    pub proof fn lemma_chain_from_head(&self, other: &Self, pool: Seq<T>)
        requires
            self.wf(pool),
            other.wf(pool),
            self.head() == other.head(),
        ensures
            self@ == other@,
            self.tail() == other.tail(),
    {
        if self@.len() == 0 || other@.len() == 0 {
            assert(self@ =~= other@);
        } else {
            assert(other@[0] == self@[0]);
            if self@ != other@ {
                self.lemma_lists_apart(other, pool, self@[0]);
            }
        }
    }
}

/// What a filter leaves is in the order that it was in: of two elements that
/// were retained, the one that stands first afterwards stood first before.
pub proof fn lemma_retained_in_order(order: Seq<usize>, kept: Set<usize>, i: int, j: int)
    requires
        order.no_duplicates(),
        0 <= i < j < retained(order, kept).len(),
    ensures
        order.contains(retained(order, kept)[i]),
        order.contains(retained(order, kept)[j]),
        order.index_of(retained(order, kept)[i]) < order.index_of(retained(order, kept)[j]),
    decreases order.len(),
{
    reveal_with_fuel(retained, 2);
    let left = retained(order, kept);
    lemma_retained_contains(order, kept, left[i]);
    lemma_retained_contains(order, kept, left[j]);
    let rest = order.drop_last();
    let left_rest = retained(rest, kept);
    assert(order.len() > 0);
    if j < left_rest.len() {
        lemma_retained_in_order(rest, kept, i, j);
        assert(left_rest[i] == left[i]);
        assert(left_rest[j] == left[j]);
        let a = rest.index_of(left[i]);
        let b = rest.index_of(left[j]);
        assert(order[a] == left[i]);
        assert(order[b] == left[j]);
    } else {
        assert(left[j] == order.last());
        assert(left_rest[i] == left[i]);
        lemma_retained_contains(rest, kept, left[i]);
        let a = rest.index_of(left[i]);
        assert(order[a] == left[i]);
        assert(order[order.len() - 1] == left[j]);
    }
}

/// What a filter leaves has no element twice.
pub proof fn lemma_retained_no_duplicates(order: Seq<usize>, kept: Set<usize>)
    requires
        order.no_duplicates(),
    ensures
        retained(order, kept).no_duplicates(),
{
    let left = retained(order, kept);
    assert forall|i: int, j: int| 0 <= i < left.len() && 0 <= j < left.len() && i != j implies left[i]
        != left[j] by {
        if i < j {
            lemma_retained_in_order(order, kept, i, j);
        } else {
            lemma_retained_in_order(order, kept, j, i);
        }
    }
}

} // verus!
