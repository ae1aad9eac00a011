//! Which elements of a list stay, and in what order, when some are taken off.

use vstd::prelude::*;
use crate::adapter::{element_relinked, Adapter};
use crate::chain::{last_of, next_in};

verus! {

/// The entries of `order` that are in `kept`, in the order that they have in
/// `order`.
#[verifier::opaque]
pub open spec fn retained(order: Seq<usize>, kept: Set<usize>) -> Seq<usize>
    decreases order.len(),
{
    if order.len() == 0 {
        order
    } else if kept.contains(order.last()) {
        retained(order.drop_last(), kept).push(order.last())
    } else {
        retained(order.drop_last(), kept)
    }
}

/// What is retained of a sequence with one more entry at its end.
pub proof fn lemma_retained_push(order: Seq<usize>, kept: Set<usize>, element: usize)
    ensures
        retained(order.push(element), kept) == if kept.contains(element) {
            retained(order, kept).push(element)
        } else {
            retained(order, kept)
        },
{
    reveal_with_fuel(retained, 2);
    assert(order.push(element).drop_last() == order);
}

/// An entry is retained exactly if it is in the sequence and in the set.
pub proof fn lemma_retained_contains(order: Seq<usize>, kept: Set<usize>, element: usize)
    ensures
        retained(order, kept).contains(element) <==> order.contains(element) && kept.contains(
            element,
        ),
    decreases order.len(),
{
    reveal_with_fuel(retained, 2);
    if order.len() > 0 {
        let rest = order.drop_last();
        lemma_retained_contains(rest, kept, element);
        if rest.contains(element) {
            let i = choose|i: int| 0 <= i < rest.len() && rest[i] == element;
            assert(order[i] == element);
        }
        if order.contains(element) && !rest.contains(element) {
            let i = choose|i: int| 0 <= i < order.len() && order[i] == element;
            if i < order.len() - 1 {
                assert(rest[i] == element);
            }
        }
        let kept_rest = retained(rest, kept);
        if kept.contains(order.last()) {
            let all = kept_rest.push(order.last());
            assert(all[all.len() - 1] == order.last());
            if kept_rest.contains(element) {
                let i = choose|i: int| 0 <= i < kept_rest.len() && kept_rest[i] == element;
                assert(all[i] == element);
            }
            if all.contains(element) {
                let i = choose|i: int| 0 <= i < all.len() && all[i] == element;
                if i < kept_rest.len() {
                    assert(kept_rest[i] == element);
                }
            }
            assert(order[order.len() - 1] == order.last());
        }
    }
}

/// What is retained depends on the set only as far as the entries of the
/// sequence go.
pub proof fn lemma_retained_agree(order: Seq<usize>, kept: Set<usize>, other: Set<usize>)
    requires
        forall|i: int| 0 <= i < order.len() ==> kept.contains(order[i]) == other.contains(order[i]),
    ensures
        retained(order, kept) == retained(order, other),
    decreases order.len(),
{
    reveal_with_fuel(retained, 2);
    if order.len() > 0 {
        lemma_retained_agree(order.drop_last(), kept, other);
    }
}

/// Of a sequence without entries nothing is retained.
pub proof fn lemma_retained_empty(kept: Set<usize>)
    ensures
        retained(Seq::empty(), kept) == Seq::<usize>::empty(),
{
    reveal_with_fuel(retained, 2);
}

/// How the element at position `k` of `order` went through a filter that
/// kept the elements in `kept`, from storage `earlier` to storage `later`.
///
/// `seen` is what the callback was handed: the element as it was in
/// `earlier`, with a link that refers to the element after it in `order` and
/// to the last element before it that was kept. `left` is what the callback
/// made of it. If the element was kept, it is in `later` as the callback
/// left it, with the link that its place on the list asks for; if it was
/// taken off, it is in `later` exactly as the callback left it.
#[verifier::opaque]
pub open spec fn judged<T, A: Adapter<T>>(
    earlier: Seq<T>,
    later: Seq<T>,
    order: Seq<usize>,
    kept: Set<usize>,
    k: int,
    seen: T,
    left: T,
) -> bool {
    &&& element_relinked::<T, A>(earlier[order[k] as int], seen)
    &&& A::link_of(seen).next() == next_in(order, k)
    &&& A::link_of(seen).prev() == last_of(retained(order.take(k), kept))
    &&& if kept.contains(order[k]) {
        element_relinked::<T, A>(left, later[order[k] as int])
    } else {
        later[order[k] as int] == left
    }
}

/// The element at position `at` has just been before the callback.
pub(crate) proof fn lemma_judged_now<T, A: Adapter<T>>(
    earlier: Seq<T>,
    later: Seq<T>,
    order: Seq<usize>,
    kept: Set<usize>,
    at: int,
    seen: T,
    left: T,
)
    requires
        element_relinked::<T, A>(earlier[order[at] as int], seen),
        A::link_of(seen).next() == next_in(order, at),
        A::link_of(seen).prev() == last_of(retained(order.take(at), kept)),
        later[order[at] as int] == left,
    ensures
        judged::<T, A>(earlier, later, order, kept, at, seen, left),
{
    reveal(judged);
    A::lemma_with_own_link(left);
}

/// What was said of an element that has been before the callback stays true
/// while the filter goes on with the elements behind it.
pub(crate) proof fn lemma_judged_stays<T, A: Adapter<T>>(
    earlier: Seq<T>,
    before: Seq<T>,
    now: Seq<T>,
    order: Seq<usize>,
    kept_before: Set<usize>,
    kept: Set<usize>,
    k: int,
    at: int,
    seen: T,
    left: T,
)
    requires
        order.no_duplicates(),
        0 <= k < at < order.len(),
        judged::<T, A>(earlier, before, order, kept_before, k, seen, left),
        kept == kept_before || kept == kept_before.insert(order[at]),
        if kept_before.contains(order[k]) {
            element_relinked::<T, A>(before[order[k] as int], now[order[k] as int])
        } else {
            now[order[k] as int] == before[order[k] as int]
        },
    ensures
        judged::<T, A>(earlier, now, order, kept, k, seen, left),
{
    reveal(judged);
    assert(order[k] != order[at]);
    assert forall|i: int| 0 <= i < order.take(k).len() implies kept_before.contains(
        order.take(k)[i],
    ) == kept.contains(order.take(k)[i]) by {
        assert(order[i] != order[at]);
    }
    lemma_retained_agree(order.take(k), kept_before, kept);
    if kept.contains(order[k]) {
        A::lemma_with_link_twice(
            left,
            A::link_of(before[order[k] as int]),
            A::link_of(now[order[k] as int]),
        );
    }
}

} // verus!
