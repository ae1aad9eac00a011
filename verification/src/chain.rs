//! Sequences of positions: the order in which a list holds its elements.

use vstd::prelude::*;

verus! {

/// The first entry of `order`, or nothing if it is empty.
pub open spec fn first_of(order: Seq<usize>) -> Option<usize> {
    if order.len() == 0 {
        None
    } else {
        Some(order.first())
    }
}

/// The last entry of `order`, or nothing if it is empty.
pub open spec fn last_of(order: Seq<usize>) -> Option<usize> {
    if order.len() == 0 {
        None
    } else {
        Some(order.last())
    }
}

/// The entry of `order` after position `k`, or nothing at the end.
pub open spec fn next_in(order: Seq<usize>, k: int) -> Option<usize> {
    if 0 <= k + 1 < order.len() {
        Some(order[k + 1])
    } else {
        None
    }
}

/// The entry of `order` before position `k`, or nothing at the start.
pub open spec fn prev_in(order: Seq<usize>, k: int) -> Option<usize> {
    if 0 <= k - 1 < order.len() {
        Some(order[k - 1])
    } else {
        None
    }
}

/// Taking the entry at position `at` out of a sequence without repetitions
/// is taking that value out of it.
pub proof fn lemma_remove_value_at(order: Seq<usize>, at: int)
    requires
        order.no_duplicates(),
        0 <= at < order.len(),
    ensures
        order.remove_value(order[at]) == order.remove(at),
{
    order.index_of_first_ensures(order[at]);
}

} // verus!
