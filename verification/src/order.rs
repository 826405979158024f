//! The order in which offline strategies take items: largest first.

use crate::model::sizes;
use crate::Item;
use vstd::prelude::*;
use vstd::relations::sorted_by;
use vstd::relations::total_ordering;
use vstd::seq_lib::lemma_sorted_unique;

verus! {

/// No size is followed by a larger one.
pub open spec fn descending(sizes: Seq<nat>) -> bool {
    forall|i: int, j: int| 0 <= i < j < sizes.len() ==> sizes[i] >= sizes[j]
}

/// The relation "at least as large as".
pub open spec fn at_least() -> spec_fn(nat, nat) -> bool {
    |a: nat, b: nat| a >= b
}

/// The sizes of `sizes`, largest first.
pub open spec fn largest_first(sizes: Seq<nat>) -> Seq<nat> {
    sizes.sort_by(at_least())
}

/// `largest_first` rearranges its argument into descending order.
pub proof fn lemma_largest_first(sizes: Seq<nat>)
    ensures
        descending(largest_first(sizes)),
        largest_first(sizes).to_multiset() == sizes.to_multiset(),
        largest_first(sizes).len() == sizes.len(),
{
    assert(total_ordering(at_least()));
    sizes.lemma_sort_by_ensures(at_least());
    let sorted = largest_first(sizes);
    assert forall|i: int, j: int| 0 <= i < j < sorted.len() implies sorted[i] >= sorted[j] by {
        assert(at_least()(sorted[i], sorted[j]));
    }
    sizes.to_multiset_ensures();
    sorted.to_multiset_ensures();
}

/// A descending rearrangement of `sizes` is `largest_first(sizes)`: there is no other.
pub proof fn lemma_descending_unique(sizes: Seq<nat>, sorted: Seq<nat>)
    requires
        descending(sorted),
        sorted.to_multiset() == sizes.to_multiset(),
    ensures
        sorted == largest_first(sizes),
{
    assert(total_ordering(at_least()));
    sizes.lemma_sort_by_ensures(at_least());
    assert(sorted_by(sorted, at_least()));
    lemma_sorted_unique(sorted, largest_first(sizes), at_least());
}

/// Sorts the items by descending size, with `sort_unstable_by_key` of the standard library.
///
/// Believed, not proved: afterwards no item is followed by a larger one, and the sizes are the
/// same as before, each as often as before.
#[verifier::external_body]
pub(crate) fn sort_descending<I: Item>(items: &mut Vec<I>)
    ensures
        descending(sizes(final(items)@)),
        sizes(final(items)@).to_multiset() == sizes(old(items)@).to_multiset(),
{
    items.sort_unstable_by_key(|item| std::cmp::Reverse(item.size()));
}

} // verus!
