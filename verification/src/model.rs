//! The mathematical model that the contracts of this crate speak of.

use crate::Bin;
use crate::Item;
use vstd::multiset::Multiset;
use vstd::prelude::*;

verus! {

/// The sum of a sequence of sizes.
pub open spec fn total(sizes: Seq<nat>) -> nat
    decreases sizes.len(),
{
    if sizes.len() == 0 {
        0
    } else {
        total(sizes.drop_last()) + sizes.last()
    }
}

/// The contents of each bin of a collection.
pub open spec fn contents<B: Bin>(bins: Seq<B>) -> Seq<Seq<nat>> {
    Seq::new(bins.len(), |i: int| bins[i].packed())
}

/// The sizes of a sequence of items.
pub open spec fn sizes<I: Item>(items: Seq<I>) -> Seq<nat> {
    Seq::new(items.len(), |i: int| items[i].size_spec())
}

/// What is left of capacity `cap` in each bin of `state`.
pub open spec fn room(cap: nat, state: Seq<Seq<nat>>) -> Seq<int> {
    Seq::new(state.len(), |i: int| cap - total(state[i]))
}

/// Every bin is usable and holds no more than its capacity.
pub open spec fn sound<B: Bin>(bins: Seq<B>) -> bool {
    forall|i: int|
        0 <= i < bins.len() ==> (#[trigger] bins[i]).inv() && total(bins[i].packed())
            <= B::capacity_spec()
}

/// No bin of `state` holds more than `cap`.
pub open spec fn within(cap: nat, state: Seq<Seq<nat>>) -> bool {
    forall|i: int| 0 <= i < state.len() ==> total(#[trigger] state[i]) <= cap
}

/// Every size of `sizes` is at most `cap`.
pub open spec fn bounded(cap: nat, sizes: Seq<nat>) -> bool {
    forall|i: int| 0 <= i < sizes.len() ==> #[trigger] sizes[i] <= cap
}

/// All sizes held by the bins of `state`, as a multiset.
pub open spec fn load(state: Seq<Seq<nat>>) -> Multiset<nat>
    decreases state.len(),
{
    if state.len() == 0 {
        Multiset::empty()
    } else {
        load(state.drop_last()).add(state.last().to_multiset())
    }
}

/// The sum of all sizes held by the bins of `state`.
pub open spec fn used(state: Seq<Seq<nat>>) -> nat
    decreases state.len(),
{
    if state.len() == 0 {
        0
    } else {
        used(state.drop_last()) + total(state.last())
    }
}

/// `state` after `size` went into bin `i`.
pub open spec fn put(state: Seq<Seq<nat>>, i: int, size: nat) -> Seq<Seq<nat>> {
    state.update(i, state[i].push(size))
}

/// `state` after `size` went into a fresh bin at its end.
pub open spec fn open_bin(state: Seq<Seq<nat>>, size: nat) -> Seq<Seq<nat>> {
    state.push(seq![size])
}

/// A size appended to a sequence adds to its sum.
pub proof fn lemma_total_push(sizes: Seq<nat>, size: nat)
    ensures
        total(sizes.push(size)) == total(sizes) + size,
{
    assert(sizes.push(size).drop_last() =~= sizes);
}

/// The sum of a single size is that size.
pub proof fn lemma_total_single(size: nat)
    ensures
        total(seq![size]) == size,
{
    assert(seq![size].drop_last() =~= Seq::<nat>::empty());
    assert(total(Seq::<nat>::empty()) == 0);
}

/// Opening a bin adds the one size to the load and to the used space.
pub proof fn lemma_open_bin(state: Seq<Seq<nat>>, size: nat)
    ensures
        load(open_bin(state, size)) =~= load(state).insert(size),
        used(open_bin(state, size)) == used(state) + size,
{
    broadcast use vstd::seq_lib::group_to_multiset_ensures;
    broadcast use vstd::multiset::group_multiset_axioms;

    lemma_total_single(size);
    assert(open_bin(state, size).drop_last() =~= state);
    assert(seq![size] =~= Seq::<nat>::empty().push(size));
    assert(seq![size].to_multiset() =~= Multiset::<nat>::empty().insert(size));
}

/// Putting a size into a bin adds it to the load and to the used space.
pub proof fn lemma_put(state: Seq<Seq<nat>>, i: int, size: nat)
    requires
        0 <= i < state.len(),
    ensures
        load(put(state, i, size)) =~= load(state).insert(size),
        used(put(state, i, size)) == used(state) + size,
    decreases state.len(),
{
    broadcast use vstd::seq_lib::group_to_multiset_ensures;
    broadcast use vstd::multiset::group_multiset_axioms;

    let after = put(state, i, size);
    if i == state.len() - 1 {
        assert(after.drop_last() =~= state.drop_last());
        lemma_total_push(state[i], size);
    } else {
        lemma_put(state.drop_last(), i, size);
        assert(after.drop_last() =~= put(state.drop_last(), i, size));
        assert(after.last() == state.last());
    }
}

/// All sizes in the bins of `state` or still among the `pending`, as a multiset.
pub open spec fn holding(state: Seq<Seq<nat>>, pending: Seq<nat>) -> Multiset<nat> {
    load(state).add(pending.to_multiset())
}

/// The sum of all sizes in the bins of `state` or still among the `pending`.
pub open spec fn weight(state: Seq<Seq<nat>>, pending: Seq<nat>) -> nat {
    used(state) + total(pending)
}

/// Taking one size out of a sequence takes it out of its multiset and of its sum, and leaves
/// the others within the bound they had.
pub proof fn lemma_take_out(sizes: Seq<nat>, j: int)
    requires
        0 <= j < sizes.len(),
    ensures
        sizes.to_multiset() =~= sizes.remove(j).to_multiset().insert(sizes[j]),
        total(sizes) == total(sizes.remove(j)) + sizes[j],
        forall|cap: nat| bounded(cap, sizes) ==> bounded(cap, sizes.remove(j)),
    decreases sizes.len(),
{
    broadcast use vstd::seq_lib::group_to_multiset_ensures;

    assert(sizes.remove(j).insert(j, sizes[j]) =~= sizes);
    vstd::seq_lib::to_multiset_insert(sizes.remove(j), j, sizes[j]);
    if j == sizes.len() - 1 {
        assert(sizes.remove(j) =~= sizes.drop_last());
    } else {
        lemma_take_out(sizes.drop_last(), j);
        assert(sizes.remove(j).drop_last() =~= sizes.drop_last().remove(j));
        assert(sizes.remove(j).last() == sizes.last());
    }
    assert forall|cap: nat| bounded(cap, sizes) implies bounded(cap, sizes.remove(j)) by {
        assert forall|i: int| 0 <= i < sizes.remove(j).len() implies sizes.remove(j)[i] <= cap by {
            if i < j {
                assert(sizes.remove(j)[i] == sizes[i]);
            } else {
                assert(sizes.remove(j)[i] == sizes[i + 1]);
            }
        }
    }
}

/// Two sequences with the same multiset have the same sum, length and bounds.
pub proof fn lemma_rearranged(a: Seq<nat>, b: Seq<nat>)
    requires
        a.to_multiset() == b.to_multiset(),
    ensures
        total(a) == total(b),
        a.len() == b.len(),
        forall|cap: nat| bounded(cap, a) ==> bounded(cap, b),
    decreases a.len(),
{
    broadcast use vstd::seq_lib::group_to_multiset_ensures;
    broadcast use vstd::multiset::group_multiset_axioms;

    a.to_multiset_ensures();
    b.to_multiset_ensures();
    if a.len() == 0 {
        assert(b.len() == 0);
    } else {
        let x = a.last();
        assert(a.contains(x));
        assert(a.to_multiset().count(x) > 0);
        assert(b.contains(x));
        let j = choose|j: int| 0 <= j < b.len() && b[j] == x;
        lemma_take_out(b, j);
        assert(a.drop_last().push(x) =~= a);
        vstd::seq_lib::to_multiset_build(a.drop_last(), x);
        assert(a.drop_last().to_multiset() =~= a.to_multiset().remove(x));
        assert(b.remove(j).to_multiset() =~= b.to_multiset().remove(x));
        lemma_rearranged(a.drop_last(), b.remove(j));
    }
    assert forall|cap: nat| bounded(cap, a) implies bounded(cap, b) by {
        assert forall|i: int| 0 <= i < b.len() implies b[i] <= cap by {
            assert(b.contains(b[i]));
            assert(b.to_multiset().count(b[i]) > 0);
            assert(a.contains(b[i]));
            let k = choose|k: int| 0 <= k < a.len() && a[k] == b[i];
            assert(a[k] <= cap);
        }
    }
}

/// The sum of two sequences joined is the sum of their sums.
pub proof fn lemma_total_join(a: Seq<nat>, b: Seq<nat>)
    ensures
        total(a + b) == total(a) + total(b),
    decreases b.len(),
{
    if b.len() == 0 {
        assert(a + b =~= a);
    } else {
        lemma_total_join(a, b.drop_last());
        assert((a + b).drop_last() =~= a + b.drop_last());
        assert((a + b).last() == b.last());
    }
}

} // verus!
