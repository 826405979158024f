//! Offline bin packing strategies.
//!
//! Offline strategies have access to all items in advance and can optimize the packing process
//! accordingly.

use crate::model::bounded;
use crate::model::contents;
use crate::model::holding;
use crate::model::lemma_rearranged;
use crate::model::lemma_take_out;
use crate::model::lemma_total_join;
use crate::model::lemma_total_push;
use crate::model::lemma_total_single;
use crate::model::load;
use crate::model::open_bin;
use crate::model::put;
use crate::model::room;
use crate::model::sizes;
use crate::model::sound;
use crate::model::total;
use crate::model::used;
use crate::model::weight;
use crate::online::drain_reversed;
use crate::online::pack_at;
use crate::online::pack_draining;
use crate::online::pack_growing;
use crate::online::pack_new;
use crate::online::BestFit;
use crate::online::FirstFit;
use crate::order::largest_first;
use crate::order::lemma_descending_unique;
use crate::order::lemma_largest_first;
use crate::order::sort_descending;
use crate::Bin;
use crate::Item;
use vstd::multiset::Multiset;
use vstd::prelude::*;

verus! {

/// An offline strategy that packs items into bins, having access all items in advance.
pub trait Strategy {
    /// The bins after all items of `sizes` were packed into the bins of `state`.
    spec fn outcome(&self, cap: nat, state: Seq<Seq<nat>>, sizes: Seq<nat>) -> Seq<Seq<nat>>;

    /// Packs all items into bins, draining the items vector.
    fn pack_all<B: Bin, I: Item>(&self, bins: &mut Vec<B>, items: &mut Vec<I>)
        requires
            sound(old(bins)@),
            bounded(B::capacity_spec(), sizes(old(items)@)),
        ensures
            final(items)@.len() == 0,
            sound(final(bins)@),
            contents(final(bins)@) == self.outcome(
                B::capacity_spec(),
                contents(old(bins)@),
                sizes(old(items)@),
            ),
            load(contents(final(bins)@)) == holding(contents(old(bins)@), sizes(old(items)@)),
            used(contents(final(bins)@)) == weight(contents(old(bins)@), sizes(old(items)@)),
            old(items)@.len() == 0 ==> final(bins)@ == old(bins)@,
    ;
}

/// Sorts the items by descending size.
pub fn sort_largest_first<I: Item>(items: &mut Vec<I>)
    ensures
        sizes(final(items)@) == largest_first(sizes(old(items)@)),
        final(items)@.len() == old(items)@.len(),
        sizes(final(items)@).to_multiset() == sizes(old(items)@).to_multiset(),
        total(sizes(final(items)@)) == total(sizes(old(items)@)),
        forall|cap: nat|
            bounded(cap, sizes(old(items)@)) ==> bounded(cap, #[trigger] sizes(final(items)@)),
{
    let ghost before = sizes(items@);
    sort_descending(items);
    proof {
        lemma_descending_unique(before, sizes(items@));
        lemma_rearranged(before, sizes(items@));
    }
}

/// An offline strategy that orders the item by descending size and packs them using
/// [`crate::online::FirstFit`].
pub struct FirstFitDecreasing;

impl Strategy for FirstFitDecreasing {
    open spec fn outcome(&self, cap: nat, state: Seq<Seq<nat>>, sizes: Seq<nat>) -> Seq<
        Seq<nat>,
    > {
        pack_growing(FirstFit, cap, state, largest_first(sizes))
    }

    fn pack_all<B: Bin, I: Item>(&self, bins: &mut Vec<B>, items: &mut Vec<I>) {
        sort_largest_first(items);
        pack_draining(&FirstFit, bins, items);
    }
}

/// An offline strategy that orders the item by descending size and packs them using
/// [`crate::online::BestFit`].
pub struct BestFitDecreasing;

impl Strategy for BestFitDecreasing {
    open spec fn outcome(&self, cap: nat, state: Seq<Seq<nat>>, sizes: Seq<nat>) -> Seq<
        Seq<nat>,
    > {
        pack_growing(BestFit, cap, state, largest_first(sizes))
    }

    fn pack_all<B: Bin, I: Item>(&self, bins: &mut Vec<B>, items: &mut Vec<I>) {
        sort_largest_first(items);
        pack_draining(&BestFit, bins, items);
    }
}

/// The decreasing strategies go by the sizes alone, each as often as it occurs: the order in
/// which the items are given makes no difference to the bins.
pub proof fn lemma_given_order_is_irrelevant(
    cap: nat,
    state: Seq<Seq<nat>>,
    a: Seq<nat>,
    b: Seq<nat>,
)
    requires
        a.to_multiset() == b.to_multiset(),
    ensures
        FirstFitDecreasing.outcome(cap, state, a) == FirstFitDecreasing.outcome(cap, state, b),
        BestFitDecreasing.outcome(cap, state, a) == BestFitDecreasing.outcome(cap, state, b),
{
    lemma_largest_first(a);
    lemma_descending_unique(b, largest_first(a));
}

/// Every size is more than half of `cap`.
pub open spec fn above_half(cap: nat, sizes: Seq<nat>) -> bool {
    forall|i: int| 0 <= i < sizes.len() ==> 2 * (#[trigger] sizes[i]) > cap
}

/// Sizes above half the capacity, packed into no bins to begin with, take a bin each, whatever
/// the strategy.
pub proof fn lemma_one_bin_each<S: crate::online::Strategy>(
    strategy: S,
    cap: nat,
    sizes: Seq<nat>,
)
    requires
        above_half(cap, sizes),
    ensures
        pack_growing(strategy, cap, Seq::empty(), sizes).len() == sizes.len(),
        forall|j: int|
            0 <= j < sizes.len() ==> 2 * total(
                #[trigger] pack_growing(strategy, cap, Seq::empty(), sizes)[j],
            ) > cap,
    decreases sizes.len(),
{
    if sizes.len() > 0 {
        let size = sizes.last();
        let prior = pack_growing(strategy, cap, Seq::empty(), sizes.drop_last());
        lemma_one_bin_each(strategy, cap, sizes.drop_last());
        strategy.lemma_choice_fits(room(cap, prior), size);
        match strategy.choice(room(cap, prior), size) {
            Some(i) => {
                assert(2 * total(prior[i]) > cap);
                assert(2 * sizes[sizes.len() - 1] > cap);
            },
            None => {
                lemma_total_single(size);
                let after = open_bin(prior, size);
                assert forall|j: int| 0 <= j < sizes.len() implies 2 * total(#[trigger] after[j])
                    > cap by {
                    if j < prior.len() {
                        assert(after[j] == prior[j]);
                    }
                }
            },
        }
    }
}

/// On sizes above half the capacity, packed into no bins to begin with, First Fit Decreasing
/// opens as many bins as First Fit does on the same sizes in any order: one for each.
pub proof fn lemma_decreasing_matches_first_fit_above_half(
    cap: nat,
    given: Seq<nat>,
    reordered: Seq<nat>,
)
    requires
        above_half(cap, given),
        given.to_multiset() == reordered.to_multiset(),
    ensures
        FirstFitDecreasing.outcome(cap, Seq::empty(), given).len() == pack_growing(
            FirstFit,
            cap,
            Seq::empty(),
            reordered,
        ).len(),
{
    broadcast use vstd::seq_lib::group_to_multiset_ensures;

    let sorted = largest_first(given);
    lemma_largest_first(given);
    lemma_rearranged(given, reordered);
    assert forall|i: int| 0 <= i < sorted.len() implies 2 * (#[trigger] sorted[i]) > cap by {
        assert(sorted.contains(sorted[i]));
        assert(sorted.to_multiset().count(sorted[i]) > 0);
        assert(given.contains(sorted[i]));
    }
    assert forall|i: int| 0 <= i < reordered.len() implies 2 * (#[trigger] reordered[i])
        > cap by {
        assert(reordered.contains(reordered[i]));
        assert(reordered.to_multiset().count(reordered[i]) > 0);
        assert(given.contains(reordered[i]));
    }
    lemma_one_bin_each(FirstFit, cap, sorted);
    lemma_one_bin_each(FirstFit, cap, reordered);
}

/// The size classes of the modified strategy, relative to the bin capacity.
#[derive(Clone, Copy, Debug, PartialEq, Eq, Structural)]
pub enum Tier {
    /// Larger than half the capacity.
    Large,
    /// Larger than a third of the capacity, at most half of it.
    Medium,
    /// Larger than a sixth of the capacity, at most a third of it.
    Small,
    /// At most a sixth of the capacity.
    Tiny,
}

/// The tier of an item of `size` for bins of capacity `cap`.
pub open spec fn tier(cap: nat, size: nat) -> Tier {
    if size > cap / 2 {
        Tier::Large
    } else if size > cap / 3 {
        Tier::Medium
    } else if size > cap / 6 {
        Tier::Small
    } else {
        Tier::Tiny
    }
}

/// Every size belongs to exactly one tier, which its interval determines.
pub proof fn lemma_tier_intervals(cap: nat, size: nat)
    ensures
        tier(cap, size) == Tier::Large <==> cap / 2 < size,
        tier(cap, size) == Tier::Medium <==> cap / 3 < size <= cap / 2,
        tier(cap, size) == Tier::Small <==> cap / 6 < size <= cap / 3,
        tier(cap, size) == Tier::Tiny <==> size <= cap / 6,
{
}

/// Returns the tier of an item of `size` for bins of capacity `cap`.
pub fn tier_of(cap: usize, size: usize) -> (t: Tier)
    ensures
        t == tier(cap as nat, size as nat),
{
    if size > cap / 2 {
        Tier::Large
    } else if size > cap / 3 {
        Tier::Medium
    } else if size > cap / 6 {
        Tier::Small
    } else {
        Tier::Tiny
    }
}

/// The sizes of `sizes` that belong to tier `t`, in their order.
pub open spec fn select(cap: nat, sizes: Seq<nat>, t: Tier) -> Seq<nat>
    decreases sizes.len(),
{
    if sizes.len() == 0 {
        Seq::empty()
    } else if tier(cap, sizes.last()) == t {
        select(cap, sizes.drop_last(), t).push(sizes.last())
    } else {
        select(cap, sizes.drop_last(), t)
    }
}

/// The items of the four tiers: large, medium, small, tiny.
pub struct Tiers<I> {
    pub large: Vec<I>,
    pub medium: Vec<I>,
    pub small: Vec<I>,
    pub tiny: Vec<I>,
}

impl<I: Item> Tiers<I> {
    /// The sizes of all four tiers, as a multiset.
    pub open spec fn mass(&self) -> Multiset<nat> {
        sizes(self.large@).to_multiset().add(sizes(self.medium@).to_multiset()).add(
            sizes(self.small@).to_multiset(),
        ).add(sizes(self.tiny@).to_multiset())
    }

    /// The sum of the sizes of all four tiers.
    pub open spec fn sum(&self) -> nat {
        total(sizes(self.large@)) + total(sizes(self.medium@)) + total(sizes(self.small@))
            + total(sizes(self.tiny@))
    }
}

/// Groups the items by tier, keeping their order within each, and leaves `items` empty.
pub fn split_tiers<I: Item>(cap: usize, items: &mut Vec<I>) -> (tiers: Tiers<I>)
    ensures
        final(items)@.len() == 0,
        sizes(tiers.large@) == select(cap as nat, sizes(old(items)@), Tier::Large),
        sizes(tiers.medium@) == select(cap as nat, sizes(old(items)@), Tier::Medium),
        sizes(tiers.small@) == select(cap as nat, sizes(old(items)@), Tier::Small),
        sizes(tiers.tiny@) == select(cap as nat, sizes(old(items)@), Tier::Tiny),
        tiers.mass() == sizes(old(items)@).to_multiset(),
        tiers.sum() == total(sizes(old(items)@)),
        forall|c: nat|
            bounded(c, sizes(old(items)@)) ==> bounded(c, sizes(tiers.large@)) && bounded(
                c,
                sizes(tiers.medium@),
            ) && bounded(c, sizes(tiers.small@)) && bounded(c, sizes(tiers.tiny@)),
{
    broadcast use vstd::seq_lib::group_to_multiset_ensures;
    broadcast use vstd::multiset::group_multiset_axioms;

    let ghost all = sizes(items@);
    let ghost given = items@;
    let mut stack = drain_reversed(items);
    let mut tiers = Tiers { large: Vec::new(), medium: Vec::new(), small: Vec::new(), tiny: Vec::new() };
    assert(all.take(0) =~= Seq::<nat>::empty());
    assert(tiers.mass() =~= Seq::<nat>::empty().to_multiset());
    assert(sizes(tiers.large@) =~= Seq::<nat>::empty());
    assert(sizes(tiers.medium@) =~= Seq::<nat>::empty());
    assert(sizes(tiers.small@) =~= Seq::<nat>::empty());
    assert(sizes(tiers.tiny@) =~= Seq::<nat>::empty());
    while stack.len() > 0
        invariant
            items@.len() == 0,
            stack.len() <= all.len(),
            all.len() == given.len(),
            all == sizes(given),
            forall|j: int| 0 <= j < stack.len() ==> stack[j] == given[given.len() - 1 - j],
            sizes(tiers.large@) == select(cap as nat, all.take(all.len() - stack.len()), Tier::Large),
            sizes(tiers.medium@) == select(
                cap as nat,
                all.take(all.len() - stack.len()),
                Tier::Medium,
            ),
            sizes(tiers.small@) == select(cap as nat, all.take(all.len() - stack.len()), Tier::Small),
            sizes(tiers.tiny@) == select(cap as nat, all.take(all.len() - stack.len()), Tier::Tiny),
            tiers.mass() == all.take(all.len() - stack.len()).to_multiset(),
            tiers.sum() == total(all.take(all.len() - stack.len())),
            forall|c: nat|
                bounded(c, all) ==> bounded(c, sizes(tiers.large@)) && bounded(
                    c,
                    sizes(tiers.medium@),
                ) && bounded(c, sizes(tiers.small@)) && bounded(c, sizes(tiers.tiny@)),
        decreases stack.len(),
    {
        let ghost k = all.len() - stack.len();
        let ghost l = sizes(tiers.large@);
        let ghost m = sizes(tiers.medium@);
        let ghost s = sizes(tiers.small@);
        let ghost t = sizes(tiers.tiny@);
        let item = stack.pop().unwrap();
        let size = item.size();
        proof {
            assert(item == given[k]);
            assert(size == all[k]);
            assert(all.take(k + 1).drop_last() =~= all.take(k));
            assert(all.take(k + 1) =~= all.take(k).push(all[k]));
            vstd::seq_lib::to_multiset_build(all.take(k), all[k]);
            lemma_total_push(l, all[k]);
            lemma_total_push(m, all[k]);
            lemma_total_push(s, all[k]);
            lemma_total_push(t, all[k]);
            vstd::seq_lib::to_multiset_build(l, all[k]);
            vstd::seq_lib::to_multiset_build(m, all[k]);
            vstd::seq_lib::to_multiset_build(s, all[k]);
            vstd::seq_lib::to_multiset_build(t, all[k]);
        }
        match tier_of(cap, size) {
            Tier::Large => {
                tiers.large.push(item);
                assert(sizes(tiers.large@) =~= l.push(all[k]));
            },
            Tier::Medium => {
                tiers.medium.push(item);
                assert(sizes(tiers.medium@) =~= m.push(all[k]));
            },
            Tier::Small => {
                tiers.small.push(item);
                assert(sizes(tiers.small@) =~= s.push(all[k]));
            },
            Tier::Tiny => {
                tiers.tiny.push(item);
                assert(sizes(tiers.tiny@) =~= t.push(all[k]));
            },
        }
        assert(tiers.mass() =~= all.take(k + 1).to_multiset());
        assert forall|c: nat| bounded(c, all) implies bounded(c, sizes(tiers.large@)) && bounded(
            c,
            sizes(tiers.medium@),
        ) && bounded(c, sizes(tiers.small@)) && bounded(c, sizes(tiers.tiny@)) by {
            assert(all[k] <= c);
            assert(bounded(c, l) && bounded(c, m) && bounded(c, s) && bounded(c, t));
        }
    }
    assert(all.take(all.len() as int) =~= all);
    tiers
}

/// `j` is the lowest index of a size that is at most `avail`.
pub open spec fn is_first_within(sizes: Seq<nat>, avail: int, j: int) -> bool {
    0 <= j < sizes.len() && sizes[j] <= avail && forall|i: int| 0 <= i < j ==> sizes[i] > avail
}

/// The lowest index of a size that is at most `avail`. In a descending sequence that is the
/// largest size that fits.
pub open spec fn first_within(sizes: Seq<nat>, avail: int) -> Option<int> {
    if exists|j: int| is_first_within(sizes, avail, j) {
        Some(choose|j: int| is_first_within(sizes, avail, j))
    } else {
        None
    }
}

/// Returns the index of the first item whose size is at most `avail`.
pub fn first_fitting<I: Item>(items: &Vec<I>, avail: usize) -> (found: Option<usize>)
    ensures
        match found {
            Some(j) => first_within(sizes(items@), avail as int) == Some(j as int) && j
                < items.len() && items[j as int].size_spec() <= avail,
            None => first_within(sizes(items@), avail as int) is None,
        },
{
    let ghost all = sizes(items@);
    let mut j: usize = 0;
    while j < items.len()
        invariant
            j <= items.len(),
            all == sizes(items@),
            forall|i: int| 0 <= i < j ==> all[i] > avail,
        decreases items.len() - j,
    {
        if items[j].size() <= avail {
            proof {
                assert(is_first_within(all, avail as int, j as int));
                let c = choose|c: int| is_first_within(all, avail as int, c);
                assert(c == j);
            }
            return Some(j);
        }
        j += 1;
    }
    None
}

/// Takes item `j` out of `tier` and packs it into bin `b`, which has room for it.
pub fn move_into<B: Bin, I: Item>(bins: &mut Vec<B>, b: usize, tier: &mut Vec<I>, j: usize)
    requires
        sound(old(bins)@),
        b < old(bins).len(),
        j < old(tier).len(),
        total(old(bins)[b as int].packed()) + old(tier)[j as int].size_spec()
            <= B::capacity_spec(),
    ensures
        sound(final(bins)@),
        final(bins).len() == old(bins).len(),
        contents(final(bins)@) == put(contents(old(bins)@), b as int, sizes(old(tier)@)[j as int]),
        sizes(final(tier)@) == sizes(old(tier)@).remove(j as int),
        final(tier).len() == old(tier).len() - 1,
        holding(contents(final(bins)@), sizes(final(tier)@)) == holding(
            contents(old(bins)@),
            sizes(old(tier)@),
        ),
        weight(contents(final(bins)@), sizes(final(tier)@)) == weight(
            contents(old(bins)@),
            sizes(old(tier)@),
        ),
        forall|c: nat| bounded(c, sizes(old(tier)@)) ==> bounded(c, #[trigger] sizes(final(tier)@)),
{
    broadcast use vstd::multiset::group_multiset_axioms;

    let ghost pending = sizes(tier@);
    proof {
        lemma_take_out(pending, j as int);
    }
    let item = tier.remove(j);
    assert(sizes(tier@) =~= pending.remove(j as int));
    pack_at(bins, b, item);
    assert(holding(contents(bins@), sizes(tier@)) =~= holding(contents(old(bins)@), pending));
}

/// The bins and the cursor after one large item was seated: in the first bin at or after the
/// cursor whose room strictly exceeds `size`, or else in a fresh bin, to which the cursor moves.
pub open spec fn seat(cap: nat, state: Seq<Seq<nat>>, cursor: int, size: nat) -> (
    Seq<Seq<nat>>,
    int,
)
    decreases state.len() - cursor,
{
    if cursor >= state.len() {
        (open_bin(state, size), state.len() as int)
    } else if size < cap - total(state[cursor]) {
        (put(state, cursor, size), cursor)
    } else {
        seat(cap, state, cursor + 1, size)
    }
}

/// The bins after the large items were seated one by one, first to last, with a cursor that
/// only moves forward.
pub open spec fn seat_all(cap: nat, state: Seq<Seq<nat>>, cursor: int, large: Seq<nat>) -> Seq<
    Seq<nat>,
>
    decreases large.len(),
{
    if large.len() == 0 {
        state
    } else {
        let next = seat(cap, state, cursor, large[0]);
        seat_all(cap, next.0, next.1, large.drop_first())
    }
}

/// Moves the cursor forward to the first bin whose room strictly exceeds `size`, or to the end.
pub fn advance<B: Bin>(bins: &Vec<B>, cursor: usize, size: usize) -> (at: usize)
    requires
        sound(bins@),
        cursor <= bins.len(),
    ensures
        cursor <= at <= bins.len(),
        at < bins.len() ==> size < B::capacity_spec() - total(bins[at as int].packed()),
        forall|i: int|
            cursor <= i < at ==> size >= B::capacity_spec() - total(
                (#[trigger] bins[i]).packed(),
            ),
        seat(B::capacity_spec(), contents(bins@), at as int, size as nat) == seat(
            B::capacity_spec(),
            contents(bins@),
            cursor as int,
            size as nat,
        ),
{
    let mut at = cursor;
    while at < bins.len()
        invariant
            cursor <= at <= bins.len(),
            sound(bins@),
            forall|i: int|
                cursor <= i < at ==> size >= B::capacity_spec() - total(
                    (#[trigger] bins[i]).packed(),
                ),
            seat(B::capacity_spec(), contents(bins@), at as int, size as nat) == seat(
                B::capacity_spec(),
                contents(bins@),
                cursor as int,
                size as nat,
            ),
        decreases bins.len() - at,
    {
        assert(contents(bins@)[at as int] == bins[at as int].packed());
        if size < bins[at].available() {
            return at;
        }
        at += 1;
    }
    at
}

/// Seats the large items, first to last: each in the first bin at or after the cursor whose
/// room strictly exceeds its size, or in a fresh bin.
pub fn seat_large<B: Bin, I: Item>(bins: &mut Vec<B>, large: &mut Vec<I>)
    requires
        sound(old(bins)@),
        bounded(B::capacity_spec(), sizes(old(large)@)),
    ensures
        final(large)@.len() == 0,
        sound(final(bins)@),
        final(bins).len() >= old(bins).len(),
        contents(final(bins)@) == seat_all(
            B::capacity_spec(),
            contents(old(bins)@),
            0,
            sizes(old(large)@),
        ),
        load(contents(final(bins)@)) == holding(contents(old(bins)@), sizes(old(large)@)),
        used(contents(final(bins)@)) == weight(contents(old(bins)@), sizes(old(large)@)),
        old(large).len() == 0 ==> final(bins)@ == old(bins)@,
{
    broadcast use vstd::seq_lib::group_to_multiset_ensures;
    broadcast use vstd::multiset::group_multiset_axioms;

    let ghost all = sizes(large@);
    let ghost given = large@;
    let ghost before = contents(bins@);
    let ghost cap = B::capacity_spec();
    let mut stack = drain_reversed(large);
    let mut cursor: usize = 0;
    assert(all.skip(0) =~= all);
    assert(all.take(0) =~= Seq::<nat>::empty());
    assert(holding(before, Seq::<nat>::empty()) =~= load(before));
    while stack.len() > 0
        invariant
            large@.len() == 0,
            cap == B::capacity_spec(),
            stack.len() <= all.len(),
            all.len() == given.len(),
            all == sizes(given),
            bounded(cap, all),
            forall|j: int| 0 <= j < stack.len() ==> stack[j] == given[given.len() - 1 - j],
            sound(bins@),
            cursor <= bins.len(),
            bins.len() >= old(bins).len(),
            seat_all(cap, contents(bins@), cursor as int, all.skip(all.len() - stack.len()))
                == seat_all(cap, before, 0, all),
            load(contents(bins@)) == holding(before, all.take(all.len() - stack.len())),
            used(contents(bins@)) == weight(before, all.take(all.len() - stack.len())),
            all.len() == 0 ==> bins@ == old(bins)@,
        decreases stack.len(),
    {
        let ghost k = all.len() - stack.len();
        let item = stack.pop().unwrap();
        let size = item.size();
        proof {
            assert(item == given[k]);
            assert(size == all[k]);
            assert(all.skip(k)[0] == all[k]);
            assert(all.skip(k).drop_first() =~= all.skip(k + 1));
            assert(all.take(k + 1).drop_last() =~= all.take(k));
            vstd::seq_lib::to_multiset_build(all.take(k), all[k]);
            assert(all.take(k + 1) =~= all.take(k).push(all[k]));
            assert(holding(before, all.take(k)).insert(all[k]) =~= holding(
                before,
                all.take(k + 1),
            ));
        }
        let at = advance(bins, cursor, size);
        if at < bins.len() {
            assert(contents(bins@)[at as int] == bins[at as int].packed());
            pack_at(bins, at, item);
        } else {
            pack_new(bins, item);
        }
        cursor = at;
    }
    assert(all.take(all.len() as int) =~= all);
}

/// The bins and the medium sizes left after each bin from `b` on, in order, took the largest
/// remaining medium size that fits it, if any.
pub open spec fn medium_pass(cap: nat, state: Seq<Seq<nat>>, medium: Seq<nat>, b: int) -> (
    Seq<Seq<nat>>,
    Seq<nat>,
)
    decreases state.len() - b,
{
    if b < 0 || b >= state.len() {
        (state, medium)
    } else {
        match first_within(medium, cap - total(state[b])) {
            Some(j) => medium_pass(cap, put(state, b, medium[j]), medium.remove(j), b + 1),
            None => medium_pass(cap, state, medium, b + 1),
        }
    }
}

/// Gives each bin, in order, the largest remaining medium item that fits it.
pub fn place_medium<B: Bin, I: Item>(bins: &mut Vec<B>, medium: &mut Vec<I>)
    requires
        sound(old(bins)@),
    ensures
        sound(final(bins)@),
        final(bins).len() == old(bins).len(),
        (contents(final(bins)@), sizes(final(medium)@)) == medium_pass(
            B::capacity_spec(),
            contents(old(bins)@),
            sizes(old(medium)@),
            0,
        ),
        holding(contents(final(bins)@), sizes(final(medium)@)) == holding(
            contents(old(bins)@),
            sizes(old(medium)@),
        ),
        weight(contents(final(bins)@), sizes(final(medium)@)) == weight(
            contents(old(bins)@),
            sizes(old(medium)@),
        ),
        forall|c: nat|
            bounded(c, sizes(old(medium)@)) ==> bounded(c, #[trigger] sizes(final(medium)@)),
        old(medium).len() == 0 ==> final(bins)@ == old(bins)@ && final(medium).len() == 0,
{
    let ghost cap = B::capacity_spec();
    let ghost goal = medium_pass(cap, contents(bins@), sizes(medium@), 0);
    let mut b: usize = 0;
    while b < bins.len()
        invariant
            cap == B::capacity_spec(),
            sound(bins@),
            bins.len() == old(bins).len(),
            b <= bins.len(),
            medium_pass(cap, contents(bins@), sizes(medium@), b as int) == goal,
            holding(contents(bins@), sizes(medium@)) == holding(
                contents(old(bins)@),
                sizes(old(medium)@),
            ),
            weight(contents(bins@), sizes(medium@)) == weight(
                contents(old(bins)@),
                sizes(old(medium)@),
            ),
            forall|c: nat|
                bounded(c, sizes(old(medium)@)) ==> bounded(c, #[trigger] sizes(medium@)),
            old(medium).len() == 0 ==> bins@ == old(bins)@ && medium.len() == 0,
        decreases bins.len() - b,
    {
        assert(contents(bins@)[b as int] == bins[b as int].packed());
        let avail = bins[b].available();
        match first_fitting(medium, avail) {
            Some(j) => {
                move_into(bins, b, medium, j);
            },
            None => {},
        }
        b += 1;
    }
}

/// What the two smallest of the small sizes weigh together; with one size left, that size.
pub open spec fn pair_weight(small: Seq<nat>) -> nat {
    if small.len() >= 2 {
        small[small.len() - 1] + small[small.len() - 2]
    } else if small.len() == 1 {
        small[0]
    } else {
        0
    }
}

/// The bins and the small sizes left after the first `b` bins were visited last to first: a
/// bin with room for the two smallest remaining sizes takes the smallest, and then the largest
/// remaining size that still fits. The pass ends when no small size is left.
pub open spec fn small_pass(cap: nat, state: Seq<Seq<nat>>, small: Seq<nat>, b: int) -> (
    Seq<Seq<nat>>,
    Seq<nat>,
)
    decreases b,
{
    if b <= 0 || b > state.len() || small.len() == 0 {
        (state, small)
    } else {
        let at = b - 1;
        let avail = cap - total(state[at]);
        if pair_weight(small) > avail {
            small_pass(cap, state, small, b - 1)
        } else {
            let least = small.last();
            let rest = small.drop_last();
            let seated = put(state, at, least);
            match first_within(rest, avail - least) {
                Some(j) => small_pass(cap, put(seated, at, rest[j]), rest.remove(j), b - 1),
                None => small_pass(cap, seated, rest, b - 1),
            }
        }
    }
}

/// Returns whether the two smallest of the small items, the last two, fit into `avail`
/// together; with one item, whether it fits.
pub fn pair_fits<I: Item>(small: &Vec<I>, avail: usize) -> (fit: bool)
    requires
        small.len() > 0,
    ensures
        fit == (pair_weight(sizes(small@)) <= avail),
{
    let n = small.len();
    let least = small[n - 1].size();
    if n >= 2 {
        let next = small[n - 2].size();
        least <= avail && next <= avail - least
    } else {
        least <= avail
    }
}

/// Visits the bins last to first and gives each that has room for the two smallest remaining
/// small items the smallest, and then the largest that still fits.
pub fn place_small<B: Bin, I: Item>(bins: &mut Vec<B>, small: &mut Vec<I>)
    requires
        sound(old(bins)@),
    ensures
        sound(final(bins)@),
        final(bins).len() == old(bins).len(),
        (contents(final(bins)@), sizes(final(small)@)) == small_pass(
            B::capacity_spec(),
            contents(old(bins)@),
            sizes(old(small)@),
            old(bins).len() as int,
        ),
        holding(contents(final(bins)@), sizes(final(small)@)) == holding(
            contents(old(bins)@),
            sizes(old(small)@),
        ),
        weight(contents(final(bins)@), sizes(final(small)@)) == weight(
            contents(old(bins)@),
            sizes(old(small)@),
        ),
        forall|c: nat|
            bounded(c, sizes(old(small)@)) ==> bounded(c, #[trigger] sizes(final(small)@)),
        old(small).len() == 0 ==> final(bins)@ == old(bins)@ && final(small).len() == 0,
{
    let ghost cap = B::capacity_spec();
    let ghost goal = small_pass(cap, contents(bins@), sizes(small@), bins.len() as int);
    let mut b: usize = bins.len();
    while b > 0 && small.len() > 0
        invariant
            cap == B::capacity_spec(),
            sound(bins@),
            bins.len() == old(bins).len(),
            b <= bins.len(),
            small_pass(cap, contents(bins@), sizes(small@), b as int) == goal,
            holding(contents(bins@), sizes(small@)) == holding(
                contents(old(bins)@),
                sizes(old(small)@),
            ),
            weight(contents(bins@), sizes(small@)) == weight(
                contents(old(bins)@),
                sizes(old(small)@),
            ),
            forall|c: nat|
                bounded(c, sizes(old(small)@)) ==> bounded(c, #[trigger] sizes(small@)),
            old(small).len() == 0 ==> bins@ == old(bins)@ && small.len() == 0,
        decreases b,
    {
        let at = b - 1;
        let ghost state = contents(bins@);
        let ghost pending = sizes(small@);
        assert(state[at as int] == bins[at as int].packed());
        let avail = bins[at].available();
        if pair_fits(small, avail) {
            let last = small.len() - 1;
            assert(pending.remove(last as int) =~= pending.drop_last());
            proof {
                lemma_total_push(state[at as int], pending.last());
            }
            move_into(bins, at, small, last);
            assert(contents(bins@)[at as int] == bins[at as int].packed());
            let left = bins[at].available();
            match first_fitting(small, left) {
                Some(j) => {
                    move_into(bins, at, small, j);
                },
                None => {},
            }
        }
        b -= 1;
    }
}

/// The bins and the sizes of one tier left after bin `b` took, again and again, the largest
/// remaining size of the tier that fits it, until none fits.
pub open spec fn fill_from(cap: nat, state: Seq<Seq<nat>>, b: int, tier: Seq<nat>) -> (
    Seq<Seq<nat>>,
    Seq<nat>,
)
    decreases tier.len(),
    via fill_from_terminates
{
    match first_within(tier, cap - total(state[b])) {
        Some(j) => fill_from(cap, put(state, b, tier[j]), b, tier.remove(j)),
        None => (state, tier),
    }
}

#[via_fn]
proof fn fill_from_terminates(cap: nat, state: Seq<Seq<nat>>, b: int, tier: Seq<nat>) {
    if let Some(j) = first_within(tier, cap - total(state[b])) {
        assert(is_first_within(tier, cap - total(state[b]), j));
    }
}

/// Filling a bin opens none and closes none.
pub proof fn lemma_fill_from_len(cap: nat, state: Seq<Seq<nat>>, b: int, tier: Seq<nat>)
    requires
        0 <= b < state.len(),
    ensures
        fill_from(cap, state, b, tier).0.len() == state.len(),
    decreases tier.len(),
{
    if let Some(j) = first_within(tier, cap - total(state[b])) {
        assert(is_first_within(tier, cap - total(state[b]), j));
        lemma_fill_from_len(cap, put(state, b, tier[j]), b, tier.remove(j));
    }
}

/// Packs into bin `b` the largest item of the tier that fits, again and again, until none
/// fits.
pub fn fill_bin<B: Bin, I: Item>(bins: &mut Vec<B>, b: usize, tier: &mut Vec<I>)
    requires
        sound(old(bins)@),
        b < old(bins).len(),
    ensures
        sound(final(bins)@),
        final(bins).len() == old(bins).len(),
        (contents(final(bins)@), sizes(final(tier)@)) == fill_from(
            B::capacity_spec(),
            contents(old(bins)@),
            b as int,
            sizes(old(tier)@),
        ),
        holding(contents(final(bins)@), sizes(final(tier)@)) == holding(
            contents(old(bins)@),
            sizes(old(tier)@),
        ),
        weight(contents(final(bins)@), sizes(final(tier)@)) == weight(
            contents(old(bins)@),
            sizes(old(tier)@),
        ),
        forall|c: nat| bounded(c, sizes(old(tier)@)) ==> bounded(c, #[trigger] sizes(final(tier)@)),
        old(tier).len() == 0 ==> final(bins)@ == old(bins)@ && final(tier).len() == 0,
{
    let ghost cap = B::capacity_spec();
    let ghost goal = fill_from(cap, contents(bins@), b as int, sizes(tier@));
    let mut more = true;
    while more
        invariant
            cap == B::capacity_spec(),
            sound(bins@),
            bins.len() == old(bins).len(),
            b < bins.len(),
            more ==> fill_from(cap, contents(bins@), b as int, sizes(tier@)) == goal,
            !more ==> (contents(bins@), sizes(tier@)) == goal,
            holding(contents(bins@), sizes(tier@)) == holding(
                contents(old(bins)@),
                sizes(old(tier)@),
            ),
            weight(contents(bins@), sizes(tier@)) == weight(contents(old(bins)@), sizes(old(tier)@)),
            forall|c: nat| bounded(c, sizes(old(tier)@)) ==> bounded(c, #[trigger] sizes(tier@)),
            old(tier).len() == 0 ==> bins@ == old(bins)@ && tier.len() == 0,
        decreases tier.len() + (if more { 1int } else { 0int }),
    {
        assert(contents(bins@)[b as int] == bins[b as int].packed());
        let avail = bins[b].available();
        match first_fitting(tier, avail) {
            Some(j) => {
                move_into(bins, b, tier, j);
            },
            None => {
                more = false;
            },
        }
    }
}

/// The bins and the medium, small and tiny sizes left after each bin from `b` on, in order, was
/// filled from the medium sizes, then from the small, then from the tiny.
pub open spec fn top_off(
    cap: nat,
    state: Seq<Seq<nat>>,
    medium: Seq<nat>,
    small: Seq<nat>,
    tiny: Seq<nat>,
    b: int,
) -> (Seq<Seq<nat>>, Seq<nat>, Seq<nat>, Seq<nat>)
    decreases state.len() - b,
    via top_off_terminates
{
    if b < 0 || b >= state.len() {
        (state, medium, small, tiny)
    } else {
        let first = fill_from(cap, state, b, medium);
        let second = fill_from(cap, first.0, b, small);
        let third = fill_from(cap, second.0, b, tiny);
        top_off(cap, third.0, first.1, second.1, third.1, b + 1)
    }
}

#[via_fn]
proof fn top_off_terminates(
    cap: nat,
    state: Seq<Seq<nat>>,
    medium: Seq<nat>,
    small: Seq<nat>,
    tiny: Seq<nat>,
    b: int,
) {
    if 0 <= b < state.len() {
        let first = fill_from(cap, state, b, medium);
        let second = fill_from(cap, first.0, b, small);
        lemma_fill_from_len(cap, state, b, medium);
        lemma_fill_from_len(cap, first.0, b, small);
        lemma_fill_from_len(cap, second.0, b, tiny);
    }
}

/// All sizes in the bins of `state` or still in one of three tiers, as a multiset.
pub open spec fn pool(state: Seq<Seq<nat>>, medium: Seq<nat>, small: Seq<nat>, tiny: Seq<nat>)
    -> Multiset<nat> {
    load(state).add(medium.to_multiset()).add(small.to_multiset()).add(tiny.to_multiset())
}

/// The sum of all sizes in the bins of `state` or still in one of three tiers.
pub open spec fn heft(state: Seq<Seq<nat>>, medium: Seq<nat>, small: Seq<nat>, tiny: Seq<nat>)
    -> nat {
    used(state) + total(medium) + total(small) + total(tiny)
}

/// Fills each bin, in order, from the medium items, then from the small, then from the tiny.
pub fn top_off_bins<B: Bin, I: Item>(
    bins: &mut Vec<B>,
    medium: &mut Vec<I>,
    small: &mut Vec<I>,
    tiny: &mut Vec<I>,
)
    requires
        sound(old(bins)@),
    ensures
        sound(final(bins)@),
        final(bins).len() == old(bins).len(),
        (
            contents(final(bins)@),
            sizes(final(medium)@),
            sizes(final(small)@),
            sizes(final(tiny)@),
        ) == top_off(
            B::capacity_spec(),
            contents(old(bins)@),
            sizes(old(medium)@),
            sizes(old(small)@),
            sizes(old(tiny)@),
            0,
        ),
        pool(
            contents(final(bins)@),
            sizes(final(medium)@),
            sizes(final(small)@),
            sizes(final(tiny)@),
        ) == pool(
            contents(old(bins)@),
            sizes(old(medium)@),
            sizes(old(small)@),
            sizes(old(tiny)@),
        ),
        heft(
            contents(final(bins)@),
            sizes(final(medium)@),
            sizes(final(small)@),
            sizes(final(tiny)@),
        ) == heft(
            contents(old(bins)@),
            sizes(old(medium)@),
            sizes(old(small)@),
            sizes(old(tiny)@),
        ),
        forall|c: nat|
            bounded(c, sizes(old(medium)@)) ==> bounded(c, #[trigger] sizes(final(medium)@)),
        forall|c: nat|
            bounded(c, sizes(old(small)@)) ==> bounded(c, #[trigger] sizes(final(small)@)),
        forall|c: nat| bounded(c, sizes(old(tiny)@)) ==> bounded(c, #[trigger] sizes(final(tiny)@)),
        old(medium).len() == 0 && old(small).len() == 0 && old(tiny).len() == 0 ==> final(bins)@
            == old(bins)@ && final(medium).len() == 0 && final(small).len() == 0 && final(tiny).len()
            == 0,
{
    broadcast use vstd::multiset::group_multiset_axioms;

    let ghost cap = B::capacity_spec();
    let ghost goal = top_off(
        cap,
        contents(bins@),
        sizes(medium@),
        sizes(small@),
        sizes(tiny@),
        0,
    );
    let ghost whole = pool(contents(bins@), sizes(medium@), sizes(small@), sizes(tiny@));
    let mut b: usize = 0;
    while b < bins.len()
        invariant
            cap == B::capacity_spec(),
            sound(bins@),
            bins.len() == old(bins).len(),
            b <= bins.len(),
            top_off(cap, contents(bins@), sizes(medium@), sizes(small@), sizes(tiny@), b as int)
                == goal,
            pool(contents(bins@), sizes(medium@), sizes(small@), sizes(tiny@)) == whole,
            heft(contents(bins@), sizes(medium@), sizes(small@), sizes(tiny@)) == heft(
                contents(old(bins)@),
                sizes(old(medium)@),
                sizes(old(small)@),
                sizes(old(tiny)@),
            ),
            forall|c: nat|
                bounded(c, sizes(old(medium)@)) ==> bounded(c, #[trigger] sizes(medium@)),
            forall|c: nat| bounded(c, sizes(old(small)@)) ==> bounded(c, #[trigger] sizes(small@)),
            forall|c: nat| bounded(c, sizes(old(tiny)@)) ==> bounded(c, #[trigger] sizes(tiny@)),
            old(medium).len() == 0 && old(small).len() == 0 && old(tiny).len() == 0 ==> bins@
                == old(bins)@ && medium.len() == 0 && small.len() == 0 && tiny.len() == 0,
        decreases bins.len() - b,
    {
        let ghost s0 = contents(bins@);
        let ghost m0 = sizes(medium@);
        let ghost sm0 = sizes(small@);
        let ghost t0 = sizes(tiny@);
        fill_bin(bins, b, medium);
        let ghost s1 = contents(bins@);
        let ghost m1 = sizes(medium@);
        assert(pool(s1, m1, sm0, t0) =~= holding(s1, m1).add(sm0.to_multiset()).add(
            t0.to_multiset(),
        ));
        assert(pool(s0, m0, sm0, t0) =~= holding(s0, m0).add(sm0.to_multiset()).add(
            t0.to_multiset(),
        ));
        fill_bin(bins, b, small);
        let ghost s2 = contents(bins@);
        let ghost sm1 = sizes(small@);
        assert(pool(s2, m1, sm1, t0) =~= holding(s2, sm1).add(m1.to_multiset()).add(
            t0.to_multiset(),
        ));
        assert(pool(s1, m1, sm0, t0) =~= holding(s1, sm0).add(m1.to_multiset()).add(
            t0.to_multiset(),
        ));
        fill_bin(bins, b, tiny);
        let ghost s3 = contents(bins@);
        let ghost t1 = sizes(tiny@);
        assert(pool(s3, m1, sm1, t1) =~= holding(s3, t1).add(m1.to_multiset()).add(
            sm1.to_multiset(),
        ));
        assert(pool(s2, m1, sm1, t0) =~= holding(s2, t0).add(m1.to_multiset()).add(
            sm1.to_multiset(),
        ));
        b += 1;
    }
}

/// The bins after the modified strategy packed all items of `sizes` into the bins of `state`:
/// the large sizes are seated first, each bin then takes one medium size, the small sizes go in
/// pairs from the last bin backwards, every bin is filled up from what is left, and the rest
/// is packed largest first into the first bin that fits.
pub open spec fn modified(cap: nat, state: Seq<Seq<nat>>, sizes: Seq<nat>) -> Seq<Seq<nat>> {
    let seated = seat_all(cap, state, 0, largest_first(select(cap, sizes, Tier::Large)));
    let second = medium_pass(cap, seated, largest_first(select(cap, sizes, Tier::Medium)), 0);
    let third = small_pass(
        cap,
        second.0,
        largest_first(select(cap, sizes, Tier::Small)),
        second.0.len() as int,
    );
    let fourth = top_off(
        cap,
        third.0,
        second.1,
        third.1,
        largest_first(select(cap, sizes, Tier::Tiny)),
        0,
    );
    pack_growing(FirstFit, cap, fourth.0, largest_first(fourth.1 + fourth.2 + fourth.3))
}

/// An offline strategy that orders the item by descending size and packs them using a modified
/// version of [`FirstFitDecreasing`], which classifies items by size and improves on regular FFD
/// for items larger than half the bin capacity.
pub struct ModifiedFirstFitDecreasing;

impl Strategy for ModifiedFirstFitDecreasing {
    open spec fn outcome(&self, cap: nat, state: Seq<Seq<nat>>, sizes: Seq<nat>) -> Seq<
        Seq<nat>,
    > {
        modified(cap, state, sizes)
    }

    fn pack_all<B: Bin, I: Item>(&self, bins: &mut Vec<B>, items: &mut Vec<I>) {
        broadcast use vstd::multiset::group_multiset_axioms;
        broadcast use vstd::seq_lib::group_to_multiset_ensures;

        let ghost cap = B::capacity_spec();
        let ghost b0 = contents(bins@);
        let ghost all = sizes(items@);
        // Group items by size.
        let tiers = split_tiers(B::capacity(), items);
        let mut large = tiers.large;
        let mut medium = tiers.medium;
        let mut small = tiers.small;
        let mut tiny = tiers.tiny;
        let ghost l0 = sizes(large@);
        let ghost m0 = sizes(medium@);
        let ghost s0 = sizes(small@);
        let ghost t0 = sizes(tiny@);

        // Seat all large items, adding new bins as needed.
        sort_largest_first(&mut large);
        seat_large(bins, &mut large);
        let ghost b1 = contents(bins@);

        // Place the largest remaining medium item that fits in each bin.
        sort_largest_first(&mut medium);
        let ghost m1 = sizes(medium@);
        place_medium(bins, &mut medium);
        let ghost b2 = contents(bins@);
        let ghost m2 = sizes(medium@);

        // Place the smallest and largest remaining small items that fit in each bin, going
        // backwards.
        sort_largest_first(&mut small);
        let ghost s1 = sizes(small@);
        place_small(bins, &mut small);
        let ghost b3 = contents(bins@);
        let ghost s3 = sizes(small@);

        // Place the largest remaining items that fit in each bin.
        sort_largest_first(&mut tiny);
        let ghost t1 = sizes(tiny@);
        top_off_bins(bins, &mut medium, &mut small, &mut tiny);
        let ghost b4 = contents(bins@);
        let ghost m4 = sizes(medium@);
        let ghost s4 = sizes(small@);
        let ghost t4 = sizes(tiny@);

        // Pack the remaining items largest first, into new bins where needed.
        let mut rest = medium;
        rest.append(&mut small);
        rest.append(&mut tiny);
        proof {
            assert(sizes(rest@) =~= m4 + s4 + t4);
            vstd::seq_lib::lemma_multiset_commutative(m4 + s4, t4);
            vstd::seq_lib::lemma_multiset_commutative(m4, s4);
            lemma_total_join(m4 + s4, t4);
            lemma_total_join(m4, s4);
            assert(bounded(cap, m4) && bounded(cap, s4) && bounded(cap, t4));
            assert(bounded(cap, m4 + s4 + t4));
        }
        FirstFitDecreasing.pack_all(bins, &mut rest);
        proof {
            let b5 = load(contents(bins@));
            assert(b5 =~= pool(b4, m4, s4, t4));
            assert(pool(b3, m2, s3, t1) =~= holding(b3, s3).add(m2.to_multiset()).add(
                t1.to_multiset(),
            ));
            assert(holding(b2, s1).add(m2.to_multiset()) =~= holding(b2, m2).add(
                s1.to_multiset(),
            ));
            assert(b5 =~= load(b0).add(l0.to_multiset()).add(m0.to_multiset()).add(
                s0.to_multiset(),
            ).add(t0.to_multiset()));
            assert(b5 =~= holding(b0, all));
        }
    }
}

} // verus!
