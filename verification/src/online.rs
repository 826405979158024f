//! Online bin packing strategies.
//!
//! Online strategies pack items into bins as they arrive, without knowing the sizes of future
//! items. Consequently, the API allows for sorting one item at a time.

use crate::model::bounded;
use crate::model::contents;
use crate::model::lemma_open_bin;
use crate::model::holding;
use crate::model::lemma_put;
use crate::model::lemma_take_out;
use crate::model::weight;
use crate::model::within;
use crate::model::lemma_total_push;
use crate::model::load;
use crate::model::used;
use crate::model::lemma_total_single;
use crate::model::open_bin;
use crate::model::put;
use crate::model::room;
use crate::model::sizes;
use crate::model::total;
use crate::model::sound;
use crate::Bin;
use crate::Item;
use vstd::prelude::*;

verus! {

/// Bin `i` exists and has room for `size`.
pub open spec fn fits(room: Seq<int>, size: nat, i: int) -> bool {
    0 <= i < room.len() && size <= room[i]
}

/// An online strategy for packing items into bins, inspecting one item at a time.
pub trait Strategy {
    /// The bin chosen for an item of `size`, given what is left in each bin; `None` where the
    /// strategy finds no bin suitable.
    spec fn choice(&self, room: Seq<int>, size: nat) -> Option<int>;

    /// A chosen bin exists and has room for the item.
    proof fn lemma_choice_fits(&self, room: Seq<int>, size: nat)
        ensures
            self.choice(room, size) matches Some(i) ==> fits(room, size, i),
    ;

    /// Returns the index of the next bin to pack the item into, or `None` if no bin is suitable.
    fn next_idx<B: Bin, I: Item>(&self, bins: &[B], item: &I) -> (idx: Option<usize>)
        requires
            sound(bins@),
        ensures
            match idx {
                Some(i) => self.choice(
                    room(B::capacity_spec(), contents(bins@)),
                    item.size_spec(),
                ) == Some(i as int),
                None => self.choice(room(B::capacity_spec(), contents(bins@)), item.size_spec())
                    is None,
            },
    ;
}

/// `i` is the lowest index with room for `size`.
pub open spec fn is_first_fit(room: Seq<int>, size: nat, i: int) -> bool {
    fits(room, size, i) && forall|j: int| 0 <= j < i ==> !fits(room, size, j)
}

/// `i` has the least room among the bins with room for `size`, and is the lowest such index.
pub open spec fn is_best_fit(room: Seq<int>, size: nat, i: int) -> bool {
    fits(room, size, i) && forall|j: int|
        fits(room, size, j) ==> room[i] < room[j] || (room[i] == room[j] && i <= j)
}

/// An online strategy that packs items into the first bin that has enough capacity.
pub struct FirstFit;

impl Strategy for FirstFit {
    open spec fn choice(&self, room: Seq<int>, size: nat) -> Option<int> {
        if exists|i: int| is_first_fit(room, size, i) {
            Some(choose|i: int| is_first_fit(room, size, i))
        } else {
            None
        }
    }

    proof fn lemma_choice_fits(&self, room: Seq<int>, size: nat) {
    }

    fn next_idx<B: Bin, I: Item>(&self, bins: &[B], item: &I) -> (idx: Option<usize>) {
        let ghost r = room(B::capacity_spec(), contents(bins@));
        let size = item.size();
        let mut i: usize = 0;
        while i < bins.len()
            invariant
                i <= bins.len(),
                size == item.size_spec(),
                r == room(B::capacity_spec(), contents(bins@)),
                sound(bins@),
                forall|j: int| 0 <= j < i ==> !fits(r, size as nat, j),
            decreases bins.len() - i,
        {
            assert(contents(bins@)[i as int] == bins@[i as int].packed());
            if size <= bins[i].available() {
                proof {
                    assert(is_first_fit(r, size as nat, i as int));
                    let c = choose|c: int| is_first_fit(r, size as nat, c);
                    assert(fits(r, size as nat, c));
                    assert(c == i);
                }
                return Some(i);
            }
            i += 1;
        }
        None
    }
}

/// An online strategy that packs items into the last bin if possible.
pub struct NextFit;

impl Strategy for NextFit {
    open spec fn choice(&self, room: Seq<int>, size: nat) -> Option<int> {
        if fits(room, size, room.len() - 1) {
            Some(room.len() - 1)
        } else {
            None
        }
    }

    proof fn lemma_choice_fits(&self, room: Seq<int>, size: nat) {
    }

    fn next_idx<B: Bin, I: Item>(&self, bins: &[B], item: &I) -> (idx: Option<usize>) {
        let n = bins.len();
        if n > 0 {
            assert(contents(bins@)[n - 1] == bins@[n - 1].packed());
            if item.size() <= bins[n - 1].available() {
                return Some(n - 1);
            }
        }
        None
    }
}

/// An online strategy that packs items into the bin with the least available capacity.
pub struct BestFit;

impl Strategy for BestFit {
    open spec fn choice(&self, room: Seq<int>, size: nat) -> Option<int> {
        if exists|i: int| is_best_fit(room, size, i) {
            Some(choose|i: int| is_best_fit(room, size, i))
        } else {
            None
        }
    }

    proof fn lemma_choice_fits(&self, room: Seq<int>, size: nat) {
    }

    fn next_idx<B: Bin, I: Item>(&self, bins: &[B], item: &I) -> (idx: Option<usize>) {
        let ghost r = room(B::capacity_spec(), contents(bins@));
        let size = item.size();
        let mut best: Option<(usize, usize)> = None;
        let mut i: usize = 0;
        while i < bins.len()
            invariant
                i <= bins.len(),
                size == item.size_spec(),
                r == room(B::capacity_spec(), contents(bins@)),
                sound(bins@),
                best is None ==> forall|j: int| 0 <= j < i ==> !fits(r, size as nat, j),
                best matches Some((b, a)) ==> b < i && a == r[b as int] && fits(
                    r,
                    size as nat,
                    b as int,
                ) && forall|j: int|
                    0 <= j < i && fits(r, size as nat, j) ==> a < r[j] || (a == r[j] && b <= j),
            decreases bins.len() - i,
        {
            assert(contents(bins@)[i as int] == bins@[i as int].packed());
            let a = bins[i].available();
            if size <= a {
                match best {
                    None => {
                        best = Some((i, a));
                    },
                    Some((_, least)) => {
                        if a < least {
                            best = Some((i, a));
                        }
                    },
                }
            }
            i += 1;
        }
        match best {
            None => {
                None
            },
            Some((b, _)) => {
                proof {
                    assert(is_best_fit(r, size as nat, b as int));
                    let c = choose|c: int| is_best_fit(r, size as nat, c);
                    assert(fits(r, size as nat, c));
                    assert(fits(r, size as nat, b as int));
                    assert(c == b);
                }
                Some(b)
            },
        }
    }
}

/// Bin `i` comes before bin `j` when bins are ranked by room, most room first, and by index
/// among bins with equal room.
pub open spec fn ahead(room: Seq<int>, i: int, j: int) -> bool {
    room[i] > room[j] || (room[i] == room[j] && i < j)
}

/// `i` is the first of the bins with room for `size`, ranked by `ahead`.
pub open spec fn is_worst_fit(room: Seq<int>, size: nat, i: int) -> bool {
    fits(room, size, i) && forall|j: int| fits(room, size, j) && j != i ==> ahead(room, i, j)
}

/// The bin with the most room among those with room for `size`, the lowest index among equals.
pub open spec fn worst_fit(room: Seq<int>, size: nat) -> Option<int> {
    if exists|i: int| is_worst_fit(room, size, i) {
        Some(choose|i: int| is_worst_fit(room, size, i))
    } else {
        None
    }
}

/// `i` is the second of the bins with room for `size`, ranked by `ahead`, and `w` the first.
pub open spec fn is_runner_up(room: Seq<int>, size: nat, w: int, i: int) -> bool {
    fits(room, size, i) && i != w && forall|j: int|
        fits(room, size, j) && j != w && j != i ==> ahead(room, i, j)
}

/// The second of the bins with room for `size`, ranked by `ahead`; the first where it is the
/// only one.
pub open spec fn almost_worst_fit(room: Seq<int>, size: nat) -> Option<int> {
    match worst_fit(room, size) {
        None => None,
        Some(w) => if exists|i: int| is_runner_up(room, size, w, i) {
            Some(choose|i: int| is_runner_up(room, size, w, i))
        } else {
            Some(w)
        },
    }
}

/// An online strategy that packs items into the bin with the most available capacity.
pub struct WorstFit;

impl Strategy for WorstFit {
    open spec fn choice(&self, room: Seq<int>, size: nat) -> Option<int> {
        worst_fit(room, size)
    }

    proof fn lemma_choice_fits(&self, room: Seq<int>, size: nat) {
    }

    fn next_idx<B: Bin, I: Item>(&self, bins: &[B], item: &I) -> (idx: Option<usize>) {
        let ghost r = room(B::capacity_spec(), contents(bins@));
        let size = item.size();
        let mut worst: Option<(usize, usize)> = None;
        let mut i: usize = 0;
        while i < bins.len()
            invariant
                i <= bins.len(),
                size == item.size_spec(),
                r == room(B::capacity_spec(), contents(bins@)),
                sound(bins@),
                worst is None ==> forall|j: int| 0 <= j < i ==> !fits(r, size as nat, j),
                worst matches Some((w, a)) ==> w < i && a == r[w as int] && fits(
                    r,
                    size as nat,
                    w as int,
                ) && forall|j: int|
                    0 <= j < i && fits(r, size as nat, j) && j != w ==> ahead(r, w as int, j),
            decreases bins.len() - i,
        {
            assert(contents(bins@)[i as int] == bins@[i as int].packed());
            let a = bins[i].available();
            if size <= a {
                match worst {
                    None => {
                        worst = Some((i, a));
                    },
                    Some((_, most)) => {
                        if a > most {
                            worst = Some((i, a));
                        }
                    },
                }
            }
            i += 1;
        }
        match worst {
            None => None,
            Some((w, _)) => {
                proof {
                    assert(is_worst_fit(r, size as nat, w as int));
                    let c = choose|c: int| is_worst_fit(r, size as nat, c);
                    assert(fits(r, size as nat, c));
                    assert(fits(r, size as nat, w as int));
                    assert(c == w);
                }
                Some(w)
            },
        }
    }
}

/// An online strategy that packs items into the bin with the second most available capacity,
/// and into the only bin with enough capacity where there is just one.
pub struct AlmostWorstFit;

impl Strategy for AlmostWorstFit {
    open spec fn choice(&self, room: Seq<int>, size: nat) -> Option<int> {
        almost_worst_fit(room, size)
    }

    proof fn lemma_choice_fits(&self, room: Seq<int>, size: nat) {
    }

    fn next_idx<B: Bin, I: Item>(&self, bins: &[B], item: &I) -> (idx: Option<usize>) {
        let ghost r = room(B::capacity_spec(), contents(bins@));
        let size = item.size();
        let mut worst: Option<(usize, usize)> = None;
        let mut second: Option<(usize, usize)> = None;
        let mut i: usize = 0;
        while i < bins.len()
            invariant
                i <= bins.len(),
                size == item.size_spec(),
                r == room(B::capacity_spec(), contents(bins@)),
                sound(bins@),
                worst is None ==> second is None && forall|j: int|
                    0 <= j < i ==> !fits(r, size as nat, j),
                worst matches Some((w, a)) ==> w < i && a == r[w as int] && fits(
                    r,
                    size as nat,
                    w as int,
                ) && forall|j: int|
                    0 <= j < i && fits(r, size as nat, j) && j != w ==> ahead(r, w as int, j),
                worst matches Some((w, a)) ==> (second is None ==> forall|j: int|
                    0 <= j < i && fits(r, size as nat, j) ==> j == w),
                worst matches Some((w, a)) ==> (second matches Some((s, b)) ==> s < i && s != w
                    && b == r[s as int] && fits(r, size as nat, s as int) && forall|j: int|
                    0 <= j < i && fits(r, size as nat, j) && j != w && j != s ==> ahead(
                        r,
                        s as int,
                        j,
                    )),
            decreases bins.len() - i,
        {
            assert(contents(bins@)[i as int] == bins@[i as int].packed());
            let a = bins[i].available();
            if size <= a {
                match worst {
                    None => {
                        worst = Some((i, a));
                    },
                    Some((w, most)) => {
                        if a > most {
                            second = Some((w, most));
                            worst = Some((i, a));
                        } else {
                            match second {
                                None => {
                                    second = Some((i, a));
                                },
                                Some((_, next)) => {
                                    if a > next {
                                        second = Some((i, a));
                                    }
                                },
                            }
                        }
                    },
                }
            }
            i += 1;
        }
        match worst {
            None => None,
            Some((w, _)) => {
                proof {
                    assert(is_worst_fit(r, size as nat, w as int));
                    let c = choose|c: int| is_worst_fit(r, size as nat, c);
                    assert(fits(r, size as nat, c));
                    assert(fits(r, size as nat, w as int));
                    assert(c == w);
                }
                match second {
                    None => Some(w),
                    Some((s, _)) => {
                        proof {
                            assert(is_runner_up(r, size as nat, w as int, s as int));
                            let c = choose|c: int| is_runner_up(r, size as nat, w as int, c);
                            assert(fits(r, size as nat, c));
                            assert(fits(r, size as nat, s as int));
                            assert(c == s);
                        }
                        Some(s)
                    },
                }
            },
        }
    }
}

/// The bins after the strategy placed one item of `size`: in the chosen bin, or in a fresh bin
/// at the end where none was chosen.
pub open spec fn place<S: Strategy>(
    strategy: S,
    cap: nat,
    state: Seq<Seq<nat>>,
    size: nat,
) -> Seq<Seq<nat>> {
    match strategy.choice(room(cap, state), size) {
        Some(i) => put(state, i, size),
        None => open_bin(state, size),
    }
}

/// The bins after the strategy placed the items of `sizes` one by one, first to last, opening a
/// bin whenever none was chosen.
pub open spec fn pack_growing<S: Strategy>(
    strategy: S,
    cap: nat,
    state: Seq<Seq<nat>>,
    sizes: Seq<nat>,
) -> Seq<Seq<nat>>
    decreases sizes.len(),
{
    if sizes.len() == 0 {
        state
    } else {
        place(strategy, cap, pack_growing(strategy, cap, state, sizes.drop_last()), sizes.last())
    }
}

/// Whatever the strategy chooses, packing with growth keeps every bin within capacity, loses
/// no bin, and leaves in the bins exactly what was there before together with the items.
pub proof fn lemma_pack_growing_keeps<S: Strategy>(
    strategy: S,
    cap: nat,
    state: Seq<Seq<nat>>,
    sizes: Seq<nat>,
)
    requires
        within(cap, state),
        bounded(cap, sizes),
    ensures
        within(cap, pack_growing(strategy, cap, state, sizes)),
        pack_growing(strategy, cap, state, sizes).len() >= state.len(),
        load(pack_growing(strategy, cap, state, sizes)) == holding(state, sizes),
        used(pack_growing(strategy, cap, state, sizes)) == weight(state, sizes),
    decreases sizes.len(),
{
    broadcast use vstd::seq_lib::group_to_multiset_ensures;
    broadcast use vstd::multiset::group_multiset_axioms;

    if sizes.len() == 0 {
        assert(holding(state, sizes) =~= load(state));
    } else {
        let size = sizes.last();
        let prior = pack_growing(strategy, cap, state, sizes.drop_last());
        let after = place(strategy, cap, prior, size);
        lemma_pack_growing_keeps(strategy, cap, state, sizes.drop_last());
        strategy.lemma_choice_fits(room(cap, prior), size);
        assert(sizes.drop_last().push(size) =~= sizes);
        vstd::seq_lib::to_multiset_build(sizes.drop_last(), size);
        match strategy.choice(room(cap, prior), size) {
            Some(i) => {
                lemma_put(prior, i, size);
                lemma_total_push(prior[i], size);
                assert forall|j: int| 0 <= j < after.len() implies total(#[trigger] after[j])
                    <= cap by {
                    if j != i {
                        assert(after[j] == prior[j]);
                    }
                }
            },
            None => {
                lemma_open_bin(prior, size);
                lemma_total_single(size);
                assert forall|j: int| 0 <= j < after.len() implies total(#[trigger] after[j])
                    <= cap by {
                    if j < prior.len() {
                        assert(after[j] == prior[j]);
                    }
                }
            },
        }
        assert(load(after) =~= holding(state, sizes));
    }
}

/// Moves the items out, last first, and leaves `items` empty.
pub fn drain_reversed<T>(items: &mut Vec<T>) -> (out: Vec<T>)
    ensures
        final(items)@.len() == 0,
        out@ == old(items)@.reverse(),
{
    let ghost before = items@;
    let mut out: Vec<T> = Vec::new();
    while items.len() > 0
        invariant
            items@ == before.take(items.len() as int),
            out.len() + items.len() == before.len(),
            forall|j: int| 0 <= j < out.len() ==> out[j] == before[before.len() - 1 - j],
        decreases items.len(),
    {
        let item = items.pop().unwrap();
        out.push(item);
        assert(items@ =~= before.take(items.len() as int));
    }
    assert(out@ =~= before.reverse());
    out
}

/// Packs an item into bin `i`, which has room for it.
pub fn pack_at<B: Bin, I: Item>(bins: &mut Vec<B>, i: usize, item: I)
    requires
        sound(old(bins)@),
        i < old(bins).len(),
        total(old(bins)[i as int].packed()) + item.size_spec() <= B::capacity_spec(),
    ensures
        sound(final(bins)@),
        final(bins).len() == old(bins).len(),
        contents(final(bins)@) == put(contents(old(bins)@), i as int, item.size_spec()),
        load(contents(final(bins)@)) == load(contents(old(bins)@)).insert(item.size_spec()),
        used(contents(final(bins)@)) == used(contents(old(bins)@)) + item.size_spec(),
{
    let ghost before = contents(bins@);
    let ghost size = item.size_spec();
    proof {
        assert(before[i as int] == bins@[i as int].packed());
        lemma_put(before, i as int, size);
        lemma_total_push(before[i as int], size);
    }
    bins[i].pack(item);
    assert(contents(bins@) =~= put(before, i as int, size));
}

/// Packs an item into a fresh bin at the end.
pub fn pack_new<B: Bin, I: Item>(bins: &mut Vec<B>, item: I)
    requires
        sound(old(bins)@),
        item.size_spec() <= B::capacity_spec(),
    ensures
        sound(final(bins)@),
        final(bins).len() == old(bins).len() + 1,
        contents(final(bins)@) == open_bin(contents(old(bins)@), item.size_spec()),
        load(contents(final(bins)@)) == load(contents(old(bins)@)).insert(item.size_spec()),
        used(contents(final(bins)@)) == used(contents(old(bins)@)) + item.size_spec(),
{
    let ghost before = contents(bins@);
    let ghost size = item.size_spec();
    let mut bin = B::empty();
    proof {
        lemma_total_single(size);
        lemma_open_bin(before, size);
        assert(Seq::<nat>::empty().push(size) =~= seq![size]);
        assert(total(Seq::<nat>::empty()) == 0);
    }
    bin.pack(item);
    bins.push(bin);
    assert(contents(bins@) =~= open_bin(before, size));
}

/// Places one item as the strategy says, opening a bin where it chooses none.
pub fn place_item<S: Strategy, B: Bin, I: Item>(strategy: &S, bins: &mut Vec<B>, item: I)
    requires
        sound(old(bins)@),
        item.size_spec() <= B::capacity_spec(),
    ensures
        sound(final(bins)@),
        contents(final(bins)@) == place(
            *strategy,
            B::capacity_spec(),
            contents(old(bins)@),
            item.size_spec(),
        ),
        load(contents(final(bins)@)) == load(contents(old(bins)@)).insert(item.size_spec()),
        used(contents(final(bins)@)) == used(contents(old(bins)@)) + item.size_spec(),
{
    match strategy.next_idx(bins.as_slice(), &item) {
        Some(i) => {
            proof {
                strategy.lemma_choice_fits(
                    room(B::capacity_spec(), contents(bins@)),
                    item.size_spec(),
                );
                assert(contents(bins@)[i as int] == bins@[i as int].packed());
            }
            pack_at(bins, i, item);
        },
        None => {
            pack_new(bins, item);
        },
    }
}

/// Packs all items, first to last, creating new bins as needed, and leaves `items` empty.
pub fn pack_draining<S: Strategy, B: Bin, I: Item>(
    strategy: &S,
    bins: &mut Vec<B>,
    items: &mut Vec<I>,
)
    requires
        sound(old(bins)@),
        bounded(B::capacity_spec(), sizes(old(items)@)),
    ensures
        final(items)@.len() == 0,
        sound(final(bins)@),
        contents(final(bins)@) == pack_growing(
            *strategy,
            B::capacity_spec(),
            contents(old(bins)@),
            sizes(old(items)@),
        ),
        load(contents(final(bins)@)) == load(contents(old(bins)@)).add(
            sizes(old(items)@).to_multiset(),
        ),
        used(contents(final(bins)@)) == used(contents(old(bins)@)) + total(sizes(old(items)@)),
        old(items)@.len() == 0 ==> final(bins)@ == old(bins)@,
{
    broadcast use vstd::seq_lib::group_to_multiset_ensures;
    broadcast use vstd::multiset::group_multiset_axioms;

    let ghost all = sizes(items@);
    let ghost before = contents(bins@);
    let ghost given = items@;
    let mut stack = drain_reversed(items);
    assert(all.take(0) =~= Seq::<nat>::empty());
    assert(load(before).add(Seq::<nat>::empty().to_multiset()) =~= load(before));
    while stack.len() > 0
        invariant
            items@.len() == 0,
            stack.len() <= all.len(),
            all.len() == given.len(),
            all == sizes(given),
            bounded(B::capacity_spec(), all),
            forall|j: int| 0 <= j < stack.len() ==> stack[j] == given[given.len() - 1 - j],
            sound(bins@),
            contents(bins@) == pack_growing(
                *strategy,
                B::capacity_spec(),
                before,
                all.take(all.len() - stack.len()),
            ),
            load(contents(bins@)) == load(before).add(
                all.take(all.len() - stack.len()).to_multiset(),
            ),
            used(contents(bins@)) == used(before) + total(all.take(all.len() - stack.len())),
            stack.len() == all.len() ==> bins@ == old(bins)@,
        decreases stack.len(),
    {
        let ghost k = all.len() - stack.len();
        let item = stack.pop().unwrap();
        proof {
            assert(item == given[k]);
            assert(item.size_spec() == all[k]);
            assert(all.take(k + 1).drop_last() =~= all.take(k));
            assert(all.take(k + 1) =~= all.take(k).push(all[k]));
            vstd::seq_lib::to_multiset_build(all.take(k), all[k]);
            assert(load(before).add(all.take(k).to_multiset()).insert(all[k]) =~= load(before).add(
                all.take(k + 1).to_multiset(),
            ));
        }
        place_item(strategy, bins, item);
    }
    assert(all.take(all.len() as int) =~= all);
}

/// Packs bins with items using a given online strategy, creating new bins as needed.
///
/// This is a convenience function to pack a lot of items at once.
pub fn pack_bins<S: Strategy, B: Bin, I: Item>(strategy: S, bins: &mut Vec<B>, items: Vec<I>)
    requires
        sound(old(bins)@),
        bounded(B::capacity_spec(), sizes(items@)),
    ensures
        sound(final(bins)@),
        contents(final(bins)@) == pack_growing(
            strategy,
            B::capacity_spec(),
            contents(old(bins)@),
            sizes(items@),
        ),
        load(contents(final(bins)@)) == load(contents(old(bins)@)).add(
            sizes(items@).to_multiset(),
        ),
        used(contents(final(bins)@)) == used(contents(old(bins)@)) + total(sizes(items@)),
        items@.len() == 0 ==> final(bins)@ == old(bins)@,
{
    let mut items = items;
    pack_draining(&strategy, bins, &mut items);
}

/// Packs bins with items using a given online strategy, and returns the items that were not
/// packed, in their order.
///
/// If the strategy fails to find a suitable bin for an item, the function stops: that item and
/// all that follow it are returned.
pub fn pack_existing_bins<S: Strategy, B: Bin, I: Item>(
    strategy: S,
    bins: &mut [B],
    items: Vec<I>,
) -> (rest: Vec<I>)
    requires
        sound(old(bins)@),
    ensures
        sound(final(bins)@),
        final(bins).len() == old(bins).len(),
        rest.len() <= items.len(),
        rest@ == items@.skip(items.len() - rest.len()),
        contents(final(bins)@) == pack_growing(
            strategy,
            B::capacity_spec(),
            contents(old(bins)@),
            sizes(items@).take(items.len() - rest.len()),
        ),
        forall|j: int|
            0 <= j < items.len() - rest.len() ==> (#[trigger] strategy.choice(
                room(
                    B::capacity_spec(),
                    pack_growing(
                        strategy,
                        B::capacity_spec(),
                        contents(old(bins)@),
                        sizes(items@).take(j),
                    ),
                ),
                sizes(items@)[j],
            )) is Some,
        rest.len() > 0 ==> strategy.choice(
            room(B::capacity_spec(), contents(final(bins)@)),
            rest[0].size_spec(),
        ) is None,
        holding(contents(final(bins)@), sizes(rest@)) == holding(
            contents(old(bins)@),
            sizes(items@),
        ),
        weight(contents(final(bins)@), sizes(rest@)) == weight(contents(old(bins)@), sizes(items@)),
        items@.len() == 0 ==> final(bins)@ == old(bins)@,
{
    broadcast use vstd::seq_lib::group_to_multiset_ensures;
    broadcast use vstd::multiset::group_multiset_axioms;

    let ghost all = sizes(items@);
    let ghost before = contents(bins@);
    let ghost cap = B::capacity_spec();
    let mut items = items;
    let ghost given = items@;
    let mut stack = drain_reversed(&mut items);
    let mut open = true;
    assert(all.skip(0) =~= all);
    while open && stack.len() > 0
        invariant
            stack.len() <= all.len(),
            all.len() == given.len(),
            all == sizes(given),
            cap == B::capacity_spec(),
            bins.len() == old(bins).len(),
            forall|j: int| 0 <= j < stack.len() ==> stack[j] == given[given.len() - 1 - j],
            sound(bins@),
            contents(bins@) == pack_growing(strategy, cap, before, all.take(all.len() - stack.len())),
            forall|j: int|
                0 <= j < all.len() - stack.len() ==> (#[trigger] strategy.choice(
                    room(cap, pack_growing(strategy, cap, before, all.take(j))),
                    all[j],
                )) is Some,
            !open ==> stack.len() > 0 && strategy.choice(
                room(cap, contents(bins@)),
                stack[stack.len() - 1].size_spec(),
            ) is None,
            stack.len() == all.len() ==> bins@ == old(bins)@,
            holding(contents(bins@), all.skip(all.len() - stack.len())) == holding(before, all),
            weight(contents(bins@), all.skip(all.len() - stack.len())) == weight(before, all),
        decreases stack.len() + (if open { 1int } else { 0int }),
    {
        let ghost k = all.len() - stack.len();
        let ghost state = contents(bins@);
        let n = stack.len();
        assert(stack[n - 1] == given[k]);
        match strategy.next_idx(bins, &stack[n - 1]) {
            Some(i) => {
                let item = stack.pop().unwrap();
                proof {
                    strategy.lemma_choice_fits(room(cap, state), all[k]);
                    assert(state[i as int] == bins@[i as int].packed());
                    lemma_total_push(state[i as int], all[k]);
                    assert(all.take(k + 1).drop_last() =~= all.take(k));
                    lemma_put(state, i as int, all[k]);
                    lemma_take_out(all.skip(k), 0);
                    assert(all.skip(k).remove(0) =~= all.skip(k + 1));
                }
                bins[i].pack(item);
                assert(contents(bins@) =~= put(state, i as int, all[k]));
                assert(holding(contents(bins@), all.skip(k + 1)) =~= holding(state, all.skip(k)));
            },
            None => {
                open = false;
            },
        }
    }
    let rest = drain_reversed(&mut stack);
    assert(rest@ =~= given.skip(given.len() - rest.len()));
    assert(sizes(rest@) =~= all.skip(all.len() - rest.len()));
    rest
}

} // verus!
