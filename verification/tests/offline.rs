use bin_packing::offline::first_fitting;
use bin_packing::offline::sort_largest_first;
use bin_packing::offline::split_tiers;
use bin_packing::offline::tier_of;
use bin_packing::offline::BestFitDecreasing;
use bin_packing::offline::FirstFitDecreasing;
use bin_packing::offline::ModifiedFirstFitDecreasing;
use bin_packing::offline::Strategy;
use bin_packing::offline::Tier;
use bin_packing::online::pack_bins;
use bin_packing::online::FirstFit;
use bin_packing::sized::FixedBin;
use bin_packing::sized::SizedItem;
use bin_packing::Bin;
use bin_packing::Item;

type Ten = FixedBin<10>;
type Twelve = FixedBin<12>;

fn ten_with_room(rooms: &[usize]) -> Vec<Ten> {
    let mut bins = vec![];
    for room in rooms {
        let mut bin = Ten::default();
        if *room < 10 {
            bin.pack(SizedItem::new(10 - *room));
        }
        bins.push(bin);
    }
    bins
}

fn items_of(sizes: &[usize]) -> Vec<SizedItem> {
    sizes.iter().map(|size| SizedItem::new(*size)).collect()
}

fn sizes_of(items: &[SizedItem]) -> Vec<usize> {
    items.iter().map(|item| item.size()).collect()
}

fn held<const CAP: usize>(bins: &[FixedBin<CAP>]) -> Vec<Vec<usize>> {
    bins.iter().map(|bin| bin.sizes().clone()).collect()
}

#[test]
fn sorting_puts_the_largest_first() {
    let mut items = items_of(&[2, 9, 0, 5, 9, 1]);
    sort_largest_first(&mut items);
    assert_eq!(sizes_of(&items), vec![9, 9, 5, 2, 1, 0]);
}

#[test]
fn first_fit_decreasing_takes_the_largest_item_first() {
    let mut bins: Vec<Ten> = vec![];
    let mut items = items_of(&[2, 9]);
    FirstFitDecreasing.pack_all(&mut bins, &mut items);
    assert!(items.is_empty());
    assert_eq!(held(&bins), vec![vec![9], vec![2]]);
}

#[test]
fn first_fit_decreasing_packs_a_known_case() {
    let mut bins: Vec<Ten> = vec![];
    let mut items = items_of(&[3, 4, 3, 3, 4, 3]);
    FirstFitDecreasing.pack_all(&mut bins, &mut items);
    assert!(items.is_empty());
    assert_eq!(held(&bins), vec![vec![4, 4], vec![3, 3, 3], vec![3]]);
}

#[test]
fn best_fit_decreasing_prefers_the_tightest_bin() {
    let mut first = ten_with_room(&[8, 5]);
    let mut best = ten_with_room(&[8, 5]);
    FirstFitDecreasing.pack_all(&mut first, &mut items_of(&[1, 5]));
    BestFitDecreasing.pack_all(&mut best, &mut items_of(&[1, 5]));
    assert_eq!(held(&first), vec![vec![2, 5, 1], vec![5]]);
    assert_eq!(held(&best), vec![vec![2, 1], vec![5, 5]]);
}

#[test]
fn first_fit_decreasing_needs_no_more_bins_than_first_fit_on_ascending_input() {
    let ascending = [2, 3, 4, 5, 6, 7, 8];
    let mut online: Vec<Ten> = vec![];
    pack_bins(FirstFit, &mut online, items_of(&ascending));
    let mut offline: Vec<Ten> = vec![];
    FirstFitDecreasing.pack_all(&mut offline, &mut items_of(&ascending));
    assert_eq!(online.len(), 5);
    assert_eq!(offline.len(), 4);
    assert!(offline.len() <= online.len());
    assert_eq!(held(&offline), vec![vec![8, 2], vec![7, 3], vec![6, 4], vec![5]]);
}

#[test]
fn first_fit_on_a_lucky_order_can_need_fewer_bins_than_first_fit_decreasing() {
    let mut online: Vec<Ten> = vec![];
    pack_bins(FirstFit, &mut online, items_of(&[4, 3, 3, 4, 3, 3]));
    let mut offline: Vec<Ten> = vec![];
    FirstFitDecreasing.pack_all(&mut offline, &mut items_of(&[4, 3, 3, 4, 3, 3]));
    assert_eq!(held(&online), vec![vec![4, 3, 3], vec![4, 3, 3]]);
    assert_eq!(held(&offline), vec![vec![4, 4], vec![3, 3, 3], vec![3]]);
}

#[test]
fn items_above_half_the_capacity_take_a_bin_each() {
    let mut online: Vec<Ten> = vec![];
    pack_bins(FirstFit, &mut online, items_of(&[6, 9, 7, 6]));
    let mut offline: Vec<Ten> = vec![];
    FirstFitDecreasing.pack_all(&mut offline, &mut items_of(&[6, 9, 7, 6]));
    assert_eq!(held(&online), vec![vec![6], vec![9], vec![7], vec![6]]);
    assert_eq!(held(&offline), vec![vec![9], vec![7], vec![6], vec![6]]);
}

#[test]
fn decreasing_strategies_ignore_the_given_order() {
    let mut one: Vec<Ten> = vec![];
    let mut other: Vec<Ten> = vec![];
    FirstFitDecreasing.pack_all(&mut one, &mut items_of(&[1, 5, 2, 8, 5]));
    FirstFitDecreasing.pack_all(&mut other, &mut items_of(&[8, 5, 5, 2, 1]));
    assert_eq!(held(&one), held(&other));
    assert_eq!(held(&one), vec![vec![8, 2], vec![5, 5], vec![1]]);
}

#[test]
fn tiers_follow_the_fractions_of_the_capacity() {
    assert_eq!(tier_of(10, 10), Tier::Large);
    assert_eq!(tier_of(10, 6), Tier::Large);
    assert_eq!(tier_of(10, 5), Tier::Medium);
    assert_eq!(tier_of(10, 4), Tier::Medium);
    assert_eq!(tier_of(10, 3), Tier::Small);
    assert_eq!(tier_of(10, 2), Tier::Small);
    assert_eq!(tier_of(10, 1), Tier::Tiny);
    assert_eq!(tier_of(10, 0), Tier::Tiny);
    assert_eq!(tier_of(12, 7), Tier::Large);
    assert_eq!(tier_of(12, 6), Tier::Medium);
    assert_eq!(tier_of(12, 4), Tier::Small);
    assert_eq!(tier_of(12, 2), Tier::Tiny);
}

#[test]
fn splitting_puts_every_item_in_one_tier() {
    let mut items = items_of(&[6, 7, 4, 3, 2, 2, 1, 1, 5, 0, 10]);
    let tiers = split_tiers(10, &mut items);
    assert!(items.is_empty());
    assert_eq!(sizes_of(&tiers.large), vec![6, 7, 10]);
    assert_eq!(sizes_of(&tiers.medium), vec![4, 5]);
    assert_eq!(sizes_of(&tiers.small), vec![3, 2, 2]);
    assert_eq!(sizes_of(&tiers.tiny), vec![1, 1, 0]);
}

#[test]
fn first_fitting_finds_the_largest_that_fits_in_a_descending_list() {
    let items = items_of(&[5, 4, 4, 2]);
    assert_eq!(first_fitting(&items, 4), Some(1));
    assert_eq!(first_fitting(&items, 9), Some(0));
    assert_eq!(first_fitting(&items, 3), Some(3));
    assert_eq!(first_fitting(&items, 1), None);
}

#[test]
fn modified_strategy_packs_a_known_case() {
    let mut bins: Vec<Ten> = vec![];
    let mut items = items_of(&[6, 7, 4, 3, 2, 2, 1, 1, 5]);
    ModifiedFirstFitDecreasing.pack_all(&mut bins, &mut items);
    assert!(items.is_empty());
    assert_eq!(held(&bins), vec![vec![7, 3], vec![6, 4], vec![5, 2, 2, 1], vec![1]]);
    assert!(bins.iter().all(|bin| bin.used() <= 10));
    assert_eq!(bins.iter().map(|bin| bin.used()).sum::<usize>(), 31);
}

#[test]
fn modified_strategy_pairs_small_items_from_the_last_bin() {
    let mut bins = vec![Twelve::default(), Twelve::default()];
    let mut items = items_of(&[3, 7, 4, 3]);
    ModifiedFirstFitDecreasing.pack_all(&mut bins, &mut items);
    assert!(items.is_empty());
    assert_eq!(held(&bins), vec![vec![7, 3], vec![3, 4]]);
}

#[test]
fn modified_strategy_fills_up_with_the_largest_that_fits() {
    let mut bins = ten_with_room(&[4]);
    let mut items = items_of(&[5, 4, 1, 1]);
    ModifiedFirstFitDecreasing.pack_all(&mut bins, &mut items);
    assert!(items.is_empty());
    assert_eq!(held(&bins), vec![vec![6, 4], vec![5, 1, 1]]);
}

#[test]
fn modified_strategy_opens_a_bin_for_an_item_of_full_size() {
    let mut bins = ten_with_room(&[10]);
    let mut items = items_of(&[10, 10]);
    ModifiedFirstFitDecreasing.pack_all(&mut bins, &mut items);
    assert_eq!(held(&bins), vec![vec![], vec![10], vec![10]]);
}

#[test]
fn offline_packing_of_nothing_changes_nothing() {
    let mut bins = ten_with_room(&[4, 10]);
    FirstFitDecreasing.pack_all(&mut bins, &mut items_of(&[]));
    BestFitDecreasing.pack_all(&mut bins, &mut items_of(&[]));
    ModifiedFirstFitDecreasing.pack_all(&mut bins, &mut items_of(&[]));
    assert_eq!(held(&bins), vec![vec![6], vec![]]);
    let mut none: Vec<Ten> = vec![];
    ModifiedFirstFitDecreasing.pack_all(&mut none, &mut items_of(&[]));
    assert!(none.is_empty());
}

#[test]
fn offline_strategies_place_every_item_once_and_within_capacity() {
    let sizes = [3, 7, 5, 5, 10, 0, 1, 9, 2, 6, 4, 8];
    let mut ffd: Vec<Ten> = vec![];
    let mut bfd: Vec<Ten> = vec![];
    let mut mffd: Vec<Ten> = vec![];
    FirstFitDecreasing.pack_all(&mut ffd, &mut items_of(&sizes));
    BestFitDecreasing.pack_all(&mut bfd, &mut items_of(&sizes));
    ModifiedFirstFitDecreasing.pack_all(&mut mffd, &mut items_of(&sizes));
    for bins in [&ffd, &bfd, &mffd] {
        assert!(bins.iter().all(|bin| bin.used() <= 10));
        let mut packed: Vec<usize> = held(bins).concat();
        let mut given = sizes.to_vec();
        packed.sort();
        given.sort();
        assert_eq!(packed, given);
        assert_eq!(bins.iter().map(|bin| bin.used()).sum::<usize>(), 60);
    }
    assert_eq!(ffd.len(), 6);
}
