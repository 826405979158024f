use bin_packing::online::pack_bins;
use bin_packing::online::pack_existing_bins;
use bin_packing::online::AlmostWorstFit;
use bin_packing::online::BestFit;
use bin_packing::online::FirstFit;
use bin_packing::online::NextFit;
use bin_packing::online::Strategy;
use bin_packing::online::WorstFit;
use bin_packing::sized::FixedBin;
use bin_packing::sized::SizedItem;
use bin_packing::Bin;
use bin_packing::Item;

type BinImpl = FixedBin<10>;
type ItemImpl = SizedItem;

fn bin_with_room(room: usize) -> BinImpl {
    let mut bin = BinImpl::default();
    if room < 10 {
        bin.pack(ItemImpl::new(10 - room));
    }
    bin
}

fn bins_with_room(rooms: &[usize]) -> Vec<BinImpl> {
    rooms.iter().map(|room| bin_with_room(*room)).collect()
}

fn items_of(sizes: &[usize]) -> Vec<ItemImpl> {
    sizes.iter().map(|size| ItemImpl::new(*size)).collect()
}

fn held(bins: &[BinImpl]) -> Vec<Vec<usize>> {
    bins.iter().map(|bin| bin.sizes().clone()).collect()
}

#[test]
fn online_first_fit_uses_first_empty_bin() {
    let bins = vec![BinImpl::default(), BinImpl::default()];
    let item = ItemImpl::new(5);
    let strategy = FirstFit;
    assert_eq!(strategy.next_idx(&bins, &item), Some(0));
}

#[test]
fn online_first_fit_uses_first_bin_with_enough_capacity() {
    let mut bins = vec![BinImpl::default(), BinImpl::default()];
    bins[0].pack(ItemImpl::new(5));
    let item = ItemImpl::new(6);
    let strategy = FirstFit;
    assert_eq!(strategy.next_idx(&bins, &item), Some(1));
}

#[test]
fn online_pack_all_with_first_fit() {
    let mut bins: Vec<BinImpl> = vec![];
    let items = vec![ItemImpl::new(5), ItemImpl::new(6)];
    pack_bins(FirstFit, &mut bins, items);
    assert_eq!(bins.len(), 2);
}

#[test]
fn sized_item_and_bin_report_what_they_hold() {
    let item = ItemImpl::new(4);
    assert_eq!(item.size(), 4);
    assert_eq!(BinImpl::capacity(), 10);
    let mut bin = BinImpl::empty();
    assert_eq!(bin.available(), 10);
    bin.pack(item);
    bin.pack(ItemImpl::new(0));
    bin.pack(ItemImpl::new(6));
    assert_eq!(bin.available(), 0);
    assert_eq!(bin.used(), 10);
    assert_eq!(bin.sizes(), &vec![4, 0, 6]);
}

#[test]
fn first_fit_takes_the_lowest_index_that_fits() {
    let bins = bins_with_room(&[5, 3, 8]);
    assert_eq!(FirstFit.next_idx(&bins, &ItemImpl::new(5)), Some(0));
    assert_eq!(FirstFit.next_idx(&bins, &ItemImpl::new(6)), Some(2));
    assert_eq!(FirstFit.next_idx(&bins, &ItemImpl::new(9)), None);
    let none: Vec<BinImpl> = vec![];
    assert_eq!(FirstFit.next_idx(&none, &ItemImpl::new(0)), None);
}

#[test]
fn best_fit_takes_the_tightest_bin_and_the_first_among_equals() {
    let tied = bins_with_room(&[4, 4]);
    assert_eq!(BestFit.next_idx(&tied, &ItemImpl::new(3)), Some(0));
    let bins = bins_with_room(&[5, 3, 8]);
    assert_eq!(BestFit.next_idx(&bins, &ItemImpl::new(3)), Some(1));
    assert_eq!(BestFit.next_idx(&bins, &ItemImpl::new(4)), Some(0));
    assert_eq!(BestFit.next_idx(&bins, &ItemImpl::new(9)), None);
}

#[test]
fn next_fit_looks_at_the_last_bin_only() {
    let bins = bins_with_room(&[2, 9]);
    assert_eq!(NextFit.next_idx(&bins, &ItemImpl::new(5)), Some(1));
    let bins = bins_with_room(&[9, 2]);
    assert_eq!(NextFit.next_idx(&bins, &ItemImpl::new(5)), None);
    let none: Vec<BinImpl> = vec![];
    assert_eq!(NextFit.next_idx(&none, &ItemImpl::new(1)), None);
}

#[test]
fn worst_fit_takes_the_emptiest_bin_and_the_first_among_equals() {
    let bins = bins_with_room(&[5, 3, 8]);
    assert_eq!(WorstFit.next_idx(&bins, &ItemImpl::new(3)), Some(2));
    assert_eq!(WorstFit.next_idx(&bins, &ItemImpl::new(9)), None);
    let tied = bins_with_room(&[8, 8, 2]);
    assert_eq!(WorstFit.next_idx(&tied, &ItemImpl::new(3)), Some(0));
}

#[test]
fn almost_worst_fit_takes_the_second_emptiest_bin() {
    let bins = bins_with_room(&[5, 3, 8]);
    assert_eq!(AlmostWorstFit.next_idx(&bins, &ItemImpl::new(3)), Some(0));
    let bins = bins_with_room(&[8, 3, 5]);
    assert_eq!(AlmostWorstFit.next_idx(&bins, &ItemImpl::new(3)), Some(2));
    let tied = bins_with_room(&[8, 8, 2]);
    assert_eq!(AlmostWorstFit.next_idx(&tied, &ItemImpl::new(3)), Some(1));
}

#[test]
fn almost_worst_fit_with_one_candidate_takes_it() {
    let bins = bins_with_room(&[1, 6, 2]);
    assert_eq!(AlmostWorstFit.next_idx(&bins, &ItemImpl::new(5)), Some(1));
    assert_eq!(AlmostWorstFit.next_idx(&bins, &ItemImpl::new(7)), None);
}

#[test]
fn pack_bins_places_every_item_once_and_within_capacity() {
    let sizes = [3, 7, 5, 5, 10, 0, 1, 9, 2, 6, 4, 8];
    let mut bins: Vec<BinImpl> = vec![];
    pack_bins(FirstFit, &mut bins, items_of(&sizes));
    assert_eq!(
        held(&bins),
        vec![vec![3, 7, 0], vec![5, 5], vec![10], vec![1, 9], vec![2, 6], vec![4], vec![8]]
    );
    for bin in &bins {
        assert!(bin.used() <= 10);
        assert_eq!(bin.used(), bin.sizes().iter().sum::<usize>());
    }
    let mut packed: Vec<usize> = held(&bins).concat();
    let mut given = sizes.to_vec();
    packed.sort();
    given.sort();
    assert_eq!(packed, given);
    assert_eq!(bins.iter().map(|bin| bin.used()).sum::<usize>(), 60);
}

#[test]
fn every_online_strategy_stays_within_capacity() {
    let sizes = [3, 7, 5, 5, 10, 0, 1, 9, 2, 6, 4, 8];
    let mut first: Vec<BinImpl> = vec![];
    let mut next: Vec<BinImpl> = vec![];
    let mut best: Vec<BinImpl> = vec![];
    let mut worst: Vec<BinImpl> = vec![];
    let mut almost: Vec<BinImpl> = vec![];
    pack_bins(FirstFit, &mut first, items_of(&sizes));
    pack_bins(NextFit, &mut next, items_of(&sizes));
    pack_bins(BestFit, &mut best, items_of(&sizes));
    pack_bins(WorstFit, &mut worst, items_of(&sizes));
    pack_bins(AlmostWorstFit, &mut almost, items_of(&sizes));
    for bins in [&first, &next, &best, &worst, &almost] {
        assert!(bins.iter().all(|bin| bin.used() <= 10));
        assert_eq!(bins.iter().map(|bin| bin.used()).sum::<usize>(), 60);
    }
    assert_eq!(
        held(&next),
        vec![vec![3, 7], vec![5, 5], vec![10, 0], vec![1, 9], vec![2, 6], vec![4], vec![8]]
    );
}

#[test]
fn pack_bins_with_best_fit_fills_the_tightest_bin() {
    let mut bins = bins_with_room(&[8, 5]);
    pack_bins(BestFit, &mut bins, items_of(&[5, 8, 1]));
    assert_eq!(held(&bins), vec![vec![2, 8], vec![5, 5], vec![1]]);
}

#[test]
fn pack_existing_bins_stops_at_the_first_item_without_a_bin() {
    let mut bins = vec![BinImpl::default(), BinImpl::default()];
    let rest = pack_existing_bins(FirstFit, &mut bins, items_of(&[6, 6, 6, 1]));
    assert_eq!(held(&bins), vec![vec![6], vec![6]]);
    assert_eq!(rest.iter().map(|item| item.size()).collect::<Vec<usize>>(), vec![6, 1]);
}

#[test]
fn pack_existing_bins_packs_all_where_all_fit() {
    let mut bins = vec![BinImpl::default(), BinImpl::default()];
    let rest = pack_existing_bins(FirstFit, &mut bins, items_of(&[6, 6, 4, 1]));
    assert_eq!(held(&bins), vec![vec![6, 4], vec![6, 1]]);
    assert!(rest.is_empty());
}

#[test]
fn packing_nothing_changes_nothing() {
    let mut bins = bins_with_room(&[4, 10]);
    pack_bins(FirstFit, &mut bins, items_of(&[]));
    assert_eq!(held(&bins), vec![vec![6], vec![]]);
    pack_bins(NextFit, &mut bins, items_of(&[]));
    pack_bins(BestFit, &mut bins, items_of(&[]));
    pack_bins(WorstFit, &mut bins, items_of(&[]));
    pack_bins(AlmostWorstFit, &mut bins, items_of(&[]));
    assert_eq!(held(&bins), vec![vec![6], vec![]]);
    let rest = pack_existing_bins(BestFit, &mut bins, items_of(&[]));
    assert!(rest.is_empty());
    assert_eq!(held(&bins), vec![vec![6], vec![]]);
    let mut none: Vec<BinImpl> = vec![];
    pack_bins(FirstFit, &mut none, items_of(&[]));
    assert!(none.is_empty());
}
