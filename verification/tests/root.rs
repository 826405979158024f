use bin_packing::pack_bins;
use bin_packing::sized::FixedBin;
use bin_packing::sized::SizedItem;
use bin_packing::Bin;
use bin_packing::FirstFit;
use bin_packing::FirstFitDecreasing;
use bin_packing::OfflineStrategy;
use bin_packing::OnlineStrategy;

type BinImpl = FixedBin<10>;
type ItemImpl = SizedItem;

#[test]
fn lib_first_fit_uses_first_empty_bin() {
    let bins = vec![BinImpl::default(), BinImpl::default()];
    let item = ItemImpl::new(5);
    let strategy = FirstFit;
    assert_eq!(strategy.next_idx(&bins, &item), Some(0));
}

#[test]
fn lib_first_fit_uses_first_bin_with_enough_capacity() {
    let mut bins = vec![BinImpl::default(), BinImpl::default()];
    bins[0].pack(ItemImpl::new(5));
    let item = ItemImpl::new(6);
    let strategy = FirstFit;
    assert_eq!(strategy.next_idx(&bins, &item), Some(1));
}

#[test]
fn lib_pack_all_with_first_fit() {
    let mut bins: Vec<BinImpl> = vec![];
    let items = vec![ItemImpl::new(5), ItemImpl::new(6)];
    pack_bins(FirstFit, &mut bins, items);
    assert_eq!(bins.len(), 2);
}

#[test]
fn lib_offers_the_offline_strategies_too() {
    let mut bins: Vec<BinImpl> = vec![];
    let mut items = vec![ItemImpl::new(5), ItemImpl::new(6), ItemImpl::new(4)];
    FirstFitDecreasing.pack_all(&mut bins, &mut items);
    assert!(items.is_empty());
    assert_eq!(bins.len(), 2);
    assert_eq!(bins[0].sizes(), &vec![6, 4]);
    assert_eq!(bins[1].sizes(), &vec![5]);
}
