//! One-dimensional bin-packing strategies.
//!
//! Strategies are divided into two categories: online and offline. Online strategies pack items
//! into bins as they arrive, while offline strategies have access to all items in advance.
//!
//! Every contract is stated over a small mathematical model: an item is its size, a bin is the
//! sequence of sizes packed into it so far, and a collection of bins is a sequence of such
//! sequences.

use vstd::prelude::*;

pub mod model;
pub mod offline;
pub mod online;
pub mod order;
pub mod sized;

pub use offline::BestFitDecreasing;
pub use offline::FirstFitDecreasing;
pub use offline::ModifiedFirstFitDecreasing;
pub use offline::Strategy as OfflineStrategy;
pub use online::pack_bins;
pub use online::pack_existing_bins;
pub use online::AlmostWorstFit;
pub use online::BestFit;
pub use online::FirstFit;
pub use online::NextFit;
pub use online::Strategy as OnlineStrategy;
pub use online::WorstFit;

verus! {

/// An item that can be packed into a bin.
pub trait Item {
    /// The size of the item, as contracts see it.
    spec fn size_spec(&self) -> nat;

    /// Returns the size of the item.
    fn size(&self) -> (s: usize)
        ensures
            s == self.size_spec(),
    ;
}

/// A bin that can hold items.
///
/// All bins of one type share one capacity. A bin is modelled by the sizes packed into it, in
/// the order in which they were packed.
pub trait Bin: Sized {
    /// The capacity shared by all bins of this type.
    spec fn capacity_spec() -> nat;

    /// The sizes of the items packed so far, oldest first.
    spec fn packed(&self) -> Seq<nat>;

    /// What the bin's own representation must satisfy to be usable.
    spec fn inv(&self) -> bool;

    /// Returns the total capacity of the bin.
    fn capacity() -> (c: usize)
        ensures
            c == Self::capacity_spec(),
    ;

    /// Returns a bin that holds nothing.
    fn empty() -> (b: Self)
        ensures
            b.inv(),
            b.packed() == Seq::<nat>::empty(),
    ;

    /// Returns the available capacity of the bin.
    fn available(&self) -> (a: usize)
        requires
            self.inv(),
            model::total(self.packed()) <= Self::capacity_spec(),
        ensures
            a == Self::capacity_spec() - model::total(self.packed()),
    ;

    /// Packs an item into the bin. The item must fit into what is available.
    fn pack<I: Item>(&mut self, item: I)
        requires
            old(self).inv(),
            model::total(old(self).packed()) + item.size_spec() <= Self::capacity_spec(),
        ensures
            final(self).inv(),
            final(self).packed() == old(self).packed().push(item.size_spec()),
    ;
}

} // verus!
