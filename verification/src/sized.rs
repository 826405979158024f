//! A plain item and a plain bin, for callers that need no representation of their own.

use crate::model::lemma_total_push;
use crate::model::total;
use crate::Bin;
use crate::Item;
use vstd::prelude::*;

verus! {

/// An item that is nothing but its size.
pub struct SizedItem {
    size: usize,
}

impl SizedItem {
    /// Returns an item of the given size.
    pub fn new(size: usize) -> (item: Self)
        ensures
            item.size_spec() == size,
    {
        SizedItem { size }
    }
}

impl Item for SizedItem {
    closed spec fn size_spec(&self) -> nat {
        self.size as nat
    }

    fn size(&self) -> (s: usize) {
        self.size
    }
}

/// A bin of capacity `CAP` that records the sizes packed into it.
pub struct FixedBin<const CAP: usize> {
    used: usize,
    held: Vec<usize>,
}

impl<const CAP: usize> FixedBin<CAP> {
    /// Returns how much of the capacity is taken.
    pub fn used(&self) -> (u: usize)
        requires
            self.inv(),
        ensures
            u == total(self.packed()),
    {
        self.used
    }

    /// Returns the sizes packed so far, oldest first.
    pub fn sizes(&self) -> (held: &Vec<usize>)
        ensures
            held@.len() == self.packed().len(),
            forall|i: int| 0 <= i < held@.len() ==> held@[i] == self.packed()[i],
    {
        &self.held
    }
}

impl<const CAP: usize> Bin for FixedBin<CAP> {
    open spec fn capacity_spec() -> nat {
        CAP as nat
    }

    closed spec fn packed(&self) -> Seq<nat> {
        Seq::new(self.held@.len(), |i: int| self.held@[i] as nat)
    }

    closed spec fn inv(&self) -> bool {
        self.used == total(self.packed())
    }

    fn capacity() -> (c: usize) {
        CAP
    }

    fn empty() -> (b: Self) {
        let b = FixedBin { used: 0, held: Vec::new() };
        assert(b.packed() =~= Seq::<nat>::empty());
        b
    }

    fn available(&self) -> (a: usize) {
        CAP - self.used
    }

    fn pack<I: Item>(&mut self, item: I) {
        let ghost before = self.packed();
        let size = item.size();
        proof {
            lemma_total_push(before, size as nat);
        }
        self.used = self.used + size;
        self.held.push(size);
        assert(self.packed() =~= before.push(size as nat));
    }
}

impl<const CAP: usize> Default for FixedBin<CAP> {
    fn default() -> (b: Self)
        ensures
            b.inv(),
            b.packed() == Seq::<nat>::empty(),
    {
        Self::empty()
    }
}

} // verus!
