//! The table of blocks that garbage collection has already reclaimed.
//!
//! When the collector moves a block it marks the old host block here. The
//! index drops the old record later; whoever sees that drop finds the mark,
//! clears it and leaves the block alone, so that no block is freed twice.
use vstd::prelude::*;

use crate::bitmap::BitMap;

verus! {

/// One flag per host block: set while a reclaimed block still has a record
/// waiting to be dropped.
pub struct DeallocTable {
    dealloc_table: BitMap,
}

impl View for DeallocTable {
    type V = Seq<bool>;

    closed spec fn view(&self) -> Seq<bool> {
        self.dealloc_table@
    }
}

impl DeallocTable {
    /// The flags are stored as a well-formed bit array.
    pub closed spec fn wf(&self) -> bool {
        self.dealloc_table.wf()
    }

    /// A table over `nblocks` blocks, none marked.
    pub fn new(nblocks: usize) -> (t: DeallocTable)
        ensures
            t.wf(),
            t@ == Seq::new(nblocks as nat, |i: int| false),
    {
        DeallocTable { dealloc_table: BitMap::repeat(false, nblocks) }
    }

    /// The number of blocks that the table covers.
    pub fn nblocks(&self) -> (n: usize)
        ensures
            n == self@.len(),
    {
        self.dealloc_table.len()
    }

    /// Whether `hba` is marked as reclaimed.
    pub fn has_deallocated(&self, hba: usize) -> (b: bool)
        requires
            self.wf(),
            hba < self@.len(),
        ensures
            b == self@[hba as int],
    {
        self.dealloc_table.test_bit(hba)
    }

    /// Clears the mark of `hba`.
    pub fn finish_deallocated(&mut self, hba: usize)
        requires
            old(self).wf(),
            hba < old(self)@.len(),
        ensures
            final(self).wf(),
            final(self)@ == old(self)@.update(hba as int, false),
    {
        self.dealloc_table.set(hba, false);
    }

    /// Marks `hba` as reclaimed.
    pub fn mark_deallocated(&mut self, hba: usize)
        requires
            old(self).wf(),
            hba < old(self)@.len(),
        ensures
            final(self).wf(),
            final(self)@ == old(self)@.update(hba as int, true),
    {
        self.dealloc_table.set(hba, true);
    }
}

} // verus!
