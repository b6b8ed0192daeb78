//! Block allocation: the validity table of the host blocks and the per-TX
//! record of allocations and deallocations.
use vstd::prelude::*;

use crate::bio::{as_ints, BLOCK_SIZE};
use crate::diff_log::{
    append_bytes, diff_stream, encode_diff_log, flatten, pad_len, pad_to_block, replay,
    replay_diff_log, zero_bytes, zeros, AllocDiff, DiffEntry, MAX_BUF_SIZE,
};
use crate::bitmap::{count_ones, first_one_from, ones_in, unpack, BitMap};
use crate::codec::{bitmap_encoding, pair_encoding, postcard_bitmap_of, read_bitmap, write_bitmap};
use crate::error::{Errno, Error};
use crate::segment::{
    holds_table, recover_segment_table, recovered_segment, segment_slots, slots_fit,
    stored_segment, wrap_add, wrap_sub, Segment, SegmentId, SegmentView, SEGMENT_SIZE,
};

verus! {

/// How many free blocks make it worth waking a waiting allocation.
pub const AVG_ALLOC_COUNT: usize = 1024;

/// `s` with `v` written at every index of `idxs`.
pub open spec fn set_all(s: Seq<bool>, idxs: Seq<int>, v: bool) -> Seq<bool>
    decreases idxs.len(),
{
    if idxs.len() == 0 {
        s
    } else {
        set_all(s, idxs.drop_last(), v).update(idxs.last(), v)
    }
}

/// `s` with `v` written at every index from `lo` up to `hi`.
pub open spec fn fill_range(s: Seq<bool>, lo: int, hi: int, v: bool) -> Seq<bool> {
    Seq::new(s.len(), |i: int| if lo <= i < hi { v } else { s[i] })
}

/// The segment table after one allocation of host block `hba` was counted.
/// A block that no segment covers changes nothing.
pub open spec fn seg_alloc(segs: Option<Seq<SegmentView>>, hba: int) -> Option<Seq<SegmentView>> {
    match segs {
        Some(t) => if 0 <= hba / (SEGMENT_SIZE as int) < t.len() {
            let sid = hba / (SEGMENT_SIZE as int);
            Some(t.update(sid, SegmentView { free_space: wrap_sub(t[sid].free_space, 1), ..t[sid] }))
        } else {
            Some(t)
        },
        None => None,
    }
}

/// The segment table after the allocations of all of `hbas` were counted.
pub open spec fn seg_alloc_all(segs: Option<Seq<SegmentView>>, hbas: Seq<int>) -> Option<
    Seq<SegmentView>,
>
    decreases hbas.len(),
{
    if hbas.len() == 0 {
        segs
    } else {
        seg_alloc(seg_alloc_all(segs, hbas.drop_last()), hbas.last())
    }
}

/// The segment table after one deallocation of host block `hba` was
/// counted.
pub open spec fn seg_dealloc(segs: Option<Seq<SegmentView>>, hba: int) -> Option<Seq<SegmentView>> {
    match segs {
        Some(t) => if 0 <= hba / (SEGMENT_SIZE as int) < t.len() {
            let sid = hba / (SEGMENT_SIZE as int);
            Some(
                t.update(
                    sid,
                    SegmentView {
                        free_space: wrap_add(t[sid].free_space, 1),
                        valid_block: wrap_sub(t[sid].valid_block, 1),
                        ..t[sid]
                    },
                ),
            )
        } else {
            Some(t)
        },
        None => None,
    }
}

/// The segment table after the deallocations of all of `hbas` were
/// counted.
pub open spec fn seg_dealloc_all(segs: Option<Seq<SegmentView>>, hbas: Seq<int>) -> Option<
    Seq<SegmentView>,
>
    decreases hbas.len(),
{
    if hbas.len() == 0 {
        segs
    } else {
        seg_dealloc(seg_dealloc_all(segs, hbas.drop_last()), hbas.last())
    }
}

/// The segment table after segment `sid` was reset.
pub open spec fn seg_clear(segs: Option<Seq<SegmentView>>, sid: int) -> Option<Seq<SegmentView>> {
    match segs {
        Some(t) => if 0 <= sid < t.len() {
            Some(
                t.update(
                    sid,
                    SegmentView {
                        free_space: t[sid].nblocks,
                        valid_block: t[sid].nblocks,
                        ..t[sid]
                    },
                ),
            )
        } else {
            Some(t)
        },
        None => None,
    }
}

/// A table of `n` fresh segments.
pub open spec fn fresh_segments(n: nat) -> Seq<SegmentView> {
    Seq::new(
        n,
        |i: int|
            SegmentView {
                segment_id: i as nat,
                valid_block: SEGMENT_SIZE as nat,
                free_space: SEGMENT_SIZE as nat,
                nblocks: SEGMENT_SIZE as nat,
            },
    )
}

/// The views of the segments of a table.
pub open spec fn seg_views(t: Option<Vec<Segment>>) -> Option<Seq<SegmentView>> {
    match t {
        Some(v) => Some(v@.map_values(|s: Segment| s@)),
        None => None,
    }
}

/// Every segment's count of free slots is the number of free bits of
/// `bitmap` in its range.
pub open spec fn segments_match(bitmap: Seq<bool>, segs: Option<Seq<SegmentView>>) -> bool {
    match segs {
        Some(t) => forall|i: int|
            0 <= i < t.len() ==> (#[trigger] t[i]).free_space == ones_in(
                bitmap,
                i * SEGMENT_SIZE,
                (i + 1) * SEGMENT_SIZE,
            ).len(),
        None => true,
    }
}

/// The table has one full-size segment per `SEGMENT_SIZE` blocks of a
/// bitmap of `nbits` bits, each at its index.
pub open spec fn segments_shaped(nbits: nat, segs: Option<Seq<SegmentView>>) -> bool {
    match segs {
        Some(t) => t.len() == nbits / (SEGMENT_SIZE as nat) && forall|i: int|
            0 <= i < t.len() ==> (#[trigger] t[i]).segment_id == i && t[i].nblocks
                == SEGMENT_SIZE,
        None => true,
    }
}

/// The sum of the free-slot counts of the segments of `t`.
pub open spec fn sum_free(t: Seq<SegmentView>) -> nat
    decreases t.len(),
{
    if t.len() == 0 {
        0
    } else {
        sum_free(t.drop_last()) + t.last().free_space
    }
}

/// The validity table as mathematical values.
pub struct AllocTableView {
    /// One entry per host block; `true` means free.
    pub bitmap: Seq<bool>,
    /// The segment table, kept only where garbage collection is enabled.
    pub segments: Option<Seq<SegmentView>>,
    /// Where the next search for a free block starts.
    pub next_avail: nat,
    /// The count of free blocks that the table keeps.
    pub num_free: nat,
    /// Whether the table changed since it was last persisted.
    pub dirty: bool,
}

impl AllocTableView {
    /// The shape that every table has: a bitmap over at least one block,
    /// one full-size segment per `SEGMENT_SIZE` blocks, each at its index.
    pub open spec fn wf(self) -> bool {
        &&& self.bitmap.len() > 0
        &&& self.bitmap.len() <= usize::MAX
        &&& self.next_avail <= self.bitmap.len()
        &&& self.num_free <= usize::MAX
        &&& segments_shaped(self.bitmap.len(), self.segments)
    }

    /// The kept count of free blocks is the number of free bits.
    pub open spec fn counts_agree(self) -> bool {
        self.num_free == count_ones(self.bitmap)
    }

    /// Every segment's count of free slots is the number of free bits in
    /// its range.
    pub open spec fn segments_agree(self) -> bool {
        segments_match(self.bitmap, self.segments)
    }

    /// The block that a single allocation takes: the first free one at or
    /// after the cursor, else the first free one at all.
    pub open spec fn alloc_target(self) -> Option<int> {
        match first_one_from(self.bitmap, self.next_avail as int) {
            Some(h) => Some(h),
            None => first_one_from(self.bitmap, 0),
        }
    }

    /// The table after the single block `h` was allocated: its bit is
    /// cleared, its segment counts one free slot less, the cursor stands
    /// behind it, and the kept count of free blocks is one less (it does not
    /// go below zero).
    pub open spec fn after_alloc_one(self, h: int) -> AllocTableView {
        AllocTableView {
            bitmap: self.bitmap.update(h, false),
            segments: seg_alloc(self.segments, h),
            next_avail: (h + 1) as nat,
            num_free: if self.num_free > 0 {
                (self.num_free - 1) as nat
            } else {
                0
            },
            ..self
        }
    }

    /// Where a batch allocation of `count` blocks starts to search: at the
    /// cursor, or at the first block when the cursor is within `count` of the
    /// end.
    pub open spec fn batch_start(self, count: nat) -> int {
        if self.next_avail + count > self.bitmap.len() {
            0
        } else {
            self.next_avail as int
        }
    }

    /// The blocks that a batch allocation of `count` blocks takes: the first
    /// `count` free ones from where the search starts, else the first
    /// `count` free ones at all, else none.
    pub open spec fn batch_pick(self, count: nat) -> Option<Seq<int>> {
        let n = self.bitmap.len() as int;
        let ahead = ones_in(self.bitmap, self.batch_start(count), n);
        let all = ones_in(self.bitmap, 0, n);
        if ahead.len() >= count {
            Some(ahead.take(count as int))
        } else if all.len() >= count {
            Some(all.take(count as int))
        } else {
            None
        }
    }

    /// The table after the changes `entries` of a transaction were
    /// committed: every block that they give back is free and counted, in
    /// the table and in its segment.
    pub open spec fn after_commit(self, entries: Seq<DiffEntry>) -> AllocTableView {
        AllocTableView {
            bitmap: set_all(self.bitmap, deallocated(entries), true),
            segments: seg_dealloc_all(self.segments, deallocated(entries)),
            num_free: self.num_free + deallocated(entries).len(),
            ..self
        }
    }

    /// The table after the blocks `hbas` were taken by a batch allocation.
    pub open spec fn after_batch(self, hbas: Seq<int>) -> AllocTableView {
        AllocTableView {
            bitmap: set_all(self.bitmap, hbas, false),
            segments: seg_alloc_all(self.segments, hbas),
            next_avail: (hbas.last() + 1) as nat,
            num_free: (self.num_free - hbas.len()) as nat,
            dirty: true,
        }
    }
}

/// What a batch allocation comes to.
pub enum AllocBatch {
    /// The blocks that were allocated.
    Done(Vec<usize>),
    /// Fewer blocks are counted as free than were asked for: wait until
    /// blocks were given back, and ask again.
    Wait,
}

impl AllocBatch {
    /// The blocks that were allocated, if any were.
    pub fn into_blocks(self) -> (r: Option<Vec<usize>>)
        ensures
            r == match self {
                AllocBatch::Done(hbas) => Some(hbas),
                AllocBatch::Wait => None::<Vec<usize>>,
            },
    {
        match self {
            AllocBatch::Done(hbas) => Some(hbas),
            AllocBatch::Wait => None,
        }
    }
}

/// The validity table: the global allocator of the host blocks that hold
/// user data.
pub struct AllocTable {
    bitmap: BitMap,
    segment_table: Option<Vec<Segment>>,
    next_avail: usize,
    nblocks: usize,
    is_dirty: bool,
    num_free: usize,
}

impl View for AllocTable {
    type V = AllocTableView;

    closed spec fn view(&self) -> AllocTableView {
        AllocTableView {
            bitmap: self.bitmap@,
            segments: seg_views(self.segment_table),
            next_avail: self.next_avail as nat,
            num_free: self.num_free as nat,
            dirty: self.is_dirty,
        }
    }
}

/// Counts one allocation of `hba` in the segment that covers it.
fn mark_segment_alloc(table: &mut Option<Vec<Segment>>, hba: usize)
    ensures
        seg_views(*final(table)) == seg_alloc(seg_views(*old(table)), hba as int),
{
    match table {
        Some(segments) => {
            let segment_id: usize = hba / SEGMENT_SIZE;
            if segment_id < segments.len() {
                let ghost before = segments@;
                segments[segment_id].mark_alloc();
                proof {
                    assert(segments@.map_values(|s: Segment| s@) =~= before.map_values(
                        |s: Segment| s@,
                    ).update(segment_id as int, segments@[segment_id as int]@));
                }
            }
        },
        None => {},
    }
}

/// Counts one deallocation of `hba` in the segment that covers it.
fn mark_segment_dealloc(table: &mut Option<Vec<Segment>>, hba: usize)
    ensures
        seg_views(*final(table)) == seg_dealloc(seg_views(*old(table)), hba as int),
{
    match table {
        Some(segments) => {
            let segment_id: usize = hba / SEGMENT_SIZE;
            if segment_id < segments.len() {
                let ghost before = segments@;
                segments[segment_id].mark_deallocated();
                proof {
                    assert(segments@.map_values(|s: Segment| s@) =~= before.map_values(
                        |s: Segment| s@,
                    ).update(segment_id as int, segments@[segment_id as int]@));
                }
            }
        },
        None => {},
    }
}

impl AllocTable {
    /// The fields fit together as the view's shape asks.
    pub closed spec fn wf(&self) -> bool {
        &&& self.bitmap.wf()
        &&& self.bitmap@.len() == self.nblocks
        &&& self@.wf()
    }

    /// A well-formed table has a well-formed view over its blocks.
    pub proof fn lemma_wf(&self)
        requires
            self.wf(),
        ensures
            self@.wf(),
    {
    }

    /// The view of a fresh table over `nblocks` blocks.
    pub open spec fn new_view(nblocks: usize, enable_gc: bool) -> AllocTableView {
        AllocTableView {
            bitmap: Seq::new(nblocks as nat, |i: int| true),
            segments: if enable_gc {
                Some(fresh_segments((nblocks / SEGMENT_SIZE) as nat))
            } else {
                None
            },
            next_avail: 0,
            num_free: nblocks as nat,
            dirty: false,
        }
    }

    /// A table over `nblocks` blocks, all free. With `enable_gc` it keeps a
    /// segment table of `nblocks / SEGMENT_SIZE` fresh segments.
    pub fn new(nblocks: usize, enable_gc: bool) -> (t: AllocTable)
        requires
            nblocks > 0,
        ensures
            t.wf(),
            t@ == AllocTable::new_view(nblocks, enable_gc),
    {
        let bitmap = BitMap::repeat(true, nblocks);
        let segment_table = if enable_gc {
            Some(fresh_table(nblocks / SEGMENT_SIZE))
        } else {
            None
        };
        AllocTable { bitmap, segment_table, next_avail: 0, nblocks, is_dirty: false, num_free: nblocks }
    }

    /// The number of blocks that the table covers.
    pub fn nblocks(&self) -> (n: usize)
        requires
            self.wf(),
        ensures
            n == self@.bitmap.len(),
    {
        self.nblocks
    }

    /// The kept count of free blocks.
    pub fn num_free(&self) -> (n: usize)
        ensures
            n == self@.num_free,
    {
        self.num_free
    }

    /// Where the next search for a free block starts.
    pub fn next_avail(&self) -> (n: usize)
        ensures
            n == self@.next_avail,
    {
        self.next_avail
    }

    /// Whether the table changed since it was last persisted.
    pub fn is_dirty(&self) -> (b: bool)
        ensures
            b == self@.dirty,
    {
        self.is_dirty
    }

    /// The validity bitmap.
    pub fn bitmap(&self) -> (b: &BitMap)
        requires
            self.wf(),
        ensures
            b.wf(),
            b@ == self@.bitmap,
    {
        &self.bitmap
    }

    /// The segments of the table; none where garbage collection is
    /// disabled.
    pub closed spec fn segment_seq(&self) -> Seq<Segment> {
        match self.segment_table {
            Some(t) => t@,
            None => Seq::empty(),
        }
    }

    /// Every segment of a well-formed table lies within the bitmap.
    pub proof fn lemma_segments_fit(&self)
        requires
            self.wf(),
        ensures
            forall|i: int|
                0 <= i < self.segment_seq().len() ==> (#[trigger] self.segment_seq()[i])@.upper()
                    <= self@.bitmap.len(),
            self@.segments is Some ==> self@.segments->0 == self.segment_seq().map_values(
                |s: Segment| s@,
            ),
    {
        if let Some(t) = self.segment_table {
            let views = seg_views(self.segment_table)->0;
            assert forall|i: int| 0 <= i < t@.len() implies (#[trigger] t@[i])@.upper()
                <= self@.bitmap.len() by {
                assert(views[i] == t@[i]@);
                assert(views[i].segment_id == i);
            }
        }
    }

    /// The segment table, or `None` where garbage collection is disabled.
    pub fn get_segment_table_ref(&self) -> (r: Option<&Vec<Segment>>)
        ensures
            match r {
                Some(t) => self@.segments == Some(t@.map_values(|s: Segment| s@)) && t@
                    == self.segment_seq(),
                None => self@.segments is None,
            },
    {
        self.segment_table.as_ref()
    }

    /// Allocates one free block, or returns `None` when no block is free.
    /// The block is taken from the kept count of free blocks.
    pub fn alloc_one(&mut self) -> (r: Option<usize>)
        requires
            old(self).wf(),
        ensures
            final(self).wf(),
            match r {
                Some(hba) => old(self)@.alloc_target() == Some(hba as int) && final(self)@
                    == old(self)@.after_alloc_one(hba as int),
                None => old(self)@.alloc_target() is None && final(self)@ == old(self)@,
            },
    {
        let hba: usize = match self.bitmap.first_one(self.next_avail) {
            Some(hba) => hba,
            None => match self.bitmap.first_one(0) {
                Some(hba) => hba,
                None => {
                    return None;
                },
            },
        };
        self.bitmap.set(hba, false);
        mark_segment_alloc(&mut self.segment_table, hba);
        self.next_avail = hba + 1;
        if self.num_free > 0 {
            self.num_free = self.num_free - 1;
        }
        Some(hba)
    }
}

/// Marks every block of `hbas` as allocated in `bitmap`.
fn clear_bits(bitmap: &mut BitMap, hbas: &[usize])
    requires
        old(bitmap).wf(),
        forall|k: int| 0 <= k < hbas@.len() ==> hbas@[k] < old(bitmap)@.len(),
    ensures
        final(bitmap).wf(),
        final(bitmap)@ == set_all(old(bitmap)@, as_ints(hbas@), false),
        final(bitmap)@.len() == old(bitmap)@.len(),
{
    let mut i: usize = 0;
    while i < hbas.len()
        invariant
            i <= hbas@.len(),
            bitmap.wf(),
            bitmap@.len() == old(bitmap)@.len(),
            forall|k: int| 0 <= k < hbas@.len() ==> hbas@[k] < old(bitmap)@.len(),
            bitmap@ == set_all(old(bitmap)@, as_ints(hbas@).take(i as int), false),
        decreases hbas@.len() - i,
    {
        bitmap.set(hbas[i], false);
        proof {
            let next = as_ints(hbas@).take(i + 1);
            assert(next.drop_last() =~= as_ints(hbas@).take(i as int));
            assert(next.last() == hbas@[i as int]);
        }
        i += 1;
    }
    proof {
        assert(as_ints(hbas@).take(hbas@.len() as int) =~= as_ints(hbas@));
    }
}

/// Counts the allocation of every block of `hbas` in the segment table.
fn mark_segments_alloc(table: &mut Option<Vec<Segment>>, hbas: &[usize])
    ensures
        seg_views(*final(table)) == seg_alloc_all(seg_views(*old(table)), as_ints(hbas@)),
{
    let mut i: usize = 0;
    while i < hbas.len()
        invariant
            i <= hbas@.len(),
            seg_views(*table) == seg_alloc_all(
                seg_views(*old(table)),
                as_ints(hbas@).take(i as int),
            ),
        decreases hbas@.len() - i,
    {
        mark_segment_alloc(table, hbas[i]);
        proof {
            let next = as_ints(hbas@).take(i + 1);
            assert(next.drop_last() =~= as_ints(hbas@).take(i as int));
            assert(next.last() == hbas@[i as int]);
        }
        i += 1;
    }
    proof {
        assert(as_ints(hbas@).take(hbas@.len() as int) =~= as_ints(hbas@));
    }
}

/// Counting allocations keeps the shape of the segment table.
pub proof fn lemma_seg_alloc_all_shape(segs: Option<Seq<SegmentView>>, hbas: Seq<int>)
    ensures
        seg_alloc_all(segs, hbas) is Some <==> segs is Some,
        segs is Some ==> seg_alloc_all(segs, hbas)->0.len() == segs->0.len() && forall|i: int|
            0 <= i < segs->0.len() ==> (#[trigger] seg_alloc_all(segs, hbas)->0[i]).segment_id
                == segs->0[i].segment_id && seg_alloc_all(segs, hbas)->0[i].nblocks
                == segs->0[i].nblocks && seg_alloc_all(segs, hbas)->0[i].valid_block
                == segs->0[i].valid_block,
    decreases hbas.len(),
{
    if hbas.len() > 0 {
        lemma_seg_alloc_all_shape(segs, hbas.drop_last());
    }
}

/// Counting deallocations keeps the shape of the segment table.
pub proof fn lemma_seg_dealloc_all_shape(segs: Option<Seq<SegmentView>>, hbas: Seq<int>)
    ensures
        seg_dealloc_all(segs, hbas) is Some <==> segs is Some,
        segs is Some ==> seg_dealloc_all(segs, hbas)->0.len() == segs->0.len() && forall|i: int|
            0 <= i < segs->0.len() ==> (#[trigger] seg_dealloc_all(segs, hbas)->0[i]).segment_id
                == segs->0[i].segment_id && seg_dealloc_all(segs, hbas)->0[i].nblocks
                == segs->0[i].nblocks,
    decreases hbas.len(),
{
    if hbas.len() > 0 {
        lemma_seg_dealloc_all_shape(segs, hbas.drop_last());
    }
}

impl AllocTable {
    /// Takes the blocks of a batch from the bitmap and moves the cursor
    /// behind the last of them.
    fn do_alloc_batch(&mut self, count: usize) -> (r: Option<Vec<usize>>)
        requires
            old(self).wf(),
            count > 0,
        ensures
            final(self).wf(),
            match r {
                Some(hbas) => old(self)@.batch_pick(count as nat) == Some(as_ints(hbas@))
                    && final(self)@ == (AllocTableView {
                    bitmap: set_all(old(self)@.bitmap, as_ints(hbas@), false),
                    next_avail: (hbas@.last() + 1) as nat,
                    ..old(self)@
                }),
                None => old(self)@.batch_pick(count as nat) is None && final(self)@ == old(self)@,
            },
            r is Some ==> r->0@.len() == count && forall|k: int|
                0 <= k < count ==> (#[trigger] r->0@[k]) < old(self)@.bitmap.len(),
    {
        let start: usize = if count > self.nblocks || self.next_avail > self.nblocks - count {
            0
        } else {
            self.next_avail
        };
        let hbas: Vec<usize> = match self.bitmap.first_ones(start, count) {
            Some(hbas) => hbas,
            None => match self.bitmap.first_ones(0, count) {
                Some(hbas) => hbas,
                None => {
                    return None;
                },
            },
        };
        proof {
            let n = self.nblocks as int;
            crate::bitmap::lemma_ones_in(self.bitmap@, start as int, n);
            crate::bitmap::lemma_ones_in(self.bitmap@, 0, n);
            assert(hbas@.len() == as_ints(hbas@).len());
            assert forall|k: int| 0 <= k < count implies (#[trigger] hbas@[k]) < n by {
                assert(as_ints(hbas@)[k] == hbas@[k]);
            }
        }
        clear_bits(&mut self.bitmap, hbas.as_slice());
        self.next_avail = hbas[hbas.len() - 1] + 1;
        Some(hbas)
    }

    /// Allocates `count` free blocks at once.
    ///
    /// Where fewer than `count` blocks are counted as free the allocation
    /// has to wait: nothing changes, and the caller asks again once blocks
    /// were given back. Where that many are counted as free, the blocks are
    /// taken; the allocation fails with `OutOfDisk`, and changes nothing, only
    /// when the bitmap does not hold the blocks that the count allows.
    pub fn alloc_batch(&mut self, count: usize) -> (r: Result<AllocBatch, Error>)
        requires
            old(self).wf(),
            count > 0,
        ensures
            final(self).wf(),
            match r {
                Ok(AllocBatch::Wait) => old(self)@.num_free < count && final(self)@ == old(self)@,
                Ok(AllocBatch::Done(hbas)) => old(self)@.num_free >= count && old(
                    self,
                )@.batch_pick(count as nat) == Some(as_ints(hbas@)) && final(self)@ == old(
                    self,
                )@.after_batch(as_ints(hbas@)),
                Err(e) => e.kind() == Errno::OutOfDisk && old(self)@.num_free >= count && old(
                    self,
                )@.batch_pick(count as nat) is None && final(self)@ == old(self)@,
            },
            r matches Ok(AllocBatch::Done(hbas)) ==> hbas@.len() == count && forall|k: int|
                0 <= k < count ==> (#[trigger] hbas@[k]) < old(self)@.bitmap.len(),
    {
        if self.num_free < count {
            return Ok(AllocBatch::Wait);
        }
        let hbas: Vec<usize> = match self.do_alloc_batch(count) {
            Some(hbas) => hbas,
            None => {
                return Err(Error::with_msg(Errno::OutOfDisk, "allocate blocks failed"));
            },
        };
        mark_segments_alloc(&mut self.segment_table, hbas.as_slice());
        proof {
            lemma_seg_alloc_all_shape(old(self)@.segments, as_ints(hbas@));
            assert(as_ints(hbas@).len() == count);
        }
        self.num_free = self.num_free - count;
        self.is_dirty = true;
        Ok(AllocBatch::Done(hbas))
    }

    /// Marks the blocks to which live data was moved as allocated. The kept
    /// count of free blocks is left as it is: the blocks were counted when
    /// the data was first written.
    pub fn migrate_batch(&mut self, hbas: &[usize])
        requires
            old(self).wf(),
            forall|k: int| 0 <= k < hbas@.len() ==> hbas@[k] < old(self)@.bitmap.len(),
        ensures
            final(self).wf(),
            final(self)@ == (AllocTableView {
                bitmap: set_all(old(self)@.bitmap, as_ints(hbas@), false),
                segments: seg_alloc_all(old(self)@.segments, as_ints(hbas@)),
                ..old(self)@
            }),
    {
        mark_segments_alloc(&mut self.segment_table, hbas);
        clear_bits(&mut self.bitmap, hbas);
        proof {
            lemma_seg_alloc_all_shape(old(self)@.segments, as_ints(hbas@));
        }
    }

    /// Marks block `nth` as free and counts it. Returns whether enough
    /// blocks are free to wake a waiting allocation.
    pub fn set_deallocated(&mut self, nth: usize) -> (notify: bool)
        requires
            old(self).wf(),
            nth < old(self)@.bitmap.len(),
            old(self)@.num_free < usize::MAX,
        ensures
            final(self).wf(),
            final(self)@ == (AllocTableView {
                bitmap: old(self)@.bitmap.update(nth as int, true),
                segments: seg_dealloc(old(self)@.segments, nth as int),
                num_free: old(self)@.num_free + 1,
                ..old(self)@
            }),
            notify == (old(self)@.num_free + 1 >= AVG_ALLOC_COUNT),
    {
        self.bitmap.set(nth, true);
        mark_segment_dealloc(&mut self.segment_table, nth);
        self.num_free = self.num_free + 1;
        self.num_free >= AVG_ALLOC_COUNT
    }

    /// Frees every block of segment `segment_id`, resets its counters and
    /// adds `discard_count` to the kept count of free blocks.
    pub fn clear_segment(&mut self, segment_id: SegmentId, discard_count: usize)
        requires
            old(self).wf(),
            (segment_id + 1) * SEGMENT_SIZE <= old(self)@.bitmap.len(),
            old(self)@.num_free + discard_count <= usize::MAX,
        ensures
            final(self).wf(),
            final(self)@ == (AllocTableView {
                bitmap: fill_range(
                    old(self)@.bitmap,
                    segment_id * SEGMENT_SIZE,
                    (segment_id + 1) * SEGMENT_SIZE,
                    true,
                ),
                segments: seg_clear(old(self)@.segments, segment_id as int),
                num_free: old(self)@.num_free + discard_count as nat,
                ..old(self)@
            }),
    {
        self.num_free = self.num_free + discard_count;
        let begin_hba: usize = segment_id * SEGMENT_SIZE;
        let end_hba: usize = begin_hba + SEGMENT_SIZE;
        let mut hba: usize = begin_hba;
        proof {
            assert(self.bitmap@ =~= fill_range(
                old(self)@.bitmap,
                begin_hba as int,
                begin_hba as int,
                true,
            ));
        }
        while hba < end_hba
            invariant
                begin_hba <= hba <= end_hba <= self.nblocks,
                self.bitmap.wf(),
                self.bitmap@.len() == self.nblocks,
                self.nblocks == old(self).nblocks,
                self.segment_table == old(self).segment_table,
                self.next_avail == old(self).next_avail,
                self.is_dirty == old(self).is_dirty,
                self.num_free == old(self).num_free + discard_count,
                self.bitmap@ == fill_range(old(self)@.bitmap, begin_hba as int, hba as int, true),
            decreases end_hba - hba,
        {
            self.bitmap.set(hba, true);
            proof {
                assert(self.bitmap@ =~= fill_range(
                    old(self)@.bitmap,
                    begin_hba as int,
                    hba + 1,
                    true,
                ));
            }
            hba += 1;
        }
        match &mut self.segment_table {
            Some(segments) => {
                if segment_id < segments.len() {
                    let ghost before = segments@;
                    segments[segment_id].clear_segment();
                    proof {
                        assert(segments@.map_values(|s: Segment| s@) =~= before.map_values(
                            |s: Segment| s@,
                        ).update(segment_id as int, segments@[segment_id as int]@));
                    }
                }
            },
            None => {},
        }
    }
}

/// A table of `n` fresh segments.
fn fresh_table(n: usize) -> (t: Vec<Segment>)
    ensures
        t@.map_values(|s: Segment| s@) == fresh_segments(n as nat),
{
    let mut table: Vec<Segment> = Vec::new();
    let mut id: usize = 0;
    while id < n
        invariant
            id <= n,
            table@.len() == id,
            forall|i: int| 0 <= i < id ==> (#[trigger] table@[i])@ == fresh_segments(n as nat)[i],
        decreases n - id,
    {
        table.push(Segment::new(id, SEGMENT_SIZE));
        id += 1;
    }
    proof {
        assert(table@.map_values(|s: Segment| s@) =~= fresh_segments(n as nat));
    }
    table
}


/// The number of entries of `entries` whose block lies below `hba`.
pub open spec fn rank(entries: Seq<DiffEntry>, hba: usize) -> int
    decreases entries.len(),
{
    if entries.len() == 0 {
        0
    } else {
        rank(entries.drop_last(), hba) + if entries.last().hba < hba {
            1int
        } else {
            0
        }
    }
}

/// The entries are ordered by block, each block at most once.
pub open spec fn strictly_ascending(entries: Seq<DiffEntry>) -> bool {
    forall|j: int, k: int| 0 <= j < k < entries.len() ==> entries[j].hba < entries[k].hba
}

/// The change recorded for `hba`, if any.
pub open spec fn recorded(entries: Seq<DiffEntry>, hba: usize) -> Option<AllocDiff> {
    let p = rank(entries, hba);
    if p < entries.len() && entries[p].hba == hba {
        Some(entries[p].diff)
    } else {
        None
    }
}

/// The table after `e` was recorded: in place of an entry for the same
/// block, else at the place that keeps the order.
pub open spec fn put(entries: Seq<DiffEntry>, e: DiffEntry) -> Seq<DiffEntry> {
    let p = rank(entries, e.hba);
    if p < entries.len() && entries[p].hba == e.hba {
        entries.update(p, e)
    } else {
        entries.insert(p, e)
    }
}

/// The blocks that `entries` give back, in order.
pub open spec fn deallocated(entries: Seq<DiffEntry>) -> Seq<int>
    decreases entries.len(),
{
    if entries.len() == 0 {
        Seq::empty()
    } else if entries.last().diff == AllocDiff::Dealloc {
        deallocated(entries.drop_last()).push(entries.last().hba as int)
    } else {
        deallocated(entries.drop_last())
    }
}

/// In an ordered table the rank of a block is the first place at which a
/// block not below it stands.
pub proof fn lemma_rank(entries: Seq<DiffEntry>, hba: usize, p: int)
    requires
        strictly_ascending(entries),
        0 <= p <= entries.len(),
        forall|k: int| 0 <= k < p ==> (#[trigger] entries[k]).hba < hba,
        forall|k: int| p <= k < entries.len() ==> (#[trigger] entries[k]).hba >= hba,
    ensures
        rank(entries, hba) == p,
    decreases entries.len(),
{
    if entries.len() > 0 {
        let head = entries.drop_last();
        if p == entries.len() {
            lemma_rank(head, hba, p - 1);
        } else {
            lemma_rank(head, hba, p);
        }
    }
}

/// Recording a change keeps the table ordered, and afterwards the table
/// holds the new change for its block and what it held for every other.
pub proof fn law_put(entries: Seq<DiffEntry>, e: DiffEntry)
    requires
        strictly_ascending(entries),
    ensures
        strictly_ascending(put(entries, e)),
        recorded(put(entries, e), e.hba) == Some(e.diff),
        forall|h: usize| h != e.hba ==> recorded(put(entries, e), h) == recorded(entries, h),
{
    let p = rank(entries, e.hba);
    lemma_rank_bounds(entries, e.hba);
    let after = put(entries, e);
    assert(strictly_ascending(after));
    lemma_rank_bounds(after, e.hba);
    assert forall|h: usize| true implies (h == e.hba ==> recorded(after, h) == Some(e.diff)) && (h
        != e.hba ==> recorded(after, h) == recorded(entries, h)) by {
        lemma_rank_bounds(entries, h);
        lemma_rank_bounds(after, h);
        let q = rank(entries, h);
        let exists_same = p < entries.len() && entries[p].hba == e.hba;
        if exists_same {
            assert forall|k: int| 0 <= k < q implies (#[trigger] after[k]).hba < h by {
                assert(entries[k].hba < h);
            }
            assert forall|k: int| q <= k < after.len() implies (#[trigger] after[k]).hba >= h by {
                assert(entries[k].hba >= h);
            }
            lemma_rank(after, h, q);
        } else if h <= e.hba {
            assert(q <= p);
            assert forall|k: int| 0 <= k < q implies (#[trigger] after[k]).hba < h by {
                assert(entries[k].hba < h);
            }
            assert forall|k: int| q <= k < after.len() implies (#[trigger] after[k]).hba >= h by {
                if k < p {
                    assert(entries[k].hba >= h);
                } else if k > p {
                    assert(entries[k - 1].hba >= e.hba);
                }
            }
            lemma_rank(after, h, q);
        } else {
            assert(q >= p);
            assert forall|k: int| 0 <= k < q + 1 implies (#[trigger] after[k]).hba < h by {
                if k < p {
                    assert(entries[k].hba < e.hba);
                } else if k > p {
                    assert(entries[k - 1].hba < h);
                }
            }
            assert forall|k: int| q + 1 <= k < after.len() implies (#[trigger] after[k]).hba
                >= h by {
                assert(entries[k - 1].hba >= h);
            }
            lemma_rank(after, h, q + 1);
        }
    }
}

/// In an ordered table every entry before the rank of a block lies below
/// the block and every entry from the rank on does not.
pub proof fn lemma_rank_bounds(entries: Seq<DiffEntry>, hba: usize)
    requires
        strictly_ascending(entries),
    ensures
        0 <= rank(entries, hba) <= entries.len(),
        forall|k: int| 0 <= k < rank(entries, hba) ==> (#[trigger] entries[k]).hba < hba,
        forall|k: int| rank(entries, hba) <= k < entries.len() ==> (#[trigger] entries[k]).hba >= hba,
    decreases entries.len(),
{
    if entries.len() > 0 {
        let head = entries.drop_last();
        lemma_rank_bounds(head, hba);
        let last = entries.last();
        if last.hba < hba {
            assert forall|k: int| 0 <= k < head.len() implies (#[trigger] head[k]).hba < hba by {
                assert(entries[k].hba < entries[entries.len() - 1].hba);
            }
            if rank(head, hba) < head.len() {
                assert(head[rank(head, hba)].hba >= hba);
            }
        }
        assert forall|k: int| 0 <= k < rank(entries, hba) implies (#[trigger] entries[k]).hba
            < hba by {
            if k < head.len() {
                assert(head[k] == entries[k]);
            }
        }
        assert forall|k: int| rank(entries, hba) <= k < entries.len() implies (
        #[trigger] entries[k]).hba >= hba by {
            if k < head.len() {
                assert(head[k] == entries[k]);
            }
        }
    }
}

/// The changes of block validity that one transaction of the index makes,
/// kept in the order of the blocks.
pub struct BlockAlloc {
    diff_table: Vec<DiffEntry>,
}

impl View for BlockAlloc {
    type V = Seq<DiffEntry>;

    closed spec fn view(&self) -> Seq<DiffEntry> {
        self.diff_table@
    }
}

impl BlockAlloc {
    /// The table is ordered by block and holds no invalid change.
    pub open spec fn wf(&self) -> bool {
        &&& strictly_ascending(self@)
        &&& forall|k: int| 0 <= k < self@.len() ==> (#[trigger] self@[k]).diff != AllocDiff::Invalid
    }

    /// An empty record of changes.
    pub fn new() -> (b: BlockAlloc)
        ensures
            b.wf(),
            b@ == Seq::<DiffEntry>::empty(),
    {
        BlockAlloc { diff_table: Vec::new() }
    }

    /// Whether no change is recorded.
    pub fn is_empty(&self) -> (b: bool)
        ensures
            b == (self@.len() == 0),
    {
        self.diff_table.len() == 0
    }

    /// The change recorded for `block_id`, if any.
    pub fn get(&self, block_id: usize) -> (r: Option<AllocDiff>)
        requires
            self.wf(),
        ensures
            r == recorded(self@, block_id),
    {
        let p = self.position(block_id);
        if p < self.diff_table.len() && self.diff_table[p].hba == block_id {
            Some(self.diff_table[p].diff)
        } else {
            None
        }
    }

    /// Whether every recorded block lies below `nblocks`.
    pub fn fits(&self, nblocks: usize) -> (b: bool)
        requires
            self.wf(),
        ensures
            b == forall|k: int| 0 <= k < self@.len() ==> (#[trigger] self@[k]).hba < nblocks,
    {
        let n = self.diff_table.len();
        if n == 0 {
            return true;
        }
        let fits = self.diff_table[n - 1].hba < nblocks;
        proof {
            if fits {
                assert forall|k: int| 0 <= k < self@.len() implies (#[trigger] self@[k]).hba
                    < nblocks by {
                    if k < n - 1 {
                        assert(self@[k].hba < self@[n - 1].hba);
                    }
                }
            }
        }
        fits
    }

    fn position(&self, block_id: usize) -> (p: usize)
        requires
            self.wf(),
        ensures
            p == rank(self@, block_id),
            p <= self@.len(),
    {
        let mut p: usize = 0;
        while p < self.diff_table.len() && self.diff_table[p].hba < block_id
            invariant
                p <= self@.len(),
                self.wf(),
                forall|k: int| 0 <= k < p ==> (#[trigger] self@[k]).hba < block_id,
            decreases self@.len() - p,
        {
            p += 1;
        }
        proof {
            assert forall|k: int| p <= k < self@.len() implies (#[trigger] self@[k]).hba
                >= block_id by {
                if k > p {
                    assert(self@[p as int].hba < self@[k].hba);
                }
            }
            lemma_rank(self@, block_id, p as int);
        }
        p
    }

    fn record(&mut self, entry: DiffEntry)
        requires
            old(self).wf(),
            entry.diff != AllocDiff::Invalid,
        ensures
            final(self).wf(),
            final(self)@ == put(old(self)@, entry),
    {
        let p = self.position(entry.hba);
        proof {
            law_put(self@, entry);
        }
        if p < self.diff_table.len() && self.diff_table[p].hba == entry.hba {
            self.diff_table[p] = entry;
        } else {
            self.diff_table.insert(p, entry);
        }
        proof {
            let after = put(old(self)@, entry);
            assert forall|k: int| 0 <= k < after.len() implies (#[trigger] after[k]).diff
                != AllocDiff::Invalid by {
                if k < p {
                    assert(after[k] == old(self)@[k]);
                } else if k > p {
                    assert(after[k] == old(self)@[k] || after[k] == old(self)@[k - 1]);
                }
            }
        }
    }

    /// Records that `block_id` was allocated.
    pub fn alloc_block(&mut self, block_id: usize) -> (r: Result<(), Error>)
        requires
            old(self).wf(),
        ensures
            r is Ok,
            final(self).wf(),
            final(self)@ == put(old(self)@, DiffEntry { hba: block_id, diff: AllocDiff::Alloc }),
    {
        self.record(DiffEntry { hba: block_id, diff: AllocDiff::Alloc });
        Ok(())
    }

    /// Records that `block_id` was given back.
    pub fn dealloc_block(&mut self, block_id: usize) -> (r: Result<(), Error>)
        requires
            old(self).wf(),
        ensures
            r is Ok,
            final(self).wf(),
            final(self)@ == put(old(self)@, DiffEntry { hba: block_id, diff: AllocDiff::Dealloc }),
    {
        self.record(DiffEntry { hba: block_id, diff: AllocDiff::Dealloc });
        Ok(())
    }

    /// Prepares the log of changes. Nothing is to be done before the
    /// changes are known.
    pub fn prepare_diff_log(&self) -> (r: Result<(), Error>)
        ensures
            r is Ok,
    {
        Ok(())
    }

    /// The buffers that make the recorded changes durable: to be appended,
    /// in order, to a fresh log of the allocation-log bucket. Without changes
    /// there is nothing to append and no log to create.
    pub fn update_diff_log(&self) -> (chunks: Vec<Vec<u8>>)
        ensures
            self@.len() == 0 ==> chunks@.len() == 0,
            self@.len() > 0 ==> chunks@.len() > 0 && flatten(chunks@) == diff_stream(self@, 0),
            forall|k: int|
                0 <= k < chunks@.len() ==> 0 < (#[trigger] chunks@[k])@.len() <= MAX_BUF_SIZE
                    && chunks@[k]@.len() % (BLOCK_SIZE as nat) == 0,
    {
        encode_diff_log(&self.diff_table)
    }

    /// Applies the recorded deallocations to the validity table: each such
    /// block becomes free and is counted, in the table and in its segment.
    /// Recorded allocations are already in the table. Returns whether enough
    /// blocks are free to wake a waiting allocation.
    pub fn update_alloc_table(&self, alloc_table: &mut AllocTable) -> (notify: bool)
        requires
            self.wf(),
            old(alloc_table).wf(),
            forall|k: int| 0 <= k < self@.len() ==> (#[trigger] self@[k]).hba < old(
                alloc_table,
            )@.bitmap.len(),
            old(alloc_table)@.num_free + self@.len() <= usize::MAX,
        ensures
            final(alloc_table).wf(),
            final(alloc_table)@ == old(alloc_table)@.after_commit(self@),
            notify == (old(alloc_table)@.num_free + deallocated(self@).len() >= AVG_ALLOC_COUNT),
    {
        let mut num_dealloc: usize = 0;
        let mut i: usize = 0;
        while i < self.diff_table.len()
            invariant
                i <= self@.len(),
                num_dealloc <= i,
                num_dealloc == deallocated(self@.take(i as int)).len(),
                alloc_table.bitmap.wf(),
                alloc_table.bitmap@.len() == old(alloc_table)@.bitmap.len(),
                alloc_table.bitmap@ == set_all(
                    old(alloc_table)@.bitmap,
                    deallocated(self@.take(i as int)),
                    true,
                ),
                seg_views(alloc_table.segment_table) == seg_dealloc_all(
                    old(alloc_table)@.segments,
                    deallocated(self@.take(i as int)),
                ),
                alloc_table.nblocks == old(alloc_table).nblocks,
                alloc_table.next_avail == old(alloc_table).next_avail,
                alloc_table.is_dirty == old(alloc_table).is_dirty,
                alloc_table.num_free == old(alloc_table).num_free,
                forall|k: int| 0 <= k < self@.len() ==> (#[trigger] self@[k]).hba < old(
                    alloc_table,
                )@.bitmap.len(),
            decreases self@.len() - i,
        {
            let entry = self.diff_table[i];
            proof {
                assert(self@.take(i + 1).drop_last() =~= self@.take(i as int));
                assert(self@.take(i + 1).last() == entry);
            }
            match entry.diff {
                AllocDiff::Dealloc => {
                    alloc_table.bitmap.set(entry.hba, true);
                    mark_segment_dealloc(&mut alloc_table.segment_table, entry.hba);
                    num_dealloc += 1;
                    proof {
                        let d = deallocated(self@.take(i + 1));
                        assert(d.drop_last() =~= deallocated(self@.take(i as int)));
                    }
                },
                _ => {},
            }
            i += 1;
        }
        proof {
            assert(self@.take(self@.len() as int) =~= self@);
            lemma_seg_dealloc_all_shape(old(alloc_table)@.segments, deallocated(self@));
        }
        alloc_table.num_free = alloc_table.num_free + num_dealloc;
        alloc_table.num_free >= AVG_ALLOC_COUNT
    }
}


/// The largest encoding of a bitmap that is persisted.
pub const BITMAP_MAX_SIZE: usize = 7340032;

/// `bytes` padded with zeros to whole blocks.
pub open spec fn padded(bytes: Seq<u8>) -> Seq<u8> {
    bytes + zeros(pad_len(bytes.len() as int))
}

/// Segments whose counters lie below 2^14, as those of segments of
/// `SEGMENT_SIZE` blocks do while they are within the segment, fit their
/// slots.
pub proof fn law_small_counters_fit(t: Seq<SegmentView>)
    requires
        forall|i: int| 0 <= i < t.len() ==> (#[trigger] t[i]).valid_block < 16384 && t[i].free_space < 16384,
    ensures
        slots_fit(t),
{
    assert forall|i: int| 0 <= i < t.len() implies pair_encoding(
        (#[trigger] t[i]).valid_block,
        t[i].free_space,
    ).len() <= 16 by {
        crate::codec::lemma_varint_short(t[i].valid_block);
        crate::codec::lemma_varint_short(t[i].free_space);
    }
}

/// What is written when the validity table is persisted.
pub struct Snapshot {
    /// The content of the new validity-table log.
    pub bitmap: Vec<u8>,
    /// The content of the new segment-table log, where one is kept.
    pub segments: Option<Vec<u8>>,
}

/// The bitmap that recovery starts from: the persisted one where a
/// snapshot was found and fits the device, all blocks free where none was
/// found, nothing where the snapshot could not be read.
pub open spec fn seed_bitmap(nblocks: usize, bvt_log: Result<Vec<u8>, Error>) -> Option<Seq<bool>> {
    match bvt_log {
        Ok(bytes) => match postcard_bitmap_of(bytes@) {
            Some((words, nbits)) => if nbits == nblocks && words.len() == (nbits + 63) / 64 {
                Some(unpack(words, nbits as nat))
            } else {
                None
            },
            None => None,
        },
        Err(e) => if e.kind() == Errno::NotFound {
            Some(Seq::new(nblocks as nat, |i: int| true))
        } else {
            None
        },
    }
}

/// The validity-table log was read and starts with the encoding of a
/// bitmap of `nblocks` bits packed into `words`.
pub open spec fn starts_with_bitmap(bvt_log: Result<Vec<u8>, Error>, words: Seq<u64>, nblocks: usize) -> bool {
    &&& bvt_log is Ok
    &&& words.len() == (nblocks + 63) / 64
    &&& bitmap_encoding(words, nblocks).is_prefix_of(bvt_log->Ok_0@)
}

/// The bitmap after the logs of `logs` were replayed in order. A log that
/// was not found is passed over; any other failure ends recovery.
pub open spec fn replay_logs(bits: Seq<bool>, logs: Seq<Result<Vec<u8>, Error>>) -> Option<
    Seq<bool>,
>
    decreases logs.len(),
{
    if logs.len() == 0 {
        Some(bits)
    } else {
        match replay_logs(bits, logs.drop_last()) {
            Some(b) => match logs.last() {
                Ok(bytes) => Some(replay(b, bytes@, 0)),
                Err(e) => if e.kind() == Errno::NotFound {
                    Some(b)
                } else {
                    None
                },
            },
            None => None,
        }
    }
}

/// The bitmap after the allocation logs were replayed: nothing to replay
/// where the bucket was not found.
pub open spec fn replay_bucket(
    bits: Seq<bool>,
    bal_logs: Result<Vec<Result<Vec<u8>, Error>>, Error>,
) -> Option<Seq<bool>> {
    match bal_logs {
        Ok(logs) => replay_logs(bits, logs@),
        Err(e) => if e.kind() == Errno::NotFound {
            Some(bits)
        } else {
            None
        },
    }
}

/// The stored table of `n` segments read back from `buf`, if every slot is
/// there and holds two counters.
pub open spec fn stored_table(n: nat, buf: Seq<u8>) -> Option<Seq<SegmentView>> {
    if forall|idx: int| 0 <= idx < n ==> stored_segment(buf, idx) is Some {
        Some(Seq::new(n, |idx: int| stored_segment(buf, idx)->0))
    } else {
        None
    }
}

/// The segment table that recovery starts from: none where garbage
/// collection is disabled; else the persisted one, or fresh segments where
/// none was found.
pub open spec fn seed_segments(nblocks: usize, enable_gc: bool, seg_log: Result<Vec<u8>, Error>) -> Option<
    Option<Seq<SegmentView>>,
> {
    let n = (nblocks / SEGMENT_SIZE) as nat;
    if !enable_gc {
        Some(None)
    } else {
        match seg_log {
            Ok(bytes) => match stored_table(n, bytes@) {
                Some(t) => Some(Some(t)),
                None => None,
            },
            Err(e) => if e.kind() == Errno::NotFound {
                Some(Some(fresh_segments(n)))
            } else {
                None
            },
        }
    }
}

/// The ids ascend.
pub open spec fn ascending_ids(ids: Seq<u64>) -> bool {
    forall|j: int, k: int| 0 <= j < k < ids.len() ==> ids[j] <= ids[k]
}

/// The ids of the allocation logs in the order in which recovery replays
/// them: ascending, from the oldest log to the newest.
pub fn sort_log_ids(ids: &Vec<u64>) -> (sorted: Vec<u64>)
    ensures
        ascending_ids(sorted@),
        sorted@.to_multiset() == ids@.to_multiset(),
        sorted@.len() == ids@.len(),
{
    let mut sorted: Vec<u64> = Vec::new();
    let mut i: usize = 0;
    proof {
        assert(ids@.take(0) =~= Seq::<u64>::empty());
    }
    while i < ids.len()
        invariant
            i <= ids@.len(),
            sorted@.len() == i,
            ascending_ids(sorted@),
            sorted@.to_multiset() == ids@.take(i as int).to_multiset(),
        decreases ids@.len() - i,
    {
        let id = ids[i];
        let mut p: usize = sorted.len();
        while p > 0 && sorted[p - 1] > id
            invariant
                p <= sorted@.len(),
                forall|k: int| p <= k < sorted@.len() ==> sorted@[k] > id,
            decreases p,
        {
            p -= 1;
        }
        proof {
            vstd::seq_lib::to_multiset_insert(sorted@, p as int, id);
            vstd::seq_lib::to_multiset_build(ids@.take(i as int), id);
            assert(ids@.take(i + 1) =~= ids@.take(i as int).push(id));
            let after = sorted@.insert(p as int, id);
            assert forall|j: int, k: int| 0 <= j < k < after.len() implies after[j] <= after[k] by {
                if j < p && k > p {
                    assert(after[j] == sorted@[j]);
                    assert(after[k] == sorted@[k - 1]);
                } else if j < p && k < p {
                    assert(after[j] == sorted@[j] && after[k] == sorted@[k]);
                } else if j > p {
                    assert(after[j] == sorted@[j - 1] && after[k] == sorted@[k - 1]);
                } else if j == p {
                    assert(after[k] == sorted@[k - 1]);
                } else {
                    assert(after[j] == sorted@[j]);
                    if p > 0 {
                        assert(sorted@[p - 1] <= id);
                    }
                }
            }
        }
        sorted.insert(p, id);
        i += 1;
    }
    proof {
        assert(ids@.take(ids@.len() as int) =~= ids@);
    }
    sorted
}

/// The segment-table log was read and starts with the slots of the table
/// `t`, one for each segment of a device of `nblocks` blocks on which garbage
/// collection is enabled.
pub open spec fn holds_segments(
    nblocks: usize,
    enable_gc: bool,
    seg_log: Result<Vec<u8>, Error>,
    t: Seq<SegmentView>,
) -> bool {
    &&& enable_gc
    &&& seg_log is Ok
    &&& t.len() == nblocks / SEGMENT_SIZE
    &&& holds_table(seg_log->Ok_0@, t)
}

/// The table `t` as recovery reads it back: each segment at its index,
/// with the size of a segment and the counters that were stored.
pub open spec fn as_recovered(t: Seq<SegmentView>) -> Seq<SegmentView> {
    Seq::new(t.len(), |idx: int| recovered_segment(t, idx))
}

/// The table that recovery yields, if it succeeds.
pub open spec fn recovered(
    nblocks: usize,
    enable_gc: bool,
    bvt_log: Result<Vec<u8>, Error>,
    bal_logs: Result<Vec<Result<Vec<u8>, Error>>, Error>,
    seg_log: Result<Vec<u8>, Error>,
) -> Option<AllocTableView> {
    match seed_bitmap(nblocks, bvt_log) {
        Some(seed) => match replay_bucket(seed, bal_logs) {
            Some(bitmap) => match seed_segments(nblocks, enable_gc, seg_log) {
                Some(segments) => Some(
                    AllocTableView {
                        bitmap,
                        segments,
                        next_avail: match first_one_from(bitmap, 0) {
                            Some(h) => h as nat,
                            None => 0,
                        },
                        num_free: count_ones(bitmap),
                        dirty: false,
                    },
                ),
                None => None,
            },
            None => None,
        },
        None => None,
    }
}

fn seed_from_log(nblocks: usize, bvt_log: &Result<Vec<u8>, Error>) -> (r: Option<BitMap>)
    ensures
        match r {
            Some(b) => b.wf() && seed_bitmap(nblocks, *bvt_log) == Some(b@) && b@.len() == nblocks,
            None => seed_bitmap(nblocks, *bvt_log) is None,
        },
        forall|words: Seq<u64>| #[trigger]
            starts_with_bitmap(*bvt_log, words, nblocks) ==> seed_bitmap(nblocks, *bvt_log)
                == Some(unpack(words, nblocks as nat)),
{
    match bvt_log {
        Ok(bytes) => match read_bitmap(bytes.as_slice()) {
            Some((words, nbits)) => {
                if nbits != nblocks {
                    return None;
                }
                BitMap::from_words(words, nbits)
            },
            None => None,
        },
        Err(e) => {
            if e.errno() == Errno::NotFound {
                Some(BitMap::repeat(true, nblocks))
            } else {
                None
            }
        },
    }
}

fn replay_all(bitmap: &mut BitMap, bal_logs: &Result<Vec<Result<Vec<u8>, Error>>, Error>) -> (ok:
    bool)
    requires
        old(bitmap).wf(),
    ensures
        final(bitmap).wf(),
        final(bitmap)@.len() == old(bitmap)@.len(),
        ok ==> replay_bucket(old(bitmap)@, *bal_logs) == Some(final(bitmap)@),
        !ok ==> replay_bucket(old(bitmap)@, *bal_logs) is None,
{
    match bal_logs {
        Ok(logs) => {
            let mut i: usize = 0;
            while i < logs.len()
                invariant
                    i <= logs@.len(),
                    bitmap.wf(),
                    bitmap@.len() == old(bitmap)@.len(),
                    replay_logs(old(bitmap)@, logs@.take(i as int)) == Some(bitmap@),
                    *bal_logs == Ok::<Vec<Result<Vec<u8>, Error>>, Error>(*logs),
                decreases logs@.len() - i,
            {
                proof {
                    assert(logs@.take(i + 1).drop_last() =~= logs@.take(i as int));
                    assert(logs@.take(i + 1).last() == logs@[i as int]);
                }
                let log = &logs[i];
                match log {
                    Ok(bytes) => {
                        replay_diff_log(bitmap, bytes.as_slice());
                    },
                    Err(e) => {
                        if e.errno() != Errno::NotFound {
                            proof {
                                assert(logs@[i as int] == *log);
                                lemma_replay_logs_fail(old(bitmap)@, logs@, i as int);
                            }
                            return false;
                        }
                    },
                }
                i += 1;
            }
            proof {
                assert(logs@.take(logs@.len() as int) =~= logs@);
            }
            true
        },
        Err(e) => e.errno() == Errno::NotFound,
    }
}

/// A log that cannot be read ends the replay of every longer list of logs.
proof fn lemma_replay_logs_fail(bits: Seq<bool>, logs: Seq<Result<Vec<u8>, Error>>, i: int)
    requires
        0 <= i < logs.len(),
        logs[i] is Err,
        logs[i]->Err_0.kind() != Errno::NotFound,
    ensures
        replay_logs(bits, logs) is None,
    decreases logs.len(),
{
    if i < logs.len() - 1 {
        lemma_replay_logs_fail(bits, logs.drop_last(), i);
    }
}

fn seed_table(nblocks: usize, enable_gc: bool, seg_log: &Result<Vec<u8>, Error>) -> (r: Option<
    Option<Vec<Segment>>,
>)
    ensures
        match r {
            Some(t) => seed_segments(nblocks, enable_gc, *seg_log) == Some(seg_views(t)),
            None => seed_segments(nblocks, enable_gc, *seg_log) is None,
        },
        forall|t: Seq<SegmentView>| #[trigger]
            holds_segments(nblocks, enable_gc, *seg_log, t) ==> seed_segments(
                nblocks,
                enable_gc,
                *seg_log,
            ) == Some(Some(as_recovered(t))),
{
    let segment_nums: usize = nblocks / SEGMENT_SIZE;
    if !enable_gc {
        return Some(None);
    }
    match seg_log {
        Ok(bytes) => match recover_segment_table(segment_nums, bytes.as_slice()) {
            Ok(table) => {
                proof {
                    assert(table@.map_values(|s: Segment| s@) =~= Seq::new(
                        segment_nums as nat,
                        |idx: int| stored_segment(bytes@, idx)->0,
                    ));
                    assert forall|t: Seq<SegmentView>| #[trigger]
                        holds_segments(nblocks, enable_gc, *seg_log, t) implies seed_segments(
                        nblocks,
                        enable_gc,
                        *seg_log,
                    ) == Some(Some(as_recovered(t))) by {
                        assert(holds_table(bytes@, t) && t.len() == segment_nums);
                        assert(as_recovered(t) =~= table@.map_values(|s: Segment| s@));
                    }
                }
                Some(Some(table))
            },
            Err(_) => {
                proof {
                    assert forall|t: Seq<SegmentView>| #[trigger]
                        holds_segments(nblocks, enable_gc, *seg_log, t) implies false by {
                        assert(holds_table(bytes@, t) && t.len() == segment_nums);
                    }
                }
                None
            },
        },
        Err(e) => {
            if e.errno() == Errno::NotFound {
                Some(Some(fresh_table(segment_nums)))
            } else {
                None
            }
        },
    }
}

impl AllocTable {
    /// Rebuilds the validity table from what was persisted: the content of
    /// the latest validity-table log, the contents of the allocation logs in
    /// the order of their ids, and the content of the latest segment-table
    /// log, each as the log store returned it.
    ///
    /// A bucket or a log that was not found stands for no earlier state. Any
    /// other failure, and a snapshot that cannot be read or does not fit the
    /// device, ends recovery with `TxAborted`.
    pub fn recover(
        nblocks: usize,
        enable_gc: bool,
        bvt_log: Result<Vec<u8>, Error>,
        bal_logs: Result<Vec<Result<Vec<u8>, Error>>, Error>,
        seg_log: Result<Vec<u8>, Error>,
    ) -> (r: Result<AllocTable, Error>)
        requires
            nblocks > 0,
        ensures
            match recovered(nblocks, enable_gc, bvt_log, bal_logs, seg_log) {
                Some(v) => r is Ok && r->Ok_0@ == v && r->Ok_0.wf() && v.counts_agree(),
                None => r is Err && r->Err_0.kind() == Errno::TxAborted,
            },
            forall|words: Seq<u64>| #[trigger]
                starts_with_bitmap(bvt_log, words, nblocks) ==> seed_bitmap(nblocks, bvt_log)
                    == Some(unpack(words, nblocks as nat)),
            forall|t: Seq<SegmentView>| #[trigger]
                holds_segments(nblocks, enable_gc, seg_log, t) ==> seed_segments(
                    nblocks,
                    enable_gc,
                    seg_log,
                ) == Some(Some(as_recovered(t))),
    {
        let seeded_table = seed_table(nblocks, enable_gc, &seg_log);
        let mut bitmap = match seed_from_log(nblocks, &bvt_log) {
            Some(bitmap) => bitmap,
            None => {
                return Err(Error::with_msg(Errno::TxAborted, "recover block validity table TX aborted"));
            },
        };
        if !replay_all(&mut bitmap, &bal_logs) {
            return Err(Error::with_msg(Errno::TxAborted, "recover block validity table TX aborted"));
        }
        let next_avail: usize = match bitmap.first_one(0) {
            Some(hba) => hba,
            None => 0,
        };
        let num_free: usize = bitmap.count_ones();
        let segment_table = match seeded_table {
            Some(table) => table,
            None => {
                return Err(Error::with_msg(Errno::TxAborted, "recover block validity table TX aborted"));
            },
        };
        Ok(AllocTable { bitmap, segment_table, next_avail, nblocks, is_dirty: false, num_free })
    }

    /// What to persist so that the table survives a restart, or `None` when
    /// the table did not change since it was last persisted.
    ///
    /// The snapshot is to be appended to fresh logs of the validity-table
    /// and segment-table buckets in one TX that also deletes the earlier logs
    /// of both buckets and every allocation log; `mark_persisted` records that
    /// the TX was committed. Fails with `InvalidArgs` when the bitmap or a
    /// segment does not fit its encoding.
    pub fn do_compaction(&self) -> (r: Result<Option<Snapshot>, Error>)
        requires
            self.wf(),
        ensures
            !self@.dirty ==> r is Ok && r->Ok_0 is None,
            self@.dirty ==> (r is Ok <==> self.bitmap_bytes().len() <= BITMAP_MAX_SIZE && (
            self@.segments is Some ==> slots_fit(self@.segments->0))),
            self@.dirty && r is Ok ==> r->Ok_0 is Some && r->Ok_0->0.bitmap@ == padded(
                self.bitmap_bytes(),
            ) && match r->Ok_0->0.segments {
                Some(bytes) => self@.segments is Some && bytes@ == padded(
                    segment_slots(self@.segments->0),
                ),
                None => self@.segments is None,
            },
            r is Err ==> r->Err_0.kind() == Errno::InvalidArgs,
    {
        if !self.is_dirty {
            return Ok(None);
        }
        let (words, nbits) = self.bitmap.as_words();
        let mut ser_buf: Vec<u8> = match write_bitmap(words, nbits, BITMAP_MAX_SIZE) {
            Some(bytes) => bytes,
            None => {
                return Err(
                    Error::with_msg(Errno::InvalidArgs, "serialize block validity table failed"),
                );
            },
        };
        pad_to_block(&mut ser_buf);
        let ser_seg_buf: Option<Vec<u8>> = match &self.segment_table {
            Some(segment_table) => {
                let mut buf: Vec<u8> = Vec::new();
                let mut idx: usize = 0;
                while idx < segment_table.len()
                    invariant
                        idx <= segment_table@.len(),
                        segment_table@.len() * SEGMENT_SIZE <= usize::MAX,
                        self@.dirty,
                        self.bitmap_bytes().len() <= BITMAP_MAX_SIZE,
                        self@.segments == Some(segment_table@.map_values(|s: Segment| s@)),
                        buf@.len() == idx * 16,
                        buf@ == segment_slots(
                            segment_table@.map_values(|s: Segment| s@).take(idx as int),
                        ),
                        slots_fit(segment_table@.map_values(|s: Segment| s@).take(idx as int)),
                    decreases segment_table@.len() - idx,
                {
                    let mut slot = zero_bytes(16);
                    let ghost views = segment_table@.map_values(|s: Segment| s@);
                    proof {
                        segment_table@[idx as int].lemma_encoding();
                        assert(views.take(idx + 1).drop_last() =~= views.take(idx as int));
                        assert(views.take(idx + 1).last() == segment_table@[idx as int]@);
                    }
                    match segment_table[idx].to_slice(slot.as_mut_slice()) {
                        Ok(_) => {},
                        Err(e) => {
                            proof {
                                assert(views[idx as int] == segment_table@[idx as int]@);
                                assert(pair_encoding(
                                    views[idx as int].valid_block,
                                    views[idx as int].free_space,
                                ).len() > 16);
                            }
                            return Err(e);
                        },
                    }
                    proof {
                        let enc = segment_table@[idx as int].encoding();
                        assert(slot@ =~= enc + zeros(16 - enc.len()));
                        assert forall|i: int| 0 <= i < idx + 1 implies pair_encoding(
                            (#[trigger] views.take(idx + 1)[i]).valid_block,
                            views.take(idx + 1)[i].free_space,
                        ).len() <= 16 by {
                            if i < idx {
                                assert(views.take(idx + 1)[i] == views.take(idx as int)[i]);
                            }
                        }
                    }
                    append_bytes(&mut buf, slot.as_slice());
                    idx += 1;
                }
                proof {
                    let views = segment_table@.map_values(|s: Segment| s@);
                    assert(views.take(views.len() as int) =~= views);
                }
                pad_to_block(&mut buf);
                Some(buf)
            },
            None => None,
        };
        Ok(Some(Snapshot { bitmap: ser_buf, segments: ser_seg_buf }))
    }

    /// The encoding of the bitmap as it is persisted, before padding.
    pub closed spec fn bitmap_bytes(&self) -> Seq<u8> {
        bitmap_encoding(self.bitmap.words(), self.bitmap@.len() as usize)
    }

    /// The bitmap is persisted as the encoding of words that pack it.
    pub proof fn lemma_bitmap_bytes(&self)
        requires
            self.wf(),
        ensures
            exists|words: Seq<u64>| #[trigger]
                bitmap_encoding(words, self@.bitmap.len() as usize) == self.bitmap_bytes()
                    && words.len() == (self@.bitmap.len() + 63) / 64 && unpack(
                    words,
                    self@.bitmap.len(),
                ) == self@.bitmap,
    {
        self.bitmap.lemma_view();
        let words = self.bitmap.words();
        assert(bitmap_encoding(words, self@.bitmap.len() as usize) == self.bitmap_bytes());
    }

    /// What was persisted is what recovery starts from: a validity-table
    /// log that holds the snapshot of this table starts with the encoding of
    /// words that pack the bitmap of this table, which is what `recover`
    /// reads back from such a log.
    pub proof fn law_snapshot_is_recovered(&self, bvt_log: Result<Vec<u8>, Error>)
        requires
            self.wf(),
            bvt_log is Ok,
            bvt_log->Ok_0@ == padded(self.bitmap_bytes()),
        ensures
            exists|words: Seq<u64>| #[trigger]
                starts_with_bitmap(bvt_log, words, self@.bitmap.len() as usize) && unpack(
                    words,
                    self@.bitmap.len(),
                ) == self@.bitmap,
    {
        self.lemma_bitmap_bytes();
        let n = self@.bitmap.len() as usize;
        let words = choose|words: Seq<u64>| #[trigger]
            bitmap_encoding(words, n) == self.bitmap_bytes() && words.len() == (n + 63) / 64
                && unpack(words, n as nat) == self@.bitmap;
        assert(bitmap_encoding(words, n).is_prefix_of(bvt_log->Ok_0@));
        assert(starts_with_bitmap(bvt_log, words, n));
    }

    /// What was persisted of the segments is what recovery starts from: a
    /// segment-table log that holds the snapshot of this table starts with
    /// the slots of its segments, which is what `recover` reads back from
    /// such a log.
    pub proof fn law_segment_snapshot_is_recovered(&self, nblocks: usize, seg_log: Result<Vec<u8>, Error>)
        requires
            self.wf(),
            nblocks == self@.bitmap.len(),
            self@.segments is Some,
            slots_fit(self@.segments->0),
            seg_log is Ok,
            seg_log->Ok_0@ == padded(segment_slots(self@.segments->0)),
        ensures
            holds_segments(nblocks, true, seg_log, self@.segments->0),
            as_recovered(self@.segments->0) == self@.segments->0,
    {
        let t = self@.segments->0;
        let segments = self.segment_table->0;
        assert forall|i: int| 0 <= i < t.len() implies (#[trigger] t[i]).valid_block <= usize::MAX
            && t[i].free_space <= usize::MAX by {
            segments@[i].lemma_view_bounds();
            assert(t[i] == segments@[i]@);
        }
        assert(segment_slots(t).is_prefix_of(seg_log->Ok_0@));
        assert(as_recovered(t) =~= t);
    }

    /// Records that the snapshot handed out last was committed.
    pub fn mark_persisted(&mut self)
        requires
            old(self).wf(),
        ensures
            final(self).wf(),
            final(self)@ == (AllocTableView { dirty: false, ..old(self)@ }),
    {
        self.is_dirty = false;
    }
}

} // verus!
