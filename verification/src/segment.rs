//! Segments: fixed-size runs of host blocks, the unit of garbage collection.
use vstd::prelude::*;
use vstd::slice::slice_subrange;

use crate::bio::as_ints;
use crate::bitmap::{ones_in, BitMap};
use crate::codec::{pair_encoding, postcard_usize_pair_of, read_usize_pair, write_usize_pair};
use crate::diff_log::zeros;
use crate::error::{Errno, Error};

verus! {

/// The number of blocks in a segment.
pub const SEGMENT_SIZE: usize = 1024;

/// The index of a segment in the segment table.
pub type SegmentId = usize;

/// The counters of a segment as mathematical values.
pub struct SegmentView {
    pub segment_id: nat,
    pub valid_block: nat,
    pub free_space: nat,
    pub nblocks: nat,
}

/// The bookkeeping of one segment. A segment does not allocate; it counts.
///
/// `valid_block` starts at the size of the segment and goes down by one with
/// every deallocation. `free_space` counts the slots that are empty or have
/// been given back. Both counters wrap around like machine integers.
pub struct Segment {
    segment_id: SegmentId,
    valid_block: usize,
    nblocks: usize,
    free_space: usize,
}

impl View for Segment {
    type V = SegmentView;

    closed spec fn view(&self) -> SegmentView {
        SegmentView {
            segment_id: self.segment_id as nat,
            valid_block: self.valid_block as nat,
            free_space: self.free_space as nat,
            nblocks: self.nblocks as nat,
        }
    }
}

/// `a - b` on machine integers, wrapping around below zero.
pub open spec fn wrap_sub(a: nat, b: nat) -> nat {
    if a >= b {
        (a - b) as nat
    } else {
        (a + usize::MAX + 1 - b) as nat
    }
}

/// `a + b` on machine integers, wrapping around above the maximum.
pub open spec fn wrap_add(a: nat, b: nat) -> nat {
    if a + b <= usize::MAX {
        a + b
    } else {
        (a + b - usize::MAX - 1) as nat
    }
}

/// The negation of every entry of `s`.
pub open spec fn flip(s: Seq<bool>) -> Seq<bool> {
    s.map_values(|b: bool| !b)
}

impl SegmentView {
    /// The counters are within the size of the segment.
    pub open spec fn inv(self) -> bool {
        self.free_space <= self.nblocks && self.valid_block <= self.nblocks
    }

    /// The first host block of the segment.
    pub open spec fn lower(self) -> int {
        self.segment_id * SEGMENT_SIZE
    }

    /// One past the last host block of the segment.
    pub open spec fn upper(self) -> int {
        self.segment_id * SEGMENT_SIZE + self.nblocks
    }

    /// The number of blocks counted as invalid.
    pub open spec fn invalid(self) -> nat {
        wrap_sub(self.nblocks, self.valid_block)
    }
}

impl Segment {
    /// A fresh segment: every block valid, every slot free.
    pub fn new(segment_id: SegmentId, nblocks: usize) -> (s: Segment)
        ensures
            s@ == (SegmentView {
                segment_id: segment_id as nat,
                valid_block: nblocks as nat,
                free_space: nblocks as nat,
                nblocks: nblocks as nat,
            }),
            s@.inv(),
    {
        Segment { segment_id, valid_block: nblocks, nblocks, free_space: nblocks }
    }

    pub fn segment_id(&self) -> (id: SegmentId)
        ensures
            id == self@.segment_id,
    {
        self.segment_id
    }

    pub fn nblocks(&self) -> (n: usize)
        ensures
            n == self@.nblocks,
    {
        self.nblocks
    }

    /// The number of blocks not yet deallocated since the segment was last
    /// cleared.
    pub fn num_valid_blocks(&self) -> (n: usize)
        ensures
            n == self@.valid_block,
    {
        self.valid_block
    }

    /// The number of empty and deallocated slots.
    pub fn free_space(&self) -> (n: usize)
        ensures
            n == self@.free_space,
    {
        self.free_space
    }

    pub fn num_invalid_blocks(&self) -> (n: usize)
        ensures
            n == self@.invalid(),
            self@.inv() ==> n == self@.nblocks - self@.valid_block,
    {
        self.nblocks.wrapping_sub(self.valid_block)
    }

    /// Counts one allocation.
    pub fn mark_alloc(&mut self)
        ensures
            final(self)@ == (SegmentView {
                free_space: wrap_sub(old(self)@.free_space, 1),
                ..old(self)@
            }),
    {
        self.free_space = self.free_space.wrapping_sub(1);
    }

    /// Counts `nblocks` allocations.
    pub fn mark_alloc_batch(&mut self, nblocks: usize)
        ensures
            final(self)@ == (SegmentView {
                free_space: wrap_sub(old(self)@.free_space, nblocks as nat),
                ..old(self)@
            }),
    {
        self.free_space = self.free_space.wrapping_sub(nblocks);
    }

    /// Counts one deallocation.
    pub fn mark_deallocated(&mut self)
        ensures
            final(self)@ == (SegmentView {
                free_space: wrap_add(old(self)@.free_space, 1),
                valid_block: wrap_sub(old(self)@.valid_block, 1),
                ..old(self)@
            }),
    {
        self.free_space = self.free_space.wrapping_add(1);
        self.valid_block = self.valid_block.wrapping_sub(1);
    }

    /// Counts `nblocks` deallocations.
    pub fn mark_deallocated_batch(&mut self, nblocks: usize)
        ensures
            final(self)@ == (SegmentView {
                free_space: wrap_add(old(self)@.free_space, nblocks as nat),
                valid_block: wrap_sub(old(self)@.valid_block, nblocks as nat),
                ..old(self)@
            }),
    {
        self.free_space = self.free_space.wrapping_add(nblocks);
        self.valid_block = self.valid_block.wrapping_sub(nblocks);
    }

    /// The host blocks of this segment that `bitmap` shows as allocated,
    /// ascending.
    pub fn find_all_allocated_blocks(&self, bitmap: &BitMap) -> (blocks: Vec<usize>)
        requires
            bitmap.wf(),
            self@.upper() <= bitmap@.len(),
        ensures
            as_ints(blocks@) == ones_in(flip(bitmap@), self@.lower(), self@.upper()),
    {
        self.scan(bitmap, false)
    }

    /// The host blocks of this segment that `bitmap` shows as free,
    /// ascending.
    pub fn find_all_free_blocks(&self, bitmap: &BitMap) -> (blocks: Vec<usize>)
        requires
            bitmap.wf(),
            self@.upper() <= bitmap@.len(),
        ensures
            as_ints(blocks@) == ones_in(bitmap@, self@.lower(), self@.upper()),
    {
        self.scan(bitmap, true)
    }

    fn scan(&self, bitmap: &BitMap, wanted: bool) -> (blocks: Vec<usize>)
        requires
            bitmap.wf(),
            self@.upper() <= bitmap@.len(),
        ensures
            as_ints(blocks@) == ones_in(
                if wanted {
                    bitmap@
                } else {
                    flip(bitmap@)
                },
                self@.lower(),
                self@.upper(),
            ),
    {
        let total: usize = bitmap.len();
        assert(self.segment_id * SEGMENT_SIZE + self.nblocks <= total);
        let lower_bound: usize = self.segment_id * SEGMENT_SIZE;
        let upper_bound: usize = lower_bound + self.nblocks;
        let ghost bits = if wanted {
            bitmap@
        } else {
            flip(bitmap@)
        };
        let mut blocks: Vec<usize> = Vec::new();
        let mut idx: usize = lower_bound;
        while idx < upper_bound
            invariant
                bitmap.wf(),
                lower_bound <= idx <= upper_bound <= bitmap@.len(),
                bits == if wanted {
                    bitmap@
                } else {
                    flip(bitmap@)
                },
                as_ints(blocks@) == ones_in(bits, lower_bound as int, idx as int),
            decreases upper_bound - idx,
        {
            if bitmap.test_bit(idx) == wanted {
                blocks.push(idx);
                proof {
                    assert(as_ints(blocks@) =~= ones_in(bits, lower_bound as int, idx + 1));
                }
            }
            idx += 1;
        }
        blocks
    }

    /// Resets the counters to those of a fresh segment.
    pub fn clear_segment(&mut self)
        ensures
            final(self)@ == (SegmentView {
                free_space: old(self)@.nblocks,
                valid_block: old(self)@.nblocks,
                ..old(self)@
            }),
            final(self)@.inv(),
    {
        self.valid_block = self.nblocks;
        self.free_space = self.nblocks;
    }

    /// Writes the two counters at the start of `buf` and returns how many
    /// bytes they took. Fails with `InvalidArgs` when `buf` is too short.
    pub fn to_slice(&self, buf: &mut [u8]) -> (r: Result<usize, Error>)
        ensures
            final(buf)@.len() == old(buf)@.len(),
            r is Ok <==> self.encoding().len() <= old(buf)@.len(),
            r is Ok ==> r->Ok_0 == self.encoding().len() && final(buf)@ == self.encoding() + old(
                buf,
            )@.skip(r->Ok_0 as int),
            r is Err ==> r->Err_0.kind() == Errno::InvalidArgs,
    {
        match write_usize_pair(self.valid_block, self.free_space, buf) {
            Some(len) => Ok(len),
            None => Err(Error::with_msg(Errno::InvalidArgs, "serialize segment failed")),
        }
    }

    /// The bytes that stand for the counters of this segment.
    pub closed spec fn encoding(&self) -> Seq<u8> {
        pair_encoding(self.valid_block as nat, self.free_space as nat)
    }

    /// The encoding is that of the two counters.
    pub proof fn lemma_encoding(&self)
        ensures
            self.encoding() == pair_encoding(self@.valid_block, self@.free_space),
    {
    }

    /// The counters of a segment are machine integers.
    pub proof fn lemma_view_bounds(&self)
        ensures
            self@.valid_block <= usize::MAX,
            self@.free_space <= usize::MAX,
            self@.segment_id <= usize::MAX,
            self@.nblocks <= usize::MAX,
    {
    }

    /// Reads the counters of a segment back from the start of `buf`. Fails
    /// with `InvalidArgs` when the bytes do not hold two counters.
    pub fn recover(segment_id: SegmentId, buf: &[u8], nblocks: usize) -> (r: Result<
        Segment,
        Error,
    >)
        ensures
            match postcard_usize_pair_of(buf@) {
                Some((valid, free)) => r is Ok && r->Ok_0@ == (SegmentView {
                    segment_id: segment_id as nat,
                    valid_block: valid as nat,
                    free_space: free as nat,
                    nblocks: nblocks as nat,
                }),
                None => r is Err && r->Err_0.kind() == Errno::InvalidArgs,
            },
            forall|s: Segment|
                s.encoding().is_prefix_of(buf@) ==> r is Ok && r->Ok_0@ == (SegmentView {
                    segment_id: segment_id as nat,
                    nblocks: nblocks as nat,
                    ..s@
                }),
            forall|valid: usize, free: usize|
                pair_encoding(valid as nat, free as nat).is_prefix_of(buf@)
                    ==> postcard_usize_pair_of(buf@) == Some((valid, free)),
    {
        match read_usize_pair(buf) {
            Some((valid_blocks, free_space)) => Ok(
                Segment { segment_id, valid_block: valid_blocks, nblocks, free_space },
            ),
            None => Err(Error::with_msg(Errno::InvalidArgs, "deserialize segment failed")),
        }
    }

    /// The number of bytes reserved for one segment in a stored table.
    pub fn ser_size() -> (n: usize)
        ensures
            n == 16,
    {
        16
    }
}

/// The slot of one segment in a stored table: its two counters, then zeros
/// up to sixteen bytes.
pub open spec fn segment_slot(s: SegmentView) -> Seq<u8> {
    let enc = pair_encoding(s.valid_block, s.free_space);
    enc + zeros(16 - enc.len())
}

/// The slots of the segments of `t`, one after the other.
pub open spec fn segment_slots(t: Seq<SegmentView>) -> Seq<u8>
    decreases t.len(),
{
    if t.len() == 0 {
        Seq::empty()
    } else {
        segment_slots(t.drop_last()) + segment_slot(t.last())
    }
}

/// The counters of every segment of `t` fit a slot.
pub open spec fn slots_fit(t: Seq<SegmentView>) -> bool {
    forall|i: int|
        0 <= i < t.len() ==> pair_encoding((#[trigger] t[i]).valid_block, t[i].free_space).len()
            <= 16
}

/// `buf` starts with the slots of the table `t`, whose counters are machine
/// integers that fit their slots.
pub open spec fn holds_table(buf: Seq<u8>, t: Seq<SegmentView>) -> bool {
    &&& slots_fit(t)
    &&& forall|i: int|
        0 <= i < t.len() ==> (#[trigger] t[i]).valid_block <= usize::MAX && t[i].free_space
            <= usize::MAX
    &&& segment_slots(t).is_prefix_of(buf)
}

/// Segment `idx` of the table `t` as it is read back: at its index, with
/// the size of a segment and the counters that were stored.
pub open spec fn recovered_segment(t: Seq<SegmentView>, idx: int) -> SegmentView {
    SegmentView {
        segment_id: idx as nat,
        valid_block: t[idx].valid_block,
        free_space: t[idx].free_space,
        nblocks: SEGMENT_SIZE as nat,
    }
}

/// The slots of a table whose counters fit take sixteen bytes each, one
/// after the other.
pub proof fn lemma_slot_at(t: Seq<SegmentView>, i: int)
    requires
        slots_fit(t),
        0 <= i < t.len(),
    ensures
        segment_slots(t).len() == 16 * t.len(),
        segment_slots(t).subrange(16 * i, 16 * i + 16) == segment_slot(t[i]),
    decreases t.len(),
{
    let head = t.drop_last();
    assert forall|k: int| 0 <= k < head.len() implies pair_encoding(
        (#[trigger] head[k]).valid_block,
        head[k].free_space,
    ).len() <= 16 by {
        assert(head[k] == t[k]);
    }
    assert(pair_encoding(t[t.len() - 1].valid_block, t[t.len() - 1].free_space).len() <= 16);
    assert(segment_slot(t.last()).len() == 16);
    if head.len() > 0 {
        lemma_slot_at(head, if i < head.len() { i } else { 0 });
    }
    assert(segment_slots(head).len() == 16 * head.len());
    if i < head.len() {
        assert(head[i] == t[i]);
        assert(segment_slots(t).subrange(16 * i, 16 * i + 16) =~= segment_slots(head).subrange(
            16 * i,
            16 * i + 16,
        ));
    } else {
        assert(segment_slots(t).subrange(16 * i, 16 * i + 16) =~= segment_slot(t[i]));
    }
}

/// The segment stored in slot `idx` of `buf`, if the slot is there and holds
/// two counters.
pub open spec fn stored_segment(buf: Seq<u8>, idx: int) -> Option<SegmentView> {
    if (idx + 1) * 16 <= buf.len() {
        match postcard_usize_pair_of(buf.subrange(idx * 16, idx * 16 + 16)) {
            Some((valid, free)) => Some(
                SegmentView {
                    segment_id: idx as nat,
                    valid_block: valid as nat,
                    free_space: free as nat,
                    nblocks: SEGMENT_SIZE as nat,
                },
            ),
            None => None,
        }
    } else {
        None
    }
}

/// Reads a table of `capacity` segments from `buf`, which holds one slot of
/// `Segment::ser_size()` bytes per segment. Fails with `InvalidArgs` when a
/// slot is missing or does not hold two counters.
pub fn recover_segment_table(capacity: usize, buf: &[u8]) -> (r: Result<Vec<Segment>, Error>)
    ensures
        r is Ok <==> forall|idx: int| 0 <= idx < capacity ==> stored_segment(buf@, idx) is Some,
        r is Ok ==> r->Ok_0@.len() == capacity && forall|idx: int|
            0 <= idx < capacity ==> (#[trigger] r->Ok_0@[idx])@ == stored_segment(buf@, idx)->0,
        r is Err ==> r->Err_0.kind() == Errno::InvalidArgs,
        forall|t: Seq<SegmentView>| #[trigger]
            holds_table(buf@, t) && t.len() == capacity ==> r is Ok && forall|idx: int|
                0 <= idx < capacity ==> stored_segment(buf@, idx) == Some(
                    #[trigger] recovered_segment(t, idx),
                ),
{
    let mut segment_table: Vec<Segment> = Vec::new();
    let len: usize = buf.len();
    let mut idx: usize = 0;
    while idx < capacity
        invariant
            idx <= capacity,
            len == buf@.len(),
            idx * 16 <= len,
            segment_table@.len() == idx,
            forall|k: int| 0 <= k < idx ==> stored_segment(buf@, k) is Some,
            forall|t: Seq<SegmentView>| #[trigger]
                holds_table(buf@, t) && t.len() == capacity ==> forall|k: int|
                    0 <= k < idx ==> stored_segment(buf@, k) == Some(
                        #[trigger] recovered_segment(t, k),
                    ),
            forall|k: int|
                0 <= k < idx ==> (#[trigger] segment_table@[k])@ == stored_segment(buf@, k)->0,
        decreases capacity - idx,
    {
        let offset: usize = idx * 16;
        if len - offset < 16 {
            proof {
                assert(stored_segment(buf@, idx as int) is None);
                assert forall|t: Seq<SegmentView>| #[trigger]
                    holds_table(buf@, t) && t.len() == capacity implies false by {
                    lemma_slot_at(t, idx as int);
                }
            }
            return Err(Error::with_msg(Errno::InvalidArgs, "deserialize segment failed"));
        }
        let segment_buf = slice_subrange(buf, offset, offset + 16);
        let recovered = Segment::recover(idx, segment_buf, SEGMENT_SIZE);
        proof {
            assert forall|t: Seq<SegmentView>| #[trigger]
                holds_table(buf@, t) && t.len() == capacity implies stored_segment(
                buf@,
                idx as int,
            ) == Some(recovered_segment(t, idx as int)) by {
                lemma_slot_at(t, idx as int);
                let slot = segment_slot(t[idx as int]);
                assert(segment_buf@ =~= slot) by {
                    assert forall|k: int| 0 <= k < 16 implies segment_buf@[k] == slot[k] by {
                        assert(segment_buf@[k] == buf@[16 * idx + k]);
                        assert(segment_slots(t)[16 * idx + k] == buf@[16 * idx + k]);
                        assert(segment_slots(t).subrange(16 * idx, 16 * idx + 16)[k]
                            == segment_slots(t)[16 * idx + k]);
                    }
                }
                let valid = t[idx as int].valid_block as usize;
                let free = t[idx as int].free_space as usize;
                assert(pair_encoding(valid as nat, free as nat).is_prefix_of(segment_buf@));
                assert(postcard_usize_pair_of(segment_buf@) == Some((valid, free)));
            }
        }
        match recovered {
            Ok(segment) => {
                segment_table.push(segment);
            },
            Err(e) => {
                assert(stored_segment(buf@, idx as int) is None);
                return Err(e);
            },
        }
        idx += 1;
    }
    Ok(segment_table)
}

} // verus!
