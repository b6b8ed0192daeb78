//! The collector: which blocks of a victim are still live, where they go,
//! what is written for them and how the indexes follow.
use vstd::prelude::*;
use vstd::slice::slice_subrange;

use crate::alloc_laws::after_migration;
use crate::bio::{as_ints, BLOCK_SIZE};
use crate::bitmap::ones_in;
use crate::block_alloc::{set_all, AllocTable};
use crate::dealloc_block::DeallocTable;
use crate::diff_log::append_bytes;
use crate::error::{Errno, Error};
use crate::gc::{
    chosen_by, is_victim, table_fits, table_view, ReverseKey, ReverseValue, Threshold, Victim, VictimPolicy,
    VictimPolicyRef, ACTIVE_GC_INTERVAL_MILLIS, GC_WATERMARK, INACTIVE_GC_INTERVAL_MILLIS,
};
use crate::inner::IndexOp;
use crate::runs::{group_runs, splits_into_runs, Run};
use crate::segment::{SegmentId, SegmentView, SEGMENT_SIZE};
use crate::sworndisk::{Hba, Lba, RecordKey, RecordValue};

verus! {

/// What the indexes hold for one block of a victim: the logical address
/// that the reverse index gives for the block, and the host block that the
/// forward index gives for that address.
#[derive(Clone, Copy, Debug, PartialEq, Eq, Structural)]
pub struct Mapping {
    pub lba: Lba,
    pub hba: Hba,
}

/// A block that is dropped with its segment: the forward index has moved
/// on from it.
#[derive(Clone, Copy, Debug, PartialEq, Eq, Structural)]
pub struct Discarded {
    pub lba: Lba,
    pub hba: Hba,
}

/// The blocks of a victim sorted into live ones and dropped ones, and the
/// free blocks to which the live ones go.
pub struct Targets {
    pub valid: Vec<Hba>,
    pub discard: Vec<Discarded>,
    pub targets: Vec<Hba>,
}

/// One transfer to the host disk.
pub struct DiskWrite {
    pub hba: Hba,
    pub data: Vec<u8>,
}

/// A block that was moved.
#[derive(Clone, Copy, Debug, PartialEq, Eq, Structural)]
pub struct Remap {
    pub old_hba: Hba,
    pub new_hba: Hba,
}

/// The first failure among the lookups, if any.
pub open spec fn first_failure(current: Seq<Result<Mapping, Error>>) -> Option<Error>
    decreases current.len(),
{
    if current.len() == 0 {
        None
    } else {
        match first_failure(current.drop_last()) {
            Some(e) => Some(e),
            None => match current.last() {
                Ok(_) => None,
                Err(e) => Some(e),
            },
        }
    }
}

/// The blocks that are live: those to which the forward index still points.
pub open spec fn valid_of(blocks: Seq<usize>, current: Seq<Result<Mapping, Error>>) -> Seq<usize>
    decreases blocks.len(),
{
    if blocks.len() == 0 {
        Seq::empty()
    } else {
        let i = blocks.len() - 1;
        let head = valid_of(blocks.drop_last(), current);
        if current[i] is Ok && current[i]->Ok_0.hba == blocks[i] {
            head.push(blocks[i])
        } else {
            head
        }
    }
}

/// The blocks that are dropped: those from which the forward index has
/// moved on, each with the logical address it once held.
pub open spec fn discard_of(blocks: Seq<usize>, current: Seq<Result<Mapping, Error>>) -> Seq<Discarded>
    decreases blocks.len(),
{
    if blocks.len() == 0 {
        Seq::empty()
    } else {
        let i = blocks.len() - 1;
        let head = discard_of(blocks.drop_last(), current);
        if current[i] is Ok && current[i]->Ok_0.hba != blocks[i] {
            head.push(Discarded { lba: current[i]->Ok_0.lba, hba: blocks[i] })
        } else {
            head
        }
    }
}

/// The free blocks of the first `upto` segments, leaving out the victim and
/// every segment that counts no free slot.
pub open spec fn free_pool(bitmap: Seq<bool>, t: Seq<SegmentView>, victim: nat, upto: int) -> Seq<int>
    decreases upto,
{
    if upto <= 0 {
        Seq::empty()
    } else {
        let s = t[upto - 1];
        let head = free_pool(bitmap, t, victim, upto - 1);
        if s.free_space == 0 || s.segment_id == victim {
            head
        } else {
            head + ones_in(bitmap, s.lower(), s.upper())
        }
    }
}

/// The bytes of the blocks `from` up to `to` of `valid`, each taken from
/// its place in the data of the victim segment.
pub open spec fn migrated_bytes(victim_data: Seq<u8>, valid: Seq<usize>, from: int, to: int) -> Seq<u8>
    decreases to - from,
{
    if to <= from {
        Seq::empty()
    } else {
        let at = (valid[to - 1] % SEGMENT_SIZE) * BLOCK_SIZE;
        migrated_bytes(victim_data, valid, from, to - 1) + victim_data.subrange(
            at as int,
            at + BLOCK_SIZE,
        )
    }
}

/// The operations that make the indexes follow the moved blocks: for each,
/// the forward record with the new host block and the reverse record of the
/// new host block.
pub open spec fn remap_ops(remapped: Seq<Remap>, current: Seq<HeldRecord>) -> Seq<IndexOp>
    decreases remapped.len(),
{
    if remapped.len() == 0 {
        Seq::empty()
    } else {
        let i = remapped.len() - 1;
        remap_ops(remapped.drop_last(), current).push(
            IndexOp::Put(
                RecordKey { lba: current[i].lba },
                RecordValue { hba: remapped[i].new_hba, key: current[i].value.key, mac: current[i].value.mac },
            ),
        ).push(
            IndexOp::PutReverse(
                ReverseKey { hba: remapped[i].new_hba },
                ReverseValue { lba: current[i].lba },
            ),
        )
    }
}

/// What the indexes hold for a moved block: its logical address, and the
/// forward record of that address.
#[derive(Clone, Copy, Debug)]
pub struct HeldRecord {
    pub lba: Lba,
    pub value: RecordValue,
}

/// The old host blocks of the moves.
pub open spec fn old_hbas(remapped: Seq<Remap>) -> Seq<int> {
    remapped.map_values(|r: Remap| r.old_hba as int)
}

/// The collector.
pub struct GcWorker {
    victim_policy: VictimPolicyRef,
}

impl GcWorker {
    pub closed spec fn policy(&self) -> VictimPolicyRef {
        self.victim_policy
    }

    /// A collector that chooses its victims by `victim_policy`.
    pub fn new(victim_policy: VictimPolicyRef) -> (w: GcWorker)
        ensures
            w.policy() == victim_policy,
    {
        GcWorker { victim_policy }
    }

    /// Whether the policy of the collector can choose from the segments of
    /// `alloc_table`.
    pub fn is_ready(&self, alloc_table: &AllocTable) -> (b: bool)
        ensures
            b == (alloc_table@.segments is Some && self.policy().ready(alloc_table.segment_seq())),
    {
        match alloc_table.get_segment_table_ref() {
            Some(table) => self.victim_policy.is_ready(table.as_slice()),
            None => false,
        }
    }

    /// The share of invalid blocks above which a segment is collected: six
    /// tenths while the disk is active, one tenth while it is idle.
    pub fn threshold(active: bool) -> (t: Threshold)
        ensures
            t == if active {
                Threshold::active_spec()
            } else {
                Threshold::inactive_spec()
            },
            t.numer() == if active {
                6nat
            } else {
                1nat
            },
            t.denom() == 10,
    {
        if active {
            Threshold::active()
        } else {
            Threshold::inactive()
        }
    }

    /// How long the collector rests after a pass, in milliseconds: longer
    /// after a pass in which the disk was active.
    pub fn interval(active: bool) -> (millis: u64)
        ensures
            millis == if active {
                ACTIVE_GC_INTERVAL_MILLIS
            } else {
                INACTIVE_GC_INTERVAL_MILLIS
            },
    {
        if active {
            ACTIVE_GC_INTERVAL_MILLIS
        } else {
            INACTIVE_GC_INTERVAL_MILLIS
        }
    }

    /// The next victim of a pass in which `picked` victims were taken
    /// already: none once the pass has taken `GC_WATERMARK` victims, else
    /// what the policy chooses.
    pub fn background_gc(&mut self, alloc_table: &AllocTable, active: bool, picked: usize) -> (r:
        Option<Victim>)
        requires
            alloc_table.wf(),
            alloc_table@.segments is Some,
            old(self).policy().ready(alloc_table.segment_seq()),
        ensures
            final(self).policy().ready(alloc_table.segment_seq()),
            picked >= GC_WATERMARK ==> r is None && final(self).policy() == old(self).policy(),
            picked < GC_WATERMARK ==> chosen_by(
                old(self).policy(),
                final(self).policy(),
                alloc_table.segment_seq(),
                if active {
                    Threshold::active_spec()
                } else {
                    Threshold::inactive_spec()
                },
                r,
            ),
            r is Some ==> is_victim(
                r->0,
                alloc_table.segment_seq(),
                alloc_table@.bitmap,
                r->0.id() as int,
            ) && (if active {
                Threshold::active_spec()
            } else {
                Threshold::inactive_spec()
            }).exceeded_by(alloc_table.segment_seq()[r->0.id() as int]@),
    {
        if picked >= GC_WATERMARK {
            return None;
        }
        let threshold = Self::threshold(active);
        let segment_table = match alloc_table.get_segment_table_ref() {
            Some(table) => table,
            None => {
                return None;
            },
        };
        proof {
            alloc_table.lemma_segments_fit();
            assert(threshold == if active {
                Threshold::active_spec()
            } else {
                Threshold::inactive_spec()
            });
        }
        self.victim_policy.pick_victim(segment_table.as_slice(), alloc_table.bitmap(), threshold)
    }

    /// Sorts the blocks of a victim into live and dropped ones by what the
    /// indexes hold for each, and finds a free block outside the victim for
    /// every live one.
    ///
    /// Fails with the first failure among the lookups, and with `OutOfDisk`
    /// where the other segments have fewer free blocks than the victim has
    /// live ones.
    pub fn find_target_hbas(
        alloc_table: &AllocTable,
        victim: &Victim,
        current: &Vec<Result<Mapping, Error>>,
    ) -> (r: Result<Targets, Error>)
        requires
            alloc_table.wf(),
            alloc_table@.segments is Some,
            current@.len() == victim.hbas().len(),
        ensures
            ({
                let pool = free_pool(
                    alloc_table@.bitmap,
                    alloc_table@.segments->0,
                    victim.id() as nat,
                    alloc_table@.segments->0.len() as int,
                );
                let valid = valid_of(victim.hbas(), current@);
                match first_failure(current@) {
                    Some(e) => r == Err::<Targets, Error>(e),
                    None => if pool.len() < valid.len() {
                        r is Err && r->Err_0.kind() == Errno::OutOfDisk
                    } else {
                        r is Ok && r->Ok_0.valid@ == valid && r->Ok_0.discard@ == discard_of(
                            victim.hbas(),
                            current@,
                        ) && as_ints(r->Ok_0.targets@) == pool.take(valid.len() as int)
                    },
                }
            }),
    {
        let blocks = victim.blocks();
        let mut valid: Vec<Hba> = Vec::new();
        let mut discard: Vec<Discarded> = Vec::new();
        let mut i: usize = 0;
        proof {
            assert(blocks@.take(0) =~= Seq::<usize>::empty());
            assert(current@.take(0) =~= Seq::<Result<Mapping, Error>>::empty());
        }
        while i < blocks.len()
            invariant
                i <= blocks@.len(),
                blocks@ == victim.hbas(),
                current@.len() == blocks@.len(),
                first_failure(current@.take(i as int)) is None,
                valid@ == valid_of(blocks@.take(i as int), current@),
                discard@ == discard_of(blocks@.take(i as int), current@),
            decreases blocks@.len() - i,
        {
            proof {
                assert(blocks@.take(i + 1).drop_last() =~= blocks@.take(i as int));
                assert(current@.take(i + 1).drop_last() =~= current@.take(i as int));
                assert(current@.take(i + 1).last() == current@[i as int]);
            }
            let hba = blocks[i];
            match &current[i] {
                Ok(m) => {
                    if m.hba == hba {
                        valid.push(hba);
                    } else {
                        discard.push(Discarded { lba: m.lba, hba });
                    }
                },
                Err(e) => {
                    proof {
                        lemma_first_failure(current@, i as int);
                    }
                    return Err(*e);
                },
            }
            i += 1;
        }
        proof {
            assert(blocks@.take(blocks@.len() as int) =~= blocks@);
            assert(current@.take(current@.len() as int) =~= current@);
        }
        let need: usize = valid.len();
        let bitmap = alloc_table.bitmap();
        let segment_table = match alloc_table.get_segment_table_ref() {
            Some(table) => table,
            None => {
                return Err(Error::with_msg(Errno::InvalidArgs, "no segment table"));
            },
        };
        proof {
            alloc_table.lemma_segments_fit();
        }
        let ghost views = alloc_table@.segments->0;
        let ghost vid = victim.id() as nat;
        proof {
            assert(views =~= table_view(segment_table@));
        }
        let mut target_hbas: Vec<Hba> = Vec::new();
        let mut s: usize = 0;
        while s < segment_table.len() && target_hbas.len() < need
            invariant
                s <= segment_table@.len(),
                bitmap.wf(),
                bitmap@ == alloc_table@.bitmap,
                views == table_view(segment_table@),
                vid == victim.id(),
                table_fits(segment_table@, bitmap@),
                target_hbas@.len() <= need,
                target_hbas@.len() <= free_pool(bitmap@, views, vid, s as int).len(),
                as_ints(target_hbas@) == free_pool(bitmap@, views, vid, s as int).take(
                    target_hbas@.len() as int,
                ),
                target_hbas@.len() < need ==> target_hbas@.len() == free_pool(
                    bitmap@,
                    views,
                    vid,
                    s as int,
                ).len(),
            decreases segment_table@.len() - s,
        {
            let segment = &segment_table[s];
            let ghost head = free_pool(bitmap@, views, vid, s as int);
            proof {
                assert(views[s as int] == segment@);
            }
            if !(segment.free_space() == 0 || segment.segment_id() == victim.segment_id()) {
                let free_hbas = segment.find_all_free_blocks(bitmap);
                let ghost pool = head + as_ints(free_hbas@);
                let mut k: usize = 0;
                while k < free_hbas.len() && target_hbas.len() < need
                    invariant
                        k <= free_hbas@.len(),
                        target_hbas@.len() <= need,
                        target_hbas@.len() <= head.len() + k,
                        pool == head + as_ints(free_hbas@),
                        target_hbas@.len() < need ==> target_hbas@.len() == head.len() + k,
                        as_ints(target_hbas@) == pool.take(target_hbas@.len() as int),
                    decreases free_hbas@.len() - k,
                {
                    let ghost before = target_hbas@;
                    target_hbas.push(free_hbas[k]);
                    proof {
                        assert(as_ints(free_hbas@)[k as int] == free_hbas@[k as int]);
                        assert(as_ints(target_hbas@) =~= pool.take(target_hbas@.len() as int)) by {
                            assert(as_ints(target_hbas@).len() == before.len() + 1);
                            assert forall|j: int| 0 <= j < before.len() + 1 implies as_ints(
                                target_hbas@,
                            )[j] == pool[j] by {
                                if j < before.len() {
                                    assert(as_ints(before)[j] == pool.take(before.len() as int)[j]);
                                }
                            }
                        }
                    }
                    k += 1;
                }
                proof {
                    assert(as_ints(free_hbas@).len() == free_hbas@.len());
                }
            }
            s += 1;
        }
        if target_hbas.len() < need {
            return Err(Error::with_msg(Errno::OutOfDisk, "no free blocks to migrate to"));
        }
        proof {
            assert(views.len() == segment_table@.len());
        }
        proof {
            let full = free_pool(bitmap@, views, vid, segment_table@.len() as int);
            let part = free_pool(bitmap@, views, vid, s as int);
            lemma_free_pool_prefix(bitmap@, views, vid, s as int, segment_table@.len() as int);
            assert(part.len() >= need);
            assert forall|j: int| 0 <= j < need implies as_ints(target_hbas@)[j] == full.take(
                need as int,
            )[j] by {
                assert(part.take(need as int)[j] == part[j]);
                assert(part[j] == full[j]);
            }
            assert(as_ints(target_hbas@) =~= full.take(need as int));
        }
        Ok(Targets { valid, discard, targets: target_hbas })
    }

    /// The transfers that move the live blocks of a victim: one for each
    /// run of target blocks, holding the live blocks in order, each taken
    /// from its place in the data of the victim segment.
    pub fn clean_and_migrate_data(victim_data: &[u8], valid: &[Hba], targets: &[Hba]) -> (writes:
        Vec<DiskWrite>)
        requires
            victim_data@.len() == SEGMENT_SIZE * BLOCK_SIZE,
            valid@.len() == targets@.len(),
        ensures
            exists|runs: Seq<Run>| #[trigger]
                splits_into_runs(as_ints(targets@), runs) && writes@.len() == runs.len()
                    && forall|j: int|
                    0 <= j < runs.len() ==> (#[trigger] writes@[j]).hba == targets@[runs[j].start as int]
                        && writes@[j].data@ == migrated_bytes(
                        victim_data@,
                        valid@,
                        runs[j].start as int,
                        runs[j].start + runs[j].len,
                    ),
    {
        let runs = group_runs(targets);
        let mut writes: Vec<DiskWrite> = Vec::new();
        let mut j: usize = 0;
        while j < runs.len()
            invariant
                j <= runs@.len(),
                victim_data@.len() == SEGMENT_SIZE * BLOCK_SIZE,
                valid@.len() == targets@.len(),
                splits_into_runs(as_ints(targets@), runs@),
                writes@.len() == j,
                forall|m: int|
                    0 <= m < j ==> (#[trigger] writes@[m]).hba == targets@[runs@[m].start as int]
                        && writes@[m].data@ == migrated_bytes(
                        victim_data@,
                        valid@,
                        runs@[m].start as int,
                        runs@[m].start + runs@[m].len,
                    ),
            decreases runs@.len() - j,
        {
            let run = runs[j];
            proof {
                assert(crate::runs::is_run(as_ints(targets@), run.start as int, run.len as int));
                assert(as_ints(targets@).len() == targets@.len());
                assert(run.start + run.len <= targets@.len());
            }
            let total: usize = targets.len();
            let end: usize = run.start + run.len;
            let mut write_buf: Vec<u8> = Vec::new();
            let mut k: usize = run.start;
            while k < end
                invariant
                    run.start <= k <= end <= valid@.len(),
                    end == run.start + run.len,
                    victim_data@.len() == SEGMENT_SIZE * BLOCK_SIZE,
                    write_buf@ == migrated_bytes(victim_data@, valid@, run.start as int, k as int),
                decreases end - k,
            {
                let start: usize = (valid[k] % SEGMENT_SIZE) * BLOCK_SIZE;
                let block = slice_subrange(victim_data, start, start + BLOCK_SIZE);
                append_bytes(&mut write_buf, block);
                k += 1;
            }
            writes.push(DiskWrite { hba: targets[run.start], data: write_buf });
            j += 1;
        }
        writes
    }

    /// Records a migration in the validity table: the targets become
    /// allocated, and the victim segment becomes free as a whole, with the
    /// dropped blocks counted as freed. Returns the moves, live block by live
    /// block.
    pub fn finish_migration(alloc_table: &mut AllocTable, victim_id: SegmentId, found: &Targets) -> (remapped:
        Vec<Remap>)
        requires
            old(alloc_table).wf(),
            (victim_id + 1) * SEGMENT_SIZE <= old(alloc_table)@.bitmap.len(),
            found.valid@.len() == found.targets@.len(),
            forall|k: int|
                0 <= k < found.targets@.len() ==> found.targets@[k] < old(
                    alloc_table,
                )@.bitmap.len(),
            old(alloc_table)@.num_free + found.discard@.len() <= usize::MAX,
        ensures
            final(alloc_table).wf(),
            final(alloc_table)@ == after_migration(
                old(alloc_table)@,
                as_ints(found.targets@),
                victim_id as int,
                found.discard@.len(),
            ),
            remapped@.len() == found.valid@.len(),
            forall|k: int|
                0 <= k < remapped@.len() ==> #[trigger] remapped@[k] == (Remap {
                    old_hba: found.valid@[k],
                    new_hba: found.targets@[k],
                }),
    {
        alloc_table.migrate_batch(found.targets.as_slice());
        proof {
            assert forall|k: int| 0 <= k < as_ints(found.targets@).len() implies 0
                <= #[trigger] as_ints(found.targets@)[k] < old(alloc_table)@.bitmap.len() by {
                assert(as_ints(found.targets@)[k] == found.targets@[k]);
            }
            crate::alloc_laws::lemma_set_all_frame(
                old(alloc_table)@.bitmap,
                as_ints(found.targets@),
                false,
            );
        }
        alloc_table.clear_segment(victim_id, found.discard.len());
        let mut remapped: Vec<Remap> = Vec::new();
        let mut k: usize = 0;
        while k < found.valid.len()
            invariant
                k <= found.valid@.len(),
                found.valid@.len() == found.targets@.len(),
                remapped@.len() == k,
                forall|m: int|
                    0 <= m < k ==> #[trigger] remapped@[m] == (Remap {
                        old_hba: found.valid@[m],
                        new_hba: found.targets@[m],
                    }),
            decreases found.valid@.len() - k,
        {
            remapped.push(Remap { old_hba: found.valid[k], new_hba: found.targets[k] });
            k += 1;
        }
        remapped
    }

    /// Makes the indexes follow the moved blocks, given what they hold for
    /// each: the forward record of its logical address gets the new host
    /// block and keeps its key and tag, the reverse index gets the new host
    /// block, and the old host block is marked as reclaimed so that the drop
    /// of its record will not free it a second time.
    pub fn remap_index_batch(
        dealloc_table: &mut DeallocTable,
        remapped: &Vec<Remap>,
        current: &Vec<HeldRecord>,
    ) -> (ops: Vec<IndexOp>)
        requires
            old(dealloc_table).wf(),
            remapped@.len() == current@.len(),
            forall|k: int|
                0 <= k < remapped@.len() ==> (#[trigger] remapped@[k]).old_hba < old(
                    dealloc_table,
                )@.len(),
        ensures
            final(dealloc_table).wf(),
            final(dealloc_table)@ == set_all(old(dealloc_table)@, old_hbas(remapped@), true),
            ops@ == remap_ops(remapped@, current@),
    {
        let mut ops: Vec<IndexOp> = Vec::new();
        let mut i: usize = 0;
        proof {
            assert(remapped@.take(0) =~= Seq::<Remap>::empty());
            assert(old_hbas(remapped@.take(0)) =~= Seq::<int>::empty());
        }
        while i < remapped.len()
            invariant
                i <= remapped@.len(),
                remapped@.len() == current@.len(),
                dealloc_table.wf(),
                dealloc_table@.len() == old(dealloc_table)@.len(),
                forall|k: int|
                    0 <= k < remapped@.len() ==> (#[trigger] remapped@[k]).old_hba < old(
                        dealloc_table,
                    )@.len(),
                dealloc_table@ == set_all(
                    old(dealloc_table)@,
                    old_hbas(remapped@.take(i as int)),
                    true,
                ),
                ops@ == remap_ops(remapped@.take(i as int), current@),
            decreases remapped@.len() - i,
        {
            let pair = remapped[i];
            let held = current[i];
            proof {
                assert(remapped@.take(i + 1).drop_last() =~= remapped@.take(i as int));
                assert(remapped@.take(i + 1).last() == pair);
                assert(old_hbas(remapped@.take(i + 1)).drop_last() =~= old_hbas(
                    remapped@.take(i as int),
                ));
                assert(old_hbas(remapped@.take(i + 1)).last() == pair.old_hba);
            }
            ops.push(
                IndexOp::Put(
                    RecordKey { lba: held.lba },
                    RecordValue { hba: pair.new_hba, key: held.value.key, mac: held.value.mac },
                ),
            );
            ops.push(
                IndexOp::PutReverse(ReverseKey { hba: pair.new_hba }, ReverseValue { lba: held.lba }),
            );
            dealloc_table.mark_deallocated(pair.old_hba);
            i += 1;
        }
        proof {
            assert(remapped@.take(remapped@.len() as int) =~= remapped@);
        }
        ops
    }
}

/// A lookup that failed makes the whole list fail, with the first failure.
pub proof fn lemma_first_failure(current: Seq<Result<Mapping, Error>>, i: int)
    requires
        0 <= i < current.len(),
        first_failure(current.take(i)) is None,
        current[i] is Err,
    ensures
        first_failure(current) == Some(current[i]->Err_0),
    decreases current.len(),
{
    if i == current.len() - 1 {
        assert(current.drop_last() =~= current.take(i));
    } else {
        assert(current.drop_last().take(i) =~= current.take(i));
        lemma_first_failure(current.drop_last(), i);
    }
}

/// The free blocks of fewer segments begin those of more segments.
pub proof fn lemma_free_pool_prefix(bitmap: Seq<bool>, t: Seq<SegmentView>, victim: nat, a: int, b: int)
    requires
        0 <= a <= b,
    ensures
        free_pool(bitmap, t, victim, a).is_prefix_of(free_pool(bitmap, t, victim, b)),
    decreases b - a,
{
    if a < b {
        lemma_free_pool_prefix(bitmap, t, victim, a, b - 1);
    }
}

} // verus!
