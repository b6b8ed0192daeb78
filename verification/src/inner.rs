//! The engine of the disk: what a read, a write, a flush and a sync decide,
//! as steps between which the caller does the work on the index, the cipher
//! and the host disk.
use vstd::prelude::*;
use vstd::slice::slice_subrange;

use crate::bio::{as_ints, whole_blocks, BioReq, BioType, BLOCK_SIZE};
use crate::block_alloc::{
    padded, AllocBatch, AllocTable, AllocTableView, Snapshot, BITMAP_MAX_SIZE,
};
use crate::segment::{segment_slots, slots_fit};
use crate::config::Config;
use crate::data_buf::{
    block_views, lookup, put_block, within, BufferedBlock, DataBlock, DataBuf,
};
use crate::dealloc_block::DeallocTable;
use crate::error::{Errno, Error};
use crate::alloc_laws::after_migration;
use crate::block_alloc::{deallocated, seg_dealloc, set_all, AVG_ALLOC_COUNT};
use crate::diff_log::{AllocDiff, DiffEntry};
use crate::gc::{
    is_victim, ReverseKey, ReverseValue, SharedState, Threshold, Victim, VictimPolicy,
    ACTIVE_GC_INTERVAL_MILLIS, GC_WATERMARK, INACTIVE_GC_INTERVAL_MILLIS,
};
use crate::gc_worker::{
    discard_of, first_failure, free_pool, old_hbas, remap_ops, valid_of, GcWorker, Mapping,
    HeldRecord, Remap, Targets,
};
use crate::segment::SEGMENT_SIZE;
use crate::sworndisk::TxLsmTreeListener;
use crate::runs::{group_runs, hbas_of, sort_by_hba, sorted_by_hba, splits_into_runs, Run};
use crate::sworndisk::{Hba, Key, Lba, Mac, Record, RecordKey, RecordValue};
use crate::waf_stats::WafStats;

verus! {

/// The number of blocks at which the data buffer is flushed.
pub const DATA_BUF_CAP: usize = 1024;

/// How far a write came.
#[derive(Clone, Copy, Debug, PartialEq, Eq, Structural)]
pub struct WriteProgress {
    /// The number of blocks of the request that are buffered now.
    pub consumed: usize,
    /// Whether the buffer is full and has to be flushed before the write
    /// goes on.
    pub flush: bool,
}

/// Where the buffered blocks go on the host disk: block `i` of the buffer to
/// `hbas[i]`, the blocks of each run with one transfer.
pub struct WritePlan {
    pub hbas: Vec<Hba>,
    pub runs: Vec<Run>,
}

/// What the allocation for a flush comes to.
pub enum WriteStep {
    /// Nothing is buffered.
    Idle,
    /// Fewer blocks are counted as free than the given number of buffered
    /// blocks: wait until blocks were given back, and ask again.
    WaitForFree(usize),
    /// Encrypt the buffered blocks and write them as planned.
    Write(WritePlan),
}

/// What a flush does next.
pub enum FlushStep {
    /// A collection is under way: wait for it and ask again.
    WaitForGc,
    /// Nothing is buffered.
    Idle,
    /// Fewer blocks are counted as free than the given number of buffered
    /// blocks: wait until blocks were given back, and ask again.
    WaitForFree(usize),
    /// Encrypt the buffered blocks and write them as planned.
    Write(WritePlan),
    /// The disk is full: compact the index, which gives blocks back, and
    /// ask once more.
    Compact,
    /// The flush failed.
    Failed(Error),
}

/// The key and the authentication tag under which one block was sealed.
#[derive(Clone, Copy, Debug)]
pub struct Sealed {
    pub key: Key,
    pub mac: Mac,
}

/// One operation on the indexes.
#[derive(Clone, Copy, Debug)]
pub enum IndexOp {
    /// Look the record up and ignore what comes back: the lookup makes the
    /// index drop the record at once.
    Touch(RecordKey),
    /// Put a record into the forward index.
    Put(RecordKey, RecordValue),
    /// Put a record into the reverse index.
    PutReverse(ReverseKey, ReverseValue),
}

/// What a read of one block does next.
pub enum ReadStep<'a> {
    /// The block is buffered: this is its content.
    Buffered(&'a DataBlock),
    /// A collection is under way: wait for it and ask again.
    WaitForGc,
    /// Look the record up in the index, read its host block and decrypt it.
    Lookup(RecordKey),
}

/// What the buffer holds of a range of blocks, and what it does not.
pub struct MultiRead<'a> {
    /// The buffered blocks of the range, in the order in which their
    /// addresses were first written.
    pub hits: Vec<&'a DataBlock>,
    /// For each of them, which block of the request it is.
    pub hit_slots: Vec<usize>,
    /// The addresses of the range that are not buffered, ascending.
    pub missing: Vec<Lba>,
}

/// How the missing blocks of a read are fetched: the records that the index
/// holds for them ordered by host block, where each goes in the request, the
/// runs to read, and the addresses that were never written.
pub struct ReadPlan {
    /// The records, ordered by host block.
    pub records: Vec<Record>,
    /// For each record, which block of the request it is.
    pub slots: Vec<usize>,
    /// The runs of consecutive host blocks among the records.
    pub runs: Vec<Run>,
    /// The missing addresses for which the index holds no record.
    pub unwritten: Vec<Lba>,
}

/// What the buffer holds of the `nblocks` blocks from `lba` on: the hits in
/// the order in which their addresses were first written, each with its
/// place in the request, and the addresses that are not buffered.
pub open spec fn found(buffered: Seq<BufferedBlock>, lba: usize, nblocks: int, r: MultiRead) -> bool {
    &&& r.hits@.map_values(|b: &DataBlock| b@) == within(buffered, lba, (lba + nblocks) as usize)
    &&& r.missing@ == missing_in(buffered, lba, nblocks)
    &&& r.hit_slots@.len() == r.hits@.len()
    &&& forall|i: int|
        0 <= i < r.hits@.len() ==> (#[trigger] r.hit_slots@[i]) == r.hits@[i]@.lba - lba
            && r.hit_slots@[i] < nblocks
}

/// Some record of `records` is for the address `a`.
pub open spec fn has_record(records: Seq<Record>, a: usize) -> bool {
    exists|k: int| 0 <= k < records.len() && (#[trigger] records[k]).key_spec().lba == a
}

/// The addresses of `missing` for which `records` holds no record, in
/// order.
pub open spec fn unanswered(missing: Seq<usize>, records: Seq<Record>) -> Seq<usize>
    decreases missing.len(),
{
    if missing.len() == 0 {
        Seq::empty()
    } else if has_record(records, missing.last()) {
        unanswered(missing.drop_last(), records)
    } else {
        unanswered(missing.drop_last(), records).push(missing.last())
    }
}

/// The record answers the read: it is for one of the missing addresses,
/// which lies among the `nblocks` blocks from `lba` on.
pub open spec fn answers_read(missing: Seq<usize>, lba: usize, nblocks: usize, r: Record) -> bool {
    missing.contains(r.key_spec().lba) && lba <= r.key_spec().lba < lba + nblocks
}

/// Every block of `within(blocks, lo, hi)` has its address in `lo..hi`.
pub proof fn lemma_within_range(blocks: Seq<BufferedBlock>, lo: usize, hi: usize)
    ensures
        forall|k: int|
            0 <= k < within(blocks, lo, hi).len() ==> lo <= (#[trigger] within(
                blocks,
                lo,
                hi,
            )[k]).lba < hi,
    decreases blocks.len(),
{
    if blocks.len() > 0 {
        lemma_within_range(blocks.drop_last(), lo, hi);
        let head = within(blocks.drop_last(), lo, hi);
        let all = within(blocks, lo, hi);
        assert forall|k: int| 0 <= k < all.len() implies lo <= (#[trigger] all[k]).lba < hi by {
            if k < head.len() {
                assert(all[k] == head[k]);
            }
        }
    }
}

/// Block `i` of `data`.
pub open spec fn block_of(data: Seq<u8>, i: int) -> Seq<u8> {
    data.subrange(i * BLOCK_SIZE, (i + 1) * BLOCK_SIZE)
}

/// The buffer after blocks `from` up to `to` of `data` were put at the
/// addresses from `lba + from` on.
pub open spec fn buffer_after(blocks: Seq<BufferedBlock>, lba: usize, data: Seq<u8>, from: int, to: int) -> Seq<
    BufferedBlock,
>
    decreases to - from,
{
    if to <= from {
        blocks
    } else {
        put_block(
            buffer_after(blocks, lba, data, from, to - 1),
            BufferedBlock { lba: (lba + to - 1) as usize, data: block_of(data, to - 1) },
        )
    }
}

/// The addresses from `lba` up to `lba + n` that are not buffered,
/// ascending.
pub open spec fn missing_in(blocks: Seq<BufferedBlock>, lba: usize, n: int) -> Seq<usize>
    decreases n,
{
    if n <= 0 {
        Seq::empty()
    } else if lookup(blocks, (lba + n - 1) as usize) is None {
        missing_in(blocks, lba, n - 1).push((lba + n - 1) as usize)
    } else {
        missing_in(blocks, lba, n - 1)
    }
}

/// The operations on the indexes that record a flush: for each buffered
/// block, in order, a lookup of its address unless reclamation is delayed,
/// its new record, and the reverse record where one is kept.
pub open spec fn index_ops(
    blocks: Seq<BufferedBlock>,
    hbas: Seq<usize>,
    sealed: Seq<Sealed>,
    delayed_reclamation: bool,
    reverse: bool,
) -> Seq<IndexOp>
    decreases blocks.len(),
{
    if blocks.len() == 0 {
        Seq::empty()
    } else {
        let i = blocks.len() - 1;
        let key = RecordKey { lba: blocks[i].lba };
        let value = RecordValue { hba: hbas[i], key: sealed[i].key, mac: sealed[i].mac };
        let head = index_ops(blocks.drop_last(), hbas, sealed, delayed_reclamation, reverse);
        let touched = if delayed_reclamation {
            head
        } else {
            head.push(IndexOp::Touch(key))
        };
        let put = touched.push(IndexOp::Put(key, value));
        if reverse {
            put.push(IndexOp::PutReverse(ReverseKey { hba: hbas[i] }, ReverseValue { lba: blocks[i].lba }))
        } else {
            put
        }
    }
}

/// The state of the engine as mathematical values.
pub struct DiskView {
    pub buffered: Seq<BufferedBlock>,
    pub capacity: usize,
    pub alloc: AllocTableView,
    pub marks: Seq<bool>,
    pub gc_in_progress: bool,
    pub compaction_in_progress: bool,
    pub active: bool,
    pub dropped: bool,
    pub config: Config,
    pub reverse: bool,
    pub logical_bytes: u64,
}

/// The kinds of step of a flush.
pub enum FlushKind {
    WaitForGc,
    Idle,
    WaitForFree,
    Write,
    Compact,
    Failed,
}

impl DiskView {
    /// The parts fit together: one mark per host block, and a buffer and a
    /// table in their own shape.
    pub open spec fn wf(self) -> bool {
        &&& crate::data_buf::distinct_blocks(self.buffered)
        &&& self.alloc.wf()
        &&& self.marks.len() == self.alloc.bitmap.len()
    }

    /// What a flush does next on this state.
    pub open spec fn next_flush(self, retried: bool) -> FlushKind {
        if self.gc_in_progress {
            FlushKind::WaitForGc
        } else if self.buffered.len() == 0 {
            FlushKind::Idle
        } else if self.alloc.num_free < self.buffered.len() {
            FlushKind::WaitForFree
        } else if self.alloc.batch_pick(self.buffered.len()) is Some {
            FlushKind::Write
        } else if retried {
            FlushKind::Failed
        } else {
            FlushKind::Compact
        }
    }

    /// The state after that step of a flush.
    pub open spec fn after_flush_step(self, retried: bool) -> DiskView {
        match self.next_flush(retried) {
            FlushKind::Write => DiskView {
                alloc: self.alloc.after_batch(self.alloc.batch_pick(self.buffered.len())->0),
                ..self
            },
            _ => self,
        }
    }

    /// The state after a flush was completed.
    pub open spec fn after_complete_flush(self) -> DiskView {
        DiskView { buffered: Seq::empty(), active: true, ..self }
    }

    /// Whether a sync has a snapshot of the validity table to persist.
    pub open spec fn snapshot_due(self) -> bool {
        self.alloc.dirty
    }

    /// The state after a sync was finished.
    pub open spec fn after_finish_sync(self) -> DiskView {
        DiskView { alloc: AllocTableView { dirty: false, ..self.alloc }, ..self }
    }
}

/// Sync is idempotent: on a disk that was just synced and on which no
/// collection runs, another sync has nothing to flush and nothing to
/// persist, and leaves the state as it is.
pub proof fn law_sync_is_idempotent(v: DiskView, retried: bool)
    requires
        v.wf(),
        !v.gc_in_progress,
    ensures
        ({
            let synced = v.after_complete_flush().after_finish_sync();
            &&& synced.next_flush(retried) is Idle
            &&& synced.after_flush_step(retried) == synced
            &&& synced.after_complete_flush() == synced
            &&& !synced.snapshot_due()
            &&& synced.after_finish_sync() == synced
        }),
{
    let synced = v.after_complete_flush().after_finish_sync();
    assert(synced.after_complete_flush().buffered =~= synced.buffered);
}

/// The inner structures of the disk.
pub struct DiskInner {
    /// The buffer of written blocks.
    data_buf: DataBuf,
    /// The marks of blocks that the collector has reclaimed.
    dealloc_table: DeallocTable,
    /// The validity table of the host blocks.
    block_validity_table: AllocTable,
    /// The barrier between the collector, compaction and foreground I/O.
    shared_state: SharedState,
    /// Whether the disk was written since the collector last looked.
    is_active: bool,
    /// Whether the disk was dropped.
    is_dropped: bool,
    /// The options of the disk.
    config: Config,
    /// Whether a reverse index is kept.
    reverse: bool,
    /// The bytes that users wrote.
    waf: WafStats,
}

impl View for DiskInner {
    type V = DiskView;

    closed spec fn view(&self) -> DiskView {
        DiskView {
            buffered: self.data_buf@,
            capacity: self.data_buf.capacity(),
            alloc: self.block_validity_table@,
            marks: self.dealloc_table@,
            gc_in_progress: self.shared_state.gc_in_progress(),
            compaction_in_progress: self.shared_state.compaction_in_progress(),
            active: self.is_active,
            dropped: self.is_dropped,
            config: self.config,
            reverse: self.reverse,
            logical_bytes: self.waf.logical(),
        }
    }
}

impl DiskInner {
    /// The parts of the engine are well-formed and fit together.
    pub closed spec fn wf(&self) -> bool {
        &&& self.data_buf.wf()
        &&& self.block_validity_table.wf()
        &&& self.dealloc_table.wf()
        &&& self@.wf()
    }

    /// A well-formed engine has a well-formed view.
    pub proof fn lemma_wf(&self)
        requires
            self.wf(),
        ensures
            self@.wf(),
    {
    }

    /// The engine of a disk over the validity table `alloc_table`: nothing
    /// buffered, no block marked, nothing under way.
    pub fn new(alloc_table: AllocTable, config: Config, enable_gc: bool) -> (d: DiskInner)
        requires
            alloc_table.wf(),
        ensures
            d.wf(),
            d@ == (DiskView {
                buffered: Seq::empty(),
                capacity: DATA_BUF_CAP,
                alloc: alloc_table@,
                marks: Seq::new(alloc_table@.bitmap.len(), |i: int| false),
                gc_in_progress: false,
                compaction_in_progress: false,
                active: true,
                dropped: false,
                config,
                reverse: enable_gc,
                logical_bytes: 0,
            }),
    {
        proof {
            alloc_table.lemma_wf();
        }
        let nblocks = alloc_table.nblocks();
        DiskInner {
            data_buf: DataBuf::new(DATA_BUF_CAP),
            dealloc_table: DeallocTable::new(nblocks),
            block_validity_table: alloc_table,
            shared_state: SharedState::new(),
            is_active: true,
            is_dropped: false,
            config,
            reverse: enable_gc,
            waf: WafStats::new(),
        }
    }

    /// The number of host blocks that hold user data.
    pub fn total_blocks(&self) -> (n: usize)
        requires
            self.wf(),
        ensures
            n == self@.alloc.bitmap.len(),
    {
        self.block_validity_table.nblocks()
    }

    /// The validity table, as a specification value.
    pub closed spec fn table(&self) -> AllocTable {
        self.block_validity_table
    }

    /// The validity table.
    pub fn block_validity_table(&self) -> (t: &AllocTable)
        requires
            self.wf(),
        ensures
            t.wf(),
            t@ == self@.alloc,
            *t == self.table(),
    {
        &self.block_validity_table
    }

    /// The marks of the blocks that the collector has reclaimed.
    pub fn dealloc_table(&self) -> (t: &DeallocTable)
        requires
            self.wf(),
        ensures
            t.wf(),
            t@ == self@.marks,
    {
        &self.dealloc_table
    }

    /// The options of the disk.
    pub fn config(&self) -> (c: &Config)
        ensures
            *c == self@.config,
    {
        &self.config
    }

    /// Whether a reverse index is kept.
    pub fn keeps_reverse_index(&self) -> (b: bool)
        ensures
            b == self@.reverse,
    {
        self.reverse
    }

    /// Whether the disk was dropped.
    pub fn is_dropped(&self) -> (b: bool)
        ensures
            b == self@.dropped,
    {
        self.is_dropped
    }

    /// The buffer of written blocks.
    pub fn data_buf(&self) -> (b: &DataBuf)
        requires
            self.wf(),
        ensures
            b.wf(),
            b@ == self@.buffered,
    {
        &self.data_buf
    }

    /// The bytes that users wrote, where they are counted.
    pub fn logical_bytes(&self) -> (n: u64)
        ensures
            n == self@.logical_bytes,
    {
        self.waf.get_logical()
    }

    /// Whether the disk was written since the collector last looked.
    pub fn is_active(&self) -> (b: bool)
        ensures
            b == self@.active,
    {
        self.is_active
    }

    /// Asked before the index or the host disk is touched: whether the
    /// caller may go on, which is when no collection is under way.
    pub fn wait_for_background_gc(&self) -> (ready: bool)
        ensures
            ready == !self@.gc_in_progress,
    {
        self.shared_state.wait_for_background_gc()
    }

    /// Buffers the blocks of `buf` from block `done` on at the addresses
    /// from `lba + done` on, and stops after the block that fills the buffer.
    /// Nothing is written to the host disk before a flush.
    pub fn write(&mut self, lba: Lba, buf: &[u8], done: usize) -> (p: WriteProgress)
        requires
            old(self).wf(),
            buf@.len() % (BLOCK_SIZE as nat) == 0,
            done <= buf@.len() / (BLOCK_SIZE as nat),
            lba + buf@.len() / (BLOCK_SIZE as nat) <= usize::MAX,
        ensures
            final(self).wf(),
            done <= p.consumed <= buf@.len() / (BLOCK_SIZE as nat),
            final(self)@.buffered == buffer_after(
                old(self)@.buffered,
                lba,
                buf@,
                done as int,
                p.consumed as int,
            ),
            p.flush == (p.consumed > done && final(self)@.buffered.len() >= old(self)@.capacity),
            p.consumed < buf@.len() / (BLOCK_SIZE as nat) ==> p.flush,
            forall|k: int|
                done < k < p.consumed ==> (#[trigger] buffer_after(
                    old(self)@.buffered,
                    lba,
                    buf@,
                    done as int,
                    k,
                )).len() < old(self)@.capacity,
            final(self)@ == (DiskView {
                buffered: final(self)@.buffered,
                logical_bytes: final(self)@.logical_bytes,
                ..old(self)@
            }),
            final(self)@.logical_bytes == if old(self)@.config.stat_waf {
                crate::waf_stats::wrap_add_u64(
                    old(self)@.logical_bytes,
                    ((p.consumed - done) * BLOCK_SIZE) as u64,
                )
            } else {
                old(self)@.logical_bytes
            },
    {
        let len: usize = buf.len();
        let nblocks: usize = len / BLOCK_SIZE;
        let mut i: usize = done;
        let mut flush: bool = false;
        while i < nblocks && !flush
            invariant
                done <= i <= nblocks,
                len == buf@.len(),
                nblocks == buf@.len() / (BLOCK_SIZE as nat),
                buf@.len() % (BLOCK_SIZE as nat) == 0,
                lba + nblocks <= usize::MAX,
                self.data_buf.wf(),
                self.data_buf.capacity() == old(self).data_buf.capacity(),
                self.data_buf@ == buffer_after(old(self)@.buffered, lba, buf@, done as int, i as int),
                flush == (i > done && self.data_buf@.len() >= self.data_buf.capacity()),
                forall|k: int|
                    done < k < i ==> (#[trigger] buffer_after(
                        old(self)@.buffered,
                        lba,
                        buf@,
                        done as int,
                        k,
                    )).len() < old(self)@.capacity,
                self.block_validity_table == old(self).block_validity_table,
                self.dealloc_table == old(self).dealloc_table,
                self.shared_state == old(self).shared_state,
                self.is_active == old(self).is_active,
                self.is_dropped == old(self).is_dropped,
                self.config == old(self).config,
                self.reverse == old(self).reverse,
                self.waf == old(self).waf,
            decreases nblocks - i + if flush { 0int } else { 1 },
        {
            proof {
                assert(i * BLOCK_SIZE + BLOCK_SIZE <= buf@.len()) by (nonlinear_arith)
                    requires
                        i < nblocks,
                        nblocks == buf@.len() / (BLOCK_SIZE as nat),
                        BLOCK_SIZE == 4096,
                ;
            }
            let block_buf = slice_subrange(buf, i * BLOCK_SIZE, i * BLOCK_SIZE + BLOCK_SIZE);
            flush = self.data_buf.put(RecordKey { lba: lba + i }, block_buf);
            i += 1;
        }
        if self.config.stat_waf {
            proof {
                assert((i - done) * BLOCK_SIZE <= buf@.len()) by (nonlinear_arith)
                    requires
                        done <= i <= nblocks,
                        nblocks == buf@.len() / (BLOCK_SIZE as nat),
                        BLOCK_SIZE == 4096,
                ;
            }
            self.waf.add_logical(((i - done) * BLOCK_SIZE) as u64);
        }
        WriteProgress { consumed: i, flush }
    }
}

/// `plan` is the plan of the read of the `nblocks` blocks from `lba` on
/// whose missing addresses are `missing` and for which the index holds
/// `records`: the same records ordered by host block, each with the block of
/// the request that it is for, the runs of consecutive host blocks, and the
/// missing addresses without a record.
pub open spec fn planned(lba: usize, nblocks: usize, missing: Seq<usize>, records: Seq<Record>, plan: ReadPlan) -> bool {
    &&& sorted_by_hba(plan.records@)
    &&& plan.records@.to_multiset() == records.to_multiset()
    &&& plan.records@.len() == records.len()
    &&& splits_into_runs(hbas_of(plan.records@), plan.runs@)
    &&& plan.slots@.len() == plan.records@.len()
    &&& forall|i: int|
        0 <= i < plan.records@.len() ==> (#[trigger] plan.slots@[i])
            == plan.records@[i].key_spec().lba - lba && plan.slots@[i] < nblocks
    &&& plan.unwritten@ == unanswered(missing, records)
}

/// Whether `list` holds `x`.
fn holds(list: &Vec<usize>, x: usize) -> (b: bool)
    ensures
        b == list@.contains(x),
{
    let mut i: usize = 0;
    while i < list.len()
        invariant
            i <= list@.len(),
            forall|k: int| 0 <= k < i ==> list@[k] != x,
        decreases list@.len() - i,
    {
        if list[i] == x {
            return true;
        }
        i += 1;
    }
    false
}

/// Whether some record of `records` is for the address `a`.
fn record_for(records: &Vec<Record>, a: usize) -> (b: bool)
    ensures
        b == has_record(records@, a),
{
    let mut i: usize = 0;
    while i < records.len()
        invariant
            i <= records@.len(),
            forall|k: int| 0 <= k < i ==> (#[trigger] records@[k]).key_spec().lba != a,
        decreases records@.len() - i,
    {
        if records[i].key().lba == a {
            return true;
        }
        i += 1;
    }
    false
}

impl ReadPlan {
    /// What the read comes to once the planned blocks are fetched:
    /// `NotFound` where an address of the read was never written, which a
    /// read passes over as an empty read.
    pub fn outcome(&self) -> (r: Result<(), Error>)
        ensures
            r is Ok <==> self.unwritten@.len() == 0,
            r is Err ==> r->Err_0.kind() == Errno::NotFound,
    {
        if self.unwritten.len() == 0 {
            Ok(())
        } else {
            Err(Error::with_msg(Errno::NotFound, "a block was never written"))
        }
    }
}

impl DiskInner {
    /// Allocates host blocks for the buffered blocks and plans their
    /// transfer. Nothing is to be done where nothing is buffered; the write
    /// has to wait, and nothing changes, where fewer blocks are counted as
    /// free than are buffered. Fails with `OutOfDisk`, and changes nothing,
    /// where the bitmap does not hold the blocks that the count allows.
    pub fn write_blocks_from_data_buf(&mut self) -> (r: Result<WriteStep, Error>)
        requires
            old(self).wf(),
        ensures
            final(self).wf(),
            match r {
                Ok(WriteStep::Idle) => old(self)@.buffered.len() == 0 && final(self)@ == old(
                    self,
                )@,
                Ok(WriteStep::WaitForFree(n)) => n == old(self)@.buffered.len() && n > 0 && old(
                    self,
                )@.alloc.num_free < n && final(self)@ == old(self)@,
                Ok(WriteStep::Write(plan)) => old(self)@.buffered.len() > 0 && old(
                    self,
                )@.alloc.num_free >= old(self)@.buffered.len() && old(self)@.alloc.batch_pick(
                    old(self)@.buffered.len(),
                ) == Some(as_ints(plan.hbas@)) && splits_into_runs(as_ints(plan.hbas@), plan.runs@)
                    && plan.hbas@.len() == old(self)@.buffered.len() && final(self)@ == (DiskView {
                    alloc: old(self)@.alloc.after_batch(as_ints(plan.hbas@)),
                    ..old(self)@
                }),
                Err(e) => e.kind() == Errno::OutOfDisk && old(self)@.buffered.len() > 0 && old(
                    self,
                )@.alloc.num_free >= old(self)@.buffered.len() && old(self)@.alloc.batch_pick(
                    old(self)@.buffered.len(),
                ) is None && final(self)@ == old(self)@,
            },
    {
        let num_write: usize = self.data_buf.nblocks();
        if num_write == 0 {
            return Ok(WriteStep::Idle);
        }
        let hbas = match self.block_validity_table.alloc_batch(num_write) {
            Ok(AllocBatch::Done(hbas)) => hbas,
            Ok(AllocBatch::Wait) => {
                return Ok(WriteStep::WaitForFree(num_write));
            },
            Err(e) => {
                return Err(e);
            },
        };
        proof {
            assert forall|k: int| 0 <= k < as_ints(hbas@).len() implies 0 <= #[trigger] as_ints(
                hbas@,
            )[k] < old(self)@.alloc.bitmap.len() by {
                assert(as_ints(hbas@)[k] == hbas@[k]);
            }
            crate::alloc_laws::lemma_set_all_frame(
                old(self)@.alloc.bitmap,
                as_ints(hbas@),
                false,
            );
            self.block_validity_table.lemma_wf();
        }
        let runs = group_runs(hbas.as_slice());
        Ok(WriteStep::Write(WritePlan { hbas, runs }))
    }

    /// What a flush does next. `retried` tells whether the index was
    /// compacted for this flush already: the flush asks for that once.
    pub fn flush_data_buf(&mut self, retried: bool) -> (step: FlushStep)
        requires
            old(self).wf(),
        ensures
            final(self).wf(),
            final(self)@ == old(self)@.after_flush_step(retried),
            match step {
                FlushStep::WaitForGc => old(self)@.next_flush(retried) is WaitForGc,
                FlushStep::Idle => old(self)@.next_flush(retried) is Idle,
                FlushStep::WaitForFree(n) => old(self)@.next_flush(retried) is WaitForFree && n
                    == old(self)@.buffered.len(),
                FlushStep::Write(plan) => old(self)@.next_flush(retried) is Write
                    && old(self)@.alloc.batch_pick(old(self)@.buffered.len()) == Some(
                    as_ints(plan.hbas@),
                ) && splits_into_runs(as_ints(plan.hbas@), plan.runs@) && plan.hbas@.len() == old(
                    self,
                )@.buffered.len(),
                FlushStep::Compact => old(self)@.next_flush(retried) is Compact,
                FlushStep::Failed(e) => old(self)@.next_flush(retried) is Failed && e.kind()
                    == Errno::OutOfDisk,
            },
    {
        if !self.wait_for_background_gc() {
            return FlushStep::WaitForGc;
        }
        match self.write_blocks_from_data_buf() {
            Ok(WriteStep::Write(plan)) => FlushStep::Write(plan),
            Ok(WriteStep::Idle) => FlushStep::Idle,
            Ok(WriteStep::WaitForFree(n)) => FlushStep::WaitForFree(n),
            Err(e) => {
                if e.errno() == Errno::OutOfDisk && !retried {
                    FlushStep::Compact
                } else {
                    FlushStep::Failed(e)
                }
            },
        }
    }

    /// The operations that record the flush in the indexes, given the key
    /// and the tag under which each buffered block was sealed.
    pub fn finish_flush(&self, plan: &WritePlan, sealed: &Vec<Sealed>) -> (ops: Vec<IndexOp>)
        requires
            self.wf(),
            plan.hbas@.len() == self@.buffered.len(),
            sealed@.len() == self@.buffered.len(),
        ensures
            ops@ == index_ops(
                self@.buffered,
                plan.hbas@,
                sealed@,
                self@.config.delayed_reclamation,
                self@.reverse,
            ),
    {
        let blocks = self.data_buf.all_blocks();
        let mut ops: Vec<IndexOp> = Vec::new();
        let mut i: usize = 0;
        let ghost all = self@.buffered;
        proof {
            assert(all.take(0) =~= Seq::<BufferedBlock>::empty());
        }
        while i < blocks.len()
            invariant
                i <= blocks@.len(),
                all == self@.buffered,
                block_views(blocks@) == all,
                plan.hbas@.len() == all.len(),
                sealed@.len() == all.len(),
                ops@ == index_ops(
                    all.take(i as int),
                    plan.hbas@,
                    sealed@,
                    self@.config.delayed_reclamation,
                    self@.reverse,
                ),
            decreases blocks@.len() - i,
        {
            proof {
                assert(all.take(i + 1).drop_last() =~= all.take(i as int));
                assert(all.take(i + 1)[i as int] == blocks@[i as int]@);
            }
            let key = blocks[i].key();
            let hba = plan.hbas[i];
            let value = RecordValue { hba, key: sealed[i].key, mac: sealed[i].mac };
            if !self.config.delayed_reclamation {
                ops.push(IndexOp::Touch(key));
            }
            ops.push(IndexOp::Put(key, value));
            if self.reverse {
                ops.push(IndexOp::PutReverse(ReverseKey { hba }, ReverseValue { lba: key.lba }));
            }
            i += 1;
        }
        proof {
            assert(all.take(all.len() as int) =~= all);
        }
        ops
    }

    /// Ends a flush whose blocks are written and recorded: the disk counts
    /// as active and the buffer is emptied.
    pub fn complete_flush(&mut self)
        requires
            old(self).wf(),
        ensures
            final(self).wf(),
            final(self)@ == old(self)@.after_complete_flush(),
    {
        self.is_active = true;
        self.data_buf.clear();
    }

    /// What a read of the block at `lba` does next.
    pub fn read_one_block(&self, lba: Lba) -> (step: ReadStep<'_>)
        requires
            self.wf(),
        ensures
            match step {
                ReadStep::Buffered(block) => lookup(self@.buffered, lba) == Some(block@.data)
                    && block@.data.len() == BLOCK_SIZE,
                ReadStep::WaitForGc => lookup(self@.buffered, lba) is None
                    && self@.gc_in_progress,
                ReadStep::Lookup(key) => lookup(self@.buffered, lba) is None
                    && !self@.gc_in_progress && key.lba == lba,
            },
    {
        match self.data_buf.get(RecordKey { lba }) {
            Some(block) => ReadStep::Buffered(block),
            None => {
                if self.wait_for_background_gc() {
                    ReadStep::Lookup(RecordKey { lba })
                } else {
                    ReadStep::WaitForGc
                }
            },
        }
    }

    /// What the buffer holds of the `nblocks` blocks from `lba` on, and
    /// which of them have to be read from the host disk.
    pub fn read_multi_blocks(&self, lba: Lba, nblocks: usize) -> (r: MultiRead<'_>)
        requires
            self.wf(),
            lba + nblocks <= usize::MAX,
        ensures
            found(self@.buffered, lba, nblocks as int, r),
    {
        let hits = self.data_buf.get_range(lba, lba + nblocks);
        let mut hit_slots: Vec<usize> = Vec::new();
        let mut h: usize = 0;
        proof {
            lemma_within_range(self.data_buf@, lba, (lba + nblocks) as usize);
        }
        while h < hits.len()
            invariant
                h <= hits@.len(),
                lba + nblocks <= usize::MAX,
                hit_slots@.len() == h,
                hits@.map_values(|b: &DataBlock| b@) == within(
                    self.data_buf@,
                    lba,
                    (lba + nblocks) as usize,
                ),
                forall|k: int|
                    0 <= k < within(self.data_buf@, lba, (lba + nblocks) as usize).len() ==> lba
                        <= (#[trigger] within(self.data_buf@, lba, (lba + nblocks) as usize)[k]).lba
                        < lba + nblocks,
                forall|i: int|
                    0 <= i < h ==> (#[trigger] hit_slots@[i]) == hits@[i]@.lba - lba
                        && hit_slots@[i] < nblocks,
            decreases hits@.len() - h,
        {
            proof {
                let views = hits@.map_values(|b: &DataBlock| b@);
                assert(views[h as int] == hits@[h as int]@);
                assert(lba <= views[h as int].lba < lba + nblocks);
            }
            hit_slots.push(hits[h].key().lba - lba);
            h += 1;
        }
        let mut missing: Vec<Lba> = Vec::new();
        let mut i: usize = 0;
        while i < nblocks
            invariant
                i <= nblocks,
                lba + nblocks <= usize::MAX,
                self.data_buf.wf(),
                missing@ == missing_in(self.data_buf@, lba, i as int),
            decreases nblocks - i,
        {
            if self.data_buf.get(RecordKey { lba: lba + i }).is_none() {
                missing.push(lba + i);
            }
            i += 1;
        }
        MultiRead { hits, hit_slots, missing }
    }

    /// What the buffer holds of the `nblocks` blocks from `lba` on, and
    /// which of them have to be read from the host disk.
    pub fn read(&self, lba: Lba, nblocks: usize) -> (r: MultiRead<'_>)
        requires
            self.wf(),
            lba + nblocks <= usize::MAX,
        ensures
            found(self@.buffered, lba, nblocks as int, r),
    {
        self.read_multi_blocks(lba, nblocks)
    }

    /// A read of a block that was never written is no failure: what the
    /// caller's buffer holds for it is left to the layer above.
    pub fn allow_empty_read(res: Result<(), Error>) -> (r: Result<(), Error>)
        ensures
            match res {
                Ok(_) => r is Ok,
                Err(e) => if e.kind() == Errno::NotFound {
                    r is Ok
                } else {
                    r == res
                },
            },
    {
        match res {
            Ok(_) => Ok(()),
            Err(e) => {
                if e.errno() == Errno::NotFound {
                    Ok(())
                } else {
                    Err(e)
                }
            },
        }
    }

    /// Plans how the missing blocks of a read of the `nblocks` blocks from
    /// `lba` on are fetched, given the records that the index holds for them.
    ///
    /// The records are ordered by host block and split into runs: each run
    /// is read with one transfer, and each block of it is decrypted with the
    /// key and the tag of its record into the block of the request that the
    /// plan names for it. The missing addresses without a record were never
    /// written. Fails with `InvalidArgs` where a record does not answer the
    /// read: it is for an address that is not missing, or not of the request.
    pub fn plan_read(lba: Lba, nblocks: usize, missing: &Vec<Lba>, records: &Vec<Record>) -> (r:
        Result<ReadPlan, Error>)
        ensures
            r is Ok <==> forall|k: int|
                0 <= k < records@.len() ==> answers_read(
                    missing@,
                    lba,
                    nblocks,
                    #[trigger] records@[k],
                ),
            r is Err ==> r->Err_0.kind() == Errno::InvalidArgs,
            r is Ok ==> planned(lba, nblocks, missing@, records@, r->Ok_0),
    {
        let mut v: usize = 0;
        while v < records.len()
            invariant
                v <= records@.len(),
                forall|k: int|
                    0 <= k < v ==> answers_read(missing@, lba, nblocks, #[trigger] records@[k]),
            decreases records@.len() - v,
        {
            let at = records[v].key().lba;
            if at < lba || at - lba >= nblocks || !holds(missing, at) {
                return Err(Error::with_msg(Errno::InvalidArgs, "a record does not answer the read"));
            }
            v += 1;
        }
        let sorted = sort_by_hba(records);
        proof {
            broadcast use vstd::seq_lib::group_to_multiset_ensures;

            assert forall|k: int| 0 <= k < sorted@.len() implies answers_read(
                missing@,
                lba,
                nblocks,
                #[trigger] sorted@[k],
            ) by {
                assert(sorted@.contains(sorted@[k]));
                assert(sorted@.to_multiset().count(sorted@[k]) > 0);
                assert(records@.contains(sorted@[k]));
                let m = choose|m: int| 0 <= m < records@.len() && records@[m] == sorted@[k];
                assert(answers_read(missing@, lba, nblocks, records@[m]));
            }
        }
        let mut hbas: Vec<usize> = Vec::new();
        let mut slots: Vec<usize> = Vec::new();
        let mut i: usize = 0;
        while i < sorted.len()
            invariant
                i <= sorted@.len(),
                hbas@.len() == i,
                slots@.len() == i,
                as_ints(hbas@) == hbas_of(sorted@.take(i as int)),
                forall|k: int|
                    0 <= k < sorted@.len() ==> answers_read(
                        missing@,
                        lba,
                        nblocks,
                        #[trigger] sorted@[k],
                    ),
                forall|k: int|
                    0 <= k < i ==> (#[trigger] slots@[k]) == sorted@[k].key_spec().lba - lba
                        && slots@[k] < nblocks,
            decreases sorted@.len() - i,
        {
            let ghost before = hbas@;
            hbas.push(sorted[i].value().hba);
            proof {
                assert(answers_read(missing@, lba, nblocks, sorted@[i as int]));
            }
            slots.push(sorted[i].key().lba - lba);
            proof {
                let want = hbas_of(sorted@.take(i + 1));
                assert(want.len() == i + 1);
                assert(as_ints(hbas@).len() == i + 1);
                assert(as_ints(before).len() == i);
                assert forall|k: int| 0 <= k < i + 1 implies #[trigger] as_ints(hbas@)[k]
                    == want[k] by {
                    if k < i {
                        assert(as_ints(before)[k] == hbas_of(sorted@.take(i as int))[k]);
                        assert(sorted@.take(i as int)[k] == sorted@.take(i + 1)[k]);
                    }
                }
                assert(as_ints(hbas@) =~= want);
            }
            i += 1;
        }
        proof {
            assert(sorted@.take(sorted@.len() as int) =~= sorted@);
        }
        let runs = group_runs(hbas.as_slice());
        let mut unwritten: Vec<Lba> = Vec::new();
        let mut m: usize = 0;
        proof {
            assert(missing@.take(0) =~= Seq::<usize>::empty());
        }
        while m < missing.len()
            invariant
                m <= missing@.len(),
                unwritten@ == unanswered(missing@.take(m as int), records@),
            decreases missing@.len() - m,
        {
            proof {
                assert(missing@.take(m + 1).drop_last() =~= missing@.take(m as int));
                assert(missing@.take(m + 1).last() == missing@[m as int]);
            }
            if !record_for(records, missing[m]) {
                unwritten.push(missing[m]);
            }
            m += 1;
        }
        proof {
            assert(missing@.take(missing@.len() as int) =~= missing@);
        }
        Ok(ReadPlan { records: sorted, slots, runs, unwritten })
    }

    /// What a sync has to persist once the buffer is flushed: a snapshot of
    /// the validity table, or `None` where the table did not change since it
    /// was last persisted. After the snapshot the log store is synced and the
    /// host disk is flushed.
    pub fn sync(&self) -> (r: Result<Option<Snapshot>, Error>)
        requires
            self.wf(),
            self@.buffered.len() == 0,
        ensures
            self.table()@ == self@.alloc,
            !self@.snapshot_due() ==> r is Ok && r->Ok_0 is None,
            self@.snapshot_due() ==> (r is Ok <==> self.table().bitmap_bytes().len()
                <= BITMAP_MAX_SIZE && (self@.alloc.segments is Some ==> slots_fit(
                self@.alloc.segments->0,
            ))),
            self@.snapshot_due() && r is Ok ==> r->Ok_0 is Some && r->Ok_0->0.bitmap@ == padded(
                self.table().bitmap_bytes(),
            ) && match r->Ok_0->0.segments {
                Some(bytes) => self@.alloc.segments is Some && bytes@ == padded(
                    segment_slots(self@.alloc.segments->0),
                ),
                None => self@.alloc.segments is None,
            },
            r is Err ==> r->Err_0.kind() == Errno::InvalidArgs,
    {
        self.block_validity_table.do_compaction()
    }

    /// Ends a sync whose snapshot was committed.
    pub fn finish_sync(&mut self)
        requires
            old(self).wf(),
        ensures
            final(self).wf(),
            final(self)@ == old(self)@.after_finish_sync(),
    {
        self.block_validity_table.mark_persisted();
    }

    /// Marks the disk as dropped: the collector ends at its next pass.
    pub fn mark_dropped(&mut self)
        requires
            old(self).wf(),
        ensures
            final(self).wf(),
            final(self)@ == (DiskView { dropped: true, ..old(self)@ }),
    {
        self.is_dropped = true;
    }
}

impl DiskInner {
    /// Asked by the collector: whether it may go on, which is when no
    /// compaction is under way.
    pub fn wait_for_compaction(&self) -> (ready: bool)
        ensures
            ready == !self@.compaction_in_progress,
    {
        self.shared_state.wait_for_compaction()
    }

    /// The collector begins a pass: foreground I/O and compaction wait from
    /// now on.
    pub fn start_gc(&mut self)
        requires
            old(self).wf(),
        ensures
            final(self).wf(),
            final(self)@ == (DiskView { gc_in_progress: true, ..old(self)@ }),
    {
        self.shared_state.start_gc();
    }

    /// The collector ends a pass: everyone who waits for it is to be woken.
    /// Returns how long the collector rests, in milliseconds; the disk counts
    /// as idle until it is written again.
    pub fn notify_gc_finished(&mut self) -> (millis: u64)
        requires
            old(self).wf(),
        ensures
            final(self).wf(),
            final(self)@ == (DiskView { gc_in_progress: false, active: false, ..old(self)@ }),
            millis == if old(self)@.active {
                ACTIVE_GC_INTERVAL_MILLIS
            } else {
                INACTIVE_GC_INTERVAL_MILLIS
            },
    {
        self.shared_state.notify_gc_finished();
        let millis = GcWorker::interval(self.is_active);
        self.is_active = false;
        millis
    }

    /// A compaction of the index begins.
    pub fn start_compaction(&mut self)
        requires
            old(self).wf(),
        ensures
            final(self).wf(),
            final(self)@ == (DiskView { compaction_in_progress: true, ..old(self)@ }),
    {
        self.shared_state.start_compaction();
    }

    /// A compaction of the index ends: the collector, if it waits, is to be
    /// woken.
    pub fn notify_compaction_finished(&mut self)
        requires
            old(self).wf(),
        ensures
            final(self).wf(),
            final(self)@ == (DiskView { compaction_in_progress: false, ..old(self)@ }),
    {
        self.shared_state.notify_compaction_finished();
    }

    /// The next victim of a pass of `worker` in which `picked` victims were
    /// taken already.
    pub fn next_victim(&self, worker: &mut GcWorker, picked: usize) -> (r: Option<Victim>)
        requires
            self.wf(),
            self@.alloc.segments is Some,
            old(worker).policy().ready(self.segments()),
        ensures
            final(worker).policy().ready(self.segments()),
            picked >= GC_WATERMARK ==> r is None && final(worker).policy() == old(worker).policy(),
            picked < GC_WATERMARK ==> crate::gc::chosen_by(
                old(worker).policy(),
                final(worker).policy(),
                self.segments(),
                if self@.active {
                    Threshold::active_spec()
                } else {
                    Threshold::inactive_spec()
                },
                r,
            ),
            r is Some ==> is_victim(r->0, self.segments(), self@.alloc.bitmap, r->0.id() as int) && (
            if self@.active {
                Threshold::active_spec()
            } else {
                Threshold::inactive_spec()
            }).exceeded_by(self.segments()[r->0.id() as int]@),
    {
        worker.background_gc(&self.block_validity_table, self.is_active, picked)
    }

    /// The segments of the validity table.
    pub closed spec fn segments(&self) -> Seq<crate::segment::Segment> {
        self.block_validity_table.segment_seq()
    }

    /// Sorts the blocks of `victim` into live and dropped ones and finds
    /// the free blocks to which the live ones go.
    pub fn find_target_hbas(&self, victim: &Victim, current: &Vec<Result<Mapping, Error>>) -> (r:
        Result<Targets, Error>)
        requires
            self.wf(),
            self@.alloc.segments is Some,
            current@.len() == victim.hbas().len(),
        ensures
            ({
                let pool = free_pool(
                    self@.alloc.bitmap,
                    self@.alloc.segments->0,
                    victim.id() as nat,
                    self@.alloc.segments->0.len() as int,
                );
                let valid = valid_of(victim.hbas(), current@);
                match first_failure(current@) {
                    Some(e) => r == Err::<Targets, Error>(e),
                    None => if pool.len() < valid.len() {
                        r is Err && r->Err_0.kind() == Errno::OutOfDisk
                    } else {
                        r is Ok && r->Ok_0.valid@ == valid && r->Ok_0.discard@ == discard_of(
                            victim.hbas(),
                            current@,
                        ) && as_ints(r->Ok_0.targets@) == pool.take(valid.len() as int)
                    },
                }
            }),
    {
        GcWorker::find_target_hbas(&self.block_validity_table, victim, current)
    }

    /// Records a migration in the validity table and returns the moves.
    pub fn finish_migration(&mut self, victim_id: usize, found: &Targets) -> (remapped: Vec<Remap>)
        requires
            old(self).wf(),
            (victim_id + 1) * SEGMENT_SIZE <= old(self)@.alloc.bitmap.len(),
            found.valid@.len() == found.targets@.len(),
            forall|k: int|
                0 <= k < found.targets@.len() ==> found.targets@[k] < old(self)@.alloc.bitmap.len(),
            old(self)@.alloc.num_free + found.discard@.len() <= usize::MAX,
        ensures
            final(self).wf(),
            final(self)@ == (DiskView {
                alloc: after_migration(
                    old(self)@.alloc,
                    as_ints(found.targets@),
                    victim_id as int,
                    found.discard@.len(),
                ),
                ..old(self)@
            }),
            remapped@.len() == found.valid@.len(),
            forall|k: int|
                0 <= k < remapped@.len() ==> #[trigger] remapped@[k] == (Remap {
                    old_hba: found.valid@[k],
                    new_hba: found.targets@[k],
                }),
    {
        let remapped = GcWorker::finish_migration(&mut self.block_validity_table, victim_id, found);
        proof {
            self.block_validity_table.lemma_wf();
            assert forall|k: int| 0 <= k < as_ints(found.targets@).len() implies 0
                <= #[trigger] as_ints(found.targets@)[k] < old(self)@.alloc.bitmap.len() by {
                assert(as_ints(found.targets@)[k] == found.targets@[k]);
            }
            crate::alloc_laws::lemma_set_all_frame(
                old(self)@.alloc.bitmap,
                as_ints(found.targets@),
                false,
            );
        }
        remapped
    }

    /// Makes the indexes follow the moved blocks and marks the old host
    /// blocks as reclaimed.
    pub fn remap_index_batch(&mut self, remapped: &Vec<Remap>, current: &Vec<HeldRecord>) -> (ops:
        Vec<IndexOp>)
        requires
            old(self).wf(),
            remapped@.len() == current@.len(),
            forall|k: int|
                0 <= k < remapped@.len() ==> (#[trigger] remapped@[k]).old_hba < old(
                    self,
                )@.marks.len(),
        ensures
            final(self).wf(),
            final(self)@ == (DiskView {
                marks: set_all(old(self)@.marks, old_hbas(remapped@), true),
                ..old(self)@
            }),
            ops@ == remap_ops(remapped@, current@),
    {
        let ops = GcWorker::remap_index_batch(&mut self.dealloc_table, remapped, current);
        proof {
            assert forall|k: int| 0 <= k < old_hbas(remapped@).len() implies 0
                <= #[trigger] old_hbas(remapped@)[k] < old(self)@.marks.len() by {
                assert(old_hbas(remapped@)[k] == remapped@[k].old_hba);
            }
            crate::alloc_laws::lemma_set_all_frame(old(self)@.marks, old_hbas(remapped@), true);
        }
        ops
    }

    /// A record was dropped from the index while still in memory: where the
    /// collector has reclaimed its block already, the mark is cleared and
    /// the block is left alone; else the block becomes free at once. Returns
    /// whether enough blocks are free to wake a waiting allocation.
    pub fn on_drop_record_in_memtable(&mut self, record: &Record) -> (notify: bool)
        requires
            old(self).wf(),
            record.value_spec().hba < old(self)@.marks.len(),
            old(self)@.alloc.num_free < usize::MAX,
        ensures
            final(self).wf(),
            old(self)@.marks[record.value_spec().hba as int] ==> !notify && final(self)@ == (
            DiskView {
                marks: old(self)@.marks.update(record.value_spec().hba as int, false),
                ..old(self)@
            }),
            !old(self)@.marks[record.value_spec().hba as int] ==> final(self)@ == (DiskView {
                alloc: AllocTableView {
                    bitmap: old(self)@.alloc.bitmap.update(record.value_spec().hba as int, true),
                    segments: seg_dealloc(old(self)@.alloc.segments, record.value_spec().hba as int),
                    num_free: old(self)@.alloc.num_free + 1,
                    ..old(self)@.alloc
                },
                ..old(self)@
            }) && notify == (old(self)@.alloc.num_free + 1 >= AVG_ALLOC_COUNT),
    {
        let notify = crate::sworndisk::on_drop_record_in_memtable(
            record,
            &mut self.dealloc_table,
            &mut self.block_validity_table,
        );
        proof {
            self.block_validity_table.lemma_wf();
        }
        notify
    }

    /// A record was dropped from the index by the transaction that
    /// `listener` follows.
    pub fn on_drop_record(&mut self, listener: &mut TxLsmTreeListener, record: &Record) -> (r:
        Result<(), Error>)
        requires
            old(self).wf(),
            old(listener).wf(),
            !old(listener).tx_type().is_minor(),
            record.value_spec().hba < old(self)@.marks.len(),
        ensures
            r is Ok,
            final(self).wf(),
            final(listener).wf(),
            final(listener).tx_type() == old(listener).tx_type(),
            old(self)@.marks[record.value_spec().hba as int] ==> final(listener).diffs() == old(
                listener,
            ).diffs() && final(self)@ == (DiskView {
                marks: old(self)@.marks.update(record.value_spec().hba as int, false),
                ..old(self)@
            }),
            !old(self)@.marks[record.value_spec().hba as int] ==> final(self)@ == old(self)@
                && final(listener).diffs() == crate::block_alloc::put(
                old(listener).diffs(),
                DiffEntry { hba: record.value_spec().hba, diff: AllocDiff::Dealloc },
            ),
    {
        listener.on_drop_record(record, &mut self.dealloc_table)
    }

    /// The transaction that `listener` follows committed: its recorded
    /// deallocations reach the validity table. Returns whether enough blocks
    /// are free to wake a waiting allocation.
    pub fn on_tx_commit(&mut self, listener: &TxLsmTreeListener) -> (notify: bool)
        requires
            old(self).wf(),
            listener.wf(),
            forall|k: int|
                0 <= k < listener.diffs().len() ==> (#[trigger] listener.diffs()[k]).hba < old(
                    self,
                )@.alloc.bitmap.len(),
            old(self)@.alloc.num_free + listener.diffs().len() <= usize::MAX,
        ensures
            final(self).wf(),
            final(self)@ == (DiskView {
                alloc: old(self)@.alloc.after_commit(listener.diffs()),
                ..old(self)@
            }),
            notify == (old(self)@.alloc.num_free + deallocated(listener.diffs()).len()
                >= AVG_ALLOC_COUNT),
    {
        let notify = listener.on_tx_commit(&mut self.block_validity_table);
        proof {
            self.block_validity_table.lemma_wf();
            listener.lemma_wf();
            crate::alloc_laws::lemma_deallocated(listener.diffs());
            let d = deallocated(listener.diffs());
            assert forall|k: int| 0 <= k < d.len() implies 0 <= #[trigger] d[k] < old(
                self,
            )@.alloc.bitmap.len() by {
                assert(crate::alloc_laws::gives_back(listener.diffs(), d[k]));
                let i = choose|i: int|
                    0 <= i < listener.diffs().len() && listener.diffs()[i].diff
                        == AllocDiff::Dealloc && #[trigger] listener.diffs()[i].hba == d[k];
                assert(listener.diffs()[i].hba < old(self)@.alloc.bitmap.len());
            }
            crate::alloc_laws::lemma_set_all_frame(old(self)@.alloc.bitmap, d, true);
        }
        notify
    }
}

/// The number of blocks of the first `k` buffers.
pub open spec fn nblocks_before(bufs: Seq<Vec<u8>>, k: int) -> int
    decreases k,
{
    if k <= 0 {
        0
    } else {
        nblocks_before(bufs, k - 1) + bufs[k - 1]@.len() / (BLOCK_SIZE as nat)
    }
}

/// Where a scattered write resumes in buffer `j`: at block `done` in the
/// buffer `at` in which it stopped, at the first block in every later one.
pub open spec fn resume_at(at: int, done: int, j: int) -> int {
    if j == at {
        done
    } else {
        0
    }
}

/// The address of the first block of buffer `j`, where `lba` is that of
/// the first block of buffer `at`.
pub open spec fn addr_of_buf(lba: usize, bufs: Seq<Vec<u8>>, at: int, j: int) -> usize {
    (lba + nblocks_before(bufs, j) - nblocks_before(bufs, at)) as usize
}

/// The buffer after the scattered buffers from `at` up to `k` were put, one
/// buffer after the other, the first of them from block `done` on.
pub open spec fn written_v(blocks: Seq<BufferedBlock>, lba: usize, bufs: Seq<Vec<u8>>, at: int, done: int, k: int) -> Seq<
    BufferedBlock,
>
    decreases k - at,
{
    if k <= at {
        blocks
    } else {
        buffer_after(
            written_v(blocks, lba, bufs, at, done, k - 1),
            addr_of_buf(lba, bufs, at, k - 1),
            bufs[k - 1]@,
            resume_at(at, done, k - 1),
            (bufs[k - 1]@.len() / (BLOCK_SIZE as nat)) as int,
        )
    }
}

/// How far a scattered write came: the buffer in which it stopped, and how
/// far it came in that buffer. A write that is done has stopped behind the
/// last buffer.
#[derive(Clone, Copy, Debug, PartialEq, Eq, Structural)]
pub struct WritevProgress {
    pub at: usize,
    pub progress: WriteProgress,
}

/// What serving a request does next.
pub enum BioStep<'a> {
    /// Serve the read from what the buffer holds and from the host disk.
    Read(MultiRead<'a>),
    /// How far the write came.
    Write(WritevProgress),
    /// Flush the buffer and persist what a sync has to persist.
    Sync,
}

/// What serving the request `req` comes to, from block `done` of buffer
/// `at` on: a read finds what the buffer holds of its blocks and what is
/// missing, a write buffers its blocks as a scattered write does, and a sync
/// leaves the state as it is until the caller flushes.
pub open spec fn served(before: DiskView, after: DiskView, req: BioReq, at: int, done: int, step: BioStep) -> bool {
    match step {
        BioStep::Read(r) => req.kind() == BioType::Read && after == before && found(
            before.buffered,
            req.address(),
            nblocks_before(req.buffers(), req.buffers().len() as int),
            r,
        ),
        BioStep::Write(w) => req.kind() == BioType::Write && at <= w.at
            <= req.buffers().len() && (w.at == req.buffers().len()
            ==> !w.progress.flush && after.buffered == written_v(
            before.buffered,
            addr_of_buf(req.address(), req.buffers(), 0, at),
            req.buffers(),
            at,
            done,
            req.buffers().len() as int,
        )) && (w.at < req.buffers().len() ==> w.progress.flush && after.buffered
            == buffer_after(
            written_v(
                before.buffered,
                addr_of_buf(req.address(), req.buffers(), 0, at),
                req.buffers(),
                at,
                done,
                w.at as int,
            ),
            addr_of_buf(
                addr_of_buf(req.address(), req.buffers(), 0, at),
                req.buffers(),
                at,
                w.at as int,
            ),
            req.buffers()[w.at as int]@,
            resume_at(at, done, w.at as int),
            w.progress.consumed as int,
        )),
        BioStep::Sync => req.kind() == BioType::Sync && after == before,
    }
}

impl DiskInner {
    /// What the buffer holds of the blocks of a scattered read from `lba`
    /// on, and which of them have to be read from the host disk.
    pub fn readv(&self, lba: Lba, bufs: &crate::sworndisk::BufMutVec) -> (r: MultiRead<'_>)
        requires
            self.wf(),
            lba + bufs.total() <= usize::MAX,
        ensures
            found(self@.buffered, lba, bufs.total() as int, r),
    {
        self.read_multi_blocks(lba, bufs.nblocks())
    }

    /// Buffers the blocks of the scattered buffers `bufs`, one buffer after
    /// the other, from block `done` of buffer `at` on, where `lba` is the
    /// address of the first block of buffer `at`. Stops after the block that
    /// fills the buffer.
    pub fn writev(&mut self, lba: Lba, bufs: &Vec<Vec<u8>>, at: usize, done: usize) -> (r:
        WritevProgress)
        requires
            old(self).wf(),
            whole_blocks(bufs@),
            at <= bufs@.len(),
            at < bufs@.len() ==> done <= bufs@[at as int]@.len() / (BLOCK_SIZE as nat),
            lba + nblocks_before(bufs@, bufs@.len() as int) - nblocks_before(bufs@, at as int)
                <= usize::MAX,
        ensures
            final(self).wf(),
            at <= r.at <= bufs@.len(),
            r.at == bufs@.len() ==> !r.progress.flush && final(self)@.buffered == written_v(
                old(self)@.buffered,
                lba,
                bufs@,
                at as int,
                done as int,
                bufs@.len() as int,
            ),
            r.at < bufs@.len() ==> r.progress.flush && resume_at(at as int, done as int, r.at as int)
                <= r.progress.consumed <= bufs@[r.at as int]@.len() / (BLOCK_SIZE as nat)
                && final(self)@.buffered == buffer_after(
                written_v(old(self)@.buffered, lba, bufs@, at as int, done as int, r.at as int),
                addr_of_buf(lba, bufs@, at as int, r.at as int),
                bufs@[r.at as int]@,
                resume_at(at as int, done as int, r.at as int),
                r.progress.consumed as int,
            ) && final(self)@.buffered.len() >= old(self)@.capacity,
            final(self)@.alloc == old(self)@.alloc,
            final(self)@.marks == old(self)@.marks,
            final(self)@.capacity == old(self)@.capacity,
    {
        let mut i: usize = at;
        let mut from: usize = done;
        let mut addr: usize = lba;
        proof {
            lemma_nblocks_before(bufs@, at as int, bufs@.len() as int);
        }
        while i < bufs.len()
            invariant
                at <= i <= bufs@.len(),
                self.wf(),
                whole_blocks(bufs@),
                from == resume_at(at as int, done as int, i as int) || i == bufs@.len(),
                i < bufs@.len() ==> from <= bufs@[i as int]@.len() / (BLOCK_SIZE as nat),
                addr == lba + nblocks_before(bufs@, i as int) - nblocks_before(bufs@, at as int),
                lba + nblocks_before(bufs@, bufs@.len() as int) - nblocks_before(bufs@, at as int)
                    <= usize::MAX,
                self@.buffered == written_v(
                    old(self)@.buffered,
                    lba,
                    bufs@,
                    at as int,
                    done as int,
                    i as int,
                ),
                self@.alloc == old(self)@.alloc,
                self@.marks == old(self)@.marks,
                self@.capacity == old(self)@.capacity,
            decreases bufs@.len() - i,
        {
            let buf = &bufs[i];
            proof {
                lemma_nblocks_before(bufs@, i as int + 1, bufs@.len() as int);
                lemma_nblocks_before(bufs@, at as int, i as int);
                assert(nblocks_before(bufs@, i as int + 1) == nblocks_before(bufs@, i as int)
                    + bufs@[i as int]@.len() / (BLOCK_SIZE as nat));
            }
            let progress = self.write(addr, buf.as_slice(), from);
            if progress.flush {
                return WritevProgress { at: i, progress };
            }
            addr = addr + buf.len() / BLOCK_SIZE;
            from = 0;
            i += 1;
        }
        WritevProgress { at: i, progress: WriteProgress { consumed: 0, flush: false } }
    }

    /// What serving the request `req` does next, for a write from block
    /// `done` of buffer `at` on.
    pub fn handle_bio_req(&mut self, req: &BioReq, at: usize, done: usize) -> (step: BioStep<'_>)
        requires
            old(self).wf(),
            whole_blocks(req.buffers()),
            at <= req.buffers().len(),
            at < req.buffers().len() ==> done <= req.buffers()[at as int]@.len() / (
            BLOCK_SIZE as nat),
            req.address() + nblocks_before(req.buffers(), req.buffers().len() as int)
                <= usize::MAX,
        ensures
            final(self).wf(),
            served(old(self)@, final(self)@, *req, at as int, done as int, step),
    {
        proof {
            lemma_nblocks_before(req.buffers(), 0, at as int);
            lemma_nblocks_before(req.buffers(), at as int, req.buffers().len() as int);
        }
        match req.type_() {
            BioType::Read => BioStep::Read(self.do_read(req)),
            BioType::Write => BioStep::Write(self.do_write(req, at, done)),
            BioType::Sync => BioStep::Sync,
        }
    }

    fn do_read(&self, req: &BioReq) -> (r: MultiRead<'_>)
        requires
            self.wf(),
            whole_blocks(req.buffers()),
            req.address() + nblocks_before(req.buffers(), req.buffers().len() as int)
                <= usize::MAX,
        ensures
            found(
                self@.buffered,
                req.address(),
                nblocks_before(req.buffers(), req.buffers().len() as int),
                r,
            ),
    {
        let bufs = req.bufs();
        let mut nblocks: usize = 0;
        let mut i: usize = 0;
        proof {
            lemma_nblocks_before(bufs@, 0, bufs@.len() as int);
        }
        while i < bufs.len()
            invariant
                i <= bufs@.len(),
                nblocks == nblocks_before(bufs@, i as int),
                nblocks_before(bufs@, bufs@.len() as int) <= usize::MAX,
            decreases bufs@.len() - i,
        {
            proof {
                lemma_nblocks_before(bufs@, i as int + 1, bufs@.len() as int);
            }
            nblocks = nblocks + bufs[i].len() / BLOCK_SIZE;
            i += 1;
        }
        self.read_multi_blocks(req.addr(), nblocks)
    }

    fn do_write(&mut self, req: &BioReq, at: usize, done: usize) -> (w: WritevProgress)
        requires
            old(self).wf(),
            whole_blocks(req.buffers()),
            at <= req.buffers().len(),
            at < req.buffers().len() ==> done <= req.buffers()[at as int]@.len() / (
            BLOCK_SIZE as nat),
            req.address() + nblocks_before(req.buffers(), req.buffers().len() as int)
                <= usize::MAX,
        ensures
            final(self).wf(),
            at <= w.at <= req.buffers().len(),
            w.at == req.buffers().len() ==> !w.progress.flush && final(self)@.buffered
                == written_v(
                old(self)@.buffered,
                addr_of_buf(req.address(), req.buffers(), 0, at as int),
                req.buffers(),
                at as int,
                done as int,
                req.buffers().len() as int,
            ),
            w.at < req.buffers().len() ==> w.progress.flush && final(self)@.buffered
                == buffer_after(
                written_v(
                    old(self)@.buffered,
                    addr_of_buf(req.address(), req.buffers(), 0, at as int),
                    req.buffers(),
                    at as int,
                    done as int,
                    w.at as int,
                ),
                addr_of_buf(
                    addr_of_buf(req.address(), req.buffers(), 0, at as int),
                    req.buffers(),
                    at as int,
                    w.at as int,
                ),
                req.buffers()[w.at as int]@,
                resume_at(at as int, done as int, w.at as int),
                w.progress.consumed as int,
            ),
    {
        let bufs = req.bufs();
        let mut before: usize = 0;
        let mut i: usize = 0;
        proof {
            lemma_nblocks_before(bufs@, 0, bufs@.len() as int);
            lemma_nblocks_before(bufs@, 0, at as int);
            lemma_nblocks_before(bufs@, at as int, bufs@.len() as int);
        }
        while i < at
            invariant
                i <= at <= bufs@.len(),
                before == nblocks_before(bufs@, i as int),
                nblocks_before(bufs@, at as int) <= nblocks_before(bufs@, bufs@.len() as int)
                    <= usize::MAX,
            decreases at - i,
        {
            proof {
                lemma_nblocks_before(bufs@, i as int + 1, at as int);
            }
            before = before + bufs[i].len() / BLOCK_SIZE;
            i += 1;
        }
        self.writev(req.addr() + before, bufs, at, done)
    }
}

/// The number of blocks of the first `k` buffers, or `None` where it is
/// beyond what can be counted.
pub fn count_blocks(bufs: &Vec<Vec<u8>>, k: usize) -> (r: Option<usize>)
    requires
        k <= bufs@.len(),
    ensures
        match r {
            Some(n) => n == nblocks_before(bufs@, k as int),
            None => nblocks_before(bufs@, k as int) > usize::MAX,
        },
{
    let mut nblocks: usize = 0;
    let mut i: usize = 0;
    while i < k
        invariant
            i <= k <= bufs@.len(),
            nblocks == nblocks_before(bufs@, i as int),
        decreases k - i,
    {
        let n: usize = bufs[i].len() / BLOCK_SIZE;
        if n > usize::MAX - nblocks {
            proof {
                lemma_nblocks_before(bufs@, i as int + 1, k as int);
            }
            return None;
        }
        nblocks = nblocks + n;
        i += 1;
    }
    Some(nblocks)
}

/// The blocks before a buffer are at most those before any later one.
pub proof fn lemma_nblocks_before(bufs: Seq<Vec<u8>>, a: int, b: int)
    requires
        0 <= a <= b,
    ensures
        0 <= nblocks_before(bufs, a) <= nblocks_before(bufs, b),
    decreases b,
{
    if a < b {
        lemma_nblocks_before(bufs, a, b - 1);
    } else if a > 0 {
        lemma_nblocks_before(bufs, a - 1, a - 1);
    }
}

} // verus!
