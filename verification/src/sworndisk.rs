//! The block device: its records, its scatter buffers, the listener that
//! ties the index to the allocator, and the engine of reads, writes and
//! syncs.
use vstd::prelude::*;

use crate::bio::{BlockId, BLOCK_SIZE};
use crate::block_alloc::{
    put, seg_dealloc, AllocTable, AllocTableView, BlockAlloc, AVG_ALLOC_COUNT,
};
use crate::dealloc_block::DeallocTable;
use crate::diff_log::{diff_stream, flatten, AllocDiff, DiffEntry, MAX_BUF_SIZE};
use crate::block_alloc::{recovered, Snapshot};
use crate::config::Config;
use crate::error::{Errno, Error};
use crate::bio::{whole_blocks, BioReq};
use crate::inner::{
    addr_of_buf, buffer_after, count_blocks, found, nblocks_before, resume_at, written_v, BioStep,
    DiskInner, DiskView, MultiRead, WriteProgress, WritevProgress,
};

verus! {

/// Logical block address: where the user sees a block.
pub type Lba = BlockId;

/// Host block address: where the block lies on the host disk.
pub type Hba = BlockId;

/// The key of the cipher of one block.
pub type Key = [u8; 16];

/// The authentication tag of one encrypted block.
pub type Mac = [u8; 16];

/// The key of a record of the index.
#[derive(Clone, Copy, Debug, PartialEq, Eq, Structural)]
pub struct RecordKey {
    /// Logical block address of the user data block.
    pub lba: Lba,
}

/// The value of a record of the index.
#[derive(Clone, Copy, Debug)]
pub struct RecordValue {
    /// Host block address of the user data block.
    pub hba: Hba,
    /// Encryption key of the data block.
    pub key: Key,
    /// Authentication tag of the encrypted data block.
    pub mac: Mac,
}

/// A record of the index.
#[derive(Clone, Copy, Debug)]
pub struct Record {
    key: RecordKey,
    value: RecordValue,
}

impl Record {
    /// The record of `key` and `value`.
    pub fn new(key: RecordKey, value: RecordValue) -> (r: Record)
        ensures
            r.key_spec() == key,
            r.value_spec() == value,
    {
        Record { key, value }
    }

    pub closed spec fn key_spec(&self) -> RecordKey {
        self.key
    }

    pub closed spec fn value_spec(&self) -> RecordValue {
        self.value
    }

    pub fn key(&self) -> (k: &RecordKey)
        ensures
            *k == self.key_spec(),
    {
        &self.key
    }

    pub fn value(&self) -> (v: &RecordValue)
        ensures
            *v == self.value_spec(),
    {
        &self.value
    }
}

impl core::ops::Add<usize> for RecordKey {
    type Output = RecordKey;

    fn add(self, other: usize) -> (r: RecordKey) {
        RecordKey { lba: self.lba + other }
    }
}

impl vstd::std_specs::ops::AddSpecImpl<usize> for RecordKey {
    open spec fn obeys_add_spec() -> bool {
        true
    }

    open spec fn add_req(self, other: usize) -> bool {
        self.lba + other <= usize::MAX
    }

    open spec fn add_spec(self, other: usize) -> RecordKey {
        RecordKey { lba: (self.lba + other) as usize }
    }
}

impl core::ops::Sub<RecordKey> for RecordKey {
    type Output = usize;

    fn sub(self, other: RecordKey) -> (r: usize) {
        self.lba - other.lba
    }
}

impl vstd::std_specs::ops::SubSpecImpl<RecordKey> for RecordKey {
    open spec fn obeys_sub_spec() -> bool {
        true
    }

    open spec fn sub_req(self, other: RecordKey) -> bool {
        self.lba >= other.lba
    }

    open spec fn sub_spec(self, other: RecordKey) -> usize {
        (self.lba - other.lba) as usize
    }
}

/// Where the blocks of a scattered read go: the number of blocks of each
/// buffer of the request, in order.
pub struct BufMutVec {
    bufs: Vec<usize>,
    nblocks: usize,
}

/// The sum of the entries of `s`, at most `usize::MAX`.
pub open spec fn saturating_sum(s: Seq<usize>) -> nat
    decreases s.len(),
{
    if s.len() == 0 {
        0
    } else if saturating_sum(s.drop_last()) + s.last() > usize::MAX {
        usize::MAX as nat
    } else {
        saturating_sum(s.drop_last()) + s.last() as nat
    }
}

/// The sum of the first `k` entries of `s`.
pub open spec fn blocks_before(s: Seq<usize>, k: int) -> int
    decreases k,
{
    if k <= 0 {
        0
    } else {
        blocks_before(s, k - 1) + s[k - 1]
    }
}

/// The place of one block within a scattered request: the buffer, and the
/// bytes of the block within that buffer.
#[derive(Clone, Copy, Debug, PartialEq, Eq, Structural)]
pub struct BlockSlot {
    pub buf: usize,
    pub start: usize,
    pub end: usize,
}

impl BufMutVec {
    /// The number of blocks of each buffer.
    pub closed spec fn sizes(&self) -> Seq<usize> {
        self.bufs@
    }

    /// The number of blocks of the request, as kept.
    pub closed spec fn total(&self) -> usize {
        self.nblocks
    }

    /// The kept total is the saturated sum of the sizes.
    pub open spec fn wf(&self) -> bool {
        self.total() == saturating_sum(self.sizes())
    }

    /// The layout of a request whose buffers hold `bufs` blocks each.
    pub fn from_bufs(bufs: Vec<usize>) -> (v: BufMutVec)
        ensures
            v.wf(),
            v.sizes() == bufs@,
    {
        let mut nblocks: usize = 0;
        let mut i: usize = 0;
        while i < bufs.len()
            invariant
                i <= bufs@.len(),
                nblocks == saturating_sum(bufs@.take(i as int)),
            decreases bufs@.len() - i,
        {
            proof {
                assert(bufs@.take(i + 1).drop_last() =~= bufs@.take(i as int));
                assert(bufs@.take(i + 1).last() == bufs@[i as int]);
            }
            nblocks = nblocks.saturating_add(bufs[i]);
            i += 1;
        }
        proof {
            assert(bufs@.take(bufs@.len() as int) =~= bufs@);
        }
        BufMutVec { bufs, nblocks }
    }

    /// The number of blocks of the request.
    pub fn nblocks(&self) -> (n: usize)
        ensures
            n == self.total(),
    {
        self.nblocks
    }

    /// Block `nth` of the request lies in buffer `slot.buf`, at the bytes
    /// `slot.start..slot.end`.
    pub open spec fn is_slot_of(&self, nth: usize, slot: BlockSlot) -> bool {
        let before = blocks_before(self.sizes(), slot.buf as int);
        &&& slot.buf < self.sizes().len()
        &&& before <= nth < before + self.sizes()[slot.buf as int]
        &&& slot.start == (nth - before) * BLOCK_SIZE
        &&& slot.end == slot.start + BLOCK_SIZE
    }

    /// Where block `nth` of the request goes, or `None` where the request
    /// has no such block or its bytes cannot be addressed.
    pub fn nth_buf_mut_slice(&self, nth: usize) -> (r: Option<BlockSlot>)
        ensures
            match r {
                Some(slot) => self.is_slot_of(nth, slot),
                None => forall|slot: BlockSlot| !self.is_slot_of(nth, slot),
            },
    {
        let mut rest: usize = nth;
        let mut i: usize = 0;
        while i < self.bufs.len()
            invariant
                i <= self.bufs@.len(),
                rest <= nth,
                nth - rest == blocks_before(self.sizes(), i as int),
                forall|slot: BlockSlot| slot.buf < i ==> !self.is_slot_of(nth, slot),
            decreases self.bufs@.len() - i,
        {
            let nblocks: usize = self.bufs[i];
            if rest >= nblocks {
                proof {
                    lemma_blocks_before_monotonic(self.sizes(), i as int + 1);
                }
                rest -= nblocks;
            } else {
                if rest >= usize::MAX / BLOCK_SIZE {
                    proof {
                        assert forall|slot: BlockSlot| !self.is_slot_of(nth, slot) by {
                            if self.is_slot_of(nth, slot) {
                                lemma_slot_unique(self.sizes(), nth as int, slot.buf as int, i as int);
                            }
                        }
                    }
                    return None;
                }
                let start: usize = rest * BLOCK_SIZE;
                return Some(BlockSlot { buf: i, start, end: start + BLOCK_SIZE });
            }
            i += 1;
        }
        proof {
            assert forall|slot: BlockSlot| !self.is_slot_of(nth, slot) by {}
        }
        None
    }
}

/// The blocks before a buffer are at least those before any earlier one.
pub proof fn lemma_blocks_before_monotonic(s: Seq<usize>, k: int)
    ensures
        forall|j: int| j <= k ==> blocks_before(s, j) <= blocks_before(s, k),
        blocks_before(s, k) >= 0,
    decreases k,
{
    if k > 0 {
        lemma_blocks_before_monotonic(s, k - 1);
        assert forall|j: int| j <= k implies blocks_before(s, j) <= blocks_before(s, k) by {
            if j < k {
                assert(blocks_before(s, j) <= blocks_before(s, k - 1));
            }
        }
    } else {
        assert forall|j: int| j <= k implies blocks_before(s, j) <= blocks_before(s, k) by {}
    }
}

/// A block lies in one buffer only.
pub proof fn lemma_slot_unique(s: Seq<usize>, nth: int, a: int, b: int)
    requires
        0 <= a < s.len(),
        0 <= b < s.len(),
        blocks_before(s, a) <= nth < blocks_before(s, a) + s[a],
        blocks_before(s, b) <= nth < blocks_before(s, b) + s[b],
    ensures
        a == b,
{
    if a < b {
        lemma_blocks_before_monotonic(s, b);
        assert(blocks_before(s, a + 1) <= blocks_before(s, b));
    } else if b < a {
        lemma_blocks_before_monotonic(s, a);
        assert(blocks_before(s, b + 1) <= blocks_before(s, a));
    }
}

/// The levels of the index.
#[derive(Clone, Copy, Debug, PartialEq, Eq, Structural)]
pub enum LsmLevel {
    L0,
    L1,
    L2,
    L3,
    L4,
    L5,
}

/// The kinds of transaction of the index.
#[derive(Clone, Copy, Debug, PartialEq, Eq, Structural)]
pub enum TxType {
    /// A compaction into `to_level`; into `L0` it is a minor compaction.
    Compaction { to_level: LsmLevel },
    /// A migration of records.
    Migration,
}

impl TxType {
    /// Whether this is a compaction into the first level.
    pub open spec fn is_minor(self) -> bool {
        self == (TxType::Compaction { to_level: LsmLevel::L0 })
    }
}

/// Makes the listener of each transaction of the index.
pub struct TxLsmTreeListenerFactory {}

impl TxLsmTreeListenerFactory {
    pub fn new() -> TxLsmTreeListenerFactory {
        TxLsmTreeListenerFactory {  }
    }

    /// A listener for a transaction of kind `tx_type`, with no change
    /// recorded yet.
    pub fn new_event_listener(&self, tx_type: TxType) -> (l: TxLsmTreeListener)
        ensures
            l.wf(),
            l.tx_type() == tx_type,
            l.diffs() == Seq::<DiffEntry>::empty(),
    {
        TxLsmTreeListener::new(tx_type, BlockAlloc::new())
    }
}

/// Follows one transaction of the index and records what it does to the
/// validity of host blocks.
pub struct TxLsmTreeListener {
    tx_type: TxType,
    block_alloc: BlockAlloc,
}

impl TxLsmTreeListener {
    pub closed spec fn tx_type(&self) -> TxType {
        self.tx_type
    }

    /// The changes recorded so far.
    pub closed spec fn diffs(&self) -> Seq<DiffEntry> {
        self.block_alloc@
    }

    pub closed spec fn wf(&self) -> bool {
        self.block_alloc.wf()
    }

    /// The changes of a well-formed listener are ordered by block and hold
    /// no invalid change.
    pub proof fn lemma_wf(&self)
        requires
            self.wf(),
        ensures
            crate::block_alloc::strictly_ascending(self.diffs()),
            forall|k: int|
                0 <= k < self.diffs().len() ==> (#[trigger] self.diffs()[k]).diff
                    != AllocDiff::Invalid,
    {
    }

    /// A listener for a transaction of kind `tx_type` that records into
    /// `block_alloc`.
    pub fn new(tx_type: TxType, block_alloc: BlockAlloc) -> (l: TxLsmTreeListener)
        requires
            block_alloc.wf(),
        ensures
            l.wf(),
            l.tx_type() == tx_type,
            l.diffs() == block_alloc@,
    {
        TxLsmTreeListener { tx_type, block_alloc }
    }

    /// The record of changes.
    pub fn block_alloc(&self) -> (b: &BlockAlloc)
        ensures
            b@ == self.diffs(),
            b.wf() == self.wf(),
    {
        &self.block_alloc
    }

    /// A record was added to the index. A minor compaction records the
    /// allocation of its block; the other transactions add no new blocks.
    pub fn on_add_record(&mut self, record: &Record) -> (r: Result<(), Error>)
        requires
            old(self).wf(),
        ensures
            r is Ok,
            final(self).wf(),
            final(self).tx_type() == old(self).tx_type(),
            final(self).diffs() == if old(self).tx_type().is_minor() {
                put(
                    old(self).diffs(),
                    DiffEntry { hba: record.value_spec().hba, diff: AllocDiff::Alloc },
                )
            } else {
                old(self).diffs()
            },
    {
        match self.tx_type {
            TxType::Compaction { to_level: LsmLevel::L0 } => self.block_alloc.alloc_block(
                record.value().hba,
            ),
            _ => Ok(()),
        }
    }

    /// A record was dropped from the index by a major compaction or a
    /// migration. Where garbage collection has reclaimed its block already,
    /// the mark is cleared and the block is left alone; else the
    /// deallocation of the block is recorded. A minor compaction drops no
    /// record.
    pub fn on_drop_record(&mut self, record: &Record, dealloc_table: &mut DeallocTable) -> (r:
        Result<(), Error>)
        requires
            old(self).wf(),
            !old(self).tx_type().is_minor(),
            old(dealloc_table).wf(),
            record.value_spec().hba < old(dealloc_table)@.len(),
        ensures
            r is Ok,
            final(self).wf(),
            final(dealloc_table).wf(),
            final(self).tx_type() == old(self).tx_type(),
            old(dealloc_table)@[record.value_spec().hba as int] ==> final(self).diffs() == old(
                self,
            ).diffs() && final(dealloc_table)@ == old(dealloc_table)@.update(
                record.value_spec().hba as int,
                false,
            ),
            !old(dealloc_table)@[record.value_spec().hba as int] ==> final(dealloc_table)@ == old(
                dealloc_table,
            )@ && final(self).diffs() == put(
                old(self).diffs(),
                DiffEntry { hba: record.value_spec().hba, diff: AllocDiff::Dealloc },
            ),
    {
        let hba = record.value().hba;
        if dealloc_table.has_deallocated(hba) {
            dealloc_table.finish_deallocated(hba);
            return Ok(());
        }
        self.block_alloc.dealloc_block(hba)
    }

    /// The transaction began.
    pub fn on_tx_begin(&self) -> (r: Result<(), Error>)
        ensures
            r is Ok,
    {
        self.block_alloc.prepare_diff_log()
    }

    /// The transaction is about to commit: the buffers to append to a fresh
    /// allocation log within it, none where nothing was recorded.
    pub fn on_tx_precommit(&self) -> (chunks: Vec<Vec<u8>>)
        ensures
            self.diffs().len() == 0 ==> chunks@.len() == 0,
            self.diffs().len() > 0 ==> chunks@.len() > 0 && flatten(chunks@) == diff_stream(
                self.diffs(),
                0,
            ),
            forall|k: int|
                0 <= k < chunks@.len() ==> 0 < (#[trigger] chunks@[k])@.len() <= MAX_BUF_SIZE
                    && chunks@[k]@.len() % (BLOCK_SIZE as nat) == 0,
    {
        self.block_alloc.update_diff_log()
    }

    /// The transaction committed: the recorded deallocations reach the
    /// validity table. Returns whether enough blocks are free to wake a
    /// waiting allocation.
    pub fn on_tx_commit(&self, alloc_table: &mut AllocTable) -> (notify: bool)
        requires
            self.wf(),
            old(alloc_table).wf(),
            forall|k: int| 0 <= k < self.diffs().len() ==> (#[trigger] self.diffs()[k]).hba < old(
                alloc_table,
            )@.bitmap.len(),
            old(alloc_table)@.num_free + self.diffs().len() <= usize::MAX,
        ensures
            final(alloc_table).wf(),
            final(alloc_table)@ == old(alloc_table)@.after_commit(self.diffs()),
            notify == (old(alloc_table)@.num_free + crate::block_alloc::deallocated(
                self.diffs(),
            ).len() >= AVG_ALLOC_COUNT),
    {
        self.block_alloc.update_alloc_table(alloc_table)
    }
}

/// A record was dropped from the index while still in memory: where garbage
/// collection has reclaimed its block already, the mark is cleared and the
/// block is left alone; else the block becomes free at once. Returns whether
/// enough blocks are free to wake a waiting allocation.
pub fn on_drop_record_in_memtable(
    record: &Record,
    dealloc_table: &mut DeallocTable,
    alloc_table: &mut AllocTable,
) -> (notify: bool)
    requires
        old(dealloc_table).wf(),
        old(alloc_table).wf(),
        record.value_spec().hba < old(dealloc_table)@.len(),
        record.value_spec().hba < old(alloc_table)@.bitmap.len(),
        old(alloc_table)@.num_free < usize::MAX,
    ensures
        final(dealloc_table).wf(),
        final(alloc_table).wf(),
        old(dealloc_table)@[record.value_spec().hba as int] ==> !notify && final(alloc_table)@
            == old(alloc_table)@ && final(dealloc_table)@ == old(dealloc_table)@.update(
            record.value_spec().hba as int,
            false,
        ),
        !old(dealloc_table)@[record.value_spec().hba as int] ==> final(dealloc_table)@ == old(
            dealloc_table,
        )@ && final(alloc_table)@ == (AllocTableView {
            bitmap: old(alloc_table)@.bitmap.update(record.value_spec().hba as int, true),
            segments: seg_dealloc(old(alloc_table)@.segments, record.value_spec().hba as int),
            num_free: old(alloc_table)@.num_free + 1,
            ..old(alloc_table)@
        }) && notify == (old(alloc_table)@.num_free + 1 >= AVG_ALLOC_COUNT),
{
    let hba = record.value().hba;
    if dealloc_table.has_deallocated(hba) {
        dealloc_table.finish_deallocated(hba);
        return false;
    }
    alloc_table.set_deallocated(hba)
}

/// A range of blocks of the host disk.
#[derive(Clone, Copy, Debug, PartialEq, Eq, Structural)]
pub struct BlockRange {
    pub start: usize,
    pub end: usize,
}

/// Where the first fifteen sixteenths of `nblocks` blocks end.
pub open spec fn data_end(nblocks: usize) -> usize {
    (nblocks * 15 / 16) as usize
}

/// Where the first thirty-one thirty-seconds of `nblocks` blocks end.
pub open spec fn index_end(nblocks: usize) -> usize {
    (nblocks * 31 / 32) as usize
}

/// The options in force for a disk: those given, else the defaults.
pub open spec fn effective_config(config: Option<Config>) -> Config {
    match config {
        Some(c) => c,
        None => Config {
            cache_size: usize::MAX,
            two_level_caching: true,
            delayed_reclamation: true,
            stat_waf: false,
            stat_cost: false,
            enable_gc: false,
            victim_policy: None,
        },
    }
}

/// The state of a disk that was just created or opened over the validity
/// table `alloc`: nothing buffered, no block marked, nothing under way.
pub open spec fn opened_view(alloc: AllocTableView, config: Config, enable_gc: bool) -> DiskView {
    DiskView {
        buffered: Seq::empty(),
        capacity: crate::inner::DATA_BUF_CAP,
        alloc,
        marks: Seq::new(alloc.bitmap.len(), |i: int| false),
        gc_in_progress: false,
        compaction_in_progress: false,
        active: true,
        dropped: false,
        config,
        reverse: enable_gc,
        logical_bytes: 0,
    }
}

/// The secure block device.
pub struct SwornDisk {
    inner: DiskInner,
}

impl View for SwornDisk {
    type V = DiskView;

    closed spec fn view(&self) -> DiskView {
        self.inner@
    }
}

impl SwornDisk {
    pub closed spec fn wf(&self) -> bool {
        self.inner.wf()
    }

    fn fraction(nblocks: usize, numer: u8, denom: u8) -> (r: usize)
        requires
            0 < numer <= denom,
        ensures
            r == nblocks * numer / (denom as int),
            r <= nblocks,
    {
        proof {
            assert((nblocks as u128) * (numer as u128) <= 0xffff_ffff_ffff_ffff * 0xff)
                by (nonlinear_arith)
                requires
                    nblocks <= 0xffff_ffff_ffff_ffff,
                    numer <= 0xff,
            ;
        }
        let wide: u128 = (nblocks as u128) * (numer as u128) / (denom as u128);
        proof {
            assert(nblocks * numer / (denom as int) <= nblocks) by (nonlinear_arith)
                requires
                    0 < numer <= denom,
            ;
        }
        wide as usize
    }

    /// The part of a host disk of `nblocks` blocks that holds user data:
    /// its first fifteen sixteenths.
    pub fn subdisk_for_data(nblocks: usize) -> (r: BlockRange)
        ensures
            r == (BlockRange { start: 0, end: data_end(nblocks) }),
    {
        BlockRange { start: 0, end: Self::fraction(nblocks, 15, 16) }
    }

    /// The part of a host disk of `nblocks` blocks that holds the log store
    /// of the forward index: from fifteen sixteenths up to thirty-one
    /// thirty-seconds.
    pub fn subdisk_for_logical_block_table(nblocks: usize) -> (r: BlockRange)
        ensures
            r == (BlockRange { start: data_end(nblocks), end: index_end(nblocks) }),
            r.start <= r.end,
    {
        proof {
            assert(nblocks * 15 / 16 <= nblocks * 31 / 32) by (nonlinear_arith);
        }
        BlockRange {
            start: Self::fraction(nblocks, 15, 16),
            end: Self::fraction(nblocks, 31, 32),
        }
    }

    /// The part of a host disk of `nblocks` blocks that holds the log store
    /// of the reverse index: the last thirty-second.
    pub fn subdisk_for_reverse_index_table(nblocks: usize) -> (r: BlockRange)
        ensures
            r == (BlockRange { start: index_end(nblocks), end: nblocks }),
            r.start <= r.end,
    {
        BlockRange { start: Self::fraction(nblocks, 31, 32), end: nblocks }
    }

    /// A new disk on a host disk of `disk_nblocks` blocks: every block of
    /// the data region free, nothing buffered.
    pub fn create(disk_nblocks: usize, config: Option<Config>, enable_gc: bool) -> (d: SwornDisk)
        requires
            data_end(disk_nblocks) > 0,
        ensures
            d.wf(),
            d@ == opened_view(
                AllocTable::new_view(data_end(disk_nblocks), effective_config(config).enable_gc),
                effective_config(config),
                enable_gc,
            ),
    {
        let config = match config {
            Some(c) => c,
            None => Config::default(),
        };
        let data = Self::subdisk_for_data(disk_nblocks);
        let table = AllocTable::new(data.end, config.enable_gc);
        SwornDisk { inner: DiskInner::new(table, config, enable_gc) }
    }

    /// The disk that was persisted on a host disk of `disk_nblocks` blocks,
    /// given what the log store returned for the validity-table log, for the
    /// allocation logs in the order of their ids and for the segment-table
    /// log. Fails with `TxAborted` where the validity table cannot be
    /// recovered.
    pub fn open(
        disk_nblocks: usize,
        config: Option<Config>,
        enable_gc: bool,
        bvt_log: Result<Vec<u8>, Error>,
        bal_logs: Result<Vec<Result<Vec<u8>, Error>>, Error>,
        seg_log: Result<Vec<u8>, Error>,
    ) -> (r: Result<SwornDisk, Error>)
        requires
            data_end(disk_nblocks) > 0,
        ensures
            match recovered(
                data_end(disk_nblocks),
                effective_config(config).enable_gc,
                bvt_log,
                bal_logs,
                seg_log,
            ) {
                Some(v) => r is Ok && r->Ok_0.wf() && r->Ok_0@ == opened_view(
                    v,
                    effective_config(config),
                    enable_gc,
                ),
                None => r is Err && r->Err_0.kind() == Errno::TxAborted,
            },
    {
        let config = match config {
            Some(c) => c,
            None => Config::default(),
        };
        let data = Self::subdisk_for_data(disk_nblocks);
        match AllocTable::recover(data.end, config.enable_gc, bvt_log, bal_logs, seg_log) {
            Ok(table) => Ok(SwornDisk { inner: DiskInner::new(table, config, enable_gc) }),
            Err(e) => Err(e),
        }
    }

    /// The engine of the disk.
    pub fn inner(&self) -> (i: &DiskInner)
        ensures
            i@ == self@,
            i.wf() == self.wf(),
    {
        &self.inner
    }

    /// The engine of the disk, to take its steps.
    pub fn inner_mut(&mut self) -> (i: &mut DiskInner)
        ensures
            *i == old(self).inner_spec(),
            *final(i) == final(self).inner_spec(),
    {
        &mut self.inner
    }

    /// The engine of the disk, as a specification value.
    pub closed spec fn inner_spec(&self) -> DiskInner {
        self.inner
    }

    /// The disk is well-formed when its engine is, and shows its engine's
    /// state.
    pub proof fn lemma_inner(&self)
        ensures
            self.wf() == self.inner_spec().wf(),
            self@ == self.inner_spec()@,
    {
    }

    /// The engine of the disk, by value.
    pub fn into_inner(self) -> (i: DiskInner)
        ensures
            i@ == self@,
            i.wf() == self.wf(),
    {
        self.inner
    }

    /// The disk around an engine.
    pub fn from_inner(inner: DiskInner) -> (d: SwornDisk)
        ensures
            d@ == inner@,
            d.wf() == inner.wf(),
    {
        SwornDisk { inner }
    }

    /// The number of blocks of the device.
    pub fn total_blocks(&self) -> (n: usize)
        requires
            self.wf(),
        ensures
            n == self@.alloc.bitmap.len(),
    {
        self.inner.total_blocks()
    }

    /// Whether `buf_nblocks` blocks from `lba` on lie within the device:
    /// `OutOfDisk` where they do not.
    pub fn check_rw_args(&self, lba: Lba, buf_nblocks: usize) -> (r: Result<(), Error>)
        requires
            self.wf(),
        ensures
            r is Ok <==> lba + buf_nblocks <= self@.alloc.bitmap.len(),
            r is Err ==> r->Err_0.kind() == Errno::OutOfDisk,
    {
        let total = self.inner.total_blocks();
        if lba > total || buf_nblocks > total - lba {
            Err(Error::with_msg(Errno::OutOfDisk, "read/write out of disk capacity"))
        } else {
            Ok(())
        }
    }

    /// What the buffer holds of the `nblocks` blocks from `lba` on, and
    /// which of them have to be read from the host disk. `OutOfDisk` where
    /// the blocks do not lie within the device.
    pub fn read(&self, lba: Lba, nblocks: usize) -> (r: Result<MultiRead<'_>, Error>)
        requires
            self.wf(),
        ensures
            r is Ok <==> lba + nblocks <= self@.alloc.bitmap.len(),
            r is Err ==> r->Err_0.kind() == Errno::OutOfDisk,
            r is Ok ==> found(self@.buffered, lba, nblocks as int, r->Ok_0),
    {
        match self.check_rw_args(lba, nblocks) {
            Ok(_) => {
                proof {
                    self.inner.lemma_wf();
                }
                Ok(self.inner.read(lba, nblocks))
            },
            Err(e) => Err(e),
        }
    }

    /// Buffers the blocks of `buf` from block `done` on at the addresses
    /// from `lba + done` on, and stops after the block that fills the buffer.
    /// `OutOfDisk`, and nothing buffered, where the blocks of `buf` do not lie
    /// within the device.
    pub fn write(&mut self, lba: Lba, buf: &[u8], done: usize) -> (r: Result<WriteProgress, Error>)
        requires
            old(self).wf(),
            buf@.len() % (BLOCK_SIZE as nat) == 0,
            done <= buf@.len() / (BLOCK_SIZE as nat),
        ensures
            final(self).wf(),
            r is Ok <==> lba + buf@.len() / (BLOCK_SIZE as nat) <= old(self)@.alloc.bitmap.len(),
            r is Err ==> r->Err_0.kind() == Errno::OutOfDisk && final(self)@ == old(self)@,
            r is Ok ==> done <= r->Ok_0.consumed <= buf@.len() / (BLOCK_SIZE as nat) && final(self)@.buffered == buffer_after(
                old(self)@.buffered,
                lba,
                buf@,
                done as int,
                r->Ok_0.consumed as int,
            ) && r->Ok_0.flush == (r->Ok_0.consumed > done && final(self)@.buffered.len() >= old(
                self,
            )@.capacity) && (r->Ok_0.consumed < buf@.len() / (BLOCK_SIZE as nat)
                ==> r->Ok_0.flush) && final(self)@.alloc == old(self)@.alloc,
    {
        match self.check_rw_args(lba, buf.len() / BLOCK_SIZE) {
            Ok(_) => {
                proof {
                    self.inner.lemma_wf();
                }
                Ok(self.inner.write(lba, buf, done))
            },
            Err(e) => Err(e),
        }
    }

    /// What a sync has to persist once the buffer is flushed.
    pub fn sync(&self) -> (r: Result<Option<Snapshot>, Error>)
        requires
            self.wf(),
            self@.buffered.len() == 0,
        ensures
            !self@.snapshot_due() ==> r is Ok && r->Ok_0 is None,
            self@.snapshot_due() ==> (r is Ok <==> self.inner_spec().table().bitmap_bytes().len()
                <= crate::block_alloc::BITMAP_MAX_SIZE && (self@.alloc.segments is Some
                ==> crate::segment::slots_fit(self@.alloc.segments->0))),
            self@.snapshot_due() && r is Ok ==> r->Ok_0 is Some && r->Ok_0->0.bitmap@
                == crate::block_alloc::padded(self.inner_spec().table().bitmap_bytes())
                && match r->Ok_0->0.segments {
                Some(bytes) => self@.alloc.segments is Some && bytes@
                    == crate::block_alloc::padded(
                    crate::segment::segment_slots(self@.alloc.segments->0),
                ),
                None => self@.alloc.segments is None,
            },
            r is Err ==> r->Err_0.kind() == Errno::InvalidArgs,
    {
        self.inner.sync()
    }
}

impl SwornDisk {
    /// What the buffer holds of the blocks of a scattered read from `lba`
    /// on, and which of them have to be read from the host disk.
    /// `OutOfDisk` where the blocks do not lie within the device.
    pub fn readv(&self, lba: Lba, bufs: &BufMutVec) -> (r: Result<MultiRead<'_>, Error>)
        requires
            self.wf(),
        ensures
            r is Ok <==> lba + bufs.total() <= self@.alloc.bitmap.len(),
            r is Err ==> r->Err_0.kind() == Errno::OutOfDisk,
            r is Ok ==> found(self@.buffered, lba, bufs.total() as int, r->Ok_0),
    {
        match self.check_rw_args(lba, bufs.nblocks()) {
            Ok(_) => {
                proof {
                    self.inner.lemma_wf();
                }
                Ok(self.inner.readv(lba, bufs))
            },
            Err(e) => Err(e),
        }
    }

    /// Buffers the blocks of the scattered buffers `bufs`, whose first
    /// block goes to the address `lba`, from block `done` of buffer `at` on,
    /// and stops after the block that fills the buffer. `OutOfDisk`, and
    /// nothing buffered, where the blocks of `bufs` do not lie within the
    /// device.
    pub fn writev(&mut self, lba: Lba, bufs: &Vec<Vec<u8>>, at: usize, done: usize) -> (r:
        Result<WritevProgress, Error>)
        requires
            old(self).wf(),
            whole_blocks(bufs@),
            at <= bufs@.len(),
            at < bufs@.len() ==> done <= bufs@[at as int]@.len() / (BLOCK_SIZE as nat),
        ensures
            final(self).wf(),
            r is Ok <==> lba + nblocks_before(bufs@, bufs@.len() as int) <= old(
                self,
            )@.alloc.bitmap.len(),
            r is Err ==> r->Err_0.kind() == Errno::OutOfDisk && final(self)@ == old(self)@,
            r is Ok ==> at <= r->Ok_0.at <= bufs@.len() && (r->Ok_0.at == bufs@.len()
                ==> !r->Ok_0.progress.flush && final(self)@.buffered == written_v(
                old(self)@.buffered,
                addr_of_buf(lba, bufs@, 0, at as int),
                bufs@,
                at as int,
                done as int,
                bufs@.len() as int,
            )) && (r->Ok_0.at < bufs@.len() ==> r->Ok_0.progress.flush && final(self)@.buffered
                == buffer_after(
                written_v(
                    old(self)@.buffered,
                    addr_of_buf(lba, bufs@, 0, at as int),
                    bufs@,
                    at as int,
                    done as int,
                    r->Ok_0.at as int,
                ),
                addr_of_buf(addr_of_buf(lba, bufs@, 0, at as int), bufs@, at as int, r->Ok_0.at as int),
                bufs@[r->Ok_0.at as int]@,
                resume_at(at as int, done as int, r->Ok_0.at as int),
                r->Ok_0.progress.consumed as int,
            )),
    {
        proof {
            self.inner.lemma_wf();
        }
        let total = match count_blocks(bufs, bufs.len()) {
            Some(total) => total,
            None => {
                return Err(Error::with_msg(Errno::OutOfDisk, "read/write out of disk capacity"));
            },
        };
        match self.check_rw_args(lba, total) {
            Ok(_) => {},
            Err(e) => {
                return Err(e);
            },
        }
        proof {
            self.inner.lemma_wf();
            crate::inner::lemma_nblocks_before(bufs@, 0, at as int);
            crate::inner::lemma_nblocks_before(bufs@, at as int, bufs@.len() as int);
        }
        let before = match count_blocks(bufs, at) {
            Some(before) => before,
            None => {
                return Err(Error::with_msg(Errno::OutOfDisk, "read/write out of disk capacity"));
            },
        };
        Ok(self.inner.writev(lba + before, bufs, at, done))
    }

    /// What serving the request `req` does next, for a write from block
    /// `done` of buffer `at` on. `None` where the blocks of the request
    /// cannot be addressed.
    pub fn submit_bio_sync(&mut self, req: &BioReq, at: usize, done: usize) -> (step: Option<
        BioStep<'_>,
    >)
        requires
            old(self).wf(),
            whole_blocks(req.buffers()),
            at <= req.buffers().len(),
            at < req.buffers().len() ==> done <= req.buffers()[at as int]@.len() / (
            BLOCK_SIZE as nat),
        ensures
            final(self).wf(),
            step is Some <==> req.address() + nblocks_before(
                req.buffers(),
                req.buffers().len() as int,
            ) <= usize::MAX,
            step is None ==> final(self)@ == old(self)@,
            step is Some ==> crate::inner::served(
                old(self)@,
                final(self)@,
                *req,
                at as int,
                done as int,
                step->0,
            ),
    {
        let total = match count_blocks(req.bufs(), req.nbufs()) {
            Some(total) => total,
            None => {
                return None;
            },
        };
        if total > usize::MAX - req.addr() {
            return None;
        }
        Some(self.inner.handle_bio_req(req, at, done))
    }
}

} // verus!
