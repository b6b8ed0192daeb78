//! Counters of the time spent in each part of the disk layer and of the
//! index layer, in cycles of a clock that the caller reads.
use vstd::prelude::*;

use crate::waf_stats::wrap_add_u64;

verus! {

/// The parts of the disk layer whose time is measured.
#[derive(Debug, Clone, Copy, PartialEq, Eq, Structural)]
pub enum CostL3Type {
    LogicalBlockTable,
    BlockIO,
    Encryption,
    Allocation,
}

/// The parts of the index layer whose time is measured.
#[derive(Debug, Clone, Copy, PartialEq, Eq, Structural)]
pub enum CostL2Type {
    WAL,
    MemTable,
    Compaction,
    SSTableLookup,
}

/// A measurement under way: when it began.
#[derive(Debug, Clone, Copy)]
pub struct CostTimer {
    start: u64,
}

impl CostTimer {
    pub closed spec fn started_at(&self) -> u64 {
        self.start
    }

    /// A measurement that begins at `now`.
    pub fn new(now: u64) -> (t: CostTimer)
        ensures
            t.started_at() == now,
    {
        CostTimer { start: now }
    }

    /// The cycles between the start and `now`; none where the clock went
    /// back.
    pub open spec fn elapsed_spec(&self, now: u64) -> u64 {
        if now >= self.started_at() {
            (now - self.started_at()) as u64
        } else {
            0
        }
    }

    /// The cycles between the start and `now`; none where the clock went
    /// back.
    pub fn elapsed(&self, now: u64) -> (cycles: u64)
        ensures
            cycles == self.elapsed_spec(now),
    {
        now.saturating_sub(self.start)
    }
}

/// The cycles spent in each part of the disk layer.
#[derive(Debug, Clone, Copy, PartialEq, Eq, Structural)]
pub struct CostL3Stats {
    pub logical_block_table: u64,
    pub block_io: u64,
    pub encryption: u64,
    pub allocation: u64,
    pub total: u64,
}

/// The cycles spent in each part of the index layer.
#[derive(Debug, Clone, Copy, PartialEq, Eq, Structural)]
pub struct CostL2Stats {
    pub wal: u64,
    pub memtable: u64,
    pub compaction: u64,
    pub sstable_lookup: u64,
    pub total: u64,
}

/// The counters of the disk layer. Each wraps around.
pub struct CostL3 {
    logical_block_table: u64,
    block_io: u64,
    encryption: u64,
    allocation: u64,
}

impl CostL3 {
    /// The cycles counted for `op_type`.
    pub closed spec fn cycles(&self, op_type: CostL3Type) -> u64 {
        match op_type {
            CostL3Type::LogicalBlockTable => self.logical_block_table,
            CostL3Type::BlockIO => self.block_io,
            CostL3Type::Encryption => self.encryption,
            CostL3Type::Allocation => self.allocation,
        }
    }

    /// The cycles counted over all parts.
    pub open spec fn sum(&self) -> int {
        self.cycles(CostL3Type::LogicalBlockTable) + self.cycles(CostL3Type::BlockIO)
            + self.cycles(CostL3Type::Encryption) + self.cycles(CostL3Type::Allocation)
    }

    /// Counters at zero.
    pub fn new() -> (c: CostL3)
        ensures
            forall|t: CostL3Type| c.cycles(t) == 0,
    {
        CostL3 { logical_block_table: 0, block_io: 0, encryption: 0, allocation: 0 }
    }

    /// Begins a measurement at `now`.
    pub fn time(&self, op_type: CostL3Type, now: u64) -> (t: CostTimer)
        ensures
            t.started_at() == now,
    {
        CostTimer::new(now)
    }

    /// Ends the measurement `timer` at `now` and counts its cycles for
    /// `op_type`.
    pub fn record(&mut self, op_type: CostL3Type, timer: CostTimer, now: u64)
        ensures
            forall|t: CostL3Type|
                final(self).cycles(t) == if t == op_type {
                    wrap_add_u64(old(self).cycles(t), timer.elapsed_spec(now))
                } else {
                    old(self).cycles(t)
                },
    {
        let cycles = timer.elapsed(now);
        match op_type {
            CostL3Type::LogicalBlockTable => {
                self.logical_block_table = self.logical_block_table.wrapping_add(cycles);
            },
            CostL3Type::BlockIO => {
                self.block_io = self.block_io.wrapping_add(cycles);
            },
            CostL3Type::Encryption => {
                self.encryption = self.encryption.wrapping_add(cycles);
            },
            CostL3Type::Allocation => {
                self.allocation = self.allocation.wrapping_add(cycles);
            },
        }
    }

    /// The counters and their sum.
    pub fn get_stats(&self) -> (s: CostL3Stats)
        requires
            self.sum() <= u64::MAX,
        ensures
            s.logical_block_table == self.cycles(CostL3Type::LogicalBlockTable),
            s.block_io == self.cycles(CostL3Type::BlockIO),
            s.encryption == self.cycles(CostL3Type::Encryption),
            s.allocation == self.cycles(CostL3Type::Allocation),
            s.total == self.sum(),
    {
        let total = self.logical_block_table + self.block_io + self.encryption + self.allocation;
        CostL3Stats {
            logical_block_table: self.logical_block_table,
            block_io: self.block_io,
            encryption: self.encryption,
            allocation: self.allocation,
            total,
        }
    }

    /// Whether the counters can be added up without overflow.
    pub fn can_sum(&self) -> (b: bool)
        ensures
            b == (self.sum() <= u64::MAX),
    {
        let a: u128 = self.logical_block_table as u128 + self.block_io as u128;
        let b: u128 = self.encryption as u128 + self.allocation as u128;
        a + b <= 0xffff_ffff_ffff_ffff
    }

    /// Sets every counter to zero.
    pub fn reset(&mut self)
        ensures
            forall|t: CostL3Type| final(self).cycles(t) == 0,
    {
        self.logical_block_table = 0;
        self.block_io = 0;
        self.encryption = 0;
        self.allocation = 0;
    }
}

/// The counters of the index layer. Each wraps around.
pub struct CostL2 {
    wal: u64,
    memtable: u64,
    compaction: u64,
    sstable_lookup: u64,
}

impl CostL2 {
    /// The cycles counted for `op_type`.
    pub closed spec fn cycles(&self, op_type: CostL2Type) -> u64 {
        match op_type {
            CostL2Type::WAL => self.wal,
            CostL2Type::MemTable => self.memtable,
            CostL2Type::Compaction => self.compaction,
            CostL2Type::SSTableLookup => self.sstable_lookup,
        }
    }

    /// The cycles counted over all parts.
    pub open spec fn sum(&self) -> int {
        self.cycles(CostL2Type::WAL) + self.cycles(CostL2Type::MemTable) + self.cycles(
            CostL2Type::Compaction,
        ) + self.cycles(CostL2Type::SSTableLookup)
    }

    /// Counters at zero.
    pub fn new() -> (c: CostL2)
        ensures
            forall|t: CostL2Type| c.cycles(t) == 0,
    {
        CostL2 { wal: 0, memtable: 0, compaction: 0, sstable_lookup: 0 }
    }

    /// Begins a measurement at `now`.
    pub fn time(&self, op_type: CostL2Type, now: u64) -> (t: CostTimer)
        ensures
            t.started_at() == now,
    {
        CostTimer::new(now)
    }

    /// Ends the measurement `timer` at `now` and counts its cycles for
    /// `op_type`.
    pub fn record(&mut self, op_type: CostL2Type, timer: CostTimer, now: u64)
        ensures
            forall|t: CostL2Type|
                final(self).cycles(t) == if t == op_type {
                    wrap_add_u64(old(self).cycles(t), timer.elapsed_spec(now))
                } else {
                    old(self).cycles(t)
                },
    {
        let cycles = timer.elapsed(now);
        match op_type {
            CostL2Type::WAL => {
                self.wal = self.wal.wrapping_add(cycles);
            },
            CostL2Type::MemTable => {
                self.memtable = self.memtable.wrapping_add(cycles);
            },
            CostL2Type::Compaction => {
                self.compaction = self.compaction.wrapping_add(cycles);
            },
            CostL2Type::SSTableLookup => {
                self.sstable_lookup = self.sstable_lookup.wrapping_add(cycles);
            },
        }
    }

    /// The counters and their sum.
    pub fn get_stats(&self) -> (s: CostL2Stats)
        requires
            self.sum() <= u64::MAX,
        ensures
            s.wal == self.cycles(CostL2Type::WAL),
            s.memtable == self.cycles(CostL2Type::MemTable),
            s.compaction == self.cycles(CostL2Type::Compaction),
            s.sstable_lookup == self.cycles(CostL2Type::SSTableLookup),
            s.total == self.sum(),
    {
        let total = self.wal + self.memtable + self.compaction + self.sstable_lookup;
        CostL2Stats {
            wal: self.wal,
            memtable: self.memtable,
            compaction: self.compaction,
            sstable_lookup: self.sstable_lookup,
            total,
        }
    }

    /// Whether the counters can be added up without overflow.
    pub fn can_sum(&self) -> (b: bool)
        ensures
            b == (self.sum() <= u64::MAX),
    {
        let a: u128 = self.wal as u128 + self.memtable as u128;
        let b: u128 = self.compaction as u128 + self.sstable_lookup as u128;
        a + b <= 0xffff_ffff_ffff_ffff
    }

    /// Sets every counter to zero.
    pub fn reset(&mut self)
        ensures
            forall|t: CostL2Type| final(self).cycles(t) == 0,
    {
        self.wal = 0;
        self.memtable = 0;
        self.compaction = 0;
        self.sstable_lookup = 0;
    }
}

} // verus!
