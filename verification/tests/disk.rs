//! The disk end to end, driven by a small shell that stands for the index,
//! the cipher, the log store and the host disk.
use std::collections::BTreeMap;

use sworndisk::bio::BLOCK_SIZE;
use sworndisk::config::Config;
use sworndisk::error::{Errno, Error};
use sworndisk::gc::{GreedyVictimPolicy, VictimPolicyRef};
use sworndisk::gc_worker::{GcWorker, Mapping, HeldRecord};
use sworndisk::block_alloc::AllocTable;
use sworndisk::inner::{DiskInner, FlushStep, IndexOp, Sealed};
use sworndisk::segment::SEGMENT_SIZE;
use sworndisk::sworndisk::{Record, RecordKey, RecordValue, SwornDisk};

struct Shell {
    disk: SwornDisk,
    host: BTreeMap<usize, Vec<u8>>,
    forward: BTreeMap<usize, RecordValue>,
    reverse: BTreeMap<usize, usize>,
    bvt: Option<Vec<u8>>,
    seg: Option<Vec<u8>>,
    seed: u64,
    runs_written: Vec<(usize, usize)>,
    nblocks: usize,
    enable_gc: bool,
}

fn next_key(seed: &mut u64) -> [u8; 16] {
    let mut key = [0u8; 16];
    for byte in key.iter_mut() {
        *seed = seed.wrapping_mul(6364136223846793005).wrapping_add(1442695040888963407);
        *byte = (*seed >> 33) as u8;
    }
    key
}

fn seal(plain: &[u8], key: &[u8; 16]) -> (Vec<u8>, [u8; 16]) {
    let cipher: Vec<u8> = plain.iter().enumerate().map(|(i, b)| b ^ key[i % 16]).collect();
    let mut mac = [0u8; 16];
    for (i, b) in plain.iter().enumerate() {
        mac[i % 16] = mac[i % 16].wrapping_add(*b).rotate_left(1);
    }
    (cipher, mac)
}

fn unseal(cipher: &[u8], key: &[u8; 16], mac: &[u8; 16]) -> Result<Vec<u8>, Error> {
    let plain: Vec<u8> = cipher.iter().enumerate().map(|(i, b)| b ^ key[i % 16]).collect();
    let (_, expected) = seal(&plain, key);
    if &expected == mac {
        Ok(plain)
    } else {
        Err(Error::new(Errno::IoFailed))
    }
}

impl Shell {
    fn create(nblocks: usize, enable_gc: bool) -> Shell {
        let config = Config { enable_gc, ..Config::default() };
        assert!(nblocks * 15 / 16 > 0);
        Shell {
            disk: SwornDisk::create(nblocks, Some(config), enable_gc),
            host: BTreeMap::new(),
            forward: BTreeMap::new(),
            reverse: BTreeMap::new(),
            bvt: None,
            seg: None,
            seed: 1,
            runs_written: Vec::new(),
            nblocks,
            enable_gc,
        }
    }

    fn reopen(self) -> Shell {
        let config = Config { enable_gc: self.enable_gc, ..Config::default() };
        let bvt = match &self.bvt {
            Some(bytes) => Ok(bytes.clone()),
            None => Err(Error::new(Errno::NotFound)),
        };
        let seg = match &self.seg {
            Some(bytes) => Ok(bytes.clone()),
            None => Err(Error::new(Errno::NotFound)),
        };
        let disk = SwornDisk::open(
            self.nblocks,
            Some(config),
            self.enable_gc,
            bvt,
            Err(Error::new(Errno::NotFound)),
            seg,
        )
        .unwrap();
        Shell { disk, runs_written: Vec::new(), ..self }
    }

    fn apply(&mut self, ops: Vec<IndexOp>) {
        for op in ops {
            match op {
                IndexOp::Touch(_) => {}
                IndexOp::Put(key, value) => {
                    if let Some(old) = self.forward.insert(key.lba, value) {
                        let dropped = Record::new(key, old);
                        self.disk.inner_mut().on_drop_record_in_memtable(&dropped);
                    }
                }
                IndexOp::PutReverse(key, value) => {
                    self.reverse.insert(key.hba, value.lba);
                }
            }
        }
    }

    fn flush(&mut self) -> Result<(), Error> {
        let mut retried = false;
        loop {
            match self.disk.inner_mut().flush_data_buf(retried) {
                FlushStep::WaitForGc => panic!("a collection is under way"),
                FlushStep::WaitForFree(n) => panic!("{} blocks are not free", n),
                FlushStep::Idle => break,
                FlushStep::Compact => {
                    retried = true;
                }
                FlushStep::Failed(e) => return Err(e),
                FlushStep::Write(plan) => {
                    let mut sealed = Vec::new();
                    {
                        let blocks = self.disk.inner().data_buf().all_blocks();
                        assert_eq!(blocks.len(), plan.hbas.len());
                        for run in plan.runs.iter() {
                            self.runs_written.push((plan.hbas[run.start], run.len));
                            for nth in run.start..run.start + run.len {
                                let key = next_key(&mut self.seed);
                                let (cipher, mac) = seal(blocks[nth].as_slice(), &key);
                                self.host.insert(plan.hbas[nth], cipher);
                                sealed.push(Sealed { key, mac });
                            }
                        }
                    }
                    let ops = self.disk.inner().finish_flush(&plan, &sealed);
                    self.apply(ops);
                    break;
                }
            }
        }
        self.disk.inner_mut().complete_flush();
        Ok(())
    }

    fn write(&mut self, lba: usize, buf: &[u8]) -> Result<(), Error> {
        assert_eq!(buf.len() % BLOCK_SIZE, 0);
        let nblocks = buf.len() / BLOCK_SIZE;
        let mut done = 0;
        loop {
            let progress = self.disk.write(lba, buf, done)?;
            done = progress.consumed;
            if progress.flush {
                self.flush()?;
            }
            if done == nblocks {
                return Ok(());
            }
        }
    }

    fn sync(&mut self) -> Result<(), Error> {
        self.flush()?;
        if let Some(snapshot) = self.disk.sync()? {
            self.bvt = Some(snapshot.bitmap);
            self.seg = snapshot.segments;
            self.disk.inner_mut().finish_sync();
        }
        Ok(())
    }

    fn read(&mut self, lba: usize, buf: &mut [u8]) -> Result<(), Error> {
        let nblocks = buf.len() / BLOCK_SIZE;
        let missing = {
            let found = self.disk.read(lba, nblocks)?;
            assert_eq!(found.hits.len(), found.hit_slots.len());
            for (block, slot) in found.hits.iter().zip(found.hit_slots.iter()) {
                buf[slot * BLOCK_SIZE..(slot + 1) * BLOCK_SIZE].copy_from_slice(block.as_slice());
            }
            found.missing
        };
        if missing.is_empty() {
            return Ok(());
        }
        assert!(self.disk.inner().wait_for_background_gc());
        let mut records = Vec::new();
        for l in missing.iter() {
            if let Some(value) = self.forward.get(l) {
                records.push(Record::new(RecordKey { lba: *l }, *value));
            }
        }
        let plan = DiskInner::plan_read(lba, nblocks, &missing, &records)?;
        for run in plan.runs.iter() {
            for nth in run.start..run.start + run.len {
                let record = &plan.records[nth];
                let cipher = self.host.get(&record.value().hba).unwrap();
                let plain = unseal(cipher, &record.value().key, &record.value().mac)?;
                let slot = plan.slots[nth];
                buf[slot * BLOCK_SIZE..(slot + 1) * BLOCK_SIZE].copy_from_slice(&plain);
            }
        }
        DiskInner::allow_empty_read(plan.outcome())
    }

    /// One pass of the collector; returns the victims it took.
    fn collect(&mut self, worker: &mut GcWorker) -> Vec<usize> {
        assert!(self.disk.inner().wait_for_compaction());
        self.disk.inner_mut().start_gc();
        let mut victims = Vec::new();
        loop {
            let victim = match self.disk.inner().next_victim(worker, victims.len()) {
                Some(victim) => victim,
                None => break,
            };
            victims.push(victim.segment_id());
            let current: Vec<Result<Mapping, Error>> = victim
                .blocks()
                .iter()
                .map(|hba| {
                    let lba = *self.reverse.get(hba).ok_or(Error::new(Errno::NotFound))?;
                    let value = self.forward.get(&lba).ok_or(Error::new(Errno::NotFound))?;
                    Ok(Mapping { lba, hba: value.hba })
                })
                .collect();
            let found = self.disk.inner().find_target_hbas(&victim, &current).unwrap();
            let mut victim_data = vec![0u8; SEGMENT_SIZE * BLOCK_SIZE];
            for nth in 0..SEGMENT_SIZE {
                if let Some(block) = self.host.get(&(victim.segment_id() * SEGMENT_SIZE + nth)) {
                    victim_data[nth * BLOCK_SIZE..(nth + 1) * BLOCK_SIZE].copy_from_slice(block);
                }
            }
            let writes = GcWorker::clean_and_migrate_data(&victim_data, &found.valid, &found.targets);
            for write in writes {
                for (nth, block) in write.data.chunks(BLOCK_SIZE).enumerate() {
                    self.host.insert(write.hba + nth, block.to_vec());
                }
            }
            let remapped = self.disk.inner_mut().finish_migration(victim.segment_id(), &found);
            let held: Vec<HeldRecord> = remapped
                .iter()
                .map(|r| {
                    let lba = self.reverse[&r.old_hba];
                    HeldRecord { lba, value: self.forward[&lba] }
                })
                .collect();
            let ops = self.disk.inner_mut().remap_index_batch(&remapped, &held);
            self.apply(ops);
        }
        self.disk.inner_mut().notify_gc_finished();
        victims
    }

    fn num_free(&self) -> usize {
        self.disk.inner().block_validity_table().num_free()
    }

    fn popcount(&self) -> usize {
        self.disk.inner().block_validity_table().bitmap().count_ones()
    }
}

fn block_of(value: u8) -> Vec<u8> {
    vec![value; BLOCK_SIZE]
}

#[test]
fn sworndisk_fns() {
    let nblocks = 128 * 1024;
    let mut shell = Shell::create(nblocks, false);
    let num_rw = 1024;

    let mut wbuf = vec![0u8; num_rw * BLOCK_SIZE];
    for i in 0..num_rw {
        wbuf[i * BLOCK_SIZE..(i + 1) * BLOCK_SIZE].fill(i as u8);
    }
    shell.write(0, &wbuf).unwrap();
    shell.sync().unwrap();

    let mut rbuf = vec![0u8; BLOCK_SIZE];
    for i in 0..num_rw {
        shell.read(i, &mut rbuf).unwrap();
        assert_eq!(rbuf[0], i as u8);
    }

    let mut opened = shell.reopen();
    let mut rbuf = vec![0u8; 2 * BLOCK_SIZE];
    opened.read(5, &mut rbuf).unwrap();
    assert_eq!(rbuf[0], 5u8);
    assert_eq!(rbuf[4096], 6u8);
}

#[test]
fn round_trip_reads_every_byte() {
    let mut shell = Shell::create(128 * 1024, false);
    let mut wbuf = vec![0u8; 1024 * BLOCK_SIZE];
    for i in 0..1024 {
        wbuf[i * BLOCK_SIZE..(i + 1) * BLOCK_SIZE].fill((i % 256) as u8);
    }
    shell.write(0, &wbuf).unwrap();
    // the blocks are still buffered: a read is served from the buffer
    let mut rbuf = vec![0u8; BLOCK_SIZE];
    shell.read(7, &mut rbuf).unwrap();
    assert_eq!(rbuf, block_of(7));
    shell.sync().unwrap();
    assert!(shell.disk.inner().data_buf().is_empty());
    let mut all = vec![0u8; 1024 * BLOCK_SIZE];
    shell.read(0, &mut all).unwrap();
    assert_eq!(all, wbuf);
}

#[test]
fn overwrite_keeps_the_latest_blocks() {
    let mut shell = Shell::create(128 * 1024, false);
    shell.write(100, &vec![0xAAu8; 256 * BLOCK_SIZE]).unwrap();
    shell.sync().unwrap();
    shell.write(100, &vec![0xBBu8; 128 * BLOCK_SIZE]).unwrap();
    shell.sync().unwrap();
    let mut rbuf = vec![0u8; 256 * BLOCK_SIZE];
    shell.read(100, &mut rbuf).unwrap();
    assert!(rbuf[..128 * BLOCK_SIZE].iter().all(|b| *b == 0xBB));
    assert!(rbuf[128 * BLOCK_SIZE..].iter().all(|b| *b == 0xAA));
    // the blocks that were replaced are free again
    assert_eq!(shell.num_free(), 120 * 1024 - 256);
    assert_eq!(shell.popcount(), shell.num_free());
}

#[test]
fn reopen_recovers_the_validity_table() {
    let mut shell = Shell::create(128 * 1024, false);
    shell.write(0, &vec![3u8; 1024 * BLOCK_SIZE]).unwrap();
    shell.sync().unwrap();
    let free_before = shell.num_free();
    let opened = shell.reopen();
    assert_eq!(opened.num_free(), free_before);
    assert_eq!(opened.popcount(), free_before);
    let table = opened.disk.inner().block_validity_table();
    assert_eq!(table.next_avail(), 1024);
    assert!(!table.is_dirty());
    assert!(!table.bitmap().test_bit(1023));
    assert!(table.bitmap().test_bit(1024));
}

#[test]
fn empty_read_is_no_failure() {
    let mut shell = Shell::create(128 * 1024, false);
    let mut rbuf = vec![0x5Au8; BLOCK_SIZE];
    shell.read(42, &mut rbuf).unwrap();
    assert!(DiskInner::allow_empty_read(Err(Error::new(Errno::NotFound))).is_ok());
    let other = DiskInner::allow_empty_read(Err(Error::new(Errno::IoFailed)));
    assert_eq!(other.unwrap_err().errno(), Errno::IoFailed);
}

#[test]
fn batch_is_written_as_one_run() {
    let mut shell = Shell::create(128 * 1024, false);
    shell.write(0, &vec![9u8; 16 * BLOCK_SIZE]).unwrap();
    shell.sync().unwrap();
    assert_eq!(shell.runs_written, vec![(0, 16)]);
}

#[test]
fn writes_at_the_end_of_the_disk() {
    let mut shell = Shell::create(128 * 1024, false);
    let total = shell.disk.total_blocks();
    assert_eq!(total, 120 * 1024);
    shell.write(total - 1, &block_of(1)).unwrap();
    let err = shell.write(total, &block_of(1)).unwrap_err();
    assert_eq!(err.errno(), Errno::OutOfDisk);
    let err = shell.write(total - 1, &vec![0u8; 2 * BLOCK_SIZE]).unwrap_err();
    assert_eq!(err.errno(), Errno::OutOfDisk);
    let mut rbuf = vec![0u8; BLOCK_SIZE];
    assert_eq!(shell.read(total, &mut rbuf).unwrap_err().errno(), Errno::OutOfDisk);
    assert!(shell.disk.check_rw_args(usize::MAX, 2).is_err());
}

#[test]
fn a_full_buffer_is_flushed() {
    let mut shell = Shell::create(128 * 1024, false);
    let progress = shell.disk.write(0, &vec![1u8; 1500 * BLOCK_SIZE], 0).unwrap();
    assert_eq!(progress.consumed, 1024);
    assert!(progress.flush);
    shell.flush().unwrap();
    let progress = shell.disk.write(0, &vec![1u8; 1500 * BLOCK_SIZE], 1024).unwrap();
    assert_eq!(progress.consumed, 1500);
    assert!(!progress.flush);
    assert_eq!(shell.disk.inner().data_buf().nblocks(), 476);
    assert_eq!(shell.num_free(), 120 * 1024 - 1024);
}

#[test]
fn sync_twice_is_sync_once() {
    let mut shell = Shell::create(128 * 1024, false);
    shell.write(10, &vec![4u8; 8 * BLOCK_SIZE]).unwrap();
    shell.sync().unwrap();
    let snapshot = shell.bvt.clone();
    let free = shell.num_free();
    let runs = shell.runs_written.clone();
    assert!(matches!(shell.disk.inner_mut().flush_data_buf(false), FlushStep::Idle));
    assert!(shell.disk.sync().unwrap().is_none());
    shell.sync().unwrap();
    assert_eq!(shell.bvt, snapshot);
    assert_eq!(shell.num_free(), free);
    assert_eq!(shell.runs_written, runs);
}

#[test]
fn flush_waits_for_the_collector() {
    let mut shell = Shell::create(128 * 1024, false);
    shell.write(0, &block_of(1)).unwrap();
    shell.disk.inner_mut().start_gc();
    assert!(!shell.disk.inner().wait_for_background_gc());
    assert!(matches!(shell.disk.inner_mut().flush_data_buf(false), FlushStep::WaitForGc));
    assert_eq!(shell.disk.inner_mut().notify_gc_finished(), 5000);
    assert!(matches!(shell.disk.inner_mut().flush_data_buf(false), FlushStep::Write(_)));
    assert_eq!(shell.disk.inner_mut().notify_gc_finished(), 100);
}

#[test]
fn flush_waits_for_free_blocks() {
    let mut shell = Shell::create(32, false);
    let total = shell.disk.total_blocks();
    assert_eq!(total, 30);
    shell.write(0, &vec![1u8; 30 * BLOCK_SIZE]).unwrap();
    shell.flush().unwrap();
    assert_eq!(shell.num_free(), 0);
    shell.write(40 - 11, &block_of(2)).unwrap();
    assert!(matches!(shell.disk.inner_mut().flush_data_buf(false), FlushStep::WaitForFree(1)));
    assert!(matches!(shell.disk.inner_mut().flush_data_buf(true), FlushStep::WaitForFree(1)));
    assert_eq!(shell.num_free(), 0);
    assert_eq!(shell.disk.inner().data_buf().nblocks(), 1);
    // the write of block 29 replaces its record: the old host block comes back
    let old = Record::new(RecordKey { lba: 5 }, shell.forward[&5]);
    shell.forward.remove(&5);
    shell.disk.inner_mut().on_drop_record_in_memtable(&old);
    assert_eq!(shell.num_free(), 1);
    shell.flush().unwrap();
    assert_eq!(shell.forward[&29].hba, 5);
    assert_eq!(shell.num_free(), 1);
}

#[test]
fn flush_out_of_disk_asks_for_compaction_once() {
    // a table whose count is above what its bitmap holds
    let mut table = AllocTable::new(30, false);
    table.migrate_batch(&(0..30).collect::<Vec<usize>>());
    assert_eq!(table.num_free(), 30);
    let mut disk = SwornDisk::from_inner(DiskInner::new(table, Config::default(), false));
    disk.write(0, &block_of(2), 0).unwrap();
    assert!(matches!(disk.inner_mut().flush_data_buf(false), FlushStep::Compact));
    match disk.inner_mut().flush_data_buf(true) {
        FlushStep::Failed(e) => assert_eq!(e.errno(), Errno::OutOfDisk),
        _ => panic!("the second attempt did not fail"),
    }
    assert_eq!(disk.inner().data_buf().nblocks(), 1);
}

#[test]
fn blocks_land_at_their_place_whatever_the_host_order() {
    let mut shell = Shell::create(128 * 1024, false);
    let mut two = vec![0x11u8; 2 * BLOCK_SIZE];
    two[BLOCK_SIZE..].fill(0x22);
    shell.write(0, &two).unwrap();
    shell.sync().unwrap();
    shell.write(0, &block_of(0x33)).unwrap();
    shell.sync().unwrap();
    // address 1 lies at host block 1, address 0 at host block 2
    assert_eq!(shell.forward[&1].hba, 1);
    assert_eq!(shell.forward[&0].hba, 2);
    let records = vec![
        Record::new(RecordKey { lba: 0 }, shell.forward[&0]),
        Record::new(RecordKey { lba: 1 }, shell.forward[&1]),
    ];
    let plan = DiskInner::plan_read(0, 2, &vec![0, 1], &records).unwrap();
    assert_eq!(plan.records[0].key().lba, 1);
    assert_eq!(plan.records[1].key().lba, 0);
    assert_eq!(plan.slots, vec![1, 0]);
    assert_eq!(plan.runs.len(), 1);
    assert!(plan.unwritten.is_empty());
    assert!(plan.outcome().is_ok());
    let mut rbuf = vec![0u8; 2 * BLOCK_SIZE];
    shell.read(0, &mut rbuf).unwrap();
    assert_eq!(&rbuf[..BLOCK_SIZE], &block_of(0x33)[..]);
    assert_eq!(&rbuf[BLOCK_SIZE..], &block_of(0x22)[..]);
}

#[test]
fn a_read_plan_names_what_was_never_written() {
    let value = RecordValue { hba: 9, key: [0; 16], mac: [0; 16] };
    let records = vec![Record::new(RecordKey { lba: 12 }, value)];
    let plan = DiskInner::plan_read(10, 4, &vec![10, 12, 13], &records).unwrap();
    assert_eq!(plan.slots, vec![2]);
    assert_eq!(plan.unwritten, vec![10, 13]);
    assert_eq!(plan.outcome().unwrap_err().errno(), Errno::NotFound);
    assert!(DiskInner::allow_empty_read(plan.outcome()).is_ok());
    // a record for an address that is buffered, or outside the request
    let stray = |lba: usize| vec![Record::new(RecordKey { lba }, value)];
    for lba in [11, 9, 14] {
        let err = match DiskInner::plan_read(10, 4, &vec![10, 12, 13], &stray(lba)) {
            Err(e) => e,
            Ok(_) => panic!("a record for address {} was planned", lba),
        };
        assert_eq!(err.errno(), Errno::InvalidArgs);
    }
    let empty = DiskInner::plan_read(10, 4, &vec![], &vec![]).unwrap();
    assert!(empty.outcome().is_ok());
    assert!(empty.runs.is_empty());
}

#[test]
fn simple_data_migration() {
    let nblocks = 256 * SEGMENT_SIZE;
    let mut shell = Shell::create(nblocks, true);
    let mut worker = GcWorker::new(VictimPolicyRef::Greedy(GreedyVictimPolicy::new()));
    // nothing to collect yet
    assert!(shell.collect(&mut worker).is_empty());

    let content = block_of(1);
    // blocks 0 to 298 become invalid, only block 299 is migrated
    for _ in 0..300 {
        shell.write(0, &content).unwrap();
        shell.sync().unwrap();
    }
    assert_eq!(shell.forward[&0].hba, 299);
    // the disk was active: the threshold of six tenths is not reached
    assert!(shell.collect(&mut worker).is_empty());
    // the disk is idle now: one tenth is enough
    let free_before = shell.num_free();
    assert_eq!(shell.collect(&mut worker), vec![0]);

    let mut read_buf = vec![0u8; BLOCK_SIZE];
    shell.read(0, &mut read_buf).unwrap();
    assert_eq!(read_buf, content);

    // the victim segment is free as a whole
    let table = shell.disk.inner().block_validity_table();
    for hba in 0..SEGMENT_SIZE {
        assert!(table.bitmap().test_bit(hba));
    }
    assert_eq!(shell.forward[&0].hba, SEGMENT_SIZE);
    assert!(!table.bitmap().test_bit(SEGMENT_SIZE));
    let segments = table.get_segment_table_ref().unwrap();
    assert_eq!(segments[0].free_space(), SEGMENT_SIZE);
    assert_eq!(segments[0].num_valid_blocks(), SEGMENT_SIZE);
    assert_eq!(segments[1].free_space(), SEGMENT_SIZE - 1);
    assert_eq!(shell.num_free(), free_before);
    assert_eq!(shell.popcount(), shell.num_free());
}

#[test]
fn gc_does_not_free_a_block_twice() {
    let mut shell = Shell::create(256 * SEGMENT_SIZE, true);
    let mut worker = GcWorker::new(VictimPolicyRef::Greedy(GreedyVictimPolicy::new()));
    for _ in 0..300 {
        shell.write(0, &block_of(1)).unwrap();
        shell.sync().unwrap();
    }
    shell.collect(&mut worker);
    let old_hba = shell.forward[&0].hba;
    assert_eq!(old_hba, 299);
    let free_before = shell.num_free();
    assert_eq!(free_before, 240 * SEGMENT_SIZE - 1);

    // the collector moves the block and marks the old host block
    shell.disk.inner_mut().start_gc();
    let victim = shell.disk.inner().next_victim(&mut worker, 0).unwrap();
    assert_eq!(victim.blocks(), &vec![old_hba]);
    let current = vec![Ok(Mapping { lba: 0, hba: old_hba })];
    let found = shell.disk.inner().find_target_hbas(&victim, &current).unwrap();
    assert_eq!(found.valid, vec![old_hba]);
    assert!(found.discard.is_empty());
    assert_eq!(found.targets, vec![SEGMENT_SIZE]);
    let remapped = shell.disk.inner_mut().finish_migration(0, &found);
    let held = vec![HeldRecord { lba: 0, value: shell.forward[&0] }];
    let ops = shell.disk.inner_mut().remap_index_batch(&remapped, &held);
    assert!(shell.disk.inner().dealloc_table().has_deallocated(old_hba));
    assert_eq!(shell.num_free(), free_before);

    // the index drops the old record: the mark is found and cleared, and
    // the block is not freed a second time
    shell.apply(ops);
    shell.disk.inner_mut().notify_gc_finished();
    assert!(!shell.disk.inner().dealloc_table().has_deallocated(old_hba));
    assert_eq!(shell.num_free(), free_before);
    assert_eq!(shell.popcount(), free_before);
    assert_eq!(shell.forward[&0].hba, SEGMENT_SIZE);
    assert_eq!(shell.reverse[&SEGMENT_SIZE], 0);
}

#[test]
fn batch_data_migration() {
    let nblocks = 256 * SEGMENT_SIZE;
    let mut shell = Shell::create(nblocks, true);
    let mut worker = GcWorker::new(VictimPolicyRef::Greedy(GreedyVictimPolicy::new()));

    for i in 0..300 {
        shell.write(i, &block_of(1)).unwrap();
    }
    shell.sync().unwrap();

    for i in 0..250 {
        shell.write(i, &block_of(i as u8)).unwrap();
    }
    shell.sync().unwrap();

    shell.collect(&mut worker);
    let victims = shell.collect(&mut worker);
    assert_eq!(victims, vec![0]);

    for i in 0..250 {
        let mut read_buf = vec![0u8; BLOCK_SIZE];
        shell.read(i, &mut read_buf).unwrap();
        assert_eq!(read_buf, block_of(i as u8), "block {} is not migrated", i);
    }

    for i in 250..300 {
        let mut read_buf = vec![0u8; BLOCK_SIZE];
        shell.read(i, &mut read_buf).unwrap();
        assert_eq!(read_buf, block_of(1), "block {} is not migrated", i);
    }
    assert_eq!(shell.popcount(), shell.num_free());
    for (lba, value) in shell.forward.iter() {
        assert!(!shell.disk.inner().block_validity_table().bitmap().test_bit(value.hba));
        assert_eq!(shell.reverse[&value.hba], *lba);
    }
}

#[test]
fn multi_segment_migration() {
    let nblocks = 256 * SEGMENT_SIZE;
    let mut shell = Shell::create(nblocks * 5 / 4, true);
    let mut worker = GcWorker::new(VictimPolicyRef::Greedy(GreedyVictimPolicy::new()));

    let num_writes = 50000;
    let mut seed: u64 = 7;
    let mut latest: BTreeMap<usize, u8> = BTreeMap::new();
    for i in 0..num_writes {
        seed = seed.wrapping_mul(6364136223846793005).wrapping_add(1442695040888963407);
        let block_id = ((seed >> 16) as usize) % (nblocks - 1);
        shell.write(block_id, &block_of(i as u8)).unwrap();
        latest.insert(block_id, i as u8);
    }
    shell.sync().unwrap();

    shell.collect(&mut worker);
    shell.collect(&mut worker);

    assert_eq!(shell.popcount(), shell.num_free());
    for (lba, value) in shell.forward.iter() {
        assert!(!shell.disk.inner().block_validity_table().bitmap().test_bit(value.hba));
        assert_eq!(shell.reverse[&value.hba], *lba);
    }
    let mut read_buf = vec![0u8; BLOCK_SIZE];
    for (lba, value) in latest.iter().take(500) {
        shell.read(*lba, &mut read_buf).unwrap();
        assert_eq!(read_buf[0], *value);
        assert_eq!(read_buf[BLOCK_SIZE - 1], *value);
    }
}
