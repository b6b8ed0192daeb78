use sworndisk::bio::{align_up, BioReq, BioType, BLOCK_SIZE};
use sworndisk::bitmap::BitMap;
use sworndisk::config::{Config, ConfigCell};
use sworndisk::cost_stats::{CostL2, CostL2Type, CostL3, CostL3Type, CostTimer};
use sworndisk::data_buf::DataBuf;
use sworndisk::error::{Errno, Error, FsErrorKind};
use sworndisk::gc::{GreedyVictimPolicy, LoopScanVictimPolicy, ReverseKey, VictimPolicyRef};
use sworndisk::inner::{BioStep, DiskInner, ReadStep};
use sworndisk::sworndisk::{BufMutVec, RecordKey, SwornDisk};
use sworndisk::waf_stats::WafStats;

#[test]
fn bitmap_basics() {
    let mut bitmap = BitMap::repeat(false, 130);
    assert_eq!(bitmap.len(), 130);
    assert!(!bitmap.is_empty());
    assert_eq!(bitmap.count_ones(), 0);
    assert_eq!(bitmap.first_one(0), None);
    bitmap.set(0, true);
    bitmap.set(64, true);
    bitmap.set(129, true);
    assert!(bitmap.test_bit(64));
    assert!(!bitmap.test_bit(63));
    assert_eq!(bitmap.count_ones(), 3);
    assert_eq!(bitmap.first_one(1), Some(64));
    assert_eq!(bitmap.first_one(65), Some(129));
    assert_eq!(bitmap.first_one(130), None);
    assert_eq!(bitmap.first_ones(0, 2), Some(vec![0, 64]));
    assert_eq!(bitmap.first_ones(1, 2), Some(vec![64, 129]));
    assert_eq!(bitmap.first_ones(1, 3), None);
    assert_eq!(bitmap.first_ones(500, 0), Some(vec![]));
    bitmap.set(64, false);
    assert_eq!(bitmap.count_ones(), 2);
    let (words, nbits) = bitmap.as_words();
    assert_eq!(nbits, 130);
    assert_eq!(words, &vec![1u64, 0, 2]);
    let copy = BitMap::from_words(words.clone(), nbits).unwrap();
    assert!(copy.test_bit(129));
    assert!(BitMap::from_words(vec![0; 2], 130).is_none());
    assert!(BitMap::repeat(true, 0).is_empty());
}

#[test]
fn align_up_rounds_to_blocks() {
    assert_eq!(align_up(0, BLOCK_SIZE), 0);
    assert_eq!(align_up(1, BLOCK_SIZE), 4096);
    assert_eq!(align_up(4096, BLOCK_SIZE), 4096);
    assert_eq!(align_up(4097, BLOCK_SIZE), 8192);
    assert_eq!(align_up(10, 3), 12);
}

#[test]
fn data_buf_keeps_the_order_of_first_writes() {
    let mut buf = DataBuf::new(3);
    assert!(buf.is_empty());
    assert!(!buf.put(RecordKey { lba: 9 }, &vec![1u8; BLOCK_SIZE]));
    assert!(!buf.put(RecordKey { lba: 4 }, &vec![2u8; BLOCK_SIZE]));
    assert!(!buf.put(RecordKey { lba: 9 }, &vec![3u8; BLOCK_SIZE]));
    assert_eq!(buf.nblocks(), 2);
    assert!(!buf.at_capacity());
    assert!(buf.put(RecordKey { lba: 6 }, &vec![4u8; BLOCK_SIZE]));
    assert!(buf.at_capacity());
    assert_eq!(buf.get(RecordKey { lba: 9 }).unwrap().as_slice(), &vec![3u8; BLOCK_SIZE][..]);
    assert!(buf.get(RecordKey { lba: 5 }).is_none());
    let lbas: Vec<usize> = buf.all_blocks().iter().map(|b| b.key().lba).collect();
    assert_eq!(lbas, vec![9, 4, 6]);
    let lbas: Vec<usize> = buf.get_range(5, 10).iter().map(|b| b.key().lba).collect();
    assert_eq!(lbas, vec![9, 6]);
    assert!(buf.get_range(10, 20).is_empty());
    buf.clear();
    assert!(buf.is_empty());
    assert!(buf.get(RecordKey { lba: 9 }).is_none());
}

#[test]
fn scattered_buffers_are_addressed_block_by_block() {
    let layout = BufMutVec::from_bufs(vec![2, 0, 3]);
    assert_eq!(layout.nblocks(), 5);
    let slot = layout.nth_buf_mut_slice(0).unwrap();
    assert_eq!((slot.buf, slot.start, slot.end), (0, 0, 4096));
    let slot = layout.nth_buf_mut_slice(1).unwrap();
    assert_eq!((slot.buf, slot.start, slot.end), (0, 4096, 8192));
    let slot = layout.nth_buf_mut_slice(2).unwrap();
    assert_eq!((slot.buf, slot.start, slot.end), (2, 0, 4096));
    let slot = layout.nth_buf_mut_slice(4).unwrap();
    assert_eq!((slot.buf, slot.start, slot.end), (2, 8192, 12288));
    assert!(layout.nth_buf_mut_slice(5).is_none());
    assert_eq!(BufMutVec::from_bufs(vec![usize::MAX, 7]).nblocks(), usize::MAX);
    assert_eq!(BufMutVec::from_bufs(vec![]).nblocks(), 0);
}

#[test]
fn regions_of_the_host_disk() {
    let n = 128 * 1024;
    let data = SwornDisk::subdisk_for_data(n);
    assert_eq!((data.start, data.end), (0, 122880));
    let index = SwornDisk::subdisk_for_logical_block_table(n);
    assert_eq!((index.start, index.end), (122880, 126976));
    let reverse = SwornDisk::subdisk_for_reverse_index_table(n);
    assert_eq!((reverse.start, reverse.end), (126976, n));
    let data = SwornDisk::subdisk_for_data(usize::MAX);
    assert_eq!(data.end, ((usize::MAX as u128) * 15 / 16) as usize);
    let odd = SwornDisk::subdisk_for_logical_block_table(100);
    assert_eq!((odd.start, odd.end), (93, 96));
}

#[test]
fn options() {
    let config = Config::default();
    assert_eq!(config.cache_size, usize::MAX);
    assert!(config.two_level_caching);
    assert!(config.delayed_reclamation);
    assert!(!config.stat_waf);
    assert!(!config.stat_cost);
    assert!(!config.enable_gc);
    assert!(matches!(config.get_victim_policy(), VictimPolicyRef::Greedy(_)));
    let scan = Config {
        victim_policy: Some(VictimPolicyRef::LoopScan(LoopScanVictimPolicy::new())),
        ..config
    };
    assert!(matches!(scan.get_victim_policy(), VictimPolicyRef::LoopScan(_)));
    let greedy = Config { victim_policy: Some(VictimPolicyRef::Greedy(GreedyVictimPolicy {})), ..config };
    assert!(matches!(greedy.get_victim_policy(), VictimPolicyRef::Greedy(_)));

    let mut cell = ConfigCell::new(Config::default());
    assert!(!cell.get().enable_gc);
    assert!(cell.set(Config { enable_gc: true, cache_size: 7, ..Config::default() }));
    assert!(cell.get().enable_gc);
    // the first set wins
    assert!(!cell.set(Config { enable_gc: false, cache_size: 9, ..Config::default() }));
    assert!(cell.get().enable_gc);
    assert_eq!(cell.get().cache_size, 7);
}

#[test]
fn counters() {
    let mut waf = WafStats::new();
    waf.add_logical(10);
    waf.add_logical(5);
    waf.add_physical(40);
    assert_eq!(waf.get_logical(), 15);
    assert_eq!(waf.get_physical(), 40);
    waf.add_logical(u64::MAX);
    assert_eq!(waf.get_logical(), 14);
    waf.reset();
    assert_eq!(waf.get_logical(), 0);
    assert_eq!(waf.get_physical(), 0);

    let mut l3 = CostL3::new();
    let timer = l3.time(CostL3Type::Encryption, 100);
    l3.record(CostL3Type::Encryption, timer, 130);
    let timer = l3.time(CostL3Type::BlockIO, 200);
    l3.record(CostL3Type::BlockIO, timer, 150);
    l3.record(CostL3Type::Allocation, CostTimer::new(0), 7);
    l3.record(CostL3Type::LogicalBlockTable, CostTimer::new(1), 3);
    assert!(l3.can_sum());
    let stats = l3.get_stats();
    assert_eq!(stats.encryption, 30);
    assert_eq!(stats.block_io, 0);
    assert_eq!(stats.allocation, 7);
    assert_eq!(stats.logical_block_table, 2);
    assert_eq!(stats.total, 39);
    l3.record(CostL3Type::BlockIO, CostTimer::new(0), u64::MAX);
    assert!(!l3.can_sum());
    l3.reset();
    assert_eq!(l3.get_stats().total, 0);

    let mut l2 = CostL2::new();
    let timer = l2.time(CostL2Type::WAL, 5);
    assert_eq!(timer.elapsed(9), 4);
    assert_eq!(timer.elapsed(2), 0);
    l2.record(CostL2Type::WAL, timer, 9);
    l2.record(CostL2Type::MemTable, CostTimer::new(0), 1);
    l2.record(CostL2Type::Compaction, CostTimer::new(0), 2);
    l2.record(CostL2Type::SSTableLookup, CostTimer::new(0), 3);
    let stats = l2.get_stats();
    assert_eq!((stats.wal, stats.memtable, stats.compaction, stats.sstable_lookup), (4, 1, 2, 3));
    assert_eq!(stats.total, 10);
    l2.reset();
    assert!(l2.can_sum());
    assert_eq!(l2.get_stats().total, 0);
}

#[test]
fn failures() {
    let e = Error::with_msg(Errno::OutOfDisk, "no free slots");
    assert_eq!(e.errno(), Errno::OutOfDisk);
    assert_eq!(e.msg(), "no free slots");
    assert_eq!(e.to_fs_error(), FsErrorKind::NoDeviceSpace);
    assert_eq!(Error::new(Errno::NotFound).to_fs_error(), FsErrorKind::EntryNotFound);
    assert_eq!(Error::new(Errno::InvalidArgs).to_fs_error(), FsErrorKind::InvalidParam);
    assert_eq!(Error::new(Errno::PermissionDenied).to_fs_error(), FsErrorKind::PermError);
    assert_eq!(Error::new(Errno::IoFailed).to_fs_error(), FsErrorKind::DeviceError(0));
    assert_eq!(Error::new(Errno::TxAborted).to_fs_error(), FsErrorKind::DeviceError(0));
    assert_eq!(Error::new(Errno::OutOfMemory).to_fs_error(), FsErrorKind::DeviceError(0));
    assert_eq!(Error::new(Errno::IoFailed).msg(), "");
}

#[test]
fn index_keys_add_and_subtract() {
    let key = RecordKey { lba: 10 } + 5;
    assert_eq!(key.lba, 15);
    assert_eq!(key - RecordKey { lba: 3 }, 12);
    let key = ReverseKey { hba: 7 } + 1;
    assert_eq!(key.hba, 8);
    assert_eq!(key - ReverseKey { hba: 8 }, 0);
}

#[test]
fn requests() {
    assert!(BioReq::new(BioType::Write, 0, vec![vec![0u8; 100]]).is_none());
    let req = BioReq::new(BioType::Write, 3, vec![vec![1u8; BLOCK_SIZE], vec![2u8; 2 * BLOCK_SIZE]])
        .unwrap();
    assert_eq!(req.type_(), BioType::Write);
    assert_eq!(req.addr(), 3);
    assert_eq!(req.nbufs(), 2);

    let mut disk = SwornDisk::create(64, None, false);
    match disk.submit_bio_sync(&req, 0, 0) {
        Some(BioStep::Write(w)) => {
            assert_eq!(w.at, 2);
            assert!(!w.progress.flush);
        }
        _ => panic!("the write was not served as a write"),
    }
    let block = |lba: usize, value: u8| {
        assert_eq!(
            disk.inner().data_buf().get(RecordKey { lba }).unwrap().as_slice(),
            &vec![value; BLOCK_SIZE][..]
        );
    };
    block(3, 1);
    block(4, 2);
    block(5, 2);

    let read = BioReq::new(BioType::Read, 2, vec![vec![0u8; 3 * BLOCK_SIZE]]).unwrap();
    match disk.submit_bio_sync(&read, 0, 0) {
        Some(BioStep::Read(found)) => {
            assert_eq!(found.missing, vec![2]);
            let lbas: Vec<usize> = found.hits.iter().map(|b| b.key().lba).collect();
            assert_eq!(lbas, vec![3, 4]);
            assert_eq!(found.hit_slots, vec![1, 2]);
        }
        _ => panic!("the read was not served as a read"),
    }
    let sync = BioReq::new(BioType::Sync, 0, vec![]).unwrap();
    assert!(matches!(disk.submit_bio_sync(&sync, 0, 0), Some(BioStep::Sync)));
    let far = BioReq::new(BioType::Read, usize::MAX, vec![vec![0u8; BLOCK_SIZE]]).unwrap();
    assert!(disk.submit_bio_sync(&far, 0, 0).is_none());
    assert_eq!(req.take_bufs().len(), 2);
}

#[test]
fn scattered_writes_resume_after_a_flush() {
    let mut disk = SwornDisk::create(128 * 1024, None, false);
    let bufs = vec![vec![1u8; 1000 * BLOCK_SIZE], vec![2u8; 100 * BLOCK_SIZE], vec![3u8; BLOCK_SIZE]];
    let step = disk.writev(0, &bufs, 0, 0).unwrap();
    // the buffer is full after 1024 blocks: 24 blocks into the second buffer
    assert_eq!(step.at, 1);
    assert_eq!(step.progress.consumed, 24);
    assert!(step.progress.flush);
    disk.inner_mut().complete_flush();
    let step = disk.writev(0, &bufs, step.at, step.progress.consumed).unwrap();
    assert_eq!(step.at, 3);
    assert!(!step.progress.flush);
    let buffered = disk.inner().data_buf();
    assert_eq!(buffered.nblocks(), 77);
    assert_eq!(buffered.get(RecordKey { lba: 1024 }).unwrap().as_slice()[0], 2);
    assert_eq!(buffered.get(RecordKey { lba: 1100 }).unwrap().as_slice()[0], 3);
    assert!(buffered.get(RecordKey { lba: 1023 }).is_none());
    let err = disk.writev(120 * 1024 - 1100, &bufs, 0, 0).unwrap_err();
    assert_eq!(err.errno(), Errno::OutOfDisk);

    let layout = BufMutVec::from_bufs(vec![2, 3]);
    let found = disk.readv(1022, &layout).unwrap();
    assert_eq!(found.missing, vec![1022, 1023]);
    assert_eq!(found.hits.len(), 3);
    assert_eq!(found.hit_slots, vec![2, 3, 4]);
    assert_eq!(disk.readv(120 * 1024 - 4, &layout).err().unwrap().errno(), Errno::OutOfDisk);
}

#[test]
fn a_read_of_one_block_asks_the_buffer_first() {
    let mut disk = SwornDisk::create(64, None, false);
    disk.write(7, &vec![9u8; BLOCK_SIZE], 0).unwrap();
    match disk.inner().read_one_block(7) {
        ReadStep::Buffered(block) => assert_eq!(block.as_slice()[0], 9),
        _ => panic!("the buffered block was not found"),
    }
    match disk.inner().read_one_block(8) {
        ReadStep::Lookup(key) => assert_eq!(key.lba, 8),
        _ => panic!("the index was not asked"),
    }
    disk.inner_mut().start_gc();
    assert!(matches!(disk.inner().read_one_block(8), ReadStep::WaitForGc));
    assert!(matches!(disk.inner().read_one_block(7), ReadStep::Buffered(_)));
    let inner: DiskInner = disk.into_inner();
    assert!(!inner.is_dropped());
    let mut disk = SwornDisk::from_inner(inner);
    disk.inner_mut().mark_dropped();
    assert!(disk.inner().is_dropped());
}

#[test]
fn written_bytes_are_counted_where_asked() {
    let config = Config { stat_waf: true, delayed_reclamation: false, ..Config::default() };
    let mut disk = SwornDisk::create(64, Some(config), true);
    disk.write(0, &vec![0u8; 3 * BLOCK_SIZE], 0).unwrap();
    disk.write(0, &vec![0u8; 3 * BLOCK_SIZE], 1).unwrap();
    assert_eq!(disk.inner().logical_bytes(), 5 * 4096);
    assert!(disk.inner().keeps_reverse_index());
    assert!(!disk.inner().config().delayed_reclamation);
    let mut plain = SwornDisk::create(64, None, false);
    plain.write(0, &vec![0u8; 3 * BLOCK_SIZE], 0).unwrap();
    assert_eq!(plain.inner().logical_bytes(), 0);
}
