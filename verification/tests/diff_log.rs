use sworndisk::bio::BLOCK_SIZE;
use sworndisk::bitmap::BitMap;
use sworndisk::block_alloc::{sort_log_ids, AllocTable, BlockAlloc};
use sworndisk::dealloc_block::DeallocTable;
use sworndisk::diff_log::{encode_diff_log, replay_diff_log, AllocDiff, DiffEntry, MAX_BUF_SIZE};
use sworndisk::error::{Errno, Error};
use sworndisk::sworndisk::{
    on_drop_record_in_memtable, LsmLevel, Record, RecordKey, RecordValue, TxLsmTreeListenerFactory,
    TxType,
};

fn record(lba: usize, hba: usize) -> Record {
    Record::new(RecordKey { lba }, RecordValue { hba, key: [0; 16], mac: [0; 16] })
}

#[test]
fn tags() {
    assert_eq!(AllocDiff::Alloc.tag(), 3);
    assert_eq!(AllocDiff::Dealloc.tag(), 7);
    assert_eq!(AllocDiff::from(3), AllocDiff::Alloc);
    assert_eq!(AllocDiff::from(7), AllocDiff::Dealloc);
    assert_eq!(AllocDiff::from(0), AllocDiff::Invalid);
    assert_eq!(AllocDiff::from(8), AllocDiff::Invalid);
    assert_eq!(AllocDiff::from(255), AllocDiff::Invalid);
}

#[test]
fn records_are_a_tag_and_eight_bytes() {
    let entries = vec![
        DiffEntry { hba: 0x0102, diff: AllocDiff::Alloc },
        DiffEntry { hba: 0x11_0000_0000, diff: AllocDiff::Dealloc },
    ];
    let chunks = encode_diff_log(&entries);
    assert_eq!(chunks.len(), 1);
    assert_eq!(chunks[0].len(), BLOCK_SIZE);
    assert_eq!(&chunks[0][..9], &[3, 0x02, 0x01, 0, 0, 0, 0, 0, 0]);
    assert_eq!(&chunks[0][9..18], &[7, 0, 0, 0, 0, 0x11, 0, 0, 0]);
    assert!(chunks[0][18..].iter().all(|b| *b == 0));
    assert!(encode_diff_log(&Vec::new()).is_empty());
}

#[test]
fn replay_applies_what_was_written() {
    let entries = vec![
        DiffEntry { hba: 1, diff: AllocDiff::Alloc },
        DiffEntry { hba: 2, diff: AllocDiff::Dealloc },
        DiffEntry { hba: 63, diff: AllocDiff::Alloc },
        DiffEntry { hba: 64, diff: AllocDiff::Alloc },
    ];
    let chunks = encode_diff_log(&entries);
    let mut bitmap = BitMap::repeat(true, 128);
    bitmap.set(2, false);
    replay_diff_log(&mut bitmap, &chunks[0]);
    for i in 0..128 {
        assert_eq!(bitmap.test_bit(i), !(i == 1 || i == 63 || i == 64), "bit {}", i);
    }
}

#[test]
fn replay_skips_unknown_tags_and_blocks_outside() {
    let mut log = vec![0u8; 64];
    log[0] = 9; // unknown: this byte alone is skipped
    log[1] = 3;
    log[2] = 5; // allocate block 5
    log[10] = 3;
    log[11] = 200; // outside a bitmap of 16 bits
    log[19] = 7;
    log[20] = 6; // give block 6 back
    log[60] = 3; // fewer than nine bytes are left
    log[61] = 1;
    let mut bitmap = BitMap::repeat(true, 16);
    bitmap.set(6, false);
    replay_diff_log(&mut bitmap, &log);
    for i in 0..16 {
        assert_eq!(bitmap.test_bit(i), i != 5, "bit {}", i);
    }
    let mut short = BitMap::repeat(true, 16);
    replay_diff_log(&mut short, &[3, 1, 0, 0]);
    assert_eq!(short.count_ones(), 16);
}

#[test]
fn a_long_log_is_cut_into_buffers() {
    let per_buffer = MAX_BUF_SIZE / 9;
    let entries: Vec<DiffEntry> =
        (0..per_buffer + 5).map(|hba| DiffEntry { hba, diff: AllocDiff::Alloc }).collect();
    let chunks = encode_diff_log(&entries);
    assert_eq!(chunks.len(), 2);
    assert_eq!(chunks[0].len(), MAX_BUF_SIZE);
    assert_eq!(chunks[1].len(), BLOCK_SIZE);
    let mut log = chunks[0].clone();
    log.extend_from_slice(&chunks[1]);
    let mut bitmap = BitMap::repeat(true, per_buffer + 10);
    replay_diff_log(&mut bitmap, &log);
    assert_eq!(bitmap.count_ones(), 5);
    assert_eq!(bitmap.first_one(0), Some(per_buffer + 5));
}

#[test]
fn the_table_of_changes_is_kept_in_order() {
    let mut changes = BlockAlloc::new();
    assert!(changes.is_empty());
    changes.alloc_block(30).unwrap();
    changes.dealloc_block(10).unwrap();
    changes.alloc_block(20).unwrap();
    changes.dealloc_block(30).unwrap();
    assert_eq!(changes.get(10), Some(AllocDiff::Dealloc));
    assert_eq!(changes.get(20), Some(AllocDiff::Alloc));
    assert_eq!(changes.get(30), Some(AllocDiff::Dealloc));
    assert_eq!(changes.get(40), None);
    assert!(changes.fits(31));
    assert!(!changes.fits(30));
    assert!(changes.prepare_diff_log().is_ok());
    let chunks = changes.update_diff_log();
    assert_eq!(chunks.len(), 1);
    assert_eq!(&chunks[0][..27], &[
        7, 10, 0, 0, 0, 0, 0, 0, 0, //
        3, 20, 0, 0, 0, 0, 0, 0, 0, //
        7, 30, 0, 0, 0, 0, 0, 0, 0,
    ]);
}

#[test]
fn commit_applies_the_deallocations_only() {
    let mut table = AllocTable::new(2048, false);
    table.alloc_batch(1030).unwrap();
    let mut changes = BlockAlloc::new();
    changes.alloc_block(5).unwrap();
    changes.dealloc_block(7).unwrap();
    changes.dealloc_block(9).unwrap();
    let free = table.num_free();
    assert!(!changes.update_alloc_table(&mut table));
    assert_eq!(table.num_free(), free + 2);
    assert!(!table.bitmap().test_bit(5));
    assert!(table.bitmap().test_bit(7));
    assert!(table.bitmap().test_bit(9));
    assert_eq!(table.bitmap().count_ones(), table.num_free());
    let mut more = BlockAlloc::new();
    for hba in 100..104 {
        more.dealloc_block(hba).unwrap();
    }
    assert!(more.update_alloc_table(&mut table));
    assert_eq!(table.num_free(), 1024);
}

#[test]
fn listener_follows_the_kind_of_transaction() {
    let factory = TxLsmTreeListenerFactory::new();
    let mut marks = DeallocTable::new(64);

    let mut minor = factory.new_event_listener(TxType::Compaction { to_level: LsmLevel::L0 });
    minor.on_tx_begin().unwrap();
    minor.on_add_record(&record(1, 11)).unwrap();
    assert_eq!(minor.block_alloc().get(11), Some(AllocDiff::Alloc));
    assert_eq!(minor.on_tx_precommit().len(), 1);

    let mut major = factory.new_event_listener(TxType::Compaction { to_level: LsmLevel::L1 });
    major.on_add_record(&record(1, 11)).unwrap();
    assert!(major.block_alloc().is_empty());
    assert!(major.on_tx_precommit().is_empty());
    major.on_drop_record(&record(2, 12), &mut marks).unwrap();
    assert_eq!(major.block_alloc().get(12), Some(AllocDiff::Dealloc));

    let mut migration = factory.new_event_listener(TxType::Migration);
    migration.on_add_record(&record(3, 13)).unwrap();
    assert!(migration.block_alloc().is_empty());
    marks.mark_deallocated(14);
    migration.on_drop_record(&record(4, 14), &mut marks).unwrap();
    // the block was reclaimed by the collector: the mark goes, no change is recorded
    assert!(migration.block_alloc().is_empty());
    assert!(!marks.has_deallocated(14));
    migration.on_drop_record(&record(4, 14), &mut marks).unwrap();
    assert_eq!(migration.block_alloc().get(14), Some(AllocDiff::Dealloc));

    let mut table = AllocTable::new(64, false);
    table.alloc_batch(20).unwrap();
    let free = table.num_free();
    migration.on_tx_commit(&mut table);
    assert_eq!(table.num_free(), free + 1);
    assert!(table.bitmap().test_bit(14));
}

#[test]
fn a_drop_in_memory_frees_at_once_unless_marked() {
    let mut table = AllocTable::new(2 * 1024, true);
    let mut marks = DeallocTable::new(2 * 1024);
    table.alloc_batch(10).unwrap();
    let free = table.num_free();
    marks.mark_deallocated(3);
    assert!(!on_drop_record_in_memtable(&record(0, 3), &mut marks, &mut table));
    assert_eq!(table.num_free(), free);
    assert!(!table.bitmap().test_bit(3));
    assert!(!marks.has_deallocated(3));
    on_drop_record_in_memtable(&record(0, 3), &mut marks, &mut table);
    assert_eq!(table.num_free(), free + 1);
    assert!(table.bitmap().test_bit(3));
    let segments = table.get_segment_table_ref().unwrap();
    assert_eq!(segments[0].num_valid_blocks(), 1023);
    assert_eq!(segments[0].free_space(), 1015);
}

fn not_found() -> Error {
    Error::new(Errno::NotFound)
}

#[test]
fn recovery_without_earlier_state() {
    let table = AllocTable::recover(4096, true, Err(not_found()), Err(not_found()), Err(not_found()))
        .unwrap();
    assert_eq!(table.num_free(), 4096);
    assert_eq!(table.next_avail(), 0);
    assert!(!table.is_dirty());
    assert_eq!(table.get_segment_table_ref().unwrap().len(), 4);
    let table = AllocTable::recover(4096, false, Err(not_found()), Err(not_found()), Err(not_found()))
        .unwrap();
    assert!(table.get_segment_table_ref().is_none());
}

#[test]
fn recovery_replays_snapshot_and_logs() {
    let mut table = AllocTable::new(4096, true);
    table.alloc_batch(100).unwrap();
    table.set_deallocated(0);
    let snapshot = table.do_compaction().unwrap().unwrap();
    assert_eq!(snapshot.bitmap.len() % BLOCK_SIZE, 0);
    let segments = snapshot.segments.unwrap();
    assert_eq!(segments.len(), BLOCK_SIZE);
    table.mark_persisted();
    assert!(table.do_compaction().unwrap().is_none());

    // two transactions after the snapshot
    let mut first = BlockAlloc::new();
    first.alloc_block(200).unwrap();
    first.dealloc_block(50).unwrap();
    let mut second = BlockAlloc::new();
    second.alloc_block(50).unwrap();
    second.dealloc_block(99).unwrap();
    let logs = vec![
        Ok(first.update_diff_log().concat()),
        Err(not_found()),
        Ok(second.update_diff_log().concat()),
    ];
    let recovered =
        AllocTable::recover(4096, true, Ok(snapshot.bitmap.clone()), Ok(logs), Ok(segments.clone()))
            .unwrap();
    for hba in 0..4096 {
        let free = hba == 0 || hba == 99 || (hba >= 100 && hba != 200);
        assert_eq!(recovered.bitmap().test_bit(hba), free, "block {}", hba);
    }
    assert_eq!(recovered.num_free(), 4096 - 99);
    assert_eq!(recovered.next_avail(), 0);
    let recovered_segments = recovered.get_segment_table_ref().unwrap();
    assert_eq!(recovered_segments.len(), 4);
    assert_eq!(recovered_segments[0].free_space(), 1024 - 99);
    assert_eq!(recovered_segments[0].num_valid_blocks(), 1023);
    assert_eq!(recovered_segments[0].segment_id(), 0);
    assert_eq!(recovered_segments[3].segment_id(), 3);
    assert_eq!(recovered_segments[3].nblocks(), 1024);

    // the order of the logs matters
    let logs = vec![Ok(second.update_diff_log().concat()), Ok(first.update_diff_log().concat())];
    let other =
        AllocTable::recover(4096, true, Ok(snapshot.bitmap.clone()), Ok(logs), Ok(segments))
            .unwrap();
    assert!(other.bitmap().test_bit(50));
}

#[test]
fn recovery_failures_abort() {
    let failed = |r: Result<AllocTable, Error>| match r {
        Err(e) => e.errno(),
        Ok(_) => panic!("recovery went on after a failure"),
    };
    let io = || Error::new(Errno::IoFailed);
    assert_eq!(
        failed(AllocTable::recover(64, false, Err(io()), Err(not_found()), Err(not_found()))),
        Errno::TxAborted
    );
    assert_eq!(
        failed(AllocTable::recover(64, false, Err(not_found()), Err(io()), Err(not_found()))),
        Errno::TxAborted
    );
    assert_eq!(
        failed(AllocTable::recover(
            64,
            false,
            Err(not_found()),
            Ok(vec![Ok(vec![0u8; 16]), Err(io())]),
            Err(not_found())
        )),
        Errno::TxAborted
    );
    assert_eq!(
        failed(AllocTable::recover(2048, true, Err(not_found()), Err(not_found()), Err(io()))),
        Errno::TxAborted
    );
    // a segment log that is too short for the table
    assert_eq!(
        failed(AllocTable::recover(2048, true, Err(not_found()), Err(not_found()), Ok(vec![0; 16]))),
        Errno::TxAborted
    );
    // without garbage collection the segment log is not looked at
    assert!(AllocTable::recover(2048, false, Err(not_found()), Err(not_found()), Err(io())).is_ok());
    // a snapshot of another size
    let mut small = AllocTable::new(64, false);
    small.alloc_batch(1).unwrap();
    let snapshot = small.do_compaction().unwrap().unwrap();
    assert_eq!(
        failed(AllocTable::recover(
            128,
            false,
            Ok(snapshot.bitmap.clone()),
            Err(not_found()),
            Err(not_found())
        )),
        Errno::TxAborted
    );
    // bytes that are no snapshot at all
    assert_eq!(
        failed(AllocTable::recover(64, false, Ok(vec![0xff; 64]), Err(not_found()), Err(not_found()))),
        Errno::TxAborted
    );
    assert!(AllocTable::recover(64, false, Ok(snapshot.bitmap), Err(not_found()), Err(not_found()))
        .is_ok());
}

#[test]
fn snapshot_bytes_are_the_packed_words() {
    let mut table = AllocTable::new(70, false);
    table.alloc_batch(3).unwrap();
    let snapshot = table.do_compaction().unwrap().unwrap();
    // two words, then the number of bits
    let mut expected = vec![2u8];
    // the first word: all bits but the lowest three
    expected.extend_from_slice(&[0xf8, 0xff, 0xff, 0xff, 0xff, 0xff, 0xff, 0xff, 0xff, 0x01]);
    // the second word as it was filled: every bit set
    expected.extend_from_slice(&[0xff, 0xff, 0xff, 0xff, 0xff, 0xff, 0xff, 0xff, 0xff, 0x01]);
    expected.push(70);
    assert_eq!(&snapshot.bitmap[..expected.len()], &expected[..]);
    assert!(snapshot.bitmap[expected.len()..].iter().all(|b| *b == 0));
    assert_eq!(snapshot.bitmap.len(), BLOCK_SIZE);
    assert!(snapshot.segments.is_none());
}

#[test]
fn logs_are_replayed_from_the_oldest() {
    assert_eq!(sort_log_ids(&vec![7, 3, 9, 3, 1]), vec![1, 3, 3, 7, 9]);
    assert_eq!(sort_log_ids(&vec![]), Vec::<u64>::new());
    assert_eq!(sort_log_ids(&vec![u64::MAX, 0]), vec![0, u64::MAX]);
}

#[test]
fn commit_counts_the_deallocations_in_their_segments() {
    let mut table = AllocTable::new(2 * 1024, true);
    table.alloc_batch(1030).unwrap();
    let mut changes = BlockAlloc::new();
    changes.dealloc_block(5).unwrap();
    changes.dealloc_block(1025).unwrap();
    changes.dealloc_block(1026).unwrap();
    changes.alloc_block(7).unwrap();
    changes.update_alloc_table(&mut table);
    assert_eq!(table.num_free(), 2048 - 1030 + 3);
    assert_eq!(table.bitmap().count_ones(), table.num_free());
    let segments = table.get_segment_table_ref().unwrap();
    assert_eq!(segments[0].free_space(), 1);
    assert_eq!(segments[0].num_valid_blocks(), 1023);
    assert_eq!(segments[1].free_space(), 1024 - 6 + 2);
    assert_eq!(segments[1].num_valid_blocks(), 1022);
    assert_eq!(segments[0].free_space() + segments[1].free_space(), table.num_free());
}
