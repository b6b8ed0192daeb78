use sworndisk::block_alloc::{AllocBatch, AllocTable};
use sworndisk::segment::SEGMENT_SIZE;
use sworndisk::Errno;

#[test]
fn test_alloc_table() {
    let mut alloc_table = AllocTable::new(1024, true);
    assert_eq!(alloc_table.alloc_one(), Some(0));
    assert_eq!(alloc_table.alloc_one(), Some(1));
    {
        let segment_table = alloc_table.get_segment_table_ref().unwrap();
        assert_eq!(segment_table[0].num_valid_blocks(), 1024);
        assert_eq!(segment_table[0].free_space(), 1022);
    }

    alloc_table.set_deallocated(0);
    {
        let segment_table = alloc_table.get_segment_table_ref().unwrap();
        assert_eq!(segment_table[0].num_valid_blocks(), 1023);
        assert_eq!(segment_table[0].free_space(), 1023);
    }
    alloc_table.set_deallocated(1);
    let segment_table = alloc_table.get_segment_table_ref().unwrap();
    assert_eq!(segment_table[0].num_valid_blocks(), 1022);
    assert_eq!(segment_table[0].free_space(), 1024);
}

#[test]
fn test_alloc_table_batch() {
    let mut alloc_table = AllocTable::new(1024, true);
    let hbas = alloc_table.alloc_batch(1024).unwrap().into_blocks().unwrap();
    assert_eq!(hbas.len(), 1024);
    {
        let segment_table = alloc_table.get_segment_table_ref().unwrap();
        assert!(segment_table[0].num_valid_blocks() == 1024);
        assert_eq!(segment_table[0].free_space(), 0);
    }

    let mut alloc_table = AllocTable::new(4 * SEGMENT_SIZE, true);
    let hbas = alloc_table.alloc_batch(SEGMENT_SIZE + 2).unwrap().into_blocks().unwrap();
    assert_eq!(hbas.len(), 1026);
    {
        let segment_table = alloc_table.get_segment_table_ref().unwrap();
        assert_eq!(segment_table[0].num_valid_blocks(), 1024);
        assert_eq!(segment_table[1].num_valid_blocks(), 1024);
        assert_eq!(segment_table[0].free_space(), 0);
        assert_eq!(segment_table[1].free_space(), 1022);
    }

    alloc_table.set_deallocated(1024);
    {
        let segment_table = alloc_table.get_segment_table_ref().unwrap();
        assert_eq!(segment_table[1].num_valid_blocks(), 1023);
        assert_eq!(segment_table[1].free_space(), 1023);
    }

    let mut alloc_table = AllocTable::new(200 * SEGMENT_SIZE, true);
    let hbas = alloc_table.alloc_batch(100 * SEGMENT_SIZE + 2).unwrap().into_blocks().unwrap();
    assert_eq!(hbas.len(), 100 * SEGMENT_SIZE + 2);
    let segment_table = alloc_table.get_segment_table_ref().unwrap();
    for segment_id in 0..100 {
        assert_eq!(segment_table[segment_id].num_valid_blocks(), SEGMENT_SIZE);
        assert_eq!(segment_table[segment_id].free_space(), 0);
    }
    assert_eq!(segment_table[100].num_valid_blocks(), 1024);
    assert_eq!(segment_table[100].free_space(), 1022);
}

#[test]
fn alloc_batch_is_contiguous_on_a_fresh_table() {
    let mut alloc_table = AllocTable::new(128 * 1024, false);
    let hbas = alloc_table.alloc_batch(16).unwrap().into_blocks().unwrap();
    assert_eq!(hbas, (0..16).collect::<Vec<usize>>());
    assert_eq!(alloc_table.num_free(), 128 * 1024 - 16);
    assert_eq!(alloc_table.next_avail(), 16);
    assert!(alloc_table.is_dirty());
    assert!(alloc_table.get_segment_table_ref().is_none());
}

#[test]
fn alloc_batch_wraps_at_the_end() {
    let mut alloc_table = AllocTable::new(32, false);
    let first = alloc_table.alloc_batch(30).unwrap().into_blocks().unwrap();
    assert_eq!(first.len(), 30);
    assert_eq!(alloc_table.next_avail(), 30);
    for hba in 0..4 {
        alloc_table.set_deallocated(hba);
    }
    // two blocks are free behind the cursor, four in front of it:
    // 30 + 3 > 32, so the search starts again at the first block
    let hbas = alloc_table.alloc_batch(3).unwrap().into_blocks().unwrap();
    assert_eq!(hbas, vec![0, 1, 2]);
    assert_eq!(alloc_table.next_avail(), 3);
    assert_eq!(alloc_table.num_free(), 3);
}

#[test]
fn alloc_batch_skips_allocated_blocks() {
    let mut alloc_table = AllocTable::new(16, false);
    let hbas = alloc_table.alloc_batch(6).unwrap().into_blocks().unwrap();
    assert_eq!(hbas, vec![0, 1, 2, 3, 4, 5]);
    alloc_table.set_deallocated(1);
    alloc_table.set_deallocated(4);
    let mut table = AllocTable::new(16, false);
    table.alloc_batch(8).unwrap();
    table.set_deallocated(2);
    table.set_deallocated(5);
    // the cursor stands at 8; 8 + 9 > 16 starts the search at the front
    let hbas = table.alloc_batch(9).unwrap().into_blocks().unwrap();
    assert_eq!(hbas, vec![2, 5, 8, 9, 10, 11, 12, 13, 14]);
}

#[test]
fn alloc_batch_waits_until_enough_blocks_are_free() {
    let mut alloc_table = AllocTable::new(8, false);
    alloc_table.alloc_batch(6).unwrap();
    // two blocks are counted as free: a batch of three has to wait
    assert!(matches!(alloc_table.alloc_batch(3), Ok(AllocBatch::Wait)));
    assert_eq!(alloc_table.num_free(), 2);
    assert_eq!(alloc_table.next_avail(), 6);
    assert_eq!(alloc_table.bitmap().count_ones(), 2);
    // it completes once enough blocks were given back
    alloc_table.set_deallocated(0);
    let hbas = alloc_table.alloc_batch(3).unwrap().into_blocks().unwrap();
    assert_eq!(hbas, vec![0, 6, 7]);
    assert_eq!(alloc_table.num_free(), 0);
    assert!(matches!(alloc_table.alloc_batch(1), Ok(AllocBatch::Wait)));
}

#[test]
fn alloc_batch_out_of_disk() {
    let mut alloc_table = AllocTable::new(8, false);
    // blocks that are taken without being counted leave the count too high
    alloc_table.migrate_batch(&[0, 1, 2, 3, 4, 5]);
    assert_eq!(alloc_table.num_free(), 8);
    let err = match alloc_table.alloc_batch(3) {
        Err(e) => e,
        Ok(_) => panic!("three blocks were had where two are free"),
    };
    assert_eq!(err.errno(), Errno::OutOfDisk);
    assert_eq!(alloc_table.num_free(), 8);
    assert_eq!(alloc_table.bitmap().count_ones(), 2);
    let hbas = alloc_table.alloc_batch(2).unwrap().into_blocks().unwrap();
    assert_eq!(hbas, vec![6, 7]);
}

#[test]
fn alloc_one_counts_its_block() {
    let mut alloc_table = AllocTable::new(1024, true);
    assert_eq!(alloc_table.alloc_one(), Some(0));
    assert_eq!(alloc_table.num_free(), 1023);
    assert_eq!(alloc_table.bitmap().count_ones(), 1023);
    let segments = alloc_table.get_segment_table_ref().unwrap();
    assert_eq!(segments[0].free_space(), alloc_table.num_free());
}

#[test]
fn alloc_one_searches_from_the_cursor_then_from_the_front() {
    let mut alloc_table = AllocTable::new(4, false);
    assert_eq!(alloc_table.alloc_one(), Some(0));
    assert_eq!(alloc_table.alloc_one(), Some(1));
    assert_eq!(alloc_table.alloc_one(), Some(2));
    assert_eq!(alloc_table.alloc_one(), Some(3));
    assert_eq!(alloc_table.alloc_one(), None);
    alloc_table.set_deallocated(1);
    assert_eq!(alloc_table.alloc_one(), Some(1));
    assert_eq!(alloc_table.next_avail(), 2);
}

#[test]
fn set_deallocated_wakes_at_the_threshold() {
    let mut alloc_table = AllocTable::new(2048, false);
    alloc_table.alloc_batch(1026).unwrap();
    assert_eq!(alloc_table.num_free(), 1022);
    assert!(!alloc_table.set_deallocated(0));
    assert!(alloc_table.set_deallocated(1));
    assert_eq!(alloc_table.num_free(), 1024);
}

#[test]
fn migrate_and_clear_keep_the_counts() {
    let mut alloc_table = AllocTable::new(2 * SEGMENT_SIZE, true);
    alloc_table.alloc_batch(10).unwrap();
    let before = alloc_table.num_free();
    // three live blocks move to the second segment, seven are dropped
    alloc_table.migrate_batch(&[1024, 1025, 1026]);
    assert_eq!(alloc_table.num_free(), before);
    alloc_table.clear_segment(0, 7);
    assert_eq!(alloc_table.num_free(), before + 7);
    assert_eq!(alloc_table.bitmap().count_ones(), alloc_table.num_free());
    let segments = alloc_table.get_segment_table_ref().unwrap();
    assert_eq!(segments[0].free_space(), SEGMENT_SIZE);
    assert_eq!(segments[0].num_valid_blocks(), SEGMENT_SIZE);
    assert_eq!(segments[1].free_space(), SEGMENT_SIZE - 3);
    assert_eq!(
        segments[0].free_space() + segments[1].free_space(),
        alloc_table.num_free()
    );
    assert!(alloc_table.bitmap().test_bit(0));
    assert!(!alloc_table.bitmap().test_bit(1025));
}

#[test]
fn counters_that_do_not_fit_their_slot_are_not_persisted() {
    let mut table = AllocTable::new(SEGMENT_SIZE, true);
    table.alloc_batch(1).unwrap();
    for _ in 0..1025 {
        table.set_deallocated(0);
    }
    for _ in 0..2049 {
        table.migrate_batch(&[0]);
    }
    {
        let segments = table.get_segment_table_ref().unwrap();
        assert_eq!(segments[0].num_valid_blocks(), usize::MAX);
        assert_eq!(segments[0].free_space(), usize::MAX);
    }
    let err = match table.do_compaction() {
        Err(e) => e,
        Ok(_) => panic!("counters of ten bytes each were written into sixteen"),
    };
    assert_eq!(err.errno(), Errno::InvalidArgs);
    table.clear_segment(0, 0);
    assert!(table.do_compaction().unwrap().is_some());
}
