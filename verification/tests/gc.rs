use sworndisk::bitmap::BitMap;
use sworndisk::block_alloc::AllocTable;
use sworndisk::error::{Errno, Error};
use sworndisk::gc::{
    GreedyVictimPolicy, LoopScanVictimPolicy, SharedState, Threshold, Victim, VictimPolicy,
    VictimPolicyRef, GC_WATERMARK,
};
use sworndisk::gc_worker::{GcWorker, Mapping, HeldRecord, Remap};
use sworndisk::bio::BLOCK_SIZE;
use sworndisk::dealloc_block::DeallocTable;
use sworndisk::inner::IndexOp;
use sworndisk::segment::{Segment, SEGMENT_SIZE};
use sworndisk::sworndisk::RecordValue;

#[test]
fn greedy_victim_policy_test() {
    let bitmap = BitMap::repeat(true, 3 * 1024);
    let mut segment_table = vec![
        Segment::new(0, 1024),
        Segment::new(1, 1024),
        Segment::new(2, 1024),
    ];
    let mut policy = GreedyVictimPolicy {};
    let victim = policy.pick_victim(&segment_table, &bitmap, Threshold::new(0, 1));
    assert!(victim.is_none());
    segment_table[1].mark_alloc();
    // After dealloc, there will be an invalid block in the segment, segment 1 will be the victim
    segment_table[1].mark_deallocated();
    let victim = policy.pick_victim(&segment_table, &bitmap, Threshold::new(0, 1));
    assert_eq!(victim.unwrap().segment_id(), 1);
}

#[test]
fn threshold_test() {
    let bitmap = BitMap::repeat(true, 3 * 1024);
    let mut segment_table = vec![
        Segment::new(0, 1024),
        Segment::new(1, 1024),
        Segment::new(2, 1024),
    ];
    let mut policy = GreedyVictimPolicy {};
    let threshold = 0.2;
    let victim = policy.pick_victim(&segment_table, &bitmap, Threshold::new(2, 10));
    assert!(victim.is_none());

    // deallocate enough blocks to pick the segment as victim
    for _ in 0..((2 * SEGMENT_SIZE) as f64 * threshold) as usize {
        segment_table[1].mark_alloc();
        segment_table[1].mark_deallocated();
    }
    let victim = policy.pick_victim(&segment_table, &bitmap, Threshold::new(2, 10));
    assert_eq!(victim.unwrap().segment_id(), 1);
}

fn table_with_invalid(invalid: &[usize]) -> Vec<Segment> {
    invalid
        .iter()
        .enumerate()
        .map(|(id, n)| {
            let mut segment = Segment::new(id, SEGMENT_SIZE);
            segment.mark_alloc_batch(*n);
            segment.mark_deallocated_batch(*n);
            segment
        })
        .collect()
}

#[test]
fn greedy_takes_the_first_of_the_worst() {
    let table = table_with_invalid(&[200, 700, 100, 700, 699]);
    assert_eq!(GreedyVictimPolicy::greedy_index(&table, Threshold::inactive()), Some(1));
    assert_eq!(GreedyVictimPolicy::greedy_index(&table, Threshold::active()), Some(1));
    assert_eq!(GreedyVictimPolicy::greedy_index(&table, Threshold::new(7, 10)), None);
}

#[test]
fn thresholds_are_exact() {
    let mut segment = Segment::new(0, SEGMENT_SIZE);
    segment.mark_deallocated_batch(614);
    // 614 / 1024 is below six tenths, 615 / 1024 is above
    assert!(!Threshold::active().is_exceeded_by(&segment));
    segment.mark_deallocated();
    assert!(Threshold::active().is_exceeded_by(&segment));
    let mut segment = Segment::new(0, SEGMENT_SIZE);
    segment.mark_deallocated_batch(102);
    assert!(!Threshold::inactive().is_exceeded_by(&segment));
    segment.mark_deallocated();
    assert!(Threshold::inactive().is_exceeded_by(&segment));
    // a share of exactly the threshold is not above it
    let mut segment = Segment::new(0, 10);
    segment.mark_deallocated_batch(6);
    assert!(!Threshold::active().is_exceeded_by(&segment));
}

#[test]
fn victim_holds_the_allocated_blocks() {
    let mut bitmap = BitMap::repeat(true, 2 * 1024);
    bitmap.set(1030, false);
    bitmap.set(1500, false);
    bitmap.set(3, false);
    let table = table_with_invalid(&[0, 300]);
    let mut policy = GreedyVictimPolicy::new();
    let victim = policy.pick_victim(&table, &bitmap, Threshold::inactive()).unwrap();
    assert_eq!(victim.segment_id(), 1);
    assert_eq!(victim.blocks(), &vec![1030, 1500]);
}

#[test]
fn loop_scan_goes_round() {
    let bitmap = BitMap::repeat(true, 4 * 1024);
    let table = table_with_invalid(&[500, 0, 500, 500]);
    let mut policy = LoopScanVictimPolicy::new();
    let threshold = Threshold::inactive();
    // the segment at the cursor is looked at last of all, and never
    assert_eq!(policy.pick_victim(&table, &bitmap, threshold).unwrap().segment_id(), 2);
    assert_eq!(policy.pick_victim(&table, &bitmap, threshold).unwrap().segment_id(), 3);
    assert_eq!(policy.pick_victim(&table, &bitmap, threshold).unwrap().segment_id(), 0);
    assert_eq!(policy.pick_victim(&table, &bitmap, threshold).unwrap().segment_id(), 2);
    let quiet = table_with_invalid(&[0, 0, 500, 0]);
    // the cursor stands at segment 2, which is left out
    assert!(policy.pick_victim(&quiet, &bitmap, threshold).is_none());
    assert!(policy.is_ready(4));
    assert!(!policy.is_ready(2));
    let single = table_with_invalid(&[900]);
    let mut policy = LoopScanVictimPolicy::new();
    assert!(policy.pick_victim(&single, &bitmap, threshold).is_none());
}

#[test]
fn policy_choice_dispatches() {
    let bitmap = BitMap::repeat(true, 3 * 1024);
    let table = table_with_invalid(&[0, 200, 900]);
    let mut greedy = VictimPolicyRef::Greedy(GreedyVictimPolicy::new());
    let mut scan = VictimPolicyRef::LoopScan(LoopScanVictimPolicy::new());
    assert!(greedy.is_ready(&table));
    assert!(scan.is_ready(&table));
    assert!(!scan.is_ready(&[]));
    assert_eq!(greedy.pick_victim(&table, &bitmap, Threshold::inactive()).unwrap().segment_id(), 2);
    assert_eq!(scan.pick_victim(&table, &bitmap, Threshold::inactive()).unwrap().segment_id(), 1);
}

#[test]
fn barrier_state() {
    let mut state = SharedState::new();
    assert!(state.wait_for_background_gc());
    assert!(state.wait_for_compaction());
    state.start_gc();
    assert!(!state.wait_for_background_gc());
    assert!(state.wait_for_compaction());
    state.start_compaction();
    assert!(!state.wait_for_compaction());
    state.notify_gc_finished();
    assert!(state.wait_for_background_gc());
    assert!(!state.wait_for_compaction());
    state.notify_compaction_finished();
    assert!(state.wait_for_compaction());
}

#[test]
fn a_pass_stops_at_the_watermark() {
    let mut table = AllocTable::new(2 * SEGMENT_SIZE, true);
    table.alloc_batch(900).unwrap();
    for hba in 0..800 {
        table.set_deallocated(hba);
    }
    let mut worker = GcWorker::new(VictimPolicyRef::Greedy(GreedyVictimPolicy::new()));
    assert!(worker.is_ready(&table));
    assert_eq!(GC_WATERMARK, 16);
    let victim = worker.background_gc(&table, true, 15).unwrap();
    assert_eq!(victim.segment_id(), 0);
    assert_eq!(victim.blocks().len(), 100);
    assert!(worker.background_gc(&table, true, 16).is_none());
    // 800 invalid blocks are above six tenths; 600 are not
    let mut table = AllocTable::new(2 * SEGMENT_SIZE, true);
    table.alloc_batch(700).unwrap();
    for hba in 0..600 {
        table.set_deallocated(hba);
    }
    assert!(worker.background_gc(&table, true, 0).is_none());
    assert!(worker.background_gc(&table, false, 0).is_some());
    assert_eq!(GcWorker::interval(true), 5000);
    assert_eq!(GcWorker::interval(false), 100);
    let without_gc = AllocTable::new(2 * SEGMENT_SIZE, false);
    assert!(!worker.is_ready(&without_gc));
}

#[test]
fn targets_come_from_other_segments() {
    let mut table = AllocTable::new(3 * SEGMENT_SIZE, true);
    // segment 0 full, the first two blocks of segment 1 taken
    table.alloc_batch(SEGMENT_SIZE + 2).unwrap();
    let victim = Victim::new(0, vec![5, 6, 7, 8]);
    let current = vec![
        Ok(Mapping { lba: 50, hba: 5 }),
        Ok(Mapping { lba: 60, hba: 999 }),
        Ok(Mapping { lba: 70, hba: 7 }),
        Ok(Mapping { lba: 80, hba: 8 }),
    ];
    let found = GcWorker::find_target_hbas(&table, &victim, &current).unwrap();
    assert_eq!(found.valid, vec![5, 7, 8]);
    assert_eq!(found.discard.len(), 1);
    assert_eq!((found.discard[0].lba, found.discard[0].hba), (60, 6));
    assert_eq!(found.targets, vec![1026, 1027, 1028]);

    let failing = vec![
        Ok(Mapping { lba: 50, hba: 5 }),
        Err(Error::new(Errno::IoFailed)),
        Err(Error::new(Errno::NotFound)),
        Ok(Mapping { lba: 80, hba: 8 }),
    ];
    let err = match GcWorker::find_target_hbas(&table, &victim, &failing) {
        Err(e) => e,
        Ok(_) => panic!("a failed lookup was passed over"),
    };
    assert_eq!(err.errno(), Errno::IoFailed);
}

#[test]
fn no_room_for_the_live_blocks() {
    let mut table = AllocTable::new(2 * SEGMENT_SIZE, true);
    table.alloc_batch(2 * SEGMENT_SIZE - 1).unwrap();
    let victim = Victim::new(0, vec![1, 2]);
    let current = vec![Ok(Mapping { lba: 1, hba: 1 }), Ok(Mapping { lba: 2, hba: 2 })];
    let err = match GcWorker::find_target_hbas(&table, &victim, &current) {
        Err(e) => e,
        Ok(_) => panic!("targets were found where none are free"),
    };
    assert_eq!(err.errno(), Errno::OutOfDisk);
}

#[test]
fn live_blocks_are_copied_run_by_run() {
    let mut victim_data = vec![0u8; SEGMENT_SIZE * BLOCK_SIZE];
    for nth in 0..SEGMENT_SIZE {
        victim_data[nth * BLOCK_SIZE..(nth + 1) * BLOCK_SIZE].fill(nth as u8);
    }
    // the victim is segment 2: block 2048 + n lies at place n
    let valid = vec![2048 + 3, 2048 + 9, 2048 + 200];
    let targets = vec![10, 11, 40];
    let writes = GcWorker::clean_and_migrate_data(&victim_data, &valid, &targets);
    assert_eq!(writes.len(), 2);
    assert_eq!(writes[0].hba, 10);
    assert_eq!(writes[0].data.len(), 2 * BLOCK_SIZE);
    assert!(writes[0].data[..BLOCK_SIZE].iter().all(|b| *b == 3));
    assert!(writes[0].data[BLOCK_SIZE..].iter().all(|b| *b == 9));
    assert_eq!(writes[1].hba, 40);
    assert!(writes[1].data.iter().all(|b| *b == 200));
    assert_eq!(writes[1].data.len(), BLOCK_SIZE);
}

#[test]
fn remap_keeps_key_and_tag() {
    let mut marks = DeallocTable::new(64);
    let remapped = vec![Remap { old_hba: 4, new_hba: 40 }, Remap { old_hba: 5, new_hba: 41 }];
    let held = vec![
        HeldRecord { lba: 100, value: RecordValue { hba: 4, key: [1; 16], mac: [2; 16] } },
        HeldRecord { lba: 101, value: RecordValue { hba: 5, key: [3; 16], mac: [4; 16] } },
    ];
    let ops = GcWorker::remap_index_batch(&mut marks, &remapped, &held);
    assert_eq!(ops.len(), 4);
    match ops[0] {
        IndexOp::Put(key, value) => {
            assert_eq!(key.lba, 100);
            assert_eq!(value.hba, 40);
            assert_eq!(value.key, [1; 16]);
            assert_eq!(value.mac, [2; 16]);
        }
        _ => panic!("the first operation is not a put"),
    }
    match ops[3] {
        IndexOp::PutReverse(key, value) => {
            assert_eq!(key.hba, 41);
            assert_eq!(value.lba, 101);
        }
        _ => panic!("the last operation is not a reverse put"),
    }
    assert!(marks.has_deallocated(4));
    assert!(marks.has_deallocated(5));
    assert!(!marks.has_deallocated(40));
    marks.finish_deallocated(4);
    assert!(!marks.has_deallocated(4));
    assert_eq!(marks.nblocks(), 64);
}
