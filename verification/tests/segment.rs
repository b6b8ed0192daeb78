use hashbrown::HashSet;
use sworndisk::bitmap::BitMap;
use sworndisk::segment::{recover_segment_table, Segment};

#[test]
fn test_segment_alloc_table() {
    let mut segment = Segment::new(0, 1024);
    segment.mark_alloc();
    assert_eq!(segment.num_valid_blocks(), 1024);
}

#[test]
fn test_segment_alloc_table_batch() {
    let mut segment = Segment::new(0, 1024);
    segment.mark_alloc_batch(10);
    assert_eq!(segment.num_valid_blocks(), 1024);
    assert_eq!(segment.free_space(), 1014);
    segment.mark_deallocated();
    assert_eq!(segment.num_valid_blocks(), 1023);
    assert_eq!(segment.free_space(), 1015);
}

#[test]
fn find_free_and_allocated_blocks() {
    let mut bitmap = BitMap::repeat(true, 3 * 1024);
    bitmap.set(0, false);
    bitmap.set(1, false);

    bitmap.set(1024, false);
    bitmap.set(1025, false);
    bitmap.set(1026, false);

    let segments = vec![
        Segment::new(0, 1024),
        Segment::new(1, 1024),
        Segment::new(2, 1024),
    ];

    assert_eq!(segments[0].find_all_free_blocks(&bitmap).len(), 1022);
    assert_eq!(segments[1].find_all_free_blocks(&bitmap).len(), 1021);
    assert_eq!(segments[2].find_all_free_blocks(&bitmap).len(), 1024);

    let free_set0: HashSet<usize> = segments[0].find_all_free_blocks(&bitmap).into_iter().collect();
    let free_set1: HashSet<usize> = segments[1].find_all_free_blocks(&bitmap).into_iter().collect();
    let free_set2: HashSet<usize> = segments[2].find_all_free_blocks(&bitmap).into_iter().collect();
    assert_eq!(free_set0.len(), 1022);
    assert_eq!(free_set1.len(), 1021);
    assert_eq!(free_set2.len(), 1024);
    assert!(!free_set0.contains(&0));
    assert!(!free_set0.contains(&1));

    assert!(!free_set1.contains(&1024));
    assert!(!free_set1.contains(&1025));
    assert!(!free_set1.contains(&1026));

    assert_eq!(segments[0].find_all_allocated_blocks(&bitmap).len(), 2);
    assert_eq!(segments[1].find_all_allocated_blocks(&bitmap).len(), 3);
    assert_eq!(segments[2].find_all_allocated_blocks(&bitmap).len(), 0);
}

#[test]
fn recover_segment() {
    let mut segment = Segment::new(0, 1024);
    segment.mark_alloc();
    segment.mark_alloc();
    segment.mark_deallocated();
    // valid_blocks: 1023, free_space: 1023
    let mut buf = vec![0; 2 * std::mem::size_of::<usize>()];
    segment.to_slice(&mut buf).unwrap();
    let recovered_segment = Segment::recover(0, &buf, 1024).unwrap();
    assert_eq!(recovered_segment.num_valid_blocks(), 1023);
    assert_eq!(recovered_segment.free_space(), 1023);
}

#[test]
fn recover_multi_segments() {
    let mut segments = vec![
        Segment::new(0, 1024),
        Segment::new(1, 1024),
        Segment::new(2, 1024),
    ];
    segments[0].mark_alloc_batch(2);
    segments[0].mark_deallocated();
    segments[1].mark_alloc_batch(3);
    segments[1].mark_deallocated();
    segments[2].mark_alloc_batch(4);

    let mut buf = vec![0; Segment::ser_size() * 3];
    for (idx, segment) in segments.iter().enumerate() {
        let offset = idx * Segment::ser_size();
        let segment_buf = &mut buf[offset..offset + Segment::ser_size()];
        segment.to_slice(segment_buf).unwrap();
    }
    let recovered_segments = recover_segment_table(3, buf.as_slice()).unwrap();
    assert_eq!(recovered_segments.len(), 3);
    assert_eq!(recovered_segments[0].num_valid_blocks(), 1023);
    assert_eq!(recovered_segments[0].free_space(), 1023);
    assert_eq!(recovered_segments[1].num_valid_blocks(), 1023);
    assert_eq!(recovered_segments[1].free_space(), 1022);
    assert_eq!(recovered_segments[2].num_valid_blocks(), 1024);
    assert_eq!(recovered_segments[2].free_space(), 1020);
}

#[test]
fn segment_encoding_is_two_varints() {
    let mut segment = Segment::new(7, 1024);
    segment.mark_alloc_batch(1000);
    let mut buf = vec![0xffu8; 16];
    let len = segment.to_slice(&mut buf).unwrap();
    // 1024 = 0x80 0x08, 24 = 0x18
    assert_eq!(len, 3);
    assert_eq!(&buf[..3], &[0x80, 0x08, 0x18]);
    assert_eq!(buf[3], 0xff);
}

#[test]
fn segment_to_slice_needs_room() {
    let segment = Segment::new(0, 1024);
    let mut buf = vec![0u8; 3];
    let err = segment.to_slice(&mut buf).unwrap_err();
    assert_eq!(err.errno(), sworndisk::Errno::InvalidArgs);
}

#[test]
fn segment_table_with_missing_slot_is_refused() {
    let buf = vec![0u8; 16 * 2];
    assert!(recover_segment_table(2, &buf).is_ok());
    let err = match recover_segment_table(3, &buf) {
        Err(e) => e,
        Ok(_) => panic!("a table with a missing slot was accepted"),
    };
    assert_eq!(err.errno(), sworndisk::Errno::InvalidArgs);
}

#[test]
fn segment_counters_wrap() {
    let mut segment = Segment::new(0, 4);
    segment.mark_alloc_batch(5);
    assert_eq!(segment.free_space(), usize::MAX);
    segment.mark_deallocated();
    assert_eq!(segment.free_space(), 0);
    assert_eq!(segment.num_valid_blocks(), 3);
    assert_eq!(segment.num_invalid_blocks(), 1);
    segment.clear_segment();
    assert_eq!(segment.free_space(), 4);
    assert_eq!(segment.num_valid_blocks(), 4);
}
