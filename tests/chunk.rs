use bottom::chunk::{DataChunk, ValueChunk};

/// Basic sanity test for current chunk adding/pruning behaviour.
#[test]
fn prune_current_chunk() {
    let mut vc = ValueChunk::default();
    let times = vec![1.0, 2.0, 3.0, 4.0, 5.0, 6.0];

    let mut index = 1;
    for time in &times[index..] {
        vc.add(*time * 2.0, index);
        index += 1
    }

    assert_eq!(
        (&vc).current.as_ref().unwrap().data,
        &[4.0, 6.0, 8.0, 10.0, 12.0]
    );
    assert_eq!((&vc).current.as_ref().unwrap().start_offset, 1);
    assert_eq!((&vc).current.as_ref().unwrap().end_offset, 6);

    // Test removing partially.
    vc.prune(3);
    assert_eq!((&vc).current.as_ref().unwrap().data, &[8.0, 10.0, 12.0]);
    assert_eq!((&vc).current.as_ref().unwrap().start_offset, 0);
    assert_eq!((&vc).current.as_ref().unwrap().end_offset, 3);

    // Test fully clearing house.
    vc.prune(3);
    assert_eq!((&vc).current.as_ref().unwrap().data, &[] as &[f64]);
    assert_eq!((&vc).current.as_ref().unwrap().start_offset, 0);
    assert_eq!((&vc).current.as_ref().unwrap().end_offset, 0);

    // Test re-adding values and clearing again.
    let second_input = [1.0, 2.0, 3.0, 4.0];
    for (index, val) in second_input.into_iter().enumerate() {
        vc.add(val, index);
    }

    assert_eq!((&vc).current.as_ref().unwrap().data, &second_input);
    assert_eq!((&vc).current.as_ref().unwrap().start_offset, 0);
    assert_eq!((&vc).current.as_ref().unwrap().end_offset, 4);

    vc.prune(3);
    assert_eq!((&vc).current.as_ref().unwrap().data, &[4.0]);
    assert_eq!((&vc).current.as_ref().unwrap().start_offset, 0);
    assert_eq!((&vc).current.as_ref().unwrap().end_offset, 1);

    vc.prune(0);
    assert_eq!((&vc).current.as_ref().unwrap().data, &[4.0]);
    assert_eq!((&vc).current.as_ref().unwrap().start_offset, 0);
    assert_eq!((&vc).current.as_ref().unwrap().end_offset, 1);

    vc.prune(1);
    assert_eq!((&vc).current.as_ref().unwrap().data, &[] as &[f64]);
    assert_eq!((&vc).current.as_ref().unwrap().start_offset, 0);
    assert_eq!((&vc).current.as_ref().unwrap().end_offset, 0);
}

/// Test pruning multiple chunks.
#[test]
fn prune_multi() {
    // Let's simulate the following:
    //
    // |_________________|_________________|____________|
    // 0    chunk 1      5     no data    10  chunk 2   20

    let mut vc = ValueChunk::default();

    for i in 0..5 {
        vc.add((i * 10) as f64, i);
    }

    vc.end_chunk();

    for i in 10..20 {
        vc.add((i * 100) as f64, i);
    }

    assert!(vc.current.is_some());
    assert_eq!(vc.previous_chunks.len(), 1);

    assert_eq!(vc.current.as_ref().unwrap().data.len(), 10);
    assert_eq!(vc.current.as_ref().unwrap().start_offset, 10);
    assert_eq!(vc.current.as_ref().unwrap().end_offset, 20);

    assert_eq!(vc.previous_chunks.get(0).as_ref().unwrap().data.len(), 5);
    assert_eq!(vc.previous_chunks.get(0).as_ref().unwrap().start_offset, 0);
    assert_eq!(vc.previous_chunks.get(0).as_ref().unwrap().end_offset, 5);

    // Try partial pruning previous, make sure it affects current indices too.
    vc.prune(3);

    assert!(vc.current.is_some());
    assert_eq!(vc.previous_chunks.len(), 1);

    assert_eq!(vc.current.as_ref().unwrap().data.len(), 10);
    assert_eq!(vc.current.as_ref().unwrap().start_offset, 7);
    assert_eq!(vc.current.as_ref().unwrap().end_offset, 17);

    assert_eq!(vc.previous_chunks.get(0).as_ref().unwrap().data.len(), 2);
    assert_eq!(vc.previous_chunks.get(0).as_ref().unwrap().start_offset, 0);
    assert_eq!(vc.previous_chunks.get(0).as_ref().unwrap().end_offset, 2);

    // Try full pruning previous.
    vc.prune(2);

    assert!(vc.current.is_some());
    assert!(vc.previous_chunks.is_empty());

    assert_eq!(vc.current.as_ref().unwrap().data.len(), 10);
    assert_eq!(vc.current.as_ref().unwrap().start_offset, 5);
    assert_eq!(vc.current.as_ref().unwrap().end_offset, 15);

    // End chunk, then add a new one. Then end chunk and add a new one. Then end chunk and add a new one.
    vc.end_chunk();
    for i in 15..30 {
        vc.add((i * 1000) as f64, i);
    }

    vc.end_chunk();
    for i in 35..50 {
        vc.add((i * 10000) as f64, i);
    }

    vc.end_chunk();
    for i in 58..60 {
        vc.add((i * 100000) as f64, i);
    }

    assert!(vc.current.is_some());
    assert_eq!(vc.previous_chunks.len(), 3);

    // Ensure current chunk is downgraded to previous_chunks.
    assert_eq!(vc.previous_chunks[0].data.len(), 10);

    // Try pruning the middle chunk, ensure older chunks are cleared and newer chunks are updated.
    vc.prune(25);

    assert!(vc.current.is_some());
    assert_eq!(vc.previous_chunks.len(), 2);

    assert_eq!(vc.previous_chunks.get(0).as_ref().unwrap().data.len(), 5);
    assert_eq!(vc.previous_chunks.get(0).as_ref().unwrap().start_offset, 0);
    assert_eq!(vc.previous_chunks.get(0).as_ref().unwrap().end_offset, 5);

    // Gap of 5, so 5 + 5 = 10
    assert_eq!(vc.previous_chunks.get(1).as_ref().unwrap().data.len(), 15);
    assert_eq!(vc.previous_chunks.get(1).as_ref().unwrap().start_offset, 10);
    assert_eq!(vc.previous_chunks.get(1).as_ref().unwrap().end_offset, 25);

    // Gap of 8, so 25 + 8 = 33
    assert_eq!(vc.current.as_ref().unwrap().data.len(), 2);
    assert_eq!(vc.current.as_ref().unwrap().start_offset, 33);
    assert_eq!(vc.current.as_ref().unwrap().end_offset, 35);

    // Try pruning current. Ensure previous chunks are cleared.
    vc.prune(34);

    assert!(vc.current.is_some());
    assert!(vc.previous_chunks.is_empty());

    assert_eq!(vc.current.as_ref().unwrap().data.len(), 1);
    assert_eq!(vc.current.as_ref().unwrap().start_offset, 0);
    assert_eq!(vc.current.as_ref().unwrap().end_offset, 1);

    vc.prune(1);

    assert!(vc.current.as_ref().unwrap().data.is_empty());
    assert_eq!(vc.current.as_ref().unwrap().start_offset, 0);
    assert_eq!(vc.current.as_ref().unwrap().end_offset, 0);
}

#[test]
fn data_chunk_new_covers_one_index() {
    let c = DataChunk::new(2.5, 7);
    assert_eq!(c.start_offset, 7);
    assert_eq!(c.end_offset, 8);
    assert_eq!(c.data, vec![2.5]);
}

#[test]
fn data_chunk_try_prune_cases() {
    let mut c = DataChunk::new(1, 4);
    c.data.push(2);
    c.data.push(3);
    c.end_offset = 7;
    // Boundary at or before the start: nothing happens.
    assert!(!c.try_prune(4));
    assert_eq!((c.start_offset, c.end_offset), (4, 7));
    assert_eq!(c.data, vec![1, 2, 3]);
    // Boundary inside: the prefix goes and the chunk is rebased.
    assert!(c.try_prune(5));
    assert_eq!((c.start_offset, c.end_offset), (0, 2));
    assert_eq!(c.data, vec![2, 3]);
    // Boundary past the end: everything goes.
    assert!(c.try_prune(9));
    assert_eq!((c.start_offset, c.end_offset), (0, 0));
    assert!(c.data.is_empty());
}

#[test]
fn data_chunk_update_indices_shifts() {
    let mut c = DataChunk::new(1u64, 10);
    c.update_indices(4);
    assert_eq!((c.start_offset, c.end_offset), (6, 7));
    assert_eq!(c.data, vec![1]);
}

#[test]
fn gap_round_trip() {
    let mut vc = ValueChunk::new();
    for i in 0..5 {
        vc.add(i as u64, i);
    }
    vc.end_chunk();
    for i in 10..15 {
        vc.add(i as u64, i);
    }
    assert_eq!(vc.previous_chunks.len(), 1);
    let sealed = &vc.previous_chunks[0];
    assert_eq!((sealed.start_offset, sealed.end_offset), (0, 5));
    assert_eq!(sealed.data, vec![0, 1, 2, 3, 4]);
    let current = vc.current.as_ref().unwrap();
    assert_eq!((current.start_offset, current.end_offset), (10, 15));
    assert_eq!(current.data, vec![10, 11, 12, 13, 14]);
    // No chunk covers an index of [5, 10).
    for c in vc.previous_chunks.iter().chain(vc.current.iter()) {
        assert!(c.end_offset <= 5 || c.start_offset >= 10);
    }
}

#[test]
fn partial_prune_scenario() {
    let mut vc = ValueChunk::new();
    for (i, v) in [4.0, 6.0, 8.0, 10.0, 12.0].into_iter().enumerate() {
        vc.add(v, i + 1);
    }
    vc.prune(3);
    let c = vc.current.as_ref().unwrap();
    assert_eq!((c.start_offset, c.end_offset), (0, 3));
    assert_eq!(c.data, vec![8.0, 10.0, 12.0]);
    vc.prune(3);
    let c = vc.current.as_ref().unwrap();
    assert_eq!((c.start_offset, c.end_offset), (0, 0));
    assert!(c.data.is_empty());
}

#[test]
fn cascading_rebase_scenario() {
    let mut vc = ValueChunk::new();
    for i in 0..5 {
        vc.add(i, i);
    }
    vc.end_chunk();
    for i in 10..20 {
        vc.add(i, i);
    }
    vc.end_chunk();
    for i in 22..30 {
        vc.add(i, i);
    }
    vc.end_chunk();
    for i in 32..35 {
        vc.add(i, i);
    }
    assert_eq!(vc.previous_chunks.len(), 3);
    // The boundary falls inside the middle sealed chunk.
    vc.prune(14);
    assert_eq!(vc.previous_chunks.len(), 2);
    let middle = &vc.previous_chunks[0];
    assert_eq!((middle.start_offset, middle.end_offset), (0, 6));
    assert_eq!(middle.data, vec![14, 15, 16, 17, 18, 19]);
    let third = &vc.previous_chunks[1];
    assert_eq!((third.start_offset, third.end_offset), (8, 16));
    let current = vc.current.as_ref().unwrap();
    assert_eq!((current.start_offset, current.end_offset), (18, 21));
    assert_eq!(current.data, vec![32, 33, 34]);
}

#[test]
fn prune_dropping_boundary_chunk_rebases_all_newer() {
    let mut vc = ValueChunk::new();
    for i in 0..3 {
        vc.add(i, i);
    }
    vc.end_chunk();
    for i in 6..8 {
        vc.add(i, i);
    }
    vc.end_chunk();
    for i in 10..12 {
        vc.add(i, i);
    }
    // The boundary is past the end of the oldest chunk, in the gap after it.
    vc.prune(4);
    assert_eq!(vc.previous_chunks.len(), 1);
    assert_eq!((vc.previous_chunks[0].start_offset, vc.previous_chunks[0].end_offset), (2, 4));
    let c = vc.current.as_ref().unwrap();
    assert_eq!((c.start_offset, c.end_offset), (6, 8));
}

#[test]
fn prune_before_all_data_is_noop() {
    let mut vc = ValueChunk::new();
    for i in 5..8 {
        vc.add(i, i);
    }
    vc.prune(5);
    let c = vc.current.as_ref().unwrap();
    assert_eq!((c.start_offset, c.end_offset), (5, 8));
    assert_eq!(c.data, vec![5, 6, 7]);
}

#[test]
fn evict_rebases_later_history() {
    let mut vc = ValueChunk::new();
    for i in 5..8 {
        vc.add(i, i);
    }
    vc.evict(5);
    let c = vc.current.as_ref().unwrap();
    assert_eq!((c.start_offset, c.end_offset), (0, 3));
    assert_eq!(c.data, vec![5, 6, 7]);
    vc.evict(1);
    let c = vc.current.as_ref().unwrap();
    assert_eq!((c.start_offset, c.end_offset), (0, 2));
    assert_eq!(c.data, vec![6, 7]);
}

#[test]
fn is_empty_reports_samples() {
    let mut vc: ValueChunk<u8> = ValueChunk::new();
    assert!(vc.is_empty());
    vc.add(1, 0);
    assert!(!vc.is_empty());
    vc.end_chunk();
    assert!(!vc.is_empty());
    vc.prune(1);
    assert!(vc.is_empty());
}

#[test]
fn repeated_prune_count_never_grows() {
    let mut vc = ValueChunk::new();
    for i in 0..4 {
        vc.add(i, i);
    }
    vc.end_chunk();
    for i in 6..12 {
        vc.add(i, i);
    }
    let count = |vc: &ValueChunk<usize>| {
        vc.previous_chunks.iter().map(|c| c.data.len()).sum::<usize>()
            + vc.current.as_ref().map_or(0, |c| c.data.len())
    };
    let mut last = count(&vc);
    for k in [1, 1, 2, 3, 5] {
        vc.prune(k);
        let now = count(&vc);
        assert!(now <= last);
        last = now;
    }
}

#[test]
fn prune_twice_after_nothing_left_below_keeps_data() {
    let mut vc = ValueChunk::new();
    for i in 0..2 {
        vc.add(i, i);
    }
    vc.end_chunk();
    for i in 10..12 {
        vc.add(i, i);
    }
    vc.prune(3);
    let c = vc.current.as_ref().unwrap();
    assert_eq!((c.start_offset, c.end_offset), (7, 9));
    vc.prune(3);
    let c = vc.current.as_ref().unwrap();
    assert_eq!((c.start_offset, c.end_offset), (7, 9));
    assert_eq!(c.data, vec![10, 11]);
}
