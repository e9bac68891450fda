use tcg_prof::edge_storage::EdgeAccumulator;

#[test]
fn top_n_basic_recording() {
    let mut acc = EdgeAccumulator::new(100, false);
    acc.record(0x1000, 0x2000);
    acc.record(0x1000, 0x2000);
    acc.record(0x3000, 0x4000);
    assert_eq!(acc.len(), 2);

    let edges = acc.drain();
    assert_eq!(edges.len(), 2);

    let e1 = edges
        .iter()
        .find(|e| e.0 == 0x1000 && e.1 == 0x2000)
        .unwrap();
    assert_eq!(e1.2, 2);

    let e2 = edges
        .iter()
        .find(|e| e.0 == 0x3000 && e.1 == 0x4000)
        .unwrap();
    assert_eq!(e2.2, 1);
}

#[test]
fn top_n_pruning() {
    // Capacity=2, prune threshold=4 (2*capacity)
    let mut acc = EdgeAccumulator::new(2, false);

    // Record 3 different edges: a(10), b(5), c(1)
    for _ in 0..10 {
        acc.record(0xA, 0xB);
    }
    for _ in 0..5 {
        acc.record(0xC, 0xD);
    }
    for _ in 0..1 {
        acc.record(0xE, 0xF);
    }
    // 3 edges < 2*2=4, no pruning yet
    assert_eq!(acc.len(), 3);

    // Add 2 more cold edges to trigger pruning at len > 4
    acc.record(0x10, 0x11);
    acc.record(0x12, 0x13);
    // Now 5 > 4, pruning keeps top 2

    assert!(acc.len() <= 2);
    let edges = acc.drain();
    // The two hottest edges should survive
    let counts: Vec<u64> = edges.iter().map(|e| e.2).collect();
    assert!(counts.contains(&10));
    assert!(counts.contains(&5));
}

#[test]
fn streaming_basic() {
    let mut acc = EdgeAccumulator::new(100, true);
    acc.record(0x1000, 0x2000);
    acc.record(0x1000, 0x2000);
    acc.record(0x3000, 0x4000);
    assert_eq!(acc.len(), 2);
    assert!(!acc.should_flush(10));
    assert!(acc.should_flush(2));

    let edges = acc.drain();
    assert_eq!(edges.len(), 2);
    assert_eq!(acc.len(), 0);
}

#[test]
fn drain_empties_accumulator() {
    let mut acc = EdgeAccumulator::new(100, false);
    acc.record(0x1, 0x2);
    assert_eq!(acc.len(), 1);
    let _ = acc.drain();
    assert_eq!(acc.len(), 0);
}

#[test]
fn edge_hash_distinguishes_direction() {
    let mut acc = EdgeAccumulator::new(100, false);
    acc.record(0x1000, 0x2000);
    acc.record(0x2000, 0x1000);
    assert_eq!(acc.len(), 2);
}

#[test]
fn top_n_never_holds_more_than_twice_capacity() {
    let mut acc = EdgeAccumulator::new(3, false);
    for i in 0..50u64 {
        acc.record(i, i + 1);
        assert!(acc.len() <= 6);
    }
}

#[test]
fn top_n_prune_keeps_exactly_capacity_hottest() {
    let mut acc = EdgeAccumulator::new(1, false);
    for _ in 0..3 {
        acc.record(0x1, 0x2);
    }
    acc.record(0x3, 0x4);
    assert_eq!(acc.len(), 2);
    // A third distinct edge makes 3 > 2: only the hottest stays.
    acc.record(0x5, 0x6);
    assert_eq!(acc.len(), 1);
    let edges = acc.drain();
    assert_eq!(edges, vec![(0x1, 0x2, 3)]);
}

#[test]
fn top_n_zero_capacity_keeps_nothing() {
    let mut acc = EdgeAccumulator::new(0, false);
    acc.record(0x1, 0x2);
    assert_eq!(acc.len(), 0);
    assert!(acc.drain().is_empty());
}

#[test]
fn top_n_never_asks_for_flush() {
    let mut acc = EdgeAccumulator::new(1, false);
    acc.record(0x1, 0x2);
    assert!(!acc.should_flush(0));
}

#[test]
fn streaming_counts_every_record() {
    let mut acc = EdgeAccumulator::new(1, true);
    for _ in 0..7 {
        acc.record(0x10, 0x20);
    }
    acc.record(0x30, 0x40);
    let mut edges = acc.drain();
    edges.sort();
    assert_eq!(edges, vec![(0x10, 0x20, 7), (0x30, 0x40, 1)]);
}

#[test]
fn try_record_and_count_agree() {
    let mut acc = EdgeAccumulator::new(10, true);
    assert_eq!(acc.count(1, 2), None);
    assert!(acc.try_record(1, 2));
    assert!(acc.try_record(1, 2));
    assert_eq!(acc.count(1, 2), Some(2));
    assert_eq!(acc.count(2, 1), None);
}

#[test]
fn total_tb_execs_starts_at_zero() {
    let acc = EdgeAccumulator::new(10, false);
    assert_eq!(acc.total_tb_execs, 0);
}
