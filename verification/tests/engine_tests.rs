use zenithdb::engine::{CompactEffect, EngineError, StorageEngine};

fn b(s: &str) -> Vec<u8> {
    s.as_bytes().to_vec()
}

fn fresh(threshold: usize) -> StorageEngine {
    StorageEngine::new(Vec::new(), Vec::new(), threshold).0
}

#[test]
fn basic_round_trip() {
    let mut e = fresh(5);
    assert!(e.set(b("hello"), b("world")).is_ok());
    assert_eq!(e.get(&b("hello")), Some(b("world")));
    assert_eq!(e.get(&b("missing")), None);
}

#[test]
fn overwrite_across_flush() {
    let mut e = fresh(5);
    let mut flushed = 0;
    for (k, v) in [("a", "1"), ("b", "2"), ("c", "3"), ("d", "4"), ("e", "5")] {
        let eff = e.set(b(k), b(v)).unwrap();
        if eff.flushed.is_some() {
            flushed += 1;
        }
    }
    assert_eq!(flushed, 1, "the fifth set must trigger the flush");
    assert_eq!(e.tables.len(), 1);
    assert!(e.set(b("a"), b("99")).unwrap().flushed.is_none());
    assert_eq!(e.get(&b("a")), Some(b("99")));
    assert_eq!(e.get(&b("c")), Some(b("3")));
}

#[test]
fn tombstone_across_flush() {
    let mut e = fresh(5);
    e.set(b("k"), b("v")).unwrap();
    for (k, v) in [("w1", "1"), ("w2", "2"), ("w3", "3"), ("w4", "4")] {
        e.set(b(k), b(v)).unwrap();
    }
    assert_eq!(e.tables.len(), 1, "the buffer must have flushed");
    e.delete(b("k")).unwrap();
    assert_eq!(e.get(&b("k")), None);
    // one more segment so that compaction has two inputs
    for (k, v) in [("x1", "1"), ("x2", "2"), ("x3", "3"), ("x4", "4")] {
        e.set(b(k), b(v)).unwrap();
    }
    assert_eq!(e.tables.len(), 2);
    match e.compact() {
        CompactEffect::Merged { .. } => {}
        CompactEffect::Skipped => panic!("two segments were registered"),
    }
    assert_eq!(e.get(&b("k")), None);
    assert_eq!(e.get(&b("w1")), Some(b("1")));
}

#[test]
fn crash_recovery() {
    // a caller persisting what the engine hands out, then a crash: no flush
    let mut wal_file: Vec<u8> = Vec::new();
    let mut e = fresh(5);
    let eff = e.set(b("x"), b("1")).unwrap();
    wal_file.extend_from_slice(&eff.wal_append);
    let eff = e.set(b("y"), b("2")).unwrap();
    wal_file.extend_from_slice(&eff.wal_append);
    drop(e);
    let (e2, ragged) = StorageEngine::new(wal_file, Vec::new(), 5);
    assert!(!ragged);
    assert_eq!(e2.get(&b("x")), Some(b("1")));
    assert_eq!(e2.get(&b("y")), Some(b("2")));
}

#[test]
fn crash_recovery_with_segments() {
    // full mirror: the log and the segment files, replayed after a crash
    let mut wal_file: Vec<u8> = Vec::new();
    let mut segment_files: Vec<Vec<u8>> = Vec::new();
    let mut e = fresh(3);
    for (k, v) in [("a", "1"), ("b", "2"), ("c", "3"), ("d", "4")] {
        let eff = e.set(b(k), b(v)).unwrap();
        wal_file.extend_from_slice(&eff.wal_append);
        if let Some(img) = eff.flushed {
            segment_files.push(img);
            wal_file.clear();
        }
    }
    assert_eq!(segment_files.len(), 1);
    drop(e);
    let (e2, _) = StorageEngine::new(wal_file, segment_files, 3);
    assert_eq!(e2.tables.len(), 1, "the flushed segment must be reopened");
    for (k, v) in [("a", "1"), ("b", "2"), ("c", "3"), ("d", "4")] {
        assert_eq!(e2.get(&b(k)), Some(b(v)), "lost {k}");
    }
}

#[test]
fn recovery_tolerates_partial_trailing_write() {
    let mut wal_file: Vec<u8> = Vec::new();
    let mut e = fresh(5);
    let eff = e.set(b("x"), b("1")).unwrap();
    wal_file.extend_from_slice(&eff.wal_append);
    // a crash mid-append leaves a torn line
    wal_file.extend_from_slice(b"SET y");
    let (e2, ragged) = StorageEngine::new(wal_file, Vec::new(), 5);
    assert!(ragged, "the caller is asked to terminate the torn line");
    assert_eq!(e2.get(&b("x")), Some(b("1")));
    assert_eq!(e2.get(&b("y")), None);
}

#[test]
fn compaction_drops_tombstones() {
    let mut e = fresh(5);
    // three segments with overlapping keys, one holding a tombstone
    for (k, v) in [("a", "1"), ("b", "1"), ("c", "1"), ("d", "1"), ("e", "1")] {
        e.set(b(k), b(v)).unwrap();
    }
    for (k, v) in [("a", "2"), ("f", "1"), ("g", "1"), ("h", "1"), ("i", "1")] {
        e.set(b(k), b(v)).unwrap();
    }
    e.delete(b("c")).unwrap();
    for (k, v) in [("j", "1"), ("l", "1"), ("m", "1"), ("n", "1")] {
        e.set(b(k), b(v)).unwrap();
    }
    assert_eq!(e.tables.len(), 3);
    let keys = ["a", "b", "c", "d", "e", "f", "g", "h", "i", "j", "l", "m", "n", "zz"];
    let before: Vec<Option<Vec<u8>>> = keys.iter().map(|k| e.get(&b(k))).collect();
    assert_eq!(before[2], None, "c is masked by its tombstone");
    match e.compact() {
        CompactEffect::Merged { output } => assert!(output.is_some()),
        CompactEffect::Skipped => panic!("three segments were registered"),
    }
    assert_eq!(e.tables.len(), 1, "the registry shrinks to one file");
    let after: Vec<Option<Vec<u8>>> = keys.iter().map(|k| e.get(&b(k))).collect();
    assert_eq!(before, after, "compaction must not change any lookup");
    // the tombstone itself is gone from the merged segment
    let recs = e.tables[0].read_records();
    assert!(recs.iter().all(|r| r.value.is_some()));
}

#[test]
fn compact_fewer_than_two_segments_is_a_no_op() {
    let mut e = fresh(5);
    e.set(b("a"), b("1")).unwrap();
    assert!(matches!(e.compact(), CompactEffect::Skipped));
    assert_eq!(e.get(&b("a")), Some(b("1")));
}

#[test]
fn replaying_the_log_twice_equals_replaying_it_once() {
    let mut wal_file: Vec<u8> = Vec::new();
    let mut e = fresh(100);
    for (k, v) in [("a", "1"), ("b", "2"), ("a", "3")] {
        let eff = e.set(b(k), b(v)).unwrap();
        wal_file.extend_from_slice(&eff.wal_append);
    }
    let eff = e.delete(b("b")).unwrap();
    wal_file.extend_from_slice(&eff.wal_append);
    let mut doubled = wal_file.clone();
    doubled.extend_from_slice(&wal_file);
    let (once, _) = StorageEngine::new(wal_file, Vec::new(), 100);
    let (twice, _) = StorageEngine::new(doubled, Vec::new(), 100);
    for k in ["a", "b", "c"] {
        assert_eq!(once.get(&b(k)), twice.get(&b(k)));
    }
    assert_eq!(once.memtable.len(), twice.memtable.len());
}

#[test]
fn invalid_inputs_are_rejected_and_change_nothing() {
    let mut e = fresh(5);
    e.set(b("a"), b("1")).unwrap();
    assert!(matches!(e.set(b(""), b("v")), Err(EngineError::InvalidInput)));
    assert!(matches!(e.set(b("a b"), b("v")), Err(EngineError::InvalidInput)));
    assert!(matches!(e.set(b("k,x"), b("v")), Err(EngineError::InvalidInput)));
    assert!(matches!(e.set(b("k"), b("v,w")), Err(EngineError::InvalidInput)));
    assert!(matches!(e.set(b("k"), b("has\nnewline")), Err(EngineError::InvalidInput)));
    assert!(matches!(e.set(b("k"), b("TOMBSTONE")), Err(EngineError::InvalidInput)));
    assert!(matches!(e.delete(b("bad key")), Err(EngineError::InvalidInput)));
    assert_eq!(e.get(&b("a")), Some(b("1")));
    assert_eq!(e.get(&b("k")), None);
}

#[test]
fn delete_at_threshold_flushes() {
    // a tombstone is a mutation like any other: the fifth entry flushes,
    // whether it came from a set or a delete
    let mut e = fresh(5);
    for (k, v) in [("a", "1"), ("b", "2"), ("c", "3"), ("d", "4")] {
        assert!(e.set(b(k), b(v)).unwrap().flushed.is_none());
    }
    let eff = e.delete(b("e")).unwrap();
    assert!(eff.flushed.is_some(), "the fifth mutation, a delete, must flush");
    assert_eq!(e.tables.len(), 1);
    assert_eq!(e.memtable.len(), 0);
    assert_eq!(e.get(&b("a")), Some(b("1")));
    assert_eq!(e.get(&b("e")), None);
}

#[test]
fn last_writer_wins() {
    let mut e = fresh(100);
    for v in ["1", "2", "3", "4", "5"] {
        e.set(b("k"), b(v)).unwrap();
    }
    assert_eq!(e.get(&b("k")), Some(b("5")));
}

#[test]
fn tombstone_masks_until_later_set() {
    let mut e = fresh(100);
    e.set(b("k"), b("v")).unwrap();
    e.delete(b("k")).unwrap();
    assert_eq!(e.get(&b("k")), None);
    e.set(b("k"), b("w")).unwrap();
    assert_eq!(e.get(&b("k")), Some(b("w")));
}
