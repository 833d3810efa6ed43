use zenithdb::bloom::BloomFilter;
use zenithdb::engine::StorageEngine;
use zenithdb::numeral::{parse_dec, u64_to_dec};
use zenithdb::protocol::Command;
use zenithdb::record::Record;
use zenithdb::sstable::{build_table, SsTable};
use zenithdb::wal::{make_delete_line, make_set_line, replay_wal};

fn b(s: &str) -> Vec<u8> {
    s.as_bytes().to_vec()
}

fn rec(k: &str, v: Option<&str>) -> Record {
    Record { key: b(k), value: v.map(b) }
}

#[test]
fn bloom_reports_every_added_key() {
    let mut f = BloomFilter::with_params(1024, 4);
    let keys = ["alpha", "beta", "gamma", "delta", "epsilon"];
    for k in keys {
        f.add(&b(k));
    }
    for k in keys {
        assert!(f.contains(&b(k)), "false negative for {k}");
    }
}

#[test]
fn bloom_empty_filter_holds_nothing() {
    let f = BloomFilter::with_params(1024, 4);
    assert!(!f.contains(&b("anything")));
}

#[test]
fn segment_reader_locates_every_key() {
    // more records than the sparse stride, so interior index entries are used
    let mut entries: Vec<Record> = Vec::new();
    for i in 0..25u32 {
        entries.push(rec(&format!("key{:02}", i), Some(&format!("val{}", i))));
    }
    let t = build_table(&entries);
    for i in 0..25u32 {
        let got = t.search(&b(&format!("key{:02}", i)));
        assert_eq!(got, Some(Some(b(&format!("val{}", i)))), "missed key{:02}", i);
    }
    assert_eq!(t.search(&b("key99")), None);
    assert_eq!(t.search(&b("aaa")), None);
}

#[test]
fn segment_reader_returns_tombstones() {
    let entries = vec![rec("a", Some("1")), rec("dead", None), rec("z", Some("9"))];
    let t = build_table(&entries);
    assert_eq!(t.search(&b("dead")), Some(None));
    assert_eq!(t.search(&b("a")), Some(Some(b("1"))));
}

#[test]
fn bloom_negative_skips_the_data_scan() {
    let mut e = StorageEngine::new(Vec::new(), Vec::new(), 10).0;
    let mut img = None;
    for k in ["a", "b", "c", "d", "e", "f", "g", "h", "i", "j"] {
        let eff = e.set(b(k), b("v")).unwrap();
        if eff.flushed.is_some() {
            img = eff.flushed;
        }
    }
    let t = SsTable::from_bytes(img.expect("ten sets reach the threshold")).unwrap();
    // the reader consults the filter first: a negative answer means the data
    // block is never scanned for that key
    if !t.may_contain(&b("zzzz")) {
        assert_eq!(t.search(&b("zzzz")), None);
    } else {
        panic!("the filter reported a key from far outside the segment");
    }
    assert_eq!(e.get(&b("zzzz")), None);
}

#[test]
fn flush_round_trip_reproduces_the_buffer_in_order() {
    let entries = vec![
        rec("apple", Some("1")),
        rec("banana", None),
        rec("cherry", Some("3")),
    ];
    let t = build_table(&entries);
    let back = t.read_records();
    assert_eq!(back.len(), 3);
    for (orig, got) in entries.iter().zip(back.iter()) {
        assert_eq!(orig.key, got.key);
        assert_eq!(orig.value, got.value);
    }
}

#[test]
fn segment_image_reopens_byte_for_byte() {
    let entries = vec![rec("k1", Some("v1")), rec("k2", Some("v2"))];
    let t = build_table(&entries);
    let img = t.bytes.clone();
    let reopened = SsTable::from_bytes(img).expect("a written segment must reopen");
    assert_eq!(reopened.search(&b("k2")), Some(Some(b("v2"))));
}

#[test]
fn corrupt_segment_images_are_rejected() {
    assert!(SsTable::from_bytes(Vec::new()).is_none());
    assert!(SsTable::from_bytes(b("too short")).is_none());
    let entries = vec![rec("k", Some("v"))];
    let mut img = build_table(&entries).bytes;
    let n = img.len();
    img[n - 1] ^= 0xff; // a damaged footer
    assert!(SsTable::from_bytes(img).is_none());
}

#[test]
fn wal_lines_have_the_documented_shape() {
    assert_eq!(make_set_line(&b("k"), &b("v")), b("SET k,v\n"));
    assert_eq!(make_delete_line(&b("k")), b("DELETE k,\n"));
}

#[test]
fn wal_replay_skips_malformed_lines() {
    let mut w = Vec::new();
    w.extend_from_slice(b"SET a,1\n");
    w.extend_from_slice(b"garbage line\n");
    w.extend_from_slice(b"PUT b,2\n");
    w.extend_from_slice(b"DELETE a,\n");
    w.extend_from_slice(b"SET c,3\n");
    let m = replay_wal(&w);
    assert_eq!(m.len(), 2);
    assert_eq!(m.find(&b("a")), Some(None));
    assert_eq!(m.find(&b("b")), None);
    assert_eq!(m.find(&b("c")), Some(Some(b("3"))));
}

#[test]
fn numerals_round_trip() {
    for n in [0u64, 1, 9, 10, 99, 100, 12345, u64::MAX] {
        let d = u64_to_dec(n);
        assert_eq!(parse_dec(&d), Some(n));
    }
    assert_eq!(u64_to_dec(0), b("0"));
    assert_eq!(u64_to_dec(1234), b("1234"));
}

#[test]
fn numerals_reject_what_no_number_writes() {
    assert_eq!(parse_dec(&b("")), None);
    assert_eq!(parse_dec(&b("12a")), None);
    assert_eq!(parse_dec(&b("007")), None);
    assert_eq!(parse_dec(&b("99999999999999999999999")), None);
}

#[test]
fn commands_parse_with_exact_arity() {
    match Command::from_str("SET hello world").unwrap() {
        Command::SetKv { key, value } => {
            assert_eq!(key, "hello");
            assert_eq!(value, "world");
        }
        _ => panic!("wrong command"),
    }
    match Command::from_str("GET hello\n").unwrap() {
        Command::Get { key } => assert_eq!(key, "hello"),
        _ => panic!("wrong command"),
    }
    match Command::from_str("DELETE k").unwrap() {
        Command::Delete { key } => assert_eq!(key, "k"),
        _ => panic!("wrong command"),
    }
    assert!(matches!(Command::from_str("COMPACT"), Ok(Command::Compact)));
    assert!(matches!(
        Command::from_str("  GET   spaced  "),
        Ok(Command::Get { .. })
    ));
}

#[test]
fn malformed_commands_are_the_format_error() {
    for line in ["", "SET onlykey", "GET a b", "DELETE", "COMPACT now", "FROB x"] {
        assert!(matches!(Command::from_str(line), Err("Invalid command format")));
    }
}
