use kvs::error::KvsError;
use kvs::index::Index;
use kvs::kvstore::KvStore;
use kvs::log::{DiskOp, Operation, Segment, ValueEntry, Wal, SEGMENT_SIZE};
use kvs::record::encode;

/// Carries out queued file changes on an in-memory directory, kept oldest first.
fn flush(store: &mut KvStore, dir: &mut Vec<Segment>) {
    for op in store.take_pending() {
        apply(op, dir);
    }
}

fn apply(op: DiskOp, dir: &mut Vec<Segment>) {
    match op {
        DiskOp::Append { name, bytes } => match dir.iter_mut().find(|s| s.name == name) {
            Some(seg) => seg.data.extend_from_slice(&bytes),
            None => dir.push(Segment { name, data: bytes }),
        },
        DiskOp::Delete { name } => dir.retain(|s| s.name != name),
    }
}

fn copy(dir: &[Segment]) -> Vec<Segment> {
    dir.iter().map(|s| Segment { name: s.name.clone(), data: s.data.clone() }).collect()
}

fn fresh() -> KvStore {
    KvStore::open(Vec::new()).unwrap()
}

fn get(store: &mut KvStore, key: &str) -> Option<String> {
    store.get(key.to_string()).unwrap()
}

#[test]
fn set_then_get() {
    let mut store = fresh();
    store.set("a".to_string(), "1".to_string()).unwrap();
    assert_eq!(get(&mut store, "a"), Some("1".to_string()));
}

#[test]
fn overwrite_keeps_latest() {
    let mut store = fresh();
    store.set("a".to_string(), "1".to_string()).unwrap();
    store.set("a".to_string(), "2".to_string()).unwrap();
    assert_eq!(get(&mut store, "a"), Some("2".to_string()));
}

#[test]
fn remove_then_get_is_absent() {
    let mut store = fresh();
    store.set("a".to_string(), "1".to_string()).unwrap();
    store.remove("a".to_string()).unwrap();
    assert_eq!(get(&mut store, "a"), None);
}

#[test]
fn remove_on_fresh_store_is_not_found() {
    let mut store = fresh();
    let mut dir = Vec::new();
    assert_eq!(store.remove("a".to_string()), Err(KvsError::KeyNotFound("a".to_string())));
    flush(&mut store, &mut dir);
    assert!(dir.iter().all(|s| s.data.is_empty()));
}

#[test]
fn get_of_missing_key_is_absent() {
    let mut store = fresh();
    assert_eq!(get(&mut store, "nothing"), None);
}

#[test]
fn value_survives_reopen() {
    let mut dir = Vec::new();
    let mut store = KvStore::open(copy(&dir)).unwrap();
    store.set("k".to_string(), "v".to_string()).unwrap();
    flush(&mut store, &mut dir);
    drop(store);
    let mut again = KvStore::open(copy(&dir)).unwrap();
    assert_eq!(get(&mut again, "k"), Some("v".to_string()));
}

#[test]
fn compaction_reduces_segments() {
    let mut store = fresh();
    let mut dir = Vec::new();
    for i in 0..100 {
        store.set(format!("key{:017}", i), format!("value{:015}", i)).unwrap();
    }
    flush(&mut store, &mut dir);
    assert!(dir.len() >= 10);
    let mut most = dir.len();
    for i in 0..100 {
        store.set(format!("key{:017}", i), format!("other{:015}", i)).unwrap();
        flush(&mut store, &mut dir);
        most = most.max(dir.len());
    }
    for i in 0..100 {
        assert_eq!(get(&mut store, &format!("key{:017}", i)), Some(format!("other{:015}", i)));
    }
    assert!(dir.len() < most);
    let mut again = KvStore::open(copy(&dir)).unwrap();
    for i in 0..100 {
        assert_eq!(get(&mut again, &format!("key{:017}", i)), Some(format!("other{:015}", i)));
    }
}

#[test]
fn last_writer_wins_over_a_sequence() {
    let mut store = fresh();
    store.set("x".to_string(), "1".to_string()).unwrap();
    store.set("y".to_string(), "2".to_string()).unwrap();
    store.remove("x".to_string()).unwrap();
    store.set("y".to_string(), "3".to_string()).unwrap();
    store.set("x".to_string(), "4".to_string()).unwrap();
    store.remove("y".to_string()).unwrap();
    store.set("z".to_string(), "5".to_string()).unwrap();
    assert_eq!(get(&mut store, "x"), Some("4".to_string()));
    assert_eq!(get(&mut store, "y"), None);
    assert_eq!(get(&mut store, "z"), Some("5".to_string()));
}

#[test]
fn reopen_equals_memory() {
    let mut store = fresh();
    let mut dir = Vec::new();
    let keys = ["a", "b", "c", "d", "e"];
    for (i, k) in keys.iter().enumerate() {
        store.set(k.to_string(), format!("v{}", i)).unwrap();
    }
    store.remove("b".to_string()).unwrap();
    store.set("c".to_string(), "changed".to_string()).unwrap();
    flush(&mut store, &mut dir);
    let mut again = KvStore::open(copy(&dir)).unwrap();
    for k in keys.iter() {
        assert_eq!(get(&mut again, k), get(&mut store, k));
    }
}

#[test]
fn churn_on_one_key_keeps_one_record() {
    let mut store = fresh();
    let mut dir = Vec::new();
    for i in 0..50 {
        store.set("key".to_string(), format!("value{}", i)).unwrap();
        flush(&mut store, &mut dir);
    }
    let total: usize = dir.iter().map(|s| s.data.len()).sum();
    assert_eq!(total, 16 + "key".len() + "value49".len());
    assert_eq!(get(&mut store, "key"), Some("value49".to_string()));
}

#[test]
fn torn_tail_is_ignored() {
    let mut store = fresh();
    let mut dir = Vec::new();
    store.set("a".to_string(), "1".to_string()).unwrap();
    flush(&mut store, &mut dir);
    let clean = dir[0].data.len();
    store.set("b".to_string(), "22".to_string()).unwrap();
    flush(&mut store, &mut dir);
    assert_eq!(dir.len(), 1);
    let full = dir[0].data.len();
    for cut in 1..=(full - clean) {
        let mut torn = copy(&dir);
        torn[0].data.truncate(full - cut);
        let mut again = KvStore::open(torn).unwrap();
        assert_eq!(get(&mut again, "a"), Some("1".to_string()));
        assert_eq!(get(&mut again, "b"), None);
    }
}

#[test]
fn write_after_torn_tail_goes_to_new_segment() {
    let mut store = fresh();
    let mut dir = Vec::new();
    store.set("a".to_string(), "1".to_string()).unwrap();
    store.set("b".to_string(), "2".to_string()).unwrap();
    flush(&mut store, &mut dir);
    let len = dir[0].data.len();
    dir[0].data.truncate(len - 1);
    let mut again = KvStore::open(copy(&dir)).unwrap();
    again.set("c".to_string(), "3".to_string()).unwrap();
    flush(&mut again, &mut dir);
    assert_eq!(dir.len(), 2);
    let mut third = KvStore::open(copy(&dir)).unwrap();
    assert_eq!(get(&mut third, "a"), Some("1".to_string()));
    assert_eq!(get(&mut third, "b"), None);
    assert_eq!(get(&mut third, "c"), Some("3".to_string()));
}

#[test]
fn record_encoding_is_exact() {
    let bytes = encode(b"ab", b"c");
    let mut expected = vec![2u8, 0, 0, 0, 0, 0, 0, 0, 1, 0, 0, 0, 0, 0, 0, 0];
    expected.extend_from_slice(b"abc");
    assert_eq!(bytes, expected);
}

#[test]
fn tombstone_has_no_value_bytes() {
    let mut wal = Wal::open(Vec::new());
    let ve = wal.write(&"key".to_string(), &"ignored".to_string(), Operation::RM);
    assert_eq!(ve, ValueEntry { file_id: 0, vsz: 0, vpos: 19 });
    let ops = wal.take_pending();
    match &ops[0] {
        DiskOp::Append { bytes, .. } => assert_eq!(bytes.len(), 16 + 3),
        DiskOp::Delete { .. } => panic!("expected an append"),
    }
}

#[test]
fn write_reports_value_location() {
    let mut wal = Wal::open(Vec::new());
    let a = wal.write(&"k".to_string(), &"vv".to_string(), Operation::SET);
    assert_eq!(a, ValueEntry { file_id: 0, vsz: 2, vpos: 17 });
    let b = wal.write(&"key".to_string(), &"x".to_string(), Operation::SET);
    assert_eq!(b, ValueEntry { file_id: 0, vsz: 1, vpos: 19 + 16 + 3 });
    assert_eq!(wal.read_value(&a), Ok("vv".to_string()));
    assert_eq!(wal.read_value(&b), Ok("x".to_string()));
}

#[test]
fn rollover_starts_new_segment() {
    let mut wal = Wal::open(Vec::new());
    let big = "v".repeat(SEGMENT_SIZE);
    let a = wal.write(&"k".to_string(), &big, Operation::SET);
    let b = wal.write(&"k".to_string(), &"w".to_string(), Operation::SET);
    assert_eq!(a.file_id, 0);
    assert_eq!(b.file_id, 1);
    assert_eq!(b.vpos, 17);
}

#[test]
fn segment_names_are_time_ordered_logs() {
    let mut wal = Wal::open(Vec::new());
    let big = "v".repeat(SEGMENT_SIZE);
    wal.write(&"k".to_string(), &big, Operation::SET);
    wal.write(&"k".to_string(), &big, Operation::SET);
    let names: Vec<String> = wal
        .take_pending()
        .into_iter()
        .map(|op| match op {
            DiskOp::Append { name, .. } => name,
            DiskOp::Delete { name } => name,
        })
        .collect();
    assert_eq!(names.len(), 2);
    assert!(names.iter().all(|n| n.len() == 40 && n.ends_with(".log")));
    assert!(names[0] < names[1]);
}

#[test]
fn read_past_end_is_eof() {
    let wal = Wal::open(Vec::new());
    let ve = ValueEntry { file_id: 0, vsz: 1, vpos: 0 };
    assert_eq!(wal.read_value(&ve), Err(KvsError::EofError));
    let mut other = Wal::open(Vec::new());
    other.write(&"k".to_string(), &"v".to_string(), Operation::SET);
    let past = ValueEntry { file_id: 0, vsz: 5, vpos: 17 };
    assert_eq!(other.read_value(&past), Err(KvsError::EofError));
}

#[test]
fn key_that_is_not_utf8_fails_open() {
    let mut data = encode(&[0xff, 0xfe], b"v");
    data.extend_from_slice(&encode(b"k", b"v"));
    let seg = Segment { name: "a.log".to_string(), data };
    assert_eq!(KvStore::open(vec![seg]).err(), Some(KvsError::SerializationError));
}

#[test]
fn value_that_is_not_utf8_fails_get() {
    let seg = Segment { name: "a.log".to_string(), data: encode(b"k", &[0xc3]) };
    let mut store = KvStore::open(vec![seg]).unwrap();
    assert_eq!(store.get("k".to_string()), Err(KvsError::SerializationError));
}

#[test]
fn replay_counts_records_and_applies_tombstones() {
    let mut data = encode(b"a", b"1");
    data.extend_from_slice(&encode(b"b", b"2"));
    data.extend_from_slice(&encode(b"a", b""));
    let wal = Wal::open(vec![Segment { name: "s.log".to_string(), data }]);
    let mut index = Index::new();
    assert_eq!(wal.replay(&mut index), Ok(3));
    assert_eq!(index.len(), 1);
    assert!(index.get(b"a").is_none());
    let loc = index.get(b"b").unwrap();
    assert_eq!(wal.read_value(&loc), Ok("2".to_string()));
}

#[test]
fn replay_reads_segments_in_order() {
    let first = Segment { name: "1.log".to_string(), data: encode(b"k", b"old") };
    let second = Segment { name: "2.log".to_string(), data: encode(b"k", b"new") };
    let mut store = KvStore::open(vec![first, second]).unwrap();
    assert_eq!(get(&mut store, "k"), Some("new".to_string()));
}

#[test]
fn index_insert_replace_remove() {
    let mut index = Index::new();
    let a = ValueEntry { file_id: 0, vsz: 1, vpos: 17 };
    let b = ValueEntry { file_id: 1, vsz: 2, vpos: 40 };
    index.insert(b"k".to_vec(), a);
    index.insert(b"j".to_vec(), a);
    index.insert(b"k".to_vec(), b);
    assert_eq!(index.len(), 2);
    assert_eq!(index.get(b"k"), Some(b));
    assert!(index.remove(b"k"));
    assert!(!index.remove(b"k"));
    assert_eq!(index.len(), 1);
}

#[test]
fn compaction_rewrites_live_keys_only() {
    let mut data = encode(b"a", b"1");
    data.extend_from_slice(&encode(b"a", b"2"));
    data.extend_from_slice(&encode(b"b", b"3"));
    data.extend_from_slice(&encode(b"b", b""));
    let mut wal = Wal::open(vec![Segment { name: "old.log".to_string(), data }]);
    let mut index = Index::new();
    wal.replay(&mut index).unwrap();
    wal.compact(&mut index);
    let ops = wal.take_pending();
    let mut dir = Vec::new();
    let mut deleted = Vec::new();
    for op in ops {
        if let DiskOp::Delete { name } = &op {
            deleted.push(name.clone());
        }
        apply(op, &mut dir);
    }
    assert_eq!(deleted, vec!["old.log".to_string()]);
    let total: usize = dir.iter().map(|s| s.data.len()).sum();
    assert_eq!(total, 16 + 1 + 1);
    let loc = index.get(b"a").unwrap();
    assert_eq!(wal.read_value(&loc), Ok("2".to_string()));
}

#[test]
fn unicode_keys_and_values_round_trip() {
    let mut store = fresh();
    let mut dir = Vec::new();
    store.set("clé".to_string(), "värde ✓".to_string()).unwrap();
    flush(&mut store, &mut dir);
    let mut again = KvStore::open(copy(&dir)).unwrap();
    assert_eq!(get(&mut again, "clé"), Some("värde ✓".to_string()));
}

#[test]
fn search_keeps_log_files_sorted() {
    let names = ["b.log", "notes.txt", "a.log", "c.log", "log", "a.log.bak"];
    let files: Vec<Segment> =
        names.iter().map(|n| Segment { name: n.to_string(), data: n.as_bytes().to_vec() }).collect();
    let found = Wal::search_log_files(files);
    let kept: Vec<&str> = found.iter().map(|s| s.name.as_str()).collect();
    assert_eq!(kept, vec!["a.log", "b.log", "c.log"]);
    assert_eq!(found[0].data, b"a.log".to_vec());
}

#[test]
fn search_of_nothing_is_empty() {
    assert!(Wal::search_log_files(Vec::new()).is_empty());
}

#[test]
fn new_segment_sorts_after_existing_names() {
    let seg = Segment { name: "zzzz.log".to_string(), data: vec![1, 2, 3] };
    let mut wal = Wal::open(vec![seg]);
    let ve = wal.write(&"k".to_string(), &"v".to_string(), Operation::SET);
    assert_eq!(ve.file_id, 1);
    match &wal.take_pending()[0] {
        DiskOp::Append { name, .. } => assert_eq!(name, "zzzz.log0.log"),
        DiskOp::Delete { .. } => panic!("expected an append"),
    }
}

#[test]
fn compacted_segments_sort_after_old_ones() {
    let seg = Segment { name: "00-old.log".to_string(), data: encode(b"a", b"1") };
    let mut wal = Wal::open(vec![seg]);
    let mut index = Index::new();
    wal.replay(&mut index).unwrap();
    wal.compact(&mut index);
    for op in wal.take_pending() {
        match op {
            DiskOp::Append { name, .. } => assert!(name.as_str() > "00-old.log"),
            DiskOp::Delete { name } => assert_eq!(name, "00-old.log"),
        }
    }
}

#[test]
fn listing_keeps_every_written_segment_in_order() {
    let mut store = fresh();
    let mut dir = Vec::new();
    for i in 0..30 {
        store.set(format!("key{:017}", i), format!("value{:015}", i)).unwrap();
        flush(&mut store, &mut dir);
    }
    let mut listing = copy(&dir);
    listing.reverse();
    listing.push(Segment { name: "notes.txt".to_string(), data: b"x".to_vec() });
    let found = Wal::search_log_files(listing);
    let found_names: Vec<&str> = found.iter().map(|s| s.name.as_str()).collect();
    let dir_names: Vec<&str> = dir.iter().map(|s| s.name.as_str()).collect();
    assert_eq!(found_names, dir_names);
    let mut again = KvStore::open(found).unwrap();
    for i in 0..30 {
        assert_eq!(get(&mut again, &format!("key{:017}", i)), Some(format!("value{:015}", i)));
    }
}

#[test]
fn bad_key_with_cut_value_fails_open() {
    let mut data = vec![1u8, 0, 0, 0, 0, 0, 0, 0, 5, 0, 0, 0, 0, 0, 0, 0];
    data.push(0xff);
    let seg = Segment { name: "a.log".to_string(), data };
    assert_eq!(KvStore::open(vec![seg]).err(), Some(KvsError::SerializationError));
}

#[test]
fn good_key_with_cut_value_is_dropped() {
    let mut data = encode(b"a", b"1");
    data.extend_from_slice(&[1u8, 0, 0, 0, 0, 0, 0, 0, 5, 0, 0, 0, 0, 0, 0, 0]);
    data.push(b'b');
    let seg = Segment { name: "a.log".to_string(), data };
    let wal = Wal::open(vec![seg]);
    let mut index = Index::new();
    assert_eq!(wal.replay(&mut index), Ok(1));
    assert!(index.get(b"b").is_none());
    assert!(index.get(b"a").is_some());
}
