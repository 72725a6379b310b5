use kvs::command::LogRecord;
use kvs::error::KVError;
use kvs::file_storage::latest_pointers;
use kvs::frame::{check_document, document_frames, document_length};
use kvs::key_order::key_less;
use kvs::moves::Direction;
use kvs::naming::{compact_file_name, wal_file_name};
use kvs::server::{get_reply, run_kv_command, Command};
use kvs::{KvStore, LogPointer, StorageHandler};

fn doc(len: usize) -> Vec<u8> {
    let mut d = vec![0u8; len];
    d[0] = (len & 0xff) as u8;
    d[1] = ((len >> 8) & 0xff) as u8;
    d
}

fn ptr(offset: u64, age: u8, file: &str) -> LogPointer {
    LogPointer { offset, log_age: age, filename: file.to_string() }
}

#[test]
fn get_key_of_both_records() {
    let set = LogRecord::Put("k1".to_string(), "v1".to_string());
    let del = LogRecord::Delete("k2".to_string());
    assert_eq!(set.get_key(), "k1");
    assert_eq!(del.get_key(), "k2");
    assert_eq!(set.value(), Some("v1".to_string()));
    assert_eq!(del.value(), None);
}

#[test]
fn frames_of_back_to_back_documents() {
    let mut bytes = doc(5);
    bytes.extend(doc(9));
    bytes.extend(doc(6));
    let frames = document_frames(&bytes).unwrap();
    assert_eq!(frames, vec![(0, 5), (5, 9), (14, 6)]);
}

#[test]
fn frames_ignore_a_short_tail() {
    let mut bytes = doc(5);
    bytes.extend([1u8, 2, 3]);
    assert_eq!(document_frames(&bytes).unwrap(), vec![(0, 5)]);
    assert_eq!(document_frames(&[]).unwrap(), vec![]);
}

#[test]
fn frames_reject_bad_prefixes() {
    // declared length below the minimum
    let mut bytes = doc(5);
    bytes.extend([4u8, 0, 0, 0, 0]);
    assert!(matches!(document_frames(&bytes), Err(KVError::CorruptDocument { offset: 5 })));
    // negative length
    let bytes = vec![5u8, 0, 0, 0x80, 0];
    assert!(matches!(document_frames(&bytes), Err(KVError::CorruptDocument { offset: 0 })));
    // longer than the bytes left
    let bytes = vec![9u8, 0, 0, 0, 0, 0];
    assert!(matches!(document_frames(&bytes), Err(KVError::CorruptDocument { offset: 0 })));
    // not closed by a zero byte
    let bytes = vec![5u8, 0, 0, 0, 7];
    assert!(matches!(document_frames(&bytes), Err(KVError::CorruptDocument { offset: 0 })));
}

#[test]
fn appended_document_is_found_where_it_was_written() {
    let mut log = doc(5);
    log.extend(doc(7));
    let before = document_frames(&log).unwrap();
    let offset = log.len() as u64;
    log.extend(doc(11));
    let after = document_frames(&log).unwrap();
    let mut expected = before.clone();
    expected.push((offset, 11));
    assert_eq!(after, expected);
}

#[test]
fn frames_of_real_bson_records() {
    let mut bytes = Vec::new();
    let mut d1 = bson::Document::new();
    d1.insert("d", "gone");
    d1.to_writer(&mut bytes).unwrap();
    let first = bytes.len() as u64;
    let mut d2 = bson::Document::new();
    d2.insert("x", 42i32);
    d2.to_writer(&mut bytes).unwrap();
    let frames = document_frames(&bytes).unwrap();
    assert_eq!(frames.len(), 2);
    assert_eq!(frames[0], (0, first));
    assert_eq!(frames[1], (first, bytes.len() as u64 - first));
}

#[test]
fn file_names() {
    assert_eq!(wal_file_name(0), "foo_0.txt");
    assert_eq!(wal_file_name(12), "foo_12.txt");
    assert_eq!(wal_file_name(255), "foo_255.txt");
    assert_eq!(compact_file_name(3), "compact_3.txt");
}

#[test]
fn storage_points_at_each_write() {
    let mut s = StorageHandler::new("foo_0.txt".to_string(), 7);
    assert_eq!(s.current_offset(), 7);
    assert_eq!(s.current_wal(), "foo_0.txt");
    let p = s.write_record(10);
    assert_eq!(p.offset, 7);
    assert_eq!(p.log_age, 0);
    assert_eq!(p.filename, "foo_0.txt");
    assert_eq!(s.current_offset(), 17);
    let q = s.write_record(3);
    assert_eq!(q.offset, 17);
    assert_eq!(s.current_offset(), 20);
}

#[test]
fn read_all_logs_pairs_pointers_and_keys() {
    let s = StorageHandler::new("foo_0.txt".to_string(), 20);
    let frames = vec![(0u64, 12u64), (12, 8)];
    let records = vec![
        LogRecord::Put("a".to_string(), "1".to_string()),
        LogRecord::Delete("b".to_string()),
    ];
    let entries = s.read_all_logs(&frames, &records);
    assert_eq!(entries.len(), 2);
    assert_eq!(entries[0].0.offset, 0);
    assert_eq!(entries[0].0.filename, "foo_0.txt");
    assert_eq!(entries[0].1, "a");
    assert_eq!(entries[1].0.offset, 12);
    assert_eq!(entries[1].0.log_age, 0);
    assert_eq!(entries[1].1, "b");
}

#[test]
fn compaction_rounds() {
    let mut s = StorageHandler::new("foo_0.txt".to_string(), 30);
    let start = s.begin_compaction();
    assert_eq!(start.compacted_wal, "foo_0.txt");
    assert!(start.previous_compacted.is_none());
    assert_eq!(start.new_wal, "foo_1.txt");
    assert_eq!(s.compaction_index(), 1);
    assert_eq!(s.current_wal(), "foo_1.txt");
    assert_eq!(s.current_offset(), 0);
    let wal_entries = vec![
        (ptr(0, 1, "foo_0.txt"), "c".to_string()),
        (ptr(12, 1, "foo_0.txt"), "a".to_string()),
        (ptr(20, 1, "foo_0.txt"), "b".to_string()),
    ];
    let merged = latest_pointers(&vec![], &wal_entries);
    let updated = s.compact_logs(&vec![], &wal_entries, &merged, &vec![10, 20, 30]);
    assert_eq!(updated.len(), 3);
    assert_eq!(updated[0].0, "a");
    assert_eq!(updated[0].1.offset, 0);
    assert_eq!(updated[1].0, "b");
    assert_eq!(updated[1].1.offset, 10);
    assert_eq!(updated[2].0, "c");
    assert_eq!(updated[2].1.offset, 30);
    assert_eq!(updated[2].1.log_age, 1);
    assert_eq!(updated[2].1.filename, "compact_0.txt");
    let p = s.write_record(9);
    assert_eq!(p.offset, 0);
    assert_eq!(p.log_age, 1);
    assert_eq!(p.filename, "foo_1.txt");
    let second = s.begin_compaction();
    assert_eq!(second.compacted_wal, "foo_1.txt");
    assert_eq!(second.previous_compacted, Some("compact_0.txt".to_string()));
    assert_eq!(second.new_wal, "foo_2.txt");
    assert_eq!(s.current_offset(), 0);
}

#[test]
fn first_log_is_the_given_file() {
    let s = StorageHandler::new("data/log.bson".to_string(), 0);
    assert_eq!(s.current_wal(), "data/log.bson");
    let entries = s.read_all_logs(&vec![(0, 5)], &vec![LogRecord::Delete("x".to_string())]);
    assert_eq!(entries[0].0.filename, "data/log.bson");
}

#[test]
fn document_lengths_and_checks() {
    assert_eq!(document_length(&[5, 0, 0, 0], 3).unwrap(), 5);
    assert_eq!(document_length(&[0, 1, 0, 0], 3).unwrap(), 256);
    assert!(matches!(document_length(&[4, 0, 0, 0], 3), Err(KVError::CorruptDocument { offset: 3 })));
    assert!(matches!(document_length(&[5, 0, 0, 0x80], 9), Err(KVError::CorruptDocument { offset: 9 })));
    assert!(check_document(&doc(7), 0).is_ok());
    let mut longer = doc(7);
    longer.push(0);
    assert!(matches!(check_document(&longer, 4), Err(KVError::CorruptDocument { offset: 4 })));
    assert!(check_document(&[5, 0, 0, 0, 1], 0).is_err());
    assert!(check_document(&[5, 0, 0], 0).is_err());
}

#[test]
fn records_written_in_turn_are_found_at_their_pointers() {
    let mut s = StorageHandler::new("foo_0.txt".to_string(), 0);
    let mut log: Vec<u8> = Vec::new();
    let mut pointers = Vec::new();
    for len in [5usize, 9, 6, 12] {
        let d = doc(len);
        pointers.push((s.write_record(d.len() as u64).offset, len as u64));
        log.extend(d);
    }
    assert_eq!(document_frames(&log).unwrap(), pointers);
}

#[test]
fn latest_pointers_sorted_and_latest_wins() {
    let older = vec![
        (ptr(0, 1, "compact_0.txt"), "b".to_string()),
        (ptr(10, 1, "compact_0.txt"), "d".to_string()),
    ];
    let newer = vec![
        (ptr(0, 1, "foo_1.txt"), "d".to_string()),
        (ptr(8, 1, "foo_1.txt"), "a".to_string()),
        (ptr(16, 1, "foo_1.txt"), "a".to_string()),
        (ptr(24, 1, "foo_1.txt"), "c".to_string()),
    ];
    let merged = latest_pointers(&older, &newer);
    let keys: Vec<&str> = merged.iter().map(|(k, _)| k.as_str()).collect();
    assert_eq!(keys, vec!["a", "b", "c", "d"]);
    assert_eq!(merged[0].1.offset, 16);
    assert_eq!(merged[1].1.filename, "compact_0.txt");
    assert_eq!(merged[2].1.offset, 24);
    assert_eq!(merged[3].1.filename, "foo_1.txt");
    assert_eq!(merged[3].1.offset, 0);
}

#[test]
fn keys_order_as_strings_do() {
    let s = |x: &str| x.to_string();
    assert!(key_less(&s("a"), &s("b")));
    assert!(!key_less(&s("b"), &s("a")));
    assert!(key_less(&s("ab"), &s("b")));
    assert!(key_less(&s("a"), &s("ab")));
    assert!(key_less(&s("B"), &s("a")));
    assert!(!key_less(&s("same"), &s("same")));
    assert!(key_less(&s("z"), &s("é")));
    assert_eq!(key_less(&s("éa"), &s("éb")), s("éa") < s("éb"));
}

fn sample_store() -> KvStore {
    let frames = vec![(0u64, 10u64), (10, 10), (20, 10), (30, 10)];
    let records = vec![
        LogRecord::Put("a".to_string(), "1".to_string()),
        LogRecord::Put("b".to_string(), "2".to_string()),
        LogRecord::Put("a".to_string(), "3".to_string()),
        LogRecord::Delete("b".to_string()),
    ];
    KvStore::new(StorageHandler::new("foo2.txt".to_string(), 40), &frames, records)
}

#[test]
fn new_store_points_each_key_at_its_latest_record() {
    let store = sample_store();
    let pa = store.locate(&"a".to_string()).unwrap();
    assert_eq!(pa.offset, 20);
    assert_eq!(pa.filename, "foo2.txt");
    let pb = store.locate(&"b".to_string()).unwrap();
    assert_eq!(pb.offset, 30);
    assert!(store.locate(&"c".to_string()).is_none());
    let a = store.get(&"a".to_string(), Some(LogRecord::Put("a".to_string(), "3".to_string())));
    assert_eq!(a, Some("3".to_string()));
    let b = store.get(&"b".to_string(), Some(LogRecord::Delete("b".to_string())));
    assert_eq!(b, None);
    assert_eq!(store.get(&"c".to_string(), None), None);
}

#[test]
fn set_then_remove_moves_the_pointer() {
    let mut store = sample_store();
    store.set("c".to_string(), "9".to_string(), 15);
    assert_eq!(store.current_offset(), 55);
    let pc = store.locate(&"c".to_string()).unwrap();
    assert_eq!(pc.offset, 40);
    store.remove("c".to_string(), 12);
    let pc = store.locate(&"c".to_string()).unwrap();
    assert_eq!(pc.offset, 55);
    assert_eq!(store.current_offset(), 67);
    let c = store.get(&"c".to_string(), Some(LogRecord::Delete("c".to_string())));
    assert_eq!(c, None);
}

#[test]
fn reloading_the_log_gives_the_same_store() {
    let mut store = sample_store();
    store.set("e".to_string(), "5".to_string(), 10);
    let frames = vec![(0u64, 10u64), (10, 10), (20, 10), (30, 10), (40, 10)];
    let records = vec![
        LogRecord::Put("a".to_string(), "1".to_string()),
        LogRecord::Put("b".to_string(), "2".to_string()),
        LogRecord::Put("a".to_string(), "3".to_string()),
        LogRecord::Delete("b".to_string()),
        LogRecord::Put("e".to_string(), "5".to_string()),
    ];
    let reloaded = KvStore::new(StorageHandler::new("foo2.txt".to_string(), 50), &frames, records);
    for key in ["a", "b", "e", "z"] {
        let k = key.to_string();
        let p1 = store.locate(&k).map(|p| (p.offset, p.filename));
        let p2 = reloaded.locate(&k).map(|p| (p.offset, p.filename));
        assert_eq!(p1, p2);
    }
}

#[test]
fn server_commands() {
    let mut store = sample_store();
    let put = Command::Put { key: "k".to_string(), value: "v".to_string() };
    assert_eq!(run_kv_command(&mut store, put, 10, None), None);
    let get = Command::Get { key: "k".to_string() };
    let stored = Some(LogRecord::Put("k".to_string(), "v".to_string()));
    assert_eq!(run_kv_command(&mut store, get, 0, stored), Some("v".to_string()));
    let del = Command::Delete { key: "k".to_string() };
    assert_eq!(run_kv_command(&mut store, del, 10, None), None);
    let get = Command::Get { key: "k".to_string() };
    let stored = Some(LogRecord::Delete("k".to_string()));
    assert_eq!(run_kv_command(&mut store, get, 0, stored), Some("No key found".to_string()));
    let get = Command::Get { key: "absent".to_string() };
    assert_eq!(run_kv_command(&mut store, get, 0, None), Some("No key found".to_string()));
}

#[test]
fn get_replies() {
    assert_eq!(get_reply(Some("x".to_string())), "x");
    assert_eq!(get_reply(None), "No key found");
}

#[test]
fn directions_from_numbers() {
    assert_eq!(Direction::from_int(0), Direction::Up);
    assert_eq!(Direction::from_int(1), Direction::Left);
    assert_eq!(Direction::from_int(2), Direction::Down);
    assert_eq!(Direction::from_int(3), Direction::Right);
    assert_eq!(Direction::from_int(4), Direction::Up);
    assert_eq!(Direction::from_int(7), Direction::Right);
    assert_eq!(Direction::from_int(u32::MAX), Direction::Right);
}

#[test]
fn demo_sequence_of_sets_and_removes() {
    let mut store = KvStore::new(StorageHandler::new("foo2.txt".to_string(), 0), &vec![], vec![]);
    let steps: Vec<(&str, Option<&str>)> = vec![
        ("key23", Some("val23")),
        ("key23", Some("val24")),
        ("key2", Some("val3")),
        ("key4", Some("val")),
        ("key10", Some("notval")),
        ("key69", Some("ooooo")),
        ("key23", None),
        ("key4", None),
        ("key23", Some("val")),
    ];
    let mut written: Vec<(u64, LogRecord)> = Vec::new();
    for (key, value) in steps {
        let offset = store.current_offset();
        match value {
            Some(v) => {
                store.set(key.to_string(), v.to_string(), 20);
                written.push((offset, LogRecord::Put(key.to_string(), v.to_string())));
            }
            None => {
                store.remove(key.to_string(), 20);
                written.push((offset, LogRecord::Delete(key.to_string())));
            }
        }
    }
    let read = |k: &str| -> Option<String> {
        let key = k.to_string();
        let stored = store.locate(&key).map(|p| {
            written.iter().find(|(o, _)| *o == p.offset).unwrap().1.duplicate()
        });
        store.get(&key, stored)
    };
    assert_eq!(read("key23"), Some("val".to_string()));
    assert_eq!(read("key4"), None);
    assert_eq!(read("key2"), Some("val3".to_string()));
    assert_eq!(read("key69"), Some("ooooo".to_string()));
    assert_eq!(read("key10"), Some("notval".to_string()));
    assert_eq!(read("nothing"), None);
}

#[test]
fn writes_after_each_round_name_that_rounds_log() {
    let mut s = StorageHandler::new("start.log".to_string(), 4);
    for round in 1u8..4 {
        let _ = s.begin_compaction();
        let p = s.write_record(8);
        assert_eq!(p.log_age, round);
        assert_eq!(p.filename, format!("foo_{}.txt", round));
        assert_eq!(p.offset, 0);
        let q = s.write_record(8);
        assert_eq!(q.offset, 8);
        let updated = s.compact_logs(&vec![], &vec![], &vec![], &vec![]);
        assert!(updated.is_empty());
    }
}
