use std::collections::BTreeMap;

use kv::codec::{encode_record, parse_record};
use kv::command::{CmdIdx, Command};
use kv::engine::{DiskOp, KvError, KvStore, Segment};
use kv::req::{handle, Request};
use kv::segments::{parse_log_id, segment_ids};
use kv::writer::WriterWithPos;

/// A data directory kept in memory: segment id to contents.
type Dir = BTreeMap<u32, Vec<u8>>;

fn apply(dir: &mut Dir, ops: Vec<DiskOp>) {
    for op in ops {
        match op {
            DiskOp::Create(id) => {
                dir.insert(id, Vec::new());
            }
            DiskOp::Append(id, bytes) => {
                dir.get_mut(&id).expect("segment exists").extend_from_slice(&bytes);
            }
            DiskOp::Delete(id) => {
                dir.remove(&id);
            }
        }
    }
}

fn segments_of(dir: &Dir) -> Vec<Segment> {
    dir.iter()
        .map(|(id, bytes)| Segment { id: *id, log: WriterWithPos::new(bytes.clone()) })
        .collect()
}

fn open_dir(dir: &mut Dir) -> KvStore {
    let (store, ops) = KvStore::open(segments_of(dir)).expect("open");
    apply(dir, ops);
    store
}

fn set(store: &mut KvStore, dir: &mut Dir, k: &str, v: &str) {
    let ops = store.set(k.to_string(), v.to_string()).expect("set");
    apply(dir, ops);
}

fn get(store: &KvStore, k: &str) -> Option<String> {
    store.get(k.to_string()).expect("get")
}

#[test]
fn test_set() {
    let mut dir = Dir::new();
    let mut kvs = open_dir(&mut dir);
    set(&mut kvs, &mut dir, "key", "value");
}

#[test]
fn test_open_set() {
    let mut dir = Dir::new();
    let mut open = open_dir(&mut dir);
    set(&mut open, &mut dir, "foo", "bar");
    assert_eq!(1, open.len());
    set(&mut open, &mut dir, "foo1", "bar1");
    assert_eq!(2, open.len());
    set(&mut open, &mut dir, "foo2", "bar2");
    assert_eq!(3, open.len());
}

#[test]
fn test_get() {
    let mut dir = Dir::new();
    let mut open = open_dir(&mut dir);
    set(&mut open, &mut dir, "foo", "bar");
    let mut open = open_dir(&mut dir);
    let got = open.get("foo".to_string()).unwrap();
    assert_eq!(Some("bar".to_string()), got);
    set(&mut open, &mut dir, "foo", "bar");
}

#[test]
fn test_remove() {
    let mut dir = Dir::new();
    let mut open = open_dir(&mut dir);
    set(&mut open, &mut dir, "foo1", "bar1");
    let mut is_err = false;
    match open.remove("foo1".to_string()) {
        Ok(ops) => apply(&mut dir, ops),
        Err(_) => is_err = true,
    }
    assert!(!is_err);
    match open.remove("foo10000".to_string()) {
        Ok(ops) => apply(&mut dir, ops),
        Err(_) => is_err = true,
    }
    assert!(is_err);
}

#[test]
fn test_compact() {
    let mut dir = Dir::new();
    let mut open = open_dir(&mut dir);
    for i in 0..1000 {
        set(&mut open, &mut dir, "key-foo", &format!("value-bar-{}", i));
    }
    let ops = open.compact().unwrap();
    apply(&mut dir, ops);
    assert_eq!("value-bar-999".to_string(), open.get("key-foo".to_string()).unwrap().expect("value"));
}

#[test]
fn fresh_directory_set_and_get() {
    let mut dir = Dir::new();
    let mut s = open_dir(&mut dir);
    set(&mut s, &mut dir, "k", "v");
    assert_eq!(get(&s, "k"), Some("v".to_string()));
    assert_eq!(get(&s, "missing"), None);
}

#[test]
fn overwrite_keeps_last_value() {
    let mut dir = Dir::new();
    let mut s = open_dir(&mut dir);
    set(&mut s, &mut dir, "x", "1");
    set(&mut s, &mut dir, "x", "2");
    set(&mut s, &mut dir, "x", "3");
    assert_eq!(get(&s, "x"), Some("3".to_string()));
}

#[test]
fn remove_then_missing_and_key_not_found() {
    let mut dir = Dir::new();
    let mut s = open_dir(&mut dir);
    set(&mut s, &mut dir, "a", "1");
    let ops = s.remove("a".to_string()).unwrap();
    apply(&mut dir, ops);
    assert_eq!(get(&s, "a"), None);
    assert!(matches!(s.remove("a".to_string()), Err(KvError::KeyNotFound)));
    assert_eq!(KvError::KeyNotFound.message(), "Key not found");
}

#[test]
fn forced_compaction_leaves_two_segments() {
    let mut dir = Dir::new();
    let mut s = open_dir(&mut dir);
    for i in 0..1000 {
        set(&mut s, &mut dir, "k", &format!("v-{}", i));
    }
    let ops = s.compact().unwrap();
    apply(&mut dir, ops);
    assert_eq!(get(&s, "k"), Some("v-999".to_string()));
    assert_eq!(dir.len(), 2);
    let live = encode_record(&Command::Put { key: "k".to_string(), value: "v-999".to_string() });
    let total: usize = dir.values().map(|b| b.len()).sum();
    assert_eq!(total, live.len());
}

#[test]
fn restart_reads_what_was_written() {
    let mut dir = Dir::new();
    let mut s = open_dir(&mut dir);
    set(&mut s, &mut dir, "x", "1");
    set(&mut s, &mut dir, "x", "2");
    set(&mut s, &mut dir, "x", "3");
    drop(s);
    let s = open_dir(&mut dir);
    assert_eq!(get(&s, "x"), Some("3".to_string()));
}

#[test]
fn restart_after_remove_and_compaction() {
    let mut dir = Dir::new();
    let mut s = open_dir(&mut dir);
    for i in 0..200 {
        set(&mut s, &mut dir, &format!("k{}", i % 7), &format!("v{}", i));
    }
    let ops = s.remove("k3".to_string()).unwrap();
    apply(&mut dir, ops);
    let s2 = open_dir(&mut dir);
    for j in 0..7 {
        let k = format!("k{}", j);
        assert_eq!(get(&s2, &k), get(&s, &k));
    }
    assert_eq!(get(&s2, "k3"), None);
}

#[test]
fn segment_ids_only_grow() {
    let mut dir = Dir::new();
    let mut s = open_dir(&mut dir);
    let mut seen_max = *dir.keys().max().unwrap();
    for i in 0..300 {
        set(&mut s, &mut dir, "k", &format!("{}", i));
        let now_max = *dir.keys().max().unwrap();
        assert!(now_max >= seen_max);
        seen_max = now_max;
    }
    assert!(seen_max > 1);
}

#[test]
fn compaction_keeps_every_answer() {
    let mut dir = Dir::new();
    let mut s = open_dir(&mut dir);
    set(&mut s, &mut dir, "a", "1");
    set(&mut s, &mut dir, "b", "2");
    set(&mut s, &mut dir, "a", "3");
    let before: Vec<Option<String>> = ["a", "b", "c"].iter().map(|k| get(&s, k)).collect();
    let ops = s.compact().unwrap();
    apply(&mut dir, ops);
    let after: Vec<Option<String>> = ["a", "b", "c"].iter().map(|k| get(&s, k)).collect();
    assert_eq!(before, after);
    assert_eq!(dir.len(), 2);
}

#[test]
fn record_bytes_are_compact_json() {
    let put = encode_record(&Command::Put { key: "k".to_string(), value: "v".to_string() });
    assert_eq!(put, br#"{"Set":{"key":"k","value":"v"}}"#.to_vec());
    let rm = encode_record(&Command::Remove { key: "k".to_string() });
    assert_eq!(rm, br#"{"Remove":{"key":"k"}}"#.to_vec());
    let esc = encode_record(&Command::Put { key: "a\"b\\".to_string(), value: "x\ny".to_string() });
    assert_eq!(esc, br#"{"Set":{"key":"a\"b\\","value":"x\u000ay"}}"#.to_vec());
}

#[test]
fn records_parse_back_in_a_stream() {
    let mut buf = encode_record(&Command::Put { key: "ключ".to_string(), value: "错误\t".to_string() });
    let first = buf.len();
    buf.extend(encode_record(&Command::Remove { key: "ключ".to_string() }));
    match parse_record(&buf, 0) {
        Some((Command::Put { key, value }, end)) => {
            assert_eq!(key, "ключ");
            assert_eq!(value, "错误\t");
            assert_eq!(end, first);
        }
        _ => panic!("expected a Set record"),
    }
    match parse_record(&buf, first) {
        Some((Command::Remove { key }, end)) => {
            assert_eq!(key, "ключ");
            assert_eq!(end, buf.len());
        }
        _ => panic!("expected a Remove record"),
    }
}

#[test]
fn parser_reads_short_escapes() {
    let buf = br#"{"Set":{"key":"a\/b","value":"l1\nl2\r\t\b\f"}}"#.to_vec();
    match parse_record(&buf, 0) {
        Some((Command::Put { key, value }, end)) => {
            assert_eq!(key, "a/b");
            assert_eq!(value, "l1\nl2\r\t\u{8}\u{c}");
            assert_eq!(end, buf.len());
        }
        _ => panic!("expected a Set record"),
    }
}

#[test]
fn garbage_is_no_record() {
    assert!(parse_record(b"{\"Set\":{\"key\":\"k\"", 0).is_none());
    assert!(parse_record(b"hello", 0).is_none());
    assert!(parse_record(b"", 0).is_none());
}

#[test]
fn open_on_corrupt_segment_fails() {
    let mut bytes = encode_record(&Command::Put { key: "k".to_string(), value: "v".to_string() });
    bytes.extend_from_slice(b"{\"Set\":");
    let segs = vec![Segment { id: 1, log: WriterWithPos::new(bytes) }];
    assert!(matches!(KvStore::open(segs), Err(KvError::CorruptLog)));
}

#[test]
fn open_with_no_id_left_fails() {
    let segs = vec![Segment { id: u32::MAX, log: WriterWithPos::new(Vec::new()) }];
    assert!(matches!(KvStore::open(segs), Err(KvError::LogFull)));
}

#[test]
fn open_picks_next_id_after_largest() {
    let mut dir = Dir::new();
    dir.insert(3, Vec::new());
    dir.insert(7, Vec::new());
    let _s = open_dir(&mut dir);
    assert!(dir.contains_key(&8));
    assert_eq!(dir.len(), 3);
}

#[test]
fn open_replays_existing_records() {
    let mut bytes = encode_record(&Command::Put { key: "a".to_string(), value: "1".to_string() });
    bytes.extend(encode_record(&Command::Put { key: "b".to_string(), value: "2".to_string() }));
    bytes.extend(encode_record(&Command::Remove { key: "a".to_string() }));
    let mut dir = Dir::new();
    dir.insert(1, bytes);
    let s = open_dir(&mut dir);
    assert_eq!(get(&s, "a"), None);
    assert_eq!(get(&s, "b"), Some("2".to_string()));
    assert_eq!(s.len(), 1);
}

#[test]
fn writer_tracks_position() {
    let mut w = WriterWithPos::new(b"abc".to_vec());
    assert_eq!(w.pos, 3);
    assert_eq!(w.write(b"de"), 2);
    assert_eq!(w.pos, 5);
    assert_eq!(w.as_slice(), b"abcde");
    assert_eq!(w.len(), 5);
}

#[test]
fn cmd_idx_from_range() {
    let idx = CmdIdx::from(4, 10, 25);
    assert_eq!(idx, CmdIdx { file: 4, pos: 10, len: 15 });
}

#[test]
fn frontend_answers_each_command() {
    let mut dir = Dir::new();
    let mut s = open_dir(&mut dir);
    let (r, ops) = handle(&mut s, Request { command: Command::Put { key: "key".to_string(), value: "value".to_string() } });
    apply(&mut dir, ops);
    assert_eq!(r.result, Ok(Some("ok".to_string())));
    let (r, _) = handle(&mut s, Request { command: Command::Get { key: "key".to_string() } });
    assert_eq!(r.result, Ok(Some("value".to_string())));
    let (r, ops) = handle(&mut s, Request { command: Command::Remove { key: "key".to_string() } });
    apply(&mut dir, ops);
    assert_eq!(r.result, Ok(Some("ok".to_string())));
    let (r, _) = handle(&mut s, Request { command: Command::Remove { key: "key".to_string() } });
    assert_eq!(r.result, Err("Key not found".to_string()));
    let (r, _) = handle(&mut s, Request { command: Command::Get { key: "key".to_string() } });
    assert_eq!(r.result, Ok(None));
}

#[test]
fn frontend_hundred_sets_then_gets() {
    let mut dir = Dir::new();
    let (mut s, ops) = KvStore::open_with_threshold(segments_of(&dir), kv::engine::SHARED_COMPACTION_THRESHOLD).unwrap();
    apply(&mut dir, ops);
    for i in 0..100 {
        let cmd = Command::Put { key: format!("foo{}", i), value: format!("bar{}", i) };
        let (r, ops) = handle(&mut s, Request { command: cmd });
        apply(&mut dir, ops);
        assert_eq!(r.result, Ok(Some("ok".to_string())));
    }
    for i in 0..100 {
        let (r, _) = handle(&mut s, Request { command: Command::Get { key: format!("foo{}", i) } });
        assert_eq!(r.result, Ok(Some(format!("bar{}", i))));
    }
}

#[test]
fn error_messages() {
    assert_eq!(KvError::CorruptLog.message(), "Corrupt log");
    assert_eq!(KvError::LogFull.message(), "Log full");
}

#[test]
fn segment_names_to_ids() {
    assert_eq!(parse_log_id(&"12.log".to_string()), Some(12));
    assert_eq!(parse_log_id(&"4294967295.log".to_string()), Some(u32::MAX));
    assert_eq!(parse_log_id(&"4294967296.log".to_string()), None);
    assert_eq!(parse_log_id(&"a1.log".to_string()), None);
    assert_eq!(parse_log_id(&".log".to_string()), None);
    assert_eq!(parse_log_id(&"7.txt".to_string()), None);
    let names: Vec<String> = ["10.log", "2.log", "notes.txt", "2.log", "x.log", "1.log"]
        .iter()
        .map(|s| s.to_string())
        .collect();
    assert_eq!(segment_ids(&names), vec![1, 2, 10]);
    assert_eq!(segment_ids(&Vec::new()), Vec::<u32>::new());
}

#[test]
fn run_of_sets_reads_last_writes() {
    let mut dir = Dir::new();
    let mut s = open_dir(&mut dir);
    let keys = ["a", "b", "a", "c", "b", "a"];
    for (i, k) in keys.iter().enumerate() {
        set(&mut s, &mut dir, k, &format!("{}", i));
    }
    assert_eq!(get(&s, "a"), Some("5".to_string()));
    assert_eq!(get(&s, "b"), Some("4".to_string()));
    assert_eq!(get(&s, "c"), Some("3".to_string()));
}

#[test]
fn compaction_deletes_only_after_writing() {
    let mut dir = Dir::new();
    let mut s = open_dir(&mut dir);
    set(&mut s, &mut dir, "a", "1");
    set(&mut s, &mut dir, "b", "2");
    let ops = s.compact().unwrap();
    let first_delete = ops.iter().position(|op| matches!(op, DiskOp::Delete(_))).expect("old segments go");
    assert!(ops[first_delete..].iter().all(|op| matches!(op, DiskOp::Delete(_))));
    assert!(ops[..first_delete].iter().any(|op| matches!(op, DiskOp::Append(2, _))));
    apply(&mut dir, ops);
    assert_eq!(dir.keys().copied().collect::<Vec<u32>>(), vec![2, 3]);
    assert_eq!(get(&s, "a"), Some("1".to_string()));
}
