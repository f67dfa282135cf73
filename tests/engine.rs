use kvs::{read_value, Command, KvStoreError, LogFile, LogIndex, COMPACTION_THRESHOLD};
use kvs::{encode_command, parse_command};
use std::collections::BTreeMap;

/// The engine with its log files held in memory, doing what the index
/// asks of the files.
struct MemStore {
    index: LogIndex,
    files: BTreeMap<u64, Vec<u8>>,
    written: u64,
}

impl MemStore {
    fn open(mut files: BTreeMap<u64, Vec<u8>>) -> MemStore {
        let logs: Vec<LogFile> = files.iter().map(|(id, b)| LogFile { id: *id, bytes: b.clone() }).collect();
        let (index, lens) = LogIndex::open(&logs).unwrap();
        for (log, n) in logs.iter().zip(lens.iter()) {
            files.get_mut(&log.id).unwrap().truncate(*n);
        }
        let active = index.current_log().unwrap();
        files.insert(active, Vec::new());
        MemStore { index, files, written: 0 }
    }

    fn active(&self) -> u64 {
        self.index.current_log().unwrap()
    }

    fn set(&mut self, k: &str, v: &str) {
        let (rec, compact) = self.index.set(k.to_string(), v.to_string()).unwrap();
        self.written += rec.len() as u64;
        let a = self.active();
        self.files.get_mut(&a).unwrap().extend_from_slice(&rec);
        if compact {
            self.compact();
        }
    }

    fn compact(&mut self) {
        let plan = self.index.compaction().unwrap();
        let mut target = Vec::new();
        for c in plan.copies.iter() {
            let f = &self.files[&c.log_id];
            target.extend_from_slice(&f[c.pos as usize..(c.pos + c.len) as usize]);
        }
        for id in plan.stale.iter() {
            self.files.remove(id);
        }
        self.files.insert(plan.target, target);
        self.files.insert(plan.active, Vec::new());
    }

    fn get(&self, k: &str) -> Option<String> {
        self.index.lookup(&k.to_string()).map(|p| {
            let f = &self.files[&p.log_id];
            read_value(&f[p.pos as usize..(p.pos + p.len) as usize]).unwrap()
        })
    }

    fn remove(&mut self, k: &str) -> Result<(), KvStoreError> {
        let rec = self.index.remove(k.to_string())?;
        self.written += rec.len() as u64;
        let a = self.active();
        self.files.get_mut(&a).unwrap().extend_from_slice(&rec);
        Ok(())
    }

    fn disk_bytes(&self) -> u64 {
        self.files.values().map(|f| f.len() as u64).sum()
    }
}

#[test]
fn open_empty_creates_first_log() {
    let s = MemStore::open(BTreeMap::new());
    assert_eq!(s.active(), 1);
    assert_eq!(s.index.log_ids(), vec![1]);
    assert_eq!(s.files.len(), 1);
}

#[test]
fn scenario_set_get_remove() {
    let mut s = MemStore::open(BTreeMap::new());
    s.set("a", "1");
    s.set("b", "2");
    assert_eq!(s.get("a"), Some("1".to_string()));
    assert_eq!(s.get("b"), Some("2".to_string()));
    s.remove("a").unwrap();
    assert_eq!(s.get("a"), None);
    assert_eq!(s.remove("a"), Err(KvStoreError::KeyNotFound));
}

#[test]
fn scenario_reopen_keeps_bindings() {
    let mut s = MemStore::open(BTreeMap::new());
    s.set("a", "1");
    s.set("b", "2");
    s.remove("a").unwrap();
    let _ = s.remove("a");
    let t = MemStore::open(s.files.clone());
    assert_eq!(t.get("b"), Some("2".to_string()));
    assert_eq!(t.get("a"), None);
    assert_eq!(t.active(), 2);
}

#[test]
fn set_overwrites_and_get_follows() {
    let mut s = MemStore::open(BTreeMap::new());
    s.set("k", "one");
    s.set("other", "x");
    assert_eq!(s.get("k"), Some("one".to_string()));
    s.set("k", "two");
    assert_eq!(s.get("k"), Some("two".to_string()));
    assert_eq!(s.get("other"), Some("x".to_string()));
    assert_eq!(s.get("missing"), None);
}

#[test]
fn remove_twice_reports_key_not_found() {
    let mut s = MemStore::open(BTreeMap::new());
    s.set("k", "v");
    assert_eq!(s.remove("k"), Ok(()));
    assert_eq!(s.get("k"), None);
    assert_eq!(s.remove("k"), Err(KvStoreError::KeyNotFound));
    let before = s.files.clone();
    assert_eq!(s.remove("never"), Err(KvStoreError::KeyNotFound));
    assert_eq!(s.files, before);
}

#[test]
fn scenario_many_overwrites_compact() {
    let mut s = MemStore::open(BTreeMap::new());
    let mut last = vec![0usize; 8];
    for i in 0..10_000usize {
        s.set(&format!("k{}", i % 8), &format!("v{}", i));
        last[i % 8] = i;
    }
    for j in 0..8 {
        assert_eq!(s.get(&format!("k{}", j)), Some(format!("v{}", last[j])));
    }
    assert!(s.disk_bytes() <= s.written);
}

#[test]
fn overwrites_past_threshold_shrink_directory() {
    let mut s = MemStore::open(BTreeMap::new());
    let mut last = vec![0usize; 8];
    for i in 0..40_000usize {
        s.set(&format!("k{}", i % 8), &format!("v{}", i));
        last[i % 8] = i;
    }
    for j in 0..8 {
        assert_eq!(s.get(&format!("k{}", j)), Some(format!("v{}", last[j])));
    }
    assert!(s.written > COMPACTION_THRESHOLD);
    assert!(s.disk_bytes() < s.written);
}

#[test]
fn compaction_shrinks_and_keeps_values() {
    let mut s = MemStore::open(BTreeMap::new());
    let big = "x".repeat(1000);
    for i in 0..100 {
        s.set(&format!("key{}", i), &big);
    }
    let mut before = s.disk_bytes();
    let mut round = 0;
    let mut compacted = false;
    while !compacted {
        for i in 0..100 {
            let active = s.active();
            let size = s.disk_bytes();
            s.set(&format!("key{}", i), &format!("{}{}", big, round));
            if s.active() != active {
                compacted = true;
                assert!(s.disk_bytes() < size);
                assert!(s.disk_bytes() < before);
                break;
            }
        }
        before = s.disk_bytes();
        round += 1;
    }
    for i in 0..100 {
        assert!(s.get(&format!("key{}", i)).unwrap().starts_with(&big));
    }
}

#[test]
fn compaction_leaves_target_and_newer_active() {
    let mut s = MemStore::open(BTreeMap::new());
    s.set("a", "1");
    s.set("a", "2");
    s.set("b", "3");
    let old_active = s.active();
    s.compact();
    let ids = s.index.log_ids();
    assert_eq!(ids, vec![old_active + 1, old_active + 2]);
    assert_eq!(s.active(), old_active + 2);
    assert_eq!(s.index.uncompacted(), 0);
    let files: Vec<u64> = s.files.keys().cloned().collect();
    assert_eq!(files, ids);
    assert_eq!(s.get("a"), Some("2".to_string()));
    assert_eq!(s.get("b"), Some("3".to_string()));
    let t = MemStore::open(s.files.clone());
    assert_eq!(t.get("a"), Some("2".to_string()));
    assert_eq!(t.active(), old_active + 3);
}

#[test]
fn compaction_trigger_follows_byte_count() {
    let mut index = LogIndex::new();
    index.open_active().unwrap();
    let value = "v".repeat(100_000);
    let (first, compact) = index.set("k".to_string(), value.clone()).unwrap();
    assert!(!compact);
    let len = first.len() as u64;
    let mut n: u64 = 0;
    loop {
        let (_, compact) = index.set("k".to_string(), value.clone()).unwrap();
        n += 1;
        assert_eq!(index.uncompacted(), n * len);
        assert_eq!(compact, n * len > COMPACTION_THRESHOLD);
        if compact {
            break;
        }
    }
    assert_eq!(n, COMPACTION_THRESHOLD / len + 1);
}

#[test]
fn remove_counts_its_own_record() {
    let mut index = LogIndex::new();
    index.open_active().unwrap();
    let (set_rec, _) = index.set("k".to_string(), "v".to_string()).unwrap();
    let rm_rec = index.remove("k".to_string()).unwrap();
    assert_eq!(index.uncompacted(), (set_rec.len() + rm_rec.len()) as u64);
}

#[test]
fn quotes_and_newlines_round_trip() {
    let mut s = MemStore::open(BTreeMap::new());
    let key = "a \"quoted\" key\nwith lines\\ and \u{1} é 中";
    let value = "{\"Set\":{\"key\":\"x\"}}\r\n\t";
    s.set(key, value);
    assert_eq!(s.get(key), Some(value.to_string()));
    let t = MemStore::open(s.files.clone());
    assert_eq!(t.get(key), Some(value.to_string()));
}

#[test]
fn replay_skips_torn_tail() {
    let a = encode_command(&Command::SetKey { key: "a".to_string(), value: "1".to_string() });
    let b = encode_command(&Command::SetKey { key: "b".to_string(), value: "2".to_string() });
    let mut bytes = a.clone();
    bytes.extend_from_slice(&b[..b.len() - 3]);
    let mut index = LogIndex::new();
    assert_eq!(index.replay(1, &bytes), Ok(a.len()));
    let mut files = BTreeMap::new();
    files.insert(1, bytes);
    let s = MemStore::open(files);
    assert_eq!(s.get("a"), Some("1".to_string()));
    assert_eq!(s.get("b"), None);
    assert_eq!(s.files[&1].len(), a.len());
    assert_eq!(s.active(), 2);
}

#[test]
fn replay_rejects_garbage() {
    let mut index = LogIndex::new();
    let r = index.replay(1, b"{\"Put\":1}");
    assert!(matches!(r, Err(KvStoreError::SerdeIo(_))));
}

#[test]
fn replay_counts_superseded_records() {
    let s1 = encode_command(&Command::SetKey { key: "a".to_string(), value: "1".to_string() });
    let s2 = encode_command(&Command::SetKey { key: "a".to_string(), value: "2".to_string() });
    let rm = encode_command(&Command::Rm("a".to_string()));
    let mut bytes = s1.clone();
    bytes.extend_from_slice(&s2);
    bytes.extend_from_slice(&rm);
    let mut index = LogIndex::new();
    assert_eq!(index.replay(3, &bytes), Ok(bytes.len()));
    assert_eq!(index.uncompacted(), bytes.len() as u64);
    assert_eq!(index.lookup(&"a".to_string()), None);
    assert_eq!(index.current_log(), Some(3));
}

#[test]
fn command_records_are_exact() {
    let set = encode_command(&Command::SetKey { key: "foo".to_string(), value: "bar".to_string() });
    assert_eq!(set, b"{\"Set\":{\"key\":\"foo\",\"value\":\"bar\"}}".to_vec());
    let rm = encode_command(&Command::Rm("foo".to_string()));
    assert_eq!(rm, b"{\"Rm\":\"foo\"}".to_vec());
    let mut both = set.clone();
    both.extend_from_slice(&rm);
    let (c, q) = parse_command(&both, 0).unwrap().unwrap();
    assert_eq!(c, Command::SetKey { key: "foo".to_string(), value: "bar".to_string() });
    assert_eq!(q, set.len());
    let (c2, q2) = parse_command(&both, q).unwrap().unwrap();
    assert_eq!(c2, Command::Rm("foo".to_string()));
    assert_eq!(q2, both.len());
    assert_eq!(parse_command(&both, both.len()), Ok(None));
}

#[test]
fn read_value_refuses_rm_records() {
    let rm = encode_command(&Command::Rm("foo".to_string()));
    assert!(matches!(read_value(&rm), Err(KvStoreError::SerdeIo(_))));
    let set = encode_command(&Command::SetKey { key: "k".to_string(), value: "v".to_string() });
    assert_eq!(read_value(&set), Ok("v".to_string()));
}

#[test]
fn lookup_points_at_the_record() {
    let mut index = LogIndex::new();
    assert_eq!(index.open_active(), Ok(1));
    let (r1, _) = index.set("a".to_string(), "1".to_string()).unwrap();
    let (r2, _) = index.set("b".to_string(), "22".to_string()).unwrap();
    let pa = index.lookup(&"a".to_string()).unwrap();
    let pb = index.lookup(&"b".to_string()).unwrap();
    assert_eq!((pa.log_id, pa.pos, pa.len), (1, 0, r1.len() as u64));
    assert_eq!((pb.log_id, pb.pos, pb.len), (1, r1.len() as u64, r2.len() as u64));
}

#[test]
fn every_cut_of_a_record_is_a_torn_tail() {
    let a = encode_command(&Command::SetKey { key: "a".to_string(), value: "1".to_string() });
    let b = encode_command(&Command::Rm("a\"b".to_string()));
    for cut in 0..b.len() {
        let mut bytes = a.clone();
        bytes.extend_from_slice(&b[..cut]);
        let mut index = LogIndex::new();
        assert_eq!(index.replay(1, &bytes), Ok(a.len()));
        assert!(index.lookup(&"a".to_string()).is_some());
    }
}

#[test]
fn ids_run_out_without_change() {
    let mut index = LogIndex::new();
    let rec = encode_command(&Command::SetKey { key: "a".to_string(), value: "1".to_string() });
    assert_eq!(index.replay(u64::MAX, &rec), Ok(rec.len()));
    assert!(matches!(index.open_active(), Err(KvStoreError::Io(_))));
    assert!(matches!(index.compaction(), Err(KvStoreError::Io(_))));
    assert_eq!(index.current_log(), Some(u64::MAX));
    assert_eq!(index.log_ids(), vec![u64::MAX]);
}

#[test]
fn open_refuses_unordered_logs() {
    let logs = vec![LogFile { id: 3, bytes: Vec::new() }, LogFile { id: 2, bytes: Vec::new() }];
    assert!(matches!(LogIndex::open(&logs), Err(KvStoreError::Io(_))));
}

#[test]
fn open_refuses_garbage_before_later_records() {
    let a = encode_command(&Command::SetKey { key: "a".to_string(), value: "1".to_string() });
    let mut bytes = b"{\"Set\":{\"kez\"".to_vec();
    bytes.extend_from_slice(&a);
    let logs = vec![LogFile { id: 1, bytes }];
    assert!(matches!(LogIndex::open(&logs), Err(KvStoreError::SerdeIo(_))));
    assert!(matches!(parse_command(b"{\"Rm\":1}", 0), Err(KvStoreError::SerdeIo(_))));
}

#[test]
fn open_after_sweeping_empty_log() {
    let a = encode_command(&Command::SetKey { key: "a".to_string(), value: "1".to_string() });
    let logs = vec![LogFile { id: 2, bytes: a.clone() }, LogFile { id: 5, bytes: a }];
    let (index, lens) = LogIndex::open(&logs).unwrap();
    assert_eq!(index.current_log(), Some(6));
    assert_eq!(index.log_ids(), vec![2, 5, 6]);
    assert_eq!(lens.len(), 2);
    let p = index.lookup(&"a".to_string()).unwrap();
    assert_eq!(p.log_id, 5);
}

#[test]
fn room_and_compaction_ids_match_what_follows() {
    let mut index = LogIndex::new();
    index.open_active().unwrap();
    assert_eq!(index.room(), u64::MAX);
    let (rec, _) = index.set("a".to_string(), "1".to_string()).unwrap();
    assert_eq!(index.room(), u64::MAX - rec.len() as u64);
    assert_eq!(index.compaction_ids(), Some((2, 3)));
    let plan = index.compaction().unwrap();
    assert_eq!((plan.target, plan.active), (2, 3));
}
