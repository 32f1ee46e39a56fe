use kvs::{KvStore, KvsError, Record, WalLog};

fn reopen(kvs: KvStore) -> KvStore {
    let (cmd, meta) = kvs.into_logs();
    KvStore::from_wal(cmd, meta).unwrap()
}

#[test]
fn test_set_two_key() {
    let mut kvs = KvStore::new();
    kvs.set("key1".into(), "value2".into()).unwrap();
    kvs.set("key2".into(), "value2".into()).unwrap();
}

#[test]
fn test_set_and_recover() {
    let mut kvs = KvStore::new();
    kvs.set("key1".into(), "value1".into()).unwrap();
    kvs.set("key2".into(), "value2".into()).unwrap();
    kvs = reopen(kvs);
    assert_eq!(kvs.get("key1".into()).unwrap(), Some(String::from("value1")));
    assert_eq!(kvs.get("key2".into()).unwrap(), Some(String::from("value2")));
}

#[test]
fn test_remove_and_recover() {
    let mut kvs = KvStore::new();
    kvs.set("key1".into(), "value1".into()).unwrap();
    kvs.set(String::from("key2"), String::from("value2")).unwrap();
    kvs.remove(String::from("key1")).unwrap();
    kvs = reopen(kvs);
    assert_eq!(kvs.get(String::from("key1")).unwrap(), None);
    assert_eq!(kvs.get(String::from("key2")).unwrap(), Some(String::from("value2")));
}

#[test]
fn last_writer_wins_after_reopen() {
    let mut kvs = KvStore::new();
    kvs.set("k".into(), "a".into()).unwrap();
    kvs.set("k".into(), "b".into()).unwrap();
    assert_eq!(kvs.get("k".into()).unwrap(), Some("b".to_string()));
    let kvs = reopen(kvs);
    assert_eq!(kvs.get("k".into()).unwrap(), Some("b".to_string()));
}

#[test]
fn tombstone_survives_reopen() {
    let mut kvs = KvStore::new();
    kvs.set("k".into(), "a".into()).unwrap();
    kvs.remove("k".into()).unwrap();
    let mut kvs = reopen(kvs);
    assert_eq!(kvs.get("k".into()).unwrap(), None);
    assert!(matches!(kvs.remove("k".into()), Err(KvsError::NotFound)));
}

#[test]
fn remove_of_absent_key_writes_nothing() {
    let mut kvs = KvStore::new();
    kvs.set("a".into(), "1".into()).unwrap();
    let before = (kvs.cmd_wal().len(), kvs.meta_wal().len());
    assert!(matches!(kvs.remove("b".into()), Err(KvsError::NotFound)));
    assert_eq!((kvs.cmd_wal().len(), kvs.meta_wal().len()), before);
    assert_eq!(kvs.get("b".into()).unwrap(), None);
}

#[test]
fn round_trip_of_mixed_operations() {
    let mut kvs = KvStore::new();
    for i in 0..20 {
        kvs.set(format!("k{}", i % 7), format!("v{}", i)).unwrap();
        if i % 5 == 4 {
            kvs.remove(format!("k{}", i % 7)).unwrap();
        }
    }
    kvs.set(String::new(), String::new()).unwrap();
    let keys: Vec<String> = (0..8).map(|i| format!("k{}", i)).chain(vec![String::new()]).collect();
    let before: Vec<Option<String>> = keys.iter().map(|k| kvs.get(k.clone()).unwrap()).collect();
    let kvs = reopen(kvs);
    let after: Vec<Option<String>> = keys.iter().map(|k| kvs.get(k.clone()).unwrap()).collect();
    assert_eq!(before, after);
    assert_eq!(after[0], None);
    assert_eq!(after[1], Some("v15".to_string()));
    assert_eq!(after[8], Some(String::new()));
}

#[test]
fn recovery_twice_gives_the_same_index() {
    let mut kvs = KvStore::new();
    kvs.set("a".into(), "1".into()).unwrap();
    kvs.set("b".into(), "2".into()).unwrap();
    kvs.remove("a".into()).unwrap();
    let once = reopen(kvs);
    let once_values = (once.get("a".into()).unwrap(), once.get("b".into()).unwrap());
    let once_cmd = once.cmd_wal().bytes().clone();
    let twice = reopen(once);
    assert_eq!((twice.get("a".into()).unwrap(), twice.get("b".into()).unwrap()), once_values);
    assert_eq!(once_values, (None, Some("2".to_string())));
    assert_eq!(twice.cmd_wal().bytes(), &once_cmd);
}

#[test]
fn torn_tail_is_ignored_and_cut_off() {
    let mut kvs = KvStore::new();
    kvs.set("key1".into(), "value1".into()).unwrap();
    let (mut cmd, mut meta) = kvs.into_logs();
    let clean_cmd = cmd.len();
    let clean_meta = meta.len();
    // A length prefix promising 50 bytes, followed by only two of them.
    cmd.extend_from_slice(&[0, 0, 0, 50, b'[', b'0']);
    // Half a length prefix.
    meta.extend_from_slice(&[0, 0]);
    let kvs = KvStore::from_wal(cmd, meta).unwrap();
    assert_eq!(kvs.get("key1".into()).unwrap(), Some("value1".to_string()));
    assert_eq!(kvs.get("key2".into()).unwrap(), None);
    assert_eq!(kvs.cmd_wal().len(), clean_cmd as u64);
    assert_eq!(kvs.meta_wal().len(), clean_meta as u64);
}

#[test]
fn crash_before_index_write_is_repaired() {
    let mut kvs = KvStore::new();
    kvs.set("a".into(), "1".into()).unwrap();
    let (cmd, meta) = kvs.into_logs();
    // The command record of a second set reached the log, its pointer did not.
    let mut cmd_log = WalLog::new(cmd);
    let offset = cmd_log
        .append(&Record::Content { seq: 2, key: "b".into(), value: "2".into() })
        .unwrap();
    let meta_len = meta.len() as u64;
    let kvs = KvStore::from_wal(cmd_log.into_bytes(), meta).unwrap();
    assert_eq!(kvs.get("b".into()).unwrap(), Some("2".to_string()));
    assert_eq!(kvs.get("a".into()).unwrap(), Some("1".to_string()));
    // The index log received the missing pointer.
    match kvs.meta_wal().read(meta_len).unwrap() {
        Record::Pointer { seq, key, offset: o } => {
            assert_eq!((seq, key.as_str(), o), (2, "b", offset));
        }
        other => panic!("unexpected record {:?}", other),
    }
    // A later set gets a sequence number above the repaired one.
    let mut kvs = kvs;
    kvs.set("c".into(), "3".into()).unwrap();
    let kvs = reopen(kvs);
    assert_eq!(kvs.get("c".into()).unwrap(), Some("3".to_string()));
    assert_eq!(kvs.get("b".into()).unwrap(), Some("2".to_string()));
}

#[test]
fn pointer_beyond_command_log_is_fatal() {
    let mut meta = WalLog::new(Vec::new());
    meta.append(&Record::Pointer { seq: 1, key: "a".into(), offset: 100 }).unwrap();
    let r = KvStore::from_wal(Vec::new(), meta.into_bytes());
    assert!(matches!(r, Err(KvsError::IndexAheadOfData(100))));
}

#[test]
fn pointer_inside_command_log_is_fatal() {
    let mut cmd = WalLog::new(Vec::new());
    cmd.append(&Record::Pointer { seq: 1, key: "a".into(), offset: 0 }).unwrap();
    let r = KvStore::from_wal(cmd.into_bytes(), Vec::new());
    assert!(matches!(r, Err(KvsError::FoundPointerFromDataWal)));
}

#[test]
fn pointer_read_by_get_is_reported() {
    // The index log points at a record of the command log that is a pointer;
    // replay resumes after it, so only `get` reads it.
    let mut cmd = WalLog::new(Vec::new());
    cmd.append(&Record::Pointer { seq: 1, key: "a".into(), offset: 0 }).unwrap();
    let mut meta = WalLog::new(Vec::new());
    meta.append(&Record::Pointer { seq: 1, key: "a".into(), offset: 0 }).unwrap();
    let kvs = KvStore::from_wal(cmd.into_bytes(), meta.into_bytes()).unwrap();
    assert!(matches!(kvs.get("a".into()), Err(KvsError::FoundPointerFromDataWal)));
}

#[test]
fn undecodable_payload_is_fatal() {
    let meta = vec![0, 0, 0, 3, b'x', b'y', b'z'];
    let r = KvStore::from_wal(Vec::new(), meta);
    assert!(matches!(r, Err(KvsError::SerdeError(_))));
}

#[test]
fn unknown_tag_is_fatal() {
    let payload = b"[7,1,\"k\",\"\",0]";
    let mut meta = vec![0, 0, 0, payload.len() as u8];
    meta.extend_from_slice(payload);
    let r = KvStore::from_wal(Vec::new(), meta);
    assert!(matches!(r, Err(KvsError::UnknownRecordTag(7))));
}

#[test]
fn inline_content_in_index_log_is_served() {
    let mut meta = WalLog::new(Vec::new());
    meta.append(&Record::Content { seq: 3, key: "k".into(), value: "v".into() }).unwrap();
    meta.append(&Record::Content { seq: 2, key: "k".into(), value: "old".into() }).unwrap();
    let kvs = KvStore::from_wal(Vec::new(), meta.into_bytes()).unwrap();
    assert_eq!(kvs.get("k".into()).unwrap(), Some("v".to_string()));
}

#[test]
fn new_from_empty_logs_is_fresh() {
    let mut kvs = KvStore::new_from(Vec::new(), Vec::new()).unwrap();
    assert_eq!(kvs.get("a".into()).unwrap(), None);
    kvs.set("a".into(), "1".into()).unwrap();
    let (cmd, meta) = kvs.into_logs();
    let kvs = KvStore::new_from(cmd, meta).unwrap();
    assert_eq!(kvs.get("a".into()).unwrap(), Some("1".to_string()));
}

#[test]
fn compact_keeps_only_live_values() {
    let mut kvs = KvStore::new();
    kvs.set("a".into(), "1".into()).unwrap();
    kvs.set("a".into(), "2".into()).unwrap();
    kvs.set("b".into(), "3".into()).unwrap();
    kvs.remove("b".into()).unwrap();
    kvs.set("c".into(), "4".into()).unwrap();
    let before = kvs.cmd_wal().len();
    let shrank = kvs.compact().unwrap();
    assert_eq!(shrank, before - kvs.cmd_wal().len());
    assert!(shrank > 0);
    assert_eq!(kvs.get("a".into()).unwrap(), Some("2".to_string()));
    assert_eq!(kvs.get("b".into()).unwrap(), None);
    assert_eq!(kvs.get("c".into()).unwrap(), Some("4".to_string()));
    let mut it = kvs.cmd_wal().iter();
    let mut kept = Vec::new();
    while let Some(item) = it.next() {
        match item.unwrap() {
            (_, Record::Content { key, value, .. }) => kept.push((key, value)),
            (_, other) => panic!("unexpected record {:?}", other),
        }
    }
    kept.sort();
    assert_eq!(kept, vec![("a".to_string(), "2".to_string()), ("c".to_string(), "4".to_string())]);
    // Later writes still win over compacted ones, also after reopening.
    kvs.set("a".into(), "5".into()).unwrap();
    let kvs = reopen(kvs);
    assert_eq!(kvs.get("a".into()).unwrap(), Some("5".to_string()));
    assert_eq!(kvs.get("b".into()).unwrap(), None);
    assert_eq!(kvs.get("c".into()).unwrap(), Some("4".to_string()));
}

#[test]
fn compact_of_empty_store() {
    let mut kvs = KvStore::new();
    assert_eq!(kvs.compact().unwrap(), 0);
    kvs.set("a".into(), "1".into()).unwrap();
    kvs.remove("a".into()).unwrap();
    assert!(kvs.compact().unwrap() > 0);
    assert_eq!(kvs.cmd_wal().len(), 0);
    assert_eq!(kvs.meta_wal().len(), 0);
    kvs.set("a".into(), "2".into()).unwrap();
    let kvs = reopen(kvs);
    assert_eq!(kvs.get("a".into()).unwrap(), Some("2".to_string()));
}

#[test]
fn compact_fails_on_unreadable_key() {
    let mut cmd = WalLog::new(Vec::new());
    cmd.append(&Record::Pointer { seq: 1, key: "a".into(), offset: 0 }).unwrap();
    let mut meta = WalLog::new(Vec::new());
    meta.append(&Record::Pointer { seq: 1, key: "a".into(), offset: 0 }).unwrap();
    let mut kvs = KvStore::from_wal(cmd.into_bytes(), meta.into_bytes()).unwrap();
    let before = kvs.cmd_wal().bytes().clone();
    assert!(matches!(kvs.compact(), Err(KvsError::FoundPointerFromDataWal)));
    assert_eq!(kvs.cmd_wal().bytes(), &before);
}

fn frame_of(rec: &Record) -> Vec<u8> {
    let mut log = WalLog::new(Vec::new());
    log.append(rec).unwrap();
    log.into_bytes()
}

#[test]
fn one_record_then_torn_tails_with_empty_index_log() {
    let mut cmd = frame_of(&Record::Content { seq: 1, key: "k1".into(), value: "v1".into() });
    let clean = cmd.len();
    let torn = frame_of(&Record::Content { seq: 2, key: "k2".into(), value: "v2".into() });
    cmd.extend_from_slice(&torn[..torn.len() - 1]);
    let torn_ptr = frame_of(&Record::Pointer { seq: 2, key: "k2".into(), offset: clean as u64 });
    let meta = torn_ptr[..3].to_vec();
    let mut kvs = KvStore::from_wal(cmd, meta).unwrap();
    assert_eq!(kvs.get("k1".into()).unwrap(), Some("v1".to_string()));
    assert_eq!(kvs.get("k2".into()).unwrap(), None);
    assert_eq!(kvs.cmd_wal().len(), clean as u64);
    // The next mutation gets sequence number 2.
    let at = kvs.cmd_wal().len();
    kvs.set("k3".into(), "v3".into()).unwrap();
    match kvs.cmd_wal().read(at).unwrap() {
        Record::Content { seq, .. } => assert_eq!(seq, 2),
        other => panic!("unexpected record {:?}", other),
    }
}

#[test]
fn compacted_pointers_name_their_values() {
    let mut kvs = KvStore::new();
    for i in 0..10 {
        kvs.set(format!("k{}", i % 4), format!("v{}", i)).unwrap();
    }
    kvs.remove("k0".into()).unwrap();
    kvs.compact().unwrap();
    let mut it = kvs.meta_wal().iter();
    let mut n = 0;
    while let Some(item) = it.next() {
        match item.unwrap() {
            (_, Record::Pointer { key, offset, .. }) => {
                match kvs.cmd_wal().read(offset).unwrap() {
                    Record::Content { key: k, value, .. } => {
                        assert_eq!(k, key);
                        assert_eq!(Some(value), kvs.get(key.clone()).unwrap());
                    }
                    other => panic!("unexpected record {:?}", other),
                }
                n += 1;
            }
            (_, other) => panic!("unexpected record {:?}", other),
        }
    }
    assert_eq!(n, 3);
    assert_eq!(kvs.get("k3".into()).unwrap(), Some("v7".to_string()));
}
