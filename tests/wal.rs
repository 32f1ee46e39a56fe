use kvs::{KvStore, KvsError, Record, WalLog};

#[test]
fn test_wal_iter() {
    let mut kvs = KvStore::new();
    for i in 0..1000 {
        let key = format!("key{}", i);
        let value = format!("value{}", i);
        kvs.set(key, value).unwrap();
    }
    let (cmd, _meta) = kvs.into_logs();
    let log = WalLog::new(cmd);
    let mut wi = log.iter();
    let mut kvvec = Vec::new();
    while let Some(item) = wi.next() {
        kvvec.push(item.unwrap());
    }
    assert_eq!(kvvec.len(), 1000);
    let mut last: Option<u64> = None;
    for (idx, (offset, cmd)) in kvvec.iter().enumerate() {
        let key = format!("key{}", idx);
        let value = format!("value{}", idx);
        if let Some(prev) = last {
            assert!(*offset > prev);
        }
        last = Some(*offset);
        if let Record::Content { key: k, value: v, .. } = cmd {
            assert_eq!(key, *k);
            assert_eq!(value, *v);
        } else {
            panic!("assert fail");
        }
    }
}

#[test]
fn append_writes_length_prefixed_json() {
    let mut log = WalLog::new(Vec::new());
    let o = log.append(&Record::Content { seq: 1, key: "k".into(), value: "v".into() }).unwrap();
    assert_eq!(o, 0);
    let payload = b"[0,1,\"k\",\"v\",0]";
    let mut expected = vec![0, 0, 0, payload.len() as u8];
    expected.extend_from_slice(payload);
    assert_eq!(log.bytes(), &expected);
    let o2 = log.append(&Record::DeletedKey { seq: 2, key: "k".into() }).unwrap();
    assert_eq!(o2, expected.len() as u64);
}

#[test]
fn read_decodes_each_kind() {
    let payload = b"[2,5,\"k\",\"\",9]";
    let mut bytes = vec![0, 0, 0, payload.len() as u8];
    bytes.extend_from_slice(payload);
    let log = WalLog::new(bytes);
    match log.read(0).unwrap() {
        Record::Pointer { seq, key, offset } => assert_eq!((seq, key.as_str(), offset), (5, "k", 9)),
        other => panic!("unexpected record {:?}", other),
    }
    let mut log = WalLog::new(Vec::new());
    log.append(&Record::DeletedKey { seq: 4, key: "gone".into() }).unwrap();
    match log.read(0).unwrap() {
        Record::DeletedKey { seq, key } => assert_eq!((seq, key.as_str()), (4, "gone")),
        other => panic!("unexpected record {:?}", other),
    }
}

#[test]
fn read_of_short_record_is_partial() {
    let log = WalLog::new(vec![0, 0, 0, 10, 1, 2, 3]);
    assert!(matches!(log.read(0), Err(KvsError::PartialWritten(4, 3))));
    assert!(matches!(log.read(5), Err(KvsError::PartialWritten(4, 2))));
    assert!(matches!(log.read(99), Err(KvsError::PartialWritten(4, 0))));
}

#[test]
fn iterator_stops_at_torn_tail() {
    let mut log = WalLog::new(Vec::new());
    log.append(&Record::DeletedKey { seq: 1, key: "a".into() }).unwrap();
    let mut bytes = log.into_bytes();
    bytes.extend_from_slice(&[0, 0, 1]);
    let log = WalLog::new(bytes);
    let mut it = log.iter();
    assert!(matches!(it.next(), Some(Ok((0, Record::DeletedKey { .. })))));
    assert!(it.next().is_none());
    assert!(it.next().is_none());
}

#[test]
fn iterator_reports_bad_payload_and_goes_on() {
    let mut bytes = vec![0, 0, 0, 1, b'!'];
    let mut log = WalLog::new(Vec::new());
    log.append(&Record::DeletedKey { seq: 1, key: "a".into() }).unwrap();
    bytes.extend_from_slice(log.bytes());
    let log = WalLog::new(bytes);
    let mut it = log.iter();
    assert!(matches!(it.next(), Some(Err(KvsError::SerdeError(_)))));
    assert!(matches!(it.next(), Some(Ok((5, Record::DeletedKey { .. })))));
    assert!(it.next().is_none());
}

#[test]
fn truncate_cuts_back() {
    let mut log = WalLog::new(vec![1, 2, 3, 4]);
    log.truncate(10);
    assert_eq!(log.len(), 4);
    log.truncate(1);
    assert_eq!(log.bytes(), &vec![1]);
}
