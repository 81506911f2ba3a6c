use shorterdb::db::{DbError, ShorterDB};
use shorterdb::entry::{Entry, Value};
use shorterdb::wal::encode_record;

fn log_of(writes: &[(&[u8], Option<&[u8]>)]) -> Vec<u8> {
    let mut log = Vec::new();
    for (k, v) in writes {
        let value = match v {
            Some(b) => Value::Present(b.to_vec()),
            None => Value::Tombstone,
        };
        log.extend_from_slice(&encode_record(k, &value));
    }
    log
}

#[test]
fn reopen_after_set_set_delete() {
    let log = log_of(&[(b"a", Some(b"1")), (b"b", Some(b"2")), (b"a", None)]);
    let db = ShorterDB::new(&log).unwrap();
    assert_eq!(db.get(b"a"), Ok(None));
    assert_eq!(db.get(b"b"), Ok(Some(b"2".to_vec())));
}

#[test]
fn recovery_applies_every_record_last_write_wins() {
    let log = log_of(&[
        (b"x", Some(b"1")),
        (b"y", Some(b"2")),
        (b"x", Some(b"3")),
        (b"z", Some(b"")),
    ]);
    let db = ShorterDB::new(&log).unwrap();
    assert_eq!(db.get(b"x"), Ok(Some(b"3".to_vec())));
    assert_eq!(db.get(b"y"), Ok(Some(b"2".to_vec())));
    assert_eq!(db.get(b"z"), Ok(Some(Vec::new())));
}

#[test]
fn recovery_discards_cut_short_last_record() {
    let mut log = log_of(&[(b"x", Some(b"1")), (b"y", Some(b"2"))]);
    let last = encode_record(b"w", &Value::Present(b"hello".to_vec()));
    for cut in 1..last.len() {
        let mut cut_log = log.clone();
        cut_log.extend_from_slice(&last[..cut]);
        let db = ShorterDB::new(&cut_log).unwrap();
        assert_eq!(db.get(b"x"), Ok(Some(b"1".to_vec())));
        assert_eq!(db.get(b"y"), Ok(Some(b"2".to_vec())));
        assert_eq!(db.get(b"w"), Ok(None));
    }
    log.extend_from_slice(&last);
    let db = ShorterDB::new(&log).unwrap();
    assert_eq!(db.get(b"w"), Ok(Some(b"hello".to_vec())));
}

#[test]
fn recovery_rejects_malformed_record() {
    let mut log = log_of(&[(b"x", Some(b"1"))]);
    log.push(0x00);
    log.extend_from_slice(&log_of(&[(b"y", Some(b"2"))]));
    assert!(matches!(ShorterDB::new(&log), Err(DbError::Corruption)));
}

#[test]
fn empty_key_is_refused() {
    let mut db = ShorterDB::new(&[]).unwrap();
    assert_eq!(db.set(b"", b"v"), Err(DbError::EmptyKey));
    assert_eq!(db.delete(b""), Err(DbError::EmptyKey));
}

#[test]
fn largest_threshold_accepts_writes() {
    let mut db = ShorterDB::with_threshold(usize::MAX);
    assert_eq!(db.set(b"k", b"v"), Ok(()));
    assert_eq!(db.get(b"k"), Ok(Some(b"v".to_vec())));
    assert_eq!(db.delete(b"k"), Ok(()));
    assert_eq!(db.get(b"k"), Ok(None));
    assert_eq!(db.memtable_size(), 2);
    assert_eq!(db.level0_tables(), 0);
}

#[test]
fn empty_value_is_not_a_tombstone() {
    let mut db = ShorterDB::new(&[]).unwrap();
    db.set(b"k", b"").unwrap();
    assert_eq!(db.get(b"k"), Ok(Some(Vec::new())));
}

#[test]
fn crossing_threshold_flushes_once() {
    let mut db = ShorterDB::with_threshold(10);
    db.set(b"k1", b"vvvv").unwrap();
    assert_eq!(db.memtable_size(), 6);
    assert_eq!(db.level0_tables(), 0);
    db.set(b"k2", b"vvvv").unwrap();
    assert_eq!(db.memtable_size(), 0);
    assert_eq!(db.level0_tables(), 1);
    assert_eq!(db.get(b"k1"), Ok(Some(b"vvvv".to_vec())));
    assert_eq!(db.get(b"k2"), Ok(Some(b"vvvv".to_vec())));
}

#[test]
fn later_value_shadows_flushed_one() {
    let mut db = ShorterDB::with_threshold(1);
    db.set(b"k", b"v1").unwrap();
    assert_eq!(db.memtable_size(), 0);
    db.set(b"k", b"v2").unwrap();
    assert_eq!(db.get(b"k"), Ok(Some(b"v2".to_vec())));
}

#[test]
fn tombstone_hides_flushed_value() {
    let mut db = ShorterDB::with_threshold(1);
    db.set(b"k", b"v").unwrap();
    assert_eq!(db.level0_tables(), 1);
    db.delete(b"k").unwrap();
    assert_eq!(db.get(b"k"), Ok(None));
}

#[test]
fn compaction_keeps_latest_values() {
    let mut db = ShorterDB::with_threshold(1);
    for round in 0..30u32 {
        for i in 0..10u32 {
            let key = format!("key{}", i);
            let value = format!("v{}-{}", i, round);
            db.set(key.as_bytes(), value.as_bytes()).unwrap();
        }
        db.delete(format!("key{}", round % 10).as_bytes()).unwrap();
        assert!(db.level0_tables() <= 4);
    }
    for i in 0..10u32 {
        let key = format!("key{}", i);
        let got = db.get(key.as_bytes()).unwrap();
        if i == 29 % 10 {
            assert_eq!(got, None);
        } else {
            assert_eq!(got, Some(format!("v{}-29", i).into_bytes()));
        }
    }
}

#[test]
fn overwrite_in_memtable_keeps_size_exact() {
    let mut db = ShorterDB::with_threshold(100);
    db.set(b"ab", b"123").unwrap();
    db.set(b"ab", b"1").unwrap();
    assert_eq!(db.memtable_size(), 3);
    db.delete(b"ab").unwrap();
    assert_eq!(db.memtable_size(), 3);
    assert_eq!(db.get(b"ab"), Ok(None));
}

#[test]
fn batch_applies_in_order_or_not_at_all() {
    let mut db = ShorterDB::with_threshold(8);
    let writes = vec![
        Entry { key: b"a".to_vec(), value: Value::Present(b"1".to_vec()) },
        Entry { key: b"b".to_vec(), value: Value::Present(b"2".to_vec()) },
        Entry { key: b"a".to_vec(), value: Value::Tombstone },
        Entry { key: b"c".to_vec(), value: Value::Present(b"33".to_vec()) },
    ];
    assert_eq!(db.write_batch(&writes), Ok(()));
    assert_eq!(db.get(b"a"), Ok(None));
    assert_eq!(db.get(b"b"), Ok(Some(b"2".to_vec())));
    assert_eq!(db.get(b"c"), Ok(Some(b"33".to_vec())));
    let bad = vec![
        Entry { key: b"d".to_vec(), value: Value::Present(b"4".to_vec()) },
        Entry { key: Vec::new(), value: Value::Tombstone },
    ];
    assert_eq!(db.write_batch(&bad), Err(DbError::EmptyKey));
    assert_eq!(db.get(b"d"), Ok(None));
}

#[test]
fn log_record_with_empty_key_is_corruption() {
    let log = log_of(&[(b"", Some(b"1"))]);
    assert!(matches!(ShorterDB::new(&log), Err(DbError::Corruption)));
}
