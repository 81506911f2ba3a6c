use shorterdb::entry::{Entry, Value};
use shorterdb::sstable::{decode_table, encode_table, TABLE_TAG};
use shorterdb::table::Table;
use shorterdb::wal::encode_record;

fn entry(k: &[u8], v: Option<&[u8]>) -> Entry {
    Entry {
        key: k.to_vec(),
        value: match v {
            Some(b) => Value::Present(b.to_vec()),
            None => Value::Tombstone,
        },
    }
}

#[test]
fn table_file_layout() {
    let t = Table::from_sorted(vec![entry(b"a", Some(b"1")), entry(b"b", None)]);
    let bytes = encode_table(&t);
    let mut want = encode_record(b"a", &Value::Present(b"1".to_vec()));
    want.extend_from_slice(&encode_record(b"b", &Value::Tombstone));
    let data_len = want.len() as u64;
    // index: the first key, then its offset
    want.extend_from_slice(&1u64.to_le_bytes());
    want.extend_from_slice(b"a");
    want.extend_from_slice(&0u64.to_le_bytes());
    // footer
    want.extend_from_slice(&data_len.to_le_bytes());
    want.extend_from_slice(&2u64.to_le_bytes());
    want.push(TABLE_TAG);
    assert_eq!(bytes, want);
}

#[test]
fn table_file_round_trip() {
    let mut es = Vec::new();
    for i in 0..40u8 {
        let v = [i; 3];
        es.push(entry(&[b'k', i], if i % 7 == 0 { None } else { Some(&v) }));
    }
    let t = Table::from_sorted(es);
    let bytes = encode_table(&t);
    let back = decode_table(&bytes).unwrap();
    assert_eq!(back.entries(), t.entries());
    assert_eq!(back.get(&[b'k', 5]), Some(Value::Present(vec![5; 3])));
    assert_eq!(back.get(&[b'k', 7]), Some(Value::Tombstone));
}

#[test]
fn damaged_table_file_is_refused() {
    let t = Table::from_sorted(vec![entry(b"a", Some(b"1")), entry(b"b", Some(b"2"))]);
    let bytes = encode_table(&t);
    let mut wrong_tag = bytes.clone();
    *wrong_tag.last_mut().unwrap() = 0;
    assert!(decode_table(&wrong_tag).is_none());
    assert!(decode_table(&bytes[..10]).is_none());
    assert!(decode_table(&[]).is_none());
    let unsorted = Table::from_sorted(vec![entry(b"a", Some(b"1"))]);
    let mut two = encode_record(b"b", &Value::Tombstone);
    two.extend_from_slice(&encode_record(b"a", &Value::Tombstone));
    let n = two.len() as u64;
    two.extend_from_slice(&n.to_le_bytes());
    two.extend_from_slice(&2u64.to_le_bytes());
    two.push(TABLE_TAG);
    assert!(decode_table(&two).is_none());
    assert!(decode_table(&encode_table(&unsorted)).is_some());
}

#[test]
fn file_lookup_through_sparse_index() {
    let mut es = Vec::new();
    for i in 0..50u8 {
        let v = [i, i];
        es.push(entry(&[b'k', 2 * i], if i % 9 == 4 { None } else { Some(&v) }));
    }
    let t = Table::from_sorted(es);
    let bytes = encode_table(&t);
    for i in 0..50u8 {
        let want = if i % 9 == 4 { Value::Tombstone } else { Value::Present(vec![i, i]) };
        assert_eq!(shorterdb::sstable::table_get(&bytes, &[b'k', 2 * i]), Ok(Some(want)));
        assert_eq!(shorterdb::sstable::table_get(&bytes, &[b'k', 2 * i + 1]), Ok(None));
    }
    assert_eq!(shorterdb::sstable::table_get(&bytes, b"a"), Ok(None));
    assert_eq!(shorterdb::sstable::table_get(&bytes, b"z"), Ok(None));
    let empty = encode_table(&Table::empty());
    assert_eq!(shorterdb::sstable::table_get(&empty, b"k"), Ok(None));
    assert_eq!(shorterdb::sstable::table_get(&bytes[..5], b"k"), Err(()));
}
