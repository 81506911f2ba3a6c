use shorterdb::entry::{Entry, Value};
use shorterdb::keys::compare_keys;
use shorterdb::levels::SST;
use shorterdb::memtable::Memtable;
use shorterdb::table::{merge_runs, Table};
use shorterdb::wal::{encode_record, read_entries, TAG_TOMBSTONE, TAG_VALUE};

fn entry(k: &[u8], v: Option<&[u8]>) -> Entry {
    Entry {
        key: k.to_vec(),
        value: match v {
            Some(b) => Value::Present(b.to_vec()),
            None => Value::Tombstone,
        },
    }
}

#[test]
fn keys_compare_bytewise() {
    assert!(compare_keys(b"a", b"b") < 0);
    assert!(compare_keys(b"b", b"a") > 0);
    assert_eq!(compare_keys(b"abc", b"abc"), 0);
    assert!(compare_keys(b"ab", b"abc") < 0);
    assert!(compare_keys(b"", b"a") < 0);
    assert!(compare_keys(&[0xff], &[0x00, 0x01]) > 0);
}

#[test]
fn record_bytes_are_framed() {
    let r = encode_record(b"ab", &Value::Present(b"xyz".to_vec()));
    let mut want = vec![TAG_VALUE, 2, 0, 0, 0, 0, 0, 0, 0, b'a', b'b', 3, 0, 0, 0, 0, 0, 0, 0];
    want.extend_from_slice(b"xyz");
    assert_eq!(r, want);
    let t = encode_record(b"ab", &Value::Tombstone);
    assert_eq!(t, vec![TAG_TOMBSTONE, 2, 0, 0, 0, 0, 0, 0, 0, b'a', b'b']);
}

#[test]
fn log_reads_back_records() {
    let mut log = encode_record(b"k", &Value::Present(b"v".to_vec()));
    log.extend_from_slice(&encode_record(b"k", &Value::Tombstone));
    let (es, end) = read_entries(&log).unwrap();
    assert_eq!(es, vec![entry(b"k", Some(b"v")), entry(b"k", None)]);
    assert_eq!(end, log.len());
    let mut cut = log.clone();
    cut.extend_from_slice(&[TAG_VALUE, 3, 0]);
    let (es2, end2) = read_entries(&cut).unwrap();
    assert_eq!(es2.len(), 2);
    assert_eq!(end2, log.len());
    assert_eq!(read_entries(&[]).unwrap(), (Vec::new(), 0));
    assert_eq!(read_entries(&[7]), None);
}

#[test]
fn memtable_keeps_key_order_and_size() {
    let mut m = Memtable::new();
    m.set(b"b", Value::Present(b"22".to_vec()));
    m.set(b"a", Value::Present(b"1".to_vec()));
    m.delete(b"c");
    assert_eq!(m.size(), 3 + 2 + 2);
    assert_eq!(m.get(b"a"), Some(Value::Present(b"1".to_vec())));
    assert_eq!(m.get(b"c"), Some(Value::Tombstone));
    assert_eq!(m.get(b"d"), None);
    assert!(m.over(7));
    assert!(!m.over(8));
    let es = m.drain_sorted();
    assert_eq!(es, vec![entry(b"a", Some(b"1")), entry(b"b", Some(b"22")), entry(b"c", None)]);
    assert_eq!(m.size(), 0);
    assert_eq!(m.get(b"a"), None);
}

#[test]
fn merge_prefers_newer_and_drops_tombstones_on_request() {
    let newer = vec![entry(b"a", None), entry(b"c", Some(b"new"))];
    let older = vec![entry(b"a", Some(b"old")), entry(b"b", Some(b"b")), entry(b"c", Some(b"old"))];
    let kept = merge_runs(&newer, &older, false);
    assert_eq!(kept, vec![entry(b"a", None), entry(b"b", Some(b"b")), entry(b"c", Some(b"new"))]);
    let dropped = merge_runs(&newer, &older, true);
    assert_eq!(dropped, vec![entry(b"b", Some(b"b")), entry(b"c", Some(b"new"))]);
}

#[test]
fn table_lookup() {
    let t = Table::from_sorted(vec![entry(b"a", Some(b"1")), entry(b"m", None), entry(b"z", Some(b"26"))]);
    assert_eq!(t.len(), 3);
    assert_eq!(t.get(b"a"), Some(Value::Present(b"1".to_vec())));
    assert_eq!(t.get(b"m"), Some(Value::Tombstone));
    assert_eq!(t.get(b"q"), None);
    assert_eq!(Table::empty().get(b"a"), None);
}

#[test]
fn levels_search_newest_first_and_compact() {
    let mut sst = SST::open(2, 2, 10, 3);
    sst.set(vec![entry(b"k", Some(b"1"))]);
    sst.set(vec![entry(b"k", Some(b"2")), entry(b"x", Some(b"x"))]);
    assert_eq!(sst.get(b"k"), Some(Value::Present(b"2".to_vec())));
    sst.set(vec![entry(b"k", None)]);
    assert!(sst.l0_len() <= 2);
    assert_eq!(sst.get(b"k"), Some(Value::Tombstone));
    assert_eq!(sst.get(b"x"), Some(Value::Present(b"x".to_vec())));
    for i in 0..20u8 {
        sst.set(vec![entry(&[b'n', i], Some(&[i]))]);
    }
    sst.compact();
    for i in 0..20u8 {
        assert_eq!(sst.get(&[b'n', i]), Some(Value::Present(vec![i])));
    }
    assert_eq!(sst.get(b"x"), Some(Value::Present(b"x".to_vec())));
    assert!(matches!(sst.get(b"k"), Some(Value::Tombstone) | None));
}

#[test]
fn table_key_range() {
    let t = Table::from_sorted(vec![entry(b"c", Some(b"1")), entry(b"f", None)]);
    assert_eq!(t.min_key(), Some(&b"c".to_vec()));
    assert_eq!(t.max_key(), Some(&b"f".to_vec()));
    assert!(t.covers(b"d"));
    assert!(t.covers(b"c"));
    assert!(!t.covers(b"b"));
    assert!(!t.covers(b"g"));
    assert!(!Table::empty().covers(b"a"));
    assert_eq!(Table::empty().min_key(), None);
}
