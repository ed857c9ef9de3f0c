use rustykv::codec::{encode, KeyValuePair};
use rustykv::error::Error;
use rustykv::store::RustyKV;

fn loaded(log: Vec<u8>) -> RustyKV {
    let mut store = RustyKV::open(log);
    assert_eq!(store.load(), Ok(()));
    store
}

#[test]
fn open_reads_nothing() {
    let mut log = encode(b"a", b"1");
    log.extend_from_slice(&[1, 2, 3]);
    let store = RustyKV::open(log.clone());
    assert_eq!(store.log, log);
    assert_eq!(store.get(b"a"), Ok(None));
    assert_eq!(store.index.get(b"a"), None);
}

#[test]
fn load_of_an_empty_log_succeeds() {
    let store = loaded(Vec::new());
    assert_eq!(store.get(b"a"), Ok(None));
    assert!(store.log.is_empty());
}

#[test]
fn load_indexes_each_key_at_its_latest_record() {
    let mut log = encode(b"a", b"1");
    let b_at = log.len() as u64;
    log.extend_from_slice(&encode(b"b", b"2"));
    let a_at = log.len() as u64;
    log.extend_from_slice(&encode(b"a", b"99"));
    let store = loaded(log);
    assert_eq!(store.index.get(b"a"), Some(a_at));
    assert_eq!(store.index.get(b"b"), Some(b_at));
    assert_eq!(store.index.get(b"c"), None);
    assert_eq!(a_at, 28);
    assert_eq!(b_at, 14);
}

#[test]
fn insert_appends_the_encoded_record() {
    let mut store = loaded(Vec::new());
    store.insert(b"a", b"1");
    assert_eq!(store.log, encode(b"a", b"1"));
    assert_eq!(store.index.get(b"a"), Some(0));
    store.insert(b"b", b"2");
    let mut expected = encode(b"a", b"1");
    expected.extend_from_slice(&encode(b"b", b"2"));
    assert_eq!(store.log, expected);
    assert_eq!(store.index.get(b"b"), Some(14));
}

#[test]
fn insert_but_ignore_index_returns_the_offset_and_leaves_the_index() {
    let mut store = loaded(encode(b"a", b"1"));
    let at = store.insert_but_ignore_index(b"b", b"2");
    assert_eq!(at, 14);
    assert_eq!(store.index.get(b"b"), None);
    assert_eq!(store.get(b"b"), Ok(None));
    assert_eq!(
        store.get_at(at),
        Ok(KeyValuePair { key: b"b".to_vec(), value: b"2".to_vec() })
    );
}

#[test]
fn get_returns_the_inserted_value() {
    let mut store = loaded(Vec::new());
    store.insert(b"key", b"value");
    assert_eq!(store.get(b"key"), Ok(Some(b"value".to_vec())));
    assert_eq!(store.get(b"other"), Ok(None));
}

#[test]
fn last_write_wins() {
    let mut store = loaded(Vec::new());
    store.insert(b"k", b"v1");
    let second_at = store.log.len() as u64;
    store.insert(b"k", b"v2");
    assert_eq!(store.get(b"k"), Ok(Some(b"v2".to_vec())));
    assert_eq!(store.index.get(b"k"), Some(second_at));

    let reopened = loaded(store.log.clone());
    assert_eq!(reopened.index.get(b"k"), Some(second_at));
    assert_eq!(reopened.get(b"k"), Ok(Some(b"v2".to_vec())));
}

#[test]
fn update_is_insert() {
    let mut updated = loaded(encode(b"k", b"v1"));
    updated.update(b"k", b"v2");
    let mut inserted = loaded(encode(b"k", b"v1"));
    inserted.insert(b"k", b"v2");
    assert_eq!(updated.log, inserted.log);
    assert_eq!(updated.get(b"k"), Ok(Some(b"v2".to_vec())));
    assert_eq!(updated.index.get(b"k"), inserted.index.get(b"k"));
}

#[test]
fn delete_writes_a_tombstone() {
    let mut store = loaded(Vec::new());
    store.insert(b"k", b"v");
    let before = store.log.clone();
    store.delete(b"k");
    assert_eq!(store.get(b"k"), Ok(Some(Vec::new())));
    assert_eq!(store.index.get(b"k"), Some(before.len() as u64));
    assert_eq!(&store.log[..before.len()], &before[..]);
    assert_eq!(&store.log[before.len()..], &encode(b"k", b"")[..]);

    let reopened = loaded(store.log.clone());
    assert_eq!(reopened.get(b"k"), Ok(Some(Vec::new())));
}

#[test]
fn delete_of_a_missing_key_still_writes_a_tombstone() {
    let mut store = loaded(Vec::new());
    store.delete(b"ghost");
    assert_eq!(store.get(b"ghost"), Ok(Some(Vec::new())));
    assert_eq!(store.log, encode(b"ghost", b""));
}

#[test]
fn reload_gives_the_same_index() {
    let mut log = Vec::new();
    for (key, value) in [(&b"a"[..], &b"1"[..]), (b"b", b"2"), (b"a", b"3"), (b"c", b"")] {
        log.extend_from_slice(&encode(key, value));
    }
    let first = loaded(log.clone());
    let second = loaded(first.log.clone());
    for key in [&b"a"[..], b"b", b"c", b"d"] {
        assert_eq!(first.index.get(key), second.index.get(key));
    }
    assert_eq!(first.index.get(b"a"), Some(28));

    let mut twice = loaded(log);
    assert_eq!(twice.load(), Ok(()));
    for key in [&b"a"[..], b"b", b"c", b"d"] {
        assert_eq!(twice.index.get(key), first.index.get(key));
    }
}

#[test]
fn index_after_inserts_is_what_a_reload_finds() {
    let mut store = loaded(encode(b"a", b"1"));
    store.insert(b"b", b"2");
    store.update(b"a", b"99");
    store.delete(b"b");
    let reopened = loaded(store.log.clone());
    for key in [&b"a"[..], b"b", b"c"] {
        assert_eq!(store.index.get(key), reopened.index.get(key));
        assert_eq!(store.get(key), reopened.get(key));
    }
}

#[test]
fn end_to_end() {
    let mut store = loaded(Vec::new());
    store.insert(b"a", b"1");
    store.insert(b"b", b"2");
    store.update(b"a", b"99");

    let mut reopened = RustyKV::open(store.log);
    assert_eq!(reopened.load(), Ok(()));
    assert_eq!(reopened.get(b"a"), Ok(Some(b"99".to_vec())));
    assert_eq!(reopened.get(b"b"), Ok(Some(b"2".to_vec())));
    assert_eq!(reopened.get(b"c"), Ok(None));
}

#[test]
fn load_of_a_truncated_log_is_corruption() {
    let mut log = encode(b"key", b"value");
    log.truncate(log.len() - 2);
    let mut store = RustyKV::open(log);
    assert_eq!(store.load(), Err(Error::Corruption));
}

#[test]
fn load_stops_at_the_first_damaged_record() {
    let mut log = encode(b"a", b"1");
    log.extend_from_slice(&encode(b"b", b"2"));
    let damaged_at = log.len();
    log.extend_from_slice(&encode(b"c", b"3"));
    log[damaged_at] ^= 0x10;
    log.extend_from_slice(&encode(b"d", b"4"));
    let mut store = RustyKV::open(log);
    assert_eq!(store.load(), Err(Error::Corruption));
    assert_eq!(store.index.get(b"a"), Some(0));
    assert_eq!(store.index.get(b"b"), Some(14));
    assert_eq!(store.index.get(b"c"), None);
    assert_eq!(store.index.get(b"d"), None);
}

#[test]
fn load_of_trailing_garbage_is_corruption() {
    let mut log = encode(b"a", b"1");
    log.push(0);
    let mut store = RustyKV::open(log);
    assert_eq!(store.load(), Err(Error::Corruption));
}

#[test]
fn get_at_decodes_the_record_at_the_offset() {
    let mut log = encode(b"a", b"1");
    log.extend_from_slice(&encode(b"b", b"2"));
    let store = loaded(log);
    assert_eq!(
        store.get_at(14),
        Ok(KeyValuePair { key: b"b".to_vec(), value: b"2".to_vec() })
    );
    assert_eq!(
        store.get_at(0),
        Ok(KeyValuePair { key: b"a".to_vec(), value: b"1".to_vec() })
    );
}

#[test]
fn get_at_the_end_of_the_log_is_corruption() {
    let store = loaded(encode(b"a", b"1"));
    assert_eq!(store.get_at(14), Err(Error::Corruption));
    assert_eq!(store.get_at(1_000), Err(Error::Corruption));
    assert_eq!(store.get_at(u64::MAX), Err(Error::Corruption));
    assert_eq!(store.get_at(3), Err(Error::Corruption));
}

#[test]
fn get_reports_a_log_that_changed_under_the_index() {
    let mut store = loaded(encode(b"a", b"1"));
    store.log[13] = b'2';
    assert_eq!(store.get(b"a"), Err(Error::Corruption));
    store.log.clear();
    assert_eq!(store.get(b"a"), Err(Error::Corruption));
    assert_eq!(store.get(b"b"), Ok(None));
}
