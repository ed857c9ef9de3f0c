use rustykv::index::{same_bytes, Index};

#[test]
fn new_index_holds_nothing() {
    let index = Index::new();
    assert_eq!(index.get(b"a"), None);
    assert_eq!(index.get(b""), None);
}

#[test]
fn index_returns_what_was_inserted() {
    let mut index = Index::new();
    index.insert(b"a".to_vec(), 0);
    index.insert(b"b".to_vec(), 14);
    assert_eq!(index.get(b"a"), Some(0));
    assert_eq!(index.get(b"b"), Some(14));
    assert_eq!(index.get(b"c"), None);
}

#[test]
fn index_insert_overrides_the_entry_of_the_same_key() {
    let mut index = Index::new();
    index.insert(b"a".to_vec(), 0);
    index.insert(b"b".to_vec(), 14);
    index.insert(b"a".to_vec(), 28);
    assert_eq!(index.get(b"a"), Some(28));
    assert_eq!(index.get(b"b"), Some(14));
}

#[test]
fn index_tells_apart_keys_that_share_a_prefix() {
    let mut index = Index::new();
    index.insert(b"".to_vec(), 1);
    index.insert(b"ab".to_vec(), 2);
    index.insert(b"abc".to_vec(), 3);
    assert_eq!(index.get(b""), Some(1));
    assert_eq!(index.get(b"a"), None);
    assert_eq!(index.get(b"ab"), Some(2));
    assert_eq!(index.get(b"abc"), Some(3));
    assert_eq!(index.get(b"abd"), None);
}

#[test]
fn same_bytes_compares_length_and_content() {
    assert!(same_bytes(b"", b""));
    assert!(same_bytes(b"abc", b"abc"));
    assert!(!same_bytes(b"abc", b"abd"));
    assert!(!same_bytes(b"abc", b"ab"));
    assert!(!same_bytes(b"", b"a"));
}
