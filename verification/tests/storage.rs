use std::ops::{Bound, RangeBounds};

use bytes::Bytes;
use vortex::storage::storage::{precedes, BytesRange, Record, StorageError, WriteResult};

fn key(s: &'static str) -> Bytes {
    Bytes::from_static(s.as_bytes())
}

#[test]
fn range_with_included_ends() {
    let range = BytesRange::new(Bound::Included(key("b")), Bound::Included(key("d")));
    assert!(!range.contains(b"a"));
    assert!(range.contains(b"b"));
    assert!(range.contains(b"bz"));
    assert!(range.contains(b"d"));
    assert!(!range.contains(b"d\0"));
}

#[test]
fn range_with_excluded_ends() {
    let range = BytesRange::new(Bound::Excluded(key("b")), Bound::Excluded(key("d")));
    assert!(!range.contains(b"b"));
    assert!(range.contains(b"b\0"));
    assert!(range.contains(b"c\xff"));
    assert!(!range.contains(b"d"));
}

#[test]
fn range_without_ends() {
    let range = BytesRange::unbounded();
    assert!(range.contains(b""));
    assert!(range.contains(b"\xff\xff"));
    assert_eq!(range.start_bound(), Bound::Unbounded);
    assert_eq!(range.end_bound(), Bound::Unbounded);
}

#[test]
fn range_gives_its_ends() {
    let range = BytesRange::new(Bound::Included(key("b")), Bound::Excluded(key("d")));
    assert_eq!(range.start_bound(), Bound::Included(&key("b")));
    assert_eq!(range.end_bound(), Bound::Excluded(&key("d")));
    let copy = range.clone();
    assert_eq!(copy.start, range.start);
    assert_eq!(copy.end, range.end);
}

#[test]
fn byte_strings_in_order() {
    let ordered: [&[u8]; 6] = [b"", b"\0", b"a", b"a\0", b"ab", b"b"];
    for (i, a) in ordered.iter().enumerate() {
        for (j, b) in ordered.iter().enumerate() {
            assert_eq!(precedes(a, b), i < j);
            assert_eq!(precedes(a, b), a < b);
        }
    }
}

#[test]
fn records() {
    let record = Record::new(key("k"), key("v"));
    assert_eq!(record.key, key("k"));
    assert_eq!(record.value, key("v"));
    let copy = record.clone();
    assert_eq!((copy.key, copy.value), (key("k"), key("v")));
    let empty = Record::empty(key("k"));
    assert_eq!(empty.key, key("k"));
    assert!(empty.value.is_empty());
    assert_eq!(WriteResult { seqnum: 7 }, WriteResult { seqnum: 7 });
}

#[test]
fn storage_error_texts() {
    let error = StorageError::from_storage("disk full".to_string());
    assert_eq!(error, StorageError::Storage("disk full".to_string()));
    assert_eq!(error.message(), "Storage error: disk full");
    assert_eq!(error.clone(), error);
    assert_eq!(StorageError::Internal("x".to_string()).message(), "Internal error: x");
}

#[test]
fn range_has_no_gaps() {
    let keys: [&[u8]; 6] = [b"", b"a", b"b", b"bb", b"c", b"\xff"];
    let range = BytesRange::new(Bound::Excluded(key("a")), Bound::Included(key("c")));
    let inside: Vec<bool> = keys.iter().map(|k| range.contains(k)).collect();
    assert_eq!(inside, vec![false, false, true, true, true, false]);
}
