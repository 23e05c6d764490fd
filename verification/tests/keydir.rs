//! Tests of the in-memory index.

use bitcask::errors::Error;
use bitcask::keydir::KeyDir;

#[test]
fn set_then_get_returns_entry() {
    let mut kd = KeyDir::new();
    kd.set(b"name", 3, 10, 120, 77);
    let rec = kd.get(b"name").expect("entry present");
    assert_eq!(rec.file_id, 3);
    assert_eq!(rec.value_size, 10);
    assert_eq!(rec.value_offset, 120);
    assert_eq!(rec.timestamp, 77);
}

#[test]
fn get_of_missing_key_is_not_found() {
    let kd = KeyDir::new();
    assert_eq!(kd.get(b"missing"), Err(Error::NotFound));
}

#[test]
fn set_overwrites_prior_entry() {
    let mut kd = KeyDir::new();
    kd.set(b"k", 1, 1, 56, 1);
    kd.set(b"k", 2, 5, 300, 9);
    let rec = kd.get(b"k").expect("entry present");
    assert_eq!(rec.file_id, 2);
    assert_eq!(rec.value_size, 5);
    assert_eq!(rec.value_offset, 300);
    assert_eq!(rec.timestamp, 9);
    // Other keys are untouched.
    kd.set(b"other", 1, 1, 56, 2);
    assert_eq!(kd.get(b"k").unwrap().file_id, 2);
}

#[test]
fn remove_drops_entry() {
    let mut kd = KeyDir::new();
    kd.set(b"a", 1, 1, 56, 1);
    kd.set(b"b", 1, 1, 113, 2);
    kd.remove(b"a");
    assert_eq!(kd.get(b"a"), Err(Error::NotFound));
    assert_eq!(kd.get(b"b").unwrap().value_offset, 113);
    // Removing an absent key is a no-op.
    kd.remove(b"z");
    assert_eq!(kd.get(b"b").unwrap().value_offset, 113);
}
