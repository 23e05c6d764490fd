//! Tests of segment file naming and the byte-order helpers.

use bitcask::bytes::{bytes_eq, push_be_u128, push_be_u32, read_be_u128, read_be_u32};
use bitcask::segment::{derive_filepath_from_fileid, parse_segment_file_name};

#[test]
fn segment_paths_are_zero_padded() {
    assert_eq!(derive_filepath_from_fileid("db", 1), "db/000001.cask");
    assert_eq!(derive_filepath_from_fileid("t", 42), "t/000042.cask");
    assert_eq!(derive_filepath_from_fileid("data/base", 999999), "data/base/999999.cask");
}

#[test]
fn u32_big_endian_round_trip() {
    let mut out: Vec<u8> = Vec::new();
    push_be_u32(&mut out, 0xdead_beef);
    assert_eq!(out, vec![0xde, 0xad, 0xbe, 0xef]);
    assert_eq!(read_be_u32(&out, 0), 0xdead_beef);
}

#[test]
fn u128_big_endian_round_trip() {
    let x: u128 = 0x0102_0304_0506_0708_090a_0b0c_0d0e_0f10;
    let mut out: Vec<u8> = Vec::new();
    push_be_u128(&mut out, x);
    assert_eq!(out.len(), 16);
    assert_eq!(out[0], 0x01);
    assert_eq!(out[15], 0x10);
    assert_eq!(read_be_u128(&out, 0), x);
}

#[test]
fn bytes_eq_compares_contents() {
    assert!(bytes_eq(b"abc", b"abc"));
    assert!(!bytes_eq(b"abc", b"abd"));
    assert!(!bytes_eq(b"abc", b"ab"));
    assert!(bytes_eq(b"", b""));
}

#[test]
fn parse_accepts_exact_six_digit_names() {
    assert_eq!(parse_segment_file_name("000001.cask"), Some(1));
    assert_eq!(parse_segment_file_name("000042.cask"), Some(42));
    assert_eq!(parse_segment_file_name("999999.cask"), Some(999999));
}

#[test]
fn parse_rejects_other_names() {
    // Wrong width, zero id, wrong suffix, stray characters.
    assert_eq!(parse_segment_file_name("00000001.cask"), None);
    assert_eq!(parse_segment_file_name("1.cask"), None);
    assert_eq!(parse_segment_file_name("000000.cask"), None);
    assert_eq!(parse_segment_file_name("000001.db"), None);
    assert_eq!(parse_segment_file_name("00a001.cask"), None);
    assert_eq!(parse_segment_file_name("db.lock"), None);
    assert_eq!(parse_segment_file_name(""), None);
}

#[test]
fn parse_inverts_derivation() {
    for id in [1u32, 9, 10, 99999, 100000, 999999] {
        let path = derive_filepath_from_fileid("d", id);
        let name = &path["d/".len()..];
        assert_eq!(parse_segment_file_name(name), Some(id));
    }
}
