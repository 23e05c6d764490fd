//! Tests of the record codec: round trips, lengths, and the error taxonomy.

use bitcask::errors::Error;
use bitcask::record::Record;

fn sample_record() -> Record {
    Record {
        timestamp: 12345,
        key_size: 4,
        value_size: 10,
        key: b"name".to_vec(),
        value: b"ishan jain".to_vec(),
    }
}

#[test]
fn marshal_unmarshal_round_trip() {
    let rec = sample_record();
    let data = rec.marshal();
    assert_eq!(data.len(), 56 + 4 + 10);
    let back = Record::unmarshal(&data).expect("decode of a fresh encoding");
    assert_eq!(back.timestamp, 12345);
    assert_eq!(back.key_size, 4);
    assert_eq!(back.value_size, 10);
    assert_eq!(back.key, b"name".to_vec());
    assert_eq!(back.value, b"ishan jain".to_vec());
    assert_eq!(back.length(), 70);
}

#[test]
fn empty_value_is_legal() {
    let rec = Record {
        timestamp: 7,
        key_size: 1,
        value_size: 0,
        key: b"k".to_vec(),
        value: Vec::new(),
    };
    let data = rec.marshal();
    assert_eq!(data.len(), 57);
    let back = Record::unmarshal(&data).expect("empty values are accepted");
    assert_eq!(back.value.len(), 0);
}

#[test]
fn unmarshal_short_header_is_truncated() {
    assert!(matches!(Record::unmarshal(&[0u8; 10]), Err(Error::TruncatedRecord)));
    assert!(matches!(Record::unmarshal(&[]), Err(Error::TruncatedRecord)));
}

#[test]
fn unmarshal_short_body_is_truncated() {
    let data = sample_record().marshal();
    assert!(matches!(Record::unmarshal(&data[..60]), Err(Error::TruncatedRecord)));
    assert!(matches!(Record::unmarshal(&data[..69]), Err(Error::TruncatedRecord)));
}

#[test]
fn unmarshal_zero_key_size_is_invalid() {
    let mut data = sample_record().marshal();
    // Zero out the big-endian key_size field at bytes 48..52.
    for i in 48..52 {
        data[i] = 0;
    }
    assert!(matches!(Record::unmarshal(&data), Err(Error::InvalidRecord)));
}

#[test]
fn unmarshal_hash_flip_is_corrupt() {
    // Flipping any byte of the stored hash must be caught.
    for i in [0usize, 15, 31] {
        let mut data = sample_record().marshal();
        data[i] ^= 0x01;
        assert!(matches!(Record::unmarshal(&data), Err(Error::CorruptRecord)));
    }
}

#[test]
fn unmarshal_payload_flip_is_corrupt() {
    // Flipping bytes of the timestamp, the key or the value changes the
    // hashed body, so the stored digest no longer matches.
    for i in [32usize, 56, 60, 69] {
        let mut data = sample_record().marshal();
        data[i] ^= 0x80;
        assert!(matches!(Record::unmarshal(&data), Err(Error::CorruptRecord)));
    }
}

#[test]
fn timestamp_survives_full_width() {
    let rec = Record {
        timestamp: u128::MAX - 17,
        key_size: 1,
        value_size: 1,
        key: b"a".to_vec(),
        value: b"b".to_vec(),
    };
    let data = rec.marshal();
    let back = Record::unmarshal(&data).expect("decode");
    assert_eq!(back.timestamp, u128::MAX - 17);
}
