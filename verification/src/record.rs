//! The record codec: one durable key/value write, serialized as a 32-byte
//! SHA-256 integrity hash, a fixed header (timestamp, key size, value size,
//! all big-endian), and the two raw payloads.
//!
//! Layout of an encoded record:
//!
//! ```text
//! offset 0    32 : integrity hash (SHA-256 of the 24 header bytes + payloads)
//! offset 32   16 : timestamp (unsigned 128-bit, big-endian)
//! offset 48    4 : key_size   (unsigned 32-bit, big-endian)
//! offset 52    4 : value_size (unsigned 32-bit, big-endian)
//! offset 56    K : key bytes
//! offset 56+K  V : value bytes
//! ```

use crate::bytes::{
    lemma_u128_be_canonical, lemma_u128_be_round_trip, lemma_u32_be_canonical,
    lemma_u32_be_round_trip, push_be_u128, push_be_u32, push_bytes, bytes_eq, read_be_u128,
    read_be_u32, spec_u128_from_be_bytes, spec_u128_to_be_bytes, spec_u32_from_be_bytes,
    spec_u32_to_be_bytes,
};
use crate::errors::Error;
use vstd::prelude::*;
use vstd::slice::{slice_subrange, slice_to_vec};

verus! {

/// The mathematical content of a record: what it means, independent of its
/// serialized form.
pub struct RecordView {
    pub timestamp: u128,
    pub key: Seq<u8>,
    pub value: Seq<u8>,
}

/// One byte of the SHA-256 digest of `data`. The digest is a pure function
/// of the input bytes; its definition is not restated here.
pub uninterp spec fn sha256_byte(data: Seq<u8>, i: int) -> u8;

/// The 32-byte SHA-256 digest of `data`.
pub open spec fn sha256_of(data: Seq<u8>) -> Seq<u8> {
    Seq::new(32, |i: int| sha256_byte(data, i))
}

/// Relies on sha2::Sha256 via digest::Digest::digest: the SHA-256 digest is
/// 32 bytes long and depends on the input bytes alone.
#[verifier::external_body]
fn sha256(data: &[u8]) -> (r: Vec<u8>)
    ensures
        r@.len() == 32,
        forall|i: int| 0 <= i < 32 ==> r@[i] == sha256_byte(data@, i),
        r@ == sha256_of(data@),
{
    <sha2::Sha256 as sha2::Digest>::digest(data).as_slice().to_vec()
}

/// A record is well formed when its key is non-empty and both payloads fit
/// the 32-bit sizes that the header can carry.
pub open spec fn rec_wf(r: RecordView) -> bool {
    &&& 0 < r.key.len() <= u32::MAX
    &&& r.value.len() <= u32::MAX
}

/// The hashed portion of an encoded record: timestamp, sizes, payloads.
pub open spec fn rec_body(r: RecordView) -> Seq<u8> {
    spec_u128_to_be_bytes(r.timestamp) + spec_u32_to_be_bytes(r.key.len() as u32)
        + spec_u32_to_be_bytes(r.value.len() as u32) + r.key + r.value
}

/// The full encoding: the digest of the body, then the body.
pub open spec fn rec_encoded(r: RecordView) -> Seq<u8> {
    sha256_of(rec_body(r)) + rec_body(r)
}

/// Total encoded length: 56 header bytes plus the two payloads.
pub open spec fn rec_enc_len(r: RecordView) -> int {
    56 + r.key.len() as int + r.value.len() as int
}

/// The timestamp field a decoder reads from `data`.
pub open spec fn header_timestamp(data: Seq<u8>) -> u128 {
    spec_u128_from_be_bytes(data.subrange(32, 48))
}

/// The key size field a decoder reads from `data`.
pub open spec fn header_key_size(data: Seq<u8>) -> u32 {
    spec_u32_from_be_bytes(data.subrange(48, 52))
}

/// The value size field a decoder reads from `data`.
pub open spec fn header_value_size(data: Seq<u8>) -> u32 {
    spec_u32_from_be_bytes(data.subrange(52, 56))
}

/// The total record length that the header of `data` declares.
pub open spec fn decoded_len(data: Seq<u8>) -> int {
    56 + header_key_size(data) + header_value_size(data)
}

/// How decoding a record at the front of `data` fails, or `None` when it
/// succeeds: a slice shorter than the header or than the declared length is
/// truncated, a zero key size is invalid, and a hash mismatch is corruption.
pub open spec fn decode_err(data: Seq<u8>) -> Option<Error> {
    if data.len() < 56 {
        Some(Error::TruncatedRecord)
    } else if header_key_size(data) == 0 {
        Some(Error::InvalidRecord)
    } else if data.len() < decoded_len(data) {
        Some(Error::TruncatedRecord)
    } else if data.subrange(0, 32) != sha256_of(data.subrange(32, decoded_len(data))) {
        Some(Error::CorruptRecord)
    } else {
        None
    }
}

/// True when a record decodes successfully at the front of `data`.
pub open spec fn decode_ok(data: Seq<u8>) -> bool {
    decode_err(data) is None
}

/// The record denoted by the front of `data`, when decoding succeeds.
pub open spec fn decoded_rec(data: Seq<u8>) -> RecordView {
    RecordView {
        timestamp: header_timestamp(data),
        key: data.subrange(56, 56 + header_key_size(data) as int),
        value: data.subrange(
            56 + header_key_size(data) as int,
            56 + header_key_size(data) as int + header_value_size(data) as int,
        ),
    }
}

/// One durable key/value write.
#[derive(Debug)]
pub struct Record {
    pub timestamp: u128,
    pub key_size: u32,
    pub value_size: u32,
    pub key: Vec<u8>,
    pub value: Vec<u8>,
}

impl View for Record {
    type V = RecordView;

    open spec fn view(&self) -> RecordView {
        RecordView { timestamp: self.timestamp, key: self.key@, value: self.value@ }
    }
}

impl Record {
    /// The size fields agree with the payloads and the payloads are legal.
    pub open spec fn wf(&self) -> bool {
        &&& self.key_size == self.key@.len()
        &&& self.value_size == self.value@.len()
        &&& rec_wf(self@)
    }

    /// Total encoded length of this record.
    pub fn length(&self) -> (r: usize)
        requires
            rec_enc_len(self@) <= usize::MAX,
        ensures
            r == rec_enc_len(self@),
    {
        32 + 16 + 4 + 4 + self.key.len() + self.value.len()
    }

    /// Serializes the record: hash, header, payloads.
    pub fn marshal(self) -> (out: Vec<u8>)
        requires
            self.wf(),
        ensures
            out@ == rec_encoded(self@),
            out@.len() == rec_enc_len(self@),
    {
        let mut body: Vec<u8> = Vec::new();
        push_be_u128(&mut body, self.timestamp);
        push_be_u32(&mut body, self.key_size);
        push_be_u32(&mut body, self.value_size);
        push_bytes(&mut body, self.key.as_slice());
        push_bytes(&mut body, self.value.as_slice());
        proof {
            assert(body@ =~= rec_body(self@));
        }
        let mut out = sha256(body.as_slice());
        let mut tail = body;
        out.append(&mut tail);
        proof {
            assert(out@ =~= rec_encoded(self@));
        }
        out
    }

    /// Decodes one record from the front of `data`, recomputing and checking
    /// the integrity hash. Succeeds exactly when `decode_ok(data@)` holds.
    pub fn unmarshal(data: &[u8]) -> (r: Result<Record, Error>)
        ensures
            match r {
                Ok(rec) => decode_ok(data@) && rec.wf() && rec@ == decoded_rec(data@)
                    && rec_enc_len(rec@) == decoded_len(data@),
                Err(e) => decode_err(data@) == Some(e),
            },
            r is Ok <==> decode_ok(data@),
    {
        if data.len() < 56 {
            return Err(Error::TruncatedRecord);
        }
        let timestamp = read_be_u128(data, 32);
        let key_size = read_be_u32(data, 48);
        let value_size = read_be_u32(data, 52);
        if key_size == 0 {
            return Err(Error::InvalidRecord);
        }
        let total: u64 = 56u64 + key_size as u64 + value_size as u64;
        if (data.len() as u64) < total {
            return Err(Error::TruncatedRecord);
        }
        let ks = key_size as usize;
        let vs = value_size as usize;
        let body = slice_subrange(data, 32, 56 + ks + vs);
        let digest = sha256(body);
        let stored = slice_subrange(data, 0, 32);
        if !bytes_eq(stored, digest.as_slice()) {
            return Err(Error::CorruptRecord);
        }
        let key = slice_to_vec(slice_subrange(data, 56, 56 + ks));
        let value = slice_to_vec(slice_subrange(data, 56 + ks, 56 + ks + vs));
        let rec = Record { timestamp, key_size, value_size, key, value };
        proof {
            assert(decode_ok(data@));
            assert(rec@ == decoded_rec(data@));
        }
        Ok(rec)
    }
}

/// Codec round trip: a well-formed record decodes from its own encoding,
/// unchanged, and the encoded length is 56 plus the payload lengths. Stated
/// with an arbitrary continuation appended, so that it also says a record at
/// the front of a longer byte sequence decodes the same way.
pub proof fn lemma_decode_prefix(r: RecordView, rest: Seq<u8>)
    requires
        rec_wf(r),
    ensures
        rec_encoded(r).len() == rec_enc_len(r),
        decode_ok(rec_encoded(r) + rest),
        decoded_rec(rec_encoded(r) + rest) == r,
        decoded_len(rec_encoded(r) + rest) == rec_enc_len(r),
{
    let b = rec_body(r);
    let e = rec_encoded(r);
    let d = e + rest;
    let k = r.key.len() as int;
    let v = r.value.len() as int;
    lemma_u128_be_round_trip(r.timestamp);
    lemma_u32_be_round_trip(r.key.len() as u32);
    lemma_u32_be_round_trip(r.value.len() as u32);
    assert(b.len() == 24 + k + v);
    assert(e.len() == 56 + k + v);
    assert(d.subrange(32, 48) =~= spec_u128_to_be_bytes(r.timestamp));
    assert(d.subrange(48, 52) =~= spec_u32_to_be_bytes(r.key.len() as u32));
    assert(d.subrange(52, 56) =~= spec_u32_to_be_bytes(r.value.len() as u32));
    assert(header_key_size(d) == r.key.len() as u32);
    assert(header_value_size(d) == r.value.len() as u32);
    assert(decoded_len(d) == 56 + k + v);
    assert(d.subrange(0, 32) =~= sha256_of(b));
    assert(d.subrange(32, 56 + k + v) =~= b);
    assert(decode_ok(d));
    assert(d.subrange(56, 56 + k) =~= r.key);
    assert(d.subrange(56 + k, 56 + k + v) =~= r.value);
    assert(decoded_rec(d) == r);
}

/// Codec round trip on exactly one record.
pub proof fn lemma_codec_round_trip(r: RecordView)
    requires
        rec_wf(r),
    ensures
        rec_encoded(r).len() == rec_enc_len(r),
        decode_ok(rec_encoded(r)),
        decoded_rec(rec_encoded(r)) == r,
        decoded_len(rec_encoded(r)) == rec_enc_len(r),
{
    lemma_decode_prefix(r, Seq::empty());
    assert(rec_encoded(r) + Seq::<u8>::empty() =~= rec_encoded(r));
}

/// Decoding is honest about the bytes: re-encoding the record decoded from
/// the front of `data` reproduces exactly the bytes it was decoded from.
pub proof fn lemma_decode_reencode(data: Seq<u8>)
    requires
        decode_ok(data),
    ensures
        rec_wf(decoded_rec(data)),
        rec_enc_len(decoded_rec(data)) == decoded_len(data),
        56 <= decoded_len(data) <= data.len(),
        rec_encoded(decoded_rec(data)) == data.subrange(0, decoded_len(data)),
{
    let r = decoded_rec(data);
    let k = header_key_size(data) as int;
    let v = header_value_size(data) as int;
    assert(r.key.len() == k);
    assert(r.value.len() == v);
    lemma_u128_be_canonical(data.subrange(32, 48));
    lemma_u32_be_canonical(data.subrange(48, 52));
    lemma_u32_be_canonical(data.subrange(52, 56));
    assert(r.key.len() as u32 == header_key_size(data));
    assert(r.value.len() as u32 == header_value_size(data));
    assert(rec_body(r) =~= data.subrange(32, decoded_len(data)));
    assert(data.subrange(0, 32) == sha256_of(data.subrange(32, decoded_len(data))));
    assert(rec_encoded(r) =~= data.subrange(0, decoded_len(data)));
}

/// Integrity detection for the stored hash: flipping any byte among the
/// first 32 makes decoding fail with `CorruptRecord`. (Flips elsewhere alter
/// the hashed body itself; that they are caught rests on collision
/// resistance of SHA-256, which is outside this model.)
pub proof fn lemma_hash_flip_detected(r: RecordView, i: int, b: u8)
    requires
        rec_wf(r),
        0 <= i < 32,
        b != rec_encoded(r)[i],
    ensures
        decode_err(rec_encoded(r).update(i, b)) == Some(Error::CorruptRecord),
{
    let e = rec_encoded(r);
    let d = e.update(i, b);
    lemma_codec_round_trip(r);
    assert(d.subrange(32, 48) =~= e.subrange(32, 48));
    assert(d.subrange(48, 52) =~= e.subrange(48, 52));
    assert(d.subrange(52, 56) =~= e.subrange(52, 56));
    assert(header_key_size(d) == header_key_size(e));
    assert(header_value_size(d) == header_value_size(e));
    assert(decoded_len(d) == decoded_len(e));
    assert(d.subrange(32, decoded_len(d)) =~= e.subrange(32, decoded_len(e)));
    assert(e.subrange(0, 32) == sha256_of(e.subrange(32, decoded_len(e))));
    assert(d.subrange(0, 32)[i] == b);
    assert(e.subrange(0, 32)[i] == e[i]);
    assert(d.subrange(0, 32) != sha256_of(d.subrange(32, decoded_len(d))));
}

} // verus!
