//! Big-endian encodings of the header scalars, and small byte-vector helpers.
//!
//! The on-disk format is fixed big-endian so that it is portable across
//! hosts; these conversions are verified against the sequence-level
//! specifications used throughout the codec.

use vstd::prelude::*;

verus! {

/// The four bytes of `x`, most significant first.
pub open spec fn spec_u32_to_be_bytes(x: u32) -> Seq<u8> {
    seq![
        ((x >> 24) & 0xff) as u8,
        ((x >> 16) & 0xff) as u8,
        ((x >> 8) & 0xff) as u8,
        (x & 0xff) as u8,
    ]
}

/// The u32 denoted by four bytes, most significant first.
pub open spec fn spec_u32_from_be_bytes(s: Seq<u8>) -> u32
    recommends
        s.len() == 4,
{
    (s[0] as u32) << 24 | (s[1] as u32) << 16 | (s[2] as u32) << 8 | (s[3] as u32)
}

/// The sixteen bytes of `x`, most significant first.
pub open spec fn spec_u128_to_be_bytes(x: u128) -> Seq<u8> {
    seq![
        ((x >> 120) & 0xff) as u8,
        ((x >> 112) & 0xff) as u8,
        ((x >> 104) & 0xff) as u8,
        ((x >> 96) & 0xff) as u8,
        ((x >> 88) & 0xff) as u8,
        ((x >> 80) & 0xff) as u8,
        ((x >> 72) & 0xff) as u8,
        ((x >> 64) & 0xff) as u8,
        ((x >> 56) & 0xff) as u8,
        ((x >> 48) & 0xff) as u8,
        ((x >> 40) & 0xff) as u8,
        ((x >> 32) & 0xff) as u8,
        ((x >> 24) & 0xff) as u8,
        ((x >> 16) & 0xff) as u8,
        ((x >> 8) & 0xff) as u8,
        (x & 0xff) as u8,
    ]
}

/// The u128 denoted by sixteen bytes, most significant first.
pub open spec fn spec_u128_from_be_bytes(s: Seq<u8>) -> u128
    recommends
        s.len() == 16,
{
    (s[0] as u128) << 120 | (s[1] as u128) << 112 | (s[2] as u128) << 104 | (s[3] as u128) << 96
        | (s[4] as u128) << 88 | (s[5] as u128) << 80 | (s[6] as u128) << 72 | (s[7] as u128) << 64
        | (s[8] as u128) << 56 | (s[9] as u128) << 48 | (s[10] as u128) << 40 | (s[11] as u128)
        << 32 | (s[12] as u128) << 24 | (s[13] as u128) << 16 | (s[14] as u128) << 8 | (
    s[15] as u128)
}

/// Decoding the big-endian bytes of a u32 gives the value back.
pub proof fn lemma_u32_be_round_trip(x: u32)
    ensures
        spec_u32_to_be_bytes(x).len() == 4,
        spec_u32_from_be_bytes(spec_u32_to_be_bytes(x)) == x,
{
    assert((((x >> 24) & 0xff) as u8 as u32) << 24 | (((x >> 16) & 0xff) as u8 as u32) << 16 | (((x
        >> 8) & 0xff) as u8 as u32) << 8 | ((x & 0xff) as u8 as u32) == x) by (bit_vector);
}

/// Re-encoding a decoded four-byte sequence gives the bytes back.
pub proof fn lemma_u32_be_canonical(s: Seq<u8>)
    requires
        s.len() == 4,
    ensures
        spec_u32_to_be_bytes(spec_u32_from_be_bytes(s)) == s,
{
    let b0 = s[0];
    let b1 = s[1];
    let b2 = s[2];
    let b3 = s[3];
    let x = spec_u32_from_be_bytes(s);
    assert({
        let y = (b0 as u32) << 24 | (b1 as u32) << 16 | (b2 as u32) << 8 | (b3 as u32);
        ((y >> 24) & 0xff) as u8 == b0 && ((y >> 16) & 0xff) as u8 == b1 && ((y >> 8) & 0xff) as u8
            == b2 && (y & 0xff) as u8 == b3
    }) by (bit_vector);
    assert(spec_u32_to_be_bytes(x) =~= s);
}

/// Decoding the big-endian bytes of a u128 gives the value back.
pub proof fn lemma_u128_be_round_trip(x: u128)
    ensures
        spec_u128_to_be_bytes(x).len() == 16,
        spec_u128_from_be_bytes(spec_u128_to_be_bytes(x)) == x,
{
    assert((((x >> 120) & 0xff) as u8 as u128) << 120 | (((x >> 112) & 0xff) as u8 as u128) << 112
        | (((x >> 104) & 0xff) as u8 as u128) << 104 | (((x >> 96) & 0xff) as u8 as u128) << 96 | (
    ((x >> 88) & 0xff) as u8 as u128) << 88 | (((x >> 80) & 0xff) as u8 as u128) << 80 | (((x >> 72)
        & 0xff) as u8 as u128) << 72 | (((x >> 64) & 0xff) as u8 as u128) << 64 | (((x >> 56)
        & 0xff) as u8 as u128) << 56 | (((x >> 48) & 0xff) as u8 as u128) << 48 | (((x >> 40)
        & 0xff) as u8 as u128) << 40 | (((x >> 32) & 0xff) as u8 as u128) << 32 | (((x >> 24)
        & 0xff) as u8 as u128) << 24 | (((x >> 16) & 0xff) as u8 as u128) << 16 | (((x >> 8)
        & 0xff) as u8 as u128) << 8 | ((x & 0xff) as u8 as u128) == x) by (bit_vector);
}

/// Re-encoding a decoded sixteen-byte sequence gives the bytes back.
pub proof fn lemma_u128_be_canonical(s: Seq<u8>)
    requires
        s.len() == 16,
    ensures
        spec_u128_to_be_bytes(spec_u128_from_be_bytes(s)) == s,
{
    let b0 = s[0];
    let b1 = s[1];
    let b2 = s[2];
    let b3 = s[3];
    let b4 = s[4];
    let b5 = s[5];
    let b6 = s[6];
    let b7 = s[7];
    let b8 = s[8];
    let b9 = s[9];
    let b10 = s[10];
    let b11 = s[11];
    let b12 = s[12];
    let b13 = s[13];
    let b14 = s[14];
    let b15 = s[15];
    let x = spec_u128_from_be_bytes(s);
    assert({
        let y = (b0 as u128) << 120 | (b1 as u128) << 112 | (b2 as u128) << 104 | (b3 as u128) << 96
            | (b4 as u128) << 88 | (b5 as u128) << 80 | (b6 as u128) << 72 | (b7 as u128) << 64 | (
        b8 as u128) << 56 | (b9 as u128) << 48 | (b10 as u128) << 40 | (b11 as u128) << 32 | (
        b12 as u128) << 24 | (b13 as u128) << 16 | (b14 as u128) << 8 | (b15 as u128);
        ((y >> 120) & 0xff) as u8 == b0 && ((y >> 112) & 0xff) as u8 == b1 && ((y >> 104)
            & 0xff) as u8 == b2 && ((y >> 96) & 0xff) as u8 == b3 && ((y >> 88) & 0xff) as u8 == b4
            && ((y >> 80) & 0xff) as u8 == b5 && ((y >> 72) & 0xff) as u8 == b6 && ((y >> 64)
            & 0xff) as u8 == b7 && ((y >> 56) & 0xff) as u8 == b8 && ((y >> 48) & 0xff) as u8 == b9
            && ((y >> 40) & 0xff) as u8 == b10 && ((y >> 32) & 0xff) as u8 == b11 && ((y >> 24)
            & 0xff) as u8 == b12 && ((y >> 16) & 0xff) as u8 == b13 && ((y >> 8) & 0xff) as u8
            == b14 && (y & 0xff) as u8 == b15
    }) by (bit_vector);
    assert(spec_u128_to_be_bytes(x) =~= s);
}

/// Appends the big-endian bytes of `x` to `out`.
pub fn push_be_u32(out: &mut Vec<u8>, x: u32)
    ensures
        final(out)@ == old(out)@ + spec_u32_to_be_bytes(x),
{
    out.push(((x >> 24) & 0xff) as u8);
    out.push(((x >> 16) & 0xff) as u8);
    out.push(((x >> 8) & 0xff) as u8);
    out.push((x & 0xff) as u8);
    assert(out@ =~= old(out)@ + spec_u32_to_be_bytes(x));
}

/// Appends the big-endian bytes of `x` to `out`.
pub fn push_be_u128(out: &mut Vec<u8>, x: u128)
    ensures
        final(out)@ == old(out)@ + spec_u128_to_be_bytes(x),
{
    out.push(((x >> 120) & 0xff) as u8);
    out.push(((x >> 112) & 0xff) as u8);
    out.push(((x >> 104) & 0xff) as u8);
    out.push(((x >> 96) & 0xff) as u8);
    out.push(((x >> 88) & 0xff) as u8);
    out.push(((x >> 80) & 0xff) as u8);
    out.push(((x >> 72) & 0xff) as u8);
    out.push(((x >> 64) & 0xff) as u8);
    out.push(((x >> 56) & 0xff) as u8);
    out.push(((x >> 48) & 0xff) as u8);
    out.push(((x >> 40) & 0xff) as u8);
    out.push(((x >> 32) & 0xff) as u8);
    out.push(((x >> 24) & 0xff) as u8);
    out.push(((x >> 16) & 0xff) as u8);
    out.push(((x >> 8) & 0xff) as u8);
    out.push((x & 0xff) as u8);
    assert(out@ =~= old(out)@ + spec_u128_to_be_bytes(x));
}

/// Appends all of `src` to `out`.
pub fn push_bytes(out: &mut Vec<u8>, src: &[u8])
    ensures
        final(out)@ == old(out)@ + src@,
{
    let mut i: usize = 0;
    while i < src.len()
        invariant
            i <= src@.len(),
            out@ == old(out)@ + src@.take(i as int),
        decreases src@.len() - i,
    {
        out.push(src[i]);
        assert(old(out)@ + src@.take(i as int) + seq![src@[i as int]] =~= old(out)@ + src@.take(
            i as int + 1,
        ));
        i = i + 1;
    }
    assert(src@.take(src@.len() as int) =~= src@);
}

/// Reads four bytes at `off`, most significant first.
pub fn read_be_u32(data: &[u8], off: usize) -> (r: u32)
    requires
        off + 4 <= data@.len(),
    ensures
        r == spec_u32_from_be_bytes(data@.subrange(off as int, off as int + 4)),
{
    let r = (data[off] as u32) << 24 | (data[off + 1] as u32) << 16 | (data[off + 2] as u32) << 8
        | (data[off + 3] as u32);
    proof {
        let s = data@.subrange(off as int, off as int + 4);
        assert(s[0] == data@[off as int]);
        assert(s[1] == data@[off as int + 1]);
        assert(s[2] == data@[off as int + 2]);
        assert(s[3] == data@[off as int + 3]);
    }
    r
}

/// Reads sixteen bytes at `off`, most significant first.
pub fn read_be_u128(data: &[u8], off: usize) -> (r: u128)
    requires
        off + 16 <= data@.len(),
    ensures
        r == spec_u128_from_be_bytes(data@.subrange(off as int, off as int + 16)),
{
    let r = (data[off] as u128) << 120 | (data[off + 1] as u128) << 112 | (data[off + 2] as u128)
        << 104 | (data[off + 3] as u128) << 96 | (data[off + 4] as u128) << 88 | (data[off
        + 5] as u128) << 80 | (data[off + 6] as u128) << 72 | (data[off + 7] as u128) << 64 | (
    data[off + 8] as u128) << 56 | (data[off + 9] as u128) << 48 | (data[off + 10] as u128) << 40
        | (data[off + 11] as u128) << 32 | (data[off + 12] as u128) << 24 | (data[off
        + 13] as u128) << 16 | (data[off + 14] as u128) << 8 | (data[off + 15] as u128);
    proof {
        let s = data@.subrange(off as int, off as int + 16);
        assert forall|j: int| 0 <= j < 16 implies s[j] == data@[off as int + j] by {}
    }
    r
}

/// Byte-for-byte equality of two slices.
pub fn bytes_eq(a: &[u8], b: &[u8]) -> (r: bool)
    ensures
        r == (a@ == b@),
{
    if a.len() != b.len() {
        return false;
    }
    let mut i: usize = 0;
    while i < a.len()
        invariant
            a@.len() == b@.len(),
            i <= a@.len(),
            forall|j: int| 0 <= j < i ==> a@[j] == b@[j],
        decreases a@.len() - i,
    {
        if a[i] != b[i] {
            return false;
        }
        i = i + 1;
    }
    proof {
        assert(a@ =~= b@);
    }
    true
}

} // verus!
