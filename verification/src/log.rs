//! The mathematical model of the on-disk log: a sequence of segments, each a
//! sequence of records. Segment `i` of the model is the file with id `i + 1`.
//!
//! Three readings of a log are defined here and related by lemmas:
//! its bytes (`seg_bytes`), the index it denotes (`keydir_of_log`, later
//! writes overriding earlier ones), and the key/value contents it denotes
//! (`model_of_log`). `parse_seg` is the inverse reading used by recovery:
//! decoding a segment's bytes front to back.

use crate::keydir::KeyDirRecord;
use crate::record::{
    decode_ok, decoded_len, decoded_rec, lemma_decode_prefix, lemma_decode_reencode, rec_enc_len,
    rec_encoded, rec_wf, RecordView,
};
use vstd::prelude::*;

verus! {

/// Every record of the segment is well formed.
pub open spec fn seg_wf(rs: Seq<RecordView>) -> bool {
    forall|i: int| 0 <= i < rs.len() ==> rec_wf(#[trigger] rs[i])
}

/// Total encoded length of a segment's records.
pub open spec fn seg_len(rs: Seq<RecordView>) -> int
    decreases rs.len(),
{
    if rs.len() == 0 {
        0
    } else {
        seg_len(rs.drop_last()) + rec_enc_len(rs.last())
    }
}

/// The bytes of a segment: the concatenated encodings of its records.
pub open spec fn seg_bytes(rs: Seq<RecordView>) -> Seq<u8>
    decreases rs.len(),
{
    if rs.len() == 0 {
        Seq::empty()
    } else {
        seg_bytes(rs.drop_last()) + rec_encoded(rs.last())
    }
}

/// A segment's length is non-negative, and grows with its records.
pub proof fn lemma_seg_len_nonneg(rs: Seq<RecordView>)
    ensures
        seg_len(rs) >= 0,
    decreases rs.len(),
{
    if rs.len() > 0 {
        lemma_seg_len_nonneg(rs.drop_last());
    }
}

/// A segment's bytes are exactly `seg_len` long.
pub proof fn lemma_seg_bytes_len(rs: Seq<RecordView>)
    ensures
        seg_bytes(rs).len() == seg_len(rs),
    decreases rs.len(),
{
    if rs.len() > 0 {
        lemma_seg_bytes_len(rs.drop_last());
        assert(rec_encoded(rs.last()).len() == rec_enc_len(rs.last()));
    }
}

/// The keydir entry for a record written to segment `fid` at byte offset
/// `off`: the entry points at the value payload, 56 header bytes and the key
/// past the record's start.
pub open spec fn entry_of(fid: u32, off: int, r: RecordView) -> KeyDirRecord {
    KeyDirRecord {
        timestamp: r.timestamp,
        file_id: fid,
        value_size: r.value.len() as u32,
        value_offset: (off + 56 + r.key.len()) as u64,
    }
}

/// The index after replaying one segment's records, in order, over `base`.
pub open spec fn keydir_of_seg(
    fid: u32,
    rs: Seq<RecordView>,
    base: Map<Seq<u8>, KeyDirRecord>,
) -> Map<Seq<u8>, KeyDirRecord>
    decreases rs.len(),
{
    if rs.len() == 0 {
        base
    } else {
        keydir_of_seg(fid, rs.drop_last(), base).insert(
            rs.last().key,
            entry_of(fid, seg_len(rs.drop_last()), rs.last()),
        )
    }
}

/// The index denoted by a whole log: segments replayed in id order, so the
/// last write of each key wins.
pub open spec fn keydir_of_log(log: Seq<Seq<RecordView>>) -> Map<Seq<u8>, KeyDirRecord>
    decreases log.len(),
{
    if log.len() == 0 {
        Map::empty()
    } else {
        keydir_of_seg(log.len() as u32, log.last(), keydir_of_log(log.drop_last()))
    }
}

/// The key/value contents after replaying one segment over `base`.
pub open spec fn model_of_seg(rs: Seq<RecordView>, base: Map<Seq<u8>, Seq<u8>>) -> Map<
    Seq<u8>,
    Seq<u8>,
>
    decreases rs.len(),
{
    if rs.len() == 0 {
        base
    } else {
        model_of_seg(rs.drop_last(), base).insert(rs.last().key, rs.last().value)
    }
}

/// The key/value contents denoted by a whole log.
pub open spec fn model_of_log(log: Seq<Seq<RecordView>>) -> Map<Seq<u8>, Seq<u8>>
    decreases log.len(),
{
    if log.len() == 0 {
        Map::empty()
    } else {
        model_of_seg(log.last(), model_of_log(log.drop_last()))
    }
}

/// A log the engine can carry: well-formed records, segment sizes that fit
/// the offsets' types, and ids that fit in 32 bits.
pub open spec fn log_wf(log: Seq<Seq<RecordView>>) -> bool {
    &&& forall|i: int| 0 <= i < log.len() ==> seg_wf(#[trigger] log[i])
    &&& forall|i: int| 0 <= i < log.len() ==> seg_len(#[trigger] log[i]) <= u64::MAX
    &&& log.len() <= u32::MAX
}

/// Decoding a segment's bytes front to back: the records read, or `None` as
/// soon as one record fails to decode.
pub open spec fn parse_seg(data: Seq<u8>) -> Option<Seq<RecordView>>
    decreases data.len(),
{
    if data.len() == 0 {
        Some(Seq::empty())
    } else if decode_ok(data) {
        match parse_seg(data.skip(decoded_len(data))) {
            Some(rest) => Some(seq![decoded_rec(data)] + rest),
            None => None,
        }
    } else {
        None
    }
}

/// The relation a front-to-back decoder maintains: what the whole segment
/// parses to is `done` followed by whatever the remainder parses to.
pub open spec fn parse_continues(full: Seq<u8>, done: Seq<RecordView>, off: int) -> bool {
    parse_seg(full) == (match parse_seg(full.skip(off)) {
        Some(rest) => Some(done + rest),
        None => None::<Seq<RecordView>>,
    })
}

/// At the start nothing is done and everything remains.
pub proof fn lemma_parse_start(full: Seq<u8>)
    ensures
        parse_continues(full, Seq::empty(), 0),
{
    assert(full.skip(0) =~= full);
    match parse_seg(full) {
        Some(rs) => {
            assert(Seq::<RecordView>::empty() + rs =~= rs);
        },
        None => {},
    }
}

/// One successful decode step extends `done` and advances the offset.
pub proof fn lemma_parse_step(full: Seq<u8>, done: Seq<RecordView>, off: int)
    requires
        0 <= off < full.len(),
        parse_continues(full, done, off),
        decode_ok(full.skip(off)),
    ensures
        56 <= decoded_len(full.skip(off)),
        off + decoded_len(full.skip(off)) <= full.len(),
        parse_continues(
            full,
            done.push(decoded_rec(full.skip(off))),
            off + decoded_len(full.skip(off)),
        ),
{
    let tail = full.skip(off);
    let dl = decoded_len(tail);
    assert(tail.len() == full.len() - off);
    assert(full.skip(off + dl) =~= tail.skip(dl));
    match parse_seg(tail.skip(dl)) {
        Some(rest) => {
            assert(done + (seq![decoded_rec(tail)] + rest) =~= done.push(decoded_rec(tail))
                + rest);
        },
        None => {},
    }
}

/// A failed decode step means the whole segment fails to parse.
pub proof fn lemma_parse_fail(full: Seq<u8>, done: Seq<RecordView>, off: int)
    requires
        0 <= off < full.len(),
        parse_continues(full, done, off),
        !decode_ok(full.skip(off)),
    ensures
        parse_seg(full) is None,
{
    assert(full.skip(off).len() > 0);
}

/// Reaching the end of the bytes means the whole segment parses to `done`.
pub proof fn lemma_parse_done(full: Seq<u8>, done: Seq<RecordView>)
    requires
        parse_continues(full, done, full.len() as int),
    ensures
        parse_seg(full) == Some(done),
{
    assert(full.skip(full.len() as int) =~= Seq::<u8>::empty());
    assert(done + Seq::<RecordView>::empty() =~= done);
}

/// A segment's bytes can also be split off at the first record.
proof fn lemma_seg_bytes_first(rs: Seq<RecordView>)
    requires
        rs.len() > 0,
    ensures
        seg_bytes(rs) == rec_encoded(rs[0]) + seg_bytes(rs.subrange(1, rs.len() as int)),
    decreases rs.len(),
{
    let tail = rs.subrange(1, rs.len() as int);
    if rs.len() == 1 {
        assert(rs.drop_last().len() == 0);
        assert(seg_bytes(rs.drop_last()) == Seq::<u8>::empty());
        assert(tail.len() == 0);
        assert(seg_bytes(tail) == Seq::<u8>::empty());
        assert(seg_bytes(rs) == seg_bytes(rs.drop_last()) + rec_encoded(rs.last()));
        assert(rs.last() == rs[0]);
        assert(seg_bytes(rs) =~= rec_encoded(rs[0]) + seg_bytes(tail));
    } else {
        lemma_seg_bytes_first(rs.drop_last());
        assert(rs.drop_last()[0] == rs[0]);
        assert(rs.drop_last().subrange(1, rs.len() - 1) =~= tail.drop_last());
        assert(tail.last() == rs.last());
        assert(seg_bytes(rs) == seg_bytes(rs.drop_last()) + rec_encoded(rs.last()));
        assert(seg_bytes(tail) == seg_bytes(tail.drop_last()) + rec_encoded(tail.last()));
        assert(seg_bytes(rs.drop_last()) == rec_encoded(rs[0]) + seg_bytes(tail.drop_last()));
        assert(seg_bytes(rs) =~= rec_encoded(rs[0]) + seg_bytes(tail));
    }
}

/// Recovery reads back exactly what was written: the bytes of a well-formed
/// segment parse to precisely its records.
#[verifier::spinoff_prover]
#[verifier::rlimit(50)]
pub proof fn lemma_parse_seg_bytes(rs: Seq<RecordView>)
    requires
        seg_wf(rs),
    ensures
        parse_seg(seg_bytes(rs)) == Some(rs),
    decreases rs.len(),
{
    if rs.len() == 0 {
        assert(seg_bytes(rs).len() == 0);
        assert(parse_seg(seg_bytes(rs)) == Some(Seq::<RecordView>::empty()));
        assert(rs =~= Seq::<RecordView>::empty());
    } else {
        let tail = rs.subrange(1, rs.len() as int);
        lemma_seg_bytes_first(rs);
        let data = seg_bytes(rs);
        assert(rec_wf(rs[0]));
        lemma_decode_prefix(rs[0], seg_bytes(tail));
        assert(data.skip(decoded_len(data)) =~= seg_bytes(tail));
        assert forall|i: int| 0 <= i < tail.len() implies rec_wf(#[trigger] tail[i]) by {
            assert(tail[i] == rs[i + 1]);
        }
        lemma_parse_seg_bytes(tail);
        assert(data.len() > 0) by {
            assert(rec_encoded(rs[0]).len() == rec_enc_len(rs[0]));
        }
        assert(seq![rs[0]] + tail =~= rs);
    }
}

/// Appending a record to the last (active) segment of the log.
pub open spec fn log_append(log: Seq<Seq<RecordView>>, r: RecordView) -> Seq<Seq<RecordView>>
    recommends
        log.len() > 0,
{
    log.update(log.len() - 1, log.last().push(r))
}

/// What one appended record does to the index and the contents: it binds its
/// key to the new record's location and value, and touches nothing else.
pub proof fn lemma_log_append(log: Seq<Seq<RecordView>>, r: RecordView)
    requires
        log.len() >= 1,
    ensures
        keydir_of_log(log_append(log, r)) == keydir_of_log(log).insert(
            r.key,
            entry_of(log.len() as u32, seg_len(log.last()), r),
        ),
        model_of_log(log_append(log, r)) == model_of_log(log).insert(r.key, r.value),
        seg_len(log_append(log, r).last()) == seg_len(log.last()) + rec_enc_len(r),
{
    let l2 = log_append(log, r);
    assert(l2.drop_last() =~= log.drop_last());
    assert(l2.last() == log.last().push(r));
    assert(l2.last().drop_last() =~= log.last());
    assert(l2.last().last() == r);
}

/// Opening a fresh segment changes neither the index nor the contents.
pub proof fn lemma_log_rotate(log: Seq<Seq<RecordView>>)
    ensures
        keydir_of_log(log.push(Seq::empty())) == keydir_of_log(log),
        model_of_log(log.push(Seq::empty())) == model_of_log(log),
        seg_len(log.push(Seq::<RecordView>::empty()).last()) == 0,
{
    let l2 = log.push(Seq::<RecordView>::empty());
    assert(l2.drop_last() =~= log);
    assert(l2.last() =~= Seq::<RecordView>::empty());
}

/// The index and the contents always know the same keys (segment step).
proof fn lemma_seg_dom(
    fid: u32,
    rs: Seq<RecordView>,
    kb: Map<Seq<u8>, KeyDirRecord>,
    mb: Map<Seq<u8>, Seq<u8>>,
    k: Seq<u8>,
)
    requires
        kb.contains_key(k) <==> mb.contains_key(k),
    ensures
        keydir_of_seg(fid, rs, kb).contains_key(k) <==> model_of_seg(rs, mb).contains_key(k),
    decreases rs.len(),
{
    if rs.len() > 0 {
        lemma_seg_dom(fid, rs.drop_last(), kb, mb, k);
    }
}

/// The index and the contents always know the same keys.
pub proof fn lemma_log_dom(log: Seq<Seq<RecordView>>, k: Seq<u8>)
    ensures
        keydir_of_log(log).contains_key(k) <==> model_of_log(log).contains_key(k),
    decreases log.len(),
{
    if log.len() > 0 {
        lemma_log_dom(log.drop_last(), k);
        lemma_seg_dom(
            log.len() as u32,
            log.last(),
            keydir_of_log(log.drop_last()),
            model_of_log(log.drop_last()),
            k,
        );
    }
}

/// The index points at the truth: for every key it knows, its entry names a
/// real segment, the byte range it records lies within that segment, and the
/// bytes there are exactly the value the contents map holds for the key —
/// the last value written under it.
pub proof fn lemma_keydir_entry_correct(log: Seq<Seq<RecordView>>, k: Seq<u8>)
    requires
        log_wf(log),
        keydir_of_log(log).contains_key(k),
    ensures
        ({
            let e = keydir_of_log(log)[k];
            &&& 1 <= e.file_id <= log.len()
            &&& model_of_log(log).contains_key(k)
            &&& e.value_size == model_of_log(log)[k].len()
            &&& e.value_offset + e.value_size <= seg_len(log[e.file_id - 1])
            &&& seg_bytes(log[e.file_id - 1]).subrange(
                e.value_offset as int,
                e.value_offset + e.value_size,
            ) == model_of_log(log)[k]
        }),
    decreases log.len(), (if log.len() > 0 { log.last().len() } else { 0 }),
{
    let n = log.len() as int;
    let rs = log.last();
    if rs.len() == 0 {
        assert(keydir_of_log(log) == keydir_of_log(log.drop_last()));
        assert(model_of_log(log) == model_of_log(log.drop_last()));
        assert(log_wf(log.drop_last()));
        lemma_keydir_entry_correct(log.drop_last(), k);
        let e = keydir_of_log(log)[k];
        assert(log.drop_last()[e.file_id - 1] == log[e.file_id - 1]);
    } else {
        let r = rs.last();
        let log2 = log.update(n - 1, rs.drop_last());
        assert(log2.drop_last() =~= log.drop_last());
        assert(log2.last() =~= rs.drop_last());
        assert(keydir_of_log(log) == keydir_of_log(log2).insert(
            r.key,
            entry_of(n as u32, seg_len(rs.drop_last()), r),
        ));
        assert(model_of_log(log) == model_of_log(log2).insert(r.key, r.value));
        assert(seg_wf(rs.drop_last()));
        assert(rec_wf(r));
        lemma_seg_len_nonneg(rs.drop_last());
        assert(seg_len(rs) == seg_len(rs.drop_last()) + rec_enc_len(r));
        assert(log_wf(log2)) by {
            assert forall|i: int| 0 <= i < log2.len() implies seg_wf(#[trigger] log2[i])
                && seg_len(log2[i]) <= u64::MAX by {
                if i < n - 1 {
                    assert(log2[i] == log[i]);
                } else {
                    assert(log2[i] == rs.drop_last());
                }
            }
        }
        let off = seg_len(rs.drop_last());
        lemma_seg_bytes_len(rs.drop_last());
        if k == r.key {
            let e = entry_of(n as u32, off, r);
            assert(e.file_id == n as u32);
            assert(e.file_id as int == n);
            assert(e.value_offset == off + 56 + r.key.len());
            assert(e.value_size == r.value.len());
            lemma_log_dom(log, k);
            assert(seg_bytes(rs) == seg_bytes(rs.drop_last()) + rec_encoded(r));
            let kl = r.key.len() as int;
            let vl = r.value.len() as int;
            assert(rec_encoded(r).len() == rec_enc_len(r));
            assert(rec_encoded(r).subrange(56 + kl, 56 + kl + vl) =~= r.value);
            assert(seg_bytes(rs).subrange(off + 56 + kl, off + 56 + kl + vl) =~= rec_encoded(
                r,
            ).subrange(56 + kl, 56 + kl + vl));
            assert(seg_bytes(log[e.file_id - 1]).subrange(
                e.value_offset as int,
                e.value_offset + e.value_size,
            ) == r.value);
        } else {
            lemma_keydir_entry_correct(log2, k);
            let e = keydir_of_log(log2)[k];
            assert(keydir_of_log(log)[k] == e);
            assert(model_of_log(log)[k] == model_of_log(log2)[k]);
            if e.file_id - 1 < n - 1 {
                assert(log2[e.file_id - 1] == log[e.file_id - 1]);
            } else {
                assert(e.file_id - 1 == n - 1);
                assert(log2[e.file_id - 1] == rs.drop_last());
                assert(log[e.file_id - 1] == rs);
                assert(seg_bytes(rs) == seg_bytes(rs.drop_last()) + rec_encoded(r));
                assert(rec_enc_len(r) >= 0);
                assert(seg_bytes(rs).subrange(e.value_offset as int, e.value_offset + e.value_size)
                    =~= seg_bytes(rs.drop_last()).subrange(
                    e.value_offset as int,
                    e.value_offset + e.value_size,
                ));
            }
        }
    }
}

} // verus!
