//! The engine: composes codec, keydir and log model, and makes every
//! decision of the write, read and recovery paths.
//!
//! The engine itself performs no file system work. `init` rebuilds the
//! keydir from segment contents handed in as byte vectors; `put` decides
//! rotation, encodes the record, updates the keydir and returns a `WriteOp`
//! telling the caller exactly what to append where; `get` resolves a key to
//! a byte range that `read_value` then extracts from the bytes read back.
//! A ghost log shadows what the segment files must hold, and the engine
//! invariant ties the keydir to it: every entry points at the bytes of the
//! last value written under its key.

use crate::errors::Error;
use crate::keydir::{KeyDir, KeyDirRecord};
use crate::log::{
    entry_of, keydir_of_log, keydir_of_seg, lemma_keydir_entry_correct, lemma_log_append,
    lemma_log_dom, lemma_log_rotate, lemma_parse_done, lemma_parse_fail, lemma_parse_seg_bytes,
    lemma_parse_start, lemma_parse_step, lemma_seg_len_nonneg, log_append, log_wf, model_of_log,
    parse_continues, parse_seg, seg_bytes, seg_len, seg_wf,
};
use crate::record::{
    decoded_rec, lemma_decode_reencode, rec_enc_len, rec_encoded, rec_wf, Record, RecordView,
};
use vstd::prelude::*;
use vstd::slice::{slice_subrange, slice_to_vec};
use vstd::string::StringExecFns;

verus! {

/// What `open` is called with: the database directory and the soft size
/// limit past which the active segment is rotated.
pub struct BitCaskOptions {
    pub dir_name: String,
    pub segment_size_limit: u64,
}

impl Default for BitCaskOptions {
    /// Directory `db`, limit 100 MiB.
    fn default() -> (r: Self)
        ensures
            r.dir_name@ == "db"@,
            r.segment_size_limit == 100 * 1024 * 1024,
    {
        BitCaskOptions { dir_name: String::from_str("db"), segment_size_limit: 100 * 1024 * 1024 }
    }
}

/// The append that a successful `put` asks its caller to perform: `data`
/// written at `offset` of segment `file_id`, which is a freshly rotated
/// segment when `fresh_segment` holds.
pub struct WriteOp {
    pub file_id: u32,
    pub offset: u64,
    pub fresh_segment: bool,
    pub data: Vec<u8>,
}

/// The record a `put` of `(key, value)` at `timestamp` writes.
pub open spec fn put_rec(key: Seq<u8>, value: Seq<u8>, timestamp: u128) -> RecordView {
    RecordView { timestamp, key, value }
}

/// The store: options, in-memory index, active segment bookkeeping, and the
/// ghost log of records that the segment files hold.
pub struct BitCask {
    options: BitCaskOptions,
    keydir: KeyDir,
    active_file_id: u32,
    active_size: u64,
    log: Ghost<Seq<Seq<RecordView>>>,
    frozen: Ghost<int>,
}

impl BitCask {
    /// The records of every segment, in id order: segment `i` of this
    /// sequence is the file with id `i + 1`, and the last one is active.
    pub closed spec fn log(&self) -> Seq<Seq<RecordView>> {
        self.log@
    }

    /// How many segments already existed when this instance recovered; the
    /// rotation bound is owed only for segments frozen after that.
    pub closed spec fn frozen(&self) -> int {
        self.frozen@
    }

    /// Id of the active segment.
    pub closed spec fn active_id(&self) -> u32 {
        self.active_file_id
    }

    /// The configured soft size limit.
    pub closed spec fn size_limit(&self) -> u64 {
        self.options.segment_size_limit
    }

    /// The configured directory name.
    pub closed spec fn dir_name(&self) -> Seq<char> {
        self.options.dir_name@
    }

    /// The in-memory index as a map.
    pub closed spec fn keydir_map(&self) -> Map<Seq<u8>, KeyDirRecord> {
        self.keydir@
    }

    /// The store's abstract contents: each key bound to the last value
    /// written under it.
    pub open spec fn model(&self) -> Map<Seq<u8>, Seq<u8>> {
        model_of_log(self.log())
    }

    /// Whether the next `put` will rotate: the active segment has reached
    /// the size limit.
    pub open spec fn needs_rotation(&self) -> bool {
        seg_len(self.log().last()) >= self.size_limit()
    }

    /// The engine invariant: the keydir is exactly the index the log
    /// denotes, the active segment is the last and its size is tracked
    /// exactly, ids are contiguous from 1, and every segment this instance
    /// rotated out had reached the size limit.
    pub closed spec fn inv(&self) -> bool {
        &&& self.keydir.wf()
        &&& self.keydir@ == keydir_of_log(self.log@)
        &&& self.active_file_id as int == self.log@.len()
        &&& self.active_file_id >= 1
        &&& log_wf(self.log@)
        &&& self.active_size as int == seg_len(self.log@.last())
        &&& 0 <= self.frozen@ < self.log@.len()
        &&& forall|i: int|
            self.frozen@ <= i < self.log@.len() - 1 ==> seg_len(#[trigger] self.log@[i])
                >= self.options.segment_size_limit
    }

    /// Id of the active segment.
    pub fn active_segment_id(&self) -> (r: u32)
        ensures
            r == self.active_id(),
    {
        self.active_file_id
    }

    /// Current byte length of the active segment.
    pub fn active_segment_size(&self) -> (r: u64)
        requires
            self.inv(),
        ensures
            r as int == seg_len(self.log().last()),
    {
        self.active_size
    }

    /// The configured soft size limit.
    pub fn segment_size_limit(&self) -> (r: u64)
        ensures
            r == self.size_limit(),
    {
        self.options.segment_size_limit
    }

    /// The configured directory name.
    pub fn dir(&self) -> (r: &str)
        ensures
            r@ == self.dir_name(),
    {
        self.options.dir_name.as_str()
    }

    /// Rebuilds the store from the contents of the existing segment files,
    /// in id order: `segments[i]` holds the bytes of the file with id
    /// `i + 1`. Every record of every segment is decoded and replayed into
    /// the keydir, later writes overriding earlier ones; one fresh, empty
    /// active segment is then opened under the next id. Fails with
    /// `RecoveryCorrupt` exactly when some segment's bytes do not parse as a
    /// sequence of intact records.
    pub fn init(options: BitCaskOptions, segments: Vec<Vec<u8>>) -> (r: Result<BitCask, Error>)
        requires
            segments@.len() < u32::MAX,
        ensures
            match r {
                Ok(engine) => {
                    &&& engine.inv()
                    &&& engine.log().len() == segments@.len() + 1
                    &&& forall|i: int|
                        0 <= i < segments@.len() ==> parse_seg(#[trigger] segments@[i]@) == Some(
                            engine.log()[i],
                        )
                    &&& forall|i: int|
                        0 <= i < segments@.len() ==> seg_bytes(#[trigger] engine.log()[i])
                            == segments@[i]@
                    &&& engine.log().last() == Seq::<RecordView>::empty()
                    &&& engine.active_id() as int == segments@.len() + 1
                    &&& engine.frozen() == segments@.len()
                    &&& engine.size_limit() == options.segment_size_limit
                    &&& engine.dir_name() == options.dir_name@
                },
                Err(e) => {
                    &&& e == Error::RecoveryCorrupt
                    &&& exists|i: int|
                        0 <= i < segments@.len() && parse_seg(#[trigger] segments@[i]@) is None
                },
            },
            r is Ok <==> (forall|i: int|
                0 <= i < segments@.len() ==> parse_seg(#[trigger] segments@[i]@) is Some),
    {
        let mut keydir = KeyDir::new();
        let ghost mut plog: Seq<Seq<RecordView>> = Seq::empty();
        let n = segments.len();
        let mut s: usize = 0;
        while s < n
            invariant
                n == segments@.len(),
                n < u32::MAX,
                s <= n,
                keydir.wf(),
                plog.len() == s,
                keydir@ == keydir_of_log(plog),
                forall|j: int| 0 <= j < s ==> parse_seg(#[trigger] segments@[j]@) == Some(plog[j]),
                forall|j: int| 0 <= j < s ==> seg_bytes(#[trigger] plog[j]) == segments@[j]@,
                forall|j: int| 0 <= j < s ==> seg_wf(#[trigger] plog[j]),
                forall|j: int| 0 <= j < s ==> seg_len(#[trigger] plog[j]) <= u64::MAX,
            decreases n - s,
        {
            let file = &segments[s];
            let fid: u32 = (s as u32) + 1;
            let mut off: usize = 0;
            let ghost mut done: Seq<RecordView> = Seq::empty();
            proof {
                lemma_parse_start(file@);
                assert(seg_bytes(done) =~= file@.take(0));
            }
            while off < file.len()
                invariant
                    n == segments@.len(),
                    s < n,
                    file == &segments@[s as int],
                    off <= file@.len(),
                    keydir.wf(),
                    fid == s + 1,
                    parse_continues(file@, done, off as int),
                    seg_bytes(done) == file@.take(off as int),
                    seg_len(done) == off as int,
                    seg_wf(done),
                    keydir@ == keydir_of_seg(fid, done, keydir_of_log(plog)),
                decreases file@.len() - off,
            {
                let tail = slice_subrange(file.as_slice(), off, file.len());
                proof {
                    assert(tail@ =~= file@.skip(off as int));
                }
                let rec = match Record::unmarshal(tail) {
                    Ok(rec) => rec,
                    Err(_) => {
                        proof {
                            lemma_parse_fail(file@, done, off as int);
                            assert(parse_seg(segments@[s as int]@) is None);
                        }
                        return Err(Error::RecoveryCorrupt);
                    },
                };
                let len_r = rec.length();
                let value_offset = off as u64 + (len_r as u64 - rec.value_size as u64);
                keydir.set(
                    rec.key.as_slice(),
                    fid,
                    rec.value_size,
                    value_offset,
                    rec.timestamp,
                );
                proof {
                    let ghost r = decoded_rec(file@.skip(off as int));
                    lemma_parse_step(file@, done, off as int);
                    lemma_decode_reencode(file@.skip(off as int));
                    assert(done.push(r).drop_last() =~= done);
                    assert(done.push(r).last() == r);
                    assert(entry_of(fid, seg_len(done), r) == KeyDirRecord {
                        timestamp: rec.timestamp,
                        file_id: fid,
                        value_size: rec.value_size,
                        value_offset,
                    });
                    assert(seg_bytes(done.push(r)) == seg_bytes(done) + rec_encoded(r));
                    assert(rec_encoded(r) == file@.skip(off as int).subrange(
                        0,
                        rec_enc_len(r),
                    ));
                    assert(file@.take(off + rec_enc_len(r)) =~= file@.take(off as int)
                        + file@.skip(off as int).subrange(0, rec_enc_len(r)));
                    done = done.push(r);
                }
                off = off + len_r;
            }
            proof {
                assert(file@.take(file@.len() as int) =~= file@);
                lemma_parse_done(file@, done);
                assert(plog.push(done).drop_last() =~= plog);
                plog = plog.push(done);
            }
            s = s + 1;
        }
        let active_id: u32 = (n as u32) + 1;
        let ghost flog = plog.push(Seq::<RecordView>::empty());
        proof {
            lemma_log_rotate(plog);
            assert(flog.last() =~= Seq::<RecordView>::empty());
            assert forall|i: int| 0 <= i < flog.len() implies seg_wf(#[trigger] flog[i])
                && seg_len(flog[i]) <= u64::MAX by {
                if i < plog.len() {
                    assert(flog[i] == plog[i]);
                } else {
                    assert(flog[i] =~= Seq::<RecordView>::empty());
                }
            }
        }
        let engine = BitCask {
            options,
            keydir,
            active_file_id: active_id,
            active_size: 0,
            log: Ghost(flog),
            frozen: Ghost(n as int),
        };
        Ok(engine)
    }

    /// What the next `put` of `(key, value)` at `timestamp` will do, without
    /// doing it: the rotation decision is taken from the current active
    /// segment size, the record is encoded, and the target segment and
    /// offset are reported. Rejects an empty key, or a key or value longer
    /// than the 32-bit size fields allow, with `InvalidRecord`.
    pub fn prepare_put(&self, key: &[u8], value: &[u8], timestamp: u128) -> (r: Result<
        WriteOp,
        Error,
    >)
        requires
            self.inv(),
            self.active_id() < u32::MAX,
            seg_len(self.log().last()) + 56 + key@.len() + value@.len() <= u64::MAX,
        ensures
            match r {
                Ok(op) => {
                    &&& rec_wf(put_rec(key@, value@, timestamp))
                    &&& op.data@ == rec_encoded(put_rec(key@, value@, timestamp))
                    &&& op.fresh_segment == self.needs_rotation()
                    &&& op.file_id as int == if self.needs_rotation() {
                        self.active_id() + 1
                    } else {
                        self.active_id() as int
                    }
                    &&& op.offset as int == if self.needs_rotation() {
                        0
                    } else {
                        seg_len(self.log().last())
                    }
                },
                Err(e) => e == Error::InvalidRecord && !rec_wf(put_rec(key@, value@, timestamp)),
            },
            r is Ok <==> rec_wf(put_rec(key@, value@, timestamp)),
    {
        if key.len() == 0 || key.len() > u32::MAX as usize || value.len() > u32::MAX as usize {
            return Err(Error::InvalidRecord);
        }
        let fresh = self.active_size >= self.options.segment_size_limit;
        let (file_id, offset): (u32, u64) = if fresh {
            (self.active_file_id + 1, 0)
        } else {
            (self.active_file_id, self.active_size)
        };
        let rec = Record {
            timestamp,
            key_size: key.len() as u32,
            value_size: value.len() as u32,
            key: slice_to_vec(key),
            value: slice_to_vec(value),
        };
        let data = rec.marshal();
        Ok(WriteOp { file_id, offset, fresh_segment: fresh, data })
    }

    /// Records a write of `(key, value)` at `timestamp`: decides rotation
    /// exactly as `prepare_put` does, appends the record to the (possibly
    /// fresh) active segment of the log, and updates the keydir, so that the
    /// store's contents become the old contents with `key` bound to
    /// `value`. Returns the same append instruction as `prepare_put`; the
    /// caller performs the file append before committing the state change
    /// with this call, so a failed append never updates the keydir. Rejects
    /// the same inputs as `prepare_put`, with the store unchanged.
    pub fn put(&mut self, key: Vec<u8>, value: Vec<u8>, timestamp: u128) -> (r: Result<
        WriteOp,
        Error,
    >)
        requires
            old(self).inv(),
            old(self).active_id() < u32::MAX,
            seg_len(old(self).log().last()) + 56 + key@.len() + value@.len() <= u64::MAX,
        ensures
            match r {
                Ok(op) => {
                    &&& rec_wf(put_rec(key@, value@, timestamp))
                    &&& final(self).inv()
                    &&& final(self).model() == old(self).model().insert(key@, value@)
                    &&& final(self).keydir_map() == old(self).keydir_map().insert(
                        key@,
                        KeyDirRecord {
                            timestamp,
                            file_id: op.file_id,
                            value_size: value@.len() as u32,
                            value_offset: (op.offset + 56 + key@.len()) as u64,
                        },
                    )
                    &&& final(self).size_limit() == old(self).size_limit()
                    &&& final(self).dir_name() == old(self).dir_name()
                    &&& final(self).frozen() == old(self).frozen()
                    &&& final(self).active_id() == op.file_id
                    &&& op.data@ == rec_encoded(put_rec(key@, value@, timestamp))
                    &&& op.fresh_segment == old(self).needs_rotation()
                    &&& op.file_id as int == if old(self).needs_rotation() {
                        old(self).active_id() + 1
                    } else {
                        old(self).active_id() as int
                    }
                    &&& op.offset as int == if old(self).needs_rotation() {
                        0
                    } else {
                        seg_len(old(self).log().last())
                    }
                    &&& if op.fresh_segment {
                        final(self).log() == old(self).log().push(
                            seq![put_rec(key@, value@, timestamp)],
                        )
                    } else {
                        final(self).log() == log_append(
                            old(self).log(),
                            put_rec(key@, value@, timestamp),
                        )
                    }
                    &&& forall|i: int|
                        0 <= i < old(self).log().len() - 1 ==> final(self).log()[i] == old(
                            self,
                        ).log()[i]
                    &&& (op.fresh_segment ==> final(self).log()[old(self).log().len() - 1] == old(
                        self,
                    ).log().last())
                },
                Err(e) => {
                    &&& e == Error::InvalidRecord
                    &&& !rec_wf(put_rec(key@, value@, timestamp))
                    &&& *final(self) == *old(self)
                },
            },
            r is Ok <==> rec_wf(put_rec(key@, value@, timestamp)),
    {
        if key.len() == 0 || key.len() > u32::MAX as usize || value.len() > u32::MAX as usize {
            return Err(Error::InvalidRecord);
        }
        let ghost rv = RecordView { timestamp, key: key@, value: value@ };
        let fresh = self.active_size >= self.options.segment_size_limit;
        let (file_id, offset): (u32, u64) = if fresh {
            (self.active_file_id + 1, 0)
        } else {
            (self.active_file_id, self.active_size)
        };
        let value_offset = offset + 56 + key.len() as u64;
        self.keydir.set(key.as_slice(), file_id, value.len() as u32, value_offset, timestamp);
        proof {
            if fresh {
                lemma_log_rotate(self.log@);
                lemma_log_append(self.log@.push(Seq::empty()), rv);
                lemma_seg_len_nonneg(self.log@.last());
                assert(Seq::<RecordView>::empty().push(rv) =~= seq![rv]);
                assert(log_append(self.log@.push(Seq::empty()), rv) =~= self.log@.push(seq![rv]));
            } else {
                lemma_log_append(self.log@, rv);
                lemma_seg_len_nonneg(self.log@.last().drop_last());
            }
        }
        let ghost new_log = if fresh {
            self.log@.push(seq![rv])
        } else {
            log_append(self.log@, rv)
        };
        proof {
            assert forall|i: int| 0 <= i < new_log.len() implies seg_wf(#[trigger] new_log[i])
                && seg_len(new_log[i]) <= u64::MAX by {
                if i < self.log@.len() - 1 {
                    assert(new_log[i] == self.log@[i]);
                } else if fresh && i == self.log@.len() - 1 {
                    assert(new_log[i] == self.log@[i]);
                } else {
                    assert(new_log[i] == new_log.last());
                    assert(seg_len(new_log.last()) == if fresh {
                        rec_enc_len(rv)
                    } else {
                        seg_len(self.log@.last()) + rec_enc_len(rv)
                    });
                    assert(seg_wf(new_log.last())) by {
                        let base = if fresh {
                            Seq::<RecordView>::empty()
                        } else {
                            self.log@.last()
                        };
                        assert(new_log.last() == base.push(rv));
                        assert forall|j: int|
                            0 <= j < base.push(rv).len() implies rec_wf(
                            #[trigger] base.push(rv)[j],
                        ) by {
                            if j < base.len() {
                                assert(base.push(rv)[j] == base[j]);
                            }
                        }
                    }
                }
            }
        }
        self.log = Ghost(new_log);
        self.active_file_id = file_id;
        let key_size = key.len() as u32;
        let value_size = value.len() as u32;
        let rec = Record { timestamp, key_size, value_size, key, value };
        let data = rec.marshal();
        if fresh {
            self.active_size = data.len() as u64;
        } else {
            self.active_size = self.active_size + data.len() as u64;
        }
        Ok(WriteOp { file_id, offset, fresh_segment: fresh, data })
    }

    /// Resolves `key` through the keydir. On a hit, the entry names a real
    /// segment, the byte range it records lies within that segment's bytes,
    /// and those bytes are exactly the last value written under the key.
    /// `NotFound` exactly when the key was never written.
    pub fn get(&self, key: &[u8]) -> (r: Result<KeyDirRecord, Error>)
        requires
            self.inv(),
        ensures
            match r {
                Ok(entry) => {
                    &&& self.model().contains_key(key@)
                    &&& entry == self.keydir_map()[key@]
                    &&& 1 <= entry.file_id <= self.log().len()
                    &&& entry.value_size == self.model()[key@].len()
                    &&& entry.value_offset + entry.value_size <= seg_len(
                        self.log()[entry.file_id - 1],
                    )
                    &&& seg_bytes(self.log()[entry.file_id - 1]).subrange(
                        entry.value_offset as int,
                        entry.value_offset + entry.value_size,
                    ) == self.model()[key@]
                },
                Err(e) => e == Error::NotFound && !self.model().contains_key(key@),
            },
            r is Ok <==> self.model().contains_key(key@),
    {
        proof {
            lemma_log_dom(self.log@, key@);
            if self.keydir@.contains_key(key@) {
                lemma_keydir_entry_correct(self.log@, key@);
            }
        }
        self.keydir.get(key)
    }
}

/// Extracts the value a keydir entry points at from the segment bytes read
/// back from disk, returning the same record view a `get` promises:
/// timestamp and key from the entry and lookup, value copied from
/// `contents[value_offset .. value_offset + value_size]`. Fails with `Io`
/// exactly when the bytes are too short for the recorded range.
pub fn read_value(key: &[u8], entry: KeyDirRecord, contents: &[u8]) -> (r: Result<Record, Error>)
    requires
        key@.len() <= u32::MAX,
    ensures
        match r {
            Ok(rec) => {
                &&& entry.value_offset + entry.value_size <= contents@.len()
                &&& rec.timestamp == entry.timestamp
                &&& rec.key@ == key@
                &&& rec.key_size == key@.len()
                &&& rec.value@ == contents@.subrange(
                    entry.value_offset as int,
                    entry.value_offset + entry.value_size,
                )
                &&& rec.value_size == entry.value_size
            },
            Err(e) => e == Error::Io && entry.value_offset + entry.value_size > contents@.len(),
        },
        r is Ok <==> entry.value_offset + entry.value_size <= contents@.len(),
{
    let clen = contents.len();
    let vs64 = entry.value_size as u64;
    if entry.value_offset > u64::MAX - vs64 {
        proof {
            assert(contents@.len() <= u64::MAX);
        }
        return Err(Error::Io);
    }
    let end = entry.value_offset + vs64;
    if end > clen as u64 {
        return Err(Error::Io);
    }
    let off = entry.value_offset as usize;
    let vs = entry.value_size as usize;
    let value = slice_to_vec(slice_subrange(contents, off, off + vs));
    Ok(
        Record {
            timestamp: entry.timestamp,
            key_size: key.len() as u32,
            value_size: entry.value_size,
            key: slice_to_vec(key),
            value,
        },
    )
}

/// Last write wins: after a `put` of `(key, value)` — whose contract states
/// that the contents become the old contents with `key` bound to `value` —
/// a `get` of that key is owed exactly `value`, however many writes the key
/// had before.
pub proof fn lemma_last_write_wins(pre: BitCask, post: BitCask, key: Seq<u8>, value: Seq<u8>)
    requires
        post.model() == pre.model().insert(key, value),
    ensures
        post.model().contains_key(key),
        post.model()[key] == value,
{
}

/// Durability across reopen: feeding `init` exactly the bytes that the
/// engine's log holds on disk succeeds — every segment parses back to its
/// own records — and the reopened store has the same contents.
pub proof fn lemma_durability_across_reopen(e: BitCask, reopened: BitCask)
    requires
        e.inv(),
        reopened.log().len() == e.log().len() + 1,
        forall|i: int|
            0 <= i < e.log().len() ==> parse_seg(seg_bytes(#[trigger] e.log()[i])) == Some(
                reopened.log()[i],
            ),
        reopened.log().last() == Seq::<RecordView>::empty(),
    ensures
        forall|i: int|
            0 <= i < e.log().len() ==> parse_seg(seg_bytes(#[trigger] e.log()[i])) == Some(
                e.log()[i],
            ),
        reopened.model() == e.model(),
{
    assert forall|i: int| 0 <= i < e.log().len() implies parse_seg(
        seg_bytes(#[trigger] e.log()[i]),
    ) == Some(e.log()[i]) by {
        lemma_parse_seg_bytes(e.log()[i]);
    }
    assert forall|i: int| 0 <= i < e.log().len() implies reopened.log()[i] == e.log()[i] by {
        lemma_parse_seg_bytes(e.log()[i]);
    }
    assert(reopened.log().drop_last() =~= e.log());
}

/// Rotation soft bound: every segment this engine instance rotated out had
/// reached the size limit when it was frozen.
pub proof fn lemma_rotation_soft_bound(e: BitCask)
    requires
        e.inv(),
    ensures
        forall|i: int|
            e.frozen() <= i < e.log().len() - 1 ==> seg_len(#[trigger] e.log()[i])
                >= e.size_limit(),
{
}

/// The id of the segment at position `i` of the log: ids are contiguous
/// from 1.
pub open spec fn segment_id(i: int) -> int {
    i + 1
}

/// Monotone segment ids: the active segment's id is strictly greater than
/// the id of every other segment, in particular of every recovered one.
pub proof fn lemma_monotone_segment_ids(e: BitCask)
    requires
        e.inv(),
    ensures
        forall|i: int|
            0 <= i < e.log().len() - 1 ==> #[trigger] segment_id(i) < e.active_id() as int,
{
}

} // verus!
