//! The keydir: the in-memory index from key bytes to the location of the
//! key's most recent value on disk.
//!
//! Stored as an association list with unique keys; its view is the map it
//! denotes. Lookups and updates walk the list, so the structure is simple to
//! reason about while presenting exactly the mapping the engine needs.

use crate::bytes::bytes_eq;
use crate::errors::Error;
use vstd::prelude::*;
use vstd::slice::slice_to_vec;

verus! {

/// Where the latest value of one key lives: which segment, at which byte
/// offset, how long it is, and the timestamp it was written with.
#[derive(Clone, Copy, Debug, PartialEq, Eq, Structural)]
pub struct KeyDirRecord {
    pub timestamp: u128,
    pub file_id: u32,
    pub value_size: u32,
    pub value_offset: u64,
}

/// The map denoted by an association list, later entries overriding earlier
/// ones.
pub open spec fn kd_map_of(s: Seq<(Vec<u8>, KeyDirRecord)>) -> Map<Seq<u8>, KeyDirRecord>
    decreases s.len(),
{
    if s.len() == 0 {
        Map::empty()
    } else {
        kd_map_of(s.drop_last()).insert(s.last().0@, s.last().1)
    }
}

/// The in-memory index from key bytes to keydir entries.
pub struct KeyDir {
    entries: Vec<(Vec<u8>, KeyDirRecord)>,
}

impl View for KeyDir {
    type V = Map<Seq<u8>, KeyDirRecord>;

    closed spec fn view(&self) -> Map<Seq<u8>, KeyDirRecord> {
        kd_map_of(self.entries@)
    }
}

/// No two entries share a key.
spec fn kd_uniq(s: Seq<(Vec<u8>, KeyDirRecord)>) -> bool {
    forall|i: int, j: int| 0 <= i < j < s.len() ==> s[i].0@ != s[j].0@
}

/// An entry's key is in the denoted map, bound to that entry's record.
proof fn lemma_kd_map_index(s: Seq<(Vec<u8>, KeyDirRecord)>, i: int)
    requires
        kd_uniq(s),
        0 <= i < s.len(),
    ensures
        kd_map_of(s).contains_key(s[i].0@),
        kd_map_of(s)[s[i].0@] == s[i].1,
    decreases s.len(),
{
    if i < s.len() - 1 {
        lemma_kd_map_index(s.drop_last(), i);
    }
}

/// The denoted map holds exactly the keys of the list.
proof fn lemma_kd_map_domain(s: Seq<(Vec<u8>, KeyDirRecord)>, k: Seq<u8>)
    ensures
        kd_map_of(s).contains_key(k) <==> exists|i: int| 0 <= i < s.len() && s[i].0@ == k,
    decreases s.len(),
{
    if s.len() > 0 {
        lemma_kd_map_domain(s.drop_last(), k);
        if kd_map_of(s).contains_key(k) && s.last().0@ != k {
            let i = choose|i: int| 0 <= i < s.drop_last().len() && s.drop_last()[i].0@ == k;
            assert(s[i].0@ == k);
        }
        if exists|i: int| 0 <= i < s.len() && s[i].0@ == k {
            let i = choose|i: int| 0 <= i < s.len() && s[i].0@ == k;
            if i < s.len() - 1 {
                assert(s.drop_last()[i].0@ == k);
            }
        }
    }
}

/// Replacing the entry at `i` by one with the same key denotes an insert.
proof fn lemma_kd_map_update(s: Seq<(Vec<u8>, KeyDirRecord)>, i: int, p: (Vec<u8>, KeyDirRecord))
    requires
        kd_uniq(s),
        0 <= i < s.len(),
        p.0@ == s[i].0@,
    ensures
        kd_uniq(s.update(i, p)),
        kd_map_of(s.update(i, p)) == kd_map_of(s).insert(p.0@, p.1),
    decreases s.len(),
{
    let s2 = s.update(i, p);
    if i == s.len() - 1 {
        assert(s2.drop_last() =~= s.drop_last());
        assert(kd_map_of(s).insert(p.0@, p.1) =~= kd_map_of(s.drop_last()).insert(p.0@, p.1));
    } else {
        assert(s2.drop_last() =~= s.drop_last().update(i, p));
        lemma_kd_map_update(s.drop_last(), i, p);
        assert(s.last().0@ != p.0@);
        assert(kd_map_of(s.drop_last()).insert(p.0@, p.1).insert(s.last().0@, s.last().1)
            =~= kd_map_of(s.drop_last()).insert(s.last().0@, s.last().1).insert(p.0@, p.1));
    }
}

impl KeyDir {
    /// The index's internal uniqueness discipline.
    pub closed spec fn wf(&self) -> bool {
        kd_uniq(self.entries@)
    }

    /// An empty index.
    pub fn new() -> (r: Self)
        ensures
            r.wf(),
            r@ == Map::<Seq<u8>, KeyDirRecord>::empty(),
    {
        KeyDir { entries: Vec::new() }
    }

    /// The position of `key` in the entry list, if any.
    fn index_of(&self, key: &[u8]) -> (r: Option<usize>)
        ensures
            match r {
                Some(i) => i < self.entries@.len() && self.entries@[i as int].0@ == key@,
                None => forall|j: int| 0 <= j < self.entries@.len() ==> self.entries@[j].0@ != key@,
            },
    {
        let n = self.entries.len();
        let mut i: usize = 0;
        while i < n
            invariant
                n == self.entries@.len(),
                i <= n,
                forall|j: int| 0 <= j < i ==> self.entries@[j].0@ != key@,
            decreases n - i,
        {
            if bytes_eq(self.entries[i].0.as_slice(), key) {
                return Some(i);
            }
            i = i + 1;
        }
        None
    }

    /// Unconditionally binds `key` to the given location, replacing any
    /// prior entry for it.
    pub fn set(&mut self, key: &[u8], file_id: u32, value_size: u32, value_offset: u64,
        timestamp: u128)
        requires
            old(self).wf(),
        ensures
            final(self).wf(),
            final(self)@ == old(self)@.insert(
                key@,
                KeyDirRecord { timestamp, file_id, value_size, value_offset },
            ),
    {
        let rec = KeyDirRecord { timestamp, file_id, value_size, value_offset };
        let p = (slice_to_vec(key), rec);
        let ghost gp = p;
        match self.index_of(key) {
            Some(i) => {
                proof {
                    lemma_kd_map_update(self.entries@, i as int, gp);
                }
                self.entries.set(i, p);
            }
            None => {
                self.entries.push(p);
                proof {
                    assert(self.entries@.drop_last() =~= old(self).entries@);
                }
            }
        }
    }

    /// Looks `key` up; `NotFound` exactly when it has no entry.
    pub fn get(&self, key: &[u8]) -> (r: Result<KeyDirRecord, Error>)
        requires
            self.wf(),
        ensures
            match r {
                Ok(rec) => self@.contains_key(key@) && rec == self@[key@],
                Err(e) => e == Error::NotFound && !self@.contains_key(key@),
            },
            r is Ok <==> self@.contains_key(key@),
    {
        match self.index_of(key) {
            Some(i) => {
                proof {
                    lemma_kd_map_index(self.entries@, i as int);
                }
                Ok(self.entries[i].1)
            }
            None => {
                proof {
                    lemma_kd_map_domain(self.entries@, key@);
                }
                Err(Error::NotFound)
            }
        }
    }

    /// Drops any entry for `key`. Reserved for a future tombstone policy;
    /// the write path never calls it.
    pub fn remove(&mut self, key: &[u8])
        requires
            old(self).wf(),
        ensures
            final(self).wf(),
            final(self)@ == old(self)@.remove(key@),
    {
        match self.index_of(key) {
            Some(i) => {
                proof {
                    lemma_kd_map_remove(self.entries@, i as int);
                }
                self.entries.remove(i);
            }
            None => {
                proof {
                    lemma_kd_map_domain(self.entries@, key@);
                    assert(kd_map_of(self.entries@).remove(key@) =~= kd_map_of(self.entries@));
                }
            }
        }
    }
}

/// Removing the entry at `i` denotes removing its key from the map.
proof fn lemma_kd_map_remove(s: Seq<(Vec<u8>, KeyDirRecord)>, i: int)
    requires
        kd_uniq(s),
        0 <= i < s.len(),
    ensures
        kd_uniq(s.remove(i)),
        kd_map_of(s.remove(i)) == kd_map_of(s).remove(s[i].0@),
    decreases s.len(),
{
    let s2 = s.remove(i);
    let k = s[i].0@;
    if i == s.len() - 1 {
        assert(s2 =~= s.drop_last());
        lemma_kd_map_domain(s.drop_last(), k);
        assert(kd_map_of(s.drop_last()).remove(k) =~= kd_map_of(s.drop_last()));
        assert(kd_map_of(s).remove(k) =~= kd_map_of(s.drop_last()));
    } else {
        assert(s2.drop_last() =~= s.drop_last().remove(i));
        assert(s2.last() == s.last());
        lemma_kd_map_remove(s.drop_last(), i);
        assert(s.last().0@ != k);
        assert(kd_map_of(s.drop_last()).remove(k).insert(s.last().0@, s.last().1)
            =~= kd_map_of(s.drop_last()).insert(s.last().0@, s.last().1).remove(k));
    }
}

} // verus!
