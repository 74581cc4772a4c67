//! The per-shard record store: dense 32-bit ids over fixed-size chunks,
//! and content-based deduplication.
//!
//! An id encodes a chunked address: the upper 16 bits select a chunk of
//! 65,536 slots, the lower 16 bits the offset inside it, so ids count up
//! densely from zero and a lookup is two array indexes.  Deduplication
//! keys a map by a 64-bit content hash of the record and compares the
//! candidate records structurally, so equal content is stored only once.

use vstd::prelude::*;
use crate::record::{RCRecord, RecordView};
use std::collections::HashMap;

verus! {

broadcast use vstd::std_specs::hash::group_hash_axioms;

/// The number of record slots in one chunk.
pub const CHUNK_SIZE: usize = 65536;

/// One fixed-size chunk of stored records.
pub struct IdChunk {
    pub chunk: Vec<RCRecord>,
}

/// The id-ordered store: chunks are append-only and all but the last are
/// full.
pub struct ChunkedIdStore {
    pub chunk_vec: Vec<IdChunk>,
}

impl ChunkedIdStore {
    /// The number of records stored.
    pub open spec fn total_len(&self) -> int {
        if self.chunk_vec@.len() == 0 {
            0
        } else {
            (self.chunk_vec@.len() - 1) * 65536 + self.chunk_vec@.last().chunk@.len()
        }
    }

    /// The record stored under id `i`.
    pub open spec fn rec_at(&self, i: int) -> RecordView {
        self.chunk_vec@[i / 65536].chunk@[i % 65536]@
    }

    /// The stored records in id order.
    pub open spec fn view_seq(&self) -> Seq<RecordView> {
        Seq::new(self.total_len() as nat, |i: int| self.rec_at(i))
    }

    /// All chunks but the last are full; the last is neither empty nor
    /// over-full.
    pub open spec fn wf(&self) -> bool {
        &&& (forall|c: int|
            0 <= c < self.chunk_vec@.len() - 1 ==> (#[trigger] self.chunk_vec@[c].chunk@.len())
                == 65536)
        &&& (self.chunk_vec@.len() > 0 ==> 1 <= self.chunk_vec@.last().chunk@.len() <= 65536)
    }

    pub fn new() -> (r: ChunkedIdStore)
        ensures
            r.wf(),
            r.total_len() == 0,
    {
        ChunkedIdStore { chunk_vec: Vec::new() }
    }

    /// Where id `i` falls, for an id below the total length.
    proof fn lemma_addr(&self, i: int)
        requires
            self.wf(),
            0 <= i < self.total_len(),
        ensures
            0 <= i / 65536 < self.chunk_vec@.len(),
            0 <= i % 65536 < self.chunk_vec@[i / 65536].chunk@.len(),
    {
        let m = self.chunk_vec@.len() as int;
        assert(m > 0);
        assert(i < (m - 1) * 65536 + self.chunk_vec@.last().chunk@.len());
        assert(self.chunk_vec@.last().chunk@.len() <= 65536);
        assert(i < m * 65536) by (nonlinear_arith)
            requires
                i < (m - 1) * 65536 + 65536,
        ;
        assert(i / 65536 < m) by (nonlinear_arith)
            requires
                i < m * 65536,
                i >= 0,
                m > 0,
        ;
        assert(0 <= i % 65536 < 65536) by (nonlinear_arith)
            requires
                i >= 0,
        ;
        if i / 65536 == m - 1 {
            assert(i == (i / 65536) * 65536 + (i % 65536)) by (nonlinear_arith)
                requires
                    i >= 0,
            ;
            assert(i % 65536 == i - (m - 1) * 65536);
            assert(i % 65536 < self.chunk_vec@.last().chunk@.len());
            assert(self.chunk_vec@[i / 65536].chunk@.len() == self.chunk_vec@.last(
            ).chunk@.len());
        }
    }

    /// The total element count.
    pub fn len(&self) -> (r: usize)
        requires
            self.wf(),
            self.total_len() <= usize::MAX,
        ensures
            r == self.total_len(),
    {
        if self.chunk_vec.len() == 0 {
            return 0;
        }
        let m = self.chunk_vec.len();
        proof {
            assert((m - 1) * 65536 >= 0) by (nonlinear_arith)
                requires
                    m >= 1,
            ;
        }
        (m - 1) * CHUNK_SIZE + self.chunk_vec[m - 1].chunk.len()
    }

    /// Appends the record, returning its id: the count of records before
    /// the append.
    pub fn push(&mut self, record: RCRecord) -> (id: u32)
        requires
            old(self).wf(),
            old(self).total_len() < 0x1_0000_0000,
        ensures
            final(self).wf(),
            id == old(self).total_len(),
            final(self).view_seq() == old(self).view_seq().push(record@),
    {
        let ghost old_self = *old(self);
        let ghost rv = record@;
        let m = self.chunk_vec.len();
        let id: u32;
        if m == 0 {
            let mut chunk = IdChunk { chunk: Vec::new() };
            chunk.chunk.push(record);
            self.chunk_vec.push(chunk);
            id = 0;
            proof {
                assert(self.total_len() == 1);
                assert(self.rec_at(0) == rv);
                assert(self.view_seq() =~= old_self.view_seq().push(rv));
            }
        } else {
            let mut last = match self.chunk_vec.pop() {
                Some(c) => c,
                None => {
                    proof {
                        assert(false);
                    }
                    IdChunk { chunk: Vec::new() }
                },
            };
            if last.chunk.len() < CHUNK_SIZE {
                let off = last.chunk.len();
                last.chunk.push(record);
                self.chunk_vec.push(last);
                proof {
                    assert((m - 1) * 65536 + off < 0x1_0000_0000);
                    assert((m - 1) * 65536 >= 0) by (nonlinear_arith)
                        requires
                            m >= 1,
                    ;
                }
                id = ((m - 1) * CHUNK_SIZE + off) as u32;
                proof {
                    assert(self.chunk_vec@.len() == m);
                    assert(forall|c: int|
                        0 <= c < m - 1 ==> self.chunk_vec@[c] == old_self.chunk_vec@[c]);
                    assert(self.chunk_vec@[m - 1].chunk@ == old_self.chunk_vec@[m
                        - 1].chunk@.push(record));
                    assert(self.wf());
                    assert(self.total_len() == old_self.total_len() + 1);
                    assert(id == old_self.total_len());
                    assert forall|i: int|
                        0 <= i < self.total_len() implies self.rec_at(i) == (if i
                        < old_self.total_len() {
                        old_self.rec_at(i)
                    } else {
                        rv
                    }) by {
                        self.lemma_addr(i);
                        assert(i == (i / 65536) * 65536 + (i % 65536)) by (nonlinear_arith)
                            requires
                                i >= 0,
                        ;
                        if i / 65536 < m - 1 {
                            assert((i / 65536) * 65536 + 65536 <= (m - 1) * 65536)
                                by (nonlinear_arith)
                                requires
                                    i / 65536 < m - 1,
                            ;
                            assert(i < old_self.total_len());
                            old_self.lemma_addr(i);
                        } else {
                            assert(i / 65536 == m - 1);
                            assert(i % 65536 < off + 1);
                            if i % 65536 < off {
                                assert(i < old_self.total_len());
                                old_self.lemma_addr(i);
                                assert(self.chunk_vec@[m - 1].chunk@[i % 65536]
                                    == old_self.chunk_vec@[m - 1].chunk@[i % 65536]);
                            } else {
                                assert(i % 65536 == off);
                                assert(i == old_self.total_len());
                                assert(self.chunk_vec@[m - 1].chunk@[off as int] == record);
                            }
                        }
                    }
                    assert(self.view_seq() =~= old_self.view_seq().push(rv));
                }
            } else {
                self.chunk_vec.push(last);
                let mut chunk = IdChunk { chunk: Vec::new() };
                chunk.chunk.push(record);
                self.chunk_vec.push(chunk);
                proof {
                    assert(m * 65536 == old_self.total_len());
                    assert(m * 65536 < 0x1_0000_0000);
                    assert(m * 65536 >= 0) by (nonlinear_arith)
                        requires
                            m >= 1,
                    ;
                }
                id = (m * CHUNK_SIZE) as u32;
                proof {
                    assert(self.chunk_vec@.len() == m + 1);
                    assert(forall|c: int|
                        0 <= c < m ==> self.chunk_vec@[c] == old_self.chunk_vec@[c]);
                    assert(self.wf()) by {
                        assert(forall|c: int|
                            0 <= c < m ==> (#[trigger] self.chunk_vec@[c].chunk@.len())
                                == 65536);
                    }
                    assert(self.total_len() == old_self.total_len() + 1);
                    assert forall|i: int|
                        0 <= i < self.total_len() implies self.rec_at(i) == (if i
                        < old_self.total_len() {
                        old_self.rec_at(i)
                    } else {
                        rv
                    }) by {
                        self.lemma_addr(i);
                        assert(i == (i / 65536) * 65536 + (i % 65536)) by (nonlinear_arith)
                            requires
                                i >= 0,
                        ;
                        if i / 65536 < m {
                            assert((i / 65536) * 65536 + 65536 <= m * 65536)
                                by (nonlinear_arith)
                                requires
                                    i / 65536 < m,
                            ;
                            assert(i < old_self.total_len());
                            old_self.lemma_addr(i);
                        } else {
                            assert(i / 65536 == m);
                            assert(i % 65536 == 0);
                            assert(i == old_self.total_len());
                            assert(self.chunk_vec@[m as int].chunk@[0] == record);
                        }
                    }
                    assert(self.view_seq() =~= old_self.view_seq().push(rv));
                }
            }
        }
        id
    }

    /// The record stored under `id`, or nothing for an unused id.
    pub fn get(&self, id: u32) -> (r: Option<RCRecord>)
        requires
            self.wf(),
        ensures
            (match r {
                Some(rec) => (id as int) < self.total_len() && rec@ == self.view_seq()[id as int],
                None => (id as int) >= self.total_len(),
            }),
    {
        let upper = (id / 65536) as usize;
        let lower = (id % 65536) as usize;
        if upper >= self.chunk_vec.len() {
            proof {
                if (id as int) < self.total_len() {
                    self.lemma_addr(id as int);
                }
            }
            return None;
        }
        if lower >= self.chunk_vec[upper].chunk.len() {
            proof {
                if (id as int) < self.total_len() {
                    self.lemma_addr(id as int);
                }
            }
            return None;
        }
        proof {
            // an in-range chunk and offset mean the id is below the total
            let m = self.chunk_vec@.len() as int;
            assert(id as int == upper * 65536 + lower) by (nonlinear_arith)
                requires
                    upper == (id as int) / 65536,
                    lower == (id as int) % 65536,
                    id >= 0,
            ;
            if upper < m - 1 {
                assert((upper + 1) * 65536 <= (m - 1) * 65536) by (nonlinear_arith)
                    requires
                        upper + 1 <= m - 1,
                ;
                assert(self.chunk_vec@.last().chunk@.len() >= 1);
                assert((id as int) < self.total_len());
            } else {
                assert(upper == m - 1);
                assert((id as int) < self.total_len());
            }
        }
        Some(self.chunk_vec[upper].chunk[lower].duplicate())
    }
}

/// One step of the polynomial content hash, modulo 2^64.
pub open spec fn mix(h: int, c: int) -> int {
    (h * 31 + c) % 0x1_0000_0000_0000_0000
}

/// The hash of a character sequence folded onto the accumulator `h0`.
pub open spec fn hash_chars(s: Seq<char>, h0: int) -> int
    decreases s.len(),
{
    if s.len() == 0 {
        h0
    } else {
        hash_chars(s.skip(1), mix(h0, s[0] as u32 as int))
    }
}

/// The hash of one label pair folded onto `h0`: lengths are mixed in so
/// differently split pairs hash differently.
pub open spec fn hash_pair(p: (Seq<char>, Seq<char>), h0: int) -> int {
    hash_chars(p.1, mix(hash_chars(p.0, mix(h0, p.0.len() as int)), p.1.len() as int))
}

/// The pairs of a record folded onto `h0`, first pair first.
pub open spec fn hash_pairs(r: RecordView, h0: int) -> int
    decreases r.len(),
{
    if r.len() == 0 {
        h0
    } else {
        hash_pairs(r.skip(1), hash_pair(r[0], h0))
    }
}

/// The 64-bit content hash of a record: equal content gives equal hashes,
/// which is all the dedup map relies on.
pub open spec fn record_hash(r: RecordView) -> int {
    hash_pairs(r, 0)
}


/// Folds the characters of `s` onto the accumulator.
fn mix_chars(s: &str, h0: u64) -> (h: u64)
    ensures
        h as int == hash_chars(s@, h0 as int),
{
    let n = s.unicode_len();
    let mut h = h0;
    let mut i: usize = 0;
    proof {
        assert(s@.skip(0) =~= s@);
    }
    while i < n
        invariant
            i <= n,
            n == s@.len(),
            hash_chars(s@, h0 as int) == hash_chars(s@.skip(i as int), h as int),
        decreases n - i,
    {
        let c = s.get_char(i);
        let t: u128 = (h as u128) * 31 + (c as u128);
        let ghost hprev = h;
        let t2 = t % 0x1_0000_0000_0000_0000u128;
        h = t2 as u64;
        proof {
            assert(s@.skip(i as int)[0] == s@[i as int]);
            assert(s@.skip(i as int).skip(1) =~= s@.skip(i + 1));
            assert((c as u128) as int == (c as u32) as int);
            assert(t as int == (hprev as int) * 31 + (c as u32) as int);
            assert(t2 as int == (t as int) % 0x1_0000_0000_0000_0000);
            assert(h as int == t2 as int);
            assert(h as int == mix(hprev as int, s@[i as int] as u32 as int));
            assert(hash_chars(s@.skip(i as int), hprev as int) == hash_chars(
                s@.skip(i + 1),
                mix(hprev as int, s@[i as int] as u32 as int),
            ));
        }
        i = i + 1;
    }
    h
}

/// The content hash of a record, over its pairs in order.
fn compute_record_hash(rec: &RCRecord) -> (h: u64)
    ensures
        h as int == record_hash(rec@),
{
    let n = rec.label_pairs.len();
    let mut h: u64 = 0;
    let mut i: usize = 0;
    proof {
        assert(rec@.skip(0) =~= rec@);
    }
    while i < n
        invariant
            i <= n,
            n == rec@.len(),
            record_hash(rec@) == hash_pairs(rec@.skip(i as int), h as int),
        decreases n - i,
    {
        let pair = &rec.label_pairs[i];
        proof {
            assert(rec@.skip(i as int)[0] == rec@[i as int]);
            assert(rec@.skip(i as int).skip(1) =~= rec@.skip(i + 1));
            assert(rec@[i as int] == (pair.key@, pair.val@));
        }
        let klen = pair.key.unicode_len();
        let t1: u128 = ((h as u128) * 31 + (klen as u128)) % 0x1_0000_0000_0000_0000u128;
        let h1 = t1 as u64;
        let h2 = mix_chars(pair.key.as_str(), h1);
        let vlen = pair.val.unicode_len();
        let t2: u128 = ((h2 as u128) * 31 + (vlen as u128)) % 0x1_0000_0000_0000_0000u128;
        let h3 = t2 as u64;
        let h4 = mix_chars(pair.val.as_str(), h3);
        proof {
            assert(h4 as int == hash_pair(rec@[i as int], h as int));
        }
        h = h4;
        i = i + 1;
    }
    h
}

/// What adding a record to a store holding `s` yields: an unchanged store
/// and no id for a duplicate, else the extended store and the next id.
pub open spec fn add_outcome(s: Seq<RecordView>, r: RecordView) -> (Seq<RecordView>, Option<int>) {
    if exists|i: int| 0 <= i < s.len() && s[i] == r {
        (s, None)
    } else {
        (s.push(r), Some(s.len() as int))
    }
}

/// Per-store statistics: the dedup map's entry count and the id store's
/// record count.
pub struct RecordStoreStatus {
    pub hash_store_size: usize,
    pub id_store_size: usize,
}

/// The record store of one shard: the id-ordered chunks and the dedup map
/// from content hash to the ids of the records bearing that hash.
pub struct RecordStore {
    pub id_store: ChunkedIdStore,
    pub hash_store: HashMap<u64, Vec<u32>>,
}

impl RecordStore {
    /// The stored records in id order.
    pub open spec fn view_seq(&self) -> Seq<RecordView> {
        self.id_store.view_seq()
    }

    /// Whether a structurally equal record is already stored.
    pub open spec fn holds_record(&self, r: RecordView) -> bool {
        exists|i: int| 0 <= i < self.view_seq().len() && self.view_seq()[i] == r
    }

    /// The dedup map is exactly right: every bucket holds valid ids whose
    /// records bear the bucket's hash, every stored record is in its
    /// bucket, and no two stored records are equal.
    pub open spec fn wf(&self) -> bool {
        &&& self.id_store.wf()
        &&& self.id_store.total_len() < 0x1_0000_0000
        &&& (forall|h: u64, t: int|
            self.hash_store@.contains_key(h) && 0 <= t < self.hash_store@[h]@.len() ==> (
            #[trigger] self.hash_store@[h]@[t]) < self.view_seq().len() && record_hash(
                self.view_seq()[self.hash_store@[h]@[t] as int],
            ) == h as int)
        &&& (forall|i: int|
            0 <= i < self.view_seq().len() ==> self.hash_store@.contains_key(
                ((#[trigger] record_hash(self.view_seq()[i])) as u64),
            ) && self.hash_store@[record_hash(self.view_seq()[i]) as u64]@.contains(i as u32))
        &&& (forall|i: int, j: int|
            0 <= i < j < self.view_seq().len() ==> self.view_seq()[i] != self.view_seq()[j])
    }

    pub fn new() -> (r: RecordStore)
        ensures
            r.wf(),
            r.view_seq().len() == 0,
    {
        RecordStore { id_store: ChunkedIdStore::new(), hash_store: HashMap::new() }
    }

    /// Stores the record unless an equal one is present: the new id (the
    /// count of records before the insert) and a copy of the stored
    /// record, or nothing for a duplicate.
    pub fn add(&mut self, record: RCRecord) -> (r: Option<(u32, RCRecord)>)
        requires
            old(self).wf(),
            old(self).view_seq().len() + 1 < 0x1_0000_0000,
        ensures
            final(self).wf(),
            (match r {
                Some((id, stored)) => {
                    &&& !old(self).holds_record(record@)
                    &&& id == old(self).view_seq().len()
                    &&& stored@ == record@
                    &&& final(self).view_seq() == old(self).view_seq().push(record@)
                },
                None => {
                    &&& old(self).holds_record(record@)
                    &&& *final(self) == *old(self)
                },
            }),
            (match r {
                Some((id, _)) => add_outcome(old(self).view_seq(), record@) == (
                    final(self).view_seq(),
                    Some(id as int),
                ),
                None => add_outcome(old(self).view_seq(), record@) == (
                    final(self).view_seq(),
                    None::<int>,
                ),
            }),
    {
        let ghost old_self = *old(self);
        let ghost rv = record@;
        let h = compute_record_hash(&record);
        let bucket_opt = self.hash_store.get(&h);
        match bucket_opt {
            Some(bucket) => {
                let m = bucket.len();
                let mut t: usize = 0;
                while t < m
                    invariant
                        t <= m,
                        self.wf(),
                        *self == old_self,
                        h as int == record_hash(rv),
                        rv == record@,
                        self.hash_store@.contains_key(h),
                        bucket@ == self.hash_store@[h]@,
                        m == bucket@.len(),
                        forall|u: int|
                            0 <= u < t ==> self.view_seq()[#[trigger] bucket@[u] as int]
                                != rv,
                    decreases m - t,
                {
                    let cand_id = bucket[t];
                    match self.id_store.get(cand_id) {
                        Some(cand) => {
                            if cand.content_eq(&record) {
                                proof {
                                    assert(self.view_seq()[cand_id as int] == rv);
                                    assert(self.holds_record(rv));
                                }
                                return None;
                            }
                        },
                        None => {
                            proof {
                                assert(false);
                            }
                        },
                    }
                    t = t + 1;
                }
                proof {
                    assert(!old_self.holds_record(rv)) by {
                        if old_self.holds_record(rv) {
                            let i = choose|i: int|
                                0 <= i < old_self.view_seq().len() && old_self.view_seq()[i]
                                    == rv;
                            assert(record_hash(old_self.view_seq()[i]) == h as int);
                            assert(old_self.hash_store@[h]@.contains(i as u32));
                            let u = choose|u: int|
                                0 <= u < old_self.hash_store@[h]@.len()
                                    && old_self.hash_store@[h]@[u] == i as u32;
                            assert(old_self.view_seq()[bucket@[u] as int] != rv);
                        }
                    }
                }
            },
            None => {
                proof {
                    assert(!old_self.holds_record(rv)) by {
                        if old_self.holds_record(rv) {
                            let i = choose|i: int|
                                0 <= i < old_self.view_seq().len() && old_self.view_seq()[i]
                                    == rv;
                            assert(record_hash(old_self.view_seq()[i]) == h as int);
                            assert(old_self.hash_store@.contains_key(h));
                        }
                    }
                }
            },
        }
        // not a duplicate: store it and register the id in its bucket
        let stored = record.duplicate();
        let id = self.id_store.push(record);
        let mut bucket: Vec<u32> = match self.hash_store.get(&h) {
            Some(b) => b.clone(),
            None => Vec::new(),
        };
        let ghost bucket0 = bucket@;
        bucket.push(id);
        self.hash_store.insert(h, bucket);
        proof {
            let cur = *self;
            assert(cur.view_seq() =~= old_self.view_seq().push(rv));
            assert(cur.view_seq()[id as int] == rv);
            assert(forall|i: int|
                0 <= i < old_self.view_seq().len() ==> cur.view_seq()[i]
                    == old_self.view_seq()[i]);
            assert(cur.hash_store@[h]@ == bucket0.push(id));
            assert(forall|hh: u64| hh != h && old_self.hash_store@.contains_key(hh) ==> cur.hash_store@.contains_key(hh) && cur.hash_store@[hh] == old_self.hash_store@[hh]);
            assert(forall|hh: u64| hh != h && cur.hash_store@.contains_key(hh) ==> old_self.hash_store@.contains_key(hh));
            assert(cur.wf()) by {
                assert forall|hh: u64, t: int|
                    cur.hash_store@.contains_key(hh) && 0 <= t < cur.hash_store@[hh]@.len()
                    implies (#[trigger] cur.hash_store@[hh]@[t]) < cur.view_seq().len()
                    && record_hash(cur.view_seq()[cur.hash_store@[hh]@[t] as int]) == hh as int by {
                    if hh == h {
                        assert(cur.hash_store@[hh]@ == bucket0.push(id));
                        if t < bucket0.len() {
                            assert(old_self.hash_store@.contains_key(h));
                            assert(bucket0[t] == old_self.hash_store@[h]@[t]);
                        } else {
                            assert(cur.hash_store@[hh]@[t] == id);
                        }
                    } else {
                        assert(cur.hash_store@[hh]@ == old_self.hash_store@[hh]@);
                    }
                }
                assert forall|i: int|
                    0 <= i < cur.view_seq().len() implies cur.hash_store@.contains_key(
                    ((#[trigger] record_hash(cur.view_seq()[i])) as u64),
                ) && cur.hash_store@[record_hash(cur.view_seq()[i]) as u64]@.contains(
                    i as u32,
                ) by {
                    if i < old_self.view_seq().len() {
                        let hh = record_hash(old_self.view_seq()[i]) as u64;
                        assert(old_self.hash_store@.contains_key(hh));
                        assert(old_self.hash_store@[hh]@.contains(i as u32));
                        if hh == h {
                            assert(cur.hash_store@[hh]@ == bucket0.push(id));
                            let u = choose|u: int|
                                0 <= u < bucket0.len() && bucket0[u] == i as u32;
                            assert(cur.hash_store@[hh]@[u] == i as u32);
                        } else {
                            assert(cur.hash_store@[hh]@ == old_self.hash_store@[hh]@);
                        }
                    } else {
                        assert(i == id as int);
                        assert(record_hash(cur.view_seq()[i]) == h as int);
                        assert(cur.hash_store@[h]@ == bucket0.push(id));
                        assert(cur.hash_store@[h]@[bucket0.len() as int] == id);
                    }
                }
                assert forall|i: int, j: int|
                    0 <= i < j < cur.view_seq().len() implies cur.view_seq()[i]
                    != cur.view_seq()[j] by {
                    if j == id as int {
                        assert(cur.view_seq()[j] == rv);
                        assert(!old_self.holds_record(rv));
                        if cur.view_seq()[i] == rv {
                            assert(old_self.view_seq()[i] == rv);
                        }
                    }
                }
            }
        }
        Some((id, stored))
    }

    /// The record stored under `id`, or nothing for an unused id.
    pub fn get(&self, id: u32) -> (r: Option<RCRecord>)
        requires
            self.wf(),
        ensures
            (match r {
                Some(rec) => (id as int) < self.view_seq().len() && rec@ == self.view_seq()[id as int],
                None => (id as int) >= self.view_seq().len(),
            }),
    {
        self.id_store.get(id)
    }

    /// Best-effort batch lookup: per-id lookups in input order, with
    /// unused ids silently skipped.  The in-range corollaries below follow
    /// from the filter but are stated directly for callers that know every
    /// id is valid.
    pub fn multi_get(&self, ids: Vec<u32>) -> (r: Vec<RCRecord>)
        requires
            self.wf(),
        ensures
            r@.map_values(|rec: RCRecord| rec@) == ids@.filter(
                |id: u32| (id as int) < self.view_seq().len(),
            ).map_values(|id: u32| self.view_seq()[id as int]),
            r@.len() <= ids@.len(),
            (forall|i: int|
                0 <= i < ids@.len() ==> (#[trigger] ids@[i] as int) < self.view_seq().len())
                ==> r@.len() == ids@.len() && (forall|i: int|
                0 <= i < ids@.len() ==> (#[trigger] r@[i])@ == self.view_seq()[ids@[i] as int]),
    {
        let ghost pred = |id: u32| (id as int) < self.view_seq().len();
        let ghost f = |id: u32| self.view_seq()[id as int];
        let ghost rv = |rec: RCRecord| rec@;
        let mut out: Vec<RCRecord> = Vec::new();
        let n = ids.len();
        let mut i: usize = 0;
        let mut all_hit = true;
        proof {
            reveal(Seq::filter);
            assert(ids@.take(0) =~= Seq::<u32>::empty());
            assert(out@.map_values(rv) =~= ids@.take(0).filter(pred).map_values(f));
        }
        while i < n
            invariant
                i <= n,
                n == ids@.len(),
                self.wf(),
                pred == (|id: u32| (id as int) < self.view_seq().len()),
                f == (|id: u32| self.view_seq()[id as int]),
                rv == (|rec: RCRecord| rec@),
                out@.map_values(rv) == ids@.take(i as int).filter(pred).map_values(f),
                out@.len() <= i,
                all_hit ==> out@.len() == i && (forall|j: int|
                    0 <= j < i ==> (#[trigger] ids@[j] as int) < self.view_seq().len() && out@[
                    j]@ == self.view_seq()[ids@[j] as int]),
                !all_hit ==> (exists|j: int|
                    0 <= j < i && (#[trigger] ids@[j] as int) >= self.view_seq().len()),
            decreases n - i,
        {
            let ghost out0 = out@;
            let ghost taken = ids@.take(i as int);
            let ghost taken1 = ids@.take(i + 1);
            proof {
                reveal(Seq::filter);
                assert(taken1.drop_last() =~= taken);
                assert(taken1.last() == ids@[i as int]);
            }
            match self.get(ids[i]) {
                Some(rec) => {
                    proof {
                        assert(pred(ids@[i as int]));
                    }
                    out.push(rec);
                    proof {
                        reveal(Seq::filter);
                        assert(taken1.filter(pred) == taken.filter(pred).push(
                            ids@[i as int],
                        ));
                        assert(out@.map_values(rv) =~= out0.map_values(rv).push(
                            rv(out@.last()),
                        ));
                        assert(taken.filter(pred).push(ids@[i as int]).map_values(f)
                            =~= taken.filter(pred).map_values(f).push(f(ids@[i as int])));
                        assert(out@.map_values(rv) =~= taken1.filter(pred).map_values(f));
                    }
                },
                None => {
                    all_hit = false;
                    proof {
                        reveal(Seq::filter);
                        assert(!pred(ids@[i as int]));
                        assert(taken1.filter(pred) == taken.filter(pred));
                    }
                },
            }
            i = i + 1;
        }
        proof {
            assert(ids@.take(n as int) =~= ids@);
            if !all_hit {
                let j = choose|j: int|
                    0 <= j < n && (#[trigger] ids@[j] as int) >= self.view_seq().len();
            }
        }
        out
    }

    /// The first `limit` records in id order.
    pub fn get_all(&self, limit: usize) -> (r: Vec<RCRecord>)
        requires
            self.wf(),
        ensures
            r@.len() == (if limit <= self.view_seq().len() {
                limit as int
            } else {
                self.view_seq().len() as int
            }),
            forall|i: int| 0 <= i < r@.len() ==> (#[trigger] r@[i])@ == self.view_seq()[i],
    {
        let total = self.id_store.len();
        let n = if limit < total {
            limit
        } else {
            total
        };
        let mut out: Vec<RCRecord> = Vec::new();
        let mut i: usize = 0;
        while i < n
            invariant
                i <= n,
                n <= self.view_seq().len(),
                n == (if limit <= self.view_seq().len() {
                    limit as int
                } else {
                    self.view_seq().len() as int
                }),
                self.wf(),
                out@.len() == i,
                forall|j: int| 0 <= j < i ==> (#[trigger] out@[j])@ == self.view_seq()[j],
            decreases n - i,
        {
            match self.id_store.get(i as u32) {
                Some(rec) => {
                    out.push(rec);
                },
                None => {
                    proof {
                        assert(false);
                    }
                },
            }
            i = i + 1;
        }
        out
    }

    pub fn get_status(&self) -> (r: RecordStoreStatus)
        requires
            self.wf(),
        ensures
            r.id_store_size == self.view_seq().len(),
            r.hash_store_size == self.hash_store@.dom().len(),
    {
        RecordStoreStatus {
            hash_store_size: self.hash_store.len(),
            id_store_size: self.id_store.len(),
        }
    }
}

} // verus!
