//! One shard's storage engine: the record store, the inverted index, and
//! the symbol table, kept consistent with each other.
//!
//! The invariant `wf` is the engine's central promise: the index holds an
//! id in the posting set of `(k, v)` exactly when the stored record with
//! that id holds the pair `(k, v)`.  Every mutation below preserves it,
//! so a search answered from posting bitmaps agrees with a linear scan of
//! the store.

use vstd::prelude::*;
use crate::index::{vals_contain, Index, IndexStatus, KeyValuesSearchResult};
use crate::interner::Interner;
use crate::lexer::{parse_record, sp_parse_record};
use crate::query::{fields_view, record_matches, FieldView, KeyValuesSearch, Search};
use crate::record::{first_pair_val, record_has_key, record_has_pair, RCLabelPair, RCRecord,
    Record, RecordView};
use crate::store::{RecordStore, RecordStoreStatus};

verus! {

/// The match-all cap: an empty selector materializes at most this many
/// records.
pub const MATCH_ALL_LIMIT: usize = 10000;

/// Per-shard statistics.
pub struct SingleStorageBackendStatus {
    pub store_status: RecordStoreStatus,
    pub index_status: IndexStatus,
}

/// A shard's status as reported through the dispatcher, tagged with the
/// shard's position.
pub struct ShardedStorageBackendStatus {
    pub shard_status: SingleStorageBackendStatus,
    pub shard_id: u16,
}

/// One shard: a record store, its inverted index, and its symbol table.
pub struct SingleStorageBackend {
    pub store: RecordStore,
    pub index: Index,
    pub symbol_store: Interner,
}

impl SingleStorageBackend {
    /// The stored records in id order.
    pub open spec fn recs(&self) -> Seq<RecordView> {
        self.store.view_seq()
    }

    /// Store, index and symbol table each well formed, and the index in
    /// exact correspondence with the store: a key or pair is indexed
    /// exactly when some stored record holds it, and an id sits in the
    /// posting set of `(k, v)` exactly when its record holds that pair.
    pub open spec fn wf(&self) -> bool {
        &&& self.store.wf()
        &&& self.index.wf()
        &&& self.symbol_store.wf()
        &&& (forall|k: Seq<char>|
            #[trigger] self.index.has_key(k) == (exists|i: int|
                0 <= i < self.recs().len() && record_has_key(#[trigger] self.recs()[i], k)))
        &&& (forall|k: Seq<char>, v: Seq<char>|
            #[trigger] self.index.has_pair(k, v) == (exists|i: int|
                0 <= i < self.recs().len() && record_has_pair(
                    #[trigger] self.recs()[i],
                    k,
                    v,
                )))
        &&& (forall|k: Seq<char>, v: Seq<char>, x: u32|
            #[trigger] self.index.pair_postings(k, v).contains(x) == ((x as int)
                < self.recs().len() && record_has_pair(self.recs()[x as int], k, v)))
    }

    pub fn new() -> (r: SingleStorageBackend)
        ensures
            r.wf(),
            r.recs().len() == 0,
    {
        SingleStorageBackend {
            store: RecordStore::new(),
            index: Index::new(),
            symbol_store: Interner::new(),
        }
    }

    /// The stored form of a parsed record: every key and value drawn from
    /// the symbol table, spelling exactly what the input spelled.
    fn new_rcrecord_from(&mut self, record: &Record) -> (r: RCRecord)
        requires
            old(self).symbol_store.wf(),
        ensures
            final(self).symbol_store.wf(),
            final(self).store == old(self).store,
            final(self).index == old(self).index,
            r@ == record@,
    {
        let mut pairs: Vec<RCLabelPair> = Vec::new();
        let n = record.label_pairs.len();
        let mut i: usize = 0;
        while i < n
            invariant
                i <= n,
                n == record@.len(),
                self.symbol_store.wf(),
                self.store == old(self).store,
                self.index == old(self).index,
                pairs@.len() == i,
                forall|j: int| 0 <= j < i ==> (#[trigger] pairs@[j])@ == record@[j],
            decreases n - i,
        {
            let key = self.symbol_store.intern(&record.label_pairs[i].key);
            let val = self.symbol_store.intern(&record.label_pairs[i].val);
            proof {
                assert(record@[i as int] == (record.label_pairs@[i as int].key@,
                record.label_pairs@[i as int].val@));
            }
            pairs.push(RCLabelPair { key, val });
            i = i + 1;
        }
        let r = RCRecord { label_pairs: pairs };
        proof {
            assert(r@ =~= record@);
        }
        r
    }

    /// Interns, deduplicates and indexes one record: the new id, or
    /// nothing for a duplicate, which changes neither store nor index.
    pub fn add(&mut self, record: Record) -> (r: Option<u32>)
        requires
            old(self).wf(),
            old(self).recs().len() + 1 < 0x1_0000_0000,
        ensures
            final(self).wf(),
            (match r {
                Some(id) => {
                    &&& !(exists|i: int|
                        0 <= i < old(self).recs().len() && old(self).recs()[i] == record@)
                    &&& id == old(self).recs().len()
                    &&& final(self).recs() == old(self).recs().push(record@)
                },
                None => {
                    &&& (exists|i: int|
                        0 <= i < old(self).recs().len() && old(self).recs()[i] == record@)
                    &&& final(self).store == old(self).store
                    &&& final(self).index == old(self).index
                },
            }),
    {
        let ghost orig = *old(self);
        let new_record = self.new_rcrecord_from(&record);
        let tuple = self.store.add(new_record);
        match tuple {
            Some((id, stored)) => {
                self.index.insert_record(id, &stored);
                proof {
                    let cur = *self;
                    assert(cur.recs() == orig.recs().push(record@));
                    assert(cur.recs()[id as int] == record@);
                    assert(forall|i: int|
                        0 <= i < orig.recs().len() ==> cur.recs()[i] == orig.recs()[i]);
                    assert(cur.wf()) by {
                        assert forall|k: Seq<char>| #[trigger]
                            cur.index.has_key(k) == (exists|i: int|
                                0 <= i < cur.recs().len() && record_has_key(
                                    #[trigger] cur.recs()[i],
                                    k,
                                )) by {
                            if cur.index.has_key(k) {
                                if orig.index.has_key(k) {
                                    let i = choose|i: int|
                                        0 <= i < orig.recs().len() && record_has_key(
                                            #[trigger] orig.recs()[i],
                                            k,
                                        );
                                    assert(record_has_key(cur.recs()[i], k));
                                } else {
                                    assert(record_has_key(cur.recs()[id as int], k));
                                }
                            }
                            if exists|i: int|
                                0 <= i < cur.recs().len() && record_has_key(
                                    #[trigger] cur.recs()[i],
                                    k,
                                ) {
                                let i = choose|i: int|
                                    0 <= i < cur.recs().len() && record_has_key(
                                        #[trigger] cur.recs()[i],
                                        k,
                                    );
                                if i < orig.recs().len() {
                                    assert(record_has_key(orig.recs()[i], k));
                                    assert(orig.index.has_key(k));
                                } else {
                                    assert(record_has_key(record@, k));
                                }
                                assert(cur.index.has_key(k));
                            }
                        }
                        assert forall|k: Seq<char>, v: Seq<char>| #[trigger]
                            cur.index.has_pair(k, v) == (exists|i: int|
                                0 <= i < cur.recs().len() && record_has_pair(
                                    #[trigger] cur.recs()[i],
                                    k,
                                    v,
                                )) by {
                            if cur.index.has_pair(k, v) {
                                if orig.index.has_pair(k, v) {
                                    let i = choose|i: int|
                                        0 <= i < orig.recs().len() && record_has_pair(
                                            #[trigger] orig.recs()[i],
                                            k,
                                            v,
                                        );
                                    assert(record_has_pair(cur.recs()[i], k, v));
                                } else {
                                    assert(record_has_pair(cur.recs()[id as int], k, v));
                                }
                            }
                            if exists|i: int|
                                0 <= i < cur.recs().len() && record_has_pair(
                                    #[trigger] cur.recs()[i],
                                    k,
                                    v,
                                ) {
                                let i = choose|i: int|
                                    0 <= i < cur.recs().len() && record_has_pair(
                                        #[trigger] cur.recs()[i],
                                        k,
                                        v,
                                    );
                                if i < orig.recs().len() {
                                    assert(record_has_pair(orig.recs()[i], k, v));
                                    assert(orig.index.has_pair(k, v));
                                } else {
                                    assert(record_has_pair(record@, k, v));
                                }
                                assert(cur.index.has_pair(k, v));
                            }
                        }
                        assert forall|k: Seq<char>, v: Seq<char>, x: u32| #[trigger]
                            cur.index.pair_postings(k, v).contains(x) == ((x as int)
                                < cur.recs().len() && record_has_pair(
                                cur.recs()[x as int],
                                k,
                                v,
                            )) by {
                            assert(cur.index.pair_postings(k, v).contains(x)
                                == (orig.index.pair_postings(k, v).contains(x) || (x == id
                                && record_has_pair(record@, k, v))));
                            if (x as int) < cur.recs().len() {
                                if (x as int) < orig.recs().len() {
                                    assert(cur.recs()[x as int] == orig.recs()[x as int]);
                                } else {
                                    assert(x == id);
                                    assert(cur.recs()[x as int] == record@);
                                }
                            }
                        }
                    }
                }
                Some(id)
            },
            None => None,
        }
    }

    /// Parses one ingest line and adds the record: the add outcome, or
    /// the parse error for the caller to log.
    pub fn raw_add(&mut self, line: &str) -> (r: Result<Option<u32>, String>)
        requires
            old(self).wf(),
            old(self).recs().len() + 1 < 0x1_0000_0000,
        ensures
            final(self).wf(),
            (r matches Err(_)) == (sp_parse_record(line@) is None),
            (match r {
                Ok(opt) => {
                    let rv = sp_parse_record(line@)->Some_0;
                    match opt {
                        Some(id) => !(exists|i: int|
                            0 <= i < old(self).recs().len() && old(self).recs()[i] == rv)
                            && id == old(self).recs().len() && final(self).recs() == old(
                            self,
                        ).recs().push(rv),
                        None => (exists|i: int|
                            0 <= i < old(self).recs().len() && old(self).recs()[i] == rv)
                            && final(self).store == old(self).store,
                    }
                },
                Err(_) => *final(self) == *old(self),
            }),
    {
        match parse_record(line) {
            Ok(rec) => Ok(self.add(rec)),
            Err(e) => Err(e),
        }
    }

    /// Whether some stored record equals `rv` and matches the selector.
    pub open spec fn stored_matching(&self, query: &Search, rv: RecordView) -> bool {
        exists|i: int|
            0 <= i < self.recs().len() && #[trigger] self.recs()[i] == rv && record_matches(
                rv,
                fields_view(query.search_fields@),
            )
    }

    /// Whether some returned record equals `rv`.
    pub open spec fn in_results(recs: Seq<RCRecord>, rv: RecordView) -> bool {
        exists|t: int| 0 <= t < recs.len() && (#[trigger] recs[t])@ == rv
    }

    /// What a non-match-all search result promises: every returned record
    /// is a stored matching record, and every stored matching record is
    /// returned.
    pub open spec fn search_result_ok(&self, query: &Search, recs: Seq<RCRecord>) -> bool {
        &&& (forall|t: int|
            0 <= t < recs.len() ==> self.stored_matching(query, (#[trigger] recs[t])@))
        &&& (forall|i: int|
            0 <= i < self.recs().len() && record_matches(
                #[trigger] self.recs()[i],
                fields_view(query.search_fields@),
            ) ==> Self::in_results(recs, self.recs()[i]))
    }

    /// Answers a selector: every stored record for a match-all selector
    /// (capped), else the records whose ids the index yields, in
    /// ascending id order.
    pub fn search(&self, search_query: &Search) -> (r: Result<Vec<RCRecord>, String>)
        requires
            self.wf(),
        ensures
            (r matches Err(_)) == self.index.search_err(fields_view(search_query.search_fields@)),
            (match r {
                Ok(recs) => {
                    if search_query.search_fields@.len() == 0 {
                        recs@.len() == (if MATCH_ALL_LIMIT as int <= self.recs().len() {
                            MATCH_ALL_LIMIT as int
                        } else {
                            self.recs().len() as int
                        }) && (forall|t: int|
                            0 <= t < recs@.len() ==> (#[trigger] recs@[t])@ == self.recs()[t])
                    } else {
                        self.search_result_ok(search_query, recs@)
                    }
                },
                Err(_) => true,
            }),
    {
        let ghost fv = fields_view(search_query.search_fields@);
        if search_query.is_match_all() {
            proof {
                assert(!self.index.search_err(fv));
            }
            return Ok(self.store.get_all(MATCH_ALL_LIMIT));
        }
        let ids = match self.index.search(search_query) {
            Ok(ids) => ids,
            Err(e) => {
                return Err(e);
            },
        };
        proof {
            self.lemma_hit_is_match(fv);
            assert forall|t: int|
                0 <= t < ids@.len() implies (#[trigger] ids@[t] as int) < self.recs().len() by {
                assert(ids@.contains(ids@[t]));
                assert(self.index.search_hit(fv, ids@[t]));
            }
        }
        let recs = self.store.multi_get(ids);
        proof {
            let ghost idsv = ids@;
            assert forall|t: int|
                0 <= t < recs@.len() implies self.stored_matching(
                search_query,
                (#[trigger] recs@[t])@,
            ) by {
                assert(recs@[t]@ == self.recs()[idsv[t] as int]);
                assert(idsv.contains(idsv[t]));
                assert(self.index.search_hit(fv, idsv[t]));
                assert(record_matches(
                    self.recs()[idsv[t] as int],
                    fields_view(search_query.search_fields@),
                ));
            }
            assert forall|i: int|
                0 <= i < self.recs().len() && record_matches(
                    #[trigger] self.recs()[i],
                    fields_view(search_query.search_fields@),
                ) implies Self::in_results(recs@, self.recs()[i]) by {
                assert(record_matches(self.recs()[i], fv));
                assert(self.index.search_hit(fv, i as u32));
                assert(idsv.contains(i as u32));
                let t = choose|t: int| 0 <= t < idsv.len() && idsv[t] == i as u32;
                assert(recs@[t]@ == self.recs()[i]);
            }
            assert(self.search_result_ok(search_query, recs@));
        }
        Ok(recs)
    }

    /// Under the engine invariant, the index admits an id for a selector
    /// exactly when the stored record with that id matches it.
    pub proof fn lemma_hit_is_match(&self, fields: Seq<FieldView>)
        requires
            self.wf(),
        ensures
            forall|x: u32|
                #[trigger] self.index.search_hit(fields, x) == (fields.len() > 0 && (
                x as int) < self.recs().len() && record_matches(self.recs()[x as int], fields)),
    {
        assert forall|x: u32|
            #[trigger] self.index.search_hit(fields, x) == (fields.len() > 0 && (x as int)
                < self.recs().len() && record_matches(self.recs()[x as int], fields)) by {
            if self.index.search_hit(fields, x) {
                assert(fields.len() > 0);
                assert(self.index.field_result_contains(fields[0], x));
                assert((x as int) < self.recs().len()) by {
                    let f = fields[0];
                    match f.2 {
                        crate::query::Operation::Eq => {
                            assert(self.index.pair_postings(f.0, f.1).contains(x));
                        },
                        crate::query::Operation::Re => {
                            let fld = self.index.field_at(f.0);
                            assert(fld.re_hit(f.1, x));
                            let i = choose|i: int|
                                0 <= i < fld.vals().len() && crate::matcher::accepts(
                                    f.1,
                                    #[trigger] fld.vals()[i],
                                ) && fld.postings_at(i).contains(x);
                            fld.lemma_val_idx_unique(i);
                            assert(self.index.pair_postings(f.0, fld.vals()[i]).contains(
                                x,
                            ));
                        },
                    }
                }
                assert forall|j: int|
                    0 <= j < fields.len() implies crate::query::field_matches(
                    self.recs()[x as int],
                    #[trigger] fields[j],
                ) by {
                    self.lemma_field_hit(fields[j], x);
                }
            }
            if fields.len() > 0 && (x as int) < self.recs().len() && record_matches(
                self.recs()[x as int],
                fields,
            ) {
                assert forall|j: int|
                    0 <= j < fields.len() implies self.index.field_result_contains(
                    #[trigger] fields[j],
                    x,
                ) && self.index.has_key(fields[j].0) by {
                    self.lemma_match_hit(fields[j], x);
                }
            }
        }
    }

    /// One direction per predicate: an indexed hit means the record holds
    /// a matching pair.
    proof fn lemma_field_hit(&self, f: FieldView, x: u32)
        requires
            self.wf(),
            self.index.field_result_contains(f, x),
            (x as int) < self.recs().len(),
        ensures
            crate::query::field_matches(self.recs()[x as int], f),
    {
        match f.2 {
            crate::query::Operation::Eq => {
                assert(self.index.pair_postings(f.0, f.1).contains(x));
                assert(record_has_pair(self.recs()[x as int], f.0, f.1));
            },
            crate::query::Operation::Re => {
                let fld = self.index.field_at(f.0);
                assert(fld.re_hit(f.1, x));
                let i = choose|i: int|
                    0 <= i < fld.vals().len() && crate::matcher::accepts(
                        f.1,
                        #[trigger] fld.vals()[i],
                    ) && fld.postings_at(i).contains(x);
                fld.lemma_val_idx_unique(i);
                assert(self.index.pair_postings(f.0, fld.vals()[i]).contains(x));
                assert(record_has_pair(self.recs()[x as int], f.0, fld.vals()[i]));
                let t = choose|t: int|
                    0 <= t < self.recs()[x as int].len() && self.recs()[x as int][t].0 == f.0
                        && self.recs()[x as int][t].1 == fld.vals()[i];
                assert(crate::matcher::accepts(f.1, self.recs()[x as int][t].1));
            },
        }
    }

    /// The other direction per predicate: a matching pair in the record
    /// means the index admits the id.
    proof fn lemma_match_hit(&self, f: FieldView, x: u32)
        requires
            self.wf(),
            (x as int) < self.recs().len(),
            crate::query::field_matches(self.recs()[x as int], f),
        ensures
            self.index.field_result_contains(f, x),
            self.index.has_key(f.0),
    {
        let r = self.recs()[x as int];
        match f.2 {
            crate::query::Operation::Eq => {
                let t = choose|t: int|
                    0 <= t < r.len() && r[t].0 == f.0 && r[t].1 == f.1;
                assert(record_has_pair(r, f.0, f.1));
                assert(self.index.pair_postings(f.0, f.1).contains(x));
                assert(record_has_key(r, f.0));
                assert(self.index.has_key(f.0));
            },
            crate::query::Operation::Re => {
                let t = choose|t: int|
                    0 <= t < r.len() && r[t].0 == f.0 && crate::matcher::accepts(f.1, r[t].1);
                let v = r[t].1;
                assert(record_has_pair(r, f.0, v));
                assert(self.index.pair_postings(f.0, v).contains(x));
                assert(self.index.has_pair(f.0, v));
                assert(self.index.has_key(f.0));
                let fld = self.index.field_at(f.0);
                assert(fld.has_val(v));
                let i = fld.val_idx(v);
                assert(0 <= i < fld.vals().len() && fld.vals()[i] == v);
                fld.lemma_val_idx_unique(i);
                assert(fld.postings_at(i).contains(x));
                assert(fld.re_hit(f.1, x));
            },
        }
    }


    /// Whether some stored record matches the selector and holds the pair
    /// `(key_field, v)`.
    pub open spec fn some_match_with_pair(&self, query: &KeyValuesSearch, v: Seq<char>) -> bool {
        query.search_fields@.len() > 0 && exists|i: int|
            0 <= i < self.recs().len() && record_matches(
                #[trigger] self.recs()[i],
                fields_view(query.search_fields@),
            ) && record_has_pair(self.recs()[i], query.key_field@, v)
    }

    /// Whether some stored record matches the selector and reports `v` as
    /// the value of its first pair bearing the target key.
    pub open spec fn some_match_with_first(&self, query: &KeyValuesSearch, v: Seq<char>) -> bool {
        query.search_fields@.len() > 0 && exists|i: int|
            0 <= i < self.recs().len() && record_matches(
                #[trigger] self.recs()[i],
                fields_view(query.search_fields@),
            ) && first_pair_val(self.recs()[i], query.key_field@) == Some(v)
    }

    /// What a key-values answer promises when served from the index: the
    /// distinct values of the target key across matching records.
    pub open spec fn kv_exact_semantics(&self, query: &KeyValuesSearch, vals: Seq<String>) -> bool {
        forall|v: Seq<char>|
            #[trigger] vals_contain(vals, v) == self.some_match_with_pair(query, v)
    }

    /// What a key-values answer promises when served by post-filtering
    /// records: the first-pair values of the target key across matching
    /// records.  A record holding the target key twice reports only its
    /// first value on this path.
    pub open spec fn kv_dirty_semantics(&self, query: &KeyValuesSearch, vals: Seq<String>) -> bool {
        forall|v: Seq<char>|
            #[trigger] vals_contain(vals, v) == self.some_match_with_first(query, v)
    }

    /// The value of the record's first pair bearing `key`, if any.
    fn first_val(rec: &RCRecord, key: &String) -> (r: Option<String>)
        ensures
            (match r {
                Some(v) => first_pair_val(rec@, key@) == Some(v@),
                None => first_pair_val(rec@, key@) is None,
            }),
    {
        let n = rec.label_pairs.len();
        let mut i: usize = 0;
        proof {
            assert(rec@.skip(0) =~= rec@);
        }
        while i < n
            invariant
                i <= n,
                n == rec@.len(),
                first_pair_val(rec@, key@) == first_pair_val(rec@.skip(i as int), key@),
            decreases n - i,
        {
            proof {
                assert(rec@.skip(i as int)[0] == rec@[i as int]);
                assert(rec@.skip(i as int).skip(1) =~= rec@.skip(i + 1));
                assert(rec@[i as int] == (rec.label_pairs@[i as int].key@,
                rec.label_pairs@[i as int].val@));
            }
            if rec.label_pairs[i].key == *key {
                return Some(rec.label_pairs[i].val.clone());
            }
            i = i + 1;
        }
        None
    }

    /// Answers a key-values query: the distinct values of the target key
    /// among matching records, either straight from the index or, under
    /// the `abort_early` strategy, by post-filtering the matched records
    /// (which reports only each record's first pair with the key).
    pub fn key_values_search(&self, query: &KeyValuesSearch) -> (r: Result<Vec<String>, String>)
        requires
            self.wf(),
        ensures
            (r matches Err(_)) == self.index.search_err(fields_view(query.search_fields@)),
            (match r {
                Ok(vals) => if self.index.dirty_applies(query) {
                    self.kv_dirty_semantics(query, vals@)
                } else {
                    self.kv_exact_semantics(query, vals@)
                },
                Err(_) => true,
            }),
    {
        let ghost fv = fields_view(query.search_fields@);
        match self.index.key_values_search(query) {
            KeyValuesSearchResult::Failed(e) => Err(e),
            KeyValuesSearchResult::Exact(vals) => {
                proof {
                    assert(!self.index.dirty_applies(query));
                    self.lemma_hit_is_match(fv);
                    assert forall|v: Seq<char>| #[trigger]
                        vals_contain(vals@, v) == self.some_match_with_pair(query, v) by {
                        if vals_contain(vals@, v) {
                            assert(self.index.kv_hit(query, v));
                            assert(self.index.has_pair(query.key_field@, v));
                            let x = choose|x: u32|
                                #[trigger] self.index.search_hit(
                                    fields_view(query.search_fields@),
                                    x,
                                ) && self.index.field_at(query.key_field@).postings(
                                    v,
                                ).contains(x);
                            assert(self.index.pair_postings(query.key_field@, v).contains(
                                x,
                            ));
                            assert((x as int) < self.recs().len() && record_has_pair(
                                self.recs()[x as int],
                                query.key_field@,
                                v,
                            ));
                            assert(record_matches(
                                self.recs()[x as int],
                                fields_view(query.search_fields@),
                            ));
                        }
                        if self.some_match_with_pair(query, v) {
                            let i = choose|i: int|
                                0 <= i < self.recs().len() && record_matches(
                                    #[trigger] self.recs()[i],
                                    fields_view(query.search_fields@),
                                ) && record_has_pair(self.recs()[i], query.key_field@, v);
                            assert(self.index.pair_postings(query.key_field@, v).contains(
                                i as u32,
                            ));
                            assert(self.index.has_pair(query.key_field@, v));
                            assert(fv.len() > 0);
                            assert(record_matches(self.recs()[i], fv));
                            assert(self.index.search_hit(
                                fields_view(query.search_fields@),
                                i as u32,
                            ));
                            assert(self.index.field_at(query.key_field@).postings(
                                v,
                            ).contains(i as u32));
                            assert(self.index.kv_hit(query, v));
                            assert(vals_contain(vals@, v));
                        }
                    }
                }
                Ok(vals)
            },
            KeyValuesSearchResult::Dirty(ids) => {
                proof {
                    assert(self.index.dirty_applies(query));
                    self.lemma_hit_is_match(fv);
                }
                let n = ids.len();
                let mut out: Vec<String> = Vec::new();
                let mut u: usize = 0;
                while u < n
                    invariant
                        u <= n,
                        n == ids@.len(),
                        self.wf(),
                        fv == fields_view(query.search_fields@),
                        forall|x: u32|
                            ids@.contains(x) == self.index.search_hit(fv, x),
                        forall|x: u32|
                            #[trigger] self.index.search_hit(fv, x) == (fv.len() > 0 && (
                            x as int) < self.recs().len() && record_matches(
                                self.recs()[x as int],
                                fv,
                            )),
                        forall|t: int|
                            0 <= t < out@.len() ==> self.some_match_with_first(
                                query,
                                (#[trigger] out@[t])@,
                            ),
                        forall|w: int|
                            0 <= w < u && first_pair_val(
                                self.recs()[#[trigger] ids@[w] as int],
                                query.key_field@,
                            ) is Some ==> vals_contain(
                                out@,
                                first_pair_val(
                                    self.recs()[ids@[w] as int],
                                    query.key_field@,
                                )->Some_0,
                            ),
                    decreases n - u,
                {
                    let ghost out0 = out@;
                    let id = ids[u];
                    proof {
                        assert(ids@.contains(ids@[u as int]));
                        assert(self.index.search_hit(fv, id));
                    }
                    match self.store.get(id) {
                        Some(rec) => {
                            match Self::first_val(&rec, &query.key_field) {
                                Some(v) => {
                                    out.push(v);
                                    proof {
                                        assert(out@[out@.len() - 1]@ == first_pair_val(
                                            self.recs()[id as int],
                                            query.key_field@,
                                        )->Some_0);
                                        assert(record_matches(self.recs()[id as int], fv));
                                        assert(fv.len() > 0);
                                        assert forall|t: int|
                                            0 <= t < out@.len() implies self.some_match_with_first(
                                            query,
                                            (#[trigger] out@[t])@,
                                        ) by {
                                            if t < out0.len() {
                                                assert(out@[t] == out0[t]);
                                            } else {
                                                assert(out@[t]@ == first_pair_val(
                                                    self.recs()[id as int],
                                                    query.key_field@,
                                                )->Some_0);
                                            }
                                        }
                                        assert forall|w: int|
                                            0 <= w < u + 1 && first_pair_val(
                                                self.recs()[#[trigger] ids@[w] as int],
                                                query.key_field@,
                                            ) is Some implies vals_contain(
                                            out@,
                                            first_pair_val(
                                                self.recs()[ids@[w] as int],
                                                query.key_field@,
                                            )->Some_0,
                                        ) by {
                                            let v = first_pair_val(
                                                self.recs()[ids@[w] as int],
                                                query.key_field@,
                                            )->Some_0;
                                            if w < u as int {
                                                assert(vals_contain(out0, v));
                                                let t = choose|t: int|
                                                    0 <= t < out0.len() && (
                                                    #[trigger] out0[t])@ == v;
                                                assert(out@[t]@ == v);
                                            } else {
                                                assert(out@[out@.len() - 1]@ == v);
                                            }
                                        }
                                    }
                                },
                                None => {
                                    proof {
                                        assert forall|w: int|
                                            0 <= w < u + 1 && first_pair_val(
                                                self.recs()[#[trigger] ids@[w] as int],
                                                query.key_field@,
                                            ) is Some implies vals_contain(
                                            out@,
                                            first_pair_val(
                                                self.recs()[ids@[w] as int],
                                                query.key_field@,
                                            )->Some_0,
                                        ) by {
                                            if w == u as int {
                                                assert(ids@[w] == id);
                                            }
                                        }
                                    }
                                },
                            }
                        },
                        None => {
                            proof {
                                assert(false);
                            }
                        },
                    }
                    u = u + 1;
                }
                proof {
                    assert forall|v: Seq<char>| #[trigger]
                        vals_contain(out@, v) == self.some_match_with_first(
                        query,
                        v,
                    ) by {
                        if self.some_match_with_first(query, v) {
                            let i = choose|i: int|
                                0 <= i < self.recs().len() && record_matches(
                                    #[trigger] self.recs()[i],
                                    fields_view(query.search_fields@),
                                ) && first_pair_val(self.recs()[i], query.key_field@)
                                    == Some(v);
                            assert(fv.len() > 0);
                            assert(record_matches(self.recs()[i], fv));
                            assert(self.index.search_hit(fv, i as u32));
                            assert(ids@.contains(i as u32));
                            let w = choose|w: int|
                                0 <= w < ids@.len() && ids@[w] == i as u32;
                            assert(first_pair_val(
                                self.recs()[ids@[w] as int],
                                query.key_field@,
                            ) == Some(v));
                            assert(vals_contain(out@, v));
                        }
                    }
                }
                Ok(out)
            },
        }
    }

    /// Every accepted record's id stands in the posting set of each pair
    /// it holds, and in no posting set of a pair it does not hold: the
    /// index never under- or over-reports a record.
    pub proof fn lemma_postings_exact(&self, id: u32, k: Seq<char>, v: Seq<char>)
        requires
            self.wf(),
            (id as int) < self.recs().len(),
        ensures
            self.index.pair_postings(k, v).contains(id) == record_has_pair(
                self.recs()[id as int],
                k,
                v,
            ),
    {
    }

    pub fn get_status(&self) -> (r: SingleStorageBackendStatus)
        requires
            self.wf(),
        ensures
            r.store_status.id_store_size == self.recs().len(),
            r.store_status.hash_store_size == self.store.hash_store@.dom().len(),
    {
        SingleStorageBackendStatus {
            store_status: self.store.get_status(),
            index_status: self.index.get_status(),
        }
    }
}

} // verus!
