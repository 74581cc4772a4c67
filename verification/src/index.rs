//! The inverted index: per label key, an ordered map from label value to a
//! posting bitmap of record ids.
//!
//! The value map of each key is kept sorted by `strkit::lex_lt`, which is
//! what lets a regex predicate with a literal prefix scan one contiguous
//! run of the map instead of all of it.

use vstd::prelude::*;
use crate::bitmap::{bitmap_ids, bm_and, bm_clone, bm_insert, bm_is_empty, bm_len, bm_new, bm_or,
    bm_to_vec};
use crate::matcher::{accepts, optimize_regex, pattern_matches, pattern_ok, pattern_valid};
use crate::query::{fields_view, FieldView, KeyValuesSearch, Operation, Search};
use crate::record::{lemma_take_push_key, lemma_take_push_pair, record_has_key, record_has_pair,
    RCRecord, RecordView};
use crate::strkit::{is_prefix_of, lemma_lex_lt_trichotomy, lemma_prefix_not_gt,
    lemma_prefix_run_contiguous, lex_lt, str_lt, str_starts_with};

verus! {

broadcast use vstd::set::axiom_set_union_finite, vstd::set::axiom_set_intersect_finite;

/// One entry of a key's value map: a label value and the ids of the
/// records holding the pair.
pub struct PostEntry {
    pub val: String,
    pub postings: roaring::RoaringBitmap,
}

/// The value map of one label key, sorted by value.
pub struct Field {
    pub field_map: Vec<PostEntry>,
}

impl Field {
    /// The values of this map, in storage order.
    pub open spec fn vals(&self) -> Seq<Seq<char>> {
        self.field_map@.map_values(|e: PostEntry| e.val@)
    }

    /// The posting set of the entry at `i`.
    pub open spec fn postings_at(&self, i: int) -> Set<u32> {
        bitmap_ids(self.field_map@[i].postings)
    }

    /// Values strictly sorted, posting sets finite.
    pub open spec fn wf(&self) -> bool {
        &&& (forall|i: int, j: int|
            0 <= i < j < self.vals().len() ==> lex_lt(self.vals()[i], self.vals()[j]))
        &&& (forall|i: int| 0 <= i < self.vals().len() ==> (#[trigger] self.postings_at(
            i,
        )).finite())
    }

    /// Whether some entry holds the value `v`.
    pub open spec fn has_val(&self, v: Seq<char>) -> bool {
        exists|i: int| 0 <= i < self.vals().len() && self.vals()[i] == v
    }

    /// The index of the entry holding `v` (unique when well formed).
    pub open spec fn val_idx(&self, v: Seq<char>) -> int {
        choose|i: int| 0 <= i < self.vals().len() && self.vals()[i] == v
    }

    /// The posting set of value `v`: empty when `v` is absent.
    pub open spec fn postings(&self, v: Seq<char>) -> Set<u32> {
        if self.has_val(v) {
            self.postings_at(self.val_idx(v))
        } else {
            Set::empty()
        }
    }

    /// A well-formed map has at most one entry per value.
    pub proof fn lemma_val_idx_unique(&self, i: int)
        requires
            self.wf(),
            0 <= i < self.vals().len(),
        ensures
            self.val_idx(self.vals()[i]) == i,
            self.postings(self.vals()[i]) == self.postings_at(i),
    {
        let v = self.vals()[i];
        assert(self.has_val(v));
        let j = self.val_idx(v);
        if i < j {
            assert(lex_lt(self.vals()[i], self.vals()[j]));
            lemma_lex_lt_trichotomy(self.vals()[i], self.vals()[j]);
        } else if j < i {
            assert(lex_lt(self.vals()[j], self.vals()[i]));
            lemma_lex_lt_trichotomy(self.vals()[j], self.vals()[i]);
        }
    }

    fn new() -> (r: Field)
        ensures
            r.wf(),
            r.vals().len() == 0,
    {
        Field { field_map: Vec::new() }
    }

    /// The index of the first entry whose value is not below `v`, or the
    /// map's length if every value is below `v`.
    fn lower_bound(&self, v: &str) -> (r: usize)
        requires
            self.wf(),
        ensures
            r <= self.vals().len(),
            forall|j: int| 0 <= j < r ==> lex_lt(self.vals()[j], v@),
            r < self.vals().len() ==> !lex_lt(self.vals()[r as int], v@),
    {
        let mut i: usize = 0;
        let n = self.field_map.len();
        while i < n
            invariant
                i <= n,
                n == self.vals().len(),
                self.wf(),
                forall|j: int| 0 <= j < i ==> lex_lt(self.vals()[j], v@),
            decreases n - i,
        {
            if !str_lt(self.field_map[i].val.as_str(), v) {
                return i;
            }
            i = i + 1;
        }
        i
    }

    /// Point lookup: a copy of the posting set of `v`.
    fn eq_get_by_val(&self, v: &str) -> (r: roaring::RoaringBitmap)
        requires
            self.wf(),
        ensures
            bitmap_ids(r) == self.postings(v@),
            bitmap_ids(r).finite(),
    {
        let i = self.lower_bound(v);
        if i < self.field_map.len() && self.field_map[i].val == v.to_owned() {
            proof {
                self.lemma_val_idx_unique(i as int);
            }
            bm_clone(&self.field_map[i].postings)
        } else {
            proof {
                if self.has_val(v@) {
                    let j = self.val_idx(v@);
                    if j < i as int {
                        assert(lex_lt(self.vals()[j], v@));
                        lemma_lex_lt_trichotomy(self.vals()[j], v@);
                    } else {
                        assert((i as int) <= j && j < self.vals().len());
                        if (i as int) < j {
                            assert(lex_lt(self.vals()[i as int], self.vals()[j]));
                            lemma_lex_lt_trichotomy(self.vals()[i as int], v@);
                        }
                    }
                }
            }
            bm_new()
        }
    }

    /// The values whose posting sets meet `records`, in map order.
    fn values_intersecting(&self, records: &roaring::RoaringBitmap) -> (out: Vec<String>)
        requires
            self.wf(),
        ensures
            forall|a: int, b: int| 0 <= a < b < out@.len() ==> lex_lt(out@[a]@, out@[b]@),
            forall|t: int|
                0 <= t < out@.len() ==> self.has_val((#[trigger] out@[t])@) && (exists|x: u32|
                    bitmap_ids(*records).contains(x) && self.postings(out@[t]@).contains(x)),
            forall|v: Seq<char>|
                self.has_val(v) && (exists|x: u32|
                    bitmap_ids(*records).contains(x) && (#[trigger] self.postings(
                        v,
                    )).contains(x)) ==> exists|t: int| 0 <= t < out@.len() && out@[t]@ == v,
    {
        let n = self.field_map.len();
        let mut out: Vec<String> = Vec::new();
        let ghost mut idxs: Seq<int> = Seq::empty();
        let ghost mut wit: Seq<u32> = Seq::empty();
        let mut i: usize = 0;
        while i < n
            invariant
                i <= n,
                n == self.vals().len(),
                self.wf(),
                out@.len() == idxs.len(),
                wit.len() == idxs.len(),
                forall|t: int| 0 <= t < idxs.len() ==> 0 <= #[trigger] idxs[t] < i,
                forall|t: int|
                    0 <= t < idxs.len() ==> self.vals()[#[trigger] idxs[t]] == out@[t]@,
                forall|t: int|
                    0 <= t < idxs.len() ==> bitmap_ids(*records).contains(#[trigger] wit[t]),
                forall|t: int|
                    0 <= t < idxs.len() ==> self.postings_at(#[trigger] idxs[t]).contains(
                        wit[t],
                    ),
                forall|a: int, b: int| 0 <= a < b < idxs.len() ==> idxs[a] < idxs[b],
                forall|j: int|
                    0 <= j < i && (exists|x: u32|
                        bitmap_ids(*records).contains(x) && (#[trigger] self.postings_at(
                            j,
                        )).contains(x)) ==> exists|t: int|
                        0 <= t < idxs.len() && idxs[t] == j,
            decreases n - i,
        {
            let inter = bm_and(records, &self.field_map[i].postings);
            let ghost idxs0 = idxs;
            let ghost wit0 = wit;
            let ghost out0 = out@;
            if !bm_is_empty(&inter) {
                proof {
                    assert(exists|x: u32|
                        bitmap_ids(*records).contains(x) && self.postings_at(
                            i as int,
                        ).contains(x)) by {
                        assert(!bitmap_ids(inter).is_empty());
                        if forall|x: u32| !(#[trigger] bitmap_ids(inter).contains(x)) {
                            assert(bitmap_ids(inter) =~= Set::<u32>::empty());
                        }
                        let x = choose|x: u32| bitmap_ids(inter).contains(x);
                        assert(bitmap_ids(*records).contains(x) && self.postings_at(
                            i as int,
                        ).contains(x));
                    }
                    let x = choose|x: u32|
                        bitmap_ids(*records).contains(x) && self.postings_at(
                            i as int,
                        ).contains(x);
                    idxs = idxs.push(i as int);
                    wit = wit.push(x);
                }
                out.push(self.field_map[i].val.clone());
                proof {
                    assert(forall|t: int| 0 <= t < idxs0.len() ==> idxs[t] == idxs0[t]);
                    assert(forall|t: int| 0 <= t < wit0.len() ==> wit[t] == wit0[t]);
                    assert(forall|t: int| 0 <= t < out0.len() ==> out@[t] == out0[t]);
                    assert(idxs[idxs.len() - 1] == i as int);
                    assert(wit[wit.len() - 1] == wit0.push(wit[wit.len() - 1])[wit0.len() as int]);
                    assert(out@[out@.len() - 1]@ == self.vals()[i as int]);
                    assert forall|j: int|
                        0 <= j < i + 1 && (exists|x: u32|
                            bitmap_ids(*records).contains(x) && (
                        #[trigger] self.postings_at(j)).contains(x)) implies exists|t: int|
                        0 <= t < idxs.len() && idxs[t] == j by {
                        if j < i as int {
                            let t = choose|t: int| 0 <= t < idxs0.len() && idxs0[t] == j;
                            assert(idxs[t] == j);
                        } else {
                            assert(idxs[idxs.len() - 1] == j);
                        }
                    }
                }
            } else {
                proof {
                    assert forall|x: u32|
                        !(bitmap_ids(*records).contains(x) && (#[trigger] self.postings_at(
                            i as int,
                        )).contains(x)) by {
                        if bitmap_ids(*records).contains(x) && self.postings_at(
                            i as int,
                        ).contains(x) {
                            assert(bitmap_ids(inter).contains(x));
                            assert(!bitmap_ids(inter).is_empty());
                        }
                    }
                    assert forall|j: int|
                        0 <= j < i + 1 && (exists|x: u32|
                            bitmap_ids(*records).contains(x) && (
                        #[trigger] self.postings_at(j)).contains(x)) implies exists|t: int|
                        0 <= t < idxs.len() && idxs[t] == j by {
                        if j < i as int {
                            let t = choose|t: int| 0 <= t < idxs0.len() && idxs0[t] == j;
                            assert(idxs[t] == j);
                        }
                    }
                }
            }
            i = i + 1;
        }
        proof {
            assert forall|a: int, b: int|
                0 <= a < b < out@.len() implies lex_lt(out@[a]@, out@[b]@) by {
                assert(self.vals()[idxs[a]] == out@[a]@);
                assert(self.vals()[idxs[b]] == out@[b]@);
                assert(idxs[a] < idxs[b]);
            }
            assert forall|t: int|
                0 <= t < out@.len() implies self.has_val((#[trigger] out@[t])@) && (exists|
            x: u32|
                bitmap_ids(*records).contains(x) && self.postings(out@[t]@).contains(
                    x,
                )) by {
                let j = idxs[t];
                let v = out@[t]@;
                assert(self.vals()[j] == v);
                assert(self.has_val(v));
                self.lemma_val_idx_unique(j);
                assert(self.postings(v) == self.postings_at(j));
                assert(bitmap_ids(*records).contains(wit[t]) && self.postings(v).contains(
                    wit[t],
                ));
            }
            assert forall|v: Seq<char>|
                self.has_val(v) && (exists|x: u32|
                    bitmap_ids(*records).contains(x) && (#[trigger] self.postings(
                        v,
                    )).contains(x)) implies exists|t: int|
                0 <= t < out@.len() && out@[t]@ == v by {
                let j = self.val_idx(v);
                assert(0 <= j < self.vals().len() && self.vals()[j] == v);
                self.lemma_val_idx_unique(j);
                let x = choose|x: u32|
                    bitmap_ids(*records).contains(x) && self.postings(v).contains(x);
                assert(self.postings_at(j).contains(x));
                let t = choose|t: int| 0 <= t < idxs.len() && idxs[t] == j;
                assert(out@[t]@ == v);
            }
        }
        out
    }

    /// Sets the bit `id` in the posting set of `v`, creating the entry at
    /// its sorted position when `v` is new.
    fn add_posting(&mut self, v: String, id: u32)
        requires
            old(self).wf(),
        ensures
            final(self).wf(),
            forall|w: Seq<char>|
                #[trigger] final(self).has_val(w) == (old(self).has_val(w) || w == v@),
            forall|w: Seq<char>, x: u32|
                #[trigger] final(self).postings(w).contains(x) == (old(self).postings(
                    w,
                ).contains(x) || (w == v@ && x == id)),
    {
        let ghost old_self = *old(self);
        let i = self.lower_bound(v.as_str());
        let hit = i < self.field_map.len() && self.field_map[i].val == v;
        if hit {
            proof {
                self.lemma_val_idx_unique(i as int);
            }
            let mut entry = self.field_map.remove(i);
            entry.postings = bm_insert(entry.postings, id);
            self.field_map.insert(i, entry);
            proof {
                assert(self.vals() =~= old_self.vals());
                assert(forall|j: int|
                    0 <= j < self.vals().len() && j != i ==> self.field_map@[j]
                        == old_self.field_map@[j]);
                assert(self.postings_at(i as int) == old_self.postings_at(i as int).insert(
                    id,
                ));
                assert(self.wf()) by {
                    assert forall|t: int|
                        0 <= t < self.vals().len() implies (#[trigger] self.postings_at(
                        t,
                    )).finite() by {
                        if t == i as int {
                            assert(old_self.postings_at(t).finite());
                            assert(self.postings_at(t) == old_self.postings_at(t).insert(
                                id,
                            ));
                        } else {
                            assert(self.postings_at(t) == old_self.postings_at(t));
                        }
                    }
                }
                assert forall|w: Seq<char>| #[trigger]
                    self.has_val(w) == (old_self.has_val(w) || w == v@) by {
                    assert(self.vals() == old_self.vals());
                    assert(old_self.vals()[i as int] == v@);
                }
                assert forall|w: Seq<char>, x: u32| #[trigger]
                    self.postings(w).contains(x) == (old_self.postings(w).contains(x) || (w
                        == v@ && x == id)) by {
                    if self.has_val(w) {
                        let j = old_self.val_idx(w);
                        old_self.lemma_val_idx_unique(j);
                        self.lemma_val_idx_unique(j);
                        if j == i as int {
                            assert(w == v@);
                            assert(self.postings_at(j) == bitmap_ids(
                                old_self.field_map@[j].postings,
                            ).insert(id));
                        } else {
                            assert(self.field_map@[j] == old_self.field_map@[j]);
                        }
                    }
                }
            }
        } else {
            proof {
                assert(!old_self.has_val(v@)) by {
                    if old_self.has_val(v@) {
                        let j = old_self.val_idx(v@);
                        if j < i as int {
                            assert(lex_lt(old_self.vals()[j], v@));
                            lemma_lex_lt_trichotomy(old_self.vals()[j], v@);
                            assert(false);
                        } else if (i as int) < j {
                            assert(lex_lt(old_self.vals()[i as int], old_self.vals()[j]));
                            assert(!lex_lt(old_self.vals()[i as int], v@));
                            assert(false);
                        } else {
                            assert(false);
                        }
                    }
                }
                if (i as int) < old_self.vals().len() {
                    lemma_lex_lt_trichotomy(old_self.vals()[i as int], v@);
                    assert(lex_lt(v@, old_self.vals()[i as int]));
                }
            }
            let ghost vv = v@;
            let entry = PostEntry { val: v, postings: bm_insert(bm_new(), id) };
            let ghost gentry = entry;
            self.field_map.insert(i, entry);
            proof {
                assert(self.vals() =~= old_self.vals().insert(i as int, vv));
                old_self.vals().insert_ensures(i as int, vv);
                old_self.field_map@.insert_ensures(i as int, gentry);
                assert(forall|t: int| 0 <= t < i ==> self.vals()[t] == old_self.vals()[t]);
                assert(forall|t: int|
                    i < t < self.vals().len() ==> self.vals()[t] == old_self.vals()[t - 1]);
                assert(self.vals()[i as int] == vv);
                assert(forall|t: int|
                    0 <= t < i ==> self.field_map@[t] == old_self.field_map@[t]);
                assert(forall|t: int|
                    i < t < self.field_map@.len() ==> self.field_map@[t]
                        == old_self.field_map@[t - 1]);
                assert(self.field_map@[i as int] == gentry);
                assert(self.postings_at(i as int) == Set::<u32>::empty().insert(id));
                // sortedness around the insertion point
                assert forall|a: int, b: int|
                    0 <= a < b < self.vals().len() implies lex_lt(
                    self.vals()[a],
                    self.vals()[b],
                ) by {
                    let n = old_self.vals().len();
                    if a < i as int && b == i as int {
                        assert(self.vals()[a] == old_self.vals()[a]);
                        assert(lex_lt(old_self.vals()[a], vv));
                    } else if a == i as int && b > i as int {
                        assert(self.vals()[b] == old_self.vals()[b - 1]);
                        assert(b - 1 >= i as int);
                        assert(lex_lt(vv, old_self.vals()[i as int]));
                        if b - 1 > i as int {
                            assert(lex_lt(old_self.vals()[i as int], old_self.vals()[b - 1]));
                            crate::strkit::lemma_lex_lt_transitive(
                                vv,
                                old_self.vals()[i as int],
                                old_self.vals()[b - 1],
                            );
                        }
                    } else if a < i as int && b > i as int {
                        assert(self.vals()[a] == old_self.vals()[a]);
                        assert(self.vals()[b] == old_self.vals()[b - 1]);
                        assert(a < b - 1);
                        assert(lex_lt(old_self.vals()[a], old_self.vals()[b - 1]));
                    } else if b < i as int {
                        assert(self.vals()[a] == old_self.vals()[a]);
                        assert(self.vals()[b] == old_self.vals()[b]);
                    } else {
                        assert(a > i as int && b > i as int);
                        assert(self.vals()[a] == old_self.vals()[a - 1]);
                        assert(self.vals()[b] == old_self.vals()[b - 1]);
                    }
                }
                assert(self.wf()) by {
                    assert forall|t: int|
                        0 <= t < self.vals().len() implies (#[trigger] self.postings_at(
                        t,
                    )).finite() by {
                        if t < i as int {
                            assert(self.postings_at(t) == old_self.postings_at(t));
                        } else if t > i as int {
                            assert(self.postings_at(t) == old_self.postings_at(t - 1));
                        }
                    }
                }
                assert forall|w: Seq<char>| #[trigger]
                    self.has_val(w) == (old_self.has_val(w) || w == vv) by {
                    if self.has_val(w) {
                        let j = choose|j: int|
                            0 <= j < self.vals().len() && self.vals()[j] == w;
                        if j < i as int {
                            assert(old_self.vals()[j] == w);
                        } else if j > i as int {
                            assert(old_self.vals()[j - 1] == w);
                        }
                    }
                    if old_self.has_val(w) {
                        let j = choose|j: int|
                            0 <= j < old_self.vals().len() && old_self.vals()[j] == w;
                        if j < i as int {
                            assert(self.vals()[j] == w);
                        } else {
                            assert(self.vals()[j + 1] == w);
                        }
                    }
                }
                assert forall|w: Seq<char>, x: u32| #[trigger]
                    self.postings(w).contains(x) == (old_self.postings(w).contains(x) || (w
                        == vv && x == id)) by {
                    if w == vv {
                        self.lemma_val_idx_unique(i as int);
                        assert(self.postings_at(i as int) == Set::<u32>::empty().insert(id));
                        assert(!old_self.has_val(vv));
                    } else {
                        if self.has_val(w) {
                            let j = choose|j: int|
                                0 <= j < self.vals().len() && self.vals()[j] == w;
                            self.lemma_val_idx_unique(j);
                            if j < i as int {
                                old_self.lemma_val_idx_unique(j);
                                assert(self.field_map@[j] == old_self.field_map@[j]);
                            } else {
                                assert(j > i as int);
                                old_self.lemma_val_idx_unique(j - 1);
                                assert(self.field_map@[j] == old_self.field_map@[j - 1]);
                            }
                        } else {
                            assert(!old_self.has_val(w));
                        }
                    }
                }
            }
        }
    }

    /// Whether some entry up to (excluding) index `n` holds a value matched
    /// by the anchored pattern, with `x` in its posting set.
    pub open spec fn re_hit_upto(&self, p: Seq<char>, x: u32, n: int) -> bool {
        exists|i: int|
            0 <= i < n && accepts(p, #[trigger] self.vals()[i]) && self.postings_at(
                i,
            ).contains(x)
    }

    /// Whether some entry holds a value matched by the anchored pattern,
    /// with `x` in its posting set.
    pub open spec fn re_hit(&self, p: Seq<char>, x: u32) -> bool {
        self.re_hit_upto(p, x, self.vals().len() as int)
    }

    /// Scan every value of the map, collecting the postings of those the
    /// anchored pattern matches.
    fn re_full_scan(&self, pattern: &str) -> (r: roaring::RoaringBitmap)
        requires
            self.wf(),
            pattern_ok(pattern@),
        ensures
            bitmap_ids(r).finite(),
            forall|x: u32| bitmap_ids(r).contains(x) == self.re_hit(pattern@, x),
    {
        let mut result = bm_new();
        let n = self.field_map.len();
        let mut i: usize = 0;
        while i < n
            invariant
                i <= n,
                n == self.vals().len(),
                self.wf(),
                pattern_ok(pattern@),
                bitmap_ids(result).finite(),
                forall|x: u32|
                    bitmap_ids(result).contains(x) == self.re_hit_upto(pattern@, x, i as int),
            decreases n - i,
        {
            let ghost prev = result;
            if pattern_matches(pattern, self.field_map[i].val.as_str()) {
                result = bm_or(result, &self.field_map[i].postings);
            }
            proof {
                assert(bitmap_ids(prev).union(self.postings_at(i as int)).finite());
                assert forall|x: u32|
                    bitmap_ids(result).contains(x) == self.re_hit_upto(
                    pattern@,
                    x,
                    i + 1,
                ) by {
                    if bitmap_ids(result).contains(x) {
                        if bitmap_ids(prev).contains(x) {
                            let j = choose|j: int|
                                0 <= j < i && accepts(pattern@, #[trigger] self.vals()[j])
                                    && self.postings_at(j).contains(x);
                            assert(0 <= j < i + 1 && accepts(pattern@, self.vals()[j])
                                && self.postings_at(j).contains(x));
                        } else {
                            assert(accepts(pattern@, self.vals()[i as int])
                                && self.postings_at(i as int).contains(x));
                        }
                    }
                    if self.re_hit_upto(pattern@, x, i + 1) {
                        let j = choose|j: int|
                            0 <= j < i + 1 && accepts(pattern@, #[trigger] self.vals()[j])
                                && self.postings_at(j).contains(x);
                        if j < i {
                            assert(self.re_hit_upto(pattern@, x, i as int));
                        }
                    }
                }
            }
            i = i + 1;
        }
        result
    }

    /// Whether one extracted literal covers the value: a cut literal is a
    /// prefix of it, a complete one is equal to it.
    pub open spec fn lit_covers(cut: bool, lit: Seq<char>, v: Seq<char>) -> bool {
        if cut {
            is_prefix_of(lit, v)
        } else {
            lit == v
        }
    }

    /// Whether one of the first `k` literals covers the value.
    pub open spec fn covered_upto(lits: Seq<(bool, String)>, k: int, v: Seq<char>) -> bool {
        exists|t: int|
            0 <= t < k && Self::lit_covers(#[trigger] lits[t].0, lits[t].1@, v)
    }

    /// Collect the postings of every value the anchored pattern matches,
    /// visiting only the runs of the map covered by the extracted literals.
    fn re_optimized_scan(&self, pattern: &str, lits: &Vec<(bool, String)>) -> (r:
        roaring::RoaringBitmap)
        requires
            self.wf(),
            pattern_ok(pattern@),
            forall|t: int| 0 <= t < lits@.len() && !lits@[t].0 ==> accepts(pattern@, lits@[t].1@),
            forall|v: Seq<char>|
                accepts(pattern@, v) ==> Self::covered_upto(lits@, lits@.len() as int, v),
        ensures
            bitmap_ids(r).finite(),
            forall|x: u32| bitmap_ids(r).contains(x) == self.re_hit(pattern@, x),
    {
        let mut result = bm_new();
        let n = self.field_map.len();
        let m = lits.len();
        let mut t: usize = 0;
        while t < m
            invariant
                t <= m,
                m == lits@.len(),
                n == self.vals().len(),
                self.wf(),
                pattern_ok(pattern@),
                forall|u: int|
                    0 <= u < lits@.len() && !lits@[u].0 ==> accepts(pattern@, lits@[u].1@),
                bitmap_ids(result).finite(),
                forall|x: u32|
                    bitmap_ids(result).contains(x) ==> self.re_hit(pattern@, x),
                forall|j: int, x: u32|
                    0 <= j < n && accepts(pattern@, #[trigger] self.vals()[j])
                        && Self::covered_upto(lits@, t as int, self.vals()[j])
                        && #[trigger] self.postings_at(j).contains(x) ==> bitmap_ids(
                        result,
                    ).contains(x),
            decreases m - t,
        {
            let cut = lits[t].0;
            let ghost prev = result;
            if cut {
                let lit = &lits[t].1;
                let start = self.lower_bound(lit.as_str());
                let mut i = start;
                loop
                    invariant
                        start <= i <= n,
                        n == self.vals().len(),
                        t < m,
                        m == lits@.len(),
                        self.wf(),
                        pattern_ok(pattern@),
                        lit@ == lits@[t as int].1@,
                        lits@[t as int].0,
                        forall|j: int| 0 <= j < start ==> lex_lt(self.vals()[j], lit@),
                        forall|j: int|
                            start <= j < i ==> is_prefix_of(lit@, #[trigger] self.vals()[j]),
                        bitmap_ids(result).finite(),
                        forall|x: u32|
                            bitmap_ids(result).contains(x) ==> self.re_hit(pattern@, x),
                        forall|j: int, x: u32|
                            0 <= j < n && accepts(pattern@, #[trigger] self.vals()[j])
                                && Self::covered_upto(lits@, t as int, self.vals()[j])
                                && #[trigger] self.postings_at(j).contains(x) ==> bitmap_ids(
                                result,
                            ).contains(x),
                        forall|j: int, x: u32|
                            start <= j < i && accepts(pattern@, #[trigger] self.vals()[j])
                                && #[trigger] self.postings_at(j).contains(x) ==> bitmap_ids(
                                result,
                            ).contains(x),
                    ensures
                        i == n || !is_prefix_of(lit@, self.vals()[i as int]),
                    decreases n - i,
                {
                    if i == n {
                        break;
                    }
                    if !str_starts_with(self.field_map[i].val.as_str(), lit.as_str()) {
                        break;
                    }
                    let ghost before = result;
                    if pattern_matches(pattern, self.field_map[i].val.as_str()) {
                        result = bm_or(result, &self.field_map[i].postings);
                    }
                    proof {
                        assert(bitmap_ids(before).union(self.postings_at(i as int)).finite());
                        assert forall|x: u32|
                            bitmap_ids(result).contains(x) implies self.re_hit(
                            pattern@,
                            x,
                        ) by {
                            if !bitmap_ids(before).contains(x) {
                                assert(accepts(pattern@, self.vals()[i as int])
                                    && self.postings_at(i as int).contains(x));
                            }
                        }
                    }
                    i = i + 1;
                }
                proof {
                    // every value with this literal as prefix lies in [start, i)
                    assert forall|j: int, x: u32|
                        0 <= j < n && accepts(pattern@, #[trigger] self.vals()[j])
                            && Self::covered_upto(lits@, t + 1, self.vals()[j])
                            && #[trigger] self.postings_at(j).contains(x) implies bitmap_ids(
                        result,
                    ).contains(x) by {
                        if !Self::covered_upto(lits@, t as int, self.vals()[j]) {
                            // covered exactly by the new literal
                            let u = choose|u: int|
                                0 <= u < t + 1 && Self::lit_covers(
                                    #[trigger] lits@[u].0,
                                    lits@[u].1@,
                                    self.vals()[j],
                                );
                            assert(u == t as int);
                            assert(is_prefix_of(lit@, self.vals()[j]));
                            lemma_prefix_not_gt(lit@, self.vals()[j]);
                            if j < start {
                                assert(lex_lt(self.vals()[j], lit@));
                                assert(false);
                            }
                            if j >= i {
                                assert(i < n);
                                assert(!is_prefix_of(lit@, self.vals()[i as int]));
                                assert(!lex_lt(self.vals()[i as int], lit@)) by {
                                    if i > start {
                                        lemma_prefix_not_gt(lit@, self.vals()[i - 1]);
                                        if lex_lt(self.vals()[i as int], lit@) {
                                            lemma_prefix_not_gt(
                                                lit@,
                                                self.vals()[i - 1],
                                            );
                                            crate::strkit::lemma_lex_lt_trichotomy(
                                                self.vals()[i - 1],
                                                lit@,
                                            );
                                            if lex_lt(self.vals()[i - 1], lit@) {
                                                assert(false);
                                            } else if self.vals()[i - 1] == lit@ {
                                                assert(lex_lt(
                                                    self.vals()[i - 1],
                                                    self.vals()[i as int],
                                                ));
                                                crate::strkit::lemma_lex_lt_transitive(
                                                    lit@,
                                                    self.vals()[i as int],
                                                    lit@,
                                                );
                                                crate::strkit::lemma_lex_lt_irreflexive(
                                                    lit@,
                                                );
                                                assert(false);
                                            } else {
                                                assert(lex_lt(
                                                    self.vals()[i - 1],
                                                    self.vals()[i as int],
                                                ));
                                                crate::strkit::lemma_lex_lt_transitive(
                                                    lit@,
                                                    self.vals()[i - 1],
                                                    self.vals()[i as int],
                                                );
                                                crate::strkit::lemma_lex_lt_transitive(
                                                    lit@,
                                                    self.vals()[i as int],
                                                    lit@,
                                                );
                                                crate::strkit::lemma_lex_lt_irreflexive(
                                                    lit@,
                                                );
                                                assert(false);
                                            }
                                        }
                                    }
                                }
                                lemma_prefix_run_contiguous(
                                    lit@,
                                    self.vals()[j],
                                    self.vals()[i as int],
                                );
                                // so vals[j] < vals[i], giving j < i by sortedness
                                if j > i as int {
                                    assert(lex_lt(self.vals()[i as int], self.vals()[j]));
                                    crate::strkit::lemma_lex_lt_trichotomy(
                                        self.vals()[i as int],
                                        self.vals()[j],
                                    );
                                    assert(false);
                                } else if j == i as int {
                                    crate::strkit::lemma_lex_lt_irreflexive(
                                        self.vals()[j],
                                    );
                                    assert(false);
                                }
                            }
                        }
                    }
                }
            } else {
                let lit = &lits[t].1;
                let bm = self.eq_get_by_val(lit.as_str());
                result = bm_or(result, &bm);
                proof {
                    assert forall|x: u32|
                        bitmap_ids(result).contains(x) implies self.re_hit(
                        pattern@,
                        x,
                    ) by {
                        if !bitmap_ids(prev).contains(x) {
                            assert(self.postings(lit@).contains(x));
                            assert(self.has_val(lit@));
                            let j = self.val_idx(lit@);
                            assert(0 <= j < self.vals().len() && self.vals()[j] == lit@);
                            assert(accepts(pattern@, self.vals()[j]));
                            assert(self.postings_at(j).contains(x));
                        }
                    }
                    assert forall|j: int, x: u32|
                        0 <= j < n && accepts(pattern@, #[trigger] self.vals()[j])
                            && Self::covered_upto(lits@, t + 1, self.vals()[j])
                            && #[trigger] self.postings_at(j).contains(x) implies bitmap_ids(
                        result,
                    ).contains(x) by {
                        if !Self::covered_upto(lits@, t as int, self.vals()[j]) {
                            let u = choose|u: int|
                                0 <= u < t + 1 && Self::lit_covers(
                                    #[trigger] lits@[u].0,
                                    lits@[u].1@,
                                    self.vals()[j],
                                );
                            assert(u == t as int);
                            assert(self.vals()[j] == lit@);
                            self.lemma_val_idx_unique(j);
                            assert(self.postings(lit@).contains(x));
                        }
                    }
                }
            }
            t = t + 1;
        }
        proof {
            assert forall|x: u32|
                bitmap_ids(result).contains(x) == self.re_hit(pattern@, x) by {
                if self.re_hit(pattern@, x) {
                    let j = choose|j: int|
                        0 <= j < self.vals().len() && accepts(
                            pattern@,
                            #[trigger] self.vals()[j],
                        ) && self.postings_at(j).contains(x);
                    assert(Self::covered_upto(lits@, lits@.len() as int, self.vals()[j]));
                }
            }
        }
        result
    }
}

/// Per-index statistics (none are kept beyond the structure itself).
pub struct IndexStatus {}

/// The outcome of a key-values search: the distinct values themselves
/// (`Exact`), the matched record ids when post-filtering records is
/// cheaper (`Dirty`), or a failure from an invalid regex pattern.
pub enum KeyValuesSearchResult {
    Failed(String),
    Exact(Vec<String>),
    Dirty(Vec<u32>),
}

/// One entry of the index: a label key and its value map.
pub struct KeyEntry {
    pub key: String,
    pub field: Field,
}

/// The inverted index of one shard: per label key, the ordered value map.
pub struct Index {
    pub label_key_index: Vec<KeyEntry>,
}

impl Index {
    /// The label keys present, in storage order.
    pub open spec fn keys(&self) -> Seq<Seq<char>> {
        self.label_key_index@.map_values(|e: KeyEntry| e.key@)
    }

    /// Keys distinct, every value map well formed.
    pub open spec fn wf(&self) -> bool {
        &&& (forall|i: int, j: int|
            0 <= i < j < self.keys().len() ==> self.keys()[i] != self.keys()[j])
        &&& (forall|i: int|
            0 <= i < self.keys().len() ==> (#[trigger] self.label_key_index@[i].field).wf())
    }

    /// Whether the key is present.
    pub open spec fn has_key(&self, k: Seq<char>) -> bool {
        exists|i: int| 0 <= i < self.keys().len() && self.keys()[i] == k
    }

    /// The index of the entry holding `k` (unique when well formed).
    pub open spec fn key_idx(&self, k: Seq<char>) -> int {
        choose|i: int| 0 <= i < self.keys().len() && self.keys()[i] == k
    }

    /// The value map of key `k`.
    pub open spec fn field_at(&self, k: Seq<char>) -> Field {
        self.label_key_index@[self.key_idx(k)].field
    }

    /// Whether the pair `(k, v)` is indexed.
    pub open spec fn has_pair(&self, k: Seq<char>, v: Seq<char>) -> bool {
        self.has_key(k) && self.field_at(k).has_val(v)
    }

    /// The posting set of the pair `(k, v)`: empty when absent.
    pub open spec fn pair_postings(&self, k: Seq<char>, v: Seq<char>) -> Set<u32> {
        if self.has_key(k) {
            self.field_at(k).postings(v)
        } else {
            Set::empty()
        }
    }

    /// Whether `x` is in the result of one predicate evaluated alone.
    pub open spec fn field_result_contains(&self, f: FieldView, x: u32) -> bool {
        match f.2 {
            Operation::Eq => self.pair_postings(f.0, f.1).contains(x),
            Operation::Re => self.has_key(f.0) && self.field_at(f.0).re_hit(f.1, x),
        }
    }

    /// Whether `x` is in the result of the whole selector: the selector is
    /// nonempty, every key is present, and every predicate admits `x`.
    pub open spec fn search_hit(&self, fields: Seq<FieldView>, x: u32) -> bool {
        &&& fields.len() > 0
        &&& (forall|j: int| 0 <= j < fields.len() ==> self.has_key(#[trigger] fields[j].0))
        &&& (forall|j: int|
            0 <= j < fields.len() ==> self.field_result_contains(#[trigger] fields[j], x))
    }

    /// The set of record ids the selector matches against this index.
    pub open spec fn search_set(&self, fields: Seq<FieldView>) -> Set<u32> {
        Set::new(|x: u32| self.search_hit(fields, x))
    }

    /// A search fails exactly when every key is present but some regex
    /// predicate does not compile.
    pub open spec fn search_err(&self, fields: Seq<FieldView>) -> bool {
        &&& (forall|j: int| 0 <= j < fields.len() ==> self.has_key(#[trigger] fields[j].0))
        &&& (exists|j: int|
            0 <= j < fields.len() && (#[trigger] fields[j].2) == Operation::Re && !pattern_ok(
                fields[j].1,
            ))
    }

    /// A well-formed index has at most one entry per key.
    pub proof fn lemma_key_idx_unique(&self, i: int)
        requires
            self.wf(),
            0 <= i < self.keys().len(),
        ensures
            self.key_idx(self.keys()[i]) == i,
            self.field_at(self.keys()[i]) == self.label_key_index@[i].field,
    {
        let k = self.keys()[i];
        assert(self.has_key(k));
    }

    pub fn new() -> (r: Index)
        ensures
            r.wf(),
            r.keys().len() == 0,
            forall|k: Seq<char>| !r.has_key(k),
    {
        Index { label_key_index: Vec::new() }
    }

    pub fn get_status(&self) -> IndexStatus {
        IndexStatus {  }
    }

    /// The position of the entry for key `k`, if one exists.
    fn find_key(&self, k: &str) -> (r: Option<usize>)
        requires
            self.wf(),
        ensures
            (match r {
                Some(i) => i < self.keys().len() && self.keys()[i as int] == k@
                    && self.key_idx(k@) == i && self.has_key(k@),
                None => !self.has_key(k@),
            }),
    {
        let n = self.label_key_index.len();
        let mut i: usize = 0;
        while i < n
            invariant
                i <= n,
                n == self.keys().len(),
                self.wf(),
                forall|j: int| 0 <= j < i ==> self.keys()[j] != k@,
            decreases n - i,
        {
            if self.label_key_index[i].key == k.to_owned() {
                proof {
                    self.lemma_key_idx_unique(i as int);
                }
                return Some(i);
            }
            i = i + 1;
        }
        None
    }

    /// Adds `id` to the posting set of every label pair of the record,
    /// creating key entries and value entries as needed.
    pub fn insert_record(&mut self, id: u32, record: &RCRecord)
        requires
            old(self).wf(),
        ensures
            final(self).wf(),
            forall|k: Seq<char>|
                #[trigger] final(self).has_key(k) == (old(self).has_key(k) || record_has_key(
                    record@,
                    k,
                )),
            forall|k: Seq<char>, v: Seq<char>|
                #[trigger] final(self).has_pair(k, v) == (old(self).has_pair(k, v)
                    || record_has_pair(record@, k, v)),
            forall|k: Seq<char>, v: Seq<char>, x: u32|
                #[trigger] final(self).pair_postings(k, v).contains(x) == (old(
                    self,
                ).pair_postings(k, v).contains(x) || (x == id && record_has_pair(
                    record@,
                    k,
                    v,
                ))),
    {
        let ghost orig = *old(self);
        let n = record.label_pairs.len();
        let mut p: usize = 0;
        while p < n
            invariant
                p <= n,
                n == record@.len(),
                self.wf(),
                forall|k: Seq<char>|
                    #[trigger] self.has_key(k) == (orig.has_key(k) || record_has_key(
                        record@.take(p as int),
                        k,
                    )),
                forall|k: Seq<char>, v: Seq<char>|
                    #[trigger] self.has_pair(k, v) == (orig.has_pair(k, v) || record_has_pair(
                        record@.take(p as int),
                        k,
                        v,
                    )),
                forall|k: Seq<char>, v: Seq<char>, x: u32|
                    #[trigger] self.pair_postings(k, v).contains(x) == (orig.pair_postings(
                        k,
                        v,
                    ).contains(x) || (x == id && record_has_pair(
                        record@.take(p as int),
                        k,
                        v,
                    ))),
            decreases n - p,
        {
            let ghost mid = *self;
            let pair = &record.label_pairs[p];
            let ghost k0 = pair.key@;
            let ghost v0 = pair.val@;
            let ghost mut step_ki: int = 0;
            let found = self.find_key(pair.key.as_str());
            match found {
                Some(ki) => {
                    proof {
                        self.lemma_key_idx_unique(ki as int);
                        step_ki = ki as int;
                    }
                    let mut entry = self.label_key_index.remove(ki);
                    let ghost fbefore = entry.field;
                    entry.field.add_posting(pair.val.clone(), id);
                    let ghost gentry = entry;
                    self.label_key_index.insert(ki, entry);
                    proof {
                        assert(fbefore == mid.label_key_index@[ki as int].field);
                        assert(self.keys() =~= mid.keys());
                        assert(self.label_key_index@[ki as int] == gentry);
                        assert(forall|j: int|
                            0 <= j < self.keys().len() && j != ki ==> self.label_key_index@[j]
                                == mid.label_key_index@[j]);
                        assert(self.wf()) by {
                            assert forall|j: int|
                                0 <= j < self.keys().len() implies (
                            #[trigger] self.label_key_index@[j].field).wf() by {
                                if j != ki {
                                    assert(self.label_key_index@[j]
                                        == mid.label_key_index@[j]);
                                } else {
                                    assert(self.label_key_index@[j].field == gentry.field);
                                }
                            }
                        }
                        assert(field_step(fbefore, gentry.field, v0, id));
                        assert(step_shape(mid, *self, step_ki, k0, v0, id));
                    }
                }
                None => {
                    proof {
                        step_ki = mid.keys().len() as int;
                    }
                    let mut field = Field::new();
                    let ghost fbefore = field;
                    field.add_posting(pair.val.clone(), id);
                    let entry = KeyEntry { key: pair.key.clone(), field };
                    let ghost gentry = entry;
                    self.label_key_index.push(entry);
                    proof {
                        assert(self.keys() =~= mid.keys().push(k0));
                        assert(self.label_key_index@[self.keys().len() - 1] == gentry);
                        assert(forall|j: int|
                            0 <= j < mid.keys().len() ==> self.label_key_index@[j]
                                == mid.label_key_index@[j]);
                        assert(self.wf()) by {
                            assert(forall|j: int|
                                0 <= j < mid.keys().len() ==> self.keys()[j]
                                    == mid.keys()[j]);
                            assert forall|a: int, b: int|
                                0 <= a < b < self.keys().len() implies self.keys()[a]
                                != self.keys()[b] by {
                                if b == self.keys().len() - 1 {
                                    assert(!mid.has_key(k0));
                                    assert(self.keys()[b] == k0);
                                    if self.keys()[a] == k0 {
                                        assert(mid.keys()[a] == k0);
                                        assert(mid.has_key(k0));
                                    }
                                }
                            }
                            assert forall|j: int|
                                0 <= j < self.keys().len() implies (
                            #[trigger] self.label_key_index@[j].field).wf() by {
                                if j == self.keys().len() - 1 {
                                    assert(self.label_key_index@[j].field == gentry.field);
                                }
                            }
                        }
                        assert(fresh_field(gentry.field, v0, id)) by {
                            assert(forall|w: Seq<char>| !fbefore.has_val(w));
                            assert forall|w: Seq<char>, x: u32| #[trigger]
                                gentry.field.postings(w).contains(x) == (w == v0 && x
                                == id) by {
                                assert(!fbefore.has_val(w));
                                assert(fbefore.postings(w) == Set::<u32>::empty());
                            }
                        }
                        assert(step_shape(mid, *self, step_ki, k0, v0, id));
                    }
                }
            }
            proof {
                // the step touched exactly the pair (k0, v0)
                assert(record@.take(p + 1) =~= record@.take(p as int).push(record@[p as int]));
                assert(record@[p as int] == (k0, v0));
                assert forall|k: Seq<char>| #[trigger]
                    self.has_key(k) == (orig.has_key(k) || record_has_key(
                        record@.take(p + 1),
                        k,
                    )) by {
                    lemma_take_push_key(record@.take(p as int), k0, v0, k);
                    if k == k0 {
                        assert(self.keys()[step_ki] == k0);
                        assert(self.has_key(k0));
                    } else {
                        assert(self.has_key(k) == mid.has_key(k)) by {
                            if self.has_key(k) {
                                let j = choose|j: int|
                                    0 <= j < self.keys().len() && self.keys()[j] == k;
                                assert(j != step_ki);
                                if self.keys() == mid.keys() {
                                    assert(mid.keys()[j] == k);
                                } else {
                                    assert(j < mid.keys().len());
                                    assert(mid.keys()[j] == self.keys()[j]);
                                }
                            }
                            if mid.has_key(k) {
                                let j = choose|j: int|
                                    0 <= j < mid.keys().len() && mid.keys()[j] == k;
                                if self.keys() == mid.keys() {
                                    assert(self.keys()[j] == k);
                                } else {
                                    assert(self.keys()[j] == mid.keys()[j]);
                                }
                            }
                        }
                    }
                }
                assert forall|k: Seq<char>, v: Seq<char>| #[trigger]
                    self.has_pair(k, v) == (orig.has_pair(k, v) || record_has_pair(
                        record@.take(p + 1),
                        k,
                        v,
                    )) by {
                    lemma_take_push_pair(record@.take(p as int), k0, v0, k, v);
                    self.lemma_pair_step(mid, step_ki, k0, v0, id, k, v);
                }
                assert forall|k: Seq<char>, v: Seq<char>, x: u32| #[trigger]
                    self.pair_postings(k, v).contains(x) == (orig.pair_postings(
                        k,
                        v,
                    ).contains(x) || (x == id && record_has_pair(
                        record@.take(p + 1),
                        k,
                        v,
                    ))) by {
                    lemma_take_push_pair(record@.take(p as int), k0, v0, k, v);
                    self.lemma_pair_step(mid, step_ki, k0, v0, id, k, v);
                }
            }
            p = p + 1;
        }
        proof {
            assert(record@.take(n as int) =~= record@);
        }
    }

    /// How one indexing step (key `k0`, value `v0`, id `id` at entry `ki`)
    /// relates the new index to the previous one, for an arbitrary pair
    /// `(k, v)`.
    proof fn lemma_pair_step(
        &self,
        mid: Index,
        ki: int,
        k0: Seq<char>,
        v0: Seq<char>,
        id: u32,
        k: Seq<char>,
        v: Seq<char>,
    )
        requires
            mid.wf(),
            self.wf(),
            step_shape(mid, *self, ki, k0, v0, id),
        ensures
            self.has_pair(k, v) == (mid.has_pair(k, v) || (k == k0 && v == v0)),
            forall|x: u32|
                #[trigger] self.pair_postings(k, v).contains(x) == (mid.pair_postings(
                    k,
                    v,
                ).contains(x) || (k == k0 && v == v0 && x == id)),
    {
        self.lemma_key_idx_unique(ki);
        if k == k0 {
            assert(self.has_key(k0));
            assert(self.key_idx(k0) == ki);
            let g = self.label_key_index@[ki].field;
            if self.keys() == mid.keys() {
                mid.lemma_key_idx_unique(ki);
                let f = mid.label_key_index@[ki].field;
                assert(mid.has_key(k0) && mid.key_idx(k0) == ki && mid.field_at(k0) == f);
                assert(g.has_val(v) == (f.has_val(v) || v == v0));
                assert forall|x: u32|
                    #[trigger] self.pair_postings(k, v).contains(x) == (mid.pair_postings(
                        k,
                        v,
                    ).contains(x) || (k == k0 && v == v0 && x == id)) by {
                    assert(g.postings(v).contains(x) == (f.postings(v).contains(x) || (v
                        == v0 && x == id)));
                }
            } else {
                assert(!mid.has_key(k0));
                assert(g.has_val(v) == (v == v0));
                assert forall|x: u32|
                    #[trigger] self.pair_postings(k, v).contains(x) == (mid.pair_postings(
                        k,
                        v,
                    ).contains(x) || (k == k0 && v == v0 && x == id)) by {
                    assert(g.postings(v).contains(x) == (v == v0 && x == id));
                    assert(!mid.pair_postings(k, v).contains(x));
                }
            }
        } else {
            // an untouched key: both indexes agree on it entirely
            assert(self.has_key(k) == mid.has_key(k)) by {
                if self.has_key(k) {
                    let j = choose|j: int|
                        0 <= j < self.keys().len() && self.keys()[j] == k;
                    assert(j != ki);
                    if self.keys() == mid.keys() {
                        assert(mid.keys()[j] == k);
                    } else {
                        assert(j < mid.keys().len());
                        assert(mid.keys()[j] == k);
                    }
                }
                if mid.has_key(k) {
                    let j = choose|j: int|
                        0 <= j < mid.keys().len() && mid.keys()[j] == k;
                    assert(self.keys()[j] == k);
                }
            }
            if self.has_key(k) {
                let j = choose|j: int| 0 <= j < self.keys().len() && self.keys()[j] == k;
                assert(j != ki);
                self.lemma_key_idx_unique(j);
                mid.lemma_key_idx_unique(j);
                assert(self.label_key_index@[j] == mid.label_key_index@[j]);
                assert(self.field_at(k) == mid.field_at(k));
            }
        }
    }
    /// Evaluate the selector to the bitmap of matching record ids.
    ///
    /// A missing key empties the whole conjunction; an empty selector is
    /// empty here (the match-all form is served by the store); a regex
    /// predicate that does not compile fails the query.
    pub fn simple_search(&self, query: &Search) -> (r: Result<roaring::RoaringBitmap, String>)
        requires
            self.wf(),
        ensures
            (r matches Err(_)) == self.search_err(fields_view(query.search_fields@)),
            (match r {
                Ok(b) => bitmap_ids(b).finite() && (forall|x: u32|
                    bitmap_ids(b).contains(x) == self.search_hit(
                        fields_view(query.search_fields@),
                        x,
                    )),
                Err(_) => true,
            }),
    {
        let ghost fv = fields_view(query.search_fields@);
        let n = query.search_fields.len();
        let mut j: usize = 0;
        while j < n
            invariant
                j <= n,
                n == fv.len(),
                self.wf(),
                fv == fields_view(query.search_fields@),
                forall|t: int| 0 <= t < j ==> self.has_key(#[trigger] fv[t].0),
            decreases n - j,
        {
            if self.find_key(query.search_fields[j].key.as_str()).is_none() {
                proof {
                    assert(fv[j as int].0 == query.search_fields@[j as int].key@);
                    assert(!self.has_key(fv[j as int].0));
                    assert(!self.search_err(fv));
                    assert(forall|x: u32| !self.search_hit(fv, x));
                }
                return Ok(bm_new());
            }
            j = j + 1;
        }
        let mut acc: Option<roaring::RoaringBitmap> = None;
        let mut j: usize = 0;
        while j < n
            invariant
                j <= n,
                n == fv.len(),
                self.wf(),
                fv == fields_view(query.search_fields@),
                forall|t: int| 0 <= t < n ==> self.has_key(#[trigger] fv[t].0),
                forall|t: int|
                    0 <= t < j && (#[trigger] fv[t].2) == Operation::Re ==> pattern_ok(
                        fv[t].1,
                    ),
                (match acc {
                    Option::None => j == 0,
                    Option::Some(b) => j > 0 && bitmap_ids(b).finite() && (forall|x: u32|
                        bitmap_ids(b).contains(x) == (forall|t: int|
                            0 <= t < j ==> self.field_result_contains(#[trigger] fv[t], x))),
                }),
            decreases n - j,
        {
            let field = &query.search_fields[j];
            proof {
                assert(fv[j as int] == (field.key@, field.val@, field.op));
                assert(self.has_key(fv[j as int].0));
                assert(self.has_key(field.key@));
            }
            let ki = match self.find_key(field.key.as_str()) {
                Some(ki) => ki,
                None => {
                    proof {
                        assert(false);
                    }
                    return Ok(bm_new());
                },
            };
            proof {
                self.lemma_key_idx_unique(ki as int);
                assert(self.field_at(field.key@) == self.label_key_index@[ki as int].field);
            }
            let fb: roaring::RoaringBitmap = match field.op {
                Operation::Eq => self.label_key_index[ki].field.eq_get_by_val(
                    field.val.as_str(),
                ),
                Operation::Re => {
                    if !pattern_valid(field.val.as_str()) {
                        proof {
                            assert(fv[j as int].2 == Operation::Re && !pattern_ok(
                                fv[j as int].1,
                            ));
                            assert(self.search_err(fv));
                        }
                        let mut msg = String::from_str("Error compiling anchored regex: ");
                        msg.append(field.val.as_str());
                        return Err(msg);
                    }
                    let lits = optimize_regex(field.val.as_str());
                    if query.query_flags.optimize_regex_search && lits.len() > 0 {
                        proof {
                            assert forall|v: Seq<char>|
                                accepts(field.val@, v) implies Field::covered_upto(
                                lits@,
                                lits@.len() as int,
                                v,
                            ) by {
                                let i = choose|i: int|
                                    0 <= i < lits@.len() && (if lits@[i].0 {
                                        is_prefix_of(lits@[i].1@, v)
                                    } else {
                                        lits@[i].1@ == v
                                    });
                                assert(Field::lit_covers(lits@[i].0, lits@[i].1@, v));
                            }
                        }
                        self.label_key_index[ki].field.re_optimized_scan(
                            field.val.as_str(),
                            &lits,
                        )
                    } else {
                        self.label_key_index[ki].field.re_full_scan(field.val.as_str())
                    }
                },
            };
            proof {
                assert forall|x: u32|
                    bitmap_ids(fb).contains(x) == self.field_result_contains(
                    fv[j as int],
                    x,
                ) by {
                    if fv[j as int].2 == Operation::Eq {
                        assert(self.pair_postings(field.key@, field.val@) == self.field_at(
                            field.key@,
                        ).postings(field.val@));
                    }
                }
            }
            let ghost prev_acc = acc;
            acc = match acc {
                Option::None => Some(fb),
                Option::Some(a) => Some(bm_and(&a, &fb)),
            };
            proof {
                let b = acc.unwrap();
                assert forall|x: u32|
                    bitmap_ids(b).contains(x) == (forall|t: int|
                        0 <= t < j + 1 ==> self.field_result_contains(
                            #[trigger] fv[t],
                            x,
                        )) by {
                    match prev_acc {
                        Option::None => {
                            assert(bitmap_ids(b).contains(x) == self.field_result_contains(
                                fv[0],
                                x,
                            ));
                            if self.field_result_contains(fv[0], x) {
                                assert forall|t: int|
                                    0 <= t < j + 1 implies self.field_result_contains(
                                    #[trigger] fv[t],
                                    x,
                                ) by {
                                    assert(t == 0);
                                }
                            }
                        },
                        Option::Some(a) => {
                            if bitmap_ids(b).contains(x) {
                                assert(bitmap_ids(a).contains(x) && bitmap_ids(fb).contains(
                                    x,
                                ));
                                assert(forall|t: int|
                                    0 <= t < j ==> self.field_result_contains(
                                        #[trigger] fv[t],
                                        x,
                                    ));
                            } else {
                                if (forall|t: int|
                                    0 <= t < j + 1 ==> self.field_result_contains(
                                        #[trigger] fv[t],
                                        x,
                                    )) {
                                    assert(forall|t: int|
                                        0 <= t < j ==> self.field_result_contains(
                                            #[trigger] fv[t],
                                            x,
                                        ));
                                    assert(bitmap_ids(a).contains(x));
                                    assert(self.field_result_contains(fv[j as int], x));
                                    assert(false);
                                }
                            }
                        },
                    }
                }
            }
            j = j + 1;
        }
        match acc {
            Option::None => {
                proof {
                    assert(n == 0);
                    assert(forall|x: u32| !self.search_hit(fv, x));
                    assert(!self.search_err(fv));
                }
                Ok(bm_new())
            },
            Option::Some(b) => {
                proof {
                    assert(!self.search_err(fv)) by {
                        if self.search_err(fv) {
                            let t = choose|t: int|
                                0 <= t < fv.len() && (#[trigger] fv[t].2) == Operation::Re
                                    && !pattern_ok(fv[t].1);
                            assert(pattern_ok(fv[t].1));
                        }
                    }
                    assert(forall|x: u32|
                        bitmap_ids(b).contains(x) == self.search_hit(fv, x));
                }
                Ok(b)
            },
        }
    }

    /// The matching record ids of the selector, in ascending order.
    pub fn search(&self, query: &Search) -> (r: Result<Vec<u32>, String>)
        requires
            self.wf(),
        ensures
            (r matches Err(_)) == self.search_err(fields_view(query.search_fields@)),
            (match r {
                Ok(ids) => (forall|a: int, b: int|
                    0 <= a < b < ids@.len() ==> ids@[a] < ids@[b]) && (forall|x: u32|
                    ids@.contains(x) == self.search_hit(fields_view(query.search_fields@), x)),
                Err(_) => true,
            }),
    {
        match self.simple_search(query) {
            Ok(b) => Ok(bm_to_vec(&b)),
            Err(e) => Err(e),
        }
    }

    /// What an `Exact` key-values result promises: values sorted
    /// ascending, and exactly those values of the target key whose posting
    /// set meets the selector's result set.
    pub open spec fn kv_exact_ok(&self, query: &KeyValuesSearch, vals: Seq<String>) -> bool {
        &&& (forall|a: int, b: int| 0 <= a < b < vals.len() ==> lex_lt(vals[a]@, vals[b]@))
        &&& (forall|v: Seq<char>|
            #[trigger] vals_contain(vals, v) == self.kv_hit(query, v))
    }

    /// Whether the target key holds `v` with a posting that the selector
    /// matches.
    pub open spec fn kv_hit(&self, query: &KeyValuesSearch, v: Seq<char>) -> bool {
        self.has_pair(query.key_field@, v) && exists|x: u32|
            #[trigger] self.search_hit(fields_view(query.search_fields@), x) && self.field_at(
                query.key_field@,
            ).postings(v).contains(x)
    }

    /// When the `Dirty` strategy applies: the `abort_early` flag is set,
    /// the target key is present, and it has more distinct values than the
    /// selector matches records (so post-filtering records is cheaper than
    /// intersecting every posting list).
    pub open spec fn dirty_applies(&self, query: &KeyValuesSearch) -> bool {
        &&& query.query_flags.abort_early
        &&& self.has_key(query.key_field@)
        &&& self.field_at(query.key_field@).vals().len() > self.search_set(
            fields_view(query.search_fields@),
        ).len()
    }

    /// What a `Dirty` key-values result promises: the selector's matching
    /// ids, ascending, handed back under the `abort_early` strategy.
    pub open spec fn kv_dirty_ok(&self, query: &KeyValuesSearch, ids: Seq<u32>) -> bool {
        &&& self.has_key(query.key_field@)
        &&& query.query_flags.abort_early
        &&& (forall|a: int, b: int| 0 <= a < b < ids.len() ==> ids[a] < ids[b])
        &&& (forall|x: u32|
            ids.contains(x) == self.search_hit(fields_view(query.search_fields@), x))
    }

    /// The distinct values of `query.key_field` among records matching the
    /// selector.
    ///
    /// When the `abort_early` flag is set and the target key has more
    /// distinct values than there are matched records, the matched ids are
    /// handed back instead (`Dirty`) so the caller can post-filter records,
    /// which is then cheaper than intersecting every posting list.
    #[verifier::rlimit(60)]
    pub fn key_values_search(&self, query: &KeyValuesSearch) -> (r: KeyValuesSearchResult)
        requires
            self.wf(),
        ensures
            (r matches KeyValuesSearchResult::Failed(_)) == self.search_err(
                fields_view(query.search_fields@),
            ),
            (match r {
                KeyValuesSearchResult::Exact(vals) => self.kv_exact_ok(query, vals@),
                KeyValuesSearchResult::Dirty(ids) => self.kv_dirty_ok(query, ids@),
                KeyValuesSearchResult::Failed(_) => true,
            }),
            !self.search_err(fields_view(query.search_fields@)) ==> ((
            r matches KeyValuesSearchResult::Dirty(_)) == self.dirty_applies(query)),
    {
        let ghost fv = fields_view(query.search_fields@);
        let derived = query.to_search_query();
        let records = match self.simple_search(&derived) {
            Ok(b) => b,
            Err(e) => {
                return KeyValuesSearchResult::Failed(e);
            },
        };
        let ki = match self.find_key(query.key_field.as_str()) {
            Some(ki) => ki,
            None => {
                let empty_vals: Vec<String> = Vec::new();
                proof {
                    assert(self.kv_exact_ok(query, empty_vals@)) by {
                        assert forall|v: Seq<char>| #[trigger]
                            vals_contain(empty_vals@, v) == self.kv_hit(query, v) by {
                            assert(!self.has_pair(query.key_field@, v));
                            assert(!vals_contain(empty_vals@, v));
                        }
                    }
                }
                proof {
                    assert(!self.dirty_applies(query));
                }
                return KeyValuesSearchResult::Exact(empty_vals);
            },
        };
        proof {
            self.lemma_key_idx_unique(ki as int);
            assert(bitmap_ids(records) =~= self.search_set(fv));
            assert(self.field_at(query.key_field@) == self.label_key_index@[ki as int].field);
        }
        let field = &self.label_key_index[ki].field;
        let value_count = field.field_map.len();
        let matched_count = bm_len(&records);
        proof {
            assert(value_count == self.field_at(query.key_field@).vals().len());
            assert(matched_count as nat == self.search_set(fv).len());
        }
        if query.query_flags.abort_early && (value_count as u64) > matched_count {
            let ids = bm_to_vec(&records);
            proof {
                assert(self.kv_dirty_ok(query, ids@));
                assert(self.dirty_applies(query));
            }
            return KeyValuesSearchResult::Dirty(ids);
        }
        proof {
            assert(!self.dirty_applies(query)) by {
                if query.query_flags.abort_early {
                    assert((value_count as u64) <= matched_count);
                }
            }
        }
        let out = field.values_intersecting(&records);
        proof {
            assert forall|v: Seq<char>| #[trigger]
                vals_contain(out@, v) == self.kv_hit(query, v) by {
                assert(fv == fields_view(query.search_fields@));
                assert(self.field_at(query.key_field@) == *field);
                if vals_contain(out@, v) {
                    let t = choose|t: int| 0 <= t < out@.len() && (#[trigger] out@[t])@ == v;
                    assert(field.has_val(out@[t]@) && exists|x: u32|
                        bitmap_ids(records).contains(x) && field.postings(
                            out@[t]@,
                        ).contains(x));
                    assert(self.has_pair(query.key_field@, v));
                    let x = choose|x: u32|
                        bitmap_ids(records).contains(x) && field.postings(v).contains(x);
                    assert(self.search_hit(fields_view(query.search_fields@), x)
                        && self.field_at(query.key_field@).postings(v).contains(x));
                    assert(self.kv_hit(query, v));
                }
                if self.kv_hit(query, v) {
                    let x = choose|x: u32|
                        #[trigger] self.search_hit(fields_view(query.search_fields@), x)
                            && self.field_at(query.key_field@).postings(v).contains(x);
                    assert(bitmap_ids(records).contains(x) && field.postings(v).contains(x));
                    assert(field.has_val(v));
                    assert(vals_contain(out@, v));
                }
            }
            assert(self.kv_exact_ok(query, out@));
        }
        KeyValuesSearchResult::Exact(out)
    }

}

/// Whether some string of the list spells `v`.
pub open spec fn vals_contain(vals: Seq<String>, v: Seq<char>) -> bool {
    exists|t: int| 0 <= t < vals.len() && (#[trigger] vals[t])@ == v
}

/// The shape of one indexing step: the entry at `ki` holds key `k0` and
/// gained the value `v0` with id `id`; every other entry is untouched.
/// Either the key already existed (`cur` and `mid` hold the same keys) or
/// it was appended at the end.
pub open spec fn step_shape(
    mid: Index,
    cur: Index,
    ki: int,
    k0: Seq<char>,
    v0: Seq<char>,
    id: u32,
) -> bool {
    &&& 0 <= ki < cur.keys().len()
    &&& cur.keys()[ki] == k0
    &&& ({
        ||| (cur.keys() == mid.keys() && mid.keys()[ki] == k0 && (forall|j: int|
            0 <= j < cur.keys().len() && j != ki ==> cur.label_key_index@[j]
                == mid.label_key_index@[j]) && field_step(
            mid.label_key_index@[ki].field,
            cur.label_key_index@[ki].field,
            v0,
            id,
        ))
        ||| (cur.keys() == mid.keys().push(k0) && ki == mid.keys().len() && !mid.has_key(k0)
            && (forall|j: int|
            0 <= j < mid.keys().len() ==> cur.label_key_index@[j] == mid.label_key_index@[j])
            && fresh_field(cur.label_key_index@[ki].field, v0, id))
    })
}

/// The value map `g` is `f` with id `id` added under value `v0`.
pub open spec fn field_step(f: Field, g: Field, v0: Seq<char>, id: u32) -> bool {
    &&& (forall|w: Seq<char>| #[trigger] g.has_val(w) == (f.has_val(w) || w == v0))
    &&& (forall|w: Seq<char>, x: u32|
        #[trigger] g.postings(w).contains(x) == (f.postings(w).contains(x) || (w == v0 && x
            == id)))
}

/// The value map `g` holds exactly id `id` under value `v0`.
pub open spec fn fresh_field(g: Field, v0: Seq<char>, id: u32) -> bool {
    &&& (forall|w: Seq<char>| #[trigger] g.has_val(w) == (w == v0))
    &&& (forall|w: Seq<char>, x: u32|
        #[trigger] g.postings(w).contains(x) == (w == v0 && x == id))
}

} // verus!
