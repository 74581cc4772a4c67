//! Record types: label pairs as they arrive from the wire and as they are
//! stored by a shard.
//!
//! Both forms view as a sequence of `(key, value)` character-sequence pairs,
//! so parsed records, stored records and query results can be compared in
//! contracts regardless of which concrete type holds them.

use vstd::prelude::*;

verus! {

/// The view of one label pair: its key and value as character sequences.
pub type PairView = (Seq<char>, Seq<char>);

/// The view of a record: its label pairs in input order.
pub type RecordView = Seq<PairView>;

/// A label pair as parsed from the wire.
pub struct LabelPair {
    pub key: String,
    pub val: String,
}

impl View for LabelPair {
    type V = PairView;

    open spec fn view(&self) -> PairView {
        (self.key@, self.val@)
    }
}

impl LabelPair {
    pub fn new(key: &str, val: &str) -> (r: LabelPair)
        ensures
            r@ == (key@, val@),
    {
        LabelPair { key: key.to_owned(), val: val.to_owned() }
    }
}

/// A record as parsed from the wire: an ordered sequence of label pairs.
pub struct Record {
    pub label_pairs: Vec<LabelPair>,
}

impl View for Record {
    type V = RecordView;

    open spec fn view(&self) -> RecordView {
        self.label_pairs@.map_values(|p: LabelPair| p@)
    }
}

/// A label pair as stored by a shard, after interning.
pub struct RCLabelPair {
    pub key: String,
    pub val: String,
}

impl View for RCLabelPair {
    type V = PairView;

    open spec fn view(&self) -> PairView {
        (self.key@, self.val@)
    }
}

impl RCLabelPair {
    pub fn new(key: &str, val: &str) -> (r: RCLabelPair)
        ensures
            r@ == (key@, val@),
    {
        RCLabelPair { key: key.to_owned(), val: val.to_owned() }
    }

    /// A content-equal copy of this pair.
    pub fn duplicate(&self) -> (r: RCLabelPair)
        ensures
            r@ == self@,
    {
        RCLabelPair { key: self.key.clone(), val: self.val.clone() }
    }
}

/// A record as stored by a shard: an ordered sequence of interned label pairs.
pub struct RCRecord {
    pub label_pairs: Vec<RCLabelPair>,
}

impl View for RCRecord {
    type V = RecordView;

    open spec fn view(&self) -> RecordView {
        self.label_pairs@.map_values(|p: RCLabelPair| p@)
    }
}

impl RCRecord {
    pub fn new(pairs: Vec<RCLabelPair>) -> (r: RCRecord)
        ensures
            r@ == pairs@.map_values(|p: RCLabelPair| p@),
    {
        RCRecord { label_pairs: pairs }
    }

    /// A content-equal copy of this record.
    pub fn duplicate(&self) -> (r: RCRecord)
        ensures
            r@ == self@,
    {
        let mut pairs: Vec<RCLabelPair> = Vec::new();
        let n = self.label_pairs.len();
        for i in 0..n
            invariant
                n == self.label_pairs.len(),
                pairs@.len() == i,
                forall|j: int| 0 <= j < i ==> pairs@[j]@ == self.label_pairs@[j]@,
        {
            pairs.push(self.label_pairs[i].duplicate());
        }
        let r = RCRecord { label_pairs: pairs };
        proof {
            assert(r@ =~= self@);
        }
        r
    }

    /// Whether this record holds exactly the same label pairs, in the same
    /// order, as `other`.
    pub fn content_eq(&self, other: &RCRecord) -> (r: bool)
        ensures
            r == (self@ == other@),
    {
        if self.label_pairs.len() != other.label_pairs.len() {
            proof {
                assert(self@.len() != other@.len());
            }
            return false;
        }
        let n = self.label_pairs.len();
        for i in 0..n
            invariant
                n == self.label_pairs.len(),
                n == other.label_pairs.len(),
                forall|j: int| 0 <= j < i ==> self@[j] == other@[j],
        {
            let a = &self.label_pairs[i];
            let b = &other.label_pairs[i];
            if !(a.key == b.key && a.val == b.val) {
                proof {
                    assert(self@[i as int] != other@[i as int]);
                }
                return false;
            }
            proof {
                assert(self@[i as int] == other@[i as int]);
            }
        }
        proof {
            assert(self@ =~= other@);
        }
        true
    }
}

/// Whether `r` holds the pair `(k, v)`.
pub open spec fn record_has_pair(r: RecordView, k: Seq<char>, v: Seq<char>) -> bool {
    exists|i: int| 0 <= i < r.len() && r[i].0 == k && r[i].1 == v
}

/// Whether `r` holds some pair whose key is `k`.
pub open spec fn record_has_key(r: RecordView, k: Seq<char>) -> bool {
    exists|i: int| 0 <= i < r.len() && r[i].0 == k
}

/// The value of the first pair bearing key `k`, if any.  Later pairs with
/// the same key are not reported.
pub open spec fn first_pair_val(r: RecordView, k: Seq<char>) -> Option<Seq<char>>
    decreases r.len(),
{
    if r.len() == 0 {
        None
    } else if r[0].0 == k {
        Some(r[0].1)
    } else {
        first_pair_val(r.skip(1), k)
    }
}

/// Appending the pair `(k0, v0)` makes a record hold key `k` exactly when
/// it already did or `k` is `k0`.
pub proof fn lemma_take_push_key(s: RecordView, k0: Seq<char>, v0: Seq<char>, k: Seq<char>)
    ensures
        record_has_key(s.push((k0, v0)), k) == (record_has_key(s, k) || k == k0),
{
    let t = s.push((k0, v0));
    if record_has_key(t, k) {
        let i = choose|i: int| 0 <= i < t.len() && t[i].0 == k;
        if i < s.len() {
            assert(s[i].0 == k);
        } else {
            assert(t[i] == (k0, v0));
        }
    }
    if record_has_key(s, k) {
        let i = choose|i: int| 0 <= i < s.len() && s[i].0 == k;
        assert(t[i].0 == k);
    }
    if k == k0 {
        assert(t[s.len() as int] == (k0, v0));
        assert(t[s.len() as int].0 == k);
    }
}

/// Appending the pair `(k0, v0)` makes a record hold the pair `(k, v)`
/// exactly when it already did or `(k, v)` is `(k0, v0)`.
pub proof fn lemma_take_push_pair(
    s: RecordView,
    k0: Seq<char>,
    v0: Seq<char>,
    k: Seq<char>,
    v: Seq<char>,
)
    ensures
        record_has_pair(s.push((k0, v0)), k, v) == (record_has_pair(s, k, v) || (k == k0 && v
            == v0)),
{
    let t = s.push((k0, v0));
    if record_has_pair(t, k, v) {
        let i = choose|i: int| 0 <= i < t.len() && t[i].0 == k && t[i].1 == v;
        if i < s.len() {
            assert(s[i].0 == k && s[i].1 == v);
        } else {
            assert(t[i] == (k0, v0));
        }
    }
    if record_has_pair(s, k, v) {
        let i = choose|i: int| 0 <= i < s.len() && s[i].0 == k && s[i].1 == v;
        assert(t[i].0 == k && t[i].1 == v);
    }
    if k == k0 && v == v0 {
        assert(t[s.len() as int] == (k0, v0));
        assert(t[s.len() as int].0 == k && t[s.len() as int].1 == v);
    }
}

} // verus!
