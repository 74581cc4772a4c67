//! The engine's cross-cutting laws, each proved once and for all.
//!
//! The per-function contracts in the other modules state what each call
//! does; the proof functions here state what follows for whole runs:
//! duplicate inserts, lookups after inserts, the dirty key-values path,
//! and sharding.

use vstd::prelude::*;
use crate::backend::SingleStorageBackend;
use crate::lexer::{escape, find_close, is_key_char, is_space, key_run_end, lv_keyword,
    render_pair, render_record_spec, render_tail, skip_ws, sp_label_list, sp_parse_record,
    unescape};
use crate::query::{record_matches, FieldView, KeyValuesSearch};
use crate::record::{first_pair_val, record_has_pair, RecordView};
use crate::store::add_outcome;

verus! {

/// Inserting the same record twice yields an id the first time and a
/// duplicate the second, and the store grows by exactly one record over
/// the two calls.
pub proof fn lemma_duplicate_insert(s: Seq<RecordView>, r: RecordView)
    requires
        !(exists|i: int| 0 <= i < s.len() && s[i] == r),
    ensures
        add_outcome(s, r) == (s.push(r), Some(s.len() as int)),
        add_outcome(add_outcome(s, r).0, r) == (s.push(r), None::<int>),
        add_outcome(s, r).0.len() == s.len() + 1,
        add_outcome(add_outcome(s, r).0, r).0.len() == s.len() + 1,
{
    let s2 = s.push(r);
    assert(s2[s.len() as int] == r);
    assert(exists|i: int| 0 <= i < s2.len() && s2[i] == r);
}

/// A lookup of the id a fresh insert returned yields the inserted record.
pub proof fn lemma_get_after_add(s: Seq<RecordView>, r: RecordView)
    requires
        add_outcome(s, r).1 is Some,
    ensures
        add_outcome(s, r).0[add_outcome(s, r).1->Some_0] == r,
{
    assert(!(exists|i: int| 0 <= i < s.len() && s[i] == r));
    assert(add_outcome(s, r).0 == s.push(r));
}

/// A record holds at most one pair bearing the key `k`.
pub open spec fn unique_key(r: RecordView, k: Seq<char>) -> bool {
    forall|i: int, j: int|
        0 <= i < r.len() && 0 <= j < r.len() && (#[trigger] r[i]).0 == k && (#[trigger] r[j]).0
            == k ==> i == j
}

/// When a record holds the key `k` at most once, reading the first pair
/// with that key reports exactly the values the record holds under it:
/// post-filtering records and intersecting posting lists agree.
pub proof fn lemma_first_pair_exact(r: RecordView, k: Seq<char>, v: Seq<char>)
    requires
        unique_key(r, k),
    ensures
        record_has_pair(r, k, v) == (first_pair_val(r, k) == Some(v)),
    decreases r.len(),
{
    if r.len() > 0 {
        if r[0].0 == k {
            assert(first_pair_val(r, k) == Some(r[0].1));
            if record_has_pair(r, k, v) {
                let i = choose|i: int| 0 <= i < r.len() && r[i].0 == k && r[i].1 == v;
                assert(i == 0);
            }
            if first_pair_val(r, k) == Some(v) {
                assert(r[0].0 == k && r[0].1 == v);
            }
        } else {
            assert(unique_key(r.skip(1), k)) by {
                assert(forall|i: int|
                    0 <= i < r.skip(1).len() ==> #[trigger] r.skip(1)[i] == r[i + 1]);
            }
            lemma_first_pair_exact(r.skip(1), k, v);
            assert(record_has_pair(r, k, v) == record_has_pair(r.skip(1), k, v)) by {
                if record_has_pair(r, k, v) {
                    let i = choose|i: int|
                        0 <= i < r.len() && r[i].0 == k && r[i].1 == v;
                    assert(i >= 1);
                    assert(r.skip(1)[i - 1] == r[i]);
                }
                if record_has_pair(r.skip(1), k, v) {
                    let i = choose|i: int|
                        0 <= i < r.skip(1).len() && r.skip(1)[i].0 == k && r.skip(1)[i].1
                            == v;
                    assert(r[i + 1] == r.skip(1)[i]);
                }
            }
        }
    }
}

/// When every stored record holds the target key at most once, the
/// post-filtering (`Dirty`) answer and the index (`Exact`) answer of a
/// key-values search name the same values: the `abort_early` flag changes
/// the latency profile, never the result set.
pub proof fn lemma_dirty_exact_agree(
    b: &SingleStorageBackend,
    query: &KeyValuesSearch,
    v: Seq<char>,
)
    requires
        forall|i: int|
            0 <= i < b.recs().len() ==> unique_key(#[trigger] b.recs()[i], query.key_field@),
    ensures
        b.some_match_with_first(query, v) == b.some_match_with_pair(query, v),
{
    if b.some_match_with_first(query, v) {
        let i = choose|i: int|
            0 <= i < b.recs().len() && record_matches(
                #[trigger] b.recs()[i],
                crate::query::fields_view(query.search_fields@),
            ) && first_pair_val(b.recs()[i], query.key_field@) == Some(v);
        lemma_first_pair_exact(b.recs()[i], query.key_field@, v);
        assert(record_has_pair(b.recs()[i], query.key_field@, v));
    }
    if b.some_match_with_pair(query, v) {
        let i = choose|i: int|
            0 <= i < b.recs().len() && record_matches(
                #[trigger] b.recs()[i],
                crate::query::fields_view(query.search_fields@),
            ) && record_has_pair(b.recs()[i], query.key_field@, v);
        lemma_first_pair_exact(b.recs()[i], query.key_field@, v);
        assert(first_pair_val(b.recs()[i], query.key_field@) == Some(v));
    }
}

/// The records of a collection of shards that match a selector.
pub open spec fn matched_set(recs: Seq<RecordView>, fields: Seq<FieldView>) -> Set<RecordView> {
    Set::new(|r: RecordView| recs.contains(r) && record_matches(r, fields))
}

/// Splitting the records across two shards does not change which records
/// a selector matches: the union of the shards' matched sets is the
/// matched set of all records together.  Applied inductively, any shard
/// count yields the same result set.
pub proof fn lemma_shard_split(a: Seq<RecordView>, b: Seq<RecordView>, fields: Seq<FieldView>)
    ensures
        matched_set(a + b, fields) =~= matched_set(a, fields).union(matched_set(b, fields)),
{
    assert forall|r: RecordView| #[trigger]
        matched_set(a + b, fields).contains(r) == matched_set(a, fields).union(
        matched_set(b, fields),
    ).contains(r) by {
        if (a + b).contains(r) {
            let i = choose|i: int| 0 <= i < (a + b).len() && (a + b)[i] == r;
            if i < a.len() {
                assert(a[i] == r);
            } else {
                assert(b[i - a.len()] == r);
            }
        }
        if a.contains(r) {
            let i = choose|i: int| 0 <= i < a.len() && a[i] == r;
            assert((a + b)[i] == r);
        }
        if b.contains(r) {
            let i = choose|i: int| 0 <= i < b.len() && b[i] == r;
            assert((a + b)[a.len() + i] == r);
        }
    }
}

/// A record the renderer can round-trip: at least one pair, every key a
/// nonempty bareword, and no key spelled like the `label_values` keyword
/// (which the tokenizer would read as that keyword, not as a key).
pub open spec fn renderable(r: RecordView) -> bool {
    &&& r.len() > 0
    &&& (forall|t: int|
        0 <= t < r.len() ==> {
            &&& (#[trigger] r[t]).0.len() > 0
            &&& (forall|j: int| 0 <= j < r[t].0.len() ==> is_key_char(#[trigger] r[t].0[j]))
            &&& r[t].0 != lv_keyword()
        })
}

/// Unescaping undoes escaping: the renderer's quoting loses nothing.
pub proof fn lemma_unescape_escape(v: Seq<char>)
    ensures
        unescape(escape(v)) == v,
    decreases v.len(),
{
    if v.len() == 0 {
        assert(unescape(escape(v)) =~= v);
    } else {
        lemma_unescape_escape(v.skip(1));
        let e = escape(v);
        if v[0] == '"' || v[0] == '\\' {
            assert(e == seq!['\\', v[0]] + escape(v.skip(1)));
            assert(e[0] == '\\' && e.len() >= 2 && e[1] == v[0]);
            assert(e.skip(2) =~= escape(v.skip(1)));
            assert(unescape(e) == seq![v[0]] + unescape(escape(v.skip(1))));
            assert(unescape(e) =~= v);
        } else {
            assert(e == seq![v[0]] + escape(v.skip(1)));
            assert(e[0] == v[0]);
            assert(e[0] != '\\');
            assert(e.skip(1) =~= escape(v.skip(1)));
            assert(unescape(e) == seq![v[0]] + unescape(escape(v.skip(1))));
            assert(unescape(e) =~= v);
        }
    }
}

/// A maximal key run over a stretch of key characters ends exactly where
/// the stretch ends.
proof fn lemma_key_run(s: Seq<char>, i: int, k: Seq<char>)
    requires
        0 <= i,
        i + k.len() <= s.len(),
        s.subrange(i, i + k.len()) == k,
        forall|j: int| 0 <= j < k.len() ==> is_key_char(#[trigger] k[j]),
        i + k.len() == s.len() || !is_key_char(s[i + k.len()]),
    ensures
        key_run_end(s, i) == i + k.len(),
    decreases k.len(),
{
    if k.len() == 0 {
        assert(i == s.len() || !is_key_char(s[i]));
    } else {
        assert(s[i] == k[0]) by {
            assert(s.subrange(i, i + k.len())[0] == s[i]);
        }
        assert(is_key_char(s[i]));
        assert(s.subrange(i + 1, i + 1 + k.skip(1).len()) =~= k.skip(1)) by {
            assert(forall|t: int|
                0 <= t < k.len() ==> #[trigger] s.subrange(i, i + k.len())[t] == s[i + t]);
        }
        lemma_key_run(s, i + 1, k.skip(1));
    }
}

/// Scanning an escaped body finds the closing quote right after it.
proof fn lemma_find_close_escape(s: Seq<char>, i: int, v: Seq<char>)
    requires
        0 <= i,
        i + escape(v).len() < s.len(),
        forall|t: int| 0 <= t < escape(v).len() ==> #[trigger] s[i + t] == escape(v)[t],
        s[i + escape(v).len()] == '"',
    ensures
        find_close(s, i) == Some(i + escape(v).len()),
    decreases v.len(),
{
    let e = escape(v);
    if v.len() == 0 {
        assert(s[i] == '"') by {
            assert(e.len() == 0);
        }
    } else {
        let e2 = escape(v.skip(1));
        if v[0] == '"' || v[0] == '\\' {
            assert(e == seq!['\\', v[0]] + escape(v.skip(1)));
            assert(e.len() == 2 + e2.len());
            assert(s[i] == '\\') by {
                assert(s[i + 0] == e[0]);
                assert(e[0] == '\\');
                assert(s[i] == s[i + 0]);
            }
            assert(s[i] != '"');
            assert(i + 2 <= s.len());
            assert forall|t: int| 0 <= t < e2.len() implies #[trigger] s[(i + 2) + t] == e2[
                t] by {
                assert(e[2 + t] == e2[t]);
                assert(s[i + (2 + t)] == e[2 + t]);
                assert(s[(i + 2) + t] == s[i + (2 + t)]);
            }
            assert(s[(i + 2) + e2.len()] == '"') by {
                assert(s[i + (2 + e2.len())] == '"');
            }
            lemma_find_close_escape(s, i + 2, v.skip(1));
        } else {
            assert(e == seq![v[0]] + escape(v.skip(1)));
            assert(e.len() == 1 + e2.len());
            assert(s[i] == v[0]) by {
                assert(s[i + 0] == e[0]);
                assert(e[0] == v[0]);
                assert(s[i] == s[i + 0]);
            }
            assert(s[i] != '"' && s[i] != '\\');
            assert forall|t: int| 0 <= t < e2.len() implies #[trigger] s[(i + 1) + t] == e2[
                t] by {
                assert(e[1 + t] == e2[t]);
                assert(s[i + (1 + t)] == e[1 + t]);
                assert(s[(i + 1) + t] == s[i + (1 + t)]);
            }
            assert(s[(i + 1) + e2.len()] == '"') by {
                assert(s[i + (1 + e2.len())] == '"');
            }
            lemma_find_close_escape(s, i + 1, v.skip(1));
        }
    }
}

/// A key character is never whitespace.
proof fn lemma_key_char_not_space(c: char)
    requires
        is_key_char(c),
    ensures
        !is_space(c),
{
}

/// Skipping whitespace at a non-space character stays put.
proof fn lemma_skip_ws_here(s: Seq<char>, i: int)
    requires
        0 <= i < s.len(),
        !is_space(s[i]),
    ensures
        skip_ws(s, i) == i,
{
}

/// Parsing the rendered tail of a renderable record from position `i`
/// yields exactly the record's pairs and consumes the whole text.
proof fn lemma_label_list_render(s: Seq<char>, i: int, r: RecordView)
    requires
        0 <= i <= s.len(),
        s.skip(i) == render_tail(r),
        renderable(r),
    ensures
        sp_label_list(s, i) == Some((r, s.len() as int)),
    decreases r.len(),
{
    let rt = render_tail(r);
    let k = r[0].0;
    let v = r[0].1;
    let p = render_pair(r[0]);
    let kl = k.len() as int;
    let el = escape(v).len() as int;
    assert(p =~= k + seq!['='] + seq!['"'] + escape(v) + seq!['"']);
    assert(p.len() == kl + 3 + el);
    assert(s.len() - i == rt.len()) by {
        assert(s.skip(i).len() == s.len() - i);
    }
    assert(forall|t: int| 0 <= t < rt.len() ==> #[trigger] s[i + t] == rt[t]) by {
        assert(forall|t: int| 0 <= t < rt.len() ==> #[trigger] s.skip(i)[t] == s[i + t]);
    }
    // the rendered tail starts with the rendered pair
    assert(forall|t: int| 0 <= t < p.len() ==> #[trigger] rt[t] == p[t]) by {
        if r.len() == 1 {
            assert(rt == p + seq!['}']);
        } else {
            assert(rt == p + seq![','] + render_tail(r.skip(1)));
        }
    }
    assert(forall|t: int| 0 <= t < kl ==> #[trigger] p[t] == k[t]);
    assert(p[kl] == '=' && p[kl + 1] == '"');
    assert(forall|t: int| 0 <= t < el ==> #[trigger] p[kl + 2 + t] == escape(v)[t]);
    assert(p[kl + 2 + el] == '"');
    // the character after the pair: a comma or the closing brace
    let sep = rt[p.len() as int];
    assert(sep == ',' || sep == '}') by {
        if r.len() == 1 {
            assert(rt == p + seq!['}']);
        } else {
            assert(rt == p + seq![','] + render_tail(r.skip(1)));
        }
    }
    // the first key character pins the whitespace skip and the key run
    assert(s[i] == k[0]) by {
        assert(s[i + 0] == rt[0]);
        assert(s[i] == s[i + 0]);
        assert(rt[0] == p[0]);
        assert(p[0] == k[0]);
    }
    assert(is_key_char(k[0]));
    lemma_key_char_not_space(k[0]);
    lemma_skip_ws_here(s, i);
    assert(skip_ws(s, i) == i);
    assert(s.subrange(i, i + kl) =~= k) by {
        assert forall|t: int| 0 <= t < kl implies s.subrange(i, i + kl)[t] == k[t] by {
            assert(s.subrange(i, i + kl)[t] == s[i + t]);
            assert(s[i + t] == rt[t]);
            assert(rt[t] == p[t]);
            assert(p[t] == k[t]);
        }
    }
    assert(s[i + kl] == '=') by {
        assert(s[i + kl] == rt[kl]);
        assert(rt[kl] == p[kl]);
    }
    assert(!is_key_char('='));
    lemma_key_run(s, i, k);
    assert(key_run_end(s, i) == i + kl);
    lemma_skip_ws_here(s, i + kl);
    assert(skip_ws(s, i + kl) == i + kl);
    assert(s[i + (kl + 1)] == '"') by {
        assert(s[i + (kl + 1)] == rt[kl + 1]);
        assert(rt[kl + 1] == p[kl + 1]);
    }
    assert((i + kl) + 1 == i + (kl + 1));
    assert(s[(i + kl) + 1] == '"');
    assert(crate::lexer::at_eq(s, i + kl));
    lemma_skip_ws_here(s, i + kl + 1);
    assert(skip_ws(s, (i + kl) + 1) == i + kl + 1);
    assert forall|t: int| 0 <= t < el implies #[trigger] s[(i + kl + 2) + t] == escape(v)[
        t] by {
        assert(s[i + (kl + 2 + t)] == rt[kl + 2 + t]);
        assert(rt[kl + 2 + t] == p[kl + 2 + t]);
        assert(p[kl + 2 + t] == escape(v)[t]);
        assert(s[(i + kl + 2) + t] == s[i + (kl + 2 + t)]);
    }
    assert(s[(i + kl + 2) + el] == '"') by {
        assert(s[i + (kl + 2 + el)] == rt[kl + 2 + el]);
        assert(rt[kl + 2 + el] == p[kl + 2 + el]);
        assert(p[kl + 2 + el] == '"');
    }
    lemma_find_close_escape(s, i + kl + 2, v);
    let q = (i + kl + 2) + el;
    assert(find_close(s, (i + kl + 1) + 1) == Some(q)) by {
        assert((i + kl + 1) + 1 == i + kl + 2);
    }
    assert(s.subrange(i + kl + 2, q) =~= escape(v)) by {
        assert forall|t: int|
            0 <= t < el implies s.subrange(i + kl + 2, q)[t] == escape(v)[t] by {
            assert(s.subrange(i + kl + 2, q)[t] == s[(i + kl + 2) + t]);
        }
    }
    assert(unescape(s.subrange(i + kl + 2, q)) == v) by {
        lemma_unescape_escape(v);
    }
    assert(s[q + 1] == sep) by {
        assert(s[i + (kl + 3 + el)] == rt[kl + 3 + el]);
        assert(rt[kl + 3 + el] == rt[p.len() as int]);
        assert(q + 1 == i + (kl + 3 + el));
    }
    assert(!is_space(',') && !is_space('}'));
    lemma_skip_ws_here(s, q + 1);
    assert(skip_ws(s, q + 1) == q + 1);
    if r.len() == 1 {
        assert(rt == p + seq!['}']);
        assert(sep == '}');
        assert(sep != ',');
        assert(q + 2 == s.len()) by {
            assert(rt.len() == p.len() + 1);
        }
        assert(sp_label_list(s, i) == Some((seq![(k, v)], q + 2)));
        assert(seq![(k, v)] =~= r) by {
            assert(r[0] == (k, v));
        }
    } else {
        assert(rt == p + seq![','] + render_tail(r.skip(1)));
        assert(sep == ',');
        let rt2 = render_tail(r.skip(1));
        assert(s.skip(q + 2) =~= rt2) by {
            assert(s.skip(q + 2).len() == rt2.len()) by {
                assert(rt.len() == p.len() + 1 + rt2.len());
            }
            assert forall|t: int| 0 <= t < rt2.len() implies s.skip(q + 2)[t] == rt2[t] by {
                assert(s.skip(q + 2)[t] == s[(q + 2) + t]);
                assert(s[i + (kl + 4 + el + t)] == rt[kl + 4 + el + t]);
                assert((q + 2) + t == i + (kl + 4 + el + t));
                assert(rt[kl + 4 + el + t] == (p + seq![','] + rt2)[p.len() + 1 + t]);
                assert((p + seq![','] + rt2)[p.len() + 1 + t] == rt2[t]);
            }
        }
        assert(renderable(r.skip(1))) by {
            assert(forall|t: int|
                0 <= t < r.skip(1).len() ==> #[trigger] r.skip(1)[t] == r[t + 1]);
        }
        lemma_label_list_render(s, q + 2, r.skip(1));
        assert(sp_label_list(s, q + 2) == Some((r.skip(1), s.len() as int)));
        assert((q + 1) + 1 == q + 2);
        assert(sp_label_list(s, i) == Some((seq![(k, v)] + r.skip(1), s.len() as int)));
        assert(seq![(k, v)] + r.skip(1) =~= r) by {
            assert(r[0] == (k, v));
            assert(forall|t: int|
                0 <= t < r.skip(1).len() ==> #[trigger] r.skip(1)[t] == r[t + 1]);
        }
    }
}

/// The parser round-trip: rendering a renderable record and parsing the
/// rendered text yields the record back, exactly.
pub proof fn lemma_parse_render_roundtrip(r: RecordView)
    requires
        renderable(r),
    ensures
        sp_parse_record(render_record_spec(r)) == Some(r),
{
    let s = render_record_spec(r);
    assert(s == seq!['{'] + render_tail(r));
    assert(s[0] == '{');
    assert(!is_space('{'));
    lemma_skip_ws_here(s, 0);
    assert(skip_ws(s, 0) == 0);
    assert(s.skip(1) =~= render_tail(r)) by {
        assert(forall|t: int|
            0 <= t < render_tail(r).len() ==> #[trigger] s.skip(1)[t] == s[1 + t]);
        assert(forall|t: int|
            0 <= t < render_tail(r).len() ==> #[trigger] s[1 + t] == render_tail(r)[t]);
    }
    lemma_label_list_render(s, 1, r);
}

/// All the records of a sequence of shards, shard by shard.
pub open spec fn flatten_shards(parts: Seq<Seq<RecordView>>) -> Seq<RecordView>
    decreases parts.len(),
{
    if parts.len() == 0 {
        Seq::empty()
    } else {
        parts[0] + flatten_shards(parts.skip(1))
    }
}

/// The union of the per-shard matched sets.
pub open spec fn union_matched(parts: Seq<Seq<RecordView>>, fields: Seq<FieldView>) -> Set<
    RecordView,
>
    decreases parts.len(),
{
    if parts.len() == 0 {
        Set::empty()
    } else {
        matched_set(parts[0], fields).union(union_matched(parts.skip(1), fields))
    }
}

/// However many shards the records are spread over, the union of the
/// shards' answers is the answer over all records together: the shard
/// count never changes a query's result set.
pub proof fn lemma_shard_count_irrelevant(parts: Seq<Seq<RecordView>>, fields: Seq<FieldView>)
    ensures
        matched_set(flatten_shards(parts), fields) =~= union_matched(parts, fields),
    decreases parts.len(),
{
    if parts.len() == 0 {
        assert forall|r: RecordView|
            !(#[trigger] matched_set(flatten_shards(parts), fields).contains(r)) by {
            assert(!flatten_shards(parts).contains(r));
        }
    } else {
        lemma_shard_count_irrelevant(parts.skip(1), fields);
        lemma_shard_split(parts[0], flatten_shards(parts.skip(1)), fields);
    }
}

} // verus!
