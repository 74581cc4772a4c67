//! Lexicographic order and prefix reasoning over character sequences.
//!
//! The index keeps each key's value map sorted by this order (code-point
//! order, which coincides with byte order of the UTF-8 encodings), so that
//! all values sharing a literal prefix form one contiguous run of the map.

use vstd::prelude::*;

verus! {

/// Strict lexicographic order on character sequences by code point.
pub open spec fn lex_lt(a: Seq<char>, b: Seq<char>) -> bool
    decreases a.len(),
{
    if b.len() == 0 {
        false
    } else if a.len() == 0 {
        true
    } else if a[0] != b[0] {
        a[0] < b[0]
    } else {
        lex_lt(a.skip(1), b.skip(1))
    }
}

/// Whether `p` is a prefix of `v` (possibly all of it).
pub open spec fn is_prefix_of(p: Seq<char>, v: Seq<char>) -> bool {
    p.len() <= v.len() && v.subrange(0, p.len() as int) == p
}

pub proof fn lemma_lex_lt_irreflexive(a: Seq<char>)
    ensures
        !lex_lt(a, a),
    decreases a.len(),
{
    if a.len() > 0 {
        lemma_lex_lt_irreflexive(a.skip(1));
    }
}

/// Exactly one of `a < b`, `a == b`, `b < a` holds.
pub proof fn lemma_lex_lt_trichotomy(a: Seq<char>, b: Seq<char>)
    ensures
        lex_lt(a, b) || lex_lt(b, a) || a == b,
        lex_lt(a, b) ==> !lex_lt(b, a) && a != b,
        lex_lt(b, a) ==> !lex_lt(a, b) && a != b,
    decreases a.len(),
{
    lemma_lex_lt_irreflexive(a);
    lemma_lex_lt_irreflexive(b);
    if a.len() == 0 && b.len() == 0 {
        assert(a =~= b);
    } else if a.len() > 0 && b.len() > 0 {
        if a[0] == b[0] {
            lemma_lex_lt_trichotomy(a.skip(1), b.skip(1));
            if a.skip(1) == b.skip(1) {
                assert(a =~= b) by {
                    assert(forall|i: int|
                        1 <= i < a.len() ==> a[i] == a.skip(1)[i - 1] && b[i] == b.skip(1)[i
                            - 1]);
                }
            }
        }
    }
}

pub proof fn lemma_lex_lt_transitive(a: Seq<char>, b: Seq<char>, c: Seq<char>)
    requires
        lex_lt(a, b),
        lex_lt(b, c),
    ensures
        lex_lt(a, c),
    decreases a.len(),
{
    if b.len() == 0 {
        // lex_lt(a, b) impossible
    } else if a.len() == 0 {
        // c.len() > 0 since lex_lt(b, c) with b nonempty
    } else {
        // a, b, c all nonempty here
        if a[0] == b[0] && b[0] == c[0] {
            lemma_lex_lt_transitive(a.skip(1), b.skip(1), c.skip(1));
        }
    }
}

/// A prefix never comes strictly after what it prefixes.
pub proof fn lemma_prefix_not_gt(p: Seq<char>, v: Seq<char>)
    requires
        is_prefix_of(p, v),
    ensures
        !lex_lt(v, p),
    decreases p.len(),
{
    if p.len() > 0 {
        assert(v[0] == p[0]);
        assert(is_prefix_of(p.skip(1), v.skip(1))) by {
            assert(v.skip(1).subrange(0, p.len() - 1) =~= v.subrange(0, p.len() as int).skip(
                1,
            ));
        }
        lemma_prefix_not_gt(p.skip(1), v.skip(1));
    }
}

/// In lexicographic order, the strings extending a prefix `p` form one
/// contiguous run: any `w` at or past `p` that does not start with `p`
/// comes strictly after every `v` that does.
pub proof fn lemma_prefix_run_contiguous(p: Seq<char>, v: Seq<char>, w: Seq<char>)
    requires
        is_prefix_of(p, v),
        !is_prefix_of(p, w),
        !lex_lt(w, p),
    ensures
        lex_lt(v, w),
    decreases p.len(),
{
    if p.len() == 0 {
        // every string starts with the empty prefix
        assert(w.subrange(0, 0) =~= p);
    } else if w.len() == 0 {
        // then lex_lt(w, p) since p is nonempty
    } else {
        assert(v.len() > 0 && v[0] == p[0]);
        if w[0] == p[0] {
            assert(is_prefix_of(p.skip(1), v.skip(1))) by {
                assert(v.skip(1).subrange(0, p.len() - 1) =~= v.subrange(
                    0,
                    p.len() as int,
                ).skip(1));
            }
            assert(!is_prefix_of(p.skip(1), w.skip(1))) by {
                if is_prefix_of(p.skip(1), w.skip(1)) {
                    assert(w.subrange(0, p.len() as int) =~= seq![w[0]] + w.skip(1).subrange(
                        0,
                        p.len() - 1,
                    ));
                    assert(p =~= seq![p[0]] + p.skip(1));
                }
            }
            lemma_prefix_run_contiguous(p.skip(1), v.skip(1), w.skip(1));
        } else {
            // w[0] != p[0]; since !lex_lt(w, p), p[0] < w[0], and v[0] == p[0]
            assert(lex_lt(v, w));
        }
    }
}

/// Executable strict-order test, answering the spec order on the views.
pub fn str_lt(a: &str, b: &str) -> (r: bool)
    ensures
        r == lex_lt(a@, b@),
{
    let a_len = a.unicode_len();
    let b_len = b.unicode_len();
    let mut i: usize = 0;
    proof {
        assert(a@.skip(0) =~= a@);
        assert(b@.skip(0) =~= b@);
    }
    loop
        invariant
            i <= a_len,
            i <= b_len,
            a_len == a@.len(),
            b_len == b@.len(),
            forall|j: int| 0 <= j < i ==> a@[j] == b@[j],
            lex_lt(a@, b@) == lex_lt(a@.skip(i as int), b@.skip(i as int)),
        decreases a_len - i,
    {
        if i == b_len {
            proof {
                assert(b@.skip(i as int).len() == 0);
            }
            return false;
        }
        if i == a_len {
            proof {
                assert(a@.skip(i as int).len() == 0 && b@.skip(i as int).len() > 0);
            }
            return true;
        }
        let ca = a.get_char(i);
        let cb = b.get_char(i);
        if ca != cb {
            proof {
                assert(a@.skip(i as int)[0] == a@[i as int]);
                assert(b@.skip(i as int)[0] == b@[i as int]);
            }
            return ca < cb;
        }
        proof {
            assert(a@.skip(i as int).skip(1) =~= a@.skip(i + 1));
            assert(b@.skip(i as int).skip(1) =~= b@.skip(i + 1));
            assert(a@.skip(i as int)[0] == a@[i as int]);
            assert(b@.skip(i as int)[0] == b@[i as int]);
        }
        i = i + 1;
    }
}

/// Executable prefix test, answering the spec predicate on the views.
pub fn str_starts_with(v: &str, p: &str) -> (r: bool)
    ensures
        r == is_prefix_of(p@, v@),
{
    let v_len = v.unicode_len();
    let p_len = p.unicode_len();
    if p_len > v_len {
        return false;
    }
    let mut i: usize = 0;
    while i < p_len
        invariant
            i <= p_len,
            p_len <= v_len,
            p_len == p@.len(),
            v_len == v@.len(),
            forall|j: int| 0 <= j < i ==> v@[j] == p@[j],
        decreases p_len - i,
    {
        if v.get_char(i) != p.get_char(i) {
            proof {
                assert(v@.subrange(0, p@.len() as int)[i as int] != p@[i as int]);
            }
            return false;
        }
        i = i + 1;
    }
    proof {
        assert(v@.subrange(0, p@.len() as int) =~= p@);
    }
    true
}

} // verus!
