//! Anchored regular-expression matching and literal-prefix extraction,
//! through the `regex` and `regex-syntax` crates.
//!
//! A query predicate `key =~ "p"` matches a value `v` when `p` matches
//! the whole of `v`.  The pattern is compiled anchored as `^(?:p)$` (the
//! group keeps the anchors binding tighter than any alternation in `p`).
//! That relation is named by the uninterpreted functions below:
//! `pattern_ok(p)` stands for "`^(?:p)$` compiles", and `accepts(p, v)`
//! stands for "`^(?:p)$` compiles and matches `v`" (so `accepts(p, v)` is
//! false for every `v` when `p` does not compile).  Both depend on their
//! arguments alone.

use vstd::prelude::*;
use crate::strkit::is_prefix_of;

verus! {

pub uninterp spec fn pattern_ok(p: Seq<char>) -> bool;

pub uninterp spec fn accepts(p: Seq<char>, v: Seq<char>) -> bool;

/// The literal prefixes the extractor computes for a pattern, each with
/// its cut mark.  Extraction is deterministic, so this is a function of
/// the pattern text alone.
pub uninterp spec fn prefixes_of(p: Seq<char>) -> Seq<(bool, Seq<char>)>;

/// Whether extraction yields a usable list for the pattern: the pattern
/// parses and every extracted literal is valid UTF-8.  A function of the
/// pattern text alone.
pub uninterp spec fn prefixes_extractable(p: Seq<char>) -> bool;

/// The views of a literal list: each entry's cut mark and text.
pub open spec fn lit_views(lits: Seq<(bool, String)>) -> Seq<(bool, Seq<char>)> {
    lits.map_values(|l: (bool, String)| (l.0, l.1@))
}

/// Relies on `regex::Regex::new`: whether a pattern compiles is a function
/// of the pattern text alone.
#[verifier::external_body]
pub(crate) fn pattern_valid(pattern: &str) -> (r: bool)
    ensures
        r == pattern_ok(pattern@),
{
    regex::Regex::new(format!("^(?:{})$", pattern).as_str()).is_ok()
}

/// Relies on `regex::Regex::new` and `regex::Regex::is_match`: whether the
/// anchored pattern matches a value is a function of the pattern and the
/// value alone.
#[verifier::external_body]
pub(crate) fn pattern_matches(pattern: &str, value: &str) -> (r: bool)
    requires
        pattern_ok(pattern@),
    ensures
        r == accepts(pattern@, value@),
{
    regex::Regex::new(format!("^(?:{})$", pattern).as_str()).unwrap().is_match(value)
}

/// Relies on `regex_syntax::Parser::parse` and
/// `regex_syntax::hir::literal::Literals::prefixes`: every string the
/// pattern can match starts with one of the returned literals, a literal
/// marked complete (`false` here, `is_cut()` in the crate) spans the whole
/// pattern and so is itself a match, and `prefixes` returns an empty set
/// whenever it cannot guarantee this (its documentation: a complete literal
/// "extends until the beginning (or end) of the regular expression").
/// `None` is returned exactly when the pattern does not parse or a
/// literal is not valid UTF-8 (`prefixes_extractable`); the caller then
/// falls back to a full scan.  The `Some` result is `prefixes_of` the
/// pattern, and the remaining clauses state what the crate documents of
/// that list.
#[verifier::external_body]
fn extract_prefixes(pattern: &str) -> (r: Option<Vec<(bool, String)>>)
    ensures
        (r is Some) == prefixes_extractable(pattern@),
        (match r {
            Some(lits) => lit_views(lits@) == prefixes_of(pattern@),
            None => true,
        }),
        (match r {
            Some(lits) => {
                &&& (forall|i: int|
                    0 <= i < lits@.len() && !lits@[i].0 ==> accepts(pattern@, lits@[i].1@))
                &&& (lits@.len() > 0 ==> forall|v: Seq<char>|
                    accepts(pattern@, v) ==> exists|i: int|
                        0 <= i < lits@.len() && (if lits@[i].0 {
                            is_prefix_of(lits@[i].1@, v)
                        } else {
                            lits@[i].1@ == v
                        }))
            },
            None => true,
        }),
{
    let hir = match regex_syntax::Parser::new().parse(pattern) {
        Ok(h) => h,
        Err(_) => return None,
    };
    let lits = regex_syntax::hir::literal::Literals::prefixes(&hir);
    let mut out: Vec<(bool, String)> = Vec::new();
    for l in lits.literals() {
        match std::str::from_utf8(&l[..]) {
            Ok(s) => out.push((l.is_cut(), s.to_string())),
            Err(_) => return None,
        }
    }
    Some(out)
}

/// The literal prefixes usable to narrow a regex scan of an ordered value
/// map.  Each entry is `(cut, literal)`: a cut literal is a prefix of every
/// match it covers, a complete one (`cut == false`) is itself a match of
/// the anchored pattern.  The result is exactly `prefixes_of` the pattern
/// when extraction succeeds, and empty otherwise; an empty result promises
/// nothing, and the caller must scan every value.
pub fn optimize_regex(regex: &str) -> (r: Vec<(bool, String)>)
    ensures
        prefixes_extractable(regex@) ==> lit_views(r@) == prefixes_of(regex@),
        !prefixes_extractable(regex@) ==> r@.len() == 0,
        forall|i: int| 0 <= i < r@.len() && !r@[i].0 ==> accepts(regex@, r@[i].1@),
        r@.len() > 0 ==> forall|v: Seq<char>|
            accepts(regex@, v) ==> exists|i: int|
                0 <= i < r@.len() && (if r@[i].0 {
                    is_prefix_of(r@[i].1@, v)
                } else {
                    r@[i].1@ == v
                }),
{
    match extract_prefixes(regex) {
        Some(lits) => lits,
        None => Vec::new(),
    }
}

} // verus!
