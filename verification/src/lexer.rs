//! The wire-syntax parser for records and queries.
//!
//! Records arrive as `{key="value", ...}`; queries as a selector
//! `{key=="v", key=~"re", ...}` or as the function form
//! `label_values({selector}, "key")`.  Keys are bareword runs of
//! `[A-Za-z0-9_-]`, values are double-quoted with `\"` and `\\` escapes,
//! and whitespace (space, tab, form feed) may stand between tokens.  The
//! grammar is stated by the `sp_*` specification functions below, and each
//! executable parser returns `Ok` exactly on the inputs its specification
//! accepts, with the value the specification gives.

use vstd::prelude::*;
use crate::query::{default_flags_spec, fields_view, Field, FieldView, KeyValuesSearch, Operation,
    Query, Search, SearchFlags};
use crate::record::{LabelPair, PairView, Record, RecordView};

verus! {

/// Whitespace the tokenizer skips: space, tab, form feed.
pub open spec fn is_space(c: char) -> bool {
    c == ' ' || c == '\t' || c == '\u{c}'
}

/// The characters a bareword key may hold.
pub open spec fn is_key_char(c: char) -> bool {
    ('a' <= c && c <= 'z') || ('A' <= c && c <= 'Z') || ('0' <= c && c <= '9') || c == '-' || c
        == '_'
}

/// The first position at or after `i` holding no whitespace.
pub open spec fn skip_ws(s: Seq<char>, i: int) -> int
    decreases s.len() - i when 0 <= i <= s.len()
{
    if i < s.len() && is_space(s[i]) {
        skip_ws(s, i + 1)
    } else {
        i
    }
}

pub proof fn lemma_skip_ws_bounds(s: Seq<char>, i: int)
    requires
        0 <= i <= s.len(),
    ensures
        i <= skip_ws(s, i) <= s.len(),
    decreases s.len() - i,
{
    if i < s.len() && is_space(s[i]) {
        lemma_skip_ws_bounds(s, i + 1);
    }
}

/// The end of the maximal key-character run starting at `i`.
pub open spec fn key_run_end(s: Seq<char>, i: int) -> int
    decreases s.len() - i when 0 <= i <= s.len()
{
    if i < s.len() && is_key_char(s[i]) {
        key_run_end(s, i + 1)
    } else {
        i
    }
}

pub proof fn lemma_key_run_bounds(s: Seq<char>, i: int)
    requires
        0 <= i <= s.len(),
    ensures
        i <= key_run_end(s, i) <= s.len(),
    decreases s.len() - i,
{
    if i < s.len() && is_key_char(s[i]) {
        lemma_key_run_bounds(s, i + 1);
    }
}

/// The position of the quote closing a value literal whose body starts at
/// `i`, honoring backslash escapes; `None` for an unterminated literal.
pub open spec fn find_close(s: Seq<char>, i: int) -> Option<int>
    decreases s.len() - i when 0 <= i <= s.len()
{
    if i >= s.len() {
        None
    } else if s[i] == '"' {
        Some(i)
    } else if s[i] == '\\' {
        if i + 2 <= s.len() {
            find_close(s, i + 2)
        } else {
            None
        }
    } else {
        find_close(s, i + 1)
    }
}

pub proof fn lemma_find_close_bounds(s: Seq<char>, i: int)
    requires
        0 <= i <= s.len(),
    ensures
        (match find_close(s, i) {
            Some(q) => i <= q < s.len() && s[q] == '"',
            None => true,
        }),
    decreases s.len() - i,
{
    if i < s.len() && s[i] != '"' {
        if s[i] == '\\' {
            if i + 2 <= s.len() {
                lemma_find_close_bounds(s, i + 2);
            }
        } else {
            lemma_find_close_bounds(s, i + 1);
        }
    }
}

/// The value a quoted body denotes: `\"` and `\\` collapse to the escaped
/// character, any other character (a lone backslash included) stands for
/// itself.
pub open spec fn unescape(s: Seq<char>) -> Seq<char>
    decreases s.len(),
{
    if s.len() == 0 {
        Seq::empty()
    } else if s[0] == '\\' && s.len() >= 2 && (s[1] == '"' || s[1] == '\\') {
        seq![s[1]] + unescape(s.skip(2))
    } else {
        seq![s[0]] + unescape(s.skip(1))
    }
}

/// The keyword introducing the function-form query.
pub open spec fn lv_keyword() -> Seq<char> {
    seq!['l', 'a', 'b', 'e', 'l', '_', 'v', 'a', 'l', 'u', 'e', 's']
}

/// A lone `=` at `j`: not the first half of `==` or `=~`.
pub open spec fn at_eq(s: Seq<char>, j: int) -> bool {
    &&& 0 <= j < s.len()
    &&& s[j] == '='
    &&& (j + 1 >= s.len() || (s[j + 1] != '=' && s[j + 1] != '~'))
}

pub open spec fn at_eqeq(s: Seq<char>, j: int) -> bool {
    0 <= j && j + 1 < s.len() && s[j] == '=' && s[j + 1] == '='
}

pub open spec fn at_eqtilde(s: Seq<char>, j: int) -> bool {
    0 <= j && j + 1 < s.len() && s[j] == '=' && s[j + 1] == '~'
}

/// The label list of a record, from position `i` (after the opening
/// brace) to just past the closing brace: `key="value"` pairs separated
/// by commas.
pub open spec fn sp_label_list(s: Seq<char>, i: int) -> Option<(Seq<PairView>, int)>
    decreases s.len() - i when 0 <= i <= s.len() via sp_label_list_dec
{
    let j = skip_ws(s, i);
    let ke = key_run_end(s, j);
    if ke == j || s.subrange(j, ke) == lv_keyword() {
        None
    } else {
        let k = s.subrange(j, ke);
        let j2 = skip_ws(s, ke);
        if !at_eq(s, j2) {
            None
        } else {
            let j3 = skip_ws(s, j2 + 1);
            if !(j3 < s.len() && s[j3] == '"') {
                None
            } else {
                match find_close(s, j3 + 1) {
                    Option::None => None,
                    Option::Some(q) => {
                        let v = unescape(s.subrange(j3 + 1, q));
                        let j4 = skip_ws(s, q + 1);
                        if j4 < s.len() && s[j4] == ',' {
                            match sp_label_list(s, j4 + 1) {
                                Option::None => None,
                                Option::Some((rest, nx)) => Some((seq![(k, v)] + rest, nx)),
                            }
                        } else if j4 < s.len() && s[j4] == '}' {
                            Some((seq![(k, v)], j4 + 1))
                        } else {
                            None
                        }
                    },
                }
            }
        }
    }
}

#[via_fn]
proof fn sp_label_list_dec(s: Seq<char>, i: int) {
    lemma_skip_ws_bounds(s, i);
    let j = skip_ws(s, i);
    lemma_key_run_bounds(s, j);
    let ke = key_run_end(s, j);
    if 0 <= ke <= s.len() {
        lemma_skip_ws_bounds(s, ke);
        let j2 = skip_ws(s, ke);
        if at_eq(s, j2) {
            lemma_skip_ws_bounds(s, j2 + 1);
            let j3 = skip_ws(s, j2 + 1);
            if j3 < s.len() {
                lemma_find_close_bounds(s, j3 + 1);
                if find_close(s, j3 + 1) is Some {
                    let q = find_close(s, j3 + 1)->Some_0;
                    lemma_skip_ws_bounds(s, q + 1);
                }
            }
        }
    }
}

/// A whole record: an opening brace, then the label list.  Text after the
/// closing brace is ignored.
pub open spec fn sp_parse_record(s: Seq<char>) -> Option<RecordView> {
    let j = skip_ws(s, 0);
    if 0 <= j < s.len() && s[j] == '{' {
        match sp_label_list(s, j + 1) {
            Option::None => None,
            Option::Some((ps, _)) => Some(ps),
        }
    } else {
        None
    }
}

/// The predicate list of a selector, from position `i` (after the opening
/// brace) to just past the closing brace: `key=="v"` or `key=~"re"`
/// separated by commas.
pub open spec fn sp_field_list(s: Seq<char>, i: int) -> Option<(Seq<FieldView>, int)>
    decreases s.len() - i when 0 <= i <= s.len() via sp_field_list_dec
{
    let j = skip_ws(s, i);
    let ke = key_run_end(s, j);
    if ke == j || s.subrange(j, ke) == lv_keyword() {
        None
    } else {
        let k = s.subrange(j, ke);
        let j2 = skip_ws(s, ke);
        if !(at_eqeq(s, j2) || at_eqtilde(s, j2)) {
            None
        } else {
            let op = if at_eqeq(s, j2) {
                Operation::Eq
            } else {
                Operation::Re
            };
            let j3 = skip_ws(s, j2 + 2);
            if !(j3 < s.len() && s[j3] == '"') {
                None
            } else {
                match find_close(s, j3 + 1) {
                    Option::None => None,
                    Option::Some(q) => {
                        let v = unescape(s.subrange(j3 + 1, q));
                        let j4 = skip_ws(s, q + 1);
                        if j4 < s.len() && s[j4] == ',' {
                            match sp_field_list(s, j4 + 1) {
                                Option::None => None,
                                Option::Some((rest, nx)) => Some(
                                    (seq![(k, v, op)] + rest, nx),
                                ),
                            }
                        } else if j4 < s.len() && s[j4] == '}' {
                            Some((seq![(k, v, op)], j4 + 1))
                        } else {
                            None
                        }
                    },
                }
            }
        }
    }
}

#[via_fn]
proof fn sp_field_list_dec(s: Seq<char>, i: int) {
    lemma_skip_ws_bounds(s, i);
    let j = skip_ws(s, i);
    lemma_key_run_bounds(s, j);
    let ke = key_run_end(s, j);
    if 0 <= ke <= s.len() {
        lemma_skip_ws_bounds(s, ke);
        let j2 = skip_ws(s, ke);
        if at_eqeq(s, j2) || at_eqtilde(s, j2) {
            lemma_skip_ws_bounds(s, j2 + 2);
            let j3 = skip_ws(s, j2 + 2);
            if j3 < s.len() {
                lemma_find_close_bounds(s, j3 + 1);
                if find_close(s, j3 + 1) is Some {
                    let q = find_close(s, j3 + 1)->Some_0;
                    lemma_skip_ws_bounds(s, q + 1);
                }
            }
        }
    }
}

/// A whole query: either a selector, giving `(fields, None)`, or the
/// function form `label_values({selector}, "key")`, giving
/// `(fields, Some(key))`.  Text after the query is ignored.
pub open spec fn sp_parse_query(s: Seq<char>) -> Option<(Seq<FieldView>, Option<Seq<char>>)> {
    let j = skip_ws(s, 0);
    if 0 <= j < s.len() && s[j] == '{' {
        match sp_field_list(s, j + 1) {
            Option::None => None,
            Option::Some((fs, _)) => Some((fs, None)),
        }
    } else {
        let ke = key_run_end(s, j);
        if 0 <= j && ke > j && s.subrange(j, ke) == lv_keyword() {
            sp_label_values_args(s, ke)
        } else {
            None
        }
    }
}

/// The arguments of the function form, from just after the keyword:
/// `({selector}, "key")`.
pub open spec fn sp_label_values_args(s: Seq<char>, i: int) -> Option<
    (Seq<FieldView>, Option<Seq<char>>),
> {
    let j1 = skip_ws(s, i);
    if !(0 <= j1 && j1 < s.len() && s[j1] == '(') {
        None
    } else {
        let j2 = skip_ws(s, j1 + 1);
        if !(j2 < s.len() && s[j2] == '{') {
            None
        } else {
            match sp_field_list(s, j2 + 1) {
                Option::None => None,
                Option::Some((fs, nx)) => {
                    let j3 = skip_ws(s, nx);
                    if !(j3 < s.len() && s[j3] == ',') {
                        None
                    } else {
                        let j4 = skip_ws(s, j3 + 1);
                        if !(j4 < s.len() && s[j4] == '"') {
                            None
                        } else {
                            match find_close(s, j4 + 1) {
                                Option::None => None,
                                Option::Some(q) => {
                                    let key = unescape(s.subrange(j4 + 1, q));
                                    let j5 = skip_ws(s, q + 1);
                                    if j5 < s.len() && s[j5] == ')' {
                                        Some((fs, Some(key)))
                                    } else {
                                        None
                                    }
                                },
                            }
                        }
                    }
                },
            }
        }
    }
}

/// Relies on `String::push`: appends exactly the one character.
#[verifier::external_body]
fn push_char(s: &mut String, c: char)
    ensures
        final(s)@ == old(s)@.push(c),
{
    s.push(c);
}

/// The characters of `s`, in order.
fn to_char_vec(s: &str) -> (v: Vec<char>)
    ensures
        v@ == s@,
{
    let n = s.unicode_len();
    let mut v: Vec<char> = Vec::new();
    let mut i: usize = 0;
    while i < n
        invariant
            i <= n,
            n == s@.len(),
            v@ == s@.take(i as int),
        decreases n - i,
    {
        v.push(s.get_char(i));
        proof {
            assert(v@ =~= s@.take(i + 1));
        }
        i = i + 1;
    }
    proof {
        assert(s@.take(n as int) =~= s@);
    }
    v
}

/// The substring `[from, to)` as an owned string.
fn span_string(chars: &Vec<char>, from: usize, to: usize) -> (r: String)
    requires
        from <= to <= chars@.len(),
    ensures
        r@ == chars@.subrange(from as int, to as int),
{
    let mut r = String::new();
    let mut i = from;
    while i < to
        invariant
            from <= i <= to,
            to <= chars@.len(),
            r@ == chars@.subrange(from as int, i as int),
        decreases to - i,
    {
        push_char(&mut r, chars[i]);
        proof {
            assert(chars@.subrange(from as int, i + 1) =~= chars@.subrange(
                from as int,
                i as int,
            ).push(chars@[i as int]));
        }
        i = i + 1;
    }
    r
}

/// The unescaped value of the quoted body `[from, to)`.
fn unescape_span(chars: &Vec<char>, from: usize, to: usize) -> (r: String)
    requires
        from <= to <= chars@.len(),
    ensures
        r@ == unescape(chars@.subrange(from as int, to as int)),
{
    let mut r = String::new();
    let mut i = from;
    while i < to
        invariant
            from <= i <= to,
            to <= chars@.len(),
            unescape(chars@.subrange(from as int, to as int)) == r@ + unescape(
                chars@.subrange(i as int, to as int),
            ),
        decreases to - i,
    {
        let ghost pre = r@;
        let ghost rest = chars@.subrange(i as int, to as int);
        if chars[i] == '\\' && i + 1 < to && (chars[i + 1] == '"' || chars[i + 1] == '\\') {
            push_char(&mut r, chars[i + 1]);
            proof {
                assert(rest[0] == chars@[i as int] && rest.len() >= 2 && rest[1] == chars@[i
                    + 1]);
                assert(rest.skip(2) =~= chars@.subrange(i + 2, to as int));
                assert(unescape(rest) == seq![rest[1]] + unescape(rest.skip(2)));
                assert(pre + unescape(rest) =~= r@ + unescape(
                    chars@.subrange(i + 2, to as int),
                ));
            }
            i = i + 2;
        } else {
            push_char(&mut r, chars[i]);
            proof {
                assert(rest[0] == chars@[i as int]);
                if rest[0] == '\\' && rest.len() >= 2 && (rest[1] == '"' || rest[1]
                    == '\\') {
                    assert(i + 1 < to && (chars@[i + 1] == '"' || chars@[i + 1] == '\\'));
                }
                assert(rest.skip(1) =~= chars@.subrange(i + 1, to as int));
                assert(unescape(rest) == seq![rest[0]] + unescape(rest.skip(1)));
                assert(pre + unescape(rest) =~= r@ + unescape(
                    chars@.subrange(i + 1, to as int),
                ));
            }
            i = i + 1;
        }
    }
    proof {
        assert(chars@.subrange(to as int, to as int) =~= Seq::<char>::empty());
        assert(r@ + unescape(chars@.subrange(to as int, to as int)) =~= r@);
    }
    r
}

fn is_space_exec(c: char) -> (r: bool)
    ensures
        r == is_space(c),
{
    c == ' ' || c == '\t' || c == '\u{c}'
}

fn is_key_char_exec(c: char) -> (r: bool)
    ensures
        r == is_key_char(c),
{
    ('a' <= c && c <= 'z') || ('A' <= c && c <= 'Z') || ('0' <= c && c <= '9') || c == '-' || c
        == '_'
}

fn skip_ws_exec(chars: &Vec<char>, i: usize) -> (r: usize)
    requires
        i <= chars@.len(),
    ensures
        r == skip_ws(chars@, i as int),
        i <= r <= chars@.len(),
{
    let n = chars.len();
    let mut j = i;
    while j < n
        invariant
            i <= j <= n,
            n == chars@.len(),
            skip_ws(chars@, i as int) == skip_ws(chars@, j as int),
        decreases n - j,
    {
        if !is_space_exec(chars[j]) {
            return j;
        }
        j = j + 1;
    }
    j
}

fn key_run_end_exec(chars: &Vec<char>, i: usize) -> (r: usize)
    requires
        i <= chars@.len(),
    ensures
        r == key_run_end(chars@, i as int),
        i <= r <= chars@.len(),
{
    let n = chars.len();
    let mut j = i;
    while j < n
        invariant
            i <= j <= n,
            n == chars@.len(),
            key_run_end(chars@, i as int) == key_run_end(chars@, j as int),
        decreases n - j,
    {
        if !is_key_char_exec(chars[j]) {
            return j;
        }
        j = j + 1;
    }
    j
}

fn find_close_exec(chars: &Vec<char>, i: usize) -> (r: Option<usize>)
    requires
        i <= chars@.len(),
    ensures
        (match r {
            Some(q) => find_close(chars@, i as int) == Some(q as int) && i <= q
                < chars@.len(),
            None => find_close(chars@, i as int) is None,
        }),
{
    let n = chars.len();
    let mut j = i;
    while j < n
        invariant
            i <= j <= n,
            n == chars@.len(),
            find_close(chars@, i as int) == find_close(chars@, j as int),
        decreases n - j,
    {
        if chars[j] == '"' {
            return Some(j);
        }
        if chars[j] == '\\' {
            if n - j >= 2 {
                j = j + 2;
            } else {
                return None;
            }
        } else {
            j = j + 1;
        }
    }
    None
}

/// Whether `[from, to)` spells the `label_values` keyword.
fn is_lv_keyword(chars: &Vec<char>, from: usize, to: usize) -> (r: bool)
    requires
        from <= to <= chars@.len(),
    ensures
        r == (chars@.subrange(from as int, to as int) == lv_keyword()),
{
    if to - from != 12 {
        proof {
            assert(chars@.subrange(from as int, to as int).len() != lv_keyword().len());
        }
        return false;
    }
    let r = chars[from] == 'l' && chars[from + 1] == 'a' && chars[from + 2] == 'b'
        && chars[from + 3] == 'e' && chars[from + 4] == 'l' && chars[from + 5] == '_'
        && chars[from + 6] == 'v' && chars[from + 7] == 'a' && chars[from + 8] == 'l'
        && chars[from + 9] == 'u' && chars[from + 10] == 'e' && chars[from + 11] == 's';
    proof {
        if r {
            assert(chars@.subrange(from as int, to as int) =~= lv_keyword());
        } else {
            assert(chars@.subrange(from as int, to as int) != lv_keyword()) by {
                if chars@.subrange(from as int, to as int) == lv_keyword() {
                    assert(forall|t: int|
                        0 <= t < 12 ==> chars@.subrange(from as int, to as int)[t]
                            == lv_keyword()[t]);
                    assert(chars@[from as int] == 'l');
                    assert(chars@[from + 1] == 'a');
                    assert(chars@[from + 2] == 'b');
                    assert(chars@[from + 3] == 'e');
                    assert(chars@[from + 4] == 'l');
                    assert(chars@[from + 5] == '_');
                    assert(chars@[from + 6] == 'v');
                    assert(chars@[from + 7] == 'a');
                    assert(chars@[from + 8] == 'l');
                    assert(chars@[from + 9] == 'u');
                    assert(chars@[from + 10] == 'e');
                    assert(chars@[from + 11] == 's');
                }
            }
        }
    }
    r
}

/// Parses the label list of a record from `i`; `Ok` holds the pairs and
/// the position just past the closing brace.
fn parse_labels(chars: &Vec<char>, i: usize) -> (r: Result<(Vec<LabelPair>, usize), String>)
    requires
        i <= chars@.len(),
    ensures
        (match r {
            Ok((pairs, nx)) => sp_label_list(chars@, i as int) == Some(
                (pairs@.map_values(|p: LabelPair| p@), nx as int),
            ) && nx <= chars@.len(),
            Err(_) => sp_label_list(chars@, i as int) is None,
        }),
    decreases chars@.len() - i,
{
    let j = skip_ws_exec(chars, i);
    let ke = key_run_end_exec(chars, j);
    if ke == j {
        return Err("a label key was expected".to_owned());
    }
    if is_lv_keyword(chars, j, ke) {
        return Err("a label key was expected, not the label_values keyword".to_owned());
    }
    let key = span_string(chars, j, ke);
    let j2 = skip_ws_exec(chars, ke);
    let eq_ok = j2 < chars.len() && chars[j2] == '=' && (j2 + 1 >= chars.len() || (chars[j2 + 1]
        != '=' && chars[j2 + 1] != '~'));
    if !eq_ok {
        proof {
            assert(!at_eq(chars@, j2 as int));
        }
        return Err("= was expected after the label key".to_owned());
    }
    let j3 = skip_ws_exec(chars, j2 + 1);
    if !(j3 < chars.len() && chars[j3] == '"') {
        return Err("a double-quoted value was expected".to_owned());
    }
    let q = match find_close_exec(chars, j3 + 1) {
        Some(q) => q,
        None => {
            return Err("the value literal is not terminated".to_owned());
        },
    };
    let val = unescape_span(chars, j3 + 1, q);
    let pair = LabelPair { key, val };
    let ghost pv = pair@;
    let j4 = skip_ws_exec(chars, q + 1);
    if j4 < chars.len() && chars[j4] == ',' {
        match parse_labels(chars, j4 + 1) {
            Ok((rest, nx)) => {
                let mut pairs: Vec<LabelPair> = Vec::new();
                let ghost rest_view = rest@.map_values(|p: LabelPair| p@);
                pairs.push(pair);
                let mut rest = rest;
                pairs.append(&mut rest);
                proof {
                    assert(pairs@.map_values(|p: LabelPair| p@) =~= seq![pv] + rest_view);
                }
                Ok((pairs, nx))
            },
            Err(e) => Err(e),
        }
    } else if j4 < chars.len() && chars[j4] == '}' {
        let mut pairs: Vec<LabelPair> = Vec::new();
        pairs.push(pair);
        proof {
            assert(pairs@.map_values(|p: LabelPair| p@) =~= seq![pv]);
        }
        Ok((pairs, j4 + 1))
    } else {
        Err(", or } was expected after the value".to_owned())
    }
}

/// Parses one record line.  Text after the closing brace is ignored.
pub fn parse_record(l: &str) -> (r: Result<Record, String>)
    ensures
        (match r {
            Ok(rec) => sp_parse_record(l@) == Some(rec@),
            Err(_) => sp_parse_record(l@) is None,
        }),
{
    let chars = to_char_vec(l);
    let j = skip_ws_exec(&chars, 0);
    if !(j < chars.len() && chars[j] == '{') {
        return Err("a record starts with {".to_owned());
    }
    match parse_labels(&chars, j + 1) {
        Ok((pairs, _)) => {
            let rec = Record { label_pairs: pairs };
            proof {
                assert(rec@ == pairs@.map_values(|p: LabelPair| p@));
            }
            Ok(rec)
        },
        Err(e) => Err(e),
    }
}

/// Parses the predicate list of a selector from `i`; `Ok` holds the
/// predicates and the position just past the closing brace.
fn parse_search_fields(chars: &Vec<char>, i: usize) -> (r: Result<(Vec<Field>, usize), String>)
    requires
        i <= chars@.len(),
    ensures
        (match r {
            Ok((fields, nx)) => sp_field_list(chars@, i as int) == Some(
                (fields_view(fields@), nx as int),
            ) && nx <= chars@.len(),
            Err(_) => sp_field_list(chars@, i as int) is None,
        }),
    decreases chars@.len() - i,
{
    let j = skip_ws_exec(chars, i);
    let ke = key_run_end_exec(chars, j);
    if ke == j {
        return Err("a label key was expected".to_owned());
    }
    if is_lv_keyword(chars, j, ke) {
        return Err("a label key was expected, not the label_values keyword".to_owned());
    }
    let key = span_string(chars, j, ke);
    let j2 = skip_ws_exec(chars, ke);
    let op: Operation;
    if j2 < chars.len() && j2 + 1 < chars.len() && chars[j2] == '=' && chars[j2 + 1] == '=' {
        op = Operation::Eq;
    } else if j2 < chars.len() && j2 + 1 < chars.len() && chars[j2] == '=' && chars[j2 + 1]
        == '~' {
        op = Operation::Re;
    } else {
        proof {
            assert(!(at_eqeq(chars@, j2 as int) || at_eqtilde(chars@, j2 as int)));
        }
        return Err("== or =~ was expected after the label key".to_owned());
    }
    let j3 = skip_ws_exec(chars, j2 + 2);
    if !(j3 < chars.len() && chars[j3] == '"') {
        return Err("a double-quoted value was expected".to_owned());
    }
    let q = match find_close_exec(chars, j3 + 1) {
        Some(q) => q,
        None => {
            return Err("the value literal is not terminated".to_owned());
        },
    };
    let val = unescape_span(chars, j3 + 1, q);
    let field = Field { key, val, op };
    let ghost fview = (field.key@, field.val@, field.op);
    let j4 = skip_ws_exec(chars, q + 1);
    if j4 < chars.len() && chars[j4] == ',' {
        match parse_search_fields(chars, j4 + 1) {
            Ok((rest, nx)) => {
                let mut fields: Vec<Field> = Vec::new();
                let ghost rest_view = fields_view(rest@);
                fields.push(field);
                let mut rest = rest;
                fields.append(&mut rest);
                proof {
                    assert(fields_view(fields@) =~= seq![fview] + rest_view);
                }
                Ok((fields, nx))
            },
            Err(e) => Err(e),
        }
    } else if j4 < chars.len() && chars[j4] == '}' {
        let mut fields: Vec<Field> = Vec::new();
        fields.push(field);
        proof {
            assert(fields_view(fields@) =~= seq![fview]);
        }
        Ok((fields, j4 + 1))
    } else {
        Err(", or } was expected after the value".to_owned())
    }
}

/// Parses one query: a selector, or the `label_values` function form.
pub fn parse_query(l: &str) -> (r: Result<Query, String>)
    ensures
        (match r {
            Ok(q) => (match q {
                Query::Simple(srch) => sp_parse_query(l@) == Some(
                    (fields_view(srch.search_fields@), None::<Seq<char>>),
                ) && srch.query_flags == default_flags_spec(),
                Query::KeyValues(kv) => sp_parse_query(l@) == Some(
                    (fields_view(kv.search_fields@), Some(kv.key_field@)),
                ) && kv.query_flags == default_flags_spec(),
            }),
            Err(_) => sp_parse_query(l@) is None,
        }),
{
    let chars = to_char_vec(l);
    let j = skip_ws_exec(&chars, 0);
    if j < chars.len() && chars[j] == '{' {
        match parse_search_fields(&chars, j + 1) {
            Ok((fields, _)) => Ok(
                Query::Simple(
                    Search { search_fields: fields, query_flags: SearchFlags::default_flags() },
                ),
            ),
            Err(e) => Err(e),
        }
    } else {
        let ke = key_run_end_exec(&chars, j);
        if ke > j && is_lv_keyword(&chars, j, ke) {
            parse_label_values_args(&chars, ke)
        } else {
            Err("a query starts with { or with label_values(".to_owned())
        }
    }
}

/// Parses the arguments of the function form, from just after the
/// keyword.
fn parse_label_values_args(chars: &Vec<char>, i: usize) -> (r: Result<Query, String>)
    requires
        i <= chars@.len(),
    ensures
        (match r {
            Ok(q) => (match q {
                Query::Simple(_) => false,
                Query::KeyValues(kv) => sp_label_values_args(chars@, i as int) == Some(
                    (fields_view(kv.search_fields@), Some(kv.key_field@)),
                ) && kv.query_flags == default_flags_spec(),
            }),
            Err(_) => sp_label_values_args(chars@, i as int) is None,
        }),
{
    let j1 = skip_ws_exec(chars, i);
    if !(j1 < chars.len() && chars[j1] == '(') {
        return Err("( was expected after label_values".to_owned());
    }
    let j2 = skip_ws_exec(chars, j1 + 1);
    if !(j2 < chars.len() && chars[j2] == '{') {
        return Err("the first argument of label_values is a {selector}".to_owned());
    }
    let (fields, nx) = match parse_search_fields(chars, j2 + 1) {
        Ok(t) => t,
        Err(e) => {
            return Err(e);
        },
    };
    let j3 = skip_ws_exec(chars, nx);
    if !(j3 < chars.len() && chars[j3] == ',') {
        return Err(", was expected after the selector".to_owned());
    }
    let j4 = skip_ws_exec(chars, j3 + 1);
    if !(j4 < chars.len() && chars[j4] == '"') {
        return Err("a double-quoted key was expected".to_owned());
    }
    let q = match find_close_exec(chars, j4 + 1) {
        Some(q) => q,
        None => {
            return Err("the key literal is not terminated".to_owned());
        },
    };
    let key = unescape_span(chars, j4 + 1, q);
    let j5 = skip_ws_exec(chars, q + 1);
    if !(j5 < chars.len() && chars[j5] == ')') {
        return Err(") was expected at the end of label_values".to_owned());
    }
    Ok(
        Query::KeyValues(
            KeyValuesSearch {
                search_fields: fields,
                key_field: key,
                query_flags: SearchFlags::default_flags(),
            },
        ),
    )
}

/// The quoted form of a value: `"` and `\\` get a backslash before them.
pub open spec fn escape(s: Seq<char>) -> Seq<char>
    decreases s.len(),
{
    if s.len() == 0 {
        Seq::empty()
    } else if s[0] == '"' || s[0] == '\\' {
        seq!['\\', s[0]] + escape(s.skip(1))
    } else {
        seq![s[0]] + escape(s.skip(1))
    }
}

/// One rendered pair: `key="escaped-value"`.
pub open spec fn render_pair(p: PairView) -> Seq<char> {
    p.0 + seq!['='] + seq!['"'] + escape(p.1) + seq!['"']
}

/// The rendered pairs after the opening brace, commas between them, the
/// closing brace at the end.
pub open spec fn render_tail(r: RecordView) -> Seq<char>
    decreases r.len(),
{
    if r.len() == 0 {
        seq!['}']
    } else if r.len() == 1 {
        render_pair(r[0]) + seq!['}']
    } else {
        render_pair(r[0]) + seq![','] + render_tail(r.skip(1))
    }
}

/// A record rendered back into the wire syntax.
pub open spec fn render_record_spec(r: RecordView) -> Seq<char> {
    seq!['{'] + render_tail(r)
}

/// Appends the escaped form of `s`.
fn append_escaped(out: &mut String, s: &str)
    ensures
        final(out)@ == old(out)@ + escape(s@),
{
    let n = s.unicode_len();
    let mut i: usize = 0;
    proof {
        assert(s@.skip(0) =~= s@);
        assert(old(out)@ + escape(s@) == out@ + escape(s@.skip(0)));
    }
    while i < n
        invariant
            i <= n,
            n == s@.len(),
            old(out)@ + escape(s@) == out@ + escape(s@.skip(i as int)),
        decreases n - i,
    {
        let c = s.get_char(i);
        let ghost pre = out@;
        let ghost rest = s@.skip(i as int);
        if c == '"' || c == '\\' {
            push_char(out, '\\');
            push_char(out, c);
        } else {
            push_char(out, c);
        }
        proof {
            assert(rest[0] == s@[i as int]);
            assert(rest.skip(1) =~= s@.skip(i + 1));
            if c == '"' || c == '\\' {
                assert(escape(rest) == seq!['\\', rest[0]] + escape(rest.skip(1)));
                assert(pre + escape(rest) =~= out@ + escape(s@.skip(i + 1)));
            } else {
                assert(escape(rest) == seq![rest[0]] + escape(rest.skip(1)));
                assert(pre + escape(rest) =~= out@ + escape(s@.skip(i + 1)));
            }
        }
        i = i + 1;
    }
    proof {
        assert(escape(s@.skip(n as int)) =~= Seq::<char>::empty());
        assert(out@ + escape(s@.skip(n as int)) =~= out@);
    }
}

/// Renders a record back into the wire syntax: `{k="v", ...}` with values
/// escaped, so that what was parsed can be stored or shipped as text
/// again.
pub fn render_record(rec: &Record) -> (r: String)
    ensures
        r@ == render_record_spec(rec@),
{
    let mut out = String::new();
    push_char(&mut out, '{');
    let n = rec.label_pairs.len();
    let ghost rv = rec@;
    let mut i: usize = 0;
    proof {
        assert(rv.skip(0) =~= rv);
        assert(render_record_spec(rv) == seq!['{'] + render_tail(rv.skip(0)));
        assert(out@ =~= seq!['{']);
    }
    while i < n
        invariant
            i <= n,
            n == rv.len(),
            rv == rec@,
            i < n ==> render_record_spec(rv) == out@ + render_tail(rv.skip(i as int)),
            i == n && n > 0 ==> out@ == render_record_spec(rv),
            n == 0 ==> out@ =~= seq!['{'],
        decreases n - i,
    {
        let pair = &rec.label_pairs[i];
        let ghost pre = out@;
        let ghost rest = rv.skip(i as int);
        out.append(pair.key.as_str());
        push_char(&mut out, '=');
        push_char(&mut out, '"');
        append_escaped(&mut out, pair.val.as_str());
        push_char(&mut out, '"');
        proof {
            assert(rest[0] == rv[i as int]);
            assert(rv[i as int] == (pair.key@, pair.val@));
            assert(out@ =~= pre + render_pair(rest[0]));
        }
        if i + 1 < n {
            push_char(&mut out, ',');
            proof {
                assert(rest.len() > 1);
                assert(rest.skip(1) =~= rv.skip(i + 1));
                assert(render_tail(rest) == render_pair(rest[0]) + seq![','] + render_tail(
                    rest.skip(1),
                ));
                assert(out@ =~= pre + render_pair(rest[0]) + seq![',']);
                assert(render_record_spec(rv) == out@ + render_tail(rv.skip(i + 1)));
            }
        } else {
            push_char(&mut out, '}');
            proof {
                assert(rest.len() == 1);
                assert(render_tail(rest) == render_pair(rest[0]) + seq!['}']);
                assert(out@ =~= pre + render_pair(rest[0]) + seq!['}']);
                assert(out@ == render_record_spec(rv));
            }
        }
        i = i + 1;
    }
    if n == 0 {
        push_char(&mut out, '}');
        proof {
            assert(render_tail(rv) =~= seq!['}']);
            assert(out@ =~= seq!['{'] + seq!['}']);
            assert(out@ =~= render_record_spec(rv));
        }
    }
    out
}

} // verus!
