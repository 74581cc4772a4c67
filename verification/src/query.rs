//! The query model: predicates over label keys, selectors, and the two
//! query forms (record search and key-values search).

use vstd::prelude::*;
use crate::matcher::accepts;
use crate::record::RecordView;

verus! {

/// The view of one predicate: its key, value and operation.
pub type FieldView = (Seq<char>, Seq<char>, Operation);

/// The view of a predicate list.
pub open spec fn fields_view(fs: Seq<Field>) -> Seq<FieldView> {
    fs.map_values(|f: Field| (f.key@, f.val@, f.op))
}

/// How a predicate compares a label value: strict equality (`==`) or an
/// anchored regular-expression match (`=~`).
#[derive(Clone, Copy, PartialEq, Eq, Structural, Debug)]
pub enum Operation {
    Eq,
    Re,
}

/// Flags altering how a query is executed.  Neither flag may change which
/// records a selector matches; they only pick the evaluation strategy.
#[derive(Clone, Copy, PartialEq, Eq, Structural, Debug)]
pub struct SearchFlags {
    /// Narrow regex scans to ranges of the ordered value map using literal
    /// prefixes extracted from the pattern.
    pub optimize_regex_search: bool,
    /// Let a key-values search hand back record ids instead of values when
    /// the target key's value map is larger than the matched record set.
    pub abort_early: bool,
}

/// The default flag set: both optimizations on.
pub open spec fn default_flags_spec() -> SearchFlags {
    SearchFlags { optimize_regex_search: true, abort_early: true }
}

impl SearchFlags {
    /// The default flag set: both optimizations on.
    pub fn default_flags() -> (r: SearchFlags)
        ensures
            r == default_flags_spec(),
    {
        SearchFlags { optimize_regex_search: true, abort_early: true }
    }

    /// No flags set.
    pub fn empty() -> (r: SearchFlags)
        ensures
            !r.optimize_regex_search,
            !r.abort_early,
    {
        SearchFlags { optimize_regex_search: false, abort_early: false }
    }
}

/// One predicate of a selector: a key, a value or pattern, and the
/// comparison operation.
pub struct Field {
    pub key: String,
    pub val: String,
    pub op: Operation,
}

impl Field {
    pub fn new_eq(key: &str, val: &str) -> (r: Field)
        ensures
            r.key@ == key@,
            r.val@ == val@,
            r.op == Operation::Eq,
    {
        Field { key: key.to_owned(), val: val.to_owned(), op: Operation::Eq }
    }

    pub fn new_re(key: &str, val: &str) -> (r: Field)
        ensures
            r.key@ == key@,
            r.val@ == val@,
            r.op == Operation::Re,
    {
        Field { key: key.to_owned(), val: val.to_owned(), op: Operation::Re }
    }

    /// A content-equal copy of this predicate.
    pub fn duplicate(&self) -> (r: Field)
        ensures
            r.key@ == self.key@,
            r.val@ == self.val@,
            r.op == self.op,
    {
        Field { key: self.key.clone(), val: self.val.clone(), op: self.op }
    }
}

/// A record search: a conjunction of predicates, with execution flags.
pub struct Search {
    pub search_fields: Vec<Field>,
    pub query_flags: SearchFlags,
}

impl Search {
    pub fn new(search_fields: Vec<Field>) -> (r: Search)
        ensures
            r.search_fields == search_fields,
            r.query_flags == default_flags_spec(),
    {
        Search { search_fields, query_flags: SearchFlags::default_flags() }
    }

    pub fn new_with_flags(search_fields: Vec<Field>, flags: SearchFlags) -> (r: Search)
        ensures
            r.search_fields == search_fields,
            r.query_flags == flags,
    {
        Search { search_fields, query_flags: flags }
    }

    /// A selector with no predicates matches every record and is served by
    /// a capped scan of the store instead of the index.
    pub fn is_match_all(&self) -> (r: bool)
        ensures
            r == (self.search_fields@.len() == 0),
    {
        self.search_fields.len() == 0
    }
}

/// A key-values search: the distinct values of `key_field` among the
/// records matching the selector.
pub struct KeyValuesSearch {
    pub search_fields: Vec<Field>,
    pub key_field: String,
    pub query_flags: SearchFlags,
}

impl KeyValuesSearch {
    pub fn new(search_fields: Vec<Field>, key: &str) -> (r: KeyValuesSearch)
        ensures
            r.search_fields == search_fields,
            r.key_field@ == key@,
            r.query_flags == default_flags_spec(),
    {
        KeyValuesSearch {
            search_fields,
            key_field: key.to_owned(),
            query_flags: SearchFlags::default_flags(),
        }
    }

    pub fn new_with_flags(search_fields: Vec<Field>, key: &str, flags: SearchFlags) -> (r:
        KeyValuesSearch)
        ensures
            r.search_fields == search_fields,
            r.key_field@ == key@,
            r.query_flags == flags,
    {
        KeyValuesSearch { search_fields, key_field: key.to_owned(), query_flags: flags }
    }

    /// The record search answering this query's selector.  The derived
    /// search always runs with default flags.
    pub fn to_search_query(&self) -> (r: Search)
        ensures
            fields_view(r.search_fields@) == fields_view(self.search_fields@),
            r.query_flags == default_flags_spec(),
    {
        let mut fields: Vec<Field> = Vec::new();
        let n = self.search_fields.len();
        for i in 0..n
            invariant
                n == self.search_fields.len(),
                fields@.len() == i,
                fields_view(fields@) =~= fields_view(self.search_fields@).take(i as int),
        {
            fields.push(self.search_fields[i].duplicate());
            proof {
                assert(fields_view(fields@) =~= fields_view(self.search_fields@).take(
                    i + 1,
                ));
            }
        }
        proof {
            assert(fields_view(self.search_fields@).take(n as int) =~= fields_view(
                self.search_fields@,
            ));
        }
        Search { search_fields: fields, query_flags: SearchFlags::default_flags() }
    }
}

/// A parsed query: either a record search or a key-values search.
pub enum Query {
    Simple(Search),
    KeyValues(KeyValuesSearch),
}

/// Whether the record satisfies one predicate: it must hold some pair with
/// the predicate's key whose value is equal to the predicate's value
/// (`Eq`), or matched by the anchored pattern (`Re`).
pub open spec fn field_matches(r: RecordView, f: FieldView) -> bool {
    match f.2 {
        Operation::Eq => exists|i: int| 0 <= i < r.len() && r[i].0 == f.0 && r[i].1 == f.1,
        Operation::Re => exists|i: int|
            0 <= i < r.len() && r[i].0 == f.0 && accepts(f.1, r[i].1),
    }
}

/// Whether the record satisfies every predicate of the selector.
pub open spec fn record_matches(r: RecordView, fields: Seq<FieldView>) -> bool {
    forall|i: int| 0 <= i < fields.len() ==> field_matches(r, #[trigger] fields[i])
}

} // verus!
