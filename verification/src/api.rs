//! The values crossing the HTTP boundary: a raw query, and the success
//! and error responses.  The transport itself (routes, serialization,
//! sockets) lives outside the library; these are the shapes it carries.

use vstd::prelude::*;
use crate::record::RCRecord;

verus! {

/// A query as posted by a client: the query text, still unparsed.
pub struct RawAPIQuery {
    pub query: String,
}

/// The response to a query that could not be answered: the query echoed
/// back and a human-readable message.
pub struct ErrorResponse {
    pub query: String,
    pub error: String,
}

/// The response to an answered query: the query echoed back and its data.
pub struct SuccessResponse {
    pub query: String,
    pub data: ResponseData,
}

/// A query's payload: matching records for a selector, distinct values
/// for a key-values search.
pub enum ResponseData {
    Records { data: Vec<RCRecord> },
    Values { data: Vec<String> },
}

} // verus!
