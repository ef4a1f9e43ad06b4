//! The codes that an error message may carry.

use vstd::prelude::*;

verus! {

/// Something went wrong.
pub const GENERIC_ERROR: u8 = 201;

/// The node that was asked failed.
pub const SERVER_ERROR: u8 = 202;

/// The query was malformed, had an invalid argument or a bad token.
pub const PROTOCOL_ERROR: u8 = 203;

/// The method of the query is not known.
pub const METHOD_UNKNOWN: u8 = 204;

} // verus!
