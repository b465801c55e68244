//! Call-aborting errors of the bridge's three operations.

use vstd::prelude::*;

use crate::wire::DecodeError;

verus! {

/// Why a query call aborted before producing any outcome.
#[derive(Debug, Clone)]
pub enum QueryError {
    /// A bound parameter's bytes could not be decoded; carries the key.
    ParamDecode { key: String, source: DecodeError },
    /// The driver rejected or failed to run the query as a whole.
    QueryExecution(String),
}

/// Why a subscribe call aborted before any id was allocated.
#[derive(Debug, Clone)]
pub enum SubscribeError {
    /// A bound parameter's bytes could not be decoded; carries the key.
    ParamDecode { key: String, source: DecodeError },
    /// The driver rejected or failed to run the live query.
    QueryExecution(String),
    /// The live query ran but the notification feed could not be opened.
    StreamOpen(String),
    /// A notification payload could not be re-encoded.
    Serialize(DecodeError),
}

} // verus!
