//! The ways in which resolving an account's earliest record can fail.

use vstd::prelude::*;

verus! {

/// Why no earliest record was returned. `E` is the error type of whatever
/// fetches the pages; the resolver hands such an error on as it received it.
#[derive(Clone, Debug, PartialEq, Eq)]
pub enum ResolverError<E> {
    /// The account has no history: the first page was empty.
    NotFound,
    /// The earliest record was found, but it carries no timestamp.
    MissingTimestamp,
    /// The earliest record carries a timestamp that is no calendar date-time
    /// from the Unix epoch onward.
    TimestampOutOfRange,
    /// The signature of a record that the ledger returned is not in the form
    /// in which the ledger takes a cursor.
    InvalidCursor,
    /// The configured number of page fetches was used up before a page
    /// shorter than the page limit came.
    HistoryTooDeep,
    /// Fetching a page failed; the fetcher's error is inside, unchanged.
    Transport(E),
}

} // verus!
