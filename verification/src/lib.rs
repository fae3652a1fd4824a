//! Finds the earliest recorded activity of a ledger account, and with it the
//! date at which the account came into being.
//!
//! The ledger serves an account's history newest first, in pages of a fixed
//! size, each request asking for the records older than a cursor. The
//! resolver walks that history back page by page until a page shorter than
//! the page size comes; the oldest record of that page is the earliest of
//! the account.
//!
//! - [`record`]: history records, and which record of a page is the oldest.
//! - [`cursor`]: the signature of a record as the cursor of the next request.
//! - [`calendar`]: the date-time in UTC of a count of seconds since the epoch.
//! - [`resolver`]: the walk as a state machine; the caller does the fetching.
//! - [`walk`]: what whole walks do, proved against a model of the service.
//! - [`error`]: the ways in which a walk can fail.

pub mod calendar;
pub mod cursor;
pub mod error;
pub mod record;
pub mod resolver;
pub mod walk;
