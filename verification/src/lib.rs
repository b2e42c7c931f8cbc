//! Storage-usage analytics for a mail archive.
//!
//! The library splits a raw archive byte stream into entries, normalizes
//! each entry's headers into a compact record with label assignments,
//! keeps the records in a rebuildable in-memory store, and answers
//! faceted storage questions (size by label, year, sender domain and
//! sender address) under composable filters.

use vstd::prelude::*;

pub mod aggregate;
pub mod filter;
pub mod store;
pub mod mbox;
pub mod headers;
pub mod normalize;
pub mod year;
pub mod text;
pub mod urlq;

verus! {

/// Settings for serving a report: the path of a previously built store.
pub struct ReportCommand {
    pub db: String,
}

} // verus!
