//! Archiver for market-period capture records.
//!
//! A continuous feed of period records arrives as (possibly compressed)
//! binary envelopes.  The library decodes them, derives a per-period
//! completeness metric, and archives them into a size-bounded,
//! deduplicated append log in which only the most complete revision of
//! each trading period survives.

use vstd::prelude::*;

pub mod archive;
pub mod bytes;
pub mod config;
pub mod message;
pub mod pipeline;
pub mod receiver;
pub mod store;

verus! {

/// An entry handed to the archive log: a composite `"{post_ts}-{period}"`
/// key, the completeness metric of the record, and its serialized bytes.
#[derive(Debug)]
pub struct MktArchiveMsg {
    pub key: String,
    pub info_count: u64,
    pub msg_content: Vec<u8>,
}

} // verus!
