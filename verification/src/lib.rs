//! Verified statistics over timestamped snapshots of a router/peering topology.
//!
//! A snapshot holds routers, each with named peers reachable over one or more
//! parallel (ECMP) links annotated with a load percentage.  The library builds
//! snapshots from plain pre-decoded records, classifies routers and peers as
//! internal or external by an upper-case naming convention, computes per-snapshot
//! node/link counts and ECMP load statistics, merges regional snapshots taken at
//! the same instant, and groups chronological results into calendar-month
//! buckets with explicit gap filling.

use vstd::prelude::*;

pub mod aggregate;
pub mod calendar;
pub mod classify;
pub mod files;
pub mod merge;
pub mod metrics;
pub mod model;
pub mod parse;
pub mod stats;

verus! {

/// Largest supported Unix timestamp (last second of year 9999).
/// Calendar conversions are only stated on this range.
pub const TS_MAX: i64 = 253402300799;

} // verus!
