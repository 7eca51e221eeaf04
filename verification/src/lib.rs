//! Core of a message-archival and activity-ranking service: an incrementally
//! built index of per-channel message histories with uniform random sampling,
//! an activity-ordering cache of channel ranks, and the scheduling decisions
//! for a periodic random draw.

use vstd::prelude::*;

pub mod assoc;
pub mod flatten;
pub mod index;
pub mod indexer;
pub mod message;
pub mod positions;
pub mod rng;
pub mod schedule;
pub mod state;

verus! {

/// Milliseconds between the Unix epoch and the epoch that snowflake
/// identifiers count from.
pub const SNOWFLAKE_EPOCH_MS: u64 = 1420070400000;

/// The creation time encoded in a snowflake identifier, as milliseconds since
/// the Unix epoch: the high-order bits of the identifier count milliseconds
/// since `SNOWFLAKE_EPOCH_MS`.
pub open spec fn snowflake_ms(id: u64) -> int {
    (id >> 22) + SNOWFLAKE_EPOCH_MS
}

/// Derive a message identifier's creation time without an external call.
pub fn created_at_ms(id: u64) -> (t: u64)
    ensures
        t == snowflake_ms(id),
{
    let shifted = id >> 22;
    assert(shifted + SNOWFLAKE_EPOCH_MS <= u64::MAX) by (bit_vector)
        requires shifted == id >> 22;
    shifted + SNOWFLAKE_EPOCH_MS
}

} // verus!
