//! A resumable vectorization pipeline: token-bounded chunking of text items,
//! order-preserving bounded-concurrency scheduling of embedding requests, and
//! crash-safe fixed-width binary persistence with a durable resume cursor.

pub mod checkpoint;
pub mod chunker;
pub mod codec;
pub mod errors;
pub mod orchestrator;
pub mod scheduler;
pub mod store;
pub mod textsource;
pub mod worker;

use vstd::prelude::*;

verus! {

/// Width in bytes of one embedding component on disk.
pub const COMPONENT_BYTES: usize = 4;

/// Byte width of one stored embedding record, for dimension `dim`.
pub open spec fn spec_record_size(dim: nat) -> nat {
    dim * 4
}

/// Computes the fixed byte width of one embedding record: the embedding
/// dimension times the component byte width.
pub fn record_size(dim: usize) -> (r: usize)
    requires
        dim * 4 <= usize::MAX,
    ensures
        r == spec_record_size(dim as nat),
{
    dim * COMPONENT_BYTES
}

} // verus!
