//! The durable resume cursor.
//!
//! The cursor counts embeddings already forced durable in the vector file. On
//! disk it is exactly 8 bytes, an unsigned 64-bit integer in little-endian
//! byte order; a file of any other length (including an absent file) means a
//! fresh start at cursor 0, which is not an error. The cursor is monotonically
//! non-decreasing and advances only after the corresponding vector bytes are
//! durable.

use vstd::prelude::*;
use vstd::bytes::{spec_u64_from_le_bytes, spec_u64_to_le_bytes, u64_from_le_bytes, u64_to_le_bytes,
    lemma_auto_spec_u64_to_from_le_bytes};

verus! {

/// The on-disk encoding of a cursor value: 8 little-endian bytes.
pub open spec fn spec_cursor_bytes(cursor: u64) -> Seq<u8> {
    spec_u64_to_le_bytes(cursor)
}

/// The cursor that a checkpoint file's contents denote: the decoded counter
/// when the contents are exactly 8 bytes, and 0 otherwise (fresh start).
pub open spec fn spec_cursor_of_file(contents: Option<Seq<u8>>) -> u64 {
    match contents {
        Some(bytes) => if bytes.len() == 8 {
            spec_u64_from_le_bytes(bytes)
        } else {
            0
        },
        None => 0,
    }
}

/// Encodes a cursor for the checkpoint file: exactly 8 bytes, little-endian.
pub fn encode_cursor(cursor: u64) -> (r: Vec<u8>)
    ensures
        r@ == spec_cursor_bytes(cursor),
        r@.len() == 8,
{
    proof {
        lemma_auto_spec_u64_to_from_le_bytes();
    }
    u64_to_le_bytes(cursor)
}

/// Reads the resume cursor out of the checkpoint file's contents. `None`
/// stands for an absent file. Anything but exactly 8 bytes is treated as
/// uninitialized: the run starts from scratch at cursor 0.
pub fn cursor_of_file(contents: &Option<Vec<u8>>) -> (r: u64)
    ensures
        r == spec_cursor_of_file(match *contents {
            Some(bytes) => Some(bytes@),
            None => None,
        }),
{
    match contents {
        Some(bytes) => {
            if bytes.len() == 8 {
                u64_from_le_bytes(bytes.as_slice())
            } else {
                0
            }
        },
        None => 0,
    }
}

/// Decoding inverts encoding: a checkpoint file freshly written for cursor
/// `c` reads back as exactly `c`.
pub proof fn lemma_cursor_round_trip(cursor: u64)
    ensures
        spec_cursor_of_file(Some(spec_cursor_bytes(cursor))) == cursor,
{
    lemma_auto_spec_u64_to_from_le_bytes();
}

/// The in-memory resume cursor, advanced exactly once per durably persisted
/// batch.
pub struct Checkpoint {
    /// Count of embeddings already durably stored.
    pub cursor: u64,
}

impl Checkpoint {
    /// Opens a checkpoint from the raw contents of its file (`None` when the
    /// file is absent).
    pub fn open(contents: &Option<Vec<u8>>) -> (r: Checkpoint)
        ensures
            r.cursor == spec_cursor_of_file(match *contents {
                Some(bytes) => Some(bytes@),
                None => None,
            }),
    {
        Checkpoint { cursor: cursor_of_file(contents) }
    }

    /// Advances the cursor after a batch of `n` embeddings was forced
    /// durable. The cursor never decreases.
    pub fn advance(&mut self, n: u64)
        requires
            old(self).cursor + n <= u64::MAX,
        ensures
            final(self).cursor == old(self).cursor + n,
    {
        self.cursor = self.cursor + n;
    }

    /// The bytes to overwrite the checkpoint file with.
    pub fn encoded(&self) -> (r: Vec<u8>)
        ensures
            r@ == spec_cursor_bytes(self.cursor),
            r@.len() == 8,
    {
        encode_cursor(self.cursor)
    }
}

} // verus!
