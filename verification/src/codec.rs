//! The fixed, explicit binary encoding of embeddings.
//!
//! An embedding is a fixed-dimension vector of 32-bit float components. The
//! pipeline carries each component as its IEEE-754 bit pattern (a `u32`), so
//! that persistence is bit-identical and never depends on in-memory layout.
//! On disk each component occupies exactly four bytes, little-endian, and the
//! components of one embedding lie back-to-back: one record is
//! `dim * 4` bytes.

use vstd::prelude::*;
use vstd::bytes::{spec_u32_from_le_bytes, spec_u32_to_le_bytes, u32_from_le_bytes, u32_to_le_bytes,
    lemma_auto_spec_u32_to_from_le_bytes};

verus! {

/// The encoding of one embedding: each component's four little-endian bytes,
/// in component order.
pub open spec fn spec_encode_embedding(e: Seq<u32>) -> Seq<u8>
    decreases e.len(),
{
    if e.len() == 0 {
        Seq::empty()
    } else {
        spec_encode_embedding(e.drop_last()) + spec_u32_to_le_bytes(e.last())
    }
}

/// The encoding of an ordered batch of embeddings: the records back-to-back,
/// in batch order.
pub open spec fn spec_encode_batch(batch: Seq<Seq<u32>>) -> Seq<u8>
    decreases batch.len(),
{
    if batch.len() == 0 {
        Seq::empty()
    } else {
        spec_encode_batch(batch.drop_last()) + spec_encode_embedding(batch.last())
    }
}

/// An encoded embedding takes four bytes per component.
pub proof fn lemma_encode_embedding_len(e: Seq<u32>)
    ensures
        spec_encode_embedding(e).len() == 4 * e.len(),
    decreases e.len(),
{
    if e.len() > 0 {
        lemma_encode_embedding_len(e.drop_last());
        lemma_auto_spec_u32_to_from_le_bytes();
    }
}

/// A batch of embeddings of one dimension encodes to records of one fixed
/// size, back-to-back.
pub proof fn lemma_encode_batch_len(batch: Seq<Seq<u32>>, dim: nat)
    requires
        forall|i: int| 0 <= i < batch.len() ==> #[trigger] batch[i].len() == dim,
    ensures
        spec_encode_batch(batch).len() == batch.len() * (dim * 4),
    decreases batch.len(),
{
    if batch.len() > 0 {
        lemma_encode_batch_len(batch.drop_last(), dim);
        lemma_encode_embedding_len(batch.last());
        assert(batch.len() * (dim * 4) == (batch.len() - 1) * (dim * 4) + dim * 4)
            by (nonlinear_arith);
    }
}

/// Encodes one embedding into its on-disk bytes.
pub fn encode_embedding(e: &Vec<u32>) -> (r: Vec<u8>)
    requires
        4 * e@.len() <= usize::MAX,
    ensures
        r@ == spec_encode_embedding(e@),
        r@.len() == 4 * e@.len(),
{
    proof {
        lemma_encode_embedding_len(e@);
    }
    let mut r: Vec<u8> = Vec::new();
    let mut i: usize = 0;
    while i < e.len()
        invariant
            i <= e@.len(),
            4 * e@.len() <= usize::MAX,
            r@ == spec_encode_embedding(e@.take(i as int)),
            r@.len() == 4 * i,
        decreases e@.len() - i,
    {
        proof {
            lemma_encode_embedding_len(e@.take(i as int));
            lemma_auto_spec_u32_to_from_le_bytes();
        }
        let mut bytes = u32_to_le_bytes(e[i]);
        r.append(&mut bytes);
        i = i + 1;
        proof {
            assert(e@.take(i as int).drop_last() =~= e@.take(i - 1));
            assert(e@.take(i as int).last() == e@[i - 1]);
        }
    }
    proof {
        assert(e@.take(e@.len() as int) =~= e@);
    }
    r
}

/// Encodes an ordered batch of embeddings into back-to-back records.
pub fn encode_batch(batch: &Vec<Vec<u32>>, dim: usize) -> (r: Vec<u8>)
    requires
        forall|i: int| 0 <= i < batch@.len() ==> #[trigger] batch@[i]@.len() == dim,
        batch@.len() * (dim * 4) <= usize::MAX,
    ensures
        r@ == spec_encode_batch(batch@.map_values(|e: Vec<u32>| e@)),
        r@.len() == batch@.len() * (dim * 4),
{
    let ghost model = batch@.map_values(|e: Vec<u32>| e@);
    proof {
        lemma_encode_batch_len(model, dim as nat);
    }
    let mut r: Vec<u8> = Vec::new();
    let mut i: usize = 0;
    while i < batch.len()
        invariant
            i <= batch@.len(),
            model == batch@.map_values(|e: Vec<u32>| e@),
            forall|j: int| 0 <= j < batch@.len() ==> #[trigger] batch@[j]@.len() == dim,
            batch@.len() * (dim * 4) <= usize::MAX,
            r@ == spec_encode_batch(model.take(i as int)),
            r@.len() == i * (dim * 4),
        decreases batch@.len() - i,
    {
        proof {
            lemma_encode_batch_len(model.take(i as int), dim as nat);
            assert(i * (dim * 4) + 4 * dim <= batch@.len() * (dim * 4)) by (nonlinear_arith)
                requires
                    i < batch@.len(),
                    dim >= 0,
            ;
        }
        let mut bytes = encode_embedding(&batch[i]);
        r.append(&mut bytes);
        i = i + 1;
        proof {
            assert(model.take(i as int).drop_last() =~= model.take(i - 1));
            assert(model.take(i as int).last() == model[i - 1]);
            assert(i * (dim * 4) == (i - 1) * (dim * 4) + dim * 4) by (nonlinear_arith);
        }
    }
    proof {
        assert(model.take(model.len() as int) =~= model);
    }
    r
}

/// The decoding of `dim` components out of `bytes` starting at byte `off`.
pub open spec fn spec_decode_embedding(bytes: Seq<u8>, off: int, dim: nat) -> Seq<u32> {
    Seq::new(dim, |k: int| spec_u32_from_le_bytes(bytes.subrange(off + 4 * k, off + 4 * k + 4)))
}

/// Decoding inverts encoding: the record written for an embedding reads back
/// component-for-component bit-identical.
pub proof fn lemma_embedding_round_trip(e: Seq<u32>)
    ensures
        spec_decode_embedding(spec_encode_embedding(e), 0, e.len()) =~= e,
    decreases e.len(),
{
    lemma_auto_spec_u32_to_from_le_bytes();
    lemma_encode_embedding_len(e);
    if e.len() > 0 {
        lemma_embedding_round_trip(e.drop_last());
        lemma_encode_embedding_len(e.drop_last());
        let enc = spec_encode_embedding(e);
        let prev = spec_encode_embedding(e.drop_last());
        assert forall|k: int| 0 <= k < e.len() implies
            spec_u32_from_le_bytes(enc.subrange(0 + 4 * k, 0 + 4 * k + 4)) == e[k] by {
            if k < e.len() - 1 {
                assert(spec_decode_embedding(prev, 0, (e.len() - 1) as nat)[k]
                    == spec_u32_from_le_bytes(prev.subrange(0 + 4 * k, 0 + 4 * k + 4)));
                assert(e.drop_last()[k] == e[k]);
                assert(enc.subrange(0 + 4 * k, 0 + 4 * k + 4)
                    =~= prev.subrange(0 + 4 * k, 0 + 4 * k + 4));
            } else {
                assert(enc.subrange(0 + 4 * k, 0 + 4 * k + 4) =~= spec_u32_to_le_bytes(e.last()));
            }
        }
    }
}

/// Decodes one embedding of dimension `dim` from `bytes` at byte `off`.
pub fn decode_embedding(bytes: &Vec<u8>, off: usize, dim: usize) -> (r: Vec<u32>)
    requires
        off + 4 * dim <= bytes@.len(),
    ensures
        r@ == spec_decode_embedding(bytes@, off as int, dim as nat),
        r@.len() == dim,
{
    let n: usize = bytes.len();
    let mut r: Vec<u32> = Vec::new();
    let mut k: usize = 0;
    while k < dim
        invariant
            k <= dim,
            off + 4 * dim <= n,
            n == bytes@.len(),
            r@.len() == k,
            forall|j: int| 0 <= j < k ==> r@[j] == spec_u32_from_le_bytes(
                bytes@.subrange(off + 4 * j, off + 4 * j + 4)),
        decreases dim - k,
    {
        let slice_start: usize = off + 4 * k;
        let component = u32_from_le_bytes(
            vstd::slice::slice_subrange(bytes.as_slice(), slice_start, slice_start + 4));
        r.push(component);
        k = k + 1;
    }
    proof {
        assert(r@ =~= spec_decode_embedding(bytes@, off as int, dim as nat));
    }
    r
}

} // verus!
