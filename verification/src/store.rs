//! Fixed-width binary record persistence.
//!
//! The vector file is a flat array of fixed-size embedding records: the
//! record for global index `i` occupies bytes
//! `[i * record_size, (i + 1) * record_size)`, where `record_size` is the
//! configured constant `dim * 4` — it is never derived from a batch's element
//! count. A batch write is all-or-nothing: the store's contents change only
//! when the whole write (and, at the file boundary, its forced sync)
//! succeeds.
//!
//! `VectorStore` is the verified model of that file: its `data` is exactly
//! the byte content that the file holds after each durable write. The thin
//! layer that moves these bytes to disk performs no logic of its own.

use vstd::prelude::*;
use vstd::pervasive::VecAdditionalExecFns;
use crate::codec::{spec_encode_batch, spec_encode_embedding, spec_decode_embedding,
    lemma_encode_batch_len, lemma_encode_embedding_len, lemma_embedding_round_trip, encode_batch,
    decode_embedding};
use crate::spec_record_size;

verus! {

/// Record `i` of an encoded batch is exactly the encoding of embedding `i`.
pub proof fn lemma_encode_batch_record(batch: Seq<Seq<u32>>, dim: nat, i: int)
    requires
        forall|j: int| 0 <= j < batch.len() ==> #[trigger] batch[j].len() == dim,
        0 <= i < batch.len(),
    ensures
        spec_encode_batch(batch).subrange(
            i * spec_record_size(dim),
            (i + 1) * spec_record_size(dim),
        ) == spec_encode_embedding(batch[i]),
    decreases batch.len(),
{
    let rs = spec_record_size(dim);
    lemma_encode_batch_len(batch, dim);
    lemma_encode_embedding_len(batch.last());
    let dl = batch.drop_last();
    assert(forall|j: int| 0 <= j < dl.len() ==> #[trigger] dl[j].len() == dim);
    lemma_encode_batch_len(dl, dim);
    assert((i + 1) * rs == i * rs + rs) by (nonlinear_arith);
    assert(i * rs >= 0 && i * rs + rs <= batch.len() * rs) by (nonlinear_arith)
        requires
            0 <= i < batch.len(),
            rs >= 0,
    ;
    if i == batch.len() - 1 {
        assert(i * rs == dl.len() * rs);
        assert(spec_encode_batch(batch).subrange(i * rs, (i + 1) * rs) =~= spec_encode_embedding(
            batch[i],
        ));
    } else {
        lemma_encode_batch_record(dl, dim, i);
        assert(dl[i] == batch[i]);
        assert(i * rs + rs <= dl.len() * rs) by (nonlinear_arith)
            requires
                0 <= i < dl.len(),
                rs >= 0,
        ;
        assert(spec_encode_batch(batch).subrange(i * rs, (i + 1) * rs) =~= spec_encode_batch(
            dl,
        ).subrange(i * rs, (i + 1) * rs));
    }
}

/// Round trip: after writing a batch at record index `start`, decoding record
/// `start + i` of the file gives back embedding `i` of the batch,
/// bit-identical.
pub proof fn lemma_write_read_round_trip(
    data: Seq<u8>,
    start: nat,
    batch: Seq<Seq<u32>>,
    dim: nat,
    i: int,
)
    requires
        forall|j: int| 0 <= j < batch.len() ==> #[trigger] batch[j].len() == dim,
        start * spec_record_size(dim) <= data.len(),
        0 <= i < batch.len(),
    ensures
        spec_decode_embedding(
            spec_write_bytes(
                data,
                (start * spec_record_size(dim)) as int,
                spec_encode_batch(batch),
            ),
            ((start + i) * spec_record_size(dim)) as int,
            dim,
        ) == batch[i],
{
    let rs = spec_record_size(dim);
    let off = (start * rs) as int;
    let enc = spec_encode_batch(batch);
    let written = spec_write_bytes(data, off, enc);
    lemma_encode_batch_len(batch, dim);
    lemma_encode_embedding_len(batch[i]);
    lemma_encode_batch_record(batch, dim, i);
    lemma_embedding_round_trip(batch[i]);
    assert((start + i) * rs == start * rs + i * rs) by (nonlinear_arith);
    assert(i * rs >= 0 && (i + 1) * rs <= batch.len() * rs && (i + 1) * rs == i * rs + rs)
        by (nonlinear_arith)
        requires
            0 <= i < batch.len(),
            rs >= 0,
    ;
    assert(forall|x: int| 0 <= x < enc.len() ==> written[off + x] == enc[x]);
    assert forall|k: int| 0 <= k < dim implies spec_decode_embedding(
        written,
        ((start + i) * rs) as int,
        dim,
    )[k] == batch[i][k] by {
        let rec = spec_encode_embedding(batch[i]);
        assert(written.subrange(off + i * rs + 4 * k, off + i * rs + 4 * k + 4) =~= rec.subrange(
            4 * k,
            4 * k + 4,
        )) by {
            assert(forall|b: int|
                0 <= b < rs ==> #[trigger] enc[i * rs + b] == rec[b]) by {
                assert(forall|b: int|
                    0 <= b < rs ==> rec[b] == #[trigger] enc.subrange(i * rs, (i + 1) * rs)[b]);
            }
            assert(4 * k + 4 <= rs);
        }
        assert(spec_decode_embedding(rec, 0, dim)[k] == batch[i][k]);
        assert(rec.subrange(0 + 4 * k, 0 + 4 * k + 4) == rec.subrange(4 * k, 4 * k + 4));
    }
    assert(spec_decode_embedding(written, ((start + i) * rs) as int, dim) =~= batch[i]);
}

/// The bytes of `data` after writing `bytes` at byte offset `off`, where
/// `off` lies within the current contents: bytes before `off` are untouched,
/// the written region holds `bytes`, and anything beyond the written region
/// is untouched.
pub open spec fn spec_write_bytes(data: Seq<u8>, off: int, bytes: Seq<u8>) -> Seq<u8> {
    if off + bytes.len() <= data.len() {
        data.subrange(0, off) + bytes + data.subrange(off + bytes.len(), data.len() as int)
    } else {
        data.subrange(0, off) + bytes
    }
}

/// The verified model of the vector file for one embedding dimension.
pub struct VectorStore {
    /// The embedding dimension every stored record has.
    pub dim: usize,
    /// The file contents: record `i` lies at byte `i * dim * 4`.
    pub data: Vec<u8>,
}

impl VectorStore {
    /// The fixed byte width of one record.
    pub open spec fn rs(&self) -> nat {
        spec_record_size(self.dim as nat)
    }

    /// Opens a store over the current contents of the vector file (empty for
    /// a freshly created file).
    pub fn open(dim: usize, contents: Vec<u8>) -> (r: VectorStore)
        ensures
            r.dim == dim,
            r.data@ == contents@,
    {
        VectorStore { dim, data: contents }
    }

    /// Writes `batch` back-to-back starting at record index `start`, in
    /// batch order, using the fixed binary encoding. The file keeps every
    /// byte outside the written region.
    ///
    /// The offset must lie within the current contents: the pipeline only
    /// ever writes at its cursor, and the file always holds at least as many
    /// records as the checkpoint claims.
    pub fn write(&mut self, start: u64, batch: &Vec<Vec<u32>>)
        requires
            old(self).dim * 4 <= usize::MAX,
            forall|i: int| 0 <= i < batch@.len() ==> #[trigger] batch@[i]@.len() == old(self).dim,
            start * old(self).rs() <= old(self).data@.len(),
            start * old(self).rs() + batch@.len() * old(self).rs() <= usize::MAX,
        ensures
            final(self).dim == old(self).dim,
            final(self).data@ == spec_write_bytes(
                old(self).data@,
                start * old(self).rs() as int,
                spec_encode_batch(batch@.map_values(|e: Vec<u32>| e@)),
            ),
    {
        let ghost model = batch@.map_values(|e: Vec<u32>| e@);
        proof {
            lemma_encode_batch_len(model, self.dim as nat);
            assert(spec_record_size(self.dim as nat) == self.dim * 4);
        }
        proof {
            assert(batch@.len() * (self.dim * 4) >= 0) by (nonlinear_arith);
            assert(start * (self.dim * 4) >= 0) by (nonlinear_arith);
        }
        let rs: usize = self.dim * 4;
        let off: usize = (start * (rs as u64)) as usize;
        let bytes = encode_batch(batch, self.dim);
        let mut i: usize = 0;
        let ghost data0 = self.data@;
        proof {
            assert(self.data@ =~= spec_write_bytes(data0, off as int, bytes@.take(0)));
        }
        while i < bytes.len()
            invariant
                i <= bytes@.len(),
                off <= data0.len(),
                self.dim == old(self).dim,
                off + bytes@.len() <= usize::MAX,
                self.data@ == spec_write_bytes(data0, off as int, bytes@.take(i as int)),
            decreases bytes@.len() - i,
        {
            if off + i < self.data.len() {
                self.data.set(off + i, bytes[i]);
            } else {
                self.data.push(bytes[i]);
            }
            i = i + 1;
            proof {
                assert(self.data@ =~= spec_write_bytes(data0, off as int, bytes@.take(i as int)));
            }
        }
        proof {
            assert(bytes@.take(bytes@.len() as int) =~= bytes@);
        }
    }

    /// The count of whole records the store holds.
    pub fn record_count(&self) -> (r: usize)
        requires
            self.dim > 0,
            self.dim * 4 <= usize::MAX,
        ensures
            r == self.data@.len() as int / self.rs() as int,
    {
        self.data.len() / (self.dim * 4)
    }

    /// Reads back the `count` records `[start, start + count)` as decoded
    /// embeddings, in index order.
    pub fn read(&self, start: u64, count: usize) -> (r: Vec<Vec<u32>>)
        requires
            self.dim > 0,
            self.dim * 4 <= usize::MAX,
            start + count <= u64::MAX,
            start * self.rs() + count * self.rs() <= self.data@.len(),
        ensures
            r@.len() == count,
            forall|i: int| 0 <= i < count ==> #[trigger] r@[i]@ == spec_decode_embedding(
                self.data@, (start + i) * self.rs() as int, self.dim as nat),
            forall|i: int| 0 <= i < count ==> #[trigger] r@[i]@.len() == self.dim,
    {
        let rs: usize = self.dim * 4;
        let n: usize = self.data.len();
        let mut r: Vec<Vec<u32>> = Vec::new();
        let mut i: usize = 0;
        proof {
            assert(spec_record_size(self.dim as nat) == self.dim * 4);
        }
        while i < count
            invariant
                i <= count,
                self.dim > 0,
                n == self.data@.len(),
                start + count <= u64::MAX,
                rs == self.rs(),
                rs == self.dim * 4,
                start * self.rs() + count * self.rs() <= self.data@.len(),
                r@.len() == i,
                forall|j: int| 0 <= j < i ==> #[trigger] r@[j]@ == spec_decode_embedding(
                    self.data@, (start + j) * self.rs() as int, self.dim as nat),
                forall|j: int| 0 <= j < i ==> #[trigger] r@[j]@.len() == self.dim,
            decreases count - i,
        {
            proof {
                assert((start + i) * self.rs() + self.rs() <= start * self.rs() + count
                    * self.rs()) by (nonlinear_arith)
                    requires
                        0 <= i < count,
                        start >= 0,
                        self.rs() >= 0,
                ;
                assert((start + i) * self.rs() == start * self.rs() + i * self.rs())
                    by (nonlinear_arith);
                assert(start * self.rs() >= 0 && i * self.rs() >= 0 && count * self.rs() >= 0)
                    by (nonlinear_arith);
            }
            let idx: u64 = start + (i as u64);
            proof {
                assert(idx * rs + rs <= n);
            }
            let off64: u64 = idx * (rs as u64);
            let off: usize = off64 as usize;
            let e = decode_embedding(&self.data, off, self.dim);
            r.push(e);
            i = i + 1;
            proof {
                assert(r@[i - 1]@ == spec_decode_embedding(
                    self.data@, (start + (i - 1)) * self.rs() as int, self.dim as nat));
            }
        }
        r
    }
}

} // verus!
