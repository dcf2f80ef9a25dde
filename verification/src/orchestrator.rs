//! The orchestrator: one resumable run.
//!
//! The run consumes the scheduler's ordered result stream one result at a
//! time and, for each successful batch, writes its embeddings at the current
//! cursor, then advances and persists the cursor — vectors durable first,
//! cursor durable second, next work third. That ordering bounds crash damage
//! to the batch in flight: after a restart the vector file always holds at
//! least as many valid records as the checkpoint claims, and re-doing the
//! unflushed batch rewrites the same offset with the same bytes.
//!
//! The first failed unit aborts the run the moment its turn arrives; the
//! effects of batches already consumed stand.

use vstd::prelude::*;
use crate::checkpoint::Checkpoint;
use crate::codec::{spec_encode_batch, lemma_encode_batch_len};
use crate::errors::VectorizationError;
use crate::scheduler::{OutcomeModel, UnitResult, result_view};
use crate::store::{VectorStore, spec_write_bytes};
use crate::spec_record_size;

verus! {

/// The total embedding count of a batch sequence.
pub open spec fn total_count(batches: Seq<Seq<Seq<u32>>>) -> nat
    decreases batches.len(),
{
    if batches.len() == 0 {
        0
    } else {
        total_count(batches.drop_last()) + batches.last().len()
    }
}

/// The models of a sequence of unit results.
pub open spec fn outcomes_view(outcomes: Seq<UnitResult>) -> Seq<
    Result<OutcomeModel, VectorizationError>,
> {
    outcomes.map_values(|r: UnitResult| result_view(r))
}

/// The embedding batches a result sequence carries: a failed unit carries
/// none.
pub open spec fn embs_of(outs: Seq<Result<OutcomeModel, VectorizationError>>) -> Seq<
    Seq<Seq<u32>>,
> {
    outs.map_values(
        |r: Result<OutcomeModel, VectorizationError>|
            match r {
                Ok(o) => o.embeddings,
                Err(_) => Seq::<Seq<u32>>::empty(),
            },
    )
}

/// The sum of the client-reported failure counts; a failed unit contributes
/// none.
pub open spec fn sum_failures(outs: Seq<Result<OutcomeModel, VectorizationError>>) -> nat
    decreases outs.len(),
{
    if outs.len() == 0 {
        0
    } else {
        sum_failures(outs.drop_last()) + match outs.last() {
            Ok(o) => o.failures,
            Err(_) => 0,
        }
    }
}

/// The vector-file bytes after a run that starts with contents `data0` and
/// cursor `c0` and consumes `batches` in order: each batch is written at the
/// cursor's offset, and the cursor advances by the batch's length.
pub open spec fn run_data(data0: Seq<u8>, c0: nat, batches: Seq<Seq<Seq<u32>>>, dim: nat) -> Seq<
    u8,
>
    decreases batches.len(),
{
    if batches.len() == 0 {
        data0
    } else {
        let prev = run_data(data0, c0, batches.drop_last(), dim);
        spec_write_bytes(
            prev,
            ((c0 + total_count(batches.drop_last())) * spec_record_size(dim)) as int,
            spec_encode_batch(batches.last()),
        )
    }
}

/// Total embedding counts add over concatenation.
pub proof fn lemma_total_count_concat(a: Seq<Seq<Seq<u32>>>, b: Seq<Seq<Seq<u32>>>)
    ensures
        total_count(a + b) == total_count(a) + total_count(b),
    decreases b.len(),
{
    if b.len() == 0 {
        assert(a + b =~= a);
    } else {
        lemma_total_count_concat(a, b.drop_last());
        assert((a + b).drop_last() =~= a + b.drop_last());
        assert((a + b).last() == b.last());
    }
}

/// A prefix never counts more embeddings than the whole.
pub proof fn lemma_total_count_take_le(batches: Seq<Seq<Seq<u32>>>, i: int)
    requires
        0 <= i <= batches.len(),
    ensures
        total_count(batches.take(i)) <= total_count(batches),
{
    lemma_total_count_concat(batches.take(i), batches.skip(i));
    assert(batches.take(i) + batches.skip(i) =~= batches);
}

/// A prefix never counts more failures than the whole.
pub proof fn lemma_sum_failures_take_le(
    outs: Seq<Result<OutcomeModel, VectorizationError>>,
    i: int,
)
    requires
        0 <= i <= outs.len(),
    ensures
        sum_failures(outs.take(i)) <= sum_failures(outs),
    decreases outs.len() - i,
{
    if i < outs.len() {
        assert(outs.take(i + 1).drop_last() =~= outs.take(i));
        assert(outs.take(i + 1).last() == outs[i]);
        lemma_sum_failures_take_le(outs, i + 1);
    } else {
        assert(outs.take(i) =~= outs);
    }
}

/// A run over `a + b` is the run over `a` followed by the run over `b` from
/// the advanced cursor: consuming the stream in two sittings changes
/// nothing.
pub proof fn lemma_run_split(
    data0: Seq<u8>,
    c0: nat,
    a: Seq<Seq<Seq<u32>>>,
    b: Seq<Seq<Seq<u32>>>,
    dim: nat,
)
    ensures
        run_data(data0, c0, a + b, dim) == run_data(
            run_data(data0, c0, a, dim),
            (c0 + total_count(a)) as nat,
            b,
            dim,
        ),
    decreases b.len(),
{
    if b.len() == 0 {
        assert(a + b =~= a);
    } else {
        lemma_run_split(data0, c0, a, b.drop_last(), dim);
        assert((a + b).drop_last() =~= a + b.drop_last());
        assert((a + b).last() == b.last());
        lemma_total_count_concat(a, b.drop_last());
    }
}

/// Every batch of the sequence holds embeddings of dimension `dim` only.
pub open spec fn batches_dim_ok(batches: Seq<Seq<Seq<u32>>>, dim: nat) -> bool {
    forall|j: int, l: int|
        0 <= j < batches.len() && 0 <= l < batches[j].len() ==> (#[trigger] batches[j][l]).len()
            == dim
}

/// A run never shrinks the file, and afterwards the file holds at least as
/// many whole records as the advanced cursor claims.
pub proof fn lemma_run_data_len(data0: Seq<u8>, c0: nat, batches: Seq<Seq<Seq<u32>>>, dim: nat)
    requires
        batches_dim_ok(batches, dim),
        c0 * spec_record_size(dim) <= data0.len(),
    ensures
        run_data(data0, c0, batches, dim).len() >= data0.len(),
        run_data(data0, c0, batches, dim).len() >= (c0 + total_count(batches))
            * spec_record_size(dim),
    decreases batches.len(),
{
    let rs = spec_record_size(dim);
    if batches.len() == 0 {
        assert((c0 + total_count(batches)) * rs == c0 * rs);
    } else {
        let dl = batches.drop_last();
        assert(batches_dim_ok(dl, dim)) by {
            assert(forall|j: int| 0 <= j < dl.len() ==> dl[j] == #[trigger] batches[j]);
        }
        lemma_run_data_len(data0, c0, dl, dim);
        let prev = run_data(data0, c0, dl, dim);
        assert(forall|l: int|
            0 <= l < batches.last().len() ==> (#[trigger] batches.last()[l]).len() == dim);
        lemma_encode_batch_len(batches.last(), dim);
        let off = (c0 + total_count(dl)) * rs;
        assert((c0 + total_count(dl)) * rs + batches.last().len() * rs == (c0 + total_count(dl)
            + batches.last().len()) * rs) by (nonlinear_arith);
        assert(run_data(data0, c0, batches, dim).len() >= off + batches.last().len() * rs);
    }
}

/// Overwriting a region with the same bytes changes nothing.
pub proof fn lemma_write_idempotent(data: Seq<u8>, off: int, bytes: Seq<u8>)
    requires
        0 <= off <= data.len(),
    ensures
        spec_write_bytes(spec_write_bytes(data, off, bytes), off, bytes) == spec_write_bytes(
            data,
            off,
            bytes,
        ),
{
    let once = spec_write_bytes(data, off, bytes);
    assert(spec_write_bytes(once, off, bytes) =~= once);
}

/// Idempotent resume: running the first `k` batches, restarting from the
/// checkpointed cursor, and running the remaining batches produces exactly
/// the vector-file bytes of one uninterrupted run — given the same
/// (deterministic) batches.
pub proof fn lemma_resume_idempotent(
    data0: Seq<u8>,
    batches: Seq<Seq<Seq<u32>>>,
    k: int,
    dim: nat,
)
    requires
        0 <= k <= batches.len(),
    ensures
        run_data(
            run_data(data0, 0, batches.take(k), dim),
            total_count(batches.take(k)),
            batches.skip(k),
            dim,
        ) == run_data(data0, 0, batches, dim),
{
    lemma_run_split(data0, 0, batches.take(k), batches.skip(k), dim);
    assert(batches.take(k) + batches.skip(k) =~= batches);
}

/// Crash simulation: the process dies after writing batch `k`'s vectors but
/// before its checkpoint write. The restart reads the cursor as of batch
/// `k`'s start, rewrites identical bytes at that same offset, and the final
/// file equals that of an uninterrupted run; records of earlier batches are
/// never touched.
pub proof fn lemma_crash_restart(data0: Seq<u8>, batches: Seq<Seq<Seq<u32>>>, k: int, dim: nat)
    requires
        0 <= k < batches.len(),
        batches_dim_ok(batches, dim),
    ensures
        ({
            let before = run_data(data0, 0, batches.take(k), dim);
            let ck = total_count(batches.take(k));
            let crashed = spec_write_bytes(
                before,
                (ck * spec_record_size(dim)) as int,
                spec_encode_batch(batches[k]),
            );
            run_data(crashed, ck, batches.skip(k), dim) == run_data(data0, 0, batches, dim)
        }),
{
    let before = run_data(data0, 0, batches.take(k), dim);
    let ck = total_count(batches.take(k));
    let one = seq![batches[k]];
    let crashed = spec_write_bytes(
        before,
        (ck * spec_record_size(dim)) as int,
        spec_encode_batch(batches[k]),
    );
    assert(one.drop_last() =~= Seq::<Seq<Seq<u32>>>::empty());
    assert(total_count(one.drop_last()) == 0);
    assert(run_data(before, ck, one.drop_last(), dim) == before);
    assert(run_data(crashed, ck, one.drop_last(), dim) == crashed);
    assert(run_data(before, ck, one, dim) == crashed);
    assert(batches_dim_ok(batches.take(k), dim)) by {
        assert(forall|j: int|
            0 <= j < batches.take(k).len() ==> batches.take(k)[j] == #[trigger] batches[j]);
    }
    assert(0 * spec_record_size(dim) <= data0.len());
    lemma_run_data_len(data0, 0, batches.take(k), dim);
    assert((0 + total_count(batches.take(k))) * spec_record_size(dim) == ck * spec_record_size(
        dim,
    ));
    assert(run_data(crashed, ck, one, dim) == crashed) by {
        lemma_write_idempotent(before, (ck * spec_record_size(dim)) as int,
            spec_encode_batch(batches[k]));
    }
    assert(one + batches.skip(k + 1) =~= batches.skip(k));
    lemma_run_split(crashed, ck, one, batches.skip(k + 1), dim);
    lemma_run_split(before, ck, one, batches.skip(k + 1), dim);
    assert(total_count(one) == batches[k].len());
    lemma_resume_idempotent(data0, batches, k, dim);
    assert(run_data(before, ck, batches.skip(k), dim) == run_data(data0, 0, batches, dim));
}

/// Consumes the ordered result stream: writes each successful batch's
/// embeddings at the cursor, advances and persists the cursor strictly
/// before the next batch is consumed, and accumulates the client-reported
/// failure counts. Returns the total failure count on clean exhaustion, or
/// the first fatal error — the effects of the batches consumed before it
/// stand.
pub fn run_batches(
    store: &mut VectorStore,
    checkpoint: &mut Checkpoint,
    outcomes: Vec<UnitResult>,
) -> (r: Result<u64, VectorizationError>)
    requires
        old(store).dim * 4 <= usize::MAX,
        forall|j: int, l: int|
            0 <= j < outcomes@.len() && outcomes@[j] is Ok && 0 <= l
                < outcomes@[j]->Ok_0.embeddings@.len()
                ==> (#[trigger] outcomes@[j]->Ok_0.embeddings@[l])@.len() == old(store).dim,
        old(checkpoint).cursor * old(store).rs() <= old(store).data@.len(),
        old(checkpoint).cursor + total_count(embs_of(outcomes_view(outcomes@))) <= u64::MAX,
        (old(checkpoint).cursor + total_count(embs_of(outcomes_view(outcomes@)))) * old(
            store,
        ).rs() <= usize::MAX,
        sum_failures(outcomes_view(outcomes@)) <= u64::MAX,
    ensures
        final(store).dim == old(store).dim,
        ({
            let outs = outcomes_view(outcomes@);
            let data0 = old(store).data@;
            let c0 = old(checkpoint).cursor as nat;
            let dim = old(store).dim as nat;
            match r {
                Ok(f) => {
                    &&& forall|j: int| 0 <= j < outs.len() ==> (#[trigger] outs[j]) is Ok
                    &&& final(store).data@ == run_data(data0, c0, embs_of(outs), dim)
                    &&& final(checkpoint).cursor == c0 + total_count(embs_of(outs))
                    &&& f == sum_failures(outs)
                },
                Err(e) => exists|k: int|
                    {
                        &&& 0 <= k < outs.len()
                        &&& (#[trigger] outs[k]) == Err::<OutcomeModel, VectorizationError>(e)
                        &&& forall|j: int| 0 <= j < k ==> (#[trigger] outs[j]) is Ok
                        &&& final(store).data@ == run_data(
                            data0,
                            c0,
                            embs_of(outs).take(k),
                            dim,
                        )
                        &&& final(checkpoint).cursor == c0 + total_count(embs_of(outs).take(k))
                    },
            }
        }),
{
    let ghost outs = outcomes_view(outcomes@);
    let ghost embs = embs_of(outs);
    let ghost data0 = store.data@;
    let ghost c0 = checkpoint.cursor as nat;
    let ghost dim = store.dim as nat;
    let mut failures: u64 = 0;
    let unit_count = outcomes.len();
    let mut rest = outcomes;
    let mut i: usize = 0;
    proof {
        assert(embs.take(0) =~= Seq::<Seq<Seq<u32>>>::empty());
        assert(outs.take(0) =~= Seq::<Result<OutcomeModel, VectorizationError>>::empty());
        assert(rest@ =~= outcomes@.skip(0));
    }
    while rest.len() > 0
        invariant
            store.dim * 4 <= usize::MAX,
            dim == store.dim as nat,
            store.dim == old(store).dim,
            data0 == old(store).data@,
            c0 == old(checkpoint).cursor as nat,
            outs == outcomes_view(outcomes@),
            embs == embs_of(outs),
            i + rest@.len() == outs.len(),
            outs.len() == unit_count,
            rest@ == outcomes@.skip(i as int),
            forall|j: int, l: int|
                0 <= j < outcomes@.len() && outcomes@[j] is Ok && 0 <= l
                    < outcomes@[j]->Ok_0.embeddings@.len()
                    ==> (#[trigger] outcomes@[j]->Ok_0.embeddings@[l])@.len() == store.dim,
            forall|j: int| 0 <= j < i ==> (#[trigger] outs[j]) is Ok,
            checkpoint.cursor == c0 + total_count(embs.take(i as int)),
            store.data@ == run_data(data0, c0, embs.take(i as int), dim),
            checkpoint.cursor * store.rs() <= store.data@.len(),
            c0 + total_count(embs) <= u64::MAX,
            (c0 + total_count(embs)) * store.rs() <= usize::MAX,
            sum_failures(outs) <= u64::MAX,
            failures == sum_failures(outs.take(i as int)),
        decreases rest@.len(),
    {
        let ghost rest0 = rest@;
        let outcome = rest.remove(0);
        proof {
            assert(rest@ =~= outcomes@.skip(i + 1));
            assert(outcomes@.skip(i as int)[0] == outcomes@[i as int]);
            assert(outcome == outcomes@[i as int]);
            assert(outs[i as int] == result_view(outcomes@[i as int]));
            assert(outs[i as int] == result_view(outcome));
            assert(embs.take(i + 1).drop_last() =~= embs.take(i as int));
            assert(embs.take(i + 1).last() == embs[i as int]);
            assert(outs.take(i + 1).drop_last() =~= outs.take(i as int));
            assert(outs.take(i + 1).last() == outs[i as int]);
            lemma_total_count_take_le(embs, i + 1);
            lemma_sum_failures_take_le(outs, i + 1);
        }
        match outcome {
            Ok(out) => {
                proof {
                    assert(outs[i as int] is Ok);
                    assert(outs[i as int]->Ok_0 == out@);
                    assert(embs[i as int] == out@.embeddings);
                    assert(out@.embeddings.len() == out.embeddings@.len());
                    assert forall|l: int| 0 <= l < out.embeddings@.len() implies (
                    #[trigger] out.embeddings@[l])@.len() == store.dim by {
                        assert(outcomes@[i as int] is Ok);
                        assert(outcomes@[i as int]->Ok_0.embeddings@[l] == out.embeddings@[l]);
                        assert((outcomes@[i as int]->Ok_0.embeddings@[l])@.len() == store.dim);
                    }
                    assert(total_count(embs.take(i + 1)) == total_count(embs.take(i as int))
                        + out@.embeddings.len());
                    assert((checkpoint.cursor + out.embeddings@.len()) * store.rs() <= (c0
                        + total_count(embs)) * store.rs()) by (nonlinear_arith)
                        requires
                            checkpoint.cursor + out.embeddings@.len() <= c0 + total_count(embs),
                            store.rs() >= 0,
                    ;
                    assert(checkpoint.cursor * store.rs() + out.embeddings@.len() * store.rs()
                        == (checkpoint.cursor + out.embeddings@.len()) * store.rs())
                        by (nonlinear_arith);
                }
                let n = out.embeddings.len();
                store.write(checkpoint.cursor, &out.embeddings);
                proof {
                    lemma_encode_batch_len(out@.embeddings, dim);
                    assert(out@.embeddings =~= out.embeddings@.map_values(|e: Vec<u32>| e@));
                    assert(store.data@ == run_data(data0, c0, embs.take(i + 1), dim));
                }
                checkpoint.advance(n as u64);
                proof {
                    assert(sum_failures(outs.take(i + 1)) == sum_failures(outs.take(i as int))
                        + out@.failures);
                    assert(out@.failures == out.failures as nat);
                    assert(failures + out.failures <= sum_failures(outs));
                }
                failures = failures + (out.failures as u64);
                i = i + 1;
            },
            Err(e) => {
                proof {
                    assert(outs[i as int] == Err::<OutcomeModel, VectorizationError>(e));
                    assert(embs_of(outs).take(i as int) =~= embs.take(i as int));
                }
                return Err(e);
            },
        }
    }
    proof {
        assert(outs.skip(i as int).len() == 0);
        assert(i == outs.len());
        assert(embs.take(i as int) =~= embs);
        assert(outs.take(i as int) =~= outs);
    }
    Ok(failures)
}

} // verus!
