//! Bounded-concurrency dispatch with order-preserving yields.
//!
//! Chunks are dispatched to the embedding boundary in chunk order, at most
//! `width` in flight at once — the in-flight window is the pipeline's only
//! backpressure. Units may complete in any order; a unit's result is held
//! back until every earlier-dispatched unit's result has been yielded, so
//! the yield order always equals the dispatch order. That ordering is what
//! lets downstream file offsets be computed purely from cumulative position.
//!
//! The scheduler is the decision core of that loop: the runtime that actually
//! awaits the units drives it by calling `dispatch`, `complete` and
//! `try_yield`.

use vstd::prelude::*;
use vstd::pervasive::VecAdditionalExecFns;
use crate::errors::VectorizationError;

verus! {

/// The successful outcome of one embedding unit: the embeddings positionally
/// aligned to the chunk's items (as 32-bit component bit patterns), plus the
/// count of items the client reported as failed within the chunk.
pub struct ChunkOutcome {
    pub embeddings: Vec<Vec<u32>>,
    pub failures: usize,
}

/// The mathematical model of a chunk outcome.
pub struct OutcomeModel {
    pub embeddings: Seq<Seq<u32>>,
    pub failures: nat,
}

impl View for ChunkOutcome {
    type V = OutcomeModel;

    open spec fn view(&self) -> OutcomeModel {
        OutcomeModel {
            embeddings: self.embeddings@.map_values(|e: Vec<u32>| e@),
            failures: self.failures as nat,
        }
    }
}

/// The result a unit hands back: an outcome, or the fatal error that aborts
/// the run when this unit's turn to be yielded arrives.
pub type UnitResult = Result<ChunkOutcome, VectorizationError>;

/// The model of a unit result.
pub open spec fn result_view(r: UnitResult) -> Result<OutcomeModel, VectorizationError> {
    match r {
        Ok(o) => Ok(o@),
        Err(e) => Err(e),
    }
}

/// The order-preserving bounded in-flight window.
///
/// Unit `i` is the `i`-th chunk dispatched. `recorded` is the ghost history
/// of every completed unit's result, and `yielded` the ghost history of the
/// results already handed downstream, in yield order.
pub struct Scheduler {
    /// The bound on units in flight.
    pub width: usize,
    /// Count of units dispatched so far; also the index the next dispatch
    /// gets.
    pub next_dispatch: u64,
    /// Count of results yielded so far; also the index whose result the next
    /// yield hands out.
    pub next_yield: u64,
    /// Slot `i` buffers the result of unit `next_yield + i`, `None` while
    /// that unit is still running.
    pub slots: Vec<Option<UnitResult>>,
    /// Every completed unit's result, by unit index.
    pub recorded: Ghost<Map<int, Result<OutcomeModel, VectorizationError>>>,
    /// The results yielded so far, in yield order.
    pub yielded: Ghost<Seq<Result<OutcomeModel, VectorizationError>>>,
}

impl Scheduler {
    /// How many dispatched units have not been yielded yet.
    pub open spec fn in_flight(&self) -> int {
        self.next_dispatch - self.next_yield
    }

    /// The scheduler's invariant: the window respects the bound, each buffer
    /// slot agrees with the completion history, and the yield history is
    /// exactly the completion history of units `0..next_yield`, in unit
    /// order.
    pub open spec fn wf(&self) -> bool {
        &&& self.width >= 1
        &&& self.next_yield <= self.next_dispatch
        &&& self.in_flight() <= self.width
        &&& self.slots@.len() == self.in_flight()
        &&& forall|i: int| #[trigger] self.recorded@.contains_key(i) ==> 0 <= i < self.next_dispatch
        &&& forall|i: int|
            0 <= i < self.slots@.len() ==> ((#[trigger] self.slots@[i]) is Some
                <==> self.recorded@.contains_key(self.next_yield + i))
        &&& forall|i: int|
            0 <= i < self.slots@.len() && (#[trigger] self.slots@[i]) is Some ==> result_view(
                self.slots@[i]->Some_0) == self.recorded@[self.next_yield + i]
        &&& self.yielded@.len() == self.next_yield
        &&& forall|i: int| 0 <= i < self.next_yield ==> #[trigger] self.recorded@.contains_key(i)
        &&& forall|i: int|
            0 <= i < self.next_yield ==> #[trigger] self.yielded@[i] == self.recorded@[i]
    }

    /// A fresh scheduler with in-flight bound `width`.
    pub fn new(width: usize) -> (r: Scheduler)
        requires
            width >= 1,
        ensures
            r.wf(),
            r.width == width,
            r.next_dispatch == 0,
            r.next_yield == 0,
            r.recorded@ == Map::<int, Result<OutcomeModel, VectorizationError>>::empty(),
            r.yielded@ == Seq::<Result<OutcomeModel, VectorizationError>>::empty(),
    {
        Scheduler {
            width,
            next_dispatch: 0,
            next_yield: 0,
            slots: Vec::new(),
            recorded: Ghost(Map::empty()),
            yielded: Ghost(Seq::empty()),
        }
    }

    /// Whether the window has room for another unit.
    pub fn can_dispatch(&self) -> (r: bool)
        requires
            self.wf(),
        ensures
            r == (self.in_flight() < self.width),
    {
        self.slots.len() < self.width
    }

    /// Takes the next chunk into flight; the returned index is its position
    /// in dispatch order.
    pub fn dispatch(&mut self) -> (idx: u64)
        requires
            old(self).wf(),
            old(self).in_flight() < old(self).width,
            old(self).next_dispatch < u64::MAX,
        ensures
            final(self).wf(),
            idx == old(self).next_dispatch,
            final(self).next_dispatch == old(self).next_dispatch + 1,
            final(self).next_yield == old(self).next_yield,
            final(self).width == old(self).width,
            final(self).recorded@ == old(self).recorded@,
            final(self).yielded@ == old(self).yielded@,
    {
        let idx = self.next_dispatch;
        self.next_dispatch = idx + 1;
        self.slots.push(None);
        proof {
            assert forall|i: int| 0 <= i < self.slots@.len() implies ((#[trigger] self.slots@[i])
                is Some <==> self.recorded@.contains_key(self.next_yield + i)) by {
                if i < self.slots@.len() - 1 {
                    assert(self.slots@[i] == old(self).slots@[i]);
                }
            }
            assert forall|i: int| 0 <= i < self.next_yield implies
                #[trigger] self.recorded@.contains_key(i) by {
                assert(old(self).recorded@.contains_key(i));
            }
            assert forall|i: int| 0 <= i < self.next_yield implies #[trigger] self.yielded@[i]
                == self.recorded@[i] by {
                assert(old(self).yielded@[i] == old(self).recorded@[i]);
            }
        }
        idx
    }

    /// Records the completion of unit `idx`, in whatever order units finish.
    pub fn complete(&mut self, idx: u64, result: UnitResult)
        requires
            old(self).wf(),
            old(self).next_yield <= idx < old(self).next_dispatch,
            !old(self).recorded@.contains_key(idx as int),
        ensures
            final(self).wf(),
            final(self).width == old(self).width,
            final(self).next_dispatch == old(self).next_dispatch,
            final(self).next_yield == old(self).next_yield,
            final(self).recorded@ == old(self).recorded@.insert(
                idx as int,
                result_view(result),
            ),
            final(self).yielded@ == old(self).yielded@,
    {
        let slot: usize = (idx - self.next_yield) as usize;
        self.slots.set(slot, Some(result));
        proof {
            self.recorded@ = self.recorded@.insert(idx as int, result_view(result));
            assert forall|i: int| 0 <= i < self.slots@.len() implies ((#[trigger] self.slots@[i])
                is Some <==> self.recorded@.contains_key(self.next_yield + i)) by {
                if i != slot {
                    assert(self.slots@[i] == old(self).slots@[i]);
                }
            }
            assert forall|i: int|
                0 <= i < self.slots@.len() && (#[trigger] self.slots@[i]) is Some implies
                result_view(self.slots@[i]->Some_0) == self.recorded@[self.next_yield + i] by {
                if i != slot {
                    assert(self.slots@[i] == old(self).slots@[i]);
                }
            }
            assert forall|i: int| 0 <= i < self.next_yield implies
                #[trigger] self.recorded@.contains_key(i) by {
                assert(old(self).recorded@.contains_key(i));
            }
            assert forall|i: int| 0 <= i < self.next_yield implies #[trigger] self.yielded@[i]
                == self.recorded@[i] by {
                assert(old(self).yielded@[i] == old(self).recorded@[i]);
            }
        }
    }

    /// Hands out the next result in dispatch order, or `None` while the
    /// earliest in-flight unit has not completed — a later-completing unit's
    /// result is held back until every earlier unit's result was yielded.
    pub fn try_yield(&mut self) -> (r: Option<UnitResult>)
        requires
            old(self).wf(),
        ensures
            final(self).wf(),
            final(self).width == old(self).width,
            final(self).next_dispatch == old(self).next_dispatch,
            final(self).recorded@ == old(self).recorded@,
            match r {
                Some(res) => {
                    &&& old(self).recorded@.contains_key(old(self).next_yield as int)
                    &&& result_view(res) == old(self).recorded@[old(self).next_yield as int]
                    &&& final(self).next_yield == old(self).next_yield + 1
                    &&& final(self).yielded@ == old(self).yielded@.push(result_view(res))
                },
                None => {
                    &&& final(self).next_yield == old(self).next_yield
                    &&& final(self).yielded@ == old(self).yielded@
                    &&& (old(self).in_flight() == 0 || !old(self).recorded@.contains_key(
                        old(self).next_yield as int,
                    ))
                },
            },
    {
        if self.slots.len() > 0 && self.slots[0].is_some() {
            let head = self.slots.remove(0);
            self.next_yield = self.next_yield + 1;
            match head {
                Some(res) => {
                    proof {
                        self.yielded@ = self.yielded@.push(result_view(res));
                        assert forall|i: int| 0 <= i < self.slots@.len() implies ((
                        #[trigger] self.slots@[i]) is Some <==> self.recorded@.contains_key(
                            self.next_yield + i)) by {
                            assert(self.slots@[i] == old(self).slots@[i + 1]);
                        }
                        assert forall|i: int|
                            0 <= i < self.slots@.len() && (#[trigger] self.slots@[i]) is Some
                            implies result_view(self.slots@[i]->Some_0) == self.recorded@[
                            self.next_yield + i] by {
                            assert(self.slots@[i] == old(self).slots@[i + 1]);
                        }
                        assert forall|i: int| 0 <= i < self.next_yield implies
                            #[trigger] self.recorded@.contains_key(i) by {
                            if i < self.next_yield - 1 {
                                assert(old(self).recorded@.contains_key(i));
                            }
                        }
                        assert forall|i: int| 0 <= i < self.next_yield implies
                            #[trigger] self.yielded@[i] == self.recorded@[i] by {
                            if i < self.next_yield - 1 {
                                assert(self.yielded@[i] == old(self).yielded@[i]);
                                assert(old(self).yielded@[i] == old(self).recorded@[i]);
                            }
                        }
                    }
                    Some(res)
                },
                None => {
                    proof {
                        assert(false);
                    }
                    None
                },
            }
        } else {
            None
        }
    }
}

/// Ordering under adversarial completion: whatever order units completed in,
/// the `i`-th result yielded is the recorded result of the `i`-th chunk
/// dispatched.
pub proof fn lemma_yield_order(s: &Scheduler, i: int)
    requires
        s.wf(),
        0 <= i < s.yielded@.len(),
    ensures
        s.recorded@.contains_key(i),
        s.yielded@[i] == s.recorded@[i],
{
}

} // verus!
