use vectorize::errors::{EmbeddingError, VectorizationError};
use vectorize::scheduler::{ChunkOutcome, Scheduler};

fn outcome(tag: usize) -> ChunkOutcome {
    // a recognisable payload: one 1-dimensional embedding plus a tag
    ChunkOutcome { embeddings: vec![vec![tag as u32]], failures: tag }
}

#[test]
fn yields_in_dispatch_order_under_adversarial_latency() {
    // a mock client that completes later-dispatched chunks first
    let mut s = Scheduler::new(10);
    let i0 = s.dispatch();
    let i1 = s.dispatch();
    let i2 = s.dispatch();
    assert_eq!((i0, i1, i2), (0, 1, 2));

    // nothing completed yet: nothing to yield
    assert!(s.try_yield().is_none());

    // the latest-dispatched unit completes first; its result is held back
    s.complete(i2, Ok(outcome(2)));
    assert!(s.try_yield().is_none());
    s.complete(i1, Ok(outcome(1)));
    assert!(s.try_yield().is_none());

    // once the earliest completes, results come out strictly in dispatch order
    s.complete(i0, Ok(outcome(0)));
    let mut tags = Vec::new();
    while let Some(res) = s.try_yield() {
        tags.push(res.unwrap().failures);
    }
    assert_eq!(tags, vec![0, 1, 2]);
}

#[test]
fn window_bounds_concurrent_units() {
    let mut s = Scheduler::new(2);
    assert!(s.can_dispatch());
    let i0 = s.dispatch();
    let _i1 = s.dispatch();
    // the in-flight window is full: backpressure
    assert!(!s.can_dispatch());
    s.complete(i0, Ok(outcome(0)));
    assert!(s.try_yield().is_some());
    // yielding frees a slot
    assert!(s.can_dispatch());
}

#[test]
fn failed_unit_is_yielded_at_its_turn() {
    let mut s = Scheduler::new(4);
    let i0 = s.dispatch();
    let i1 = s.dispatch();
    s.complete(i1, Err(VectorizationError::EmbeddingError(EmbeddingError::Service)));
    // the failure waits for its turn in dispatch order
    assert!(s.try_yield().is_none());
    s.complete(i0, Ok(outcome(0)));
    assert!(matches!(s.try_yield(), Some(Ok(_))));
    match s.try_yield() {
        Some(Err(VectorizationError::EmbeddingError(EmbeddingError::Service))) => {},
        other => panic!("expected the service error in second position, got {:?}",
            other.map(|r| r.map(|o| o.failures))),
    }
}
