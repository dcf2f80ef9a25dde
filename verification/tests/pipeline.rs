use vectorize::checkpoint::Checkpoint;
use vectorize::chunker::{chunk_items, TextItem};
use vectorize::errors::{EmbeddingError, VectorizationError};
use vectorize::orchestrator::run_batches;
use vectorize::scheduler::{ChunkOutcome, Scheduler, UnitResult};
use vectorize::store::VectorStore;
use vectorize::textsource::{extract_text_items, skip_processed, PAYLOAD_FIELD};

const DIM: usize = 2;

/// The deterministic mock embedding client: two floats per item, derived from
/// the item's text alone.
fn embed(text: &str) -> Vec<u32> {
    let len = text.len() as f32;
    let first = text.bytes().next().unwrap_or(0) as f32;
    vec![len.to_bits(), (first + 0.5).to_bits()]
}

fn embed_chunk(texts: &[&str]) -> ChunkOutcome {
    ChunkOutcome { embeddings: texts.iter().map(|t| embed(t)).collect(), failures: 0 }
}

#[test]
fn extraction_returns_payloads_in_record_order() {
    let lines = vec![
        "{\"string\": \"alpha\"}".to_string(),
        "{\"other\": 42}".to_string(),
        "{\"string\": \"beta\", \"extra\": true}".to_string(),
        "{}".to_string(),
        "{\"string\": \"gamma\"}".to_string(),
    ];
    let items = extract_text_items(&lines, PAYLOAD_FIELD).unwrap();
    assert_eq!(items, vec!["alpha".to_string(), "beta".to_string(), "gamma".to_string()]);
}

#[test]
fn malformed_record_is_a_fatal_parse_error() {
    let lines = vec![
        "{\"string\": \"ok\"}".to_string(),
        "{not json".to_string(),
        "{\"string\": \"never reached\"}".to_string(),
    ];
    match extract_text_items(&lines, PAYLOAD_FIELD) {
        Err(VectorizationError::Parse(_)) => {},
        other => panic!("expected a parse error, got {:?}", other.map(|v| v.len())),
    }
}

#[test]
fn non_string_payload_field_is_skipped() {
    let lines = vec!["{\"string\": 7}".to_string(), "{\"string\": \"real\"}".to_string()];
    let items = extract_text_items(&lines, PAYLOAD_FIELD).unwrap();
    assert_eq!(items, vec!["real".to_string()]);
}

#[test]
fn skip_processed_drops_the_checkpointed_prefix() {
    let items = vec!["a".to_string(), "b".to_string(), "c".to_string()];
    assert_eq!(skip_processed(items.clone(), 0), items);
    assert_eq!(skip_processed(items.clone(), 2), vec!["c".to_string()]);
    assert_eq!(skip_processed(items.clone(), 3), Vec::<String>::new());
    assert_eq!(skip_processed(items, 9), Vec::<String>::new());
}

fn batches() -> Vec<UnitResult> {
    vec![
        Ok(embed_chunk(&["a", "bb"])),
        Ok(embed_chunk(&["ccc"])),
        Ok(embed_chunk(&["dd", "e", "ffff"])),
    ]
}

#[test]
fn resume_produces_an_identical_vector_file() {
    // one uninterrupted run
    let mut full_store = VectorStore::open(DIM, Vec::new());
    let mut full_cp = Checkpoint::open(&None);
    run_batches(&mut full_store, &mut full_cp, batches()).unwrap();

    // run to batch 1, "restart", then run to completion
    let mut store = VectorStore::open(DIM, Vec::new());
    let mut cp = Checkpoint::open(&None);
    let mut first = batches();
    let rest = first.split_off(1);
    run_batches(&mut store, &mut cp, first).unwrap();

    let mut store = VectorStore::open(DIM, store.data);
    let mut cp = Checkpoint::open(&Some(cp.encoded()));
    run_batches(&mut store, &mut cp, rest).unwrap();

    assert_eq!(store.data, full_store.data);
    assert_eq!(cp.cursor, full_cp.cursor);
    assert_eq!(cp.cursor, 6);
}

#[test]
fn crash_after_vector_write_before_checkpoint_recovers() {
    let mut full_store = VectorStore::open(DIM, Vec::new());
    let mut full_cp = Checkpoint::open(&None);
    run_batches(&mut full_store, &mut full_cp, batches()).unwrap();

    // run the first batch to completion
    let mut store = VectorStore::open(DIM, Vec::new());
    let mut cp = Checkpoint::open(&None);
    let mut first = batches();
    let rest = first.split_off(1);
    run_batches(&mut store, &mut cp, first).unwrap();
    let durable_prefix = store.data.clone();

    // the crash: batch 1's vectors hit the file, its checkpoint write does not
    if let Ok(out) = &batches()[1] {
        store.write(cp.cursor, &out.embeddings);
    }
    // prior records were not corrupted by the extra write
    assert_eq!(&store.data[..durable_prefix.len()], &durable_prefix[..]);

    // restart from the stale (smaller) checkpoint: batch 1 is re-done at the
    // same offset with identical bytes
    let mut store = VectorStore::open(DIM, store.data);
    let mut cp = Checkpoint::open(&Some(cp.encoded()));
    assert_eq!(cp.cursor, 2);
    run_batches(&mut store, &mut cp, rest).unwrap();

    assert_eq!(store.data, full_store.data);
    assert_eq!(cp.cursor, full_cp.cursor);
}

#[test]
fn failed_unit_aborts_but_earlier_effects_stand() {
    let outcomes: Vec<UnitResult> = vec![
        Ok(embed_chunk(&["a"])),
        Err(VectorizationError::EmbeddingError(EmbeddingError::Transient)),
        Ok(embed_chunk(&["never"])),
    ];
    let mut store = VectorStore::open(DIM, Vec::new());
    let mut cp = Checkpoint::open(&None);
    let r = run_batches(&mut store, &mut cp, outcomes);
    assert_eq!(r, Err(VectorizationError::EmbeddingError(EmbeddingError::Transient)));
    // the first batch's write and checkpoint advance stand
    assert_eq!(cp.cursor, 1);
    assert_eq!(store.read(0, 1), vec![embed("a")]);
    assert_eq!(store.record_count(), 1);
}

#[test]
fn three_records_end_to_end() {
    // a log with three payload-bearing records
    let lines = vec![
        "{\"string\": \"a\"}".to_string(),
        "{\"string\": \"b\"}".to_string(),
        "{\"string\": \"c\"}".to_string(),
    ];
    let texts = extract_text_items(&lines, PAYLOAD_FIELD).unwrap();

    // fresh start: nothing checkpointed yet
    let mut cp = Checkpoint::open(&None);
    assert_eq!(cp.cursor, 0);
    let pending = skip_processed(texts, cp.cursor);

    // a token limit large enough for one chunk
    let items: Vec<TextItem> =
        pending.into_iter().map(|text| TextItem { text, tokens: 1 }).collect();
    let chunks = chunk_items(items, 1_000_000);
    assert_eq!(chunks.len(), 1);

    // concurrency width 10, deterministic 2-float-per-item client
    let mut scheduler = Scheduler::new(10);
    let mut outcomes: Vec<UnitResult> = Vec::new();
    for chunk in &chunks {
        assert!(scheduler.can_dispatch());
        let idx = scheduler.dispatch();
        let embeddings: Vec<Vec<u32>> = chunk.iter().map(|it| embed(&it.text)).collect();
        scheduler.complete(idx, Ok(ChunkOutcome { embeddings, failures: 0 }));
    }
    while let Some(res) = scheduler.try_yield() {
        outcomes.push(res);
    }
    assert_eq!(outcomes.len(), 1);

    let mut store = VectorStore::open(DIM, Vec::new());
    let failures = run_batches(&mut store, &mut cp, outcomes).unwrap();
    assert_eq!(failures, 0);

    // the vector file holds exactly 3 records, in input order
    assert_eq!(store.record_count(), 3);
    assert_eq!(store.read(0, 3), vec![embed("a"), embed("b"), embed("c")]);

    // the checkpoint file encodes 3
    assert_eq!(cp.encoded(), vec![3, 0, 0, 0, 0, 0, 0, 0]);
}
