use vectorize::chunker::{chunk_items, TextItem, TokenChunk};

fn item(text: &str, tokens: usize) -> TextItem {
    TextItem { text: text.to_string(), tokens }
}

fn texts(chunk: &[TextItem]) -> Vec<String> {
    chunk.iter().map(|it| it.text.clone()).collect()
}

#[test]
fn chunks_respect_token_limit() {
    let items = vec![item("a", 3), item("b", 4), item("c", 5)];
    let chunks = chunk_items(items, 7);
    assert_eq!(chunks.len(), 2);
    assert_eq!(texts(&chunks[0]), vec!["a".to_string(), "b".to_string()]);
    assert_eq!(texts(&chunks[1]), vec!["c".to_string()]);
}

#[test]
fn oversize_item_gets_own_chunk() {
    let items = vec![item("a", 1), item("big", 10), item("c", 1)];
    let chunks = chunk_items(items, 2);
    assert_eq!(chunks.len(), 3);
    assert_eq!(texts(&chunks[0]), vec!["a".to_string()]);
    assert_eq!(texts(&chunks[1]), vec!["big".to_string()]);
    assert_eq!(texts(&chunks[2]), vec!["c".to_string()]);
    // the oversize item travels whole, in a chunk of exactly one item
    assert_eq!(chunks[1].len(), 1);
    assert!(chunks[1][0].tokens > 2);
}

#[test]
fn first_item_of_multi_item_chunk_fits_limit() {
    let items = vec![
        item("u", 9),
        item("v", 9),
        item("w", 2),
        item("x", 3),
        item("y", 12),
        item("z", 1),
    ];
    let limit = 8usize;
    let chunks = chunk_items(items, limit);
    for chunk in &chunks {
        assert!(!chunk.is_empty());
        if chunk.len() != 1 {
            assert!(chunk[0].tokens <= limit);
        }
    }
}

#[test]
fn concatenation_reconstructs_source() {
    let source = vec![
        item("one", 2),
        item("two", 5),
        item("three", 1),
        item("four", 8),
        item("five", 3),
    ];
    let expected: Vec<String> = source.iter().map(|it| it.text.clone()).collect();
    let chunks = chunk_items(source, 6);
    let mut rebuilt: Vec<String> = Vec::new();
    for chunk in &chunks {
        rebuilt.extend(texts(chunk));
    }
    assert_eq!(rebuilt, expected);
}

#[test]
fn final_partial_chunk_is_flushed() {
    let items = vec![item("a", 1), item("b", 1)];
    let chunks = chunk_items(items, 100);
    assert_eq!(chunks.len(), 1);
    assert_eq!(texts(&chunks[0]), vec!["a".to_string(), "b".to_string()]);
}

#[test]
fn empty_input_yields_no_chunks() {
    let chunks = chunk_items(Vec::new(), 10);
    assert!(chunks.is_empty());
}

#[test]
fn streaming_chunker_matches_batch_chunking() {
    let source = vec![item("p", 4), item("q", 4), item("r", 4), item("s", 9)];
    let batch = chunk_items(source.clone(), 8);

    let mut chunker = TokenChunk::new(8);
    let mut streamed: Vec<Vec<TextItem>> = Vec::new();
    for it in source {
        if let Some(chunk) = chunker.collect_string(it) {
            streamed.push(chunk);
        }
    }
    if let Some(chunk) = chunker.finish() {
        streamed.push(chunk);
    }

    assert_eq!(batch.len(), streamed.len());
    for (a, b) in batch.iter().zip(streamed.iter()) {
        assert_eq!(texts(a), texts(b));
    }
}
