use vectorize::checkpoint::{cursor_of_file, encode_cursor, Checkpoint};
use vectorize::codec::{decode_embedding, encode_embedding};
use vectorize::record_size;
use vectorize::store::VectorStore;

#[test]
fn record_size_is_dimension_times_float_width() {
    assert_eq!(record_size(2), 8);
    assert_eq!(record_size(1536), 6144);
}

#[test]
fn embedding_encoding_is_little_endian() {
    let e: Vec<u32> = vec![0x0102_0304, 0x0A0B_0C0D];
    let bytes = encode_embedding(&e);
    assert_eq!(bytes, vec![0x04, 0x03, 0x02, 0x01, 0x0D, 0x0C, 0x0B, 0x0A]);
}

#[test]
fn embedding_decode_inverts_encode() {
    let e: Vec<u32> = vec![
        1.5f32.to_bits(),
        (-2.25f32).to_bits(),
        0.0f32.to_bits(),
        f32::NAN.to_bits(),
    ];
    let bytes = encode_embedding(&e);
    let back = decode_embedding(&bytes, 0, 4);
    assert_eq!(back, e);
}

#[test]
fn write_then_read_returns_bit_identical_vectors() {
    // writing N embeddings at cursor C, then reading records [C, C+N)
    let dim = 3usize;
    let mut store = VectorStore::open(dim, Vec::new());
    let first = vec![
        vec![1.0f32.to_bits(), 2.0f32.to_bits(), 3.0f32.to_bits()],
        vec![4.5f32.to_bits(), (-5.0f32).to_bits(), 6.25f32.to_bits()],
    ];
    store.write(0, &first);
    let second = vec![
        vec![7.0f32.to_bits(), 8.0f32.to_bits(), 9.0f32.to_bits()],
        vec![0.5f32.to_bits(), 0.25f32.to_bits(), 0.125f32.to_bits()],
        vec![f32::INFINITY.to_bits(), f32::MIN.to_bits(), f32::MAX.to_bits()],
    ];
    store.write(2, &second);

    let back_first = store.read(0, 2);
    assert_eq!(back_first, first);
    let back_second = store.read(2, 3);
    assert_eq!(back_second, second);
    assert_eq!(store.record_count(), 5);
}

#[test]
fn rewriting_the_same_offset_with_the_same_batch_changes_nothing() {
    let dim = 2usize;
    let mut store = VectorStore::open(dim, Vec::new());
    let batch = vec![
        vec![1.0f32.to_bits(), 2.0f32.to_bits()],
        vec![3.0f32.to_bits(), 4.0f32.to_bits()],
    ];
    store.write(0, &batch);
    let once = store.data.clone();
    store.write(0, &batch);
    assert_eq!(store.data, once);
}

#[test]
fn checkpoint_encoding_round_trips() {
    let bytes = encode_cursor(3);
    assert_eq!(bytes.len(), 8);
    assert_eq!(bytes, vec![3, 0, 0, 0, 0, 0, 0, 0]);
    assert_eq!(cursor_of_file(&Some(bytes)), 3);

    let large = encode_cursor(u64::MAX - 7);
    assert_eq!(cursor_of_file(&Some(large)), u64::MAX - 7);
}

#[test]
fn undersized_checkpoint_means_fresh_start() {
    assert_eq!(cursor_of_file(&None), 0);
    assert_eq!(cursor_of_file(&Some(vec![1, 2, 3])), 0);
    assert_eq!(cursor_of_file(&Some(vec![9; 9])), 0);
    assert_eq!(cursor_of_file(&Some(Vec::new())), 0);
}

#[test]
fn checkpoint_advances_by_batch_length() {
    let mut cp = Checkpoint::open(&None);
    assert_eq!(cp.cursor, 0);
    cp.advance(4);
    cp.advance(3);
    assert_eq!(cp.cursor, 7);
    let reopened = Checkpoint::open(&Some(cp.encoded()));
    assert_eq!(reopened.cursor, 7);
}
