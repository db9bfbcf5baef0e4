use meshcodec::indexcodec::decode_index_buffer;
use meshcodec::indexcodec::encode_index_buffer;
use meshcodec::indexcodec::encode_index_buffer_bound;
use meshcodec::CodecError;

#[test]
fn round_trip_two_triangles() {
    let indices: Vec<u32> = vec![0, 1, 2, 1, 2, 3];
    let encoded = encode_index_buffer(&indices, 4).unwrap();
    let decoded = decode_index_buffer(&encoded, indices.len()).unwrap();
    assert_eq!(decoded, indices);
}

#[test]
fn round_trip_empty() {
    let indices: Vec<u32> = vec![];
    let encoded = encode_index_buffer(&indices, 0).unwrap();
    let decoded = decode_index_buffer(&encoded, 0).unwrap();
    assert_eq!(decoded, indices);
}

#[test]
fn round_trip_full_edge_match() {
    // The second triangle crosses the first one's edge in reverse and keeps
    // the same opposite vertex, so the encoder can predict it whole.
    let indices: Vec<u32> = vec![0, 1, 2, 1, 0, 2];
    let encoded = encode_index_buffer(&indices, 3).unwrap();
    let decoded = decode_index_buffer(&encoded, indices.len()).unwrap();
    assert_eq!(decoded, indices);
}

#[test]
fn round_trip_strip() {
    // A triangle strip: consecutive triangles share an edge.
    let mut indices: Vec<u32> = Vec::new();
    for i in 0..30u32 {
        if i % 2 == 0 {
            indices.extend_from_slice(&[i, i + 1, i + 2]);
        } else {
            indices.extend_from_slice(&[i + 1, i, i + 2]);
        }
    }
    let encoded = encode_index_buffer(&indices, 32).unwrap();
    let decoded = decode_index_buffer(&encoded, indices.len()).unwrap();
    assert_eq!(decoded, indices);
}

#[test]
fn round_trip_scattered_indices() {
    // Large, non-local values force literal delta codes.
    let indices: Vec<u32> = vec![
        1_000_000, 5, 700_000, 42, 999_999_999, 0, 3, 3, 3, 12, 11, 10,
    ];
    let encoded = encode_index_buffer(&indices, 1_000_000_000).unwrap();
    let decoded = decode_index_buffer(&encoded, indices.len()).unwrap();
    assert_eq!(decoded, indices);
}

#[test]
fn encoded_size_within_bound() {
    let mut indices: Vec<u32> = Vec::new();
    for i in 0..60u32 {
        indices.push(i % 7);
    }
    let encoded = encode_index_buffer(&indices, 7).unwrap();
    let bound = encode_index_buffer_bound(indices.len(), 7);
    assert!(encoded.len() <= bound);
}

#[test]
fn compresses_a_strip() {
    // A cache-friendly strip costs less than the raw 4 bytes per index.
    let mut indices: Vec<u32> = Vec::new();
    for i in 0..100u32 {
        indices.extend_from_slice(&[i, i + 1, i + 2]);
    }
    let encoded = encode_index_buffer(&indices, 102).unwrap();
    assert!(encoded.len() < indices.len() * 4);
    let decoded = decode_index_buffer(&encoded, indices.len()).unwrap();
    assert_eq!(decoded, indices);
}

#[test]
fn decode_empty_input_is_header_error() {
    let r = decode_index_buffer(&[], 3);
    assert_eq!(r, Err(CodecError::InvalidHeader));
}

#[test]
fn decode_unknown_version_is_header_error() {
    let r = decode_index_buffer(&[0x7f, 0, 0, 0], 3);
    assert_eq!(r, Err(CodecError::InvalidHeader));
}

#[test]
fn decode_bad_count_is_count_error() {
    let r = decode_index_buffer(&[1, 0, 0, 0], 4);
    assert_eq!(r, Err(CodecError::InvalidCount));
}

#[test]
fn decode_count_error_comes_before_header_error() {
    // An empty buffer with a bad count reports the count problem.
    let r = decode_index_buffer(&[], 4);
    assert_eq!(r, Err(CodecError::InvalidCount));
}

#[test]
fn decode_garbage_is_total() {
    // Arbitrary bytes after a valid version tag still decode to exactly
    // index_count indices; the values are unspecified garbage.
    let garbage = [1u8, 0xff, 0xee, 0x21, 0x99, 0x00, 0x10, 0xfe];
    let decoded = decode_index_buffer(&garbage, 9).unwrap();
    assert_eq!(decoded.len(), 9);
}

#[test]
fn decode_truncated_is_total() {
    let indices: Vec<u32> = vec![10, 20, 30, 20, 30, 40, 30, 40, 50];
    let encoded = encode_index_buffer(&indices, 51).unwrap();
    let cut = &encoded[..encoded.len() / 2];
    let decoded = decode_index_buffer(cut, indices.len()).unwrap();
    assert_eq!(decoded.len(), indices.len());
}
