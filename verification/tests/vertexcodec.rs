use meshcodec::vertexcodec::decode_vertex_buffer;
use meshcodec::vertexcodec::encode_vertex_buffer;
use meshcodec::vertexcodec::encode_vertex_buffer_bound;
use meshcodec::CodecError;

#[test]
fn round_trip_small_stream() {
    // Three records of four bytes each.
    let records: Vec<u8> = vec![1, 2, 3, 4, 1, 2, 3, 5, 2, 2, 3, 6];
    let encoded = encode_vertex_buffer(&records, 4).unwrap();
    let decoded = decode_vertex_buffer(&encoded, 3, 4).unwrap();
    assert_eq!(decoded, records);
}

#[test]
fn round_trip_empty_stream() {
    let records: Vec<u8> = vec![];
    let encoded = encode_vertex_buffer(&records, 8).unwrap();
    let decoded = decode_vertex_buffer(&encoded, 0, 8).unwrap();
    assert_eq!(decoded, records);
}

#[test]
fn round_trip_width_one() {
    let records: Vec<u8> = vec![9, 9, 9, 10, 250, 0, 1, 2];
    let encoded = encode_vertex_buffer(&records, 1).unwrap();
    let decoded = decode_vertex_buffer(&encoded, records.len(), 1).unwrap();
    assert_eq!(decoded, records);
}

#[test]
fn round_trip_multiple_blocks() {
    // 40 records of 3 bytes: two full blocks and a partial one.
    let mut records: Vec<u8> = Vec::new();
    for i in 0..40u32 {
        records.push((i * 3) as u8);
        records.push(200);
        records.push((255 - i) as u8);
    }
    let encoded = encode_vertex_buffer(&records, 3).unwrap();
    let decoded = decode_vertex_buffer(&encoded, 40, 3).unwrap();
    assert_eq!(decoded, records);
}

#[test]
fn round_trip_every_ladder_rung() {
    // Channel 0 never changes, channel 1 moves by tiny steps, channel 2 by
    // middling steps, channel 3 by large jumps: all four bit widths at once.
    let mut records: Vec<u8> = Vec::new();
    for i in 0..16u32 {
        records.push(7);
        records.push((i * 3 % 4) as u8);
        records.push((i * 5 % 16) as u8);
        records.push((i * 97 % 256) as u8);
    }
    let encoded = encode_vertex_buffer(&records, 4).unwrap();
    let decoded = decode_vertex_buffer(&encoded, 16, 4).unwrap();
    assert_eq!(decoded, records);
}

#[test]
fn constant_stream_stays_tiny() {
    // 64 all-zero 16-byte records: every channel picks the zero-width rung,
    // so each block costs one selector byte per channel.
    let records: Vec<u8> = vec![0; 64 * 16];
    let encoded = encode_vertex_buffer(&records, 16).unwrap();
    assert!(encoded.len() <= 2 + 4 * 16);
    let decoded = decode_vertex_buffer(&encoded, 64, 16).unwrap();
    assert_eq!(decoded, records);
}

#[test]
fn encoded_vertex_size_within_bound() {
    let mut records: Vec<u8> = Vec::new();
    for i in 0..33u32 {
        records.push((i * 89 % 256) as u8);
        records.push((i * 13 % 256) as u8);
    }
    let encoded = encode_vertex_buffer(&records, 2).unwrap();
    let bound = encode_vertex_buffer_bound(33, 2);
    assert!(encoded.len() <= bound);
}

#[test]
fn decode_vertex_empty_input_is_header_error() {
    let r = decode_vertex_buffer(&[], 1, 4);
    assert_eq!(r, Err(CodecError::InvalidHeader));
}

#[test]
fn decode_vertex_unknown_version_is_header_error() {
    let r = decode_vertex_buffer(&[9, 3, 0, 0], 1, 4);
    assert_eq!(r, Err(CodecError::InvalidHeader));
}

#[test]
fn decode_width_mismatch_is_header_error() {
    // Encoded with width 4, decoded with width 8.
    let records: Vec<u8> = vec![1, 2, 3, 4];
    let encoded = encode_vertex_buffer(&records, 4).unwrap();
    let r = decode_vertex_buffer(&encoded, 1, 8);
    assert_eq!(r, Err(CodecError::InvalidHeader));
}

#[test]
fn decode_vertex_garbage_is_total() {
    // Width byte stores the width minus one.
    let garbage = [1u8, 3, 0xde, 0xad, 0xbe, 0xef];
    let decoded = decode_vertex_buffer(&garbage, 10, 4).unwrap();
    assert_eq!(decoded.len(), 40);
}

#[test]
fn decode_vertex_truncated_is_total() {
    let mut records: Vec<u8> = Vec::new();
    for i in 0..20u32 {
        records.push((i * 37 % 256) as u8);
        records.push((i * 101 % 256) as u8);
    }
    let encoded = encode_vertex_buffer(&records, 2).unwrap();
    let cut = &encoded[..encoded.len() / 3];
    let decoded = decode_vertex_buffer(cut, 20, 2).unwrap();
    assert_eq!(decoded.len(), 40);
}
