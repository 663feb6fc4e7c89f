use unitrie_rs::path::shared_path_serializer::{
    calculate_varint_size, decode, deserialize_from_slice, encode, read_path_bit_length,
    serialize_into, serialized_length,
};

#[test]
fn bit_pack_round_trip() {
    let path = vec![1, 0, 1, 1, 0, 0, 1, 0, 1];
    let encoded = encode(&path);
    let decoded = decode(&encoded, path.len());
    assert_eq!(decoded, path);
}

#[test]
fn serializes_compact_header_for_short_paths() {
    let path = vec![1; 8];
    let mut output = Vec::new();
    serialize_into(&path, &mut output);
    assert_eq!(output[0], 7);
}

#[test]
fn serializes_varint_header_for_mid_range_gap() {
    let path = vec![1; 120];
    let mut output = Vec::new();
    serialize_into(&path, &mut output);
    assert_eq!(output[0], 0xff);
    let mut offset = 0usize;
    assert_eq!(read_path_bit_length(&output, &mut offset).unwrap(), 120);
}

#[test]
fn serialized_length_matches_payload() {
    let path = vec![0, 1, 1, 0, 1, 0, 0, 1, 1, 1];
    let mut output = Vec::new();
    serialize_into(&path, &mut output);
    assert_eq!(serialized_length(&path), output.len());
}

#[test]
fn deserialize_returns_empty_when_not_present() {
    let mut offset = 0usize;
    let decoded = deserialize_from_slice(&[], &mut offset, false).unwrap();
    assert!(decoded.is_empty());
}

#[test]
fn calculates_varint_size_compatible_ranges() {
    assert_eq!(calculate_varint_size(1), 1);
    assert_eq!(calculate_varint_size(32), 1);
    assert_eq!(calculate_varint_size(160), 1);
    assert_eq!(calculate_varint_size(382), 1);
    assert!(calculate_varint_size(120) > 1);
}
