use unitrie_rs::varint::{decode_from_slice, encode, encode_into, size_of};

#[test]
fn size_matches_encoding_boundaries() {
    assert_eq!(size_of(252), 1);
    assert_eq!(size_of(253), 3);
    assert_eq!(size_of(65_535), 3);
    assert_eq!(size_of(65_536), 5);
}

#[test]
fn varint_round_trip() {
    let values = [0, 1, 252, 253, 65_535, 65_536, u32::MAX as u64 + 1];
    for value in values {
        let encoded = encode(value);
        let mut offset = 0usize;
        let decoded = decode_from_slice(&encoded, &mut offset).expect("varint should decode");
        assert_eq!(decoded, value);
        assert_eq!(offset, encoded.len());
    }
}

#[test]
fn encode_into_matches_encode() {
    let values = [0, 1, 252, 253, 65_535, 65_536, u32::MAX as u64 + 1];
    for value in values {
        let direct = encode(value);
        let mut reused = Vec::new();
        encode_into(value, &mut reused);
        assert_eq!(direct, reused);
    }
}

#[test]
fn decode_of_truncated_input_is_refused() {
    let mut offset = 0usize;
    assert!(decode_from_slice(&[0xfd, 0x01], &mut offset).is_err());
}
