use unitrie_rs::storage_keys_packed::encode;
use unitrie_rs::varint::decode_from_slice;

#[test]
fn storage_keys_packed_round_trip() {
    let values = vec![vec![0x01], vec![0xaa, 0xbb], vec![0x10; 260]];
    let encoded = encode(&values);

    let mut offset = 0usize;
    let count = decode_from_slice(&encoded, &mut offset).expect("count varint");
    assert_eq!(count as usize, values.len());

    let mut decoded = Vec::new();
    for _ in 0..count {
        let len = decode_from_slice(&encoded, &mut offset).expect("len varint") as usize;
        let end = offset + len;
        decoded.push(encoded[offset..end].to_vec());
        offset = end;
    }

    assert_eq!(decoded, values);
    assert_eq!(offset, encoded.len());
}
