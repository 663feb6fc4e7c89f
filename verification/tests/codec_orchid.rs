use unitrie_rs::codec_orchid::OrchidCodec;
use unitrie_rs::node_ref::{NodeReference, SharedPath, TrieNode, ValueRef};

#[test]
fn decode_rejects_wrong_arity() {
    let payload = [0x01, 0x00, 0x00, 0x00, 0x00, 0x00];
    assert!(OrchidCodec::decode_node(&payload).is_err());
}

#[test]
fn encode_decode_round_trip() {
    let node = TrieNode::new(
        SharedPath::from_bits(vec![1, 0, 1, 0]).unwrap(),
        ValueRef::inline(vec![1, 2, 3, 4]),
        NodeReference::empty(),
        NodeReference::empty(),
    );
    let encoded = OrchidCodec::encode_node(&node, None, None, false).unwrap();
    let decoded = OrchidCodec::decode_node(&encoded).unwrap();
    assert_eq!(decoded, node);
}

#[test]
fn long_value_flag_is_respected() {
    let node = TrieNode::new(
        SharedPath::empty(),
        ValueRef::inline(vec![9u8; 40]),
        NodeReference::empty(),
        NodeReference::empty(),
    );
    let encoded = OrchidCodec::encode_node(&node, None, None, true).unwrap();
    assert_eq!(encoded[0], 2);
    assert_eq!(encoded[1] & 0x02, 0x02);
    assert_eq!(encoded[1] & 0x01, 0x01);
}
