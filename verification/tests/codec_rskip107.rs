use unitrie_rs::codec_rskip107::{ChildEncoding, Rskip107Codec, LONG_VALUE_FLAG, VERSION_FLAG};
use unitrie_rs::error::TrieError;
use unitrie_rs::node_ref::{NodeReference, SharedPath, TrieNode, ValueRef};

#[test]
fn decode_rejects_empty_payload() {
    assert!(Rskip107Codec::decode_node(&[]).is_err());
}

#[test]
fn encode_decode_round_trip_terminal_short_value() {
    let node = TrieNode::new(
        SharedPath::from_bits(vec![1, 0, 1]).unwrap(),
        ValueRef::inline(vec![1, 2, 3, 4]),
        NodeReference::empty(),
        NodeReference::empty(),
    );

    let encoded =
        Rskip107Codec::encode_node(&node, &ChildEncoding::Empty, &ChildEncoding::Empty, None)
            .unwrap();
    let decoded = Rskip107Codec::decode_node(&encoded).unwrap();
    assert_eq!(decoded, node);
}

#[test]
fn encode_sets_version_and_long_value_bits() {
    let node = TrieNode::new(
        SharedPath::empty(),
        ValueRef::inline(vec![7u8; 40]),
        NodeReference::empty(),
        NodeReference::empty(),
    );

    let encoded =
        Rskip107Codec::encode_node(&node, &ChildEncoding::Empty, &ChildEncoding::Empty, None)
            .unwrap();
    assert_eq!(encoded[0] & VERSION_FLAG, VERSION_FLAG);
    assert_eq!(encoded[0] & LONG_VALUE_FLAG, LONG_VALUE_FLAG);
}

#[test]
fn encode_requires_children_size_when_children_are_present() {
    let node = TrieNode::new(
        SharedPath::empty(),
        ValueRef::empty(),
        NodeReference::empty(),
        NodeReference::empty(),
    );

    let result = Rskip107Codec::encode_node(
        &node,
        &ChildEncoding::Hashed([3u8; 32]),
        &ChildEncoding::Empty,
        None,
    );
    assert!(result.is_err());
}

#[test]
fn decode_rejects_wrong_version_bits() {
    assert_eq!(
        Rskip107Codec::decode_node(&[0x80]),
        Err(TrieError::DecodeInvalidHeader)
    );
}

#[test]
fn decode_reports_trailing_bytes_after_long_value_tail() {
    let node = TrieNode::new(
        SharedPath::empty(),
        ValueRef::inline(vec![7u8; 40]),
        NodeReference::empty(),
        NodeReference::empty(),
    );
    let mut encoded =
        Rskip107Codec::encode_node(&node, &ChildEncoding::Empty, &ChildEncoding::Empty, None)
            .unwrap();
    encoded.push(0x00);
    assert_eq!(
        Rskip107Codec::decode_node(&encoded),
        Err(TrieError::DecodeTrailingData)
    );
}

#[test]
fn encode_rejects_oversized_embedded_child() {
    let node = TrieNode::new(
        SharedPath::empty(),
        ValueRef::empty(),
        NodeReference::empty(),
        NodeReference::empty(),
    );
    let result = Rskip107Codec::encode_node(
        &node,
        &ChildEncoding::Embedded(vec![0x41u8; 300]),
        &ChildEncoding::Empty,
        Some(300),
    );
    assert_eq!(result, Err(TrieError::EmbeddedTooLarge));
}

#[test]
fn encode_rejects_value_longer_than_three_length_bytes() {
    let node = TrieNode::new(
        SharedPath::empty(),
        ValueRef::inline(vec![0x01; 0x0100_0000]),
        NodeReference::empty(),
        NodeReference::empty(),
    );
    let result =
        Rskip107Codec::encode_node(&node, &ChildEncoding::Empty, &ChildEncoding::Empty, None);
    assert_eq!(result, Err(TrieError::ValueTooLarge));
}

#[test]
fn encode_rejects_long_value_of_unknown_length() {
    let node = TrieNode::new(
        SharedPath::empty(),
        ValueRef::hashed([0x07u8; 32], None),
        NodeReference::empty(),
        NodeReference::empty(),
    );
    let result =
        Rskip107Codec::encode_node(&node, &ChildEncoding::Empty, &ChildEncoding::Empty, None);
    assert_eq!(result, Err(TrieError::MissingValueLength));
}
