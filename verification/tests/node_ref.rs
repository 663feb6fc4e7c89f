use unitrie_rs::node_ref::{NodeReference, SharedPath, TrieNode, ValueRef, HASH_SIZE};

#[test]
fn shared_path_rejects_invalid_bit_values() {
    assert!(SharedPath::from_bits(vec![0, 1, 2]).is_err());
}

#[test]
fn inline_value_hash_matches_expected_size() {
    let value = ValueRef::inline(vec![1, 2, 3]);
    assert_eq!(value.hash().map(|hash| hash.len()), Some(HASH_SIZE));
}

#[test]
fn trie_node_empty_detection_matches_java_semantics() {
    let node = TrieNode::new(
        SharedPath::empty(),
        ValueRef::empty(),
        NodeReference::empty(),
        NodeReference::empty(),
    );
    assert!(node.is_empty_trie());
}
