use unitrie_rs::hash::{empty_trie_hash, keccak256};

#[test]
fn empty_hash_is_stable() {
    let hash = empty_trie_hash();
    assert_eq!(hash.len(), 32);
}

#[test]
fn keccak_is_stable_for_input() {
    let first = keccak256(b"rsk");
    let second = keccak256(b"rsk");
    assert_eq!(first, second);
}

#[test]
fn keccak_matches_known_digests() {
    let empty = keccak256(b"");
    assert_eq!(
        empty.to_vec(),
        vec![
            0xc5, 0xd2, 0x46, 0x01, 0x86, 0xf7, 0x23, 0x3c, 0x92, 0x7e, 0x7d, 0xb2, 0xdc, 0xc7,
            0x03, 0xc0, 0xe5, 0x00, 0xb6, 0x53, 0xca, 0x82, 0x27, 0x3b, 0x7b, 0xfa, 0xd8, 0x04,
            0x5d, 0x85, 0xa4, 0x70,
        ]
    );
    let empty_trie = empty_trie_hash();
    assert_eq!(
        empty_trie.to_vec(),
        vec![
            0x56, 0xe8, 0x1f, 0x17, 0x1b, 0xcc, 0x55, 0xa6, 0xff, 0x83, 0x45, 0xe6, 0x92, 0xc0,
            0xf8, 0x6e, 0x5b, 0x48, 0xe0, 0x1b, 0x99, 0x6c, 0xad, 0xc0, 0x01, 0x62, 0x2f, 0xb5,
            0xe3, 0x63, 0xb4, 0x21,
        ]
    );
}
