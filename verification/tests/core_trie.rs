use std::collections::HashMap;
use unitrie_rs::core_trie::Unitrie;
use unitrie_rs::hash::empty_trie_hash;
use unitrie_rs::store_adapter::RawStoreAdapter;

#[derive(Default)]
struct InMemoryStore {
    nodes: HashMap<Vec<u8>, Vec<u8>>,
    values: HashMap<Vec<u8>, Vec<u8>>,
}

impl RawStoreAdapter for InMemoryStore {
    fn load_raw_node(&mut self, hash: &[u8]) -> Option<Vec<u8>> {
        self.nodes.get(hash).cloned()
    }

    fn load_raw_value(&mut self, hash: &[u8]) -> Option<Vec<u8>> {
        self.values.get(hash).cloned()
    }

    fn save_raw_node(&mut self, hash: &[u8], serialized_node: &[u8]) {
        self.nodes.insert(hash.to_vec(), serialized_node.to_vec());
    }

    fn save_raw_value(&mut self, hash: &[u8], value: &[u8]) {
        self.values.insert(hash.to_vec(), value.to_vec());
    }
}

#[test]
fn get_put_delete_round_trip() {
    let mut trie = Unitrie::new();
    trie.put(b"hello".to_vec(), b"world".to_vec());
    assert_eq!(trie.get(b"hello").as_deref(), Some(b"world".as_slice()));

    trie.delete(b"hello");
    assert!(trie.get(b"hello").is_none());
}

#[test]
fn delete_recursive_removes_prefixed_keys_only() {
    let mut trie = Unitrie::new();
    trie.put(b"acct:1:aa".to_vec(), b"v1".to_vec());
    trie.put(b"acct:1:bb".to_vec(), b"v2".to_vec());
    trie.put(b"acct:2:aa".to_vec(), b"v3".to_vec());

    trie.delete_recursive(b"acct:1:");

    assert!(trie.get(b"acct:1:aa").is_none());
    assert!(trie.get(b"acct:1:bb").is_none());
    assert_eq!(trie.get(b"acct:2:aa").as_deref(), Some(b"v3".as_slice()));
}

#[test]
fn delete_recursive_handles_boundary_prefixes() {
    let mut trie = Unitrie::new();
    trie.put(vec![0xff, 0x10], vec![0x01]);
    trie.put(vec![0xff, 0x20], vec![0x02]);
    trie.put(vec![0xfe, 0x01], vec![0x03]);

    trie.delete_recursive(&[0xff]);

    assert!(trie.get(&[0xff, 0x10]).is_none());
    assert!(trie.get(&[0xff, 0x20]).is_none());
    assert_eq!(trie.get(&[0xfe, 0x01]).as_deref(), Some([0x03].as_slice()));
}

#[test]
fn delete_recursive_range_matches_naive_behavior() {
    let keys = vec![
        vec![],
        vec![0x00],
        vec![0x00, 0x01],
        vec![0x00, 0xff],
        vec![0x01],
        vec![0x01, 0x00],
        vec![0x01, 0x80],
        vec![0x10, 0x20, 0x30],
        vec![0xff],
        vec![0xff, 0x00],
        vec![0xff, 0xff],
    ];

    let prefixes = vec![
        vec![],
        vec![0x00],
        vec![0x00, 0x01],
        vec![0x01],
        vec![0x01, 0x80],
        vec![0x02],
        vec![0xff],
        vec![0xff, 0xff],
        vec![0xff, 0xff, 0xff],
    ];

    for prefix in prefixes {
        let mut trie = Unitrie::new();
        let mut naive = HashMap::<Vec<u8>, Vec<u8>>::new();

        for key in &keys {
            let value = vec![key.len() as u8];
            trie.put(key.clone(), value.clone());
            naive.insert(key.clone(), value);
        }

        trie.delete_recursive(&prefix);
        naive.retain(|key, _| !key.starts_with(&prefix));

        let mut actual = HashMap::<Vec<u8>, Vec<u8>>::new();
        for key in &keys {
            if let Some(value) = trie.get(key) {
                actual.insert(key.clone(), value);
            }
        }

        assert_eq!(actual, naive, "mismatch for prefix {:?}", prefix);
    }
}

#[test]
fn empty_root_hash_matches_expected_semantics() {
    let mut trie = Unitrie::new();
    assert_eq!(trie.root_hash(), empty_trie_hash());
}

#[test]
fn root_hash_is_stable_for_same_content() {
    let mut first = Unitrie::new();
    first.put(b"k1".to_vec(), b"v1".to_vec());
    first.put(b"k2".to_vec(), b"v2".to_vec());

    let mut second = Unitrie::new();
    second.put(b"k2".to_vec(), b"v2".to_vec());
    second.put(b"k1".to_vec(), b"v1".to_vec());

    assert_eq!(first.root_hash(), second.root_hash());
}

#[test]
fn collect_keys_matches_java_contract_by_key_length() {
    let mut trie = Unitrie::new();
    trie.put(vec![0x01], vec![0xaa]);
    trie.put(vec![0x02], vec![0xbb]);
    trie.put(vec![0x03, 0x04], vec![0xcc]);

    let single_byte_keys = trie.collect_keys(1);
    assert_eq!(single_byte_keys.len(), 2);
    let all_keys = trie.collect_keys(i32::MAX as usize);
    assert_eq!(all_keys.len(), 3);
}

#[test]
fn save_and_load_from_persisted_root_round_trip() {
    let mut trie = Unitrie::new();
    trie.put(vec![0xaa], vec![0x01, 0x02, 0x03]);
    trie.put(vec![0xab], vec![0x09; 40]);

    let root_hash = trie.root_hash();
    let mut store = InMemoryStore::default();
    trie.save_to_store(&mut store);

    let mut loaded = Unitrie::from_persisted_root(&root_hash, &mut store).unwrap();
    assert_eq!(
        loaded.get(&[0xaa]).as_deref(),
        Some([0x01, 0x02, 0x03].as_ref())
    );
    assert_eq!(
        loaded.get(&[0xab]).as_deref(),
        Some(vec![0x09; 40].as_slice())
    );
    assert_eq!(loaded.root_hash(), root_hash);
}
