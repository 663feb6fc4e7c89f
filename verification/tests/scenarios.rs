//! End-to-end scenarios: persistence contents, long-value separation,
//! embedding, storage-key extraction, configuration parsing.

use std::collections::HashMap;
use unitrie_rs::core_trie::Unitrie;
use unitrie_rs::error::TrieError;
use unitrie_rs::hash::{empty_trie_hash, keccak256};
use unitrie_rs::store_adapter::{MemStore, RawStoreAdapter};
use unitrie_rs::{UnitrieCore, UnitrieImplementation};

#[derive(Default, Clone, PartialEq, Eq, Debug)]
struct InMemoryStore {
    nodes: HashMap<Vec<u8>, Vec<u8>>,
    values: HashMap<Vec<u8>, Vec<u8>>,
}

impl RawStoreAdapter for InMemoryStore {
    fn load_raw_node(&mut self, hash: &[u8]) -> Option<Vec<u8>> {
        self.nodes.get(hash).cloned()
    }

    fn load_raw_value(&mut self, hash: &[u8]) -> Option<Vec<u8>> {
        self.values.get(hash).cloned()
    }

    fn save_raw_node(&mut self, hash: &[u8], serialized_node: &[u8]) {
        self.nodes.insert(hash.to_vec(), serialized_node.to_vec());
    }

    fn save_raw_value(&mut self, hash: &[u8], value: &[u8]) {
        self.values.insert(hash.to_vec(), value.to_vec());
    }
}

#[test]
fn fresh_trie_root_is_hash_of_single_byte_0x80() {
    let mut trie = Unitrie::new();
    assert_eq!(trie.root_hash(), keccak256(&[0x80]));
}

#[test]
fn put_get_delete_scenario_restores_empty_root() {
    let mut trie = Unitrie::new();
    trie.put(b"hello".to_vec(), b"world".to_vec());
    assert_eq!(trie.get(b"hello").as_deref(), Some(b"world".as_slice()));
    trie.delete(b"hello");
    assert!(trie.get(b"hello").is_none());
    assert_eq!(trie.root_hash(), empty_trie_hash());
}

#[test]
fn empty_value_put_acts_as_delete() {
    let mut trie = Unitrie::new();
    trie.put(b"k".to_vec(), b"v".to_vec());
    trie.put(b"k".to_vec(), Vec::new());
    assert!(trie.get(b"k").is_none());
}

#[test]
fn deleting_absent_key_keeps_root_hash() {
    let mut trie = Unitrie::new();
    trie.put(b"k".to_vec(), b"v".to_vec());
    let before = trie.root_hash();
    trie.delete(b"absent");
    assert_eq!(trie.root_hash(), before);
}

#[test]
fn get_value_length_and_hash_follow_put() {
    let mut trie = Unitrie::new();
    trie.put(b"k".to_vec(), b"value".to_vec());
    assert_eq!(trie.get_value_length(b"k"), Some(5));
    assert_eq!(trie.get_value_hash(b"k"), Some(keccak256(b"value")));
    assert_eq!(trie.get_value_length(b"absent"), None);
    assert_eq!(trie.get_value_hash(b"absent"), None);
}

#[test]
fn saves_in_either_insertion_order_write_identical_stores() {
    let mut first = Unitrie::new();
    first.put(b"k1".to_vec(), b"v1".to_vec());
    first.put(b"k2".to_vec(), b"v2".to_vec());

    let mut second = Unitrie::new();
    second.put(b"k2".to_vec(), b"v2".to_vec());
    second.put(b"k1".to_vec(), b"v1".to_vec());

    assert_eq!(first.root_hash(), second.root_hash());

    let mut store_a = InMemoryStore::default();
    let mut store_b = InMemoryStore::default();
    first.save_to_store(&mut store_a);
    second.save_to_store(&mut store_b);
    assert_eq!(store_a, store_b);
}

#[test]
fn long_value_is_separated_with_hash_and_length() {
    let value = vec![0x42u8; 33];
    let value_hash = keccak256(&value);

    let mut trie = Unitrie::new();
    trie.put(b"k".to_vec(), value.clone());
    let root = trie.root_hash();

    let mut store = InMemoryStore::default();
    trie.save_to_store(&mut store);

    assert_eq!(store.values.get(value_hash.as_slice()), Some(&value));

    let root_blob = store.nodes.get(root.as_slice()).expect("root node blob");
    assert!(!contains_subslice(root_blob, &value));
    assert!(contains_subslice(root_blob, value_hash.as_slice()));
    assert!(contains_subslice(root_blob, &[0x00, 0x00, 0x21]));
}

#[test]
fn value_of_32_bytes_stays_inline_in_the_node_blob() {
    let value = vec![0x42u8; 32];
    let mut trie = Unitrie::new();
    trie.put(b"k".to_vec(), value.clone());
    let root = trie.root_hash();

    let mut store = InMemoryStore::default();
    trie.save_to_store(&mut store);

    assert!(store.values.is_empty());
    let root_blob = store.nodes.get(root.as_slice()).expect("root node blob");
    assert!(contains_subslice(root_blob, &value));
}

#[test]
fn small_terminals_are_embedded_and_large_ones_are_hashed() {
    // Two short values: both terminals fit the 44-byte embedding bound, so
    // only the root blob is stored.
    let mut small = Unitrie::new();
    small.put(vec![0x00], vec![0x01]);
    small.put(vec![0x80], vec![0x02]);
    let mut small_store = InMemoryStore::default();
    small.save_to_store(&mut small_store);
    assert_eq!(small_store.nodes.len(), 1);

    // Two 16-byte keys with 32-byte values: each terminal carries a long
    // shared path and a 32-byte inline value, so its serialized form
    // exceeds 44 bytes and both children are stored under their own
    // hashes beside the root.
    let mut large = Unitrie::new();
    let mut key_a = vec![0x00u8; 16];
    let mut key_b = vec![0x00u8; 16];
    key_a[0] = 0x00;
    key_b[0] = 0x80;
    large.put(key_a, vec![0x03; 32]);
    large.put(key_b, vec![0x04; 32]);
    let mut large_store = InMemoryStore::default();
    large.save_to_store(&mut large_store);
    assert_eq!(large_store.nodes.len(), 3);
}

#[test]
fn save_reload_round_trip_preserves_entries_and_root() {
    let mut trie = Unitrie::new();
    trie.put(b"alpha".to_vec(), b"1".to_vec());
    trie.put(b"beta".to_vec(), vec![0x07; 100]);
    trie.delete(b"alpha");
    trie.put(b"gamma".to_vec(), b"3".to_vec());

    let root = trie.root_hash();
    let mut store = MemStore::new();
    trie.save_to_store(&mut store);

    let mut reloaded = Unitrie::from_persisted_root(&root, &mut store).unwrap();
    assert!(reloaded.get(b"alpha").is_none());
    assert_eq!(reloaded.get(b"beta").as_deref(), Some(vec![0x07; 100].as_slice()));
    assert_eq!(reloaded.get(b"gamma").as_deref(), Some(b"3".as_slice()));
    assert_eq!(reloaded.root_hash(), root);
}

#[test]
fn second_save_of_unchanged_trie_only_rewrites_the_root() {
    let mut trie = Unitrie::new();
    trie.put(b"k1".to_vec(), b"v1".to_vec());
    trie.put(b"k2".to_vec(), vec![0x05; 64]);

    let mut store = InMemoryStore::default();
    let first = trie.save_to_store_with_stats(&mut store);
    let snapshot = store.clone();
    let second = trie.save_to_store_with_stats(&mut store);

    assert_eq!(store, snapshot);
    assert_eq!(second.nodes_written, 1);
    assert_eq!(second.values_written, 0);
    assert_eq!(second.nodes_visited, first.nodes_visited);
}

#[test]
fn storage_keys_are_decoded_under_the_account_prefix() {
    let account = [0x11u8; 20];
    let storage_key = vec![0x01, 0x02, 0x03];

    let mut full_key = Vec::new();
    full_key.push(0x00);
    full_key.extend_from_slice(&keccak256(&account)[..10]);
    full_key.extend_from_slice(&account);
    full_key.push(0x00);
    full_key.extend_from_slice(&keccak256(&storage_key)[..10]);
    full_key.extend_from_slice(&storage_key);

    let mut trie = Unitrie::new();
    trie.put(full_key, b"cell".to_vec());
    trie.put(b"unrelated".to_vec(), b"x".to_vec());

    assert_eq!(trie.get_storage_keys(&account), vec![storage_key]);
    assert_eq!(trie.get_storage_keys(&[0x22u8; 20]), Vec::<Vec<u8>>::new());
}

#[test]
fn rehydrating_from_a_missing_root_fails() {
    let mut store = InMemoryStore::default();
    let absent = [0x5au8; 32];
    assert_eq!(
        Unitrie::from_persisted_root(&absent, &mut store).err(),
        Some(TrieError::MissingStoreEntry)
    );
    assert_eq!(
        Unitrie::from_persisted_root(&[0x01, 0x02], &mut store).err(),
        Some(TrieError::InvalidRootLength)
    );
}

#[test]
fn from_config_trims_and_lowers() {
    assert_eq!(
        UnitrieImplementation::from_config("  Legacy-V1 "),
        Ok(UnitrieImplementation::LegacyV1)
    );
    assert_eq!(
        UnitrieImplementation::from_config("NEXT"),
        Ok(UnitrieImplementation::Next)
    );
    assert_eq!(
        UnitrieImplementation::from_config("other"),
        Err(TrieError::UnknownImplementation)
    );
    assert_eq!(
        UnitrieImplementation::LegacyV1.as_config_name(),
        "legacy-v1"
    );
    assert_eq!(UnitrieImplementation::Next.as_config_name(), "next");
}

#[test]
fn collect_keys_returns_ascending_keys() {
    let mut trie = Unitrie::new();
    trie.put(vec![0x03], vec![0x01]);
    trie.put(vec![0x01], vec![0x02]);
    trie.put(vec![0x02, 0x00], vec![0x03]);

    assert_eq!(
        trie.collect_keys(i32::MAX as usize),
        vec![vec![0x01], vec![0x02, 0x00], vec![0x03]]
    );
    assert_eq!(trie.collect_keys(2), vec![vec![0x02, 0x00]]);
    assert_eq!(trie.collect_keys(7), Vec::<Vec<u8>>::new());
}

#[test]
fn next_engine_skips_resaving_an_unchanged_trie() {
    let mut trie = UnitrieCore::new(UnitrieImplementation::Next);
    trie.put(b"k".to_vec(), b"v".to_vec());
    let mut store = InMemoryStore::default();
    let first = trie.save_to_store_with_stats(&mut store);
    assert!(first.nodes_written >= 1);
    let snapshot = store.clone();
    let second = trie.save_to_store_with_stats(&mut store);
    assert_eq!(store, snapshot);
    assert_eq!(second.nodes_visited, 0);
    assert_eq!(second.nodes_written, 0);
    assert_eq!(second.values_written, 0);
}

fn contains_subslice(haystack: &[u8], needle: &[u8]) -> bool {
    if needle.is_empty() || haystack.len() < needle.len() {
        return false;
    }
    (0..=haystack.len() - needle.len()).any(|i| &haystack[i..i + needle.len()] == needle)
}
