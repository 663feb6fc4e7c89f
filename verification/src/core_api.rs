//! The public faces of the engine: the store reader/writer split and the
//! engine operations themselves.

use vstd::prelude::*;

use crate::core_trie::{collect_keys_model, root_hash_model, storage_keys_model, vecs_view};
use crate::entries::{map_of, prefix_removed};
use crate::hash::keccak256_spec;
use crate::node_ref::HASH_SIZE;
use crate::store_adapter::RawStoreAdapter;

verus! {

pub type TrieRoot = [u8; HASH_SIZE];

/// A trie's root digest and its entry count, taken together.
#[derive(Debug, Clone, Eq, PartialEq)]
pub struct TrieSnapshot {
    pub root: TrieRoot,
    pub key_count: usize,
}

/// Read-only access to the store's two namespaces.
pub trait TrieStoreReader {
    fn load_raw_node(&mut self, hash: &[u8]) -> Option<Vec<u8>>;

    fn load_raw_value(&mut self, hash: &[u8]) -> Option<Vec<u8>>;
}

/// Write access to the store's two namespaces.
pub trait TrieStoreWriter {
    fn save_raw_node(&mut self, hash: &[u8], serialized_node: &[u8]);

    fn save_raw_value(&mut self, hash: &[u8], value: &[u8]);
}

impl<T: RawStoreAdapter> TrieStoreReader for T {
    fn load_raw_node(&mut self, hash: &[u8]) -> Option<Vec<u8>> {
        RawStoreAdapter::load_raw_node(self, hash)
    }

    fn load_raw_value(&mut self, hash: &[u8]) -> Option<Vec<u8>> {
        RawStoreAdapter::load_raw_value(self, hash)
    }
}

impl<T: RawStoreAdapter> TrieStoreWriter for T {
    fn save_raw_node(&mut self, hash: &[u8], serialized_node: &[u8]) {
        RawStoreAdapter::save_raw_node(self, hash, serialized_node);
    }

    fn save_raw_value(&mut self, hash: &[u8], value: &[u8]) {
        RawStoreAdapter::save_raw_value(self, hash, value);
    }
}

/// The engine operations, specified against the implementor's ordered
/// entries sequence.
pub trait TrieEngine: Sized {
    spec fn inv(&self) -> bool;

    spec fn entries_seq(&self) -> Seq<(Seq<u8>, Seq<u8>)>;

    spec fn values_fit(&self) -> bool;

    fn get(&self, key: &[u8]) -> (r: Option<Vec<u8>>)
        requires
            self.inv(),
        ensures
            r matches Some(v) ==> map_of(self.entries_seq()).contains_key(key@) && v@ == map_of(
                self.entries_seq(),
            )[key@],
            r is None <==> !map_of(self.entries_seq()).contains_key(key@),
    ;

    fn put(&mut self, key: Vec<u8>, value: Vec<u8>)
        requires
            old(self).inv(),
        ensures
            final(self).inv(),
            map_of(final(self).entries_seq()) == (if value@.len() == 0 {
                map_of(old(self).entries_seq()).remove(key@)
            } else {
                map_of(old(self).entries_seq()).insert(key@, value@)
            }),
    ;

    fn delete(&mut self, key: &[u8])
        requires
            old(self).inv(),
        ensures
            final(self).inv(),
            map_of(final(self).entries_seq()) == map_of(old(self).entries_seq()).remove(key@),
    ;

    fn delete_recursive(&mut self, prefix: &[u8])
        requires
            old(self).inv(),
        ensures
            final(self).inv(),
            map_of(final(self).entries_seq()) == prefix_removed(
                map_of(old(self).entries_seq()),
                prefix@,
            ),
    ;

    fn get_value_length(&self, key: &[u8]) -> (r: Option<usize>)
        requires
            self.inv(),
        ensures
            r matches Some(l) ==> map_of(self.entries_seq()).contains_key(key@) && l == map_of(
                self.entries_seq(),
            )[key@].len(),
            r is None <==> !map_of(self.entries_seq()).contains_key(key@),
    ;

    fn get_value_hash(&self, key: &[u8]) -> (r: Option<[u8; HASH_SIZE]>)
        requires
            self.inv(),
        ensures
            r matches Some(h) ==> map_of(self.entries_seq()).contains_key(key@) && h
                == keccak256_spec(map_of(self.entries_seq())[key@]),
            r is None <==> !map_of(self.entries_seq()).contains_key(key@),
    ;

    fn collect_keys(&self, byte_size: usize) -> (r: Vec<Vec<u8>>)
        requires
            self.inv(),
        ensures
            vecs_view(r@) == collect_keys_model(self.entries_seq(), byte_size as nat),
    ;

    fn get_storage_keys(&mut self, account_address: &[u8]) -> (r: Vec<Vec<u8>>)
        requires
            old(self).inv(),
        ensures
            final(self).inv(),
            final(self).entries_seq() == old(self).entries_seq(),
            vecs_view(r@) == storage_keys_model(old(self).entries_seq(), account_address@),
    ;

    fn current_root_hash(&mut self) -> (r: TrieRoot)
        requires
            old(self).inv(),
            old(self).values_fit(),
        ensures
            final(self).inv(),
            final(self).entries_seq() == old(self).entries_seq(),
            r@ == root_hash_model(old(self).entries_seq()),
    ;

    fn snapshot(&mut self) -> (r: TrieSnapshot)
        requires
            old(self).inv(),
            old(self).values_fit(),
        ensures
            final(self).inv(),
            final(self).entries_seq() == old(self).entries_seq(),
            r.root@ == root_hash_model(old(self).entries_seq()),
            r.key_count == old(self).entries_seq().len(),
    ;
}

} // verus!
