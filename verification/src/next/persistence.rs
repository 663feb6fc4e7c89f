//! Save gating: an unchanged, fully saved trie is not rewritten.

use vstd::prelude::*;

use crate::core_trie::{root_hash_model, save_spec, store_model, SaveStats, Unitrie};
use crate::entries::bytes_eq;
use crate::node_ref::HASH_SIZE;
use crate::store_adapter::RawStoreAdapter;

verus! {

pub struct IncrementalPersistence {
    last_saved_root: Option<[u8; HASH_SIZE]>,
}

impl IncrementalPersistence {
    /// The root digest recorded by the last save, if any.
    pub closed spec fn last_root(&self) -> Option<Seq<u8>> {
        match self.last_saved_root {
            Some(h) => Some(h@),
            None => None,
        }
    }

    pub fn new() -> (r: Self)
        ensures
            r.last_root() is None,
    {
        IncrementalPersistence { last_saved_root: None }
    }

    /// Saves unless nothing is dirty and the root matches the last save.
    pub fn save<T: RawStoreAdapter>(
        &mut self,
        trie: &mut Unitrie,
        store: &mut T,
        dirty_nodes: usize,
    ) -> (r: SaveStats)
        requires
            old(trie).wf(),
            old(trie).encodable(),
        ensures
            final(trie).wf(),
            final(trie).kvs() == old(trie).kvs(),
            (dirty_nodes == 0 && old(self).last_root() == Some(
                root_hash_model(old(trie).kvs()),
            )) ==> (store_model(final(store)) == store_model(old(store))
                && r == crate::core_trie::zero_stats()
                && final(self).last_root() == old(self).last_root()
                && final(trie).persisted_nodes() == old(trie).persisted_nodes()
                && final(trie).persisted_values() == old(trie).persisted_values()),
            !(dirty_nodes == 0 && old(self).last_root() == Some(
                root_hash_model(old(trie).kvs()),
            )) ==> ({
                let o = save_spec(
                    old(trie).kvs(),
                    store_model(old(store)),
                    old(trie).persisted_nodes(),
                    old(trie).persisted_values(),
                );
                store_model(final(store)) == o.0 && final(trie).persisted_nodes() == o.1
                    && final(trie).persisted_values() == o.2 && r == o.3
                    && final(self).last_root() == Some(root_hash_model(old(trie).kvs()))
            }),
    {
        let current_root = trie.current_root_hash();
        if dirty_nodes == 0 {
            let same = match &self.last_saved_root {
                Some(h) => bytes_eq(h.as_slice(), current_root.as_slice()),
                None => false,
            };
            if same {
                return SaveStats::new_empty();
            }
        }

        let save_stats = trie.save_to_store_with_stats(store);
        self.last_saved_root = Some(trie.current_root_hash());
        save_stats
    }
}

} // verus!
