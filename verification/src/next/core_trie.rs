//! The next engine: the core trie plus advisory accelerators — a memoized
//! root hash, a dirty-key tracker gating saves, and a per-account cache of
//! storage-key listings. Every accelerator falls back to the authoritative
//! entries map, so observable outputs match the core engine's.

use vstd::prelude::*;

use crate::core_api::{TrieEngine, TrieSnapshot};
use crate::core_trie::{
    collect_keys_model, encodable_map, lemma_encodable_map_of, rehydrate_spec, root_hash_model,
    save_spec, storage_keys_model, store_model, vecs_view, zero_stats, SaveStats, Unitrie,
};
use crate::entries::{map_of, prefix_removed};
use crate::error::TrieError;
use crate::hash::keccak256_spec;
use crate::next::hashing::IncrementalHashState;
use crate::next::iter::{collect_exact_size_keys, lemma_size_filter_commute};
use crate::next::mutation::MutationGeneration;
use crate::next::node_arena::NodeArena;
use crate::next::persistence::IncrementalPersistence;
use crate::next::storage_iteration_cache::{StorageIterationCache, DEFAULT_CAPACITY};
use crate::node_ref::HASH_SIZE;
use crate::store_adapter::RawStoreAdapter;

verus! {

pub struct NextUnitrie {
    inner: Unitrie,
    node_arena: NodeArena,
    hash_state: IncrementalHashState,
    persistence: IncrementalPersistence,
    storage_iteration_cache: StorageIterationCache,
    mutation_generation: MutationGeneration,
    last_save_stats: SaveStats,
}

impl NextUnitrie {
    pub closed spec fn kvs(&self) -> Seq<(Seq<u8>, Seq<u8>)> {
        self.inner.kvs()
    }

    pub open spec fn as_map(&self) -> Map<Seq<u8>, Seq<u8>> {
        map_of(self.kvs())
    }

    pub closed spec fn encodable(&self) -> bool {
        self.inner.encodable()
    }

    pub closed spec fn persisted_nodes(&self) -> Set<Seq<u8>> {
        self.inner.persisted_nodes()
    }

    pub closed spec fn persisted_values(&self) -> Set<Seq<u8>> {
        self.inner.persisted_values()
    }

    pub closed spec fn last_stats(&self) -> SaveStats {
        self.last_save_stats
    }

    /// A save is skipped when no key was marked dirty since the last save
    /// and the last saved root is the current contents' root hash.
    pub closed spec fn save_would_skip(&self) -> bool {
        self.node_arena.dirty_len() == 0 && self.persistence.last_root() == Some(
            root_hash_model(self.inner.kvs()),
        )
    }

    /// The memoized root digest, if one is held.
    pub closed spec fn cached_root(&self) -> Option<Seq<u8>> {
        self.hash_state.cached()
    }

    /// The core is well formed, the memoized hash (if any) is the true
    /// root hash, and every cache entry stamped with the current
    /// generation holds the true storage-key listing.
    pub closed spec fn wf(&self) -> bool {
        &&& self.inner.wf()
        &&& self.node_arena.wf()
        &&& self.storage_iteration_cache.wf()
        &&& (match self.hash_state.cached() {
            Some(h) => h == root_hash_model(self.inner.kvs()),
            None => true,
        })
        &&& forall|i: int|
            0 <= i < self.storage_iteration_cache.entries_view().len() ==> (
            #[trigger] self.storage_iteration_cache.entries_view()[i]).1
                <= self.mutation_generation.value()
        &&& forall|i: int|
            0 <= i < self.storage_iteration_cache.entries_view().len() && (
            #[trigger] self.storage_iteration_cache.entries_view()[i]).1
                == self.mutation_generation.value() ==> (
            self.storage_iteration_cache.entries_view()[i].2 == storage_keys_model(
                self.inner.kvs(),
                self.storage_iteration_cache.entries_view()[i].0,
            ) && self.storage_iteration_cache.entries_view()[i].3
                == crate::storage_keys_packed::encode_model(
                storage_keys_model(
                    self.inner.kvs(),
                    self.storage_iteration_cache.entries_view()[i].0,
                ),
            ))
    }

    pub fn new() -> (r: Self)
        ensures
            r.wf(),
            r.as_map() == Map::<Seq<u8>, Seq<u8>>::empty(),
            r.kvs() == Seq::<(Seq<u8>, Seq<u8>)>::empty(),
    {
        NextUnitrie {
            inner: Unitrie::new(),
            node_arena: NodeArena::new(),
            hash_state: IncrementalHashState::new(),
            persistence: IncrementalPersistence::new(),
            storage_iteration_cache: StorageIterationCache::new(DEFAULT_CAPACITY),
            mutation_generation: MutationGeneration::new(),
            last_save_stats: SaveStats::new_empty(),
        }
    }

    pub fn from_persisted_root<T: RawStoreAdapter>(root_hash: &[u8], store: &mut T) -> (r: Result<
        Self,
        TrieError,
    >)
        ensures
            store_model(final(store)) == store_model(old(store)),
            r is Ok <==> (rehydrate_spec(root_hash@, store_model(old(store))) is Some
                && encodable_map(
                rehydrate_spec(root_hash@, store_model(old(store))).unwrap().0,
            )),
            r matches Ok(t) ==> ({
                let o = rehydrate_spec(root_hash@, store_model(old(store))).unwrap();
                t.wf() && t.as_map() == o.0 && t.cached_root() == Some(
                    root_hash_model(t.kvs()),
                )
            }),
    {
        let inner = match Unitrie::from_persisted_root(root_hash, store) {
            Ok(t) => t,
            Err(e) => {
                return Err(e);
            },
        };
        proof {
            lemma_encodable_map_of(inner);
        }
        if !inner.check_encodable() {
            return Err(TrieError::ValueTooLarge);
        }
        let mut this = NextUnitrie {
            inner,
            node_arena: NodeArena::new(),
            hash_state: IncrementalHashState::new(),
            persistence: IncrementalPersistence::new(),
            storage_iteration_cache: StorageIterationCache::new(DEFAULT_CAPACITY),
            mutation_generation: MutationGeneration::new(),
            last_save_stats: SaveStats::new_empty(),
        };
        let root = this.inner.current_root_hash();
        this.hash_state.update(root);
        Ok(this)
    }

    pub fn get(&self, key: &[u8]) -> (r: Option<Vec<u8>>)
        requires
            self.wf(),
        ensures
            r matches Some(v) ==> self.as_map().contains_key(key@) && v@ == self.as_map()[key@],
            r is None <==> !self.as_map().contains_key(key@),
    {
        self.inner.get(key)
    }

    pub fn get_ref<'a>(&'a self, key: &[u8]) -> (r: Option<&'a [u8]>)
        requires
            self.wf(),
        ensures
            r matches Some(v) ==> self.as_map().contains_key(key@) && v@ == self.as_map()[key@],
            r is None <==> !self.as_map().contains_key(key@),
    {
        self.inner.get_ref(key)
    }

    /// Bumps the generation, dropping every cache stamped with it; at a
    /// wrap of the counter the listing cache is emptied outright.
    fn bump_mutation_generation(&mut self)
        requires
            old(self).wf(),
        ensures
            final(self).inner == old(self).inner,
            final(self).wf(),
            final(self).hash_state.cached() == old(self).hash_state.cached(),
            forall|i: int|
                0 <= i < final(self).storage_iteration_cache.entries_view().len() ==> (
                #[trigger] final(self).storage_iteration_cache.entries_view()[i]).1
                    != final(self).mutation_generation.value(),
    {
        let newg = self.mutation_generation.next();
        if newg == 0 {
            self.storage_iteration_cache.clear_all();
        }
    }

    pub fn put(&mut self, key: Vec<u8>, value: Vec<u8>)
        requires
            old(self).wf(),
        ensures
            final(self).wf(),
            final(self).as_map() == (if value@.len() == 0 {
                old(self).as_map().remove(key@)
            } else {
                old(self).as_map().insert(key@, value@)
            }),
    {
        self.bump_mutation_generation();
        self.node_arena.mark_dirty_key(key.as_slice());
        self.hash_state.invalidate();
        self.inner.put(key, value);
    }

    pub fn delete(&mut self, key: &[u8])
        requires
            old(self).wf(),
        ensures
            final(self).wf(),
            final(self).as_map() == old(self).as_map().remove(key@),
    {
        self.bump_mutation_generation();
        self.node_arena.mark_dirty_key(key);
        self.hash_state.invalidate();
        self.inner.delete(key);
    }

    pub fn delete_recursive(&mut self, prefix: &[u8])
        requires
            old(self).wf(),
        ensures
            final(self).wf(),
            final(self).as_map() == prefix_removed(old(self).as_map(), prefix@),
    {
        self.bump_mutation_generation();
        self.node_arena.mark_dirty_key(prefix);
        self.hash_state.invalidate();
        self.inner.delete_recursive(prefix);
    }

    pub fn get_value_length(&self, key: &[u8]) -> (r: Option<usize>)
        requires
            self.wf(),
        ensures
            r matches Some(l) ==> self.as_map().contains_key(key@) && l
                == self.as_map()[key@].len(),
            r is None <==> !self.as_map().contains_key(key@),
    {
        self.inner.get_value_length(key)
    }

    pub fn get_value_hash(&self, key: &[u8]) -> (r: Option<[u8; HASH_SIZE]>)
        requires
            self.wf(),
        ensures
            r matches Some(h) ==> self.as_map().contains_key(key@) && h == keccak256_spec(
                self.as_map()[key@],
            ),
            r is None <==> !self.as_map().contains_key(key@),
    {
        self.inner.get_value_hash(key)
    }

    pub fn collect_keys(&self, byte_size: usize) -> (r: Vec<Vec<u8>>)
        requires
            self.wf(),
        ensures
            vecs_view(r@) == collect_keys_model(self.kvs(), byte_size as nat),
    {
        let keys = self.inner.keys();
        let r = collect_exact_size_keys(&keys, byte_size);
        proof {
            lemma_size_filter_commute(self.kvs(), byte_size as nat);
        }
        r
    }

    pub fn get_storage_keys(&mut self, account_address: &[u8]) -> (r: Vec<Vec<u8>>)
        requires
            old(self).wf(),
        ensures
            final(self).wf(),
            final(self).kvs() == old(self).kvs(),
            vecs_view(r@) == storage_keys_model(old(self).kvs(), account_address@),
    {
        self.storage_keys_bundle_for_account(account_address).0
    }

    pub fn get_storage_keys_packed(&mut self, account_address: &[u8]) -> (r: Vec<u8>)
        requires
            old(self).wf(),
        ensures
            final(self).wf(),
            final(self).kvs() == old(self).kvs(),
            r@ == crate::storage_keys_packed::encode_model(
                storage_keys_model(old(self).kvs(), account_address@),
            ),
    {
        self.storage_keys_bundle_for_account(account_address).1
    }

    fn storage_keys_bundle_for_account(&mut self, account_address: &[u8]) -> (r: (
        Vec<Vec<u8>>,
        Vec<u8>,
    ))
        requires
            old(self).wf(),
        ensures
            final(self).wf(),
            final(self).kvs() == old(self).kvs(),
            vecs_view(r.0@) == storage_keys_model(old(self).kvs(), account_address@),
            r.1@ == crate::storage_keys_packed::encode_model(
                storage_keys_model(old(self).kvs(), account_address@),
            ),
    {
        let generation = self.mutation_generation.current();
        let cached_keys = self.storage_iteration_cache.get_keys(account_address, generation);
        let cached_packed = self.storage_iteration_cache.get_packed(account_address, generation);
        if let (Some(keys), Some(packed)) = (cached_keys, cached_packed) {
            proof {
                crate::next::storage_iteration_cache::lemma_first_entry_member(
                    self.storage_iteration_cache.entries_view(),
                    account_address@,
                );
                let t = self.storage_iteration_cache.lookup(account_address@).unwrap();
                let i = choose|i: int|
                    0 <= i < self.storage_iteration_cache.entries_view().len()
                        && #[trigger] self.storage_iteration_cache.entries_view()[i] == (
                        account_address@,
                        t.0,
                        t.1,
                        t.2,
                    );
                assert((#[trigger] self.storage_iteration_cache.entries_view()[i]).1
                    == self.mutation_generation.value());
            }
            return (keys, packed);
        }

        let keys = self.inner.get_storage_keys(account_address);
        let packed = crate::storage_keys_packed::encode(keys.as_slice());
        let addr = vstd::slice::slice_to_vec(account_address);
        let out = self.storage_iteration_cache.insert(addr, generation, keys, packed);
        out
    }

    pub fn root_hash(&mut self) -> (r: [u8; HASH_SIZE])
        requires
            old(self).wf(),
            old(self).encodable(),
        ensures
            final(self).wf(),
            final(self).kvs() == old(self).kvs(),
            r@ == root_hash_model(old(self).kvs()),
    {
        if let Some(cached) = self.hash_state.root_hash() {
            return cached;
        }

        let root = self.inner.root_hash();
        self.hash_state.update(root);
        root
    }

    pub fn current_root_hash(&mut self) -> (r: [u8; HASH_SIZE])
        requires
            old(self).wf(),
            old(self).encodable(),
        ensures
            final(self).wf(),
            final(self).kvs() == old(self).kvs(),
            r@ == root_hash_model(old(self).kvs()),
    {
        self.root_hash()
    }

    pub fn snapshot(&mut self) -> (r: TrieSnapshot)
        requires
            old(self).wf(),
            old(self).encodable(),
        ensures
            final(self).wf(),
            final(self).kvs() == old(self).kvs(),
            r.root@ == root_hash_model(old(self).kvs()),
            r.key_count == old(self).kvs().len(),
    {
        let root = self.current_root_hash();
        TrieSnapshot { root, key_count: self.inner.key_count() }
    }

    /// Saves through the incremental gate: a trie with no dirty keys whose
    /// root already matches the last save is not rewritten at all.
    pub fn save_to_store<T: RawStoreAdapter>(&mut self, store: &mut T)
        requires
            old(self).wf(),
            old(self).encodable(),
        ensures
            final(self).wf(),
            final(self).kvs() == old(self).kvs(),
            final(self).save_would_skip(),
            final(self).cached_root() == Some(root_hash_model(old(self).kvs())),
            old(self).save_would_skip() ==> (store_model(final(store)) == store_model(old(store))
                && final(self).last_stats() == zero_stats()
                && final(self).persisted_nodes() == old(self).persisted_nodes()
                && final(self).persisted_values() == old(self).persisted_values()),
            !old(self).save_would_skip() ==> ({
                let o = save_spec(
                    old(self).kvs(),
                    store_model(old(store)),
                    old(self).persisted_nodes(),
                    old(self).persisted_values(),
                );
                store_model(final(store)) == o.0 && final(self).persisted_nodes() == o.1
                    && final(self).persisted_values() == o.2 && final(self).last_stats() == o.3
            }),
    {
        let dirty = self.node_arena.dirty_count();
        self.last_save_stats = self.persistence.save(&mut self.inner, store, dirty);
        self.node_arena.clear_dirty();
        let root = self.inner.current_root_hash();
        self.hash_state.update(root);
    }

    pub fn last_save_stats(&self) -> (r: SaveStats)
        ensures
            r == self.last_stats(),
    {
        self.last_save_stats
    }
}

impl TrieEngine for NextUnitrie {
    open spec fn inv(&self) -> bool {
        self.wf()
    }

    closed spec fn entries_seq(&self) -> Seq<(Seq<u8>, Seq<u8>)> {
        self.kvs()
    }

    open spec fn values_fit(&self) -> bool {
        self.encodable()
    }

    fn get(&self, key: &[u8]) -> (r: Option<Vec<u8>>) {
        NextUnitrie::get(self, key)
    }

    fn put(&mut self, key: Vec<u8>, value: Vec<u8>) {
        NextUnitrie::put(self, key, value);
    }

    fn delete(&mut self, key: &[u8]) {
        NextUnitrie::delete(self, key);
    }

    fn delete_recursive(&mut self, prefix: &[u8]) {
        NextUnitrie::delete_recursive(self, prefix);
    }

    fn get_value_length(&self, key: &[u8]) -> (r: Option<usize>) {
        NextUnitrie::get_value_length(self, key)
    }

    fn get_value_hash(&self, key: &[u8]) -> (r: Option<[u8; HASH_SIZE]>) {
        NextUnitrie::get_value_hash(self, key)
    }

    fn collect_keys(&self, byte_size: usize) -> (r: Vec<Vec<u8>>) {
        NextUnitrie::collect_keys(self, byte_size)
    }

    fn get_storage_keys(&mut self, account_address: &[u8]) -> (r: Vec<Vec<u8>>) {
        NextUnitrie::get_storage_keys(self, account_address)
    }

    fn current_root_hash(&mut self) -> (r: [u8; HASH_SIZE]) {
        NextUnitrie::current_root_hash(self)
    }

    fn snapshot(&mut self) -> (r: TrieSnapshot) {
        NextUnitrie::snapshot(self)
    }
}

} // verus!
