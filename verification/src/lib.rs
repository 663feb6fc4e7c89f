//! A unified binary radix trie: an authenticated byte-key/byte-value store
//! with deterministic materialization, two wire codecs, content-addressed
//! persistence and rehydration.

pub mod codec_orchid;
pub mod codec_rskip107;
pub mod core_api;
pub mod core_trie;
pub mod entries;
pub mod error;
pub mod hash;
pub mod next;
pub mod node_ref;
pub mod path;
pub mod storage_keys_packed;
pub mod store_adapter;
pub mod varint;

use vstd::prelude::*;
use vstd::string::StringSliceAdditionalSpecFns;

use crate::core_api::TrieSnapshot;
use crate::core_trie::{
    collect_keys_model, encodable_map, rehydrate_spec, root_hash_model, save_spec,
    storage_keys_model, store_model, vecs_view, zero_stats, SaveStats, Unitrie,
};
use crate::entries::{map_of, prefix_removed};
use crate::error::TrieError;
use crate::hash::keccak256_spec;
use crate::next::core_trie::NextUnitrie;
use crate::node_ref::HASH_SIZE;
pub use crate::store_adapter::RawStoreAdapter;

verus! {

pub type TrieRoot = [u8; HASH_SIZE];

pub open spec fn ascii_ws(b: u8) -> bool {
    b == 32 || b == 9 || b == 10 || b == 11 || b == 12 || b == 13
}

pub open spec fn trim_start_spec(s: Seq<u8>) -> Seq<u8>
    decreases s.len(),
{
    if s.len() > 0 && ascii_ws(s[0]) {
        trim_start_spec(s.skip(1))
    } else {
        s
    }
}

pub open spec fn trim_end_spec(s: Seq<u8>) -> Seq<u8>
    decreases s.len(),
{
    if s.len() > 0 && ascii_ws(s.last()) {
        trim_end_spec(s.drop_last())
    } else {
        s
    }
}

pub open spec fn trim_spec(s: Seq<u8>) -> Seq<u8> {
    trim_end_spec(trim_start_spec(s))
}

pub open spec fn lower_byte(b: u8) -> u8 {
    if 65 <= b <= 90 {
        (b + 32) as u8
    } else {
        b
    }
}

pub open spec fn lower_spec(s: Seq<u8>) -> Seq<u8> {
    Seq::new(s.len(), |i: int| lower_byte(s[i]))
}

/// A configuration name, whitespace-trimmed and lowered.
pub open spec fn config_norm(s: Seq<u8>) -> Seq<u8> {
    lower_spec(trim_spec(s))
}

/// The bytes of the canonical core-engine name.
pub open spec fn legacy_name_bytes() -> Seq<u8> {
    seq![108u8, 101u8, 103u8, 97u8, 99u8, 121u8, 45u8, 118u8, 49u8]
}

/// The bytes of the canonical next-engine name.
pub open spec fn next_name_bytes() -> Seq<u8> {
    seq![110u8, 101u8, 120u8, 116u8]
}

proof fn lemma_trim_start_idx(s: Seq<u8>, k: int)
    requires
        0 <= k <= s.len(),
        forall|j: int| 0 <= j < k ==> ascii_ws(s[j]),
        k == s.len() || !ascii_ws(s[k]),
    ensures
        trim_start_spec(s) == s.skip(k),
    decreases k,
{
    if k == 0 {
        assert(s.skip(0) =~= s);
    } else {
        assert(ascii_ws(s[0]));
        lemma_trim_start_idx(s.skip(1), k - 1);
        assert(s.skip(1).skip(k - 1) =~= s.skip(k));
    }
}

proof fn lemma_trim_end_idx(s: Seq<u8>, e: int)
    requires
        0 <= e <= s.len(),
        forall|j: int| e <= j < s.len() ==> ascii_ws(s[j]),
        e == 0 || !ascii_ws(s[e - 1]),
    ensures
        trim_end_spec(s) == s.take(e),
    decreases s.len(),
{
    if e == s.len() {
        assert(s.take(e) =~= s);
    } else {
        assert(ascii_ws(s.last()));
        lemma_trim_end_idx(s.drop_last(), e);
        assert(s.drop_last().take(e) =~= s.take(e));
    }
}

#[derive(Debug, Clone, Copy, Eq, PartialEq, Structural)]
pub enum UnitrieImplementation {
    LegacyV1,
    Next,
}

/// Whether the lowered bytes of `bytes[start..end]` equal `target`.
fn eq_lowered(bytes: &[u8], start: usize, end: usize, target: &[u8]) -> (r: bool)
    requires
        start <= end <= bytes@.len(),
    ensures
        r == (lower_spec(bytes@.subrange(start as int, end as int)) == target@),
{
    let ghost sub = bytes@.subrange(start as int, end as int);
    if end - start != target.len() {
        proof {
            assert(lower_spec(sub).len() != target@.len());
        }
        return false;
    }
    let mut i: usize = 0;
    while i < target.len()
        invariant
            start <= end <= bytes@.len(),
            sub == bytes@.subrange(start as int, end as int),
            end - start == target@.len(),
            i <= target@.len(),
            forall|j: int| 0 <= j < i ==> lower_byte(sub[j]) == target@[j],
        decreases target@.len() - i,
    {
        let c = bytes[start + i];
        let lc = if c >= 65 && c <= 90 {
            (c + 32) as u8
        } else {
            c
        };
        if lc != target[i] {
            proof {
                assert(lower_spec(sub)[i as int] != target@[i as int]);
            }
            return false;
        }
        i += 1;
    }
    proof {
        assert(lower_spec(sub) =~= target@);
    }
    true
}

impl UnitrieImplementation {
    /// Parses a configuration name, ignoring case and surrounding
    /// whitespace.
    pub fn from_config(value: &str) -> (r: Result<Self, TrieError>)
        ensures
            (r == Ok::<Self, TrieError>(UnitrieImplementation::LegacyV1)) <==> config_norm(
                value.spec_bytes(),
            ) == legacy_name_bytes(),
            (r == Ok::<Self, TrieError>(UnitrieImplementation::Next)) <==> config_norm(
                value.spec_bytes(),
            ) == next_name_bytes(),
            r is Err ==> r == Err::<Self, TrieError>(TrieError::UnknownImplementation),
    {
        let bytes = value.as_bytes();
        let n = bytes.len();
        let mut start: usize = 0;
        while start < n && (bytes[start] == 32 || bytes[start] == 9 || bytes[start] == 10
            || bytes[start] == 11 || bytes[start] == 12 || bytes[start] == 13)
            invariant
                n == bytes@.len(),
                start <= n,
                forall|j: int| 0 <= j < start ==> ascii_ws(bytes@[j]),
            decreases n - start,
        {
            start += 1;
        }
        let mut end: usize = n;
        while end > start && (bytes[end - 1] == 32 || bytes[end - 1] == 9 || bytes[end - 1] == 10
            || bytes[end - 1] == 11 || bytes[end - 1] == 12 || bytes[end - 1] == 13)
            invariant
                n == bytes@.len(),
                start <= end <= n,
                forall|j: int| 0 <= j < start ==> ascii_ws(bytes@[j]),
                forall|j: int| end <= j < n ==> ascii_ws(bytes@[j]),
            decreases end,
        {
            end -= 1;
        }
        proof {
            if start == end {
                lemma_trim_start_idx(bytes@, end as int);
                lemma_trim_end_idx(bytes@.skip(end as int), 0);
                assert(bytes@.skip(end as int).take(0) =~= bytes@.subrange(
                    start as int,
                    end as int,
                ));
            } else {
                lemma_trim_start_idx(bytes@, start as int);
                lemma_trim_end_idx(bytes@.skip(start as int), end - start);
                assert(bytes@.skip(start as int).take(end - start) =~= bytes@.subrange(
                    start as int,
                    end as int,
                ));
            }
            assert(trim_spec(bytes@) == bytes@.subrange(start as int, end as int));
        }
        let legacy_name: [u8; 9] = [108, 101, 103, 97, 99, 121, 45, 118, 49];
        let next_name: [u8; 4] = [110, 101, 120, 116];
        proof {
            assert(legacy_name@ =~= legacy_name_bytes());
            assert(next_name@ =~= next_name_bytes());
        }
        if eq_lowered(bytes, start, end, legacy_name.as_slice()) {
            Ok(UnitrieImplementation::LegacyV1)
        } else if eq_lowered(bytes, start, end, next_name.as_slice()) {
            Ok(UnitrieImplementation::Next)
        } else {
            Err(TrieError::UnknownImplementation)
        }
    }

    pub fn as_config_name(self) -> (r: &'static str)
        ensures
            self == UnitrieImplementation::LegacyV1 ==> r@ == "legacy-v1"@,
            self == UnitrieImplementation::Next ==> r@ == "next"@,
    {
        match self {
            UnitrieImplementation::LegacyV1 => "legacy-v1",
            UnitrieImplementation::Next => "next",
        }
    }
}

enum UnitrieCoreInner {
    Legacy(Unitrie),
    Next(NextUnitrie),
}

/// The configurable engine: the core trie, or the core wrapped in the
/// next engine's accelerators. Both expose the same observable behaviour.
pub struct UnitrieCore {
    implementation: UnitrieImplementation,
    inner: UnitrieCoreInner,
}

impl UnitrieCore {
    pub closed spec fn kvs(&self) -> Seq<(Seq<u8>, Seq<u8>)> {
        match self.inner {
            UnitrieCoreInner::Legacy(t) => t.kvs(),
            UnitrieCoreInner::Next(t) => t.kvs(),
        }
    }

    pub open spec fn as_map(&self) -> Map<Seq<u8>, Seq<u8>> {
        map_of(self.kvs())
    }

    pub closed spec fn wf(&self) -> bool {
        match self.inner {
            UnitrieCoreInner::Legacy(t) => t.wf(),
            UnitrieCoreInner::Next(t) => t.wf(),
        }
    }

    pub closed spec fn encodable(&self) -> bool {
        match self.inner {
            UnitrieCoreInner::Legacy(t) => t.encodable(),
            UnitrieCoreInner::Next(t) => t.encodable(),
        }
    }

    pub closed spec fn implementation_spec(&self) -> UnitrieImplementation {
        self.implementation
    }

    /// The digests of node blobs the engine knows to be persisted.
    pub closed spec fn persisted_nodes(&self) -> Set<Seq<u8>> {
        match self.inner {
            UnitrieCoreInner::Legacy(t) => t.persisted_nodes(),
            UnitrieCoreInner::Next(t) => t.persisted_nodes(),
        }
    }

    /// The digests of value blobs the engine knows to be persisted.
    pub closed spec fn persisted_values(&self) -> Set<Seq<u8>> {
        match self.inner {
            UnitrieCoreInner::Legacy(t) => t.persisted_values(),
            UnitrieCoreInner::Next(t) => t.persisted_values(),
        }
    }

    /// Whether a save would be skipped: never for the core engine, and for
    /// the next engine when nothing is dirty and the root is unchanged.
    pub closed spec fn save_would_skip(&self) -> bool {
        match self.inner {
            UnitrieCoreInner::Legacy(t) => false,
            UnitrieCoreInner::Next(t) => t.save_would_skip(),
        }
    }

    pub fn new(implementation: UnitrieImplementation) -> (r: Self)
        ensures
            r.wf(),
            r.as_map() == Map::<Seq<u8>, Seq<u8>>::empty(),
            r.kvs() == Seq::<(Seq<u8>, Seq<u8>)>::empty(),
            r.implementation_spec() == implementation,
    {
        let inner = match implementation {
            UnitrieImplementation::LegacyV1 => UnitrieCoreInner::Legacy(Unitrie::new()),
            UnitrieImplementation::Next => UnitrieCoreInner::Next(NextUnitrie::new()),
        };

        UnitrieCore { implementation, inner }
    }

    pub fn from_persisted_root<T: RawStoreAdapter>(
        implementation: UnitrieImplementation,
        root_hash: &[u8],
        store: &mut T,
    ) -> (r: Result<Self, TrieError>)
        ensures
            store_model(final(store)) == store_model(old(store)),
            r matches Ok(t) ==> ({
                let o = rehydrate_spec(root_hash@, store_model(old(store))).unwrap();
                rehydrate_spec(root_hash@, store_model(old(store))) is Some && t.wf()
                    && t.as_map() == o.0 && t.implementation_spec() == implementation
            }),
            implementation == UnitrieImplementation::LegacyV1 ==> (r is Ok <==> rehydrate_spec(
                root_hash@,
                store_model(old(store)),
            ) is Some),
            implementation == UnitrieImplementation::Next ==> (r is Ok <==> (rehydrate_spec(
                root_hash@,
                store_model(old(store)),
            ) is Some && encodable_map(
                rehydrate_spec(root_hash@, store_model(old(store))).unwrap().0,
            ))),
    {
        let inner = match implementation {
            UnitrieImplementation::LegacyV1 => UnitrieCoreInner::Legacy(
                match Unitrie::from_persisted_root(root_hash, store) {
                    Ok(t) => t,
                    Err(e) => {
                        return Err(e);
                    },
                },
            ),
            UnitrieImplementation::Next => UnitrieCoreInner::Next(
                match NextUnitrie::from_persisted_root(root_hash, store) {
                    Ok(t) => t,
                    Err(e) => {
                        return Err(e);
                    },
                },
            ),
        };

        Ok(UnitrieCore { implementation, inner })
    }

    pub fn implementation(&self) -> (r: UnitrieImplementation)
        ensures
            r == self.implementation_spec(),
    {
        self.implementation
    }

    pub fn get(&self, key: &[u8]) -> (r: Option<Vec<u8>>)
        requires
            self.wf(),
        ensures
            r matches Some(v) ==> self.as_map().contains_key(key@) && v@ == self.as_map()[key@],
            r is None <==> !self.as_map().contains_key(key@),
    {
        match &self.inner {
            UnitrieCoreInner::Legacy(trie) => trie.get(key),
            UnitrieCoreInner::Next(trie) => trie.get(key),
        }
    }

    pub fn get_ref<'a>(&'a self, key: &[u8]) -> (r: Option<&'a [u8]>)
        requires
            self.wf(),
        ensures
            r matches Some(v) ==> self.as_map().contains_key(key@) && v@ == self.as_map()[key@],
            r is None <==> !self.as_map().contains_key(key@),
    {
        match &self.inner {
            UnitrieCoreInner::Legacy(trie) => trie.get_ref(key),
            UnitrieCoreInner::Next(trie) => trie.get_ref(key),
        }
    }

    pub fn put(&mut self, key: Vec<u8>, value: Vec<u8>)
        requires
            old(self).wf(),
        ensures
            final(self).wf(),
            final(self).implementation_spec() == old(self).implementation_spec(),
            final(self).as_map() == (if value@.len() == 0 {
                old(self).as_map().remove(key@)
            } else {
                old(self).as_map().insert(key@, value@)
            }),
    {
        match &mut self.inner {
            UnitrieCoreInner::Legacy(trie) => trie.put(key, value),
            UnitrieCoreInner::Next(trie) => trie.put(key, value),
        }
    }

    pub fn delete(&mut self, key: &[u8])
        requires
            old(self).wf(),
        ensures
            final(self).wf(),
            final(self).implementation_spec() == old(self).implementation_spec(),
            final(self).as_map() == old(self).as_map().remove(key@),
    {
        match &mut self.inner {
            UnitrieCoreInner::Legacy(trie) => trie.delete(key),
            UnitrieCoreInner::Next(trie) => trie.delete(key),
        }
    }

    pub fn delete_recursive(&mut self, key: &[u8])
        requires
            old(self).wf(),
        ensures
            final(self).wf(),
            final(self).implementation_spec() == old(self).implementation_spec(),
            final(self).as_map() == prefix_removed(old(self).as_map(), key@),
    {
        match &mut self.inner {
            UnitrieCoreInner::Legacy(trie) => trie.delete_recursive(key),
            UnitrieCoreInner::Next(trie) => trie.delete_recursive(key),
        }
    }

    pub fn get_value_length(&self, key: &[u8]) -> (r: Option<usize>)
        requires
            self.wf(),
        ensures
            r matches Some(l) ==> self.as_map().contains_key(key@) && l
                == self.as_map()[key@].len(),
            r is None <==> !self.as_map().contains_key(key@),
    {
        match &self.inner {
            UnitrieCoreInner::Legacy(trie) => trie.get_value_length(key),
            UnitrieCoreInner::Next(trie) => trie.get_value_length(key),
        }
    }

    pub fn get_value_hash(&self, key: &[u8]) -> (r: Option<TrieRoot>)
        requires
            self.wf(),
        ensures
            r matches Some(h) ==> self.as_map().contains_key(key@) && h == keccak256_spec(
                self.as_map()[key@],
            ),
            r is None <==> !self.as_map().contains_key(key@),
    {
        match &self.inner {
            UnitrieCoreInner::Legacy(trie) => trie.get_value_hash(key),
            UnitrieCoreInner::Next(trie) => trie.get_value_hash(key),
        }
    }

    pub fn collect_keys(&self, byte_size: usize) -> (r: Vec<Vec<u8>>)
        requires
            self.wf(),
        ensures
            vecs_view(r@) == collect_keys_model(self.kvs(), byte_size as nat),
    {
        match &self.inner {
            UnitrieCoreInner::Legacy(trie) => trie.collect_keys(byte_size),
            UnitrieCoreInner::Next(trie) => trie.collect_keys(byte_size),
        }
    }

    pub fn get_storage_keys(&mut self, account_address: &[u8]) -> (r: Vec<Vec<u8>>)
        requires
            old(self).wf(),
        ensures
            final(self).wf(),
            final(self).kvs() == old(self).kvs(),
            final(self).implementation_spec() == old(self).implementation_spec(),
            vecs_view(r@) == storage_keys_model(old(self).kvs(), account_address@),
    {
        match &mut self.inner {
            UnitrieCoreInner::Legacy(trie) => trie.get_storage_keys(account_address),
            UnitrieCoreInner::Next(trie) => trie.get_storage_keys(account_address),
        }
    }

    pub fn root_hash(&mut self) -> (r: TrieRoot)
        requires
            old(self).wf(),
            old(self).encodable(),
        ensures
            final(self).wf(),
            final(self).kvs() == old(self).kvs(),
            final(self).implementation_spec() == old(self).implementation_spec(),
            r@ == root_hash_model(old(self).kvs()),
    {
        match &mut self.inner {
            UnitrieCoreInner::Legacy(trie) => trie.root_hash(),
            UnitrieCoreInner::Next(trie) => trie.root_hash(),
        }
    }

    pub fn current_root_hash(&mut self) -> (r: TrieRoot)
        requires
            old(self).wf(),
            old(self).encodable(),
        ensures
            final(self).wf(),
            final(self).kvs() == old(self).kvs(),
            final(self).implementation_spec() == old(self).implementation_spec(),
            r@ == root_hash_model(old(self).kvs()),
    {
        match &mut self.inner {
            UnitrieCoreInner::Legacy(trie) => trie.current_root_hash(),
            UnitrieCoreInner::Next(trie) => trie.current_root_hash(),
        }
    }

    /// Writes the trie to the store; the next engine skips a save of an
    /// unchanged, already saved trie.
    pub fn save_to_store<T: RawStoreAdapter>(&mut self, store: &mut T)
        requires
            old(self).wf(),
            old(self).encodable(),
        ensures
            final(self).wf(),
            final(self).kvs() == old(self).kvs(),
            final(self).implementation_spec() == old(self).implementation_spec(),
            old(self).save_would_skip() ==> (store_model(final(store)) == store_model(old(store))
                && final(self).persisted_nodes() == old(self).persisted_nodes()
                && final(self).persisted_values() == old(self).persisted_values()),
            !old(self).save_would_skip() ==> ({
                let o = save_spec(
                    old(self).kvs(),
                    store_model(old(store)),
                    old(self).persisted_nodes(),
                    old(self).persisted_values(),
                );
                store_model(final(store)) == o.0 && final(self).persisted_nodes() == o.1
                    && final(self).persisted_values() == o.2
            }),
    {
        let _ = self.save_to_store_with_stats(store);
    }

    /// As `save_to_store`, and returns the walk's counters: the exact
    /// `save_spec` counters, or all zeroes for a skipped save.
    pub fn save_to_store_with_stats<T: RawStoreAdapter>(&mut self, store: &mut T) -> (r: SaveStats)
        requires
            old(self).wf(),
            old(self).encodable(),
        ensures
            final(self).wf(),
            final(self).kvs() == old(self).kvs(),
            final(self).implementation_spec() == old(self).implementation_spec(),
            old(self).save_would_skip() ==> (store_model(final(store)) == store_model(old(store))
                && r == zero_stats() && final(self).persisted_nodes() == old(
                self,
            ).persisted_nodes() && final(self).persisted_values() == old(self).persisted_values()),
            !old(self).save_would_skip() ==> ({
                let o = save_spec(
                    old(self).kvs(),
                    store_model(old(store)),
                    old(self).persisted_nodes(),
                    old(self).persisted_values(),
                );
                store_model(final(store)) == o.0 && final(self).persisted_nodes() == o.1
                    && final(self).persisted_values() == o.2 && r == o.3
            }),
    {
        match &mut self.inner {
            UnitrieCoreInner::Legacy(trie) => trie.save_to_store_with_stats(store),
            UnitrieCoreInner::Next(trie) => {
                trie.save_to_store(store);
                trie.last_save_stats()
            },
        }
    }

    pub fn snapshot(&mut self) -> (r: TrieSnapshot)
        requires
            old(self).wf(),
            old(self).encodable(),
        ensures
            final(self).wf(),
            final(self).kvs() == old(self).kvs(),
            final(self).implementation_spec() == old(self).implementation_spec(),
            r.root@ == root_hash_model(old(self).kvs()),
            r.key_count == old(self).kvs().len(),
    {
        match &mut self.inner {
            UnitrieCoreInner::Legacy(trie) => {
                let root = trie.current_root_hash();
                TrieSnapshot { root, key_count: trie.key_count() }
            },
            UnitrieCoreInner::Next(trie) => trie.snapshot(),
        }
    }
}

} // verus!
