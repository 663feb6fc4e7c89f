//! The unitrie engine: a flat ordered entries map, on-demand materialization
//! of the canonical bit trie, persistence onto a raw store, and rehydration
//! from a persisted root.

use vstd::prelude::*;
use vstd::slice::{slice_subrange, slice_to_vec};

use crate::codec_rskip107::{
    ce_bytes_spec, encode_node_spec, CEModel, ChildEncoding, Rskip107Codec,
};
use crate::entries::{
    bytes_eq, bytes_starts_with, clone_bytes, keys_of, lex_lt, map_of, prefix_removed, sorted_kvs,
    EntryMap,
};
use crate::error::TrieError;
use crate::hash::{empty_trie_hash, empty_trie_hash_spec, keccak256, keccak256_spec};
use crate::node_ref::{
    NodeModel, NodeReference, RefModel, SharedPath, TrieNode, ValueModel, ValueRef, HASH_SIZE,
    LONG_VALUE_THRESHOLD, MAX_EMBEDDED_NODE_SIZE_IN_BYTES,
};
use crate::path::shared_path_serializer;
use crate::store_adapter::RawStoreAdapter;

verus! {

pub const SECURE_KEY_SIZE: usize = 10;

/// Counters reported by a save.
#[derive(Debug, Default, Clone, Copy, PartialEq, Eq, Structural)]
pub struct SaveStats {
    pub nodes_visited: u64,
    pub nodes_written: u64,
    pub values_written: u64,
}

/// A dedup set of 32-byte digests.
pub struct SeenHashes {
    items: Vec<[u8; HASH_SIZE]>,
}

impl View for SeenHashes {
    type V = Set<Seq<u8>>;

    closed spec fn view(&self) -> Set<Seq<u8>> {
        Set::new(|h: Seq<u8>| exists|i: int| 0 <= i < self.items@.len() && (#[trigger] self.items@[i])@ == h)
    }
}

impl SeenHashes {
    pub fn new() -> (r: Self)
        ensures
            r@ == Set::<Seq<u8>>::empty(),
    {
        let r = SeenHashes { items: Vec::new() };
        proof {
            assert(r@ =~= Set::<Seq<u8>>::empty());
        }
        r
    }

    pub fn contains(&self, hash: &[u8; HASH_SIZE]) -> (r: bool)
        ensures
            r == self@.contains(hash@),
    {
        let mut i: usize = 0;
        while i < self.items.len()
            invariant
                i <= self.items@.len(),
                forall|j: int| 0 <= j < i ==> (#[trigger] self.items@[j])@ != hash@,
            decreases self.items@.len() - i,
        {
            if bytes_eq(self.items[i].as_slice(), hash.as_slice()) {
                proof {
                    assert((#[trigger] self.items@[i as int])@ == hash@);
                }
                return true;
            }
            i += 1;
        }
        false
    }

    /// Inserts; reports true when the digest was new.
    pub fn insert(&mut self, hash: [u8; HASH_SIZE]) -> (r: bool)
        ensures
            final(self)@ == old(self)@.insert(hash@),
            r == !old(self)@.contains(hash@),
    {
        if self.contains(&hash) {
            proof {
                assert(final(self)@ =~= old(self)@.insert(hash@));
            }
            false
        } else {
            let ghost old_items = self.items@;
            self.items.push(hash);
            proof {
                assert forall|h: Seq<u8>| final(self)@.contains(h) implies old(self)@.insert(
                    hash@,
                ).contains(h) by {
                    let i = choose|i: int|
                        0 <= i < self.items@.len() && (#[trigger] self.items@[i])@ == h;
                    if i < old_items.len() {
                        assert((#[trigger] old_items[i])@ == h);
                    }
                };
                assert forall|h: Seq<u8>|
                    old(self)@.insert(hash@).contains(h) implies final(self)@.contains(h) by {
                    if h == hash@ {
                        assert((#[trigger] self.items@[self.items@.len() - 1])@ == h);
                    } else {
                        let i = choose|i: int|
                            0 <= i < old_items.len() && (#[trigger] old_items[i])@ == h;
                        assert((#[trigger] self.items@[i])@ == h);
                    }
                };
                assert(final(self)@ =~= old(self)@.insert(hash@));
            }
            true
        }
    }
}

/// The cached result of materialization.
struct MaterializedTrie {
    root_node: Option<TrieNode>,
    root_hash: [u8; HASH_SIZE],
}

/// The unified binary radix trie over an ordered byte-key/byte-value map.
pub struct Unitrie {
    entries: EntryMap,
    materialized: Option<MaterializedTrie>,
    persisted_node_hashes: SeenHashes,
    persisted_value_hashes: SeenHashes,
}

/// A key sequence paired with the keys' values.
pub open spec fn vecs_view(s: Seq<Vec<u8>>) -> Seq<Seq<u8>> {
    Seq::new(s.len(), |i: int| s[i]@)
}

/// Keys with exactly `byte_size` bytes, or all keys for the sentinel.
pub open spec fn collect_pred(byte_size: nat) -> spec_fn((Seq<u8>, Seq<u8>)) -> bool {
    |e: (Seq<u8>, Seq<u8>)| byte_size == 0x7fffffff || e.0.len() == byte_size
}

pub open spec fn collect_keys_model(kvs: Seq<(Seq<u8>, Seq<u8>)>, byte_size: nat) -> Seq<Seq<u8>> {
    keys_of(kvs.filter(collect_pred(byte_size)))
}

/// The account-storage prefix: domain byte, 10 secure bytes, the address,
/// and the subdomain byte.
pub open spec fn storage_prefix_model(addr: Seq<u8>) -> Seq<u8> {
    seq![0u8] + keccak256_spec(addr)@.take(SECURE_KEY_SIZE as int) + addr + seq![0u8]
}

pub open spec fn storage_key_pred(prefix: Seq<u8>) -> spec_fn((Seq<u8>, Seq<u8>)) -> bool {
    |e: (Seq<u8>, Seq<u8>)| prefix.is_prefix_of(e.0) && e.0.len() >= prefix.len()
        + SECURE_KEY_SIZE
}

pub open spec fn tails_of(s: Seq<(Seq<u8>, Seq<u8>)>, cut: int) -> Seq<Seq<u8>> {
    Seq::new(s.len(), |i: int| s[i].0.skip(cut))
}

/// The storage-key tails under an account's prefix, in key order.
pub open spec fn storage_keys_model(kvs: Seq<(Seq<u8>, Seq<u8>)>, addr: Seq<u8>) -> Seq<Seq<u8>> {
    let prefix = storage_prefix_model(addr);
    tails_of(kvs.filter(storage_key_pred(prefix)), prefix.len() + SECURE_KEY_SIZE as int)
}

impl Unitrie {
    /// The entries, in ascending key order.
    pub closed spec fn kvs(&self) -> Seq<(Seq<u8>, Seq<u8>)> {
        self.entries.kvs()
    }

    /// The mapping held by the trie.
    pub open spec fn as_map(&self) -> Map<Seq<u8>, Seq<u8>> {
        map_of(self.kvs())
    }

    pub closed spec fn wf(&self) -> bool {
        &&& self.entries.wf()
        &&& match self.materialized {
            Some(m) => m.root_hash@ == root_hash_model(self.kvs()) && (match m.root_node {
                Some(n) => self.kvs().len() > 0 && n@ == build_root_model(self.kvs()),
                None => self.kvs().len() == 0,
            }),
            None => true,
        }
    }

    pub fn new() -> (r: Self)
        ensures
            r.wf(),
            r.as_map() == Map::<Seq<u8>, Seq<u8>>::empty(),
            r.kvs() == Seq::<(Seq<u8>, Seq<u8>)>::empty(),
            r.persisted_nodes() == Set::<Seq<u8>>::empty(),
            r.persisted_values() == Set::<Seq<u8>>::empty(),
    {
        Unitrie {
            entries: EntryMap::new(),
            materialized: None,
            persisted_node_hashes: SeenHashes::new(),
            persisted_value_hashes: SeenHashes::new(),
        }
    }

    pub fn get(&self, key: &[u8]) -> (r: Option<Vec<u8>>)
        requires
            self.wf(),
        ensures
            r matches Some(v) ==> self.as_map().contains_key(key@) && v@ == self.as_map()[key@],
            r is None <==> !self.as_map().contains_key(key@),
    {
        match self.entries.get(key) {
            Some(v) => Some(clone_bytes(v)),
            None => None,
        }
    }

    pub fn get_ref<'a>(&'a self, key: &[u8]) -> (r: Option<&'a [u8]>)
        requires
            self.wf(),
        ensures
            r matches Some(v) ==> self.as_map().contains_key(key@) && v@ == self.as_map()[key@],
            r is None <==> !self.as_map().contains_key(key@),
    {
        match self.entries.get(key) {
            Some(v) => Some(v.as_slice()),
            None => None,
        }
    }

    /// An empty value deletes the key; otherwise the value replaces any
    /// previous one. Either way the memoized materialization is dropped.
    pub fn put(&mut self, key: Vec<u8>, value: Vec<u8>)
        requires
            old(self).wf(),
        ensures
            final(self).wf(),
            final(self).as_map() == (if value@.len() == 0 {
                old(self).as_map().remove(key@)
            } else {
                old(self).as_map().insert(key@, value@)
            }),
    {
        if value.is_empty() {
            self.entries.remove(key.as_slice());
        } else {
            self.entries.insert(key, value);
        }
        self.materialized = None;
    }

    pub fn delete(&mut self, key: &[u8])
        requires
            old(self).wf(),
        ensures
            final(self).wf(),
            final(self).as_map() == old(self).as_map().remove(key@),
    {
        self.entries.remove(key);
        self.materialized = None;
    }

    /// Removes every key starting with `prefix`; the empty prefix clears
    /// the whole map.
    pub fn delete_recursive(&mut self, prefix: &[u8])
        requires
            old(self).wf(),
        ensures
            final(self).wf(),
            final(self).as_map() == prefix_removed(old(self).as_map(), prefix@),
    {
        if self.entries.is_empty() {
            proof {
                crate::entries::lemma_map_of_contains(self.kvs());
                assert(self.as_map() =~= prefix_removed(self.as_map(), prefix@));
            }
            return ;
        }

        if prefix.is_empty() {
            self.entries.clear();
            self.materialized = None;
            proof {
                assert(self.as_map() =~= prefix_removed(old(self).as_map(), prefix@));
            }
            return ;
        }

        let removed_any = self.entries.remove_prefixed(prefix);
        if removed_any {
            self.materialized = None;
        }
    }

    pub fn get_value_length(&self, key: &[u8]) -> (r: Option<usize>)
        requires
            self.wf(),
        ensures
            r matches Some(l) ==> self.as_map().contains_key(key@) && l == self.as_map()[key@].len(),
            r is None <==> !self.as_map().contains_key(key@),
    {
        match self.entries.get(key) {
            Some(v) => Some(v.len()),
            None => None,
        }
    }

    pub fn get_value_hash(&self, key: &[u8]) -> (r: Option<[u8; HASH_SIZE]>)
        requires
            self.wf(),
        ensures
            r matches Some(h) ==> self.as_map().contains_key(key@) && h == keccak256_spec(
                self.as_map()[key@],
            ),
            r is None <==> !self.as_map().contains_key(key@),
    {
        match self.entries.get(key) {
            Some(v) => Some(keccak256(v.as_slice())),
            None => None,
        }
    }

    /// Keys with exactly `byte_size` bytes, ascending; the sentinel
    /// 2 147 483 647 selects every key.
    pub fn collect_keys(&self, byte_size: usize) -> (r: Vec<Vec<u8>>)
        requires
            self.wf(),
        ensures
            vecs_view(r@) == collect_keys_model(self.kvs(), byte_size as nat),
    {
        let ghost pred = collect_pred(byte_size as nat);
        let ghost old_kvs = self.kvs();
        let mut out: Vec<Vec<u8>> = Vec::new();
        let mut j: usize = 0;
        let n = self.entries.len();
        while j < n
            invariant
                self.wf(),
                old_kvs == self.kvs(),
                pred == collect_pred(byte_size as nat),
                n == old_kvs.len(),
                j <= n,
                vecs_view(out@) == keys_of(old_kvs.take(j as int).filter(pred)),
            decreases n - j,
        {
            let ghost prev = vecs_view(out@);
            proof {
                reveal(Seq::filter);
                assert(old_kvs.take(j as int + 1).drop_last() =~= old_kvs.take(j as int));
                assert(old_kvs.take(j as int + 1).last() == old_kvs[j as int]);
            }
            let keep = if byte_size == 0x7fffffff {
                true
            } else {
                self.entries.key_at(j).len() == byte_size
            };
            if keep {
                out.push(clone_bytes(self.entries.key_at(j)));
                proof {
                    assert(vecs_view(out@) =~= prev.push(old_kvs[j as int].0));
                }
            }
            j += 1;
            proof {
                assert(vecs_view(out@) =~= keys_of(old_kvs.take(j as int).filter(pred)));
            }
        }
        proof {
            assert(old_kvs.take(n as int) =~= old_kvs);
        }
        out
    }

    /// Every key, ascending.
    pub fn keys(&self) -> (r: Vec<Vec<u8>>)
        requires
            self.wf(),
        ensures
            vecs_view(r@) == keys_of(self.kvs()),
    {
        let r = self.collect_keys(0x7fffffff);
        proof {
            crate::entries::lemma_filter_all(self.kvs(), collect_pred(0x7fffffff));
        }
        r
    }

    /// The decoded storage-key tails under the account's prefix, in key
    /// order.
    pub fn get_storage_keys(&self, account_address: &[u8]) -> (r: Vec<Vec<u8>>)
        requires
            self.wf(),
        ensures
            vecs_view(r@) == storage_keys_model(self.kvs(), account_address@),
    {
        let prefix = account_storage_prefix_key(account_address);
        let ghost pred = storage_key_pred(prefix@);
        let ghost cut = prefix@.len() + SECURE_KEY_SIZE as int;
        let ghost old_kvs = self.kvs();
        let mut out: Vec<Vec<u8>> = Vec::new();
        let mut j: usize = 0;
        let n = self.entries.len();
        while j < n
            invariant
                self.wf(),
                old_kvs == self.kvs(),
                pred == storage_key_pred(prefix@),
                prefix@ == storage_prefix_model(account_address@),
                cut == prefix@.len() + SECURE_KEY_SIZE as int,
                n == old_kvs.len(),
                j <= n,
                vecs_view(out@) == tails_of(old_kvs.take(j as int).filter(pred), cut),
            decreases n - j,
        {
            let ghost prev = vecs_view(out@);
            proof {
                reveal(Seq::filter);
                assert(old_kvs.take(j as int + 1).drop_last() =~= old_kvs.take(j as int));
                assert(old_kvs.take(j as int + 1).last() == old_kvs[j as int]);
            }
            let key = self.entries.key_at(j);
            if bytes_starts_with(key.as_slice(), prefix.as_slice()) && key.len() - prefix.len()
                >= SECURE_KEY_SIZE {
                let tail = slice_to_vec(
                    slice_subrange(key.as_slice(), prefix.len() + SECURE_KEY_SIZE, key.len()),
                );
                out.push(tail);
                proof {
                    assert(old_kvs[j as int].0.skip(cut) =~= key@.subrange(
                        prefix@.len() + SECURE_KEY_SIZE as int,
                        key@.len() as int,
                    ));
                    assert(vecs_view(out@) =~= prev.push(old_kvs[j as int].0.skip(cut)));
                }
            }
            j += 1;
            proof {
                assert(vecs_view(out@) =~= tails_of(old_kvs.take(j as int).filter(pred), cut));
            }
        }
        proof {
            assert(old_kvs.take(n as int) =~= old_kvs);
        }
        out
    }

    pub fn key_count(&self) -> (r: usize)
        ensures
            r == self.kvs().len(),
    {
        self.entries.len()
    }
}

/// The account storage prefix: 0x00, the first 10 bytes of the address's
/// Keccak-256 digest, the address itself, and 0x00.
pub fn account_storage_prefix_key(account_address: &[u8]) -> (r: Vec<u8>)
    ensures
        r@ == storage_prefix_model(account_address@),
{
    let secure = secure_key_prefix(account_address);
    let mut key: Vec<u8> = Vec::new();
    key.push(0x00);
    let sv = slice_to_vec(secure.as_slice());
    crate::varint::append_bytes(&mut key, &sv);
    let av = slice_to_vec(account_address);
    crate::varint::append_bytes(&mut key, &av);
    key.push(0x00);
    proof {
        assert(key@ =~= storage_prefix_model(account_address@));
    }
    key
}

/// The first 10 bytes of a byte string's Keccak-256 digest.
pub fn secure_key_prefix(key: &[u8]) -> (r: [u8; SECURE_KEY_SIZE])
    ensures
        r@ == keccak256_spec(key@)@.take(SECURE_KEY_SIZE as int),
{
    let hash = keccak256(key);
    let mut prefix = [0u8; SECURE_KEY_SIZE];
    let mut i: usize = 0;
    while i < SECURE_KEY_SIZE
        invariant
            hash == keccak256_spec(key@),
            i <= 10,
            forall|k: int| 0 <= k < i ==> prefix@[k] == hash@[k],
        decreases 10 - i,
    {
        prefix[i] = hash[i];
        i += 1;
    }
    proof {
        assert(prefix@ =~= keccak256_spec(key@)@.take(SECURE_KEY_SIZE as int));
    }
    prefix
}

/// Entries with every key expanded to its MSB-first bit path.
pub open spec fn bit_kvs(kvs: Seq<(Seq<u8>, Seq<u8>)>) -> Seq<(Seq<u8>, Seq<u8>)> {
    Seq::new(
        kvs.len(),
        |i: int| (shared_path_serializer::key_bits_spec(kvs[i].0), kvs[i].1),
    )
}

/// All bit paths reach past `pos` and agree there.
pub open spec fn all_agree_at(entries: Seq<(Seq<u8>, Seq<u8>)>, pos: int) -> bool {
    &&& forall|i: int| 0 <= i < entries.len() ==> (#[trigger] entries[i]).0.len() > pos
    &&& forall|i: int|
        0 <= i < entries.len() ==> (#[trigger] entries[i]).0[pos] == entries[0].0[pos]
}

/// Scans forward from `depth + acc` while all paths agree; the result is
/// the total number of agreeing positions from `depth`.
pub open spec fn lcp_scan(entries: Seq<(Seq<u8>, Seq<u8>)>, depth: int, acc: int) -> int
    decreases entries[0].0.len() - depth - acc,
        when entries.len() > 0 && 0 <= depth && 0 <= acc
{
    if all_agree_at(entries, depth + acc) {
        lcp_scan(entries, depth, acc + 1)
    } else {
        acc
    }
}

/// The longest common bit prefix of all entries below `depth`.
pub open spec fn lcp_len(entries: Seq<(Seq<u8>, Seq<u8>)>, depth: int) -> int {
    lcp_scan(entries, depth, 0)
}

pub proof fn lemma_lcp_scan_bounds(entries: Seq<(Seq<u8>, Seq<u8>)>, depth: int, acc: int)
    requires
        entries.len() > 0,
        0 <= depth,
        0 <= acc,
        forall|i: int| 0 <= i < entries.len() ==> (#[trigger] entries[i]).0.len() >= depth + acc,
    ensures
        acc <= lcp_scan(entries, depth, acc),
        forall|i: int|
            0 <= i < entries.len() ==> depth + lcp_scan(entries, depth, acc) <= (
            #[trigger] entries[i]).0.len(),
    decreases entries[0].0.len() - depth - acc,
{
    if all_agree_at(entries, depth + acc) {
        lemma_lcp_scan_bounds(entries, depth, acc + 1);
    }
}

/// A run of agreement up to the first failure pins the scan's result.
pub proof fn lemma_lcp_run(entries: Seq<(Seq<u8>, Seq<u8>)>, depth: int, acc: int, idx: int)
    requires
        entries.len() > 0,
        0 <= depth,
        0 <= acc <= idx,
        forall|m: int| acc <= m < idx ==> #[trigger] all_agree_at(entries, depth + m),
        !all_agree_at(entries, depth + idx),
        depth + acc <= entries[0].0.len(),
    ensures
        lcp_scan(entries, depth, acc) == idx,
    decreases idx - acc,
{
    if acc < idx {
        assert(all_agree_at(entries, depth + acc));
        lemma_lcp_run(entries, depth, acc + 1, idx);
    }
}

pub open spec fn node_value_pred(node_depth: int) -> spec_fn((Seq<u8>, Seq<u8>)) -> bool {
    |e: (Seq<u8>, Seq<u8>)| e.0.len() == node_depth
}

pub open spec fn child_pred(node_depth: int, bit: u8) -> spec_fn((Seq<u8>, Seq<u8>)) -> bool {
    |e: (Seq<u8>, Seq<u8>)| e.0.len() > node_depth && e.0[node_depth] == bit
}

/// What `build_node_model` asks of its input.
pub open spec fn entries_pre(entries: Seq<(Seq<u8>, Seq<u8>)>, depth: int) -> bool {
    &&& entries.len() > 0
    &&& 0 <= depth
    &&& forall|i: int|
        0 <= i < entries.len() ==> crate::node_ref::path_bits_wf((#[trigger] entries[i]).0)
    &&& forall|i: int| 0 <= i < entries.len() ==> (#[trigger] entries[i]).0.len() >= depth
}

/// The longest bit path among the entries.
pub open spec fn max_bits_len(entries: Seq<(Seq<u8>, Seq<u8>)>) -> int
    decreases entries.len(),
{
    if entries.len() == 0 {
        0
    } else {
        let m = max_bits_len(entries.drop_last());
        if entries.last().0.len() > m {
            entries.last().0.len() as int
        } else {
            m
        }
    }
}

pub proof fn lemma_max_bits_ge(entries: Seq<(Seq<u8>, Seq<u8>)>)
    ensures
        forall|i: int| 0 <= i < entries.len() ==> (#[trigger] entries[i]).0.len() <= max_bits_len(
            entries,
        ),
        max_bits_len(entries) >= 0,
    decreases entries.len(),
{
    if entries.len() > 0 {
        let prefix = entries.drop_last();
        lemma_max_bits_ge(prefix);
        assert(forall|i: int| 0 <= i < prefix.len() ==> #[trigger] prefix[i] == entries[i]);
        assert forall|i: int| 0 <= i < entries.len() implies (#[trigger] entries[i]).0.len()
            <= max_bits_len(entries) by {
            if i < entries.len() - 1 {
                assert(prefix[i] == entries[i]);
                assert(prefix[i].0.len() <= max_bits_len(prefix));
            } else {
                assert(entries[i] == entries.last());
            }
        };
    }
}

pub proof fn lemma_max_bits_le(entries: Seq<(Seq<u8>, Seq<u8>)>, bound: int)
    requires
        forall|i: int| 0 <= i < entries.len() ==> (#[trigger] entries[i]).0.len() <= bound,
        0 <= bound,
    ensures
        max_bits_len(entries) <= bound,
    decreases entries.len(),
{
    if entries.len() > 0 {
        let prefix = entries.drop_last();
        assert(forall|i: int| 0 <= i < prefix.len() ==> #[trigger] prefix[i] == entries[i]);
        lemma_max_bits_le(prefix, bound);
    }
}

/// A filtered subset's paths are no longer than the originals'.
pub proof fn lemma_max_bits_filter(
    entries: Seq<(Seq<u8>, Seq<u8>)>,
    pred: spec_fn((Seq<u8>, Seq<u8>)) -> bool,
)
    ensures
        max_bits_len(entries.filter(pred)) <= max_bits_len(entries),
        max_bits_len(entries) >= 0,
{
    crate::entries::lemma_filter_members(entries, pred);
    lemma_max_bits_ge(entries);
    let f = entries.filter(pred);
    assert forall|i: int| 0 <= i < f.len() implies (#[trigger] f[i]).0.len() <= max_bits_len(
        entries,
    ) by {
        assert(entries.contains(f[i]));
        let j = choose|j: int| 0 <= j < entries.len() && entries[j] == f[i];
        assert(entries[j].0.len() <= max_bits_len(entries));
    };
    lemma_max_bits_le(f, max_bits_len(entries));
}

/// The canonical node for a set of (bit path, value) entries at `depth`:
/// the shared path absorbs the common prefix, an exact-length entry gives
/// the value, and the next bit routes the rest left or right.
pub open spec fn build_node_model(entries: Seq<(Seq<u8>, Seq<u8>)>, depth: int) -> NodeModel
    decreases max_bits_len(entries) + 1 - depth,
        when entries_pre(entries, depth)
        via build_node_model_dec
{
    let l = lcp_len(entries, depth);
    let node_depth = depth + l;
    let shared = entries[0].0.subrange(depth, node_depth);
    let vmatches = entries.filter(node_value_pred(node_depth));
    let value = if vmatches.len() > 0 {
        crate::node_ref::inline_model(vmatches.last().1)
    } else {
        ValueModel::Empty
    };
    let les = entries.filter(child_pred(node_depth, 0));
    let res = entries.filter(child_pred(node_depth, 1));
    NodeModel {
        shared_path: shared,
        value,
        left: if les.len() > 0 {
            RefModel::Embedded(Box::new(build_node_model(les, node_depth + 1)))
        } else {
            RefModel::Empty
        },
        right: if res.len() > 0 {
            RefModel::Embedded(Box::new(build_node_model(res, node_depth + 1)))
        } else {
            RefModel::Empty
        },
    }
}

#[via_fn]
proof fn build_node_model_dec(entries: Seq<(Seq<u8>, Seq<u8>)>, depth: int) {
    lemma_lcp_scan_bounds(entries, depth, 0);
    let l = lcp_len(entries, depth);
    let node_depth = depth + l;
    lemma_max_bits_ge(entries);
    lemma_max_bits_filter(entries, child_pred(node_depth, 0));
    lemma_max_bits_filter(entries, child_pred(node_depth, 1));
    let les = entries.filter(child_pred(node_depth, 0));
    let res = entries.filter(child_pred(node_depth, 1));
    if les.len() > 0 {
        assert((les[0]).0.len() > node_depth);
        assert(les[0].0.len() <= max_bits_len(les)) by {
            lemma_max_bits_ge(les);
        };
    }
    if res.len() > 0 {
        assert((res[0]).0.len() > node_depth);
        assert(res[0].0.len() <= max_bits_len(res)) by {
            lemma_max_bits_ge(res);
        };
    }
}

/// The recursive calls of `build_node_model` see inputs meeting its
/// precondition again.
pub proof fn lemma_build_children_pre(entries: Seq<(Seq<u8>, Seq<u8>)>, depth: int, bit: u8)
    requires
        entries_pre(entries, depth),
    ensures
        entries.filter(child_pred(depth + lcp_len(entries, depth), bit)).len() > 0
            ==> entries_pre(
            entries.filter(child_pred(depth + lcp_len(entries, depth), bit)),
            depth + lcp_len(entries, depth) + 1,
        ),
{
    lemma_lcp_scan_bounds(entries, depth, 0);
    let node_depth = depth + lcp_len(entries, depth);
    let f = entries.filter(child_pred(node_depth, bit));
    crate::entries::lemma_filter_members(entries, child_pred(node_depth, bit));
    assert forall|i: int| 0 <= i < f.len() implies crate::node_ref::path_bits_wf(
        (#[trigger] f[i]).0,
    ) && f[i].0.len() >= node_depth + 1 by {
        assert(entries.contains(f[i]));
        let j = choose|j: int| 0 <= j < entries.len() && entries[j] == f[i];
        assert(crate::node_ref::path_bits_wf(entries[j].0));
        entries.lemma_filter_pred(child_pred(node_depth, bit), i);
    };
}

/// The built root of a trie's entries.
pub open spec fn build_root_model(kvs: Seq<(Seq<u8>, Seq<u8>)>) -> NodeModel {
    build_node_model(bit_kvs(kvs), 0)
}

/// Serialized form, digest, footprint and embeddability of a node graph,
/// choosing for each embedded child the embedded or hashed reference form.
pub struct MetaModel {
    pub hash: Seq<u8>,
    pub serialized: Seq<u8>,
    pub reference_size: u64,
    pub embeddable: bool,
}

pub open spec fn clamp64(n: int) -> u64 {
    if n > u64::MAX {
        u64::MAX
    } else if n < 0 {
        0
    } else {
        n as u64
    }
}

pub open spec fn metadata_spec(n: NodeModel) -> Option<MetaModel>
    decreases n, 1int,
{
    match child_meta_spec(n.left) {
        None => None,
        Some((lce, lsz)) => match child_meta_spec(n.right) {
            None => None,
            Some((rce, rsz)) => {
                let cs = if n.is_terminal() {
                    None
                } else {
                    Some(clamp64(lsz + rsz))
                };
                match encode_node_spec(n, lce, rce, cs) {
                    None => None,
                    Some(serialized) => {
                        let ext: int = if n.value.is_long() {
                            n.value_length() as int
                        } else {
                            0
                        };
                        let csv: int = match cs {
                            Some(c) => c as int,
                            None => 0,
                        };
                        Some(
                            MetaModel {
                                hash: keccak256_spec(serialized)@,
                                serialized,
                                reference_size: clamp64(csv + ext + serialized.len()),
                                embeddable: n.is_terminal() && serialized.len()
                                    <= MAX_EMBEDDED_NODE_SIZE_IN_BYTES,
                            },
                        )
                    },
                }
            },
        },
    }
}

pub open spec fn child_meta_spec(r: RefModel) -> Option<(CEModel, u64)>
    decreases r, 0int,
{
    match r {
        RefModel::Empty => Some((CEModel::Empty, 0u64)),
        RefModel::Embedded(c) => match metadata_spec(*c) {
            Some(m) => if m.embeddable {
                Some((CEModel::Embedded(m.serialized), m.reference_size))
            } else {
                Some((CEModel::Hashed(m.hash), m.reference_size))
            },
            None => None,
        },
        RefModel::Hashed(_) => None,
    }
}

/// The shape of a freshly built tree: well formed, no hashed references,
/// no hashed values, and every inline value short enough for the codec.
pub open spec fn built_form(n: NodeModel) -> bool
    decreases n, 1int,
{
    &&& n.wf()
    &&& match n.value {
        ValueModel::Inline(v) => v.len() <= 0xffffff,
        ValueModel::Empty => true,
        ValueModel::Hashed { .. } => false,
    }
    &&& ref_built(n.left)
    &&& ref_built(n.right)
}

pub open spec fn ref_built(r: RefModel) -> bool
    decreases r, 0int,
{
    match r {
        RefModel::Empty => true,
        RefModel::Embedded(c) => built_form(*c),
        RefModel::Hashed(_) => false,
    }
}

/// A built tree always encodes.
pub proof fn lemma_built_encodable(n: NodeModel)
    requires
        built_form(n),
    ensures
        metadata_spec(n) is Some,
    decreases n,
{
    lemma_ref_built_encodable(n.left);
    lemma_ref_built_encodable(n.right);
    let lres = child_meta_spec(n.left);
    let rres = child_meta_spec(n.right);
    let (lce, lsz) = lres.unwrap();
    let (rce, rsz) = rres.unwrap();
    assert(ce_bytes_spec(lce) is Some) by {
        match n.left {
            RefModel::Embedded(c) => {
                let m = metadata_spec(*c).unwrap();
            },
            _ => {},
        }
    };
    assert(ce_bytes_spec(rce) is Some) by {
        match n.right {
            RefModel::Embedded(c) => {
                let m = metadata_spec(*c).unwrap();
            },
            _ => {},
        }
    };
}

pub proof fn lemma_ref_built_encodable(r: RefModel)
    requires
        ref_built(r),
    ensures
        child_meta_spec(r) is Some,
    decreases r,
{
    match r {
        RefModel::Embedded(c) => {
            lemma_built_encodable(*c);
        },
        _ => {},
    }
}

/// Building from entries whose values fit the codec yields a built tree.
pub proof fn lemma_build_produces_built(entries: Seq<(Seq<u8>, Seq<u8>)>, depth: int)
    requires
        entries_pre(entries, depth),
        forall|i: int| 0 <= i < entries.len() ==> (#[trigger] entries[i]).1.len() <= 0xffffff,
    ensures
        built_form(build_node_model(entries, depth)),
    decreases max_bits_len(entries) + 1 - depth,
{
    lemma_lcp_scan_bounds(entries, depth, 0);
    let l = lcp_len(entries, depth);
    let node_depth = depth + l;
    let n = build_node_model(entries, depth);
    let vmatches = entries.filter(node_value_pred(node_depth));
    crate::entries::lemma_filter_members(entries, node_value_pred(node_depth));
    if vmatches.len() > 0 {
        assert(entries.contains(vmatches.last()));
        let j = choose|j: int| 0 <= j < entries.len() && entries[j] == vmatches.last();
        assert(entries[j].1.len() <= 0xffffff);
    }
    let les = entries.filter(child_pred(node_depth, 0));
    let res = entries.filter(child_pred(node_depth, 1));
    crate::entries::lemma_filter_members(entries, child_pred(node_depth, 0));
    crate::entries::lemma_filter_members(entries, child_pred(node_depth, 1));
    assert forall|i: int| 0 <= i < les.len() implies crate::node_ref::path_bits_wf(
        (#[trigger] les[i]).0,
    ) && les[i].0.len() >= node_depth + 1 && les[i].1.len() <= 0xffffff by {
        assert(entries.contains(les[i]));
        let j = choose|j: int| 0 <= j < entries.len() && entries[j] == les[i];
        assert(crate::node_ref::path_bits_wf(entries[j].0));
        assert(entries[j].1.len() <= 0xffffff);
        entries.lemma_filter_pred(child_pred(node_depth, 0), i);
    };
    assert forall|i: int| 0 <= i < res.len() implies crate::node_ref::path_bits_wf(
        (#[trigger] res[i]).0,
    ) && res[i].0.len() >= node_depth + 1 && res[i].1.len() <= 0xffffff by {
        assert(entries.contains(res[i]));
        let j = choose|j: int| 0 <= j < entries.len() && entries[j] == res[i];
        assert(crate::node_ref::path_bits_wf(entries[j].0));
        assert(entries[j].1.len() <= 0xffffff);
        entries.lemma_filter_pred(child_pred(node_depth, 1), i);
    };
    if les.len() > 0 {
        lemma_max_bits_filter(entries, child_pred(node_depth, 0));
        lemma_max_bits_ge(les);
        lemma_build_produces_built(les, node_depth + 1);
    }
    if res.len() > 0 {
        lemma_max_bits_filter(entries, child_pred(node_depth, 1));
        lemma_max_bits_ge(res);
        lemma_build_produces_built(res, node_depth + 1);
    }
    assert(crate::node_ref::path_bits_wf(n.shared_path)) by {
        assert(crate::node_ref::path_bits_wf(entries[0].0));
    };
}

/// Values short enough for the wire format's 3-byte length.
pub open spec fn encodable_kvs(kvs: Seq<(Seq<u8>, Seq<u8>)>) -> bool {
    forall|i: int| 0 <= i < kvs.len() ==> (#[trigger] kvs[i]).1.len() <= 0xffffff
}

/// The root hash that the entries determine: the hash of the canonical
/// empty node for an empty map, else the hash of the built root's
/// serialized form.
pub open spec fn root_hash_model(kvs: Seq<(Seq<u8>, Seq<u8>)>) -> Seq<u8> {
    if kvs.len() == 0 {
        empty_trie_hash_spec()@
    } else {
        metadata_spec(build_root_model(kvs)).unwrap().hash
    }
}

/// The MSB-first bit expansion of a key, one byte per bit.
pub fn key_to_bits(key: &[u8]) -> (r: Vec<u8>)
    ensures
        r@ == shared_path_serializer::key_bits_spec(key@),
{
    let mut bits: Vec<u8> = Vec::new();
    let mut i: usize = 0;
    while i < key.len()
        invariant
            i <= key@.len(),
            bits@.len() == 8 * i,
            forall|k: int|
                0 <= k < bits@.len() ==> bits@[k] == shared_path_serializer::byte_bit_spec(
                    key@[k / 8],
                    k % 8,
                ),
        decreases key@.len() - i,
    {
        let byte = key[i];
        let mut j: usize = 0;
        while j < 8
            invariant
                i < key@.len(),
                byte == key@[i as int],
                j <= 8,
                bits@.len() == 8 * i + j,
                forall|k: int|
                    0 <= k < bits@.len() ==> bits@[k] == shared_path_serializer::byte_bit_spec(
                        key@[k / 8],
                        k % 8,
                    ),
            decreases 8 - j,
        {
            bits.push(shared_path_serializer::byte_bit(byte, j));
            proof {
                assert((8 * i + j) / 8 == i && (8 * i + j) % 8 == j);
            }
            j += 1;
        }
        i += 1;
    }
    proof {
        assert(bits@ =~= shared_path_serializer::key_bits_spec(key@));
    }
    bits
}

/// The number of leading bit positions from `depth` on which every entry
/// agrees.
fn longest_common_suffix_length(entries: &Vec<(Vec<u8>, Vec<u8>)>, depth: usize) -> (r: usize)
    requires
        entries_pre(crate::entries::pairs_view(entries@), depth as int),
    ensures
        r == lcp_len(crate::entries::pairs_view(entries@), depth as int),
        forall|i: int|
            0 <= i < entries@.len() ==> depth + r <= (#[trigger] crate::entries::pairs_view(
                entries@,
            )[i]).0.len(),
{
    let ghost pv = crate::entries::pairs_view(entries@);
    let first_len = entries[0].0.len();
    let mut idx: usize = 0;
    loop
        invariant
            pv == crate::entries::pairs_view(entries@),
            entries_pre(pv, depth as int),
            first_len == pv[0].0.len(),
            depth + idx <= first_len,
            forall|m: int| 0 <= m < idx ==> #[trigger] all_agree_at(pv, depth + m),
        decreases first_len - depth - idx,
    {
        let agree = agrees_at(entries, depth + idx);
        if !agree {
            proof {
                lemma_lcp_run(pv, depth as int, 0, idx as int);
                lemma_lcp_scan_bounds(pv, depth as int, 0);
            }
            return idx;
        }
        proof {
            assert((#[trigger] pv[0]).0.len() > depth + idx);
        }
        idx += 1;
    }
}

/// Whether every entry's bit path reaches past `pos` and carries the same
/// bit there.
fn agrees_at(entries: &Vec<(Vec<u8>, Vec<u8>)>, pos: usize) -> (r: bool)
    requires
        entries@.len() > 0,
    ensures
        r == all_agree_at(crate::entries::pairs_view(entries@), pos as int),
{
    let ghost pv = crate::entries::pairs_view(entries@);
    if entries[0].0.len() <= pos {
        proof {
            assert(!((#[trigger] pv[0]).0.len() > pos));
        }
        return false;
    }
    let first_bit = entries[0].0[pos];
    let mut i: usize = 0;
    while i < entries.len()
        invariant
            pv == crate::entries::pairs_view(entries@),
            pv.len() > 0,
            pv[0].0.len() > pos,
            first_bit == pv[0].0[pos as int],
            i <= pv.len(),
            forall|j: int|
                0 <= j < i ==> (#[trigger] pv[j]).0.len() > pos
                    && pv[j].0[pos as int] == pv[0].0[pos as int],
        decreases pv.len() - i,
    {
        if entries[i].0.len() <= pos {
            proof {
                assert(!((#[trigger] pv[i as int]).0.len() > pos));
            }
            return false;
        }
        if entries[i].0[pos] != first_bit {
            proof {
                assert((#[trigger] pv[i as int]).0[pos as int] != pv[0].0[pos as int]);
            }
            return false;
        }
        i += 1;
    }
    true
}

/// Builds the canonical node for a non-empty set of (bit path, value)
/// entries at `depth`.
#[verifier::rlimit(100)]
#[verifier::spinoff_prover]
fn build_node(entries: Vec<(Vec<u8>, Vec<u8>)>, depth: usize) -> (r: TrieNode)
    requires
        entries_pre(crate::entries::pairs_view(entries@), depth as int),
    ensures
        r@ == build_node_model(crate::entries::pairs_view(entries@), depth as int),
    decreases max_bits_len(crate::entries::pairs_view(entries@)) + 1 - depth,
{
    let ghost pv = crate::entries::pairs_view(entries@);
    let first_len = entries[0].0.len();
    let shared_len = longest_common_suffix_length(&entries, depth);
    proof {
        assert(depth + shared_len <= (#[trigger] pv[0]).0.len());
    }
    let node_depth = depth + shared_len;
    let ghost nd = node_depth as int;

    let shared_path_bits = slice_to_vec(
        slice_subrange(entries[0].0.as_slice(), depth, node_depth),
    );
    let shared_path = match SharedPath::from_bits(shared_path_bits) {
        Ok(p) => p,
        Err(_) => {
            proof {
                assert(crate::node_ref::path_bits_wf(pv[0].0));
                assert(crate::node_ref::path_bits_wf(pv[0].0.subrange(depth as int, nd)));
            }
            vstd::pervasive::unreached()
        },
    };

    let mut value: Option<Vec<u8>> = None;
    let mut left_entries: Vec<(Vec<u8>, Vec<u8>)> = Vec::new();
    let mut right_entries: Vec<(Vec<u8>, Vec<u8>)> = Vec::new();

    let mut i: usize = 0;
    while i < entries.len()
        invariant
            pv == crate::entries::pairs_view(entries@),
            nd == node_depth as int,
            node_depth <= usize::MAX,
            i <= pv.len(),
            crate::entries::pairs_view(left_entries@) == pv.take(i as int).filter(
                child_pred(nd, 0),
            ),
            crate::entries::pairs_view(right_entries@) == pv.take(i as int).filter(
                child_pred(nd, 1),
            ),
            entries_pre(pv, depth as int),
            forall|j: int| 0 <= j < pv.len() ==> nd <= (#[trigger] pv[j]).0.len(),
            (match value {
                Some(v) => pv.take(i as int).filter(node_value_pred(nd)).len() > 0 && v@
                    == pv.take(i as int).filter(node_value_pred(nd)).last().1,
                None => pv.take(i as int).filter(node_value_pred(nd)).len() == 0,
            }),
        decreases pv.len() - i,
    {
        let ghost lprev = crate::entries::pairs_view(left_entries@);
        let ghost rprev = crate::entries::pairs_view(right_entries@);
        proof {
            reveal(Seq::filter);
            assert(pv.take(i as int + 1).drop_last() =~= pv.take(i as int));
            assert(pv.take(i as int + 1).last() == pv[i as int]);
        }
        let bits_len = entries[i].0.len();
        if bits_len == node_depth {
            value = Some(clone_bytes(&entries[i].1));
        } else {
            let next_bit = entries[i].0[node_depth];
            let pair = (clone_bytes(&entries[i].0), clone_bytes(&entries[i].1));
            if next_bit == 0 {
                left_entries.push(pair);
                proof {
                    assert(crate::entries::pairs_view(left_entries@) =~= lprev.push(
                        pv[i as int],
                    ));
                }
            } else {
                right_entries.push(pair);
                proof {
                    assert(pv[i as int].0[nd] == 1);
                    assert(crate::entries::pairs_view(right_entries@) =~= rprev.push(
                        pv[i as int],
                    ));
                }
            }
        }
        i += 1;
        proof {
            assert(crate::entries::pairs_view(left_entries@) =~= pv.take(i as int).filter(
                child_pred(nd, 0),
            ));
            assert(crate::entries::pairs_view(right_entries@) =~= pv.take(i as int).filter(
                child_pred(nd, 1),
            ));
        }
    }
    proof {
        assert(pv.take(pv.len() as int) =~= pv);
    }

    let ghost les = pv.filter(child_pred(nd, 0));
    let ghost res = pv.filter(child_pred(nd, 1));
    proof {
        lemma_build_children_pre(pv, depth as int, 0);
        lemma_build_children_pre(pv, depth as int, 1);
        lemma_max_bits_filter(pv, child_pred(nd, 0));
        lemma_max_bits_filter(pv, child_pred(nd, 1));
        lemma_max_bits_ge(pv);
        if les.len() > 0 {
            lemma_max_bits_ge(les);
        }
        if res.len() > 0 {
            lemma_max_bits_ge(res);
        }
    }

    let left_reference = if left_entries.is_empty() {
        NodeReference::empty()
    } else {
        let witness_len = left_entries[0].0.len();
        proof {
            assert((#[trigger] les[0]).0.len() > nd);
            assert(witness_len == les[0].0.len());
        }
        NodeReference::embedded(build_node(left_entries, node_depth + 1))
    };

    let right_reference = if right_entries.is_empty() {
        NodeReference::empty()
    } else {
        let witness_len = right_entries[0].0.len();
        proof {
            assert((#[trigger] res[0]).0.len() > nd);
            assert(witness_len == res[0].0.len());
        }
        NodeReference::embedded(build_node(right_entries, node_depth + 1))
    };

    let value_vec = match value {
        Some(v) => v,
        None => Vec::new(),
    };

    TrieNode::new(shared_path, ValueRef::inline(value_vec), left_reference, right_reference)
}

/// Builds the root node from the entries map; `None` for an empty map.
fn build_root_node(entries: &EntryMap) -> (r: Option<TrieNode>)
    requires
        entries.wf(),
    ensures
        r is Some <==> entries.kvs().len() > 0,
        r matches Some(n) ==> n@ == build_root_model(entries.kvs()),
{
    if entries.is_empty() {
        return None;
    }

    let ghost kvs = entries.kvs();
    let mut bit_entries: Vec<(Vec<u8>, Vec<u8>)> = Vec::new();
    let n = entries.len();
    let mut i: usize = 0;
    while i < n
        invariant
            entries.wf(),
            kvs == entries.kvs(),
            n == kvs.len(),
            i <= n,
            crate::entries::pairs_view(bit_entries@) == bit_kvs(kvs).take(i as int),
        decreases n - i,
    {
        let ghost prev = crate::entries::pairs_view(bit_entries@);
        let bits = key_to_bits(entries.key_at(i).as_slice());
        let val = clone_bytes(entries.value_at(i));
        bit_entries.push((bits, val));
        i += 1;
        proof {
            assert(crate::entries::pairs_view(bit_entries@) =~= prev.push(
                (bits@, val@),
            ));
            assert(bits@ == bit_kvs(kvs)[i - 1].0 && val@ == bit_kvs(kvs)[i - 1].1);
            assert(crate::entries::pairs_view(bit_entries@) =~= bit_kvs(kvs).take(i as int));
        }
    }
    proof {
        assert(bit_kvs(kvs).take(n as int) =~= bit_kvs(kvs));
        assert(entries_pre(bit_kvs(kvs), 0)) by {
            assert forall|j: int| 0 <= j < bit_kvs(kvs).len() implies crate::node_ref::path_bits_wf(
                (#[trigger] bit_kvs(kvs)[j]).0,
            ) by {
                shared_path_serializer::lemma_unpack_wf(kvs[j].0, (kvs[j].0.len() * 8) as nat);
            };
        };
    }
    Some(build_node(bit_entries, 0))
}

/// Serialized form, digest, footprint and embeddability of a node.
pub struct NodeMetadata {
    pub hash: [u8; HASH_SIZE],
    pub serialized: Vec<u8>,
    pub reference_size: u64,
    pub embeddable: bool,
}

impl View for NodeMetadata {
    type V = MetaModel;

    open spec fn view(&self) -> MetaModel {
        MetaModel {
            hash: self.hash@,
            serialized: self.serialized@,
            reference_size: self.reference_size,
            embeddable: self.embeddable,
        }
    }
}

/// `a + b`, clamped at the top of the range.
pub fn sat_add_u64(a: u64, b: u64) -> (r: u64)
    ensures
        r == clamp64(a + b),
{
    a.saturating_add(b)
}

fn compute_node_metadata(node: &TrieNode) -> (r: Result<NodeMetadata, TrieError>)
    requires
        node@.wf(),
    ensures
        r is Ok <==> metadata_spec(node@) is Some,
        r matches Ok(m) ==> metadata_spec(node@) == Some(m@),
    decreases *node, 1int,
{
    let (left_encoding, left_size) = match compute_child_encoding(&node.left) {
        Ok(p) => p,
        Err(e) => {
            return Err(e);
        },
    };
    let (right_encoding, right_size) = match compute_child_encoding(&node.right) {
        Ok(p) => p,
        Err(e) => {
            return Err(e);
        },
    };

    let children_size = if node.is_terminal() {
        None
    } else {
        Some(sat_add_u64(left_size, right_size))
    };

    let serialized = match Rskip107Codec::encode_node(
        node,
        &left_encoding,
        &right_encoding,
        children_size,
    ) {
        Ok(s) => s,
        Err(e) => {
            return Err(e);
        },
    };
    let hash = keccak256(serialized.as_slice());
    let external_value_size: u64 = if node.has_long_value() {
        node.value_length() as u64
    } else {
        0
    };

    let cs_val = match children_size {
        Some(c) => c,
        None => 0,
    };
    let reference_size = sat_add_u64(sat_add_u64(cs_val, external_value_size), serialized.len() as u64);
    proof {
        assert(reference_size == clamp64(
            cs_val + external_value_size + serialized@.len(),
        ));
    }
    let embeddable = node.is_terminal() && serialized.len() <= MAX_EMBEDDED_NODE_SIZE_IN_BYTES;

    Ok(NodeMetadata { hash, serialized, reference_size, embeddable })
}

fn compute_child_encoding(reference: &NodeReference) -> (r: Result<(ChildEncoding, u64), TrieError>)
    requires
        reference@.wf(),
    ensures
        r is Ok <==> child_meta_spec(reference@) is Some,
        r matches Ok(p) ==> child_meta_spec(reference@) == Some((p.0@, p.1)),
    decreases *reference, 0int,
{
    match reference {
        NodeReference::Empty => Ok((ChildEncoding::Empty, 0)),
        NodeReference::Embedded(child) => {
            let metadata = match compute_node_metadata(child) {
                Ok(m) => m,
                Err(e) => {
                    return Err(e);
                },
            };
            if metadata.embeddable {
                Ok((ChildEncoding::Embedded(metadata.serialized), metadata.reference_size))
            } else {
                Ok((ChildEncoding::Hashed(metadata.hash), metadata.reference_size))
            }
        },
        NodeReference::Hashed(_) => Err(TrieError::UnresolvedHashInEncode),
    }
}

impl Unitrie {
    /// All values short enough for the codec's 3-byte length field.
    pub open spec fn encodable(&self) -> bool {
        encodable_kvs(self.kvs())
    }

    /// The root hash of the canonical trie of the current entries,
    /// memoized until the next mutation.
    pub fn root_hash(&mut self) -> (r: [u8; HASH_SIZE])
        requires
            old(self).wf(),
            old(self).encodable(),
        ensures
            final(self).wf(),
            final(self).kvs() == old(self).kvs(),
            final(self).persisted_nodes() == old(self).persisted_nodes(),
            final(self).persisted_values() == old(self).persisted_values(),
            r@ == root_hash_model(old(self).kvs()),
    {
        self.current_root_hash()
    }

    pub fn current_root_hash(&mut self) -> (r: [u8; HASH_SIZE])
        requires
            old(self).wf(),
            old(self).encodable(),
        ensures
            final(self).wf(),
            final(self).kvs() == old(self).kvs(),
            final(self).persisted_nodes() == old(self).persisted_nodes(),
            final(self).persisted_values() == old(self).persisted_values(),
            r@ == root_hash_model(old(self).kvs()),
    {
        if let Some(m) = &self.materialized {
            return m.root_hash;
        }

        let root_node = build_root_node(&self.entries);
        let root_hash = match &root_node {
            None => empty_trie_hash(),
            Some(node) => {
                proof {
                    lemma_build_entries_values(self.kvs());
                    lemma_build_produces_built(bit_kvs(self.kvs()), 0);
                    lemma_built_encodable(node@);
                }
                match compute_node_metadata(node) {
                    Ok(m) => m.hash,
                    Err(_) => vstd::pervasive::unreached(),
                }
            },
        };
        self.materialized = Some(MaterializedTrie { root_node, root_hash });
        root_hash
    }
}

/// A store's two namespaces, as maps from digests to blobs.
pub struct StoreModel {
    pub nodes: Map<Seq<u8>, Seq<u8>>,
    pub values: Map<Seq<u8>, Seq<u8>>,
}

pub open spec fn store_model<T: RawStoreAdapter>(store: &T) -> StoreModel {
    StoreModel { nodes: store.nodes(), values: store.values() }
}

pub open spec fn zero_stats() -> SaveStats {
    SaveStats { nodes_visited: 0, nodes_written: 0, values_written: 0 }
}

/// Everything one persisted subtree leaves behind.
pub struct PersistOut {
    pub meta: MetaModel,
    pub store: StoreModel,
    pub nset: Set<Seq<u8>>,
    pub vset: Set<Seq<u8>>,
    pub stats: SaveStats,
}

pub struct PersistRefOut {
    pub ce: CEModel,
    pub size: u64,
    pub store: StoreModel,
    pub nset: Set<Seq<u8>>,
    pub vset: Set<Seq<u8>>,
    pub stats: SaveStats,
}

/// Writing a long inline value to the store, once per digest.
pub open spec fn persist_value_spec(v: ValueModel, st: StoreModel, vset: Set<Seq<u8>>) -> (
    StoreModel,
    Set<Seq<u8>>,
    u64,
) {
    match v {
        ValueModel::Inline(b) => if b.len() > LONG_VALUE_THRESHOLD {
            let vh = keccak256_spec(b)@;
            if !vset.contains(vh) {
                (
                    StoreModel { nodes: st.nodes, values: st.values.insert(vh, b) },
                    vset.insert(vh),
                    1u64,
                )
            } else {
                (st, vset, 0u64)
            }
        } else {
            (st, vset, 0u64)
        },
        _ => (st, vset, 0u64),
    }
}

/// Writing a node blob: the root always, anything else only when it is not
/// embeddable and its digest is new.
pub open spec fn persist_write_spec(
    hash: Seq<u8>,
    serialized: Seq<u8>,
    embeddable: bool,
    is_root: bool,
    st: StoreModel,
    nset: Set<Seq<u8>>,
) -> (StoreModel, Set<Seq<u8>>, u64) {
    if is_root {
        (
            StoreModel { nodes: st.nodes.insert(hash, serialized), values: st.values },
            nset.insert(hash),
            1u64,
        )
    } else if !embeddable {
        if !nset.contains(hash) {
            (
                StoreModel { nodes: st.nodes.insert(hash, serialized), values: st.values },
                nset.insert(hash),
                1u64,
            )
        } else {
            (st, nset.insert(hash), 0u64)
        }
    } else {
        (st, nset, 0u64)
    }
}

/// The post-order persistence walk: children first, then this node's long
/// value, then this node's blob.
pub open spec fn persist_node_spec(
    n: NodeModel,
    st: StoreModel,
    nset: Set<Seq<u8>>,
    vset: Set<Seq<u8>>,
    is_root: bool,
) -> Option<PersistOut>
    decreases n, 1int,
{
    match persist_ref_spec(n.left, st, nset, vset) {
        None => None,
        Some(lo) => match persist_ref_spec(n.right, lo.store, lo.nset, lo.vset) {
            None => None,
            Some(ro) => {
                let cs = if n.is_terminal() {
                    None
                } else {
                    Some(clamp64(lo.size + ro.size))
                };
                match encode_node_spec(n, lo.ce, ro.ce, cs) {
                    None => None,
                    Some(serialized) => {
                        let hash = keccak256_spec(serialized)@;
                        let (st3, vset3, vwrites) = persist_value_spec(n.value, ro.store, ro.vset);
                        let embeddable = n.is_terminal() && serialized.len()
                            <= MAX_EMBEDDED_NODE_SIZE_IN_BYTES;
                        let (st4, nset4, nwrites) = persist_write_spec(
                            hash,
                            serialized,
                            embeddable,
                            is_root,
                            st3,
                            ro.nset,
                        );
                        let ext: int = if n.value.is_long() {
                            n.value_length() as int
                        } else {
                            0
                        };
                        let csv: int = match cs {
                            Some(c) => c as int,
                            None => 0,
                        };
                        Some(
                            PersistOut {
                                meta: MetaModel {
                                    hash,
                                    serialized,
                                    reference_size: clamp64(csv + ext + serialized.len()),
                                    embeddable,
                                },
                                store: st4,
                                nset: nset4,
                                vset: vset3,
                                stats: SaveStats {
                                    nodes_visited: clamp64(
                                        1 + lo.stats.nodes_visited + ro.stats.nodes_visited,
                                    ),
                                    nodes_written: clamp64(
                                        lo.stats.nodes_written + ro.stats.nodes_written + nwrites,
                                    ),
                                    values_written: clamp64(
                                        lo.stats.values_written + ro.stats.values_written
                                            + vwrites,
                                    ),
                                },
                            },
                        )
                    },
                }
            },
        },
    }
}

pub open spec fn persist_ref_spec(
    r: RefModel,
    st: StoreModel,
    nset: Set<Seq<u8>>,
    vset: Set<Seq<u8>>,
) -> Option<PersistRefOut>
    decreases r, 0int,
{
    match r {
        RefModel::Empty => Some(
            PersistRefOut {
                ce: CEModel::Empty,
                size: 0,
                store: st,
                nset,
                vset,
                stats: zero_stats(),
            },
        ),
        RefModel::Embedded(c) => match persist_node_spec(*c, st, nset, vset, false) {
            Some(o) => Some(
                PersistRefOut {
                    ce: if o.meta.embeddable {
                        CEModel::Embedded(o.meta.serialized)
                    } else {
                        CEModel::Hashed(o.meta.hash)
                    },
                    size: o.meta.reference_size,
                    store: o.store,
                    nset: o.nset,
                    vset: o.vset,
                    stats: o.stats,
                },
            ),
            None => None,
        },
        RefModel::Hashed(h) => Some(
            PersistRefOut {
                ce: CEModel::Hashed(h),
                size: 0,
                store: st,
                nset: nset.insert(h),
                vset,
                stats: zero_stats(),
            },
        ),
    }
}

/// Persisting a built tree succeeds and computes the same serialized form,
/// digest, footprint and embeddability as `metadata_spec`.
pub proof fn lemma_persist_meta(
    n: NodeModel,
    st: StoreModel,
    nset: Set<Seq<u8>>,
    vset: Set<Seq<u8>>,
    is_root: bool,
)
    requires
        built_form(n),
    ensures
        persist_node_spec(n, st, nset, vset, is_root) is Some,
        persist_node_spec(n, st, nset, vset, is_root).unwrap().meta == metadata_spec(n).unwrap(),
    decreases n, 1int,
{
    lemma_built_encodable(n);
    lemma_persist_ref_meta(n.left, st, nset, vset);
    let lo = persist_ref_spec(n.left, st, nset, vset).unwrap();
    lemma_persist_ref_meta(n.right, lo.store, lo.nset, lo.vset);
}

pub proof fn lemma_persist_ref_meta(
    r: RefModel,
    st: StoreModel,
    nset: Set<Seq<u8>>,
    vset: Set<Seq<u8>>,
)
    requires
        ref_built(r),
    ensures
        persist_ref_spec(r, st, nset, vset) is Some,
        child_meta_spec(r) is Some,
        ({
            let o = persist_ref_spec(r, st, nset, vset).unwrap();
            let m = child_meta_spec(r).unwrap();
            o.ce == m.0 && o.size == m.1
        }),
    decreases r, 0int,
{
    lemma_ref_built_encodable(r);
    match r {
        RefModel::Embedded(c) => {
            lemma_persist_meta(*c, st, nset, vset, false);
        },
        _ => {},
    }
}

/// The canonical empty node and its one-byte encoding.
pub open spec fn empty_node_model() -> NodeModel {
    NodeModel {
        shared_path: Seq::<u8>::empty(),
        value: ValueModel::Empty,
        left: RefModel::Empty,
        right: RefModel::Empty,
    }
}

pub open spec fn empty_node_bytes() -> Seq<u8> {
    encode_node_spec(empty_node_model(), CEModel::Empty, CEModel::Empty, None).unwrap()
}

/// What a save leaves in the store, the dedup sets and the counters.
pub open spec fn save_spec(
    kvs: Seq<(Seq<u8>, Seq<u8>)>,
    st: StoreModel,
    nset: Set<Seq<u8>>,
    vset: Set<Seq<u8>>,
) -> (StoreModel, Set<Seq<u8>>, Set<Seq<u8>>, SaveStats) {
    if kvs.len() == 0 {
        (
            StoreModel {
                nodes: st.nodes.insert(empty_trie_hash_spec()@, empty_node_bytes()),
                values: st.values,
            },
            nset.insert(empty_trie_hash_spec()@),
            vset,
            SaveStats { nodes_visited: 1, nodes_written: 1, values_written: 0 },
        )
    } else {
        let o = persist_node_spec(build_root_model(kvs), st, nset, vset, true).unwrap();
        (o.store, o.nset, o.vset, o.stats)
    }
}

/// Bit expansion preserves value lengths and non-emptiness.
pub proof fn lemma_build_entries_values(kvs: Seq<(Seq<u8>, Seq<u8>)>)
    requires
        encodable_kvs(kvs),
        kvs.len() > 0,
    ensures
        entries_pre(bit_kvs(kvs), 0) ==> forall|i: int|
            0 <= i < bit_kvs(kvs).len() ==> (#[trigger] bit_kvs(kvs)[i]).1.len() <= 0xffffff,
        entries_pre(bit_kvs(kvs), 0),
{
    assert forall|j: int| 0 <= j < bit_kvs(kvs).len() implies crate::node_ref::path_bits_wf(
        (#[trigger] bit_kvs(kvs)[j]).0,
    ) by {
        shared_path_serializer::lemma_unpack_wf(kvs[j].0, (kvs[j].0.len() * 8) as nat);
    };
    assert forall|i: int| 0 <= i < bit_kvs(kvs).len() implies (#[trigger] bit_kvs(kvs)[i]).1.len()
        <= 0xffffff by {
        assert(kvs[i].1.len() <= 0xffffff);
    };
}


fn persist_node_recursive<T: RawStoreAdapter>(
    node: &TrieNode,
    store: &mut T,
    persisted_node_hashes: &mut SeenHashes,
    persisted_value_hashes: &mut SeenHashes,
    is_root: bool,
) -> (r: Result<(NodeMetadata, SaveStats), TrieError>)
    requires
        node@.wf(),
    ensures
        r is Ok <==> persist_node_spec(
            node@,
            store_model(old(store)),
            old(persisted_node_hashes)@,
            old(persisted_value_hashes)@,
            is_root,
        ) is Some,
        r matches Ok(p) ==> ({
            let o = persist_node_spec(
                node@,
                store_model(old(store)),
                old(persisted_node_hashes)@,
                old(persisted_value_hashes)@,
                is_root,
            ).unwrap();
            p.0@ == o.meta && store_model(final(store)) == o.store
                && final(persisted_node_hashes)@ == o.nset
                && final(persisted_value_hashes)@ == o.vset && p.1 == o.stats
        }),
    decreases *node, 1int,
{
    let (left_encoding, left_size, left_stats) = match persist_child_reference(
        &node.left,
        store,
        persisted_node_hashes,
        persisted_value_hashes,
    ) {
        Ok(t) => t,
        Err(e) => {
            return Err(e);
        },
    };
    let (right_encoding, right_size, right_stats) = match persist_child_reference(
        &node.right,
        store,
        persisted_node_hashes,
        persisted_value_hashes,
    ) {
        Ok(t) => t,
        Err(e) => {
            return Err(e);
        },
    };

    let children_size = if node.is_terminal() {
        None
    } else {
        Some(sat_add_u64(left_size, right_size))
    };
    let serialized = match Rskip107Codec::encode_node(
        node,
        &left_encoding,
        &right_encoding,
        children_size,
    ) {
        Ok(s) => s,
        Err(e) => {
            return Err(e);
        },
    };
    let hash = keccak256(serialized.as_slice());
    let mut nodes_visited = sat_add_u64(
        1,
        sat_add_u64(left_stats.nodes_visited, right_stats.nodes_visited),
    );
    let mut nodes_written = sat_add_u64(left_stats.nodes_written, right_stats.nodes_written);
    let mut values_written = sat_add_u64(left_stats.values_written, right_stats.values_written);

    if let Some(inline_value) = node.value.inline_bytes() {
        if inline_value.len() > LONG_VALUE_THRESHOLD {
            let value_hash = keccak256(inline_value.as_slice());
            if persisted_value_hashes.insert(value_hash) {
                store.save_raw_value(value_hash.as_slice(), inline_value.as_slice());
                values_written = sat_add_u64(values_written, 1);
            }
        }
    }

    let embeddable = node.is_terminal() && serialized.len() <= MAX_EMBEDDED_NODE_SIZE_IN_BYTES;
    if is_root || !embeddable {
        let should_write = if is_root {
            true
        } else {
            persisted_node_hashes.insert(hash)
        };

        if should_write {
            store.save_raw_node(hash.as_slice(), serialized.as_slice());
            nodes_written = sat_add_u64(nodes_written, 1);
        }

        if is_root {
            let _ = persisted_node_hashes.insert(hash);
        }
    }

    let external_value_size: u64 = if node.has_long_value() {
        node.value_length() as u64
    } else {
        0
    };
    let cs_val = match children_size {
        Some(c) => c,
        None => 0,
    };
    let reference_size = sat_add_u64(
        sat_add_u64(cs_val, external_value_size),
        serialized.len() as u64,
    );
    proof {
        assert(reference_size == clamp64(cs_val + external_value_size + serialized@.len()));
    }

    Ok(
        (
            NodeMetadata { hash, serialized, reference_size, embeddable },
            SaveStats { nodes_visited, nodes_written, values_written },
        ),
    )
}

fn persist_child_reference<T: RawStoreAdapter>(
    reference: &NodeReference,
    store: &mut T,
    persisted_node_hashes: &mut SeenHashes,
    persisted_value_hashes: &mut SeenHashes,
) -> (r: Result<(ChildEncoding, u64, SaveStats), TrieError>)
    requires
        reference@.wf(),
    ensures
        r is Ok <==> persist_ref_spec(
            reference@,
            store_model(old(store)),
            old(persisted_node_hashes)@,
            old(persisted_value_hashes)@,
        ) is Some,
        r matches Ok(p) ==> ({
            let o = persist_ref_spec(
                reference@,
                store_model(old(store)),
                old(persisted_node_hashes)@,
                old(persisted_value_hashes)@,
            ).unwrap();
            p.0@ == o.ce && p.1 == o.size && store_model(final(store)) == o.store
                && final(persisted_node_hashes)@ == o.nset
                && final(persisted_value_hashes)@ == o.vset && p.2 == o.stats
        }),
    decreases *reference, 0int,
{
    match reference {
        NodeReference::Empty => Ok((ChildEncoding::Empty, 0, SaveStats::new_empty())),
        NodeReference::Embedded(child) => {
            let (child_metadata, child_stats) = match persist_node_recursive(
                child,
                store,
                persisted_node_hashes,
                persisted_value_hashes,
                false,
            ) {
                Ok(t) => t,
                Err(e) => {
                    return Err(e);
                },
            };
            if child_metadata.embeddable {
                Ok(
                    (
                        ChildEncoding::Embedded(child_metadata.serialized),
                        child_metadata.reference_size,
                        child_stats,
                    ),
                )
            } else {
                Ok(
                    (
                        ChildEncoding::Hashed(child_metadata.hash),
                        child_metadata.reference_size,
                        child_stats,
                    ),
                )
            }
        },
        NodeReference::Hashed(hash) => {
            let _ = persisted_node_hashes.insert(*hash);
            Ok((ChildEncoding::Hashed(*hash), 0, SaveStats::new_empty()))
        },
    }
}

impl SaveStats {
    /// All counters zero.
    pub fn new_empty() -> (r: Self)
        ensures
            r == zero_stats(),
    {
        SaveStats { nodes_visited: 0, nodes_written: 0, values_written: 0 }
    }
}

impl Unitrie {
    /// The digests of node blobs known to be persisted.
    pub closed spec fn persisted_nodes(&self) -> Set<Seq<u8>> {
        self.persisted_node_hashes@
    }

    /// The digests of value blobs known to be persisted.
    pub closed spec fn persisted_values(&self) -> Set<Seq<u8>> {
        self.persisted_value_hashes@
    }

    pub fn save_to_store<T: RawStoreAdapter>(&mut self, store: &mut T)
        requires
            old(self).wf(),
            old(self).encodable(),
        ensures
            final(self).wf(),
            final(self).kvs() == old(self).kvs(),
            ({
                let o = save_spec(
                    old(self).kvs(),
                    store_model(old(store)),
                    old(self).persisted_nodes(),
                    old(self).persisted_values(),
                );
                store_model(final(store)) == o.0 && final(self).persisted_nodes() == o.1
                    && final(self).persisted_values() == o.2
            }),
    {
        let _ = self.save_to_store_with_stats(store);
    }

    /// Writes the root and everything it references; returns the counters.
    /// Repeated saves of an unchanged trie rewrite only the root blob.
    pub fn save_to_store_with_stats<T: RawStoreAdapter>(&mut self, store: &mut T) -> (r: SaveStats)
        requires
            old(self).wf(),
            old(self).encodable(),
        ensures
            final(self).wf(),
            final(self).kvs() == old(self).kvs(),
            ({
                let o = save_spec(
                    old(self).kvs(),
                    store_model(old(store)),
                    old(self).persisted_nodes(),
                    old(self).persisted_values(),
                );
                store_model(final(store)) == o.0 && final(self).persisted_nodes() == o.1
                    && final(self).persisted_values() == o.2 && r == o.3
            }),
    {
        if self.entries.is_empty() {
            let empty_node = TrieNode::empty();
            proof {
                assert(encode_node_spec(
                    empty_node@,
                    CEModel::Empty,
                    CEModel::Empty,
                    None,
                ) is Some);
            }
            let empty_node_serialized = match Rskip107Codec::encode_node(
                &empty_node,
                &ChildEncoding::Empty,
                &ChildEncoding::Empty,
                None,
            ) {
                Ok(s) => s,
                Err(_) => vstd::pervasive::unreached(),
            };
            let empty_hash = empty_trie_hash();
            store.save_raw_node(empty_hash.as_slice(), empty_node_serialized.as_slice());
            let _ = self.persisted_node_hashes.insert(empty_hash);
            self.materialized = Some(
                MaterializedTrie { root_node: None, root_hash: empty_hash },
            );
            return SaveStats { nodes_visited: 1, nodes_written: 1, values_written: 0 };
        }

        let root_node = match build_root_node(&self.entries) {
            Some(n) => n,
            None => vstd::pervasive::unreached(),
        };
        proof {
            lemma_build_entries_values(self.kvs());
            lemma_build_produces_built(bit_kvs(self.kvs()), 0);
            lemma_persist_meta(
                root_node@,
                store_model(store),
                self.persisted_node_hashes@,
                self.persisted_value_hashes@,
                true,
            );
            lemma_built_encodable(root_node@);
        }
        let (root_metadata, save_stats) = match persist_node_recursive(
            &root_node,
            store,
            &mut self.persisted_node_hashes,
            &mut self.persisted_value_hashes,
            true,
        ) {
            Ok(t) => t,
            Err(_) => vstd::pervasive::unreached(),
        };
        self.materialized = Some(
            MaterializedTrie { root_node: Some(root_node), root_hash: root_metadata.hash },
        );
        save_stats
    }
}


/// A resolved value: inline bytes directly, a hashed value from the store.
pub open spec fn resolve_value_spec(v: ValueModel, st: StoreModel) -> Option<Seq<u8>> {
    match v {
        ValueModel::Empty => Some(Seq::<u8>::empty()),
        ValueModel::Inline(b) => Some(b),
        ValueModel::Hashed { hash, .. } => if st.values.contains_key(hash) {
            Some(st.values[hash])
        } else {
            None
        },
    }
}

/// Codec dispatch: arity marker 2 selects the legacy form, anything else
/// must carry the current form's version bits.
pub open spec fn decode_persisted_spec(payload: Seq<u8>) -> Option<NodeModel> {
    if payload.len() > 0 && payload[0] == crate::codec_orchid::ARITY {
        crate::codec_orchid::decode_orchid_spec(payload)
    } else {
        crate::codec_rskip107::decode_node_spec(payload)
    }
}

/// What the rehydration walk accumulates.
pub struct WalkOut {
    pub entries: Map<Seq<u8>, Seq<u8>>,
    pub nset: Set<Seq<u8>>,
    pub vset: Set<Seq<u8>>,
}

/// The walk over one node: record this node's value under the accumulated
/// bit path, then walk the left and right children.
pub open spec fn walk_node_spec(
    n: NodeModel,
    prefix_bits: Seq<u8>,
    st: StoreModel,
    acc: WalkOut,
    fuel: nat,
) -> Option<WalkOut>
    decreases fuel, n, 1int,
{
    let full_bits = prefix_bits + n.shared_path;
    let step1 = if n.value.has_value() {
        let vset1 = match n.value {
            ValueModel::Hashed { hash, .. } => acc.vset.insert(hash),
            _ => acc.vset,
        };
        match resolve_value_spec(n.value, st) {
            Some(v) => Some(
                WalkOut {
                    entries: acc.entries.insert(
                        shared_path_serializer::pack_bits_spec(full_bits),
                        v,
                    ),
                    nset: acc.nset,
                    vset: vset1,
                },
            ),
            None => None,
        }
    } else {
        Some(acc)
    };
    match step1 {
        None => None,
        Some(a1) => match walk_ref_spec(n.left, full_bits.push(0), st, a1, fuel) {
            None => None,
            Some(a2) => walk_ref_spec(n.right, full_bits.push(1), st, a2, fuel),
        },
    }
}

pub open spec fn walk_ref_spec(
    r: RefModel,
    child_bits: Seq<u8>,
    st: StoreModel,
    acc: WalkOut,
    fuel: nat,
) -> Option<WalkOut>
    decreases fuel, r, 0int,
{
    match r {
        RefModel::Empty => Some(acc),
        RefModel::Embedded(c) => walk_node_spec(*c, child_bits, st, acc, fuel),
        RefModel::Hashed(h) => {
            let acc2 = WalkOut { entries: acc.entries, nset: acc.nset.insert(h), vset: acc.vset };
            if fuel == 0 {
                None
            } else if st.nodes.contains_key(h) {
                match decode_persisted_spec(st.nodes[h]) {
                    Some(child) => walk_node_spec(child, child_bits, st, acc2, (fuel - 1) as nat),
                    None => None,
                }
            } else {
                None
            }
        },
    }
}

/// The fuel handed to the walk; a store graph deeper than this is refused.
pub open spec fn walk_fuel() -> nat {
    0xffff_ffff_ffff_ffff
}

/// What rehydration from a root digest yields: the entries map and the
/// seeded dedup sets, or nothing for a malformed root or graph.
pub open spec fn rehydrate_spec(root_hash: Seq<u8>, st: StoreModel) -> Option<
    (Map<Seq<u8>, Seq<u8>>, Set<Seq<u8>>, Set<Seq<u8>>),
> {
    if root_hash.len() != HASH_SIZE {
        None
    } else if root_hash == empty_trie_hash_spec()@ {
        Some((Map::<Seq<u8>, Seq<u8>>::empty(), Set::<Seq<u8>>::empty(), Set::<Seq<u8>>::empty()))
    } else if !st.nodes.contains_key(root_hash) {
        None
    } else {
        match decode_persisted_spec(st.nodes[root_hash]) {
            None => None,
            Some(root) => {
                let acc = WalkOut {
                    entries: Map::<Seq<u8>, Seq<u8>>::empty(),
                    nset: Set::<Seq<u8>>::empty().insert(root_hash),
                    vset: Set::<Seq<u8>>::empty(),
                };
                match walk_node_spec(root, Seq::<u8>::empty(), st, acc, walk_fuel()) {
                    None => None,
                    Some(o) => Some((o.entries, o.nset, o.vset)),
                }
            },
        }
    }
}

/// Decoded nodes are well formed.
pub proof fn lemma_decode_rskip_wf(payload: Seq<u8>)
    ensures
        crate::codec_rskip107::decode_node_spec(payload) matches Some(n) ==> n.wf(),
    decreases payload.len(), 1int,
{
    if payload.len() > 0 {
        shared_path_serializer::lemma_read_spath_wf(
            payload,
            1,
            payload[0] & crate::codec_rskip107::SHARED_PREFIX_FLAG
                == crate::codec_rskip107::SHARED_PREFIX_FLAG,
        );
        match shared_path_serializer::read_spath_spec(
            payload,
            1,
            payload[0] & crate::codec_rskip107::SHARED_PREFIX_FLAG
                == crate::codec_rskip107::SHARED_PREFIX_FLAG,
        ) {
            Some((bits, off1)) => {
                lemma_dec_ref_wf(
                    payload,
                    off1,
                    payload[0] & crate::codec_rskip107::LEFT_EMBEDDED_FLAG
                        == crate::codec_rskip107::LEFT_EMBEDDED_FLAG,
                );
                let flags = payload[0];
                let lp = flags & crate::codec_rskip107::LEFT_PRESENT_FLAG
                    == crate::codec_rskip107::LEFT_PRESENT_FLAG;
                let rp = flags & crate::codec_rskip107::RIGHT_PRESENT_FLAG
                    == crate::codec_rskip107::RIGHT_PRESENT_FLAG;
                let le = flags & crate::codec_rskip107::LEFT_EMBEDDED_FLAG
                    == crate::codec_rskip107::LEFT_EMBEDDED_FLAG;
                let re = flags & crate::codec_rskip107::RIGHT_EMBEDDED_FLAG
                    == crate::codec_rskip107::RIGHT_EMBEDDED_FLAG;
                lemma_dec_ref_wf(payload, off1, le);
                let lres: Option<(RefModel, int)> = if lp {
                    crate::codec_rskip107::dec_ref_spec(payload, off1, le)
                } else {
                    Some((RefModel::Empty, off1))
                };
                match lres {
                    Some((lref, off2)) => {
                        lemma_dec_ref_wf(payload, off2, re);
                        let rres: Option<(RefModel, int)> = if rp {
                            crate::codec_rskip107::dec_ref_spec(payload, off2, re)
                        } else {
                            Some((RefModel::Empty, off2))
                        };
                        match rres {
                            Some((rref, off3)) => {
                                crate::varint::lemma_decode_spec_bounds(payload, off3);
                            },
                            None => {},
                        }
                    },
                    None => {},
                }
            },
            None => {},
        }
    }
}

pub proof fn lemma_dec_ref_wf(payload: Seq<u8>, offset: int, embedded: bool)
    ensures
        crate::codec_rskip107::dec_ref_spec(payload, offset, embedded) matches Some((r, off2))
            ==> r.wf() && offset <= off2 <= payload.len() && 0 <= offset,
    decreases payload.len(), 0int,
{
    if embedded {
        if 1 <= offset < payload.len() {
            let l = payload[offset] as int;
            if offset + 1 + l <= payload.len() {
                lemma_decode_rskip_wf(payload.subrange(offset + 1, offset + 1 + l));
            }
        }
    }
}

pub proof fn lemma_decode_orchid_wf(payload: Seq<u8>)
    ensures
        crate::codec_orchid::decode_orchid_spec(payload) matches Some(n) ==> n.wf(),
{
    if payload.len() >= 6 && payload[0] == crate::codec_orchid::ARITY {
        let sp_len = (payload[4] * 256 + payload[5]) as nat;
        let el = shared_path_serializer::celen_spec(sp_len) as int;
        if 6 + el <= payload.len() {
            shared_path_serializer::lemma_unpack_wf(payload.subrange(6, 6 + el), sp_len);
        }
    }
}

pub proof fn lemma_decode_persisted_wf(payload: Seq<u8>)
    ensures
        decode_persisted_spec(payload) matches Some(n) ==> n.wf(),
{
    lemma_decode_rskip_wf(payload);
    lemma_decode_orchid_wf(payload);
}

/// Dispatches to the legacy decoder for arity-marked payloads, else to the
/// current decoder.
pub fn decode_persisted_node(payload: &[u8]) -> (r: Result<TrieNode, TrieError>)
    ensures
        r is Ok <==> decode_persisted_spec(payload@) is Some,
        r matches Ok(n) ==> decode_persisted_spec(payload@) == Some(n@) && n@.wf(),
{
    proof {
        lemma_decode_persisted_wf(payload@);
    }
    if crate::codec_orchid::OrchidCodec::is_orchid_message(payload) {
        return crate::codec_orchid::OrchidCodec::decode_node(payload);
    }

    Rskip107Codec::decode_node(payload)
}

fn resolve_node_value<T: RawStoreAdapter>(value: &ValueRef, store: &mut T) -> (r: Result<
    Vec<u8>,
    TrieError,
>)
    ensures
        store_model(final(store)) == store_model(old(store)),
        r is Ok <==> resolve_value_spec(value@, store_model(old(store))) is Some,
        r matches Ok(v) ==> resolve_value_spec(value@, store_model(old(store))) == Some(v@),
        r is Err ==> r == Err::<Vec<u8>, TrieError>(TrieError::MissingStoreEntry),
{
    match value {
        ValueRef::Empty => Ok(Vec::new()),
        ValueRef::Inline(bytes) => Ok(clone_bytes(bytes)),
        ValueRef::Hashed { hash, .. } => match store.load_raw_value(hash.as_slice()) {
            Some(v) => Ok(v),
            None => Err(TrieError::MissingStoreEntry),
        },
    }
}

fn collect_entries_from_node<T: RawStoreAdapter>(
    node: &TrieNode,
    prefix_bits: Vec<u8>,
    store: &mut T,
    entries: &mut EntryMap,
    persisted_node_hashes: &mut SeenHashes,
    persisted_value_hashes: &mut SeenHashes,
    fuel: u64,
) -> (r: Result<(), TrieError>)
    requires
        node@.wf(),
        crate::node_ref::path_bits_wf(prefix_bits@),
        old(entries).wf(),
    ensures
        store_model(final(store)) == store_model(old(store)),
        final(entries).wf(),
        r is Ok <==> walk_node_spec(
            node@,
            prefix_bits@,
            store_model(old(store)),
            (WalkOut {
                entries: old(entries).as_map(),
                nset: old(persisted_node_hashes)@,
                vset: old(persisted_value_hashes)@,
            }),
            fuel as nat,
        ) is Some,
        r is Ok ==> ({
            let o = walk_node_spec(
                node@,
                prefix_bits@,
                store_model(old(store)),
                (WalkOut {
                    entries: old(entries).as_map(),
                    nset: old(persisted_node_hashes)@,
                    vset: old(persisted_value_hashes)@,
                }),
                fuel as nat,
            ).unwrap();
            final(entries).as_map() == o.entries && final(persisted_node_hashes)@ == o.nset
                && final(persisted_value_hashes)@ == o.vset
        }),
    decreases fuel, *node, 1int,
{
    let mut full_bits = prefix_bits;
    let shared = slice_to_vec(node.shared_path.as_bits());
    crate::varint::append_bytes(&mut full_bits, &shared);

    if node.has_value() {
        if let ValueRef::Hashed { hash, .. } = &node.value {
            let _ = persisted_value_hashes.insert(*hash);
        }
        let value = match resolve_node_value(&node.value, store) {
            Ok(v) => v,
            Err(e) => {
                return Err(e);
            },
        };
        let key = shared_path_serializer::encode(full_bits.as_slice());
        entries.insert(key, value);
    }

    match collect_child_entries(
        &node.left,
        0,
        &full_bits,
        store,
        entries,
        persisted_node_hashes,
        persisted_value_hashes,
        fuel,
    ) {
        Ok(()) => (),
        Err(e) => {
            return Err(e);
        },
    }
    collect_child_entries(
        &node.right,
        1,
        &full_bits,
        store,
        entries,
        persisted_node_hashes,
        persisted_value_hashes,
        fuel,
    )
}

fn collect_child_entries<T: RawStoreAdapter>(
    reference: &NodeReference,
    implicit_bit: u8,
    parent_bits: &Vec<u8>,
    store: &mut T,
    entries: &mut EntryMap,
    persisted_node_hashes: &mut SeenHashes,
    persisted_value_hashes: &mut SeenHashes,
    fuel: u64,
) -> (r: Result<(), TrieError>)
    requires
        reference@.wf(),
        implicit_bit <= 1,
        crate::node_ref::path_bits_wf(parent_bits@),
        old(entries).wf(),
    ensures
        store_model(final(store)) == store_model(old(store)),
        final(entries).wf(),
        r is Ok <==> walk_ref_spec(
            reference@,
            parent_bits@.push(implicit_bit),
            store_model(old(store)),
            (WalkOut {
                entries: old(entries).as_map(),
                nset: old(persisted_node_hashes)@,
                vset: old(persisted_value_hashes)@,
            }),
            fuel as nat,
        ) is Some,
        r is Ok ==> ({
            let o = walk_ref_spec(
                reference@,
                parent_bits@.push(implicit_bit),
                store_model(old(store)),
                (WalkOut {
                    entries: old(entries).as_map(),
                    nset: old(persisted_node_hashes)@,
                    vset: old(persisted_value_hashes)@,
                }),
                fuel as nat,
            ).unwrap();
            final(entries).as_map() == o.entries && final(persisted_node_hashes)@ == o.nset
                && final(persisted_value_hashes)@ == o.vset
        }),
    decreases fuel, *reference, 0int,
{
    match reference {
        NodeReference::Empty => Ok(()),
        NodeReference::Embedded(node) => {
            let mut child_prefix = clone_bytes(parent_bits);
            child_prefix.push(implicit_bit);
            collect_entries_from_node(
                node,
                child_prefix,
                store,
                entries,
                persisted_node_hashes,
                persisted_value_hashes,
                fuel,
            )
        },
        NodeReference::Hashed(hash) => {
            let _ = persisted_node_hashes.insert(*hash);
            if fuel == 0 {
                return Err(TrieError::StoreGraphTooDeep);
            }
            let payload = match store.load_raw_node(hash.as_slice()) {
                Some(p) => p,
                None => {
                    return Err(TrieError::MissingStoreEntry);
                },
            };
            let child = match decode_persisted_node(payload.as_slice()) {
                Ok(n) => n,
                Err(e) => {
                    return Err(e);
                },
            };
            let mut child_prefix = clone_bytes(parent_bits);
            child_prefix.push(implicit_bit);
            collect_entries_from_node(
                &child,
                child_prefix,
                store,
                entries,
                persisted_node_hashes,
                persisted_value_hashes,
                fuel - 1,
            )
        },
    }
}

impl Unitrie {
    /// Rebuilds the entries map persisted under `root_hash`, seeding the
    /// dedup sets with everything the walk touched.
    pub fn from_persisted_root<T: RawStoreAdapter>(root_hash: &[u8], store: &mut T) -> (r: Result<
        Self,
        TrieError,
    >)
        ensures
            store_model(final(store)) == store_model(old(store)),
            r is Ok <==> rehydrate_spec(root_hash@, store_model(old(store))) is Some,
            r matches Ok(t) ==> ({
                let o = rehydrate_spec(root_hash@, store_model(old(store))).unwrap();
                t.wf() && t.as_map() == o.0 && t.persisted_nodes() == o.1 && t.persisted_values()
                    == o.2
            }),
            root_hash@.len() != HASH_SIZE ==> r == Err::<Self, TrieError>(
                TrieError::InvalidRootLength,
            ),
    {
        if root_hash.len() != HASH_SIZE {
            return Err(TrieError::InvalidRootLength);
        }

        let empty_hash = empty_trie_hash();
        if bytes_eq(root_hash, empty_hash.as_slice()) {
            return Ok(Self::new());
        }

        let root_payload = match store.load_raw_node(root_hash) {
            Some(p) => p,
            None => {
                return Err(TrieError::MissingStoreEntry);
            },
        };
        let root_node = match decode_persisted_node(root_payload.as_slice()) {
            Ok(n) => n,
            Err(e) => {
                return Err(e);
            },
        };

        let mut persisted_node_hashes = SeenHashes::new();
        let mut fixed_root = [0u8; HASH_SIZE];
        let mut i: usize = 0;
        while i < HASH_SIZE
            invariant
                root_hash@.len() == 32,
                i <= 32,
                forall|k: int| 0 <= k < i ==> fixed_root@[k] == root_hash@[k],
            decreases 32 - i,
        {
            fixed_root[i] = root_hash[i];
            i += 1;
        }
        proof {
            assert(fixed_root@ =~= root_hash@);
        }
        let _ = persisted_node_hashes.insert(fixed_root);
        let mut persisted_value_hashes = SeenHashes::new();
        let mut entries = EntryMap::new();
        let prefix: Vec<u8> = Vec::new();
        let ghost spec_acc = (WalkOut {
            entries: Map::<Seq<u8>, Seq<u8>>::empty(),
            nset: Set::<Seq<u8>>::empty().insert(root_hash@),
            vset: Set::<Seq<u8>>::empty(),
        });
        proof {
            assert(Set::<Seq<u8>>::empty().insert(root_hash@) =~= persisted_node_hashes@);
            assert(persisted_value_hashes@ =~= Set::<Seq<u8>>::empty());
            assert(prefix@ =~= Seq::<u8>::empty());
            assert(spec_acc == (WalkOut {
                entries: entries.as_map(),
                nset: persisted_node_hashes@,
                vset: persisted_value_hashes@,
            }));
            assert(u64::MAX as nat == walk_fuel());
        }
        match collect_entries_from_node(
            &root_node,
            prefix,
            store,
            &mut entries,
            &mut persisted_node_hashes,
            &mut persisted_value_hashes,
            u64::MAX,
        ) {
            Ok(()) => (),
            Err(e) => {
                return Err(e);
            },
        }

        Ok(
            Unitrie {
                entries,
                materialized: None,
                persisted_node_hashes,
                persisted_value_hashes,
            },
        )
    }
}


/// A mapping whose values all fit the codec's 3-byte length field.
pub open spec fn encodable_map(m: Map<Seq<u8>, Seq<u8>>) -> bool {
    forall|k: Seq<u8>| #[trigger] m.contains_key(k) ==> m[k].len() <= 0xffffff
}

/// For a sorted entries vector the two readings agree.
pub proof fn lemma_encodable_map(kvs: Seq<(Seq<u8>, Seq<u8>)>)
    requires
        sorted_kvs(kvs),
    ensures
        encodable_kvs(kvs) == encodable_map(map_of(kvs)),
{
    crate::entries::lemma_map_of_contains(kvs);
    crate::entries::lemma_map_of_index(kvs);
    if encodable_kvs(kvs) {
        assert forall|k: Seq<u8>| #[trigger] map_of(kvs).contains_key(k) implies map_of(kvs)[k].len()
            <= 0xffffff by {
            let i = choose|i: int| 0 <= i < kvs.len() && (#[trigger] kvs[i]).0 == k;
            assert(kvs[i].1.len() <= 0xffffff);
            assert(map_of(kvs)[kvs[i].0] == kvs[i].1);
        };
    }
    if encodable_map(map_of(kvs)) {
        assert forall|i: int| 0 <= i < kvs.len() implies (#[trigger] kvs[i]).1.len()
            <= 0xffffff by {
            assert(map_of(kvs).contains_key(kvs[i].0));
            assert(map_of(kvs)[kvs[i].0] == kvs[i].1);
        };
    }
}

/// For a well-formed trie the vector-level and map-level readings of the
/// value-size bound agree.
pub proof fn lemma_encodable_map_of(t: Unitrie)
    requires
        t.wf(),
    ensures
        t.encodable() == encodable_map(t.as_map()),
{
    lemma_encodable_map(t.kvs());
}

impl Unitrie {
    /// Whether every stored value fits the wire format's length field.
    pub fn check_encodable(&self) -> (r: bool)
        requires
            self.wf(),
        ensures
            r == self.encodable(),
    {
        let mut i: usize = 0;
        let n = self.entries.len();
        while i < n
            invariant
                self.wf(),
                n == self.kvs().len(),
                i <= n,
                forall|j: int| 0 <= j < i ==> (#[trigger] self.kvs()[j]).1.len() <= 0xffffff,
            decreases n - i,
        {
            if self.entries.value_at(i).len() > 0xffffff {
                return false;
            }
            i += 1;
        }
        true
    }
}


/// Insertion-order independence: two tries holding the same mapping have
/// the same root hash, whatever order the pairs went in by.
pub proof fn lemma_root_hash_of_contents(t1: Unitrie, t2: Unitrie)
    requires
        t1.wf(),
        t2.wf(),
        t1.as_map() == t2.as_map(),
    ensures
        root_hash_model(t1.kvs()) == root_hash_model(t2.kvs()),
{
    crate::entries::lemma_sorted_canonical(t1.kvs(), t2.kvs());
}

/// Deleting an absent key does not move the root hash.
pub proof fn lemma_delete_absent_keeps_root(before: Unitrie, after: Unitrie, key: Seq<u8>)
    requires
        before.wf(),
        after.wf(),
        !before.as_map().contains_key(key),
        after.as_map() == before.as_map().remove(key),
    ensures
        root_hash_model(after.kvs()) == root_hash_model(before.kvs()),
{
    assert(before.as_map().remove(key) =~= before.as_map());
    crate::entries::lemma_sorted_canonical(after.kvs(), before.kvs());
}

/// A trie holding nothing has the canonical empty root hash, the digest
/// of the single byte 0x80.
pub proof fn lemma_empty_root_constant(t: Unitrie)
    requires
        t.wf(),
        t.as_map() == Map::<Seq<u8>, Seq<u8>>::empty(),
    ensures
        root_hash_model(t.kvs()) == keccak256_spec(seq![0x80u8])@,
{
    crate::entries::lemma_map_of_dom(t.kvs());
    assert(Map::<Seq<u8>, Seq<u8>>::empty().dom() =~= Set::<Seq<u8>>::empty());
}

/// The keys that `collect_keys` reports: exactly the stored keys of the
/// requested length (every key for the sentinel), in ascending order.
pub proof fn lemma_collect_keys_exact(t: Unitrie, byte_size: nat)
    requires
        t.wf(),
    ensures
        forall|i: int, j: int|
            0 <= i < j < collect_keys_model(t.kvs(), byte_size).len() ==> lex_lt(
                #[trigger] collect_keys_model(t.kvs(), byte_size)[i],
                #[trigger] collect_keys_model(t.kvs(), byte_size)[j],
            ),
        forall|i: int|
            0 <= i < collect_keys_model(t.kvs(), byte_size).len() ==> t.as_map().contains_key(
                #[trigger] collect_keys_model(t.kvs(), byte_size)[i],
            ) && (byte_size == 0x7fffffff || collect_keys_model(t.kvs(), byte_size)[i].len()
                == byte_size),
        forall|k: Seq<u8>|
            #[trigger] t.as_map().contains_key(k) && (byte_size == 0x7fffffff || k.len()
                == byte_size) ==> collect_keys_model(t.kvs(), byte_size).contains(k),
{
    let kvs = t.kvs();
    let pred = collect_pred(byte_size);
    let f = kvs.filter(pred);
    let model = collect_keys_model(kvs, byte_size);
    crate::entries::lemma_filter_sorted(kvs, pred);
    crate::entries::lemma_map_of_contains(kvs);
    crate::entries::lemma_map_of_index(kvs);
    assert forall|i: int| 0 <= i < model.len() implies t.as_map().contains_key(
        #[trigger] model[i],
    ) && (byte_size == 0x7fffffff || model[i].len() == byte_size) by {
        assert(model[i] == f[i].0);
        assert(kvs.contains(f[i]));
        let j = choose|j: int| 0 <= j < kvs.len() && kvs[j] == f[i];
        assert(kvs[j].0 == model[i]);
        kvs.lemma_filter_pred(pred, i);
    };
    assert forall|k: Seq<u8>|
        #[trigger] t.as_map().contains_key(k) && (byte_size == 0x7fffffff || k.len()
            == byte_size) implies model.contains(k) by {
        let j = choose|j: int| 0 <= j < kvs.len() && (#[trigger] kvs[j]).0 == k;
        assert(pred(kvs[j]));
        kvs.lemma_filter_contains(pred, j);
        assert(f.contains(kvs[j]));
        let i = choose|i: int| 0 <= i < f.len() && f[i] == kvs[j];
        assert(model[i] == k);
    };
    assert forall|i: int, j: int| 0 <= i < j < model.len() implies lex_lt(
        #[trigger] model[i],
        #[trigger] model[j],
    ) by {
        assert(lex_lt(f[i].0, f[j].0));
    };
}

/// The long-value boundary: an inline value rides in the node's encoding
/// up to 32 bytes; from 33 bytes on it is written to the value namespace
/// under its digest instead.
pub proof fn lemma_long_value_boundary(v: Seq<u8>, st: StoreModel, vset: Set<Seq<u8>>)
    requires
        !vset.contains(keccak256_spec(v)@),
    ensures
        (ValueModel::Inline(v)).is_long() <==> v.len() > 32,
        v.len() > 32 ==> persist_value_spec(ValueModel::Inline(v), st, vset).0.values
            == st.values.insert(keccak256_spec(v)@, v),
        v.len() <= 32 ==> persist_value_spec(ValueModel::Inline(v), st, vset).0.values
            == st.values,
{
}

/// The embedding boundary: during persistence a parent records a child as
/// embedded bytes exactly when the child is terminal and its serialized
/// form fits in 44 bytes; otherwise the child is recorded by digest.
pub proof fn lemma_embedding_boundary(
    c: NodeModel,
    st: StoreModel,
    nset: Set<Seq<u8>>,
    vset: Set<Seq<u8>>,
)
    requires
        built_form(c),
    ensures
        persist_ref_spec(RefModel::Embedded(Box::new(c)), st, nset, vset) is Some,
        metadata_spec(c) is Some,
        ({
            let o = persist_ref_spec(RefModel::Embedded(Box::new(c)), st, nset, vset).unwrap();
            let m = metadata_spec(c).unwrap();
            ((c.is_terminal() && m.serialized.len() <= 44) ==> o.ce == CEModel::Embedded(
                m.serialized,
            )) && (!(c.is_terminal() && m.serialized.len() <= 44) ==> o.ce == CEModel::Hashed(
                m.hash,
            ))
        }),
{
    lemma_built_encodable(c);
    lemma_persist_meta(c, st, nset, vset, false);
    lemma_persist_ref_meta(RefModel::Embedded(Box::new(c)), st, nset, vset);
}


/// After a put of a non-empty value the key reads back with exactly that
/// value, and with its length.
pub proof fn lemma_put_get_round_trip(
    before: Unitrie,
    after: Unitrie,
    key: Seq<u8>,
    value: Seq<u8>,
)
    requires
        value.len() > 0,
        after.as_map() == before.as_map().insert(key, value),
    ensures
        after.as_map().contains_key(key),
        after.as_map()[key] == value,
        after.as_map()[key].len() == value.len(),
{
}

/// Putting the empty value is a delete: the key is absent afterwards.
pub proof fn lemma_empty_put_is_delete(before: Unitrie, after: Unitrie, key: Seq<u8>)
    requires
        after.as_map() == before.as_map().remove(key),
    ensures
        !after.as_map().contains_key(key),
{
}

/// After a recursive delete the remaining keys are exactly the prior keys
/// that do not start with the prefix, with their values untouched.
pub proof fn lemma_delete_recursive_keys(before: Unitrie, after: Unitrie, prefix: Seq<u8>)
    requires
        after.as_map() == prefix_removed(before.as_map(), prefix),
    ensures
        forall|k: Seq<u8>|
            #[trigger] after.as_map().contains_key(k) <==> before.as_map().contains_key(k)
                && !prefix.is_prefix_of(k),
        forall|k: Seq<u8>|
            #[trigger] after.as_map().contains_key(k) ==> after.as_map()[k]
                == before.as_map()[k],
{
}


/// Everything a subtree would write is already recorded in the dedup sets.
pub open spec fn covered(n: NodeModel, nset: Set<Seq<u8>>, vset: Set<Seq<u8>>) -> bool
    decreases n, 1int,
{
    &&& (match n.value {
        ValueModel::Inline(v) => v.len() > LONG_VALUE_THRESHOLD ==> vset.contains(
            keccak256_spec(v)@,
        ),
        _ => true,
    })
    &&& (!metadata_spec(n).unwrap().embeddable ==> nset.contains(
        metadata_spec(n).unwrap().hash,
    ))
    &&& ref_covered(n.left, nset, vset)
    &&& ref_covered(n.right, nset, vset)
}

pub open spec fn ref_covered(r: RefModel, nset: Set<Seq<u8>>, vset: Set<Seq<u8>>) -> bool
    decreases r, 0int,
{
    match r {
        RefModel::Empty => true,
        RefModel::Embedded(c) => covered(*c, nset, vset),
        RefModel::Hashed(h) => nset.contains(h),
    }
}

/// Coverage survives growth of the dedup sets.
proof fn lemma_covered_mono(
    n: NodeModel,
    ns: Set<Seq<u8>>,
    vs: Set<Seq<u8>>,
    ns2: Set<Seq<u8>>,
    vs2: Set<Seq<u8>>,
)
    requires
        covered(n, ns, vs),
        ns.subset_of(ns2),
        vs.subset_of(vs2),
    ensures
        covered(n, ns2, vs2),
    decreases n, 1int,
{
    lemma_ref_covered_mono(n.left, ns, vs, ns2, vs2);
    lemma_ref_covered_mono(n.right, ns, vs, ns2, vs2);
}

proof fn lemma_ref_covered_mono(
    r: RefModel,
    ns: Set<Seq<u8>>,
    vs: Set<Seq<u8>>,
    ns2: Set<Seq<u8>>,
    vs2: Set<Seq<u8>>,
)
    requires
        ref_covered(r, ns, vs),
        ns.subset_of(ns2),
        vs.subset_of(vs2),
    ensures
        ref_covered(r, ns2, vs2),
    decreases r, 0int,
{
    match r {
        RefModel::Embedded(c) => {
            lemma_covered_mono(*c, ns, vs, ns2, vs2);
        },
        _ => {},
    }
}

/// The dedup sets only grow across a persistence walk.
proof fn lemma_persist_grows(
    n: NodeModel,
    st: StoreModel,
    ns: Set<Seq<u8>>,
    vs: Set<Seq<u8>>,
    is_root: bool,
)
    requires
        built_form(n),
    ensures
        ({
            let o = persist_node_spec(n, st, ns, vs, is_root).unwrap();
            persist_node_spec(n, st, ns, vs, is_root) is Some && ns.subset_of(o.nset)
                && vs.subset_of(o.vset)
        }),
    decreases n, 1int,
{
    lemma_persist_meta(n, st, ns, vs, is_root);
    lemma_persist_ref_grows(n.left, st, ns, vs);
    let lo = persist_ref_spec(n.left, st, ns, vs).unwrap();
    lemma_persist_ref_grows(n.right, lo.store, lo.nset, lo.vset);
}

proof fn lemma_persist_ref_grows(
    r: RefModel,
    st: StoreModel,
    ns: Set<Seq<u8>>,
    vs: Set<Seq<u8>>,
)
    requires
        ref_built(r),
    ensures
        ({
            let o = persist_ref_spec(r, st, ns, vs).unwrap();
            persist_ref_spec(r, st, ns, vs) is Some && ns.subset_of(o.nset) && vs.subset_of(
                o.vset,
            )
        }),
    decreases r, 0int,
{
    lemma_persist_ref_meta(r, st, ns, vs);
    match r {
        RefModel::Embedded(c) => {
            lemma_persist_grows(*c, st, ns, vs, false);
        },
        _ => {},
    }
}

/// After a persistence walk the subtree is covered by the output sets.
proof fn lemma_persist_covers(
    n: NodeModel,
    st: StoreModel,
    ns: Set<Seq<u8>>,
    vs: Set<Seq<u8>>,
    is_root: bool,
)
    requires
        built_form(n),
    ensures
        ({
            let o = persist_node_spec(n, st, ns, vs, is_root).unwrap();
            covered(n, o.nset, o.vset) && (is_root ==> o.nset.contains(
                metadata_spec(n).unwrap().hash,
            ))
        }),
    decreases n, 1int,
{
    lemma_persist_meta(n, st, ns, vs, is_root);
    let lo = persist_ref_spec(n.left, st, ns, vs).unwrap();
    let ro = persist_ref_spec(n.right, lo.store, lo.nset, lo.vset).unwrap();
    let o = persist_node_spec(n, st, ns, vs, is_root).unwrap();
    lemma_persist_ref_covers(n.left, st, ns, vs);
    lemma_persist_ref_grows(n.left, st, ns, vs);
    lemma_persist_ref_covers(n.right, lo.store, lo.nset, lo.vset);
    lemma_persist_ref_grows(n.right, lo.store, lo.nset, lo.vset);
    assert(ro.nset.subset_of(o.nset) && ro.vset.subset_of(o.vset));
    lemma_ref_covered_mono(n.left, lo.nset, lo.vset, o.nset, o.vset);
    lemma_ref_covered_mono(n.right, ro.nset, ro.vset, o.nset, o.vset);
}

proof fn lemma_persist_ref_covers(
    r: RefModel,
    st: StoreModel,
    ns: Set<Seq<u8>>,
    vs: Set<Seq<u8>>,
)
    requires
        ref_built(r),
    ensures
        ({
            let o = persist_ref_spec(r, st, ns, vs).unwrap();
            ref_covered(r, o.nset, o.vset)
        }),
    decreases r, 0int,
{
    lemma_persist_ref_meta(r, st, ns, vs);
    match r {
        RefModel::Embedded(c) => {
            lemma_persist_covers(*c, st, ns, vs, false);
            lemma_persist_meta(*c, st, ns, vs, false);
            let co = persist_node_spec(*c, st, ns, vs, false).unwrap();
            if !co.meta.embeddable {
                assert(co.nset.contains(co.meta.hash));
            }
        },
        _ => {},
    }
}

/// A persistence walk over an already covered subtree writes nothing and
/// leaves the dedup sets as they are; only a root call re-inserts the
/// root blob.
proof fn lemma_persist_noop(
    n: NodeModel,
    st: StoreModel,
    ns: Set<Seq<u8>>,
    vs: Set<Seq<u8>>,
    is_root: bool,
)
    requires
        built_form(n),
        covered(n, ns, vs),
    ensures
        ({
            let o = persist_node_spec(n, st, ns, vs, is_root).unwrap();
            let m = metadata_spec(n).unwrap();
            o.vset == vs && (if is_root {
                o.store == (StoreModel {
                    nodes: st.nodes.insert(m.hash, m.serialized),
                    values: st.values,
                }) && o.nset == ns.insert(m.hash)
            } else {
                o.store == st && o.nset == ns
            })
        }),
    decreases n, 1int,
{
    lemma_persist_meta(n, st, ns, vs, is_root);
    let m = metadata_spec(n).unwrap();
    lemma_persist_ref_noop(n.left, st, ns, vs);
    let lo = persist_ref_spec(n.left, st, ns, vs).unwrap();
    lemma_persist_ref_noop(n.right, lo.store, lo.nset, lo.vset);
    let ro = persist_ref_spec(n.right, lo.store, lo.nset, lo.vset).unwrap();
    match n.value {
        ValueModel::Inline(v) => {
            if v.len() > LONG_VALUE_THRESHOLD {
                assert(ro.vset.contains(keccak256_spec(v)@));
            }
        },
        _ => {},
    }
    if !is_root && !m.embeddable {
        assert(ns.contains(m.hash));
        assert(ns.insert(m.hash) =~= ns);
    }
}

proof fn lemma_persist_ref_noop(
    r: RefModel,
    st: StoreModel,
    ns: Set<Seq<u8>>,
    vs: Set<Seq<u8>>,
)
    requires
        ref_built(r),
        ref_covered(r, ns, vs),
    ensures
        ({
            let o = persist_ref_spec(r, st, ns, vs).unwrap();
            o.store == st && o.nset == ns && o.vset == vs
        }),
    decreases r, 0int,
{
    lemma_persist_ref_meta(r, st, ns, vs);
    match r {
        RefModel::Embedded(c) => {
            lemma_persist_noop(*c, st, ns, vs, false);
        },
        RefModel::Hashed(h) => {
            assert(ns.insert(h) =~= ns);
        },
        _ => {},
    }
}

/// Save idempotence: a second save with no intervening mutation leaves the
/// store, and the dedup sets, exactly as the first left them — the root
/// blob is rewritten with identical bytes, and nothing else is touched.
pub proof fn lemma_save_idempotent(
    kvs: Seq<(Seq<u8>, Seq<u8>)>,
    st0: StoreModel,
    ns0: Set<Seq<u8>>,
    vs0: Set<Seq<u8>>,
)
    requires
        encodable_kvs(kvs),
    ensures
        ({
            let o1 = save_spec(kvs, st0, ns0, vs0);
            let o2 = save_spec(kvs, o1.0, o1.1, o1.2);
            o2.0 == o1.0 && o2.1 == o1.1 && o2.2 == o1.2
        }),
{
    let o1 = save_spec(kvs, st0, ns0, vs0);
    if kvs.len() == 0 {
        let eh = empty_trie_hash_spec()@;
        let eb = empty_node_bytes();
        assert(o1.0.nodes.insert(eh, eb) =~= o1.0.nodes);
        assert(o1.1.insert(eh) =~= o1.1);
    } else {
        let root = build_root_model(kvs);
        lemma_build_entries_values(kvs);
        lemma_build_produces_built(bit_kvs(kvs), 0);
        lemma_persist_meta(root, st0, ns0, vs0, true);
        lemma_persist_covers(root, st0, ns0, vs0, true);
        let p1 = persist_node_spec(root, st0, ns0, vs0, true).unwrap();
        let m = metadata_spec(root).unwrap();
        lemma_persist_meta(root, p1.store, p1.nset, p1.vset, true);
        lemma_persist_noop(root, p1.store, p1.nset, p1.vset, true);
        assert(p1.store.nodes.contains_key(m.hash) && p1.store.nodes[m.hash] == m.serialized)
            by {
            let lo = persist_ref_spec(root.left, st0, ns0, vs0).unwrap();
            let ro = persist_ref_spec(root.right, lo.store, lo.nset, lo.vset).unwrap();
            let (st3, vset3, vwrites) = persist_value_spec(root.value, ro.store, ro.vset);
        };
        assert(p1.store.nodes.insert(m.hash, m.serialized) =~= p1.store.nodes);
        assert(p1.nset.insert(m.hash) =~= p1.nset);
    }
}


/// Whether `tail` is the decoded storage key of some stored cell of the
/// account: a stored key starts with the account's prefix, reaches at
/// least ten bytes past it, and ends in `tail` after those ten bytes.
pub open spec fn is_storage_tail(m: Map<Seq<u8>, Seq<u8>>, addr: Seq<u8>, tail: Seq<u8>) -> bool {
    exists|k: Seq<u8>|
        #[trigger] m.contains_key(k) && storage_prefix_model(addr).is_prefix_of(k) && k.len()
            >= storage_prefix_model(addr).len() + SECURE_KEY_SIZE && tail == k.skip(
            storage_prefix_model(addr).len() + SECURE_KEY_SIZE as int,
        )
}

/// The storage keys reported for an account are exactly the decoded
/// tails of the stored cells under the account's prefix.
pub proof fn lemma_storage_keys_exact(t: Unitrie, addr: Seq<u8>)
    requires
        t.wf(),
    ensures
        forall|i: int|
            #![trigger storage_keys_model(t.kvs(), addr)[i]]
            0 <= i < storage_keys_model(t.kvs(), addr).len() ==> is_storage_tail(
                t.as_map(),
                addr,
                storage_keys_model(t.kvs(), addr)[i],
            ),
        forall|k: Seq<u8>|
            #[trigger] t.as_map().contains_key(k) && storage_prefix_model(addr).is_prefix_of(k)
                && k.len() >= storage_prefix_model(addr).len() + SECURE_KEY_SIZE
                ==> storage_keys_model(t.kvs(), addr).contains(
                k.skip(storage_prefix_model(addr).len() + SECURE_KEY_SIZE as int),
            ),
{
    let kvs = t.kvs();
    let prefix = storage_prefix_model(addr);
    let pred = storage_key_pred(prefix);
    let f = kvs.filter(pred);
    let cut = prefix.len() + SECURE_KEY_SIZE as int;
    let model = storage_keys_model(kvs, addr);
    crate::entries::lemma_filter_sorted(kvs, pred);
    crate::entries::lemma_map_of_contains(kvs);
    crate::entries::lemma_map_of_index(kvs);
    assert forall|i: int|
        #![trigger storage_keys_model(t.kvs(), addr)[i]]
        0 <= i < storage_keys_model(t.kvs(), addr).len() implies is_storage_tail(
        t.as_map(),
        addr,
        storage_keys_model(t.kvs(), addr)[i],
    ) by {
        assert(kvs.contains(f[i]));
        let j = choose|j: int| 0 <= j < kvs.len() && kvs[j] == f[i];
        kvs.lemma_filter_pred(pred, i);
        let k = f[i].0;
        assert(t.as_map().contains_key(k) && prefix.is_prefix_of(k) && k.len() >= prefix.len()
            + SECURE_KEY_SIZE && model[i] == k.skip(cut));
    };
    assert forall|k: Seq<u8>|
        #[trigger] t.as_map().contains_key(k) && storage_prefix_model(addr).is_prefix_of(k)
            && k.len() >= storage_prefix_model(addr).len() + SECURE_KEY_SIZE implies
        storage_keys_model(t.kvs(), addr).contains(
        k.skip(storage_prefix_model(addr).len() + SECURE_KEY_SIZE as int),
    ) by {
        let j = choose|j: int| 0 <= j < kvs.len() && (#[trigger] kvs[j]).0 == k;
        assert(pred(kvs[j]));
        kvs.lemma_filter_contains(pred, j);
        let i = choose|i: int| 0 <= i < f.len() && f[i] == kvs[j];
        assert(model[i] == k.skip(cut));
    };
}


/// All shared paths of a node graph fit the serializer's length header.
pub open spec fn paths_fit(n: NodeModel) -> bool
    decreases n, 1int,
{
    &&& n.shared_path.len() <= usize::MAX
    &&& ref_paths_fit(n.left)
    &&& ref_paths_fit(n.right)
}

pub open spec fn ref_paths_fit(r: RefModel) -> bool
    decreases r, 0int,
{
    match r {
        RefModel::Empty => true,
        RefModel::Embedded(c) => paths_fit(*c),
        RefModel::Hashed(_) => true,
    }
}

/// Keys short enough that their bit expansion fits the length header.
pub open spec fn keys_fit(kvs: Seq<(Seq<u8>, Seq<u8>)>) -> bool {
    forall|i: int| 0 <= i < kvs.len() ==> (#[trigger] kvs[i]).0.len() * 8 <= usize::MAX
}

/// Building from short-enough keys yields short-enough shared paths.
pub proof fn lemma_build_paths_fit(entries: Seq<(Seq<u8>, Seq<u8>)>, depth: int)
    requires
        entries_pre(entries, depth),
        forall|i: int| 0 <= i < entries.len() ==> (#[trigger] entries[i]).0.len() <= usize::MAX,
    ensures
        paths_fit(build_node_model(entries, depth)),
    decreases max_bits_len(entries) + 1 - depth,
{
    lemma_lcp_scan_bounds(entries, depth, 0);
    let l = lcp_len(entries, depth);
    let node_depth = depth + l;
    let les = entries.filter(child_pred(node_depth, 0));
    let res = entries.filter(child_pred(node_depth, 1));
    crate::entries::lemma_filter_members(entries, child_pred(node_depth, 0));
    crate::entries::lemma_filter_members(entries, child_pred(node_depth, 1));
    lemma_build_children_pre(entries, depth, 0);
    lemma_build_children_pre(entries, depth, 1);
    assert forall|i: int| 0 <= i < les.len() implies (#[trigger] les[i]).0.len()
        <= usize::MAX by {
        assert(entries.contains(les[i]));
        let j = choose|j: int| 0 <= j < entries.len() && entries[j] == les[i];
        assert(entries[j].0.len() <= usize::MAX);
    };
    assert forall|i: int| 0 <= i < res.len() implies (#[trigger] res[i]).0.len()
        <= usize::MAX by {
        assert(entries.contains(res[i]));
        let j = choose|j: int| 0 <= j < entries.len() && entries[j] == res[i];
        assert(entries[j].0.len() <= usize::MAX);
    };
    if les.len() > 0 {
        lemma_max_bits_filter(entries, child_pred(node_depth, 0));
        lemma_max_bits_ge(les);
        lemma_build_paths_fit(les, node_depth + 1);
    }
    if res.len() > 0 {
        lemma_max_bits_filter(entries, child_pred(node_depth, 1));
        lemma_max_bits_ge(res);
        lemma_build_paths_fit(res, node_depth + 1);
    }
}

/// The serialized form of every built node decodes back to it: the read
/// side accepts everything the write side produces, children exactly as
/// referenced and the value by the 32-byte rule.
pub proof fn lemma_built_meta_decodes(n: NodeModel)
    requires
        built_form(n),
        paths_fit(n),
    ensures
        metadata_spec(n) is Some,
        crate::codec_rskip107::decode_node_spec(metadata_spec(n).unwrap().serialized) == Some(
            crate::codec_rskip107::decoded_form(
                n,
                child_meta_spec(n.left).unwrap().0,
                child_meta_spec(n.right).unwrap().0,
            ),
        ),
    decreases n, 1int,
{
    lemma_built_encodable(n);
    lemma_ref_meta_decodes(n.left);
    lemma_ref_meta_decodes(n.right);
    let lce = child_meta_spec(n.left).unwrap().0;
    let rce = child_meta_spec(n.right).unwrap().0;
    let lsz = child_meta_spec(n.left).unwrap().1;
    let rsz = child_meta_spec(n.right).unwrap().1;
    let cs = if n.is_terminal() {
        None
    } else {
        Some(clamp64(lsz + rsz))
    };
    crate::codec_rskip107::lemma_rskip_round_trip(n, lce, rce, cs);
}

pub proof fn lemma_ref_meta_decodes(r: RefModel)
    requires
        ref_built(r),
        ref_paths_fit(r),
    ensures
        child_meta_spec(r) is Some,
        crate::codec_rskip107::ce_decodes(child_meta_spec(r).unwrap().0),
    decreases r, 0int,
{
    lemma_ref_built_encodable(r);
    match r {
        RefModel::Embedded(c) => {
            lemma_built_meta_decodes(*c);
            lemma_built_encodable(*c);
            let m = metadata_spec(*c).unwrap();
        },
        _ => {},
    }
}

/// After a save of a non-empty trie the root blob stands in the store
/// under the root hash, and decodes back to the built root node.
pub proof fn lemma_saved_root_reads_back(
    kvs: Seq<(Seq<u8>, Seq<u8>)>,
    st: StoreModel,
    ns: Set<Seq<u8>>,
    vs: Set<Seq<u8>>,
)
    requires
        encodable_kvs(kvs),
        keys_fit(kvs),
        kvs.len() > 0,
    ensures
        ({
            let o = save_spec(kvs, st, ns, vs);
            let root = build_root_model(kvs);
            let m = metadata_spec(root).unwrap();
            o.0.nodes.contains_key(m.hash) && o.0.nodes[m.hash] == m.serialized
                && decode_persisted_spec(m.serialized) == Some(
                crate::codec_rskip107::decoded_form(
                    root,
                    child_meta_spec(root.left).unwrap().0,
                    child_meta_spec(root.right).unwrap().0,
                ),
            )
        }),
{
    let root = build_root_model(kvs);
    lemma_build_entries_values(kvs);
    lemma_build_produces_built(bit_kvs(kvs), 0);
    assert forall|i: int| 0 <= i < bit_kvs(kvs).len() implies (#[trigger] bit_kvs(kvs)[i]).0.len()
        <= usize::MAX by {
        assert(kvs[i].0.len() * 8 <= usize::MAX);
    };
    lemma_build_paths_fit(bit_kvs(kvs), 0);
    lemma_built_meta_decodes(root);
    lemma_persist_meta(root, st, ns, vs, true);
    let m = metadata_spec(root).unwrap();
    let e = m.serialized;
    assert(e[0] & crate::codec_rskip107::VERSION_MASK == crate::codec_rskip107::VERSION_FLAG) by {
        if crate::codec_rskip107::decode_node_spec(e) is Some {
            if e.len() == 0 || e[0] & crate::codec_rskip107::VERSION_MASK
                != crate::codec_rskip107::VERSION_FLAG {
                assert(crate::codec_rskip107::decode_node_spec(e) is None);
            }
        }
    };
    assert(e[0] != crate::codec_orchid::ARITY) by {
        let b = e[0];
        assert(b & 0xc0 == 0x40 ==> b != 2) by (bit_vector);
    };
}

} // verus!
