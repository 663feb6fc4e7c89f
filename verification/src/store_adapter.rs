//! The store collaborator: two namespaces of content-addressed blobs, one
//! for serialized nodes and one for long values, each modeled as a mapping
//! from digest bytes to blob bytes.

use vstd::prelude::*;

use crate::entries::clone_bytes;

verus! {

/// A raw blob store. Implementations promise exactly that loads report the
/// current contents and that saves insert into the respective namespace.
pub trait RawStoreAdapter: Sized {
    open spec fn nodes(&self) -> Map<Seq<u8>, Seq<u8>> {
        Map::<Seq<u8>, Seq<u8>>::empty()
    }

    open spec fn values(&self) -> Map<Seq<u8>, Seq<u8>> {
        Map::<Seq<u8>, Seq<u8>>::empty()
    }

    fn load_raw_node(&mut self, hash: &[u8]) -> (r: Option<Vec<u8>>)
        ensures
            final(self).nodes() == old(self).nodes(),
            final(self).values() == old(self).values(),
            r matches Some(v) ==> old(self).nodes().contains_key(hash@) && v@ == old(
                self,
            ).nodes()[hash@],
            r is None ==> !old(self).nodes().contains_key(hash@),
    ;

    fn load_raw_value(&mut self, hash: &[u8]) -> (r: Option<Vec<u8>>)
        ensures
            final(self).nodes() == old(self).nodes(),
            final(self).values() == old(self).values(),
            r matches Some(v) ==> old(self).values().contains_key(hash@) && v@ == old(
                self,
            ).values()[hash@],
            r is None ==> !old(self).values().contains_key(hash@),
    ;

    fn save_raw_node(&mut self, hash: &[u8], serialized_node: &[u8])
        ensures
            final(self).nodes() == old(self).nodes().insert(hash@, serialized_node@),
            final(self).values() == old(self).values(),
    ;

    fn save_raw_value(&mut self, hash: &[u8], value: &[u8])
        ensures
            final(self).nodes() == old(self).nodes(),
            final(self).values() == old(self).values().insert(hash@, value@),
    ;
}

/// The latest value of a key in an append-only log of pairs.
pub open spec fn log_map(log: Seq<(Seq<u8>, Seq<u8>)>) -> Map<Seq<u8>, Seq<u8>>
    decreases log.len(),
{
    crate::entries::map_of(log)
}

/// An in-memory store: each namespace is an append-only log of
/// (digest, blob) pairs, read from the most recent entry backwards.
pub struct MemStore {
    node_log: Vec<(Vec<u8>, Vec<u8>)>,
    value_log: Vec<(Vec<u8>, Vec<u8>)>,
}

pub open spec fn log_view(log: Seq<(Vec<u8>, Vec<u8>)>) -> Seq<(Seq<u8>, Seq<u8>)> {
    Seq::new(log.len(), |i: int| (log[i].0@, log[i].1@))
}

/// Looking back from the end of the log finds the mapping's value.
proof fn lemma_log_lookup(log: Seq<(Seq<u8>, Seq<u8>)>, i: int, k: Seq<u8>)
    requires
        0 <= i < log.len(),
        log[i].0 == k,
        forall|j: int| i < j < log.len() ==> (#[trigger] log[j]).0 != k,
    ensures
        log_map(log).contains_key(k),
        log_map(log)[k] == log[i].1,
    decreases log.len(),
{
    if i == log.len() - 1 {
    } else {
        let prefix = log.drop_last();
        assert(forall|j: int| i < j < prefix.len() ==> (#[trigger] prefix[j]).0 != k);
        lemma_log_lookup(prefix, i, k);
    }
}

impl MemStore {
    pub fn new() -> (r: Self)
        ensures
            r.nodes() == Map::<Seq<u8>, Seq<u8>>::empty(),
            r.values() == Map::<Seq<u8>, Seq<u8>>::empty(),
    {
        let r = MemStore { node_log: Vec::new(), value_log: Vec::new() };
        proof {
            assert(log_view(r.node_log@) =~= Seq::<(Seq<u8>, Seq<u8>)>::empty());
            assert(log_view(r.value_log@) =~= Seq::<(Seq<u8>, Seq<u8>)>::empty());
        }
        r
    }
}

fn log_get(log: &Vec<(Vec<u8>, Vec<u8>)>, key: &[u8]) -> (r: Option<Vec<u8>>)
    ensures
        r matches Some(v) ==> log_map(log_view(log@)).contains_key(key@) && v@ == log_map(
            log_view(log@),
        )[key@],
        r is None ==> !log_map(log_view(log@)).contains_key(key@),
{
    let ghost lv = log_view(log@);
    let mut i: usize = log.len();
    while i > 0
        invariant
            lv == log_view(log@),
            i <= log@.len(),
            forall|j: int| i <= j < lv.len() ==> (#[trigger] lv[j]).0 != key@,
        decreases i,
    {
        i = i - 1;
        if crate::entries::bytes_eq(log[i].0.as_slice(), key) {
            proof {
                lemma_log_lookup(lv, i as int, key@);
            }
            return Some(clone_bytes(&log[i].1));
        }
    }
    proof {
        crate::entries::lemma_map_of_contains(lv);
    }
    None
}

impl RawStoreAdapter for MemStore {
    closed spec fn nodes(&self) -> Map<Seq<u8>, Seq<u8>> {
        log_map(log_view(self.node_log@))
    }

    closed spec fn values(&self) -> Map<Seq<u8>, Seq<u8>> {
        log_map(log_view(self.value_log@))
    }

    fn load_raw_node(&mut self, hash: &[u8]) -> (r: Option<Vec<u8>>) {
        log_get(&self.node_log, hash)
    }

    fn load_raw_value(&mut self, hash: &[u8]) -> (r: Option<Vec<u8>>) {
        log_get(&self.value_log, hash)
    }

    fn save_raw_node(&mut self, hash: &[u8], serialized_node: &[u8]) {
        let pair = (vstd::slice::slice_to_vec(hash), vstd::slice::slice_to_vec(serialized_node));
        self.node_log.push(pair);
        proof {
            assert(log_view(self.node_log@) =~= log_view(old(self).node_log@).push(
                (hash@, serialized_node@),
            ));
            assert(log_view(self.node_log@).drop_last() =~= log_view(old(self).node_log@));
        }
    }

    fn save_raw_value(&mut self, hash: &[u8], value: &[u8]) {
        let pair = (vstd::slice::slice_to_vec(hash), vstd::slice::slice_to_vec(value));
        self.value_log.push(pair);
        proof {
            assert(log_view(self.value_log@) =~= log_view(old(self).value_log@).push(
                (hash@, value@),
            ));
            assert(log_view(self.value_log@).drop_last() =~= log_view(old(self).value_log@));
        }
    }
}

} // verus!
