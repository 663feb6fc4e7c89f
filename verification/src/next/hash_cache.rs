//! A memoized root hash, dropped on every mutation.

use vstd::prelude::*;

use crate::node_ref::HASH_SIZE;

verus! {

pub struct HashCache {
    cached_root: Option<[u8; HASH_SIZE]>,
}

impl HashCache {
    /// The memoized digest, if any.
    pub closed spec fn cached(&self) -> Option<Seq<u8>> {
        match self.cached_root {
            Some(h) => Some(h@),
            None => None,
        }
    }

    pub fn new() -> (r: Self)
        ensures
            r.cached() is None,
    {
        HashCache { cached_root: None }
    }

    pub fn invalidate(&mut self)
        ensures
            final(self).cached() is None,
    {
        self.cached_root = None;
    }

    pub fn update_root(&mut self, root_hash: [u8; HASH_SIZE])
        ensures
            final(self).cached() == Some(root_hash@),
    {
        self.cached_root = Some(root_hash);
    }

    pub fn root_hash(&self) -> (r: Option<[u8; HASH_SIZE]>)
        ensures
            r matches Some(h) ==> self.cached() == Some(h@),
            r is None <==> self.cached() is None,
    {
        self.cached_root
    }
}

} // verus!
