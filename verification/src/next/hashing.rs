//! The incremental root-hash memo used by the next engine.

use vstd::prelude::*;

use crate::node_ref::HASH_SIZE;

verus! {

pub struct IncrementalHashState {
    root_hash: Option<[u8; HASH_SIZE]>,
}

impl IncrementalHashState {
    /// The memoized digest, if any.
    pub closed spec fn cached(&self) -> Option<Seq<u8>> {
        match self.root_hash {
            Some(h) => Some(h@),
            None => None,
        }
    }

    pub fn new() -> (r: Self)
        ensures
            r.cached() is None,
    {
        IncrementalHashState { root_hash: None }
    }

    pub fn invalidate(&mut self)
        ensures
            final(self).cached() is None,
    {
        self.root_hash = None;
    }

    pub fn update(&mut self, root_hash: [u8; HASH_SIZE])
        ensures
            final(self).cached() == Some(root_hash@),
    {
        self.root_hash = Some(root_hash);
    }

    pub fn root_hash(&self) -> (r: Option<[u8; HASH_SIZE]>)
        ensures
            r matches Some(h) ==> self.cached() == Some(h@),
            r is None <==> self.cached() is None,
    {
        self.root_hash
    }
}

} // verus!
