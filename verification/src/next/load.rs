//! Codec dispatch for persisted node payloads.

use vstd::prelude::*;

use crate::codec_orchid::OrchidCodec;
use crate::codec_rskip107::Rskip107Codec;
use crate::core_trie::{decode_persisted_spec, lemma_decode_persisted_wf};
use crate::error::TrieError;
use crate::node_ref::TrieNode;

verus! {

/// Decodes a payload in whichever of the two wire forms it carries.
pub fn decode_persisted_node(payload: &[u8]) -> (r: Result<TrieNode, TrieError>)
    ensures
        r is Ok <==> decode_persisted_spec(payload@) is Some,
        r matches Ok(n) ==> decode_persisted_spec(payload@) == Some(n@) && n@.wf(),
{
    proof {
        lemma_decode_persisted_wf(payload@);
    }
    if OrchidCodec::is_orchid_message(payload) {
        return OrchidCodec::decode_node(payload);
    }

    Rskip107Codec::decode_node(payload)
}

} // verus!
