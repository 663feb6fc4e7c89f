//! Keccak-256 hashing, the content-addressing primitive of the trie.

use vstd::prelude::*;

verus! {

/// The one-byte serialized form whose digest is the empty-trie root.
pub const EMPTY_TRIE_RLP: u8 = 0x80;

/// The 32-byte Keccak-256 digest of a byte sequence, named but not defined:
/// every statement about concrete digests comes from `keccak256` below.
pub uninterp spec fn keccak256_spec(input: Seq<u8>) -> [u8; 32];

/// Relies on tiny_keccak's `Keccak::v256` / `update` / `finalize`: the
/// 32-byte Keccak-256 digest is a pure function of the input bytes.
#[verifier::external_body]
pub fn keccak256(input: &[u8]) -> (r: [u8; 32])
    ensures
        r == keccak256_spec(input@),
{
    let mut hasher = tiny_keccak::Keccak::v256();
    tiny_keccak::Hasher::update(&mut hasher, input);
    let mut output = [0u8; 32];
    tiny_keccak::Hasher::finalize(hasher, &mut output);
    output
}

/// Hash of the canonical empty-node encoding, the single byte 0x80.
pub open spec fn empty_trie_hash_spec() -> [u8; 32] {
    keccak256_spec(seq![0x80u8])
}

pub fn empty_trie_hash() -> (r: [u8; 32])
    ensures
        r == empty_trie_hash_spec(),
{
    let rlp: [u8; 1] = [EMPTY_TRIE_RLP];
    let r = keccak256(rlp.as_slice());
    proof {
        assert(rlp@ =~= seq![0x80u8]);
    }
    r
}

} // verus!
