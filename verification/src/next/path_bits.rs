//! A packed bit path: bytes plus a bit length, MSB first.

use vstd::prelude::*;

use crate::entries::clone_bytes;
use crate::error::TrieError;
use crate::node_ref::path_bits_wf;
use crate::path::shared_path_serializer::{
    byte_bit, byte_bit_spec, key_bits_spec, lemma_pack_unpack, lemma_unpack_pack, pack_bits_spec,
    unpack_bits_spec,
};

verus! {

#[derive(Debug, Eq, PartialEq)]
pub struct PathBits {
    bytes: Vec<u8>,
    bit_len: usize,
}

impl View for PathBits {
    type V = Seq<u8>;

    closed spec fn view(&self) -> Seq<u8> {
        unpack_bits_spec(self.bytes@, self.bit_len as nat)
    }
}

impl PathBits {
    pub closed spec fn packed(&self) -> Seq<u8> {
        self.bytes@
    }

    pub closed spec fn in_bounds(&self) -> bool {
        self.bit_len <= 8 * self.bytes@.len()
    }

    pub fn empty() -> (r: Self)
        ensures
            r@ == Seq::<u8>::empty(),
            r.packed() == pack_bits_spec(r@),
            r.in_bounds(),
    {
        let r = PathBits { bytes: Vec::new(), bit_len: 0 };
        proof {
            assert(r@ =~= Seq::<u8>::empty());
            assert(r.packed() =~= pack_bits_spec(r@));
        }
        r
    }

    /// Views a whole byte key as its 8-per-byte bit expansion.
    pub fn from_key_bytes(bytes: &[u8]) -> (r: Self)
        requires
            bytes@.len() <= usize::MAX / 8,
        ensures
            r@ == key_bits_spec(bytes@),
            r.packed() == bytes@,
            r.packed() == pack_bits_spec(r@),
            r.in_bounds(),
    {
        proof {
            lemma_unpack_pack(bytes@);
        }
        PathBits { bytes: vstd::slice::slice_to_vec(bytes), bit_len: bytes.len() * 8 }
    }

    /// Accepts exactly the vectors whose elements are all 0 or 1.
    pub fn from_bits(bits: &[u8]) -> (r: Result<Self, TrieError>)
        ensures
            r is Ok <==> path_bits_wf(bits@),
            r matches Ok(p) ==> p@ == bits@ && p.packed() == pack_bits_spec(bits@)
                && p.in_bounds(),
            r is Err ==> r == Err::<Self, TrieError>(TrieError::DecodeInvalidHeader),
    {
        let mut i: usize = 0;
        while i < bits.len()
            invariant
                i <= bits@.len(),
                forall|j: int| 0 <= j < i ==> bits@[j] <= 1,
            decreases bits@.len() - i,
        {
            if bits[i] > 1 {
                return Err(TrieError::DecodeInvalidHeader);
            }
            i += 1;
        }

        let packed = crate::path::shared_path_serializer::encode(bits);
        proof {
            lemma_pack_unpack(bits@);
            assert(8 * crate::path::shared_path_serializer::celen_spec(bits@.len()) >= bits@.len());
        }
        Ok(PathBits { bytes: packed, bit_len: bits.len() })
    }

    pub fn bit_len(&self) -> (r: usize)
        ensures
            r == self@.len(),
    {
        self.bit_len
    }

    pub fn is_empty(&self) -> (r: bool)
        ensures
            r == (self@.len() == 0),
    {
        self.bit_len == 0
    }

    pub fn get_bit(&self, bit_index: usize) -> (r: Option<u8>)
        requires
            self.in_bounds(),
        ensures
            r matches Some(b) ==> bit_index < self@.len() && b == self@[bit_index as int],
            r is None <==> bit_index >= self@.len(),
    {
        if bit_index >= self.bit_len {
            return None;
        }
        Some(byte_bit(self.bytes[bit_index / 8], bit_index % 8))
    }

    /// The bits unpacked into one byte each.
    pub fn to_bits_vec(&self) -> (r: Vec<u8>)
        requires
            self.in_bounds(),
        ensures
            r@ == self@,
    {
        crate::path::shared_path_serializer::decode(self.bytes.as_slice(), self.bit_len)
    }

    pub fn to_packed_bytes(&self) -> (r: &[u8])
        ensures
            r@ == self.packed(),
    {
        self.bytes.as_slice()
    }
}

impl Clone for PathBits {
    fn clone(&self) -> (r: Self)
        ensures
            r@ == self@,
            r.packed() == self.packed(),
            r.in_bounds() == self.in_bounds(),
    {
        PathBits { bytes: clone_bytes(&self.bytes), bit_len: self.bit_len }
    }
}

} // verus!
