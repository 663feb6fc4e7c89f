//! The legacy wire codec: a fixed six-byte header whose first byte is the
//! arity marker 2, a raw 16-bit shared-path bit length, child hashes chosen
//! by a bitmask, and an inline or hashed value tail. Kept for reading
//! externally produced historic state; new writes use the current codec.

use vstd::prelude::*;
use vstd::slice::{slice_subrange, slice_to_vec};

use crate::error::TrieError;
use crate::node_ref::{
    inline_model, NodeModel, NodeReference, RefModel, SharedPath, TrieNode, ValueModel, ValueRef,
    HASH_SIZE,
};
use crate::path::shared_path_serializer;

verus! {

pub const ARITY: u8 = 2;

pub const MESSAGE_HEADER_LENGTH: usize = 6;

/// What decoding a legacy node yields; `None` on any malformed input.
/// Bytes after a hashed value tail are ignored, as the legacy reader did.
pub open spec fn decode_orchid_spec(payload: Seq<u8>) -> Option<NodeModel> {
    if payload.len() < 6 {
        None
    } else if payload[0] != ARITY {
        None
    } else {
        let flags = payload[1];
        let has_long = flags & 0x02 == 0x02;
        let bhashes = (payload[2] * 256 + payload[3]) as int;
        let sp_len = (payload[4] * 256 + payload[5]) as nat;
        let el = shared_path_serializer::celen_spec(sp_len) as int;
        if 6 + el > payload.len() {
            None
        } else {
            let bits = shared_path_serializer::unpack_bits_spec(
                payload.subrange(6, 6 + el),
                sp_len,
            );
            let off1 = 6 + el;
            let lpresent = bhashes % 2 == 1;
            let rpresent = (bhashes / 2) % 2 == 1;
            let off2 = if lpresent {
                off1 + 32
            } else {
                off1
            };
            let off3 = if rpresent {
                off2 + 32
            } else {
                off2
            };
            if off3 > payload.len() {
                None
            } else {
                let left = if lpresent {
                    RefModel::Hashed(payload.subrange(off1, off1 + 32))
                } else {
                    RefModel::Empty
                };
                let right = if rpresent {
                    RefModel::Hashed(payload.subrange(off2, off2 + 32))
                } else {
                    RefModel::Empty
                };
                if has_long {
                    if off3 + 32 <= payload.len() {
                        Some(
                            NodeModel {
                                shared_path: bits,
                                value: ValueModel::Hashed {
                                    hash: payload.subrange(off3, off3 + 32),
                                    length: None,
                                },
                                left,
                                right,
                            },
                        )
                    } else {
                        None
                    }
                } else {
                    Some(
                        NodeModel {
                            shared_path: bits,
                            value: inline_model(payload.subrange(off3, payload.len() as int)),
                            left,
                            right,
                        },
                    )
                }
            }
        }
    }
}

/// The serialized legacy node for a node whose children are given as
/// optional hashes.
pub open spec fn encode_orchid_spec(
    n: NodeModel,
    left_hash: Option<Seq<u8>>,
    right_hash: Option<Seq<u8>>,
    secure: bool,
) -> Option<Seq<u8>> {
    let sp_len = n.shared_path.len();
    if sp_len > 0xffff {
        None
    } else {
        let flags = (crate::codec_rskip107::b2i(secure) + 2 * crate::codec_rskip107::b2i(
            n.value.is_long(),
        )) as u8;
        let bh = (crate::codec_rskip107::b2i(left_hash is Some) + 2
            * crate::codec_rskip107::b2i(right_hash is Some)) as u8;
        let head = seq![
            ARITY,
            flags,
            0u8,
            bh,
            ((sp_len / 256) % 256) as u8,
            (sp_len % 256) as u8,
        ];
        let sp = if sp_len > 0 {
            shared_path_serializer::pack_bits_spec(n.shared_path)
        } else {
            Seq::<u8>::empty()
        };
        let lh = match left_hash {
            Some(h) => h,
            None => Seq::<u8>::empty(),
        };
        let rh = match right_hash {
            Some(h) => h,
            None => Seq::<u8>::empty(),
        };
        let body = head + sp + lh + rh;
        if n.value.is_long() {
            match n.value.hash_model() {
                Some(h) => Some(body + h),
                None => None,
            }
        } else {
            match n.value.inline_bytes_model() {
                Some(v) => Some(body + v),
                None => Some(body),
            }
        }
    }
}

#[derive(Debug, Clone, Copy, Default, Eq, PartialEq)]
pub struct OrchidCodec;

impl OrchidCodec {
    pub fn is_orchid_message(payload: &[u8]) -> (r: bool)
        ensures
            r == (payload@.len() > 0 && payload@[0] == ARITY),
    {
        payload.len() > 0 && payload[0] == ARITY
    }

    #[verifier::rlimit(100)]
    #[verifier::spinoff_prover]
    pub fn decode_node(payload: &[u8]) -> (r: Result<TrieNode, TrieError>)
        ensures
            r is Ok <==> decode_orchid_spec(payload@) is Some,
            r matches Ok(n) ==> decode_orchid_spec(payload@) == Some(n@),
    {
        if payload.len() < MESSAGE_HEADER_LENGTH {
            return Err(TrieError::DecodeTruncated);
        }

        if payload[0] != ARITY {
            return Err(TrieError::DecodeInvalidHeader);
        }

        let flags = payload[1];
        let has_long_value = (flags & 0x02) == 0x02;

        let bhashes: usize = (payload[2] as usize) * 256 + (payload[3] as usize);
        let shared_path_bits_length: usize = (payload[4] as usize) * 256 + (payload[5] as usize);
        let encoded_shared_path_length = shared_path_serializer::calculate_encoded_length(
            shared_path_bits_length,
        );

        if payload.len() - 6 < encoded_shared_path_length {
            return Err(TrieError::DecodeTruncated);
        }
        let mut offset: usize = 6 + encoded_shared_path_length;
        let shared_path_bits = if encoded_shared_path_length > 0 {
            let encoded = slice_subrange(payload, 6, offset);
            shared_path_serializer::decode(encoded, shared_path_bits_length)
        } else {
            Vec::new()
        };
        proof {
            shared_path_serializer::lemma_unpack_wf(
                payload@.subrange(6, 6 + encoded_shared_path_length as int),
                shared_path_bits_length as nat,
            );
            if encoded_shared_path_length == 0 {
                assert(shared_path_bits@ =~= shared_path_serializer::unpack_bits_spec(
                    payload@.subrange(6, 6 + encoded_shared_path_length as int),
                    shared_path_bits_length as nat,
                ));
            }
        }
        let shared_path = match SharedPath::from_bits(shared_path_bits) {
            Ok(p) => p,
            Err(e) => {
                return Err(e);
            },
        };

        let left_present = bhashes % 2 == 1;
        let right_present = (bhashes / 2) % 2 == 1;

        let left = if left_present {
            match read_hash(payload, &mut offset) {
                Ok(h) => NodeReference::hashed(h),
                Err(e) => {
                    return Err(e);
                },
            }
        } else {
            NodeReference::Empty
        };

        let right = if right_present {
            match read_hash(payload, &mut offset) {
                Ok(h) => NodeReference::hashed(h),
                Err(e) => {
                    return Err(e);
                },
            }
        } else {
            NodeReference::Empty
        };

        let value = if has_long_value {
            match read_hash(payload, &mut offset) {
                Ok(h) => ValueRef::hashed(h, None),
                Err(e) => {
                    return Err(e);
                },
            }
        } else if offset < payload.len() {
            let inline = slice_to_vec(slice_subrange(payload, offset, payload.len()));
            ValueRef::inline(inline)
        } else {
            ValueRef::empty()
        };

        Ok(TrieNode::new(shared_path, value, left, right))
    }

    #[verifier::rlimit(100)]
    #[verifier::spinoff_prover]
    pub fn encode_node(
        node: &TrieNode,
        left_hash: Option<[u8; HASH_SIZE]>,
        right_hash: Option<[u8; HASH_SIZE]>,
        secure: bool,
    ) -> (r: Result<Vec<u8>, TrieError>)
        requires
            node@.wf(),
        ensures
            r is Ok <==> encode_orchid_spec(
                node@,
                match left_hash {
                    Some(h) => Some(h@),
                    None => None,
                },
                match right_hash {
                    Some(h) => Some(h@),
                    None => None,
                },
                secure,
            ) is Some,
            r matches Ok(b) ==> encode_orchid_spec(
                node@,
                match left_hash {
                    Some(h) => Some(h@),
                    None => None,
                },
                match right_hash {
                    Some(h) => Some(h@),
                    None => None,
                },
                secure,
            ) == Some(b@),
    {
        let has_long_value = node.has_long_value();

        let mut flags: u8 = 0;
        if secure {
            flags = flags + 1;
        }
        if has_long_value {
            flags = flags + 2;
        }

        let mut bhashes: u8 = 0;
        if left_hash.is_some() {
            bhashes = bhashes + 1;
        }
        if right_hash.is_some() {
            bhashes = bhashes + 2;
        }

        let shared_path_len = node.shared_path.len();
        if shared_path_len > 0xffff {
            return Err(TrieError::ValueTooLarge);
        }

        let ghost head = seq![
            ARITY,
            flags,
            0u8,
            bhashes,
            ((node@.shared_path.len() / 256) % 256) as u8,
            (node@.shared_path.len() % 256) as u8,
        ];
        let ghost sp_bytes = if node@.shared_path.len() > 0 {
            shared_path_serializer::pack_bits_spec(node@.shared_path)
        } else {
            Seq::<u8>::empty()
        };
        let mut encoded: Vec<u8> = Vec::new();
        encoded.push(ARITY);
        encoded.push(flags);
        encoded.push(0u8);
        encoded.push(bhashes);
        encoded.push(((shared_path_len / 256) % 256) as u8);
        encoded.push((shared_path_len % 256) as u8);
        proof {
            assert(encoded@ =~= head);
        }
        if shared_path_len > 0 {
            let packed = shared_path_serializer::encode(node.shared_path.as_bits());
            crate::varint::append_bytes(&mut encoded, &packed);
        }
        proof {
            assert(encoded@ =~= head + sp_bytes);
        }

        let ghost lh_bytes = match left_hash {
            Some(h) => h@,
            None => Seq::<u8>::empty(),
        };
        let ghost rh_bytes = match right_hash {
            Some(h) => h@,
            None => Seq::<u8>::empty(),
        };
        if let Some(hash) = left_hash {
            let hv = slice_to_vec(hash.as_slice());
            crate::varint::append_bytes(&mut encoded, &hv);
        }
        proof {
            assert(encoded@ =~= head + sp_bytes + lh_bytes);
        }
        if let Some(hash) = right_hash {
            let hv = slice_to_vec(hash.as_slice());
            crate::varint::append_bytes(&mut encoded, &hv);
        }
        proof {
            assert(encoded@ =~= head + sp_bytes + lh_bytes + rh_bytes);
        }

        if has_long_value {
            let hash = match node.value.hash() {
                Some(h) => h,
                None => {
                    return Err(TrieError::MissingValueLength);
                },
            };
            let hv = slice_to_vec(hash.as_slice());
            crate::varint::append_bytes(&mut encoded, &hv);
        } else if let Some(inline) = node.value.inline_bytes() {
            crate::varint::append_bytes(&mut encoded, inline);
        }

        proof {
            let lh = match left_hash {
                Some(h) => Some(h@),
                None => None,
            };
            let rh = match right_hash {
                Some(h) => Some(h@),
                None => None,
            };
            assert(encoded@ =~= encode_orchid_spec(node@, lh, rh, secure).unwrap());
        }
        Ok(encoded)
    }
}

fn read_hash(payload: &[u8], offset: &mut usize) -> (r: Result<[u8; HASH_SIZE], TrieError>)
    requires
        *old(offset) <= payload@.len(),
    ensures
        r is Ok <==> *old(offset) + 32 <= payload@.len(),
        r matches Ok(h) ==> h@ == payload@.subrange(*old(offset) as int, *old(offset) + 32)
            && *final(offset) == *old(offset) + 32,
        r is Err ==> r == Err::<[u8; HASH_SIZE], TrieError>(TrieError::DecodeTruncated)
            && *final(offset) == *old(offset),
        *final(offset) <= payload@.len(),
{
    if payload.len() - *offset < HASH_SIZE {
        return Err(TrieError::DecodeTruncated);
    }

    let mut hash = [0u8; HASH_SIZE];
    let mut i: usize = 0;
    while i < HASH_SIZE
        invariant
            *offset + 32 <= payload@.len(),
            payload@.len() <= usize::MAX,
            i <= 32,
            forall|k: int| 0 <= k < i ==> hash@[k] == payload@[*offset + k],
        decreases 32 - i,
    {
        hash[i] = payload[*offset + i];
        i += 1;
    }
    proof {
        assert(hash@ =~= payload@.subrange(*offset as int, *offset + 32));
    }
    *offset += HASH_SIZE;
    Ok(hash)
}

} // verus!
