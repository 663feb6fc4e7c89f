//! The current wire codec: a flag byte with version bits 01, a shared-path
//! block, child references (embedded or hashed), a children-size varint, and
//! an inline or hashed value tail.

use vstd::prelude::*;
use vstd::slice::slice_subrange;

use crate::entries::clone_bytes;
use crate::error::TrieError;
use crate::node_ref::{
    inline_model, NodeModel, NodeReference, RefModel, SharedPath, TrieNode, ValueModel, ValueRef,
    HASH_SIZE,
};
use crate::path::shared_path_serializer;
use crate::varint;

verus! {

pub const VERSION_FLAG: u8 = 0x40;

pub const VERSION_MASK: u8 = 0xc0;

pub const LONG_VALUE_FLAG: u8 = 0x20;

pub const SHARED_PREFIX_FLAG: u8 = 0x10;

pub const LEFT_PRESENT_FLAG: u8 = 0x08;

pub const RIGHT_PRESENT_FLAG: u8 = 0x04;

pub const LEFT_EMBEDDED_FLAG: u8 = 0x02;

pub const RIGHT_EMBEDDED_FLAG: u8 = 0x01;

/// Model of an already-serialized child: nothing, the embedded child bytes,
/// or the child's 32-byte digest.
pub enum CEModel {
    Empty,
    Embedded(Seq<u8>),
    Hashed(Seq<u8>),
}

#[derive(Debug, Eq, PartialEq)]
pub enum ChildEncoding {
    Empty,
    Embedded(Vec<u8>),
    Hashed([u8; HASH_SIZE]),
}

impl View for ChildEncoding {
    type V = CEModel;

    open spec fn view(&self) -> CEModel {
        match self {
            ChildEncoding::Empty => CEModel::Empty,
            ChildEncoding::Embedded(b) => CEModel::Embedded(b@),
            ChildEncoding::Hashed(h) => CEModel::Hashed(h@),
        }
    }
}

impl CEModel {
    pub open spec fn is_present(self) -> bool {
        !(self is Empty)
    }

    pub open spec fn is_embedded(self) -> bool {
        self is Embedded
    }
}

impl ChildEncoding {
    pub fn is_present(&self) -> (r: bool)
        ensures
            r == self@.is_present(),
    {
        !matches!(self, ChildEncoding::Empty)
    }

    pub fn is_embedded(&self) -> (r: bool)
        ensures
            r == self@.is_embedded(),
    {
        matches!(self, ChildEncoding::Embedded(_))
    }
}

/// 0 or 1 as a byte.
pub open spec fn b2i(b: bool) -> u8 {
    if b {
        1
    } else {
        0
    }
}

/// The flag byte, written as a sum of its seven fields.
pub open spec fn flags_spec(n: NodeModel, l: CEModel, r: CEModel) -> u8 {
    (64 + 32 * b2i(n.value.is_long()) + 16 * b2i(n.shared_path.len() > 0) + 8 * b2i(
        l.is_present(),
    ) + 4 * b2i(r.is_present()) + 2 * b2i(l.is_embedded()) + b2i(r.is_embedded())) as u8
}

/// Bytes of one child reference: nothing, a length byte plus the embedded
/// child, or the 32-byte digest. Fails when an embedded child exceeds 255
/// bytes.
pub open spec fn ce_bytes_spec(c: CEModel) -> Option<Seq<u8>> {
    match c {
        CEModel::Empty => Some(Seq::<u8>::empty()),
        CEModel::Embedded(b) => if b.len() <= 255 {
            Some(seq![b.len() as u8] + b)
        } else {
            None
        },
        CEModel::Hashed(h) => Some(h),
    }
}

/// Three big-endian bytes of a value length.
pub open spec fn u24_spec(l: nat) -> Seq<u8> {
    seq![((l / 65536) % 256) as u8, ((l / 256) % 256) as u8, (l % 256) as u8]
}

pub open spec fn u24_val(b0: u8, b1: u8, b2: u8) -> nat {
    (b0 * 65536 + b1 * 256 + b2) as nat
}

/// The serialized node: flag byte, shared-path block, child references,
/// children-size varint (only with a child present), then the value tail.
pub open spec fn encode_node_spec(
    n: NodeModel,
    l: CEModel,
    r: CEModel,
    children_size: Option<u64>,
) -> Option<Seq<u8>> {
    let lp = l.is_present();
    let rp = r.is_present();
    if (lp || rp) && children_size is None {
        None
    } else {
        match (ce_bytes_spec(l), ce_bytes_spec(r)) {
            (Some(lb), Some(rb)) => {
                let csb = if lp || rp {
                    varint::encode_spec(children_size.unwrap_or(0))
                } else {
                    Seq::<u8>::empty()
                };
                let head = seq![flags_spec(n, l, r)] + shared_path_serializer::spath_block_spec(
                    n.shared_path,
                ) + lb + rb + csb;
                if n.value.is_long() {
                    match (n.value.hash_model(), n.value.len()) {
                        (Some(h), Some(len)) => if len <= 0xffffff {
                            Some(head + h + u24_spec(len))
                        } else {
                            None
                        },
                        (Some(h), None) => None,
                        _ => None,
                    }
                } else {
                    match n.value.inline_bytes_model() {
                        Some(v) => Some(head + v),
                        None => Some(head),
                    }
                }
            },
            _ => None,
        }
    }
}

/// What decoding one child reference at `offset` yields.
pub open spec fn dec_ref_spec(payload: Seq<u8>, offset: int, embedded: bool) -> Option<
    (RefModel, int),
>
    decreases payload.len(), 0int,
{
    if embedded {
        if 1 <= offset < payload.len() {
            let l = payload[offset] as int;
            if offset + 1 + l <= payload.len() {
                match decode_node_spec(payload.subrange(offset + 1, offset + 1 + l)) {
                    Some(child) => Some((RefModel::Embedded(Box::new(child)), offset + 1 + l)),
                    None => None,
                }
            } else {
                None
            }
        } else {
            None
        }
    } else {
        if 0 <= offset && offset + 32 <= payload.len() {
            Some((RefModel::Hashed(payload.subrange(offset, offset + 32)), offset + 32))
        } else {
            None
        }
    }
}

/// What decoding a whole node yields; `None` on any malformed input.
pub open spec fn decode_node_spec(payload: Seq<u8>) -> Option<NodeModel>
    decreases payload.len(), 1int,
{
    if payload.len() == 0 {
        None
    } else {
        let flags = payload[0];
        if flags & VERSION_MASK != VERSION_FLAG {
            None
        } else {
            let has_long = flags & LONG_VALUE_FLAG == LONG_VALUE_FLAG;
            let sp_present = flags & SHARED_PREFIX_FLAG == SHARED_PREFIX_FLAG;
            let lp = flags & LEFT_PRESENT_FLAG == LEFT_PRESENT_FLAG;
            let rp = flags & RIGHT_PRESENT_FLAG == RIGHT_PRESENT_FLAG;
            let le = flags & LEFT_EMBEDDED_FLAG == LEFT_EMBEDDED_FLAG;
            let re = flags & RIGHT_EMBEDDED_FLAG == RIGHT_EMBEDDED_FLAG;
            match shared_path_serializer::read_spath_spec(payload, 1, sp_present) {
                None => None,
                Some((bits, off1)) => {
                    let lres = if lp {
                        dec_ref_spec(payload, off1, le)
                    } else {
                        Some((RefModel::Empty, off1))
                    };
                    match lres {
                        None => None,
                        Some((lref, off2)) => {
                            let rres = if rp {
                                dec_ref_spec(payload, off2, re)
                            } else {
                                Some((RefModel::Empty, off2))
                            };
                            match rres {
                                None => None,
                                Some((rref, off3)) => {
                                    let csres = if lp || rp {
                                        match varint::decode_spec(payload, off3) {
                                            Some((_, o)) => Some(o),
                                            None => None,
                                        }
                                    } else {
                                        Some(off3)
                                    };
                                    match csres {
                                        None => None,
                                        Some(off4) => if has_long {
                                            if off4 + 35 == payload.len() {
                                                Some(
                                                    NodeModel {
                                                        shared_path: bits,
                                                        value: ValueModel::Hashed {
                                                            hash: payload.subrange(off4, off4 + 32),
                                                            length: Some(
                                                                u24_val(
                                                                    payload[off4 + 32],
                                                                    payload[off4 + 33],
                                                                    payload[off4 + 34],
                                                                ),
                                                            ),
                                                        },
                                                        left: lref,
                                                        right: rref,
                                                    },
                                                )
                                            } else {
                                                None
                                            }
                                        } else {
                                            Some(
                                                NodeModel {
                                                    shared_path: bits,
                                                    value: inline_model(
                                                        payload.subrange(
                                                            off4,
                                                            payload.len() as int,
                                                        ),
                                                    ),
                                                    left: lref,
                                                    right: rref,
                                                },
                                            )
                                        },
                                    }
                                },
                            }
                        },
                    }
                },
            }
        }
    }
}

#[derive(Debug, Clone, Copy, Default, Eq, PartialEq)]
pub struct Rskip107Codec;

impl Rskip107Codec {
    pub fn is_rskip107_message(payload: &[u8]) -> (r: bool)
        ensures
            r == (payload@.len() > 0 && payload@[0] & VERSION_MASK == VERSION_FLAG),
    {
        !payload.is_empty() && (payload[0] & VERSION_MASK) == VERSION_FLAG
    }

    #[verifier::rlimit(100)]
    #[verifier::spinoff_prover]
    pub fn decode_node(payload: &[u8]) -> (r: Result<TrieNode, TrieError>)
        ensures
            r is Ok <==> decode_node_spec(payload@) is Some,
            r matches Ok(n) ==> decode_node_spec(payload@) == Some(n@),
        decreases payload@.len(), 1int,
    {
        if payload.is_empty() {
            return Err(TrieError::DecodeTruncated);
        }

        let flags = payload[0];
        if (flags & VERSION_MASK) != VERSION_FLAG {
            return Err(TrieError::DecodeInvalidHeader);
        }
        let has_long_value = (flags & LONG_VALUE_FLAG) == LONG_VALUE_FLAG;
        let shared_prefix_present = (flags & SHARED_PREFIX_FLAG) == SHARED_PREFIX_FLAG;
        let left_present = (flags & LEFT_PRESENT_FLAG) == LEFT_PRESENT_FLAG;
        let right_present = (flags & RIGHT_PRESENT_FLAG) == RIGHT_PRESENT_FLAG;
        let left_embedded = (flags & LEFT_EMBEDDED_FLAG) == LEFT_EMBEDDED_FLAG;
        let right_embedded = (flags & RIGHT_EMBEDDED_FLAG) == RIGHT_EMBEDDED_FLAG;

        let mut offset: usize = 1;
        let shared_bits = match shared_path_serializer::deserialize_from_slice(
            payload,
            &mut offset,
            shared_prefix_present,
        ) {
            Ok(bits) => bits,
            Err(e) => {
                return Err(e);
            },
        };
        proof {
            shared_path_serializer::lemma_read_spath_wf(payload@, 1, shared_prefix_present);
        }
        let shared_path = match SharedPath::from_bits(shared_bits) {
            Ok(p) => p,
            Err(e) => {
                return Err(e);
            },
        };

        let left = if left_present {
            match Self::decode_reference(payload, &mut offset, left_embedded) {
                Ok(l) => l,
                Err(e) => {
                    return Err(e);
                },
            }
        } else {
            NodeReference::Empty
        };

        let right = if right_present {
            match Self::decode_reference(payload, &mut offset, right_embedded) {
                Ok(l) => l,
                Err(e) => {
                    return Err(e);
                },
            }
        } else {
            NodeReference::Empty
        };

        if left_present || right_present {
            match varint::decode_from_slice(payload, &mut offset) {
                Ok(_) => (),
                Err(e) => {
                    return Err(e);
                },
            }
        }

        let value = if has_long_value {
            if payload.len() - offset != 35 {
                if payload.len() - offset > 35 {
                    return Err(TrieError::DecodeTrailingData);
                }
                return Err(TrieError::DecodeTruncated);
            }
            let hash = match read_hash(payload, &mut offset) {
                Ok(h) => h,
                Err(e) => {
                    return Err(e);
                },
            };
            let value_length = match read_u24(payload, &mut offset) {
                Ok(l) => l,
                Err(e) => {
                    return Err(e);
                },
            };
            ValueRef::hashed(hash, Some(value_length))
        } else if offset < payload.len() {
            let inline = slice_subrange(payload, offset, payload.len());
            let inline_vec = vstd::slice::slice_to_vec(inline);
            offset = payload.len();
            ValueRef::inline(inline_vec)
        } else {
            ValueRef::empty()
        };

        Ok(TrieNode::new(shared_path, value, left, right))
    }

    fn decode_reference(payload: &[u8], offset: &mut usize, embedded: bool) -> (r: Result<
        NodeReference,
        TrieError,
    >)
        requires
            *old(offset) >= 1,
            *old(offset) <= payload@.len(),
        ensures
            r is Ok <==> dec_ref_spec(payload@, *old(offset) as int, embedded) is Some,
            r matches Ok(n) ==> dec_ref_spec(payload@, *old(offset) as int, embedded) == Some(
                (n@, *final(offset) as int),
            ),
            *final(offset) <= payload@.len(),
        decreases payload@.len(), 0int,
    {
        if embedded {
            if *offset >= payload.len() {
                return Err(TrieError::DecodeTruncated);
            }
            let length = payload[*offset] as usize;
            if payload.len() - (*offset + 1) < length {
                return Err(TrieError::DecodeTruncated);
            }
            let start = *offset + 1;
            let end = start + length;
            let node_payload = slice_subrange(payload, start, end);
            let embedded_node = match Self::decode_node(node_payload) {
                Ok(n) => n,
                Err(e) => {
                    return Err(e);
                },
            };
            *offset = end;
            Ok(NodeReference::embedded(embedded_node))
        } else {
            match read_hash(payload, offset) {
                Ok(h) => Ok(NodeReference::hashed(h)),
                Err(e) => Err(e),
            }
        }
    }

    pub fn encode_node(
        node: &TrieNode,
        left: &ChildEncoding,
        right: &ChildEncoding,
        children_size: Option<u64>,
    ) -> (r: Result<Vec<u8>, TrieError>)
        requires
            node@.wf(),
        ensures
            r is Ok <==> encode_node_spec(node@, left@, right@, children_size) is Some,
            r matches Ok(b) ==> encode_node_spec(node@, left@, right@, children_size) == Some(b@),
    {
        let has_long_value = node.has_long_value();
        let left_present = left.is_present();
        let right_present = right.is_present();

        if (left_present || right_present) && children_size.is_none() {
            return Err(TrieError::MissingChildrenSize);
        }

        let mut flags: u8 = 64;
        if has_long_value {
            flags = flags + 32;
        }
        if !node.shared_path.is_empty() {
            flags = flags + 16;
        }
        if left_present {
            flags = flags + 8;
        }
        if right_present {
            flags = flags + 4;
        }
        if left.is_embedded() {
            flags = flags + 2;
        }
        if right.is_embedded() {
            flags = flags + 1;
        }
        proof {
            assert(flags == flags_spec(node@, left@, right@));
        }

        let mut encoded: Vec<u8> = Vec::new();
        encoded.push(flags);
        shared_path_serializer::serialize_into(node.shared_path.as_bits(), &mut encoded);

        match Self::encode_reference(left, &mut encoded) {
            Ok(()) => (),
            Err(e) => {
                return Err(e);
            },
        }
        match Self::encode_reference(right, &mut encoded) {
            Ok(()) => (),
            Err(e) => {
                return Err(e);
            },
        }

        if left_present || right_present {
            let cs = match children_size {
                Some(c) => c,
                None => 0,
            };
            varint::encode_into(cs, &mut encoded);
        }

        if has_long_value {
            let hash = match node.value.hash() {
                Some(h) => h,
                None => {
                    return Err(TrieError::MissingValueLength);
                },
            };
            let length = match node.value.len() {
                Some(l) => l,
                None => {
                    return Err(TrieError::MissingValueLength);
                },
            };
            if length > 0xffffff {
                return Err(TrieError::ValueTooLarge);
            }
            let hash_vec = vstd::slice::slice_to_vec(hash.as_slice());
            varint::append_bytes(&mut encoded, &hash_vec);
            let b0 = ((length / 65536) % 256) as u8;
            let b1 = ((length / 256) % 256) as u8;
            let b2 = (length % 256) as u8;
            encoded.push(b0);
            encoded.push(b1);
            encoded.push(b2);
            proof {
                assert(encoded@ =~= encode_node_spec(
                    node@,
                    left@,
                    right@,
                    children_size,
                ).unwrap());
            }
        } else {
            if let Some(inline) = node.value.inline_bytes() {
                varint::append_bytes(&mut encoded, inline);
            }
            proof {
                assert(encoded@ =~= encode_node_spec(
                    node@,
                    left@,
                    right@,
                    children_size,
                ).unwrap());
            }
        }

        Ok(encoded)
    }

    fn encode_reference(reference: &ChildEncoding, output: &mut Vec<u8>) -> (r: Result<
        (),
        TrieError,
    >)
        ensures
            r is Ok <==> ce_bytes_spec(reference@) is Some,
            r is Ok ==> final(output)@ == old(output)@ + ce_bytes_spec(reference@).unwrap(),
            r is Err ==> r == Err::<(), TrieError>(TrieError::EmbeddedTooLarge) && final(output)@
                == old(output)@,
    {
        match reference {
            ChildEncoding::Empty => {
                proof {
                    assert(final(output)@ =~= old(output)@ + ce_bytes_spec(reference@).unwrap());
                }
                Ok(())
            },
            ChildEncoding::Embedded(serialized_node) => {
                if serialized_node.len() > 255 {
                    return Err(TrieError::EmbeddedTooLarge);
                }
                output.push(serialized_node.len() as u8);
                varint::append_bytes(output, serialized_node);
                proof {
                    assert(final(output)@ =~= old(output)@ + ce_bytes_spec(reference@).unwrap());
                }
                Ok(())
            },
            ChildEncoding::Hashed(hash) => {
                let hash_vec = vstd::slice::slice_to_vec(hash.as_slice());
                varint::append_bytes(output, &hash_vec);
                proof {
                    assert(final(output)@ =~= old(output)@ + ce_bytes_spec(reference@).unwrap());
                }
                Ok(())
            },
        }
    }
}

fn read_hash(payload: &[u8], offset: &mut usize) -> (r: Result<[u8; HASH_SIZE], TrieError>)
    requires
        *old(offset) <= payload@.len(),
    ensures
        r is Ok <==> *old(offset) + 32 <= payload@.len(),
        r matches Ok(h) ==> h@ == payload@.subrange(*old(offset) as int, *old(offset) + 32)
            && *final(offset) == *old(offset) + 32,
        r is Err ==> r == Err::<[u8; HASH_SIZE], TrieError>(TrieError::DecodeTruncated)
            && *final(offset) == *old(offset),
        *final(offset) <= payload@.len(),
{
    if payload.len() - *offset < HASH_SIZE {
        return Err(TrieError::DecodeTruncated);
    }

    let mut hash = [0u8; HASH_SIZE];
    let mut i: usize = 0;
    while i < HASH_SIZE
        invariant
            *offset + 32 <= payload@.len(),
            payload@.len() <= usize::MAX,
            i <= 32,
            forall|k: int| 0 <= k < i ==> hash@[k] == payload@[*offset + k],
        decreases 32 - i,
    {
        hash[i] = payload[*offset + i];
        i += 1;
    }
    proof {
        assert(hash@ =~= payload@.subrange(*offset as int, *offset + 32));
    }
    *offset += HASH_SIZE;
    Ok(hash)
}

fn read_u24(payload: &[u8], offset: &mut usize) -> (r: Result<usize, TrieError>)
    requires
        *old(offset) <= payload@.len(),
    ensures
        r is Ok <==> *old(offset) + 3 <= payload@.len(),
        r matches Ok(l) ==> l == u24_val(
            payload@[*old(offset) as int],
            payload@[*old(offset) + 1],
            payload@[*old(offset) + 2],
        ) && *final(offset) == *old(offset) + 3,
        r is Err ==> r == Err::<usize, TrieError>(TrieError::DecodeTruncated)
            && *final(offset) == *old(offset),
        *final(offset) <= payload@.len(),
{
    if payload.len() - *offset < 3 {
        return Err(TrieError::DecodeTruncated);
    }

    let b0 = payload[*offset] as usize;
    let b1 = payload[*offset + 1] as usize;
    let b2 = payload[*offset + 2] as usize;
    *offset += 3;
    Ok((b0 * 65536) + (b1 * 256) + b2)
}


/// Child forms that a reader can follow: an embedded child must itself
/// decode, a hashed child is a 32-byte digest.
pub open spec fn ce_decodes(c: CEModel) -> bool {
    match c {
        CEModel::Empty => true,
        CEModel::Embedded(b) => decode_node_spec(b) is Some,
        CEModel::Hashed(h) => h.len() == 32,
    }
}

/// Whether the encoder accepts this node and these child forms.
pub open spec fn encode_ok(n: NodeModel, l: CEModel, r: CEModel, cs: Option<u64>) -> bool {
    encode_node_spec(n, l, r, cs) is Some
}

pub open spec fn ce_ref_model(c: CEModel) -> RefModel {
    match c {
        CEModel::Empty => RefModel::Empty,
        CEModel::Embedded(b) => RefModel::Embedded(Box::new(decode_node_spec(b).unwrap())),
        CEModel::Hashed(h) => RefModel::Hashed(h),
    }
}

/// How a reader sees a written value: a long value by digest and length,
/// a short one inline, an empty one as absent.
pub open spec fn decoded_value(v: ValueModel) -> ValueModel {
    if v.is_long() {
        ValueModel::Hashed { hash: v.hash_model().unwrap(), length: Some(v.len().unwrap()) }
    } else {
        match v {
            ValueModel::Inline(b) => inline_model(b),
            _ => ValueModel::Empty,
        }
    }
}

/// The node a reader reconstructs from a written node.
pub open spec fn decoded_form(n: NodeModel, l: CEModel, r: CEModel) -> NodeModel {
    NodeModel {
        shared_path: n.shared_path,
        value: decoded_value(n.value),
        left: ce_ref_model(l),
        right: ce_ref_model(r),
    }
}

proof fn lemma_flags_bits(lv: u8, sp: u8, lp: u8, rp: u8, le: u8, re: u8)
    by (bit_vector)
    requires
        lv <= 1,
        sp <= 1,
        lp <= 1,
        rp <= 1,
        le <= 1,
        re <= 1,
    ensures
        ((64 + 32 * lv + 16 * sp + 8 * lp + 4 * rp + 2 * le + re) as u8) & 0xc0 == 0x40,
        (((64 + 32 * lv + 16 * sp + 8 * lp + 4 * rp + 2 * le + re) as u8) & 0x20 == 0x20) == (lv
            == 1),
        (((64 + 32 * lv + 16 * sp + 8 * lp + 4 * rp + 2 * le + re) as u8) & 0x10 == 0x10) == (sp
            == 1),
        (((64 + 32 * lv + 16 * sp + 8 * lp + 4 * rp + 2 * le + re) as u8) & 0x08 == 0x08) == (lp
            == 1),
        (((64 + 32 * lv + 16 * sp + 8 * lp + 4 * rp + 2 * le + re) as u8) & 0x04 == 0x04) == (rp
            == 1),
        (((64 + 32 * lv + 16 * sp + 8 * lp + 4 * rp + 2 * le + re) as u8) & 0x02 == 0x02) == (le
            == 1),
        (((64 + 32 * lv + 16 * sp + 8 * lp + 4 * rp + 2 * le + re) as u8) & 0x01 == 0x01) == (re
            == 1),
{
}

proof fn lemma_u24_round_trip(len: nat)
    requires
        len <= 0xffffff,
    ensures
        u24_val(
            ((len / 65536) % 256) as u8,
            ((len / 256) % 256) as u8,
            (len % 256) as u8,
        ) == len,
{
    assert(((len / 65536) % 256) * 65536 + ((len / 256) % 256) * 256 + len % 256 == len) by {
        assert(len / 65536 < 256);
        assert((len / 65536) % 256 == len / 65536);
        assert(len == 65536 * (len / 65536) + len % 65536);
        assert(len % 65536 == 256 * ((len % 65536) / 256) + (len % 65536) % 256);
        assert((len % 65536) / 256 == (len / 256) % 256) by (nonlinear_arith);
        assert((len % 65536) % 256 == len % 256) by (nonlinear_arith);
    };
}

/// Offsets of the six segments of a serialized node.
#[verifier::spinoff_prover]
proof fn lemma_concat6(s0: Seq<u8>, s1: Seq<u8>, s2: Seq<u8>, s3: Seq<u8>, s4: Seq<u8>, s5: Seq<u8>)
    ensures
        (s0 + s1 + s2 + s3 + s4 + s5).len() == s0.len() + s1.len() + s2.len() + s3.len()
            + s4.len() + s5.len(),
        (s0 + s1 + s2 + s3 + s4 + s5).subrange(
            s0.len() as int,
            (s0.len() + s1.len()) as int,
        ) == s1,
        (s0 + s1 + s2 + s3 + s4 + s5).subrange(
            (s0.len() + s1.len()) as int,
            (s0.len() + s1.len() + s2.len()) as int,
        ) == s2,
        (s0 + s1 + s2 + s3 + s4 + s5).subrange(
            (s0.len() + s1.len() + s2.len()) as int,
            (s0.len() + s1.len() + s2.len() + s3.len()) as int,
        ) == s3,
        (s0 + s1 + s2 + s3 + s4 + s5).subrange(
            (s0.len() + s1.len() + s2.len() + s3.len()) as int,
            (s0.len() + s1.len() + s2.len() + s3.len() + s4.len()) as int,
        ) == s4,
        (s0 + s1 + s2 + s3 + s4 + s5).subrange(
            (s0.len() + s1.len() + s2.len() + s3.len() + s4.len()) as int,
            (s0 + s1 + s2 + s3 + s4 + s5).len() as int,
        ) == s5,
        s0.len() > 0 ==> (s0 + s1 + s2 + s3 + s4 + s5)[0] == s0[0],
{
    let e = s0 + s1 + s2 + s3 + s4 + s5;
    assert(e.subrange(s0.len() as int, (s0.len() + s1.len()) as int) =~= s1);
    assert(e.subrange(
        (s0.len() + s1.len()) as int,
        (s0.len() + s1.len() + s2.len()) as int,
    ) =~= s2);
    assert(e.subrange(
        (s0.len() + s1.len() + s2.len()) as int,
        (s0.len() + s1.len() + s2.len() + s3.len()) as int,
    ) =~= s3);
    assert(e.subrange(
        (s0.len() + s1.len() + s2.len() + s3.len()) as int,
        (s0.len() + s1.len() + s2.len() + s3.len() + s4.len()) as int,
    ) =~= s4);
    assert(e.subrange(
        (s0.len() + s1.len() + s2.len() + s3.len() + s4.len()) as int,
        e.len() as int,
    ) =~= s5);
}

/// Assembling the parsed pieces: a payload whose header, path, children,
/// children-size and value tail all read back as written decodes to the
/// written node.
#[verifier::spinoff_prover]
proof fn lemma_rt_assemble(
    e: Seq<u8>,
    n: NodeModel,
    l: CEModel,
    r: CEModel,
    off1: int,
    off2: int,
    off3: int,
    off4: int,
    csv: u64,
)
    requires
        e.len() > 0,
        e[0] & VERSION_MASK == VERSION_FLAG,
        (e[0] & LONG_VALUE_FLAG == LONG_VALUE_FLAG) == n.value.is_long(),
        (e[0] & SHARED_PREFIX_FLAG == SHARED_PREFIX_FLAG) == (n.shared_path.len() > 0),
        (e[0] & LEFT_PRESENT_FLAG == LEFT_PRESENT_FLAG) == l.is_present(),
        (e[0] & RIGHT_PRESENT_FLAG == RIGHT_PRESENT_FLAG) == r.is_present(),
        (e[0] & LEFT_EMBEDDED_FLAG == LEFT_EMBEDDED_FLAG) == l.is_embedded(),
        (e[0] & RIGHT_EMBEDDED_FLAG == RIGHT_EMBEDDED_FLAG) == r.is_embedded(),
        shared_path_serializer::read_spath_spec(e, 1, n.shared_path.len() > 0) == Some(
            (n.shared_path, off1),
        ),
        l.is_present() ==> dec_ref_spec(e, off1, l.is_embedded()) == Some(
            (ce_ref_model(l), off2),
        ),
        !l.is_present() ==> off2 == off1,
        r.is_present() ==> dec_ref_spec(e, off2, r.is_embedded()) == Some(
            (ce_ref_model(r), off3),
        ),
        !r.is_present() ==> off3 == off2,
        (l.is_present() || r.is_present()) ==> crate::varint::decode_spec(e, off3) == Some(
            (csv, off4),
        ),
        !(l.is_present() || r.is_present()) ==> off4 == off3,
        n.value.is_long() ==> (n.value.len() is Some) && off4 + 35 == e.len() && e.subrange(
            off4,
            off4 + 32,
        ) == n.value.hash_model().unwrap() && u24_val(e[off4 + 32], e[off4 + 33], e[off4 + 34])
            == n.value.len().unwrap(),
        !n.value.is_long() ==> 0 <= off4 <= e.len() && (match n.value.inline_bytes_model() {
            Some(v) => e.subrange(off4, e.len() as int) == v,
            None => off4 == e.len(),
        }),
    ensures
        decode_node_spec(e) == Some(decoded_form(n, l, r)),
{
    if !n.value.is_long() {
        match n.value.inline_bytes_model() {
            Some(v) => {},
            None => {
                assert(e.subrange(off4, e.len() as int) =~= Seq::<u8>::empty());
            },
        }
    }
}

/// One present child reference reads back as written.
#[verifier::spinoff_prover]
proof fn lemma_rt_child(e: Seq<u8>, off: int, c: CEModel)
    requires
        c.is_present(),
        ce_decodes(c),
        (ce_bytes_spec(c) is Some),
        1 <= off,
        off + ce_bytes_spec(c).unwrap().len() <= e.len(),
        e.subrange(off, off + ce_bytes_spec(c).unwrap().len() as int) == ce_bytes_spec(c).unwrap(),
    ensures
        dec_ref_spec(e, off, c.is_embedded()) == Some(
            (ce_ref_model(c), off + ce_bytes_spec(c).unwrap().len() as int),
        ),
{
    let cb = ce_bytes_spec(c).unwrap();
    match c {
        CEModel::Empty => {},
        CEModel::Hashed(h) => {
            assert(e.subrange(off, off + 32) =~= h);
        },
        CEModel::Embedded(b) => {
            assert(e[off] == e.subrange(off, off + cb.len() as int)[0]);
            assert(e[off] as int == b.len());
            assert(e.subrange(off + 1, off + 1 + b.len() as int) =~= e.subrange(
                off,
                off + cb.len() as int,
            ).subrange(1, cb.len() as int));
            assert(e.subrange(off, off + cb.len() as int).subrange(1, cb.len() as int) =~= b);
        },
    }
}

/// A long value's node bytes never carry the value itself: they end in
/// the value's 32-byte digest followed by its 3-byte big-endian length.
pub proof fn lemma_long_value_tail(n: NodeModel, l: CEModel, r: CEModel, cs: Option<u64>)
    requires
        n.wf(),
        encode_ok(n, l, r, cs),
        n.value.is_long(),
    ensures
        ({
            let e = encode_node_spec(n, l, r, cs).unwrap();
            e.len() >= 35 && e.subrange(e.len() - 35, e.len() - 3) == n.value.hash_model().unwrap()
                && e.subrange(e.len() - 3, e.len() as int) == u24_spec(n.value.len().unwrap())
        }),
{
    let e = encode_node_spec(n, l, r, cs).unwrap();
    let h = n.value.hash_model().unwrap();
    let len = n.value.len().unwrap();
    assert(h.len() == 32);
    let lb = ce_bytes_spec(l).unwrap();
    let rb = ce_bytes_spec(r).unwrap();
    let csb = if l.is_present() || r.is_present() {
        crate::varint::encode_spec(cs.unwrap_or(0))
    } else {
        Seq::<u8>::empty()
    };
    let head = seq![flags_spec(n, l, r)] + shared_path_serializer::spath_block_spec(
        n.shared_path,
    ) + lb + rb + csb;
    assert(e == head + h + u24_spec(len));
    assert(e.subrange(e.len() - 35, e.len() - 3) =~= h);
    assert(e.subrange(e.len() - 3, e.len() as int) =~= u24_spec(len));
}

/// Reading back a written node yields the same logical node: the same
/// shared path, the children exactly as they were referenced, and the
/// value inline or by digest according to the 32-byte threshold.
#[verifier::rlimit(100)]
#[verifier::spinoff_prover]
pub proof fn lemma_rskip_round_trip(
    n: NodeModel,
    l: CEModel,
    r: CEModel,
    cs: Option<u64>,
)
    requires
        n.wf(),
        n.shared_path.len() <= usize::MAX,
        encode_ok(n, l, r, cs),
        ce_decodes(l),
        ce_decodes(r),
    ensures
        decode_node_spec(encode_node_spec(n, l, r, cs).unwrap()) == Some(decoded_form(n, l, r)),
{
    let e = encode_node_spec(n, l, r, cs).unwrap();
    let flags = flags_spec(n, l, r);
    let lp = l.is_present();
    let rp = r.is_present();
    let sp_present = n.shared_path.len() > 0;
    let spb = shared_path_serializer::spath_block_spec(n.shared_path);
    let lb = ce_bytes_spec(l).unwrap();
    let rb = ce_bytes_spec(r).unwrap();
    let csb = if lp || rp {
        crate::varint::encode_spec(cs.unwrap_or(0))
    } else {
        Seq::<u8>::empty()
    };
    let tail = if n.value.is_long() {
        n.value.hash_model().unwrap() + u24_spec(n.value.len().unwrap())
    } else {
        match n.value.inline_bytes_model() {
            Some(v) => v,
            None => Seq::<u8>::empty(),
        }
    };
    let head = seq![flags] + spb + lb + rb + csb;
    let whole = seq![flags] + spb + lb + rb + csb + tail;
    assert(e =~= whole) by {
        if n.value.is_long() {
            assert(e == head + n.value.hash_model().unwrap() + u24_spec(n.value.len().unwrap()));
            assert(head + n.value.hash_model().unwrap() + u24_spec(n.value.len().unwrap())
                =~= whole);
        } else {
            assert(e =~= head + tail);
            assert(head + tail =~= whole);
        }
    };
    lemma_concat6(seq![flags], spb, lb, rb, csb, tail);

    let off1 = 1 + spb.len() as int;
    let off2 = off1 + lb.len() as int;
    let off3 = off2 + rb.len() as int;
    let off4 = off3 + csb.len() as int;
    assert(e.len() == off4 + tail.len());
    assert(e.subrange(off1, off2) == lb);
    assert(e.subrange(off2, off3) == rb);
    assert(e.subrange(off4, e.len() as int) == tail);

    lemma_flags_bits(
        b2i(n.value.is_long()),
        b2i(sp_present),
        b2i(lp),
        b2i(rp),
        b2i(l.is_embedded()),
        b2i(r.is_embedded()),
    );
    assert(e[0] == flags);
    assert(flags & VERSION_MASK == VERSION_FLAG);
    assert((flags & LONG_VALUE_FLAG == LONG_VALUE_FLAG) == n.value.is_long());
    assert((flags & SHARED_PREFIX_FLAG == SHARED_PREFIX_FLAG) == sp_present);
    assert((flags & LEFT_PRESENT_FLAG == LEFT_PRESENT_FLAG) == lp);
    assert((flags & RIGHT_PRESENT_FLAG == RIGHT_PRESENT_FLAG) == rp);
    assert((flags & LEFT_EMBEDDED_FLAG == LEFT_EMBEDDED_FLAG) == l.is_embedded());
    assert((flags & RIGHT_EMBEDDED_FLAG == RIGHT_EMBEDDED_FLAG) == r.is_embedded());

    if sp_present {
        shared_path_serializer::lemma_spath_round_trip(
            n.shared_path,
            seq![flags],
            lb + rb + csb + tail,
        );
        assert(seq![flags] + spb + (lb + rb + csb + tail) =~= e);
        assert(shared_path_serializer::read_spath_spec(e, 1, true) == Some(
            (n.shared_path, off1),
        ));
    } else {
        assert(n.shared_path =~= Seq::<u8>::empty());
        assert(shared_path_serializer::read_spath_spec(e, 1, false) == Some(
            (n.shared_path, off1),
        ));
    }

    if lp {
        lemma_rt_child(e, off1, l);
        assert(dec_ref_spec(e, off1, l.is_embedded()) == Some((ce_ref_model(l), off2)));
    }
    if rp {
        lemma_rt_child(e, off2, r);
        assert(dec_ref_spec(e, off2, r.is_embedded()) == Some((ce_ref_model(r), off3)));
    }

    if lp || rp {
        crate::varint::lemma_round_trip(cs.unwrap_or(0), seq![flags] + spb + lb + rb, tail);
        crate::varint::lemma_encode_spec_len(cs.unwrap_or(0));
        assert((seq![flags] + spb + lb + rb) + csb + tail =~= e);
        assert(crate::varint::decode_spec(e, off3) == Some((cs.unwrap_or(0), off4)));
    }

    if n.value.is_long() {
        let h = n.value.hash_model().unwrap();
        let len = n.value.len().unwrap();
        assert(h.len() == 32);
        assert(tail.len() == 35);
        assert(off4 + 35 == e.len());
        assert(e.subrange(off4, off4 + 32) =~= e.subrange(off4, e.len() as int).subrange(0, 32));
        assert(e.subrange(off4, e.len() as int).subrange(0, 32) =~= h);
        assert(e[off4 + 32] == tail[32] && e[off4 + 33] == tail[33] && e[off4 + 34] == tail[34]);
        lemma_u24_round_trip(len);
        assert(u24_val(e[off4 + 32], e[off4 + 33], e[off4 + 34]) == len);
    } else {
        match n.value.inline_bytes_model() {
            Some(v) => {
                assert(e.subrange(off4, e.len() as int) =~= v);
            },
            None => {
                assert(tail =~= Seq::<u8>::empty());
                assert(off4 == e.len());
            },
        }
    }
    lemma_rt_assemble(e, n, l, r, off1, off2, off3, off4, cs.unwrap_or(0));
}

} // verus!
