//! In-memory trie nodes: shared bit paths, value references and child
//! references, together with their mathematical models.

use vstd::prelude::*;

use crate::entries::clone_bytes;
use crate::error::TrieError;
use crate::hash::{keccak256, keccak256_spec};

verus! {

pub const HASH_SIZE: usize = 32;

pub const LONG_VALUE_THRESHOLD: usize = 32;

pub const MAX_EMBEDDED_NODE_SIZE_IN_BYTES: usize = 44;

#[derive(Debug, Clone, Copy, Eq, PartialEq)]
pub enum CodecMode {
    Rskip107,
    Orchid,
}

/// True when every element of `bits` is 0 or 1.
pub open spec fn path_bits_wf(bits: Seq<u8>) -> bool {
    forall|i: int| 0 <= i < bits.len() ==> bits[i] <= 1
}

/// Model of a node's value: absent, carried inline, or referenced by digest.
pub enum ValueModel {
    Empty,
    Inline(Seq<u8>),
    Hashed { hash: Seq<u8>, length: Option<nat> },
}

/// Model of a child reference.
pub enum RefModel {
    Empty,
    Embedded(Box<NodeModel>),
    Hashed(Seq<u8>),
}

/// Model of a node: a shared bit path, a value, and two children.
pub struct NodeModel {
    pub shared_path: Seq<u8>,
    pub value: ValueModel,
    pub left: RefModel,
    pub right: RefModel,
}

impl ValueModel {
    pub open spec fn len(self) -> Option<nat> {
        match self {
            ValueModel::Empty => Some(0),
            ValueModel::Inline(v) => Some(v.len()),
            ValueModel::Hashed { length, .. } => length,
        }
    }

    pub open spec fn has_value(self) -> bool {
        match self {
            ValueModel::Empty => false,
            ValueModel::Inline(v) => v.len() > 0,
            ValueModel::Hashed { .. } => true,
        }
    }

    /// A value is long when its length exceeds the 32-byte threshold, and
    /// also when the length is unknown.
    pub open spec fn is_long(self) -> bool {
        match self.len() {
            Some(l) => l > LONG_VALUE_THRESHOLD,
            None => true,
        }
    }

    pub open spec fn hash_model(self) -> Option<Seq<u8>> {
        match self {
            ValueModel::Empty => None,
            ValueModel::Inline(v) => Some(keccak256_spec(v)@),
            ValueModel::Hashed { hash, .. } => Some(hash),
        }
    }

    pub open spec fn inline_bytes_model(self) -> Option<Seq<u8>> {
        match self {
            ValueModel::Inline(v) => Some(v),
            _ => None,
        }
    }

    pub open spec fn wf(self) -> bool {
        match self {
            ValueModel::Empty => true,
            ValueModel::Inline(v) => v.len() > 0,
            ValueModel::Hashed { hash, .. } => hash.len() == HASH_SIZE,
        }
    }
}

impl RefModel {
    pub open spec fn wf(self) -> bool
        decreases self,
    {
        match self {
            RefModel::Empty => true,
            RefModel::Embedded(n) => n.wf(),
            RefModel::Hashed(h) => h.len() == HASH_SIZE,
        }
    }

    pub open spec fn is_empty(self) -> bool {
        self is Empty
    }
}

impl NodeModel {
    pub open spec fn wf(self) -> bool
        decreases self,
    {
        &&& path_bits_wf(self.shared_path)
        &&& self.value.wf()
        &&& self.left.wf()
        &&& self.right.wf()
    }

    pub open spec fn is_terminal(self) -> bool {
        self.left is Empty && self.right is Empty
    }

    pub open spec fn value_length(self) -> nat {
        match self.value.len() {
            Some(l) => l,
            None => 0,
        }
    }

    pub open spec fn is_empty_trie(self) -> bool {
        !self.value.has_value() && self.is_terminal()
    }
}

/// Normal form of an inline value: an empty byte string is no value at all.
pub open spec fn inline_model(v: Seq<u8>) -> ValueModel {
    if v.len() == 0 {
        ValueModel::Empty
    } else {
        ValueModel::Inline(v)
    }
}

#[derive(Debug, Eq, PartialEq)]
pub struct SharedPath {
    bits: Vec<u8>,
}

impl View for SharedPath {
    type V = Seq<u8>;

    closed spec fn view(&self) -> Seq<u8> {
        self.bits@
    }
}

impl SharedPath {
    pub open spec fn wf(&self) -> bool {
        path_bits_wf(self@)
    }

    pub fn empty() -> (r: Self)
        ensures
            r@ == Seq::<u8>::empty(),
            r.wf(),
    {
        Self { bits: Vec::new() }
    }

    /// Accepts exactly the byte vectors whose elements are all 0 or 1.
    pub fn from_bits(bits: Vec<u8>) -> (r: Result<Self, TrieError>)
        ensures
            r matches Ok(p) ==> p@ == bits@ && p.wf(),
            r is Ok <==> path_bits_wf(bits@),
            r is Err ==> r == Err::<Self, TrieError>(TrieError::DecodeInvalidHeader),
    {
        let mut i: usize = 0;
        while i < bits.len()
            invariant
                i <= bits@.len(),
                forall|j: int| 0 <= j < i ==> bits@[j] <= 1,
            decreases bits@.len() - i,
        {
            if bits[i] > 1 {
                return Err(TrieError::DecodeInvalidHeader);
            }
            i += 1;
        }
        Ok(Self { bits })
    }

    pub fn len(&self) -> (r: usize)
        ensures
            r == self@.len(),
    {
        self.bits.len()
    }

    pub fn is_empty(&self) -> (r: bool)
        ensures
            r == (self@.len() == 0),
    {
        self.bits.is_empty()
    }

    pub fn as_bits(&self) -> (r: &[u8])
        ensures
            r@ == self@,
    {
        self.bits.as_slice()
    }

    /// The bits packed MSB-first into bytes.
    pub fn encoded(&self) -> (r: Vec<u8>)
        requires
            self.wf(),
        ensures
            r@ == crate::path::shared_path_serializer::pack_bits_spec(self@),
    {
        crate::path::shared_path_serializer::encode(self.bits.as_slice())
    }
}

#[derive(Debug, Eq, PartialEq)]
pub enum ValueRef {
    Empty,
    Inline(Vec<u8>),
    Hashed { hash: [u8; HASH_SIZE], length: Option<usize> },
}

impl View for ValueRef {
    type V = ValueModel;

    open spec fn view(&self) -> ValueModel {
        match self {
            ValueRef::Empty => ValueModel::Empty,
            ValueRef::Inline(v) => ValueModel::Inline(v@),
            ValueRef::Hashed { hash, length } => ValueModel::Hashed {
                hash: hash@,
                length: match length {
                    Some(l) => Some(*l as nat),
                    None => None,
                },
            },
        }
    }
}

impl ValueRef {
    pub fn empty() -> (r: Self)
        ensures
            r@ == ValueModel::Empty,
    {
        Self::Empty
    }

    /// An empty byte vector is normalized to the absent value.
    pub fn inline(value: Vec<u8>) -> (r: Self)
        ensures
            r@ == inline_model(value@),
    {
        if value.is_empty() {
            return Self::Empty;
        }
        Self::Inline(value)
    }

    pub fn hashed(hash: [u8; HASH_SIZE], length: Option<usize>) -> (r: Self)
        ensures
            r@ == (ValueModel::Hashed {
                hash: hash@,
                length: match length {
                    Some(l) => Some(l as nat),
                    None => None,
                },
            }),
    {
        Self::Hashed { hash, length }
    }

    pub fn len(&self) -> (r: Option<usize>)
        ensures
            r matches Some(l) ==> self@.len() == Some(l as nat),
            r is None ==> self@.len() is None,
    {
        match self {
            ValueRef::Empty => Some(0),
            ValueRef::Inline(value) => Some(value.len()),
            ValueRef::Hashed { length, .. } => *length,
        }
    }

    pub fn is_empty(&self) -> (r: bool)
        ensures
            r == (self@ is Empty || self@.len() == Some(0nat)),
    {
        match self {
            ValueRef::Empty => true,
            ValueRef::Inline(value) => value.is_empty(),
            ValueRef::Hashed { length, .. } => match length {
                Some(l) => *l == 0,
                None => false,
            },
        }
    }

    pub fn has_value(&self) -> (r: bool)
        ensures
            r == self@.has_value(),
    {
        match self {
            ValueRef::Empty => false,
            ValueRef::Inline(value) => !value.is_empty(),
            ValueRef::Hashed { .. } => true,
        }
    }

    pub fn has_long_value(&self) -> (r: bool)
        ensures
            r == self@.is_long(),
    {
        match self.len() {
            Some(length) => length > LONG_VALUE_THRESHOLD,
            None => true,
        }
    }

    pub fn hash(&self) -> (r: Option<[u8; HASH_SIZE]>)
        ensures
            r matches Some(h) ==> self@.hash_model() == Some(h@),
            r is None <==> self@.hash_model() is None,
    {
        match self {
            ValueRef::Empty => None,
            ValueRef::Inline(value) => Some(keccak256(value.as_slice())),
            ValueRef::Hashed { hash, .. } => Some(*hash),
        }
    }

    pub fn inline_bytes(&self) -> (r: Option<&Vec<u8>>)
        ensures
            r matches Some(v) ==> self@.inline_bytes_model() == Some(v@),
            r is None <==> self@.inline_bytes_model() is None,
    {
        match self {
            ValueRef::Inline(value) => Some(value),
            _ => None,
        }
    }

    pub fn with_known_length(self, length: usize) -> (r: Self)
        ensures
            r@ == (match self@ {
                ValueModel::Hashed { hash, .. } => ValueModel::Hashed {
                    hash,
                    length: Some(length as nat),
                },
                other => other,
            }),
    {
        match self {
            ValueRef::Hashed { hash, .. } => ValueRef::Hashed { hash, length: Some(length) },
            other => other,
        }
    }
}

#[derive(Debug, Eq, PartialEq)]
pub enum NodeReference {
    Empty,
    Embedded(Box<TrieNode>),
    Hashed([u8; HASH_SIZE]),
}

#[derive(Debug, Eq, PartialEq)]
pub struct TrieNode {
    pub shared_path: SharedPath,
    pub value: ValueRef,
    pub left: NodeReference,
    pub right: NodeReference,
}

/// The model of an in-memory node, recursively through embedded children.
pub open spec fn node_model(n: TrieNode) -> NodeModel
    decreases n,
{
    NodeModel {
        shared_path: n.shared_path@,
        value: n.value@,
        left: ref_model(n.left),
        right: ref_model(n.right),
    }
}

pub open spec fn ref_model(r: NodeReference) -> RefModel
    decreases r,
{
    match r {
        NodeReference::Empty => RefModel::Empty,
        NodeReference::Embedded(b) => RefModel::Embedded(Box::new(node_model(*b))),
        NodeReference::Hashed(h) => RefModel::Hashed(h@),
    }
}

impl View for NodeReference {
    type V = RefModel;

    open spec fn view(&self) -> RefModel {
        ref_model(*self)
    }
}

impl View for TrieNode {
    type V = NodeModel;

    open spec fn view(&self) -> NodeModel {
        node_model(*self)
    }
}

impl NodeReference {
    pub fn empty() -> (r: Self)
        ensures
            r@ == RefModel::Empty,
    {
        Self::Empty
    }

    pub fn embedded(node: TrieNode) -> (r: Self)
        ensures
            r@ == RefModel::Embedded(Box::new(node@)),
    {
        Self::Embedded(Box::new(node))
    }

    pub fn hashed(hash: [u8; HASH_SIZE]) -> (r: Self)
        ensures
            r@ == RefModel::Hashed(hash@),
    {
        Self::Hashed(hash)
    }

    pub fn is_empty(&self) -> (r: bool)
        ensures
            r == self@.is_empty(),
    {
        matches!(self, NodeReference::Empty)
    }
}

impl TrieNode {
    pub fn new(shared_path: SharedPath, value: ValueRef, left: NodeReference, right: NodeReference) -> (r: Self)
        ensures
            r@ == (NodeModel {
                shared_path: shared_path@,
                value: value@,
                left: left@,
                right: right@,
            }),
    {
        Self { shared_path, value, left, right }
    }

    pub fn empty() -> (r: Self)
        ensures
            r@ == (NodeModel {
                shared_path: Seq::<u8>::empty(),
                value: ValueModel::Empty,
                left: RefModel::Empty,
                right: RefModel::Empty,
            }),
    {
        Self::new(SharedPath::empty(), ValueRef::empty(), NodeReference::empty(), NodeReference::empty())
    }

    pub fn is_terminal(&self) -> (r: bool)
        ensures
            r == self@.is_terminal(),
    {
        self.left.is_empty() && self.right.is_empty()
    }

    pub fn has_value(&self) -> (r: bool)
        ensures
            r == self@.value.has_value(),
    {
        self.value.has_value()
    }

    pub fn value_length(&self) -> (r: usize)
        ensures
            r == self@.value_length(),
    {
        match self.value.len() {
            Some(l) => l,
            None => 0,
        }
    }

    pub fn has_long_value(&self) -> (r: bool)
        ensures
            r == self@.value.is_long(),
    {
        self.value.has_long_value()
    }

    pub fn is_empty_trie(&self) -> (r: bool)
        ensures
            r == self@.is_empty_trie(),
    {
        !self.has_value() && self.left.is_empty() && self.right.is_empty()
    }
}

impl Clone for SharedPath {
    fn clone(&self) -> (r: Self)
        ensures
            r@ == self@,
    {
        SharedPath { bits: clone_bytes(&self.bits) }
    }
}

impl Clone for ValueRef {
    fn clone(&self) -> (r: Self)
        ensures
            r@ == self@,
    {
        match self {
            ValueRef::Empty => ValueRef::Empty,
            ValueRef::Inline(v) => ValueRef::Inline(clone_bytes(v)),
            ValueRef::Hashed { hash, length } => ValueRef::Hashed { hash: *hash, length: *length },
        }
    }
}

fn clone_node(n: &TrieNode) -> (r: TrieNode)
    ensures
        r@ == n@,
    decreases *n,
{
    TrieNode {
        shared_path: n.shared_path.clone(),
        value: n.value.clone(),
        left: clone_reference(&n.left),
        right: clone_reference(&n.right),
    }
}

fn clone_reference(r: &NodeReference) -> (out: NodeReference)
    ensures
        out@ == r@,
    decreases *r,
{
    match r {
        NodeReference::Empty => NodeReference::Empty,
        NodeReference::Embedded(b) => NodeReference::Embedded(Box::new(clone_node(b))),
        NodeReference::Hashed(h) => NodeReference::Hashed(*h),
    }
}

impl Clone for NodeReference {
    fn clone(&self) -> (r: Self)
        ensures
            r@ == self@,
    {
        clone_reference(self)
    }
}

impl Clone for TrieNode {
    fn clone(&self) -> (r: Self)
        ensures
            r@ == self@,
    {
        clone_node(self)
    }
}

} // verus!
