//! The next engine's node shape: packed paths, arena child references.

use vstd::prelude::*;

use crate::next::path_bits::PathBits;
use crate::node_ref::{HASH_SIZE, LONG_VALUE_THRESHOLD};

verus! {

#[derive(Debug, Eq, PartialEq)]
pub enum NextChildRef {
    Empty,
    InMemory(u64),
    Hashed([u8; HASH_SIZE]),
}

#[derive(Debug, Eq, PartialEq)]
pub enum NextValueRef {
    Empty,
    Inline(Vec<u8>),
    Hashed { hash: [u8; HASH_SIZE], length: usize },
}

impl NextValueRef {
    pub open spec fn len_spec(&self) -> nat {
        match self {
            NextValueRef::Empty => 0,
            NextValueRef::Inline(v) => v@.len(),
            NextValueRef::Hashed { length, .. } => *length as nat,
        }
    }

    pub fn len(&self) -> (r: usize)
        ensures
            r == self.len_spec(),
    {
        match self {
            NextValueRef::Empty => 0,
            NextValueRef::Inline(value) => value.len(),
            NextValueRef::Hashed { length, .. } => *length,
        }
    }

    pub fn has_long_value(&self) -> (r: bool)
        ensures
            r == (self.len_spec() > LONG_VALUE_THRESHOLD),
    {
        self.len() > LONG_VALUE_THRESHOLD
    }
}

#[derive(Debug, Eq, PartialEq)]
pub struct NextNode {
    pub shared_path: PathBits,
    pub value: NextValueRef,
    pub left: NextChildRef,
    pub right: NextChildRef,
}

impl NextNode {
    pub fn empty() -> (r: Self)
        ensures
            r.shared_path@ == Seq::<u8>::empty(),
            r.value == NextValueRef::Empty,
            r.left == NextChildRef::Empty,
            r.right == NextChildRef::Empty,
    {
        NextNode {
            shared_path: PathBits::empty(),
            value: NextValueRef::Empty,
            left: NextChildRef::Empty,
            right: NextChildRef::Empty,
        }
    }
}

} // verus!
