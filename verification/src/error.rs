//! The failure modes of decoding, encoding and persistence.

use vstd::prelude::*;

verus! {

/// Every fallible operation of the trie reports one of these conditions.
#[derive(Clone, Copy, Debug, PartialEq, Eq, Structural)]
pub enum TrieError {
    /// A codec ran past the end of its input.
    DecodeTruncated,
    /// A wrong arity or version marker, or a bit value above 1 in a path.
    DecodeInvalidHeader,
    /// Bytes were left over after a node's value tail.
    DecodeTrailingData,
    /// An embedded child's serialized form exceeds 255 bytes.
    EmbeddedTooLarge,
    /// A long value's length does not fit in 3 bytes.
    ValueTooLarge,
    /// A referenced hash is absent from the store.
    MissingStoreEntry,
    /// A hashed child reference was met while encoding an in-memory tree.
    UnresolvedHashInEncode,
    /// A persisted root digest that is not 32 bytes.
    InvalidRootLength,
    /// A node with a child present was encoded without a children size.
    MissingChildrenSize,
    /// A long value whose length is unknown cannot be re-encoded.
    MissingValueLength,
    /// The persisted graph nests deeper than the rehydration walk will follow.
    StoreGraphTooDeep,
    /// A configuration name that names no engine.
    UnknownImplementation,
}

} // verus!
