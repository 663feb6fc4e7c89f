//! The 1/3/5/9-byte little-endian variable-length integer codec.

use vstd::bytes::{
    lemma_auto_spec_u16_to_from_le_bytes, lemma_auto_spec_u32_to_from_le_bytes,
    lemma_auto_spec_u64_to_from_le_bytes, spec_u16_from_le_bytes, spec_u16_to_le_bytes,
    spec_u32_from_le_bytes, spec_u32_to_le_bytes, spec_u64_from_le_bytes, spec_u64_to_le_bytes,
    u16_from_le_bytes, u16_to_le_bytes, u32_from_le_bytes, u32_to_le_bytes, u64_from_le_bytes,
    u64_to_le_bytes,
};
use vstd::prelude::*;
use vstd::slice::slice_subrange;

use crate::error::TrieError;

verus! {

/// Number of bytes that `encode` emits for `value`.
pub open spec fn size_of_spec(value: u64) -> nat {
    if value < 0xfd {
        1
    } else if value <= 0xffff {
        3
    } else if value <= 0xffff_ffff {
        5
    } else {
        9
    }
}

/// The wire bytes of `value`: either the value itself in one byte, or a
/// marker byte 0xfd/0xfe/0xff followed by 2, 4 or 8 little-endian bytes.
pub open spec fn encode_spec(value: u64) -> Seq<u8> {
    if value < 0xfd {
        seq![value as u8]
    } else if value <= 0xffff {
        seq![0xfdu8] + spec_u16_to_le_bytes(value as u16)
    } else if value <= 0xffff_ffff {
        seq![0xfeu8] + spec_u32_to_le_bytes(value as u32)
    } else {
        seq![0xffu8] + spec_u64_to_le_bytes(value)
    }
}

pub proof fn lemma_encode_spec_len(value: u64)
    ensures
        encode_spec(value).len() == size_of_spec(value),
{
    lemma_auto_spec_u16_to_from_le_bytes();
    lemma_auto_spec_u32_to_from_le_bytes();
    lemma_auto_spec_u64_to_from_le_bytes();
}

/// What a decode starting at `offset` yields: the value and the offset just
/// past its encoding, or nothing when the input is exhausted too early.
pub open spec fn decode_spec(input: Seq<u8>, offset: int) -> Option<(u64, int)> {
    if !(0 <= offset < input.len()) {
        None
    } else {
        let first = input[offset];
        if first == 0xfd {
            if offset + 3 <= input.len() {
                Some(
                    (
                        spec_u16_from_le_bytes(input.subrange(offset + 1, offset + 3)) as u64,
                        offset + 3,
                    ),
                )
            } else {
                None
            }
        } else if first == 0xfe {
            if offset + 5 <= input.len() {
                Some(
                    (
                        spec_u32_from_le_bytes(input.subrange(offset + 1, offset + 5)) as u64,
                        offset + 5,
                    ),
                )
            } else {
                None
            }
        } else if first == 0xff {
            if offset + 9 <= input.len() {
                Some((spec_u64_from_le_bytes(input.subrange(offset + 1, offset + 9)), offset + 9))
            } else {
                None
            }
        } else {
            Some((first as u64, offset + 1))
        }
    }
}

/// Decoding an encoding embedded in any surrounding bytes yields the value
/// back and consumes exactly its `size_of_spec` bytes.
pub proof fn lemma_round_trip(value: u64, prefix: Seq<u8>, suffix: Seq<u8>)
    ensures
        decode_spec(prefix + encode_spec(value) + suffix, prefix.len() as int) == Some(
            (value, (prefix.len() + size_of_spec(value)) as int),
        ),
{
    lemma_auto_spec_u16_to_from_le_bytes();
    lemma_auto_spec_u32_to_from_le_bytes();
    lemma_auto_spec_u64_to_from_le_bytes();
    let whole = prefix + encode_spec(value) + suffix;
    let off = prefix.len() as int;
    assert(whole[off] == encode_spec(value)[0]);
    if value < 0xfd {
    } else if value <= 0xffff {
        assert(whole.subrange(off + 1, off + 3) =~= spec_u16_to_le_bytes(value as u16));
    } else if value <= 0xffff_ffff {
        assert(whole.subrange(off + 1, off + 5) =~= spec_u32_to_le_bytes(value as u32));
    } else {
        assert(whole.subrange(off + 1, off + 9) =~= spec_u64_to_le_bytes(value));
    }
}

/// A successful decode moves the offset forward, staying inside the input.
pub proof fn lemma_decode_spec_bounds(input: Seq<u8>, offset: int)
    ensures
        decode_spec(input, offset) matches Some((v, off2)) ==> offset < off2 <= input.len(),
{
}

pub fn size_of(value: u64) -> (r: usize)
    ensures
        r == size_of_spec(value),
{
    if value < 0xfd {
        1
    } else if value <= 0xffff {
        3
    } else if value <= 0xffff_ffff {
        5
    } else {
        9
    }
}

pub fn encode(value: u64) -> (r: Vec<u8>)
    ensures
        r@ == encode_spec(value),
{
    let mut encoded = Vec::new();
    encode_into(value, &mut encoded);
    proof {
        assert(encoded@ =~= encode_spec(value));
    }
    encoded
}

pub fn encode_into(value: u64, encoded: &mut Vec<u8>)
    ensures
        final(encoded)@ == old(encoded)@ + encode_spec(value),
{
    if value < 0xfd {
        encoded.push(value as u8);
        proof {
            assert(final(encoded)@ =~= old(encoded)@ + encode_spec(value));
        }
    } else if value <= 0xffff {
        encoded.push(0xfd);
        let tail = u16_to_le_bytes(value as u16);
        append_bytes(encoded, &tail);
        proof {
            assert(final(encoded)@ =~= old(encoded)@ + encode_spec(value));
        }
    } else if value <= 0xffff_ffff {
        encoded.push(0xfe);
        let tail = u32_to_le_bytes(value as u32);
        append_bytes(encoded, &tail);
        proof {
            assert(final(encoded)@ =~= old(encoded)@ + encode_spec(value));
        }
    } else {
        encoded.push(0xff);
        let tail = u64_to_le_bytes(value);
        append_bytes(encoded, &tail);
        proof {
            assert(final(encoded)@ =~= old(encoded)@ + encode_spec(value));
        }
    }
}

pub fn append_bytes(output: &mut Vec<u8>, tail: &Vec<u8>)
    ensures
        final(output)@ == old(output)@ + tail@,
{
    output.extend_from_slice(tail.as_slice());
    proof {
        assert(final(output)@ =~= old(output)@ + tail@);
    }
}

pub fn decode_from_slice(input: &[u8], offset: &mut usize) -> (r: Result<u64, TrieError>)
    ensures
        r is Ok <==> decode_spec(input@, *old(offset) as int) is Some,
        r matches Ok(v) ==> decode_spec(input@, *old(offset) as int) == Some(
            (v, *final(offset) as int),
        ),
        r is Err ==> r == Err::<u64, TrieError>(TrieError::DecodeTruncated) && *final(offset)
            == *old(offset),
{
    if *offset >= input.len() {
        return Err(TrieError::DecodeTruncated);
    }

    let first = input[*offset];
    let remaining = input.len() - *offset;

    if first == 0xfd {
        if remaining < 3 {
            return Err(TrieError::DecodeTruncated);
        }
        let bytes = slice_subrange(input, *offset + 1, *offset + 3);
        let value = u16_from_le_bytes(bytes);
        *offset += 3;
        Ok(value as u64)
    } else if first == 0xfe {
        if remaining < 5 {
            return Err(TrieError::DecodeTruncated);
        }
        let bytes = slice_subrange(input, *offset + 1, *offset + 5);
        let value = u32_from_le_bytes(bytes);
        *offset += 5;
        Ok(value as u64)
    } else if first == 0xff {
        if remaining < 9 {
            return Err(TrieError::DecodeTruncated);
        }
        let bytes = slice_subrange(input, *offset + 1, *offset + 9);
        let value = u64_from_le_bytes(bytes);
        *offset += 9;
        Ok(value)
    } else {
        *offset += 1;
        Ok(first as u64)
    }
}

} // verus!
