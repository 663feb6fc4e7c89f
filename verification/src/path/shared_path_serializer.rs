//! Bit-level shared-path codec: MSB-first packing of 0/1 bit sequences into
//! bytes, with the compact length header used by the current node codec.

use vstd::prelude::*;
use vstd::slice::slice_subrange;

use crate::error::TrieError;
use crate::node_ref::path_bits_wf;
use crate::varint;

verus! {

/// The bit at position `i`, or 0 past the end.
pub open spec fn bit_at(bits: Seq<u8>, i: int) -> u8 {
    if 0 <= i < bits.len() {
        bits[i]
    } else {
        0
    }
}

/// MSB-first accumulation of the first `j` bits of packed byte `i`.
pub open spec fn pb_rec(bits: Seq<u8>, i: int, j: nat) -> u8
    decreases j,
{
    if j == 0 {
        0
    } else {
        (pb_rec(bits, i, (j - 1) as nat) * 2 + bit_at(bits, 8 * i + j - 1)) as u8
    }
}

/// Byte `i` of the packed form of `bits`.
pub open spec fn packed_byte_spec(bits: Seq<u8>, i: int) -> u8 {
    pb_rec(bits, i, 8)
}

/// Length in bytes of the packed form of an `n`-bit path.
pub open spec fn celen_spec(n: nat) -> nat {
    n / 8 + if n % 8 == 0 {
        0nat
    } else {
        1nat
    }
}

/// The packed bytes of a bit path: bits MSB-first, zero padding at the end.
pub open spec fn pack_bits_spec(bits: Seq<u8>) -> Seq<u8> {
    Seq::new(celen_spec(bits.len()), |i: int| packed_byte_spec(bits, i))
}

/// Bit `j` (MSB first) of a byte.
pub open spec fn byte_bit_spec(byte: u8, j: int) -> u8 {
    if j == 0 {
        (byte / 128) % 2
    } else if j == 1 {
        (byte / 64) % 2
    } else if j == 2 {
        (byte / 32) % 2
    } else if j == 3 {
        (byte / 16) % 2
    } else if j == 4 {
        (byte / 8) % 2
    } else if j == 5 {
        (byte / 4) % 2
    } else if j == 6 {
        (byte / 2) % 2
    } else {
        byte % 2
    }
}

/// The first `n` bits read MSB-first out of `bytes`.
pub open spec fn unpack_bits_spec(bytes: Seq<u8>, n: nat) -> Seq<u8> {
    Seq::new(n, |i: int| byte_bit_spec(bytes[i / 8], i % 8))
}

/// The MSB-first bit expansion of a whole byte string, as used for trie keys.
pub open spec fn key_bits_spec(key: Seq<u8>) -> Seq<u8> {
    unpack_bits_spec(key, key.len() * 8)
}

/// Small power-of-two table, enough for one byte.
pub open spec fn pow2_small(j: nat) -> int {
    if j == 0 {
        1
    } else if j == 1 {
        2
    } else if j == 2 {
        4
    } else if j == 3 {
        8
    } else if j == 4 {
        16
    } else if j == 5 {
        32
    } else if j == 6 {
        64
    } else if j == 7 {
        128
    } else {
        256
    }
}

pub proof fn lemma_pb_bound(bits: Seq<u8>, i: int, j: nat)
    requires
        path_bits_wf(bits),
        j <= 8,
    ensures
        pb_rec(bits, i, j) < pow2_small(j),
    decreases j,
{
    if j > 0 {
        lemma_pb_bound(bits, i, (j - 1) as nat);
    }
}

/// Unfolded polynomial form of a packed byte, for well-formed bits.
pub proof fn lemma_pb_unfold(bits: Seq<u8>, i: int)
    requires
        path_bits_wf(bits),
    ensures
        packed_byte_spec(bits, i) == bit_at(bits, 8 * i) * 128 + bit_at(bits, 8 * i + 1) * 64
            + bit_at(bits, 8 * i + 2) * 32 + bit_at(bits, 8 * i + 3) * 16 + bit_at(bits, 8 * i + 4)
            * 8 + bit_at(bits, 8 * i + 5) * 4 + bit_at(bits, 8 * i + 6) * 2 + bit_at(
            bits,
            8 * i + 7,
        ),
{
    lemma_pb_bound(bits, i, 8);
    assert(pb_rec(bits, i, 0) == 0);
    assert(pb_rec(bits, i, 1) == bit_at(bits, 8 * i));
    assert(pb_rec(bits, i, 2) == pb_rec(bits, i, 1) * 2 + bit_at(bits, 8 * i + 1));
    assert(pb_rec(bits, i, 3) == pb_rec(bits, i, 2) * 2 + bit_at(bits, 8 * i + 2));
    assert(pb_rec(bits, i, 4) == pb_rec(bits, i, 3) * 2 + bit_at(bits, 8 * i + 3));
    assert(pb_rec(bits, i, 5) == pb_rec(bits, i, 4) * 2 + bit_at(bits, 8 * i + 4));
    assert(pb_rec(bits, i, 6) == pb_rec(bits, i, 5) * 2 + bit_at(bits, 8 * i + 5));
    assert(pb_rec(bits, i, 7) == pb_rec(bits, i, 6) * 2 + bit_at(bits, 8 * i + 6));
    assert(pb_rec(bits, i, 8) == pb_rec(bits, i, 7) * 2 + bit_at(bits, 8 * i + 7));
}

/// Extracting any bit of a packed byte gives the original bit back.
pub proof fn lemma_bit_extract(b0: u8, b1: u8, b2: u8, b3: u8, b4: u8, b5: u8, b6: u8, b7: u8)
    by (nonlinear_arith)
    requires
        b0 <= 1,
        b1 <= 1,
        b2 <= 1,
        b3 <= 1,
        b4 <= 1,
        b5 <= 1,
        b6 <= 1,
        b7 <= 1,
    ensures
        byte_bit_spec(
            (b0 * 128 + b1 * 64 + b2 * 32 + b3 * 16 + b4 * 8 + b5 * 4 + b6 * 2 + b7) as u8,
            0,
        ) == b0,
        byte_bit_spec(
            (b0 * 128 + b1 * 64 + b2 * 32 + b3 * 16 + b4 * 8 + b5 * 4 + b6 * 2 + b7) as u8,
            1,
        ) == b1,
        byte_bit_spec(
            (b0 * 128 + b1 * 64 + b2 * 32 + b3 * 16 + b4 * 8 + b5 * 4 + b6 * 2 + b7) as u8,
            2,
        ) == b2,
        byte_bit_spec(
            (b0 * 128 + b1 * 64 + b2 * 32 + b3 * 16 + b4 * 8 + b5 * 4 + b6 * 2 + b7) as u8,
            3,
        ) == b3,
        byte_bit_spec(
            (b0 * 128 + b1 * 64 + b2 * 32 + b3 * 16 + b4 * 8 + b5 * 4 + b6 * 2 + b7) as u8,
            4,
        ) == b4,
        byte_bit_spec(
            (b0 * 128 + b1 * 64 + b2 * 32 + b3 * 16 + b4 * 8 + b5 * 4 + b6 * 2 + b7) as u8,
            5,
        ) == b5,
        byte_bit_spec(
            (b0 * 128 + b1 * 64 + b2 * 32 + b3 * 16 + b4 * 8 + b5 * 4 + b6 * 2 + b7) as u8,
            6,
        ) == b6,
        byte_bit_spec(
            (b0 * 128 + b1 * 64 + b2 * 32 + b3 * 16 + b4 * 8 + b5 * 4 + b6 * 2 + b7) as u8,
            7,
        ) == b7,
{
}

/// A byte equals the MSB-first recombination of its bits.
pub proof fn lemma_byte_recompose(b: u8)
    by (bit_vector)
    ensures
        b == ((b / 128) % 2) * 128 + ((b / 64) % 2) * 64 + ((b / 32) % 2) * 32 + ((b / 16) % 2)
            * 16 + ((b / 8) % 2) * 8 + ((b / 4) % 2) * 4 + ((b / 2) % 2) * 2 + b % 2,
{
}

/// Unpacking a packed path returns the path.
pub proof fn lemma_pack_unpack(bits: Seq<u8>)
    requires
        path_bits_wf(bits),
    ensures
        unpack_bits_spec(pack_bits_spec(bits), bits.len()) == bits,
{
    let packed = pack_bits_spec(bits);
    let out = unpack_bits_spec(packed, bits.len());
    assert forall|k: int| 0 <= k < bits.len() implies out[k] == bits[k] by {
        let i = k / 8;
        let j = k % 8;
        assert(0 <= i < celen_spec(bits.len()));
        lemma_pb_unfold(bits, i);
        lemma_bit_extract(
            bit_at(bits, 8 * i),
            bit_at(bits, 8 * i + 1),
            bit_at(bits, 8 * i + 2),
            bit_at(bits, 8 * i + 3),
            bit_at(bits, 8 * i + 4),
            bit_at(bits, 8 * i + 5),
            bit_at(bits, 8 * i + 6),
            bit_at(bits, 8 * i + 7),
        );
        assert(8 * i + j == k);
        assert(out[k] == byte_bit_spec(packed[i], j));
    };
    assert(out =~= bits);
}

/// All unpacked bits are 0 or 1.
pub proof fn lemma_unpack_wf(bytes: Seq<u8>, n: nat)
    ensures
        path_bits_wf(unpack_bits_spec(bytes, n)),
{
}

/// Packing the bit expansion of whole bytes returns the bytes.
pub proof fn lemma_unpack_pack(bytes: Seq<u8>)
    ensures
        pack_bits_spec(unpack_bits_spec(bytes, bytes.len() * 8)) == bytes,
{
    let n = bytes.len() * 8;
    let bits = unpack_bits_spec(bytes, n);
    let packed = pack_bits_spec(bits);
    assert(celen_spec(n) == bytes.len());
    assert forall|i: int| 0 <= i < bytes.len() implies packed[i] == bytes[i] by {
        lemma_unpack_wf(bytes, n);
        lemma_pb_unfold(bits, i);
        assert forall|j: int| 0 <= j < 8 implies bit_at(bits, 8 * i + j) == byte_bit_spec(
            bytes[i],
            j,
        ) by {
            assert(0 <= 8 * i + j < n);
            assert((8 * i + j) / 8 == i && (8 * i + j) % 8 == j);
            assert(bits[8 * i + j] == byte_bit_spec(bytes[(8 * i + j) / 8], (8 * i + j) % 8));
        };
        lemma_byte_recompose(bytes[i]);
    };
    assert(packed =~= bytes);
}

/// Packed length of an `n`-bit path.
pub fn calculate_encoded_length(key_length: usize) -> (r: usize)
    ensures
        r == celen_spec(key_length as nat),
{
    key_length / 8 + if key_length % 8 == 0 {
        0
    } else {
        1
    }
}

/// One bit of a byte, MSB first.
pub fn byte_bit(byte: u8, j: usize) -> (r: u8)
    requires
        j < 8,
    ensures
        r == byte_bit_spec(byte, j as int),
{
    if j == 0 {
        (byte / 128) % 2
    } else if j == 1 {
        (byte / 64) % 2
    } else if j == 2 {
        (byte / 32) % 2
    } else if j == 3 {
        (byte / 16) % 2
    } else if j == 4 {
        (byte / 8) % 2
    } else if j == 5 {
        (byte / 4) % 2
    } else if j == 6 {
        (byte / 2) % 2
    } else {
        byte % 2
    }
}

/// Packs a 0/1 path MSB-first into bytes; unused trailing bits are zero.
pub fn encode(path: &[u8]) -> (r: Vec<u8>)
    requires
        path_bits_wf(path@),
    ensures
        r@ == pack_bits_spec(path@),
{
    let n = path.len();
    let total = calculate_encoded_length(n);
    let mut encoded: Vec<u8> = Vec::new();
    let mut i: usize = 0;
    while i < total
        invariant
            path_bits_wf(path@),
            n == path@.len(),
            total == celen_spec(n as nat),
            i <= total,
            encoded@.len() == i,
            forall|k: int| 0 <= k < i ==> encoded@[k] == packed_byte_spec(path@, k),
        decreases total - i,
    {
        assert(i * 8 <= n - 1) by {
            assert(i <= total - 1);
        };
        let base = i * 8;
        let mut byte: u8 = 0;
        let mut j: usize = 0;
        while j < 8
            invariant
                path_bits_wf(path@),
                n == path@.len(),
                base == i * 8,
                base < n,
                j <= 8,
                byte == pb_rec(path@, i as int, j as nat),
            decreases 8 - j,
        {
            proof {
                lemma_pb_bound(path@, i as int, j as nat);
            }
            byte = byte * 2;
            if n - base > j {
                byte = byte + path[base + j];
            }
            j += 1;
        }
        encoded.push(byte);
        i += 1;
    }
    proof {
        assert(encoded@ =~= pack_bits_spec(path@));
    }
    encoded
}

/// Reads `bit_length` bits MSB-first out of `encoded`.
pub fn decode(encoded: &[u8], bit_length: usize) -> (r: Vec<u8>)
    requires
        bit_length <= 8 * encoded@.len(),
    ensures
        r@ == unpack_bits_spec(encoded@, bit_length as nat),
{
    let mut path: Vec<u8> = Vec::new();
    let mut idx: usize = 0;
    while idx < bit_length
        invariant
            bit_length <= 8 * encoded@.len(),
            idx <= bit_length,
            path@.len() == idx,
            forall|k: int| 0 <= k < idx ==> path@[k] == byte_bit_spec(
                encoded@[k / 8],
                k % 8,
            ),
        decreases bit_length - idx,
    {
        let bit = byte_bit(encoded[idx / 8], idx % 8);
        path.push(bit);
        idx += 1;
    }
    proof {
        assert(path@ =~= unpack_bits_spec(encoded@, bit_length as nat));
    }
    path
}

/// Length in bytes of the compact header for an `n`-bit path.
pub open spec fn header_len_spec(n: nat) -> nat {
    if (1 <= n <= 32) || (160 <= n <= 382) {
        1
    } else {
        1 + varint::size_of_spec(n as u64)
    }
}

/// The compact header: lengths 1..=32 and 160..=382 fit in a single byte,
/// anything else is the escape byte 0xff followed by a varint.
pub open spec fn header_spec(n: nat) -> Seq<u8> {
    if 1 <= n <= 32 {
        seq![(n - 1) as u8]
    } else if 160 <= n <= 382 {
        seq![(n - 128) as u8]
    } else {
        seq![0xffu8] + varint::encode_spec(n as u64)
    }
}

/// The whole serialized path block: nothing for an empty path, else the
/// header followed by the packed bits.
pub open spec fn spath_block_spec(bits: Seq<u8>) -> Seq<u8> {
    if bits.len() == 0 {
        Seq::<u8>::empty()
    } else {
        header_spec(bits.len()) + pack_bits_spec(bits)
    }
}

pub fn calculate_varint_size(bit_length: usize) -> (r: usize)
    ensures
        r == header_len_spec(bit_length as nat),
{
    if (1 <= bit_length && bit_length <= 32) || (160 <= bit_length && bit_length <= 382) {
        return 1;
    }
    1 + varint::size_of(bit_length as u64)
}

pub fn serialized_length(shared_path_bits: &[u8]) -> (r: usize)
    ensures
        r == spath_block_spec(shared_path_bits@).len(),
    {
    if shared_path_bits.is_empty() {
        return 0;
    }
    let n = shared_path_bits.len();
    proof {
        vstd::arithmetic::div_mod::lemma_div_is_ordered_by_denominator(n as int, 8, 8);
        assert(celen_spec(n as nat) <= n);
        assert(header_spec(n as nat).len() == header_len_spec(n as nat)) by {
            varint::lemma_encode_spec_len(n as u64);
        };
    }
    calculate_varint_size(n) + calculate_encoded_length(n)
}

pub fn serialize_into(shared_path_bits: &[u8], output: &mut Vec<u8>)
    requires
        path_bits_wf(shared_path_bits@),
    ensures
        final(output)@ == old(output)@ + spath_block_spec(shared_path_bits@),
{
    if shared_path_bits.is_empty() {
        proof {
            assert(final(output)@ =~= old(output)@ + spath_block_spec(shared_path_bits@));
        }
        return ;
    }

    let bit_length = shared_path_bits.len();
    if 1 <= bit_length && bit_length <= 32 {
        output.push((bit_length - 1) as u8);
    } else if 160 <= bit_length && bit_length <= 382 {
        output.push((bit_length - 128) as u8);
    } else {
        output.push(0xff);
        let tail = varint::encode(bit_length as u64);
        varint::append_bytes(output, &tail);
    }

    let packed = encode(shared_path_bits);
    varint::append_bytes(output, &packed);
    proof {
        assert(final(output)@ =~= old(output)@ + spath_block_spec(shared_path_bits@));
    }
}

/// What reading a length header at `offset` yields.
pub open spec fn read_bitlen_spec(input: Seq<u8>, offset: int) -> Option<(nat, int)> {
    if !(0 <= offset < input.len()) {
        None
    } else {
        let first = input[offset];
        if first <= 31 {
            Some(((first + 1) as nat, offset + 1))
        } else if first <= 254 {
            Some(((first + 128) as nat, offset + 1))
        } else {
            match varint::decode_spec(input, offset + 1) {
                Some((v, off2)) => if v <= usize::MAX as u64 {
                    Some((v as nat, off2))
                } else {
                    None
                },
                None => None,
            }
        }
    }
}

/// What reading a whole path block at `offset` yields.
pub open spec fn read_spath_spec(input: Seq<u8>, offset: int, present: bool) -> Option<
    (Seq<u8>, int),
> {
    if !present {
        Some((Seq::<u8>::empty(), offset))
    } else {
        match read_bitlen_spec(input, offset) {
            Some((n, off2)) => {
                let el = celen_spec(n);
                if off2 + el <= input.len() {
                    Some((unpack_bits_spec(input.subrange(off2, off2 + el), n), off2 + el))
                } else {
                    None
                }
            },
            None => None,
        }
    }
}

pub fn read_path_bit_length(input: &[u8], offset: &mut usize) -> (r: Result<usize, TrieError>)
    ensures
        r is Ok <==> read_bitlen_spec(input@, *old(offset) as int) is Some,
        r matches Ok(n) ==> read_bitlen_spec(input@, *old(offset) as int) == Some(
            (n as nat, *final(offset) as int),
        ),
        r is Err ==> r == Err::<usize, TrieError>(TrieError::DecodeTruncated),
{
    if *offset >= input.len() {
        return Err(TrieError::DecodeTruncated);
    }

    let first = input[*offset];
    if first <= 31 {
        *offset += 1;
        Ok((first as usize) + 1)
    } else if first <= 254 {
        *offset += 1;
        Ok((first as usize) + 128)
    } else {
        let mut inner: usize = *offset + 1;
        let raw = match varint::decode_from_slice(input, &mut inner) {
            Ok(v) => v,
            Err(e) => {
                return Err(e);
            },
        };
        if raw > usize::MAX as u64 {
            return Err(TrieError::DecodeTruncated);
        }
        *offset = inner;
        Ok(raw as usize)
    }
}

pub fn deserialize_from_slice(input: &[u8], offset: &mut usize, shared_prefix_present: bool) -> (r:
    Result<Vec<u8>, TrieError>)
    ensures
        r is Ok <==> read_spath_spec(input@, *old(offset) as int, shared_prefix_present) is Some,
        r matches Ok(bits) ==> read_spath_spec(input@, *old(offset) as int, shared_prefix_present)
            == Some((bits@, *final(offset) as int)),
        r is Err ==> r == Err::<Vec<u8>, TrieError>(TrieError::DecodeTruncated),
{
    if !shared_prefix_present {
        return Ok(Vec::new());
    }

    let bit_length = match read_path_bit_length(input, offset) {
        Ok(n) => n,
        Err(e) => {
            return Err(e);
        },
    };
    let encoded_length = calculate_encoded_length(bit_length);
    if input.len() - *offset < encoded_length {
        return Err(TrieError::DecodeTruncated);
    }
    let end = *offset + encoded_length;
    let encoded = slice_subrange(input, *offset, end);
    proof {
        assert(bit_length as nat <= 8 * celen_spec(bit_length as nat));
    }
    let bits = decode(encoded, bit_length);
    *offset = end;
    Ok(bits)
}

/// Every path block that reads back successfully yields well-formed bits
/// inside the input's bounds.
pub proof fn lemma_read_spath_wf(input: Seq<u8>, offset: int, present: bool)
    requires
        0 <= offset <= input.len(),
    ensures
        read_spath_spec(input, offset, present) matches Some((bits, off)) ==> path_bits_wf(bits)
            && offset <= off <= input.len(),
{
    if present {
        match read_bitlen_spec(input, offset) {
            Some((n, off2)) => {
                let el = celen_spec(n);
                if off2 + el <= input.len() {
                    lemma_unpack_wf(input.subrange(off2, off2 + el), n);
                    assert(offset <= off2) by {
                        if input[offset] == 255 {
                            match varint::decode_spec(input, offset + 1) {
                                Some((v, o)) => {
                                    varint::lemma_decode_spec_bounds(input, offset + 1);
                                },
                                None => {},
                            }
                        }
                    };
                }
            },
            None => {},
        }
    }
}

/// Reading back a serialized path block embedded in any surrounding bytes
/// yields the bits and consumes exactly the block.
pub proof fn lemma_spath_round_trip(bits: Seq<u8>, prefix: Seq<u8>, suffix: Seq<u8>)
    requires
        path_bits_wf(bits),
        1 <= bits.len() <= usize::MAX,
    ensures
        read_spath_spec(prefix + spath_block_spec(bits) + suffix, prefix.len() as int, true)
            == Some((bits, prefix.len() + spath_block_spec(bits).len() as int)),
{
    let n = bits.len();
    let whole = prefix + spath_block_spec(bits) + suffix;
    let off = prefix.len() as int;
    let packed = pack_bits_spec(bits);
    varint::lemma_encode_spec_len(n as u64);
    assert(whole[off] == spath_block_spec(bits)[0]);
    if 1 <= n <= 32 {
        assert(read_bitlen_spec(whole, off) == Some((n, off + 1)));
    } else if 160 <= n <= 382 {
        assert(read_bitlen_spec(whole, off) == Some((n, off + 1)));
    } else {
        let vbytes = varint::encode_spec(n as u64);
        assert((prefix + seq![0xffu8]) + vbytes + (packed + suffix) =~= whole);
        varint::lemma_round_trip(n as u64, prefix + seq![0xffu8], packed + suffix);
        assert(read_bitlen_spec(whole, off) == Some((n, off + 1 + vbytes.len())));
    }
    let hl = header_spec(n).len() as int;
    let off2 = off + hl;
    assert(read_bitlen_spec(whole, off) == Some((n, off2)));
    let el = celen_spec(n) as int;
    assert(whole.len() == prefix.len() + hl + el + suffix.len());
    assert(whole.subrange(off2, off2 + el) =~= packed);
    lemma_pack_unpack(bits);
}

} // verus!
