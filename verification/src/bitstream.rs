//! Bit-level model of byte buffers.
//!
//! The sponge absorbs messages bit by bit, least significant bit of each byte
//! first, while the executable code moves whole bytes.  This module gives the
//! spec-level correspondence between the two: a byte sequence seen as a bit
//! sequence, a bit sequence packed back into bytes, and the lemmas that relate
//! the two views to the bitwise operations the executable code performs.

use vstd::prelude::*;

verus! {

/// Bit `i` of byte `b`, least significant bit first.
pub open spec fn byte_bit(b: u8, i: u8) -> bool
    recommends
        i < 8,
{
    (b >> i) & 1 == 1
}

/// A bit as the byte 0 or 1.
pub open spec fn bit_as_u8(b: bool) -> u8 {
    if b {
        1
    } else {
        0
    }
}

/// The bits of a byte sequence, least significant bit of each byte first.
pub open spec fn bits_of_bytes(s: Seq<u8>) -> Seq<bool> {
    Seq::new(s.len() * 8, |i: int| byte_bit(s[i / 8], (i % 8) as u8))
}

/// The byte whose bits are `b[0]` (least significant) through `b[7]`.
pub open spec fn byte_of_bits(b: Seq<bool>) -> u8
    recommends
        b.len() == 8,
{
    bit_as_u8(b[0]) | (bit_as_u8(b[1]) << 1u8) | (bit_as_u8(b[2]) << 2u8) | (bit_as_u8(b[3])
        << 3u8) | (bit_as_u8(b[4]) << 4u8) | (bit_as_u8(b[5]) << 5u8) | (bit_as_u8(b[6]) << 6u8)
        | (bit_as_u8(b[7]) << 7u8)
}

/// A bit sequence of byte-aligned length packed into bytes.
pub open spec fn bytes_of_bits(b: Seq<bool>) -> Seq<u8>
    recommends
        b.len() % 8 == 0,
{
    Seq::new(b.len() / 8, |i: int| byte_of_bits(b.subrange(8 * i, 8 * i + 8)))
}

/// Each extracted bit of a byte is 0 or 1.
proof fn lemma_bit_is_zero_or_one(x: u8, j: u8)
    by (bit_vector)
    requires
        j < 8,
    ensures
        (x >> j) & 1 == 0 || (x >> j) & 1 == 1,
{
}

/// Recombining the eight bits of a byte gives the byte back.
proof fn lemma_u8_from_bits(x: u8)
    by (bit_vector)
    ensures
        ((x >> 0u8) & 1) | (((x >> 1u8) & 1) << 1u8) | (((x >> 2u8) & 1) << 2u8) | (((x >> 3u8)
            & 1) << 3u8) | (((x >> 4u8) & 1) << 4u8) | (((x >> 5u8) & 1) << 5u8) | (((x >> 6u8)
            & 1) << 6u8) | (((x >> 7u8) & 1) << 7u8) == x,
{
}

/// A byte taken apart into its bits and put back together is unchanged.
pub proof fn lemma_byte_roundtrip(x: u8, b: Seq<bool>)
    requires
        b.len() == 8,
        forall|j: int| 0 <= j < 8 ==> b[j] == byte_bit(x, j as u8),
    ensures
        byte_of_bits(b) == x,
{
    assert forall|j: u8| j < 8 implies bit_as_u8(byte_bit(x, j)) == (x >> j) & 1 by {
        lemma_bit_is_zero_or_one(x, j);
    }
    lemma_u8_from_bits(x);
}

/// Packing the bit view of a byte sequence gives the byte sequence back.
pub proof fn lemma_bytes_of_bits_of_bytes(s: Seq<u8>)
    ensures
        bytes_of_bits(bits_of_bytes(s)) == s,
{
    assert forall|i: int| 0 <= i < s.len() implies bytes_of_bits(bits_of_bytes(s))[i] == s[i] by {
        let b = bits_of_bytes(s).subrange(8 * i, 8 * i + 8);
        assert forall|j: int| 0 <= j < 8 implies b[j] == byte_bit(s[i], j as u8) by {
            assert(b[j] == bits_of_bytes(s)[8 * i + j]);
            assert((8 * i + j) / 8 == i && (8 * i + j) % 8 == j) by (nonlinear_arith)
                requires
                    0 <= j < 8,
            ;
        }
        lemma_byte_roundtrip(s[i], b);
    }
    assert(bytes_of_bits(bits_of_bytes(s)) =~= s);
}

/// Taking a byte-aligned prefix of a bit view is the bit view of the byte prefix.
pub proof fn lemma_bits_of_bytes_take(s: Seq<u8>, n: int)
    requires
        0 <= n <= s.len(),
    ensures
        bits_of_bytes(s).take(8 * n) == bits_of_bytes(s.take(n)),
{
    assert(bits_of_bytes(s).take(8 * n) =~= bits_of_bytes(s.take(n)));
}

/// Setting bit `k` of a byte: every other bit is unchanged, bit `k` becomes 1.
pub proof fn lemma_or_single_bit(x: u8, j: u8, k: u8)
    by (bit_vector)
    requires
        j < 8,
        k < 8,
    ensures
        byte_bit(x | (1u8 << k), j) == (j == k || byte_bit(x, j)),
{
}

/// Masking a byte to its low `p` bits: bits below `p` are unchanged, the rest are 0.
pub proof fn lemma_mask_low_bits(x: u8, m: u8, j: u8, p: u8)
    by (bit_vector)
    requires
        j < 8,
        p < 8,
        m == (1u8 << p) - 1,
    ensures
        byte_bit(x & m, j) == (j < p && byte_bit(x, j)),
{
}

/// The zero byte has no bits set.
pub proof fn lemma_zero_byte_bit(j: u8)
    by (bit_vector)
    requires
        j < 8,
    ensures
        !byte_bit(0u8, j),
{
}

} // verus!
