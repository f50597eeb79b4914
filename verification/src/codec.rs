//! GHASH's bit order: from 16-byte blocks to field elements and back.
//!
//! A block lists the 128 coefficients of a field element from degree 0
//! upwards, eight to a byte, and within a byte from the most significant bit
//! down: the top bit of the first byte is the coefficient of `x^0`, the
//! lowest bit of the last byte that of `x^127`. Inside the library an element
//! is a `u128` whose bit `i` is the coefficient of `x^i`, so that the term of
//! the highest degree sits at the word's most significant bit.

use vstd::prelude::*;
use crate::bits::{
    bits_of, byte_bit, coeff, from_bits, lemma_bits_of_from, lemma_byte_ext, lemma_coeff_and,
    lemma_coeff_byte, lemma_coeff_ext, lemma_coeff_from_bits, lemma_coeff_one, lemma_coeff_or,
    lemma_coeff_shl, lemma_coeff_shr, lemma_coeff_xor, lemma_coeff_zero, lemma_from_bits_of,
    lemma_low_byte,
};

verus! {

/// The word with the low 64 bits set.
pub const LOW_HALF: u128 = 0xffff_ffff_ffff_ffff;

/// The coefficient of `x^i` in the field element that a 16-byte block
/// stands for: bit `7 - i % 8` of byte `i / 8`.
pub open spec fn block_coeff(block: Seq<u8>, i: int) -> bool {
    0 <= i < 128 && byte_bit(block[i / 8], 7 - i % 8)
}

/// The 128 coefficients of a block, lowest degree first.
pub open spec fn block_bits(block: Seq<u8>) -> Seq<bool> {
    Seq::new(128, |i: int| block_coeff(block, i))
}

/// The field element of a block, as the word whose bit `i` is the
/// coefficient of `x^i`.
pub open spec fn element_of(block: Seq<u8>) -> u128 {
    from_bits(block_bits(block))
}

/// The bits of a byte, least significant first.
pub open spec fn byte_bits(b: u8) -> Seq<bool> {
    Seq::new(8, |j: int| byte_bit(b, j))
}

/// The byte whose bit `j` is `s[j]`, for a sequence of at most 8 bits.
pub open spec fn byte_from_bits(s: Seq<bool>) -> u8 {
    from_bits(s) as u8
}

/// The byte `b` with its bits in the opposite order.
pub open spec fn reversed(b: u8) -> u8 {
    byte_from_bits(Seq::new(8, |j: int| byte_bit(b, 7 - j)))
}

/// Byte `k` of the block of the field element `v`: its bit `7 - j` is the
/// coefficient of `x^(8k + j)`.
pub open spec fn block_byte(v: u128, k: int) -> u8 {
    byte_from_bits(Seq::new(8, |j: int| coeff(v, 8 * k + 7 - j)))
}

/// The block of the field element `v`.
pub open spec fn block_of(v: u128) -> Seq<u8> {
    Seq::new(16, |k: int| block_byte(v, k))
}

/// The sum of two blocks as field elements, which is their bytes' `^`.
pub open spec fn xor_blocks(a: Seq<u8>, b: Seq<u8>) -> Seq<u8> {
    Seq::new(16, |k: int| a[k] ^ b[k])
}

/// The block of the field's zero.
pub open spec fn zero_block() -> Seq<u8> {
    Seq::new(16, |k: int| 0u8)
}

/// The block of the field's one, the constant polynomial 1: the top bit of
/// the first byte.
pub open spec fn one_block() -> Seq<u8> {
    Seq::new(
        16,
        |k: int|
            if k == 0 {
                0x80u8
            } else {
                0u8
            },
    )
}

/// The byte of a sequence of bits has exactly those bits.
pub proof fn lemma_byte_bit_from_bits(s: Seq<bool>, j: int)
    requires
        s.len() <= 8,
    ensures
        byte_bit(byte_from_bits(s), j) == (0 <= j < s.len() && s[j]),
{
    lemma_low_byte(from_bits(s), j);
    lemma_coeff_from_bits(s, j);
}

/// Bit `j` of the reversed byte is bit `7 - j` of the byte.
pub proof fn lemma_byte_bit_reversed(b: u8, j: int)
    requires
        0 <= j < 8,
    ensures
        byte_bit(reversed(b), j) == byte_bit(b, 7 - j),
{
    lemma_byte_bit_from_bits(Seq::new(8, |j: int| byte_bit(b, 7 - j)), j);
}

/// Bit `j` of byte `k` of an element's block is the coefficient of
/// `x^(8k + 7 - j)`.
pub proof fn lemma_byte_bit_block_byte(v: u128, k: int, j: int)
    requires
        0 <= j < 8,
    ensures
        byte_bit(block_byte(v, k), j) == coeff(v, 8 * k + 7 - j),
{
    lemma_byte_bit_from_bits(Seq::new(8, |j: int| coeff(v, 8 * k + 7 - j)), j);
}

/// The coefficients of a block's field element are the block's.
pub proof fn lemma_coeff_element_of(block: Seq<u8>, i: int)
    ensures
        coeff(element_of(block), i) == block_coeff(block, i),
{
    lemma_coeff_from_bits(block_bits(block), i);
}

/// The terms of the word `LOW_HALF` are those below degree 64.
pub proof fn lemma_coeff_low_half(i: int)
    ensures
        coeff(LOW_HALF, i) == (0 <= i < 64),
{
    if 0 <= i < 128 {
        let s: u128 = i as u128;
        assert(((0xffff_ffff_ffff_ffffu128 >> s) & 1 == 1) == (s < 64)) by (bit_vector)
            requires
                s < 128,
        ;
    }
}

/// Decoding what was encoded gives the block back, for every 16-byte block.
pub proof fn lemma_block_round_trip(block: Seq<u8>)
    requires
        block.len() == 16,
    ensures
        block_of(element_of(block)) == block,
{
    let v: u128 = element_of(block);
    assert forall|k: int| 0 <= k < 16 implies block_byte(v, k) == block[k] by {
        assert forall|j: int| 0 <= j < 8 implies byte_bit(block_byte(v, k), j) == byte_bit(
            block[k],
            j,
        ) by {
            lemma_byte_bit_block_byte(v, k, j);
            lemma_coeff_element_of(block, 8 * k + 7 - j);
        }
        lemma_byte_ext(block_byte(v, k), block[k]);
    }
    assert(block_of(v) =~= block);
}

/// Encoding what was decoded gives the field element back, for every word.
pub proof fn lemma_element_round_trip(v: u128)
    ensures
        element_of(block_of(v)) == v,
{
    assert forall|i: int| 0 <= i < 128 implies block_bits(block_of(v))[i] == bits_of(v)[i] by {
        lemma_byte_bit_block_byte(v, i / 8, 7 - i % 8);
    }
    assert(block_bits(block_of(v)) =~= bits_of(v));
    lemma_from_bits_of(v);
}

proof fn lemma_byte_bit_consts(j: u8)
    by (bit_vector)
    requires
        j < 8,
    ensures
        (0u8 >> j) & 1 == 0,
        ((0x80u8 >> j) & 1 == 1) == (j == 7),
{
}

proof fn lemma_byte_bit_xor(a: u8, b: u8, j: u8)
    by (bit_vector)
    requires
        j < 8,
    ensures
        (((a ^ b) >> j) & 1 == 1) == (((a >> j) & 1 == 1) != ((b >> j) & 1 == 1)),
{
}

/// The all-zero block is the field's zero.
pub proof fn lemma_zero_block()
    ensures
        element_of(zero_block()) == 0,
        block_of(0) == zero_block(),
{
    assert forall|i: int| 0 <= i < 128 implies coeff(element_of(zero_block()), i) == coeff(
        0,
        i,
    ) by {
        lemma_coeff_element_of(zero_block(), i);
        lemma_byte_bit_consts((7 - i % 8) as u8);
        lemma_coeff_zero(i);
    }
    lemma_coeff_ext(element_of(zero_block()), 0);
    lemma_block_round_trip(zero_block());
}

/// The block `80 00 .. 00` is the field's one.
pub proof fn lemma_one_block()
    ensures
        element_of(one_block()) == 1,
        block_of(1) == one_block(),
{
    assert forall|i: int| 0 <= i < 128 implies coeff(element_of(one_block()), i) == coeff(1, i) by {
        lemma_coeff_element_of(one_block(), i);
        lemma_byte_bit_consts((7 - i % 8) as u8);
        lemma_coeff_one(i);
    }
    lemma_coeff_ext(element_of(one_block()), 1);
    lemma_block_round_trip(one_block());
}

/// Encoding turns the `^` of two blocks into the sum of their field
/// elements, and decoding turns it back.
pub proof fn lemma_xor_blocks(a: Seq<u8>, b: Seq<u8>)
    requires
        a.len() == 16,
        b.len() == 16,
    ensures
        element_of(xor_blocks(a, b)) == element_of(a) ^ element_of(b),
        block_of(element_of(a) ^ element_of(b)) == xor_blocks(a, b),
{
    let x: u128 = element_of(a);
    let y: u128 = element_of(b);
    let c: Seq<u8> = xor_blocks(a, b);
    assert forall|i: int| 0 <= i < 128 implies coeff(element_of(c), i) == coeff(x ^ y, i) by {
        lemma_coeff_element_of(c, i);
        lemma_coeff_element_of(a, i);
        lemma_coeff_element_of(b, i);
        lemma_coeff_xor(x, y, i);
        lemma_byte_bit_xor(a[i / 8], b[i / 8], (7 - i % 8) as u8);
    }
    lemma_coeff_ext(element_of(c), x ^ y);
    lemma_block_round_trip(c);
}

proof fn lemma_reverse_step(acc: u8, b: u8, i: u8, j: u8)
    by (bit_vector)
    requires
        i < 8,
        j < 8,
    ensures
        (((acc | (((b >> ((7 - i) as u8)) & 1) << i)) >> j) & 1 == 1) == (((acc >> j) & 1 == 1) || (
        j == i && (b >> ((7 - i) as u8)) & 1 == 1)),
{
}

/// Sends the bits of a byte to the opposite order: bit `j` of the result is
/// bit `7 - j` of `b`.
pub fn reverse_byte(b: u8) -> (r: u8)
    ensures
        r == reversed(b),
        forall|j: int| 0 <= j < 8 ==> byte_bit(r, j) == byte_bit(b, 7 - j),
{
    let mut acc: u8 = 0;
    proof {
        assert forall|j: int| 0 <= j < 8 implies !byte_bit(0u8, j) by {
            lemma_byte_bit_consts(j as u8);
        }
    }
    for i in 0u8..8u8
        invariant
            forall|j: int| 0 <= j < 8 ==> byte_bit(acc, j) == (j < i && byte_bit(b, 7 - j)),
    {
        let next: u8 = acc | (((b >> (7 - i)) & 1) << i);
        proof {
            assert forall|j: int| 0 <= j < 8 implies byte_bit(next, j) == (j < i + 1 && byte_bit(
                b,
                7 - j,
            )) by {
                lemma_reverse_step(acc, b, i, j as u8);
                assert(byte_bit(acc, j) == (j < i && byte_bit(b, 7 - j)));
            }
        }
        acc = next;
    }
    proof {
        assert forall|j: int| 0 <= j < 8 implies byte_bit(acc, j) == byte_bit(reversed(b), j) by {
            lemma_byte_bit_reversed(b, j);
        }
        lemma_byte_ext(acc, reversed(b));
    }
    acc
}

/// The bits of a byte, least significant first.
pub fn parse_u8_as_bits(b: u8) -> (bits: Vec<bool>)
    ensures
        bits@ == byte_bits(b),
{
    let mut bits: Vec<bool> = Vec::new();
    for i in 0u8..8u8
        invariant
            bits@.len() == i,
            forall|j: int| 0 <= j < i ==> bits@[j] == byte_bit(b, j),
    {
        bits.push((b >> i) & 1 == 1);
    }
    assert(bits@ =~= byte_bits(b));
    bits
}

/// The 128 coefficients of a block's field element, lowest degree first.
pub fn parse_array_as_bits(arr: [u8; 16]) -> (bits: [bool; 128])
    ensures
        bits@ == block_bits(arr@),
        bits@ == bits_of(element_of(arr@)),
{
    let mut bits: [bool; 128] = [false; 128];
    for k in 0usize..16usize
        invariant
            forall|i: int| 0 <= i < 8 * k ==> bits@[i] == block_coeff(arr@, i),
    {
        let low_first: Vec<bool> = parse_u8_as_bits(reverse_byte(arr[k]));
        for j in 0usize..8usize
            invariant
                k < 16,
                low_first@ == byte_bits(reversed(arr@[k as int])),
                forall|i: int| 0 <= i < 8 * k + j ==> bits@[i] == block_coeff(arr@, i),
        {
            proof {
                lemma_byte_bit_reversed(arr@[k as int], j as int);
            }
            bits[8 * k + j] = low_first[j];
        }
    }
    proof {
        assert(bits@ =~= block_bits(arr@));
        lemma_bits_of_from(block_bits(arr@));
    }
    bits
}

/// The word made of `count` bytes of a block from byte `start` on, each
/// with its bits reversed, the first byte lowest.
fn fold_bytes(arr: &[u8; 16], start: usize, count: usize) -> (r: u128)
    requires
        start + count <= 16,
    ensures
        forall|i: int|
            0 <= i < 128 ==> coeff(r, i) == (i < 8 * count && block_coeff(arr@, 8 * start + i)),
{
    let mut acc: u128 = 0;
    proof {
        assert forall|i: int| 0 <= i < 128 implies !coeff(0u128, i) by {
            lemma_coeff_zero(i);
        }
    }
    for k in 0usize..count
        invariant
            start + count <= 16,
            forall|i: int|
                0 <= i < 128 ==> coeff(acc, i) == (i < 8 * k && block_coeff(
                    arr@,
                    8 * start + i,
                )),
    {
        let byte: u8 = reverse_byte(arr[start + k]);
        let shift: u128 = (k * 8) as u128;
        let term: u128 = (byte as u128) << shift;
        proof {
            assert forall|i: int| 0 <= i < 128 implies coeff(acc | term, i) == (i < 8 * (k + 1)
                && block_coeff(arr@, 8 * start + i)) by {
                lemma_coeff_or(acc, term, i);
                lemma_coeff_shl(byte as u128, shift as int, i);
                lemma_coeff_byte(byte, i - shift);
            }
        }
        acc = acc | term;
    }
    acc
}

/// Encodes a block as its field element, in one word: bit `i` of the word
/// is the coefficient of `x^i`.
pub fn parse_array_as_uint(arr: [u8; 16]) -> (r: u128)
    ensures
        r == element_of(arr@),
{
    let r: u128 = fold_bytes(&arr, 0, 16);
    proof {
        assert forall|i: int| 0 <= i < 128 implies coeff(r, i) == coeff(element_of(arr@), i) by {
            lemma_coeff_element_of(arr@, i);
        }
        lemma_coeff_ext(r, element_of(arr@));
    }
    r
}

/// Encodes a block as its field element, in two halves: first the terms of
/// degree 64 to 127, then those of degree 0 to 63, each half in the low 64
/// bits of its word.
pub fn parse_array_as_pair(arr: [u8; 16]) -> (r: (u128, u128))
    ensures
        r.0 == element_of(arr@) >> 64,
        r.1 == element_of(arr@) & LOW_HALF,
{
    let lower: u128 = fold_bytes(&arr, 0, 8);
    let upper: u128 = fold_bytes(&arr, 8, 8);
    proof {
        let v: u128 = element_of(arr@);
        assert forall|i: int| 0 <= i < 128 implies coeff(upper, i) == coeff(v >> 64, i) by {
            lemma_coeff_shr(v, 64, i);
            lemma_coeff_element_of(arr@, i + 64);
        }
        lemma_coeff_ext(upper, v >> 64);
        assert forall|i: int| 0 <= i < 128 implies coeff(lower, i) == coeff(v & LOW_HALF, i) by {
            lemma_coeff_and(v, LOW_HALF, i);
            lemma_coeff_low_half(i);
            lemma_coeff_element_of(arr@, i);
        }
        lemma_coeff_ext(lower, v & LOW_HALF);
    }
    (upper, lower)
}

/// Decodes a field element, given as the word whose bit `i` is the
/// coefficient of `x^i`, to its block.
pub fn parse_u128_as_array(n: u128) -> (arr: [u8; 16])
    ensures
        arr@ == block_of(n),
{
    let mut arr: [u8; 16] = [0; 16];
    for k in 0usize..16usize
        invariant
            forall|m: int| 0 <= m < k ==> arr@[m] == block_byte(n, m),
    {
        let shift: u128 = (k * 8) as u128;
        let low_first: u8 = (n >> shift) as u8;
        let byte: u8 = reverse_byte(low_first);
        proof {
            assert forall|j: int| 0 <= j < 8 implies byte_bit(byte, j) == byte_bit(
                block_byte(n, k as int),
                j,
            ) by {
                lemma_byte_bit_block_byte(n, k as int, j);
                lemma_low_byte(n >> shift, 7 - j);
                lemma_coeff_shr(n, shift as int, 7 - j);
            }
            lemma_byte_ext(byte, block_byte(n, k as int));
        }
        arr[k] = byte;
    }
    assert(arr@ =~= block_of(n));
    arr
}

} // verus!
