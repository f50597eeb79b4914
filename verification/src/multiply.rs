//! Multiplication in the field.
//!
//! The product of two elements is computed from the carryless product of
//! their polynomials, which has up to 255 coefficients and is kept in two
//! words. Each factor is split into two halves of 64 coefficients; the
//! carryless products of the halves are put together to the two words; the
//! high word is brought back into the field by the reduction and added to the
//! low word.

use vstd::prelude::*;
use crate::bits::{
    coeff, lemma_coeff_and, lemma_coeff_ext, lemma_coeff_mask, lemma_coeff_one, lemma_coeff_or,
    lemma_coeff_shl, lemma_coeff_shr, lemma_coeff_xor, lemma_coeff_zero, lemma_masked,
    lemma_xor_regroup, lemma_xor_zero,
};
use crate::codec::{
    block_of, element_of, lemma_block_round_trip, lemma_element_round_trip, lemma_one_block,
    lemma_xor_blocks, lemma_zero_block, one_block, parse_array_as_pair, parse_u128_as_array,
    xor_blocks, zero_block, LOW_HALF,
};
use crate::field::{
    gf_mul, gf_mul_below, lemma_coeff_mul_x, lemma_coeff_tail, lemma_gf_mul_associates,
    lemma_gf_mul_commutes, lemma_gf_mul_distributes, lemma_gf_mul_one, lemma_gf_mul_zero,
    lemma_mul_x_pow_shift, lemma_mul_x_pow_xor, lemma_mul_x_pow_zero, lemma_mul_x_xor,
    lemma_x_pow_128, mul_x, mul_x_pow, FIELD_TAIL,
};
use crate::reduce::{galois_reduce, lemma_coeff_low_127, reduced, LOW_127};

verus! {

/// What the term of degree `i` of `b` adds to the low word of the carryless
/// product of `a` and `b`.
pub open spec fn low_term(a: u128, b: u128, i: nat) -> u128 {
    if coeff(b, i as int) {
        a << (i as u128)
    } else {
        0
    }
}

/// The low word of the carryless product of `a` and the terms of `b` below
/// degree `n`: the sum, without carries, of `a << i` over those terms.
pub open spec fn clmul_below(a: u128, b: u128, n: nat) -> u128
    decreases n,
{
    if n == 0 {
        0
    } else {
        clmul_below(a, b, (n - 1) as nat) ^ low_term(a, b, (n - 1) as nat)
    }
}

/// The carryless product of two polynomials of degree below 64, which fits
/// a word.
pub open spec fn clmul(a: u128, b: u128) -> u128 {
    clmul_below(a, b, 64)
}

/// The part of `a * x^i` of degree 128 and above, moved down by 128.
pub open spec fn carried(a: u128, i: nat) -> u128 {
    if i == 0 {
        0
    } else {
        a >> ((128 - i) as u128)
    }
}

/// What the term of degree `i` of `b` adds to the high word of the carryless
/// product of `a` and `b`.
pub open spec fn high_term(a: u128, b: u128, i: nat) -> u128 {
    if coeff(b, i as int) {
        carried(a, i)
    } else {
        0
    }
}

/// The high word of the carryless product of `a` and the terms of `b` below
/// degree `n`.
pub open spec fn clmul_high_below(a: u128, b: u128, n: nat) -> u128
    decreases n,
{
    if n == 0 {
        0
    } else {
        clmul_high_below(a, b, (n - 1) as nat) ^ high_term(a, b, (n - 1) as nat)
    }
}

/// The coefficient of `x^k` in the product of the polynomial `a` and the
/// terms of `b` below degree `n`, by the rule for multiplying polynomials
/// over GF(2): whether the pairs of a term `x^i` of `b` and a term
/// `x^(k - i)` of `a` are odd in number.
pub open spec fn product_coeff(a: u128, b: u128, k: int, n: nat) -> bool
    decreases n,
{
    if n == 0 {
        false
    } else {
        product_coeff(a, b, k, (n - 1) as nat) != (coeff(b, n - 1) && coeff(a, k - (n - 1)))
    }
}

/// The word of a polynomial given by its terms of degree 64 to 127 and its
/// terms of degree 0 to 63.
pub open spec fn join(high: u64, low: u64) -> u128 {
    ((high as u128) << 64) | (low as u128)
}

/// The product in the field of two field elements given as blocks, as a
/// block.
pub open spec fn gfmul_of(a: Seq<u8>, b: Seq<u8>) -> Seq<u8> {
    block_of(gf_mul(element_of(a), element_of(b)))
}

proof fn lemma_coeff_carried(a: u128, i: nat, j: int)
    requires
        i < 128,
    ensures
        coeff(carried(a, i), j) == (0 <= j < i && coeff(a, j + 128 - i)),
{
    if i == 0 {
        lemma_coeff_zero(j);
    } else {
        lemma_coeff_shr(a, 128 - i, j);
    }
}

/// `a * x^i` in the field is the low word of `a * x^i` plus what the part
/// above degree 127 is equal to.
proof fn lemma_mul_x_pow_split(a: u128, i: nat)
    requires
        i < 128,
    ensures
        mul_x_pow(a, i) == (a << (i as u128)) ^ mul_x_pow(carried(a, i), 128),
    decreases i,
{
    if i == 0 {
        lemma_mul_x_pow_zero(128);
        assert(a << 0u128 == a) by (bit_vector);
        lemma_xor_zero(a);
    } else {
        let k: nat = (i - 1) as nat;
        lemma_mul_x_pow_split(a, k);
        let low: u128 = a << (k as u128);
        let next_low: u128 = a << (i as u128);
        let h: u128 = carried(a, k);
        let next_h: u128 = carried(a, i);
        let c: bool = coeff(a, 127 - k);
        let tail: u128 = if c { FIELD_TAIL } else { 0 };
        let one: u128 = if c { 1 } else { 0 };
        // the low word moves up by one place and sheds its top term
        assert(mul_x(low) == next_low ^ tail) by {
            assert forall|j: int| 0 <= j < 128 implies coeff(mul_x(low), j) == coeff(
                next_low ^ tail,
                j,
            ) by {
                lemma_coeff_mul_x(low, j);
                lemma_coeff_shl(a, k as int, j - 1);
                lemma_coeff_shl(a, k as int, 127);
                lemma_coeff_shl(a, i as int, j);
                lemma_coeff_xor(next_low, tail, j);
                lemma_coeff_tail(j);
                lemma_coeff_zero(j);
            }
            lemma_coeff_ext(mul_x(low), next_low ^ tail);
        }
        // the carried part moves up by one place and takes that term in
        assert(mul_x(h) == next_h ^ one) by {
            assert forall|j: int| 0 <= j < 128 implies coeff(mul_x(h), j) == coeff(
                next_h ^ one,
                j,
            ) by {
                lemma_coeff_mul_x(h, j);
                lemma_coeff_carried(a, k, j - 1);
                lemma_coeff_carried(a, k, 127);
                lemma_coeff_carried(a, i, j);
                lemma_coeff_xor(next_h, one, j);
                lemma_coeff_one(j);
                lemma_coeff_zero(j);
            }
            lemma_coeff_ext(mul_x(h), next_h ^ one);
        }
        let r: u128 = mul_x_pow(h, 128);
        let next_r: u128 = mul_x_pow(next_h, 128);
        // and that term, now of degree 128, is worth the tail
        assert(mul_x(r) == next_r ^ tail) by {
            lemma_mul_x_pow_shift(h, 128);
            lemma_mul_x_pow_xor(next_h, one, 128);
            lemma_x_pow_128();
            lemma_mul_x_pow_zero(128);
        }
        lemma_mul_x_xor(low, r);
        lemma_xor_regroup(next_low, next_r, tail, 0);
    }
}

/// The product in the field is the low word of the carryless product plus
/// what its high word is equal to.
proof fn lemma_product_split(a: u128, b: u128, n: nat)
    requires
        n <= 128,
    ensures
        gf_mul_below(a, b, n) == clmul_below(a, b, n) ^ mul_x_pow(clmul_high_below(a, b, n), 128),
    decreases n,
{
    lemma_mul_x_pow_zero(128);
    lemma_xor_zero(0);
    if n > 0 {
        let m: nat = (n - 1) as nat;
        lemma_product_split(a, b, m);
        let low: u128 = clmul_below(a, b, m);
        let high: u128 = clmul_high_below(a, b, m);
        lemma_mul_x_pow_xor(high, high_term(a, b, m), 128);
        lemma_mul_x_pow_split(a, m);
        lemma_xor_regroup(
            low,
            mul_x_pow(high, 128),
            low_term(a, b, m),
            mul_x_pow(high_term(a, b, m), 128),
        );
    }
}

/// The carryless product of two polynomials of degree below 128 has degree
/// below 255: bit 127 of its high word is clear.
proof fn lemma_high_word_bound(a: u128, b: u128, n: nat)
    requires
        n <= 128,
    ensures
        !coeff(clmul_high_below(a, b, n), 127),
    decreases n,
{
    lemma_coeff_zero(127);
    if n > 0 {
        let m: nat = (n - 1) as nat;
        lemma_high_word_bound(a, b, m);
        lemma_coeff_xor(clmul_high_below(a, b, m), high_term(a, b, m), 127);
        lemma_coeff_carried(a, m, 127);
    }
}

/// The two words of the carryless product hold the coefficients of the
/// product of the two polynomials: the low word those of `x^0` to `x^127`,
/// the high word those of `x^128` to `x^255`.
pub proof fn lemma_coeff_clmul(a: u128, b: u128, n: nat, k: int)
    requires
        n <= 128,
        0 <= k < 128,
    ensures
        coeff(clmul_below(a, b, n), k) == product_coeff(a, b, k, n),
        coeff(clmul_high_below(a, b, n), k) == product_coeff(a, b, 128 + k, n),
    decreases n,
{
    lemma_coeff_zero(k);
    if n > 0 {
        let m: nat = (n - 1) as nat;
        lemma_coeff_clmul(a, b, m, k);
        lemma_coeff_xor(clmul_below(a, b, m), low_term(a, b, m), k);
        lemma_coeff_xor(clmul_high_below(a, b, m), high_term(a, b, m), k);
        lemma_coeff_shl(a, m as int, k);
        lemma_coeff_carried(a, m, k);
    }
}

/// The product in the field is the product of the two polynomials with its
/// upper half brought back into the field: the low word of the carryless
/// product plus the reduction of its high word.
pub proof fn lemma_gf_mul_is_reduced_product(a: u128, b: u128)
    ensures
        gf_mul(a, b) == clmul_below(a, b, 128) ^ reduced(clmul_high_below(a, b, 128)),
{
    let high: u128 = clmul_high_below(a, b, 128);
    lemma_product_split(a, b, 128);
    // no term of degree 255: the reduction reads all of the high word
    lemma_high_word_bound(a, b, 128);
    assert forall|j: int| 0 <= j < 128 implies coeff(high & LOW_127, j) == coeff(high, j) by {
        lemma_coeff_and(high, LOW_127, j);
        lemma_coeff_low_127(j);
    }
    lemma_coeff_ext(high & LOW_127, high);
}

/// A half widened to a word has its terms below degree 64.
proof fn lemma_coeff_half(v: u64, j: int)
    ensures
        64 <= j ==> !coeff(v as u128, j),
{
    if 64 <= j < 128 {
        let s: u128 = j as u128;
        assert(((v as u128) >> s) & 1 == 0) by (bit_vector)
            requires
                64 <= s < 128,
        ;
    }
}

proof fn lemma_coeff_join(high: u64, low: u64, j: int)
    ensures
        coeff(join(high, low), j) == if j < 64 {
            coeff(low as u128, j)
        } else {
            coeff(high as u128, j - 64)
        },
{
    lemma_coeff_or((high as u128) << 64, low as u128, j);
    lemma_coeff_shl(high as u128, 64, j);
    lemma_coeff_half(low, j);
    lemma_coeff_half(high, j - 64);
}

/// Moving by 64 places distributes over the sum.
proof fn lemma_shift_half_xor(x: u128, y: u128)
    by (bit_vector)
    ensures
        (x ^ y) << 64 == (x << 64) ^ (y << 64),
        (x ^ y) >> 64 == (x >> 64) ^ (y >> 64),
        0u128 << 64 == 0,
        0u128 >> 64 == 0,
{
}

/// A word is its two halves joined.
proof fn lemma_join_halves(v: u128)
    by (bit_vector)
    ensures
        v >> 64 <= 0xffff_ffff_ffff_ffffu128,
        v & 0xffff_ffff_ffff_ffffu128 <= 0xffff_ffff_ffff_ffffu128,
        ((((v >> 64) as u64) as u128) << 64) | (((v & 0xffff_ffff_ffff_ffffu128) as u64) as u128)
            == v,
{
}

/// How `a * x^k` and `a * x^(64 + k)` fall into the two words, for `a` in
/// two halves and `k` below 64.
proof fn lemma_shifted_halves(high: u64, low: u64, k: nat)
    requires
        k < 64,
    ensures
        join(high, low) << (k as u128) == ((low as u128) << (k as u128)) ^ (((high as u128) << (
        k as u128)) << 64),
        carried(join(high, low), k) == ((high as u128) << (k as u128)) >> 64,
        join(high, low) << ((64 + k) as u128) == ((low as u128) << (k as u128)) << 64,
        carried(join(high, low), 64 + k) == ((high as u128) << (k as u128)) ^ (((low as u128) << (
        k as u128)) >> 64),
{
    let a: u128 = join(high, low);
    let l: u128 = low as u128;
    let h: u128 = high as u128;
    let lk: u128 = l << (k as u128);
    let hk: u128 = h << (k as u128);
    let ki: int = k as int;
    assert forall|j: int| 0 <= j < 128 implies coeff(a << (k as u128), j) == coeff(
        lk ^ (hk << 64),
        j,
    ) by {
        lemma_coeff_shl(a, ki, j);
        lemma_coeff_join(high, low, j - ki);
        lemma_coeff_xor(lk, hk << 64, j);
        lemma_coeff_shl(l, ki, j);
        lemma_coeff_shl(hk, 64, j);
        lemma_coeff_shl(h, ki, j - 64);
        lemma_coeff_half(low, j - ki);
        lemma_coeff_half(high, j - ki - 64);
    }
    lemma_coeff_ext(a << (k as u128), lk ^ (hk << 64));
    assert forall|j: int| 0 <= j < 128 implies coeff(carried(a, k), j) == coeff(hk >> 64, j) by {
        lemma_coeff_carried(a, k, j);
        lemma_coeff_join(high, low, j + 128 - ki);
        lemma_coeff_shr(hk, 64, j);
        lemma_coeff_shl(h, ki, j + 64);
        lemma_coeff_half(high, j + 64 - ki);
    }
    lemma_coeff_ext(carried(a, k), hk >> 64);
    assert forall|j: int| 0 <= j < 128 implies coeff(a << ((64 + k) as u128), j) == coeff(
        lk << 64,
        j,
    ) by {
        lemma_coeff_shl(a, 64 + ki, j);
        lemma_coeff_join(high, low, j - 64 - ki);
        lemma_coeff_shl(lk, 64, j);
        lemma_coeff_shl(l, ki, j - 64);
        lemma_coeff_half(low, j - 64 - ki);
    }
    lemma_coeff_ext(a << ((64 + k) as u128), lk << 64);
    assert forall|j: int| 0 <= j < 128 implies coeff(carried(a, 64 + k), j) == coeff(
        hk ^ (lk >> 64),
        j,
    ) by {
        lemma_coeff_carried(a, 64 + k, j);
        lemma_coeff_join(high, low, j + 64 - ki);
        lemma_coeff_xor(hk, lk >> 64, j);
        lemma_coeff_shl(h, ki, j);
        lemma_coeff_shr(lk, 64, j);
        lemma_coeff_shl(l, ki, j + 64);
        lemma_coeff_half(low, j + 64 - ki);
        lemma_coeff_half(high, j - ki);
    }
    lemma_coeff_ext(carried(a, 64 + k), hk ^ (lk >> 64));
}

/// The carryless product of a polynomial in two halves and the terms below
/// degree `n` of another, for `n` up to 64, from the products of the halves.
proof fn lemma_product_by_low_half(high: u64, low: u64, b: u128, n: nat)
    requires
        n <= 64,
    ensures
        clmul_below(join(high, low), b, n) == clmul_below(low as u128, b, n) ^ (clmul_below(
            high as u128,
            b,
            n,
        ) << 64),
        clmul_high_below(join(high, low), b, n) == clmul_below(high as u128, b, n) >> 64,
    decreases n,
{
    lemma_shift_half_xor(0, 0);
    lemma_xor_zero(0);
    if n > 0 {
        let m: nat = (n - 1) as nat;
        let l: u128 = low as u128;
        let h: u128 = high as u128;
        lemma_product_by_low_half(high, low, b, m);
        lemma_shifted_halves(high, low, m);
        lemma_shift_half_xor(clmul_below(h, b, m), low_term(h, b, m));
        lemma_xor_regroup(
            clmul_below(l, b, m),
            clmul_below(h, b, m) << 64,
            low_term(l, b, m),
            low_term(h, b, m) << 64,
        );
    }
}

/// Two polynomials with the same terms below degree `n` give the same
/// products with those terms.
proof fn lemma_product_agrees(a: u128, b: u128, c: u128, n: nat)
    requires
        forall|i: int| 0 <= i < n ==> coeff(b, i) == coeff(c, i),
    ensures
        clmul_below(a, b, n) == clmul_below(a, c, n),
        clmul_high_below(a, b, n) == clmul_high_below(a, c, n),
    decreases n,
{
    if n > 0 {
        lemma_product_agrees(a, b, c, (n - 1) as nat);
    }
}

/// The carryless product of two polynomials in two halves, up to the term of
/// degree `64 + k` of the second: the part by its low half, plus the part by
/// its high half 64 places up.
proof fn lemma_product_by_high_half(ah: u64, al: u64, bh: u64, bl: u64, k: nat)
    requires
        k <= 64,
    ensures
        clmul_below(join(ah, al), join(bh, bl), 64 + k) == clmul_below(
            join(ah, al),
            join(bh, bl),
            64,
        ) ^ (clmul_below(al as u128, bh as u128, k) << 64),
        clmul_high_below(join(ah, al), join(bh, bl), 64 + k) == clmul_high_below(
            join(ah, al),
            join(bh, bl),
            64,
        ) ^ (clmul_below(ah as u128, bh as u128, k) ^ (clmul_below(al as u128, bh as u128, k)
            >> 64)),
    decreases k,
{
    let a: u128 = join(ah, al);
    let b: u128 = join(bh, bl);
    let l: u128 = al as u128;
    let h: u128 = ah as u128;
    let y: u128 = bh as u128;
    let low0: u128 = clmul_below(a, b, 64);
    let high0: u128 = clmul_high_below(a, b, 64);
    lemma_shift_half_xor(0, 0);
    lemma_xor_zero(0);
    if k == 0 {
        lemma_xor_zero(low0);
        lemma_xor_zero(high0);
    } else {
        let m: nat = (k - 1) as nat;
        lemma_product_by_high_half(ah, al, bh, bl, m);
        lemma_shifted_halves(ah, al, m);
        lemma_coeff_join(bh, bl, 64 + (m as int));
        let pl: u128 = clmul_below(l, y, m);
        let ph: u128 = clmul_below(h, y, m);
        let tl: u128 = low_term(l, y, m);
        let th: u128 = low_term(h, y, m);
        lemma_shift_half_xor(pl, tl);
        // the low word
        lemma_xor_zero(low0 ^ (pl << 64));
        lemma_xor_regroup(low0, pl << 64, tl << 64, 0);
        // the high word
        lemma_xor_zero(high0 ^ (ph ^ (pl >> 64)));
        lemma_xor_regroup(ph, pl >> 64, th, tl >> 64);
        lemma_xor_regroup(high0, ph ^ (pl >> 64), th ^ (tl >> 64), 0);
    }
}

/// The two words of the carryless product of two polynomials in two halves,
/// from the four products of the halves.
proof fn lemma_product_of_halves(ah: u64, al: u64, bh: u64, bl: u64)
    ensures
        clmul_below(join(ah, al), join(bh, bl), 128) == clmul(al as u128, bl as u128) ^ ((clmul(
            ah as u128,
            bl as u128,
        ) ^ clmul(al as u128, bh as u128)) << 64),
        clmul_high_below(join(ah, al), join(bh, bl), 128) == clmul(ah as u128, bh as u128) ^ ((
        clmul(ah as u128, bl as u128) ^ clmul(al as u128, bh as u128)) >> 64),
{
    let a: u128 = join(ah, al);
    let b: u128 = join(bh, bl);
    let x: u128 = bl as u128;
    let ll: u128 = clmul(al as u128, bl as u128);
    let hl: u128 = clmul(ah as u128, bl as u128);
    let lh: u128 = clmul(al as u128, bh as u128);
    let hh: u128 = clmul(ah as u128, bh as u128);
    assert forall|i: int| 0 <= i < 64 implies coeff(b, i) == coeff(x, i) by {
        lemma_coeff_join(bh, bl, i);
    }
    lemma_product_agrees(a, b, x, 64);
    lemma_product_by_low_half(ah, al, x, 64);
    lemma_product_by_high_half(ah, al, bh, bl, 64);
    lemma_shift_half_xor(hl, lh);
    lemma_xor_regroup(ll, hl << 64, lh << 64, 0);
    lemma_xor_regroup(hl >> 64, hh, lh >> 64, 0);
    lemma_xor_regroup(hh, hl >> 64, lh >> 64, 0);
}

/// The carryless product of two polynomials of degree below 64: the sum,
/// without carries, of `a << i` over the terms `x^i` of `b`.
pub fn carryless_mul(a: u64, b: u64) -> (r: u128)
    ensures
        r == clmul(a as u128, b as u128),
        forall|k: int|
            0 <= k < 128 ==> coeff(r, k) == product_coeff(a as u128, b as u128, k, 64),
{
    let wide: u128 = a as u128;
    let terms: u128 = b as u128;
    let mut acc: u128 = 0;
    proof {
        assert forall|k: int| 0 <= k < 128 implies coeff(clmul(wide, terms), k) == product_coeff(
            wide,
            terms,
            k,
            64,
        ) by {
            lemma_coeff_clmul(wide, terms, 64, k);
        }
    }
    for i in 0u32..64u32
        invariant
            wide == a as u128,
            terms == b as u128,
            acc == clmul_below(a as u128, b as u128, i as nat),
    {
        // all ones where `b` has the term `x^i`, zero where not
        let mask: u128 = 0u128.wrapping_sub((terms >> i) & 1);
        proof {
            lemma_coeff_mask(terms, i as int);
            lemma_masked(wide << i, coeff(terms, i as int));
            lemma_xor_zero(acc);
        }
        acc ^= (wide << i) & mask;
    }
    acc
}

/// The product in the field of two elements, each given by its two halves:
/// three carryless products of halves (the two mixed ones added) put
/// together to the 256-bit product, and its upper half brought back into the
/// field.
pub fn multiply_halves(ah: u64, al: u64, bh: u64, bl: u64) -> (r: u128)
    ensures
        r == gf_mul(join(ah, al), join(bh, bl)),
{
    // degrees 0 to 126
    let rr: u128 = carryless_mul(al, bl);
    // degrees 64 to 190
    let lr: u128 = carryless_mul(ah, bl) ^ carryless_mul(al, bh);
    // degrees 128 to 254
    let ll: u128 = carryless_mul(ah, bh);
    let upper: u128 = ll ^ (lr >> 64);
    let lower: u128 = rr ^ (lr << 64);
    proof {
        lemma_product_of_halves(ah, al, bh, bl);
        lemma_gf_mul_is_reduced_product(join(ah, al), join(bh, bl));
    }
    lower ^ galois_reduce(upper)
}

/// The product of two field elements, each a word whose bit `i` is the
/// coefficient of `x^i`.
pub fn multiply(a: u128, b: u128) -> (r: u128)
    ensures
        r == gf_mul(a, b),
{
    let ah: u64 = (a >> 64) as u64;
    let al: u64 = (a & LOW_HALF) as u64;
    let bh: u64 = (b >> 64) as u64;
    let bl: u64 = (b & LOW_HALF) as u64;
    proof {
        lemma_join_halves(a);
        lemma_join_halves(b);
    }
    multiply_halves(ah, al, bh, bl)
}

/// Multiplication in GF(2^128), the field of polynomials over GF(2) modulo
/// `x^128 + x^7 + x^2 + x + 1`, on 16-byte blocks.
pub fn gfmul(a: [u8; 16], b: [u8; 16]) -> (r: [u8; 16])
    ensures
        r@ == gfmul_of(a@, b@),
{
    let (ah, al) = parse_array_as_pair(a);
    let (bh, bl) = parse_array_as_pair(b);
    proof {
        lemma_join_halves(element_of(a@));
        lemma_join_halves(element_of(b@));
    }
    let product: u128 = multiply_halves(ah as u64, al as u64, bh as u64, bl as u64);
    parse_u128_as_array(product)
}

/// The product of any block and the all-zero block, either way round, is
/// the all-zero block.
pub proof fn lemma_gfmul_zero(x: Seq<u8>)
    ensures
        gfmul_of(x, zero_block()) == zero_block(),
        gfmul_of(zero_block(), x) == zero_block(),
{
    lemma_zero_block();
    lemma_gf_mul_zero(element_of(x));
}

/// The block `80 00 .. 00`, the constant polynomial 1, is the unit: the
/// product of any 16-byte block with it, either way round, is that block.
pub proof fn lemma_gfmul_one(x: Seq<u8>)
    requires
        x.len() == 16,
    ensures
        gfmul_of(x, one_block()) == x,
        gfmul_of(one_block(), x) == x,
{
    lemma_one_block();
    lemma_gf_mul_one(element_of(x));
    lemma_block_round_trip(x);
}

/// The product distributes over the `^` of 16-byte blocks, on either side.
pub proof fn lemma_gfmul_distributes(a: Seq<u8>, b: Seq<u8>, c: Seq<u8>)
    requires
        a.len() == 16,
        b.len() == 16,
    ensures
        gfmul_of(xor_blocks(a, b), c) == xor_blocks(gfmul_of(a, c), gfmul_of(b, c)),
        gfmul_of(c, xor_blocks(a, b)) == xor_blocks(gfmul_of(c, a), gfmul_of(c, b)),
{
    let x: u128 = element_of(a);
    let y: u128 = element_of(b);
    let z: u128 = element_of(c);
    lemma_xor_blocks(a, b);
    lemma_gf_mul_distributes(x, y, z);
    lemma_xor_blocks(gfmul_of(a, c), gfmul_of(b, c));
    lemma_element_round_trip(gf_mul(x, z));
    lemma_element_round_trip(gf_mul(y, z));
    lemma_xor_blocks(gfmul_of(c, a), gfmul_of(c, b));
    lemma_element_round_trip(gf_mul(z, x));
    lemma_element_round_trip(gf_mul(z, y));
}

/// The product of two blocks does not depend on their order.
pub proof fn lemma_gfmul_commutes(a: Seq<u8>, b: Seq<u8>)
    ensures
        gfmul_of(a, b) == gfmul_of(b, a),
{
    lemma_gf_mul_commutes(element_of(a), element_of(b));
}

/// The product of three blocks does not depend on how they are grouped.
pub proof fn lemma_gfmul_associates(a: Seq<u8>, b: Seq<u8>, c: Seq<u8>)
    ensures
        gfmul_of(gfmul_of(a, b), c) == gfmul_of(a, gfmul_of(b, c)),
{
    let x: u128 = element_of(a);
    let y: u128 = element_of(b);
    let z: u128 = element_of(c);
    lemma_gf_mul_associates(x, y, z);
    lemma_element_round_trip(gf_mul(x, y));
    lemma_element_round_trip(gf_mul(y, z));
}

} // verus!
