//! Reduction: what the terms of degree 128 and above are equal to in the
//! field.
//!
//! The upper half of a 256-bit product holds the coefficients of `x^128` to
//! `x^255`. Since `x^128` equals `x^7 + x^2 + x + 1`, the term `x^(128 + i)`
//! equals `x^i * (x^7 + x^2 + x + 1)`, brought back once more where it still
//! reaches degree 128. The reduction adds up these patterns over the terms of
//! the upper half. The pattern of each term is worked out when it is needed;
//! no table is kept.

use vstd::prelude::*;
use crate::bits::{
    coeff, lemma_coeff_and, lemma_coeff_ext, lemma_coeff_one, lemma_coeff_or, lemma_coeff_shl,
    lemma_coeff_mask, lemma_coeff_unit, lemma_coeff_xor, lemma_coeff_zero, lemma_masked,
    lemma_xor_regroup, lemma_xor_zero,
};
use crate::field::{
    gf_mul_below, lemma_coeff_gf_mul_below_one, lemma_monomial, lemma_mul_x_pow_add,
    lemma_mul_x_pow_xor, lemma_mul_x_pow_zero, lemma_x_pow_128, mul_x_pow, product_term,
    FIELD_TAIL,
};

verus! {

/// The word with the low 127 bits set: the degrees, counted from 128, that
/// the upper half of a product of two field elements can hold.
pub const LOW_127: u128 = 0x7fff_ffff_ffff_ffff_ffff_ffff_ffff_ffff;

/// A coefficient as a digit.
pub open spec fn digit(bit: bool) -> u8 {
    if bit {
        1
    } else {
        0
    }
}

/// The coefficients of a word as 128 digits, lowest degree first.
pub open spec fn digits_of(v: u128) -> Seq<u8> {
    Seq::new(128, |i: int| digit(coeff(v, i)))
}

/// The exponents of `x^7 + x^2 + x + 1`, in rising order.
pub open spec fn tap(t: int) -> nat {
    if t == 0 {
        0
    } else if t == 1 {
        1
    } else if t == 2 {
        2
    } else {
        7
    }
}

/// The sum of `x^(n + e)` over the first `t` exponents `e` of
/// `x^7 + x^2 + x + 1`, in the field.
pub open spec fn tap_sum(n: nat, t: nat) -> u128
    decreases t,
{
    if t == 0 {
        0
    } else {
        tap_sum(n, (t - 1) as nat) ^ mul_x_pow(1, n + tap(t - 1))
    }
}

/// The upper half `n` of a 256-bit product brought back into the field: the
/// field element `n * x^128`, for the terms of `n` below degree 127.
pub open spec fn reduced(n: u128) -> u128 {
    mul_x_pow(n & LOW_127, 128)
}

/// The terms of the word `LOW_127` are those below degree 127.
pub proof fn lemma_coeff_low_127(i: int)
    ensures
        coeff(LOW_127, i) == (0 <= i < 127),
{
    if 0 <= i < 128 {
        let s: u128 = i as u128;
        assert(((0x7fff_ffff_ffff_ffff_ffff_ffff_ffff_ffffu128 >> s) & 1 == 1) == (s < 127))
            by (bit_vector)
            requires
                s < 128,
        ;
    }
}

proof fn lemma_tail_is_tap_sum()
    ensures
        FIELD_TAIL == tap_sum(0, 4),
{
    reveal_with_fuel(tap_sum, 5);
    lemma_monomial(0);
    lemma_monomial(1);
    lemma_monomial(2);
    lemma_monomial(7);
    assert((((0u128 ^ (1u128 << 0u128)) ^ (1u128 << 1u128)) ^ (1u128 << 2u128)) ^ (1u128 << 7u128)
        == 0x87u128) by (bit_vector);
}

/// `x^n * (x^7 + x^2 + x + 1)` is the sum of its four monomials.
pub proof fn lemma_tap_sum(n: nat)
    ensures
        tap_sum(n, 4) == mul_x_pow(FIELD_TAIL, n),
{
    reveal_with_fuel(tap_sum, 5);
    lemma_tail_is_tap_sum();
    let e0: u128 = mul_x_pow(1, 0);
    let e1: u128 = mul_x_pow(1, 1);
    let e2: u128 = mul_x_pow(1, 2);
    let e7: u128 = mul_x_pow(1, 7);
    lemma_mul_x_pow_xor(((0 ^ e0) ^ e1) ^ e2, e7, n);
    lemma_mul_x_pow_xor((0 ^ e0) ^ e1, e2, n);
    lemma_mul_x_pow_xor(0 ^ e0, e1, n);
    lemma_mul_x_pow_xor(0, e0, n);
    lemma_mul_x_pow_zero(n);
    lemma_mul_x_pow_add(1, 0, n);
    lemma_mul_x_pow_add(1, 1, n);
    lemma_mul_x_pow_add(1, 2, n);
    lemma_mul_x_pow_add(1, 7, n);
}

/// From degree 128 on the monomials are `x^q * (x^7 + x^2 + x + 1)`.
pub proof fn lemma_monomial_above(q: nat)
    ensures
        mul_x_pow(1, 128 + q) == mul_x_pow(FIELD_TAIL, q),
{
    lemma_x_pow_128();
    lemma_mul_x_pow_add(1, 128, q);
}

/// The reduction of nothing is zero.
pub proof fn lemma_reduced_zero()
    ensures
        reduced(0) == 0,
{
    assert(0u128 & 0x7fff_ffff_ffff_ffff_ffff_ffff_ffff_ffffu128 == 0) by (bit_vector);
    lemma_mul_x_pow_zero(128);
}

proof fn lemma_flip(d: u8)
    by (bit_vector)
    requires
        d == 0 || d == 1,
    ensures
        d == 0 ==> d ^ 1 == 1,
        d == 1 ==> d ^ 1 == 0,
{
}

/// Flipping the digit at `p` adds `x^p`.
proof fn lemma_toggle(digits: Seq<u8>, acc: u128, p: int)
    requires
        digits == digits_of(acc),
        0 <= p < 128,
    ensures
        digits.update(p, digits[p] ^ 1) == digits_of(acc ^ (1u128 << (p as u128))),
{
    let e: u128 = 1u128 << (p as u128);
    lemma_flip(digits[p]);
    assert forall|i: int| 0 <= i < 128 implies digits.update(p, digits[p] ^ 1)[i] == digits_of(
        acc ^ e,
    )[i] by {
        lemma_coeff_xor(acc, e, i);
        lemma_coeff_unit(p, i);
    }
    assert(digits.update(p, digits[p] ^ 1) =~= digits_of(acc ^ e));
}

/// The field element `x^n * (x^7 + x^2 + x + 1)`, which is `x^(128 + n)`,
/// as 128 digits, each 0 or 1, lowest degree first.
pub fn galois_product(n: u8) -> (v: [u8; 128])
    requires
        n < 128,
    ensures
        v@ == digits_of(mul_x_pow(FIELD_TAIL, n as nat)),
        v@ == digits_of(mul_x_pow(1, 128 + n as nat)),
{
    let taps: [u8; 4] = [0, 1, 2, 7];
    let mut v: [u8; 128] = [0; 128];
    // the sum of the monomials whose digits have been flipped so far
    let ghost mut done: u128 = 0;
    proof {
        assert forall|i: int| 0 <= i < 128 implies v@[i] == digits_of(0)[i] by {
            lemma_coeff_zero(i);
        }
        assert(v@ =~= digits_of(0));
    }
    for t in 0usize..4usize
        invariant
            n < 128,
            forall|s: int| 0 <= s < 4 ==> #[trigger] taps@[s] == tap(s),
            v@ == digits_of(done),
            done == tap_sum(n as nat, t as nat),
    {
        let j: u8 = taps[t];
        if n + j < 128 {
            proof {
                lemma_toggle(v@, done, (n + j) as int);
                lemma_monomial((n + j) as nat);
                done = done ^ (1u128 << ((n + j) as u128));
            }
            v[(n + j) as usize] ^= 1;
        } else {
            // x^(n + j) has left the word: it is x^q * (x^7 + x^2 + x + 1)
            let q: u8 = n + j - 128;
            let ghost mut part: u128 = 0;
            proof {
                lemma_xor_zero(done);
            }
            for s in 0usize..4usize
                invariant
                    q < 8,
                    forall|s: int| 0 <= s < 4 ==> #[trigger] taps@[s] == tap(s),
                    v@ == digits_of(done ^ part),
                    part == tap_sum(q as nat, s as nat),
            {
                let k: u8 = taps[s];
                proof {
                    let e: u128 = 1u128 << ((q + k) as u128);
                    lemma_toggle(v@, done ^ part, (q + k) as int);
                    lemma_monomial((q + k) as nat);
                    lemma_xor_regroup(done, part, e, 0);
                    part = part ^ e;
                }
                v[(q + k) as usize] ^= 1;
            }
            proof {
                lemma_tap_sum(q as nat);
                lemma_monomial_above(q as nat);
                done = done ^ part;
            }
        }
    }
    proof {
        lemma_tap_sum(n as nat);
        lemma_monomial_above(n as nat);
    }
    v
}

/// The field element `x^n * (x^7 + x^2 + x + 1)`, which is `x^(128 + n)`,
/// as a word.
pub fn galois_product_int(n: u8) -> (r: u128)
    requires
        n < 128,
    ensures
        r == mul_x_pow(FIELD_TAIL, n as nat),
        r == mul_x_pow(1, 128 + n as nat),
{
    let digits: [u8; 128] = galois_product(n);
    let ghost value: u128 = mul_x_pow(FIELD_TAIL, n as nat);
    let mut acc: u128 = 0;
    let mut i: usize = 128;
    proof {
        assert forall|j: int| 0 <= j < 128 implies coeff(acc, j) == coeff(value, j + 128) by {
            lemma_coeff_zero(j);
        }
    }
    while i > 0
        invariant
            i <= 128,
            digits@ == digits_of(value),
            forall|j: int| 0 <= j < 128 ==> coeff(acc, j) == coeff(value, j + i),
        decreases i,
    {
        i -= 1;
        let d: u8 = digits[i];
        let next: u128 = (acc << 1) | (d as u128);
        proof {
            assert(d == digits_of(value)[i as int]);
            assert forall|j: int| 0 <= j < 128 implies coeff(next, j) == coeff(value, j + i) by {
                lemma_coeff_or(acc << 1, d as u128, j);
                lemma_coeff_shl(acc, 1, j);
                lemma_coeff_one(j);
                lemma_coeff_zero(j);
                if j > 0 {
                    assert(coeff(acc, j - 1) == coeff(value, j - 1 + (i + 1)));
                }
            }
        }
        acc = next;
    }
    proof {
        lemma_coeff_ext(acc, value);
        lemma_monomial_above(n as nat);
    }
    acc
}

/// Brings the upper half of a 256-bit product back into the field: for the
/// overflow `n`, whose bit `i` is the coefficient of `x^(128 + i)`, the field
/// element that the terms of degree 128 to 254 are equal to. The product of
/// two polynomials of degree at most 127 has degree at most 254, so the loop
/// stops at bit 126: bit 127 of `n`, which would be degree 255, is not read.
pub fn galois_reduce(n: u128) -> (m: u128)
    ensures
        m == reduced(n),
        n == 0 ==> m == 0,
        forall|i: int| coeff(m, i) ==> 0 <= i < 128,
{
    let mut m: u128 = 0;
    proof {
        lemma_mul_x_pow_zero(128);
    }
    for i in 0u8..127u8
        invariant
            m == mul_x_pow(gf_mul_below(1, n, i as nat), 128),
    {
        let pattern: u128 = galois_product_int(i);
        // all ones where `n` has the term, zero where not
        let mask: u128 = 0u128.wrapping_sub((n >> i) & 1);
        proof {
            let below: u128 = gf_mul_below(1, n, i as nat);
            let term: u128 = product_term(1, n, i as nat);
            lemma_coeff_mask(n, i as int);
            lemma_masked(pattern, coeff(n, i as int));
            lemma_mul_x_pow_xor(below, term, 128);
            lemma_mul_x_pow_zero(128);
            lemma_xor_zero(m);
            lemma_mul_x_pow_add(1, i as nat, 128);
        }
        m ^= pattern & mask;
    }
    proof {
        let below: u128 = gf_mul_below(1, n, 127);
        assert forall|j: int| 0 <= j < 128 implies coeff(below, j) == coeff(n & LOW_127, j) by {
            lemma_coeff_gf_mul_below_one(n, 127, j);
            lemma_coeff_and(n, LOW_127, j);
            lemma_coeff_low_127(j);
        }
        lemma_coeff_ext(below, n & LOW_127);
        lemma_reduced_zero();
    }
    m
}

} // verus!
