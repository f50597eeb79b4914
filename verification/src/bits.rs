//! Words and bytes as sequences of coefficients.
//!
//! A `u128` stands for a polynomial over GF(2) of degree below 128: bit `i`
//! is the coefficient of `x^i`. Two polynomials are added by `^`. The facts
//! about `^`, `|`, `&`, `<<` and `>>` are stated here coefficient by
//! coefficient, so that the rest of the library can argue about polynomials.

use vstd::prelude::*;

verus! {

/// The coefficient of `x^i` in the polynomial over GF(2) that `v` stands for:
/// bit `i` of `v`, and `false` outside the 128 positions of the word.
pub open spec fn coeff(v: u128, i: int) -> bool {
    0 <= i < 128 && (v >> (i as u128)) & 1 == 1
}

/// Bit `j` of the byte `b`, and `false` outside its 8 positions.
pub open spec fn byte_bit(b: u8, j: int) -> bool {
    0 <= j < 8 && (b >> (j as u8)) & 1 == 1
}

/// The coefficients of a word, lowest degree first.
pub open spec fn bits_of(v: u128) -> Seq<bool> {
    Seq::new(128, |i: int| coeff(v, i))
}

/// The word whose coefficient of `x^i` is `s[i]`, for a sequence of at most
/// 128 coefficients: the sum of the monomials `x^i` with `s[i]`.
pub open spec fn from_bits(s: Seq<bool>) -> u128
    decreases s.len(),
{
    if s.len() == 0 {
        0
    } else {
        from_bits(s.drop_last()) ^ (if s.last() {
            1u128 << ((s.len() - 1) as u128)
        } else {
            0
        })
    }
}

/// The sum of two polynomials has a term where exactly one of them has it.
pub proof fn lemma_coeff_xor(a: u128, b: u128, i: int)
    ensures
        coeff(a ^ b, i) == (coeff(a, i) != coeff(b, i)),
{
    if 0 <= i < 128 {
        let s: u128 = i as u128;
        assert((((a ^ b) >> s) & 1 == 1) == (((a >> s) & 1 == 1) != ((b >> s) & 1 == 1)))
            by (bit_vector);
    }
}

/// `a | b` has a term where either of them has it.
pub proof fn lemma_coeff_or(a: u128, b: u128, i: int)
    ensures
        coeff(a | b, i) == (coeff(a, i) || coeff(b, i)),
{
    if 0 <= i < 128 {
        let s: u128 = i as u128;
        assert((((a | b) >> s) & 1 == 1) == (((a >> s) & 1 == 1) || ((b >> s) & 1 == 1)))
            by (bit_vector);
    }
}

/// `a & b` has a term where both of them have it.
pub proof fn lemma_coeff_and(a: u128, b: u128, i: int)
    ensures
        coeff(a & b, i) == (coeff(a, i) && coeff(b, i)),
{
    if 0 <= i < 128 {
        let s: u128 = i as u128;
        assert((((a & b) >> s) & 1 == 1) == (((a >> s) & 1 == 1) && ((b >> s) & 1 == 1)))
            by (bit_vector);
    }
}

/// `a << s` is `a * x^s` without the terms of degree 128 and above.
pub proof fn lemma_coeff_shl(a: u128, s: int, i: int)
    requires
        0 <= s < 128,
    ensures
        coeff(a << (s as u128), i) == (s <= i < 128 && coeff(a, i - s)),
{
    if 0 <= i < 128 {
        let su: u128 = s as u128;
        let iu: u128 = i as u128;
        if s <= i {
            let d: u128 = (i - s) as u128;
            assert((((a << su) >> iu) & 1 == 1) == ((a >> d) & 1 == 1)) by (bit_vector)
                requires
                    su <= iu < 128,
                    d == iu - su,
            ;
        } else {
            assert(((a << su) >> iu) & 1 == 0) by (bit_vector)
                requires
                    iu < su < 128,
            ;
        }
    }
}

/// `a >> s` is the terms of `a` of degree `s` and above, moved down by `s`.
pub proof fn lemma_coeff_shr(a: u128, s: int, i: int)
    requires
        0 <= s < 128,
    ensures
        coeff(a >> (s as u128), i) == (0 <= i && coeff(a, i + s)),
{
    if 0 <= i < 128 {
        let su: u128 = s as u128;
        let iu: u128 = i as u128;
        if i + s < 128 {
            let d: u128 = (i + s) as u128;
            assert((((a >> su) >> iu) & 1 == 1) == ((a >> d) & 1 == 1)) by (bit_vector)
                requires
                    su < 128,
                    iu < 128,
                    d == iu + su,
                    d < 128,
            ;
        } else {
            assert(((a >> su) >> iu) & 1 == 0) by (bit_vector)
                requires
                    su < 128,
                    iu < 128,
                    iu + su >= 128,
            ;
        }
    }
}

/// The word 0 stands for the polynomial without terms.
pub proof fn lemma_coeff_zero(i: int)
    ensures
        !coeff(0, i),
{
    if 0 <= i < 128 {
        let s: u128 = i as u128;
        assert((0u128 >> s) & 1 == 0) by (bit_vector);
    }
}

/// The word 1 stands for the constant polynomial 1.
pub proof fn lemma_coeff_one(i: int)
    ensures
        coeff(1, i) == (i == 0),
{
    if 0 <= i < 128 {
        let s: u128 = i as u128;
        assert(((1u128 >> s) & 1 == 1) == (s == 0)) by (bit_vector);
    }
}

/// The word `1 << k` stands for the monomial `x^k`.
pub proof fn lemma_coeff_unit(k: int, i: int)
    requires
        0 <= k < 128,
    ensures
        coeff(1u128 << (k as u128), i) == (i == k),
{
    lemma_coeff_shl(1, k, i);
    lemma_coeff_one(i - k);
}

/// The mask for a coefficient: all ones where the term is there, zero where
/// it is not.
pub open spec fn mask_of(bit: bool) -> u128 {
    if bit {
        u128::MAX
    } else {
        0
    }
}

/// A word under the mask of a coefficient is the word or zero.
pub proof fn lemma_masked(v: u128, bit: bool)
    ensures
        v & mask_of(bit) == if bit {
            v
        } else {
            0
        },
{
    assert(v & 0xffff_ffff_ffff_ffff_ffff_ffff_ffff_ffffu128 == v && v & 0 == 0) by (bit_vector);
}

/// A coefficient moved to the lowest place is the word 0 or 1, and zero
/// minus that word, wrapping around, is the coefficient's mask.
pub proof fn lemma_coeff_mask(v: u128, i: int)
    requires
        0 <= i < 128,
    ensures
        (v >> (i as u128)) & 1 == if coeff(v, i) {
            1u128
        } else {
            0u128
        },
        0u128.wrapping_sub((v >> (i as u128)) & 1) == mask_of(coeff(v, i)),
{
    let s: u128 = i as u128;
    assert((v >> s) & 1 == 0 || (v >> s) & 1 == 1) by (bit_vector);
}

proof fn lemma_search_step(d: u128, k: u128)
    by (bit_vector)
    requires
        k < 128,
        d >> k != 0,
        (d >> k) & 1 != 1,
    ensures
        k < 127,
        d >> ((k + 1) as u128) != 0,
{
}

/// A word with a term of degree `k` or above has a lowest such term.
proof fn lemma_find_coeff(d: u128, k: int) -> (j: int)
    requires
        0 <= k < 128,
        d >> (k as u128) != 0,
    ensures
        k <= j < 128,
        coeff(d, j),
    decreases 128 - k,
{
    if (d >> (k as u128)) & 1 == 1 {
        k
    } else {
        lemma_search_step(d, k as u128);
        lemma_find_coeff(d, k + 1)
    }
}

/// Two words with the same coefficients are the same word.
pub proof fn lemma_coeff_ext(a: u128, b: u128)
    requires
        forall|i: int| 0 <= i < 128 ==> coeff(a, i) == coeff(b, i),
    ensures
        a == b,
{
    if a != b {
        let d: u128 = a ^ b;
        assert(d >> 0 != 0) by (bit_vector)
            requires
                d == a ^ b,
                a != b,
        ;
        let j: int = lemma_find_coeff(d, 0);
        lemma_coeff_xor(a, b, j);
    }
}

/// Zero is neutral for the sum, and every polynomial is its own opposite.
pub proof fn lemma_xor_zero(a: u128)
    by (bit_vector)
    ensures
        a ^ 0 == a,
        0 ^ a == a,
        a ^ a == 0,
{
}

/// Sums may be reordered, regrouped, and freed of a term that occurs twice.
pub proof fn lemma_xor_regroup(a: u128, b: u128, c: u128, d: u128)
    by (bit_vector)
    ensures
        a ^ b == b ^ a,
        (a ^ b) ^ c == a ^ (b ^ c),
        (a ^ b) ^ (c ^ d) == (a ^ c) ^ (b ^ d),
        (a ^ c) ^ (b ^ c) == a ^ b,
{
}

/// A byte widened to a word keeps its bits.
pub proof fn lemma_coeff_byte(b: u8, i: int)
    ensures
        coeff(b as u128, i) == byte_bit(b, i),
{
    if 0 <= i < 128 {
        let s: u128 = i as u128;
        if i < 8 {
            let t: u8 = i as u8;
            assert((((b as u128) >> s) & 1 == 1) == ((b >> t) & 1 == 1)) by (bit_vector)
                requires
                    s < 8,
                    t == s,
            ;
        } else {
            assert(((b as u128) >> s) & 1 == 0) by (bit_vector)
                requires
                    8 <= s < 128,
            ;
        }
    }
}

/// The low byte of a word holds the word's eight lowest coefficients.
pub proof fn lemma_low_byte(v: u128, j: int)
    ensures
        byte_bit(v as u8, j) == (j < 8 && coeff(v, j)),
{
    if 0 <= j < 8 {
        let t: u8 = j as u8;
        let s: u128 = j as u128;
        assert((((v as u8) >> t) & 1 == 1) == ((v >> s) & 1 == 1)) by (bit_vector)
            requires
                t < 8,
                s == t,
        ;
    }
}

/// Two bytes with the same bits are the same byte.
pub proof fn lemma_byte_ext(a: u8, b: u8)
    requires
        forall|j: int| 0 <= j < 8 ==> byte_bit(a, j) == byte_bit(b, j),
    ensures
        a == b,
{
    let wa: u128 = a as u128;
    let wb: u128 = b as u128;
    assert forall|i: int| 0 <= i < 128 implies coeff(wa, i) == coeff(wb, i) by {
        lemma_coeff_byte(a, i);
        lemma_coeff_byte(b, i);
    }
    lemma_coeff_ext(wa, wb);
}

/// The word of a sequence of coefficients has exactly those coefficients.
pub proof fn lemma_coeff_from_bits(s: Seq<bool>, i: int)
    requires
        s.len() <= 128,
    ensures
        coeff(from_bits(s), i) == (0 <= i < s.len() && s[i]),
    decreases s.len(),
{
    if s.len() == 0 {
        lemma_coeff_zero(i);
    } else {
        let m: int = s.len() - 1;
        let t: u128 = if s.last() { 1u128 << (m as u128) } else { 0 };
        lemma_coeff_from_bits(s.drop_last(), i);
        lemma_coeff_xor(from_bits(s.drop_last()), t, i);
        lemma_coeff_unit(m, i);
        lemma_coeff_zero(i);
    }
}

/// A sequence of 128 coefficients is the coefficients of its word.
pub proof fn lemma_bits_of_from(s: Seq<bool>)
    requires
        s.len() == 128,
    ensures
        bits_of(from_bits(s)) == s,
{
    assert forall|i: int| 0 <= i < 128 implies bits_of(from_bits(s))[i] == s[i] by {
        lemma_coeff_from_bits(s, i);
    }
    assert(bits_of(from_bits(s)) =~= s);
}

/// A word is the word of its coefficients.
pub proof fn lemma_from_bits_of(v: u128)
    ensures
        from_bits(bits_of(v)) == v,
{
    assert forall|i: int| 0 <= i < 128 implies coeff(from_bits(bits_of(v)), i) == coeff(v, i) by {
        lemma_coeff_from_bits(bits_of(v), i);
    }
    lemma_coeff_ext(from_bits(bits_of(v)), v);
}

} // verus!
