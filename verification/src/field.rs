//! The field GF(2^128) of GHASH: polynomials over GF(2) modulo
//! `x^128 + x^7 + x^2 + x + 1`.
//!
//! An element is a `u128` whose bit `i` is the coefficient of `x^i`. The sum
//! of two elements is their `^`. The product is defined term by term: the
//! product of `a` and `x` is `a` moved up by one place, with `x^128` replaced
//! by `x^7 + x^2 + x + 1`; the product of `a` and `b` is the sum of
//! `a * x^i` over the terms `x^i` of `b`. The laws of the field that the
//! library relies on are proved from that definition.

use vstd::prelude::*;
use crate::bits::{
    coeff, lemma_coeff_ext, lemma_coeff_shl, lemma_coeff_unit, lemma_coeff_xor, lemma_coeff_zero,
    lemma_xor_regroup, lemma_xor_zero,
};

verus! {

/// The low part of the field polynomial `x^128 + x^7 + x^2 + x + 1`:
/// in the field, `x^128` equals `x^7 + x^2 + x + 1`.
pub const FIELD_TAIL: u128 = 0x87;

/// Whether `x^i` is a term of `x^7 + x^2 + x + 1`.
pub open spec fn tail_term(i: int) -> bool {
    i == 0 || i == 1 || i == 2 || i == 7
}

/// The product of the field element `v` and `x`.
pub open spec fn mul_x(v: u128) -> u128 {
    (v << 1) ^ (if coeff(v, 127) {
        FIELD_TAIL
    } else {
        0
    })
}

/// The product of the field element `v` and `x^n`.
pub open spec fn mul_x_pow(v: u128, n: nat) -> u128
    decreases n,
{
    if n == 0 {
        v
    } else {
        mul_x(mul_x_pow(v, (n - 1) as nat))
    }
}

/// What the term of degree `i` of `b` adds to the product of `a` and `b`.
pub open spec fn product_term(a: u128, b: u128, i: nat) -> u128 {
    if coeff(b, i as int) {
        mul_x_pow(a, i)
    } else {
        0
    }
}

/// The product of `a` and the terms of `b` below degree `n`.
pub open spec fn gf_mul_below(a: u128, b: u128, n: nat) -> u128
    decreases n,
{
    if n == 0 {
        0
    } else {
        gf_mul_below(a, b, (n - 1) as nat) ^ product_term(a, b, (n - 1) as nat)
    }
}

/// The product of `a` and `b` in the field.
pub open spec fn gf_mul(a: u128, b: u128) -> u128 {
    gf_mul_below(a, b, 128)
}

/// The power `h^n` in the field.
pub open spec fn gf_pow(h: u128, n: nat) -> u128
    decreases n,
{
    if n == 0 {
        1
    } else {
        gf_mul(gf_pow(h, (n - 1) as nat), h)
    }
}

/// The terms of the word `FIELD_TAIL` are those of `x^7 + x^2 + x + 1`.
pub proof fn lemma_coeff_tail(i: int)
    ensures
        coeff(FIELD_TAIL, i) == tail_term(i),
{
    if 0 <= i < 128 {
        let s: u128 = i as u128;
        assert(((0x87u128 >> s) & 1 == 1) == (s == 0 || s == 1 || s == 2 || s == 7))
            by (bit_vector);
    }
}

/// The coefficients of `v * x`: those of `v` one place up, and the tail of the
/// field polynomial where `v` had a term of degree 127.
pub proof fn lemma_coeff_mul_x(v: u128, i: int)
    requires
        0 <= i < 128,
    ensures
        coeff(mul_x(v), i) == (coeff(v, i - 1) != (coeff(v, 127) && tail_term(i))),
{
    let t: u128 = if coeff(v, 127) { FIELD_TAIL } else { 0 };
    lemma_coeff_xor(v << 1, t, i);
    lemma_coeff_shl(v, 1, i);
    lemma_coeff_tail(i);
    lemma_coeff_zero(i);
}

/// Multiplication by `x` distributes over the sum.
pub proof fn lemma_mul_x_xor(a: u128, b: u128)
    ensures
        mul_x(a ^ b) == mul_x(a) ^ mul_x(b),
{
    assert forall|i: int| 0 <= i < 128 implies coeff(mul_x(a ^ b), i) == coeff(
        mul_x(a) ^ mul_x(b),
        i,
    ) by {
        lemma_coeff_mul_x(a ^ b, i);
        lemma_coeff_mul_x(a, i);
        lemma_coeff_mul_x(b, i);
        lemma_coeff_xor(mul_x(a), mul_x(b), i);
        lemma_coeff_xor(a, b, i - 1);
        lemma_coeff_xor(a, b, 127);
    }
    lemma_coeff_ext(mul_x(a ^ b), mul_x(a) ^ mul_x(b));
}

/// Zero times `x` is zero.
pub proof fn lemma_mul_x_zero()
    ensures
        mul_x(0) == 0,
{
    assert forall|i: int| 0 <= i < 128 implies coeff(mul_x(0), i) == coeff(0, i) by {
        lemma_coeff_mul_x(0, i);
        lemma_coeff_zero(i);
        lemma_coeff_zero(i - 1);
        lemma_coeff_zero(127);
    }
    lemma_coeff_ext(mul_x(0), 0);
}

/// Multiplication by `x^n` distributes over the sum.
pub proof fn lemma_mul_x_pow_xor(a: u128, b: u128, n: nat)
    ensures
        mul_x_pow(a ^ b, n) == mul_x_pow(a, n) ^ mul_x_pow(b, n),
    decreases n,
{
    if n > 0 {
        let m: nat = (n - 1) as nat;
        lemma_mul_x_pow_xor(a, b, m);
        lemma_mul_x_xor(mul_x_pow(a, m), mul_x_pow(b, m));
    }
}

/// Zero times `x^n` is zero.
pub proof fn lemma_mul_x_pow_zero(n: nat)
    ensures
        mul_x_pow(0, n) == 0,
    decreases n,
{
    if n > 0 {
        lemma_mul_x_pow_zero((n - 1) as nat);
        lemma_mul_x_zero();
    }
}

/// Multiplying by `x^m` and then by `x^n` multiplies by `x^(m + n)`.
pub proof fn lemma_mul_x_pow_add(v: u128, m: nat, n: nat)
    ensures
        mul_x_pow(mul_x_pow(v, m), n) == mul_x_pow(v, m + n),
    decreases n,
{
    if n > 0 {
        lemma_mul_x_pow_add(v, m, (n - 1) as nat);
    }
}

/// Multiplication by `x` and by `x^n` commute.
pub proof fn lemma_mul_x_pow_shift(v: u128, n: nat)
    ensures
        mul_x_pow(mul_x(v), n) == mul_x(mul_x_pow(v, n)),
{
    assert(mul_x_pow(v, 1) == mul_x(v)) by {
        reveal_with_fuel(mul_x_pow, 2);
    }
    lemma_mul_x_pow_add(v, 1, n);
}

/// The monomial `x^k` is the word `1 << k` as long as `k` is below 128.
pub proof fn lemma_monomial(k: nat)
    requires
        k < 128,
    ensures
        mul_x_pow(1, k) == 1u128 << (k as u128),
    decreases k,
{
    if k == 0 {
        assert(1u128 << 0u128 == 1) by (bit_vector);
    } else {
        let j: nat = (k - 1) as nat;
        lemma_monomial(j);
        let e: u128 = 1u128 << (j as u128);
        assert forall|i: int| 0 <= i < 128 implies coeff(mul_x(e), i) == coeff(
            1u128 << (k as u128),
            i,
        ) by {
            lemma_coeff_mul_x(e, i);
            lemma_coeff_unit(j as int, i - 1);
            lemma_coeff_unit(j as int, 127);
            lemma_coeff_unit(k as int, i);
        }
        lemma_coeff_ext(mul_x(e), 1u128 << (k as u128));
    }
}

/// In the field, `x^128` is `x^7 + x^2 + x + 1`.
pub proof fn lemma_x_pow_128()
    ensures
        mul_x_pow(1, 128) == FIELD_TAIL,
{
    lemma_monomial(127);
    let e: u128 = 1u128 << 127u128;
    assert forall|i: int| 0 <= i < 128 implies coeff(mul_x(e), i) == coeff(FIELD_TAIL, i) by {
        lemma_coeff_mul_x(e, i);
        lemma_coeff_unit(127, i - 1);
        lemma_coeff_unit(127, 127);
        lemma_coeff_tail(i);
    }
    lemma_coeff_ext(mul_x(e), FIELD_TAIL);
}

/// Partial products distribute over the sum of left factors.
pub proof fn lemma_gf_mul_below_xor_left(a: u128, c: u128, b: u128, n: nat)
    ensures
        gf_mul_below(a ^ c, b, n) == gf_mul_below(a, b, n) ^ gf_mul_below(c, b, n),
    decreases n,
{
    lemma_xor_zero(0);
    if n > 0 {
        let m: nat = (n - 1) as nat;
        lemma_gf_mul_below_xor_left(a, c, b, m);
        lemma_mul_x_pow_xor(a, c, m);
        lemma_xor_regroup(
            gf_mul_below(a, b, m),
            gf_mul_below(c, b, m),
            product_term(a, b, m),
            product_term(c, b, m),
        );
    }
}

/// Partial products distribute over the sum of right factors.
pub proof fn lemma_gf_mul_below_xor_right(a: u128, b: u128, c: u128, n: nat)
    ensures
        gf_mul_below(a, b ^ c, n) == gf_mul_below(a, b, n) ^ gf_mul_below(a, c, n),
    decreases n,
{
    lemma_xor_zero(0);
    if n > 0 {
        let m: nat = (n - 1) as nat;
        lemma_gf_mul_below_xor_right(a, b, c, m);
        lemma_coeff_xor(b, c, m as int);
        lemma_xor_zero(mul_x_pow(a, m));
        lemma_xor_regroup(
            gf_mul_below(a, b, m),
            gf_mul_below(a, c, m),
            product_term(a, b, m),
            product_term(a, c, m),
        );
    }
}

/// A partial product with zero on the right is zero.
pub proof fn lemma_gf_mul_below_zero_right(a: u128, n: nat)
    ensures
        gf_mul_below(a, 0, n) == 0,
    decreases n,
{
    if n > 0 {
        let m: nat = (n - 1) as nat;
        lemma_gf_mul_below_zero_right(a, m);
        lemma_coeff_zero(m as int);
        lemma_xor_zero(0);
    }
}

/// A partial product with zero on the left is zero.
pub proof fn lemma_gf_mul_below_zero_left(b: u128, n: nat)
    ensures
        gf_mul_below(0, b, n) == 0,
    decreases n,
{
    if n > 0 {
        let m: nat = (n - 1) as nat;
        lemma_gf_mul_below_zero_left(b, m);
        lemma_mul_x_pow_zero(m);
        lemma_xor_zero(0);
    }
}

/// The partial product with a monomial `x^k` is `k` multiplications by `x`,
/// once the term `x^k` is among those counted.
pub proof fn lemma_gf_mul_below_monomial(a: u128, k: nat, n: nat)
    requires
        k < 128,
    ensures
        gf_mul_below(a, 1u128 << (k as u128), n) == if k < n {
            mul_x_pow(a, k)
        } else {
            0
        },
    decreases n,
{
    if n > 0 {
        let m: nat = (n - 1) as nat;
        lemma_gf_mul_below_monomial(a, k, m);
        lemma_coeff_unit(k as int, m as int);
        lemma_xor_zero(mul_x_pow(a, k));
        lemma_xor_zero(0);
    }
}

/// Multiplying the left factor by `x` multiplies a partial product by `x`.
pub proof fn lemma_gf_mul_below_mul_x(a: u128, b: u128, n: nat)
    ensures
        gf_mul_below(mul_x(a), b, n) == mul_x(gf_mul_below(a, b, n)),
    decreases n,
{
    lemma_mul_x_zero();
    if n > 0 {
        let m: nat = (n - 1) as nat;
        lemma_gf_mul_below_mul_x(a, b, m);
        lemma_mul_x_pow_shift(a, m);
        lemma_mul_x_xor(gf_mul_below(a, b, m), product_term(a, b, m));
    }
}

/// The product of 1 and the terms of `b` below degree `n` is those terms.
pub proof fn lemma_coeff_gf_mul_below_one(b: u128, n: nat, i: int)
    requires
        n <= 128,
    ensures
        coeff(gf_mul_below(1, b, n), i) == (i < n && coeff(b, i)),
    decreases n,
{
    if n == 0 {
        lemma_coeff_zero(i);
    } else {
        let m: nat = (n - 1) as nat;
        lemma_coeff_gf_mul_below_one(b, m, i);
        lemma_coeff_xor(gf_mul_below(1, b, m), product_term(1, b, m), i);
        lemma_monomial(m);
        lemma_coeff_unit(m as int, i);
        lemma_coeff_zero(i);
    }
}

/// The product with the monomial `x^k` is `k` multiplications by `x`.
pub proof fn lemma_gf_mul_monomial(a: u128, k: nat)
    requires
        k < 128,
    ensures
        gf_mul(a, 1u128 << (k as u128)) == mul_x_pow(a, k),
{
    lemma_gf_mul_below_monomial(a, k, 128);
}

/// Multiplying the left factor by `x^k` multiplies the product by `x^k`.
pub proof fn lemma_gf_mul_mul_x_pow(a: u128, b: u128, k: nat)
    ensures
        gf_mul(mul_x_pow(a, k), b) == mul_x_pow(gf_mul(a, b), k),
    decreases k,
{
    if k > 0 {
        let j: nat = (k - 1) as nat;
        lemma_gf_mul_mul_x_pow(a, b, j);
        lemma_gf_mul_below_mul_x(mul_x_pow(a, j), b, 128);
    }
}

/// The product of anything and zero, either way round, is zero.
pub proof fn lemma_gf_mul_zero(a: u128)
    ensures
        gf_mul(a, 0) == 0,
        gf_mul(0, a) == 0,
{
    lemma_gf_mul_below_zero_right(a, 128);
    lemma_gf_mul_below_zero_left(a, 128);
}

/// The word 1, the constant polynomial 1, is the unit of the product.
pub proof fn lemma_gf_mul_one(a: u128)
    ensures
        gf_mul(a, 1) == a,
        gf_mul(1, a) == a,
{
    lemma_monomial(0);
    lemma_gf_mul_monomial(a, 0);
    assert forall|i: int| 0 <= i < 128 implies coeff(gf_mul(1, a), i) == coeff(a, i) by {
        lemma_coeff_gf_mul_below_one(a, 128, i);
    }
    lemma_coeff_ext(gf_mul(1, a), a);
}

/// The product distributes over the sum, on either side.
pub proof fn lemma_gf_mul_distributes(a: u128, b: u128, c: u128)
    ensures
        gf_mul(a ^ b, c) == gf_mul(a, c) ^ gf_mul(b, c),
        gf_mul(c, a ^ b) == gf_mul(c, a) ^ gf_mul(c, b),
{
    lemma_gf_mul_below_xor_left(a, b, c, 128);
    lemma_gf_mul_below_xor_right(c, a, b, 128);
}

/// With the terms of `a` below degree `n` on the left, the product is the
/// partial product the other way round.
proof fn lemma_commutes_below(a: u128, b: u128, n: nat)
    requires
        n <= 128,
    ensures
        gf_mul(gf_mul_below(1, a, n), b) == gf_mul_below(b, a, n),
    decreases n,
{
    lemma_gf_mul_zero(b);
    if n > 0 {
        let m: nat = (n - 1) as nat;
        lemma_commutes_below(a, b, m);
        lemma_gf_mul_distributes(gf_mul_below(1, a, m), product_term(1, a, m), b);
        lemma_gf_mul_mul_x_pow(1, b, m);
        lemma_gf_mul_one(b);
    }
}

/// The product does not depend on the order of the factors.
pub proof fn lemma_gf_mul_commutes(a: u128, b: u128)
    ensures
        gf_mul(a, b) == gf_mul(b, a),
{
    lemma_commutes_below(a, b, 128);
    lemma_gf_mul_one(a);
}

/// With the terms of `a` below degree `n` on the left, products of three
/// may be regrouped.
proof fn lemma_associates_below(a: u128, b: u128, c: u128, n: nat)
    requires
        n <= 128,
    ensures
        gf_mul(gf_mul(gf_mul_below(1, a, n), b), c) == gf_mul(
            gf_mul_below(1, a, n),
            gf_mul(b, c),
        ),
    decreases n,
{
    lemma_gf_mul_zero(b);
    lemma_gf_mul_zero(c);
    lemma_gf_mul_zero(gf_mul(b, c));
    if n > 0 {
        let m: nat = (n - 1) as nat;
        let p: u128 = gf_mul_below(1, a, m);
        let t: u128 = product_term(1, a, m);
        lemma_associates_below(a, b, c, m);
        lemma_gf_mul_distributes(p, t, b);
        lemma_gf_mul_distributes(gf_mul(p, b), gf_mul(t, b), c);
        lemma_gf_mul_distributes(p, t, gf_mul(b, c));
        lemma_gf_mul_one(b);
        lemma_gf_mul_one(gf_mul(b, c));
        lemma_gf_mul_mul_x_pow(1, b, m);
        lemma_gf_mul_mul_x_pow(1, gf_mul(b, c), m);
        lemma_gf_mul_mul_x_pow(b, c, m);
    }
}

/// The product of three does not depend on how they are grouped.
pub proof fn lemma_gf_mul_associates(a: u128, b: u128, c: u128)
    ensures
        gf_mul(gf_mul(a, b), c) == gf_mul(a, gf_mul(b, c)),
{
    lemma_associates_below(a, b, c, 128);
    lemma_gf_mul_one(a);
}

} // verus!
