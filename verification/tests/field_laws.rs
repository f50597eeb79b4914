use galois_hash::{
    carryless_mul, gfmul, multiply, multiply_halves, parse_array_as_uint, parse_u128_as_array,
};

const ZERO: [u8; 16] = [0; 16];
const ONE: [u8; 16] = [0x80, 0, 0, 0, 0, 0, 0, 0, 0, 0, 0, 0, 0, 0, 0, 0];

fn samples() -> Vec<[u8; 16]> {
    let mut out: Vec<[u8; 16]> = vec![ZERO, ONE, [0xff; 16]];
    let mut last = [0u8; 16];
    last[15] = 0x01;
    out.push(last);
    let mut seed: u64 = 0x9e37_79b9_7f4a_7c15;
    for _ in 0..12 {
        let mut block = [0u8; 16];
        for byte in block.iter_mut() {
            seed ^= seed << 13;
            seed ^= seed >> 7;
            seed ^= seed << 17;
            *byte = (seed >> 32) as u8;
        }
        out.push(block);
    }
    out
}

fn xor(a: [u8; 16], b: [u8; 16]) -> [u8; 16] {
    let mut out = [0u8; 16];
    for i in 0..16 {
        out[i] = a[i] ^ b[i];
    }
    out
}

// the product by shifting and adding, one bit of b at a time
fn slow_product(a: u128, b: u128) -> u128 {
    let mut shifted = a;
    let mut sum = 0u128;
    for i in 0..128 {
        if (b >> i) & 1 == 1 {
            sum ^= shifted;
        }
        let carry = shifted >> 127 == 1;
        shifted <<= 1;
        if carry {
            shifted ^= 0x87;
        }
    }
    sum
}

#[test]
fn product_with_zero_is_zero() {
    for x in samples() {
        assert_eq!(gfmul(x, ZERO), ZERO);
        assert_eq!(gfmul(ZERO, x), ZERO);
        assert_eq!(multiply(parse_array_as_uint(x), 0), 0);
    }
}

#[test]
fn product_with_one_is_the_other_factor() {
    assert_eq!(parse_array_as_uint(ONE), 1);
    for x in samples() {
        assert_eq!(gfmul(x, ONE), x);
        assert_eq!(gfmul(ONE, x), x);
        assert_eq!(multiply(parse_array_as_uint(x), 1), parse_array_as_uint(x));
    }
}

#[test]
fn product_distributes_over_xor() {
    let all = samples();
    for a in &all {
        for b in &all {
            for c in &all[..6] {
                assert_eq!(gfmul(xor(*a, *b), *c), xor(gfmul(*a, *c), gfmul(*b, *c)));
                assert_eq!(gfmul(*c, xor(*a, *b)), xor(gfmul(*c, *a), gfmul(*c, *b)));
            }
        }
    }
}

#[test]
fn product_is_commutative() {
    let all = samples();
    for a in &all {
        for b in &all {
            assert_eq!(gfmul(*a, *b), gfmul(*b, *a));
        }
    }
}

#[test]
fn product_is_associative() {
    let all = samples();
    for a in &all[..8] {
        for b in &all[4..12] {
            for c in &all[8..] {
                assert_eq!(gfmul(gfmul(*a, *b), *c), gfmul(*a, gfmul(*b, *c)));
            }
        }
    }
}

#[test]
fn product_on_words_and_on_blocks_agree() {
    let all = samples();
    for a in &all {
        for b in &all {
            let wa = parse_array_as_uint(*a);
            let wb = parse_array_as_uint(*b);
            assert_eq!(gfmul(*a, *b), parse_u128_as_array(multiply(wa, wb)));
            assert_eq!(
                multiply(wa, wb),
                multiply_halves((wa >> 64) as u64, wa as u64, (wb >> 64) as u64, wb as u64)
            );
        }
    }
}

#[test]
fn product_is_the_sum_of_shifted_copies() {
    let all = samples();
    for a in &all {
        for b in &all {
            let wa = parse_array_as_uint(*a);
            let wb = parse_array_as_uint(*b);
            assert_eq!(multiply(wa, wb), slow_product(wa, wb));
        }
    }
}

#[test]
fn product_of_small_powers_of_x() {
    // x * x = x^2, x^3 * x^4 = x^7
    assert_eq!(multiply(2, 2), 4);
    assert_eq!(multiply(8, 16), 128);
    // (x + 1)^2 = x^2 + 1: the middle terms cancel, where integers would carry
    assert_eq!(multiply(3, 3), 5);
    // x^127 * x = x^128 = x^7 + x^2 + x + 1
    assert_eq!(multiply(1 << 127, 2), 0x87);
    // x^64 * x^64 = x^128
    assert_eq!(multiply(1 << 64, 1 << 64), 0x87);
    // x^127 * x^127 = x^254 = x^126 * (x^7 + x^2 + x + 1), and x^133 folds once more
    assert_eq!(
        multiply(1 << 127, 1 << 127),
        (1 << 126) ^ (1 << 127) ^ 0x87 ^ (0x87 << 5)
    );
}

#[test]
fn carryless_product_has_no_carries() {
    assert_eq!(carryless_mul(0, 0xdead_beef), 0);
    assert_eq!(carryless_mul(0xdead_beef, 1), 0xdead_beef);
    assert_eq!(carryless_mul(1, 0xdead_beef), 0xdead_beef);
    assert_eq!(carryless_mul(3, 3), 5);
    assert_eq!(carryless_mul(7, 7), 21);
    assert_eq!(carryless_mul(0b1011, 0b110), 0b111010);
    assert_eq!(carryless_mul(1 << 63, 1 << 63), 1 << 126);
    assert_eq!(carryless_mul(u64::MAX, 2), (u64::MAX as u128) << 1);
    // squaring spreads the bits out: every other bit of the product is set
    assert_eq!(carryless_mul(u64::MAX, u64::MAX), 0x5555_5555_5555_5555_5555_5555_5555_5555);
}

#[test]
fn carryless_product_is_commutative_and_distributes() {
    let a: u64 = 0x0123_4567_89ab_cdef;
    let b: u64 = 0xfedc_ba98_7654_3210;
    let c: u64 = 0x0f1e_2d3c_4b5a_6978;
    assert_eq!(carryless_mul(a, b), carryless_mul(b, a));
    assert_eq!(carryless_mul(a ^ b, c), carryless_mul(a, c) ^ carryless_mul(b, c));
}

#[test]
fn dense_factors_differ_from_integer_multiplication() {
    let a: u64 = 0xffff_ffff;
    let b: u64 = 0xffff_ffff;
    assert_ne!(carryless_mul(a, b), (a as u128) * (b as u128));
    assert_eq!(carryless_mul(a, b), 0x5555_5555_5555_5555);
}
