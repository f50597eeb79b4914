use galois_hash::{galois_product, galois_product_int, galois_reduce, multiply};

#[test]
fn test_galois_reduce() {
    assert_eq!(galois_reduce(0), 0);
    assert_eq!(galois_reduce(1), 135);
    assert_eq!(galois_reduce(2), 270);
    assert_eq!(galois_reduce(3), 135 ^ 270);
    assert_eq!(galois_reduce(4), 540);
    assert_eq!(galois_reduce(5), 135 ^ 540);
    assert_eq!(
        galois_reduce(1u128 << 120),
        2u128.pow(120) + 2u128.pow(121) + 2u128.pow(122) + 2u128.pow(127)
    );
    assert_eq!(
        galois_reduce(1u128 << 121),
        2u128.pow(121) + 2u128.pow(122) + 2u128.pow(123) + 1 + 2 + 4 + 128
    );
    assert_eq!(
        galois_reduce((1u128 << 121) + (1u128 << 120)),
        2u128.pow(120) + 2u128.pow(127) + 2u128.pow(123) + 1 + 2 + 4 + 128
    );
}

#[test]
fn test_galois_product() {
    let mut v = vec![0; 128];
    [0, 1, 2, 7].into_iter().for_each(|i| v[i] = 1);
    assert_eq!(galois_product(0).to_vec(), v);
    let mut v = vec![0; 128];
    [120, 121, 122, 127].into_iter().for_each(|i| v[i] = 1);
    assert_eq!(galois_product(120).to_vec(), v);
    let mut v = vec![0; 128];
    [0, 1, 2, 7, 121, 122, 123].into_iter().for_each(|i| v[i] = 1);
    assert_eq!(galois_product(121).to_vec(), v);

    assert_eq!(galois_product_int(0), 135);
    assert_eq!(galois_product_int(1), 270);
    assert_eq!(galois_product_int(2), 540);
    assert_eq!(galois_product_int(3), 1080);
    assert_eq!(
        galois_product_int(121),
        2u128.pow(121) + 2u128.pow(122) + 2u128.pow(123) + 1 + 2 + 4 + 128
    );
}

#[test]
fn product_digits_and_word_agree() {
    for n in 0..128u8 {
        let digits = galois_product(n);
        let word = galois_product_int(n);
        for i in 0..128 {
            assert!(digits[i] == 0 || digits[i] == 1);
            assert_eq!(digits[i] == 1, (word >> i) & 1 == 1);
        }
    }
}

#[test]
fn product_is_the_next_power_of_x() {
    // x^(128 + n) is x times x^(128 + n - 1)
    for n in 1..128u8 {
        assert_eq!(galois_product_int(n), multiply(galois_product_int(n - 1), 2));
    }
    // the highest one: x^255 = x^127 * (x^7 + x^2 + x + 1) = x^127 + x^13 + x^6 + x^3 + 1
    assert_eq!(galois_product_int(127), multiply(1 << 127, 135));
    assert_eq!(galois_product_int(127), (1 << 127) + (1 << 13) + (1 << 6) + (1 << 3) + 1);
}

#[test]
fn reduce_of_zero_is_zero() {
    assert_eq!(galois_reduce(0), 0);
}

#[test]
fn reduce_adds_up_over_the_set_bits() {
    let n: u128 = (1 << 126) | (1 << 77) | (1 << 5) | 1;
    assert_eq!(
        galois_reduce(n),
        galois_product_int(126) ^ galois_product_int(77) ^ galois_product_int(5)
            ^ galois_product_int(0)
    );
    let a: u128 = 0x0123_4567_89ab_cdef_0011_2233_4455_6677;
    let b: u128 = 0x7edc_ba98_7654_3210_8899_aabb_ccdd_eeff;
    assert_eq!(galois_reduce(a ^ b), galois_reduce(a) ^ galois_reduce(b));
}

#[test]
fn reduce_does_not_read_the_top_bit() {
    assert_eq!(galois_reduce(1 << 127), 0);
    assert_eq!(galois_reduce((1 << 127) | 1), 135);
    assert_eq!(galois_reduce(u128::MAX), galois_reduce(u128::MAX >> 1));
}

#[test]
fn reduce_is_multiplication_by_x_to_the_128() {
    // x^128 = x^7 + x^2 + x + 1, so n * x^128 = n * 135 while n is small
    for n in [1u128, 2, 3, 0xffff, 0x1234_5678_9abc_def0, 1 << 100, (1 << 120) | 1] {
        assert_eq!(galois_reduce(n), multiply(n, 135));
    }
}
