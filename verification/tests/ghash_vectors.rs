use galois_hash::{gfmul, ghash, Accumulator};
use ghash::{
    universal_hash::{KeyInit, UniversalHash},
    GHash,
};

// lowest degrees
const LONE: [u8; 16] = [0x80, 0, 0, 0, 0, 0, 0, 0, 0, 0, 0, 0, 0, 0, 0, 0]; // x^0
const LTWO: [u8; 16] = [0x40, 0, 0, 0, 0, 0, 0, 0, 0, 0, 0, 0, 0, 0, 0, 0]; // x^1
const LTHREE: [u8; 16] = [0xc0, 0, 0, 0, 0, 0, 0, 0, 0, 0, 0, 0, 0, 0, 0, 0]; // x^0+x^1
const LC: [u8; 16] = [0x30, 0, 0, 0, 0, 0, 0, 0, 0, 0, 0, 0, 0, 0, 0, 0]; // x^2+x^3

// highest degrees
const RONE: [u8; 16] = [0, 0, 0, 0, 0, 0, 0, 0, 0, 0, 0, 0, 0, 0, 0, 0x01]; // x^127
const RTWO: [u8; 16] = [0, 0, 0, 0, 0, 0, 0, 0, 0, 0, 0, 0, 0, 0, 0, 0x02]; // x^126
const RTHREE: [u8; 16] = [0, 0, 0, 0, 0, 0, 0, 0, 0, 0, 0, 0, 0, 0, 0, 0x03]; // x^126+x^127
const RTHREE0: [u8; 16] = [0, 0, 0, 0, 0, 0, 0, 0, 0, 0, 0, 0, 0, 0, 0, 0x30]; // x^122+x^123

const H: [u8; 16] = [
    0x25, 0x62, 0x93, 0x47, 0x58, 0x92, 0x42, 0x76, 0x1d, 0x31, 0xf8, 0x26, 0xba, 0x4b, 0x75, 0x7b,
];
const X_1: [u8; 16] = [
    0x4f, 0x4f, 0x95, 0x66, 0x8c, 0x83, 0xdf, 0xb6, 0x40, 0x17, 0x62, 0xbb, 0x2d, 0x01, 0xa2, 0x62,
];
const X_2: [u8; 16] = [
    0xd1, 0xa2, 0x4d, 0xdd, 0x27, 0x21, 0xd0, 0x06, 0xbb, 0xe4, 0x5f, 0x20, 0xd3, 0xc9, 0xf3, 0x62,
];

fn hex16(text: &str) -> [u8; 16] {
    let bytes = hex::decode(text).unwrap();
    let mut block = [0u8; 16];
    block.copy_from_slice(&bytes);
    block
}

// the hash as the RustCrypto crate computes it
fn rustcrypto(h: [u8; 16], blocks: &[[u8; 16]]) -> [u8; 16] {
    let mut ghash_rc = GHash::new(&h.into());
    for block in blocks {
        ghash_rc.update(&[(*block).into()]);
    }
    let result = ghash_rc.finalize();
    let mut tag = [0u8; 16];
    tag.copy_from_slice(result.as_slice());
    tag
}

fn xor(a: [u8; 16], b: [u8; 16]) -> [u8; 16] {
    let mut out = [0u8; 16];
    for i in 0..16 {
        out[i] = a[i] ^ b[i];
    }
    out
}

#[test]
fn test_ghash_lsb_lsb() {
    let mut ghash_rc = GHash::new(&LONE.into());
    ghash_rc.update(&[LONE.into()]);
    let result = ghash_rc.finalize();
    assert_eq!(result.as_slice(), ghash(LONE, &[&LONE]));
}

#[test]
fn test_ghash_msb_msb() {
    let mut ghash_rc = GHash::new(&RONE.into());
    ghash_rc.update(&[RONE.into()]);
    let result = ghash_rc.finalize();
    assert_eq!(hex::encode(result.as_slice()), hex::encode(ghash(RONE, &[&RONE])));
}

#[test]
fn test_ghash_ltwo_ltwo() {
    let mut ghash_rc = GHash::new(&LTWO.into());
    ghash_rc.update(&[LTWO.into()]);
    let result = ghash_rc.finalize();
    assert_eq!(result.as_slice(), ghash(LTWO, &[&LTWO]));
}

#[test]
fn test_ghash_lsb_msb() {
    let mut ghash_rc = GHash::new(&LONE.into());
    ghash_rc.update(&[RONE.into()]);
    let result = ghash_rc.finalize();
    assert_eq!(result.as_slice(), ghash(LONE, &[&RONE]));
}

#[test]
fn test_ghash_lsb_ltwo() {
    let mut ghash_rc = GHash::new(&LTWO.into());
    ghash_rc.update(&[LONE.into()]);
    let result = ghash_rc.finalize();
    assert_eq!(result.as_slice(), ghash(LTWO, &[&LONE]));
}

#[test]
fn test_ghash_ltwo_msb() {
    let mut ghash_rc = GHash::new(&LTWO.into());
    ghash_rc.update(&[RONE.into()]);
    let result = ghash_rc.finalize();
    assert_eq!(hex::encode(result.as_slice()), hex::encode(ghash(LTWO, &[&RONE])));
}

#[test]
fn test_ghash_lthree_msb() {
    let mut ghash_rc = GHash::new(&LTHREE.into());
    ghash_rc.update(&[RONE.into()]);
    let result = ghash_rc.finalize();
    assert_eq!(hex::encode(result.as_slice()), hex::encode(ghash(LTHREE, &[&RONE])));
}

#[test]
fn test_ghash_lc_msb() {
    let mut ghash_rc = GHash::new(&LC.into());
    ghash_rc.update(&[RONE.into()]);
    let result = ghash_rc.finalize();
    assert_eq!(hex::encode(result.as_slice()), hex::encode(ghash(LC, &[&RONE])));
}

#[test]
fn test_ghash_lc_rtwo() {
    let mut ghash_rc = GHash::new(&LC.into());
    ghash_rc.update(&[RTWO.into()]);
    let result = ghash_rc.finalize();
    assert_eq!(hex::encode(result.as_slice()), hex::encode(ghash(LC, &[&RTWO])));
}

#[test]
fn test_ghash_ltwo_lsb() {
    let mut ghash_rc = GHash::new(&LTWO.into());
    ghash_rc.update(&[LONE.into()]);
    let result = ghash_rc.finalize();
    assert_eq!(hex::encode(result.as_slice()), hex::encode(ghash(LTWO, &[&LONE])));
}

#[test]
fn test_ghash_rtwo_msb() {
    let mut ghash_rc = GHash::new(&RTWO.into());
    ghash_rc.update(&[RONE.into()]);
    let result = ghash_rc.finalize();
    assert_eq!(hex::encode(result.as_slice()), hex::encode(ghash(RTWO, &[&RONE])));
}

#[test]
fn test_ghash_h_lone() {
    let mut ghash_rc = GHash::new(&H.into());
    ghash_rc.update(&[LONE.into()]);
    let result = ghash_rc.finalize();
    assert_eq!(hex::encode(result.as_slice()), hex::encode(ghash(H, &[&LONE])));
}

#[test]
fn test_ghash_h_rone() {
    let mut ghash_rc = GHash::new(&H.into());
    ghash_rc.update(&[RONE.into()]);
    let result = ghash_rc.finalize();
    assert_eq!(hex::encode(result.as_slice()), hex::encode(ghash(H, &[&RONE])));
}

#[test]
fn test_ghash_h_rtwo() {
    let mut ghash_rc = GHash::new(&H.into());
    ghash_rc.update(&[RTWO.into()]);
    let result = ghash_rc.finalize();
    assert_eq!(hex::encode(result.as_slice()), hex::encode(ghash(H, &[&RTWO])));
}

#[test]
fn test_ghash_h_r_8() {
    let r: [u8; 16] = hex16("00000000000000000000000000000008");
    let mut ghash_rc = GHash::new(&H.into());
    ghash_rc.update(&[r.into()]);
    let result = ghash_rc.finalize();
    assert_eq!(hex::encode(result.as_slice()), hex::encode(ghash(H, &[&r])));
}

#[test]
fn test_ghash_lc_r3() {
    // (x^2+x^3)(x^126+x^127)
    let mut ghash_rc = GHash::new(&LC.into());
    ghash_rc.update(&[RTHREE.into()]);
    let result = ghash_rc.finalize();
    assert_eq!(hex::encode(result.as_slice()), hex::encode(ghash(LC, &[&RTHREE])));
}

#[test]
fn test_ghash_lc_r30() {
    // (x^2+x^3)(x^122+x^123)
    // = x^124 + 2x^125 + x^126 = x^124 + x^126 = 0x0a
    let mut ghash_rc = GHash::new(&LC.into());
    ghash_rc.update(&[RTHREE0.into()]);
    let result = ghash_rc.finalize();
    assert_eq!(hex::encode(result.as_slice()), hex::encode(ghash(LC, &[&RTHREE0])));
}

#[test]
fn test_ghash_h_r4() {
    let r: [u8; 16] = hex16("00000000000000000000000000000004");
    let mut ghash_rc = GHash::new(&H.into());
    ghash_rc.update(&[r.into()]);
    let result = ghash_rc.finalize();
    assert_eq!(hex::encode(result.as_slice()), hex::encode(ghash(H, &[&r])));
}

#[test]
fn test_ghash_h_r5() {
    let r: [u8; 16] = hex16("00000000000000000000000000000005");
    let mut ghash_rc = GHash::new(&H.into());
    ghash_rc.update(&[r.into()]);
    let result = ghash_rc.finalize();
    assert_eq!(hex::encode(result.as_slice()), hex::encode(ghash(H, &[&r])));
}

#[test]
fn test_ghash_h_r9() {
    let r: [u8; 16] = hex16("00000000000000000000000000000009");
    let mut ghash_rc = GHash::new(&H.into());
    ghash_rc.update(&[r.into()]);
    let result = ghash_rc.finalize();
    assert_eq!(hex::encode(result.as_slice()), hex::encode(ghash(H, &[&r])));
}

#[test]
fn test_ghash_h_rc() {
    let r: [u8; 16] = hex16("0000000000000000000000000000000c");
    let mut ghash_rc = GHash::new(&H.into());
    ghash_rc.update(&[r.into()]);
    let result = ghash_rc.finalize();
    assert_eq!(hex::encode(result.as_slice()), hex::encode(ghash(H, &[&r])));
}

#[test]
fn test_ghash_h_r38() {
    let r: [u8; 16] = hex16("00000000000000000000000000000038");
    let mut ghash_rc = GHash::new(&H.into());
    ghash_rc.update(&[r.into()]);
    let result = ghash_rc.finalize();
    assert_eq!(hex::encode(result.as_slice()), hex::encode(ghash(H, &[&r])));
}

#[test]
fn test_ghash_h_x1() {
    let mut ghash_rc = GHash::new(&H.into());
    ghash_rc.update(&[X_1.into()]);
    let result = ghash_rc.finalize();
    assert_eq!(hex::encode(result.as_slice()), hex::encode(ghash(H, &[&X_1])));
}

#[test]
fn test_ghash_h_x2() {
    let mut ghash_rc = GHash::new(&H.into());
    ghash_rc.update(&[X_2.into()]);
    let result = ghash_rc.finalize();
    assert_eq!(hex::encode(result.as_slice()), hex::encode(ghash(H, &[&X_2])));
}

#[test]
fn test_ghash_double_block_1() {
    let mut ghash_rc = GHash::new(&H.into());
    ghash_rc.update(&[X_1.into(), X_2.into()]);
    let result = ghash_rc.finalize();
    assert_eq!(hex::encode(result.as_slice()), hex::encode(ghash(H, &[&X_1, &X_2])));
}

#[test]
fn test_ghash_double_block_2() {
    let mut ghash_rc = GHash::new(&H.into());
    ghash_rc.update(&[RONE.into(), RTWO.into()]);
    let result = ghash_rc.finalize();
    assert_eq!(hex::encode(result.as_slice()), hex::encode(ghash(H, &[&RONE, &RTWO])));
}

#[test]
fn test_ghash_double_block_3() {
    let mut ghash_rc = GHash::new(&H.into());
    ghash_rc.update(&[LONE.into(), LTWO.into()]);
    let result = ghash_rc.finalize();
    assert_eq!(hex::encode(result.as_slice()), hex::encode(ghash(H, &[&LONE, &LTWO])));
}

#[test]
fn one_hashed_under_one_is_one() {
    assert_eq!(ghash(LONE, &[&LONE]), LONE);
    assert_eq!(gfmul(LONE, LONE), LONE);
}

#[test]
fn top_degrees_fold_back_into_the_field() {
    // x^127 * x^126 = x^253, the same whichever of the two is the subkey;
    // x^253 = x^125 * (x^7 + x^2 + x + 1) = x^127 + x^126 + x^125 + x^132, and
    // x^132 = x^4 * (x^7 + x^2 + x + 1) = x^11 + x^6 + x^5 + x^4
    let expected = hex16("0e100000000000000000000000000007");
    assert_eq!(rustcrypto(RONE, &[RTWO]), expected);
    assert_eq!(ghash(RONE, &[&RTWO]), expected);
    assert_eq!(ghash(RTWO, &[&RONE]), expected);
    assert_eq!(rustcrypto(RTWO, &[RONE]), expected);
}

#[test]
fn published_vector_of_the_cipher_mode() {
    // one block of ciphertext and the block of lengths, under the subkey
    // of the all-zero key
    let h = hex16("66e94bd4ef8a2c3b884cfa59ca342b2e");
    let c = hex16("0388dace60b6a392f328c2b971b2fe78");
    let lengths = hex16("00000000000000000000000000000080");
    assert_eq!(gfmul(c, h), hex16("5e2ec746917062882c85b0685353deb7"));
    assert_eq!(ghash(h, &[&c, &lengths]), hex16("f38cbb1ad69223dcc3457ae5b6b0f885"));
    assert_eq!(rustcrypto(h, &[c, lengths]), hex16("f38cbb1ad69223dcc3457ae5b6b0f885"));
}

#[test]
fn hash_of_nothing_is_zero() {
    assert_eq!(ghash(H, &[]), [0u8; 16]);
    assert_eq!(Accumulator::init(H).finalize(), [0u8; 16]);
}

#[test]
fn two_blocks_fold_by_horners_rule() {
    let expected = gfmul(xor(gfmul(X_1, H), X_2), H);
    assert_eq!(ghash(H, &[&X_1, &X_2]), expected);
    assert_eq!(rustcrypto(H, &[X_1, X_2]), expected);
}

#[test]
fn three_blocks_fold_by_horners_rule() {
    let expected = gfmul(xor(gfmul(xor(gfmul(X_2, H), RTHREE0), H), X_1), H);
    assert_eq!(ghash(H, &[&X_2, &RTHREE0, &X_1]), expected);
    assert_eq!(rustcrypto(H, &[X_2, RTHREE0, X_1]), expected);
}

#[test]
fn order_of_the_blocks_counts() {
    assert_ne!(ghash(H, &[&X_1, &X_2]), ghash(H, &[&X_2, &X_1]));
}

#[test]
fn accumulator_absorbs_block_by_block() {
    let mut acc = Accumulator::init(H);
    acc.absorb(&X_1);
    assert_eq!(acc.finalize(), ghash(H, &[&X_1]));
    assert_eq!(acc.finalize(), gfmul(X_1, H));
    acc.absorb(&X_2);
    assert_eq!(acc.finalize(), ghash(H, &[&X_1, &X_2]));
    // reading the hash leaves it as it was
    assert_eq!(acc.finalize(), acc.finalize());
    acc.absorb(&LC);
    assert_eq!(acc.finalize(), rustcrypto(H, &[X_1, X_2, LC]));
}

#[test]
fn accumulators_do_not_share_state() {
    let mut first = Accumulator::init(H);
    let mut second = Accumulator::init(X_2);
    first.absorb(&X_1);
    second.absorb(&X_1);
    first.absorb(&LTWO);
    assert_eq!(first.finalize(), rustcrypto(H, &[X_1, LTWO]));
    assert_eq!(second.finalize(), rustcrypto(X_2, &[X_1]));
}

#[test]
fn many_blocks_match_rustcrypto() {
    let mut blocks: Vec<[u8; 16]> = Vec::new();
    let mut seed: u32 = 0x2545_f491;
    for _ in 0..24 {
        let mut block = [0u8; 16];
        for byte in block.iter_mut() {
            seed = seed.wrapping_mul(1_664_525).wrapping_add(1_013_904_223);
            *byte = (seed >> 24) as u8;
        }
        blocks.push(block);
    }
    let by_ref: Vec<&[u8; 16]> = blocks.iter().collect();
    for count in 0..blocks.len() {
        assert_eq!(ghash(H, &by_ref[..count]), rustcrypto(H, &blocks[..count]));
    }
    for pair in blocks.chunks(2) {
        assert_eq!(gfmul(pair[0], pair[1]), rustcrypto(pair[1], &[pair[0]]));
    }
}
