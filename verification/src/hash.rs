//! GHASH: the hash of a sequence of blocks under a subkey.
//!
//! Starting from zero, each block in turn is added to the running hash and
//! the sum is multiplied by the subkey. This is Horner's rule for the value
//! at the subkey of the polynomial whose coefficients are the blocks. The
//! blocks are taken as they are: padding a message to whole blocks, and
//! deriving the subkey, are the caller's part.

use vstd::prelude::*;
use crate::bits::lemma_xor_zero;
use crate::codec::{
    block_of, element_of, lemma_element_round_trip, lemma_xor_blocks, lemma_zero_block,
    parse_array_as_uint, parse_u128_as_array, xor_blocks, zero_block,
};
use crate::field::{
    gf_mul, gf_pow, lemma_gf_mul_associates, lemma_gf_mul_distributes, lemma_gf_mul_one,
    lemma_gf_mul_zero,
};
use crate::multiply::{gfmul_of, multiply};

verus! {

/// The hash of a sequence of field elements under the subkey `h`, by
/// Horner's rule: each element is added to the hash of those before it, and
/// the sum multiplied by `h`.
pub open spec fn horner(h: u128, xs: Seq<u128>) -> u128
    decreases xs.len(),
{
    if xs.len() == 0 {
        0
    } else {
        gf_mul(horner(h, xs.drop_last()) ^ xs.last(), h)
    }
}

/// The first `k` terms of the polynomial with the coefficients `xs`, highest
/// power first, at the point `h`: the sum of `xs[i] * h^(n - i)` for `i`
/// below `k`, where `n` is the number of coefficients.
pub open spec fn polynomial_below(h: u128, xs: Seq<u128>, k: nat) -> u128
    decreases k,
{
    if k == 0 {
        0
    } else {
        polynomial_below(h, xs, (k - 1) as nat) ^ gf_mul(
            xs[k - 1],
            gf_pow(h, (xs.len() - (k - 1)) as nat),
        )
    }
}

/// The field elements of a sequence of blocks.
pub open spec fn elements_of(blocks: Seq<Seq<u8>>) -> Seq<u128> {
    Seq::new(blocks.len(), |i: int| element_of(blocks[i]))
}

/// The views of a sequence of blocks.
pub open spec fn block_views(blocks: Seq<&[u8; 16]>) -> Seq<Seq<u8>> {
    Seq::new(blocks.len(), |i: int| blocks[i]@)
}

/// The GHASH of a sequence of 16-byte blocks under a 16-byte subkey, as a
/// block.
pub open spec fn ghash_of(hashkey: Seq<u8>, blocks: Seq<Seq<u8>>) -> Seq<u8> {
    block_of(horner(element_of(hashkey), elements_of(blocks)))
}

/// What an accumulator stands for: the subkey, fixed when the computation
/// starts, and the field elements of the blocks absorbed so far, first to
/// last.
pub struct HashState {
    pub subkey: u128,
    pub absorbed: Seq<u128>,
}

impl HashState {
    /// The hash of the blocks absorbed so far, as a field element.
    pub open spec fn value(self) -> u128 {
        horner(self.subkey, self.absorbed)
    }
}

/// The running state of one GHASH computation. It holds the subkey and the
/// hash of the blocks absorbed so far, and belongs to that one computation.
pub struct Accumulator {
    key: u128,
    state: u128,
    history: Ghost<Seq<u128>>,
}

impl View for Accumulator {
    type V = HashState;

    closed spec fn view(&self) -> HashState {
        HashState { subkey: self.key, absorbed: self.history@ }
    }
}

impl Accumulator {
    #[verifier::type_invariant]
    spec fn well_formed(self) -> bool {
        self.state == horner(self.key, self.history@)
    }

    /// Starts a computation under the subkey `hashkey`: nothing is absorbed
    /// and the hash is zero.
    pub fn init(hashkey: [u8; 16]) -> (acc: Accumulator)
        ensures
            acc@ == (HashState { subkey: element_of(hashkey@), absorbed: Seq::empty() }),
            acc@.value() == 0,
    {
        Accumulator { key: parse_array_as_uint(hashkey), state: 0, history: Ghost(Seq::empty()) }
    }

    /// Absorbs one block: the block is added to the hash and the sum
    /// multiplied by the subkey.
    pub fn absorb(&mut self, block: &[u8; 16])
        ensures
            final(self)@ == (HashState {
                subkey: old(self)@.subkey,
                absorbed: old(self)@.absorbed.push(element_of(block@)),
            }),
            final(self)@.value() == gf_mul(
                old(self)@.value() ^ element_of(block@),
                old(self)@.subkey,
            ),
    {
        proof {
            use_type_invariant(&*self);
        }
        let x: u128 = parse_array_as_uint(*block);
        let next: u128 = multiply(self.state ^ x, self.key);
        let ghost history: Seq<u128> = self.history@.push(x);
        proof {
            assert(history.drop_last() =~= self.history@);
        }
        *self = Accumulator { key: self.key, state: next, history: Ghost(history) };
    }

    /// The hash of the blocks absorbed so far, as a block. The accumulator
    /// is only read: more blocks may be absorbed afterwards, and the hash
    /// asked for again.
    pub fn finalize(&self) -> (tag: [u8; 16])
        ensures
            tag@ == block_of(self@.value()),
    {
        proof {
            use_type_invariant(self);
        }
        parse_u128_as_array(self.state)
    }
}

/// The GHASH of `blocks` under the subkey `hashkey`: starting from zero, each
/// block in turn is added to the hash and the sum multiplied by the subkey.
pub fn ghash(hashkey: [u8; 16], blocks: &[&[u8; 16]]) -> (tag: [u8; 16])
    ensures
        tag@ == ghash_of(hashkey@, block_views(blocks@)),
{
    let mut acc: Accumulator = Accumulator::init(hashkey);
    let ghost all: Seq<u128> = elements_of(block_views(blocks@));
    for i in 0usize..blocks.len()
        invariant
            all == elements_of(block_views(blocks@)),
            acc@.subkey == element_of(hashkey@),
            acc@.absorbed == all.take(i as int),
    {
        proof {
            assert(all.take(i as int).push(element_of(blocks@[i as int]@)) =~= all.take(i + 1));
        }
        acc.absorb(blocks[i]);
    }
    proof {
        assert(all.take(blocks@.len() as int) =~= all);
    }
    acc.finalize()
}

/// The hash of no blocks is the all-zero block.
pub proof fn lemma_ghash_empty(hashkey: Seq<u8>)
    ensures
        ghash_of(hashkey, Seq::<Seq<u8>>::empty()) == zero_block(),
{
    lemma_zero_block();
    assert(elements_of(Seq::<Seq<u8>>::empty()) =~= Seq::<u128>::empty());
}

/// Horner's rule, on blocks: the hash of some blocks and one more is the
/// hash of the former plus the new block, times the subkey.
pub proof fn lemma_ghash_push(hashkey: Seq<u8>, blocks: Seq<Seq<u8>>, block: Seq<u8>)
    requires
        block.len() == 16,
    ensures
        ghash_of(hashkey, blocks.push(block)) == gfmul_of(
            xor_blocks(ghash_of(hashkey, blocks), block),
            hashkey,
        ),
{
    let h: u128 = element_of(hashkey);
    let before: u128 = horner(h, elements_of(blocks));
    let all: Seq<u128> = elements_of(blocks.push(block));
    assert(all.drop_last() =~= elements_of(blocks));
    assert(all.last() == element_of(block));
    lemma_xor_blocks(block_of(before), block);
    lemma_element_round_trip(before);
}

/// The hash of two blocks `b1`, `b2` under the subkey `h` is
/// `((b1 * h) + b2) * h`.
pub proof fn lemma_ghash_two_blocks(hashkey: Seq<u8>, b1: Seq<u8>, b2: Seq<u8>)
    requires
        b1.len() == 16,
        b2.len() == 16,
    ensures
        ghash_of(hashkey, seq![b1, b2]) == gfmul_of(
            xor_blocks(gfmul_of(b1, hashkey), b2),
            hashkey,
        ),
{
    let none: Seq<Seq<u8>> = Seq::empty();
    lemma_ghash_empty(hashkey);
    lemma_ghash_push(hashkey, none, b1);
    lemma_ghash_push(hashkey, none.push(b1), b2);
    assert(none.push(b1).push(b2) =~= seq![b1, b2]);
    // the sum of zero and the first block is the first block
    lemma_zero_block();
    lemma_xor_blocks(zero_block(), b1);
    lemma_xor_zero(element_of(b1));
}

/// Multiplying the polynomial of all coefficients but the last by the point
/// raises each of its terms by one power.
proof fn lemma_polynomial_times_point(h: u128, xs: Seq<u128>, k: nat)
    requires
        0 < xs.len(),
        k < xs.len(),
    ensures
        gf_mul(polynomial_below(h, xs.drop_last(), k), h) == polynomial_below(h, xs, k),
    decreases k,
{
    if k == 0 {
        lemma_gf_mul_zero(h);
    } else {
        let j: nat = (k - 1) as nat;
        let shorter: Seq<u128> = xs.drop_last();
        let power: u128 = gf_pow(h, (shorter.len() - j) as nat);
        lemma_polynomial_times_point(h, xs, j);
        lemma_gf_mul_distributes(
            polynomial_below(h, shorter, j),
            gf_mul(shorter[j as int], power),
            h,
        );
        lemma_gf_mul_associates(shorter[j as int], power, h);
    }
}

/// The hash is the value at the subkey of the polynomial whose coefficients
/// are the absorbed elements: for `x1 .. xn` it is
/// `x1 * h^n + x2 * h^(n - 1) + .. + xn * h`.
pub proof fn lemma_horner_is_polynomial(h: u128, xs: Seq<u128>)
    ensures
        horner(h, xs) == polynomial_below(h, xs, xs.len()),
    decreases xs.len(),
{
    if xs.len() > 0 {
        let shorter: Seq<u128> = xs.drop_last();
        lemma_horner_is_polynomial(h, shorter);
        lemma_polynomial_times_point(h, xs, shorter.len());
        lemma_gf_mul_distributes(horner(h, shorter), xs.last(), h);
        lemma_gf_mul_one(h);
        assert(gf_pow(h, 1) == h) by {
            reveal_with_fuel(gf_pow, 2);
        }
    }
}

} // verus!
