//! GHASH, the universal hash of AES-GCM, and the arithmetic of the field
//! GF(2^128) that it is built on.
//!
//! A field element is a polynomial over GF(2) of degree below 128, taken
//! modulo `x^128 + x^7 + x^2 + x + 1`. Outside it travels as a 16-byte block
//! in GHASH's own bit order; inside it is a `u128` whose bit `i` is the
//! coefficient of `x^i`.

pub mod bits;
pub mod codec;
pub mod field;
pub mod hash;
pub mod multiply;
pub mod reduce;

pub use crate::codec::{
    parse_array_as_bits, parse_array_as_pair, parse_array_as_uint, parse_u128_as_array,
    parse_u8_as_bits, reverse_byte,
};
pub use crate::hash::{ghash, Accumulator};
pub use crate::multiply::{carryless_mul, gfmul, multiply, multiply_halves};
pub use crate::reduce::{galois_product, galois_product_int, galois_reduce};
