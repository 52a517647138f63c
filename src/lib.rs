//! The Paillier cryptosystem over arbitrary-precision integers: key
//! generation, encryption, standard and CRT decryption, the homomorphic
//! operators, and encodings of signed integers and packed vectors.
use vstd::prelude::*;

pub mod arith;
pub mod encoding;
pub mod laws;
pub mod number_theory;
pub mod primes;
pub mod scheme;

verus! {

/// The scheme over a choice of big-integer type; its operations stand in
/// `scheme`, for the library's own `arith::BigInteger`.
pub struct AbstractPaillier<I> {
    junk: std::marker::PhantomData<I>,
}

/// The scheme over this library's big integers.
pub type Paillier = AbstractPaillier<arith::BigInteger>;

} // verus!
