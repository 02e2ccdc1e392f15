//! Primitives for a Paillier-style cryptosystem over arbitrary-precision
//! integers: the decisions of safe-prime search, membership in the
//! multiplicative group modulo `n`, and the rules of exponentiation modulo
//! `(p q)^2` that uses the factorization `n = p q`.
//!
//! The big-integer arithmetic itself (products, remainders, GCDs, modular
//! powers, primality tests, random draws) is done by the caller's numeric
//! engine; the functions here take its results as plain values.
use vstd::prelude::*;

pub mod exp;
pub mod group;
pub mod sieve;
pub mod small_primes;

verus! {

} // verus!
