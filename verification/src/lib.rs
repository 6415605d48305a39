//! Distinct prime factors of 64-bit unsigned integers, with a memoized
//! primality oracle.
//!
//! - [`arithmetic`]: divisibility and primality, with the lemmas that the
//!   proofs rest on.
//! - [`oracle`]: the primality oracle and its cache of verdicts.
//! - [`factorizer`]: the factor set of a number by trial division.
//! - [`reconstruction`]: the number as the product of its prime powers.

pub mod arithmetic;
pub mod factorizer;
pub mod oracle;
pub mod reconstruction;

pub use factorizer::_find_prime_factors;
pub use oracle::{is_prime, is_prime_uncached, memorize_low_primes, PrimalityCache};
