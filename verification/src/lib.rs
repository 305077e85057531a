//! Prime factorizations and canonical tree encodings of them.
//!
//! The crate holds a packed boolean-flag container used by a prime sieve,
//! a prime table that generates and factorizes against an ordered list of
//! primes, and a tree encoder that turns a factorization into indented text.

pub mod bit_array;
pub mod primes;
pub mod prime_tree_num;
