//! Prime numbers up to a bound by the Sieve of Eratosthenes, in four variants
//! that differ in how much work they save and agree on what they return.

pub mod isqrt;
pub mod markers;
pub mod primality;
pub mod sieve;

pub use crate::isqrt::sqrt;
pub use crate::sieve::{sieve_001, sieve_002, sieve_003, sieve_004};
