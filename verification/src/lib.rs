//! A small number-theory toolkit: greatest common divisors, Bézout
//! coefficients, a prime sieve and integer square roots, each with a
//! machine-checked contract.

pub mod bezout;
pub mod divisibility;
pub mod error;
pub mod gcd;
pub mod isqrt;
pub mod sieve;

pub use crate::bezout::extended_euclid;
pub use crate::error::NumericError;
pub use crate::gcd::{descending_search, gcd_euclid, gcd_int_checking};
pub use crate::isqrt::{checked_square, floor_sqrt, ISqrt};
pub use crate::sieve::sieve_of_earosthenes;
