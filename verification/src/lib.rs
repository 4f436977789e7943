//! A basic library for working with prime numbers.
//!
//! Primes are generated lazily by trial division and cached, so only as many
//! primes are found as a query needs, and no work is repeated across calls.
//! Free functions factorize arbitrary integers and test primality.
pub mod cache;
pub mod factor;
pub mod primality;

pub use cache::PrimeSet;
pub use cache::PrimeSetBasics;
pub use cache::PrimeSetIter;
pub use cache::TrialDivision;

pub use factor::factors;
pub use factor::factors_unique;
pub use factor::firstfac;
pub use factor::is_prime;

pub use primality::is_prime_spec;
pub use primality::smallest_factor;
