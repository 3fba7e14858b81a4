pub mod complex;
pub mod congruence_class;
pub mod conjugate;
pub mod identity;
pub mod integers;
pub mod matrix;
pub mod primes;
pub mod quadratic_sieve;
pub mod quotient_group;
pub mod rings;
pub mod traits;
