//! Primes below a bound, tallied by their last decimal digit.
//!
//! The primality test is a trial division whose divisors stop one short of
//! the integer square root, so besides the primes it accepts 0, 1 and a few
//! composites (4, 6, 8, 9, 15, 25, ...). Every contract here states that
//! behaviour exactly.
//!
//! - [`sqrt`]: the integer square root.
//! - [`primality`]: the trial division and the last digit.
//! - [`sieve`]: the sequential scan into the buckets of the digits 1, 3, 7, 9.
//! - [`parallel`]: the same scan with the tests run on a thread pool.
//! - [`order`]: putting a bucket in ascending order.
//! - [`dump`]: the text that a bucket is written out as.

pub mod dump;
pub mod order;
pub mod parallel;
pub mod primality;
pub mod sieve;
pub mod sqrt;

pub use dump::{dump_bucket, push_decimal, render_bucket};
pub use order::sort_bucket;
pub use parallel::{prime_buckets_par, split_by_last_digit};
pub use primality::{is_prime, last_digit};
pub use sieve::prime_buckets;
pub use sqrt::integer_sqrt;
