//! A verified computational core for studying sums of consecutive primes.
//!
//! The library produces the ascending stream of primes up to a limit with a
//! segmented sieve, answers random-access primality queries over a range
//! about twice as large through a bounded, thread-safe segment cache, and
//! folds consecutive-prime events into aggregated statistics (global counts,
//! per-range bins, and a gap spectrum) whose value is independent of how the
//! work is batched.

pub mod base;
pub mod config;
pub mod mask;
pub mod oracle;
pub mod pipeline;
pub mod primes;
pub mod segment;
pub mod shield;
pub mod sieve;
pub mod stats;
