//! The primality oracle against the stream and against reference trial
//! division, with cache hits, misses, and evictions in the mix.

use prime_shield_analyzer::oracle::PrimalityChecker;
use prime_shield_analyzer::sieve::PrimeIterator;
use rayon::iter::{IntoParallelRefIterator, ParallelIterator};

fn is_prime_naive(n: u64) -> bool {
    if n < 2 {
        return false;
    }
    let mut d = 2u64;
    while d * d <= n {
        if n % d == 0 {
            return false;
        }
        d += 1;
    }
    true
}

#[test]
fn test_oracle_agrees_with_stream() {
    let limit = 300u64;
    let checker = PrimalityChecker::new(limit, 16);
    let mut it = PrimeIterator::new(limit, 16);
    let mut from_stream = std::collections::BTreeSet::new();
    while let Some(p) = it.next() {
        from_stream.insert(p);
    }
    for n in 0..=limit {
        assert_eq!(checker.is_prime(n), from_stream.contains(&n), "n = {}", n);
    }
}

#[test]
fn test_oracle_mixed_hits_and_misses() {
    // Small segments force evictions from the four-slot cache; answers must
    // match a single pass of trial division no matter the access pattern.
    let limit = 20_000u64;
    let checker = PrimalityChecker::new(limit, 16);
    let queries: Vec<u64> = vec![
        19_997, 131, 17_389, 132, 19_997, 6_000, 6_007, 131, 9_973, 19_997, 0, 1, 2, 3, 4,
    ];
    for &q in &queries {
        assert_eq!(checker.is_prime(q), is_prime_naive(q), "q = {}", q);
    }
    // Asking twice gives the same answer, hit or miss.
    for &q in &queries {
        assert_eq!(checker.is_prime(q), is_prime_naive(q), "repeat q = {}", q);
    }
}

#[test]
fn test_concurrent_queries_match_sequential() {
    // Many workers share one oracle; hits, misses and evictions interleave
    // freely, yet every answer equals the single-threaded one.
    let limit = 30_000u64;
    let checker = PrimalityChecker::new(limit, 16);
    let queries: Vec<u64> = (0..4000u64).map(|k| (k * 7919) % 31_000).collect();
    let sequential: Vec<bool> = queries.iter().map(|&q| checker.is_prime(q)).collect();
    let concurrent: Vec<bool> = queries.par_iter().map(|&q| checker.is_prime(q)).collect();
    assert_eq!(sequential, concurrent);
    for (i, &q) in queries.iter().enumerate() {
        assert_eq!(concurrent[i], q <= limit && is_prime_naive(q), "q = {}", q);
    }
}

#[test]
fn test_oracle_out_of_range_is_false() {
    let checker = PrimalityChecker::new(1000, 16);
    assert!(!checker.is_prime(1009));
    assert!(!checker.is_prime(u64::MAX));
    assert!(checker.is_prime(997));
}

#[test]
fn test_oracle_ensure_range_prefetch() {
    let limit = 50_000u64;
    let checker = PrimalityChecker::new(limit, 16);
    checker.ensure_range(40_000, 41_000);
    for n in 40_000..=41_000u64 {
        assert_eq!(checker.is_prime(n), is_prime_naive(n), "n = {}", n);
    }
}
