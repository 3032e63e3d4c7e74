//! The prime stream against reference trial division, including limits that
//! straddle segment-window boundaries.

use prime_shield_analyzer::sieve::PrimeIterator;

fn is_prime_naive(n: u64) -> bool {
    if n < 2 {
        return false;
    }
    let mut d = 2u64;
    while d * d <= n {
        if n % d == 0 {
            return false;
        }
        d += 1;
    }
    true
}

fn collect_stream(limit: u64, segment_size_bytes: usize) -> Vec<u64> {
    let mut it = PrimeIterator::new(limit, segment_size_bytes);
    let mut out = Vec::new();
    while let Some(p) = it.next() {
        out.push(p);
    }
    out
}

fn naive_primes(limit: u64) -> Vec<u64> {
    (0..=limit).filter(|&n| is_prime_naive(n)).collect()
}

#[test]
fn test_canonical_primes_to_100() {
    let primes = collect_stream(100, 128 * 1024);
    let expected: Vec<u64> = vec![
        2, 3, 5, 7, 11, 13, 17, 19, 23, 29, 31, 37, 41, 43, 47, 53, 59, 61, 67, 71, 73, 79, 83,
        89, 97,
    ];
    assert_eq!(primes, expected);
    assert_eq!(primes.len(), 25);
}

#[test]
fn test_segment_boundary_limits() {
    // With 16-byte segments the window width is 128 bits; try limits that
    // sit just before, on, and just after multiples of the width.
    let width = 16usize * 8;
    for k in [1u64, 2, 3, 5] {
        let base = width as u64 * k;
        for limit in [base - 1, base, base + 1] {
            let got = collect_stream(limit, 16);
            let expected = naive_primes(limit);
            assert_eq!(got, expected, "limit {}", limit);
        }
    }
}

#[test]
fn test_stream_tiny_limits() {
    assert_eq!(collect_stream(1, 16), Vec::<u64>::new());
    assert_eq!(collect_stream(2, 16), vec![2]);
    assert_eq!(collect_stream(3, 16), vec![2, 3]);
    assert_eq!(collect_stream(4, 16), vec![2, 3]);
}

#[test]
fn test_stream_exhaustion_stays_exhausted() {
    let mut it = PrimeIterator::new(10, 16);
    let mut seen = Vec::new();
    while let Some(p) = it.next() {
        seen.push(p);
    }
    assert_eq!(seen, vec![2, 3, 5, 7]);
    assert_eq!(it.next(), None);
    assert_eq!(it.next(), None);
}
