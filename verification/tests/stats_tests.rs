//! The aggregator: bin layout, bin ownership, batch-partitioning
//! invariance, and the end-to-end run.

use prime_shield_analyzer::oracle::PrimalityChecker;
use prime_shield_analyzer::pipeline::BatchPipeline;
use prime_shield_analyzer::sieve::PrimeIterator;
use prime_shield_analyzer::stats::Statistics;

fn is_prime_naive(n: u64) -> bool {
    if n < 2 {
        return false;
    }
    let mut d = 2u64;
    while d * d <= n {
        if n % d == 0 {
            return false;
        }
        d += 1;
    }
    true
}

fn primes_to(limit: u64) -> Vec<u64> {
    let mut it = PrimeIterator::new(limit, 1024);
    let mut out = Vec::new();
    while let Some(p) = it.next() {
        out.push(p);
    }
    out
}

fn assert_stats_equal(a: &Statistics, b: &Statistics) {
    assert_eq!(a.total_primes, b.total_primes);
    assert_eq!(a.total_s_primes, b.total_s_primes);
    assert_eq!(a.gap_spectrum.occurrences, b.gap_spectrum.occurrences);
    assert_eq!(a.gap_spectrum.successes, b.gap_spectrum.successes);
    assert_eq!(a.bins.len(), b.bins.len());
    for (x, y) in a.bins.iter().zip(b.bins.iter()) {
        assert_eq!(x.bin_start, y.bin_start);
        assert_eq!(x.bin_end, y.bin_end);
        assert_eq!(x.prime_count_p, y.prime_count_p);
        assert_eq!(x.prime_count_s, y.prime_count_s);
        assert_eq!(x.gap_occurrences, y.gap_occurrences);
        assert_eq!(x.gap_successes, y.gap_successes);
    }
}

#[test]
fn test_bin_layout() {
    let gaps: Vec<u64> = vec![2, 4, 6];
    let s = Statistics::new(10_000, 10, &gaps);
    assert_eq!(s.bins.len(), 10);
    assert_eq!(s.bin_size, 2000);
    assert_eq!(s.max_n_analysis_range, 20_000);
    for (i, b) in s.bins.iter().enumerate() {
        assert_eq!(b.bin_start, i as u64 * 2000);
        assert_eq!(b.bin_end, (i as u64 * 2000 + 1999).min(20_000));
        assert_eq!(b.prime_count_p, 0);
        assert_eq!(b.gap_occurrences, vec![0, 0, 0]);
    }
    // When the bin count does not divide the range, the last bin is cut
    // short and the bins still cover the whole domain.
    let s2 = Statistics::new(50, 7, &gaps);
    assert_eq!(s2.bin_size, 15);
    let ends: Vec<(u64, u64)> = s2.bins.iter().map(|b| (b.bin_start, b.bin_end)).collect();
    assert_eq!(ends, vec![(0, 14), (15, 29), (30, 44), (45, 59), (60, 74), (75, 89), (90, 100)]);
    for n in 0..=100u64 {
        let covering = ends.iter().filter(|&&(s0, e0)| s0 <= n && n <= e0).count();
        assert_eq!(covering, 1, "n = {}", n);
    }
}

#[test]
fn test_get_bin_index() {
    let gaps: Vec<u64> = vec![2];
    let s = Statistics::new(10_000, 10, &gaps);
    assert_eq!(s.get_bin_index(0), Some(0));
    assert_eq!(s.get_bin_index(1999), Some(0));
    assert_eq!(s.get_bin_index(2000), Some(1));
    assert_eq!(s.get_bin_index(19_999), Some(9));
    // The domain's far end is clamped into the last bin.
    assert_eq!(s.get_bin_index(20_000), Some(9));
    assert_eq!(s.get_bin_index(20_001), None);
}

#[test]
fn test_batch_partitioning_invariance() {
    // Folding with shards of size 1, 17, and 262144 and merging must give
    // exactly the sequential result.
    let limit = 3000u64;
    let gaps: Vec<u64> = vec![2, 4, 6];
    let oracle = PrimalityChecker::new(2 * limit, 1024);
    let ps = primes_to(limit);

    let mut sequential = Statistics::new(limit, 7, &gaps);
    sequential.record_initial(ps[0]);
    for w in ps.windows(2) {
        sequential.record(w[1], w[0], &oracle);
    }

    for batch in [1usize, 17, 262_144] {
        let mut merged = Statistics::new(limit, 7, &gaps);
        merged.record_initial(ps[0]);
        let pairs: Vec<(u64, u64)> = ps.windows(2).map(|w| (w[1], w[0])).collect();
        for chunk in pairs.chunks(batch) {
            let mut shard = Statistics::new(limit, 7, &gaps);
            for &(p, q) in chunk {
                shard.record(p, q, &oracle);
            }
            merged.merge(&shard);
        }
        assert_stats_equal(&sequential, &merged);
    }
}

#[test]
fn test_pipeline_batch_size_invariance() {
    let gaps: Vec<u64> = vec![2, 4, 6];
    let mut reference: Option<Statistics> = None;
    for batch_size in [1usize, 17, 262_144] {
        let mut pl = BatchPipeline::new(2000, 5, &gaps, 1024, batch_size);
        while !pl.process_next_batch() {}
        let stats = pl.into_statistics();
        if let Some(ref r) = reference {
            assert_stats_equal(r, &stats);
        } else {
            reference = Some(stats);
        }
    }
}

#[test]
fn test_end_to_end_ten_thousand() {
    let gaps: Vec<u64> = vec![2, 4, 6];
    let mut pl = BatchPipeline::new(10_000, 10, &gaps, 128 * 1024, 262_144);
    while !pl.process_next_batch() {}
    let stats = pl.into_statistics();

    // There are 1229 primes up to ten thousand.
    assert_eq!(stats.total_primes, 1229);

    // The first few consecutive pairs give the sums 7, 11, 17, 23, 29,
    // each of which is prime.
    let oracle = PrimalityChecker::new(20_000, 1024);
    let expected_s = [(5u64, 3u64, 7u64), (7, 5, 11), (11, 7, 17), (13, 11, 23), (17, 13, 29)];
    for &(p, q, s) in &expected_s {
        assert_eq!(p + q - 1, s);
        assert!(oracle.is_prime(s));
    }

    // The twin-gap occurrence count equals the number of adjacent prime
    // pairs at distance 2 up to ten thousand.
    let ps = primes_to(10_000);
    let twins = ps.windows(2).filter(|w| w[1] - w[0] == 2).count() as u64;
    assert_eq!(stats.gap_spectrum.occurrences[2], twins);

    // Totals cross-checked against a direct pass.
    let mut expected_total_s = 0u64;
    for w in ps.windows(2) {
        if is_prime_naive(w[1] + w[0] - 1) {
            expected_total_s += 1;
        }
    }
    assert_eq!(stats.total_s_primes, expected_total_s);

    // Bin prime counts sum to the primes counted after seeding.
    let bin_sum: u64 = stats.bins.iter().map(|b| b.prime_count_p).sum();
    assert_eq!(bin_sum, 1229);
}

#[test]
fn test_spectrum_and_bins_for_small_run() {
    // Primes to 30: 2 3 5 7 11 13 17 19 23 29; gaps 1 2 2 4 2 4 2 4 6.
    let gaps: Vec<u64> = vec![2, 6];
    let mut pl = BatchPipeline::new(30, 2, &gaps, 16, 4);
    while !pl.process_next_batch() {}
    let stats = pl.into_statistics();
    assert_eq!(stats.total_primes, 10);
    let occ = &stats.gap_spectrum.occurrences;
    assert_eq!(occ[1], 1);
    assert_eq!(occ[2], 4);
    assert_eq!(occ[4], 3);
    assert_eq!(occ[6], 1);
    let total_occ: u64 = occ.iter().sum();
    assert_eq!(total_occ, 9);
    // Targeted gaps are also tallied per bin; all input primes are at most
    // 30, so they land in the first bin of [0, 60].
    assert_eq!(stats.bins.len(), 2);
    assert_eq!(stats.bins[0].gap_occurrences, vec![4, 1]);
    assert_eq!(stats.bins[1].gap_occurrences, vec![0, 0]);
}
