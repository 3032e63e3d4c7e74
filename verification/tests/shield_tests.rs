//! Prime factorization and the shielding commentary derived from it.

use prime_shield_analyzer::config::Config;
use prime_shield_analyzer::shield::{get_prime_factors, shield_primes};

fn shield_info(g: u64) -> (u32, String, f64) {
    let shields = shield_primes(g);
    let mut boost = 1.0f64;
    for &q in &shields {
        boost *= q as f64 / (q as f64 - 1.0);
    }
    if g % 3 == 0 {
        boost *= 0.75;
    }
    let joined = shields.iter().map(|p| p.to_string()).collect::<Vec<String>>().join(",");
    (shields.len() as u32, joined, boost)
}

#[test]
fn test_shielding_logic() {
    // Gap 2: factors of 1 give nothing, factors of 3 give 3; 2 is filtered.
    let (score_2, primes_2, boost_2) = shield_info(2);
    assert_eq!(score_2, 1);
    assert_eq!(primes_2, "3");
    assert_eq!(boost_2, 1.5);

    // Gap 4: 3 from below, 5 from above.
    let (score_4, primes_4, boost_4) = shield_info(4);
    assert_eq!(score_4, 2);
    assert_eq!(primes_4, "3,5");
    assert_eq!(boost_4, 1.5 * 1.25);

    // Gap 6: 5 and 7, with the multiple-of-three penalty.
    let (score_6, primes_6, boost_6) = shield_info(6);
    assert_eq!(score_6, 2);
    assert_eq!(primes_6, "5,7");
    assert_eq!(boost_6, 1.25 * (7.0 / 6.0) * 0.75);

    // Gap 30: the twin neighbors 29 and 31, again with the penalty.
    let (score_30, primes_30, boost_30) = shield_info(30);
    assert_eq!(primes_30, "29,31");
    assert_eq!(score_30, 2);
    assert_eq!(boost_30, (29.0 / 28.0) * (31.0 / 30.0) * 0.75);
}

#[test]
fn test_prime_factors() {
    assert_eq!(get_prime_factors(0), Vec::<u64>::new());
    assert_eq!(get_prime_factors(1), Vec::<u64>::new());
    assert_eq!(get_prime_factors(2), vec![2]);
    assert_eq!(get_prime_factors(12), vec![2, 3]);
    assert_eq!(get_prime_factors(29), vec![29]);
    assert_eq!(get_prime_factors(360), vec![2, 3, 5]);
    assert_eq!(get_prime_factors(9_999_991), vec![9_999_991]);
    assert_eq!(get_prime_factors(2 * 3 * 5 * 7 * 11 * 13), vec![2, 3, 5, 7, 11, 13]);
}

#[test]
fn test_config_max_n() {
    let cfg = Config {
        max_exponent: 4,
        bins: 10,
        output_dir: String::from("results"),
        segment_size_kb: 128,
        gaps: vec![2, 4, 6],
        web_report: false,
    };
    assert_eq!(cfg.max_n(), Some(10_000));

    let huge = Config {
        max_exponent: 20,
        bins: 10,
        output_dir: String::from("results"),
        segment_size_kb: 128,
        gaps: vec![2],
        web_report: false,
    };
    // Ten to the twentieth wraps 64 bits; the derivation refuses loudly.
    assert_eq!(huge.max_n(), None);

    let edge = Config {
        max_exponent: 19,
        bins: 10,
        output_dir: String::from("results"),
        segment_size_kb: 128,
        gaps: vec![2],
        web_report: false,
    };
    assert_eq!(edge.max_n(), Some(10_000_000_000_000_000_000));
}

#[test]
fn test_config_gap_validation() {
    let make = |gaps: Vec<u64>| Config {
        max_exponent: 4,
        bins: 10,
        output_dir: String::from("results"),
        segment_size_kb: 128,
        gaps,
        web_report: false,
    };
    assert!(make(vec![2, 4, 6, 12, 30]).gaps_valid());
    assert!(make(vec![1]).gaps_valid());
    assert!(!make(vec![]).gaps_valid());
    assert!(!make(vec![2, 0]).gaps_valid());
    assert!(!make(vec![2, 3]).gaps_valid());
}
