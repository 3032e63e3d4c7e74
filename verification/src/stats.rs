//! Aggregated statistics over consecutive-prime events: global counters, a
//! gap spectrum, and per-range bins, with an associative merge so shards
//! folded in parallel reduce to the same value as a sequential pass.
//!
//! The gap spectrum is held densely, indexed by the gap value itself; its
//! mapping view exposes exactly the gaps that have been observed. Per-bin
//! gap counters sit in vectors parallel to the configured target-gap list.

use crate::oracle::PrimalityChecker;
use crate::primes::spec_is_prime;
use vstd::prelude::*;

verus! {

/// The target-gap list carries a set: no gap size appears twice.
pub open spec fn spec_gaps_distinct(s: Seq<u64>) -> bool {
    forall|a: int, b: int| 0 <= a < b < s.len() ==> s[a] != s[b]
}

/// Counters for one contiguous sub-range of the analysis domain.
pub struct BinStats {
    pub bin_start: u64,
    pub bin_end: u64,
    pub prime_count_p: u64,
    pub prime_count_s: u64,
    /// Successes per target gap, parallel to the target-gap list.
    pub gap_successes: Vec<u64>,
    /// Occurrences per target gap, parallel to the target-gap list.
    pub gap_occurrences: Vec<u64>,
}

impl BinStats {
    /// A fresh bin over `[start, end]` with all counters zero and one
    /// occurrence/success slot per target gap.
    pub fn new(start: u64, end: u64, target_gaps: &Vec<u64>) -> (b: BinStats)
        ensures
            b.bin_start == start,
            b.bin_end == end,
            b.prime_count_p == 0,
            b.prime_count_s == 0,
            b.gap_successes@.len() == target_gaps@.len(),
            b.gap_occurrences@.len() == target_gaps@.len(),
            forall|t: int| 0 <= t < target_gaps@.len() ==> b.gap_successes@[t] == 0u64,
            forall|t: int| 0 <= t < target_gaps@.len() ==> b.gap_occurrences@[t] == 0u64,
    {
        let mut gap_successes: Vec<u64> = Vec::new();
        let mut gap_occurrences: Vec<u64> = Vec::new();
        let mut t: usize = 0;
        while t < target_gaps.len()
            invariant
                t <= target_gaps@.len(),
                gap_successes@.len() == t,
                gap_occurrences@.len() == t,
                forall|u: int| 0 <= u < t ==> gap_successes@[u] == 0u64,
                forall|u: int| 0 <= u < t ==> gap_occurrences@[u] == 0u64,
            decreases target_gaps@.len() - t,
        {
            gap_successes.push(0);
            gap_occurrences.push(0);
            t = t + 1;
        }
        BinStats {
            bin_start: start,
            bin_end: end,
            prime_count_p: 0,
            prime_count_s: 0,
            gap_successes,
            gap_occurrences,
        }
    }
}

/// The dense gap spectrum: entry `g` of each vector counts the pairs of
/// consecutive primes whose gap is exactly `g`, and how many of their sums
/// were prime.
pub struct GapSpectrum {
    pub occurrences: Vec<u64>,
    pub successes: Vec<u64>,
}

impl GapSpectrum {
    /// Both vectors always cover the same gaps.
    pub open spec fn wf(&self) -> bool {
        self.occurrences@.len() == self.successes@.len()
    }

    /// Occurrences recorded for gap `g`; gaps never seen count zero.
    pub open spec fn spec_occ(&self, g: int) -> int {
        if 0 <= g < self.occurrences@.len() {
            self.occurrences@[g] as int
        } else {
            0
        }
    }

    /// Successes recorded for gap `g`.
    pub open spec fn spec_succ(&self, g: int) -> int {
        if 0 <= g < self.successes@.len() {
            self.successes@[g] as int
        } else {
            0
        }
    }

    /// The mapping view: every observed gap, with its pair of counters.
    pub open spec fn spec_map(&self) -> Map<int, (int, int)> {
        Map::new(
            |g: int| self.spec_occ(g) > 0 || self.spec_succ(g) > 0,
            |g: int| (self.spec_occ(g), self.spec_succ(g)),
        )
    }

    /// Counts one occurrence of `gap`, and one success when `success`
    /// holds, growing the dense storage as needed.
    fn bump(&mut self, gap: u64, success: bool)
        requires
            old(self).wf(),
            gap <= 0x2000_0000_0000_0000u64,
            old(self).spec_occ(gap as int) < u64::MAX,
            old(self).spec_succ(gap as int) < u64::MAX,
        ensures
            final(self).wf(),
            forall|g: int|
                #[trigger] final(self).spec_occ(g) == old(self).spec_occ(g) + (if g == gap {
                    1int
                } else {
                    0
                }),
            forall|g: int|
                #[trigger] final(self).spec_succ(g) == old(self).spec_succ(g) + (if success && g
                    == gap {
                    1int
                } else {
                    0
                }),
    {
        while (self.occurrences.len() as u64) <= gap
            invariant
                self.wf(),
                forall|g: int| #[trigger] self.spec_occ(g) == old(self).spec_occ(g),
                forall|g: int| #[trigger] self.spec_succ(g) == old(self).spec_succ(g),
            decreases gap as int + 1 - self.occurrences@.len(),
        {
            let ghost pre = *self;
            self.occurrences.push(0);
            self.successes.push(0);
            proof {
                assert forall|g: int| #[trigger] self.spec_occ(g) == old(self).spec_occ(g) by {
                    assert(pre.spec_occ(g) == old(self).spec_occ(g));
                    if 0 <= g < pre.occurrences@.len() {
                        assert(self.occurrences@[g] == pre.occurrences@[g]);
                    } else if g == pre.occurrences@.len() {
                        assert(self.occurrences@[g] == 0u64);
                    }
                }
                assert forall|g: int| #[trigger] self.spec_succ(g) == old(self).spec_succ(g) by {
                    assert(pre.spec_succ(g) == old(self).spec_succ(g));
                    if 0 <= g < pre.successes@.len() {
                        assert(self.successes@[g] == pre.successes@[g]);
                    } else if g == pre.successes@.len() {
                        assert(self.successes@[g] == 0u64);
                    }
                }
            }
        }
        let ghost mid = *self;
        let gi = gap as usize;
        proof {
            assert(gap < self.occurrences@.len());
            assert(gi == gap);
            assert(mid.spec_occ(gap as int) == self.occurrences@[gap as int]);
            assert(mid.spec_succ(gap as int) == self.successes@[gap as int]);
            assert(mid.spec_occ(gap as int) == old(self).spec_occ(gap as int));
        }
        let o = self.occurrences[gi];
        self.occurrences[gi] = o + 1;
        if success {
            let sc = self.successes[gi];
            self.successes[gi] = sc + 1;
        }
        proof {
            assert forall|g: int|
                #[trigger] self.spec_occ(g) == old(self).spec_occ(g) + (if g == gap {
                    1int
                } else {
                    0
                }) by {
                assert(mid.spec_occ(g) == old(self).spec_occ(g));
                if g == gap {
                    assert(self.occurrences@[g] == o + 1);
                } else if 0 <= g < self.occurrences@.len() {
                    assert(self.occurrences@[g] == mid.occurrences@[g]);
                }
            }
            assert forall|g: int|
                #[trigger] self.spec_succ(g) == old(self).spec_succ(g) + (if success && g == gap {
                    1int
                } else {
                    0
                }) by {
                assert(mid.spec_succ(g) == old(self).spec_succ(g));
                if success && g == gap {
                    assert(self.successes@[g] == mid.successes@[g as int] + 1);
                } else if 0 <= g < self.successes@.len() {
                    assert(self.successes@[g] == mid.successes@[g]);
                }
            }
        }
    }
}

/// Aggregated results: global counters, the gap spectrum, and the ordered
/// bins partitioning the analysis domain `[0, 2 * max_n]`.
pub struct Statistics {
    pub total_primes: u64,
    pub total_s_primes: u64,
    pub gap_spectrum: GapSpectrum,
    pub bins: Vec<BinStats>,
    pub bin_size: u64,
    pub max_n_analysis_range: u64,
    pub target_gaps: Vec<u64>,
}

/// Width of every bin but possibly the last: the analysis range divided by
/// the bin count, rounded up.
pub open spec fn spec_bin_size(max_n: u64, num_bins: int) -> int {
    (2 * max_n + num_bins - 1) / num_bins
}

/// The bin at position `i` of a fresh aggregator: it covers
/// `[i * width, i * width + width - 1]`, cut off at the end of the domain.
pub open spec fn spec_init_bin(i: int, max_n: u64, num_bins: int, n_targets: int) -> BinModel {
    let bs = spec_bin_size(max_n, num_bins);
    BinModel {
        bin_start: i * bs,
        bin_end: if i * bs + bs - 1 <= 2 * max_n {
            i * bs + bs - 1
        } else {
            2 * max_n
        },
        prime_count_p: 0,
        prime_count_s: 0,
        gap_occurrences: Seq::new(n_targets as nat, |t: int| 0int),
        gap_successes: Seq::new(n_targets as nat, |t: int| 0int),
    }
}

/// A fresh aggregator's ghost value: everything zero, bins tiling the
/// domain.
pub open spec fn spec_init_model(max_n: u64, num_bins: int, target_gaps: Seq<u64>) -> StatsModel {
    StatsModel {
        total_primes: 0,
        total_s_primes: 0,
        spectrum: Map::empty(),
        bins: Seq::new(
            num_bins as nat,
            |i: int| spec_init_bin(i, max_n, num_bins, target_gaps.len() as int),
        ),
        bin_size: spec_bin_size(max_n, num_bins),
        range: 2 * max_n,
        target_gaps: target_gaps,
    }
}

/// Bin partition law: the fresh bins tile the analysis domain in order and
/// never overlap. Every `n` up to `2 * max_n` that lies below
/// `num_bins * width` is owned by exactly one bin — the one at position
/// `n / width` — and when the bin count does not divide `2 * max_n` evenly,
/// that covers the whole domain `[0, 2 * max_n]`.
pub proof fn lemma_bin_partition(max_n: u64, num_bins: int, n: int)
    requires
        1 <= max_n,
        1 <= num_bins,
        0 <= n <= 2 * max_n,
    ensures
        ({
            let bs = spec_bin_size(max_n, num_bins);
            &&& (n < num_bins * bs ==> {
                let bi = n / bs;
                &&& 0 <= bi < num_bins
                &&& spec_init_bin(bi, max_n, num_bins, 0).bin_start <= n <= spec_init_bin(
                    bi,
                    max_n,
                    num_bins,
                    0,
                ).bin_end
                &&& forall|j: int|
                    0 <= j < num_bins && j != bi ==> !((#[trigger] spec_init_bin(
                        j,
                        max_n,
                        num_bins,
                        0,
                    )).bin_start <= n <= spec_init_bin(j, max_n, num_bins, 0).bin_end)
            })
            &&& ((2 * (max_n as int)) % num_bins != 0 ==> n < num_bins * bs)
        }),
{
    let r = 2 * (max_n as int);
    let bs = spec_bin_size(max_n, num_bins);
    vstd::arithmetic::div_mod::lemma_fundamental_div_mod(r + num_bins - 1, num_bins);
    vstd::arithmetic::div_mod::lemma_mod_division_less_than_divisor(r + num_bins - 1, num_bins);
    assert(r + num_bins - 1 == num_bins * bs + (r + num_bins - 1) % num_bins);
    assert(r <= num_bins * bs) by (nonlinear_arith)
        requires
            r + num_bins - 1 == num_bins * bs + (r + num_bins - 1) % num_bins,
            0 <= (r + num_bins - 1) % num_bins < num_bins,
    ;
    assert(bs >= 1) by (nonlinear_arith)
        requires
            r + num_bins - 1 == num_bins * bs + (r + num_bins - 1) % num_bins,
            0 <= (r + num_bins - 1) % num_bins < num_bins,
            r >= 2,
            num_bins >= 1,
    ;
    if r % num_bins != 0 {
        vstd::arithmetic::div_mod::lemma_fundamental_div_mod(r, num_bins);
        vstd::arithmetic::div_mod::lemma_mod_division_less_than_divisor(r, num_bins);
        // With a remainder, rounding up leaves headroom past the domain end.
        assert(r < num_bins * bs) by (nonlinear_arith)
            requires
                r + num_bins - 1 == num_bins * bs + (r + num_bins - 1) % num_bins,
                r == num_bins * (r / num_bins) + r % num_bins,
                1 <= r % num_bins < num_bins,
                0 <= (r + num_bins - 1) % num_bins < num_bins,
                num_bins >= 1,
        ;
    }
    if n < num_bins * bs {
        let bi = n / bs;
        vstd::arithmetic::div_mod::lemma_fundamental_div_mod(n, bs);
        vstd::arithmetic::div_mod::lemma_mod_division_less_than_divisor(n, bs);
        vstd::arithmetic::div_mod::lemma_div_pos_is_pos(n, bs);
        assert(bi * bs <= n < bi * bs + bs) by (nonlinear_arith)
            requires
                n == bs * bi + n % bs,
                0 <= n % bs < bs,
        ;
        assert(bi < num_bins) by (nonlinear_arith)
            requires
                bi * bs <= n,
                n < num_bins * bs,
                bs >= 1,
                bi >= 0,
        ;
        assert forall|j: int|
            0 <= j < num_bins && j != bi implies !((#[trigger] spec_init_bin(
            j,
            max_n,
            num_bins,
            0,
        )).bin_start <= n <= spec_init_bin(j, max_n, num_bins, 0).bin_end) by {
            if j < bi {
                assert(j * bs + bs <= bi * bs) by (nonlinear_arith)
                    requires
                        j < bi,
                        bs >= 1,
                ;
            } else {
                assert(bi * bs + bs <= j * bs) by (nonlinear_arith)
                    requires
                        bi < j,
                        bs >= 1,
                ;
            }
        }
    }
}

impl Statistics {
    /// The analysis domain's upper end, `2 * max_n`.
    pub open spec fn spec_range(&self) -> int {
        self.max_n_analysis_range as int
    }

    /// The configured bin width.
    pub open spec fn spec_bin_size(&self) -> int {
        self.bin_size as int
    }

    /// Builds an empty aggregator for primes up to `max_n`, with `num_bins`
    /// bins tiling `[0, 2 * max_n]` and one per-bin slot for each target
    /// gap.
    pub fn new(max_n: u64, num_bins: usize, target_gaps: &Vec<u64>) -> (s: Statistics)
        requires
            1 <= max_n <= 0x2000_0000_0000_0000u64,
            1 <= num_bins <= 0xFFFF_FFFFusize,
            spec_gaps_distinct(target_gaps@),
        ensures
            s.wf(),
            s.model() == spec_init_model(max_n, num_bins as int, target_gaps@),
            s.total_primes == 0,
            s.total_s_primes == 0,
            s.gap_spectrum.wf(),
            s.gap_spectrum.occurrences@.len() == 0,
            s.gap_spectrum.successes@.len() == 0,
            s.target_gaps@ == target_gaps@,
            s.spec_range() == 2 * max_n,
            s.spec_bin_size() == spec_bin_size(max_n, num_bins as int),
            s.bins@.len() == num_bins,
            forall|i: int|
                0 <= i < num_bins ==> {
                    let b = #[trigger] s.bins@[i];
                    &&& b.bin_start == i * spec_bin_size(max_n, num_bins as int)
                    &&& b.bin_end == (if i * spec_bin_size(max_n, num_bins as int) + spec_bin_size(
                        max_n,
                        num_bins as int,
                    ) - 1 <= 2 * max_n {
                        i * spec_bin_size(max_n, num_bins as int) + spec_bin_size(
                            max_n,
                            num_bins as int,
                        ) - 1
                    } else {
                        2 * max_n
                    })
                    &&& b.prime_count_p == 0
                    &&& b.prime_count_s == 0
                    &&& b.gap_successes@.len() == target_gaps@.len()
                    &&& b.gap_occurrences@.len() == target_gaps@.len()
                    &&& forall|t: int| 0 <= t < target_gaps@.len() ==> b.gap_successes@[t] == 0u64
                    &&& forall|t: int|
                        0 <= t < target_gaps@.len() ==> b.gap_occurrences@[t] == 0u64
                },
    {
        let max_n_analysis_range = max_n * 2;
        let nb = num_bins as u64;
        let q = max_n_analysis_range / nb;
        let rem = max_n_analysis_range % nb;
        let bin_size: u64 = if rem == 0 {
            q
        } else {
            q + 1
        };
        proof {
            vstd::arithmetic::div_mod::lemma_fundamental_div_mod(
                max_n_analysis_range as int,
                nb as int,
            );
            vstd::arithmetic::div_mod::lemma_mod_division_less_than_divisor(
                max_n_analysis_range as int,
                nb as int,
            );
            assert((q as int) * (nb as int) == (nb as int) * (q as int)) by (nonlinear_arith);
            assert((q as int + 1) * (nb as int) == (nb as int) * (q as int) + nb)
                by (nonlinear_arith);
            if rem == 0 {
                vstd::arithmetic::div_mod::lemma_fundamental_div_mod_converse(
                    2 * max_n + nb - 1,
                    nb as int,
                    q as int,
                    nb - 1,
                );
            } else {
                vstd::arithmetic::div_mod::lemma_fundamental_div_mod_converse(
                    2 * max_n + nb - 1,
                    nb as int,
                    q + 1,
                    rem - 1,
                );
            }
            assert(bin_size as int == spec_bin_size(max_n, num_bins as int));
            assert(bin_size >= 1) by (nonlinear_arith)
                requires
                    max_n_analysis_range as int == (nb as int) * (q as int) + rem,
                    0 <= rem < nb,
                    max_n_analysis_range >= 2,
                    bin_size == if rem == 0 {
                        q
                    } else {
                        (q + 1) as u64
                    },
            ;
            // The bins' ends stay within 64 bits: num_bins * bin_size is
            // less than the range plus the bin count.
            assert((nb as int) * (bin_size as int) < 2 * max_n + nb) by (nonlinear_arith)
                requires
                    max_n_analysis_range as int == (nb as int) * (q as int) + rem,
                    0 <= rem < nb,
                    max_n_analysis_range == 2 * max_n,
                    bin_size == if rem == 0 {
                        q
                    } else {
                        (q + 1) as u64
                    },
            ;
        }

        let mut bins: Vec<BinStats> = Vec::new();
        let mut i: usize = 0;
        while i < num_bins
            invariant
                1 <= max_n <= 0x2000_0000_0000_0000u64,
                1 <= num_bins <= 0xFFFF_FFFFusize,
                nb == num_bins as u64,
                max_n_analysis_range == 2 * max_n,
                bin_size as int == spec_bin_size(max_n, num_bins as int),
                bin_size >= 1,
                (nb as int) * (bin_size as int) < 2 * max_n + nb,
                i <= num_bins,
                bins@.len() == i,
                forall|t: int|
                    0 <= t < i ==> {
                        let b = #[trigger] bins@[t];
                        &&& b.bin_start == t * (bin_size as int)
                        &&& b.bin_end == (if t * (bin_size as int) + bin_size - 1 <= 2 * max_n {
                            t * (bin_size as int) + bin_size - 1
                        } else {
                            2 * max_n
                        })
                        &&& b.prime_count_p == 0
                        &&& b.prime_count_s == 0
                        &&& b.gap_successes@.len() == target_gaps@.len()
                        &&& b.gap_occurrences@.len() == target_gaps@.len()
                        &&& forall|u: int|
                            0 <= u < target_gaps@.len() ==> b.gap_successes@[u] == 0u64
                        &&& forall|u: int|
                            0 <= u < target_gaps@.len() ==> b.gap_occurrences@[u] == 0u64
                    },
            decreases num_bins - i,
        {
            proof {
                assert((i as int) * (bin_size as int) + bin_size <= (nb as int) * (
                bin_size as int)) by (nonlinear_arith)
                    requires
                        (i as int) < (nb as int),
                        bin_size >= 1,
                ;
            }
            let start = (i as u64) * bin_size;
            let end0 = start + bin_size - 1;
            let end = if end0 <= max_n_analysis_range {
                end0
            } else {
                max_n_analysis_range
            };
            let b = BinStats::new(start, end, target_gaps);
            bins.push(b);
            i = i + 1;
        }

        let s = Statistics {
            total_primes: 0,
            total_s_primes: 0,
            gap_spectrum: GapSpectrum { occurrences: Vec::new(), successes: Vec::new() },
            bins,
            bin_size,
            max_n_analysis_range,
            target_gaps: target_gaps.clone(),
        };
        proof {
            assert(s.gap_spectrum.spec_map() =~= Map::<int, (int, int)>::empty());
            assert forall|t: int| 0 <= t < num_bins implies #[trigger] s.bins@[t].model()
                =~= spec_init_bin(t, max_n, num_bins as int, target_gaps@.len() as int) by {
                assert(s.bins@[t].gap_occurrences@.map_values(|x: u64| x as int) =~= Seq::new(
                    target_gaps@.len(),
                    |u: int| 0int,
                ));
                assert(s.bins@[t].gap_successes@.map_values(|x: u64| x as int) =~= Seq::new(
                    target_gaps@.len(),
                    |u: int| 0int,
                ));
            }
            assert(Seq::new(s.bins@.len(), |i: int| s.bins@[i].model()) =~= Seq::new(
                num_bins as nat,
                |i: int| spec_init_bin(i, max_n, num_bins as int, target_gaps@.len() as int),
            ));
            assert(s.model() =~= spec_init_model(max_n, num_bins as int, target_gaps@));
        }
        s
    }

    /// The bin that owns `n`: its index is `n` divided by the bin width,
    /// clamped to the last bin; values beyond the analysis range own no bin.
    pub fn get_bin_index(&self, n: u64) -> (r: Option<usize>)
        requires
            self.spec_bin_size() >= 1,
            self.bins@.len() >= 1,
        ensures
            match r {
                Some(i) => n <= self.spec_range() && i == (if n as int / self.spec_bin_size()
                    < self.bins@.len() {
                    n as int / self.spec_bin_size()
                } else {
                    self.bins@.len() - 1
                }),
                None => n > self.spec_range(),
            },
    {
        if n > self.max_n_analysis_range {
            return None;
        }
        let index64 = n / self.bin_size;
        if index64 < self.bins.len() as u64 {
            Some(index64 as usize)
        } else {
            Some(self.bins.len() - 1)
        }
    }
}

/// Ghost mirror of one bin, for stating how recording and merging act.
#[verifier::ext_equal]
pub ghost struct BinModel {
    pub bin_start: int,
    pub bin_end: int,
    pub prime_count_p: int,
    pub prime_count_s: int,
    pub gap_occurrences: Seq<int>,
    pub gap_successes: Seq<int>,
}

/// Ghost mirror of a whole aggregator.
#[verifier::ext_equal]
pub ghost struct StatsModel {
    pub total_primes: int,
    pub total_s_primes: int,
    pub spectrum: Map<int, (int, int)>,
    pub bins: Seq<BinModel>,
    pub bin_size: int,
    pub range: int,
    pub target_gaps: Seq<u64>,
}

impl BinStats {
    /// This bin as a ghost value.
    pub open spec fn model(&self) -> BinModel {
        BinModel {
            bin_start: self.bin_start as int,
            bin_end: self.bin_end as int,
            prime_count_p: self.prime_count_p as int,
            prime_count_s: self.prime_count_s as int,
            gap_occurrences: self.gap_occurrences@.map_values(|x: u64| x as int),
            gap_successes: self.gap_successes@.map_values(|x: u64| x as int),
        }
    }
}

/// The spectrum counters for `g`, with absent gaps counting `(0, 0)`.
pub open spec fn spec_map_get(m: Map<int, (int, int)>, g: int) -> (int, int) {
    if m.dom().contains(g) {
        m[g]
    } else {
        (0, 0)
    }
}

/// One observation of gap `g` added to a spectrum mapping.
pub open spec fn spec_spectrum_bump(m: Map<int, (int, int)>, g: int, success: bool) -> Map<
    int,
    (int, int),
> {
    m.insert(
        g,
        (
            spec_map_get(m, g).0 + 1,
            spec_map_get(m, g).1 + if success {
                1int
            } else {
                0
            },
        ),
    )
}

/// The position of `g` in the target-gap list, or -1 when it is not a
/// target.
pub open spec fn spec_target_index(gaps: Seq<u64>, g: int) -> int {
    if exists|i: int| 0 <= i < gaps.len() && gaps[i] == g {
        choose|i: int| 0 <= i < gaps.len() && gaps[i] == g
    } else {
        -1
    }
}

/// Entry `t` incremented, when it exists.
pub open spec fn spec_bump_seq(s: Seq<int>, t: int) -> Seq<int> {
    if 0 <= t < s.len() {
        s.update(t, s[t] + 1)
    } else {
        s
    }
}

/// One event folded into a bin: the input-prime counter always moves, the
/// rest only on success or when the gap is targeted.
pub open spec fn spec_bin_bump(b: BinModel, ti: int, success: bool) -> BinModel {
    BinModel {
        prime_count_p: b.prime_count_p + 1,
        prime_count_s: b.prime_count_s + if success {
            1int
        } else {
            0
        },
        gap_occurrences: spec_bump_seq(b.gap_occurrences, ti),
        gap_successes: if success {
            spec_bump_seq(b.gap_successes, ti)
        } else {
            b.gap_successes
        },
        ..b
    }
}

/// Whether the sum `p + q - 1` of a consecutive-prime pair is prime within
/// the oracle's range.
pub open spec fn spec_s_prime(p: u64, q: u64, oracle_limit: u64) -> bool {
    p + q - 1 <= oracle_limit && spec_is_prime((p + q - 1) as nat)
}

/// The effect of seeding the aggregator with the very first stream prime,
/// which has no predecessor: only the global and bin prime counters move.
pub open spec fn spec_seed_model(m: StatsModel, p: u64) -> StatsModel {
    if p <= m.range {
        let bi = if (p as int) / m.bin_size < m.bins.len() {
            (p as int) / m.bin_size
        } else {
            m.bins.len() - 1
        };
        StatsModel {
            total_primes: m.total_primes + 1,
            bins: m.bins.update(
                bi,
                BinModel { prime_count_p: m.bins[bi].prime_count_p + 1, ..m.bins[bi] },
            ),
            ..m
        }
    } else {
        StatsModel { total_primes: m.total_primes + 1, ..m }
    }
}

/// The effect of recording one consecutive-prime event `(p, q)` whose sum
/// primality came out as `s_prime`: bin-level counters are keyed by the bin
/// of the input prime `p`.
pub open spec fn spec_record_model(m: StatsModel, p: u64, q: u64, s_prime: bool) -> StatsModel {
    if p <= m.range {
        let bi = if (p as int) / m.bin_size < m.bins.len() {
            (p as int) / m.bin_size
        } else {
            m.bins.len() - 1
        };
        let gap = p - q;
        let ti = spec_target_index(m.target_gaps, gap);
        StatsModel {
            total_primes: m.total_primes + 1,
            total_s_primes: m.total_s_primes + if s_prime {
                1int
            } else {
                0
            },
            spectrum: spec_spectrum_bump(m.spectrum, gap, s_prime),
            bins: m.bins.update(bi, spec_bin_bump(m.bins[bi], ti, s_prime)),
            ..m
        }
    } else {
        StatsModel { total_primes: m.total_primes + 1, ..m }
    }
}

/// Reading the dense spectrum through its mapping view gives the dense
/// counters back.
pub proof fn lemma_map_get_dense(sp: GapSpectrum, g: int)
    ensures
        spec_map_get(sp.spec_map(), g) == (sp.spec_occ(g), sp.spec_succ(g)),
{
}

/// Element-wise sum of two spectrum mappings; absent gaps count `(0, 0)`.
pub open spec fn spec_map_merge(m1: Map<int, (int, int)>, m2: Map<int, (int, int)>) -> Map<
    int,
    (int, int),
> {
    Map::new(
        |g: int| m1.dom().contains(g) || m2.dom().contains(g),
        |g: int|
            (
                spec_map_get(m1, g).0 + spec_map_get(m2, g).0,
                spec_map_get(m1, g).1 + spec_map_get(m2, g).1,
            ),
    )
}

/// Element-wise sum of two bins covering the same sub-range.
pub open spec fn spec_bin_merge(a: BinModel, b: BinModel) -> BinModel {
    BinModel {
        bin_start: a.bin_start,
        bin_end: a.bin_end,
        prime_count_p: a.prime_count_p + b.prime_count_p,
        prime_count_s: a.prime_count_s + b.prime_count_s,
        gap_occurrences: Seq::new(
            a.gap_occurrences.len(),
            |t: int| a.gap_occurrences[t] + b.gap_occurrences[t],
        ),
        gap_successes: Seq::new(
            a.gap_successes.len(),
            |t: int| a.gap_successes[t] + b.gap_successes[t],
        ),
    }
}

/// Element-wise sum of two aggregators over the same configuration.
pub open spec fn spec_merge_model(a: StatsModel, b: StatsModel) -> StatsModel {
    StatsModel {
        total_primes: a.total_primes + b.total_primes,
        total_s_primes: a.total_s_primes + b.total_s_primes,
        spectrum: spec_map_merge(a.spectrum, b.spectrum),
        bins: Seq::new(a.bins.len(), |i: int| spec_bin_merge(a.bins[i], b.bins[i])),
        ..a
    }
}

/// The two aggregators were configured alike, so merging them is
/// meaningful.
pub open spec fn spec_compatible(a: StatsModel, b: StatsModel) -> bool {
    &&& a.bin_size == b.bin_size
    &&& a.range == b.range
    &&& a.target_gaps == b.target_gaps
    &&& a.bins.len() == b.bins.len()
    &&& forall|i: int|
        0 <= i < a.bins.len() ==> {
            &&& (#[trigger] a.bins[i]).bin_start == (#[trigger] b.bins[i]).bin_start
            &&& a.bins[i].bin_end == b.bins[i].bin_end
            &&& a.bins[i].gap_occurrences.len() == b.bins[i].gap_occurrences.len()
            &&& a.bins[i].gap_successes.len() == b.bins[i].gap_successes.len()
        }
}

impl Statistics {
    /// This aggregator as a ghost value.
    pub open spec fn model(&self) -> StatsModel {
        StatsModel {
            total_primes: self.total_primes as int,
            total_s_primes: self.total_s_primes as int,
            spectrum: self.gap_spectrum.spec_map(),
            bins: Seq::new(self.bins@.len(), |i: int| self.bins@[i].model()),
            bin_size: self.bin_size as int,
            range: self.max_n_analysis_range as int,
            target_gaps: self.target_gaps@,
        }
    }

    /// Internal consistency: parallel vector lengths line up, the target
    /// gaps are a set, and every counter is bounded by the number of
    /// recorded events, so counters cannot overflow before the global one
    /// does.
    pub open spec fn wf(&self) -> bool {
        &&& self.gap_spectrum.wf()
        &&& self.bin_size >= 1
        &&& self.bins@.len() >= 1
        &&& spec_gaps_distinct(self.target_gaps@)
        &&& self.total_s_primes <= self.total_primes
        &&& forall|i: int|
            0 <= i < self.bins@.len() ==> {
                let b = #[trigger] self.bins@[i];
                &&& b.gap_occurrences@.len() == self.target_gaps@.len()
                &&& b.gap_successes@.len() == self.target_gaps@.len()
                &&& b.prime_count_p <= self.total_primes
                &&& b.prime_count_s <= self.total_primes
                &&& forall|t: int|
                    0 <= t < self.target_gaps@.len() ==> b.gap_occurrences@[t] <= self.total_primes
                        && b.gap_successes@[t] <= self.total_primes
            }
        &&& forall|g: int| #[trigger] self.gap_spectrum.spec_occ(g) <= self.total_primes
        &&& forall|g: int| #[trigger] self.gap_spectrum.spec_succ(g) <= self.total_primes
    }

    /// The position of `g` in this aggregator's target-gap list.
    fn target_index(gaps: &Vec<u64>, g: u64) -> (r: Option<usize>)
        requires
            spec_gaps_distinct(gaps@),
        ensures
            match r {
                Some(i) => {
                    &&& i < gaps@.len()
                    &&& gaps@[i as int] == g
                    &&& spec_target_index(gaps@, g as int) == i
                },
                None => {
                    &&& spec_target_index(gaps@, g as int) == -1
                    &&& forall|t: int| 0 <= t < gaps@.len() ==> gaps@[t] != g
                },
            },
    {
        let mut i: usize = 0;
        while i < gaps.len()
            invariant
                i <= gaps@.len(),
                spec_gaps_distinct(gaps@),
                forall|t: int| 0 <= t < i ==> gaps@[t] != g,
            decreases gaps@.len() - i,
        {
            if gaps[i] == g {
                proof {
                    assert(exists|t: int| 0 <= t < gaps@.len() && gaps@[t] == g as int);
                    let j = choose|t: int| 0 <= t < gaps@.len() && gaps@[t] == g as int;
                    assert(j == i);
                }
                return Some(i);
            }
            i = i + 1;
        }
        proof {
            if exists|t: int| 0 <= t < gaps@.len() && gaps@[t] == g as int {
                let j = choose|t: int| 0 <= t < gaps@.len() && gaps@[t] == g as int;
                assert(false);
            }
        }
        None
    }

    /// Seeds the aggregator with the first stream prime, which has no
    /// predecessor: no gap or sum exists for it, so only the global and
    /// bin prime counters move.
    pub fn record_initial(&mut self, p: u64)
        requires
            old(self).wf(),
            old(self).total_primes < u64::MAX,
        ensures
            final(self).wf(),
            final(self).model() == spec_seed_model(old(self).model(), p),
    {
        let ghost m0 = old(self).model();
        self.total_primes = self.total_primes + 1;
        let bin = self.get_bin_index(p);
        match bin {
            None => {
                proof {
                    assert(self.model() =~= spec_seed_model(m0, p));
                }
            },
            Some(bi) => {
                let b = &mut self.bins[bi];
                b.prime_count_p = b.prime_count_p + 1;
                proof {
                    assert(self.bins@[bi as int].model() =~= BinModel {
                        prime_count_p: m0.bins[bi as int].prime_count_p + 1,
                        ..m0.bins[bi as int]
                    });
                    assert(Seq::new(self.bins@.len(), |i: int| self.bins@[i].model())
                        =~= m0.bins.update(
                        bi as int,
                        BinModel {
                            prime_count_p: m0.bins[bi as int].prime_count_p + 1,
                            ..m0.bins[bi as int]
                        },
                    ));
                    assert(self.model() =~= spec_seed_model(m0, p));
                }
            },
        }
    }

    /// Folds one consecutive-prime event into the aggregator: `p_current`
    /// and `p_prev` are adjacent stream values; the sum `p + p' - 1` is
    /// tested against the oracle.
    pub fn record(&mut self, p_current: u64, p_prev: u64, oracle: &PrimalityChecker)
        requires
            old(self).wf(),
            oracle.wf(),
            1 <= p_prev <= p_current,
            p_current <= 0x2000_0000_0000_0000u64,
            old(self).total_primes < u64::MAX,
        ensures
            final(self).wf(),
            final(self).model() == spec_record_model(
                old(self).model(),
                p_current,
                p_prev,
                spec_s_prime(p_current, p_prev, oracle.spec_limit()),
            ),
    {
        let ghost m0 = old(self).model();
        let s_val = p_current + p_prev - 1;
        let s_prime = oracle.is_prime(s_val);
        self.total_primes = self.total_primes + 1;
        let bin = self.get_bin_index(p_current);
        match bin {
            None => {
                proof {
                    assert(self.model() =~= spec_record_model(
                        m0,
                        p_current,
                        p_prev,
                        spec_s_prime(p_current, p_prev, oracle.spec_limit()),
                    ));
                }
            },
            Some(bi) => {
                let ghost spec0 = self.gap_spectrum;
                let gap = p_current - p_prev;
                self.gap_spectrum.bump(gap, s_prime);
                if s_prime {
                    self.total_s_primes = self.total_s_primes + 1;
                }
                let ti = Self::target_index(&self.target_gaps, gap);
                let ghost bins0 = self.bins@;
                let b = &mut self.bins[bi];
                b.prime_count_p = b.prime_count_p + 1;
                if s_prime {
                    b.prime_count_s = b.prime_count_s + 1;
                }
                match ti {
                    Some(t) => {
                        let occ = b.gap_occurrences[t];
                        b.gap_occurrences[t] = occ + 1;
                        if s_prime {
                            let suc = b.gap_successes[t];
                            b.gap_successes[t] = suc + 1;
                        }
                    },
                    None => {},
                }
                proof {
                    let sp = spec_s_prime(p_current, p_prev, oracle.spec_limit());
                    let spec_ti = spec_target_index(m0.target_gaps, gap as int);
                    assert(self.gap_spectrum.spec_map() =~= spec_spectrum_bump(
                        m0.spectrum,
                        gap as int,
                        sp,
                    )) by {
                        assert forall|g: int|
                            self.gap_spectrum.spec_map().dom().contains(g)
                                <==> spec_spectrum_bump(m0.spectrum, gap as int, sp).dom().contains(
                                g,
                            ) by {
                            assert(self.gap_spectrum.spec_occ(g) == spec0.spec_occ(g) + (if g
                                == gap {
                                1int
                            } else {
                                0
                            }));
                        }
                        assert forall|g: int|
                            #[trigger] self.gap_spectrum.spec_map().dom().contains(
                                g,
                            ) implies self.gap_spectrum.spec_map()[g] == spec_spectrum_bump(
                            m0.spectrum,
                            gap as int,
                            sp,
                        )[g] by {
                            assert(self.gap_spectrum.spec_occ(g) == spec0.spec_occ(g) + (if g
                                == gap {
                                1int
                            } else {
                                0
                            }));
                        }
                    }
                    assert(self.bins@[bi as int].model() =~= spec_bin_bump(
                        m0.bins[bi as int],
                        spec_ti,
                        sp,
                    ));
                    assert(Seq::new(self.bins@.len(), |i: int| self.bins@[i].model())
                        =~= m0.bins.update(
                        bi as int,
                        spec_bin_bump(m0.bins[bi as int], spec_ti, sp),
                    ));
                    assert(self.model() =~= spec_record_model(m0, p_current, p_prev, sp));
                }
            },
        }
    }

    /// Adds another shard's counts into this aggregator, element-wise:
    /// totals, every bin's counters, and the gap spectrum, with gaps absent
    /// on either side counting zero.
    pub fn merge(&mut self, other: &Statistics)
        requires
            old(self).wf(),
            other.wf(),
            spec_compatible(old(self).model(), other.model()),
            old(self).total_primes + other.total_primes <= u64::MAX,
        ensures
            final(self).wf(),
            final(self).model() == spec_merge_model(old(self).model(), other.model()),
    {
        let ghost ma = old(self).model();
        let ghost mb = other.model();

        // Summed gap spectrum.
        let la = self.gap_spectrum.occurrences.len();
        let lb = other.gap_spectrum.occurrences.len();
        let lm = if la < lb {
            lb
        } else {
            la
        };
        let mut occ: Vec<u64> = Vec::new();
        let mut suc: Vec<u64> = Vec::new();
        let mut g: usize = 0;
        while g < lm
            invariant
                self == old(self),
                old(self).wf(),
                other.wf(),
                old(self).total_primes + other.total_primes <= u64::MAX,
                la == self.gap_spectrum.occurrences@.len(),
                lb == other.gap_spectrum.occurrences@.len(),
                lm == if la < lb {
                    lb as int
                } else {
                    la as int
                },
                g <= lm,
                occ@.len() == g,
                suc@.len() == g,
                forall|t: int|
                    0 <= t < g ==> occ@[t] == self.gap_spectrum.spec_occ(t)
                        + other.gap_spectrum.spec_occ(t),
                forall|t: int|
                    0 <= t < g ==> suc@[t] == self.gap_spectrum.spec_succ(t)
                        + other.gap_spectrum.spec_succ(t),
            decreases lm - g,
        {
            let a_o = if g < la {
                self.gap_spectrum.occurrences[g]
            } else {
                0
            };
            let b_o = if g < lb {
                other.gap_spectrum.occurrences[g]
            } else {
                0
            };
            let a_s = if g < la {
                self.gap_spectrum.successes[g]
            } else {
                0
            };
            let b_s = if g < lb {
                other.gap_spectrum.successes[g]
            } else {
                0
            };
            proof {
                assert(a_o as int == self.gap_spectrum.spec_occ(g as int));
                assert(b_o as int == other.gap_spectrum.spec_occ(g as int));
                assert(a_s as int == self.gap_spectrum.spec_succ(g as int));
                assert(b_s as int == other.gap_spectrum.spec_succ(g as int));
                assert(self.gap_spectrum.spec_occ(g as int) <= self.total_primes);
                assert(other.gap_spectrum.spec_occ(g as int) <= other.total_primes);
                assert(self.gap_spectrum.spec_succ(g as int) <= self.total_primes);
                assert(other.gap_spectrum.spec_succ(g as int) <= other.total_primes);
            }
            occ.push(a_o + b_o);
            suc.push(a_s + b_s);
            g = g + 1;
        }

        // Summed bins.
        let nb = self.bins.len();
        let mut bins: Vec<BinStats> = Vec::new();
        let mut i: usize = 0;
        while i < nb
            invariant
                self == old(self),
                old(self).wf(),
                other.wf(),
                spec_compatible(old(self).model(), other.model()),
                old(self).total_primes + other.total_primes <= u64::MAX,
                ma == old(self).model(),
                mb == other.model(),
                nb == self.bins@.len(),
                i <= nb,
                bins@.len() == i,
                forall|j: int|
                    0 <= j < i ==> (#[trigger] bins@[j]).model() == spec_bin_merge(
                        ma.bins[j],
                        mb.bins[j],
                    ),
            decreases nb - i,
        {
            proof {
                assert(ma.bins[i as int] == self.bins@[i as int].model());
                assert(mb.bins[i as int] == other.bins@[i as int].model());
            }
            let nt = self.bins[i].gap_occurrences.len();
            let mut go: Vec<u64> = Vec::new();
            let mut gs: Vec<u64> = Vec::new();
            let mut t: usize = 0;
            while t < nt
                invariant
                    self == old(self),
                    old(self).wf(),
                    other.wf(),
                    spec_compatible(old(self).model(), other.model()),
                    old(self).total_primes + other.total_primes <= u64::MAX,
                    i < self.bins@.len(),
                    nt == self.bins@[i as int].gap_occurrences@.len(),
                    nt == self.bins@[i as int].gap_successes@.len(),
                    nt == other.bins@[i as int].gap_occurrences@.len(),
                    nt == other.bins@[i as int].gap_successes@.len(),
                    t <= nt,
                    go@.len() == t,
                    gs@.len() == t,
                    forall|u: int|
                        0 <= u < t ==> go@[u] == self.bins@[i as int].gap_occurrences@[u]
                            + other.bins@[i as int].gap_occurrences@[u],
                    forall|u: int|
                        0 <= u < t ==> gs@[u] == self.bins@[i as int].gap_successes@[u]
                            + other.bins@[i as int].gap_successes@[u],
                decreases nt - t,
            {
                let ao = self.bins[i].gap_occurrences[t];
                let bo = other.bins[i].gap_occurrences[t];
                let az = self.bins[i].gap_successes[t];
                let bz = other.bins[i].gap_successes[t];
                go.push(ao + bo);
                gs.push(az + bz);
                t = t + 1;
            }
            let merged = BinStats {
                bin_start: self.bins[i].bin_start,
                bin_end: self.bins[i].bin_end,
                prime_count_p: self.bins[i].prime_count_p + other.bins[i].prime_count_p,
                prime_count_s: self.bins[i].prime_count_s + other.bins[i].prime_count_s,
                gap_successes: gs,
                gap_occurrences: go,
            };
            proof {
                assert(merged.model() =~= spec_bin_merge(ma.bins[i as int], mb.bins[i as int]));
            }
            bins.push(merged);
            i = i + 1;
        }

        let ghost occ_seq = occ@;
        let ghost suc_seq = suc@;
        self.gap_spectrum = GapSpectrum { occurrences: occ, successes: suc };
        self.bins = bins;
        self.total_primes = self.total_primes + other.total_primes;
        self.total_s_primes = self.total_s_primes + other.total_s_primes;

        proof {
            assert forall|t: int|
                #[trigger] self.gap_spectrum.spec_occ(t) == old(self).gap_spectrum.spec_occ(t)
                    + other.gap_spectrum.spec_occ(t) by {
                if !(0 <= t < occ_seq.len()) {
                    assert(old(self).gap_spectrum.spec_occ(t) == 0);
                    assert(other.gap_spectrum.spec_occ(t) == 0);
                }
            }
            assert forall|t: int|
                #[trigger] self.gap_spectrum.spec_succ(t) == old(self).gap_spectrum.spec_succ(t)
                    + other.gap_spectrum.spec_succ(t) by {
                if !(0 <= t < suc_seq.len()) {
                    assert(old(self).gap_spectrum.spec_succ(t) == 0);
                    assert(other.gap_spectrum.spec_succ(t) == 0);
                }
            }
            assert(self.gap_spectrum.spec_map() =~= spec_map_merge(ma.spectrum, mb.spectrum)) by {
                assert forall|t: int|
                    self.gap_spectrum.spec_map().dom().contains(t)
                        <==> spec_map_merge(ma.spectrum, mb.spectrum).dom().contains(t) by {
                    lemma_map_get_dense(old(self).gap_spectrum, t);
                    lemma_map_get_dense(other.gap_spectrum, t);
                    assert(self.gap_spectrum.spec_occ(t) == old(self).gap_spectrum.spec_occ(t)
                        + other.gap_spectrum.spec_occ(t));
                    assert(self.gap_spectrum.spec_succ(t) == old(self).gap_spectrum.spec_succ(t)
                        + other.gap_spectrum.spec_succ(t));
                }
                assert forall|t: int|
                    #[trigger] self.gap_spectrum.spec_map().dom().contains(
                        t,
                    ) implies self.gap_spectrum.spec_map()[t] == spec_map_merge(
                    ma.spectrum,
                    mb.spectrum,
                )[t] by {
                    lemma_map_get_dense(old(self).gap_spectrum, t);
                    lemma_map_get_dense(other.gap_spectrum, t);
                    assert(self.gap_spectrum.spec_occ(t) == old(self).gap_spectrum.spec_occ(t)
                        + other.gap_spectrum.spec_occ(t));
                    assert(self.gap_spectrum.spec_succ(t) == old(self).gap_spectrum.spec_succ(t)
                        + other.gap_spectrum.spec_succ(t));
                }
            }
            assert(Seq::new(self.bins@.len(), |j: int| self.bins@[j].model()) =~= Seq::new(
                ma.bins.len(),
                |j: int| spec_bin_merge(ma.bins[j], mb.bins[j]),
            ));
            assert(self.model() =~= spec_merge_model(ma, mb));
            assert forall|j: int| 0 <= j < self.bins@.len() implies {
                let b = #[trigger] self.bins@[j];
                &&& b.gap_occurrences@.len() == self.target_gaps@.len()
                &&& b.gap_successes@.len() == self.target_gaps@.len()
                &&& b.prime_count_p <= self.total_primes
                &&& b.prime_count_s <= self.total_primes
                &&& forall|t: int|
                    0 <= t < self.target_gaps@.len() ==> b.gap_occurrences@[t] <= self.total_primes
                        && b.gap_successes@[t] <= self.total_primes
            } by {
                let bj = self.bins@[j];
                assert(bj.model() == spec_bin_merge(ma.bins[j], mb.bins[j]));
                assert(ma.bins[j] == old(self).bins@[j].model());
                assert(mb.bins[j] == other.bins@[j].model());
                assert(bj.model().gap_occurrences.len() == bj.gap_occurrences@.len());
                assert(bj.model().gap_successes.len() == bj.gap_successes@.len());
                assert(bj.prime_count_p as int == bj.model().prime_count_p);
                assert(bj.prime_count_s as int == bj.model().prime_count_s);
                assert forall|t: int|
                    0 <= t < self.target_gaps@.len() implies bj.gap_occurrences@[t]
                    <= self.total_primes && bj.gap_successes@[t] <= self.total_primes by {
                    assert(bj.model().gap_occurrences[t] == bj.gap_occurrences@[t] as int);
                    assert(bj.model().gap_occurrences[t] == ma.bins[j].gap_occurrences[t]
                        + mb.bins[j].gap_occurrences[t]);
                    assert(ma.bins[j].gap_occurrences[t] == old(
                        self,
                    ).bins@[j].gap_occurrences@[t] as int);
                    assert(mb.bins[j].gap_occurrences[t]
                        == other.bins@[j].gap_occurrences@[t] as int);
                    assert(bj.model().gap_successes[t] == bj.gap_successes@[t] as int);
                    assert(bj.model().gap_successes[t] == ma.bins[j].gap_successes[t]
                        + mb.bins[j].gap_successes[t]);
                    assert(ma.bins[j].gap_successes[t] == old(
                        self,
                    ).bins@[j].gap_successes@[t] as int);
                    assert(mb.bins[j].gap_successes[t] == other.bins@[j].gap_successes@[t] as int);
                }
            }
        }
    }
}

/// A model that a real aggregator can take: at least one bin, and a
/// positive bin width.
pub open spec fn spec_model_wf(m: StatsModel) -> bool {
    &&& m.bin_size >= 1
    &&& m.bins.len() >= 1
}

/// Folds a run of events — each a pair `(p, p_prev)` with the primality of
/// their sum — into a model, one record at a time, in order.
pub open spec fn spec_fold(m: StatsModel, events: Seq<(u64, u64, bool)>) -> StatsModel
    decreases events.len(),
{
    if events.len() == 0 {
        m
    } else {
        spec_fold(
            spec_record_model(m, events[0].0, events[0].1, events[0].2),
            events.subrange(1, events.len() as int),
        )
    }
}

/// Folding a run and then one more event is recording that event into the
/// fold of the run.
pub proof fn lemma_fold_snoc(m: StatsModel, events: Seq<(u64, u64, bool)>, e: (u64, u64, bool))
    ensures
        spec_fold(m, events.push(e)) == spec_record_model(spec_fold(m, events), e.0, e.1, e.2),
    decreases events.len(),
{
    if events.len() == 0 {
        assert(events.push(e).subrange(1, 1) =~= Seq::<(u64, u64, bool)>::empty());
        assert(events.push(e)[0] == e);
        assert(spec_fold(m, events.push(e)) == spec_fold(
            spec_record_model(m, e.0, e.1, e.2),
            events.push(e).subrange(1, 1),
        ));
        assert(spec_fold(spec_record_model(m, e.0, e.1, e.2), Seq::<(u64, u64, bool)>::empty())
            == spec_record_model(m, e.0, e.1, e.2));
        assert(spec_fold(m, events) == m);
    } else {
        let ev0 = events[0];
        let m1 = spec_record_model(m, ev0.0, ev0.1, ev0.2);
        let rest = events.subrange(1, events.len() as int);
        assert(events.push(e)[0] == ev0);
        assert(events.push(e).subrange(1, events.len() as int + 1) =~= rest.push(e));
        assert(spec_fold(m, events.push(e)) == spec_fold(
            m1,
            events.push(e).subrange(1, events.len() as int + 1),
        ));
        lemma_fold_snoc(m1, rest, e);
        assert(spec_fold(m, events) == spec_fold(m1, rest));
    }
}

/// Recording keeps two aggregators mergeable, on whichever side it lands.
pub proof fn lemma_record_compat(a: StatsModel, b: StatsModel, e: (u64, u64, bool))
    requires
        spec_compatible(a, b),
        spec_model_wf(a),
        spec_model_wf(b),
    ensures
        spec_compatible(a, spec_record_model(b, e.0, e.1, e.2)),
        spec_compatible(spec_record_model(a, e.0, e.1, e.2), b),
        spec_model_wf(spec_record_model(a, e.0, e.1, e.2)),
        spec_model_wf(spec_record_model(b, e.0, e.1, e.2)),
{
    lemma_record_bin_shape(b, e);
    lemma_record_bin_shape(a, e);
    let rb = spec_record_model(b, e.0, e.1, e.2);
    let ra = spec_record_model(a, e.0, e.1, e.2);
    assert(spec_compatible(a, rb));
    assert(spec_compatible(ra, b));
}

/// Recording never moves a bin's boundaries or resizes its counter slots.
proof fn lemma_record_bin_shape(b: StatsModel, e: (u64, u64, bool))
    requires
        spec_model_wf(b),
    ensures
        ({
            let rb = spec_record_model(b, e.0, e.1, e.2);
            &&& rb.bins.len() == b.bins.len()
            &&& forall|i: int|
                0 <= i < b.bins.len() ==> {
                    &&& (#[trigger] rb.bins[i]).bin_start == b.bins[i].bin_start
                    &&& rb.bins[i].bin_end == b.bins[i].bin_end
                    &&& rb.bins[i].gap_occurrences.len() == b.bins[i].gap_occurrences.len()
                    &&& rb.bins[i].gap_successes.len() == b.bins[i].gap_successes.len()
                }
        }),
{
    let rb = spec_record_model(b, e.0, e.1, e.2);
    if e.0 <= b.range {
        vstd::arithmetic::div_mod::lemma_div_pos_is_pos(e.0 as int, b.bin_size);
        let bi = if (e.0 as int) / b.bin_size < b.bins.len() {
            (e.0 as int) / b.bin_size
        } else {
            b.bins.len() - 1
        };
        assert(0 <= bi < b.bins.len());
        let ti = spec_target_index(b.target_gaps, e.0 - e.1);
        assert(rb.bins == b.bins.update(bi, spec_bin_bump(b.bins[bi], ti, e.2)));
        assert forall|i: int|
            0 <= i < b.bins.len() implies {
            &&& (#[trigger] rb.bins[i]).bin_start == b.bins[i].bin_start
            &&& rb.bins[i].bin_end == b.bins[i].bin_end
            &&& rb.bins[i].gap_occurrences.len() == b.bins[i].gap_occurrences.len()
            &&& rb.bins[i].gap_successes.len() == b.bins[i].gap_successes.len()
        } by {
            if i == bi {
                let ti = spec_target_index(b.target_gaps, e.0 - e.1);
                assert(rb.bins[i] == spec_bin_bump(b.bins[i], ti, e.2));
            } else {
                assert(rb.bins[i] == b.bins[i]);
            }
        }
    }
}

/// Folding keeps two aggregators mergeable.
pub proof fn lemma_fold_compat(a: StatsModel, b: StatsModel, events: Seq<(u64, u64, bool)>)
    requires
        spec_compatible(a, b),
        spec_model_wf(a),
        spec_model_wf(b),
    ensures
        spec_compatible(a, spec_fold(b, events)),
        spec_model_wf(spec_fold(b, events)),
    decreases events.len(),
{
    if events.len() > 0 {
        lemma_record_compat(a, b, events[0]);
        lemma_fold_compat(
            a,
            spec_record_model(b, events[0].0, events[0].1, events[0].2),
            events.subrange(1, events.len() as int),
        );
    }
}

/// Recording into a merged aggregator is merging after recording into one
/// shard: the event lands element-wise on the same counters either way.
pub proof fn lemma_record_merge(a: StatsModel, b: StatsModel, e: (u64, u64, bool))
    requires
        spec_compatible(a, b),
        spec_model_wf(a),
        spec_model_wf(b),
    ensures
        spec_record_model(spec_merge_model(a, b), e.0, e.1, e.2) == spec_merge_model(
            a,
            spec_record_model(b, e.0, e.1, e.2),
        ),
{
    let p = e.0;
    let q = e.1;
    let sp = e.2;
    let m = spec_merge_model(a, b);
    let lhs = spec_record_model(m, p, q, sp);
    let rb = spec_record_model(b, p, q, sp);
    let rhs = spec_merge_model(a, rb);
    if p <= m.range {
        vstd::arithmetic::div_mod::lemma_div_pos_is_pos(p as int, m.bin_size);
        let bi = if (p as int) / m.bin_size < m.bins.len() {
            (p as int) / m.bin_size
        } else {
            m.bins.len() - 1
        };
        assert(0 <= bi < m.bins.len());
        let gap = p - q;
        let ti = spec_target_index(m.target_gaps, gap);
        assert(lhs.bins == m.bins.update(bi, spec_bin_bump(m.bins[bi], ti, sp)));
        assert(rb.bins == b.bins.update(bi, spec_bin_bump(b.bins[bi], ti, sp)));
        // The spectra agree key by key.
        assert(lhs.spectrum =~= rhs.spectrum) by {
            assert forall|g: int|
                lhs.spectrum.dom().contains(g) <==> rhs.spectrum.dom().contains(g) by {}
            assert forall|g: int|
                #[trigger] lhs.spectrum.dom().contains(g) implies lhs.spectrum[g]
                == rhs.spectrum[g] by {}
        }
        // The bins agree position by position.
        assert(lhs.bins =~= rhs.bins) by {
            assert forall|i: int| 0 <= i < lhs.bins.len() implies lhs.bins[i] == rhs.bins[i] by {
                assert(m.bins[i] == spec_bin_merge(a.bins[i], b.bins[i]));
                if i == bi {
                    let la = a.bins[i];
                    let lb = b.bins[i];
                    assert(lhs.bins[i] == spec_bin_bump(spec_bin_merge(la, lb), ti, sp));
                    assert(rb.bins[i] == spec_bin_bump(lb, ti, sp));
                    assert(rhs.bins[i] == spec_bin_merge(la, spec_bin_bump(lb, ti, sp)));
                    assert(la.gap_occurrences.len() == lb.gap_occurrences.len());
                    assert(la.gap_successes.len() == lb.gap_successes.len());
                    assert(lhs.bins[i].gap_occurrences =~= rhs.bins[i].gap_occurrences) by {
                        assert forall|u: int|
                            0 <= u < lhs.bins[i].gap_occurrences.len() implies lhs.bins[i].gap_occurrences[u]
                            == rhs.bins[i].gap_occurrences[u] by {}
                    }
                    assert(lhs.bins[i].gap_successes =~= rhs.bins[i].gap_successes) by {
                        assert forall|u: int|
                            0 <= u < lhs.bins[i].gap_successes.len() implies lhs.bins[i].gap_successes[u]
                            == rhs.bins[i].gap_successes[u] by {}
                    }
                    assert(lhs.bins[i] =~= rhs.bins[i]);
                } else {
                    assert(rb.bins[i] == b.bins[i]);
                    assert(lhs.bins[i] == spec_bin_merge(a.bins[i], b.bins[i]));
                    assert(rhs.bins[i] == spec_bin_merge(a.bins[i], rb.bins[i]));
                }
            }
        }
        assert(lhs =~= rhs);
    } else {
        assert(lhs.spectrum =~= rhs.spectrum);
        assert(lhs.bins =~= rhs.bins);
        assert(lhs =~= rhs);
    }
}

/// Merging an untouched shard changes nothing.
pub proof fn lemma_merge_zero(x: StatsModel, max_n: u64, num_bins: int, gaps: Seq<u64>)
    requires
        spec_compatible(x, spec_init_model(max_n, num_bins, gaps)),
    ensures
        spec_merge_model(x, spec_init_model(max_n, num_bins, gaps)) == x,
{
    let z = spec_init_model(max_n, num_bins, gaps);
    let m = spec_merge_model(x, z);
    assert(m.spectrum =~= x.spectrum) by {
        assert forall|g: int| #[trigger] m.spectrum.dom().contains(g) implies m.spectrum[g]
            == x.spectrum[g] by {}
    }
    assert(m.bins =~= x.bins) by {
        assert forall|i: int| 0 <= i < m.bins.len() implies m.bins[i] == x.bins[i] by {
            assert(m.bins[i] =~= x.bins[i]) by {
                assert(m.bins[i].gap_occurrences =~= x.bins[i].gap_occurrences);
                assert(m.bins[i].gap_successes =~= x.bins[i].gap_successes);
            }
        }
    }
    assert(m =~= x);
}

/// Batch-partitioning law: folding a run of events sequentially equals
/// folding any suffix into a fresh shard and merging the shard back in.
/// Batch boundaries are an implementation artifact: however the run is
/// split, the aggregate is the same.
pub proof fn lemma_fold_split(
    m: StatsModel,
    e1: Seq<(u64, u64, bool)>,
    e2: Seq<(u64, u64, bool)>,
    max_n: u64,
    num_bins: int,
    gaps: Seq<u64>,
)
    requires
        spec_compatible(m, spec_init_model(max_n, num_bins, gaps)),
        spec_model_wf(m),
        spec_model_wf(spec_init_model(max_n, num_bins, gaps)),
    ensures
        spec_fold(m, e1 + e2) == spec_merge_model(
            spec_fold(m, e1),
            spec_fold(spec_init_model(max_n, num_bins, gaps), e2),
        ),
    decreases e2.len(),
{
    let z = spec_init_model(max_n, num_bins, gaps);
    if e2.len() == 0 {
        assert(e1 + e2 =~= e1);
        lemma_fold_self_compat(m, e1, z);
        lemma_merge_zero(spec_fold(m, e1), max_n, num_bins, gaps);
    } else {
        let front = e2.subrange(0, e2.len() - 1);
        let last = e2[e2.len() - 1];
        assert(e1 + e2 =~= (e1 + front).push(last));
        assert(e2 =~= front.push(last));
        lemma_fold_snoc(m, e1 + front, last);
        lemma_fold_split(m, e1, front, max_n, num_bins, gaps);
        lemma_fold_self_compat(m, e1, z);
        lemma_fold_compat(spec_fold(m, e1), z, front);
        lemma_record_merge(spec_fold(m, e1), spec_fold(z, front), last);
        lemma_fold_snoc(z, front, last);
    }
}

/// Folding on the left keeps compatibility with the right.
pub proof fn lemma_fold_self_compat(m: StatsModel, events: Seq<(u64, u64, bool)>, z: StatsModel)
    requires
        spec_compatible(m, z),
        spec_model_wf(m),
        spec_model_wf(z),
    ensures
        spec_compatible(spec_fold(m, events), z),
        spec_model_wf(spec_fold(m, events)),
    decreases events.len(),
{
    if events.len() > 0 {
        lemma_record_compat(m, z, events[0]);
        lemma_fold_self_compat(
            spec_record_model(m, events[0].0, events[0].1, events[0].2),
            events.subrange(1, events.len() as int),
            z,
        );
    }
}

} // verus!
