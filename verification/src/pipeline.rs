//! The batch pipeline: drives the prime stream in fixed-size batches,
//! prefetches the oracle over each batch's sum-value span, and folds every
//! consecutive-prime event into the statistics.
//!
//! Its contract pins the final aggregate to a pure function of the limit,
//! the bin count and the target gaps alone: the batch size and any
//! splitting of batches into shards are invisible in the result.

use crate::oracle::PrimalityChecker;
use crate::primes::{lemma_two_prime, spec_is_prime};
use crate::sieve::PrimeIterator;
use crate::stats::{
    lemma_fold_snoc, spec_fold, spec_gaps_distinct, spec_init_model, spec_s_prime,
    spec_seed_model, Statistics, StatsModel,
};
use vstd::prelude::*;

verus! {

/// The primes strictly below `c`, in ascending order.
pub open spec fn spec_primes_below(c: int) -> Seq<u64>
    decreases c,
{
    if c <= 2 {
        Seq::empty()
    } else if spec_is_prime((c - 1) as nat) {
        spec_primes_below(c - 1).push((c - 1) as u64)
    } else {
        spec_primes_below(c - 1)
    }
}

/// A range free of primes adds nothing to the sequence.
pub proof fn lemma_primes_below_skip(c1: int, c2: int)
    requires
        c1 <= c2,
        forall|q: int| c1 <= q < c2 ==> !#[trigger] spec_is_prime(q as nat),
    ensures
        spec_primes_below(c2) == spec_primes_below(c1),
    decreases c2 - c1,
{
    if c1 < c2 {
        lemma_primes_below_skip(c1, c2 - 1);
        if c2 > 2 {
            assert(!spec_is_prime((c2 - 1) as nat));
        }
    }
}

/// There are never more primes below `c` than numbers below `c`.
pub proof fn lemma_primes_below_len(c: int)
    ensures
        spec_primes_below(c).len() <= (if c >= 0 {
            c
        } else {
            0
        }),
    decreases c,
{
    if c > 2 {
        lemma_primes_below_len(c - 1);
    }
}

/// Every entry of the sequence is a prime below `c`, and the entries
/// ascend.
pub proof fn lemma_primes_below_facts(c: int)
    requires
        c <= u64::MAX as int + 1,
    ensures
        forall|i: int|
            0 <= i < spec_primes_below(c).len() ==> spec_is_prime(
                #[trigger] spec_primes_below(c)[i] as nat,
            ) && spec_primes_below(c)[i] < c,
        forall|i: int, j: int|
            0 <= i < j < spec_primes_below(c).len() ==> spec_primes_below(c)[i]
                < spec_primes_below(c)[j],
    decreases c,
{
    if c > 2 {
        lemma_primes_below_facts(c - 1);
        if spec_is_prime((c - 1) as nat) {
            let s0 = spec_primes_below(c - 1);
            let s1 = spec_primes_below(c);
            assert(s1 == s0.push((c - 1) as u64));
            assert forall|i: int|
                0 <= i < s1.len() implies spec_is_prime(#[trigger] s1[i] as nat) && s1[i]
                < c by {
                if i < s0.len() {
                    assert(s1[i] == s0[i]);
                } else {
                    assert(s1[i] == (c - 1) as u64);
                }
            }
            assert forall|i: int, j: int| 0 <= i < j < s1.len() implies s1[i] < s1[j] by {
                if j < s0.len() {
                    assert(s1[i] == s0[i] && s1[j] == s0[j]);
                } else {
                    assert(s1[j] == (c - 1) as u64);
                    assert(s1[i] == s0[i]);
                    assert(s0[i] < c - 1);
                }
            }
        } else {
            assert(spec_primes_below(c) == spec_primes_below(c - 1));
        }
    }
}

/// Every prime below the bound is listed.
pub proof fn lemma_primes_below_contains(c: int, p: u64)
    requires
        spec_is_prime(p as nat),
        p < c,
    ensures
        spec_primes_below(c).contains(p),
    decreases c,
{
    if p == c - 1 {
        assert(spec_primes_below(c) == spec_primes_below(c - 1).push(p));
        assert(spec_primes_below(c)[spec_primes_below(c).len() - 1] == p);
    } else {
        lemma_primes_below_contains(c - 1, p);
        let j = choose|j: int|
            0 <= j < spec_primes_below(c - 1).len() && #[trigger] spec_primes_below(c - 1)[j]
                == p;
        if c > 2 && spec_is_prime((c - 1) as nat) {
            assert(spec_primes_below(c)[j] == p);
        } else {
            assert(spec_primes_below(c) == spec_primes_below(c - 1));
        }
    }
}

/// Oracle/stream consistency law: for every `n` within the stream's limit,
/// the primality oracle's specified answer — true exactly on primes within
/// its own range — agrees with membership of `n` in the stream's output,
/// the ascending primes up to the limit.
pub proof fn lemma_oracle_stream_consistent(n: u64, limit: u64, oracle_limit: u64)
    requires
        n <= limit,
        limit <= oracle_limit,
        limit < u64::MAX,
    ensures
        (n <= oracle_limit && spec_is_prime(n as nat)) <==> spec_primes_below(
            limit as int + 1,
        ).contains(n),
{
    if spec_is_prime(n as nat) {
        lemma_primes_below_contains(limit as int + 1, n);
    }
    if spec_primes_below(limit as int + 1).contains(n) {
        lemma_primes_below_facts(limit as int + 1);
        let j = choose|j: int|
            0 <= j < spec_primes_below(limit as int + 1).len() && #[trigger] spec_primes_below(
                limit as int + 1,
            )[j] == n;
        assert(spec_is_prime(spec_primes_below(limit as int + 1)[j] as nat));
    }
}

/// The events of one run: each prime paired with its predecessor, tagged
/// with the primality of their sum within the oracle's range.
pub open spec fn spec_events_of(ps: Seq<u64>, oracle_limit: u64) -> Seq<(u64, u64, bool)> {
    if ps.len() == 0 {
        Seq::empty()
    } else {
        Seq::new(
            (ps.len() - 1) as nat,
            |i: int| (ps[i + 1], ps[i], spec_s_prime(ps[i + 1], ps[i], oracle_limit)),
        )
    }
}

/// The aggregate after processing the prime sequence `ps`: the first prime
/// is seeded without a predecessor, every later one is recorded against the
/// one before it.
pub open spec fn spec_partial_run(
    limit: u64,
    num_bins: int,
    gaps: Seq<u64>,
    ps: Seq<u64>,
) -> StatsModel {
    let init = spec_init_model(limit, num_bins, gaps);
    if ps.len() == 0 {
        init
    } else {
        spec_fold(spec_seed_model(init, ps[0]), spec_events_of(ps, (2 * limit) as u64))
    }
}

/// The whole run's aggregate: a function of the limit, the bin count and
/// the target gaps alone. Batch sizes and shard boundaries do not appear.
pub open spec fn spec_run_model(limit: u64, num_bins: int, gaps: Seq<u64>) -> StatsModel {
    spec_partial_run(limit, num_bins, gaps, spec_primes_below(limit + 1))
}

/// Orchestrates one analysis run: consumes the prime stream in fixed-size
/// batches, prefetches the oracle for each batch's sum span, and folds the
/// events into the statistics.
pub struct BatchPipeline {
    limit: u64,
    num_bins: usize,
    stream: PrimeIterator,
    oracle: PrimalityChecker,
    stats: Statistics,
    p_prev: u64,
    batch_size: usize,
    exhausted: bool,
    processed: Ghost<Seq<u64>>,
}

impl BatchPipeline {
    /// The stream limit of this run.
    pub closed spec fn spec_limit(&self) -> u64 {
        self.limit
    }

    /// The bin count of this run.
    pub closed spec fn spec_num_bins(&self) -> int {
        self.num_bins as int
    }

    /// The target gaps of this run.
    pub closed spec fn spec_gaps(&self) -> Seq<u64> {
        self.stats.target_gaps@
    }

    /// The stream has ended and every event is folded in.
    pub closed spec fn spec_done(&self) -> bool {
        self.exhausted
    }

    /// The aggregate accumulated so far.
    pub closed spec fn spec_stats_model(&self) -> StatsModel {
        self.stats.model()
    }

    /// Internal consistency: the statistics always equal the fold of the
    /// primes the stream has produced so far.
    pub closed spec fn wf(&self) -> bool {
        &&& self.stream.wf()
        &&& self.oracle.wf()
        &&& self.stats.wf()
        &&& 1 <= self.limit <= 0x1000_0000_0000_0000u64
        &&& self.stream.spec_limit() == self.limit
        &&& self.oracle.spec_limit() == 2 * self.limit
        &&& 1 <= self.batch_size
        &&& 1 <= self.num_bins <= 0xFFFF_FFFFusize
        &&& self.processed@ == spec_primes_below(self.stream.spec_cursor())
        &&& self.stats.model() == spec_partial_run(
            self.limit,
            self.num_bins as int,
            self.stats.target_gaps@,
            self.processed@,
        )
        &&& self.stats.total_primes == self.processed@.len()
        &&& self.p_prev == (if self.processed@.len() == 0 {
            2u64
        } else {
            self.processed@[self.processed@.len() - 1]
        })
        &&& (self.p_prev <= self.limit || self.p_prev == 2)
        &&& self.processed@.len() == 0 ==> spec_primes_below(self.limit + 1).len() == 0
        &&& self.exhausted ==> self.processed@ == spec_primes_below(self.limit + 1)
    }

    /// Builds a pipeline: the stream up to `limit`, the oracle over twice
    /// that, an empty aggregator, and — when 2 is within the limit — the
    /// seed prime 2 folded in by hand, since it has no predecessor.
    pub fn new(
        limit: u64,
        num_bins: usize,
        target_gaps: &Vec<u64>,
        segment_size_bytes: usize,
        batch_size: usize,
    ) -> (pl: BatchPipeline)
        requires
            1 <= limit <= 0x1000_0000_0000_0000u64,
            1 <= num_bins <= 0xFFFF_FFFFusize,
            1 <= segment_size_bytes <= 0x1FF_FFFF,
            1 <= batch_size,
            spec_gaps_distinct(target_gaps@),
        ensures
            pl.wf(),
            pl.spec_limit() == limit,
            pl.spec_num_bins() == num_bins,
            pl.spec_gaps() == target_gaps@,
            !pl.spec_done(),
    {
        let mut stream = PrimeIterator::new(limit, segment_size_bytes);
        let oracle = PrimalityChecker::new(limit * 2, segment_size_bytes);
        let mut stats = Statistics::new(limit, num_bins, target_gaps);
        let mut p_prev: u64 = 2;
        let ghost mut processed: Seq<u64> = Seq::empty();
        if limit >= 2 {
            let first = stream.next();
            match first {
                Some(p) => {
                    proof {
                        lemma_two_prime();
                        if p != 2 {
                            assert(!spec_is_prime((2int) as nat));
                            assert(false);
                        }
                        assert(spec_primes_below(2) =~= Seq::<u64>::empty());
                        assert(spec_primes_below(p + 1) == spec_primes_below(p as int).push(p));
                    }
                    stats.record_initial(p);
                    p_prev = p;
                    proof {
                        processed = processed.push(p);
                        assert(processed == spec_primes_below(stream.spec_cursor()));
                        assert(spec_events_of(processed, (2 * limit) as u64) =~= Seq::<
                            (u64, u64, bool),
                        >::empty());
                    }
                },
                None => {
                    proof {
                        lemma_two_prime();
                        assert(!spec_is_prime((2int) as nat));
                        assert(false);
                    }
                },
            }
        } else {
            proof {
                assert(spec_primes_below(stream.spec_cursor()) =~= Seq::<u64>::empty());
                assert(spec_primes_below(limit + 1) =~= Seq::<u64>::empty());
            }
        }
        BatchPipeline {
            limit,
            num_bins,
            stream,
            oracle,
            stats,
            p_prev,
            batch_size,
            exhausted: false,
            processed: Ghost(processed),
        }
    }

    /// How many primes have been folded in so far; exposed for progress
    /// reporting.
    pub fn primes_seen(&self) -> (n: u64)
        ensures
            n == self.spec_stats_model().total_primes,
    {
        self.stats.total_primes
    }

    /// Whether the run is complete.
    pub fn is_done(&self) -> (d: bool)
        ensures
            d == self.spec_done(),
    {
        self.exhausted
    }

    /// Pulls one batch from the stream, prefetches the oracle over the
    /// batch's sum span, and folds the batch in sequentially. Returns
    /// whether the run is now complete; once it is, the aggregate equals
    /// the run's pure model, whatever the batch size was.
    pub fn process_next_batch(&mut self) -> (done: bool)
        requires
            old(self).wf(),
        ensures
            final(self).wf(),
            final(self).spec_limit() == old(self).spec_limit(),
            final(self).spec_num_bins() == old(self).spec_num_bins(),
            final(self).spec_gaps() == old(self).spec_gaps(),
            done == final(self).spec_done(),
            done ==> final(self).spec_stats_model() == spec_run_model(
                old(self).spec_limit(),
                old(self).spec_num_bins(),
                old(self).spec_gaps(),
            ),
            !done ==> final(self).spec_stats_model().total_primes >= old(
                self,
            ).spec_stats_model().total_primes + 1,
    {
        if self.exhausted {
            return true;
        }

        // Collect one batch of consecutive primes.
        let mut batch: Vec<u64> = Vec::new();
        let mut ended = false;
        proof {
            assert(self.processed@ + batch@ =~= self.processed@);
        }
        while batch.len() < self.batch_size && !ended
            invariant
                self.stream.wf(),
                self.oracle == old(self).oracle,
                self.stats == old(self).stats,
                self.p_prev == old(self).p_prev,
                self.processed@ == old(self).processed@,
                self.limit == old(self).limit,
                self.num_bins == old(self).num_bins,
                self.batch_size == old(self).batch_size,
                self.exhausted == old(self).exhausted,
                old(self).wf(),
                self.stream.spec_limit() == self.limit,
                batch@.len() <= self.batch_size,
                forall|t: int| 0 <= t < batch@.len() ==> #[trigger] batch@[t] <= self.limit,
                self.processed@ + batch@ == spec_primes_below(self.stream.spec_cursor()),
                ended ==> spec_primes_below(self.stream.spec_cursor()) == spec_primes_below(
                    self.limit + 1,
                ),
            decreases self.batch_size - batch@.len() + (if ended {
                0int
            } else {
                1int
            }),
        {
            let ghost cur0 = self.stream.spec_cursor();
            proof {
                self.stream.lemma_cursor_within();
            }
            let nxt = self.stream.next();
            proof {
                self.stream.lemma_cursor_within();
            }
            match nxt {
                Some(p) => {
                    proof {
                        lemma_primes_below_skip(cur0, p as int);
                        assert(spec_primes_below(p + 1) == spec_primes_below(p as int).push(p));
                        assert(self.processed@ + batch@.push(p) =~= (self.processed@
                            + batch@).push(p));
                    }
                    batch.push(p);
                },
                None => {
                    proof {
                        lemma_primes_below_skip(cur0, self.stream.spec_cursor());
                        lemma_primes_below_skip(cur0, self.limit + 1);
                    }
                    ended = true;
                },
            }
        }

        let ghost stream1 = self.stream;
        // Prefetch the oracle across the batch's span of sum values, then
        // fold the batch in, in stream order.
        if batch.len() > 0 {
            let min_s = self.p_prev * 2;
            let last = batch[batch.len() - 1];
            let max_s = last * 2;
            self.oracle.ensure_range(min_s, max_s);

            let mut i: usize = 0;
            while i < batch.len()
                invariant
                    self.stream == stream1,
                    self.stream.wf(),
                    self.oracle.wf(),
                    self.stats.wf(),
                    1 <= self.limit <= 0x1000_0000_0000_0000u64,
                    self.stream.spec_limit() == self.limit,
                    self.oracle.spec_limit() == 2 * self.limit,
                    1 <= self.batch_size,
                    1 <= self.num_bins <= 0xFFFF_FFFFusize,
                    !self.exhausted,
                    self.limit == old(self).limit,
                    self.num_bins == old(self).num_bins,
                    self.batch_size == old(self).batch_size,
                    self.stats.target_gaps@ == old(self).stats.target_gaps@,
                    i <= batch@.len(),
                    forall|t: int| 0 <= t < batch@.len() ==> #[trigger] batch@[t] <= self.limit,
                    self.processed@ + batch@.subrange(i as int, batch@.len() as int)
                        == spec_primes_below(self.stream.spec_cursor()),
                    ended ==> spec_primes_below(self.stream.spec_cursor()) == spec_primes_below(
                        self.limit + 1,
                    ),
                    self.stats.model() == spec_partial_run(
                        self.limit,
                        self.num_bins as int,
                        self.stats.target_gaps@,
                        self.processed@,
                    ),
                    self.stats.total_primes == self.processed@.len(),
                    self.p_prev == (if self.processed@.len() == 0 {
                        2u64
                    } else {
                        self.processed@[self.processed@.len() - 1]
                    }),
                    self.processed@.len() == 0 ==> spec_primes_below(self.limit + 1).len() == 0,
                    self.p_prev <= self.limit || self.p_prev == 2,
                decreases batch@.len() - i,
            {
                let p = batch[i];
                let ghost ps0 = self.processed@;
                let ghost all = self.processed@ + batch@.subrange(i as int, batch@.len() as int);
                proof {
                    self.stream.lemma_cursor_within();
                    lemma_primes_below_facts(self.stream.spec_cursor());
                    assert(all[ps0.len() as int] == p);
                    assert(spec_is_prime(p as nat));
                    if ps0.len() > 0 {
                        assert(all[ps0.len() - 1] == self.p_prev);
                        assert(self.p_prev < p);
                    } else {
                        lemma_primes_below_contains(self.limit + 1, p);
                        assert(spec_primes_below(self.limit + 1).len() > 0);
                        assert(false);
                    }
                    self.stream.lemma_cursor_within();
                    lemma_primes_below_len(self.stream.spec_cursor());
                    assert(self.processed@.len() <= spec_primes_below(
                        self.stream.spec_cursor(),
                    ).len());
                    assert(self.stats.total_primes < u64::MAX);
                }
                self.stats.record(p, self.p_prev, &self.oracle);
                proof {
                    let gaps = self.stats.target_gaps@;
                    let ol = (2 * self.limit) as u64;
                    assert(ol == self.oracle.spec_limit());
                    let sp = spec_s_prime(p, self.p_prev, ol);
                    let ps1 = ps0.push(p);
                    assert(spec_events_of(ps1, ol) =~= spec_events_of(ps0, ol).push(
                        (p, self.p_prev, sp),
                    ));
                    lemma_fold_snoc(
                        spec_seed_model(
                            spec_init_model(self.limit, self.num_bins as int, gaps),
                            ps0[0],
                        ),
                        spec_events_of(ps0, ol),
                        (p, self.p_prev, sp),
                    );
                    assert(ps1[0] == ps0[0]);
                    self.processed@ = ps1;
                    assert(self.processed@ + batch@.subrange(i + 1, batch@.len() as int) =~= all);
                }
                self.p_prev = p;
                i = i + 1;
            }
        }
        proof {
            assert(self.processed@ + batch@.subrange(batch@.len() as int, batch@.len() as int)
                =~= self.processed@);
        }

        if ended {
            self.exhausted = true;
            return true;
        }
        false
    }

    /// Hands the finished aggregate out; after a completed run it is the
    /// run's pure model.
    pub fn into_statistics(self) -> (s: Statistics)
        requires
            self.wf(),
        ensures
            s.wf(),
            s.model() == self.spec_stats_model(),
            self.spec_done() ==> s.model() == spec_run_model(
                self.spec_limit(),
                self.spec_num_bins(),
                self.spec_gaps(),
            ),
    {
        self.stats
    }
}

} // verus!
