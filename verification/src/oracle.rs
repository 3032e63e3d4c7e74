//! The primality oracle: a thread-safe, random-access "is `n` prime?"
//! predicate over `[0, limit]`.
//!
//! Small queries are answered from the immutable base table; larger ones
//! from a bounded first-in-first-out cache of aligned segment masks behind a
//! reader-writer lock, with double-checked acquisition so a segment is only
//! computed once per contending group. The lock's invariant pins every
//! cached mask to exact primality bits, so an answer is correct no matter
//! how the queries interleave and which entries eviction has removed.

use crate::base::BasePrimeTable;
use crate::mask::SegmentMask;
use crate::primes::{isqrt, spec_is_prime};
use crate::segment::sieve_segment;
use crate::sieve::spec_limit_cap;
use std::collections::VecDeque;
use vstd::prelude::*;
use vstd::rwlock::{RwLock, RwLockPredicate};

verus! {

/// What may sit in the segment cache: at most `cap` entries, each an
/// aligned start with a mask one segment wide holding — for every value
/// within the limit — exact primality bits.
pub struct CachePred {
    pub width: u64,
    pub limit: u64,
    pub cap: int,
}

impl RwLockPredicate<VecDeque<(u64, SegmentMask)>> for CachePred {
    open spec fn inv(self, v: VecDeque<(u64, SegmentMask)>) -> bool {
        &&& v@.len() <= self.cap
        &&& forall|i: int|
            0 <= i < v@.len() ==> {
                &&& (#[trigger] v@[i]).1.wf()
                &&& v@[i].1.spec_len() == self.width
                &&& (v@[i].0 as int) % (self.width as int) == 0
                &&& forall|k: int|
                    0 <= k < self.width && v@[i].0 + k <= self.limit ==> v@[i].1.bit(k)
                        == !spec_is_prime((v@[i].0 + k) as nat)
            }
    }
}

/// Random-access primality over `[0, limit]`, shareable across workers with
/// no caller-side serialization.
pub struct PrimalityChecker {
    limit: u64,
    sqrt_limit: u64,
    base: BasePrimeTable,
    cached_segments: RwLock<VecDeque<(u64, SegmentMask)>, CachePred>,
    cache_size: usize,
    segment_size_bits: u64,
}

impl PrimalityChecker {
    /// The largest value the oracle answers about; above it the answer is a
    /// defined `false`.
    pub closed spec fn spec_limit(&self) -> u64 {
        self.limit
    }

    /// Internal consistency: the base table covers the square root of the
    /// limit, and the cache's lock carries the exact-bits invariant.
    pub closed spec fn wf(&self) -> bool {
        &&& self.base.wf()
        &&& self.base.spec_bound() == self.sqrt_limit
        &&& 1 <= self.limit <= spec_limit_cap()
        &&& (self.sqrt_limit as int) * (self.sqrt_limit as int) <= self.limit as int
        &&& (self.sqrt_limit as int + 1) * (self.sqrt_limit as int + 1) > self.limit as int
        &&& 8 <= self.segment_size_bits <= 0xFFFF_FFF0u64
        &&& self.cache_size >= 1
        &&& self.cached_segments.pred() == (CachePred {
            width: self.segment_size_bits,
            limit: self.limit,
            cap: self.cache_size as int,
        })
    }

    /// Builds the oracle for queries up to `limit`.
    pub fn new(limit: u64, segment_size_bytes: usize) -> (c: PrimalityChecker)
        requires
            1 <= limit <= spec_limit_cap(),
            1 <= segment_size_bytes <= 0x1FF_FFFF,
        ensures
            c.wf(),
            c.spec_limit() == limit,
    {
        let sqrt_limit = isqrt(limit);
        proof {
            assert(sqrt_limit <= 0xFFFF_FFFEu64) by (nonlinear_arith)
                requires
                    (sqrt_limit as int) * (sqrt_limit as int) <= limit as int,
                    limit <= 0x2000_0000_0000_0000u64,
            ;
        }
        let base = BasePrimeTable::build(sqrt_limit);
        let segment_size_bits: u64 = (segment_size_bytes * 8) as u64;
        let ghost pred = CachePred { width: segment_size_bits, limit, cap: 4 };
        let empty: VecDeque<(u64, SegmentMask)> = VecDeque::new();
        let cached_segments = RwLock::new(empty, Ghost(pred));
        PrimalityChecker {
            limit,
            sqrt_limit,
            base,
            cached_segments,
            cache_size: 4,
            segment_size_bits,
        }
    }

    /// Scans the cache for the segment that starts at `s`.
    fn find_segment(cache: &VecDeque<(u64, SegmentMask)>, s: u64) -> (r: Option<usize>)
        ensures
            match r {
                Some(i) => i < cache@.len() && cache@[i as int].0 == s,
                None => forall|i: int| 0 <= i < cache@.len() ==> (#[trigger] cache@[i]).0 != s,
            },
    {
        let mut i: usize = 0;
        while i < cache.len()
            invariant
                i <= cache@.len(),
                forall|t: int| 0 <= t < i ==> (#[trigger] cache@[t]).0 != s,
            decreases cache@.len() - i,
        {
            if cache[i].0 == s {
                return Some(i);
            }
            i = i + 1;
        }
        None
    }

    /// Generates the aligned segment that starts at `s`, with exact
    /// primality bits for every covered value within the limit.
    fn compute_segment(&self, s: u64) -> (seg: SegmentMask)
        requires
            self.wf(),
            (s as int) % (self.segment_size_bits as int) == 0,
            s <= self.spec_limit(),
        ensures
            seg.wf(),
            seg.spec_len() == self.segment_size_bits as int,
            forall|k: int|
                0 <= k < self.segment_size_bits as int && s + k <= self.spec_limit()
                    ==> seg.bit(k) == !spec_is_prime((s + k) as nat),
    {
        proof {
            self.base.lemma_seeds_wf();
            if s != 0 {
                vstd::arithmetic::div_mod::lemma_fundamental_div_mod(
                    s as int,
                    self.segment_size_bits as int,
                );
                assert(s as int == (self.segment_size_bits as int) * (s as int
                    / self.segment_size_bits as int));
                assert(s >= self.segment_size_bits) by (nonlinear_arith)
                    requires
                        s as int == (self.segment_size_bits as int) * (s as int
                            / self.segment_size_bits as int),
                        s > 0,
                        self.segment_size_bits >= 8,
                ;
            }
        }
        let segment_end: u64 = s + self.segment_size_bits;
        let seg = sieve_segment(segment_end - self.segment_size_bits, segment_end, self.base.seed_list());
        proof {
            assert forall|k: int|
                0 <= k < self.segment_size_bits as int && s + k <= self.spec_limit() implies seg.bit(
                k,
            ) == !spec_is_prime((s + k) as nat) by {
                assert((s + k) as int <= self.limit as int);
                assert(((s + k) as int) < (self.sqrt_limit as int + 1) * (self.sqrt_limit as int
                    + 1));
                self.base.lemma_mask_bit_iff((s + k) as nat);
            }
        }
        seg
    }

    /// Answers from a cached or freshly computed mask bit.
    ///
    /// The answer depends only on `n` and the limit — never on what the
    /// cache happens to hold — so concurrent queries through the shared
    /// reader-writer lock all see the same results as a sequential run.
    pub fn is_prime(&self, n: u64) -> (r: bool)
        requires
            self.wf(),
        ensures
            r == (n <= self.spec_limit() && spec_is_prime(n as nat)),
    {
        if n > self.limit {
            return false;
        }
        if n <= self.sqrt_limit {
            return self.base.is_prime_at(n);
        }
        proof {
            vstd::arithmetic::div_mod::lemma_fundamental_div_mod(
                n as int,
                self.segment_size_bits as int,
            );
            vstd::arithmetic::div_mod::lemma_mod_division_less_than_divisor(
                n as int,
                self.segment_size_bits as int,
            );
            vstd::arithmetic::div_mod::lemma_mod_multiples_basic(
                n as int / self.segment_size_bits as int,
                self.segment_size_bits as int,
            );
            assert((n as int / self.segment_size_bits as int) * (self.segment_size_bits as int)
                == (self.segment_size_bits as int) * (n as int
                / self.segment_size_bits as int)) by (nonlinear_arith);
        }
        let segment_start = (n / self.segment_size_bits) * self.segment_size_bits;
        proof {
            assert(segment_start <= n);
            assert(n < segment_start + self.segment_size_bits);
            assert((segment_start as int) % (self.segment_size_bits as int) == 0);
        }
        let offset = (n - segment_start) as usize;

        // Cache hit under a shared read lock.
        let read_handle = self.cached_segments.acquire_read();
        let hit = match Self::find_segment(read_handle.borrow(), segment_start) {
            Some(i) => {
                let cache = read_handle.borrow();
                let answer = !cache[i].1.get_bit(offset);
                Some(answer)
            },
            None => None,
        };
        read_handle.release_read();
        match hit {
            Some(answer) => {
                return answer;
            },
            None => {},
        }

        // Miss: take the write lock and re-check, since another thread may
        // have filled the same segment while this one waited.
        let (mut cache, write_handle) = self.cached_segments.acquire_write();
        match Self::find_segment(&cache, segment_start) {
            Some(i) => {
                let answer = !cache[i].1.get_bit(offset);
                write_handle.release_write(cache);
                answer
            },
            None => {
                let seg = self.compute_segment(segment_start);
                let answer = !seg.get_bit(offset);
                if cache.len() >= self.cache_size {
                    cache.pop_front();
                }
                cache.push_back((segment_start, seg));
                write_handle.release_write(cache);
                answer
            },
        }
    }

    /// Precomputes and caches every segment overlapping `[min_n, max_n]`
    /// ahead of a batch of queries, amortizing lock acquisition.
    pub fn ensure_range(&self, min_n: u64, max_n: u64)
        requires
            self.wf(),
    {
        proof {
            vstd::arithmetic::div_mod::lemma_fundamental_div_mod(
                min_n as int,
                self.segment_size_bits as int,
            );
            vstd::arithmetic::div_mod::lemma_mod_division_less_than_divisor(
                min_n as int,
                self.segment_size_bits as int,
            );
            vstd::arithmetic::div_mod::lemma_mod_multiples_basic(
                min_n as int / self.segment_size_bits as int,
                self.segment_size_bits as int,
            );
            assert((min_n as int / self.segment_size_bits as int) * (
            self.segment_size_bits as int) == (self.segment_size_bits as int) * (min_n as int
                / self.segment_size_bits as int)) by (nonlinear_arith);
        }
        let mut s = (min_n / self.segment_size_bits) * self.segment_size_bits;
        proof {
            assert((s as int) % (self.segment_size_bits as int) == 0);
        }
        while s <= max_n && s <= self.limit
            invariant
                self.wf(),
                (s as int) % (self.segment_size_bits as int) == 0,
            decreases self.limit as int + self.segment_size_bits as int - s,
        {
            let (mut cache, write_handle) = self.cached_segments.acquire_write();
            match Self::find_segment(&cache, s) {
                Some(_) => {
                    write_handle.release_write(cache);
                },
                None => {
                    let seg = self.compute_segment(s);
                    if cache.len() >= self.cache_size {
                        cache.pop_front();
                    }
                    cache.push_back((s, seg));
                    write_handle.release_write(cache);
                },
            }
            let next = s + self.segment_size_bits;
            proof {
                vstd::arithmetic::div_mod::lemma_mod_add_multiples_vanish(
                    s as int,
                    self.segment_size_bits as int,
                );
            }
            s = next;
        }
    }
}

} // verus!
