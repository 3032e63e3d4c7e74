//! The prime stream: a forward-only producer of the primes up to a limit.
//!
//! It first replays the base prime table, then marches fixed-width windows
//! over the rest of the range, generating each window's composite mask with
//! the segment generator and scanning it for unset bits.

use crate::base::BasePrimeTable;
use crate::mask::SegmentMask;
use crate::primes::{isqrt, spec_is_prime};
use crate::segment::sieve_segment;
use vstd::prelude::*;

verus! {

/// Largest stream limit the iterator accepts; keeps every derived quantity
/// comfortably inside 64 bits.
pub open spec fn spec_limit_cap() -> u64 {
    0x2000_0000_0000_0000u64
}

enum SieveState {
    /// Replaying the base prime table at this index.
    Base(usize),
    /// Scanning the mask of the window that begins at `segment_start`.
    Segmented { segment_start: u64, segment: SegmentMask, segment_index: usize },
}

/// A forward-only, strictly ascending stream of all primes up to `limit`.
pub struct PrimeIterator {
    limit: u64,
    sqrt_limit: u64,
    base: BasePrimeTable,
    sieve_state: SieveState,
    segment_size_bits: u64,
}

impl PrimeIterator {
    /// The stream's upper bound.
    pub closed spec fn spec_limit(&self) -> u64 {
        self.limit
    }

    /// The next candidate: every prime below it has been produced, every
    /// prime from it on is still to come.
    pub closed spec fn spec_cursor(&self) -> int {
        match self.sieve_state {
            SieveState::Base(idx) => if idx == 0 {
                0
            } else {
                self.base.spec_primes()[idx - 1] + 1
            },
            SieveState::Segmented { segment_start, segment: _, segment_index } => segment_start
                + segment_index,
        }
    }

    /// End of the window that begins at `s`: the window is cut short at the
    /// limit.
    spec fn spec_window_end(&self, s: u64) -> int {
        if s + self.segment_size_bits <= self.limit {
            s + self.segment_size_bits
        } else {
            self.limit + 1
        }
    }

    /// Internal consistency: the base table matches the limit's square root,
    /// and any current window mask holds exact primality bits.
    pub closed spec fn wf(&self) -> bool {
        &&& self.base.wf()
        &&& self.base.spec_bound() == self.sqrt_limit
        &&& 1 <= self.limit <= spec_limit_cap()
        &&& (self.sqrt_limit as int) * (self.sqrt_limit as int) <= self.limit as int
        &&& (self.sqrt_limit as int + 1) * (self.sqrt_limit as int + 1) > self.limit as int
        &&& 8 <= self.segment_size_bits <= 0xFFFF_FFF0u64
        &&& match self.sieve_state {
            SieveState::Base(idx) => idx <= self.base.spec_primes().len(),
            SieveState::Segmented { segment_start, segment, segment_index } => {
                &&& self.sqrt_limit + 1 <= segment_start <= self.limit + 1
                &&& segment.wf()
                &&& segment_index <= segment.spec_len()
                &&& segment.spec_len() == self.spec_window_end(segment_start) - segment_start
                &&& forall|k: int|
                    0 <= k < segment.spec_len() ==> segment.bit(k) == !spec_is_prime(
                        (segment_start + k) as nat,
                    )
            },
        }
    }

    /// The cursor never runs past the end of the stream's range.
    pub proof fn lemma_cursor_within(&self)
        requires
            self.wf(),
        ensures
            0 <= self.spec_cursor() <= self.spec_limit() + 1,
    {
        assert(self.sqrt_limit <= self.limit) by (nonlinear_arith)
            requires
                (self.sqrt_limit as int) * (self.sqrt_limit as int) <= self.limit as int,
                self.sqrt_limit >= 0,
                self.limit >= 1,
        ;
        match self.sieve_state {
            SieveState::Base(idx) => {
                if idx > 0 {
                    self.base.lemma_primes_facts();
                    assert(self.base.spec_primes()[idx - 1] <= self.sqrt_limit);
                }
            },
            SieveState::Segmented { segment_start, segment, segment_index } => {
                assert(segment_index <= segment.spec_len());
            },
        }
    }

    /// Builds the stream: sieves the base primes up to the square root of
    /// `limit` and starts replaying them.
    pub fn new(limit: u64, segment_size_bytes: usize) -> (it: PrimeIterator)
        requires
            1 <= limit <= spec_limit_cap(),
            1 <= segment_size_bytes <= 0x1FF_FFFF,
        ensures
            it.wf(),
            it.spec_limit() == limit,
            it.spec_cursor() == 0,
    {
        let sqrt_limit = isqrt(limit);
        proof {
            assert(sqrt_limit <= 0xFFFF_FFFEu64) by (nonlinear_arith)
                requires
                    (sqrt_limit as int) * (sqrt_limit as int) <= limit as int,
                    limit <= 0x2000_0000_0000_0000u64,
            ;
        }
        let base = BasePrimeTable::build(sqrt_limit);
        PrimeIterator {
            limit,
            sqrt_limit,
            base,
            sieve_state: SieveState::Base(0),
            segment_size_bits: (segment_size_bytes * 8) as u64,
        }
    }

    /// Produces the next prime: the smallest prime at or above the cursor,
    /// if one exists within the limit.
    pub fn next(&mut self) -> (r: Option<u64>)
        requires
            old(self).wf(),
        ensures
            final(self).wf(),
            final(self).spec_limit() == old(self).spec_limit(),
            old(self).spec_cursor() <= final(self).spec_cursor(),
            match r {
                Some(p) => {
                    &&& spec_is_prime(p as nat)
                    &&& old(self).spec_cursor() <= p <= old(self).spec_limit()
                    &&& forall|q: int|
                        old(self).spec_cursor() <= q < p ==> !#[trigger] spec_is_prime(q as nat)
                    &&& final(self).spec_cursor() == p + 1
                },
                None => forall|q: int|
                    old(self).spec_cursor() <= q <= old(self).spec_limit()
                        ==> !#[trigger] spec_is_prime(q as nat),
            },
    {
        loop
            invariant
                self.wf(),
                self.limit == old(self).limit,
                self.sqrt_limit == old(self).sqrt_limit,
                self.segment_size_bits == old(self).segment_size_bits,
                old(self).spec_cursor() <= self.spec_cursor(),
                forall|q: int|
                    old(self).spec_cursor() <= q < self.spec_cursor() ==> !#[trigger] spec_is_prime(
                        q as nat,
                    ),
            decreases (match self.sieve_state {
                SieveState::Base(_) => 1int,
                SieveState::Segmented { .. } => 0int,
            }), (match self.sieve_state {
                SieveState::Base(_) => 0int,
                SieveState::Segmented { segment_start, .. } => self.limit as int + 1
                    - segment_start,
            }),
        {
            let ghost cur = self.spec_cursor();
            match &mut self.sieve_state {
                SieveState::Base(index) => {
                    if *index < self.base.prime_count() {
                        let prime = self.base.prime_at(*index);
                        proof {
                            let idx = *index as int;
                            self.base.lemma_primes_facts();
                            assert(spec_is_prime(prime as nat));
                            assert(self.sqrt_limit <= self.limit) by (nonlinear_arith)
                                requires
                                    (self.sqrt_limit as int) * (self.sqrt_limit as int)
                                        <= self.limit as int,
                                    self.sqrt_limit >= 0,
                                    self.limit >= 1,
                            ;
                            assert forall|q: int|
                                cur <= q < prime implies !#[trigger] spec_is_prime(q as nat) by {
                                if idx == 0 {
                                    self.base.lemma_no_prime_below_first(q as nat);
                                } else {
                                    self.base.lemma_adjacent_gap_free(idx - 1, q as nat);
                                }
                            }
                        }
                        *index = *index + 1;
                        if prime > self.limit {
                            return None;
                        }
                        return Some(prime);
                    } else {
                        proof {
                            self.base.lemma_primes_facts();
                            assert(self.sqrt_limit <= 0xFFFF_FFFEu64);
                        }
                        let segment_start = self.sqrt_limit + 1;
                        proof {
                            assert(self.sqrt_limit >= 1) by (nonlinear_arith)
                                requires
                                    (self.sqrt_limit as int + 1) * (self.sqrt_limit as int + 1)
                                        > self.limit as int,
                                    self.limit >= 1,
                                    self.sqrt_limit >= 0,
                            ;
                            assert(self.sqrt_limit <= self.limit) by (nonlinear_arith)
                                requires
                                    (self.sqrt_limit as int) * (self.sqrt_limit as int)
                                        <= self.limit as int,
                                    self.sqrt_limit >= 0,
                                    self.limit >= 1,
                            ;
                            // Every prime skipped over here would sit in the
                            // base table's range.
                            assert forall|q: int|
                                cur <= q < segment_start implies !#[trigger] spec_is_prime(
                                q as nat,
                            ) by {
                                let len = self.base.spec_primes().len() as int;
                                if len == 0 {
                                    self.base.lemma_no_prime_below_first(q as nat);
                                } else {
                                    self.base.lemma_no_prime_above_last(q as nat);
                                }
                            }
                        }
                        let segment_end: u64 = if segment_start <= self.limit && self.limit
                            - segment_start >= self.segment_size_bits {
                            segment_start + self.segment_size_bits
                        } else {
                            self.limit + 1
                        };
                        proof {
                            self.base.lemma_seeds_wf();
                        }
                        let segment = sieve_segment(segment_start, segment_end, self.base.seed_list());
                        proof {
                            assert forall|k: int|
                                0 <= k < segment.spec_len() implies segment.bit(k)
                                == !spec_is_prime((segment_start + k) as nat) by {
                                self.base.lemma_mask_bit_iff((segment_start + k) as nat);
                            }
                        }
                        self.sieve_state = SieveState::Segmented {
                            segment_start,
                            segment,
                            segment_index: 0,
                        };
                    }
                },
                SieveState::Segmented { segment_start, segment, segment_index } => {
                    let s: u64 = *segment_start;
                    let ghost ci0 = *segment_index as int;
                    let found = segment.first_unset_from(*segment_index);
                    match found {
                        Some(k) => {
                            let prime: u64 = s + (k as u64);
                            proof {
                                assert(cur == s + ci0);
                                assert forall|q: int|
                                    cur <= q < prime implies !#[trigger] spec_is_prime(
                                    q as nat,
                                ) by {
                                    assert(segment.bit(q - s));
                                }
                                assert(!segment.bit(k as int));
                            }
                            *segment_index = k + 1;
                            return Some(prime);
                        },
                        None => {
                            proof {
                                assert(cur == s + ci0);
                                assert forall|q: int|
                                    cur <= q < s + segment.spec_len() implies !#[trigger] spec_is_prime(
                                    q as nat,
                                ) by {
                                    assert(segment.bit(q - s));
                                }
                            }
                            *segment_index = segment.bit_len();
                            if s > self.limit || self.limit - s < self.segment_size_bits {
                                return None;
                            }
                            let next_start: u64 = s + self.segment_size_bits;
                            let segment_end: u64 = if self.limit - next_start
                                >= self.segment_size_bits {
                                next_start + self.segment_size_bits
                            } else {
                                self.limit + 1
                            };
                            proof {
                                self.base.lemma_seeds_wf();
                            }
                            let fresh = sieve_segment(next_start, segment_end, self.base.seed_list());
                            proof {
                                assert forall|k: int|
                                    0 <= k < fresh.spec_len() implies fresh.bit(k)
                                    == !spec_is_prime((next_start + k) as nat) by {
                                    self.base.lemma_mask_bit_iff((next_start + k) as nat);
                                }
                            }
                            *segment_start = next_start;
                            *segment = fresh;
                            *segment_index = 0;
                        },
                    }
                },
            }
        }
    }
}

} // verus!
