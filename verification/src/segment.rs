//! The segment generator: a pure function from a half-open numeric range and
//! the base-prime seed list to a bit-packed composite mask for that range.
//!
//! The flat word storage is split into disjoint chunks; every chunk computes,
//! for each base prime, the chunk-local offset of the first multiple to
//! strike, and marks only inside its own chunk, so the chunks can be filled
//! in parallel without locking. The parallel fan-out is the one trusted
//! call; the marking itself is verified.

use crate::mask::{lemma_zero_word_bit, set_mask_bit, spec_seq_bit, SegmentMask};
use crate::primes::{spec_divides, spec_struck_by};
use rayon::iter::{IntoParallelIterator, ParallelIterator};
use vstd::arithmetic::div_mod::{
    lemma_add_mod_noop, lemma_fundamental_div_mod, lemma_fundamental_div_mod_converse,
    lemma_mod_multiples_basic, lemma_small_mod,
};
use vstd::prelude::*;

verus! {

/// Every seed prime is at least 2 and small enough that its square fits in
/// a 64-bit word.
pub open spec fn spec_seeds_wf(ps: Seq<u64>) -> bool {
    forall|i: int| 0 <= i < ps.len() ==> 2 <= #[trigger] ps[i] <= 0xFFFF_FFFFu64
}

/// `n` is struck by one of the seed primes.
pub open spec fn spec_struck_by_any(n: nat, ps: Seq<u64>) -> bool {
    exists|i: int| 0 <= i < ps.len() && spec_struck_by(n, #[trigger] ps[i] as nat)
}

/// The intended value of the mask bit for `n`: 0 and 1 are forced composite,
/// everything else is composite exactly when a seed prime strikes it.
pub open spec fn spec_mask_bit(n: nat, ps: Seq<u64>) -> bool {
    n <= 1 || spec_struck_by_any(n, ps)
}

/// Number of words chunk `i` owns when `total_words` words are split into
/// chunks of `chunk_words` (the last chunk may be shorter).
pub open spec fn spec_chunk_len(i: int, chunk_words: int, total_words: int) -> int {
    if (i + 1) * chunk_words <= total_words {
        chunk_words
    } else {
        total_words - i * chunk_words
    }
}

/// Chunk `i` holds exactly its share of the segment's strike mask.
pub open spec fn spec_chunk_ok(
    chunk: Seq<u64>,
    i: int,
    chunk_words: int,
    total_words: int,
    start: u64,
    ps: Seq<u64>,
) -> bool {
    &&& chunk.len() == spec_chunk_len(i, chunk_words, total_words)
    &&& forall|j: int|
        0 <= j < chunk.len() * 64 ==> spec_seq_bit(chunk, j) == spec_struck_by_any(
            (start + i * chunk_words * 64 + j) as nat,
            ps,
        )
}

/// Where the multiples of `p` at least `max(p * p, n0)` sit, as offsets from
/// `n0`: they are exactly the offsets `first + t * p`.
proof fn lemma_strike_pattern(n0: u64, p: u64, first: u64)
    requires
        2 <= p <= 0xFFFF_FFFFu64,
        n0 < p * p ==> first == p * p - n0,
        n0 >= p * p ==> first == (if n0 % p == 0 {
            0u64
        } else {
            (p - n0 % p) as u64
        }),
    ensures
        forall|k: int|
            0 <= k ==> (#[trigger] spec_struck_by((n0 + k) as nat, p as nat) <==> (first <= k && (
            k - first) % (p as int) == 0)),
{
    let pi = p as int;
    lemma_small_mod(0, p as nat);
    assert(0int % pi == 0);
    // n0 + first is a multiple of p.
    if n0 < p * p {
        lemma_mod_multiples_basic(pi, pi);
        assert(n0 + first == pi * pi);
        assert((pi * pi) % pi == 0);
        assert((n0 + first) % pi == 0);
    } else {
        let q = n0 as int / pi;
        lemma_fundamental_div_mod(n0 as int, pi);
        assert(n0 as int == pi * q + n0 as int % pi);
        if n0 % p == 0 {
            lemma_mod_multiples_basic(q, pi);
            assert(q * pi == pi * q) by (nonlinear_arith);
            assert((n0 + first) % pi == 0);
        } else {
            lemma_mod_multiples_basic(q + 1, pi);
            assert((q + 1) * pi == pi * q + pi) by (nonlinear_arith);
            assert(n0 + first == (q + 1) * pi);
            assert((n0 + first) % pi == 0);
        }
    }
    // n0 + first is at least p * p.
    assert(n0 + first >= p * p);
    assert forall|k: int|
        0 <= k implies (#[trigger] spec_struck_by((n0 + k) as nat, p as nat) <==> (first <= k && (
        k - first) % pi == 0)) by {
        let n = n0 + k;
        if first <= k && (k - first) % pi == 0 {
            lemma_add_mod_noop(n0 + first, k - first, pi);
            assert(((n0 + first) % pi + (k - first) % pi) % pi == (n0 + first + (k - first)) % pi);
            assert((0int + 0int) % pi == 0);
            assert(n % pi == 0);
            assert(n >= p * p);
            assert((n as nat) % (p as nat) == 0);
            assert(spec_divides(p as nat, n as nat));
        } else {
            if spec_struck_by(n as nat, p as nat) {
                assert(n % pi == 0);
                assert(n >= p * p);
                if k < first {
                    if n0 < p * p {
                        assert(n < p * p);
                        assert(false);
                    } else {
                        let rem = n0 % p;
                        assert(1 <= rem < p);
                        assert(first == p - rem);
                        lemma_add_mod_noop(n0 as int, k, pi);
                        lemma_small_mod(k as nat, p as nat);
                        assert((rem + k) % pi == n % pi);
                        assert(rem + k < pi);
                        lemma_small_mod((rem + k) as nat, p as nat);
                        assert((rem + k) % pi == rem + k);
                        assert(false);
                    }
                }
                // and k - first is a multiple of p.
                lemma_add_mod_noop(n0 + first, k - first, pi);
                assert((0int + (k - first) % pi) % pi == n % pi);
                vstd::arithmetic::div_mod::lemma_mod_division_less_than_divisor(k - first, pi);
                lemma_small_mod(((k - first) % pi) as nat, p as nat);
                assert((k - first) % pi == 0);
            }
        }
    }
}

/// Fills chunk `i` of a segment's strike mask: every multiple of every seed
/// prime that falls in the chunk and is at least the prime's square gets its
/// bit set, and nothing else does.
pub(crate) fn sieve_chunk(
    i: usize,
    chunk_words: usize,
    total_words: usize,
    start: u64,
    base_primes: &Vec<u64>,
) -> (r: Vec<u64>)
    requires
        chunk_words >= 1,
        (i as int) * (chunk_words as int) < total_words as int,
        start as int + (total_words as int) * 64 <= u64::MAX as int,
        (total_words as int) * 64 + 0x1_0000_0000 <= u64::MAX as int,
        spec_seeds_wf(base_primes@),
    ensures
        spec_chunk_ok(
            r@,
            i as int,
            chunk_words as int,
            total_words as int,
            start,
            base_primes@,
        ),
{
    let base: usize = i * chunk_words;
    let cw: usize = if total_words - base < chunk_words {
        total_words - base
    } else {
        chunk_words
    };
    assert(cw as int == spec_chunk_len(i as int, chunk_words as int, total_words as int))
        by (nonlinear_arith)
        requires
            chunk_words >= 1,
            base as int == (i as int) * (chunk_words as int),
            (base as int) < (total_words as int),
            cw as int == if total_words as int - base < chunk_words as int {
                total_words as int - base
            } else {
                chunk_words as int
            },
    ;

    let mut words: Vec<u64> = Vec::new();
    while words.len() < cw
        invariant
            words@.len() <= cw,
            forall|t: int| 0 <= t < words@.len() ==> words@[t] == 0u64,
        decreases cw - words@.len(),
    {
        words.push(0u64);
    }
    proof {
        assert forall|j: int| 0 <= j < cw * 64 implies !spec_seq_bit(words@, j) by {
            lemma_fundamental_div_mod(j, 64);
            lemma_zero_word_bit((j % 64) as u64);
        }
    }

    let n0: u64 = start + (base as u64) * 64;
    let chunk_bits: u64 = (cw as u64) * 64;
    assert(n0 + chunk_bits <= start + (total_words as u64) * 64);

    let mut pi: usize = 0;
    while pi < base_primes.len()
        invariant
            words@.len() == cw,
            chunk_bits == (cw as int) * 64,
            n0 as int + chunk_bits as int <= u64::MAX as int,
            chunk_bits as int + 0x1_0000_0000 <= u64::MAX as int,
            spec_seeds_wf(base_primes@),
            pi <= base_primes@.len(),
            forall|j: int|
                0 <= j < cw * 64 ==> spec_seq_bit(words@, j) == (exists|t: int|
                    0 <= t < pi && spec_struck_by(
                        (n0 + j) as nat,
                        #[trigger] base_primes@[t] as nat,
                    )),
        decreases base_primes@.len() - pi,
    {
        let p = base_primes[pi];
        assert(p as int * p as int <= u64::MAX as int) by (nonlinear_arith)
            requires
                p <= 0xFFFF_FFFFu64,
        ;
        let p_sq = p * p;
        let first: u64 = if n0 < p_sq {
            p_sq - n0
        } else {
            let rem = n0 % p;
            if rem == 0 {
                0u64
            } else {
                p - rem
            }
        };
        proof {
            lemma_strike_pattern(n0, p, first);
            lemma_small_mod(0, p as nat);
            assert((first - first) % (p as int) == 0);
        }

        let ghost words0 = words@;
        let mut j: u64 = first;
        while j < chunk_bits
            invariant
                words@.len() == cw,
                chunk_bits == (cw as int) * 64,
                n0 as int + chunk_bits as int <= u64::MAX as int,
                chunk_bits as int + 0x1_0000_0000 <= u64::MAX as int,
                2 <= p <= 0xFFFF_FFFFu64,
                first <= j,
                (j - first) % (p as int) == 0,
                forall|k: int|
                    0 <= k ==> (#[trigger] spec_struck_by((n0 + k) as nat, p as nat) <==> (first
                        <= k && (k - first) % (p as int) == 0)),
                forall|k: int|
                    0 <= k < cw * 64 ==> spec_seq_bit(words@, k) == (spec_seq_bit(words0, k) || (k
                        < j && spec_struck_by((n0 + k) as nat, p as nat))),
            decreases chunk_bits + p - j,
        {
            let ghost words_pre = words@;
            set_mask_bit(&mut words, j);
            proof {
                assert(spec_struck_by((n0 + j) as nat, p as nat));
                lemma_small_mod(0, p as nat);
                lemma_mod_multiples_basic(1int, p as int);
                assert((p as int) % (p as int) == 0);
                lemma_add_mod_noop(j - first, p as int, p as int);
                assert(((j - first) % (p as int) + (p as int) % (p as int)) % (p as int) == (j
                    - first + p) % (p as int));
                assert((j + p - first) % (p as int) == 0);
                assert forall|k: int|
                    0 <= k < cw * 64 implies spec_seq_bit(words@, k) == (spec_seq_bit(words0, k)
                    || (k < j + p && spec_struck_by((n0 + k) as nat, p as nat))) by {
                    assert(spec_seq_bit(words_pre, k) == (spec_seq_bit(words0, k) || (k < j
                        && spec_struck_by((n0 + k) as nat, p as nat))));
                    assert(spec_seq_bit(words@, k) == (k == j as int || spec_seq_bit(
                        words_pre,
                        k,
                    )));
                    if k != j as int && j < k < j + p {
                        // k misses the residue class: k - first is strictly
                        // between consecutive multiples of p.
                        if (k - first) % (p as int) == 0 {
                            lemma_fundamental_div_mod(j - first, p as int);
                            lemma_fundamental_div_mod(k - first, p as int);
                            let qj = (j - first) / (p as int);
                            let qk = (k - first) / (p as int);
                            assert(false) by (nonlinear_arith)
                                requires
                                    j - first == (p as int) * qj,
                                    k - first == (p as int) * qk,
                                    (j as int) < k < j + p,
                                    p >= 2,
                                    first <= j,
                            ;
                        }
                    }
                }
            }
            j = j + p;
        }
        proof {
            assert forall|k: int|
                0 <= k < cw * 64 implies spec_seq_bit(words@, k) == (exists|t: int|
                0 <= t < pi + 1 && spec_struck_by(
                    (n0 + k) as nat,
                    #[trigger] base_primes@[t] as nat,
                )) by {
                assert(spec_seq_bit(words@, k) == (spec_seq_bit(words0, k) || (k < j
                    && spec_struck_by((n0 + k) as nat, p as nat))));
                if spec_seq_bit(words@, k) {
                    if spec_seq_bit(words0, k) {
                        let t = choose|t: int|
                            0 <= t < pi && spec_struck_by(
                                (n0 + k) as nat,
                                #[trigger] base_primes@[t] as nat,
                            );
                        assert(spec_struck_by((n0 + k) as nat, base_primes@[t] as nat));
                    } else {
                        assert(spec_struck_by((n0 + k) as nat, base_primes@[pi as int] as nat));
                    }
                }
                if exists|t: int|
                    0 <= t < pi + 1 && spec_struck_by(
                        (n0 + k) as nat,
                        #[trigger] base_primes@[t] as nat,
                    ) {
                    let t = choose|t: int|
                        0 <= t < pi + 1 && spec_struck_by(
                            (n0 + k) as nat,
                            #[trigger] base_primes@[t] as nat,
                        );
                    if t < pi {
                        assert(spec_struck_by((n0 + k) as nat, base_primes@[t] as nat));
                        assert(spec_seq_bit(words0, k));
                    } else {
                        assert(spec_struck_by((n0 + k) as nat, base_primes@[pi as int] as nat));
                        assert(k < j);
                    }
                    assert(spec_seq_bit(words@, k));
                }
            }
        }
        pi = pi + 1;
    }
    proof {
        assert forall|j: int|
            0 <= j < words@.len() * 64 implies spec_seq_bit(words@, j) == spec_struck_by_any(
            (start + (i as int) * (chunk_words as int) * 64 + j) as nat,
            base_primes@,
        ) by {
            assert(n0 as int == start + (i as int) * (chunk_words as int) * 64);
        }
    }
    words
}

/// How many workers are available, used only to size the chunks handed out.
///
/// Relies on rayon::current_num_threads. Nothing is assumed of the value;
/// the caller clamps it before use.
#[verifier::external_body]
fn worker_count() -> usize {
    rayon::current_num_threads()
}

/// Fills all chunks of a segment's strike mask in parallel.
///
/// Relies on rayon's parallel iterator over a range: `map` followed by
/// `collect` into a `Vec` yields one element per index, in index order, each
/// the closure's result; the closure only calls the verified chunk sieve,
/// whose contract is the property stated here.
#[verifier::external_body]
fn par_sieve_chunks(
    n_chunks: usize,
    chunk_words: usize,
    total_words: usize,
    start: u64,
    base_primes: &Vec<u64>,
) -> (r: Vec<Vec<u64>>)
    requires
        chunk_words >= 1,
        forall|i: int| 0 <= i < n_chunks ==> #[trigger] (i * (chunk_words as int)) < total_words as int,
        start as int + (total_words as int) * 64 <= u64::MAX as int,
        (total_words as int) * 64 + 0x1_0000_0000 <= u64::MAX as int,
        spec_seeds_wf(base_primes@),
    ensures
        r@.len() == n_chunks,
        forall|i: int|
            0 <= i < n_chunks ==> spec_chunk_ok(
                (#[trigger] r@[i])@,
                i,
                chunk_words as int,
                total_words as int,
                start,
                base_primes@,
            ),
{
    (0..n_chunks)
        .into_par_iter()
        .map(|i| sieve_chunk(i, chunk_words, total_words, start, base_primes))
        .collect()
}

/// Division rounding up: the least `r` with `r * b >= a`.
fn div_ceil_usize(a: usize, b: usize) -> (r: usize)
    requires
        b >= 1,
    ensures
        a <= r * b < a + b,
        r <= a,
{
    let q = a / b;
    let rem = a % b;
    proof {
        lemma_fundamental_div_mod(a as int, b as int);
        vstd::arithmetic::div_mod::lemma_mod_division_less_than_divisor(a as int, b as int);
        vstd::arithmetic::div_mod::lemma_div_pos_is_pos(a as int, b as int);
    }
    if rem == 0 {
        assert(a == q * b) by (nonlinear_arith)
            requires
                a as int == (b as int) * (q as int) + rem,
                rem == 0,
        ;
        assert(q <= a) by (nonlinear_arith)
            requires
                a == (q as int) * (b as int),
                b >= 1,
                q >= 0,
        ;
        q
    } else {
        assert(q < a) by (nonlinear_arith)
            requires
                a as int == (b as int) * (q as int) + rem,
                1 <= rem < b,
                q >= 0,
        ;
        assert(a <= (q + 1) * (b as int) < a + b) by (nonlinear_arith)
            requires
                a as int == (b as int) * (q as int) + rem,
                1 <= rem < b,
        ;
        q + 1
    }
}

/// `x / 64` stays below `m` whenever `x` is below `m * 64`.
proof fn lemma_div64_bound(x: int, m: int)
    requires
        0 <= x < m * 64,
    ensures
        0 <= x / 64 < m,
{
    lemma_fundamental_div_mod(x, 64);
    vstd::arithmetic::div_mod::lemma_mod_division_less_than_divisor(x, 64);
    vstd::arithmetic::div_mod::lemma_div_pos_is_pos(x, 64);
    if x / 64 >= m {
        vstd::arithmetic::mul::lemma_mul_inequality(m, x / 64, 64);
        assert(false);
    }
}

/// Subtracting a whole number of words shifts the word index and keeps the
/// bit position.
proof fn lemma_bit_index_shift(k: int, off: int)
    requires
        0 <= off,
        off * 64 <= k,
    ensures
        (k - off * 64) / 64 == k / 64 - off,
        (k - off * 64) % 64 == k % 64,
{
    lemma_fundamental_div_mod(k, 64);
    vstd::arithmetic::div_mod::lemma_mod_division_less_than_divisor(k, 64);
    lemma_fundamental_div_mod_converse(k - off * 64, 64, k / 64 - off, k % 64);
}

/// Builds the composite mask for the half-open range `[start, end)` from the
/// seed primes: bit `k` is 1 exactly when `start + k` is 0, 1, or struck by
/// a seed prime.
pub(crate) fn sieve_segment(start: u64, end: u64, base_primes: &Vec<u64>) -> (m: SegmentMask)
    requires
        start <= end,
        start == 0 || start >= 2,
        end - start <= 0xFFFF_FFFFu64,
        end as int + 0x2_0000_0000 <= u64::MAX as int,
        spec_seeds_wf(base_primes@),
    ensures
        m.wf(),
        m.spec_len() == end - start,
        forall|k: int|
            0 <= k < end - start ==> m.bit(k) == spec_mask_bit((start + k) as nat, base_primes@),
{
    let len_bits: usize = (end - start) as usize;
    let total_words: usize = div_ceil_usize(len_bits, 64);
    proof {
        lemma_fundamental_div_mod_converse(
            len_bits + 63,
            64,
            total_words as int,
            len_bits + 63 - (total_words as int) * 64,
        );
        assert((len_bits + 63) / 64 == total_words as int);
    }

    let tc = worker_count();
    let threads: usize = if tc == 0 {
        1
    } else if tc > 65536 {
        65536
    } else {
        tc
    };
    let denom: usize = threads * 4;
    let cw0 = div_ceil_usize(total_words, denom);
    let chunk_words: usize = if cw0 < 4096 {
        4096
    } else {
        cw0
    };
    let n_chunks = div_ceil_usize(total_words, chunk_words);
    proof {
        assert forall|i: int| 0 <= i < n_chunks implies #[trigger] (i * (chunk_words as int))
            < total_words as int by {
            vstd::arithmetic::mul::lemma_mul_inequality(i, n_chunks as int - 1, chunk_words as int);
            assert((n_chunks as int - 1) * (chunk_words as int) == (n_chunks as int) * (
            chunk_words as int) - chunk_words as int) by (nonlinear_arith);
        }
    }

    let chunks = par_sieve_chunks(n_chunks, chunk_words, total_words, start, base_primes);

    let mut words: Vec<u64> = Vec::new();
    let mut ci: usize = 0;
    while ci < n_chunks
        invariant
            chunks@.len() == n_chunks,
            chunk_words >= 1,
            total_words <= n_chunks * chunk_words,
            forall|t: int| 0 <= t < n_chunks ==> #[trigger] (t * (chunk_words as int)) < total_words as int,
            forall|t: int|
                0 <= t < n_chunks ==> spec_chunk_ok(
                    (#[trigger] chunks@[t])@,
                    t,
                    chunk_words as int,
                    total_words as int,
                    start,
                    base_primes@,
                ),
            start as int + (total_words as int) * 64 <= u64::MAX as int,
            ci <= n_chunks,
            words@.len() == if (ci as int) * (chunk_words as int) <= total_words as int {
                (ci as int) * (chunk_words as int)
            } else {
                total_words as int
            },
            forall|k: int|
                0 <= k < words@.len() * 64 ==> spec_seq_bit(words@, k) == spec_struck_by_any(
                    (start + k) as nat,
                    base_primes@,
                ),
        decreases n_chunks - ci,
    {
        let chunk = &chunks[ci];
        let ghost l0 = words@.len() as int;
        proof {
            assert(spec_chunk_ok(
                chunks@[ci as int]@,
                ci as int,
                chunk_words as int,
                total_words as int,
                start,
                base_primes@,
            ));
            assert(l0 == (ci as int) * (chunk_words as int));
            assert((ci as int + 1) * (chunk_words as int) == (ci as int) * (chunk_words as int)
                + chunk_words as int) by (nonlinear_arith);
            assert(l0 + chunk@.len() <= total_words as int);
        }
        let mut t: usize = 0;
        while t < chunk.len()
            invariant
                t <= chunk@.len(),
                words@.len() == l0 + t,
                0 <= l0,
                l0 + chunk@.len() <= total_words as int,
                start as int + (total_words as int) * 64 <= u64::MAX as int,
                forall|k: int|
                    0 <= k < l0 * 64 ==> spec_seq_bit(words@, k) == spec_struck_by_any(
                        (start + k) as nat,
                        base_primes@,
                    ),
                forall|k: int|
                    l0 * 64 <= k < words@.len() * 64 ==> spec_seq_bit(words@, k) == spec_seq_bit(
                        chunk@,
                        k - l0 * 64,
                    ),
            decreases chunk@.len() - t,
        {
            let ghost wpre = words@;
            words.push(chunk[t]);
            t = t + 1;
            proof {
                assert forall|k: int|
                    0 <= k < l0 * 64 implies spec_seq_bit(words@, k) == spec_struck_by_any(
                    (start + k) as nat,
                    base_primes@,
                ) by {
                    lemma_div64_bound(k, l0);
                    assert(words@[k / 64] == wpre[k / 64]);
                    assert(spec_seq_bit(wpre, k) == spec_struck_by_any(
                        (start + k) as nat,
                        base_primes@,
                    ));
                }
                assert forall|k: int|
                    l0 * 64 <= k < words@.len() * 64 implies spec_seq_bit(words@, k)
                    == spec_seq_bit(chunk@, k - l0 * 64) by {
                    lemma_div64_bound(k, words@.len() as int);
                    lemma_bit_index_shift(k, l0);
                    if k < wpre.len() * 64 {
                        lemma_div64_bound(k, wpre.len() as int);
                        assert(words@[k / 64] == wpre[k / 64]);
                        assert(spec_seq_bit(wpre, k) == spec_seq_bit(chunk@, k - l0 * 64));
                    } else {
                        assert(k / 64 == wpre.len() as int);
                        assert(words@[k / 64] == chunk@[t - 1]);
                        assert((k - l0 * 64) / 64 == t - 1);
                    }
                }
            }
        }
        ci = ci + 1;
        proof {
            assert forall|k: int|
                0 <= k < words@.len() * 64 implies spec_seq_bit(words@, k) == spec_struck_by_any(
                (start + k) as nat,
                base_primes@,
            ) by {
                if l0 * 64 <= k {
                    assert(spec_seq_bit(words@, k) == spec_seq_bit(chunk@, k - l0 * 64));
                    assert(spec_seq_bit(chunk@, k - l0 * 64) == spec_struck_by_any(
                        (start + l0 * 64 + (k - l0 * 64)) as nat,
                        base_primes@,
                    ));
                }
            }
            assert(words@.len() == if (ci as int) * (chunk_words as int) <= total_words as int {
                (ci as int) * (chunk_words as int)
            } else {
                total_words as int
            }) by (nonlinear_arith)
                requires
                    words@.len() == l0 + spec_chunk_len(
                        ci as int - 1,
                        chunk_words as int,
                        total_words as int,
                    ),
                    l0 == (ci as int - 1) * (chunk_words as int),
                    chunk_words >= 1,
                    (ci as int - 1) * (chunk_words as int) < total_words as int,
            ;
        }
    }
    proof {
        if n_chunks == 0 {
            assert(total_words == 0);
        }
        assert(words@.len() == total_words as int);
    }

    if start == 0 {
        if len_bits >= 1 {
            set_mask_bit(&mut words, 0);
        }
        if len_bits >= 2 {
            set_mask_bit(&mut words, 1);
        }
    }

    proof {
        assert forall|k: int|
            0 <= k < len_bits implies spec_seq_bit(words@, k) == spec_mask_bit(
            (start + k) as nat,
            base_primes@,
        ) by {
            if start == 0 && k <= 1 {
            } else {
                assert((start + k) as nat >= 2);
            }
        }
    }
    SegmentMask::from_words(words, len_bits)
}

} // verus!
