//! The base prime table: every prime up to the square root of the analysis
//! limit, as a dense bit table and as an ordered list.
//!
//! Built once by trial sieving, shared read-only by the prime stream and the
//! primality oracle, which seed every segment's marking from the list.

use crate::primes::{
    lemma_composite_iff_struck, lemma_smallest_prime_divisor, spec_divides, spec_has_small_factor,
    spec_is_prime, spec_struck_by,
};
use crate::segment::{spec_mask_bit, spec_seeds_wf, spec_struck_by_any};
use vstd::arithmetic::div_mod::{lemma_fundamental_div_mod, lemma_mod_multiples_basic};
use vstd::prelude::*;

verus! {

/// Strictly ascending order.
pub open spec fn spec_sorted(s: Seq<u64>) -> bool {
    forall|a: int, b: int| 0 <= a < b < s.len() ==> s[a] < s[b]
}

/// Ordered primes up to a bound, with a dense primality table over
/// `[0, bound]`.
pub struct BasePrimeTable {
    bound: u64,
    table: Vec<bool>,
    primes: Vec<u64>,
}

impl BasePrimeTable {
    /// The bound the table covers.
    pub closed spec fn spec_bound(&self) -> u64 {
        self.bound
    }

    /// The ordered prime list.
    pub closed spec fn spec_primes(&self) -> Seq<u64> {
        self.primes@
    }

    /// The table is exact: entry `n` says whether `n` is prime, and the list
    /// holds exactly the primes up to the bound, in ascending order.
    pub closed spec fn wf(&self) -> bool {
        &&& self.bound <= 0xFFFF_FFFEu64
        &&& self.table@.len() == self.bound + 1
        &&& forall|m: int| 0 <= m <= self.bound ==> self.table@[m] == spec_is_prime(m as nat)
        &&& spec_sorted(self.primes@)
        &&& forall|t: int|
            0 <= t < self.primes@.len() ==> spec_is_prime(#[trigger] self.primes@[t] as nat)
                && self.primes@[t] <= self.bound
        &&& forall|q: int|
            0 <= q <= self.bound && spec_is_prime(q as nat) ==> self.primes@.contains(
                #[trigger] (q as u64),
            )
    }

    /// The facts a caller may use about the prime list: it is strictly
    /// ascending and holds only primes within the bound.
    pub proof fn lemma_primes_facts(&self)
        requires
            self.wf(),
        ensures
            self.spec_bound() <= 0xFFFF_FFFEu64,
            spec_sorted(self.spec_primes()),
            forall|t: int|
                0 <= t < self.spec_primes().len() ==> spec_is_prime(
                    #[trigger] self.spec_primes()[t] as nat,
                ) && self.spec_primes()[t] <= self.spec_bound(),
    {
    }

    /// The prime list is a valid seed list for segment sieving.
    pub proof fn lemma_seeds_wf(&self)
        requires
            self.wf(),
        ensures
            spec_seeds_wf(self.spec_primes()),
    {
        assert forall|i: int|
            0 <= i < self.primes@.len() implies 2 <= #[trigger] self.primes@[i]
            <= 0xFFFF_FFFFu64 by {
            assert(spec_is_prime(self.primes@[i] as nat));
        }
    }

    /// A seed prime strikes `n` exactly when some prime up to the bound
    /// strikes it.
    pub proof fn lemma_struck_any_iff(&self, n: nat)
        requires
            self.wf(),
        ensures
            spec_struck_by_any(n, self.spec_primes()) <==> spec_has_small_factor(
                n,
                self.spec_bound() as nat,
            ),
    {
        if spec_struck_by_any(n, self.primes@) {
            let i = choose|i: int|
                0 <= i < self.primes@.len() && spec_struck_by(n, #[trigger] self.primes@[i] as nat);
            assert(spec_is_prime(self.primes@[i] as nat));
        }
        if spec_has_small_factor(n, self.bound as nat) {
            let p = choose|p: nat|
                spec_is_prime(p) && p <= self.bound as nat && spec_struck_by(n, p);
            assert(self.primes@.contains(p as u64));
            let i = choose|i: int| 0 <= i < self.primes@.len() && self.primes@[i] == p as u64;
            assert(spec_struck_by(n, self.primes@[i] as nat));
        }
    }

    /// Below `(bound + 1)^2` the segment mask agrees with primality: bit 1
    /// means composite (with 0 and 1 forced to 1), bit 0 means prime.
    pub proof fn lemma_mask_bit_iff(&self, n: nat)
        requires
            self.wf(),
            n < (self.spec_bound() + 1) * (self.spec_bound() + 1),
        ensures
            spec_mask_bit(n, self.spec_primes()) <==> !spec_is_prime(n),
    {
        if n >= 2 {
            self.lemma_struck_any_iff(n);
            lemma_composite_iff_struck(n, self.bound as nat);
        }
    }

    /// No prime lies strictly between two adjacent entries of the list.
    pub proof fn lemma_adjacent_gap_free(&self, t: int, q: nat)
        requires
            self.wf(),
            0 <= t < self.spec_primes().len() - 1,
            self.spec_primes()[t] < q < self.spec_primes()[t + 1],
        ensures
            !spec_is_prime(q),
    {
        if spec_is_prime(q) {
            assert(q <= self.bound as nat);
            assert(self.primes@.contains(q as u64));
            let u = choose|u: int| 0 <= u < self.primes@.len() && self.primes@[u] == q as u64;
            if u <= t {
                assert(self.primes@[u] <= self.primes@[t]);
            } else {
                assert(self.primes@[t + 1] <= self.primes@[u]);
            }
        }
    }

    /// No prime lies strictly below the first entry of the list.
    pub proof fn lemma_no_prime_below_first(&self, q: nat)
        requires
            self.wf(),
            self.spec_primes().len() > 0 ==> q < self.spec_primes()[0],
            self.spec_primes().len() == 0 ==> q <= self.spec_bound(),
        ensures
            q <= self.spec_bound() ==> !spec_is_prime(q),
    {
        if q <= self.bound as nat && spec_is_prime(q) {
            assert(self.primes@.contains(q as u64));
            let u = choose|u: int| 0 <= u < self.primes@.len() && self.primes@[u] == q as u64;
            if u > 0 {
                assert(self.primes@[0] < self.primes@[u]);
            }
        }
    }

    /// No prime above the last entry of the list stays within the bound.
    pub proof fn lemma_no_prime_above_last(&self, q: nat)
        requires
            self.wf(),
            self.spec_primes().len() > 0,
            q > self.spec_primes()[self.spec_primes().len() - 1],
        ensures
            q <= self.spec_bound() ==> !spec_is_prime(q),
    {
        if q <= self.bound as nat && spec_is_prime(q) {
            assert(self.primes@.contains(q as u64));
            let u = choose|u: int| 0 <= u < self.primes@.len() && self.primes@[u] == q as u64;
            if u < self.primes@.len() - 1 {
                assert(self.primes@[u] < self.primes@[self.primes@.len() - 1]);
            }
        }
    }

    /// How many primes the list holds.
    pub fn prime_count(&self) -> (n: usize)
        ensures
            n == self.spec_primes().len(),
    {
        self.primes.len()
    }

    /// The prime at position `t` of the list.
    pub fn prime_at(&self, t: usize) -> (p: u64)
        requires
            t < self.spec_primes().len(),
        ensures
            p == self.spec_primes()[t as int],
    {
        self.primes[t]
    }

    /// Read-only access to the whole seed list.
    pub fn seed_list(&self) -> (s: &Vec<u64>)
        ensures
            s@ == self.spec_primes(),
    {
        &self.primes
    }

    /// Answers "is `n` prime?" from the dense table.
    pub fn is_prime_at(&self, n: u64) -> (r: bool)
        requires
            self.wf(),
            n <= self.spec_bound(),
        ensures
            r == spec_is_prime(n as nat),
    {
        self.table[n as usize]
    }

    /// Builds the table by trial sieving: strike the multiples of every `i`
    /// that is still unstruck when reached, starting at `i * i`.
    pub fn build(bound: u64) -> (t: BasePrimeTable)
        requires
            bound <= 0xFFFF_FFFEu64,
        ensures
            t.wf(),
            t.spec_bound() == bound,
    {
        let mut table: Vec<bool> = Vec::new();
        let mut c: u64 = 0;
        while c <= bound
            invariant
                bound <= 0xFFFF_FFFEu64,
                c <= bound + 1,
                table@.len() == c,
                forall|m: int| 0 <= m < c ==> table@[m] == (m >= 2),
            decreases bound + 1 - c,
        {
            table.push(c >= 2);
            c = c + 1;
        }
        proof {
            assert forall|m: int|
                0 <= m <= bound implies table@[m] == (m >= 2 && !spec_has_small_factor(
                m as nat,
                1nat,
            )) by {
                if spec_has_small_factor(m as nat, 1nat) {
                    let p = choose|p: nat| spec_is_prime(p) && p <= 1nat && spec_struck_by(
                        m as nat,
                        p,
                    );
                    assert(false);
                }
            }
        }

        let isq = crate::primes::isqrt(bound);
        assert(isq <= 65535) by (nonlinear_arith)
            requires
                isq as int * isq as int <= bound,
                bound <= 0xFFFF_FFFEu64,
        ;
        let mut i: u64 = 2;
        while i <= isq
            invariant
                bound <= 0xFFFF_FFFEu64,
                isq as int * isq as int <= bound as int,
                (isq as int + 1) * (isq as int + 1) > bound as int,
                isq <= 65535,
                isq <= bound,
                2 <= i,
                i <= isq + 1 || i == 2,
                table@.len() == bound + 1,
                forall|m: int|
                    0 <= m <= bound ==> table@[m] == (m >= 2 && !spec_has_small_factor(
                        m as nat,
                        (i - 1) as nat,
                    )),
            decreases isq + 1 - i,
        {
            assert(i as int * i as int <= bound as int) by (nonlinear_arith)
                requires
                    i <= isq,
                    isq as int * isq as int <= bound as int,
                    i >= 2,
            ;
            assert(i <= bound);
            if table[i as usize] {
                proof {
                    if !spec_is_prime(i as nat) {
                        let p = lemma_smallest_prime_divisor(i as nat);
                        assert(spec_struck_by(i as nat, p));
                        assert(p < i) by (nonlinear_arith)
                            requires
                                p * p <= i,
                                p >= 2,
                        ;
                        assert(spec_has_small_factor(i as nat, (i - 1) as nat));
                        assert(false);
                    }
                }
                proof {
                    lemma_mod_multiples_basic(i as int, i as int);
                }
                let mut j: u64 = i * i;
                while j <= bound
                    invariant
                        bound <= 0xFFFF_FFFEu64,
                        2 <= i <= 65535,
                        i * i <= j,
                        (j as int) % (i as int) == 0,
                        spec_is_prime(i as nat),
                        table@.len() == bound + 1,
                        forall|m: int|
                            0 <= m <= bound ==> table@[m] == (m >= 2 && !spec_has_small_factor(
                                m as nat,
                                (i - 1) as nat,
                            ) && !(spec_struck_by(m as nat, i as nat) && m < j)),
                    decreases bound + i - j,
                {
                    let ghost tpre = table@;
                    table.set(j as usize, false);
                    proof {
                        assert(spec_divides(i as nat, j as nat)) by {
                            assert((j as int) % (i as int) == 0);
                        }
                        assert(spec_struck_by(j as nat, i as nat));
                        lemma_mod_multiples_basic(1int, i as int);
                        vstd::arithmetic::div_mod::lemma_add_mod_noop(j as int, i as int, i as int);
                        assert(((j as int) % (i as int) + (i as int) % (i as int)) % (i as int) == (
                        j + i) % (i as int));
                        vstd::arithmetic::div_mod::lemma_small_mod(0nat, i as nat);
                        assert((j + i) as int % (i as int) == 0);
                        assert forall|m: int|
                            0 <= m <= bound implies table@[m] == (m >= 2
                            && !spec_has_small_factor(m as nat, (i - 1) as nat) && !(
                        spec_struck_by(m as nat, i as nat) && m < j + i)) by {
                            if m != j as int && j < m < j + i {
                                if (m as int) % (i as int) == 0 {
                                    lemma_fundamental_div_mod(j as int, i as int);
                                    lemma_fundamental_div_mod(m as int, i as int);
                                    let qj = (j as int) / (i as int);
                                    let qm = (m as int) / (i as int);
                                    assert(false) by (nonlinear_arith)
                                        requires
                                            j as int == (i as int) * qj,
                                            m as int == (i as int) * qm,
                                            (j as int) < m < j + i,
                                            i >= 2,
                                    ;
                                }
                            }
                        }
                    }
                    j = j + i;
                }
                proof {
                    assert forall|m: int|
                        0 <= m <= bound implies table@[m] == (m >= 2 && !spec_has_small_factor(
                        m as nat,
                        i as nat,
                    )) by {
                        assert(table@[m] == (m >= 2 && !spec_has_small_factor(
                            m as nat,
                            (i - 1) as nat,
                        ) && !(spec_struck_by(m as nat, i as nat) && m < j)));
                        if m >= 2 {
                            if spec_has_small_factor(m as nat, i as nat) {
                                let p = choose|p: nat|
                                    spec_is_prime(p) && p <= i as nat && spec_struck_by(m as nat, p);
                                if p <= (i - 1) as nat {
                                    assert(spec_has_small_factor(m as nat, (i - 1) as nat));
                                } else {
                                    assert(p == i as nat);
                                    assert(spec_struck_by(m as nat, i as nat));
                                }
                            }
                            if spec_has_small_factor(m as nat, (i - 1) as nat) {
                                let p = choose|p: nat|
                                    spec_is_prime(p) && p <= (i - 1) as nat && spec_struck_by(
                                        m as nat,
                                        p,
                                    );
                                assert(spec_has_small_factor(m as nat, i as nat));
                            }
                            if spec_struck_by(m as nat, i as nat) {
                                assert(spec_has_small_factor(m as nat, i as nat));
                            }
                        }
                    }
                }
            } else {
                proof {
                    assert(spec_has_small_factor(i as nat, (i - 1) as nat));
                    if spec_is_prime(i as nat) {
                        let p = choose|p: nat|
                            spec_is_prime(p) && p <= (i - 1) as nat && spec_struck_by(i as nat, p);
                        assert(p < i);
                        assert(spec_divides(p, i as nat));
                        assert(!spec_is_prime(i as nat));
                    }
                    assert forall|m: int|
                        0 <= m <= bound implies table@[m] == (m >= 2 && !spec_has_small_factor(
                        m as nat,
                        i as nat,
                    )) by {
                        if m >= 2 {
                            if spec_has_small_factor(m as nat, i as nat) {
                                let p = choose|p: nat|
                                    spec_is_prime(p) && p <= i as nat && spec_struck_by(m as nat, p);
                                assert(p != i as nat);
                                assert(spec_has_small_factor(m as nat, (i - 1) as nat));
                            }
                            if spec_has_small_factor(m as nat, (i - 1) as nat) {
                                let p = choose|p: nat|
                                    spec_is_prime(p) && p <= (i - 1) as nat && spec_struck_by(
                                        m as nat,
                                        p,
                                    );
                                assert(spec_has_small_factor(m as nat, i as nat));
                            }
                        }
                    }
                }
            }
            i = i + 1;
        }
        proof {
            assert(i >= isq + 1);
            assert((bound as int) < (i as int) * (i as int)) by (nonlinear_arith)
                requires
                    i as int >= isq as int + 1,
                    (isq as int + 1) * (isq as int + 1) > bound as int,
                    isq >= 0,
            ;
            assert forall|m: int| 0 <= m <= bound implies table@[m] == spec_is_prime(m as nat) by {
                if m >= 2 {
                    assert(m < (((i - 1) as nat) + 1) * (((i - 1) as nat) + 1)) by (nonlinear_arith)
                        requires
                            m <= bound,
                            (bound as int) < (i as int) * (i as int),
                            i >= 2,
                    ;
                    lemma_composite_iff_struck(m as nat, (i - 1) as nat);
                }
            }
        }

        let mut primes: Vec<u64> = Vec::new();
        let mut n: u64 = 0;
        while n <= bound
            invariant
                bound <= 0xFFFF_FFFEu64,
                n <= bound + 1,
                table@.len() == bound + 1,
                forall|m: int| 0 <= m <= bound ==> table@[m] == spec_is_prime(m as nat),
                spec_sorted(primes@),
                forall|t: int|
                    0 <= t < primes@.len() ==> spec_is_prime(#[trigger] primes@[t] as nat)
                        && primes@[t] < n,
                forall|q: int|
                    0 <= q < n && spec_is_prime(q as nat) ==> primes@.contains(
                        #[trigger] (q as u64),
                    ),
            decreases bound + 1 - n,
        {
            if table[n as usize] {
                let ghost ppre = primes@;
                primes.push(n);
                proof {
                    assert forall|q: int|
                        0 <= q < n + 1 && spec_is_prime(q as nat) implies primes@.contains(
                        #[trigger] (q as u64),
                    ) by {
                        if q < n {
                            assert(ppre.contains(q as u64));
                            let u = choose|u: int| 0 <= u < ppre.len() && ppre[u] == q as u64;
                            assert(primes@[u] == q as u64);
                        } else {
                            assert(primes@[primes@.len() - 1] == n);
                        }
                    }
                }
            }
            n = n + 1;
        }

        BasePrimeTable { bound, table, primes }
    }
}

} // verus!
