//! Shielding commentary on gap sizes: the distinct prime factors of the
//! gap's two neighbors, `g - 1` and `g + 1`, with 2 set aside since parity
//! is handled separately. Pure gap arithmetic, independent of the sieve.

use crate::primes::{
    lemma_divides_le, lemma_divides_transitive, lemma_euclid, lemma_prime_divides_prime,
    lemma_smallest_prime_divisor, lemma_two_prime, spec_divides, spec_is_prime,
};
use vstd::arithmetic::div_mod::{
    lemma_fundamental_div_mod, lemma_mod_division_less_than_divisor, lemma_mod_multiples_basic,
    lemma_small_mod,
};
use vstd::prelude::*;

verus! {

/// Strictly ascending entries.
pub open spec fn spec_ascending(s: Seq<u64>) -> bool {
    forall|a: int, b: int| 0 <= a < b < s.len() ==> s[a] < s[b]
}

/// The distinct prime factors of `n`, in ascending order — all of them,
/// and nothing else.
pub fn get_prime_factors(n: u64) -> (r: Vec<u64>)
    ensures
        spec_ascending(r@),
        forall|t: int|
            0 <= t < r@.len() ==> spec_is_prime(#[trigger] r@[t] as nat) && spec_divides(
                r@[t] as nat,
                n as nat,
            ),
        n >= 1 ==> forall|q: u64|
            spec_is_prime(q as nat) && spec_divides(q as nat, n as nat) ==> r@.contains(q),
{
    let mut factors: Vec<u64> = Vec::new();
    if n < 2 {
        proof {
            if n == 1 {
                assert forall|q: u64|
                    spec_is_prime(q as nat) && spec_divides(q as nat, n as nat)
                    implies factors@.contains(q) by {
                    lemma_small_mod(1, q as nat);
                }
            }
        }
        return factors;
    }
    let mut m = n;
    proof {
        lemma_mod_multiples_basic(1int, n as int);
        assert(1int * n as int == n as int);
        assert(spec_divides(m as nat, n as nat));
    }

    // Strip the factor 2 first.
    if m % 2 == 0 {
        proof {
            lemma_two_prime();
        }
        factors.push(2);
        while m % 2 == 0
            invariant
                1 <= m,
                2 <= n,
                spec_divides(m as nat, n as nat),
                factors@ =~= seq![2u64],
                forall|q: u64|
                    spec_is_prime(q as nat) && #[trigger] spec_divides(q as nat, n as nat) ==> q
                        == 2 || spec_divides(q as nat, m as nat),
            decreases m,
        {
            let ghost m0 = m as nat;
            m = m / 2;
            proof {
                lemma_fundamental_div_mod(m0 as int, 2);
                assert(m0 == 2 * (m as nat));
                lemma_mod_multiples_basic(2int, m as int);
                assert(spec_divides(m as nat, m0));
                lemma_divides_transitive(m as nat, m0, n as nat);
                assert forall|q: u64|
                    spec_is_prime(q as nat) && #[trigger] spec_divides(q as nat, n as nat)
                    implies q == 2 || spec_divides(q as nat, m as nat) by {
                    if q != 2 && spec_divides(q as nat, m0) {
                        assert(m0 == 2 * (m as nat));
                        lemma_euclid(q as nat, 2, m as nat);
                        if spec_divides(q as nat, 2) {
                            lemma_two_prime();
                            lemma_prime_divides_prime(q as nat, 2);
                        }
                    }
                }
            }
        }
        proof {
            assert(factors@[0] == 2u64);
            assert(factors@.contains(2u64));
        }
    }

    // Trial-divide by ascending odd candidates while any can still fit.
    let mut i: u64 = 3;
    while i <= m / i
        invariant
            1 <= m,
            2 <= n,
            spec_divides(m as nat, n as nat),
            3 <= i <= 0x1_0000_0003u64,
            i % 2 == 1,
            spec_ascending(factors@),
            forall|t: int| 0 <= t < factors@.len() ==> #[trigger] factors@[t] < i,
            forall|t: int|
                0 <= t < factors@.len() ==> spec_is_prime(#[trigger] factors@[t] as nat)
                    && spec_divides(factors@[t] as nat, n as nat),
            forall|q: nat|
                spec_is_prime(q) && q < i ==> !#[trigger] spec_divides(q, m as nat),
            forall|q: u64|
                spec_is_prime(q as nat) && #[trigger] spec_divides(q as nat, n as nat)
                    ==> factors@.contains(q) || spec_divides(q as nat, m as nat),
        decreases m, 0x1_0000_0005int - i,
    {
        proof {
            lemma_fundamental_div_mod(m as int, i as int);
            lemma_mod_division_less_than_divisor(m as int, i as int);
            assert(i as int * i as int <= m as int) by (nonlinear_arith)
                requires
                    m as int == i as int * (m as int / i as int) + m as int % (i as int),
                    0 <= m as int % (i as int),
                    i <= m as int / i as int,
                    i >= 3,
            ;
            assert(i <= 0xFFFF_FFFFu64) by (nonlinear_arith)
                requires
                    i as int * i as int <= m as int,
                    m <= u64::MAX,
                    i >= 3,
            ;
        }
        if m % i == 0 {
            proof {
                let p = lemma_smallest_prime_divisor(i as nat);
                if p < i as nat {
                    lemma_divides_transitive(p, i as nat, m as nat);
                    assert(false);
                }
                assert(spec_is_prime(i as nat));
                lemma_divides_transitive(i as nat, m as nat, n as nat);
            }
            let ghost m_enter = m;
            let ghost fpre = factors@;
            factors.push(i);
            proof {
                assert(factors@[factors@.len() - 1] == i);
                assert forall|q: u64|
                    spec_is_prime(q as nat) && #[trigger] spec_divides(q as nat, n as nat)
                    implies factors@.contains(q) || spec_divides(q as nat, m as nat) by {
                    if fpre.contains(q) {
                        let t = choose|t: int| 0 <= t < fpre.len() && fpre[t] == q;
                        assert(factors@[t] == q);
                    }
                }
            }
            while m % i == 0
                invariant
                    1 <= m,
                    2 <= n,
                    3 <= i,
                    spec_divides(m as nat, n as nat),
                    spec_is_prime(i as nat),
                    factors@.contains(i),
                    m <= m_enter,
                    m_enter % i == 0,
                    forall|q: nat|
                        spec_is_prime(q) && q < i ==> !#[trigger] spec_divides(q, m as nat),
                    forall|q: u64|
                        spec_is_prime(q as nat) && #[trigger] spec_divides(q as nat, n as nat)
                            ==> factors@.contains(q) || spec_divides(q as nat, m as nat),
                decreases m,
            {
                let ghost m0 = m as nat;
                m = m / i;
                proof {
                    lemma_fundamental_div_mod(m0 as int, i as int);
                    assert(m0 == (i as nat) * (m as nat));
                    assert(m >= 1) by (nonlinear_arith)
                        requires
                            m0 == (i as nat) * (m as nat),
                            m0 >= 1,
                    ;
                    assert(m < m0) by (nonlinear_arith)
                        requires
                            m0 == (i as nat) * (m as nat),
                            m >= 1,
                            i >= 3,
                    ;
                    lemma_mod_multiples_basic(i as int, m as int);
                    assert((i as int * m as int) % (m as int) == 0);
                    assert(spec_divides(m as nat, m0));
                    lemma_divides_transitive(m as nat, m0, n as nat);
                    assert forall|q: nat|
                        spec_is_prime(q) && q < i implies !#[trigger] spec_divides(
                        q,
                        m as nat,
                    ) by {
                        if spec_divides(q, m as nat) {
                            lemma_divides_transitive(q, m as nat, m0);
                        }
                    }
                    assert forall|q: u64|
                        spec_is_prime(q as nat) && #[trigger] spec_divides(q as nat, n as nat)
                        implies factors@.contains(q) || spec_divides(q as nat, m as nat) by {
                        if !factors@.contains(q) && spec_divides(q as nat, m0) {
                            lemma_euclid(q as nat, i as nat, m as nat);
                            if spec_divides(q as nat, i as nat) {
                                lemma_prime_divides_prime(q as nat, i as nat);
                                assert(false);
                            }
                        }
                    }
                }
            }
            proof {
                assert(m < m_enter) by {
                    if m == m_enter {
                        assert(m % i == 0);
                    }
                }
                // The threshold may move past i and the even number above
                // it: i no longer divides m, and that even number is not
                // prime.
                assert forall|q: nat|
                    spec_is_prime(q) && q < i + 2 implies !#[trigger] spec_divides(
                    q,
                    m as nat,
                ) by {
                    if q == i as nat + 1 && spec_divides(q, m as nat) {
                        assert(q % 2 == 0) by {
                            assert((i as int + 1) % 2 == 0) by (nonlinear_arith)
                                requires
                                    i as int % 2 == 1,
                                    i >= 3,
                            ;
                        }
                        assert(spec_divides(2, q)) by {
                            assert(q % 2 == 0);
                        }
                        assert(!spec_is_prime(q));
                    }
                }
            }
        } else {
            proof {
                assert forall|q: nat|
                    spec_is_prime(q) && q < i + 2 implies !#[trigger] spec_divides(
                    q,
                    m as nat,
                ) by {
                    if q == i as nat && spec_divides(q, m as nat) {
                        assert(m as nat % (i as nat) == 0);
                        assert(false);
                    }
                    if q == i as nat + 1 && spec_divides(q, m as nat) {
                        assert((i as int + 1) % 2 == 0) by (nonlinear_arith)
                            requires
                                i as int % 2 == 1,
                                i >= 3,
                        ;
                        assert(spec_divides(2, q));
                        assert(!spec_is_prime(q));
                    }
                }
            }
        }
        i = i + 2;
    }

    proof {
        // Whatever remains above 1 has no factor up to its square root
        // left, so it is prime.
        lemma_fundamental_div_mod(m as int, i as int);
        lemma_mod_division_less_than_divisor(m as int, i as int);
        assert((m as int) < i as int * i as int) by (nonlinear_arith)
            requires
                m as int == i as int * (m as int / i as int) + m as int % (i as int),
                (m as int % (i as int)) < (i as int),
                (m as int / i as int) < (i as int),
                0 <= m as int % (i as int),
                0 <= m as int / i as int,
                i >= 3,
        ;
    }
    if m > 1 {
        proof {
            let p = lemma_smallest_prime_divisor(m as nat);
            if !spec_is_prime(m as nat) {
                assert(p < i as nat) by (nonlinear_arith)
                    requires
                        p * p <= m as nat,
                        (m as int) < i as int * i as int,
                        p >= 0,
                        i >= 3,
                ;
                assert(false);
            }
            assert(spec_is_prime(m as nat));
            assert(m as nat >= i as nat || m < i) by {}
            if m < i {
                assert(spec_divides(m as nat, m as nat)) by {
                    lemma_mod_multiples_basic(1int, m as int);
                    assert(1int * m as int == m as int);
                }
                assert(false);
            }
        }
        let ghost fpre = factors@;
        factors.push(m);
        proof {
            assert(factors@[factors@.len() - 1] == m);
            assert forall|q: u64|
                spec_is_prime(q as nat) && spec_divides(q as nat, n as nat)
                implies factors@.contains(q) by {
                if fpre.contains(q) {
                    let t = choose|t: int| 0 <= t < fpre.len() && fpre[t] == q;
                    assert(factors@[t] == q);
                } else {
                    assert(spec_divides(q as nat, m as nat));
                    lemma_prime_divides_prime(q as nat, m as nat);
                }
            }
        }
    } else {
        proof {
            assert forall|q: u64|
                spec_is_prime(q as nat) && spec_divides(q as nat, n as nat)
                implies factors@.contains(q) by {
                if spec_divides(q as nat, m as nat) {
                    lemma_divides_le(q as nat, m as nat);
                    assert(false);
                }
            }
        }
    }
    factors
}

/// The shield primes of a gap `g`: every odd prime dividing one of its
/// neighbors `g - 1` or `g + 1`, in ascending order, each exactly once.
pub fn shield_primes(g: u64) -> (r: Vec<u64>)
    requires
        1 <= g < u64::MAX,
    ensures
        spec_ascending(r@),
        forall|t: int|
            0 <= t < r@.len() ==> spec_is_prime(#[trigger] r@[t] as nat) && r@[t] != 2 && (
            spec_divides(r@[t] as nat, (g - 1) as nat) || spec_divides(r@[t] as nat, (g
                + 1) as nat)),
        forall|q: u64|
            spec_is_prime(q as nat) && q != 2 && (spec_divides(q as nat, (g - 1) as nat)
                || spec_divides(q as nat, (g + 1) as nat)) ==> (g == 1 && spec_divides(
                q as nat,
                (g - 1) as nat,
            )) || r@.contains(q),
{
    let below = get_prime_factors(g - 1);
    let above = get_prime_factors(g + 1);
    let mut merged: Vec<u64> = Vec::new();
    let mut a: usize = 0;
    let mut b: usize = 0;
    while a < below.len() || b < above.len()
        invariant
            a <= below@.len(),
            b <= above@.len(),
            spec_ascending(below@),
            spec_ascending(above@),
            forall|t: int|
                0 <= t < below@.len() ==> spec_is_prime(#[trigger] below@[t] as nat)
                    && spec_divides(below@[t] as nat, (g - 1) as nat),
            forall|t: int|
                0 <= t < above@.len() ==> spec_is_prime(#[trigger] above@[t] as nat)
                    && spec_divides(above@[t] as nat, (g + 1) as nat),
            spec_ascending(merged@),
            forall|t: int|
                0 <= t < merged@.len() ==> spec_is_prime(#[trigger] merged@[t] as nat)
                    && merged@[t] != 2 && (spec_divides(merged@[t] as nat, (g - 1) as nat)
                    || spec_divides(merged@[t] as nat, (g + 1) as nat)),
            forall|t: int|
                0 <= t < merged@.len() ==> (a < below@.len() ==> #[trigger] merged@[t]
                    < below@[a as int]) && (b < above@.len() ==> merged@[t] < above@[b as int]),
            forall|t: int|
                0 <= t < a ==> below@[t] == 2 || merged@.contains(#[trigger] below@[t]),
            forall|t: int|
                0 <= t < b ==> above@[t] == 2 || merged@.contains(#[trigger] above@[t]),
        decreases below@.len() - a + above@.len() - b,
    {
        let take_below: bool = if a < below.len() {
            if b < above.len() {
                below[a] <= above[b]
            } else {
                true
            }
        } else {
            false
        };
        let ghost mpre = merged@;
        if take_below {
            let v = below[a];
            if b < above.len() && above[b] == v {
                b = b + 1;
            }
            if v != 2 {
                merged.push(v);
            }
            a = a + 1;
            proof {
                if v != 2 {
                    assert(merged@[merged@.len() - 1] == v);
                    assert forall|t: int|
                        0 <= t < a implies below@[t] == 2 || merged@.contains(
                        #[trigger] below@[t],
                    ) by {
                        if t < a - 1 && below@[t] != 2 {
                            let u = choose|u: int| 0 <= u < mpre.len() && mpre[u] == below@[t];
                            assert(merged@[u] == below@[t]);
                        }
                    }
                    assert forall|t: int|
                        0 <= t < b implies above@[t] == 2 || merged@.contains(
                        #[trigger] above@[t],
                    ) by {
                        if above@[t] != 2 {
                            if above@[t] == v {
                                assert(merged@[merged@.len() - 1] == above@[t]);
                            } else {
                                let u = choose|u: int| 0 <= u < mpre.len() && mpre[u] == above@[t];
                                assert(merged@[u] == above@[t]);
                            }
                        }
                    }
                }
            }
        } else {
            let v = above[b];
            if v != 2 {
                merged.push(v);
            }
            b = b + 1;
            proof {
                if v != 2 {
                    assert(merged@[merged@.len() - 1] == v);
                    assert forall|t: int|
                        0 <= t < a implies below@[t] == 2 || merged@.contains(
                        #[trigger] below@[t],
                    ) by {
                        if below@[t] != 2 {
                            let u = choose|u: int| 0 <= u < mpre.len() && mpre[u] == below@[t];
                            assert(merged@[u] == below@[t]);
                        }
                    }
                    assert forall|t: int|
                        0 <= t < b implies above@[t] == 2 || merged@.contains(
                        #[trigger] above@[t],
                    ) by {
                        if t < b - 1 && above@[t] != 2 {
                            let u = choose|u: int| 0 <= u < mpre.len() && mpre[u] == above@[t];
                            assert(merged@[u] == above@[t]);
                        }
                    }
                }
            }
        }
    }
    proof {
        assert forall|q: u64|
            spec_is_prime(q as nat) && q != 2 && (spec_divides(q as nat, (g - 1) as nat)
                || spec_divides(q as nat, (g + 1) as nat)) implies (g == 1 && spec_divides(
            q as nat,
            (g - 1) as nat,
        )) || merged@.contains(q) by {
            if spec_divides(q as nat, (g - 1) as nat) && g != 1 {
                assert(below@.contains(q));
                let t = choose|t: int| 0 <= t < below@.len() && below@[t] == q;
            }
            if spec_divides(q as nat, (g + 1) as nat) && !merged@.contains(q) {
                assert(above@.contains(q));
                let t = choose|t: int| 0 <= t < above@.len() && above@[t] == q;
            }
        }
    }
    merged
}

} // verus!
