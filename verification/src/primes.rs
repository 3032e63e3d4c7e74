//! Primality as a mathematical predicate, and the facts the sieve rests on.
//!
//! The central lemma is that a composite number below `(s + 1)^2` always has
//! a prime factor `p <= s` with `p * p` no larger than the number itself:
//! this is why striking multiples of the base primes, starting at each
//! prime's square, leaves exactly the primes unmarked in every segment.

use vstd::arithmetic::div_mod::{
    lemma_fundamental_div_mod, lemma_mod_multiples_basic, lemma_small_mod,
};
use vstd::prelude::*;

verus! {

/// `factor` evenly divides `candidate`.
pub open spec fn spec_divides(factor: nat, candidate: nat) -> bool {
    candidate % factor == 0
}

/// `n` is prime: at least 2, with no divisor strictly between 1 and `n`.
pub open spec fn spec_is_prime(n: nat) -> bool {
    &&& n >= 2
    &&& forall|d: nat| 1 < d < n ==> !spec_divides(d, n)
}

/// A base prime `p` strikes `n` in a segment when `n` is a multiple of `p`
/// no smaller than `p * p`; smaller multiples are struck by smaller primes
/// or are `p` itself.
pub open spec fn spec_struck_by(n: nat, p: nat) -> bool {
    &&& spec_divides(p, n)
    &&& p * p <= n
}

/// `n` is struck by some prime at most `s`.
pub open spec fn spec_has_small_factor(n: nat, s: nat) -> bool {
    exists|p: nat| spec_is_prime(p) && p <= s && spec_struck_by(n, p)
}

/// Divisibility is transitive.
pub proof fn lemma_divides_transitive(a: nat, b: nat, c: nat)
    requires
        a >= 1,
        b >= 1,
        spec_divides(a, b),
        spec_divides(b, c),
    ensures
        spec_divides(a, c),
{
    let q1 = b as int / a as int;
    let q2 = c as int / b as int;
    lemma_fundamental_div_mod(b as int, a as int);
    lemma_fundamental_div_mod(c as int, b as int);
    assert(c as int == (q1 * q2) * a as int) by (nonlinear_arith)
        requires
            b as int == a as int * q1,
            c as int == b as int * q2,
    ;
    lemma_mod_multiples_basic(q1 * q2, a as int);
}

/// The smallest divisor of `n` that is at least `k`, when all candidates
/// below `k` have been ruled out.
proof fn smallest_divisor_from(n: nat, k: nat) -> (d: nat)
    requires
        2 <= k <= n,
        forall|e: nat| 1 < e < k ==> !spec_divides(e, n),
    ensures
        k <= d <= n,
        spec_divides(d, n),
        forall|e: nat| 1 < e < d ==> !spec_divides(e, n),
    decreases n - k,
{
    if n % k == 0 {
        k
    } else {
        assert(n % n == 0) by {
            lemma_mod_multiples_basic(1int, n as int);
            assert(1int * n as int == n as int);
        }
        smallest_divisor_from(n, k + 1)
    }
}

/// Every `n >= 2` has a prime divisor; when `n` is composite, that divisor's
/// square is at most `n`.
pub proof fn lemma_smallest_prime_divisor(n: nat) -> (p: nat)
    requires
        n >= 2,
    ensures
        spec_is_prime(p),
        spec_divides(p, n),
        2 <= p <= n,
        !spec_is_prime(n) ==> p * p <= n,
{
    let p = smallest_divisor_from(n, 2);
    assert forall|e: nat| 1 < e < p implies !spec_divides(e, p) by {
        if spec_divides(e, p) {
            lemma_divides_transitive(e, p, n);
        }
    }
    if !spec_is_prime(n) {
        let d0 = choose|d: nat| 1 < d < n && spec_divides(d, n);
        assert(p <= d0);
        let q = n as int / p as int;
        lemma_fundamental_div_mod(n as int, p as int);
        assert(n as int == p as int * q);
        assert(q >= 2) by (nonlinear_arith)
            requires
                n as int == p as int * q,
                2 <= p as int,
                p < n,
        ;
        lemma_mod_multiples_basic(p as int, q);
        assert(spec_divides(q as nat, n));
        assert(q < n) by (nonlinear_arith)
            requires
                n as int == p as int * q,
                p as int >= 2,
                q >= 2,
        ;
        assert(p <= q as nat);
        assert(p * p <= n) by (nonlinear_arith)
            requires
                n as int == p as int * q,
                p as int <= q,
                p >= 0,
        ;
    }
    p
}

/// Below `(s + 1)^2`, being composite is the same as being struck by a prime
/// at most `s`.
pub proof fn lemma_composite_iff_struck(n: nat, s: nat)
    requires
        2 <= n,
        n < (s + 1) * (s + 1),
    ensures
        spec_has_small_factor(n, s) <==> !spec_is_prime(n),
{
    if !spec_is_prime(n) {
        let p = lemma_smallest_prime_divisor(n);
        assert(p <= s) by (nonlinear_arith)
            requires
                p * p <= n,
                n < (s + 1) * (s + 1),
                p >= 0,
        ;
        assert(spec_is_prime(p) && p <= s && spec_struck_by(n, p));
    }
    if spec_has_small_factor(n, s) {
        let p = choose|p: nat| spec_is_prime(p) && p <= s && spec_struck_by(n, p);
        assert(p < n) by (nonlinear_arith)
            requires
                p * p <= n,
                p >= 2,
        ;
        assert(!spec_is_prime(n));
    }
}

/// Primes other than 2 are odd; stated through the strike predicate for 2.
pub proof fn lemma_two_prime()
    ensures
        spec_is_prime(2),
{
}

/// Descent step for Euclid's lemma: if a positive `r` below the prime `p`
/// has `p` dividing `r * b`, then `p` divides `b` — shrink `r` to `p % r`.
proof fn lemma_euclid_descent(p: nat, r: nat, b: nat)
    requires
        spec_is_prime(p),
        1 <= r < p,
        spec_divides(p, r * b),
    ensures
        spec_divides(p, b),
    decreases r,
{
    if r == 1 {
        assert(r * b == b) by (nonlinear_arith)
            requires
                r == 1,
        ;
    } else {
        let q = p as int / r as int;
        let s = p as int % r as int;
        lemma_fundamental_div_mod(p as int, r as int);
        vstd::arithmetic::div_mod::lemma_mod_division_less_than_divisor(p as int, r as int);
        if s == 0 {
            // r would be a proper divisor of the prime p.
            assert(spec_divides(r, p)) by {
                assert(p as int % r as int == 0);
            }
            assert(false);
        }
        let t = (r * b) as int / p as int;
        lemma_fundamental_div_mod((r * b) as int, p as int);
        assert((r * b) as int == p as int * t);
        assert((s * b as int) == p as int * (b as int - q * t)) by (nonlinear_arith)
            requires
                s == p as int - r as int * q,
                (r * b) as int == p as int * t,
                (r * b) as int == r as int * b as int,
        ;
        lemma_mod_multiples_basic(b as int - q * t, p as int);
        assert(((b as int - q * t) * p as int) % (p as int) == 0);
        assert((b as int - q * t) * p as int == p as int * (b as int - q * t))
            by (nonlinear_arith);
        assert((s * b as int) % (p as int) == 0);
        assert((s as nat) * b == s * b as int) by (nonlinear_arith)
            requires
                s >= 0,
        ;
        lemma_euclid_descent(p, s as nat, b);
    }
}

/// A divisor of a positive number is no larger than it.
pub proof fn lemma_divides_le(d: nat, m: nat)
    requires
        d >= 1,
        m >= 1,
        spec_divides(d, m),
    ensures
        d <= m,
{
    if d > m {
        lemma_small_mod(m, d);
    }
}

/// The only prime dividing a prime is that prime itself.
pub proof fn lemma_prime_divides_prime(q: nat, p: nat)
    requires
        spec_is_prime(q),
        spec_is_prime(p),
        spec_divides(q, p),
    ensures
        q == p,
{
    lemma_divides_le(q, p);
}

/// Euclid's lemma: a prime dividing a product divides one of the factors.
pub proof fn lemma_euclid(p: nat, a: nat, b: nat)
    requires
        spec_is_prime(p),
        spec_divides(p, a * b),
    ensures
        spec_divides(p, a) || spec_divides(p, b),
{
    let r = a % p;
    lemma_fundamental_div_mod(a as int, p as int);
    vstd::arithmetic::div_mod::lemma_mod_division_less_than_divisor(a as int, p as int);
    if r != 0 {
        let qa = a as int / p as int;
        assert((a * b) as int == p as int * (qa * b as int) + r as int * b as int)
            by (nonlinear_arith)
            requires
                a as int == p as int * qa + r,
                (a * b) as int == a as int * b as int,
        ;
        vstd::arithmetic::div_mod::lemma_mod_multiples_vanish(
            qa * b as int,
            r as int * b as int,
            p as int,
        );
        assert((r as int * b as int) % (p as int) == 0);
        assert((r * b) as int == r as int * b as int) by (nonlinear_arith);
        lemma_euclid_descent(p, r, b);
    }
}

/// Integer square root: the largest `r` with `r * r <= n`.
pub fn isqrt(n: u64) -> (r: u64)
    ensures
        r as int * r as int <= n as int,
        (r as int + 1) * (r as int + 1) > n as int,
        r <= n,
{
    let mut lo: u64 = 0;
    let mut hi: u64 = 4294967296;
    assert(hi as int * hi as int > u64::MAX as int);
    while lo + 1 < hi
        invariant
            lo < hi <= 4294967296,
            lo as int * lo as int <= n as int,
            hi as int * hi as int > n as int,
        decreases hi - lo,
    {
        let mid = lo + (hi - lo) / 2;
        assert(mid as int * mid as int <= u64::MAX as int) by (nonlinear_arith)
            requires
                mid <= 4294967295u64,
        ;
        if mid * mid <= n {
            lo = mid;
        } else {
            hi = mid;
        }
    }
    assert(lo as int * lo as int <= n as int);
    assert(lo <= n) by (nonlinear_arith)
        requires
            lo as int * lo as int <= n as int,
    ;
    lo
}

} // verus!
