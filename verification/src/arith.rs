//! Number-theoretic definitions and lemmas shared by the whole crate:
//! primality, coprimality to the wheel's excluded primes, and the
//! divisibility facts the sieve's correctness argument rests on.

use vstd::prelude::*;
use vstd::arithmetic::div_mod::{
    lemma_add_mod_noop, lemma_fundamental_div_mod, lemma_mod_mod, lemma_mod_multiples_vanish,
    lemma_mod_self_0, lemma_mul_mod_noop, lemma_small_mod,
};

verus! {

/// `n` is a prime number: at least 2 and with no divisor strictly
/// between 1 and itself.
pub open spec fn is_prime(n: int) -> bool {
    2 <= n && forall|d: int| 2 <= d < n ==> #[trigger] (n % d) != 0
}

/// `n` shares no factor with 210 = 2 * 3 * 5 * 7: exactly the integers
/// the wheel visits.
pub open spec fn coprime210(n: int) -> bool {
    n % 2 != 0 && n % 3 != 0 && n % 5 != 0 && n % 7 != 0
}

/// The generator moved from candidate `c0` to candidate `c1`: forward,
/// onto an integer coprime to 210, skipping nothing coprime to 210.
pub open spec fn advances_to_next_candidate(c0: int, c1: int) -> bool {
    &&& c0 < c1
    &&& coprime210(c1)
    &&& forall|m: int| c0 < m < c1 ==> !coprime210(m)
}

/// The verdict a generator step returns about its candidate `c1`:
/// the candidate itself when it is prime, nothing when it is not.
pub open spec fn step_verdict_ok(c1: int, r: Option<u64>) -> bool {
    match r {
        Some(n) => n == c1 && is_prime(c1),
        None => !is_prime(c1),
    }
}

/// What one search for a prime guarantees, starting from candidate `c`
/// and ending at candidate `f`.  A returned prime is the least prime
/// (from 11 up) above `c`; no value is returned only when the
/// candidates ran past the last one whose square fits the integer
/// range, with every prime up to there ruled out.  Either way no
/// candidate beyond that bound was ever stepped from, which pins the
/// outcome completely: two searches from the same `c` end alike.
pub open spec fn produce_outcome_ok(c: int, f: int, r: Option<u64>) -> bool {
    &&& c <= f <= 0xFFFF_FFFF
    &&& match r {
        Some(p) => {
            &&& c <= 0xFFFF_FFF5
            &&& is_prime(p as int)
            &&& 11 <= p
            &&& p == f
            &&& c < p
            &&& (forall|m: int| c < m < p && m >= 11 ==> !is_prime(m))
            &&& (forall|m: int| c < m < p && coprime210(m) ==> m <= 0xFFFF_FFF5)
        },
        None => {
            &&& f > 0xFFFF_FFF5
            &&& coprime210(f)
            &&& (forall|m: int| c < m <= f && m >= 11 ==> !is_prime(m))
            &&& (forall|m: int| c < m < f && coprime210(m) ==> m <= 0xFFFF_FFF5)
        },
    }
}

/// "The least prime above `c`" names a unique number: together with
/// the generator's contract -- each output is the least prime above the
/// previous one -- this pins the whole output sequence, so the `k`th
/// output of a fresh generator is the `k`th prime.
pub proof fn lemma_next_prime_unique(c: int, p1: int, p2: int)
    requires
        is_prime(p1),
        c < p1,
        forall|m: int| c < m < p1 ==> !is_prime(m),
        is_prime(p2),
        c < p2,
        forall|m: int| c < m < p2 ==> !is_prime(m),
    ensures
        p1 == p2,
{
    if p1 < p2 {
        assert(!is_prime(p1));
    }
    if p2 < p1 {
        assert(!is_prime(p2));
    }
}

/// Two multiples of `d` that differ, differ by at least `d`.
pub proof fn lemma_mod_gap(a: int, b: int, d: int)
    requires
        0 < d,
        a % d == 0,
        b % d == 0,
        b < a,
    ensures
        b + d <= a,
{
    lemma_fundamental_div_mod(a, d);
    lemma_fundamental_div_mod(b, d);
    assert(b + d <= a) by (nonlinear_arith)
        requires
            0 < d,
            a == d * (a / d),
            b == d * (b / d),
            b < a,
    {
    }
}

/// Coprimality to 210 depends only on the residue modulo 210.
pub proof fn lemma_coprime_mod210(m: int)
    ensures
        coprime210(m) <==> coprime210(m % 210),
{
    lemma_mod_mod(m, 2, 105);
    lemma_mod_mod(m, 3, 70);
    lemma_mod_mod(m, 5, 42);
    lemma_mod_mod(m, 7, 30);
}

/// Adding a small offset commutes with reduction modulo 210.
pub proof fn lemma_add_mod210(s: int, j: int)
    requires
        0 <= j < 210,
    ensures
        (s + j) % 210 == ((s % 210) + j) % 210,
{
    lemma_add_mod_noop(s, j, 210);
    lemma_small_mod(j as nat, 210);
}

/// Divisibility is transitive: if `q` divides `d` and `d` divides `n`,
/// then `q` divides `n`.
pub proof fn lemma_divides_transitive(q: int, d: int, n: int)
    requires
        0 < q,
        0 < d,
        d % q == 0,
        n % d == 0,
    ensures
        n % q == 0,
{
    lemma_fundamental_div_mod(n, d);
    lemma_fundamental_div_mod(d, q);
    let t = (d / q) * (n / d);
    assert(n == q * t) by (nonlinear_arith)
        requires
            n == d * (n / d),
            d == q * (d / q),
            t == (d / q) * (n / d),
    {
    }
    lemma_mod_multiples_vanish(t, 0, q);
    lemma_small_mod(0, q as nat);
}

/// Every integer at least 2 has a prime factor no larger than itself.
pub proof fn lemma_has_prime_factor(n: int)
    requires
        2 <= n,
    ensures
        exists|p: int| is_prime(p) && #[trigger] (n % p) == 0 && 2 <= p <= n,
    decreases n,
{
    if is_prime(n) {
        lemma_mod_self_0(n);
        assert(is_prime(n) && n % n == 0 && 2 <= n <= n);
    } else {
        let d = choose|d: int| 2 <= d < n && #[trigger] (n % d) == 0;
        assert(2 <= d < n && n % d == 0);
        lemma_has_prime_factor(d);
        let p = choose|p: int| is_prime(p) && #[trigger] (d % p) == 0 && 2 <= p <= d;
        lemma_divides_transitive(p, d, n);
        assert(is_prime(p) && n % p == 0 && 2 <= p <= n);
    }
}

/// A composite number has a prime factor whose square does not exceed it.
pub proof fn lemma_composite_small_factor(n: int)
    requires
        2 <= n,
        !is_prime(n),
    ensures
        exists|p: int| is_prime(p) && #[trigger] (n % p) == 0 && p * p <= n,
{
    let d = choose|d: int| 2 <= d < n && #[trigger] (n % d) == 0;
    assert(2 <= d < n && n % d == 0);
    lemma_fundamental_div_mod(n, d);
    let e = n / d;
    assert(n == d * e);
    assert(2 <= e) by (nonlinear_arith)
        requires
            n == d * e,
            2 <= d < n,
    {
    }
    let m = if d <= e { d } else { e };
    assert(m * m <= n) by (nonlinear_arith)
        requires
            n == d * e,
            2 <= d,
            2 <= e,
            m == if d <= e { d } else { e },
    {
    }
    if m == e {
        assert(e * d + 0 == n) by (nonlinear_arith)
            requires
                n == d * e,
        {
        }
        lemma_mod_multiples_vanish(d, 0, e);
        lemma_small_mod(0, e as nat);
        assert(n % e == 0);
    }
    assert(n % m == 0);
    lemma_has_prime_factor(m);
    let p = choose|p: int| is_prime(p) && #[trigger] (m % p) == 0 && 2 <= p <= m;
    lemma_divides_transitive(p, m, n);
    assert(p * p <= m * m) by (nonlinear_arith)
        requires
            2 <= p <= m,
    {
    }
    assert(is_prime(p) && n % p == 0 && p * p <= n);
}

/// The primes below 11 are exactly 2, 3, 5 and 7.
pub proof fn lemma_prime_ge_11(p: int)
    requires
        is_prime(p),
        p != 2,
        p != 3,
        p != 5,
        p != 7,
    ensures
        p >= 11,
{
    if p == 4 {
        assert(4int % 2 == 0);
    }
    if p == 6 {
        assert(6int % 2 == 0);
    }
    if p == 8 {
        assert(8int % 2 == 0);
    }
    if p == 9 {
        assert(9int % 3 == 0);
    }
    if p == 10 {
        assert(10int % 2 == 0);
    }
}

/// A prime of 11 or more is coprime to 210.
pub proof fn lemma_prime_coprime(p: int)
    requires
        is_prime(p),
        p >= 11,
    ensures
        coprime210(p),
{
    assert(p % 2 != 0);
    assert(p % 3 != 0);
    assert(p % 5 != 0);
    assert(p % 7 != 0);
}

/// The square of a number coprime to 210 is coprime to 210.
pub proof fn lemma_coprime_square(p: int)
    requires
        coprime210(p),
    ensures
        coprime210(p * p),
{
    lemma_mul_mod_noop(p, p, 2);
    lemma_mul_mod_noop(p, p, 3);
    lemma_mul_mod_noop(p, p, 5);
    lemma_mul_mod_noop(p, p, 7);
    assert((p % 2) * (p % 2) % 2 != 0) by (nonlinear_arith)
        requires
            p % 2 != 0,
            0 <= p % 2 < 2,
    {
    }
    assert((p % 3) * (p % 3) % 3 != 0) by (nonlinear_arith)
        requires
            p % 3 != 0,
            0 <= p % 3 < 3,
    {
    }
    assert((p % 5) * (p % 5) % 5 != 0) by (nonlinear_arith)
        requires
            p % 5 != 0,
            0 <= p % 5 < 5,
    {
    }
    assert((p % 7) * (p % 7) % 7 != 0) by (nonlinear_arith)
        requires
            p % 7 != 0,
            0 <= p % 7 < 7,
    {
    }
}

/// A positive number divides its own square.
pub proof fn lemma_square_divisible(p: int)
    requires
        0 < p,
    ensures
        (p * p) % p == 0,
{
    lemma_mod_multiples_vanish(p, 0, p);
    lemma_small_mod(0, p as nat);
}

/// Above 10, a value not coprime to 210 is composite.
pub proof fn lemma_not_coprime_composite(m: int)
    requires
        m >= 11,
        !coprime210(m),
    ensures
        !is_prime(m),
{
    if m % 2 == 0 {
        assert(!is_prime(m));
    } else if m % 3 == 0 {
        assert(!is_prime(m));
    } else if m % 5 == 0 {
        assert(!is_prime(m));
    } else {
        assert(m % 7 == 0);
        assert(!is_prime(m));
    }
}

} // verus!
