//! The full prime sequence: the four wheel-excluded primes 2, 3, 5, 7
//! first, then everything the incremental sieve finds.  Each call to
//! `next` returns exactly the least prime above the last one returned,
//! so the sequence from a fresh instance is the prime sequence itself.

use vstd::prelude::*;
use crate::arith::{
    advances_to_next_candidate, coprime210, is_prime, produce_outcome_ok, step_verdict_ok,
};
use crate::bigger::BiggerPrimes;

verus! {

/// The `k`th of the four primes the wheel never visits.
pub open spec fn small_prime(k: int) -> int {
    if k == 0 {
        2
    } else if k == 1 {
        3
    } else if k == 2 {
        5
    } else {
        7
    }
}

/// The whole prime sequence, lazily: 2, 3, 5, 7 from a fixed table,
/// everything above from the incremental sieve.
pub struct Primes {
    pub emitted_small: usize,
    pub bigger: BiggerPrimes,
}

impl Primes {
    /// The last prime this instance returned, or 1 before the first
    /// call, so that "the least prime above it" always names the next
    /// output.
    pub open spec fn last_emitted(self) -> int {
        if self.bigger.cur() != 1 {
            self.bigger.cur()
        } else if self.emitted_small == 0 {
            1
        } else {
            small_prime(self.emitted_small as int - 1)
        }
    }

    /// The front's invariant: the sieve is consulted only once the four
    /// small primes are out, and what it last produced was a prime --
    /// unless the candidates ran out of the supported range.
    pub open spec fn wf(self) -> bool {
        &&& self.bigger.wf()
        &&& self.bigger.cur() <= 0xFFFF_FFFF
        &&& self.emitted_small <= 4
        &&& (self.bigger.cur() != 1 ==> self.emitted_small == 4 && (is_prime(self.bigger.cur())
            || self.bigger.cur() > 0xFFFF_FFF5))
    }

    /// A fresh sequence, starting over from 2.
    pub fn new() -> (g: Primes)
        ensures
            g.wf(),
            g.last_emitted() == 1,
    {
        Primes { emitted_small: 0, bigger: BiggerPrimes::new() }
    }

    /// Returns the least prime above the last output (2 on the first
    /// call), or nothing once the candidates would leave the supported
    /// range -- and then only with every prime up to that range's edge
    /// ruled out, so the whole sequence, including where it ends, is a
    /// function of the last output alone.
    pub fn next(&mut self) -> (r: Option<u64>)
        requires
            old(self).wf(),
        ensures
            final(self).wf(),
            match r {
                Some(p) => {
                    &&& is_prime(p as int)
                    &&& p as int == final(self).last_emitted()
                    &&& old(self).last_emitted() < p
                    &&& forall|m: int|
                        old(self).last_emitted() < m < p ==> !is_prime(m)
                    &&& forall|m: int|
                        old(self).last_emitted() < m < p && coprime210(m) ==> m
                            <= 0xFFFF_FFF5
                },
                None => {
                    &&& final(self).bigger.cur() > 0xFFFF_FFF5
                    &&& forall|m: int|
                        old(self).last_emitted() < m <= final(self).bigger.cur()
                            ==> !is_prime(m)
                    &&& forall|m: int|
                        old(self).last_emitted() < m < final(self).bigger.cur()
                            && coprime210(m) ==> m <= 0xFFFF_FFF5
                },
            },
    {
        if self.emitted_small < 4 {
            let p: u64 = if self.emitted_small == 0 {
                2
            } else if self.emitted_small == 1 {
                3
            } else if self.emitted_small == 2 {
                5
            } else {
                7
            };
            self.emitted_small = self.emitted_small + 1;
            proof {
                assert(is_prime(2));
                assert(is_prime(3));
                assert(is_prime(5)) by {
                    assert(forall|d: int| 2 <= d < 5 ==> #[trigger] (5int % d) != 0) by {
                        assert(5int % 2 == 1 && 5int % 3 == 2 && 5int % 4 == 1);
                    };
                };
                assert(is_prime(7)) by {
                    assert(forall|d: int| 2 <= d < 7 ==> #[trigger] (7int % d) != 0) by {
                        assert(7int % 2 == 1 && 7int % 3 == 1 && 7int % 4 == 3 && 7int % 5 == 2
                            && 7int % 6 == 1);
                    };
                };
                assert(!is_prime(4)) by {
                    assert(4int % 2 == 0);
                };
                assert(!is_prime(6)) by {
                    assert(6int % 2 == 0);
                };
                assert(!coprime210(4) && !coprime210(6));
            }
            Some(p)
        } else {
            let ghost last0 = self.last_emitted();
            let ghost cur0 = self.bigger.cur();
            let r = self.bigger.produce_next();
            proof {
                assert(cur0 <= last0);
                if last0 == 7 {
                    assert(!is_prime(8)) by {
                        assert(8int % 2 == 0);
                    };
                    assert(!is_prime(9)) by {
                        assert(9int % 3 == 0);
                    };
                    assert(!is_prime(10)) by {
                        assert(10int % 2 == 0);
                    };
                }
            }
            match r {
                Some(p) => {
                    proof {
                        assert forall|m: int| last0 < m < p implies !is_prime(m) by {
                            if m >= 11 {
                                assert(!is_prime(m));
                            } else {
                                assert(m == 8 || m == 9 || m == 10);
                            }
                        };
                    }
                    Some(p)
                },
                None => {
                    proof {
                        assert forall|m: int| last0 < m <= self.bigger.cur() implies !is_prime(
                            m,
                        ) by {
                            if m >= 11 {
                                assert(!is_prime(m));
                            } else {
                                assert(m == 8 || m == 9 || m == 10);
                            }
                        };
                    }
                    None
                },
            }
        }
    }
}

/// Any two searches for a prime that meet `produce_next`'s contract,
/// started at the same candidate, end at the same candidate with the
/// same outcome: the same prime, or both reporting the candidates out
/// of range.  So the two strategies' whole output sequences -- values
/// and length alike -- are identical, and a fresh instance of either
/// always restarts the very same sequence.
pub proof fn lemma_produce_next_agree(
    c: int,
    f1: int,
    r1: Option<u64>,
    f2: int,
    r2: Option<u64>,
)
    requires
        produce_outcome_ok(c, f1, r1),
        produce_outcome_ok(c, f2, r2),
    ensures
        r1 == r2,
{
    match (r1, r2) {
        (Some(p1), Some(p2)) => {
            if p1 < p2 {
                assert(!is_prime(p1 as int));
            }
            if p2 < p1 {
                assert(!is_prime(p2 as int));
            }
        },
        (Some(p1), None) => {
            assert(c <= 0xFFFF_FFF5 < f2);
            if p1 <= f2 {
                assert(!is_prime(p1 as int));
            } else {
                assert(c < f2 < p1 && coprime210(f2));
                assert(f2 <= 0xFFFF_FFF5);
            }
            assert(false);
        },
        (None, Some(p2)) => {
            assert(c <= 0xFFFF_FFF5 < f1);
            if p2 <= f1 {
                assert(!is_prime(p2 as int));
            } else {
                assert(c < f1 < p2 && coprime210(f1));
                assert(f1 <= 0xFFFF_FFF5);
            }
            assert(false);
        },
        (None, None) => {
        },
    }
}

/// Any two implementations that meet the generator's step contract
/// agree: from the same candidate they move to the same next candidate
/// and return the same verdict.  In particular, the linear and the
/// priority-queue strategies, run over the same range, produce
/// identical output sequences.
pub proof fn lemma_strategies_agree(
    c: int,
    c1: int,
    r1: Option<u64>,
    c2: int,
    r2: Option<u64>,
)
    requires
        advances_to_next_candidate(c, c1),
        step_verdict_ok(c1, r1),
        advances_to_next_candidate(c, c2),
        step_verdict_ok(c2, r2),
    ensures
        c1 == c2,
        r1 == r2,
{
    if c1 < c2 {
        assert(!crate::arith::coprime210(c1));
        assert(false);
    }
    if c2 < c1 {
        assert(!crate::arith::coprime210(c2));
        assert(false);
    }
}

} // verus!
