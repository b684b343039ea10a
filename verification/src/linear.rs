//! The linear-scan prime generator: every active filter is advanced to
//! the current candidate on every step.  Simple, and the reference
//! against which the priority-queue generator can be cross-checked --
//! both meet the same step contract, so they produce the same sequence.

use vstd::prelude::*;
use vstd::pervasive::VecAdditionalExecFns;
use std::collections::VecDeque;
use crate::arith::{
    advances_to_next_candidate, coprime210, is_prime, lemma_composite_small_factor,
    lemma_coprime_square, lemma_mod_gap, lemma_prime_coprime, lemma_prime_ge_11,
    lemma_square_divisible, produce_outcome_ok, step_verdict_ok,
};
use crate::filter::{active_filter_ok, queued_filter_ok, Filter};
use crate::wheel::Wheel;

verus! {

/// An unbounded prime generator, Strategy A: the active filters sit in
/// a plain vector and every one of them is advanced and compared on
/// every candidate.
pub struct LinearPrimes {
    pub wheel: Wheel,
    pub active: Vec<Filter>,
    pub queued: VecDeque<Filter>,
}

impl LinearPrimes {
    /// The current candidate: the last value the wheel produced.
    pub open spec fn cur(self) -> int {
        self.wheel.state as int
    }

    /// Some filter -- active or pending -- tracks the prime `p`.
    pub open spec fn has_filter(self, p: int) -> bool {
        ||| exists|k: int|
            0 <= k < self.active.len() && (#[trigger] self.active[k]).base == p
        ||| exists|k: int|
            0 <= k < self.queued@.len() && (#[trigger] self.queued@[k]).base == p
    }

    /// The generator's invariant.  Filters are activated exactly when
    /// the candidate passes the square of their base, the pending queue
    /// is sorted by base, and -- the completeness that primality
    /// decisions rest on -- every prime from 11 up to the current
    /// candidate is tracked by some filter.
    pub open spec fn wf(self) -> bool {
        &&& self.wheel.wf()
        &&& self.cur() == 1 || self.cur() >= 11
        &&& coprime210(self.cur())
        &&& forall|k: int|
            0 <= k < self.active.len() ==> active_filter_ok(
                #[trigger] self.active[k],
                self.cur(),
            )
        &&& forall|k: int|
            0 <= k < self.queued@.len() ==> queued_filter_ok(
                #[trigger] self.queued@[k],
                self.cur(),
            )
        &&& forall|k1: int, k2: int|
            0 <= k1 < k2 < self.queued@.len() ==> (#[trigger] self.queued@[k1]).base
                < (#[trigger] self.queued@[k2]).base
        &&& forall|p: int| 11 <= p <= self.cur() && is_prime(p) ==> self.has_filter(p)
    }

    /// A fresh generator; its first emitted prime will be 11, so the
    /// primes 2, 3, 5 and 7 -- which the wheel skips by construction --
    /// must be produced separately by the caller.
    pub fn new() -> (g: LinearPrimes)
        ensures
            g.wf(),
            g.cur() == 1,
    {
        LinearPrimes { wheel: Wheel::new(), active: Vec::new(), queued: VecDeque::new() }
    }

    /// One step: draw the next candidate from the wheel, test it
    /// against the filters, and say whether it is prime.  The verdict
    /// is exact: `Some` is returned exactly on the primes.
    pub fn step(&mut self) -> (r: Option<u64>)
        requires
            old(self).wf(),
            old(self).cur() <= 0xFFFF_FFF5,
        ensures
            final(self).wf(),
            advances_to_next_candidate(old(self).cur(), final(self).cur()),
            final(self).cur() <= old(self).cur() + 10,
            step_verdict_ok(final(self).cur(), r),
            match r {
                Some(n) => {
                    &&& final(self).queued@ == old(self).queued@.push(
                        (Filter { base: n, state: (n * n) as u64 }),
                    )
                    &&& final(self).active@.len() == old(self).active@.len()
                },
                None => {
                    &&& if old(self).queued@.len() > 0 && old(self).queued@[0].state
                        == final(self).cur() {
                        final(self).queued@ == old(self).queued@.subrange(
                            1,
                            old(self).queued@.len() as int,
                        ) && final(self).active@.len() == old(self).active@.len() + 1
                            && final(self).active@[old(self).active@.len() as int]
                            == old(self).queued@[0]
                    } else {
                        final(self).queued@ == old(self).queued@
                            && final(self).active@.len() == old(self).active@.len()
                    }
                },
            },
            forall|k: int|
                0 <= k < old(self).active@.len() ==> (#[trigger] final(self).active@[k]).base
                    == old(self).active@[k].base,
    {
        let ghost g0 = *self;
        let ghost c0 = g0.cur();
        let n = self.wheel.next();
        let ghost w1 = self.wheel;
        proof {
            // The first candidate after 1 is 11; later ones stay >= 11.
            if c0 == 1 && (n as int) < 11 {
                assert(coprime210(n as int));
                assert(2 <= n as int && n as int <= 10);
                assert(false);
            }
            assert(n as int >= 11);
        }

        // Advance every active filter to the candidate; remember
        // whether any of them crossed it out.
        let mut matched = false;
        let mut i: usize = 0;
        while i < self.active.len()
            invariant
                i <= self.active.len(),
                self.wheel == w1,
                self.queued@ == g0.queued@,
                self.active.len() == g0.active.len(),
                n == w1.state,
                c0 == g0.cur(),
                g0.wf(),
                c0 <= 0xFFFF_FFF5,
                advances_to_next_candidate(c0, n as int),
                11 <= n as int <= c0 + 10,
                forall|k: int| i <= k < self.active.len() ==> self.active[k] == g0.active[k],
                forall|k: int|
                    0 <= k < i ==> (#[trigger] self.active[k]).base == g0.active[k].base,
                forall|k: int|
                    0 <= k < i ==> active_filter_ok(#[trigger] self.active[k], n as int),
                matched <==> exists|k: int|
                    0 <= k < i && (n as int) % ((#[trigger] g0.active[k]).base as int) == 0,
            decreases self.active.len() - i,
        {
            proof {
                assert(self.active[i as int] == g0.active[i as int]);
                assert(active_filter_ok(g0.active[i as int], c0));
            }
            let mut f = self.active[i];
            let ghost f_old = f;
            let hit = f.matches_or_advance_to(n);
            self.active.set(i, f);
            proof {
                if (n as int) % (f_old.base as int) == 0 && f_old.state > n {
                    // Two multiples of the base on either side of the
                    // candidate would be at least one base apart, but
                    // the filter never runs that far ahead.
                    lemma_mod_gap(f_old.state as int, n as int, f_old.base as int);
                    assert(false);
                }
                assert(hit <==> (n as int) % (f_old.base as int) == 0);
                assert(active_filter_ok(self.active[i as int], n as int));
                assert(f_old.base == g0.active[i as int].base);
                if hit {
                    assert((n as int) % ((g0.active[i as int]).base as int) == 0);
                }
            }
            matched = matched || hit;
            i = i + 1;
        }

        // At most one pending filter can wake at this candidate: the
        // front one, exactly when the candidate is its base squared.
        let mut activated = false;
        if self.queued.len() > 0 {
            let f = self.queued[0];
            if f.state == n {
                let g = self.queued.pop_front().unwrap();
                proof {
                    assert(queued_filter_ok(g, c0));
                    assert(g.base * g.base == n as int);
                    assert(active_filter_ok(g, n as int)) by {
                        assert(g.base <= c0 < n as int);
                    };
                }
                self.active.push(g);
                activated = true;
            }
        }

        proof {
            // Pending filters stay pending: their activation points lie
            // strictly beyond the new candidate.
            assert forall|k: int| 0 <= k < self.queued@.len() implies queued_filter_ok(
                #[trigger] self.queued@[k],
                n as int,
            ) by {
                if activated {
                    assert(self.queued@[k] == g0.queued@[k + 1]);
                    let front = g0.queued@[0];
                    let f = g0.queued@[k + 1];
                    assert(queued_filter_ok(front, c0));
                    assert(queued_filter_ok(f, c0));
                    assert(front.base < f.base);
                    assert(f.base * f.base > front.base * front.base) by (nonlinear_arith)
                        requires
                            2 <= front.base < f.base,
                    {
                    }
                } else {
                    let f = self.queued@[k];
                    assert(queued_filter_ok(f, c0));
                    lemma_prime_coprime(f.base as int);
                    lemma_coprime_square(f.base as int);
                    // Its activation point is coprime to 210, above the
                    // old candidate, so it cannot lie strictly below
                    // the new candidate; and the front rules out
                    // equality for every entry.
                    if f.state < n {
                        assert(c0 < f.base * f.base < n as int);
                        assert(false);
                    }
                    if f.state == n {
                        if k > 0 {
                            let front = g0.queued@[0];
                            assert(queued_filter_ok(front, c0));
                            assert(front.base < f.base);
                            assert(front.base * front.base < f.base * f.base)
                                by (nonlinear_arith)
                                requires
                                    2 <= front.base < f.base,
                            {
                            }
                            lemma_prime_coprime(front.base as int);
                            lemma_coprime_square(front.base as int);
                            assert(c0 < front.base * front.base < n as int);
                            assert(false);
                        } else {
                            assert(false);
                        }
                    }
                }
            };
        }

        if matched || activated {
            proof {
                // Something crossed the candidate out, so it is indeed
                // composite.
                if matched {
                    let k = choose|k: int|
                        0 <= k < g0.active.len() && (n as int) % (
                        (#[trigger] g0.active[k]).base as int) == 0;
                    let b = g0.active[k].base as int;
                    assert(active_filter_ok(g0.active[k], c0));
                    assert(11 <= b && b <= c0);
                    assert(2 <= b < n as int);
                    assert((n as int) % b == 0);
                    assert(!is_prime(n as int));
                } else {
                    let front = g0.queued@[0];
                    assert(queued_filter_ok(front, c0));
                    let p = front.base as int;
                    lemma_square_divisible(p);
                    assert(front.state == n);
                    assert(p * p == n as int);
                    assert(p < n as int) by (nonlinear_arith)
                        requires
                            2 <= p,
                            p * p == n as int,
                    {
                    }
                    assert((n as int) % p == 0);
                    assert(!is_prime(n as int));
                }
                self.lemma_coverage_composite(g0, c0, activated);
            }
            return None;
        }

        proof {
            // Nothing crossed the candidate out; were it composite, a
            // prime factor with square below it would exist, and the
            // filter that tracks that factor -- active or at the front
            // of the queue -- would have caught it.
            if !is_prime(n as int) {
                lemma_composite_small_factor(n as int);
                let p = choose|p: int|
                    is_prime(p) && #[trigger] ((n as int) % p) == 0 && p * p <= n as int;
                lemma_prime_ge_11(p);
                lemma_prime_coprime(p);
                assert(p < n as int) by (nonlinear_arith)
                    requires
                        2 <= p,
                        p * p <= n as int,
                {
                }
                assert(p <= c0);
                assert(g0.has_filter(p));
                if exists|k: int|
                    0 <= k < g0.active.len() && (#[trigger] g0.active[k]).base == p {
                    let k = choose|k: int|
                        0 <= k < g0.active.len() && (#[trigger] g0.active[k]).base == p;
                    assert((n as int) % ((g0.active[k]).base as int) == 0);
                    assert(matched);
                    assert(false);
                } else {
                    let k = choose|k: int|
                        0 <= k < g0.queued@.len() && (#[trigger] g0.queued@[k]).base == p;
                    let front = g0.queued@[0];
                    assert(queued_filter_ok(front, c0));
                    assert(queued_filter_ok(g0.queued@[k], c0));
                    if k > 0 {
                        assert(front.base < g0.queued@[k].base);
                    }
                    assert(front.base <= p);
                    assert(front.base * front.base <= p * p) by (nonlinear_arith)
                        requires
                            2 <= front.base <= p,
                    {
                    }
                    lemma_prime_coprime(front.base as int);
                    lemma_coprime_square(front.base as int);
                    assert(c0 < front.base * front.base <= n as int);
                    assert(front.base * front.base == n as int);
                    assert(activated);
                    assert(false);
                }
            }
        }
        proof {
            assert(n as int * n as int <= u64::MAX as int) by (nonlinear_arith)
                requires
                    11 <= n as int <= 0xFFFF_FFFF,
            {
            }
        }
        let f = Filter::new(n);
        proof {
            assert(queued_filter_ok(f, n as int)) by {
                assert(n as int * (n as int) > n as int) by (nonlinear_arith)
                    requires
                        11 <= n as int,
                {
                }
            };
            assert(forall|k: int|
                0 <= k < self.queued@.len() ==> (#[trigger] self.queued@[k]).base <= c0);
        }
        self.queued.push_back(f);
        proof {
            assert(f == (Filter { base: n, state: (n * n) as u64 }));
            assert(self.queued@ == g0.queued@.push(f));
            self.lemma_coverage_prime(g0, c0, activated);
        }
        Some(n)
    }

    /// Coverage carries over a composite step: filters only moved from
    /// the queue to the active set, so every prime keeps its filter.
    proof fn lemma_coverage_composite(self, g0: LinearPrimes, c0: int, activated: bool)
        requires
            g0.wf(),
            c0 == g0.cur(),
            self.active.len() == g0.active.len() + if activated { 1int } else { 0int },
            forall|k: int|
                0 <= k < g0.active.len() ==> (#[trigger] self.active[k]).base == g0.active[k].base,
            activated ==> g0.queued@.len() > 0 && self.active[g0.active.len() as int].base
                == g0.queued@[0].base && self.queued@ == g0.queued@.subrange(
                1,
                g0.queued@.len() as int,
            ),
            !activated ==> self.queued@ == g0.queued@,
            advances_to_next_candidate(c0, self.cur()),
            !is_prime(self.cur()),
        ensures
            forall|p: int| 11 <= p <= self.cur() && is_prime(p) ==> self.has_filter(p),
    {
        assert forall|p: int| 11 <= p <= self.cur() && is_prime(p) implies self.has_filter(
            p,
        ) by {
            if p <= c0 {
                assert(g0.has_filter(p));
                if exists|k: int|
                    0 <= k < g0.active.len() && (#[trigger] g0.active[k]).base == p {
                    let k = choose|k: int|
                        0 <= k < g0.active.len() && (#[trigger] g0.active[k]).base == p;
                    assert(self.active[k].base == p);
                } else {
                    let k = choose|k: int|
                        0 <= k < g0.queued@.len() && (#[trigger] g0.queued@[k]).base == p;
                    if activated {
                        if k == 0 {
                            assert(self.active[g0.active.len() as int].base == p);
                        } else {
                            assert(self.queued@[k - 1].base == p);
                        }
                    } else {
                        assert(self.queued@[k].base == p);
                    }
                }
            } else {
                // No prime hides between the old and the new candidate,
                // and the new candidate itself is composite here.
                lemma_prime_coprime(p);
                assert(c0 < p < self.cur() ==> !coprime210(p));
                assert(p == self.cur());
                assert(false);
            }
        };
    }

    /// Coverage after emitting a prime: the freshly queued filter
    /// tracks it, and every older prime keeps its filter.
    proof fn lemma_coverage_prime(self, g0: LinearPrimes, c0: int, activated: bool)
        requires
            g0.wf(),
            c0 == g0.cur(),
            self.active.len() == g0.active.len() + if activated { 1int } else { 0int },
            forall|k: int|
                0 <= k < g0.active.len() ==> (#[trigger] self.active[k]).base == g0.active[k].base,
            activated ==> g0.queued@.len() > 0 && self.active[g0.active.len() as int].base
                == g0.queued@[0].base && self.queued@ == g0.queued@.subrange(
                1,
                g0.queued@.len() as int,
            ).push(self.queued@[self.queued@.len() - 1]),
            !activated ==> self.queued@ == g0.queued@.push(
                self.queued@[self.queued@.len() - 1],
            ),
            self.queued@.len() > 0,
            self.queued@[self.queued@.len() - 1].base == self.cur(),
            advances_to_next_candidate(c0, self.cur()),
        ensures
            forall|p: int| 11 <= p <= self.cur() && is_prime(p) ==> self.has_filter(p),
    {
        assert forall|p: int| 11 <= p <= self.cur() && is_prime(p) implies self.has_filter(
            p,
        ) by {
            if p <= c0 {
                assert(g0.has_filter(p));
                if exists|k: int|
                    0 <= k < g0.active.len() && (#[trigger] g0.active[k]).base == p {
                    let k = choose|k: int|
                        0 <= k < g0.active.len() && (#[trigger] g0.active[k]).base == p;
                    assert(self.active[k].base == p);
                } else {
                    let k = choose|k: int|
                        0 <= k < g0.queued@.len() && (#[trigger] g0.queued@[k]).base == p;
                    if activated {
                        if k == 0 {
                            assert(self.active[g0.active.len() as int].base == p);
                        } else {
                            assert(self.queued@[k - 1].base == p);
                        }
                    } else {
                        assert(self.queued@[k].base == p);
                    }
                }
            } else {
                lemma_prime_coprime(p);
                assert(c0 < p < self.cur() ==> !coprime210(p));
                assert(p == self.cur());
                assert(self.queued@[self.queued@.len() - 1].base == p);
            }
        };
    }

    /// Looks for the next prime: steps until one is found, or reports
    /// that the candidates ran out of the supported range.  The outcome
    /// is pinned either way: a returned prime is exactly the least
    /// prime above the old candidate that the wheel can reach (every
    /// prime from 11 up), and "ran out" can only be reported with
    /// every prime up to the range's edge ruled out.
    pub fn produce_next(&mut self) -> (r: Option<u64>)
        requires
            old(self).wf(),
            old(self).cur() <= 0xFFFF_FFFF,
        ensures
            final(self).wf(),
            old(self).cur() <= final(self).cur() <= 0xFFFF_FFFF,
            r is Some ==> r->0 == final(self).cur(),
            produce_outcome_ok(old(self).cur(), final(self).cur(), r),
    {
        let ghost c0 = self.cur();
        loop
            invariant
                self.wf(),
                c0 == old(self).cur(),
                c0 <= self.cur(),
                self.cur() <= 0xFFFF_FFFF,
                forall|m: int| c0 < m <= self.cur() && m >= 11 ==> !is_prime(m),
                forall|m: int|
                    c0 < m < self.cur() && coprime210(m) ==> m <= 0xFFFF_FFF5,
            decreases 0x1_0000_0000 - self.cur(),
        {
            if self.wheel.state > 0xFFFF_FFF5 {
                return None;
            }
            let ghost cprev = self.cur();
            match self.step() {
                Some(p) => {
                    proof {
                        assert forall|m: int| c0 < m < p && m >= 11 implies !is_prime(m) by {
                            if m <= cprev {
                                assert(!is_prime(m));
                            } else {
                                crate::arith::lemma_not_coprime_composite(m);
                            }
                        };
                        assert forall|m: int| c0 < m < p && coprime210(m) implies m
                            <= 0xFFFF_FFF5 by {
                            if m == cprev {
                                assert(cprev <= 0xFFFF_FFF5);
                            } else if m > cprev {
                                assert(!coprime210(m));
                            }
                        };
                    }
                    return Some(p);
                },
                None => {
                    proof {
                        assert forall|m: int| c0 < m <= self.cur() && m >= 11 implies !is_prime(
                            m,
                        ) by {
                            if m <= cprev {
                                assert(!is_prime(m));
                            } else if m < self.cur() {
                                crate::arith::lemma_not_coprime_composite(m);
                            }
                        };
                        assert forall|m: int| c0 < m < self.cur() && coprime210(m) implies m
                            <= 0xFFFF_FFF5 by {
                            if m == cprev {
                                assert(cprev <= 0xFFFF_FFF5);
                            } else if m > cprev {
                                assert(!coprime210(m));
                            }
                        };
                    }
                },
            }
        }
    }
}

} // verus!
