//! The priority-queue prime generator, Strategy B: active filters are
//! keyed by their state in a max-priority queue (the priority is the
//! state's distance from `u64::MAX`, so the greatest priority marks the
//! least state), and only the filters that actually lag behind the
//! candidate are advanced.  Its step meets the very same contract as
//! the linear generator's, so the two produce identical sequences.

use vstd::prelude::*;
use vstd::multiset::Multiset;
use vstd::multiset::lemma_insert_len;
use std::collections::VecDeque;
use std::collections::hash_map::RandomState;
use priority_queue::PriorityQueue;
use crate::arith::{
    advances_to_next_candidate, coprime210, is_prime, lemma_composite_small_factor,
    lemma_coprime_square, lemma_mod_gap, lemma_prime_coprime, lemma_prime_ge_11,
    lemma_square_divisible, produce_outcome_ok, step_verdict_ok,
};
use crate::filter::{active_filter_ok, queued_filter_ok, Filter};
use crate::pqueue::{pq_contents, pq_new, pq_peek, pq_pop, pq_push};
use crate::wheel::Wheel;

verus! {

/// The filter a queue entry stands for.
pub open spec fn pair_filter(x: ((u64, u64), u64)) -> Filter {
    Filter { base: x.0.0, state: x.0.1 }
}

/// A queue entry at candidate `c`: a sound active filter whose priority
/// mirrors its state, so that the queue's maximum is the least state.
pub open spec fn pq_elem_ok(x: ((u64, u64), u64), c: int) -> bool {
    &&& active_filter_ok(pair_filter(x), c)
    &&& x.1 == u64::MAX - x.0.1
}

/// Entries hold pairwise distinct bases, each exactly once.
pub open spec fn pq_distinct(ms: Multiset<((u64, u64), u64)>) -> bool {
    &&& forall|x: ((u64, u64), u64)| #[trigger] ms.count(x) <= 1
    &&& forall|x: ((u64, u64), u64), y: ((u64, u64), u64)|
        ms.count(x) > 0 && ms.count(y) > 0 && x != y ==> x.0.0 != y.0.0
}

/// Some entry of `ms` tracks the prime `p`.
pub open spec fn pq_has_base(ms: Multiset<((u64, u64), u64)>, p: int) -> bool {
    exists|x: ((u64, u64), u64)| #[trigger] ms.count(x) > 0 && x.0.0 == p
}

/// The entries whose filter still lags behind the candidate `n`.
pub open spec fn below_n(n: u64) -> spec_fn(((u64, u64), u64)) -> bool {
    |x: ((u64, u64), u64)| x.0.1 < n
}

/// Taking out a lagging entry and putting back a caught-up one shrinks
/// the set of lagging entries: the scan loop's termination measure.
proof fn lemma_measure_shrinks(
    ms: Multiset<((u64, u64), u64)>,
    y: ((u64, u64), u64),
    z: ((u64, u64), u64),
    n: u64,
)
    requires
        ms.count(y) > 0,
        y.0.1 < n,
        z.0.1 >= n,
    ensures
        ms.remove(y).insert(z).filter(below_n(n)).len() < ms.filter(below_n(n)).len(),
{
    broadcast use vstd::multiset::group_multiset_axioms;
    broadcast use vstd::multiset::group_multiset_properties;

    let f = below_n(n);
    let ms1 = ms.remove(y);
    assert(ms =~= ms1.insert(y));
    assert(ms1.insert(y).filter(f) =~= ms1.filter(f).insert(y));
    assert(ms1.insert(z).filter(f) =~= ms1.filter(f));
    lemma_insert_len(ms1.filter(f), y);
}

/// Exchanging one entry for another keeps the number of entries.
proof fn lemma_exchange_len(
    ms: Multiset<((u64, u64), u64)>,
    y: ((u64, u64), u64),
    z: ((u64, u64), u64),
)
    requires
        ms.count(y) > 0,
    ensures
        ms.remove(y).insert(z).len() == ms.len(),
{
    broadcast use vstd::multiset::group_multiset_axioms;

    let ms1 = ms.remove(y);
    assert(ms =~= ms1.insert(y));
    lemma_insert_len(ms1, y);
    lemma_insert_len(ms1, z);
}

/// An unbounded prime generator, Strategy B: active filters are pulled
/// out by least state, advanced only when the candidate has caught up
/// with them, and reinserted.
pub struct BiggerPrimes {
    pub wheel: Wheel,
    pub active: PriorityQueue<(u64, u64), u64, RandomState>,
    pub queued: VecDeque<Filter>,
}

impl BiggerPrimes {
    /// The current candidate: the last value the wheel produced.
    pub open spec fn cur(self) -> int {
        self.wheel.state as int
    }

    /// Some filter -- active or pending -- tracks the prime `p`.
    pub open spec fn has_filter(self, p: int) -> bool {
        ||| pq_has_base(pq_contents(self.active), p)
        ||| exists|k: int|
            0 <= k < self.queued@.len() && (#[trigger] self.queued@[k]).base == p
    }

    /// The generator's invariant; the same shape as the linear
    /// generator's, with the active set read through the queue model.
    pub open spec fn wf(self) -> bool {
        &&& self.wheel.wf()
        &&& self.cur() == 1 || self.cur() >= 11
        &&& coprime210(self.cur())
        &&& forall|x: ((u64, u64), u64)|
            #[trigger] pq_contents(self.active).count(x) > 0 ==> pq_elem_ok(x, self.cur())
        &&& pq_distinct(pq_contents(self.active))
        &&& forall|k: int|
            0 <= k < self.queued@.len() ==> queued_filter_ok(
                #[trigger] self.queued@[k],
                self.cur(),
            )
        &&& forall|k1: int, k2: int|
            0 <= k1 < k2 < self.queued@.len() ==> (#[trigger] self.queued@[k1]).base
                < (#[trigger] self.queued@[k2]).base
        &&& forall|p: int| 11 <= p <= self.cur() && is_prime(p) ==> self.has_filter(p)
    }

    /// A fresh generator; as with the linear one, the caller emits
    /// 2, 3, 5 and 7 itself.
    pub fn new() -> (g: BiggerPrimes)
        ensures
            g.wf(),
            g.cur() == 1,
    {
        let g = BiggerPrimes { wheel: Wheel::new(), active: pq_new(), queued: VecDeque::new() };
        proof {
            broadcast use vstd::multiset::group_multiset_axioms;

            assert(g.wf());
        }
        g
    }

    /// One step: draw the next candidate, drain the lagging filters
    /// from the front of the priority queue, and judge the candidate.
    /// The verdict is exact: `Some` is returned exactly on the primes.
    pub fn step(&mut self) -> (r: Option<u64>)
        requires
            old(self).wf(),
            old(self).cur() <= 0xFFFF_FFF5,
        ensures
            final(self).wf(),
            advances_to_next_candidate(old(self).cur(), final(self).cur()),
            final(self).cur() <= old(self).cur() + 10,
            step_verdict_ok(final(self).cur(), r),
            match r {
                Some(n) => {
                    &&& final(self).queued@ == old(self).queued@.push(
                        (Filter { base: n, state: (n * n) as u64 }),
                    )
                    &&& pq_contents(final(self).active).len() == pq_contents(
                        old(self).active,
                    ).len()
                },
                None => {
                    &&& if old(self).queued@.len() > 0 && old(self).queued@[0].state
                        == final(self).cur() {
                        final(self).queued@ == old(self).queued@.subrange(
                            1,
                            old(self).queued@.len() as int,
                        ) && pq_contents(final(self).active).len() == pq_contents(
                            old(self).active,
                        ).len() + 1
                    } else {
                        final(self).queued@ == old(self).queued@ && pq_contents(
                            final(self).active,
                        ).len() == pq_contents(old(self).active).len()
                    }
                },
            },
            forall|p: int|
                pq_has_base(pq_contents(final(self).active), p) <==> (pq_has_base(
                    pq_contents(old(self).active),
                    p,
                ) || (old(self).queued@.len() > 0 && old(self).queued@[0].state
                    == final(self).cur() && p == old(self).queued@[0].base as int)),
    {
        broadcast use vstd::multiset::group_multiset_axioms;
        broadcast use vstd::multiset::group_multiset_properties;

        let ghost g0 = *self;
        let ghost c0 = g0.cur();
        let ghost ms0 = pq_contents(g0.active);
        let n = self.wheel.next();
        let ghost w1 = self.wheel;
        proof {
            if c0 == 1 && (n as int) < 11 {
                assert(coprime210(n as int));
                assert(2 <= n as int && n as int <= 10);
                assert(false);
            }
            assert(n as int >= 11);
        }

        // Pull up every filter that lags behind the candidate; stop as
        // soon as one lands exactly on it.
        let mut matched = false;
        loop
            invariant
                self.wheel == w1,
                self.queued@ == g0.queued@,
                n == w1.state,
                c0 == g0.cur(),
                g0.wf(),
                ms0 == pq_contents(g0.active),
                c0 <= 0xFFFF_FFF5,
                advances_to_next_candidate(c0, n as int),
                11 <= n as int <= c0 + 10,
                forall|x: ((u64, u64), u64)|
                    #[trigger] pq_contents(self.active).count(x) > 0 ==> {
                        &&& pair_filter(x).wf()
                        &&& 11 <= x.0.0
                        &&& is_prime(x.0.0 as int)
                        &&& x.0.0 <= c0
                        &&& x.0.0 as int * x.0.0 as int <= c0
                        &&& x.1 == u64::MAX - x.0.1
                        &&& x.0.1 <= c0 + x.0.0 || (n <= x.0.1 && x.0.1 < n + x.0.0 && (
                        n as int) % (x.0.0 as int) != 0)
                    },
                pq_distinct(pq_contents(self.active)),
                pq_contents(self.active).len() == ms0.len(),
                forall|p: int|
                    pq_has_base(pq_contents(self.active), p) <==> pq_has_base(ms0, p),
                matched ==> exists|x: ((u64, u64), u64)|
                    #[trigger] pq_contents(self.active).count(x) > 0 && (n as int) % (
                    x.0.0 as int) == 0,
            ensures
                !matched ==> forall|x: ((u64, u64), u64)|
                    #[trigger] pq_contents(self.active).count(x) > 0 ==> x.0.1 > n,
            decreases pq_contents(self.active).filter(below_n(n)).len(),
        {
            let peeked = pq_peek(&self.active);
            match peeked {
                None => {
                    proof {
                        assert forall|y: ((u64, u64), u64)|
                            #[trigger] pq_contents(self.active).count(y) > 0 implies y.0.1
                            > n by {
                            assert(pq_contents(self.active).count(y) == 0);
                        };
                    }
                    break ;
                },
                Some(x) => {
                    if x.0.1 == n {
                        matched = true;
                        proof {
                            assert(pair_filter(x).wf());
                            assert((n as int) % (x.0.0 as int) == 0);
                        }
                        break ;
                    }
                    if x.0.1 > n {
                        // The least state already exceeds the
                        // candidate, so every filter does.
                        proof {
                            assert forall|y: ((u64, u64), u64)|
                                #[trigger] pq_contents(self.active).count(y) > 0 implies y.0.1
                                > n by {
                                assert(y.1 <= x.1);
                                assert(y.1 == u64::MAX - y.0.1);
                                assert(x.1 == u64::MAX - x.0.1);
                            };
                        }
                        break ;
                    }
                    let ghost msa = pq_contents(self.active);
                    let popped = pq_pop(&mut self.active);
                    let y = popped.unwrap();
                    proof {
                        // The popped entry carries the greatest
                        // priority, hence the least state: the peeked
                        // state, below the candidate.
                        assert(y.1 <= x.1 && x.1 <= y.1);
                        assert(y.0.1 == x.0.1);
                    }
                    let mut f = Filter { base: y.0.0, state: y.0.1 };
                    proof {
                        assert(pair_filter(y).wf() && f == pair_filter(y));
                        assert(n as int <= u64::MAX - f.base) by {
                            assert(y.0.0 <= c0);
                        };
                    }
                    let hit = f.matches_or_advance_to(n);
                    let z: ((u64, u64), u64) = ((f.base, f.state), u64::MAX - f.state);
                    proof {
                        // The reinserted pair is fresh: its base was
                        // unique, and its state moved.
                        assert forall|w: ((u64, u64), u64)|
                            #[trigger] pq_contents(self.active).count(w) > 0 implies w.0
                            != z.0 by {
                            assert(msa.count(w) > 0 || w == y);
                            if w == y {
                                assert(msa.count(y) <= 1);
                                assert(pq_contents(self.active).count(y) == 0);
                                assert(false);
                            }
                            assert(msa.count(w) > 0 && w != y);
                            assert(w.0.0 != y.0.0);
                        };
                        lemma_measure_shrinks(msa, y, z, n);
                        lemma_exchange_len(msa, y, z);
                    }
                    pq_push(&mut self.active, (f.base, f.state), u64::MAX - f.state);
                    proof {
                        let msb = pq_contents(self.active);
                        assert(msb == msa.remove(y).insert(z));
                        // Per-element facts survive the exchange.
                        assert forall|w: ((u64, u64), u64)| #[trigger] msb.count(w) > 0 implies (
                        msa.count(w) > 0 || w == z) by {
                            if w != z {
                                assert(msa.remove(y).count(w) > 0);
                            }
                        };
                        // Base preservation, in both directions.
                        assert forall|p: int| pq_has_base(msb, p) implies pq_has_base(
                            ms0,
                            p,
                        ) by {
                            let w = choose|w: ((u64, u64), u64)|
                                #[trigger] msb.count(w) > 0 && w.0.0 == p;
                            if w == z {
                                assert(msa.count(y) > 0 && y.0.0 == p);
                            } else {
                                assert(msa.count(w) > 0 && w.0.0 == p);
                            }
                        };
                        assert forall|p: int| pq_has_base(ms0, p) implies pq_has_base(
                            msb,
                            p,
                        ) by {
                            let w = choose|w: ((u64, u64), u64)|
                                #[trigger] msa.count(w) > 0 && w.0.0 == p;
                            if w == y {
                                assert(msb.count(z) > 0 && z.0.0 == p);
                            } else {
                                assert(msb.count(w) > 0 && w.0.0 == p);
                            }
                        };
                        // Distinctness survives: the new entry reuses
                        // the removed entry's base.
                        assert(pq_distinct(msb)) by {
                            assert forall|w: ((u64, u64), u64)| #[trigger] msb.count(w)
                                <= 1 by {
                                if w == z {
                                    assert(msa.remove(y).count(z) == 0) by {
                                        if msa.count(z) > 0 {
                                            assert(z.0.0 == y.0.0 && z != y);
                                            assert(false);
                                        }
                                    };
                                } else {
                                    assert(msb.count(w) == msa.remove(y).count(w));
                                }
                            };
                        };
                        if hit {
                            assert((n as int) % (z.0.0 as int) == 0);
                            assert(msb.count(z) > 0);
                        } else {
                            assert(f.state > n);
                        }
                    }
                    if hit {
                        matched = true;
                        break ;
                    }
                },
            }
        }

        // The pending queue's front activates exactly on its square.
        let mut activated = false;
        let ghost msq = pq_contents(self.active);
        if self.queued.len() > 0 {
            let f = self.queued[0];
            if f.state == n {
                let g = self.queued.pop_front().unwrap();
                proof {
                    assert(queued_filter_ok(g, c0));
                    assert(g.base * g.base == n as int);
                    assert forall|w: ((u64, u64), u64)|
                        #[trigger] pq_contents(self.active).count(w) > 0 implies w.0 != (
                    g.base, g.state) by {
                        assert(w.0.0 <= c0);
                        assert(g.base * g.base == n as int && g.base <= c0);
                        assert(w.0.0 != g.base) by (nonlinear_arith)
                            requires
                                w.0.0 as int * w.0.0 as int <= c0,
                                g.base as int * g.base as int == n as int,
                                c0 < n as int,
                        {
                        }
                    };
                }
                pq_push(&mut self.active, (g.base, g.state), u64::MAX - g.state);
                proof {
                    lemma_insert_len(msq, ((g.base, g.state), (u64::MAX - g.state) as u64));
                    assert(pq_contents(self.active).len() == msq.len() + 1);
                    assert forall|p: int|
                        pq_has_base(pq_contents(self.active), p) implies (pq_has_base(msq, p)
                        || p == g.base as int) by {
                        let w = choose|w: ((u64, u64), u64)|
                            #[trigger] pq_contents(self.active).count(w) > 0 && w.0.0 == p;
                        if w != ((g.base, g.state), (u64::MAX - g.state) as u64) {
                            assert(msq.count(w) > 0 && w.0.0 == p);
                        }
                    };
                }
                activated = true;
            }
        }

        proof {
            // Pending filters stay pending, exactly as in the linear
            // generator.
            assert forall|k: int| 0 <= k < self.queued@.len() implies queued_filter_ok(
                #[trigger] self.queued@[k],
                n as int,
            ) by {
                if activated {
                    assert(self.queued@[k] == g0.queued@[k + 1]);
                    let front = g0.queued@[0];
                    let f = g0.queued@[k + 1];
                    assert(queued_filter_ok(front, c0));
                    assert(queued_filter_ok(f, c0));
                    assert(front.base < f.base);
                    assert(f.base * f.base > front.base * front.base) by (nonlinear_arith)
                        requires
                            2 <= front.base < f.base,
                    {
                    }
                } else {
                    let f = self.queued@[k];
                    assert(queued_filter_ok(f, c0));
                    lemma_prime_coprime(f.base as int);
                    lemma_coprime_square(f.base as int);
                    if f.state < n {
                        assert(c0 < f.base * f.base < n as int);
                        assert(false);
                    }
                    if f.state == n {
                        if k > 0 {
                            let front = g0.queued@[0];
                            assert(queued_filter_ok(front, c0));
                            assert(front.base < f.base);
                            assert(front.base * front.base < f.base * f.base)
                                by (nonlinear_arith)
                                requires
                                    2 <= front.base < f.base,
                            {
                            }
                            lemma_prime_coprime(front.base as int);
                            lemma_coprime_square(front.base as int);
                            assert(c0 < front.base * front.base < n as int);
                            assert(false);
                        } else {
                            assert(false);
                        }
                    }
                }
            };
            // Every active entry is sound at the new candidate.
            assert forall|x: ((u64, u64), u64)|
                #[trigger] pq_contents(self.active).count(x) > 0 implies pq_elem_ok(
                x,
                n as int,
            ) by {
                if activated && msq.count(x) == 0 {
                    let g = g0.queued@[0];
                    assert(x == ((g.base, g.state), (u64::MAX - g.state) as u64));
                    assert(queued_filter_ok(g, c0));
                    assert(active_filter_ok(pair_filter(x), n as int));
                } else {
                    assert(msq.count(x) > 0);
                    assert(x.0.0 as int * x.0.0 as int <= c0 < n as int);
                    assert(x.0.1 <= c0 + x.0.0 || x.0.1 < n + x.0.0);
                    assert(active_filter_ok(pair_filter(x), n as int));
                }
            };
        }

        proof {
            if activated {
                let gf = g0.queued@[0];
                let e = ((gf.base, gf.state), (u64::MAX - gf.state) as u64);
                assert(pq_contents(self.active).count(e) > 0);
                assert(pq_has_base(pq_contents(self.active), gf.base as int));
            }
            assert forall|p: int| pq_has_base(ms0, p) implies pq_has_base(
                pq_contents(self.active),
                p,
            ) by {
                assert(pq_has_base(msq, p));
                let w = choose|w: ((u64, u64), u64)| #[trigger] msq.count(w) > 0 && w.0.0 == p;
                assert(pq_contents(self.active).count(w) >= msq.count(w));
            };
        }
        if matched || activated {
            proof {
                if matched {
                    let x = choose|x: ((u64, u64), u64)|
                        #[trigger] msq.count(x) > 0 && (n as int) % (x.0.0 as int) == 0;
                    let b = x.0.0 as int;
                    assert(11 <= b && b <= c0);
                    assert(2 <= b < n as int);
                    assert((n as int) % b == 0);
                    assert(!is_prime(n as int));
                } else {
                    let front = g0.queued@[0];
                    assert(queued_filter_ok(front, c0));
                    let p = front.base as int;
                    lemma_square_divisible(p);
                    assert(front.state == n);
                    assert(p * p == n as int);
                    assert(p < n as int) by (nonlinear_arith)
                        requires
                            2 <= p,
                            p * p == n as int,
                    {
                    }
                    assert((n as int) % p == 0);
                    assert(!is_prime(n as int));
                }
                self.lemma_coverage(g0, c0, activated, false);
            }
            return None;
        }

        proof {
            // No active filter and no waking filter crossed the
            // candidate out; a composite candidate is impossible.
            if !is_prime(n as int) {
                lemma_composite_small_factor(n as int);
                let p = choose|p: int|
                    is_prime(p) && #[trigger] ((n as int) % p) == 0 && p * p <= n as int;
                lemma_prime_ge_11(p);
                lemma_prime_coprime(p);
                assert(p < n as int) by (nonlinear_arith)
                    requires
                        2 <= p,
                        p * p <= n as int,
                {
                }
                assert(p <= c0);
                assert(g0.has_filter(p));
                if pq_has_base(ms0, p) {
                    assert(pq_has_base(msq, p));
                    let x = choose|x: ((u64, u64), u64)|
                        #[trigger] msq.count(x) > 0 && x.0.0 == p;
                    // `p` divides the candidate, so the lagging scan
                    // could only have ended by meeting this entry.
                    assert(x.0.1 <= c0 + x.0.0);
                    assert(x.0.1 > n);
                    lemma_mod_gap(x.0.1 as int, n as int, p);
                    assert(false);
                } else {
                    let k = choose|k: int|
                        0 <= k < g0.queued@.len() && (#[trigger] g0.queued@[k]).base == p;
                    let front = g0.queued@[0];
                    assert(queued_filter_ok(front, c0));
                    assert(queued_filter_ok(g0.queued@[k], c0));
                    if k > 0 {
                        assert(front.base < g0.queued@[k].base);
                    }
                    assert(front.base <= p);
                    assert(front.base * front.base <= p * p) by (nonlinear_arith)
                        requires
                            2 <= front.base <= p,
                    {
                    }
                    lemma_prime_coprime(front.base as int);
                    lemma_coprime_square(front.base as int);
                    assert(c0 < front.base * front.base <= n as int);
                    assert(front.base * front.base == n as int);
                    assert(activated);
                    assert(false);
                }
            }
            assert(n as int * (n as int) <= u64::MAX as int) by (nonlinear_arith)
                requires
                    11 <= n as int <= 0xFFFF_FFFF,
            {
            }
        }
        let f = Filter::new(n);
        proof {
            assert(queued_filter_ok(f, n as int)) by {
                assert(n as int * (n as int) > n as int) by (nonlinear_arith)
                    requires
                        11 <= n as int,
                {
                }
            };
            assert(forall|k: int|
                0 <= k < self.queued@.len() ==> (#[trigger] self.queued@[k]).base <= c0);
        }
        self.queued.push_back(f);
        proof {
            assert(f == (Filter { base: n, state: (n * n) as u64 }));
            assert(self.queued@ == g0.queued@.push(f));
            self.lemma_coverage(g0, c0, activated, true);
        }
        Some(n)
    }

    /// Every prime up to the new candidate keeps a filter: entries only
    /// moved between the queue and the active set, and a newly emitted
    /// prime brings its own.
    proof fn lemma_coverage(self, g0: BiggerPrimes, c0: int, activated: bool, emitted: bool)
        requires
            g0.wf(),
            c0 == g0.cur(),
            advances_to_next_candidate(c0, self.cur()),
            forall|p: int|
                pq_has_base(pq_contents(g0.active), p) ==> pq_has_base(
                    pq_contents(self.active),
                    p,
                ),
            activated ==> g0.queued@.len() > 0 && pq_has_base(
                pq_contents(self.active),
                g0.queued@[0].base as int,
            ),
            activated && !emitted ==> self.queued@ == g0.queued@.subrange(
                1,
                g0.queued@.len() as int,
            ),
            !activated && !emitted ==> self.queued@ == g0.queued@,
            activated && emitted ==> self.queued@ == g0.queued@.subrange(
                1,
                g0.queued@.len() as int,
            ).push(self.queued@[self.queued@.len() - 1]),
            !activated && emitted ==> self.queued@ == g0.queued@.push(
                self.queued@[self.queued@.len() - 1],
            ),
            emitted ==> self.queued@.len() > 0 && self.queued@[self.queued@.len() - 1].base
                == self.cur(),
            !emitted ==> !is_prime(self.cur()),
        ensures
            forall|p: int| 11 <= p <= self.cur() && is_prime(p) ==> self.has_filter(p),
    {
        assert forall|p: int| 11 <= p <= self.cur() && is_prime(p) implies self.has_filter(
            p,
        ) by {
            if p <= c0 {
                assert(g0.has_filter(p));
                if pq_has_base(pq_contents(g0.active), p) {
                    assert(pq_has_base(pq_contents(self.active), p));
                } else {
                    let k = choose|k: int|
                        0 <= k < g0.queued@.len() && (#[trigger] g0.queued@[k]).base == p;
                    if activated {
                        if k == 0 {
                            assert(pq_has_base(pq_contents(self.active), p));
                        } else {
                            assert(self.queued@[k - 1].base == p);
                        }
                    } else {
                        assert(self.queued@[k].base == p);
                    }
                }
            } else {
                lemma_prime_coprime(p);
                assert(c0 < p < self.cur() ==> !coprime210(p));
                assert(p == self.cur());
                assert(emitted);
                assert(self.queued@[self.queued@.len() - 1].base == p);
            }
        };
    }

    /// Looks for the next prime: steps until one is found, or reports
    /// that the candidates ran out of the supported range.  The outcome
    /// is pinned either way: a returned prime is exactly the least
    /// prime above the old candidate that the wheel can reach (every
    /// prime from 11 up), and "ran out" can only be reported with
    /// every prime up to the range's edge ruled out.
    pub fn produce_next(&mut self) -> (r: Option<u64>)
        requires
            old(self).wf(),
            old(self).cur() <= 0xFFFF_FFFF,
        ensures
            final(self).wf(),
            old(self).cur() <= final(self).cur() <= 0xFFFF_FFFF,
            r is Some ==> r->0 == final(self).cur(),
            produce_outcome_ok(old(self).cur(), final(self).cur(), r),
    {
        let ghost c0 = self.cur();
        loop
            invariant
                self.wf(),
                c0 == old(self).cur(),
                c0 <= self.cur(),
                self.cur() <= 0xFFFF_FFFF,
                forall|m: int| c0 < m <= self.cur() && m >= 11 ==> !is_prime(m),
                forall|m: int|
                    c0 < m < self.cur() && coprime210(m) ==> m <= 0xFFFF_FFF5,
            decreases 0x1_0000_0000 - self.cur(),
        {
            if self.wheel.state > 0xFFFF_FFF5 {
                return None;
            }
            let ghost cprev = self.cur();
            match self.step() {
                Some(p) => {
                    proof {
                        assert forall|m: int| c0 < m < p && m >= 11 implies !is_prime(m) by {
                            if m <= cprev {
                                assert(!is_prime(m));
                            } else {
                                crate::arith::lemma_not_coprime_composite(m);
                            }
                        };
                        assert forall|m: int| c0 < m < p && coprime210(m) implies m
                            <= 0xFFFF_FFF5 by {
                            if m == cprev {
                                assert(cprev <= 0xFFFF_FFF5);
                            } else if m > cprev {
                                assert(!coprime210(m));
                            }
                        };
                    }
                    return Some(p);
                },
                None => {
                    proof {
                        assert forall|m: int| c0 < m <= self.cur() && m >= 11 implies !is_prime(
                            m,
                        ) by {
                            if m <= cprev {
                                assert(!is_prime(m));
                            } else if m < self.cur() {
                                crate::arith::lemma_not_coprime_composite(m);
                            }
                        };
                        assert forall|m: int| c0 < m < self.cur() && coprime210(m) implies m
                            <= 0xFFFF_FFF5 by {
                            if m == cprev {
                                assert(cprev <= 0xFFFF_FFF5);
                            } else if m > cprev {
                                assert(!coprime210(m));
                            }
                        };
                    }
                },
            }
        }
    }
}

} // verus!
