//! A filter tracks the multiples of one prime: the sequence
//! p*p, p*p + p, p*p + 2p, ... -- the numbers that prime "crosses out".
//! Starting at the square is sound because every smaller multiple has a
//! smaller prime factor, and so is crossed out by a smaller filter.

use vstd::prelude::*;
use crate::arith::{is_prime, lemma_mod_gap};
use vstd::arithmetic::div_mod::{lemma_add_mod_noop, lemma_mod_multiples_vanish, lemma_small_mod};

verus! {

/// What holds of every filter in a generator's active set when the
/// current candidate is `c`: its base is a prime whose square has been
/// reached, and its state has not been advanced past the first multiple
/// beyond `c` -- so no multiple of the base up to `c` was skipped.
pub open spec fn active_filter_ok(f: Filter, c: int) -> bool {
    &&& f.wf()
    &&& 11 <= f.base
    &&& is_prime(f.base as int)
    &&& f.base <= c
    &&& f.base * f.base <= c
    &&& f.state <= c + f.base
}

/// What holds of every filter in a generator's pending queue when the
/// current candidate is `c`: it still sits at its activation point, the
/// square of its base, which has not been reached yet.
pub open spec fn queued_filter_ok(f: Filter, c: int) -> bool {
    &&& f.wf()
    &&& 11 <= f.base
    &&& is_prime(f.base as int)
    &&& f.base <= c
    &&& f.state == f.base * f.base
    &&& c < f.state
}

/// One arithmetic progression of multiples of `base`, positioned at
/// `state`, the next multiple it will be compared against.
#[derive(Clone, Copy)]
pub struct Filter {
    pub base: u64,
    pub state: u64,
}

impl Filter {
    /// The filter's invariant: `state` is a multiple of `base` no
    /// smaller than `base * base`.
    pub open spec fn wf(self) -> bool {
        &&& 2 <= self.base
        &&& self.base * self.base <= self.state
        &&& self.state % self.base == 0
    }

    /// A new filter for `base`, positioned at `base * base`.
    pub fn new(base: u64) -> (f: Filter)
        requires
            2 <= base,
            base * base <= u64::MAX,
        ensures
            f.wf(),
            f.base == base,
            f.state == base * base,
    {
        proof {
            crate::arith::lemma_square_divisible(base as int);
        }
        Filter { base, state: base * base }
    }

    /// Advances to the next multiple and returns it.
    pub fn step(&mut self) -> (n: u64)
        requires
            old(self).wf(),
            old(self).state + old(self).base <= u64::MAX,
        ensures
            final(self).wf(),
            final(self).base == old(self).base,
            final(self).state == old(self).state + old(self).base,
            n == final(self).state,
    {
        proof {
            lemma_add_mod_noop(self.state as int, self.base as int, self.base as int);
            lemma_mod_multiples_vanish(1, 0, self.base as int);
            lemma_small_mod(0, self.base as nat);
        }
        self.state = self.state + self.base;
        self.state
    }

    /// Advances until `state` reaches at least `n` and reports whether
    /// it landed exactly on `n` -- that is, whether `base` crosses `n`
    /// out.  The state never moves backwards, and a query below the
    /// current state leaves the filter untouched.
    pub fn matches_or_advance_to(&mut self, n: u64) -> (hit: bool)
        requires
            old(self).wf(),
            n <= u64::MAX - old(self).base,
        ensures
            final(self).wf(),
            final(self).base == old(self).base,
            old(self).state <= final(self).state,
            hit == (final(self).state == n),
            old(self).state >= n ==> *final(self) == *old(self),
            old(self).state < n ==> n <= final(self).state < n + old(self).base,
            old(self).state <= n ==> (hit <==> n % old(self).base == 0),
    {
        while self.state < n
            invariant
                self.wf(),
                self.base == old(self).base,
                old(self).state <= self.state,
                n <= u64::MAX - self.base,
                old(self).state < n ==> self.state < n + self.base,
                old(self).state >= n ==> *self == *old(self),
            decreases n + self.base - self.state,
        {
            proof {
                lemma_add_mod_noop(self.state as int, self.base as int, self.base as int);
                lemma_mod_multiples_vanish(1, 0, self.base as int);
                lemma_small_mod(0, self.base as nat);
            }
            self.state = self.state + self.base;
        }
        proof {
            if old(self).state <= n {
                if n % self.base == 0 && self.state != n {
                    // Both are multiples of `base`; a multiple strictly
                    // between `n` and `n + base` cannot exist.
                    lemma_mod_gap(self.state as int, n as int, self.base as int);
                }
            }
        }
        self.state == n
    }
}

} // verus!
