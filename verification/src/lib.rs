//! An incremental, unbounded prime generator.
//!
//! Primes are enumerated in increasing order by testing successive
//! candidates against *filters*: arithmetic progressions that mark the
//! multiples of each prime found so far.  A wheel skips candidates
//! divisible by 2, 3, 5 or 7, and filters stay dormant in a pending
//! queue until the candidate reaches the square of their base.

pub mod arith;
pub mod filter;
pub mod wheel;
pub mod linear;
pub mod pqueue;
pub mod bigger;
pub mod primes;
