use std::collections::VecDeque;
use primes::bigger::BiggerPrimes;
use primes::linear::LinearPrimes;
use primes::wheel::Wheel;

#[test]
fn linear_and_priority_queue_agree() {
    let mut a = LinearPrimes::new();
    let mut b = BiggerPrimes::new();
    for _ in 0..500 {
        let pa = a.produce_next().unwrap();
        let pb = b.produce_next().unwrap();
        assert_eq!(pa, pb);
    }
}

#[test]
fn linear_first_primes() {
    // Both strategies skip 2, 3, 5 and 7 by construction and start at
    // 11.
    let mut a = LinearPrimes::new();
    let mut out = Vec::new();
    for _ in 0..6 {
        out.push(a.produce_next().unwrap());
    }
    assert_eq!(out, vec![11, 13, 17, 19, 23, 29]);
}

#[test]
fn bigger_first_primes() {
    let mut b = BiggerPrimes::new();
    let mut out = Vec::new();
    for _ in 0..6 {
        out.push(b.produce_next().unwrap());
    }
    assert_eq!(out, vec![11, 13, 17, 19, 23, 29]);
}

#[test]
fn step_reports_composites() {
    let mut b = BiggerPrimes::new();
    // Candidates 11, 13, ..., are primes until 121 = 11 * 11, the first
    // composite the wheel lets through.
    let mut steps_until_none: u32 = 0;
    loop {
        match b.step() {
            Some(_) => steps_until_none += 1,
            None => break,
        }
    }
    // The 26 primes from 11 through 113 precede 121.
    assert_eq!(steps_until_none, 26);
    assert_eq!(b.wheel.state, 121);
}

#[test]
fn one_filter_per_emitted_prime() {
    // The filter population mirrors the primes found: each step that
    // yields a prime queues exactly one new filter, and a step that
    // yields nothing only ever moves the queue front into the active
    // set.
    let mut a = LinearPrimes::new();
    let mut emitted: usize = 0;
    for _ in 0..2000 {
        if a.step().is_some() {
            emitted += 1;
        }
        assert_eq!(a.active.len() + a.queued.len(), emitted);
    }
    assert!(emitted > 0);
}

#[test]
fn candidates_past_the_supported_range_give_none() {
    // A wheel positioned at the last candidate the generator may still
    // test: 4294967287 is coprime to 210 and exceeds the bound that
    // keeps squaring a fresh prime inside u64.
    let wheel = Wheel { index: 7, state: 4294967287 };
    let mut g = LinearPrimes { wheel, active: Vec::new(), queued: VecDeque::new() };
    assert_eq!(g.produce_next(), None);
}
