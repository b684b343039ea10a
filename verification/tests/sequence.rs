use primes::primes::Primes;

fn prime_by_trial_division(n: u64) -> bool {
    if n < 2 {
        return false;
    }
    let mut d: u64 = 2;
    while d * d <= n {
        if n % d == 0 {
            return false;
        }
        d += 1;
    }
    true
}

#[test]
fn first_five_outputs() {
    let mut g = Primes::new();
    let mut out = Vec::new();
    for _ in 0..5 {
        out.push(g.next().unwrap());
    }
    assert_eq!(out, vec![2, 3, 5, 7, 11]);
}

#[test]
fn first_thousand_prime_and_increasing() {
    let mut g = Primes::new();
    let mut last: u64 = 0;
    for _ in 0..1000 {
        let p = g.next().unwrap();
        assert!(prime_by_trial_division(p), "{} is not prime", p);
        assert!(p > last, "{} does not exceed {}", p, last);
        last = p;
    }
    assert_eq!(last, 7919);
}

#[test]
fn kth_output_is_kth_prime() {
    let mut g = Primes::new();
    let mut kth: u64 = 0;
    for _ in 0..10000 {
        kth = g.next().unwrap();
    }
    // The 10000th prime (K = 9999, 0-indexed).
    assert_eq!(kth, 104729);
}

#[test]
fn hundred_thousandth_prime() {
    let mut g = Primes::new();
    let mut kth: u64 = 0;
    for _ in 0..100000 {
        kth = g.next().unwrap();
    }
    assert_eq!(kth, 1299709);
}

#[test]
fn no_prime_skipped_below_thousand() {
    let mut g = Primes::new();
    let mut expected = Vec::new();
    for n in 2..1000u64 {
        if prime_by_trial_division(n) {
            expected.push(n);
        }
    }
    let mut produced = Vec::new();
    while produced.len() < expected.len() {
        produced.push(g.next().unwrap());
    }
    assert_eq!(produced, expected);
}
