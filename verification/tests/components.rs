use primes::filter::Filter;
use primes::wheel::{wheel_inc_at, Wheel};

#[test]
fn filter_starts_at_square_and_steps_by_base() {
    let mut f = Filter::new(11);
    assert_eq!(f.base, 11);
    assert_eq!(f.state, 121);
    let mut expected: u64 = 121;
    for _ in 0..50 {
        expected += 11;
        assert_eq!(f.step(), expected);
        assert_eq!(f.state, expected);
        assert_eq!(f.base, 11);
    }
}

#[test]
fn filter_match_detects_exact_multiples() {
    let mut f = Filter::new(13);
    assert!(!f.matches_or_advance_to(168));
    assert!(f.matches_or_advance_to(169));
    assert!(f.matches_or_advance_to(182));
    assert!(!f.matches_or_advance_to(183));
    assert!(f.matches_or_advance_to(13 * 100));
}

#[test]
fn filter_query_below_state_leaves_it_alone() {
    let mut f = Filter::new(17);
    assert_eq!(f.state, 289);
    assert!(!f.matches_or_advance_to(100));
    assert_eq!(f.state, 289);
    assert!(!f.matches_or_advance_to(288));
    assert_eq!(f.state, 289);
    assert!(f.matches_or_advance_to(289));
    assert_eq!(f.state, 289);
    // Repeated queries with non-decreasing targets never move the
    // state backwards.
    let mut previous = f.state;
    for n in [290u64, 300, 306, 306, 400] {
        f.matches_or_advance_to(n);
        assert!(f.state >= previous);
        previous = f.state;
    }
}

#[test]
fn wheel_starts_at_eleven() {
    let mut w = Wheel::new();
    assert_eq!(w.next(), 11);
    assert_eq!(w.next(), 13);
    assert_eq!(w.next(), 17);
    assert_eq!(w.next(), 19);
    assert_eq!(w.next(), 23);
}

#[test]
fn wheel_visits_exactly_coprimes() {
    let mut w = Wheel::new();
    let mut visited = Vec::new();
    for _ in 0..480 {
        visited.push(w.next());
    }
    let mut expected = Vec::new();
    let mut m: u64 = 2;
    while expected.len() < visited.len() {
        if m % 2 != 0 && m % 3 != 0 && m % 5 != 0 && m % 7 != 0 {
            expected.push(m);
        }
        m += 1;
    }
    assert_eq!(visited, expected);
}

#[test]
fn wheel_cycle_spans_product_of_excluded_primes() {
    // From any starting point, one full turn of 48 increments advances
    // the value by exactly 210 = 2 * 3 * 5 * 7.
    let mut total: u64 = 0;
    for i in 0..48 {
        total += wheel_inc_at(i);
    }
    assert_eq!(total, 210);

    let mut w = Wheel::new();
    for skip in [0usize, 7, 19, 48] {
        for _ in 0..skip {
            w.next();
        }
        let start = w.state;
        let before = w.index;
        for _ in 0..48 {
            w.next();
        }
        assert_eq!(w.state, start + 210);
        assert_eq!(w.index, before);
    }
}

#[test]
fn wheel_cycle_counts_forty_eight_candidates() {
    // Exactly 48 integers in any window of width 210 are coprime to
    // 210, and the wheel visits each exactly once.
    let mut w = Wheel::new();
    let start = w.state;
    let mut visited = Vec::new();
    for _ in 0..48 {
        visited.push(w.next());
    }
    assert_eq!(w.state, start + 210);
    let mut count: u32 = 0;
    for m in start + 1..=start + 210 {
        if m % 2 != 0 && m % 3 != 0 && m % 5 != 0 && m % 7 != 0 {
            count += 1;
            assert!(visited.contains(&m));
        }
    }
    assert_eq!(count, 48);
    assert_eq!(visited.len(), 48);
}
