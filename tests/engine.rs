use primes::{
    assignments, divisor_is_proper, is_prime, search_bound, Assignment, Begin, PoolState, Report,
    Scan, ScanStep,
};

/// Runs one worker's scan to its end, with no cancellation.
fn run_scan(a: &Assignment) -> Report {
    let mut scan = Scan::new(a);
    loop {
        match scan.step(false) {
            ScanStep::Continue => {}
            ScanStep::Found(d) => return Report::Divisor(d),
            ScanStep::Exhausted => return Report::Clear,
            ScanStep::Cancelled => unreachable!(),
        }
    }
}

/// Answers a query the way a pool of workers does, one worker after another.
fn query(pool: &mut PoolState, number: u128) -> bool {
    match pool.begin(number) {
        Begin::Known(v) => v,
        Begin::Dispatch(tag, work) => {
            for (i, a) in work.iter().enumerate() {
                if let Some(v) = pool.answer(i, tag, run_scan(a)) {
                    return v;
                }
            }
            panic!("a round ended without a verdict");
        }
    }
}

#[test]
fn search_bound_is_root_plus_one() {
    assert_eq!(search_bound(0), 1);
    assert_eq!(search_bound(99), 10);
    assert_eq!(search_bound(100), 11);
    assert_eq!(search_bound(u128::MAX), 1u128 << 64);
}

#[test]
fn partition_covers_interval() {
    let work = assignments(10007, 3);
    assert_eq!(work.len(), 3);
    assert_eq!(work[0], Assignment { number: 10007, start: 2, end: 35 });
    assert_eq!(work[1], Assignment { number: 10007, start: 35, end: 68 });
    assert_eq!(work[2], Assignment { number: 10007, start: 68, end: 101 });
}

#[test]
fn partition_remainder_goes_last() {
    let work = assignments(1000, 4);
    // search interval [2, 32): 30 values, width 7, last takes 9
    let bounds: Vec<(u128, u128)> = work.iter().map(|a| (a.start, a.end)).collect();
    assert_eq!(bounds, vec![(2, 9), (9, 16), (16, 23), (23, 32)]);
}

#[test]
fn partition_random_pairs() {
    let mut x: u128 = 0x9e3779b97f4a7c15;
    for _ in 0..200 {
        x = x.wrapping_mul(6364136223846793005).wrapping_add(1442695040888963407);
        let number = x >> (x % 120);
        let threads = (x % 17) as usize + 1;
        let work = assignments(number, threads);
        assert_eq!(work.len(), threads);
        let end = std::cmp::max(search_bound(number), 2);
        assert_eq!(work[0].start, 2);
        assert_eq!(work[threads - 1].end, end);
        for w in work.windows(2) {
            assert_eq!(w[0].end, w[1].start);
        }
        for a in &work {
            assert!(a.start <= a.end);
            assert_eq!(a.number, number);
        }
    }
}

#[test]
fn partition_more_workers_than_candidates() {
    let work = assignments(10, 8);
    assert_eq!(work.len(), 8);
    assert!(work[..7].iter().all(|a| a.start == 2 && a.end == 2));
    assert_eq!(work[7], Assignment { number: 10, start: 2, end: 4 });
}

#[test]
fn scan_finds_two_first() {
    let mut scan = Scan::new(&Assignment { number: 1000, start: 2, end: 32 });
    assert_eq!(scan.step(false), ScanStep::Found(2));
    // a scan stays at its divisor
    assert_eq!(scan.step(false), ScanStep::Found(2));
}

#[test]
fn scan_skips_even_candidates() {
    // 91 = 7 * 13; candidates from 4: 4 is passed over, then 5, 7
    let mut scan = Scan::new(&Assignment { number: 91, start: 4, end: 10 });
    assert_eq!(scan.step(false), ScanStep::Continue);
    assert_eq!(scan.next, 5);
    assert_eq!(scan.step(false), ScanStep::Continue);
    assert_eq!(scan.next, 7);
    assert_eq!(scan.step(false), ScanStep::Found(7));
}

#[test]
fn scan_even_number_tests_only_two() {
    // an even number is rejected at 2 without trying 4, 6, 8, ...
    let work = assignments(1 << 40, 1);
    let mut scan = Scan::new(&work[0]);
    let mut steps = 0;
    let found = loop {
        steps += 1;
        match scan.step(false) {
            ScanStep::Continue => {}
            other => break other,
        }
    };
    assert_eq!(found, ScanStep::Found(2));
    assert_eq!(steps, 1);
}

#[test]
fn scan_exhausts_clear_range() {
    let mut scan = Scan::new(&Assignment { number: 97, start: 2, end: 10 });
    let mut tests = 0;
    loop {
        match scan.step(false) {
            ScanStep::Continue => tests += 1,
            ScanStep::Exhausted => break,
            other => panic!("unexpected {:?}", other),
        }
    }
    // 2, 3, 5, 7, 9
    assert_eq!(tests, 5);
    assert_eq!(scan.step(false), ScanStep::Exhausted);
}

#[test]
fn cancellation_stops_other_workers_at_once() {
    // 2 * 1000003: the first worker finds 2 at once; another worker whose
    // range is long must stop at its next poll, not at the end of its range.
    let number: u128 = 2 * 1_000_003 * 1_000_033;
    let work = assignments(number, 4);
    let mut finder = Scan::new(&work[0]);
    assert_eq!(finder.step(false), ScanStep::Found(2));
    let mut other = Scan::new(&work[2]);
    let mut iterations = 0;
    for _ in 0..3 {
        assert_eq!(other.step(false), ScanStep::Continue);
        iterations += 1;
    }
    let before = other;
    // the alert arrives: the next step tests nothing
    assert_eq!(other.step(true), ScanStep::Cancelled);
    assert_eq!(other.next, before.next);
    assert_eq!(iterations, 3);
    assert!(((work[2].end - work[2].start) / 2) > 1000);
}

#[test]
fn divisor_is_proper_cases() {
    assert!(divisor_is_proper(91, 7));
    assert!(!divisor_is_proper(91, 6));
    assert!(!divisor_is_proper(91, 1));
    assert!(!divisor_is_proper(91, 91));
    assert!(!divisor_is_proper(0, 0));
}

#[test]
fn pool_cache_scenarios() {
    let mut pool = PoolState::new(4, 1000);
    assert_eq!(query(&mut pool, 97), true);
    assert_eq!(query(&mut pool, 91), false);
    assert_eq!(query(&mut pool, 2), true);
    assert_eq!(query(&mut pool, 4), false);
}

#[test]
fn pool_cache_agrees_with_trial_division() {
    let mut pool = PoolState::new(3, 2000);
    for n in 0..2000u128 {
        assert!(matches!(pool.begin(n), Begin::Known(v) if v == is_prime(n)));
    }
}

#[test]
fn pool_engine_above_cache() {
    let mut pool = PoolState::new(4, 1000);
    for n in 1000..3000u128 {
        assert_eq!(query(&mut pool, n), is_prime(n), "n = {}", n);
    }
    assert_eq!(query(&mut pool, 1_000_003), true);
    assert_eq!(query(&mut pool, 1_000_003 * 1_000_033), false);
}

#[test]
fn pool_repeat_query_same_answer() {
    let mut pool = PoolState::new(2, 100);
    let first = query(&mut pool, 1009);
    assert!(matches!(pool.begin(1009), Begin::Known(v) if v == first));
    assert_eq!(first, true);
    let composite = query(&mut pool, 1007);
    assert_eq!(composite, false);
    assert_eq!(query(&mut pool, 1007), false);
}

#[test]
fn pool_round_waits_for_every_worker() {
    let mut pool = PoolState::new(3, 10);
    let (tag, work) = match pool.begin(1009) {
        Begin::Dispatch(tag, work) => (tag, work),
        Begin::Known(_) => panic!("1009 lies above the cache"),
    };
    assert_eq!(work.len(), 3);
    assert_eq!(pool.answer(0, tag, Report::Clear), None);
    assert_eq!(pool.answer(0, tag, Report::Clear), None);
    assert_eq!(pool.answer(2, tag, Report::Clear), None);
    assert_eq!(pool.answer(1, tag, Report::Clear), Some(true));
}

#[test]
fn pool_divisor_settles_round_and_stale_reports_are_ignored() {
    let mut pool = PoolState::new(3, 10);
    let first = match pool.begin(1007) {
        Begin::Dispatch(tag, _) => tag,
        Begin::Known(_) => panic!("1007 lies above the cache"),
    };
    assert_eq!(pool.answer(1, first, Report::Divisor(19)), Some(false));
    let second = match pool.begin(1009) {
        Begin::Dispatch(tag, _) => tag,
        Begin::Known(_) => panic!("1009 lies above the cache"),
    };
    assert_ne!(first, second);
    // a clear report left over from the round of 1007
    assert_eq!(pool.answer(0, first, Report::Clear), None);
    assert_eq!(pool.answer(0, second, Report::Clear), None);
    assert_eq!(pool.answer(1, second, Report::Clear), None);
    assert_eq!(pool.answer(2, second, Report::Clear), Some(true));
    assert!(matches!(pool.begin(1007), Begin::Known(false)));
}
