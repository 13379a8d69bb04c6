use chat_core::rate::{IpRate, RateLimiter};

#[test]
fn limiter_admits_exactly_limit_per_window() {
    let mut r = RateLimiter::new_at(3, 1000, 10_000);
    // The first event after the window has run out opens a new one.
    let mut verdicts = Vec::new();
    for t in [11_000u64, 11_100, 11_200, 11_300, 11_999] {
        verdicts.push(r.check_at(t));
    }
    assert_eq!(verdicts, vec![true, true, true, false, false]);
    assert!(r.check_at(12_000));
    assert_eq!(r.count, 1);
    assert_eq!(r.start, 12_000);
}

#[test]
fn limiter_within_first_window() {
    let mut r = RateLimiter::new_at(1, 1000, 0);
    assert!(r.check_at(0));
    assert!(!r.check_at(500));
    assert!(r.check_at(1000));
}

#[test]
fn limiter_with_clock_starts_empty() {
    let mut r = RateLimiter::new(2, 60_000);
    assert_eq!(r.count, 0);
    assert!(r.check());
    assert!(r.check());
    assert!(!r.check());
}

#[test]
fn ip_rate_clears_warning_on_success() {
    let mut r = IpRate::new_at(1, 0);
    assert!(r.check_at(0));
    assert!(!r.check_at(10));
    r.warned = true;
    assert!(!r.check_at(20));
    assert!(r.warned);
    assert!(r.check_at(1000));
    assert!(!r.warned);
}

#[test]
fn ip_rate_new_reads_clock() {
    let mut r = IpRate::new(20);
    assert!(!r.warned);
    assert!(r.check());
}
