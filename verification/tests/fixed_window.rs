use rate_limiter_suite::{Algorithm, Duration, FixedWindow, RateLimiter, WindowConfig};

const MS: u64 = 1_000_000;

#[test]
fn fixed_window_allows_requests_within_limit() {
    let mut limiter = FixedWindow::new(WindowConfig::new(5, Duration::from_secs(1)));
    for _ in 0..5 {
        assert!(limiter.check("client1").allowed);
    }
}

#[test]
fn fixed_window_denies_when_exceeded() {
    let mut limiter = FixedWindow::new(WindowConfig::new(3, Duration::from_secs(1)));
    assert!(limiter.check("client1").allowed);
    assert!(limiter.check("client1").allowed);
    assert!(limiter.check("client1").allowed);
    let result = limiter.check("client1");
    assert!(!result.allowed);
    assert!(result.retry_after.is_some());
}

#[test]
fn resets_after_window() {
    let mut limiter = FixedWindow::new(WindowConfig::new(2, Duration::from_millis(50)));
    assert!(limiter.check_n_at("client1", 1, 0).allowed);
    assert!(limiter.check_n_at("client1", 1, 0).allowed);
    assert!(!limiter.check_n_at("client1", 1, 0).allowed);

    assert!(limiter.check_n_at("client1", 1, 60 * MS).allowed);
    assert!(limiter.check_n_at("client1", 1, 60 * MS).allowed);
}

#[test]
fn fixed_window_check_n_consumes_multiple() {
    let mut limiter = FixedWindow::new(WindowConfig::new(10, Duration::from_secs(1)));
    let result = limiter.check_n("client1", 5);
    assert!(result.allowed);
    assert_eq!(result.remaining, 5);

    let result = limiter.check_n("client1", 6);
    assert!(!result.allowed);
}

#[test]
fn fixed_window_independent_keys() {
    let mut limiter = FixedWindow::new(WindowConfig::new(1, Duration::from_secs(1)));
    assert!(limiter.check("a").allowed);
    assert!(limiter.check("b").allowed);
    assert!(!limiter.check("a").allowed);
    assert!(!limiter.check("b").allowed);
}

#[test]
fn fixed_window_reset_clears_window() {
    let mut limiter = FixedWindow::new(WindowConfig::new(1, Duration::from_secs(60)));
    assert!(limiter.check("client1").allowed);
    assert!(!limiter.check("client1").allowed);

    limiter.reset("client1");
    assert!(limiter.check("client1").allowed);
}

#[test]
fn remaining_decrements_correctly() {
    let mut limiter = FixedWindow::new(WindowConfig::new(5, Duration::from_secs(1)));
    let r1 = limiter.check("client1");
    assert_eq!(r1.remaining, 4);
    let r2 = limiter.check("client1");
    assert_eq!(r2.remaining, 3);
}

#[test]
fn fixed_window_retry_after_is_exact() {
    let mut limiter = FixedWindow::new(WindowConfig::new(1, Duration::from_millis(50)));
    assert!(limiter.check_n_at("a", 1, 7 * MS).allowed);
    let denied = limiter.check_n_at("a", 1, 20 * MS);
    assert!(!denied.allowed);
    assert_eq!(denied.retry_after, Some(Duration::from_millis(37)));
    assert_eq!(denied.remaining, 0);
    assert_eq!(denied.limit, 1);
    assert_eq!(denied.algorithm, Algorithm::FixedWindow);
    assert_eq!(limiter.algorithm(), Algorithm::FixedWindow);
    assert!(!limiter.check_n_at("a", 1, 57 * MS - 1).allowed);
    assert!(limiter.check_n_at("a", 1, 57 * MS).allowed);
}

#[test]
fn fixed_window_starts_again_with_a_full_count() {
    let mut limiter = FixedWindow::new(WindowConfig::new(4, Duration::from_millis(10)));
    assert!(limiter.check_n_at("a", 3, 0).allowed);
    let r = limiter.check_n_at("a", 4, 10 * MS);
    assert!(r.allowed);
    assert_eq!(r.remaining, 0);
}

#[test]
fn fixed_window_denial_counts_nothing() {
    let mut limiter = FixedWindow::new(WindowConfig::new(3, Duration::from_secs(1)));
    assert!(limiter.check_n_at("a", 2, 0).allowed);
    for _ in 0..5 {
        assert_eq!(limiter.check_n_at("a", 2, 0).remaining, 1);
    }
    assert!(limiter.check_n_at("a", 1, 0).allowed);
}

#[test]
fn fixed_window_count_does_not_wrap() {
    let mut limiter = FixedWindow::new(WindowConfig::new(u64::MAX, Duration::from_secs(1)));
    assert!(limiter.check_n_at("a", u64::MAX, 0).allowed);
    assert!(!limiter.check_n_at("a", 1, 0).allowed);
    assert!(!limiter.check_n_at("a", u64::MAX, 0).allowed);
    assert!(limiter.check_n_at("a", 0, 0).allowed);
}

#[test]
fn fixed_window_denial_changes_no_later_answer() {
    let config = WindowConfig::new(2, Duration::from_millis(10));
    let mut asked = FixedWindow::new(config);
    let mut spared = FixedWindow::new(config);
    assert!(asked.check_n_at("a", 2, 0).allowed);
    assert!(spared.check_n_at("a", 2, 0).allowed);
    assert!(!asked.check_n_at("a", 2, 9 * MS).allowed);
    for now in [9 * MS, 10 * MS, 15 * MS, 20 * MS] {
        assert_eq!(asked.check_n_at("a", 1, now), spared.check_n_at("a", 1, now));
    }
}
