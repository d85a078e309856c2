use rate_limiter_suite::{Algorithm, Duration, RateLimiter, SlidingWindow, WindowConfig};

const MS: u64 = 1_000_000;

#[test]
fn sliding_window_allows_requests_within_limit() {
    let mut limiter = SlidingWindow::new(WindowConfig::new(5, Duration::from_secs(1)));
    for _ in 0..5 {
        assert!(limiter.check("client1").allowed);
    }
}

#[test]
fn sliding_window_denies_when_exceeded() {
    let mut limiter = SlidingWindow::new(WindowConfig::new(3, Duration::from_secs(1)));
    assert!(limiter.check("client1").allowed);
    assert!(limiter.check("client1").allowed);
    assert!(limiter.check("client1").allowed);
    let result = limiter.check("client1");
    assert!(!result.allowed);
    assert!(result.retry_after.is_some());
}

#[test]
fn window_slides_over_time() {
    let mut limiter = SlidingWindow::new(WindowConfig::new(2, Duration::from_millis(50)));
    assert!(limiter.check_n_at("client1", 1, 0).allowed);
    assert!(limiter.check_n_at("client1", 1, 0).allowed);
    assert!(!limiter.check_n_at("client1", 1, 0).allowed);

    assert!(limiter.check_n_at("client1", 1, 60 * MS).allowed);
}

#[test]
fn sliding_window_check_n_consumes_multiple() {
    let mut limiter = SlidingWindow::new(WindowConfig::new(10, Duration::from_secs(1)));
    let result = limiter.check_n("client1", 5);
    assert!(result.allowed);
    assert_eq!(result.remaining, 5);

    let result = limiter.check_n("client1", 6);
    assert!(!result.allowed);
}

#[test]
fn sliding_window_independent_keys() {
    let mut limiter = SlidingWindow::new(WindowConfig::new(1, Duration::from_secs(1)));
    assert!(limiter.check("a").allowed);
    assert!(limiter.check("b").allowed);
    assert!(!limiter.check("a").allowed);
    assert!(!limiter.check("b").allowed);
}

#[test]
fn sliding_window_reset_clears_window() {
    let mut limiter = SlidingWindow::new(WindowConfig::new(1, Duration::from_secs(60)));
    assert!(limiter.check("client1").allowed);
    assert!(!limiter.check("client1").allowed);

    limiter.reset("client1");
    assert!(limiter.check("client1").allowed);
}

#[test]
fn old_requests_expire() {
    let mut limiter = SlidingWindow::new(WindowConfig::new(2, Duration::from_millis(30)));
    assert!(limiter.check_n_at("client1", 1, 0).allowed);
    assert!(limiter.check_n_at("client1", 1, 15 * MS).allowed);
    assert!(!limiter.check_n_at("client1", 1, 15 * MS).allowed);

    assert!(limiter.check_n_at("client1", 1, 35 * MS).allowed);
}

#[test]
fn sliding_window_retry_after_is_exact() {
    let mut limiter = SlidingWindow::new(WindowConfig::new(2, Duration::from_millis(100)));
    assert!(limiter.check_n_at("a", 1, 10 * MS).allowed);
    assert!(limiter.check_n_at("a", 1, 40 * MS).allowed);
    let denied = limiter.check_n_at("a", 1, 60 * MS);
    assert!(!denied.allowed);
    assert_eq!(denied.retry_after, Some(Duration::from_millis(50)));
    assert_eq!(denied.remaining, 0);
    assert_eq!(denied.limit, 2);
    assert_eq!(denied.algorithm, Algorithm::SlidingWindow);
    assert_eq!(limiter.algorithm(), Algorithm::SlidingWindow);

    // A request that waits as long as it was told is admitted.
    assert!(limiter.check_n_at("a", 1, 110 * MS + 1).allowed);
}

#[test]
fn sliding_window_bounds_every_window() {
    let mut limiter = SlidingWindow::new(WindowConfig::new(3, Duration::from_millis(10)));
    let mut times: Vec<u64> = Vec::new();
    for i in 0..1000u64 {
        let now = i * 700_000;
        if limiter.check_n_at("a", 1, now).allowed {
            times.push(now);
        }
    }
    assert!(times.len() > 3);
    for i in 0..times.len() {
        let end = times[i] + 10 * MS;
        let inside = times.iter().filter(|&&t| t >= times[i] && t < end).count();
        assert!(inside <= 3);
    }
}

#[test]
fn sliding_window_denial_records_nothing() {
    let mut limiter = SlidingWindow::new(WindowConfig::new(3, Duration::from_secs(1)));
    assert!(limiter.check_n_at("a", 2, 0).allowed);
    for _ in 0..5 {
        assert_eq!(limiter.check_n_at("a", 2, 0).remaining, 1);
    }
    assert!(limiter.check_n_at("a", 1, 0).allowed);
}

#[test]
fn sliding_window_more_than_the_limit_is_denied() {
    let mut limiter = SlidingWindow::new(WindowConfig::new(3, Duration::from_secs(1)));
    let denied = limiter.check_n_at("a", u64::MAX, 0);
    assert!(!denied.allowed);
    assert_eq!(denied.remaining, 3);
}

#[test]
fn sliding_window_several_requests_wait_for_room() {
    let config = WindowConfig::new(2, Duration::from_millis(100));
    // Both requests leave the window together.
    let mut limiter = SlidingWindow::new(config);
    assert!(limiter.check_n_at("a", 2, 10 * MS).allowed);
    let denied = limiter.check_n_at("a", 2, 20 * MS);
    assert_eq!(denied.retry_after, Some(Duration::from_millis(90)));
    assert!(!limiter.check_n_at("a", 2, 110 * MS - 1).allowed);
    assert!(limiter.check_n_at("a", 2, 110 * MS).allowed);

    // The second request stays when the oldest has left.
    let mut limiter = SlidingWindow::new(config);
    assert!(limiter.check_n_at("a", 1, 10 * MS).allowed);
    assert!(limiter.check_n_at("a", 1, 15 * MS).allowed);
    let denied = limiter.check_n_at("a", 2, 20 * MS);
    assert_eq!(denied.retry_after, Some(Duration::from_millis(90)));
    assert!(!limiter.check_n_at("a", 2, 110 * MS).allowed);
    assert!(limiter.check_n_at("a", 2, 115 * MS).allowed);
}

#[test]
fn sliding_window_admits_exactly_what_fits() {
    let mut limiter = SlidingWindow::new(WindowConfig::new(5, Duration::from_millis(10)));
    let mut admitted: Vec<u64> = Vec::new();
    for i in 0..500u64 {
        let now = i * 1_300_000 + (i % 7) * 100_000;
        let n = 1 + i % 3;
        let recent = admitted.iter().filter(|&&t| t + 10 * MS > now).count() as u64;
        let allowed = limiter.check_n_at("a", n, now).allowed;
        assert_eq!(allowed, recent + n <= 5);
        if allowed {
            for _ in 0..n {
                admitted.push(now);
            }
        }
    }
}

#[test]
fn sliding_window_denial_changes_no_later_answer() {
    let config = WindowConfig::new(2, Duration::from_millis(10));
    let mut asked = SlidingWindow::new(config);
    let mut spared = SlidingWindow::new(config);
    assert!(asked.check_n_at("a", 2, 0).allowed);
    assert!(spared.check_n_at("a", 2, 0).allowed);
    assert!(!asked.check_n_at("a", 1, 9 * MS).allowed);
    for now in [9 * MS, 10 * MS - 1, 10 * MS, 11 * MS] {
        assert_eq!(asked.check_n_at("a", 1, now), spared.check_n_at("a", 1, now));
    }
}
