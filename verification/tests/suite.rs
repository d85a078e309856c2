use rate_limiter_suite::{
    Algorithm, AnyLimiter, Binary64, BucketConfig, Duration, FixedWindow, RateLimiter,
    RateLimiterSuite, RateLimiterSuiteBuilder, WindowConfig,
};

fn bucket(capacity: u64, refill_rate: f64) -> BucketConfig {
    BucketConfig::new(capacity, Binary64::from_bits(refill_rate.to_bits()))
}

#[test]
fn suite_with_single_limiter() {
    let mut suite = RateLimiterSuite::builder().token_bucket(bucket(3, 1.0)).build();

    assert!(suite.check("client1").allowed);
    assert!(suite.check("client1").allowed);
    assert!(suite.check("client1").allowed);
    assert!(!suite.check("client1").allowed);
}

#[test]
fn suite_most_restrictive_wins() {
    let mut suite = RateLimiterSuite::builder()
        .token_bucket(bucket(10, 1.0))
        .fixed_window(WindowConfig::new(3, Duration::from_secs(60)))
        .build();

    assert!(suite.check("client1").allowed);
    assert!(suite.check("client1").allowed);
    assert!(suite.check("client1").allowed);

    let result = suite.check("client1");
    assert!(!result.allowed);
    assert_eq!(result.algorithm, Algorithm::FixedWindow);
}

#[test]
fn suite_resets_all_limiters() {
    let mut suite = RateLimiterSuite::builder()
        .token_bucket(bucket(2, 0.1))
        .fixed_window(WindowConfig::new(2, Duration::from_secs(60)))
        .build();

    assert!(suite.check("client1").allowed);
    assert!(suite.check("client1").allowed);
    assert!(!suite.check("client1").allowed);

    suite.reset("client1");

    assert!(suite.check("client1").allowed);
    assert!(suite.check("client1").allowed);
}

#[test]
fn suite_all_four_algorithms() {
    let mut suite = RateLimiterSuite::builder()
        .token_bucket(bucket(100, 10.0))
        .leaky_bucket(bucket(100, 10.0))
        .sliding_window(WindowConfig::new(100, Duration::from_secs(1)))
        .fixed_window(WindowConfig::new(100, Duration::from_secs(1)))
        .build();

    assert_eq!(suite.limiters().len(), 4);

    for _ in 0..50 {
        assert!(suite.check("client1").allowed);
    }
}

#[test]
fn suite_check_n_across_limiters() {
    let mut suite = RateLimiterSuite::builder()
        .token_bucket(bucket(20, 1.0))
        .fixed_window(WindowConfig::new(10, Duration::from_secs(60)))
        .build();

    let result = suite.check_n("client1", 5);
    assert!(result.allowed);

    let result = suite.check_n("client1", 6);
    assert!(!result.allowed);
}

#[test]
fn suite_empty_returns_default() {
    let mut suite = RateLimiterSuite::builder().build();
    let result = suite.check("client1");
    assert!(result.allowed);
}

#[test]
fn suite_without_limiters_reports_nothing_left() {
    for mut suite in [
        RateLimiterSuite::new(),
        RateLimiterSuite::default(),
        RateLimiterSuiteBuilder::default().build(),
    ] {
        let result = suite.check_n("client1", 7);
        assert!(result.allowed);
        assert_eq!(result.remaining, 0);
        assert_eq!(result.limit, 0);
        assert_eq!(result.retry_after, None);
    }
}

#[test]
fn suite_reports_the_smallest_remaining() {
    let mut suite = RateLimiterSuite::builder()
        .token_bucket(bucket(10, 1.0))
        .fixed_window(WindowConfig::new(4, Duration::from_secs(60)))
        .sliding_window(WindowConfig::new(4, Duration::from_secs(60)))
        .build();
    let result = suite.check_n_at("client1", 1, 0);
    assert!(result.allowed);
    assert_eq!(result.remaining, 3);
    assert_eq!(result.algorithm, Algorithm::FixedWindow);
}

#[test]
fn suite_reports_the_first_denial() {
    let mut suite = RateLimiterSuite::builder()
        .token_bucket(bucket(100, 1.0))
        .sliding_window(WindowConfig::new(2, Duration::from_secs(60)))
        .fixed_window(WindowConfig::new(1, Duration::from_secs(60)))
        .build();
    let result = suite.check_n_at("client1", 3, 0);
    assert!(!result.allowed);
    assert_eq!(result.algorithm, Algorithm::SlidingWindow);
    assert_eq!(result.remaining, 2);
}

#[test]
fn suite_asks_every_limiter_on_every_check() {
    // The fixed window denies, and the token bucket behind it has still seen
    // the check.
    let mut suite = RateLimiterSuite::builder()
        .fixed_window(WindowConfig::new(1, Duration::from_secs(1)))
        .token_bucket(bucket(3, 0.001))
        .build();
    assert!(suite.check_n_at("client1", 1, 0).allowed);
    assert!(!suite.check_n_at("client1", 1, 0).allowed);
    let result = suite.check_n_at("client1", 1, 1_000_000_000);
    assert!(result.allowed);
    assert_eq!(result.remaining, 0);
}

#[test]
fn suite_lists_its_limiters() {
    let suite = RateLimiterSuite::builder()
        .token_bucket(bucket(100, 10.0))
        .leaky_bucket(bucket(100, 10.0))
        .add_limiter(AnyLimiter {
            limiter: Box::new(FixedWindow::new(WindowConfig::new(1, Duration::from_secs(1)))),
        })
        .build();
    let names: Vec<String> = suite.limiters().iter().map(|l| l.algorithm().to_string()).collect();
    assert_eq!(names, vec!["token_bucket", "leaky_bucket", "fixed_window"]);
    let slice: &[AnyLimiter] = suite.as_ref();
    assert_eq!(slice.len(), 3);
}

#[test]
fn suite_lends_its_limiters() {
    let mut suite = RateLimiterSuite::builder()
        .token_bucket(bucket(3, 0.001))
        .fixed_window(WindowConfig::new(5, Duration::from_secs(60)))
        .build();
    assert_eq!(suite.limiters_mut()[0].check_n_at("a", 2, 0).remaining, 1);
    // The suite goes on with what the single check has left.
    assert_eq!(suite.check_n_at("a", 1, 0).remaining, 0);
    let result = suite.check_n_at("a", 1, 0);
    assert!(!result.allowed);
    assert_eq!(result.algorithm, Algorithm::TokenBucket);
    suite.limiters_mut()[0].reset("a");
    assert!(suite.check_n_at("a", 1, 0).allowed);
}

#[test]
fn other_keys_make_no_difference() {
    let build = || {
        RateLimiterSuite::builder()
            .token_bucket(bucket(4, 2.0))
            .leaky_bucket(bucket(5, 3.0))
            .sliding_window(WindowConfig::new(6, Duration::from_millis(900)))
            .fixed_window(WindowConfig::new(7, Duration::from_millis(1100)))
            .build()
    };
    let mut crowded = build();
    let mut alone = build();
    for i in 0..200u64 {
        let now = i * 37_000_000;
        let key = ["a", "b", "c"][(i % 3) as usize];
        if i % 41 == 0 {
            crowded.reset("b");
        }
        let answer = crowded.check_n_at(key, 1 + i % 2, now);
        if key == "a" {
            assert_eq!(alone.check_n_at("a", 1 + i % 2, now), answer);
        }
    }
}
