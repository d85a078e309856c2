use std::time::Instant;

use rate_limiter_suite::clock::{nanos_between, reading, Clock};
use rate_limiter_suite::fixed_window::FixedWindowState;
use rate_limiter_suite::keyed::KeyedLimiter;
use rate_limiter_suite::{
    Binary64, BucketConfig, Duration, FixedWindow, LeakyBucket, RateLimiter, SlidingWindow,
    TokenBucket, WindowConfig,
};

/// Lets at least `millis` milliseconds pass.
fn pass(millis: u64) {
    let start = Instant::now();
    while start.elapsed().as_millis() < u128::from(millis) {}
}

fn bucket(capacity: u64, refill_rate: f64) -> BucketConfig {
    BucketConfig::new(capacity, Binary64::from_bits(refill_rate.to_bits()))
}

#[test]
fn clock_counts_the_time_that_passes() {
    let clock = Clock::start();
    let before = clock.now();
    pass(20);
    let after = clock.now();
    assert!(nanos_between(before, after) >= 20_000_000);
    assert!(nanos_between(before, after) < 20_000_000_000);
    assert_eq!(nanos_between(after, before), 0);
}

#[test]
fn limiters_recover_as_time_passes() {
    let window = WindowConfig::new(2, Duration::from_millis(50));
    let mut limiters: Vec<Box<dyn RateLimiter>> = vec![
        Box::new(TokenBucket::new(bucket(2, 20.0))),
        Box::new(LeakyBucket::new(bucket(2, 20.0))),
        Box::new(SlidingWindow::new(window)),
        Box::new(FixedWindow::new(window)),
    ];
    for limiter in limiters.iter_mut() {
        assert!(limiter.check_n("client1", 2).allowed);
        pass(60);
        assert!(limiter.check("client1").allowed);
    }
}

#[test]
fn keys_recover_apart() {
    let mut limiter = FixedWindow::new(WindowConfig::new(1, Duration::from_secs(3600)));
    assert!(limiter.check("a").allowed);
    assert!(!limiter.check("a").allowed);
    assert!(limiter.check("b").allowed);
    limiter.reset("a");
    assert!(limiter.check("a").allowed);
    assert!(!limiter.check("b").allowed);
}

#[test]
fn clock_shows_what_it_can_count() {
    assert_eq!(reading(0), 0);
    assert_eq!(reading(1_234_567_890), 1_234_567_890);
    assert_eq!(reading(u64::MAX as u128 - 1), u64::MAX - 1);
    assert_eq!(reading(u64::MAX as u128), u64::MAX);
    assert_eq!(reading(u64::MAX as u128 + 1), u64::MAX);
    assert_eq!(reading(u128::MAX), u64::MAX);
}

#[test]
fn instants_of_a_limiter_do_not_go_back() {
    let config = WindowConfig::new(1, Duration::from_secs(1));
    let mut limiter = KeyedLimiter::<FixedWindowState>::new(config);
    assert_eq!(limiter.advance(5), 5);
    assert_eq!(limiter.advance(3), 5);
    assert_eq!(limiter.advance(5), 5);
    assert_eq!(limiter.advance(u64::MAX - 1), u64::MAX - 1);
    assert_eq!(limiter.now(), u64::MAX - 1);
}

#[test]
fn instants_follow_the_clock() {
    let config = WindowConfig::new(1, Duration::from_secs(1));
    let mut limiter = KeyedLimiter::<FixedWindowState>::new(config);
    let before = limiter.now();
    pass(5);
    assert!(limiter.now() >= before + 5_000_000);
}
