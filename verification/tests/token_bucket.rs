use rate_limiter_suite::duration::MAX_DURATION_NANOS;
use rate_limiter_suite::{Algorithm, Binary64, BucketConfig, Duration, RateLimiter, TokenBucket};

const MS: u64 = 1_000_000;
const SEC: u64 = 1_000_000_000;

fn rate(x: f64) -> Binary64 {
    Binary64::from_bits(x.to_bits())
}

fn bucket(capacity: u64, refill_rate: f64) -> TokenBucket {
    TokenBucket::new(BucketConfig::new(capacity, rate(refill_rate)))
}

#[test]
fn token_bucket_allows_requests_within_capacity() {
    let mut limiter = bucket(5, 1.0);
    for _ in 0..5 {
        assert!(limiter.check("client1").allowed);
    }
}

#[test]
fn denies_when_exhausted() {
    let mut limiter = bucket(2, 1.0);
    assert!(limiter.check("client1").allowed);
    assert!(limiter.check("client1").allowed);
    let result = limiter.check("client1");
    assert!(!result.allowed);
    assert!(result.retry_after.is_some());
}

#[test]
fn refills_over_time() {
    let mut limiter = bucket(2, 100.0);
    assert!(limiter.check_n_at("client1", 1, 0).allowed);
    assert!(limiter.check_n_at("client1", 1, 0).allowed);
    assert!(!limiter.check_n_at("client1", 1, 0).allowed);

    assert!(limiter.check_n_at("client1", 1, 20 * MS).allowed);
}

#[test]
fn token_bucket_check_n_consumes_multiple() {
    let mut limiter = bucket(10, 1.0);
    let result = limiter.check_n("client1", 5);
    assert!(result.allowed);
    assert_eq!(result.remaining, 5);

    let result = limiter.check_n("client1", 6);
    assert!(!result.allowed);
}

#[test]
fn token_bucket_independent_keys() {
    let mut limiter = bucket(1, 1.0);
    assert!(limiter.check("a").allowed);
    assert!(limiter.check("b").allowed);
    assert!(!limiter.check("a").allowed);
    assert!(!limiter.check("b").allowed);
}

#[test]
fn reset_clears_bucket() {
    let mut limiter = bucket(1, 0.1);
    assert!(limiter.check("client1").allowed);
    assert!(!limiter.check("client1").allowed);

    limiter.reset("client1");
    assert!(limiter.check("client1").allowed);
}

#[test]
fn burst_respects_capacity() {
    let mut limiter = bucket(10, 5.0);
    let result = limiter.check_n("client1", 10);
    assert!(result.allowed);
    assert_eq!(result.remaining, 0);
}

#[test]
fn retry_after_is_positive_on_denial() {
    let mut limiter = bucket(1, 2.0);
    assert!(limiter.check("client1").allowed);
    let result = limiter.check("client1");
    assert!(!result.allowed);
    assert!(result.retry_after.unwrap() > Duration::from_nanos(0));
}

#[test]
fn token_bucket_first_check_reports_what_is_left() {
    let mut limiter = bucket(2, 1.0);
    let r = limiter.check("client1");
    assert!(r.allowed);
    assert_eq!(r.remaining, 1);
    assert_eq!(r.limit, 2);
    assert_eq!(r.retry_after, None);
    assert_eq!(r.algorithm, Algorithm::TokenBucket);
    assert_eq!(limiter.algorithm(), Algorithm::TokenBucket);
}

#[test]
fn token_bucket_retry_after_is_exact() {
    let mut limiter = bucket(1, 2.0);
    assert!(limiter.check_n_at("a", 1, 0).allowed);
    let denied = limiter.check_n_at("a", 1, 0);
    assert_eq!(denied.retry_after, Some(Duration::from_millis(500)));
    assert_eq!(denied.remaining, 0);

    // 1 / 1024 s is 976 562.5 ns, and the tie goes to the even side.
    let mut limiter = bucket(1, 1024.0);
    assert!(limiter.check_n_at("a", 1, 0).allowed);
    assert_eq!(limiter.check_n_at("a", 1, 0).retry_after, Some(Duration::from_nanos(976_562)));

    // One tenth is a little more than 0.1, so that ten seconds are a little
    // too much; the nearest nanosecond is still ten seconds.
    let mut limiter = bucket(1, 0.1);
    assert!(limiter.check_n_at("a", 1, 0).allowed);
    assert_eq!(limiter.check_n_at("a", 1, 0).retry_after, Some(Duration::from_secs(10)));

    let mut limiter = bucket(4, 3.0);
    assert!(limiter.check_n_at("a", 4, 0).allowed);
    assert_eq!(limiter.check_n_at("a", 1, 0).retry_after, Some(Duration::from_nanos(333_333_333)));
    assert_eq!(limiter.check_n_at("a", 2, 0).retry_after, Some(Duration::from_nanos(666_666_667)));
}

#[test]
fn token_bucket_retry_after_has_a_longest_value() {
    let mut limiter = bucket(1, f64::from_bits(1));
    assert!(limiter.check_n_at("a", 1, 0).allowed);
    let denied = limiter.check_n_at("a", 1, u64::MAX);
    assert!(!denied.allowed);
    assert_eq!(denied.retry_after, Some(Duration { nanos: MAX_DURATION_NANOS }));
}

#[test]
fn token_bucket_retry_after_is_long_enough() {
    for refill_rate in [1.0, 3.0, 7.0, 0.3, 1e-3, 1000.0, 12345.678] {
        let mut limiter = bucket(5, refill_rate);
        assert!(limiter.check_n_at("a", 5, 0).allowed);
        let denied = limiter.check_n_at("a", 3, 10);
        assert!(!denied.allowed);
        let wait = denied.retry_after.unwrap().as_nanos() as u64;
        assert!(limiter.check_n_at("a", 3, 10 + wait + 1).allowed);
    }
}

#[test]
fn token_bucket_denial_consumes_nothing() {
    let mut limiter = bucket(3, 1.0);
    assert!(limiter.check_n_at("a", 1, 0).allowed);
    for _ in 0..10 {
        let denied = limiter.check_n_at("a", 3, 0);
        assert!(!denied.allowed);
        assert_eq!(denied.remaining, 2);
    }
    assert!(limiter.check_n_at("a", 2, 0).allowed);
}

#[test]
fn token_bucket_partial_tokens_add_up() {
    let mut limiter = bucket(1, 1.0);
    assert!(limiter.check_n_at("a", 1, 0).allowed);
    assert!(!limiter.check_n_at("a", 1, 400 * MS).allowed);
    assert!(!limiter.check_n_at("a", 1, 999_999_999).allowed);
    assert!(limiter.check_n_at("a", 1, SEC).allowed);
}

#[test]
fn token_bucket_admits_no_more_than_capacity_and_refill() {
    // Capacity 5 and three tokens per second: at most 5 + 3 * 2 in two
    // seconds, however the checks are spread.
    let mut limiter = bucket(5, 3.0);
    let mut admitted = 0u64;
    for i in 0..=2000u64 {
        if limiter.check_n_at("a", 1, i * MS).allowed {
            admitted += 1;
        }
    }
    assert_eq!(admitted, 11);
}

#[test]
fn token_bucket_fills_no_further_than_its_capacity() {
    let mut limiter = bucket(3, 1000.0);
    assert!(limiter.check_n_at("a", 3, 0).allowed);
    let r = limiter.check_n_at("a", 1, 3600 * SEC);
    assert!(r.allowed);
    assert_eq!(r.remaining, 2);
    assert!(!limiter.check_n_at("a", 3, 3600 * SEC).allowed);
}

#[test]
fn token_bucket_never_admits_more_than_its_capacity_at_once() {
    let mut limiter = bucket(3, 1000.0);
    assert!(!limiter.check_n_at("a", 4, 0).allowed);
    assert!(!limiter.check_n_at("a", u64::MAX, 3600 * SEC).allowed);
    assert!(limiter.check_n_at("a", 0, 0).allowed);
}

#[test]
fn token_bucket_takes_an_earlier_reading_as_no_time() {
    let mut limiter = bucket(1, 1.0);
    assert!(limiter.check_n_at("a", 1, 10 * SEC).allowed);
    assert!(!limiter.check_n_at("a", 1, 9 * SEC).allowed);
    assert!(!limiter.check_n_at("a", 1, 10 * SEC + 500 * MS).allowed);
    assert!(limiter.check_n_at("a", 1, 11 * SEC).allowed);
}

#[test]
fn token_bucket_largest_values() {
    let mut limiter = bucket(u64::MAX, f64::MAX);
    assert_eq!(limiter.check_n_at("a", u64::MAX, 0).remaining, 0);
    assert_eq!(limiter.check_n_at("a", 1, 1).remaining, u64::MAX - 1);
}

#[test]
fn token_bucket_denial_changes_no_later_answer() {
    for refill_rate in [0.7, 3.0, 1e-3, 12345.678] {
        let mut asked = bucket(7, refill_rate);
        let mut spared = bucket(7, refill_rate);
        assert!(asked.check_n_at("a", 7, 0).allowed);
        assert!(spared.check_n_at("a", 7, 0).allowed);
        for i in 1..50u64 {
            assert!(!asked.check_n_at("a", 8, i * 1_000_003).allowed);
        }
        for now in [60 * MS, SEC, 10 * SEC, 20 * SEC] {
            assert_eq!(asked.check_n_at("a", 2, now), spared.check_n_at("a", 2, now));
        }
    }
}

#[test]
fn token_bucket_wait_is_the_least() {
    for refill_rate in [1.0, 3.0, 7.0, 0.3, 0.7, 1e-3, 1000.0, 12345.678] {
        let mut limiter = bucket(5, refill_rate);
        assert!(limiter.check_n_at("a", 5, 0).allowed);
        let denied = limiter.check_n_at("a", 3, 10);
        let wait = denied.retry_after.unwrap().as_nanos() as u64;
        assert!(!limiter.check_n_at("a", 3, 10 + wait - 1).allowed);
        assert!(limiter.check_n_at("a", 3, 10 + wait + 1).allowed);
    }
}

#[test]
fn token_bucket_reset_is_as_good_as_new() {
    let mut used = bucket(4, 2.0);
    assert!(used.check_n_at("a", 4, 0).allowed);
    assert!(used.check_n_at("b", 3, 0).allowed);
    used.reset("a");
    let mut new = bucket(4, 2.0);
    for (n, now) in [(3, 5), (2, 6), (1, 900 * MS), (4, 901 * MS), (4, 30 * SEC)] {
        assert_eq!(used.check_n_at("a", n, now), new.check_n_at("a", n, now));
    }
    assert_eq!(used.check_n_at("b", 2, 1).remaining, 1);
}
