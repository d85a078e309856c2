use rate_limiter_suite::{Algorithm, Binary64, BucketConfig, Duration, LeakyBucket, RateLimiter};

const MS: u64 = 1_000_000;
const SEC: u64 = 1_000_000_000;

fn bucket(capacity: u64, refill_rate: f64) -> LeakyBucket {
    LeakyBucket::new(BucketConfig::new(capacity, Binary64::from_bits(refill_rate.to_bits())))
}

#[test]
fn leaky_bucket_allows_requests_within_capacity() {
    let mut limiter = bucket(5, 1.0);
    for _ in 0..5 {
        assert!(limiter.check("client1").allowed);
    }
}

#[test]
fn denies_when_full() {
    let mut limiter = bucket(3, 1.0);
    assert!(limiter.check("client1").allowed);
    assert!(limiter.check("client1").allowed);
    assert!(limiter.check("client1").allowed);
    let result = limiter.check("client1");
    assert!(!result.allowed);
    assert!(result.retry_after.is_some());
}

#[test]
fn leaks_over_time() {
    let mut limiter = bucket(2, 100.0);
    assert!(limiter.check_n_at("client1", 1, 0).allowed);
    assert!(limiter.check_n_at("client1", 1, 0).allowed);
    assert!(!limiter.check_n_at("client1", 1, 0).allowed);

    assert!(limiter.check_n_at("client1", 1, 20 * MS).allowed);
}

#[test]
fn leaky_bucket_check_n_consumes_multiple() {
    let mut limiter = bucket(10, 1.0);
    let result = limiter.check_n("client1", 5);
    assert!(result.allowed);
    assert_eq!(result.remaining, 5);

    let result = limiter.check_n("client1", 6);
    assert!(!result.allowed);
}

#[test]
fn leaky_bucket_independent_keys() {
    let mut limiter = bucket(1, 1.0);
    assert!(limiter.check("a").allowed);
    assert!(limiter.check("b").allowed);
    assert!(!limiter.check("a").allowed);
    assert!(!limiter.check("b").allowed);
}

#[test]
fn leaky_bucket_reset_clears_state() {
    let mut limiter = bucket(1, 0.1);
    assert!(limiter.check("client1").allowed);
    assert!(!limiter.check("client1").allowed);

    limiter.reset("client1");
    assert!(limiter.check("client1").allowed);
}

#[test]
fn constant_rate_no_burst() {
    let mut limiter = bucket(10, 10.0);
    let result = limiter.check_n("client1", 10);
    assert!(result.allowed);
    assert_eq!(result.remaining, 0);

    let result = limiter.check("client1");
    assert!(!result.allowed);
}

#[test]
fn leaky_bucket_retry_after_is_exact() {
    let mut limiter = bucket(2, 4.0);
    assert!(limiter.check_n_at("a", 2, 0).allowed);
    // Two requests drain in half a second, of which 100 ms have passed.
    let denied = limiter.check_n_at("a", 1, 100 * MS);
    assert!(!denied.allowed);
    assert_eq!(denied.retry_after, Some(Duration::from_millis(400)));
    assert_eq!(denied.remaining, 0);
    assert_eq!(denied.limit, 2);
    assert_eq!(denied.algorithm, Algorithm::LeakyBucket);
    assert_eq!(limiter.algorithm(), Algorithm::LeakyBucket);
}

#[test]
fn leaky_bucket_empty_queue_reports_the_time_for_all() {
    let mut limiter = bucket(2, 4.0);
    let denied = limiter.check_n_at("a", 3, 0);
    assert!(!denied.allowed);
    assert_eq!(denied.remaining, 2);
    assert_eq!(denied.retry_after, Some(Duration::from_millis(750)));
}

#[test]
fn leaky_bucket_drains_whole_requests() {
    let mut limiter = bucket(4, 2.0);
    assert!(limiter.check_n_at("a", 4, 0).allowed);
    assert!(!limiter.check_n_at("a", 1, 499_999_999).allowed);
    assert_eq!(limiter.check_n_at("a", 1, 500 * MS).remaining, 0);
    // The last drain was at 500 ms, so that two more leave by 1500 ms.
    assert_eq!(limiter.check_n_at("a", 0, 1500 * MS).remaining, 2);
}

#[test]
fn leaky_bucket_denial_queues_nothing() {
    let mut limiter = bucket(3, 1.0);
    assert!(limiter.check_n_at("a", 2, 0).allowed);
    for _ in 0..5 {
        assert_eq!(limiter.check_n_at("a", 2, 0).remaining, 1);
    }
    assert!(limiter.check_n_at("a", 1, 0).allowed);
}

#[test]
fn leaky_bucket_admits_no_more_than_capacity_and_drain() {
    let mut limiter = bucket(5, 2.0);
    let mut admitted = 0u64;
    for i in 0..=3000u64 {
        if limiter.check_n_at("a", 1, i * MS).allowed {
            admitted += 1;
        }
    }
    assert_eq!(admitted, 11);
}

#[test]
fn leaky_bucket_retry_after_is_long_enough() {
    for refill_rate in [1.0, 3.0, 7.0, 0.3, 1000.0, 12345.678] {
        let mut limiter = bucket(5, refill_rate);
        assert!(limiter.check_n_at("a", 5, 10).allowed);
        let denied = limiter.check_n_at("a", 3, 20);
        assert!(!denied.allowed);
        let wait = denied.retry_after.unwrap().as_nanos() as u64;
        assert!(limiter.check_n_at("a", 3, 20 + wait + 1).allowed);
    }
}

#[test]
fn leaky_bucket_retry_after_can_fall_short_after_a_partial_drain() {
    // The second request has not drained when the age of the oldest has used
    // up the announced wait.
    let mut limiter = bucket(2, 1.0);
    assert!(limiter.check_n_at("a", 2, 0).allowed);
    let denied = limiter.check_n_at("a", 2, 1900 * MS);
    assert!(!denied.allowed);
    assert_eq!(denied.retry_after, Some(Duration::from_nanos(0)));
    assert!(!limiter.check_n_at("a", 2, 1900 * MS + 1).allowed);
    assert!(limiter.check_n_at("a", 2, 1900 * MS + SEC).allowed);
}
