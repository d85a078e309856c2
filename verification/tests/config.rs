use rate_limiter_suite::{
    Algorithm, Binary64, BucketConfig, ConfigError, Duration, RateLimitResult, WindowConfig,
};

fn number(x: f64) -> Binary64 {
    Binary64::from_bits(x.to_bits())
}

#[test]
fn bucket_config_accepts_usable_parameters() {
    let cfg = BucketConfig::new(5, number(2.0));
    assert_eq!(cfg.capacity, 5);
    assert_eq!(cfg.refill_rate, number(2.0));
    assert_eq!(BucketConfig::try_new(5, number(2.0)), Ok(cfg));
    assert!(BucketConfig::try_new(1, number(f64::MIN_POSITIVE)).is_ok());
    assert!(BucketConfig::try_new(u64::MAX, number(f64::MAX)).is_ok());
    assert!(BucketConfig::try_new(1, Binary64::from_bits(1)).is_ok());
}

#[test]
fn bucket_config_rejects_a_capacity_of_zero() {
    let err = BucketConfig::try_new(0, number(0.0)).unwrap_err();
    assert_eq!(err, ConfigError::ZeroCapacity { field: "capacity" });
    assert_eq!(err.to_string(), "`capacity` must be greater than 0");
}

#[test]
fn bucket_config_rejects_a_rate_of_zero_or_below() {
    for rate in [0.0, -0.0, -1.0, -f64::MIN_POSITIVE, f64::MIN] {
        let err = BucketConfig::try_new(1, number(rate)).unwrap_err();
        assert_eq!(err, ConfigError::ZeroRefillRate);
        assert_eq!(err.to_string(), "`refill_rate` must be greater than 0");
    }
}

#[test]
fn bucket_config_rejects_a_rate_that_is_not_finite() {
    for (rate, text) in [(f64::INFINITY, "inf"), (f64::NEG_INFINITY, "-inf"), (f64::NAN, "NaN")] {
        let err = BucketConfig::try_new(1, number(rate)).unwrap_err();
        match err {
            ConfigError::NonFiniteRate { value } => assert_eq!(value.to_bits(), rate.to_bits()),
            other => panic!("expected NonFiniteRate, got {:?}", other),
        }
        assert_eq!(err == err, rate == rate);
        assert_eq!(err.to_string(), format!("`refill_rate` must be finite (got {})", text));
        assert_eq!(err.to_string(), format!("`refill_rate` must be finite (got {})", rate));
    }
}

#[test]
fn window_config_rejects_unusable_parameters() {
    let cfg = WindowConfig::new(100, Duration::from_secs(60));
    assert_eq!(cfg.max_requests, 100);
    assert_eq!(WindowConfig::try_new(100, Duration::from_secs(60)), Ok(cfg));

    let err = WindowConfig::try_new(0, Duration::from_secs(0)).unwrap_err();
    assert_eq!(err, ConfigError::ZeroCapacity { field: "max_requests" });
    assert_eq!(err.to_string(), "`max_requests` must be greater than 0");

    let err = WindowConfig::try_new(1, Duration::from_secs(0)).unwrap_err();
    assert_eq!(err, ConfigError::ZeroWindowSize);
    assert_eq!(err.to_string(), "`window_size` must be greater than zero");
}

#[test]
fn raw_configs_are_not_validated() {
    let cfg = BucketConfig::from_raw(0, number(f64::NAN));
    assert_eq!(cfg.capacity, 0);
    assert!(cfg.refill_rate.is_nan());
    let cfg = WindowConfig::from_raw(0, Duration::from_millis(0));
    assert_eq!(cfg.max_requests, 0);
    assert!(cfg.window_size.is_zero());
}

#[test]
fn algorithms_have_names() {
    assert_eq!(Algorithm::TokenBucket.to_string(), "token_bucket");
    assert_eq!(Algorithm::LeakyBucket.to_string(), "leaky_bucket");
    assert_eq!(Algorithm::SlidingWindow.to_string(), "sliding_window");
    assert_eq!(Algorithm::FixedWindow.name(), "fixed_window");
}

#[test]
fn results_are_built_from_their_parts() {
    let yes = RateLimitResult::allowed(3, 5, Algorithm::LeakyBucket);
    assert!(yes.allowed);
    assert_eq!((yes.remaining, yes.limit, yes.retry_after), (3, 5, None));
    let no = RateLimitResult::denied(0, 5, Duration::from_secs(2), Algorithm::FixedWindow);
    assert!(!no.allowed);
    assert_eq!(no.retry_after, Some(Duration::from_millis(2000)));
    assert_eq!(no.algorithm, Algorithm::FixedWindow);
}

#[test]
fn durations_count_nanoseconds() {
    assert_eq!(Duration::from_secs(2).as_nanos(), 2_000_000_000);
    assert_eq!(Duration::from_millis(3).as_nanos(), 3_000_000);
    assert_eq!(Duration::from_nanos(1_999_999).as_millis(), 1);
    assert_eq!(
        Duration::from_secs(1).saturating_sub(Duration::from_millis(400)),
        Duration::from_millis(600)
    );
    assert!(Duration::from_millis(1).saturating_sub(Duration::from_secs(1)).is_zero());
}

#[test]
fn numbers_compare_by_value() {
    let numbers = [
        f64::NEG_INFINITY,
        f64::MIN,
        -1.5,
        -f64::MIN_POSITIVE,
        -0.0,
        0.0,
        f64::MIN_POSITIVE / 4.0,
        f64::MIN_POSITIVE,
        0.1,
        1.0,
        1.5,
        2.0,
        f64::MAX,
        f64::INFINITY,
        f64::NAN,
    ];
    for a in numbers {
        for b in numbers {
            assert_eq!(number(a).exceeds(&number(b)), a > b);
            assert_eq!(number(a) == number(b), a == b);
            assert_eq!(
                BucketConfig::from_raw(1, number(a)) == BucketConfig::from_raw(1, number(b)),
                a == b
            );
        }
        assert_eq!(number(a).is_finite(), a.is_finite());
        assert_eq!(number(a).is_nan(), a.is_nan());
        assert_eq!(number(a).is_positive(), a.is_finite() && a > 0.0);
        assert_eq!(number(a).to_bits(), a.to_bits());
    }
}
