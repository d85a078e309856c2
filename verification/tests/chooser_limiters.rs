use rate_limiter_suite::chooser::limiter::map_result;
use rate_limiter_suite::chooser::{
    AnyAlgorithm, ClientClass, Decision, FixedWindowAdapter, LeakyBucketAdapter, RateLimiter,
    RequestContext, SlidingWindowAdapter, TokenBucketAdapter,
};
use rate_limiter_suite::{
    Algorithm, Binary64, BucketConfig, Duration, RateLimitResult, WindowConfig,
};

fn make_ctx(client_id: u64) -> RequestContext {
    RequestContext {
        client_id,
        timestamp_ns: 0,
        endpoint_hash: 0,
        client_class: ClientClass::ApiKey,
        in_flight: 0,
    }
}

fn bucket(capacity: u64, refill_rate: f64) -> BucketConfig {
    BucketConfig::new(capacity, Binary64::from_bits(refill_rate.to_bits()))
}

#[test]
fn token_bucket_adapter_allows() {
    let mut adapter = TokenBucketAdapter::new(bucket(5, 1.0));
    let ctx = make_ctx(1);
    assert_eq!(adapter.check(&ctx), Decision::Allow);
    assert_eq!(adapter.name(), "token_bucket");
}

#[test]
fn token_bucket_adapter_throttles() {
    let mut adapter = TokenBucketAdapter::new(bucket(1, 1.0));
    let ctx = make_ctx(1);
    assert_eq!(adapter.check(&ctx), Decision::Allow);
    match adapter.check(&ctx) {
        Decision::Throttle { delay_ms } => assert!(delay_ms > 0),
        other => panic!("expected Throttle, got {:?}", other),
    }
}

#[test]
fn leaky_bucket_adapter_allows() {
    let mut adapter = LeakyBucketAdapter::new(bucket(5, 1.0));
    let ctx = make_ctx(1);
    assert_eq!(adapter.check(&ctx), Decision::Allow);
    assert_eq!(adapter.name(), "leaky_bucket");
}

#[test]
fn sliding_window_adapter_allows() {
    let mut adapter = SlidingWindowAdapter::new(WindowConfig::new(5, Duration::from_secs(1)));
    let ctx = make_ctx(1);
    assert_eq!(adapter.check(&ctx), Decision::Allow);
    assert_eq!(adapter.name(), "sliding_window");
}

#[test]
fn fixed_window_adapter_allows() {
    let mut adapter = FixedWindowAdapter::new(WindowConfig::new(5, Duration::from_secs(1)));
    let ctx = make_ctx(1);
    assert_eq!(adapter.check(&ctx), Decision::Allow);
    assert_eq!(adapter.name(), "fixed_window");
}

#[test]
fn client_class_ordinal() {
    assert_eq!(f64::from_bits(ClientClass::ApiKey.ordinal().to_bits()), 0.0);
    assert_eq!(f64::from_bits(ClientClass::Internal.ordinal().to_bits()), 0.5);
    assert_eq!(f64::from_bits(ClientClass::Anonymous.ordinal().to_bits()), 1.0);
}

#[test]
fn keys_name_the_client() {
    for id in [0, 7, 10, 90, 1_000, 4_294_967_296, u64::MAX] {
        assert_eq!(make_ctx(id).key(), format!("client_{}", id));
    }
}

#[test]
fn clients_are_limited_apart() {
    let mut adapter = FixedWindowAdapter::new(WindowConfig::new(1, Duration::from_millis(50)));
    assert_eq!(adapter.check_at(&make_ctx(1), 0), Decision::Allow);
    assert_eq!(adapter.check_at(&make_ctx(2), 0), Decision::Allow);
    assert_eq!(adapter.check_at(&make_ctx(1), 20_000_000), Decision::Throttle { delay_ms: 30 });
    assert_eq!(adapter.check_at(&make_ctx(1), 50_000_000), Decision::Allow);
}

#[test]
fn delays_are_whole_milliseconds() {
    let retry = |nanos: u128| {
        map_result(RateLimitResult::denied(0, 1, Duration { nanos }, Algorithm::TokenBucket))
    };
    assert_eq!(retry(0), Decision::Throttle { delay_ms: 0 });
    assert_eq!(retry(999_999), Decision::Throttle { delay_ms: 0 });
    assert_eq!(retry(1_000_000), Decision::Throttle { delay_ms: 1 });
    assert_eq!(retry(1_999_999), Decision::Throttle { delay_ms: 1 });
    let past_the_end: u128 = (u64::MAX as u128 + 3) * 1_000_000;
    assert_eq!(retry(past_the_end), Decision::Throttle { delay_ms: 2 });
    let allowed = RateLimitResult::allowed(0, 1, Algorithm::TokenBucket);
    assert_eq!(map_result(allowed), Decision::Allow);
}

#[test]
fn a_denial_without_a_time_is_final() {
    let mut result =
        RateLimitResult::denied(0, 1, Duration::from_secs(1), Algorithm::TokenBucket);
    result.retry_after = None;
    assert_eq!(map_result(result), Decision::Deny);
    assert!(!Decision::Deny.is_allowed());
    assert!(Decision::Allow.is_allowed());
}

#[test]
fn any_algorithm_conducts_itself_as_the_one_inside() {
    let mut inner = TokenBucketAdapter::new(bucket(2, 4.0));
    let mut outer =
        AnyAlgorithm { limiter: Box::new(TokenBucketAdapter::new(bucket(2, 4.0))) };
    assert_eq!(outer.name(), "token_bucket");
    for now in [0, 0, 1, 100_000_000, 249_999_999, 250_000_000, 900_000_000] {
        assert_eq!(outer.check_at(&make_ctx(3), now), inner.check_at(&make_ctx(3), now));
    }
}
