use rate_limiter_suite::chooser::{
    ClientClass, FeatureConfig, FeatureExtractor, RequestContext,
};
use rate_limiter_suite::Binary64;

fn number(x: f64) -> Binary64 {
    Binary64::from_bits(x.to_bits())
}

fn value(x: Binary64) -> f64 {
    f64::from_bits(x.to_bits())
}

fn make_ctx(client_id: u64, timestamp_ns: u64) -> RequestContext {
    RequestContext {
        client_id,
        timestamp_ns,
        endpoint_hash: 0,
        client_class: ClientClass::ApiKey,
        in_flight: 0,
    }
}

#[test]
fn extracts_rate_signal() {
    let mut extractor = FeatureExtractor::new(FeatureConfig::with(number(10.0), number(100.0)));

    let base_ts = 1_000_000_000_000u64;
    for i in 0..5 {
        let ctx = make_ctx(1, base_ts + i * 100_000_000);
        extractor.extract(&ctx);
    }

    let ctx = make_ctx(1, base_ts + 500_000_000);
    let observation = extractor.extract(&ctx);
    assert_eq!(observation.requests_last_second, 6);
    let signal =
        (observation.requests_last_second as f64 / value(extractor.config().rate_ceiling)).min(1.0);
    assert!(signal > 0.0);
    assert!(signal <= 1.0);
}

#[test]
fn burst_coefficient_default_for_few_samples() {
    let mut extractor = FeatureExtractor::new(FeatureConfig::default());

    let ctx = make_ctx(1, 1_000_000_000_000);
    let observation = extractor.extract(&ctx);
    assert!(observation.burst_gaps.is_none());
}

#[test]
fn burst_coefficient_computed_after_10_samples() {
    let mut extractor = FeatureExtractor::new(FeatureConfig::default());

    let base_ts = 1_000_000_000_000u64;
    for i in 0..11 {
        let ctx = make_ctx(1, base_ts + i * 100_000_000);
        extractor.extract(&ctx);
    }

    let ctx = make_ctx(1, base_ts + 1_100_000_000);
    let observation = extractor.extract(&ctx);
    // The second that ends with the last request holds the ten before it.
    assert_eq!(observation.burst_gaps, Some(vec![100_000_000; 10]));
}

#[test]
fn burst_gaps_begin_with_the_tenth_sample() {
    let mut extractor = FeatureExtractor::new(FeatureConfig::default());
    for i in 0..9u64 {
        assert!(extractor.extract(&make_ctx(1, 50 + i * i)).burst_gaps.is_none());
    }
    let observation = extractor.extract(&make_ctx(1, 50 + 81));
    assert_eq!(observation.burst_gaps, Some(vec![1, 3, 5, 7, 9, 11, 13, 15, 17]));
    assert_eq!(observation.requests_last_second, 10);
}

#[test]
fn simultaneous_requests_have_no_gaps_to_measure() {
    let mut extractor = FeatureExtractor::new(FeatureConfig::default());
    for _ in 0..20 {
        assert!(extractor.extract(&make_ctx(1, 77)).burst_gaps.is_none());
    }
    assert_eq!(extractor.extract(&make_ctx(1, 78)).burst_gaps.unwrap().len(), 20);
}

#[test]
fn a_gap_to_an_earlier_timestamp_is_none() {
    let mut extractor = FeatureExtractor::new(FeatureConfig::default());
    for i in 0..9u64 {
        extractor.extract(&make_ctx(1, 1_000 + i));
    }
    let observation = extractor.extract(&make_ctx(1, 500));
    assert_eq!(observation.burst_gaps, Some(vec![1, 1, 1, 1, 1, 1, 1, 1, 0]));
}

#[test]
fn client_class_encoding() {
    let mut extractor = FeatureExtractor::new(FeatureConfig::default());

    let ctx_api = RequestContext { client_class: ClientClass::ApiKey, ..make_ctx(1, 1_000_000_000_000) };
    let ctx_int = RequestContext { client_class: ClientClass::Internal, ..make_ctx(2, 1_000_000_000_000) };
    let ctx_anon =
        RequestContext { client_class: ClientClass::Anonymous, ..make_ctx(3, 1_000_000_000_000) };

    assert_eq!(value(extractor.extract(&ctx_api).client_class), 0.0);
    assert_eq!(value(extractor.extract(&ctx_int).client_class), 0.5);
    assert_eq!(value(extractor.extract(&ctx_anon).client_class), 1.0);
}

#[test]
fn time_encoding_wraps() {
    let mut extractor = FeatureExtractor::new(FeatureConfig::default());

    let o1 = extractor.extract(&make_ctx(1, 0));
    let o2 = extractor.extract(&make_ctx(2, 86_400_000_000_000));
    assert_eq!(o1.minute_of_day, 0);
    assert_eq!(o1.minute_of_day, o2.minute_of_day);

    let o3 = extractor.extract(&make_ctx(3, 86_399_999_999_999));
    assert_eq!(o3.minute_of_day, 1439);
}

#[test]
fn requests_are_passed_on_as_they_are() {
    let mut extractor = FeatureExtractor::new(FeatureConfig::default());
    let ctx =
        RequestContext { endpoint_hash: u64::MAX / 2, in_flight: 5, ..make_ctx(1, 1_000_000_000_000) };
    let observation = extractor.extract(&ctx);
    assert_eq!(observation.endpoint_hash, u64::MAX / 2);
    assert_eq!(observation.in_flight, 5);
}

#[test]
fn independent_clients() {
    let mut extractor = FeatureExtractor::new(FeatureConfig::default());

    let ctx1 = make_ctx(1, 1_000_000_000_000);
    let ctx2 = make_ctx(2, 1_000_000_000_000);

    extractor.extract(&ctx1);
    extractor.extract(&ctx1);
    extractor.extract(&ctx1);

    let o1 = extractor.extract(&ctx1);
    let o2 = extractor.extract(&ctx2);

    assert!(o1.requests_last_second > o2.requests_last_second);
    assert_eq!(o1.requests_last_second, 4);
    assert_eq!(o2.requests_last_second, 1);
}

#[test]
fn features_reset_clears_state() {
    let mut extractor = FeatureExtractor::new(FeatureConfig::default());

    let ctx = make_ctx(1, 1_000_000_000_000);
    extractor.extract(&ctx);
    extractor.extract(&ctx);
    extractor.extract(&make_ctx(2, 1_000_000_000_000));

    extractor.reset(1);
    extractor.reset(99);

    assert_eq!(extractor.extract(&ctx).requests_last_second, 1);
    assert_eq!(extractor.extract(&make_ctx(2, 1_000_000_000_000)).requests_last_second, 2);
}

#[test]
fn requests_older_than_a_second_are_forgotten() {
    let mut extractor = FeatureExtractor::new(FeatureConfig::default());
    extractor.extract(&make_ctx(1, 0));
    extractor.extract(&make_ctx(1, 1));
    assert_eq!(extractor.extract(&make_ctx(1, 1_000_000_000)).requests_last_second, 3);
    assert_eq!(extractor.extract(&make_ctx(1, 1_000_000_001)).requests_last_second, 3);
    assert_eq!(extractor.extract(&make_ctx(1, 1_000_000_002)).requests_last_second, 3);
    assert_eq!(extractor.extract(&make_ctx(1, 9_000_000_000)).requests_last_second, 1);
}

#[test]
fn feature_defaults() {
    let config = FeatureConfig::default();
    assert_eq!(value(config.rate_ceiling), 1000.0);
    assert_eq!(value(config.max_concurrency), 100.0);
}
