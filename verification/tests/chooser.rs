use rate_limiter_suite::chooser::{
    AlgorithmChooser, AlgorithmChooserBuilder, AnyAlgorithm, BanditConfig, ClientClass, Decision,
    FeatureConfig, FixedWindowAdapter, LeakyBucketAdapter, LinUCBBandit, ObserverInput,
    ObserverMessage, RequestContext, RewardConfig, SlidingWindowAdapter, TokenBucketAdapter,
};
use rate_limiter_suite::{Binary64, BucketConfig, Duration, WindowConfig};

fn number(x: f64) -> Binary64 {
    Binary64::from_bits(x.to_bits())
}

fn scores(xs: &[f64]) -> Vec<Binary64> {
    xs.iter().map(|&x| number(x)).collect()
}

fn make_ctx(client_id: u64) -> RequestContext {
    RequestContext {
        client_id,
        timestamp_ns: 1_000_000_000_000,
        endpoint_hash: 0,
        client_class: ClientClass::ApiKey,
        in_flight: 0,
    }
}

fn token_bucket(capacity: u64, rate: f64) -> AnyAlgorithm {
    AnyAlgorithm {
        limiter: Box::new(TokenBucketAdapter::new(BucketConfig::new(capacity, number(rate)))),
    }
}

fn leaky_bucket(capacity: u64, rate: f64) -> AnyAlgorithm {
    AnyAlgorithm {
        limiter: Box::new(LeakyBucketAdapter::new(BucketConfig::new(capacity, number(rate)))),
    }
}

fn sliding_window(max_requests: u64, window: Duration) -> AnyAlgorithm {
    AnyAlgorithm {
        limiter: Box::new(SlidingWindowAdapter::new(WindowConfig::new(max_requests, window))),
    }
}

fn fixed_window(max_requests: u64, window: Duration) -> AnyAlgorithm {
    AnyAlgorithm {
        limiter: Box::new(FixedWindowAdapter::new(WindowConfig::new(max_requests, window))),
    }
}

fn context() -> [Binary64; 7] {
    [number(0.25); 7]
}

fn chooser_with(algorithms: Vec<AnyAlgorithm>) -> AlgorithmChooser {
    let mut builder = AlgorithmChooserBuilder::new();
    for a in algorithms {
        builder = builder.add_algorithm(a);
    }
    builder.build().0
}

#[test]
fn creates_bandit_with_correct_arms() {
    let bandit = LinUCBBandit::new(4, BanditConfig::default());
    assert_eq!(bandit.num_arms(), 4);
}

#[test]
fn selects_arm_consistently() {
    let bandit = LinUCBBandit::new(2, BanditConfig::default());
    let x = scores(&[0.3, 0.3]);
    let arm1 = bandit.select(&x);
    let arm2 = bandit.select(&x);
    assert_eq!(arm1, arm2);
    assert_eq!(arm1, 0);
}

#[test]
fn the_first_of_the_greatest_scores_wins() {
    let bandit = LinUCBBandit::new(4, BanditConfig::default());
    assert_eq!(bandit.select(&scores(&[0.1, 0.7, 0.7, 0.2])), 1);
    assert_eq!(bandit.select(&scores(&[-3.0, -2.0, -0.5, -1.0])), 2);
    assert_eq!(bandit.select(&scores(&[0.0, -0.0, -1.0, -2.0])), 0);
    assert_eq!(bandit.select(&scores(&[1.0, 2.0, f64::INFINITY, f64::INFINITY])), 2);
    assert_eq!(bandit.select(&scores(&[f64::NAN, f64::NEG_INFINITY, -1.0, f64::NAN])), 2);
    assert_eq!(bandit.select(&scores(&[f64::NAN, f64::NAN, f64::NEG_INFINITY, f64::NAN])), 0);
    assert_eq!(bandit.select(&scores(&[0.1, 0.2, 0.3, 0.30000000000000004])), 3);
}

#[test]
fn lazy_inversion_works() {
    let mut bandit = LinUCBBandit::new(2, BanditConfig::with(number(0.3), 10, number(1.0)));
    for _ in 0..9 {
        assert!(!bandit.update(0));
    }
    assert!(bandit.update(0));
    // Until the inverse has been computed it stays due.
    assert!(bandit.update(0));
    bandit.recompute_inverse(0);
    assert!(!bandit.update(0));
    assert_eq!(bandit.update_count(0), 12);
    assert_eq!(bandit.update_count(1), 0);
}

#[test]
fn bandit_defaults() {
    let config = BanditConfig::default();
    assert_eq!(f64::from_bits(config.alpha.to_bits()), 0.3);
    assert_eq!(config.lazy_inversion_threshold, 50);
    assert_eq!(f64::from_bits(config.regularization.to_bits()), 1.0);
}

#[test]
fn chooser_with_single_algorithm() {
    let mut chooser = chooser_with(vec![token_bucket(10, 1.0)]);
    let ctx = make_ctx(1);
    let (dec, event) = chooser.check(&ctx, context(), &scores(&[0.0]));
    assert_eq!(dec, Decision::Allow);
    assert_eq!(event.event_id, 0);
    assert_eq!(event.arm_idx, 0);
    assert_eq!(event.context, context());
    assert_eq!(event.decision, Decision::Allow);
    assert_eq!(event.false_positive, None);
    assert_eq!(event.false_negative, None);
    assert!(event.latency_ns < 5_000_000_000);
}

#[test]
fn chooser_with_multiple_algorithms() {
    let mut chooser = chooser_with(vec![
        token_bucket(100, 10.0),
        leaky_bucket(100, 10.0),
        sliding_window(100, Duration::from_secs(1)),
        fixed_window(100, Duration::from_secs(1)),
    ]);

    assert_eq!(chooser.num_algorithms(), 4);
    assert_eq!(chooser.bandit().num_arms(), 4);

    for i in 0..50u64 {
        let mut s = [0.0; 4];
        s[(i % 4) as usize] = 1.0;
        let (dec, event) = chooser.check(&make_ctx(i), context(), &scores(&s));
        assert_eq!(dec, Decision::Allow);
        assert_eq!(event.arm_idx, (i % 4) as usize);
        assert_eq!(event.event_id, i);
    }
}

#[test]
fn chooser_algorithm_names() {
    let chooser = chooser_with(vec![token_bucket(10, 1.0), leaky_bucket(10, 1.0)]);
    assert_eq!(chooser.algorithm_name(0), Some("token_bucket"));
    assert_eq!(chooser.algorithm_name(1), Some("leaky_bucket"));
    assert_eq!(chooser.algorithm_name(2), None);
}

#[test]
fn only_the_chosen_algorithm_hears_of_a_request() {
    let mut chooser = chooser_with(vec![
        fixed_window(1, Duration::from_secs(60)),
        fixed_window(1, Duration::from_secs(60)),
    ]);
    let ctx = make_ctx(1);
    let first = scores(&[1.0, 0.0]);
    let second = scores(&[0.0, 1.0]);
    assert_eq!(chooser.decide_at(&ctx, &first, 0), (Decision::Allow, 0));
    let throttled = Decision::Throttle { delay_ms: 60_000 };
    assert_eq!(chooser.decide_at(&ctx, &first, 0), (throttled, 0));
    assert_eq!(chooser.decide_at(&ctx, &second, 0), (Decision::Allow, 1));
}

#[test]
fn chooser_observes_requests() {
    let mut chooser = chooser_with(vec![token_bucket(10, 1.0)]);
    assert_eq!(chooser.observe(&make_ctx(1)).requests_last_second, 1);
    assert_eq!(chooser.observe(&make_ctx(1)).requests_last_second, 2);
    assert_eq!(chooser.observe(&make_ctx(2)).requests_last_second, 1);
}

#[test]
fn chooser_signal_false_positive() {
    let (mut chooser, mut observer) =
        AlgorithmChooserBuilder::new().add_algorithm(token_bucket(10, 1.0)).build();
    let (_, event) = chooser.check(&make_ctx(1), context(), &scores(&[0.0]));
    assert!(observer
        .step(ObserverInput::Message(ObserverMessage::Event(event)), 0)
        .unwrap()
        .is_empty());
    let signal = chooser.signal_false_positive(0, true);
    let updates = observer.step(ObserverInput::Message(signal), 10_000_000).unwrap();
    assert_eq!(updates.len(), 1);
    assert_eq!(updates[0].event_id, event.event_id);
    assert_eq!(updates[0].false_positive, Some(true));
    assert!(!chooser.learn(&updates[0]));
    assert_eq!(chooser.bandit().update_count(0), 1);
}

#[test]
fn chooser_signal_false_negative() {
    let (mut chooser, mut observer) =
        AlgorithmChooserBuilder::new().add_algorithm(token_bucket(10, 1.0)).build();
    let (_, event) = chooser.check(&make_ctx(1), context(), &scores(&[0.0]));
    observer.process_event(event, 0);
    let signal = chooser.signal_false_negative(0, true);
    let updates = observer.step(ObserverInput::Message(signal), 10_000_000).unwrap();
    assert_eq!(updates.len(), 1);
    assert_eq!(updates[0].false_negative, Some(true));
}

#[test]
fn builder_passes_the_parameters_on() {
    let bandit = BanditConfig::with(number(0.05), 1, number(1.0));
    let features = FeatureConfig::with(number(10.0), number(20.0));
    let mut reward = RewardConfig::default();
    reward.event_ttl = Duration::from_nanos(10);
    let (mut chooser, mut observer) = AlgorithmChooserBuilder::default()
        .bandit_config(bandit)
        .feature_config(features)
        .reward_config(reward)
        .add_algorithm(token_bucket(10, 1.0))
        .build();
    assert_eq!(chooser.bandit().config(), bandit);
    assert_eq!(chooser.features().config(), features);
    let (_, event) = chooser.check(&make_ctx(1), context(), &scores(&[0.0]));
    observer.process_event(event, 0);
    assert_eq!(observer.expire_old_events(10).len(), 1);
    // With a threshold of one the inverse is due after every update.
    assert!(chooser.learn(&event));
    chooser.recompute_inverse(0);
    assert!(chooser.learn(&event));
}
