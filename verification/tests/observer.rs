use rate_limiter_suite::chooser::{
    BanditConfig, Decision, LinUCBBandit, ObserverInput, ObserverMessage, RewardConfig,
    RewardEvent, RewardObserver,
};
use rate_limiter_suite::{Binary64, Duration};

const MS: u64 = 1_000_000;

fn value(x: Binary64) -> f64 {
    f64::from_bits(x.to_bits())
}

fn context() -> [Binary64; 7] {
    let mut x = [Binary64::from_bits(0); 7];
    x[0] = Binary64::from_bits(1.0f64.to_bits());
    x
}

fn event(event_id: u64, arm_idx: usize) -> RewardEvent {
    RewardEvent {
        event_id,
        arm_idx,
        context: context(),
        decision: Decision::Allow,
        latency_ns: 1_000_000,
        false_positive: None,
        false_negative: None,
    }
}

fn with_ttl(ttl: Duration) -> RewardConfig {
    let mut config = RewardConfig::default();
    config.event_ttl = ttl;
    config
}

/// Feeds what the observer lets go of to the bandit.
fn drive(
    observer: &mut RewardObserver,
    bandit: &mut LinUCBBandit,
    input: ObserverInput,
    now: u64,
) -> bool {
    match observer.step(input, now) {
        Some(updates) => {
            for update in updates {
                bandit.update(update.arm_idx);
            }
            true
        }
        None => false,
    }
}

fn message(m: ObserverMessage) -> ObserverInput {
    ObserverInput::Message(m)
}

#[test]
fn throttle_decision_not_allowed() {
    let event = RewardEvent {
        event_id: 1,
        arm_idx: 0,
        context: [Binary64::from_bits(0); 7],
        decision: Decision::Throttle { delay_ms: 100 },
        latency_ns: 1_000_000,
        false_positive: Some(false),
        false_negative: Some(false),
    };
    assert!(!event.decision.is_allowed());
    assert!(!event.reward_terms().goodput);
}

#[test]
fn reward_terms_take_the_unknown_as_right() {
    let mut e = event(1, 0);
    let terms = e.reward_terms();
    assert!(terms.goodput);
    assert!(!terms.false_positive);
    assert!(!terms.false_negative);
    assert_eq!(terms.latency_ns, 1_000_000);
    e.false_positive = Some(true);
    assert!(e.reward_terms().false_positive);
    e.false_negative = Some(true);
    assert!(e.reward_terms().false_negative);
    e.false_positive = Some(false);
    assert!(!e.reward_terms().false_positive);
    e.decision = Decision::Deny;
    assert!(!e.reward_terms().goodput);
}

#[test]
fn observer_processes_events() {
    let mut bandit = LinUCBBandit::new(2, BanditConfig::default());
    let mut observer = RewardObserver::new(RewardConfig::default());
    let mut e = event(1, 0);
    e.false_positive = Some(false);
    e.false_negative = Some(false);
    assert!(drive(&mut observer, &mut bandit, message(ObserverMessage::Event(e)), 0));
    assert!(!drive(&mut observer, &mut bandit, message(ObserverMessage::Shutdown), 10 * MS));
    assert_eq!(bandit.update_count(0), 0);
}

#[test]
fn observer_handles_false_positive_signal() {
    let mut observer = RewardObserver::new(RewardConfig::default());
    observer.process_event(event(42, 0), 0);
    let update = observer.signal_false_positive(42, true).unwrap();
    assert_eq!(update.event_id, 42);
    assert_eq!(update.false_positive, Some(true));
    assert_eq!(update.false_negative, None);
}

#[test]
fn observer_handles_false_negative_signal() {
    let mut bandit = LinUCBBandit::new(2, BanditConfig::default());
    let mut observer = RewardObserver::new(RewardConfig::default());
    assert!(drive(&mut observer, &mut bandit, message(ObserverMessage::Event(event(11, 0))), 0));
    let signal = ObserverMessage::SignalFalseNegative { event_id: 11, is_fn: true };
    assert!(drive(&mut observer, &mut bandit, message(signal), 10 * MS));
    assert!(!drive(&mut observer, &mut bandit, message(ObserverMessage::Shutdown), 20 * MS));
    assert_eq!(bandit.update_count(0), 1);
}

#[test]
fn single_event_yields_single_bandit_update() {
    let mut bandit = LinUCBBandit::new(2, BanditConfig::default());
    let mut observer = RewardObserver::new(RewardConfig::default());
    assert!(drive(&mut observer, &mut bandit, message(ObserverMessage::Event(event(7, 0))), 0));
    let signal = ObserverMessage::SignalFalsePositive { event_id: 7, is_fp: false };
    assert!(drive(&mut observer, &mut bandit, message(signal), 10 * MS));
    assert!(drive(&mut observer, &mut bandit, message(signal), 11 * MS));
    assert!(drive(&mut observer, &mut bandit, ObserverInput::Tick, 120_000 * MS));
    assert!(!drive(&mut observer, &mut bandit, ObserverInput::Closed, 120_001 * MS));
    assert_eq!(
        bandit.update_count(0),
        1,
        "event with late signal must produce exactly one bandit update"
    );
    assert_eq!(bandit.update_count(1), 0);
}

#[test]
fn unsignaled_event_expires_with_single_update() {
    let mut bandit = LinUCBBandit::new(2, BanditConfig::default());
    let mut observer = RewardObserver::new(with_ttl(Duration::from_millis(50)));
    assert!(drive(&mut observer, &mut bandit, message(ObserverMessage::Event(event(9, 0))), 0));
    for i in 1..=40u64 {
        assert!(drive(&mut observer, &mut bandit, ObserverInput::Tick, i * 5 * MS));
        let expected = if i < 10 { 0 } else { 1 };
        assert_eq!(
            bandit.update_count(0),
            expected,
            "expired event must produce exactly one bandit update"
        );
    }
}

#[test]
fn bulk_expiration_processes_all_old_events() {
    let mut bandit = LinUCBBandit::new(2, BanditConfig::default());
    let mut observer = RewardObserver::new(with_ttl(Duration::from_millis(80)));
    for i in 0..500u64 {
        let e = event(i, (i % 2) as usize);
        assert!(drive(&mut observer, &mut bandit, message(ObserverMessage::Event(e)), i * 1000));
    }
    assert!(drive(&mut observer, &mut bandit, ObserverInput::Tick, 250 * MS));
    assert_eq!(bandit.update_count(0) + bandit.update_count(1), 500);
}

#[test]
fn expiry_takes_the_oldest_first_and_leaves_the_young() {
    let mut observer = RewardObserver::new(with_ttl(Duration::from_nanos(100)));
    for (id, at) in [(5, 30), (3, 10), (4, 10), (9, 60), (1, 31)] {
        observer.process_event(event(id, 0), at);
    }
    let gone: Vec<u64> =
        observer.expire_old_events(130).iter().map(|e| e.event_id).collect();
    assert_eq!(gone, vec![3, 4, 5]);
    assert!(observer.expire_old_events(130).is_empty());
    let gone: Vec<u64> =
        observer.expire_old_events(160).iter().map(|e| e.event_id).collect();
    assert_eq!(gone, vec![1, 9]);
}

#[test]
fn expiry_fills_in_what_is_not_known() {
    let mut observer = RewardObserver::new(with_ttl(Duration::from_nanos(1)));
    let mut e = event(1, 0);
    e.false_negative = Some(true);
    observer.process_event(e, 0);
    let updates = observer.expire_old_events(1);
    assert_eq!(updates.len(), 1);
    assert_eq!(updates[0].false_positive, Some(false));
    assert_eq!(updates[0].false_negative, Some(true));
}

#[test]
fn unknown_numbers_are_ignored() {
    let mut observer = RewardObserver::new(RewardConfig::default());
    observer.process_event(event(1, 0), 0);
    assert!(observer.signal_false_positive(2, true).is_none());
    assert!(observer.signal_false_negative(2, true).is_none());
    assert!(observer.signal_false_negative(1, false).is_some());
    assert!(observer.signal_false_negative(1, false).is_none());
}

#[test]
fn a_number_used_twice_keeps_the_later_outcome() {
    let mut observer = RewardObserver::new(with_ttl(Duration::from_nanos(100)));
    observer.process_event(event(1, 0), 0);
    observer.process_event(event(1, 1), 50);
    // The place of the first outcome in the order is still there.
    let updates = observer.expire_old_events(100);
    assert_eq!(updates.len(), 1);
    assert_eq!(updates[0].arm_idx, 1);
    assert!(observer.expire_old_events(1000).is_empty());
}

#[test]
fn an_outcome_from_the_future_is_young() {
    let mut observer = RewardObserver::new(with_ttl(Duration::from_nanos(1)));
    observer.process_event(event(1, 0), 500);
    assert!(observer.expire_old_events(100).is_empty());
    assert_eq!(observer.expire_old_events(501).len(), 1);
}

#[test]
fn without_a_waiting_time_everything_expires_at_once() {
    let mut observer = RewardObserver::new(with_ttl(Duration::from_nanos(0)));
    observer.process_event(event(1, 0), 500);
    observer.process_event(event(2, 0), 0);
    assert_eq!(observer.expire_old_events(0).len(), 2);
}

#[test]
fn reward_defaults() {
    let config = RewardConfig::default();
    assert_eq!(config.event_ttl, Duration::from_secs(60));
    assert_eq!(config.expire_period(), Duration::from_secs(6));
    assert_eq!(value(config.goodput_weight), 1.0);
    assert_eq!(value(config.false_positive_weight), 2.0);
    assert_eq!(value(config.false_negative_weight), 3.0);
    assert_eq!(value(config.latency_weight), 0.1);
    assert_eq!(value(config.latency_ceiling_ns), 10_000_000.0);
    assert_eq!(with_ttl(Duration::from_nanos(59)).expire_period(), Duration::from_nanos(5));
}
