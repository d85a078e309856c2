//! Choosing between limiters.
//!
//! For every request, a contextual bandit picks the limiter that decides.
//! What comes of the decision is reported to an observer, from which the
//! bandit learns which limiter serves which requests best.
//!
//! Requests are observed, arms are picked, outcomes are numbered and held
//! here. The scores of the arms are computed by the caller, from what was
//! observed of the request and what the arms have learnt.
pub mod bandit;
pub mod features;
pub mod limiter;
pub mod observer;

pub use bandit::{BanditConfig, LinUCBBandit};
pub use features::{FeatureConfig, FeatureExtractor, Observation};
pub use limiter::{
    AnyAlgorithm, ClientClass, Decision, FixedWindowAdapter, LeakyBucketAdapter, RateLimiter,
    RequestContext, SlidingWindowAdapter, TokenBucketAdapter,
};
pub use observer::{ObserverInput, ObserverMessage, RewardConfig, RewardEvent, RewardObserver};

use crate::binary64::Binary64;
use crate::chooser::bandit::{best_arm, ArmState};
use crate::chooser::features::{clients_after, observed, times_after, times_of, FEATURE_DIM};
use crate::chooser::limiter::{after_visit, decide, Conduct, Visit};
use crate::chooser::observer::Ledger;
use crate::clock::{nanos_between, Clock};
use vstd::prelude::*;

verus! {

/// How the algorithms of a list conduct themselves.
pub open spec fn conducts_of(algorithms: Seq<AnyAlgorithm>) -> Seq<Conduct> {
    Seq::new(algorithms.len(), |i: int| algorithms[i].conduct())
}

/// The names of the algorithms of a list.
pub open spec fn labels_of(algorithms: Seq<AnyAlgorithm>) -> Seq<Seq<char>> {
    Seq::new(algorithms.len(), |i: int| algorithms[i].label())
}

/// Whether the algorithms of a list are in order.
pub open spec fn all_valid(algorithms: Seq<AnyAlgorithm>) -> bool {
    forall|i: int| 0 <= i < algorithms.len() ==> (#[trigger] algorithms[i]).valid()
}

/// The number of the outcome after the one with number `event_id`.
pub open spec fn next_event_id(event_id: u64) -> u64 {
    if event_id == u64::MAX {
        0
    } else {
        (event_id + 1) as u64
    }
}

/// The number of the outcome that is `steps` outcomes after the one with
/// number `event_id`.
pub open spec fn event_id_after(event_id: u64, steps: nat) -> u64
    decreases steps,
{
    if steps == 0 {
        event_id
    } else {
        next_event_id(event_id_after(event_id, (steps - 1) as nat))
    }
}

/// Whether the algorithms, asked about a request at the instant `now` with
/// `arm` to decide, decide `d` and then conduct themselves as `then`. Only
/// the algorithm that decides hears of the request.
pub open spec fn decided(
    before: Seq<Conduct>,
    arm: int,
    ctx: RequestContext,
    now: u64,
    then: Seq<Conduct>,
    d: Decision,
) -> bool {
    &&& 0 <= arm < before.len()
    &&& d == decide(before[arm], Visit { ctx, now })
    &&& then == before.update(arm, after_visit(before[arm], Visit { ctx, now }))
}

/// Picks the limiter that decides about a request.
pub struct AlgorithmChooser {
    algorithms: Vec<AnyAlgorithm>,
    bandit: LinUCBBandit,
    features: FeatureExtractor,
    event_counter: u64,
    clock: Clock,
}

impl AlgorithmChooser {
    /// There is an algorithm, all algorithms are in order, and the bandit has
    /// an arm for each.
    pub closed spec fn valid(&self) -> bool {
        &&& self.algorithms@.len() > 0
        &&& all_valid(self.algorithms@)
        &&& self.bandit.valid()
        &&& self.bandit.arms().len() == self.algorithms@.len()
    }

    /// How the algorithms conduct themselves, in their order.
    pub closed spec fn conducts(&self) -> Seq<Conduct> {
        conducts_of(self.algorithms@)
    }

    /// The names of the algorithms, in their order.
    pub closed spec fn labels(&self) -> Seq<Seq<char>> {
        labels_of(self.algorithms@)
    }

    /// The bandit.
    pub closed spec fn bandit_spec(&self) -> LinUCBBandit {
        self.bandit
    }

    /// What observes the requests.
    pub closed spec fn features_spec(&self) -> FeatureExtractor {
        self.features
    }

    /// The number of the next outcome.
    pub closed spec fn next_event(&self) -> u64 {
        self.event_counter
    }

    /// Records a request and says what is observed of it.
    pub fn observe(&mut self, ctx: &RequestContext) -> (o: Observation)
        requires
            old(self).valid(),
        ensures
            final(self).valid(),
            final(self).conducts() == old(self).conducts(),
            final(self).labels() == old(self).labels(),
            final(self).bandit_spec() == old(self).bandit_spec(),
            final(self).next_event() == old(self).next_event(),
            final(self).features_spec().parameters() == old(self).features_spec().parameters(),
            final(self).features_spec().clients() == clients_after(
                old(self).features_spec().clients(),
                *ctx,
            ),
            observed(
                times_after(
                    times_of(old(self).features_spec().clients(), ctx.client_id),
                    ctx.timestamp_ns,
                ),
                *ctx,
                o,
            ),
    {
        self.features.extract(ctx)
    }

    /// Lets the algorithm with the best score decide about a request at the
    /// instant `now`. The decision and the arm that made it are returned.
    pub fn decide_at(&mut self, ctx: &RequestContext, scores: &[Binary64], now: u64) -> (r: (
        Decision,
        usize,
    ))
        requires
            old(self).valid(),
            scores@.len() == old(self).conducts().len(),
        ensures
            final(self).valid(),
            final(self).labels() == old(self).labels(),
            final(self).bandit_spec() == old(self).bandit_spec(),
            final(self).features_spec() == old(self).features_spec(),
            final(self).next_event() == old(self).next_event(),
            best_arm(scores@, r.1 as int),
            decided(old(self).conducts(), r.1 as int, *ctx, now, final(self).conducts(), r.0),
    {
        let arm: usize = self.bandit.select(scores);
        let decision = self.algorithms[arm].check_at(ctx, now);
        assert(self.labels() =~= old(self).labels());
        assert(self.conducts() =~= old(self).conducts().update(
            arm as int,
            after_visit(old(self).conducts()[arm as int], Visit { ctx: *ctx, now }),
        ));
        (decision, arm)
    }

    /// The outcome of a decision, under a number of its own. Nothing is known
    /// yet of whether the decision was wrong.
    pub fn report(
        &mut self,
        arm: usize,
        context: [Binary64; FEATURE_DIM],
        decision: Decision,
        latency_ns: u64,
    ) -> (event: RewardEvent)
        requires
            old(self).valid(),
        ensures
            final(self).valid(),
            final(self).conducts() == old(self).conducts(),
            final(self).labels() == old(self).labels(),
            final(self).bandit_spec() == old(self).bandit_spec(),
            final(self).features_spec() == old(self).features_spec(),
            final(self).next_event() == next_event_id(old(self).next_event()),
            event == (RewardEvent {
                event_id: old(self).next_event(),
                arm_idx: arm,
                context,
                decision,
                latency_ns,
                false_positive: None,
                false_negative: None,
            }),
    {
        let event_id: u64 = self.event_counter;
        self.event_counter = event_id.wrapping_add(1);
        RewardEvent {
            event_id,
            arm_idx: arm,
            context,
            decision,
            latency_ns,
            false_positive: None,
            false_negative: None,
        }
    }

    /// Lets the algorithm with the best score decide about a request at the
    /// instant of the call. The decision is returned, and its outcome, which
    /// the observer is to be told of. How long the decision took is read off
    /// the clock.
    pub fn check(
        &mut self,
        ctx: &RequestContext,
        context: [Binary64; FEATURE_DIM],
        scores: &[Binary64],
    ) -> (r: (Decision, RewardEvent))
        requires
            old(self).valid(),
            scores@.len() == old(self).conducts().len(),
        ensures
            final(self).valid(),
            final(self).labels() == old(self).labels(),
            final(self).bandit_spec() == old(self).bandit_spec(),
            final(self).features_spec() == old(self).features_spec(),
            final(self).next_event() == next_event_id(old(self).next_event()),
            best_arm(scores@, r.1.arm_idx as int),
            exists|now: u64| #[trigger]
                decided(
                    old(self).conducts(),
                    r.1.arm_idx as int,
                    *ctx,
                    now,
                    final(self).conducts(),
                    r.0,
                ),
            r.1 == (RewardEvent {
                event_id: old(self).next_event(),
                arm_idx: r.1.arm_idx,
                context,
                decision: r.0,
                latency_ns: r.1.latency_ns,
                false_positive: None,
                false_negative: None,
            }),
    {
        let arm: usize = self.bandit.select(scores);
        let t0: u64 = self.clock.now();
        let ghost before = self.conducts();
        let decision = self.algorithms[arm].check(ctx);
        let latency: u64 = nanos_between(t0, self.clock.now());
        proof {
            assert(self.labels() =~= old(self).labels());
            let now = choose|now: u64|
                decision == #[trigger] decide(before[arm as int], Visit { ctx: *ctx, now })
                    && self.algorithms@[arm as int].conduct() == after_visit(
                    before[arm as int],
                    Visit { ctx: *ctx, now },
                );
            assert(self.conducts() =~= before.update(
                arm as int,
                after_visit(before[arm as int], Visit { ctx: *ctx, now }),
            ));
            assert(decided(before, arm as int, *ctx, now, self.conducts(), decision));
        }
        let event = self.report(arm, context, decision, latency);
        (decision, event)
    }

    /// Counts that an arm has learnt from an outcome, and says whether the
    /// inverse of its matrix is due.
    pub fn learn(&mut self, event: &RewardEvent) -> (due: bool)
        requires
            old(self).valid(),
            event.arm_idx < old(self).bandit_spec().arms().len(),
            old(self).bandit_spec().arms()[event.arm_idx as int].total_updates < usize::MAX,
        ensures
            final(self).valid(),
            final(self).conducts() == old(self).conducts(),
            final(self).labels() == old(self).labels(),
            final(self).features_spec() == old(self).features_spec(),
            final(self).next_event() == old(self).next_event(),
            final(self).bandit_spec().parameters() == old(self).bandit_spec().parameters(),
            final(self).bandit_spec().arms() == old(self).bandit_spec().arms().update(
                event.arm_idx as int,
                old(self).bandit_spec().arms()[event.arm_idx as int].updated(),
            ),
            due == (old(self).bandit_spec().arms()[event.arm_idx as int].updates_since_inversion + 1
                >= old(self).bandit_spec().parameters().lazy_inversion_threshold),
    {
        self.bandit.update(event.arm_idx)
    }

    /// Counts that the inverse of the matrix of an arm was computed.
    pub fn recompute_inverse(&mut self, arm_idx: usize)
        requires
            old(self).valid(),
            arm_idx < old(self).bandit_spec().arms().len(),
        ensures
            final(self).valid(),
            final(self).conducts() == old(self).conducts(),
            final(self).labels() == old(self).labels(),
            final(self).features_spec() == old(self).features_spec(),
            final(self).next_event() == old(self).next_event(),
            final(self).bandit_spec().parameters() == old(self).bandit_spec().parameters(),
            final(self).bandit_spec().arms() == old(self).bandit_spec().arms().update(
                arm_idx as int,
                old(self).bandit_spec().arms()[arm_idx as int].inverted(),
            ),
    {
        self.bandit.recompute_inverse(arm_idx)
    }

    /// The message that says whether a request should have been allowed.
    pub fn signal_false_positive(&self, event_id: u64, is_fp: bool) -> (m: ObserverMessage)
        ensures
            m == (ObserverMessage::SignalFalsePositive { event_id, is_fp }),
    {
        ObserverMessage::SignalFalsePositive { event_id, is_fp }
    }

    /// The message that says whether a request should not have been allowed.
    pub fn signal_false_negative(&self, event_id: u64, is_fn: bool) -> (m: ObserverMessage)
        ensures
            m == (ObserverMessage::SignalFalseNegative { event_id, is_fn }),
    {
        ObserverMessage::SignalFalseNegative { event_id, is_fn }
    }

    /// The bandit.
    pub fn bandit(&self) -> (b: &LinUCBBandit)
        requires
            self.valid(),
        ensures
            *b == self.bandit_spec(),
            b.valid(),
    {
        &self.bandit
    }

    /// What observes the requests.
    pub fn features(&self) -> (f: &FeatureExtractor)
        ensures
            *f == self.features_spec(),
    {
        &self.features
    }

    /// The number of algorithms.
    pub fn num_algorithms(&self) -> (n: usize)
        ensures
            n == self.conducts().len(),
            n == self.labels().len(),
    {
        self.algorithms.len()
    }

    /// The name of an algorithm, if there is one with this number.
    pub fn algorithm_name(&self, idx: usize) -> (name: Option<&'static str>)
        ensures
            match name {
                Some(s) => idx < self.labels().len() && s@ == self.labels()[idx as int],
                None => idx >= self.labels().len(),
            },
            self.labels().len() == self.conducts().len(),
    {
        if idx < self.algorithms.len() {
            Some(self.algorithms[idx].name())
        } else {
            None
        }
    }
}

/// Collects what a chooser is made of.
pub struct AlgorithmChooserBuilder {
    algorithms: Vec<AnyAlgorithm>,
    bandit_config: BanditConfig,
    feature_config: FeatureConfig,
    reward_config: RewardConfig,
}

impl AlgorithmChooserBuilder {
    /// Whether the algorithms are in order.
    pub closed spec fn valid(&self) -> bool {
        all_valid(self.algorithms@)
    }

    /// How the algorithms conduct themselves, in their order.
    pub closed spec fn conducts(&self) -> Seq<Conduct> {
        conducts_of(self.algorithms@)
    }

    /// The names of the algorithms, in their order.
    pub closed spec fn labels(&self) -> Seq<Seq<char>> {
        labels_of(self.algorithms@)
    }

    /// The parameters of the bandit, of the features and of the reward.
    pub closed spec fn parameters(&self) -> (BanditConfig, FeatureConfig, RewardConfig) {
        (self.bandit_config, self.feature_config, self.reward_config)
    }

    /// A builder without algorithms and with the default parameters.
    pub fn new() -> (b: Self)
        ensures
            b.valid(),
            b.conducts() == Seq::<Conduct>::empty(),
            b.labels() == Seq::<Seq<char>>::empty(),
            b.parameters() == (
                BanditConfig::default_spec(),
                FeatureConfig::default_spec(),
                RewardConfig::default_spec(),
            ),
    {
        AlgorithmChooserBuilder {
            algorithms: Vec::new(),
            bandit_config: BanditConfig::default(),
            feature_config: FeatureConfig::default(),
            reward_config: RewardConfig::default(),
        }
    }

    /// Adds an algorithm after those that are there.
    pub fn add_algorithm(self, limiter: AnyAlgorithm) -> (b: Self)
        requires
            self.valid(),
            limiter.valid(),
        ensures
            b.valid(),
            b.conducts() == self.conducts().push(limiter.conduct()),
            b.labels() == self.labels().push(limiter.label()),
            b.parameters() == self.parameters(),
    {
        let mut b = self;
        b.algorithms.push(limiter);
        assert(b.conducts() =~= self.conducts().push(limiter.conduct()));
        assert(b.labels() =~= self.labels().push(limiter.label()));
        b
    }

    /// Sets the parameters of the bandit.
    pub fn bandit_config(self, config: BanditConfig) -> (b: Self)
        ensures
            b.valid() == self.valid(),
            b.conducts() == self.conducts(),
            b.labels() == self.labels(),
            b.parameters() == (config, self.parameters().1, self.parameters().2),
    {
        let mut b = self;
        b.bandit_config = config;
        b
    }

    /// Sets the parameters of the features.
    pub fn feature_config(self, config: FeatureConfig) -> (b: Self)
        ensures
            b.valid() == self.valid(),
            b.conducts() == self.conducts(),
            b.labels() == self.labels(),
            b.parameters() == (self.parameters().0, config, self.parameters().2),
    {
        let mut b = self;
        b.feature_config = config;
        b
    }

    /// Sets the parameters of the reward.
    pub fn reward_config(self, config: RewardConfig) -> (b: Self)
        ensures
            b.valid() == self.valid(),
            b.conducts() == self.conducts(),
            b.labels() == self.labels(),
            b.parameters() == (self.parameters().0, self.parameters().1, config),
    {
        let mut b = self;
        b.reward_config = config;
        b
    }

    /// The chooser, and the observer that is to be told of the outcomes. There
    /// has to be an algorithm.
    pub fn build(self) -> (r: (AlgorithmChooser, RewardObserver))
        requires
            self.valid(),
            self.conducts().len() > 0,
        ensures
            r.0.valid(),
            r.0.conducts() == self.conducts(),
            r.0.labels() == self.labels(),
            r.0.next_event() == 0,
            r.0.bandit_spec().parameters() == self.parameters().0,
            r.0.bandit_spec().arms() == Seq::new(
                self.conducts().len(),
                |i: int| ArmState { updates_since_inversion: 0, total_updates: 0 },
            ),
            r.0.features_spec().parameters() == self.parameters().1,
            r.0.features_spec().clients() == Map::<u64, Seq<u64>>::empty(),
            r.1.parameters() == self.parameters().2,
            r.1.ledger() == Ledger::empty(),
            r.1.ledger().valid(),
    {
        let chooser = AlgorithmChooser {
            bandit: LinUCBBandit::new(self.algorithms.len(), self.bandit_config),
            features: FeatureExtractor::new(self.feature_config),
            algorithms: self.algorithms,
            event_counter: 0,
            clock: Clock::start(),
        };
        (chooser, RewardObserver::new(self.reward_config))
    }
}

impl Default for AlgorithmChooserBuilder {
    fn default() -> (b: Self)
        ensures
            b.valid(),
            b.conducts() == Seq::<Conduct>::empty(),
            b.labels() == Seq::<Seq<char>>::empty(),
            b.parameters() == (
                BanditConfig::default_spec(),
                FeatureConfig::default_spec(),
                RewardConfig::default_spec(),
            ),
    {
        Self::new()
    }
}

/// No two outcomes have the same number, unless as many outcomes lie between
/// them as there are numbers.
pub proof fn event_numbers_are_distinct(event_id: u64, i: nat, j: nat)
    requires
        i < j,
        j - i <= u64::MAX,
    ensures
        event_id_after(event_id, i) != event_id_after(event_id, j),
{
    lemma_event_id_after(event_id, i);
    lemma_event_id_after(event_id, j);
    let modulus = u64::MAX + 1;
    let a = event_id + i;
    if event_id_after(event_id, i) == event_id_after(event_id, j) {
        vstd::arithmetic::div_mod::lemma_fundamental_div_mod(a, modulus);
        vstd::arithmetic::div_mod::lemma_fundamental_div_mod(a + (j - i), modulus);
        let q = (a + (j - i)) / modulus - a / modulus;
        assert(modulus * ((a + (j - i)) / modulus) - modulus * (a / modulus) == modulus * q)
            by (nonlinear_arith)
            requires
                q == (a + (j - i)) / modulus - a / modulus,
        ;
        assert(j - i == modulus * q);
        assert(q < 1) by (nonlinear_arith)
            requires
                modulus * q < modulus,
                modulus > 0,
        ;
        assert(q > 0) by (nonlinear_arith)
            requires
                modulus * q > 0,
                modulus > 0,
        ;
    }
}

proof fn lemma_event_id_after(event_id: u64, steps: nat)
    ensures
        event_id_after(event_id, steps) == (event_id + steps) % (u64::MAX + 1),
    decreases steps,
{
    if steps == 0 {
        vstd::arithmetic::div_mod::lemma_small_mod(event_id as nat, (u64::MAX + 1) as nat);
    } else {
        lemma_event_id_after(event_id, (steps - 1) as nat);
        let modulus = u64::MAX + 1;
        let a = event_id + steps - 1;
        vstd::arithmetic::div_mod::lemma_fundamental_div_mod(a, modulus);
        if a % modulus == u64::MAX {
            assert(a + 1 == modulus * (a / modulus + 1) + 0) by (nonlinear_arith)
                requires
                    a == modulus * (a / modulus) + a % modulus,
                    a % modulus == modulus - 1,
            ;
            vstd::arithmetic::div_mod::lemma_fundamental_div_mod_converse(
                a + 1,
                modulus,
                a / modulus + 1,
                0,
            );
        } else {
            vstd::arithmetic::div_mod::lemma_fundamental_div_mod_converse(
                a + 1,
                modulus,
                a / modulus,
                a % modulus + 1,
            );
        }
    }
}

/// The algorithm that decides does so as it conducts itself, and has seen the
/// visit from then on. The others conduct themselves as before.
pub proof fn only_the_chosen_decides(
    before: Seq<Conduct>,
    arm: int,
    ctx: RequestContext,
    now: u64,
    then: Seq<Conduct>,
    d: Decision,
    other: int,
    visits: Seq<Visit>,
    next: Visit,
)
    requires
        decided(before, arm, ctx, now, then, d),
    ensures
        0 <= arm < before.len(),
        then.len() == before.len(),
        d == before[arm](Seq::empty(), Visit { ctx, now }),
        then[arm](visits, next) == before[arm](seq![Visit { ctx, now }] + visits, next),
        0 <= other < before.len() && other != arm ==> then[other] == before[other],
{
}

/// Outcomes are numbered one after the other, and from zero again after the
/// largest number.
pub proof fn events_are_numbered_in_turn(event_id: u64, steps: nat)
    ensures
        event_id_after(event_id, steps) == (event_id + steps) % 0x1_0000_0000_0000_0000,
        next_event_id(event_id) == (event_id + 1) % 0x1_0000_0000_0000_0000,
{
    lemma_event_id_after(event_id, steps);
}

} // verus!
