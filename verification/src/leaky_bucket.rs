//! The leaky bucket.
use crate::clock::{elapsed, nanos_between};
use crate::duration::Duration;
use crate::keyed::{
    after_asks, check_step, current, granted, keyed_behaviour, lemma_keyed_behaviour, repeated,
    step, Ask, KeyState, KeyedLimiter,
};
use crate::rate::{
    accrued, min_nat, rate_denom, rate_is_exact, rate_numer, tokens_gained, tokens_in, wait,
    wait_is_the_nearest, wait_nanos,
};
use crate::types::{
    after, answer, Algorithm, Behaviour, BucketConfig, Call, RateLimitResult, RateLimiter,
};
use std::collections::VecDeque;
use vstd::prelude::*;

verus! {

/// The requests queued for one key, and when the queue last drained.
pub struct LeakyQueue {
    /// Instants at which the queued requests came in, oldest first.
    pub queue: Seq<u64>,
    /// Instant of the last drain.
    pub last_leak: nat,
}

/// An empty queue.
pub open spec fn emptied(now: nat) -> LeakyQueue {
    LeakyQueue { queue: Seq::empty(), last_leak: now }
}

/// The queue after the drain at `now`: as many requests leave as the rate
/// lets out in the time since the last drain. If none does, the time goes on
/// counting; if one does, what is left of the time beyond whole requests is
/// lost.
pub open spec fn leaked(config: BucketConfig, state: LeakyQueue, now: nat) -> LeakyQueue {
    let gone = tokens_in(config.refill_rate, elapsed(state.last_leak, now));
    if gone > 0 {
        LeakyQueue {
            queue: state.queue.skip(min_nat(gone, state.queue.len()) as int),
            last_leak: now,
        }
    } else {
        state
    }
}

/// How long a denied request is told to wait: the time in which an empty
/// queue would let `n` requests out, or that in which the queue drains,
/// counted from the arrival of the oldest request.
pub open spec fn drain_nanos(config: BucketConfig, queue: Seq<u64>, n: u64, now: u64) -> nat {
    let rate = config.refill_rate;
    if queue.len() == 0 {
        wait_nanos(rate, n as nat * rate_denom(rate))
    } else {
        let drain = wait_nanos(rate, queue.len() * rate_denom(rate));
        let age = elapsed(queue[0] as nat, now as nat);
        if drain >= age {
            (drain - age) as nat
        } else {
            0
        }
    }
}

/// The queue after `n` requests at `now`, and the answer: they are queued if
/// there is room for all of them.
pub open spec fn enqueued(config: BucketConfig, state: LeakyQueue, n: u64, now: u64) -> (
    LeakyQueue,
    RateLimitResult,
) {
    let ready = leaked(config, state, now as nat);
    if ready.queue.len() + n <= config.capacity {
        (
            LeakyQueue { queue: ready.queue + repeated(now, n as nat), ..ready },
            RateLimitResult::allowed_spec(
                (config.capacity - (ready.queue.len() + n)) as u64,
                config.capacity,
                Algorithm::LeakyBucket,
            ),
        )
    } else {
        (
            ready,
            RateLimitResult::denied_spec(
                (config.capacity - ready.queue.len()) as u64,
                config.capacity,
                Duration { nanos: drain_nanos(config, ready.queue, n, now) as u128 },
                Algorithm::LeakyBucket,
            ),
        )
    }
}

/// The queue of one key.
#[derive(Debug)]
pub struct LeakyState {
    queue: VecDeque<u64>,
    last_leak: u64,
}

impl LeakyState {
    /// The queue and the instant of its last drain.
    pub closed spec fn content(&self) -> LeakyQueue {
        LeakyQueue { queue: self.queue@, last_leak: self.last_leak as nat }
    }

    /// No more requests than there is room for.
    pub closed spec fn in_order(&self, config: BucketConfig) -> bool {
        self.queue@.len() <= config.capacity
    }

    /// An empty queue.
    fn new(now: u64) -> (s: Self)
        ensures
            s.content() == emptied(now as nat),
            forall|config: BucketConfig| #[trigger] s.in_order(config),
    {
        LeakyState { queue: VecDeque::new(), last_leak: now }
    }

    /// Lets out the requests that have drained since the last drain.
    fn leak(&mut self, config: &BucketConfig, now: u64)
        requires
            config.refill_rate.positive(),
            old(self).in_order(*config),
        ensures
            final(self).in_order(*config),
            final(self).content() == leaked(*config, old(self).content(), now as nat),
    {
        let gone: u64 = tokens_gained(
            &config.refill_rate,
            nanos_between(self.last_leak, now),
        );
        if gone > 0 {
            let length: u64 = self.queue.len() as u64;
            let count: u64 = if gone < length {
                gone
            } else {
                length
            };
            let mut i: u64 = 0;
            assert(self.queue@.skip(0) =~= self.queue@);
            while i < count
                invariant
                    i <= count <= old(self).queue@.len(),
                    self.queue@ == old(self).queue@.skip(i as int),
                decreases count - i,
            {
                let _ = self.queue.pop_front();
                assert(self.queue@ =~= old(self).queue@.skip(i + 1));
                i = i + 1;
            }
            self.last_leak = now;
        }
    }

    /// Queues `n` requests at `now` if there is room for them.
    fn try_enqueue(&mut self, config: &BucketConfig, n: u64, now: u64) -> (r: RateLimitResult)
        requires
            config.refill_rate.positive(),
            old(self).in_order(*config),
        ensures
            final(self).in_order(*config),
            (final(self).content(), r) == enqueued(*config, old(self).content(), n, now),
    {
        self.leak(config, now);
        let ghost ready = self.content();
        let available: u64 = config.capacity.saturating_sub(self.queue.len() as u64);
        if n <= available {
            let mut i: u64 = 0;
            assert(ready.queue + repeated(now, 0) =~= ready.queue);
            while i < n
                invariant
                    i <= n,
                    self.queue@ == ready.queue + repeated(now, i as nat),
                    self.last_leak == ready.last_leak,
                decreases n - i,
            {
                self.queue.push_back(now);
                assert((ready.queue + repeated(now, i as nat)).push(now) =~= ready.queue + repeated(
                    now,
                    (i + 1) as nat,
                ));
                i = i + 1;
            }
            RateLimitResult::allowed(available - n, config.capacity, Algorithm::LeakyBucket)
        } else {
            proof {
                rate_is_exact(config.refill_rate);
                let numer = rate_numer(config.refill_rate);
                assert(0 <= u64::MAX * numer) by (nonlinear_arith)
                    requires
                        0 <= numer,
                ;
            }
            let retry_after = if self.queue.len() == 0 {
                wait(&config.refill_rate, n, 0)
            } else {
                let age = Duration::from_nanos(nanos_between(self.queue[0], now));
                wait(&config.refill_rate, self.queue.len() as u64, 0).saturating_sub(age)
            };
            RateLimitResult::denied(
                available,
                config.capacity,
                retry_after,
                Algorithm::LeakyBucket,
            )
        }
    }
}

impl KeyState for LeakyState {
    type Config = BucketConfig;

    type Model = LeakyQueue;

    open spec fn usable(config: BucketConfig) -> bool {
        config.refill_rate.positive()
    }

    open spec fn valid(&self, config: BucketConfig) -> bool {
        self.in_order(config)
    }

    open spec fn model(&self, config: BucketConfig) -> LeakyQueue {
        self.content()
    }

    open spec fn fresh(config: BucketConfig, now: u64) -> LeakyQueue {
        emptied(now as nat)
    }

    open spec fn checked(config: BucketConfig, state: LeakyQueue, n: u64, now: u64) -> (
        LeakyQueue,
        RateLimitResult,
    ) {
        enqueued(config, state, n, now)
    }

    open spec fn kind() -> Algorithm {
        Algorithm::LeakyBucket
    }

    fn algorithm() -> (a: Algorithm) {
        Algorithm::LeakyBucket
    }

    open spec fn limit(config: BucketConfig) -> u64 {
        config.capacity
    }

    fn start(config: &BucketConfig, now: u64) -> (s: Self) {
        LeakyState::new(now)
    }

    fn check_n(&mut self, config: &BucketConfig, n: u64, now: u64) -> (r: RateLimitResult) {
        self.try_enqueue(config, n, now)
    }
}

/// Leaky-bucket rate limiter.
///
/// Queues up to `capacity` requests per key and lets them out at a constant
/// `refill_rate` per second.
pub struct LeakyBucket {
    keyed: KeyedLimiter<LeakyState>,
}

impl LeakyBucket {
    /// The parameters of the limiter.
    pub closed spec fn config(&self) -> BucketConfig {
        self.keyed.config()
    }

    /// The queues of the keys that the limiter has seen.
    pub closed spec fn buckets(&self) -> Map<Seq<char>, LeakyQueue> {
        self.keyed.states()
    }

    /// The instant of the last check at the moment of a call.
    pub closed spec fn last_reading(&self) -> u64 {
        self.keyed.last_reading()
    }

    /// A limiter whose queues are all empty.
    pub fn new(config: BucketConfig) -> (l: Self)
        requires
            config.refill_rate.positive(),
        ensures
            l.valid(),
            l.config() == config,
            l.buckets() == Map::<Seq<char>, LeakyQueue>::empty(),
            l.last_reading() == 0,
    {
        LeakyBucket { keyed: KeyedLimiter::new(config) }
    }
}

impl RateLimiter for LeakyBucket {
    closed spec fn valid(&self) -> bool {
        self.keyed.valid()
    }

    open spec fn behaviour(&self) -> Behaviour {
        keyed_behaviour::<LeakyState>(self.config(), self.buckets())
    }

    open spec fn kind(&self) -> Algorithm {
        Algorithm::LeakyBucket
    }

    fn check_n_at(&mut self, key: &str, n: u64, now: u64) -> (r: RateLimitResult)
        ensures
            final(self).config() == old(self).config(),
            check_step::<LeakyState>(
                old(self).config(),
                old(self).buckets(),
                key@,
                n,
                now,
                final(self).buckets(),
                r,
            ),
            r.informative(old(self).config().capacity, Algorithm::LeakyBucket),
            final(self).last_reading() == old(self).last_reading(),
    {
        self.keyed.check_n_at(key, n, now)
    }

    fn check_n(&mut self, key: &str, n: u64) -> (r: RateLimitResult)
        ensures
            final(self).config() == old(self).config(),
            check_step::<LeakyState>(
                old(self).config(),
                old(self).buckets(),
                key@,
                n,
                final(self).last_reading(),
                final(self).buckets(),
                r,
            ),
            r.informative(old(self).config().capacity, Algorithm::LeakyBucket),
            final(self).last_reading() >= old(self).last_reading(),
    {
        let r = self.keyed.check_n(key, n);
        assert(r == answer(old(self).behaviour(), key@, n, self.last_reading()));
        r
    }

    fn check(&mut self, key: &str) -> (r: RateLimitResult)
        ensures
            final(self).config() == old(self).config(),
            check_step::<LeakyState>(
                old(self).config(),
                old(self).buckets(),
                key@,
                1,
                final(self).last_reading(),
                final(self).buckets(),
                r,
            ),
            r.informative(old(self).config().capacity, Algorithm::LeakyBucket),
            final(self).last_reading() >= old(self).last_reading(),
    {
        let r = self.keyed.check(key);
        assert(r == answer(old(self).behaviour(), key@, 1, self.last_reading()));
        r
    }

    fn reset(&mut self, key: &str)
        ensures
            final(self).config() == old(self).config(),
            final(self).buckets() == old(self).buckets().remove(key@),
            final(self).last_reading() == old(self).last_reading(),
    {
        self.keyed.reset(key)
    }

    fn algorithm(&self) -> (a: Algorithm) {
        self.keyed.algorithm()
    }
}

/// The tokens that come in are no more than the rate allows.
proof fn lemma_tokens_in_bounded(config: BucketConfig, passed: nat)
    requires
        config.refill_rate.positive(),
    ensures
        tokens_in(config.refill_rate, passed) * rate_denom(config.refill_rate) <= passed
            * rate_numer(config.refill_rate),
{
    let rate = config.refill_rate;
    rate_is_exact(rate);
    let shares = accrued(rate, 0, passed, u64::MAX as nat) as int;
    let denom = rate_denom(rate) as int;
    vstd::arithmetic::div_mod::lemma_fundamental_div_mod(shares, denom);
    assert((shares / denom) * denom == denom * (shares / denom)) by (nonlinear_arith);
}

/// The queue never holds more than `capacity` requests.
pub proof fn leaky_bucket_stays_within_capacity(
    config: BucketConfig,
    state: LeakyQueue,
    asks: Seq<Ask>,
)
    requires
        state.queue.len() <= config.capacity,
    ensures
        after_asks::<LeakyState>(config, state, asks).queue.len() <= config.capacity,
    decreases asks.len(),
{
    if asks.len() > 0 {
        leaky_bucket_stays_within_capacity(config, state, asks.drop_last());
    }
}

/// However the checks of a key are spread, the requests that they let in
/// leave no faster than the rate allows: what was queued at the start and let
/// in since, less what is queued at the end, has drained in the time between
/// the first and the last drain.
pub proof fn leaky_bucket_drains_at_rate(config: BucketConfig, state: LeakyQueue, asks: Seq<Ask>)
    requires
        config.refill_rate.positive(),
    ensures
        ({
            let end = after_asks::<LeakyState>(config, state, asks);
            let drained = state.queue.len() + granted::<LeakyState>(config, state, asks)
                - end.queue.len();
            &&& end.last_leak >= state.last_leak
            &&& drained >= 0
            &&& drained * rate_denom(config.refill_rate) <= (end.last_leak - state.last_leak)
                * rate_numer(config.refill_rate)
        }),
    decreases asks.len(),
{
    let denom = rate_denom(config.refill_rate);
    let numer = rate_numer(config.refill_rate);
    if asks.len() == 0 {
        assert(0 * denom == 0);
        assert(0 * numer == 0);
    } else {
        leaky_bucket_drains_at_rate(config, state, asks.drop_last());
        let mid = after_asks::<LeakyState>(config, state, asks.drop_last());
        let end = after_asks::<LeakyState>(config, state, asks);
        let now = asks.last().now as nat;
        let passed = elapsed(mid.last_leak, now);
        lemma_tokens_in_bounded(config, passed);
        let gone = tokens_in(config.refill_rate, passed);
        if gone > 0 && now < mid.last_leak {
            assert(passed == 0);
            assert(0 * numer == 0);
            assert(gone * denom >= denom) by (nonlinear_arith)
                requires
                    gone >= 1,
                    denom >= 0,
            ;
            rate_is_exact(config.refill_rate);
            assert(false);
        }
        let out = if gone > 0 {
            min_nat(gone, mid.queue.len())
        } else {
            0
        };
        let before = state.queue.len() + granted::<LeakyState>(config, state, asks.drop_last())
            - mid.queue.len();
        let drained = state.queue.len() + granted::<LeakyState>(config, state, asks)
            - end.queue.len();
        assert(drained == before + out);
        assert((before + out) * denom == before * denom + out * denom) by (nonlinear_arith);
        assert(out * denom <= gone * denom) by (nonlinear_arith)
            requires
                out <= gone,
                denom >= 0,
        ;
        if gone > 0 {
            assert((mid.last_leak - state.last_leak + passed) * numer == (mid.last_leak
                - state.last_leak) * numer + passed * numer) by (nonlinear_arith);
        } else {
            assert(0 * denom == 0);
        }
    }
}

/// A queue that starts empty never lets more requests in than its capacity
/// and what the rate lets out in the time that passes.
pub proof fn leaky_bucket_bounds_admission(config: BucketConfig, start: u64, asks: Seq<Ask>)
    requires
        config.refill_rate.positive(),
    ensures
        ({
            let state = emptied(start as nat);
            let end = after_asks::<LeakyState>(config, state, asks);
            granted::<LeakyState>(config, state, asks) * rate_denom(config.refill_rate)
                <= config.capacity * rate_denom(config.refill_rate) + (end.last_leak - start)
                * rate_numer(config.refill_rate)
        }),
{
    let state = emptied(start as nat);
    leaky_bucket_drains_at_rate(config, state, asks);
    leaky_bucket_stays_within_capacity(config, state, asks);
    let end = after_asks::<LeakyState>(config, state, asks);
    let denom = rate_denom(config.refill_rate);
    let all = granted::<LeakyState>(config, state, asks);
    let held = end.queue.len();
    assert((all - held) * denom == all * denom - held * denom) by (nonlinear_arith);
    assert(held * denom <= config.capacity * denom) by (nonlinear_arith)
        requires
            held <= config.capacity,
            denom >= 0,
    ;
}

/// A denied check queues nothing.
pub proof fn leaky_bucket_denial_queues_nothing(
    config: BucketConfig,
    state: LeakyQueue,
    n: u64,
    now: u64,
)
    requires
        !enqueued(config, state, n, now).1.allowed,
    ensures
        enqueued(config, state, n, now).0 == leaked(config, state, now as nat),
{
}

/// A denied check succeeds at a later instant exactly if by then as many
/// requests have drained as it lacked room for, if nothing else happens to
/// the key.
pub proof fn leaky_bucket_retry_needs_room(
    config: BucketConfig,
    state: LeakyQueue,
    n: u64,
    now: u64,
    later: u64,
)
    requires
        n <= config.capacity,
        !enqueued(config, state, n, now).1.allowed,
    ensures
        ({
            let ready = enqueued(config, state, n, now).0;
            let gone = tokens_in(config.refill_rate, elapsed(ready.last_leak, later as nat));
            enqueued(config, ready, n, later).1.allowed <==> gone >= ready.queue.len() + n
                - config.capacity
        }),
{
}

/// A denied check of no more than `capacity` requests succeeds once more
/// than `retry_after` has passed, if the queue has not drained since its
/// oldest request came in and nothing else happens to the key.
pub proof fn leaky_bucket_retry_succeeds(
    config: BucketConfig,
    state: LeakyQueue,
    n: u64,
    now: u64,
    later: u64,
)
    requires
        config.refill_rate.positive(),
        n <= config.capacity,
        state.queue.len() <= config.capacity,
        ({
            let (ready, r) = enqueued(config, state, n, now);
            &&& !r.allowed
            &&& ready.last_leak <= ready.queue[0] <= now
            &&& later > now + r.retry_after->0.nanos
        }),
    ensures
        enqueued(config, enqueued(config, state, n, now).0, n, later).1.allowed,
{
    let rate = config.refill_rate;
    let denom = rate_denom(rate);
    let numer = rate_numer(rate);
    rate_is_exact(rate);
    let (ready, r) = enqueued(config, state, n, now);
    let length = ready.queue.len();
    assert(length > 0);
    let near = crate::rate::nearest(length * denom, numer);
    crate::rate::lemma_nearest_covers(length * denom, numer);
    assert(wait_nanos(rate, length * denom) < later);
    assert(wait_nanos(rate, length * denom) == near);
    let passed = elapsed(ready.last_leak, later as nat);
    assert(passed >= near + 1);
    assert(passed * numer >= (near + 1) * numer) by (nonlinear_arith)
        requires
            passed >= near + 1,
            numer >= 0,
    ;
    assert(u64::MAX * denom >= length * denom) by (nonlinear_arith)
        requires
            u64::MAX >= length,
            denom >= 0,
    ;
    vstd::arithmetic::div_mod::lemma_div_is_ordered(
        (length * denom) as int,
        accrued(rate, 0, passed, u64::MAX as nat) as int,
        denom as int,
    );
    vstd::arithmetic::div_mod::lemma_div_by_multiple(length as int, denom as int);
    assert(tokens_in(rate, passed) >= length);
}

/// Every answer names the capacity, says how much room is left of it, and, on
/// denial, how long to wait.
pub proof fn leaky_bucket_answers_are_informative(
    config: BucketConfig,
    state: LeakyQueue,
    n: u64,
    now: u64,
)
    requires
        state.queue.len() <= config.capacity,
    ensures
        enqueued(config, state, n, now).1.informative(config.capacity, Algorithm::LeakyBucket),
{
}

/// What a check does. As many requests leave the front of the queue as the rate
/// lets out in the time since the last drain, and if any could, this is the last
/// drain from now on. The new requests join exactly if there is room for all of
/// them. What remains is the room that is left.
pub proof fn leaky_bucket_check_is_exact(
    config: BucketConfig,
    state: LeakyQueue,
    n: u64,
    now: u64,
)
    requires
        config.refill_rate.positive(),
        state.queue.len() <= config.capacity,
    ensures
        ({
            let (numer, denom) = (rate_numer(config.refill_rate), rate_denom(config.refill_rate));
            let (then, r) = enqueued(config, state, n, now);
            let time = if now >= state.last_leak {
                now - state.last_leak
            } else {
                0
            };
            let joined = if r.allowed {
                Seq::new(n as nat, |i: int| now)
            } else {
                Seq::empty()
            };
            &&& exists|out: int|
                {
                    &&& 0 <= out <= state.queue.len()
                    &&& out * denom <= time * numer
                    &&& out == state.queue.len() || (out + 1) * denom > time * numer
                    &&& then.queue == #[trigger] state.queue.skip(out) + joined
                    &&& r.allowed <==> state.queue.len() - out + n <= config.capacity
                }
            &&& then.last_leak == if time * numer >= denom {
                now as int
            } else {
                state.last_leak as int
            }
            &&& r.remaining == config.capacity - then.queue.len()
            &&& r.limit == config.capacity
            &&& r.algorithm == Algorithm::LeakyBucket
            &&& r.allowed <==> r.retry_after is None
        }),
{
    let rate = config.refill_rate;
    let (numer, denom) = (rate_numer(rate), rate_denom(rate));
    rate_is_exact(rate);
    let time = elapsed(state.last_leak, now as nat);
    let gone = tokens_in(rate, time);
    lemma_tokens_in_bounded(config, time);
    lemma_tokens_in_most(config, time);
    let out = if gone > 0 {
        min_nat(gone, state.queue.len())
    } else {
        0
    };
    let (then, r) = enqueued(config, state, n, now);
    let joined = if r.allowed {
        Seq::new(n as nat, |i: int| now)
    } else {
        Seq::empty()
    };
    assert(state.queue.skip(0) =~= state.queue);
    assert(then.queue =~= state.queue.skip(out as int) + joined);
    assert(out * denom <= gone * denom) by (nonlinear_arith)
        requires
            out <= gone,
            denom >= 0,
    ;
    if gone > 0 {
        assert(gone * denom >= denom) by (nonlinear_arith)
            requires
                gone >= 1,
                denom >= 0,
        ;
    } else {
        assert((gone + 1) * denom == denom) by (nonlinear_arith)
            requires
                gone == 0,
        ;
    }
}

/// The tokens that come in are no fewer than the rate brings, short of one.
proof fn lemma_tokens_in_most(config: BucketConfig, passed: nat)
    requires
        config.refill_rate.positive(),
    ensures
        tokens_in(config.refill_rate, passed) < u64::MAX ==> (tokens_in(config.refill_rate, passed)
            + 1) * rate_denom(config.refill_rate) > passed * rate_numer(config.refill_rate),
{
    let rate = config.refill_rate;
    rate_is_exact(rate);
    let denom = rate_denom(rate) as int;
    let shares = accrued(rate, 0, passed, u64::MAX as nat) as int;
    vstd::arithmetic::div_mod::lemma_fundamental_div_mod(shares, denom);
    assert((shares / denom + 1) * denom == denom * (shares / denom) + denom) by (nonlinear_arith);
    vstd::arithmetic::div_mod::lemma_div_by_multiple(u64::MAX as int, denom);
}

/// What an answer calls remaining is exactly how many requests the queue would
/// still take at that instant, whether the check was allowed or denied.
pub proof fn leaky_bucket_remaining_is_exact(
    config: BucketConfig,
    states: Map<Seq<char>, LeakyQueue>,
    key: Seq<char>,
    n: u64,
    m: u64,
    now: u64,
)
    requires
        config.refill_rate.positive(),
        states.contains_key(key) ==> states[key].queue.len() <= config.capacity,
    ensures
        ({
            let b = keyed_behaviour::<LeakyState>(config, states);
            let r = answer(b, key, n, now);
            answer(after(b, Call::Check { key, n, now }), key, m, now).allowed <==> m
                <= r.remaining
        }),
{
    let call = Call::Check { key, n, now };
    lemma_keyed_behaviour::<LeakyState>(config, states, call);
    lemma_keyed_behaviour::<LeakyState>(config, step::<LeakyState>(config, states, call), call);
    let state = current::<LeakyState>(config, states, key, now);
    let then = enqueued(config, state, n, now).0;
    lemma_tokens_in_bounded(config, 0);
    rate_is_exact(config.refill_rate);
    assert(0 * rate_numer(config.refill_rate) == 0);
    let none = tokens_in(config.refill_rate, 0);
    let denom = rate_denom(config.refill_rate);
    assert(none == 0) by (nonlinear_arith)
        requires
            none * denom <= 0,
            denom > 0,
    ;
    let time = elapsed(state.last_leak, now as nat);
    if tokens_in(config.refill_rate, time) == 0 {
        assert(then.last_leak == state.last_leak);
    } else {
        assert(elapsed(then.last_leak, now as nat) == 0);
    }
}

/// A key that was never seen has an empty queue: requests are taken exactly if
/// they are no more than the capacity.
pub proof fn leaky_bucket_starts_empty(config: BucketConfig, key: Seq<char>, n: u64, now: u64)
    requires
        config.refill_rate.positive(),
    ensures
        ({
            let r = answer(keyed_behaviour::<LeakyState>(config, Map::empty()), key, n, now);
            &&& r.allowed <==> n <= config.capacity
            &&& r.remaining == if n <= config.capacity {
                config.capacity - n
            } else {
                config.capacity as int
            }
        }),
{
    lemma_keyed_behaviour::<LeakyState>(config, Map::empty(), Call::Check { key, n, now });
    leaky_bucket_check_is_exact(config, emptied(now as nat), n, now);
}

/// How long a denied check is told to wait. Where requests are queued, the
/// announced instant is that at which as many requests have been let out as are
/// queued, counted from the arrival of the oldest, or now if that has passed.
/// Where none is, it is that at which as many have been let out as were asked
/// for.
pub proof fn leaky_bucket_wait_is_exact(config: BucketConfig, state: LeakyQueue, n: u64, now: u64)
    requires
        config.refill_rate.positive(),
        !enqueued(config, state, n, now).1.allowed,
    ensures
        ({
            let (then, r) = enqueued(config, state, n, now);
            let (rate, queue) = (config.refill_rate, then.queue);
            let drain = wait_nanos(rate, queue.len() * rate_denom(rate));
            &&& r.retry_after is Some
            &&& queue.len() == 0 ==> r.retry_after->0.nanos == wait_nanos(
                rate,
                n as nat * rate_denom(rate),
            )
            &&& queue.len() > 0 && queue[0] <= now ==> now + r.retry_after->0.nanos == if queue[0]
                + drain >= now {
                queue[0] + drain
            } else {
                now as int
            }
            &&& queue.len() > 0 && queue[0] > now ==> r.retry_after->0.nanos == drain
        }),
{
    let then = enqueued(config, state, n, now).0;
    wait_is_the_nearest(config.refill_rate, n as nat * rate_denom(config.refill_rate));
    wait_is_the_nearest(
        config.refill_rate,
        then.queue.len() * rate_denom(config.refill_rate),
    );
}

/// Requests drain at the rate: after the queue has been filled at once, requests
/// are taken exactly if the time since then lets as many out.
pub proof fn leaky_bucket_recovers_at_the_rate(
    config: BucketConfig,
    key: Seq<char>,
    now: u64,
    m: u64,
    later: u64,
)
    requires
        config.refill_rate.positive(),
        m <= config.capacity,
        now <= later,
    ensures
        ({
            let b = keyed_behaviour::<LeakyState>(config, Map::empty());
            let burst = Call::Check { key, n: config.capacity, now };
            answer(after(b, burst), key, m, later).allowed <==> m * rate_denom(config.refill_rate)
                <= (later - now) * rate_numer(config.refill_rate)
        }),
{
    let call = Call::Check { key, n: config.capacity, now };
    let empty = Map::<Seq<char>, LeakyQueue>::empty();
    lemma_keyed_behaviour::<LeakyState>(config, empty, call);
    lemma_keyed_behaviour::<LeakyState>(config, step::<LeakyState>(config, empty, call), call);
    let (numer, denom) = (rate_numer(config.refill_rate), rate_denom(config.refill_rate));
    rate_is_exact(config.refill_rate);
    let state = current::<LeakyState>(config, empty, key, now);
    leaky_bucket_check_is_exact(config, state, config.capacity, now);
    assert(0 * numer == 0);
    let then = enqueued(config, state, config.capacity, now).0;
    assert(then.queue.len() == config.capacity);
    let time = (later - now) as nat;
    leaky_bucket_check_is_exact(config, then, m, later);
    let (end, r) = enqueued(config, then, m, later);
    let joined = if r.allowed {
        Seq::new(m as nat, |i: int| later)
    } else {
        Seq::empty()
    };
    let out = choose|out: int|
        {
            &&& 0 <= out <= then.queue.len()
            &&& out * denom <= time * numer
            &&& out == then.queue.len() || (out + 1) * denom > time * numer
            &&& end.queue == #[trigger] then.queue.skip(out) + joined
            &&& r.allowed <==> then.queue.len() - out + m <= config.capacity
        };
    if m <= out {
        assert(m * denom <= out * denom) by (nonlinear_arith)
            requires
                m <= out,
                denom >= 0,
        ;
    } else {
        assert(m * denom >= (out + 1) * denom) by (nonlinear_arith)
            requires
                m >= out + 1,
                denom >= 0,
        ;
    }
}

} // verus!
