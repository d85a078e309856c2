//! The token bucket.
use crate::clock::{elapsed, nanos_between};
use crate::duration::Duration;
use crate::keyed::{
    after_asks, check_step, current, granted, granted_last, keyed_behaviour,
    lemma_keyed_behaviour, step, Ask, KeyState, KeyedLimiter,
};
use crate::rate::{
    accrue, accrued, lemma_nearest_covers, lemma_nearest_falls_short, lemma_written_as, nearest,
    rate_denom, rate_is_exact, rate_numer, wait, wait_nanos,
};
use crate::types::{
    after, answer, Algorithm, Behaviour, BucketConfig, Call, RateLimitResult, RateLimiter,
};
use vstd::prelude::*;

verus! {

/// What the bucket of one key holds, and when it was last refilled.
pub struct TokenLevel {
    /// Content in shares of a token; see [`rate_denom`].
    pub shares: nat,
    /// Instant of the last refill.
    pub last_refill: nat,
}

/// A full bucket.
pub open spec fn full(config: BucketConfig, now: nat) -> TokenLevel {
    TokenLevel {
        shares: config.capacity as nat * rate_denom(config.refill_rate),
        last_refill: now,
    }
}

/// The bucket after the refill at `now`.
pub open spec fn refilled(config: BucketConfig, level: TokenLevel, now: nat) -> TokenLevel {
    TokenLevel {
        shares: accrued(
            config.refill_rate,
            level.shares,
            elapsed(level.last_refill, now),
            config.capacity as nat,
        ),
        last_refill: level.last_refill + elapsed(level.last_refill, now),
    }
}

/// Whole tokens in a bucket.
pub open spec fn whole_tokens(config: BucketConfig, level: TokenLevel) -> nat {
    level.shares / rate_denom(config.refill_rate)
}

/// The bucket after `n` tokens were asked for at `now`, and the answer: the
/// tokens are taken if they are there, and otherwise the bucket keeps what it
/// has and the answer says how long it takes for the missing ones to come in.
pub open spec fn consumed(config: BucketConfig, level: TokenLevel, n: u64, now: nat) -> (
    TokenLevel,
    RateLimitResult,
) {
    let ready = refilled(config, level, now);
    let wanted = n as nat * rate_denom(config.refill_rate);
    if ready.shares >= wanted {
        let rest = TokenLevel { shares: (ready.shares - wanted) as nat, ..ready };
        (
            rest,
            RateLimitResult::allowed_spec(
                whole_tokens(config, rest) as u64,
                config.capacity,
                Algorithm::TokenBucket,
            ),
        )
    } else {
        (
            ready,
            RateLimitResult::denied_spec(
                whole_tokens(config, ready) as u64,
                config.capacity,
                Duration {
                    nanos: wait_nanos(
                        config.refill_rate,
                        (wanted - ready.shares) as nat,
                    ) as u128,
                },
                Algorithm::TokenBucket,
            ),
        )
    }
}

/// The bucket of one key: whole tokens, and shares of the next one.
#[derive(Debug)]
pub struct BucketState {
    tokens: u64,
    credit: u128,
    last_refill: u64,
}

impl BucketState {
    /// The content and the last refill of the bucket.
    pub closed spec fn level(&self, config: BucketConfig) -> TokenLevel {
        TokenLevel {
            shares: self.tokens as nat * rate_denom(config.refill_rate) + self.credit as nat,
            last_refill: self.last_refill as nat,
        }
    }

    /// No more than the capacity, less than a token in shares, and no more
    /// shares than can have come in so far.
    pub closed spec fn in_order(&self, config: BucketConfig) -> bool {
        &&& self.tokens <= config.capacity
        &&& self.tokens == config.capacity ==> self.credit == 0
        &&& self.credit < rate_denom(config.refill_rate)
        &&& self.credit <= self.last_refill * rate_numer(config.refill_rate)
    }

    /// A full bucket.
    fn new(config: &BucketConfig, now: u64) -> (s: Self)
        requires
            config.refill_rate.positive(),
        ensures
            s.in_order(*config),
            s.level(*config) == full(*config, now as nat),
    {
        proof {
            rate_is_exact(config.refill_rate);
            let numer = rate_numer(config.refill_rate);
            assert(0 <= now * numer) by (nonlinear_arith)
                requires
                    0 <= now,
                    0 <= numer,
            ;
        }
        BucketState { tokens: config.capacity, credit: 0, last_refill: now }
    }

    /// Adds the tokens that have come in since the last refill.
    fn refill(&mut self, config: &BucketConfig, now: u64)
        requires
            config.refill_rate.positive(),
            old(self).in_order(*config),
        ensures
            final(self).in_order(*config),
            final(self).level(*config) == refilled(*config, old(self).level(*config), now as nat),
    {
        let passed: u64 = nanos_between(self.last_refill, now);
        let ghost numer = rate_numer(config.refill_rate);
        proof {
            assert(self.last_refill * numer + passed * numer == (self.last_refill + passed) * numer)
                by (nonlinear_arith);
            assert((self.last_refill + passed) * numer <= u64::MAX * numer) by (nonlinear_arith)
                requires
                    self.last_refill + passed <= u64::MAX,
                    numer >= 0,
            ;
        }
        let (tokens, credit) = accrue(
            &config.refill_rate,
            self.tokens,
            self.credit,
            passed,
            config.capacity,
        );
        self.tokens = tokens;
        self.credit = credit;
        self.last_refill = self.last_refill + passed;
    }

    /// Takes `n` tokens at `now` if they are there.
    fn try_consume(&mut self, config: &BucketConfig, n: u64, now: u64) -> (r: RateLimitResult)
        requires
            config.refill_rate.positive(),
            old(self).in_order(*config),
        ensures
            final(self).in_order(*config),
            (final(self).level(*config), r) == consumed(
                *config,
                old(self).level(*config),
                n,
                now as nat,
            ),
    {
        self.refill(config, now);
        let ghost rate = config.refill_rate;
        let ghost denom = rate_denom(rate);
        let ghost ready = self.level(*config);
        proof {
            rate_is_exact(rate);
            lemma_written_as(rate, self.tokens as nat, self.credit as nat, ready.shares);
            lemma_enough(self.tokens as nat, self.credit as nat, n as nat, denom);
        }
        if self.tokens >= n {
            self.tokens = self.tokens - n;
            proof {
                lemma_written_as(
                    rate,
                    self.tokens as nat,
                    self.credit as nat,
                    self.level(*config).shares,
                );
            }
            RateLimitResult::allowed(self.tokens, config.capacity, Algorithm::TokenBucket)
        } else {
            proof {
                let numer = rate_numer(rate);
                assert(self.last_refill * numer <= u64::MAX * numer) by (nonlinear_arith)
                    requires
                        self.last_refill <= u64::MAX,
                        numer >= 0,
                ;
            }
            let retry_after = wait(&config.refill_rate, n - self.tokens, self.credit);
            RateLimitResult::denied(
                self.tokens,
                config.capacity,
                retry_after,
                Algorithm::TokenBucket,
            )
        }
    }
}

/// Whole tokens decide whether `n` tokens are there.
proof fn lemma_enough(tokens: nat, credit: nat, n: nat, denom: nat)
    requires
        credit < denom,
    ensures
        tokens >= n <==> tokens * denom + credit >= n * denom,
        tokens >= n ==> (tokens * denom + credit) - n * denom == (tokens - n) * denom + credit,
        tokens < n ==> n * denom - (tokens * denom + credit) == (n - tokens) * denom - credit,
{
    assert((tokens - n) * denom == tokens * denom - n * denom) by (nonlinear_arith);
    assert((n - tokens) * denom == n * denom - tokens * denom) by (nonlinear_arith);
    if tokens >= n {
        assert((tokens - n) * denom >= 0) by (nonlinear_arith)
            requires
                tokens - n >= 0,
        ;
    } else {
        assert((n - tokens) * denom >= denom) by (nonlinear_arith)
            requires
                n - tokens >= 1,
        ;
    }
}

impl KeyState for BucketState {
    type Config = BucketConfig;

    type Model = TokenLevel;

    open spec fn usable(config: BucketConfig) -> bool {
        config.refill_rate.positive()
    }

    open spec fn valid(&self, config: BucketConfig) -> bool {
        self.in_order(config)
    }

    open spec fn model(&self, config: BucketConfig) -> TokenLevel {
        self.level(config)
    }

    open spec fn fresh(config: BucketConfig, now: u64) -> TokenLevel {
        full(config, now as nat)
    }

    open spec fn checked(config: BucketConfig, state: TokenLevel, n: u64, now: u64) -> (
        TokenLevel,
        RateLimitResult,
    ) {
        consumed(config, state, n, now as nat)
    }

    open spec fn kind() -> Algorithm {
        Algorithm::TokenBucket
    }

    fn algorithm() -> (a: Algorithm) {
        Algorithm::TokenBucket
    }

    open spec fn limit(config: BucketConfig) -> u64 {
        config.capacity
    }

    fn start(config: &BucketConfig, now: u64) -> (s: Self) {
        BucketState::new(config, now)
    }

    fn check_n(&mut self, config: &BucketConfig, n: u64, now: u64) -> (r: RateLimitResult) {
        proof {
            token_bucket_answers_are_informative(*config, self.level(*config), n, now);
        }
        self.try_consume(config, n, now)
    }
}

/// Token-bucket rate limiter.
///
/// Allows bursts up to `capacity`, refilling at `refill_rate` tokens per
/// second. A successful check of `n` requests takes `n` tokens; denied
/// checks take none. Fractions of a token are counted exactly.
pub struct TokenBucket {
    keyed: KeyedLimiter<BucketState>,
}

impl TokenBucket {
    /// The parameters of the limiter.
    pub closed spec fn config(&self) -> BucketConfig {
        self.keyed.config()
    }

    /// The buckets of the keys that the limiter has seen.
    pub closed spec fn buckets(&self) -> Map<Seq<char>, TokenLevel> {
        self.keyed.states()
    }

    /// The instant of the last check at the moment of a call.
    pub closed spec fn last_reading(&self) -> u64 {
        self.keyed.last_reading()
    }

    /// A limiter whose buckets are all full.
    pub fn new(config: BucketConfig) -> (l: Self)
        requires
            config.refill_rate.positive(),
        ensures
            l.valid(),
            l.config() == config,
            l.buckets() == Map::<Seq<char>, TokenLevel>::empty(),
            l.last_reading() == 0,
    {
        TokenBucket { keyed: KeyedLimiter::new(config) }
    }
}

impl RateLimiter for TokenBucket {
    closed spec fn valid(&self) -> bool {
        self.keyed.valid()
    }

    open spec fn behaviour(&self) -> Behaviour {
        keyed_behaviour::<BucketState>(self.config(), self.buckets())
    }

    open spec fn kind(&self) -> Algorithm {
        Algorithm::TokenBucket
    }

    fn check_n_at(&mut self, key: &str, n: u64, now: u64) -> (r: RateLimitResult)
        ensures
            final(self).config() == old(self).config(),
            check_step::<BucketState>(
                old(self).config(),
                old(self).buckets(),
                key@,
                n,
                now,
                final(self).buckets(),
                r,
            ),
            r.informative(old(self).config().capacity, Algorithm::TokenBucket),
            final(self).last_reading() == old(self).last_reading(),
    {
        self.keyed.check_n_at(key, n, now)
    }

    fn check_n(&mut self, key: &str, n: u64) -> (r: RateLimitResult)
        ensures
            final(self).config() == old(self).config(),
            check_step::<BucketState>(
                old(self).config(),
                old(self).buckets(),
                key@,
                n,
                final(self).last_reading(),
                final(self).buckets(),
                r,
            ),
            r.informative(old(self).config().capacity, Algorithm::TokenBucket),
            final(self).last_reading() >= old(self).last_reading(),
    {
        let r = self.keyed.check_n(key, n);
        assert(r == answer(old(self).behaviour(), key@, n, self.last_reading()));
        r
    }

    fn check(&mut self, key: &str) -> (r: RateLimitResult)
        ensures
            final(self).config() == old(self).config(),
            check_step::<BucketState>(
                old(self).config(),
                old(self).buckets(),
                key@,
                1,
                final(self).last_reading(),
                final(self).buckets(),
                r,
            ),
            r.informative(old(self).config().capacity, Algorithm::TokenBucket),
            final(self).last_reading() >= old(self).last_reading(),
    {
        let r = self.keyed.check(key);
        assert(r == answer(old(self).behaviour(), key@, 1, self.last_reading()));
        r
    }

    fn reset(&mut self, key: &str)
        ensures
            final(self).config() == old(self).config(),
            final(self).buckets() == old(self).buckets().remove(key@),
            final(self).last_reading() == old(self).last_reading(),
    {
        self.keyed.reset(key)
    }

    fn algorithm(&self) -> (a: Algorithm) {
        self.keyed.algorithm()
    }
}

/// However the checks of a key are spread, the tokens that they take and
/// those that are left never exceed the tokens at the start and those that
/// came in since.
pub proof fn token_bucket_bounds_admission(
    config: BucketConfig,
    level: TokenLevel,
    asks: Seq<Ask>,
)
    ensures
        ({
            let end = after_asks::<BucketState>(config, level, asks);
            &&& end.last_refill >= level.last_refill
            &&& granted::<BucketState>(config, level, asks) * rate_denom(config.refill_rate)
                + end.shares <= level.shares + (end.last_refill - level.last_refill) * rate_numer(
                config.refill_rate,
            )
        }),
    decreases asks.len(),
{
    let denom = rate_denom(config.refill_rate);
    let numer = rate_numer(config.refill_rate);
    if asks.len() == 0 {
        assert(0 * denom == 0);
        assert(0 * numer == 0);
    } else {
        token_bucket_bounds_admission(config, level, asks.drop_last());
        let mid = after_asks::<BucketState>(config, level, asks.drop_last());
        let end = after_asks::<BucketState>(config, level, asks);
        let before = granted::<BucketState>(config, level, asks.drop_last());
        let more = granted_last::<BucketState>(config, level, asks);
        let passed = elapsed(mid.last_refill, asks.last().now as nat);
        assert((before + more) * denom == before * denom + more * denom) by (nonlinear_arith);
        assert((mid.last_refill - level.last_refill + passed) * numer == (mid.last_refill
            - level.last_refill) * numer + passed * numer) by (nonlinear_arith);
        assert(0 * denom == 0);
    }
}

/// A bucket that starts full never lets more requests through than its
/// capacity and what the refill rate brings in the time that passes.
pub proof fn token_bucket_bounds_bursts(config: BucketConfig, start: u64, asks: Seq<Ask>)
    ensures
        ({
            let level = full(config, start as nat);
            let end = after_asks::<BucketState>(config, level, asks);
            granted::<BucketState>(config, level, asks) * rate_denom(config.refill_rate)
                <= config.capacity * rate_denom(config.refill_rate) + (end.last_refill - start)
                * rate_numer(config.refill_rate)
        }),
{
    token_bucket_bounds_admission(config, full(config, start as nat), asks);
}

/// A denied check takes no tokens.
pub proof fn token_bucket_denial_takes_nothing(
    config: BucketConfig,
    level: TokenLevel,
    n: u64,
    now: u64,
)
    requires
        !consumed(config, level, n, now as nat).1.allowed,
    ensures
        consumed(config, level, n, now as nat).0 == refilled(config, level, now as nat),
{
}

/// It makes no difference to a bucket whether it is also refilled on the way.
pub proof fn token_bucket_refills_add_up(config: BucketConfig, level: TokenLevel, t: u64, u: u64)
    requires
        t <= u,
    ensures
        refilled(config, refilled(config, level, t as nat), u as nat) == refilled(
            config,
            level,
            u as nat,
        ),
{
    let numer = rate_numer(config.refill_rate);
    let first = elapsed(level.last_refill, t as nat);
    let second = elapsed(level.last_refill + first, u as nat);
    assert((first + second) * numer == first * numer + second * numer) by (nonlinear_arith);
    assert(0 <= second * numer) by (nonlinear_arith)
        requires
            second >= 0,
            numer >= 0,
    ;
}

/// A denied check changes no later answer.
pub proof fn token_bucket_denial_changes_no_answer(
    config: BucketConfig,
    level: TokenLevel,
    n: u64,
    now: u64,
    m: u64,
    later: u64,
)
    requires
        !consumed(config, level, n, now as nat).1.allowed,
        now <= later,
    ensures
        consumed(config, consumed(config, level, n, now as nat).0, m, later as nat) == consumed(
            config,
            level,
            m,
            later as nat,
        ),
{
    token_bucket_refills_add_up(config, level, now, later);
}

/// A full bucket lets a burst through exactly if it does not exceed the
/// capacity.
pub proof fn token_bucket_admits_bursts(config: BucketConfig, n: u64, now: u64)
    requires
        config.refill_rate.positive(),
    ensures
        ({
            let r = consumed(config, full(config, now as nat), n, now as nat).1;
            &&& r.allowed <==> n <= config.capacity
            &&& r.allowed ==> r.remaining == config.capacity - n
            &&& !r.allowed ==> r.remaining == config.capacity
        }),
{
    let denom = rate_denom(config.refill_rate);
    rate_is_exact(config.refill_rate);
    lemma_enough(config.capacity as nat, 0, n as nat, denom);
    assert(0 * rate_numer(config.refill_rate) == 0);
    lemma_written_as(
        config.refill_rate,
        config.capacity as nat,
        0,
        config.capacity as nat * denom,
    );
    if n <= config.capacity {
        let rest = (config.capacity - n) as nat;
        lemma_written_as(config.refill_rate, rest, 0, rest * denom);
    }
}

/// A denied check of no more than the capacity succeeds once more than
/// `retry_after` has passed, if nothing else happens to the key.
pub proof fn token_bucket_retry_succeeds(
    config: BucketConfig,
    level: TokenLevel,
    n: u64,
    now: u64,
    later: u64,
)
    requires
        config.refill_rate.positive(),
        n <= config.capacity,
        ({
            let (ready, r) = consumed(config, level, n, now as nat);
            &&& !r.allowed
            &&& later > ready.last_refill + r.retry_after->0.nanos
        }),
    ensures
        consumed(config, consumed(config, level, n, now as nat).0, n, later as nat).1.allowed,
{
    let rate = config.refill_rate;
    let denom = rate_denom(rate);
    let numer = rate_numer(rate);
    rate_is_exact(rate);
    let (ready, r) = consumed(config, level, n, now as nat);
    let missing = (n * denom - ready.shares) as nat;
    let near = nearest(missing, numer);
    let passed = elapsed(ready.last_refill, later as nat);
    lemma_nearest_covers(missing, numer);
    assert(wait_nanos(rate, missing) < later);
    assert(wait_nanos(rate, missing) == near);
    assert(passed * numer >= (near + 1) * numer) by (nonlinear_arith)
        requires
            passed >= near + 1,
            numer >= 0,
    ;
    assert(config.capacity * denom >= n * denom) by (nonlinear_arith)
        requires
            config.capacity >= n,
            denom >= 0,
    ;
}

/// Every answer names the capacity, says how many tokens are left of it, and,
/// on denial, how long to wait.
pub proof fn token_bucket_answers_are_informative(
    config: BucketConfig,
    level: TokenLevel,
    n: u64,
    now: u64,
)
    requires
        config.refill_rate.positive(),
    ensures
        consumed(config, level, n, now as nat).1.informative(
            config.capacity,
            Algorithm::TokenBucket,
        ),
{
    let denom = rate_denom(config.refill_rate);
    rate_is_exact(config.refill_rate);
    let ready = refilled(config, level, now as nat);
    let most = config.capacity as nat * denom;
    vstd::arithmetic::div_mod::lemma_div_by_multiple(config.capacity as int, denom as int);
    vstd::arithmetic::div_mod::lemma_div_is_ordered(ready.shares as int, most as int, denom as int);
    let wanted = n as nat * denom;
    if ready.shares >= wanted {
        vstd::arithmetic::div_mod::lemma_div_is_ordered(
            ready.shares - wanted,
            ready.shares as int,
            denom as int,
        );
    }
}

/// The wait of a denied check is the least one: before `retry_after` has
/// passed it is denied again, if nothing else happens to the key.
pub proof fn token_bucket_retry_is_least(
    config: BucketConfig,
    level: TokenLevel,
    n: u64,
    now: u64,
    later: u64,
)
    requires
        config.refill_rate.positive(),
        ({
            let (ready, r) = consumed(config, level, n, now as nat);
            !r.allowed && now <= later < ready.last_refill + r.retry_after->0.nanos
        }),
    ensures
        !consumed(config, consumed(config, level, n, now as nat).0, n, later as nat).1.allowed,
{
    let rate = config.refill_rate;
    let numer = rate_numer(rate);
    rate_is_exact(rate);
    let (ready, r) = consumed(config, level, n, now as nat);
    let missing = (n * rate_denom(rate) - ready.shares) as nat;
    let passed = elapsed(ready.last_refill, later as nat);
    if passed == 0 {
        assert(0 * numer == 0);
    } else {
        let near = nearest(missing, numer);
        assert(wait_nanos(rate, missing) <= near);
        lemma_nearest_falls_short(missing, numer);
        assert(passed * numer <= (near - 1) * numer) by (nonlinear_arith)
            requires
                passed <= near - 1,
                numer >= 0,
        ;
    }
}

/// What a check does, in shares of a token: the bucket has what it had and what
/// the time since the last refill brings, up to its capacity; the requests are
/// let through exactly if their tokens are there, which are then gone; what
/// remains are the whole tokens that are left; and the wait is that for the
/// tokens that are missing.
pub proof fn token_bucket_check_is_exact(
    config: BucketConfig,
    level: TokenLevel,
    n: u64,
    now: u64,
)
    requires
        config.refill_rate.positive(),
        level.shares <= config.capacity * rate_denom(config.refill_rate),
    ensures
        ({
            let (numer, denom) = (rate_numer(config.refill_rate), rate_denom(config.refill_rate));
            let (then, r) = consumed(config, level, n, now as nat);
            let time = if now >= level.last_refill {
                now - level.last_refill
            } else {
                0
            };
            let earned = level.shares + time * numer;
            let have = if earned <= config.capacity * denom {
                earned
            } else {
                config.capacity * denom
            };
            &&& then.last_refill == level.last_refill + time
            &&& r.allowed <==> n * denom <= have
            &&& r.allowed ==> then.shares == have - n * denom && r.retry_after is None
            &&& !r.allowed ==> then.shares == have && r.retry_after == Some(
                Duration {
                    nanos: wait_nanos(config.refill_rate, (n * denom - have) as nat) as u128,
                },
            )
            &&& r.remaining * denom <= then.shares < (r.remaining + 1) * denom
            &&& r.limit == config.capacity
            &&& r.algorithm == Algorithm::TokenBucket
        }),
{
    let denom = rate_denom(config.refill_rate);
    let numer = rate_numer(config.refill_rate);
    rate_is_exact(config.refill_rate);
    token_bucket_answers_are_informative(config, level, n, now);
    let (then, r) = consumed(config, level, n, now as nat);
    vstd::arithmetic::div_mod::lemma_fundamental_div_mod(then.shares as int, denom as int);
    let whole = then.shares as int / denom as int;
    let ready = refilled(config, level, now as nat);
    vstd::arithmetic::div_mod::lemma_div_by_multiple(config.capacity as int, denom as int);
    vstd::arithmetic::div_mod::lemma_div_is_ordered(
        then.shares as int,
        (config.capacity * denom) as int,
        denom as int,
    );
    vstd::arithmetic::div_mod::lemma_div_pos_is_pos(then.shares as int, denom as int);
    assert(r.remaining == whole);
    assert(whole * denom == denom * whole) by (nonlinear_arith);
    assert((whole + 1) * denom == denom * whole + denom) by (nonlinear_arith);
}

/// What an answer calls remaining is exactly what the bucket would still give at
/// that instant, whether the check was allowed or denied.
pub proof fn token_bucket_remaining_is_exact(
    config: BucketConfig,
    states: Map<Seq<char>, TokenLevel>,
    key: Seq<char>,
    n: u64,
    m: u64,
    now: u64,
)
    requires
        config.refill_rate.positive(),
    ensures
        ({
            let b = keyed_behaviour::<BucketState>(config, states);
            let r = answer(b, key, n, now);
            answer(after(b, Call::Check { key, n, now }), key, m, now).allowed <==> m
                <= r.remaining
        }),
{
    let call = Call::Check { key, n, now };
    lemma_keyed_behaviour::<BucketState>(config, states, call);
    lemma_keyed_behaviour::<BucketState>(config, step::<BucketState>(config, states, call), call);
    let level = current::<BucketState>(config, states, key, now);
    let denom = rate_denom(config.refill_rate);
    rate_is_exact(config.refill_rate);
    let ready = refilled(config, level, now as nat);
    let (then, r) = consumed(config, level, n, now as nat);
    token_bucket_refills_add_up(config, level, now, now);
    token_bucket_check_is_exact(config, ready, n, now);
    token_bucket_check_is_exact(config, then, m, now);
    assert(0 * rate_numer(config.refill_rate) == 0);
    assert((r.remaining + 1) * denom == r.remaining * denom + denom) by (nonlinear_arith);
    lemma_enough(r.remaining as nat, (then.shares - r.remaining * denom) as nat, m as nat, denom);
}

/// A key that was never seen has a full bucket: a burst passes exactly if it is
/// no more than the capacity.
pub proof fn token_bucket_starts_full(config: BucketConfig, key: Seq<char>, n: u64, now: u64)
    requires
        config.refill_rate.positive(),
    ensures
        ({
            let r = answer(keyed_behaviour::<BucketState>(config, Map::empty()), key, n, now);
            &&& r.allowed <==> n <= config.capacity
            &&& r.remaining == if n <= config.capacity {
                config.capacity - n
            } else {
                config.capacity as int
            }
        }),
{
    lemma_keyed_behaviour::<BucketState>(config, Map::empty(), Call::Check { key, n, now });
    token_bucket_admits_bursts(config, n, now);
}

/// Tokens come in at the rate: after a burst of the whole capacity, requests are
/// let through exactly if the time since then brings their tokens.
pub proof fn token_bucket_recovers_at_the_rate(
    config: BucketConfig,
    key: Seq<char>,
    now: u64,
    m: u64,
    later: u64,
)
    requires
        config.refill_rate.positive(),
        m <= config.capacity,
        now <= later,
    ensures
        ({
            let b = keyed_behaviour::<BucketState>(config, Map::empty());
            let burst = Call::Check { key, n: config.capacity, now };
            answer(after(b, burst), key, m, later).allowed <==> m * rate_denom(config.refill_rate)
                <= (later - now) * rate_numer(config.refill_rate)
        }),
{
    let call = Call::Check { key, n: config.capacity, now };
    let empty = Map::<Seq<char>, TokenLevel>::empty();
    lemma_keyed_behaviour::<BucketState>(config, empty, call);
    lemma_keyed_behaviour::<BucketState>(config, step::<BucketState>(config, empty, call), call);
    let (numer, denom) = (rate_numer(config.refill_rate), rate_denom(config.refill_rate));
    let level = current::<BucketState>(config, empty, key, now);
    token_bucket_check_is_exact(config, level, config.capacity, now);
    assert(0 * numer == 0);
    let then = consumed(config, level, config.capacity, now as nat).0;
    token_bucket_check_is_exact(config, then, m, later);
    assert(m * denom <= config.capacity * denom) by (nonlinear_arith)
        requires
            m <= config.capacity,
            denom >= 0,
    ;
}

} // verus!
