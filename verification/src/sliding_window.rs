//! The sliding window.
use crate::clock::{elapsed, nanos_between};
use crate::duration::Duration;
use crate::keyed::{
    after_asks, check_step, current, granted_last, keyed_behaviour, lemma_keyed_behaviour,
    repeated, step, Ask, KeyState, KeyedLimiter,
};
use crate::types::{
    after, answer, Algorithm, Behaviour, Call, RateLimitResult, RateLimiter, WindowConfig,
};
use std::collections::VecDeque;
use vstd::prelude::*;

verus! {

/// The instants of the requests in the window, without those at its front
/// that are `window` nanoseconds old or older at `now`.
pub open spec fn pruned(times: Seq<u64>, window: nat, now: nat) -> Seq<u64>
    decreases times.len(),
{
    if times.len() > 0 && times[0] + window <= now {
        pruned(times.skip(1), window, now)
    } else {
        times
    }
}

/// The instants in the window after `n` requests at `now`, and the answer:
/// they are recorded if there is room for all of them, and otherwise the
/// answer says when the oldest request leaves the window.
pub open spec fn recorded(config: WindowConfig, times: Seq<u64>, n: u64, now: u64) -> (
    Seq<u64>,
    RateLimitResult,
) {
    let recent = pruned(times, config.window_size.nanos as nat, now as nat);
    if recent.len() + n <= config.max_requests {
        (
            recent + repeated(now, n as nat),
            RateLimitResult::allowed_spec(
                (config.max_requests - (recent.len() + n)) as u64,
                config.max_requests,
                Algorithm::SlidingWindow,
            ),
        )
    } else {
        (
            recent,
            RateLimitResult::denied_spec(
                (config.max_requests - recent.len()) as u64,
                config.max_requests,
                if recent.len() > 0 {
                    Duration {
                        nanos: (config.window_size.nanos - elapsed(
                            recent[0] as nat,
                            now as nat,
                        )) as u128,
                    }
                } else {
                    config.window_size
                },
                Algorithm::SlidingWindow,
            ),
        )
    }
}

/// What pruning leaves is the end of what was there, and its first instant
/// is still in the window.
pub proof fn lemma_pruned(times: Seq<u64>, window: nat, now: nat)
    ensures
        pruned(times, window, now).len() <= times.len(),
        pruned(times, window, now) == times.skip(
            times.len() - pruned(times, window, now).len(),
        ),
        pruned(times, window, now).len() > 0 ==> pruned(times, window, now)[0] + window > now,
    decreases times.len(),
{
    if times.len() > 0 && times[0] + window <= now {
        lemma_pruned(times.skip(1), window, now);
        let rest = pruned(times.skip(1), window, now);
        assert(times.skip(1).skip(times.skip(1).len() - rest.len()) =~= times.skip(
            times.len() - rest.len(),
        ));
    } else {
        assert(times.skip(0) =~= times);
    }
}

/// The window of one key.
#[derive(Debug)]
pub struct WindowState {
    timestamps: VecDeque<u64>,
}

impl WindowState {
    /// The instants of the requests in the window, oldest first.
    pub closed spec fn times(&self) -> Seq<u64> {
        self.timestamps@
    }

    /// No more requests than a window admits.
    pub closed spec fn in_order(&self, config: WindowConfig) -> bool {
        self.timestamps@.len() <= config.max_requests
    }

    /// A window without requests.
    fn new() -> (s: Self)
        ensures
            s.times() == Seq::<u64>::empty(),
            forall|config: WindowConfig| #[trigger] s.in_order(config),
    {
        WindowState { timestamps: VecDeque::new() }
    }

    /// Drops the requests that have left the window at `now`.
    fn prune(&mut self, window_size: Duration, now: u64)
        ensures
            final(self).times() == pruned(
                old(self).times(),
                window_size.nanos as nat,
                now as nat,
            ),
    {
        while self.timestamps.len() > 0
            invariant_except_break
                pruned(self.timestamps@, window_size.nanos as nat, now as nat) == pruned(
                    old(self).timestamps@,
                    window_size.nanos as nat,
                    now as nat,
                ),
            ensures
                self.timestamps@ == pruned(
                    old(self).timestamps@,
                    window_size.nanos as nat,
                    now as nat,
                ),
            decreases self.timestamps@.len(),
        {
            let front: u64 = self.timestamps[0];
            if front <= now && (now - front) as u128 >= window_size.nanos {
                let ghost before = self.timestamps@;
                let _ = self.timestamps.pop_front();
                assert(before.skip(1) =~= self.timestamps@);
            } else {
                break;
            }
        }
    }

    /// Records `n` requests at `now` if there is room for them.
    fn try_admit(&mut self, config: &WindowConfig, n: u64, now: u64) -> (r: RateLimitResult)
        requires
            old(self).in_order(*config),
        ensures
            final(self).in_order(*config),
            (final(self).times(), r) == recorded(*config, old(self).times(), n, now),
    {
        self.prune(config.window_size, now);
        let ghost recent = self.timestamps@;
        proof {
            lemma_pruned(old(self).times(), config.window_size.nanos as nat, now as nat);
        }
        let remaining: u64 = config.max_requests - self.timestamps.len() as u64;
        if n <= remaining {
            let mut i: u64 = 0;
            assert(recent + repeated(now, 0) =~= recent);
            while i < n
                invariant
                    i <= n,
                    self.timestamps@ == recent + repeated(now, i as nat),
                decreases n - i,
            {
                self.timestamps.push_back(now);
                assert((recent + repeated(now, i as nat)).push(now) =~= recent + repeated(
                    now,
                    (i + 1) as nat,
                ));
                i = i + 1;
            }
            RateLimitResult::allowed(remaining - n, config.max_requests, Algorithm::SlidingWindow)
        } else {
            let retry_after = if self.timestamps.len() > 0 {
                let age = Duration::from_nanos(nanos_between(self.timestamps[0], now));
                config.window_size.saturating_sub(age)
            } else {
                config.window_size
            };
            RateLimitResult::denied(
                remaining,
                config.max_requests,
                retry_after,
                Algorithm::SlidingWindow,
            )
        }
    }
}

impl KeyState for WindowState {
    type Config = WindowConfig;

    type Model = Seq<u64>;

    open spec fn usable(config: WindowConfig) -> bool {
        true
    }

    open spec fn valid(&self, config: WindowConfig) -> bool {
        self.in_order(config)
    }

    open spec fn model(&self, config: WindowConfig) -> Seq<u64> {
        self.times()
    }

    open spec fn fresh(config: WindowConfig, now: u64) -> Seq<u64> {
        Seq::empty()
    }

    open spec fn checked(config: WindowConfig, state: Seq<u64>, n: u64, now: u64) -> (
        Seq<u64>,
        RateLimitResult,
    ) {
        recorded(config, state, n, now)
    }

    open spec fn kind() -> Algorithm {
        Algorithm::SlidingWindow
    }

    fn algorithm() -> (a: Algorithm) {
        Algorithm::SlidingWindow
    }

    open spec fn limit(config: WindowConfig) -> u64 {
        config.max_requests
    }

    fn start(config: &WindowConfig, now: u64) -> (s: Self) {
        WindowState::new()
    }

    fn check_n(&mut self, config: &WindowConfig, n: u64, now: u64) -> (r: RateLimitResult) {
        self.try_admit(config, n, now)
    }
}

/// Sliding-window rate limiter.
///
/// Remembers the instant of every request of a key and admits no more than
/// `max_requests` in any stretch of time as long as `window_size`.
pub struct SlidingWindow {
    keyed: KeyedLimiter<WindowState>,
}

impl SlidingWindow {
    /// The parameters of the limiter.
    pub closed spec fn config(&self) -> WindowConfig {
        self.keyed.config()
    }

    /// The windows of the keys that the limiter has seen.
    pub closed spec fn windows(&self) -> Map<Seq<char>, Seq<u64>> {
        self.keyed.states()
    }

    /// The instant of the last check at the moment of a call.
    pub closed spec fn last_reading(&self) -> u64 {
        self.keyed.last_reading()
    }

    /// A limiter that has seen no request.
    pub fn new(config: WindowConfig) -> (l: Self)
        ensures
            l.valid(),
            l.config() == config,
            l.windows() == Map::<Seq<char>, Seq<u64>>::empty(),
            l.last_reading() == 0,
    {
        SlidingWindow { keyed: KeyedLimiter::new(config) }
    }
}

impl RateLimiter for SlidingWindow {
    closed spec fn valid(&self) -> bool {
        self.keyed.valid()
    }

    open spec fn behaviour(&self) -> Behaviour {
        keyed_behaviour::<WindowState>(self.config(), self.windows())
    }

    open spec fn kind(&self) -> Algorithm {
        Algorithm::SlidingWindow
    }

    fn check_n_at(&mut self, key: &str, n: u64, now: u64) -> (r: RateLimitResult)
        ensures
            final(self).config() == old(self).config(),
            check_step::<WindowState>(
                old(self).config(),
                old(self).windows(),
                key@,
                n,
                now,
                final(self).windows(),
                r,
            ),
            r.informative(old(self).config().max_requests, Algorithm::SlidingWindow),
            final(self).last_reading() == old(self).last_reading(),
    {
        self.keyed.check_n_at(key, n, now)
    }

    fn check_n(&mut self, key: &str, n: u64) -> (r: RateLimitResult)
        ensures
            final(self).config() == old(self).config(),
            check_step::<WindowState>(
                old(self).config(),
                old(self).windows(),
                key@,
                n,
                final(self).last_reading(),
                final(self).windows(),
                r,
            ),
            r.informative(old(self).config().max_requests, Algorithm::SlidingWindow),
            final(self).last_reading() >= old(self).last_reading(),
    {
        let r = self.keyed.check_n(key, n);
        assert(r == answer(old(self).behaviour(), key@, n, self.last_reading()));
        r
    }

    fn check(&mut self, key: &str) -> (r: RateLimitResult)
        ensures
            final(self).config() == old(self).config(),
            check_step::<WindowState>(
                old(self).config(),
                old(self).windows(),
                key@,
                1,
                final(self).last_reading(),
                final(self).windows(),
                r,
            ),
            r.informative(old(self).config().max_requests, Algorithm::SlidingWindow),
            final(self).last_reading() >= old(self).last_reading(),
    {
        let r = self.keyed.check(key);
        assert(r == answer(old(self).behaviour(), key@, 1, self.last_reading()));
        r
    }

    fn reset(&mut self, key: &str)
        ensures
            final(self).config() == old(self).config(),
            final(self).windows() == old(self).windows().remove(key@),
            final(self).last_reading() == old(self).last_reading(),
    {
        self.keyed.reset(key)
    }

    fn algorithm(&self) -> (a: Algorithm) {
        self.keyed.algorithm()
    }
}

/// How many of the instants are later than `cut`.
pub open spec fn count_after(times: Seq<u64>, cut: int) -> nat
    decreases times.len(),
{
    if times.len() == 0 {
        0
    } else {
        count_after(times.drop_last(), cut) + if times.last() > cut {
            1nat
        } else {
            0
        }
    }
}

/// Requests that a sequence of checks lets through after the instant `cut`.
pub open spec fn granted_after(
    config: WindowConfig,
    times: Seq<u64>,
    asks: Seq<Ask>,
    cut: int,
) -> nat
    decreases asks.len(),
{
    if asks.len() == 0 {
        0
    } else {
        granted_after(config, times, asks.drop_last(), cut) + if asks.last().now > cut {
            granted_last::<WindowState>(config, times, asks)
        } else {
            0
        }
    }
}

/// Checks in the order of time.
pub open spec fn in_time_order(asks: Seq<Ask>) -> bool {
    forall|i: int, j: int|
        0 <= i <= j < asks.len() ==> (#[trigger] asks[i]).now <= (#[trigger] asks[j]).now
}

/// No instants are counted more often than there are.
proof fn lemma_count_bounded(times: Seq<u64>, cut: int)
    ensures
        count_after(times, cut) <= times.len(),
    decreases times.len(),
{
    if times.len() > 0 {
        lemma_count_bounded(times.drop_last(), cut);
    }
}

/// Counting goes through the parts of a sequence.
proof fn lemma_count_split(a: Seq<u64>, b: Seq<u64>, cut: int)
    ensures
        count_after(a + b, cut) == count_after(a, cut) + count_after(b, cut),
    decreases b.len(),
{
    if b.len() == 0 {
        assert(a + b =~= a);
    } else {
        lemma_count_split(a, b.drop_last(), cut);
        assert((a + b).drop_last() =~= a + b.drop_last());
        assert((a + b).last() == b.last());
    }
}

/// Counting `n` times the same instant.
proof fn lemma_count_repeated(now: u64, n: nat, cut: int)
    ensures
        count_after(repeated(now, n), cut) == if now > cut {
            n
        } else {
            0
        },
    decreases n,
{
    if n > 0 {
        lemma_count_repeated(now, (n - 1) as nat, cut);
        assert(repeated(now, n).drop_last() =~= repeated(now, (n - 1) as nat));
    }
}

/// Pruning takes away no instant that is still in the window.
proof fn lemma_count_pruned(times: Seq<u64>, window: nat, now: nat, cut: int)
    requires
        cut >= now - window,
    ensures
        count_after(pruned(times, window, now), cut) == count_after(times, cut),
    decreases times.len(),
{
    if times.len() > 0 && times[0] + window <= now {
        lemma_count_pruned(times.skip(1), window, now, cut);
        lemma_count_split(seq![times[0]], times.skip(1), cut);
        assert(seq![times[0]] + times.skip(1) =~= times);
        assert(seq![times[0]].drop_last() =~= Seq::<u64>::empty());
        assert(count_after(seq![times[0]], cut) == 0) by {
            assert(count_after(Seq::<u64>::empty(), cut) == 0);
        }
    }
}

/// The window never holds more than `max_requests` instants.
pub proof fn sliding_window_stays_within_limit(
    config: WindowConfig,
    times: Seq<u64>,
    asks: Seq<Ask>,
)
    requires
        times.len() <= config.max_requests,
    ensures
        after_asks::<WindowState>(config, times, asks).len() <= config.max_requests,
    decreases asks.len(),
{
    if asks.len() > 0 {
        sliding_window_stays_within_limit(config, times, asks.drop_last());
        lemma_pruned(
            after_asks::<WindowState>(config, times, asks.drop_last()),
            config.window_size.nanos as nat,
            asks.last().now as nat,
        );
    }
}

/// Every request that was let through after `cut` is still recorded, when
/// `cut` lies no further back than one window.
proof fn lemma_granted_recorded(config: WindowConfig, asks: Seq<Ask>, cut: int)
    requires
        in_time_order(asks),
        asks.len() > 0 ==> cut >= asks.last().now - config.window_size.nanos,
    ensures
        granted_after(config, Seq::empty(), asks, cut) == count_after(
            after_asks::<WindowState>(config, Seq::empty(), asks),
            cut,
        ),
    decreases asks.len(),
{
    if asks.len() > 0 {
        let prior = asks.drop_last();
        let last = asks.last();
        assert(in_time_order(prior)) by {
            assert forall|i: int, j: int| 0 <= i <= j < prior.len() implies (#[trigger] prior[i]).now
                <= (#[trigger] prior[j]).now by {
                assert(prior[i] == asks[i] && prior[j] == asks[j]);
            }
        }
        if prior.len() > 0 {
            assert(prior.last() == asks[asks.len() - 2]);
            assert(last == asks[asks.len() - 1]);
        }
        lemma_granted_recorded(config, prior, cut);
        let times = after_asks::<WindowState>(config, Seq::empty(), prior);
        let window = config.window_size.nanos as nat;
        lemma_count_pruned(times, window, last.now as nat, cut);
        let recent = pruned(times, window, last.now as nat);
        lemma_count_split(recent, repeated(last.now, last.n as nat), cut);
        lemma_count_repeated(last.now, last.n as nat, cut);
    }
}

/// In any stretch of time as long as the window no more than `max_requests`
/// requests are let through. The stretch ends with the last of the checks.
pub proof fn sliding_window_bounds_admission(config: WindowConfig, asks: Seq<Ask>)
    requires
        asks.len() > 0,
        in_time_order(asks),
    ensures
        granted_after(
            config,
            Seq::empty(),
            asks,
            asks.last().now - config.window_size.nanos,
        ) <= config.max_requests,
{
    let cut = asks.last().now - config.window_size.nanos;
    lemma_granted_recorded(config, asks, cut);
    sliding_window_stays_within_limit(config, Seq::empty(), asks);
    lemma_count_bounded(after_asks::<WindowState>(config, Seq::empty(), asks), cut);
}

/// A denied check records nothing.
pub proof fn sliding_window_denial_records_nothing(
    config: WindowConfig,
    times: Seq<u64>,
    n: u64,
    now: u64,
)
    requires
        !recorded(config, times, n, now).1.allowed,
    ensures
        recorded(config, times, n, now).0 == pruned(
            times,
            config.window_size.nanos as nat,
            now as nat,
        ),
{
}

/// It makes no difference to a window whether it is also pruned on the way.
pub proof fn sliding_window_prunings_add_up(times: Seq<u64>, window: nat, t: u64, u: u64)
    requires
        t <= u,
    ensures
        pruned(pruned(times, window, t as nat), window, u as nat) == pruned(
            times,
            window,
            u as nat,
        ),
    decreases times.len(),
{
    if times.len() > 0 && times[0] + window <= t {
        sliding_window_prunings_add_up(times.skip(1), window, t, u);
    }
}

/// A denied check changes no later answer.
pub proof fn sliding_window_denial_changes_no_answer(
    config: WindowConfig,
    times: Seq<u64>,
    n: u64,
    now: u64,
    m: u64,
    later: u64,
)
    requires
        !recorded(config, times, n, now).1.allowed,
        now <= later,
    ensures
        recorded(config, recorded(config, times, n, now).0, m, later) == recorded(
            config,
            times,
            m,
            later,
        ),
{
    sliding_window_prunings_add_up(times, config.window_size.nanos as nat, now, later);
}

/// The instants in a window are in order as long as the checks are, and none
/// is later than the last check.
proof fn lemma_recorded_in_order(config: WindowConfig, asks: Seq<Ask>)
    requires
        in_time_order(asks),
    ensures
        ({
            let times = after_asks::<WindowState>(config, Seq::empty(), asks);
            &&& forall|i: int, j: int| 0 <= i <= j < times.len() ==> times[i] <= times[j]
            &&& forall|i: int|
                0 <= i < times.len() ==> asks.len() > 0 && #[trigger] times[i] <= asks.last().now
        }),
    decreases asks.len(),
{
    if asks.len() > 0 {
        let prior = asks.drop_last();
        let last = asks.last();
        assert forall|i: int, j: int| 0 <= i <= j < prior.len() implies (#[trigger] prior[i]).now
            <= (#[trigger] prior[j]).now by {
            assert(prior[i] == asks[i] && prior[j] == asks[j]);
        }
        lemma_recorded_in_order(config, prior);
        if prior.len() > 0 {
            assert(prior.last() == asks[asks.len() - 2]);
            assert(last == asks[asks.len() - 1]);
        }
        let before = after_asks::<WindowState>(config, Seq::empty(), prior);
        lemma_pruned(before, config.window_size.nanos as nat, last.now as nat);
    }
}

/// What pruning leaves of instants that are in order are those in the window.
proof fn lemma_pruned_counts(times: Seq<u64>, window: nat, now: nat)
    requires
        forall|i: int, j: int| 0 <= i <= j < times.len() ==> times[i] <= times[j],
    ensures
        pruned(times, window, now).len() == count_after(times, now - window),
    decreases times.len(),
{
    let cut = now - window;
    let recent = pruned(times, window, now);
    lemma_count_pruned(times, window, now, cut);
    lemma_pruned(times, window, now);
    let skipped = times.len() - recent.len();
    assert forall|i: int| 0 <= i < recent.len() implies #[trigger] recent[i] > cut by {
        assert(recent[0] == times[skipped]);
        assert(recent[i] == times[skipped + i]);
    }
    lemma_count_all(recent, cut);
}

/// Instants that are all later than `cut` are all counted.
proof fn lemma_count_all(times: Seq<u64>, cut: int)
    requires
        forall|i: int| 0 <= i < times.len() ==> #[trigger] times[i] > cut,
    ensures
        count_after(times, cut) == times.len(),
    decreases times.len(),
{
    if times.len() > 0 {
        lemma_count_all(times.drop_last(), cut);
    }
}

/// Requests are let through exactly if, together with those that were let
/// through in the window that ends with them, they are no more than
/// `max_requests`.
pub proof fn sliding_window_admission_is_exact(
    config: WindowConfig,
    asks: Seq<Ask>,
    n: u64,
    now: u64,
)
    requires
        in_time_order(asks),
        asks.len() > 0 ==> asks.last().now <= now,
    ensures
        recorded(
            config,
            after_asks::<WindowState>(config, Seq::empty(), asks),
            n,
            now,
        ).1.allowed <==> n + granted_after(
            config,
            Seq::empty(),
            asks,
            now - config.window_size.nanos,
        ) <= config.max_requests,
{
    lemma_granted_recorded(config, asks, now - config.window_size.nanos);
    lemma_recorded_in_order(config, asks);
    lemma_pruned_counts(
        after_asks::<WindowState>(config, Seq::empty(), asks),
        config.window_size.nanos as nat,
        now as nat,
    );
}

/// The later the instant, the fewer requests are left in the window.
proof fn lemma_pruned_later(times: Seq<u64>, window: nat, now: nat, later: nat)
    requires
        now <= later,
    ensures
        pruned(times, window, later).len() <= pruned(times, window, now).len(),
    decreases times.len(),
{
    if times.len() > 0 && times[0] + window <= now {
        lemma_pruned_later(times.skip(1), window, now, later);
    } else {
        lemma_pruned(times, window, later);
    }
}

/// A denied check succeeds once `retry_after` has passed, if the requests
/// that leave the window together with the oldest make room for it and
/// nothing else happens to the key.
pub proof fn sliding_window_retry_finds_room(
    config: WindowConfig,
    times: Seq<u64>,
    n: u64,
    now: u64,
    later: u64,
)
    requires
        times.len() <= config.max_requests,
        forall|i: int| 0 <= i < times.len() ==> #[trigger] times[i] <= now,
        ({
            let window = config.window_size.nanos as nat;
            let (recent, r) = recorded(config, times, n, now);
            &&& !r.allowed
            &&& recent.len() > 0
            &&& pruned(recent, window, recent[0] as nat + window).len() + n <= config.max_requests
            &&& later >= now + r.retry_after->0.nanos
        }),
    ensures
        recorded(config, recorded(config, times, n, now).0, n, later).1.allowed,
{
    let window = config.window_size.nanos as nat;
    let recent = pruned(times, window, now as nat);
    lemma_pruned(times, window, now as nat);
    assert(recent[0] == times[times.len() - recent.len()]);
    lemma_pruned_later(recent, window, recent[0] as nat + window, later as nat);
}

/// A denied check of one request succeeds once `retry_after` has passed, if
/// nothing else happens to the key.
pub proof fn sliding_window_retry_succeeds(
    config: WindowConfig,
    times: Seq<u64>,
    now: u64,
    later: u64,
)
    requires
        config.max_requests > 0,
        times.len() <= config.max_requests,
        forall|i: int| 0 <= i < times.len() ==> #[trigger] times[i] <= now,
        ({
            let r = recorded(config, times, 1, now).1;
            !r.allowed && later >= now + r.retry_after->0.nanos
        }),
    ensures
        recorded(config, recorded(config, times, 1, now).0, 1, later).1.allowed,
{
    let window = config.window_size.nanos as nat;
    let recent = pruned(times, window, now as nat);
    lemma_pruned(times, window, now as nat);
    lemma_pruned(recent.skip(1), window, recent[0] as nat + window);
    sliding_window_retry_finds_room(config, times, 1, now, later);
}

/// Every answer names the limit, says how much room is left of it, and, on
/// denial, how long to wait.
pub proof fn sliding_window_answers_are_informative(
    config: WindowConfig,
    times: Seq<u64>,
    n: u64,
    now: u64,
)
    requires
        times.len() <= config.max_requests,
    ensures
        recorded(config, times, n, now).1.informative(
            config.max_requests,
            Algorithm::SlidingWindow,
        ),
{
    lemma_pruned(times, config.window_size.nanos as nat, now as nat);
}

/// The wait of a denied check is the least one: before `retry_after` has
/// passed it is denied again, if nothing else happens to the key.
pub proof fn sliding_window_retry_is_least(
    config: WindowConfig,
    times: Seq<u64>,
    n: u64,
    now: u64,
    later: u64,
)
    requires
        times.len() <= config.max_requests,
        forall|i: int| 0 <= i < times.len() ==> #[trigger] times[i] <= now,
        ({
            let r = recorded(config, times, n, now).1;
            !r.allowed && now <= later < now + r.retry_after->0.nanos
        }),
    ensures
        !recorded(config, recorded(config, times, n, now).0, n, later).1.allowed,
{
    let window = config.window_size.nanos as nat;
    let recent = pruned(times, window, now as nat);
    lemma_pruned(times, window, now as nat);
    if recent.len() > 0 {
        assert(recent[0] == times[times.len() - recent.len()]);
        assert(recent[0] + window > later);
    }
}

/// What a check does. The requests at the front of the window that are as old as
/// the window is long leave it. The new ones are recorded exactly if there is
/// room for all of them. What remains is the room that is left. On denial, the
/// announced instant is that at which the oldest request leaves.
pub proof fn sliding_window_check_is_exact(
    config: WindowConfig,
    times: Seq<u64>,
    n: u64,
    now: u64,
)
    requires
        times.len() <= config.max_requests,
    ensures
        ({
            let window = config.window_size.nanos;
            let (then, r) = recorded(config, times, n, now);
            let joined = if r.allowed {
                Seq::new(n as nat, |i: int| now)
            } else {
                Seq::empty()
            };
            &&& exists|out: int|
                {
                    &&& 0 <= out <= times.len()
                    &&& forall|i: int| 0 <= i < out ==> #[trigger] times[i] + window <= now
                    &&& out == times.len() || times[out] + window > now
                    &&& then == #[trigger] times.skip(out) + joined
                    &&& r.allowed <==> times.len() - out + n <= config.max_requests
                }
            &&& r.remaining == config.max_requests - then.len()
            &&& r.limit == config.max_requests
            &&& r.algorithm == Algorithm::SlidingWindow
            &&& r.allowed <==> r.retry_after is None
            &&& !r.allowed && then.len() == 0 ==> r.retry_after->0.nanos == window
            &&& !r.allowed && then.len() > 0 && then[0] <= now ==> now + r.retry_after->0.nanos
                == then[0] + window
            &&& !r.allowed && then.len() > 0 && then[0] > now ==> r.retry_after->0.nanos == window
        }),
{
    let window = config.window_size.nanos as nat;
    lemma_pruned(times, window, now as nat);
    lemma_pruned_out(times, window, now as nat);
    let recent = pruned(times, window, now as nat);
    let out = times.len() - recent.len();
    let (then, r) = recorded(config, times, n, now);
    let joined = if r.allowed {
        Seq::new(n as nat, |i: int| now)
    } else {
        Seq::empty()
    };
    assert(then =~= times.skip(out) + joined);
    if out < times.len() {
        assert(recent[0] == times[out]);
    }
}

/// What pruning takes away has left the window.
proof fn lemma_pruned_out(times: Seq<u64>, window: nat, now: nat)
    ensures
        forall|i: int|
            0 <= i < times.len() - pruned(times, window, now).len() ==> #[trigger] times[i] + window
                <= now,
    decreases times.len(),
{
    if times.len() > 0 && times[0] + window <= now {
        let rest = times.skip(1);
        lemma_pruned_out(rest, window, now);
        assert forall|i: int|
            0 <= i < times.len() - pruned(times, window, now).len() implies #[trigger] times[i]
            + window <= now by {
            if i > 0 {
                assert(times[i] == rest[i - 1]);
            }
        }
    }
}

/// What an answer calls remaining is exactly what the window would still admit
/// at that instant, whether the check was allowed or denied.
pub proof fn sliding_window_remaining_is_exact(
    config: WindowConfig,
    states: Map<Seq<char>, Seq<u64>>,
    key: Seq<char>,
    n: u64,
    m: u64,
    now: u64,
)
    requires
        config.window_size.nanos > 0,
        states.contains_key(key) ==> states[key].len() <= config.max_requests,
    ensures
        ({
            let b = keyed_behaviour::<WindowState>(config, states);
            let r = answer(b, key, n, now);
            answer(after(b, Call::Check { key, n, now }), key, m, now).allowed <==> m
                <= r.remaining
        }),
{
    let call = Call::Check { key, n, now };
    lemma_keyed_behaviour::<WindowState>(config, states, call);
    lemma_keyed_behaviour::<WindowState>(config, step::<WindowState>(config, states, call), call);
    let times = current::<WindowState>(config, states, key, now);
    let then = recorded(config, times, n, now).0;
    lemma_pruned(times, config.window_size.nanos as nat, now as nat);
    assert(pruned(then, config.window_size.nanos as nat, now as nat) == then);
}

/// What remains is the limit less the requests that were let through in the
/// window that ends with the check, those of the check with them if it was
/// allowed.
pub proof fn sliding_window_remaining_counts_the_window(
    config: WindowConfig,
    asks: Seq<Ask>,
    n: u64,
    now: u64,
)
    requires
        config.window_size.nanos > 0,
        in_time_order(asks),
        asks.len() > 0 ==> asks.last().now <= now,
    ensures
        recorded(
            config,
            after_asks::<WindowState>(config, Seq::empty(), asks),
            n,
            now,
        ).1.remaining == config.max_requests - granted_after(
            config,
            Seq::empty(),
            asks.push(Ask { n, now }),
            now - config.window_size.nanos,
        ),
{
    let cut = now - config.window_size.nanos;
    let all = asks.push(Ask { n, now });
    let times = after_asks::<WindowState>(config, Seq::empty(), asks);
    assert(all.drop_last() =~= asks);
    lemma_granted_recorded(config, asks, cut);
    lemma_recorded_in_order(config, asks);
    lemma_pruned_counts(times, config.window_size.nanos as nat, now as nat);
    sliding_window_stays_within_limit(config, Seq::empty(), asks);
    lemma_pruned(times, config.window_size.nanos as nat, now as nat);
}

/// A key that was never seen has an empty window: requests are admitted exactly
/// if they are no more than the limit.
pub proof fn sliding_window_starts_empty(config: WindowConfig, key: Seq<char>, n: u64, now: u64)
    ensures
        ({
            let r = answer(keyed_behaviour::<WindowState>(config, Map::empty()), key, n, now);
            &&& r.allowed <==> n <= config.max_requests
            &&& r.remaining == if n <= config.max_requests {
                config.max_requests - n
            } else {
                config.max_requests as int
            }
        }),
{
    lemma_keyed_behaviour::<WindowState>(config, Map::empty(), Call::Check { key, n, now });
    sliding_window_check_is_exact(config, Seq::empty(), n, now);
}

/// After the window has been filled at once, requests are admitted again exactly
/// when it has slid past.
pub proof fn sliding_window_recovers_when_it_has_passed(
    config: WindowConfig,
    key: Seq<char>,
    now: u64,
    m: u64,
    later: u64,
)
    requires
        0 < m <= config.max_requests,
        now <= later,
    ensures
        ({
            let b = keyed_behaviour::<WindowState>(config, Map::empty());
            let burst = Call::Check { key, n: config.max_requests, now };
            answer(after(b, burst), key, m, later).allowed <==> now + config.window_size.nanos
                <= later
        }),
{
    let call = Call::Check { key, n: config.max_requests, now };
    let empty = Map::<Seq<char>, Seq<u64>>::empty();
    lemma_keyed_behaviour::<WindowState>(config, empty, call);
    lemma_keyed_behaviour::<WindowState>(config, step::<WindowState>(config, empty, call), call);
    let then = recorded(config, Seq::empty(), config.max_requests, now).0;
    let window = config.window_size.nanos as nat;
    let recent = pruned(then, window, later as nat);
    lemma_pruned(then, window, later as nat);
    assert forall|i: int| 0 <= i < then.len() implies #[trigger] then[i] == now by {}
    if recent.len() > 0 {
        assert(recent[0] == then[then.len() - recent.len()]);
    }
    if then.len() > 0 && then[0] + window > later {
        assert(recent == then);
    }
}

} // verus!
