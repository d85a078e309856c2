//! The fixed window.
use crate::clock::{elapsed, nanos_between};
use crate::duration::Duration;
use crate::keyed::{
    after_asks, check_step, current, granted, keyed_behaviour, lemma_keyed_behaviour, step, Ask,
    KeyState, KeyedLimiter,
};
use crate::types::{
    after, answer, Algorithm, Behaviour, Call, RateLimitResult, RateLimiter, WindowConfig,
};
use vstd::prelude::*;

verus! {

/// Requests admitted in the current window of one key, and its start.
pub struct WindowCount {
    pub count: nat,
    pub window_start: nat,
}

/// A window that starts at `now` with no requests.
pub open spec fn opened(now: nat) -> WindowCount {
    WindowCount { count: 0, window_start: now }
}

/// The window that `now` falls into: the current one, or one that starts
/// with it if the current one is over.
pub open spec fn rolled(config: WindowConfig, window: WindowCount, now: nat) -> WindowCount {
    if elapsed(window.window_start, now) >= config.window_size.nanos {
        opened(now)
    } else {
        window
    }
}

/// The window after `n` requests at `now`, and the answer: they are counted
/// if there is room for all of them, and otherwise the answer says when the
/// window is over.
pub open spec fn counted(config: WindowConfig, window: WindowCount, n: u64, now: nat) -> (
    WindowCount,
    RateLimitResult,
) {
    let at = rolled(config, window, now);
    if at.count + n <= config.max_requests {
        (
            WindowCount { count: at.count + n as nat, ..at },
            RateLimitResult::allowed_spec(
                (config.max_requests - (at.count + n)) as u64,
                config.max_requests,
                Algorithm::FixedWindow,
            ),
        )
    } else {
        (
            at,
            RateLimitResult::denied_spec(
                (config.max_requests - at.count) as u64,
                config.max_requests,
                Duration {
                    nanos: (config.window_size.nanos - elapsed(at.window_start, now)) as u128,
                },
                Algorithm::FixedWindow,
            ),
        )
    }
}

/// The window of one key.
#[derive(Debug)]
pub struct FixedWindowState {
    count: u64,
    window_start: u64,
}

impl FixedWindowState {
    /// The count and the start of the window.
    pub closed spec fn window(&self) -> WindowCount {
        WindowCount { count: self.count as nat, window_start: self.window_start as nat }
    }

    /// No more requests than a window admits.
    pub closed spec fn in_order(&self, config: WindowConfig) -> bool {
        self.count <= config.max_requests
    }

    /// A window that starts at `now`.
    fn new(now: u64) -> (s: Self)
        ensures
            s.window() == opened(now as nat),
            forall|config: WindowConfig| #[trigger] s.in_order(config),
    {
        FixedWindowState { count: 0, window_start: now }
    }

    /// Opens a new window if the current one is over at `now`.
    fn maybe_reset(&mut self, config: &WindowConfig, now: u64)
        requires
            old(self).in_order(*config),
        ensures
            final(self).in_order(*config),
            final(self).window() == rolled(*config, old(self).window(), now as nat),
    {
        if nanos_between(self.window_start, now) as u128 >= config.window_size.nanos {
            self.count = 0;
            self.window_start = now;
        }
    }

    /// Counts `n` requests at `now` if there is room for them.
    fn try_admit(&mut self, config: &WindowConfig, n: u64, now: u64) -> (r: RateLimitResult)
        requires
            old(self).in_order(*config),
        ensures
            final(self).in_order(*config),
            (final(self).window(), r) == counted(*config, old(self).window(), n, now as nat),
    {
        self.maybe_reset(config, now);
        let remaining: u64 = config.max_requests - self.count;
        if n <= remaining {
            self.count = self.count + n;
            RateLimitResult::allowed(remaining - n, config.max_requests, Algorithm::FixedWindow)
        } else {
            let passed = Duration::from_nanos(nanos_between(self.window_start, now));
            let retry_after = config.window_size.saturating_sub(passed);
            RateLimitResult::denied(
                remaining,
                config.max_requests,
                retry_after,
                Algorithm::FixedWindow,
            )
        }
    }
}

impl KeyState for FixedWindowState {
    type Config = WindowConfig;

    type Model = WindowCount;

    open spec fn usable(config: WindowConfig) -> bool {
        true
    }

    open spec fn valid(&self, config: WindowConfig) -> bool {
        self.in_order(config)
    }

    open spec fn model(&self, config: WindowConfig) -> WindowCount {
        self.window()
    }

    open spec fn fresh(config: WindowConfig, now: u64) -> WindowCount {
        opened(now as nat)
    }

    open spec fn checked(config: WindowConfig, state: WindowCount, n: u64, now: u64) -> (
        WindowCount,
        RateLimitResult,
    ) {
        counted(config, state, n, now as nat)
    }

    open spec fn kind() -> Algorithm {
        Algorithm::FixedWindow
    }

    fn algorithm() -> (a: Algorithm) {
        Algorithm::FixedWindow
    }

    open spec fn limit(config: WindowConfig) -> u64 {
        config.max_requests
    }

    fn start(config: &WindowConfig, now: u64) -> (s: Self) {
        FixedWindowState::new(now)
    }

    fn check_n(&mut self, config: &WindowConfig, n: u64, now: u64) -> (r: RateLimitResult) {
        self.try_admit(config, n, now)
    }
}

/// Fixed-window rate limiter.
///
/// Every key has a counter that starts again with each window of
/// `window_size`. Allows up to `max_requests` per window.
pub struct FixedWindow {
    keyed: KeyedLimiter<FixedWindowState>,
}

impl FixedWindow {
    /// The parameters of the limiter.
    pub closed spec fn config(&self) -> WindowConfig {
        self.keyed.config()
    }

    /// The windows of the keys that the limiter has seen.
    pub closed spec fn windows(&self) -> Map<Seq<char>, WindowCount> {
        self.keyed.states()
    }

    /// The instant of the last check at the moment of a call.
    pub closed spec fn last_reading(&self) -> u64 {
        self.keyed.last_reading()
    }

    /// A limiter that has seen no request.
    pub fn new(config: WindowConfig) -> (l: Self)
        ensures
            l.valid(),
            l.config() == config,
            l.windows() == Map::<Seq<char>, WindowCount>::empty(),
            l.last_reading() == 0,
    {
        FixedWindow { keyed: KeyedLimiter::new(config) }
    }
}

impl RateLimiter for FixedWindow {
    closed spec fn valid(&self) -> bool {
        self.keyed.valid()
    }

    open spec fn behaviour(&self) -> Behaviour {
        keyed_behaviour::<FixedWindowState>(self.config(), self.windows())
    }

    open spec fn kind(&self) -> Algorithm {
        Algorithm::FixedWindow
    }

    fn check_n_at(&mut self, key: &str, n: u64, now: u64) -> (r: RateLimitResult)
        ensures
            final(self).config() == old(self).config(),
            check_step::<FixedWindowState>(
                old(self).config(),
                old(self).windows(),
                key@,
                n,
                now,
                final(self).windows(),
                r,
            ),
            r.informative(old(self).config().max_requests, Algorithm::FixedWindow),
            final(self).last_reading() == old(self).last_reading(),
    {
        self.keyed.check_n_at(key, n, now)
    }

    fn check_n(&mut self, key: &str, n: u64) -> (r: RateLimitResult)
        ensures
            final(self).config() == old(self).config(),
            check_step::<FixedWindowState>(
                old(self).config(),
                old(self).windows(),
                key@,
                n,
                final(self).last_reading(),
                final(self).windows(),
                r,
            ),
            r.informative(old(self).config().max_requests, Algorithm::FixedWindow),
            final(self).last_reading() >= old(self).last_reading(),
    {
        let r = self.keyed.check_n(key, n);
        assert(r == answer(old(self).behaviour(), key@, n, self.last_reading()));
        r
    }

    fn check(&mut self, key: &str) -> (r: RateLimitResult)
        ensures
            final(self).config() == old(self).config(),
            check_step::<FixedWindowState>(
                old(self).config(),
                old(self).windows(),
                key@,
                1,
                final(self).last_reading(),
                final(self).windows(),
                r,
            ),
            r.informative(old(self).config().max_requests, Algorithm::FixedWindow),
            final(self).last_reading() >= old(self).last_reading(),
    {
        let r = self.keyed.check(key);
        assert(r == answer(old(self).behaviour(), key@, 1, self.last_reading()));
        r
    }

    fn reset(&mut self, key: &str)
        ensures
            final(self).config() == old(self).config(),
            final(self).windows() == old(self).windows().remove(key@),
            final(self).last_reading() == old(self).last_reading(),
    {
        self.keyed.reset(key)
    }

    fn algorithm(&self) -> (a: Algorithm) {
        self.keyed.algorithm()
    }
}

/// Within one window no more than `max_requests` requests are let through:
/// as long as checks open no new window, every request that they let through
/// is counted, and the count stays within the limit.
pub proof fn fixed_window_bounds_admission(
    config: WindowConfig,
    window: WindowCount,
    asks: Seq<Ask>,
)
    requires
        window.count <= config.max_requests,
        forall|i: int|
            0 <= i < asks.len() ==> elapsed(window.window_start, (#[trigger] asks[i]).now as nat)
                < config.window_size.nanos,
    ensures
        ({
            let end = after_asks::<FixedWindowState>(config, window, asks);
            &&& end.window_start == window.window_start
            &&& end.count == window.count + granted::<FixedWindowState>(config, window, asks)
            &&& end.count <= config.max_requests
        }),
    decreases asks.len(),
{
    if asks.len() > 0 {
        let prior = asks.drop_last();
        assert forall|i: int| 0 <= i < prior.len() implies elapsed(
            window.window_start,
            (#[trigger] prior[i]).now as nat,
        ) < config.window_size.nanos by {
            assert(prior[i] == asks[i]);
        }
        fixed_window_bounds_admission(config, window, prior);
        assert(asks.last() == asks[asks.len() - 1]);
    }
}

/// Once a window is over, a check is answered as that of a key that was
/// never seen.
pub proof fn fixed_window_starts_again(
    config: WindowConfig,
    window: WindowCount,
    n: u64,
    now: u64,
)
    requires
        elapsed(window.window_start, now as nat) >= config.window_size.nanos,
    ensures
        counted(config, window, n, now as nat) == counted(config, opened(now as nat), n, now as nat),
{
}

/// A denied check changes nothing but the window it falls into.
pub proof fn fixed_window_denial_counts_nothing(
    config: WindowConfig,
    window: WindowCount,
    n: u64,
    now: u64,
)
    requires
        !counted(config, window, n, now as nat).1.allowed,
    ensures
        counted(config, window, n, now as nat).0 == rolled(config, window, now as nat),
{
}

/// A denied check of no more than `max_requests` requests changes nothing at
/// all, and with it no later answer.
pub proof fn fixed_window_denial_changes_no_answer(
    config: WindowConfig,
    window: WindowCount,
    n: u64,
    now: u64,
    m: u64,
    later: u64,
)
    requires
        n <= config.max_requests,
        !counted(config, window, n, now as nat).1.allowed,
    ensures
        counted(config, window, n, now as nat).0 == window,
        counted(config, counted(config, window, n, now as nat).0, m, later as nat) == counted(
            config,
            window,
            m,
            later as nat,
        ),
{
}

/// A denied check of no more than `max_requests` requests succeeds once
/// `retry_after` has passed, if nothing else happens to the key.
pub proof fn fixed_window_retry_succeeds(
    config: WindowConfig,
    window: WindowCount,
    n: u64,
    now: u64,
    later: u64,
)
    requires
        n <= config.max_requests,
        window.window_start <= now,
        ({
            let r = counted(config, window, n, now as nat).1;
            !r.allowed && later >= now + r.retry_after->0.nanos
        }),
    ensures
        counted(config, counted(config, window, n, now as nat).0, n, later as nat).1.allowed,
{
}

/// Every answer names the limit, says how much room is left of it, and, on
/// denial, how long to wait.
pub proof fn fixed_window_answers_are_informative(
    config: WindowConfig,
    window: WindowCount,
    n: u64,
    now: u64,
)
    requires
        window.count <= config.max_requests,
    ensures
        counted(config, window, n, now as nat).1.informative(
            config.max_requests,
            Algorithm::FixedWindow,
        ),
{
}

/// The wait of a denied check is the least one: before `retry_after` has
/// passed it is denied again, if nothing else happens to the key.
pub proof fn fixed_window_retry_is_least(
    config: WindowConfig,
    window: WindowCount,
    n: u64,
    now: u64,
    later: u64,
)
    requires
        window.window_start <= now,
        ({
            let r = counted(config, window, n, now as nat).1;
            !r.allowed && now <= later < now + r.retry_after->0.nanos
        }),
    ensures
        !counted(config, counted(config, window, n, now as nat).0, n, later as nat).1.allowed,
{
}

/// What a check does. If the window is over, a new one starts with the check.
/// The requests are counted exactly if there is room for all of them in the
/// window. What remains is the room that is left. On denial, the announced
/// instant is the end of the window.
pub proof fn fixed_window_check_is_exact(
    config: WindowConfig,
    window: WindowCount,
    n: u64,
    now: u64,
)
    requires
        window.count <= config.max_requests,
    ensures
        ({
            let size = config.window_size.nanos;
            let over = size == 0 || window.window_start + size <= now;
            let start = if over {
                now as int
            } else {
                window.window_start as int
            };
            let count = if over {
                0
            } else {
                window.count
            };
            let (then, r) = counted(config, window, n, now as nat);
            &&& then.window_start == start
            &&& r.allowed <==> count + n <= config.max_requests
            &&& r.allowed ==> then.count == count + n && r.retry_after is None
            &&& !r.allowed ==> then.count == count && r.retry_after is Some
            &&& !r.allowed && start <= now ==> now + r.retry_after->0.nanos == start + size
            &&& !r.allowed && start > now ==> r.retry_after->0.nanos == size
            &&& r.remaining == config.max_requests - then.count
            &&& r.limit == config.max_requests
            &&& r.algorithm == Algorithm::FixedWindow
        }),
{
}

/// Admission is exact: as long as checks open no new window, requests are let
/// through exactly if they and those that were let through since the window
/// started are together no more than the limit, and what remains is what they
/// leave of it.
pub proof fn fixed_window_admission_is_exact(
    config: WindowConfig,
    start: u64,
    asks: Seq<Ask>,
    n: u64,
    now: u64,
)
    requires
        start <= now < start + config.window_size.nanos,
        forall|i: int|
            0 <= i < asks.len() ==> start <= (#[trigger] asks[i]).now < start
                + config.window_size.nanos,
    ensures
        ({
            let window = opened(start as nat);
            let before = granted::<FixedWindowState>(config, window, asks);
            let since = granted::<FixedWindowState>(config, window, asks.push(Ask { n, now }));
            let r = counted(
                config,
                after_asks::<FixedWindowState>(config, window, asks),
                n,
                now as nat,
            ).1;
            &&& r.allowed <==> before + n <= config.max_requests
            &&& r.remaining == config.max_requests - since
            &&& since == before + if r.allowed {
                n as nat
            } else {
                0
            }
        }),
{
    let window = opened(start as nat);
    fixed_window_bounds_admission(config, window, asks);
    assert(asks.push(Ask { n, now }).drop_last() =~= asks);
    let found = after_asks::<FixedWindowState>(config, window, asks);
    fixed_window_check_is_exact(config, found, n, now);
}

/// What an answer calls remaining is exactly what the window would still admit
/// at that instant, whether the check was allowed or denied.
pub proof fn fixed_window_remaining_is_exact(
    config: WindowConfig,
    states: Map<Seq<char>, WindowCount>,
    key: Seq<char>,
    n: u64,
    m: u64,
    now: u64,
)
    requires
        config.window_size.nanos > 0,
        states.contains_key(key) ==> states[key].count <= config.max_requests,
    ensures
        ({
            let b = keyed_behaviour::<FixedWindowState>(config, states);
            let r = answer(b, key, n, now);
            answer(after(b, Call::Check { key, n, now }), key, m, now).allowed <==> m
                <= r.remaining
        }),
{
    let call = Call::Check { key, n, now };
    lemma_keyed_behaviour::<FixedWindowState>(config, states, call);
    lemma_keyed_behaviour::<FixedWindowState>(
        config,
        step::<FixedWindowState>(config, states, call),
        call,
    );
    let window = current::<FixedWindowState>(config, states, key, now);
    let then = counted(config, window, n, now as nat).0;
    fixed_window_check_is_exact(config, window, n, now);
    fixed_window_check_is_exact(config, then, m, now);
}

/// A key that was never seen has counted nothing: requests are admitted exactly
/// if they are no more than the limit.
pub proof fn fixed_window_starts_empty(config: WindowConfig, key: Seq<char>, n: u64, now: u64)
    ensures
        ({
            let r = answer(keyed_behaviour::<FixedWindowState>(config, Map::empty()), key, n, now);
            &&& r.allowed <==> n <= config.max_requests
            &&& r.remaining == if n <= config.max_requests {
                config.max_requests - n
            } else {
                config.max_requests as int
            }
        }),
{
    lemma_keyed_behaviour::<FixedWindowState>(config, Map::empty(), Call::Check { key, n, now });
    fixed_window_check_is_exact(config, opened(now as nat), n, now);
}

/// After a window has been filled at once, requests are admitted again exactly
/// when it is over.
pub proof fn fixed_window_recovers_when_it_is_over(
    config: WindowConfig,
    key: Seq<char>,
    now: u64,
    m: u64,
    later: u64,
)
    requires
        0 < m <= config.max_requests,
        now <= later,
    ensures
        ({
            let b = keyed_behaviour::<FixedWindowState>(config, Map::empty());
            let burst = Call::Check { key, n: config.max_requests, now };
            answer(after(b, burst), key, m, later).allowed <==> now + config.window_size.nanos
                <= later
        }),
{
    let call = Call::Check { key, n: config.max_requests, now };
    let empty = Map::<Seq<char>, WindowCount>::empty();
    lemma_keyed_behaviour::<FixedWindowState>(config, empty, call);
    lemma_keyed_behaviour::<FixedWindowState>(
        config,
        step::<FixedWindowState>(config, empty, call),
        call,
    );
    let window = current::<FixedWindowState>(config, empty, key, now);
    fixed_window_check_is_exact(config, window, config.max_requests, now);
    fixed_window_check_is_exact(
        config,
        counted(config, window, config.max_requests, now as nat).0,
        m,
        later,
    );
}

} // verus!
