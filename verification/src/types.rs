//! Configurations, results and the trait that all limiters share.
use crate::binary64::Binary64;
use crate::duration::Duration;
use vstd::prelude::*;

verus! {

/// Errors returned by [`BucketConfig::try_new`] and [`WindowConfig::try_new`]
/// when the supplied parameters are not usable.
#[derive(Clone, Copy, Debug, PartialEq)]
pub enum ConfigError {
    /// A capacity or a number of requests of zero was supplied.
    ZeroCapacity {
        /// Name of the offending field: `"capacity"` or `"max_requests"`.
        field: &'static str,
    },
    /// A refill rate of zero or below was supplied.
    ZeroRefillRate,
    /// A refill rate that is not a finite number was supplied.
    NonFiniteRate {
        /// The value that was supplied.
        value: Binary64,
    },
    /// A window size of zero was supplied.
    ZeroWindowSize,
}

/// How a number that is not finite is written.
pub open spec fn non_finite_text(value: Binary64) -> Seq<char> {
    if value.nan() {
        "NaN"@
    } else if value.negative() {
        "-inf"@
    } else {
        "inf"@
    }
}

impl ConfigError {
    /// What is wrong, in words.
    pub open spec fn text(self) -> Seq<char> {
        match self {
            ConfigError::ZeroCapacity { field } => "`"@ + field@ + "` must be greater than 0"@,
            ConfigError::ZeroRefillRate => "`refill_rate` must be greater than 0"@,
            ConfigError::NonFiniteRate { value } => "`refill_rate` must be finite (got "@
                + non_finite_text(value) + ")"@,
            ConfigError::ZeroWindowSize => "`window_size` must be greater than zero"@,
        }
    }

    /// What is wrong, in words. A rate that is said not to be finite must not
    /// be finite.
    pub fn to_string(&self) -> (s: String)
        requires
            *self matches ConfigError::NonFiniteRate { value } ==> !value.finite(),
        ensures
            s@ == self.text(),
    {
        match self {
            ConfigError::ZeroCapacity { field } => {
                let mut s = "`".to_owned();
                s.append(field);
                s.append("` must be greater than 0");
                s
            },
            ConfigError::ZeroRefillRate => "`refill_rate` must be greater than 0".to_owned(),
            ConfigError::NonFiniteRate { value } => {
                let mut s = "`refill_rate` must be finite (got ".to_owned();
                if value.is_nan() {
                    s.append("NaN");
                } else if value.bits >= 0x8000_0000_0000_0000 {
                    s.append("-inf");
                } else {
                    s.append("inf");
                }
                s.append(")");
                s
            },
            ConfigError::ZeroWindowSize => "`window_size` must be greater than zero".to_owned(),
        }
    }
}

/// Identifies the rate-limiting algorithm that produced a
/// [`RateLimitResult`].
#[derive(Clone, Copy, Debug, PartialEq, Eq, Hash, Structural)]
#[non_exhaustive]
pub enum Algorithm {
    TokenBucket,
    LeakyBucket,
    SlidingWindow,
    FixedWindow,
}

impl Algorithm {
    /// The name of the algorithm in lower case with underscores.
    pub open spec fn label(self) -> Seq<char> {
        match self {
            Algorithm::TokenBucket => "token_bucket"@,
            Algorithm::LeakyBucket => "leaky_bucket"@,
            Algorithm::SlidingWindow => "sliding_window"@,
            Algorithm::FixedWindow => "fixed_window"@,
        }
    }

    /// The name of the algorithm in lower case with underscores.
    pub fn name(&self) -> (s: &'static str)
        ensures
            s@ == self.label(),
    {
        match self {
            Algorithm::TokenBucket => "token_bucket",
            Algorithm::LeakyBucket => "leaky_bucket",
            Algorithm::SlidingWindow => "sliding_window",
            Algorithm::FixedWindow => "fixed_window",
        }
    }

    /// The name of the algorithm as an owned string.
    pub fn to_string(&self) -> (s: String)
        ensures
            s@ == self.label(),
    {
        self.name().to_owned()
    }
}

/// The answer of a limiter to one check.
#[derive(Clone, Copy, Debug, PartialEq, Eq, Structural)]
#[non_exhaustive]
pub struct RateLimitResult {
    /// Whether the requests may go ahead.
    pub allowed: bool,
    /// Requests that the limiter would still admit now.
    pub remaining: u64,
    /// The capacity or the number of requests per window.
    pub limit: u64,
    /// On denial, how long to wait before trying again.
    pub retry_after: Option<Duration>,
    /// The algorithm that gave the answer.
    pub algorithm: Algorithm,
}

impl RateLimitResult {
    /// What [`RateLimitResult::allowed`] builds.
    pub open spec fn allowed_spec(remaining: u64, limit: u64, algorithm: Algorithm) -> Self {
        RateLimitResult { allowed: true, remaining, limit, retry_after: None, algorithm }
    }

    /// What [`RateLimitResult::denied`] builds.
    pub open spec fn denied_spec(
        remaining: u64,
        limit: u64,
        retry_after: Duration,
        algorithm: Algorithm,
    ) -> Self {
        RateLimitResult {
            allowed: false,
            remaining,
            limit,
            retry_after: Some(retry_after),
            algorithm,
        }
    }

    /// Whether the answer names the limit and the algorithm, says how much of
    /// the limit remains, and, on denial only, how long to wait.
    pub open spec fn informative(self, limit: u64, algorithm: Algorithm) -> bool {
        &&& self.limit == limit
        &&& self.algorithm == algorithm
        &&& self.remaining <= limit
        &&& self.allowed <==> self.retry_after is None
    }

    /// The answer that requests may go ahead.
    pub fn allowed(remaining: u64, limit: u64, algorithm: Algorithm) -> (r: Self)
        ensures
            r == Self::allowed_spec(remaining, limit, algorithm),
            r.allowed,
            r.remaining == remaining,
            r.limit == limit,
            r.retry_after is None,
            r.algorithm == algorithm,
    {
        RateLimitResult { allowed: true, remaining, limit, retry_after: None, algorithm }
    }

    /// The answer that requests may not go ahead before `retry_after` has
    /// passed.
    pub fn denied(
        remaining: u64,
        limit: u64,
        retry_after: Duration,
        algorithm: Algorithm,
    ) -> (r: Self)
        ensures
            r == Self::denied_spec(remaining, limit, retry_after, algorithm),
            !r.allowed,
            r.remaining == remaining,
            r.limit == limit,
            r.retry_after == Some(retry_after),
            r.algorithm == algorithm,
    {
        RateLimitResult {
            allowed: false,
            remaining,
            limit,
            retry_after: Some(retry_after),
            algorithm,
        }
    }
}

/// Configuration of the token bucket and the leaky bucket.
#[derive(Clone, Copy, Debug, PartialEq)]
#[non_exhaustive]
pub struct BucketConfig {
    /// Tokens that the bucket holds at most.
    pub capacity: u64,
    /// Tokens added, or requests drained, per second.
    pub refill_rate: Binary64,
}

impl BucketConfig {
    /// Usable parameters: room for a token, and a rate that is finite and
    /// above zero.
    pub open spec fn valid(self) -> bool {
        self.capacity > 0 && self.refill_rate.positive()
    }

    /// Builds a configuration without validation.
    ///
    /// Callers are responsible for a `capacity` above zero and a
    /// `refill_rate` that is finite and above zero. [`BucketConfig::try_new`]
    /// and [`BucketConfig::new`] see to both.
    pub fn from_raw(capacity: u64, refill_rate: Binary64) -> (c: Self)
        ensures
            c == (BucketConfig { capacity, refill_rate }),
    {
        BucketConfig { capacity, refill_rate }
    }

    /// Builds a configuration, or says what is wrong with the parameters.
    pub fn try_new(capacity: u64, refill_rate: Binary64) -> (c: Result<Self, ConfigError>)
        ensures
            match c {
                Ok(config) => config == (BucketConfig { capacity, refill_rate }) && config.valid(),
                Err(ConfigError::ZeroCapacity { field }) => capacity == 0 && field@ == "capacity"@,
                Err(ConfigError::NonFiniteRate { value }) => capacity > 0 && !refill_rate.finite()
                    && value == refill_rate,
                Err(ConfigError::ZeroRefillRate) => capacity > 0 && refill_rate.finite()
                    && refill_rate.units() <= 0,
                Err(ConfigError::ZeroWindowSize) => false,
            },
    {
        if capacity == 0 {
            return Err(ConfigError::ZeroCapacity { field: "capacity" });
        }
        if !refill_rate.is_finite() {
            return Err(ConfigError::NonFiniteRate { value: refill_rate });
        }
        if !refill_rate.is_positive() {
            return Err(ConfigError::ZeroRefillRate);
        }
        Ok(BucketConfig { capacity, refill_rate })
    }

    /// Builds a configuration from parameters that are known to be usable.
    pub fn new(capacity: u64, refill_rate: Binary64) -> (c: Self)
        requires
            capacity > 0,
            refill_rate.positive(),
        ensures
            c == (BucketConfig { capacity, refill_rate }),
            c.valid(),
    {
        BucketConfig { capacity, refill_rate }
    }
}

/// Configuration of the fixed window and the sliding window.
#[derive(Clone, Copy, Debug, PartialEq, Eq, Structural)]
#[non_exhaustive]
pub struct WindowConfig {
    /// Requests admitted per window.
    pub max_requests: u64,
    /// Length of the window.
    pub window_size: Duration,
}

impl WindowConfig {
    /// Usable parameters: room for a request, and a window that is not
    /// empty.
    pub open spec fn valid(self) -> bool {
        self.max_requests > 0 && self.window_size.nanos > 0
    }

    /// Builds a configuration without validation.
    pub fn from_raw(max_requests: u64, window_size: Duration) -> (c: Self)
        ensures
            c == (WindowConfig { max_requests, window_size }),
    {
        WindowConfig { max_requests, window_size }
    }

    /// Builds a configuration, or says what is wrong with the parameters.
    pub fn try_new(max_requests: u64, window_size: Duration) -> (c: Result<Self, ConfigError>)
        ensures
            match c {
                Ok(config) => config == (WindowConfig { max_requests, window_size })
                    && config.valid(),
                Err(ConfigError::ZeroCapacity { field }) => max_requests == 0 && field@
                    == "max_requests"@,
                Err(ConfigError::ZeroWindowSize) => max_requests > 0 && window_size.nanos == 0,
                Err(_) => false,
            },
    {
        if max_requests == 0 {
            return Err(ConfigError::ZeroCapacity { field: "max_requests" });
        }
        if window_size.is_zero() {
            return Err(ConfigError::ZeroWindowSize);
        }
        Ok(WindowConfig { max_requests, window_size })
    }

    /// Builds a configuration from parameters that are known to be usable.
    pub fn new(max_requests: u64, window_size: Duration) -> (c: Self)
        requires
            max_requests > 0,
            window_size.nanos > 0,
        ensures
            c == (WindowConfig { max_requests, window_size }),
            c.valid(),
    {
        WindowConfig { max_requests, window_size }
    }
}

/// One call on a limiter.
pub enum Call {
    /// A check of `n` requests for `key` at the instant `now`.
    Check { key: Seq<char>, n: u64, now: u64 },
    /// A reset of `key`.
    Reset { key: Seq<char> },
}

impl Call {
    /// The key that the call is about.
    pub open spec fn about(self) -> Seq<char> {
        match self {
            Call::Check { key, .. } => key,
            Call::Reset { key } => key,
        }
    }
}

/// How a limiter behaves from some state on: what a check of so many
/// requests for a key at an instant is answered once a sequence of calls has
/// been made.
pub type Behaviour = spec_fn(Seq<Call>, Seq<char>, u64, u64) -> RateLimitResult;

/// What a check of `n` requests for `key` at `now` is answered.
pub open spec fn answer(behaviour: Behaviour, key: Seq<char>, n: u64, now: u64) -> RateLimitResult {
    behaviour(Seq::empty(), key, n, now)
}

/// The behaviour that is left once `call` has been made.
pub open spec fn after(behaviour: Behaviour, call: Call) -> Behaviour {
    |calls: Seq<Call>, key: Seq<char>, n: u64, now: u64|
        behaviour(seq![call] + calls, key, n, now)
}

/// A rate limiter with state of its own for each key.
///
/// A limiter is a state machine. What it answers follows from the calls it
/// has seen and from the instants at which they were made, which are
/// counted in nanoseconds.
pub trait RateLimiter: Send + Sync {
    /// Whether the limiter is in order.
    spec fn valid(&self) -> bool;

    /// How the limiter behaves from now on.
    spec fn behaviour(&self) -> Behaviour;

    /// The algorithm implemented by this limiter.
    spec fn kind(&self) -> Algorithm;

    /// Checks whether `n` requests for `key` are allowed at the instant
    /// `now`.
    fn check_n_at(&mut self, key: &str, n: u64, now: u64) -> (r: RateLimitResult)
        requires
            old(self).valid(),
        ensures
            final(self).valid(),
            final(self).kind() == old(self).kind(),
            r == answer(old(self).behaviour(), key@, n, now),
            final(self).behaviour() == after(
                old(self).behaviour(),
                Call::Check { key: key@, n, now },
            ),
    ;

    /// Checks whether `n` requests for `key` are allowed at the instant of
    /// the call. On denial `retry_after` says how long the caller should
    /// wait before trying again.
    fn check_n(&mut self, key: &str, n: u64) -> (r: RateLimitResult)
        requires
            old(self).valid(),
        ensures
            final(self).valid(),
            final(self).kind() == old(self).kind(),
            exists|now: u64|
                r == #[trigger] answer(old(self).behaviour(), key@, n, now)
                    && final(self).behaviour() == after(
                    old(self).behaviour(),
                    Call::Check { key: key@, n, now },
                ),
    ;

    /// Checks whether one request for `key` is allowed at the instant of
    /// the call.
    fn check(&mut self, key: &str) -> (r: RateLimitResult)
        requires
            old(self).valid(),
        ensures
            final(self).valid(),
            final(self).kind() == old(self).kind(),
            exists|now: u64|
                r == #[trigger] answer(old(self).behaviour(), key@, 1, now)
                    && final(self).behaviour() == after(
                    old(self).behaviour(),
                    Call::Check { key: key@, n: 1, now },
                ),
    ;

    /// Drops all state of `key`, so that it starts afresh on the next
    /// check.
    fn reset(&mut self, key: &str)
        requires
            old(self).valid(),
        ensures
            final(self).valid(),
            final(self).kind() == old(self).kind(),
            final(self).behaviour() == after(old(self).behaviour(), Call::Reset { key: key@ }),
    ;

    /// The algorithm implemented by this limiter.
    fn algorithm(&self) -> (a: Algorithm)
        ensures
            a == self.kind(),
    ;
}

/// Making a call and then some others is making all of them in this order, and
/// an answer is that after no call.
pub proof fn calls_follow_each_other(
    behaviour: Behaviour,
    call: Call,
    calls: Seq<Call>,
    key: Seq<char>,
    n: u64,
    now: u64,
)
    ensures
        after(behaviour, call)(calls, key, n, now) == behaviour(seq![call] + calls, key, n, now),
        answer(after(behaviour, call), key, n, now) == behaviour(seq![call], key, n, now),
        answer(behaviour, key, n, now) == behaviour(Seq::empty(), key, n, now),
{
    assert(seq![call] + Seq::<Call>::empty() =~= seq![call]);
}

} // verus!
