//! What the chooser chooses between: limiters that decide about a request.
use crate::binary64::Binary64;
use crate::fixed_window::{FixedWindow, FixedWindowState};
use crate::keyed::{keyed_behaviour, lemma_keyed_behaviour};
use crate::leaky_bucket::{LeakyBucket, LeakyState};
use crate::sliding_window::{SlidingWindow, WindowState};
use crate::token_bucket::{BucketState, TokenBucket};
use crate::types::{
    after, answer, Behaviour, BucketConfig, Call, RateLimitResult, RateLimiter as KeyLimiter,
    WindowConfig,
};
use vstd::arithmetic::power2::{lemma2_to64_rest, lemma_pow2_adds, pow2};
use vstd::prelude::*;

verus! {

/// The kind of client that a request comes from.
#[derive(Clone, Copy, Debug, PartialEq, Eq, Structural)]
pub enum ClientClass {
    ApiKey,
    Internal,
    Anonymous,
}

impl ClientClass {
    /// Twice the number of the class.
    pub open spec fn rank(self) -> nat {
        match self {
            ClientClass::ApiKey => 0,
            ClientClass::Internal => 1,
            ClientClass::Anonymous => 2,
        }
    }

    /// What [`ClientClass::ordinal`] returns.
    pub open spec fn ordinal_spec(self) -> Binary64 {
        match self {
            ClientClass::ApiKey => Binary64 { bits: 0 },
            ClientClass::Internal => Binary64 { bits: 0x3FE0_0000_0000_0000 },
            ClientClass::Anonymous => Binary64 { bits: 0x3FF0_0000_0000_0000 },
        }
    }

    /// The number of the class: 0 for an API key, 1/2 for an internal client
    /// and 1 for an anonymous one.
    pub fn ordinal(&self) -> (x: Binary64)
        ensures
            x == self.ordinal_spec(),
            x.finite(),
            x.units() * 2 == self.rank() * pow2(1074),
    {
        proof {
            lemma2_to64_rest();
            lemma_pow2_adds(52, 1021);
            lemma_pow2_adds(52, 1022);
            vstd::arithmetic::power2::lemma_pow2_unfold(1074);
            assert(0 * pow2(0) == 0);
            assert(0 * pow2(1074) == 0);
        }
        match self {
            ClientClass::ApiKey => Binary64 { bits: 0 },
            ClientClass::Internal => Binary64 { bits: 0x3FE0_0000_0000_0000 },
            ClientClass::Anonymous => Binary64 { bits: 0x3FF0_0000_0000_0000 },
        }
    }
}

/// A decimal digit.
pub open spec fn digit(d: nat) -> char {
    (d + 48) as char
}

/// A number in decimal digits.
pub open spec fn decimal(n: nat) -> Seq<char>
    decreases n,
{
    if n < 10 {
        seq![digit(n)]
    } else {
        decimal(n / 10).push(digit(n % 10))
    }
}

/// The decimal digit `d` as a string.
fn digit_str(d: u64) -> (s: &'static str)
    requires
        d < 10,
    ensures
        s@ == seq![digit(d as nat)],
{
    proof {
        reveal_strlit("0");
        reveal_strlit("1");
        reveal_strlit("2");
        reveal_strlit("3");
        reveal_strlit("4");
        reveal_strlit("5");
        reveal_strlit("6");
        reveal_strlit("7");
        reveal_strlit("8");
        reveal_strlit("9");
    }
    if d == 0 {
        "0"
    } else if d == 1 {
        "1"
    } else if d == 2 {
        "2"
    } else if d == 3 {
        "3"
    } else if d == 4 {
        "4"
    } else if d == 5 {
        "5"
    } else if d == 6 {
        "6"
    } else if d == 7 {
        "7"
    } else if d == 8 {
        "8"
    } else {
        "9"
    }
}

/// Appends the decimal digits of `n`.
fn append_decimal(s: &mut String, n: u64)
    ensures
        final(s)@ == old(s)@ + decimal(n as nat),
    decreases n,
{
    if n >= 10 {
        append_decimal(s, n / 10);
    }
    s.append(digit_str(n % 10));
    assert(s@ =~= old(s)@ + decimal(n as nat));
}

/// One request.
#[derive(Clone, Copy, Debug, PartialEq, Eq, Structural)]
pub struct RequestContext {
    pub client_id: u64,
    pub timestamp_ns: u64,
    pub endpoint_hash: u64,
    pub client_class: ClientClass,
    pub in_flight: u64,
}

/// The key under which limiters know the client with this number.
pub open spec fn client_key(client_id: u64) -> Seq<char> {
    "client_"@ + decimal(client_id as nat)
}

impl RequestContext {
    /// The key under which limiters know the client: `client_` and the
    /// number of the client.
    pub fn key(&self) -> (s: String)
        ensures
            s@ == client_key(self.client_id),
    {
        let mut s = "client_".to_owned();
        append_decimal(&mut s, self.client_id);
        s
    }
}

/// Numbers with the same digits are equal.
pub proof fn lemma_decimal_injective(a: nat, b: nat)
    requires
        decimal(a) == decimal(b),
    ensures
        a == b,
    decreases a,
{
    let (x, y) = (decimal(a), decimal(b));
    if a >= 10 {
        lemma_decimal_nonempty(a / 10);
        assert(x.last() == digit(a % 10));
        assert(x.drop_last() =~= decimal(a / 10));
    } else {
        assert(x.last() == digit(a));
    }
    if b >= 10 {
        lemma_decimal_nonempty(b / 10);
        assert(y.last() == digit(b % 10));
        assert(y.drop_last() =~= decimal(b / 10));
    } else {
        assert(y.last() == digit(b));
    }
    if a >= 10 && b >= 10 {
        lemma_decimal_injective(a / 10, b / 10);
    }
}

/// Every number has a digit.
proof fn lemma_decimal_nonempty(n: nat)
    ensures
        decimal(n).len() > 0,
    decreases n,
{
}

/// Different clients have different keys.
pub proof fn client_keys_are_distinct(a: u64, b: u64)
    requires
        a != b,
    ensures
        client_key(a) != client_key(b),
{
    if client_key(a) == client_key(b) {
        let prefix = "client_"@;
        assert(decimal(a as nat) =~= client_key(a).skip(prefix.len() as int));
        assert(decimal(b as nat) =~= client_key(b).skip(prefix.len() as int));
        lemma_decimal_injective(a as nat, b as nat);
    }
}

/// What is to become of a request.
#[derive(Clone, Copy, Debug, PartialEq, Eq, Structural)]
pub enum Decision {
    Allow,
    Deny,
    Throttle { delay_ms: u64 },
}

impl Decision {
    /// Whether the request may go ahead at once.
    pub fn is_allowed(&self) -> (b: bool)
        ensures
            b == (*self is Allow),
    {
        matches!(self, Decision::Allow)
    }
}

/// The decision that the result of a limiter amounts to. A delay is counted
/// in whole milliseconds, of which the lowest 64 bits are kept.
pub open spec fn decision_of(result: RateLimitResult) -> Decision {
    if result.allowed {
        Decision::Allow
    } else {
        match result.retry_after {
            Some(retry) => Decision::Throttle {
                delay_ms: ((retry.nanos as nat / 1_000_000) % 0x1_0000_0000_0000_0000) as u64,
            },
            None => Decision::Deny,
        }
    }
}

/// The decision that the result of a limiter amounts to.
pub fn map_result(result: RateLimitResult) -> (d: Decision)
    ensures
        d == decision_of(result),
{
    if result.allowed {
        Decision::Allow
    } else if let Some(retry) = result.retry_after {
        Decision::Throttle { delay_ms: (retry.as_millis() % 0x1_0000_0000_0000_0000) as u64 }
    } else {
        Decision::Deny
    }
}

/// A request and the instant at which it is decided about.
pub struct Visit {
    pub ctx: RequestContext,
    pub now: u64,
}

/// How a limiter conducts itself from some state on: what it decides about a
/// visit once a sequence of others has been decided about.
pub type Conduct = spec_fn(Seq<Visit>, Visit) -> Decision;

/// What is decided about a visit.
pub open spec fn decide(conduct: Conduct, visit: Visit) -> Decision {
    conduct(Seq::empty(), visit)
}

/// The conduct that is left once a visit has been decided about.
pub open spec fn after_visit(conduct: Conduct, visit: Visit) -> Conduct {
    |visits: Seq<Visit>, next: Visit| conduct(seq![visit] + visits, next)
}

/// A limiter that decides about requests.
pub trait RateLimiter: Send + Sync {
    /// Whether the limiter is in order.
    spec fn valid(&self) -> bool;

    /// How the limiter conducts itself from now on.
    spec fn conduct(&self) -> Conduct;

    /// The name of the limiter.
    spec fn label(&self) -> Seq<char>;

    /// Decides about a request at the instant `now`.
    fn check_at(&mut self, ctx: &RequestContext, now: u64) -> (d: Decision)
        requires
            old(self).valid(),
        ensures
            final(self).valid(),
            final(self).label() == old(self).label(),
            d == decide(old(self).conduct(), Visit { ctx: *ctx, now }),
            final(self).conduct() == after_visit(old(self).conduct(), Visit { ctx: *ctx, now }),
    ;

    /// Decides about a request at the instant of the call.
    fn check(&mut self, ctx: &RequestContext) -> (d: Decision)
        requires
            old(self).valid(),
        ensures
            final(self).valid(),
            final(self).label() == old(self).label(),
            exists|now: u64|
                d == #[trigger] decide(old(self).conduct(), Visit { ctx: *ctx, now })
                    && final(self).conduct() == after_visit(
                    old(self).conduct(),
                    Visit { ctx: *ctx, now },
                ),
    ;

    /// The name of the limiter.
    fn name(&self) -> (s: &'static str)
        ensures
            s@ == self.label(),
    ;
}

/// The check that a visit amounts to.
pub open spec fn call_of(visit: Visit) -> Call {
    Call::Check { key: client_key(visit.ctx.client_id), n: 1, now: visit.now }
}

/// The conduct of a limiter that checks one request under the key of the
/// client and behaves as `behaviour` says.
pub open spec fn conduct_of(behaviour: Behaviour) -> Conduct {
    |visits: Seq<Visit>, visit: Visit|
        decision_of(
            behaviour(
                Seq::new(visits.len(), |i: int| call_of(visits[i])),
                client_key(visit.ctx.client_id),
                1,
                visit.now,
            ),
        )
}

/// Checking under the key of the client is deciding about the visit.
pub proof fn lemma_conduct_of(behaviour: Behaviour, visit: Visit)
    ensures
        decide(conduct_of(behaviour), visit) == decision_of(
            answer(behaviour, client_key(visit.ctx.client_id), 1, visit.now),
        ),
        conduct_of(after(behaviour, call_of(visit))) == after_visit(conduct_of(behaviour), visit),
{
    assert(Seq::new(0, |i: int| call_of(Seq::<Visit>::empty()[i])) =~= Seq::<Call>::empty());
    let left = conduct_of(after(behaviour, call_of(visit)));
    let right = after_visit(conduct_of(behaviour), visit);
    assert forall|visits: Seq<Visit>, next: Visit| #[trigger]
        left(visits, next) == right(visits, next) by {
        let all = seq![visit] + visits;
        assert(seq![call_of(visit)] + Seq::new(visits.len(), |i: int| call_of(visits[i]))
            =~= Seq::new(all.len(), |i: int| call_of(all[i])));
    }
    assert(left =~= right);
}

/// A token bucket that decides about requests.
pub struct TokenBucketAdapter {
    inner: TokenBucket,
}

impl TokenBucketAdapter {
    /// The instant of the last decision at the moment of a call.
    pub closed spec fn last_reading(&self) -> u64 {
        self.inner.last_reading()
    }

    /// A token bucket that has seen no request.
    pub fn new(config: BucketConfig) -> (a: Self)
        requires
            config.refill_rate.positive(),
        ensures
            a.valid(),
            a.conduct() == conduct_of(keyed_behaviour::<BucketState>(config, Map::empty())),
            a.last_reading() == 0,
    {
        TokenBucketAdapter { inner: TokenBucket::new(config) }
    }
}

impl RateLimiter for TokenBucketAdapter {
    closed spec fn valid(&self) -> bool {
        self.inner.valid()
    }

    closed spec fn conduct(&self) -> Conduct {
        conduct_of(self.inner.behaviour())
    }

    open spec fn label(&self) -> Seq<char> {
        "token_bucket"@
    }

    fn check_at(&mut self, ctx: &RequestContext, now: u64) -> (d: Decision)
        ensures
            final(self).last_reading() == old(self).last_reading(),
    {
        proof {
            lemma_conduct_of(self.inner.behaviour(), Visit { ctx: *ctx, now });
        }
        let key = ctx.key();
        let result = self.inner.check_n_at(key.as_str(), 1, now);
        map_result(result)
    }

    fn check(&mut self, ctx: &RequestContext) -> (d: Decision)
        ensures
            final(self).last_reading() >= old(self).last_reading(),
            d == decide(
                old(self).conduct(),
                Visit { ctx: *ctx, now: final(self).last_reading() },
            ),
            final(self).conduct() == after_visit(
                old(self).conduct(),
                Visit { ctx: *ctx, now: final(self).last_reading() },
            ),
    {
        let key = ctx.key();
        let result = self.inner.check(key.as_str());
        let d = map_result(result);
        proof {
            let now = self.inner.last_reading();
            lemma_keyed_behaviour::<BucketState>(
                old(self).inner.config(),
                old(self).inner.buckets(),
                Call::Check { key: key@, n: 1, now },
            );
            lemma_conduct_of(old(self).inner.behaviour(), Visit { ctx: *ctx, now });
            assert(d == decide(old(self).conduct(), Visit { ctx: *ctx, now }));
        }
        d
    }

    fn name(&self) -> (s: &'static str) {
        "token_bucket"
    }
}

/// A leaky bucket that decides about requests.
pub struct LeakyBucketAdapter {
    inner: LeakyBucket,
}

impl LeakyBucketAdapter {
    /// The instant of the last decision at the moment of a call.
    pub closed spec fn last_reading(&self) -> u64 {
        self.inner.last_reading()
    }

    /// A leaky bucket that has seen no request.
    pub fn new(config: BucketConfig) -> (a: Self)
        requires
            config.refill_rate.positive(),
        ensures
            a.valid(),
            a.conduct() == conduct_of(keyed_behaviour::<LeakyState>(config, Map::empty())),
            a.last_reading() == 0,
    {
        LeakyBucketAdapter { inner: LeakyBucket::new(config) }
    }
}

impl RateLimiter for LeakyBucketAdapter {
    closed spec fn valid(&self) -> bool {
        self.inner.valid()
    }

    closed spec fn conduct(&self) -> Conduct {
        conduct_of(self.inner.behaviour())
    }

    open spec fn label(&self) -> Seq<char> {
        "leaky_bucket"@
    }

    fn check_at(&mut self, ctx: &RequestContext, now: u64) -> (d: Decision)
        ensures
            final(self).last_reading() == old(self).last_reading(),
    {
        proof {
            lemma_conduct_of(self.inner.behaviour(), Visit { ctx: *ctx, now });
        }
        let key = ctx.key();
        let result = self.inner.check_n_at(key.as_str(), 1, now);
        map_result(result)
    }

    fn check(&mut self, ctx: &RequestContext) -> (d: Decision)
        ensures
            final(self).last_reading() >= old(self).last_reading(),
            d == decide(
                old(self).conduct(),
                Visit { ctx: *ctx, now: final(self).last_reading() },
            ),
            final(self).conduct() == after_visit(
                old(self).conduct(),
                Visit { ctx: *ctx, now: final(self).last_reading() },
            ),
    {
        let key = ctx.key();
        let result = self.inner.check(key.as_str());
        let d = map_result(result);
        proof {
            let now = self.inner.last_reading();
            lemma_keyed_behaviour::<LeakyState>(
                old(self).inner.config(),
                old(self).inner.buckets(),
                Call::Check { key: key@, n: 1, now },
            );
            lemma_conduct_of(old(self).inner.behaviour(), Visit { ctx: *ctx, now });
            assert(d == decide(old(self).conduct(), Visit { ctx: *ctx, now }));
        }
        d
    }

    fn name(&self) -> (s: &'static str) {
        "leaky_bucket"
    }
}

/// A sliding window that decides about requests.
pub struct SlidingWindowAdapter {
    inner: SlidingWindow,
}

impl SlidingWindowAdapter {
    /// The instant of the last decision at the moment of a call.
    pub closed spec fn last_reading(&self) -> u64 {
        self.inner.last_reading()
    }

    /// A sliding window that has seen no request.
    pub fn new(config: WindowConfig) -> (a: Self)
        ensures
            a.valid(),
            a.conduct() == conduct_of(keyed_behaviour::<WindowState>(config, Map::empty())),
            a.last_reading() == 0,
    {
        SlidingWindowAdapter { inner: SlidingWindow::new(config) }
    }
}

impl RateLimiter for SlidingWindowAdapter {
    closed spec fn valid(&self) -> bool {
        self.inner.valid()
    }

    closed spec fn conduct(&self) -> Conduct {
        conduct_of(self.inner.behaviour())
    }

    open spec fn label(&self) -> Seq<char> {
        "sliding_window"@
    }

    fn check_at(&mut self, ctx: &RequestContext, now: u64) -> (d: Decision)
        ensures
            final(self).last_reading() == old(self).last_reading(),
    {
        proof {
            lemma_conduct_of(self.inner.behaviour(), Visit { ctx: *ctx, now });
        }
        let key = ctx.key();
        let result = self.inner.check_n_at(key.as_str(), 1, now);
        map_result(result)
    }

    fn check(&mut self, ctx: &RequestContext) -> (d: Decision)
        ensures
            final(self).last_reading() >= old(self).last_reading(),
            d == decide(
                old(self).conduct(),
                Visit { ctx: *ctx, now: final(self).last_reading() },
            ),
            final(self).conduct() == after_visit(
                old(self).conduct(),
                Visit { ctx: *ctx, now: final(self).last_reading() },
            ),
    {
        let key = ctx.key();
        let result = self.inner.check(key.as_str());
        let d = map_result(result);
        proof {
            let now = self.inner.last_reading();
            lemma_keyed_behaviour::<WindowState>(
                old(self).inner.config(),
                old(self).inner.windows(),
                Call::Check { key: key@, n: 1, now },
            );
            lemma_conduct_of(old(self).inner.behaviour(), Visit { ctx: *ctx, now });
            assert(d == decide(old(self).conduct(), Visit { ctx: *ctx, now }));
        }
        d
    }

    fn name(&self) -> (s: &'static str) {
        "sliding_window"
    }
}

/// A fixed window that decides about requests.
pub struct FixedWindowAdapter {
    inner: FixedWindow,
}

impl FixedWindowAdapter {
    /// The instant of the last decision at the moment of a call.
    pub closed spec fn last_reading(&self) -> u64 {
        self.inner.last_reading()
    }

    /// A fixed window that has seen no request.
    pub fn new(config: WindowConfig) -> (a: Self)
        ensures
            a.valid(),
            a.conduct() == conduct_of(keyed_behaviour::<FixedWindowState>(config, Map::empty())),
            a.last_reading() == 0,
    {
        FixedWindowAdapter { inner: FixedWindow::new(config) }
    }
}

impl RateLimiter for FixedWindowAdapter {
    closed spec fn valid(&self) -> bool {
        self.inner.valid()
    }

    closed spec fn conduct(&self) -> Conduct {
        conduct_of(self.inner.behaviour())
    }

    open spec fn label(&self) -> Seq<char> {
        "fixed_window"@
    }

    fn check_at(&mut self, ctx: &RequestContext, now: u64) -> (d: Decision)
        ensures
            final(self).last_reading() == old(self).last_reading(),
    {
        proof {
            lemma_conduct_of(self.inner.behaviour(), Visit { ctx: *ctx, now });
        }
        let key = ctx.key();
        let result = self.inner.check_n_at(key.as_str(), 1, now);
        map_result(result)
    }

    fn check(&mut self, ctx: &RequestContext) -> (d: Decision)
        ensures
            final(self).last_reading() >= old(self).last_reading(),
            d == decide(
                old(self).conduct(),
                Visit { ctx: *ctx, now: final(self).last_reading() },
            ),
            final(self).conduct() == after_visit(
                old(self).conduct(),
                Visit { ctx: *ctx, now: final(self).last_reading() },
            ),
    {
        let key = ctx.key();
        let result = self.inner.check(key.as_str());
        let d = map_result(result);
        proof {
            let now = self.inner.last_reading();
            lemma_keyed_behaviour::<FixedWindowState>(
                old(self).inner.config(),
                old(self).inner.windows(),
                Call::Check { key: key@, n: 1, now },
            );
            lemma_conduct_of(old(self).inner.behaviour(), Visit { ctx: *ctx, now });
            assert(d == decide(old(self).conduct(), Visit { ctx: *ctx, now }));
        }
        d
    }

    fn name(&self) -> (s: &'static str) {
        "fixed_window"
    }
}

/// A limiter of any kind that decides about requests.
pub struct AnyAlgorithm {
    pub limiter: Box<dyn RateLimiter>,
}

impl RateLimiter for AnyAlgorithm {
    open spec fn valid(&self) -> bool {
        self.limiter.valid()
    }

    open spec fn conduct(&self) -> Conduct {
        self.limiter.conduct()
    }

    open spec fn label(&self) -> Seq<char> {
        self.limiter.label()
    }

    fn check_at(&mut self, ctx: &RequestContext, now: u64) -> (d: Decision) {
        self.limiter.check_at(ctx, now)
    }

    fn check(&mut self, ctx: &RequestContext) -> (d: Decision) {
        let ghost before = self.limiter.conduct();
        let d = self.limiter.check(ctx);
        proof {
            let now = choose|now: u64|
                d == #[trigger] decide(before, Visit { ctx: *ctx, now })
                    && self.limiter.conduct() == after_visit(before, Visit { ctx: *ctx, now });
            assert(d == decide(old(self).conduct(), Visit { ctx: *ctx, now }));
        }
        d
    }

    fn name(&self) -> (s: &'static str) {
        self.limiter.name()
    }
}

/// A decision says what the result of the limiter says: requests that are
/// allowed go ahead, others wait for as many whole milliseconds as they were told
/// to, and those that were told no time are turned away.
pub proof fn decisions_follow_results(result: RateLimitResult)
    ensures
        decision_of(result) is Allow <==> result.allowed,
        decision_of(result) is Deny <==> !result.allowed && result.retry_after is None,
        match decision_of(result) {
            Decision::Throttle { delay_ms } => {
                &&& !result.allowed
                &&& result.retry_after is Some
                &&& result.retry_after->0.nanos < 0x1_0000_0000_0000_0000 * 1_000_000
                    ==> delay_ms * 1_000_000 <= result.retry_after->0.nanos < (delay_ms + 1)
                    * 1_000_000
            },
            _ => true,
        },
{
}

/// The number that is written by some digits.
pub open spec fn number_of(digits: Seq<char>) -> nat
    decreases digits.len(),
{
    if digits.len() == 0 {
        0
    } else {
        number_of(digits.drop_last()) * 10 + (digits.last() as nat - '0' as nat) as nat
    }
}

/// The key of a client is `client_` and its number in digits that read back as
/// the number, without needless zeros in front.
pub proof fn client_keys_name_the_client(client_id: u64)
    ensures
        ({
            let digits = client_key(client_id).skip("client_"@.len() as int);
            &&& client_key(client_id) == "client_"@ + digits
            &&& digits.len() > 0
            &&& digits.len() > 1 ==> digits[0] != '0'
            &&& forall|i: int| 0 <= i < digits.len() ==> '0' <= #[trigger] digits[i] <= '9'
            &&& number_of(digits) == client_id
        }),
{
    let digits = client_key(client_id).skip("client_"@.len() as int);
    assert(digits =~= decimal(client_id as nat));
    lemma_decimal_reads_back(client_id as nat);
}

proof fn lemma_decimal_reads_back(n: nat)
    ensures
        decimal(n).len() > 0,
        n > 0 ==> decimal(n)[0] != '0',
        n < 10 ==> decimal(n).len() == 1,
        forall|i: int| 0 <= i < decimal(n).len() ==> '0' <= #[trigger] decimal(n)[i] <= '9',
        number_of(decimal(n)) == n,
    decreases n,
{
    let digits = decimal(n);
    if n < 10 {
        assert(digits.drop_last() =~= Seq::<char>::empty());
        assert(number_of(digits.drop_last()) == 0);
    } else {
        lemma_decimal_reads_back(n / 10);
        assert(digits.drop_last() =~= decimal(n / 10));
    }
}

/// An adapter asks its limiter for one request under the key of the client, at
/// the instant of the visit, every time.
pub proof fn adapters_ask_for_one_request(behaviour: Behaviour, visits: Seq<Visit>, visit: Visit)
    ensures
        conduct_of(behaviour)(visits, visit) == decision_of(
            behaviour(
                Seq::new(
                    visits.len(),
                    |i: int|
                        Call::Check {
                            key: client_key(visits[i].ctx.client_id),
                            n: 1,
                            now: visits[i].now,
                        },
                ),
                client_key(visit.ctx.client_id),
                1,
                visit.now,
            ),
        ),
{
    assert(Seq::new(visits.len(), |i: int| call_of(visits[i])) =~= Seq::new(
        visits.len(),
        |i: int|
            Call::Check { key: client_key(visits[i].ctx.client_id), n: 1, now: visits[i].now },
    ));
}

/// Deciding about a visit and then about others is deciding about all of them in
/// this order, and a decision is that after no visit.
pub proof fn visits_follow_each_other(
    conduct: Conduct,
    visit: Visit,
    visits: Seq<Visit>,
    next: Visit,
)
    ensures
        after_visit(conduct, visit)(visits, next) == conduct(seq![visit] + visits, next),
        decide(conduct, next) == conduct(Seq::empty(), next),
{
}

} // verus!
