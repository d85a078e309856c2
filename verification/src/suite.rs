//! Several limiters that act as one.
use crate::fixed_window::{FixedWindow, FixedWindowState};
use crate::keyed::{keyed_behaviour, repeated};
use crate::leaky_bucket::{LeakyBucket, LeakyState};
use crate::sliding_window::{SlidingWindow, WindowState};
use crate::token_bucket::{BucketState, TokenBucket};
use crate::types::{
    after, answer, Algorithm, Behaviour, BucketConfig, Call, RateLimitResult, RateLimiter,
    WindowConfig,
};
use vstd::prelude::*;

verus! {

/// Whether `results[i]` is the most restrictive of `results`: the first
/// denial, or, where there is none, the first with the smallest `remaining`.
pub open spec fn most_restrictive(results: Seq<RateLimitResult>, i: int) -> bool {
    &&& 0 <= i < results.len()
    &&& if results[i].allowed {
        &&& forall|j: int| 0 <= j < results.len() ==> (#[trigger] results[j]).allowed
        &&& forall|j: int|
            0 <= j < results.len() ==> (#[trigger] results[j]).remaining >= results[i].remaining
        &&& forall|j: int| 0 <= j < i ==> (#[trigger] results[j]).remaining > results[i].remaining
    } else {
        forall|j: int| 0 <= j < i ==> (#[trigger] results[j]).allowed
    }
}

/// Whether `r` is the answer of a suite whose limiters answer `results`.
pub open spec fn combined(results: Seq<RateLimitResult>, r: RateLimitResult) -> bool {
    if results.len() == 0 {
        r == RateLimitResult::allowed_spec(0, 0, Algorithm::TokenBucket)
    } else {
        exists|i: int| #[trigger] most_restrictive(results, i) && r == results[i]
    }
}

/// What each of several limiters answers to a check of `n` requests for
/// `key`, each asked at an instant of its own.
pub open spec fn answers(
    behaviours: Seq<Behaviour>,
    key: Seq<char>,
    n: u64,
    instants: Seq<u64>,
) -> Seq<RateLimitResult> {
    Seq::new(behaviours.len(), |i: int| answer(behaviours[i], key, n, instants[i]))
}

/// How each of several limiters behaves after a check of `n` requests for
/// `key`, each at an instant of its own.
pub open spec fn after_check(
    behaviours: Seq<Behaviour>,
    key: Seq<char>,
    n: u64,
    instants: Seq<u64>,
) -> Seq<Behaviour> {
    Seq::new(
        behaviours.len(),
        |i: int| after(behaviours[i], Call::Check { key, n, now: instants[i] }),
    )
}

/// Whether a suite that behaves as `before` answers `r` to a check of `n`
/// requests for `key` and then behaves as `then`, when its limiters are asked
/// at these instants.
pub open spec fn suite_step(
    before: Seq<Behaviour>,
    key: Seq<char>,
    n: u64,
    instants: Seq<u64>,
    then: Seq<Behaviour>,
    r: RateLimitResult,
) -> bool {
    &&& instants.len() == before.len()
    &&& combined(answers(before, key, n, instants), r)
    &&& then == after_check(before, key, n, instants)
}

/// A limiter of any kind.
pub struct AnyLimiter {
    pub limiter: Box<dyn RateLimiter>,
}

impl RateLimiter for AnyLimiter {
    open spec fn valid(&self) -> bool {
        self.limiter.valid()
    }

    open spec fn behaviour(&self) -> Behaviour {
        self.limiter.behaviour()
    }

    open spec fn kind(&self) -> Algorithm {
        self.limiter.kind()
    }

    fn check_n_at(&mut self, key: &str, n: u64, now: u64) -> (r: RateLimitResult) {
        self.limiter.check_n_at(key, n, now)
    }

    fn check_n(&mut self, key: &str, n: u64) -> (r: RateLimitResult) {
        let ghost before = self.limiter.behaviour();
        let r = self.limiter.check_n(key, n);
        proof {
            let now = choose|now: u64|
                r == #[trigger] answer(before, key@, n, now) && self.limiter.behaviour() == after(
                    before,
                    Call::Check { key: key@, n, now },
                );
            assert(r == answer(old(self).behaviour(), key@, n, now));
        }
        r
    }

    fn check(&mut self, key: &str) -> (r: RateLimitResult) {
        let ghost before = self.limiter.behaviour();
        let r = self.limiter.check(key);
        proof {
            let now = choose|now: u64|
                r == #[trigger] answer(before, key@, 1, now) && self.limiter.behaviour() == after(
                    before,
                    Call::Check { key: key@, n: 1, now },
                );
            assert(r == answer(old(self).behaviour(), key@, 1, now));
        }
        r
    }

    fn reset(&mut self, key: &str) {
        self.limiter.reset(key)
    }

    fn algorithm(&self) -> (a: Algorithm) {
        self.limiter.algorithm()
    }
}

/// How the limiters of a list behave.
pub open spec fn behaviours_of(limiters: Seq<AnyLimiter>) -> Seq<Behaviour> {
    Seq::new(limiters.len(), |i: int| limiters[i].behaviour())
}

/// The algorithms of the limiters of a list.
pub open spec fn kinds_of(limiters: Seq<AnyLimiter>) -> Seq<Algorithm> {
    Seq::new(limiters.len(), |i: int| limiters[i].kind())
}

/// Whether the limiters of a list are in order.
pub open spec fn all_valid(limiters: Seq<AnyLimiter>) -> bool {
    forall|i: int| 0 <= i < limiters.len() ==> (#[trigger] limiters[i]).valid()
}

/// A composition of independent rate limiters that all see every check.
///
/// On every call, the suite asks every limiter and returns the most
/// restrictive result: the first denial, or else the one with the smallest
/// `remaining`.
pub struct RateLimiterSuite {
    limiters: Vec<AnyLimiter>,
}

impl RateLimiterSuite {
    /// Whether all limiters are in order.
    pub closed spec fn valid(&self) -> bool {
        all_valid(self.limiters@)
    }

    /// How the limiters behave, in their order.
    pub closed spec fn behaviours(&self) -> Seq<Behaviour> {
        behaviours_of(self.limiters@)
    }

    /// The algorithms of the limiters, in their order.
    pub closed spec fn kinds(&self) -> Seq<Algorithm> {
        kinds_of(self.limiters@)
    }

    /// A builder without limiters.
    pub fn builder() -> (b: RateLimiterSuiteBuilder)
        ensures
            b.valid(),
            b.behaviours() == Seq::<Behaviour>::empty(),
            b.kinds() == Seq::<Algorithm>::empty(),
    {
        RateLimiterSuiteBuilder::new()
    }

    /// A suite without limiters. It answers every check with
    /// `allowed = true` and `remaining = 0`.
    pub fn new() -> (s: Self)
        ensures
            s.valid(),
            s.behaviours() == Seq::<Behaviour>::empty(),
            s.kinds() == Seq::<Algorithm>::empty(),
    {
        RateLimiterSuite { limiters: Vec::new() }
    }

    /// Checks one request for `key` at the instant of the call.
    pub fn check(&mut self, key: &str) -> (r: RateLimitResult)
        requires
            old(self).valid(),
        ensures
            final(self).valid(),
            final(self).kinds() == old(self).kinds(),
            exists|instants: Seq<u64>| #[trigger]
                suite_step(
                    old(self).behaviours(),
                    key@,
                    1,
                    instants,
                    final(self).behaviours(),
                    r,
                ),
    {
        self.check_n(key, 1)
    }

    /// Checks `n` requests for `key`, asking every limiter in turn at the
    /// instant of its call.
    pub fn check_n(&mut self, key: &str, n: u64) -> (r: RateLimitResult)
        requires
            old(self).valid(),
        ensures
            final(self).valid(),
            final(self).kinds() == old(self).kinds(),
            exists|instants: Seq<u64>| #[trigger]
                suite_step(
                    old(self).behaviours(),
                    key@,
                    n,
                    instants,
                    final(self).behaviours(),
                    r,
                ),
    {
        self.ask_all(key, n, None)
    }

    /// Checks `n` requests for `key`, asking every limiter at the instant
    /// `now`.
    pub fn check_n_at(&mut self, key: &str, n: u64, now: u64) -> (r: RateLimitResult)
        requires
            old(self).valid(),
        ensures
            final(self).valid(),
            final(self).kinds() == old(self).kinds(),
            suite_step(
                old(self).behaviours(),
                key@,
                n,
                repeated(now, old(self).behaviours().len()),
                final(self).behaviours(),
                r,
            ),
    {
        self.ask_all(key, n, Some(now))
    }

    /// Asks every limiter in turn, at the instant `at` or else at that of its
    /// call.
    fn ask_all(&mut self, key: &str, n: u64, at: Option<u64>) -> (r: RateLimitResult)
        requires
            old(self).valid(),
        ensures
            final(self).valid(),
            final(self).kinds() == old(self).kinds(),
            exists|instants: Seq<u64>| #[trigger]
                suite_step(
                    old(self).behaviours(),
                    key@,
                    n,
                    instants,
                    final(self).behaviours(),
                    r,
                ) && (at matches Some(now) ==> instants == repeated(
                    now,
                    old(self).behaviours().len(),
                )),
    {
        let ghost start = self.limiters@;
        let ghost before = self.behaviours();
        let ghost mut instants: Seq<u64> = Seq::empty();
        let ghost mut results: Seq<RateLimitResult> = Seq::empty();
        let mut picked: Option<RateLimitResult> = None;
        let mut i: usize = 0;
        while i < self.limiters.len()
            invariant
                i <= self.limiters@.len(),
                self.limiters@.len() == start.len(),
                before == behaviours_of(start),
                instants.len() == i,
                at matches Some(now) ==> instants == repeated(now, i as nat),
                results.len() == i,
                all_valid(self.limiters@),
                forall|j: int|
                    0 <= j < start.len() ==> (#[trigger] self.limiters@[j]).kind()
                        == start[j].kind(),
                forall|j: int| i <= j < start.len() ==> #[trigger] self.limiters@[j] == start[j],
                forall|j: int|
                    0 <= j < i ==> (#[trigger] self.limiters@[j]).behaviour() == after(
                        before[j],
                        Call::Check { key: key@, n, now: instants[j] },
                    ),
                forall|j: int|
                    0 <= j < i ==> #[trigger] results[j] == answer(
                        before[j],
                        key@,
                        n,
                        instants[j],
                    ),
                match picked {
                    Some(r) => combined(results, r) && i > 0,
                    None => i == 0,
                },
            decreases start.len() - i,
        {
            assert(self.limiters@[i as int] == start[i as int]);
            let result = match at {
                Some(now) => self.limiters[i].check_n_at(key, n, now),
                None => self.limiters[i].check_n(key, n),
            };
            proof {
                let asked = match at {
                    Some(now) => now,
                    None => choose|now: u64|
                        result == #[trigger] answer(before[i as int], key@, n, now)
                            && self.limiters@[i as int].behaviour() == after(
                            before[i as int],
                            Call::Check { key: key@, n, now },
                        ),
                };
                instants = instants.push(asked);
                lemma_combined(results, picked, result);
                results = results.push(result);
            }
            picked = Some(more_restrictive(picked, result));
            i = i + 1;
        }
        proof {
            assert(results =~= answers(before, key@, n, instants));
            assert(self.behaviours() =~= after_check(before, key@, n, instants));
            assert(self.kinds() =~= old(self).kinds());
        }
        let r = match picked {
            Some(r) => r,
            None => RateLimitResult::allowed(0, 0, Algorithm::TokenBucket),
        };
        assert(suite_step(before, key@, n, instants, self.behaviours(), r));
        r
    }

    /// Drops all state of `key` in every limiter.
    pub fn reset(&mut self, key: &str)
        requires
            old(self).valid(),
        ensures
            final(self).valid(),
            final(self).kinds() == old(self).kinds(),
            final(self).behaviours() == old(self).behaviours().map_values(
                |b: Behaviour| after(b, Call::Reset { key: key@ }),
            ),
    {
        let ghost start = self.limiters@;
        let mut i: usize = 0;
        while i < self.limiters.len()
            invariant
                i <= self.limiters@.len(),
                self.limiters@.len() == start.len(),
                all_valid(self.limiters@),
                forall|j: int|
                    0 <= j < start.len() ==> (#[trigger] self.limiters@[j]).kind()
                        == start[j].kind(),
                forall|j: int| i <= j < start.len() ==> #[trigger] self.limiters@[j] == start[j],
                forall|j: int|
                    0 <= j < i ==> (#[trigger] self.limiters@[j]).behaviour() == after(
                        start[j].behaviour(),
                        Call::Reset { key: key@ },
                    ),
            decreases start.len() - i,
        {
            assert(self.limiters@[i as int] == start[i as int]);
            self.limiters[i].reset(key);
            i = i + 1;
        }
        proof {
            assert(self.behaviours() =~= old(self).behaviours().map_values(
                |b: Behaviour| after(b, Call::Reset { key: key@ }),
            ));
            assert(self.kinds() =~= old(self).kinds());
        }
    }

    /// The limiters, in their order.
    pub fn limiters(&self) -> (l: &[AnyLimiter])
        ensures
            behaviours_of(l@) == self.behaviours(),
            kinds_of(l@) == self.kinds(),
            all_valid(l@) == self.valid(),
    {
        self.limiters.as_slice()
    }

    /// The limiters, in their order, to be asked one by one. The suite goes on
    /// with what becomes of them.
    pub fn limiters_mut(&mut self) -> (l: &mut [AnyLimiter])
        ensures
            behaviours_of(l@) == old(self).behaviours(),
            kinds_of(l@) == old(self).kinds(),
            all_valid(l@) == old(self).valid(),
            final(self).behaviours() == behaviours_of(final(l)@),
            final(self).kinds() == kinds_of(final(l)@),
            final(self).valid() == all_valid(final(l)@),
    {
        self.limiters.as_mut_slice()
    }
}

impl Default for RateLimiterSuite {
    fn default() -> (s: Self)
        ensures
            s.valid(),
            s.behaviours() == Seq::<Behaviour>::empty(),
            s.kinds() == Seq::<Algorithm>::empty(),
    {
        Self::new()
    }
}

impl AsRef<[AnyLimiter]> for RateLimiterSuite {
    fn as_ref(&self) -> (l: &[AnyLimiter])
        ensures
            behaviours_of(l@) == self.behaviours(),
            kinds_of(l@) == self.kinds(),
            all_valid(l@) == self.valid(),
    {
        self.limiters.as_slice()
    }
}

/// What [`more_restrictive`] returns.
pub open spec fn more_restrictive_spec(
    current: Option<RateLimitResult>,
    next: RateLimitResult,
) -> RateLimitResult {
    match current {
        Some(c) => if c.allowed && (!next.allowed || next.remaining < c.remaining) {
            next
        } else {
            c
        },
        None => next,
    }
}

/// The more restrictive of the results so far and the next one.
fn more_restrictive(current: Option<RateLimitResult>, next: RateLimitResult) -> (r: RateLimitResult)
    ensures
        r == more_restrictive_spec(current, next),
{
    match current {
        Some(c) => if c.allowed && (!next.allowed || next.remaining < c.remaining) {
            next
        } else {
            c
        },
        None => next,
    }
}

/// Taking one result after the other gives the most restrictive of all.
proof fn lemma_combined(
    results: Seq<RateLimitResult>,
    current: Option<RateLimitResult>,
    next: RateLimitResult,
)
    requires
        match current {
            Some(r) => combined(results, r) && results.len() > 0,
            None => results.len() == 0,
        },
    ensures
        combined(results.push(next), more_restrictive_spec(current, next)),
{
    let all = results.push(next);
    match current {
        None => {
            assert(most_restrictive(all, 0));
        },
        Some(c) => {
            let i = choose|i: int| #[trigger] most_restrictive(results, i) && c == results[i];
            assert(all[i] == results[i]);
            if c.allowed && (!next.allowed || next.remaining < c.remaining) {
                assert(most_restrictive(all, results.len() as int));
            } else {
                assert(most_restrictive(all, i));
            }
        },
    }
}

/// Puts limiters together into a [`RateLimiterSuite`].
pub struct RateLimiterSuiteBuilder {
    limiters: Vec<AnyLimiter>,
}

impl RateLimiterSuiteBuilder {
    /// Whether all limiters are in order.
    pub closed spec fn valid(&self) -> bool {
        all_valid(self.limiters@)
    }

    /// How the limiters behave, in their order.
    pub closed spec fn behaviours(&self) -> Seq<Behaviour> {
        behaviours_of(self.limiters@)
    }

    /// The algorithms of the limiters, in their order.
    pub closed spec fn kinds(&self) -> Seq<Algorithm> {
        kinds_of(self.limiters@)
    }

    /// A builder without limiters.
    fn new() -> (b: Self)
        ensures
            b.valid(),
            b.behaviours() == Seq::<Behaviour>::empty(),
            b.kinds() == Seq::<Algorithm>::empty(),
    {
        RateLimiterSuiteBuilder { limiters: Vec::new() }
    }

    /// Adds a token bucket.
    pub fn token_bucket(self, config: BucketConfig) -> (b: Self)
        requires
            self.valid(),
            config.refill_rate.positive(),
        ensures
            b.valid(),
            b.behaviours() == self.behaviours().push(
                keyed_behaviour::<BucketState>(config, Map::empty()),
            ),
            b.kinds() == self.kinds().push(Algorithm::TokenBucket),
    {
        self.add_limiter(AnyLimiter { limiter: Box::new(TokenBucket::new(config)) })
    }

    /// Adds a leaky bucket.
    pub fn leaky_bucket(self, config: BucketConfig) -> (b: Self)
        requires
            self.valid(),
            config.refill_rate.positive(),
        ensures
            b.valid(),
            b.behaviours() == self.behaviours().push(
                keyed_behaviour::<LeakyState>(config, Map::empty()),
            ),
            b.kinds() == self.kinds().push(Algorithm::LeakyBucket),
    {
        self.add_limiter(AnyLimiter { limiter: Box::new(LeakyBucket::new(config)) })
    }

    /// Adds a sliding window.
    pub fn sliding_window(self, config: WindowConfig) -> (b: Self)
        requires
            self.valid(),
        ensures
            b.valid(),
            b.behaviours() == self.behaviours().push(
                keyed_behaviour::<WindowState>(config, Map::empty()),
            ),
            b.kinds() == self.kinds().push(Algorithm::SlidingWindow),
    {
        self.add_limiter(AnyLimiter { limiter: Box::new(SlidingWindow::new(config)) })
    }

    /// Adds a fixed window.
    pub fn fixed_window(self, config: WindowConfig) -> (b: Self)
        requires
            self.valid(),
        ensures
            b.valid(),
            b.behaviours() == self.behaviours().push(
                keyed_behaviour::<FixedWindowState>(config, Map::empty()),
            ),
            b.kinds() == self.kinds().push(Algorithm::FixedWindow),
    {
        self.add_limiter(AnyLimiter { limiter: Box::new(FixedWindow::new(config)) })
    }

    /// The suite of the limiters, in the order in which they were added.
    pub fn build(self) -> (s: RateLimiterSuite)
        requires
            self.valid(),
        ensures
            s.valid(),
            s.behaviours() == self.behaviours(),
            s.kinds() == self.kinds(),
    {
        RateLimiterSuite { limiters: self.limiters }
    }

    /// Adds a limiter.
    pub fn add_limiter(self, limiter: AnyLimiter) -> (b: Self)
        requires
            self.valid(),
            limiter.valid(),
        ensures
            b.valid(),
            b.behaviours() == self.behaviours().push(limiter.behaviour()),
            b.kinds() == self.kinds().push(limiter.kind()),
    {
        let mut limiters = self.limiters;
        limiters.push(limiter);
        let b = RateLimiterSuiteBuilder { limiters };
        assert(b.behaviours() =~= self.behaviours().push(limiter.behaviour()));
        assert(b.kinds() =~= self.kinds().push(limiter.kind()));
        b
    }
}

impl Default for RateLimiterSuiteBuilder {
    fn default() -> (b: Self)
        ensures
            b.valid(),
            b.behaviours() == Seq::<Behaviour>::empty(),
            b.kinds() == Seq::<Algorithm>::empty(),
    {
        Self::new()
    }
}

/// A suite lets requests through exactly if all its limiters do, and no
/// limiter has less remaining than it says.
pub proof fn suite_allows_what_all_allow(results: Seq<RateLimitResult>, r: RateLimitResult)
    requires
        combined(results, r),
    ensures
        r.allowed <==> forall|j: int| 0 <= j < results.len() ==> (#[trigger] results[j]).allowed,
        r.allowed ==> forall|j: int|
            0 <= j < results.len() ==> (#[trigger] results[j]).remaining >= r.remaining,
{
}

/// There is exactly one answer that a suite can give.
pub proof fn suite_answer_is_determined(
    results: Seq<RateLimitResult>,
    r: RateLimitResult,
    s: RateLimitResult,
)
    requires
        combined(results, r),
        combined(results, s),
    ensures
        r == s,
{
    if results.len() > 0 {
        let i = choose|i: int| #[trigger] most_restrictive(results, i) && r == results[i];
        let j = choose|j: int| #[trigger] most_restrictive(results, j) && s == results[j];
        if i < j {
            assert(results[i].allowed);
        } else if j < i {
            assert(results[j].allowed);
        }
    }
}

/// Every limiter of a suite is asked, each at an instant of its own, and behaves
/// from then on as one that has seen the check.
pub proof fn suite_asks_every_limiter(
    before: Seq<Behaviour>,
    key: Seq<char>,
    n: u64,
    instants: Seq<u64>,
    then: Seq<Behaviour>,
    r: RateLimitResult,
    i: int,
    calls: Seq<Call>,
    k: Seq<char>,
    m: u64,
    t: u64,
)
    requires
        suite_step(before, key, n, instants, then, r),
        0 <= i < before.len(),
    ensures
        instants.len() == before.len(),
        then.len() == before.len(),
        then[i](calls, k, m, t) == before[i](
            seq![Call::Check { key, n, now: instants[i] }] + calls,
            k,
            m,
            t,
        ),
{
}

/// The answer of a suite combines what its limiters, as they behaved before the
/// check, answer to it.
pub proof fn suite_combines_the_answers(
    before: Seq<Behaviour>,
    key: Seq<char>,
    n: u64,
    instants: Seq<u64>,
    then: Seq<Behaviour>,
    r: RateLimitResult,
)
    requires
        suite_step(before, key, n, instants, then, r),
    ensures
        combined(
            Seq::new(before.len(), |j: int| before[j](Seq::empty(), key, n, instants[j])),
            r,
        ),
{
    assert(answers(before, key, n, instants) =~= Seq::new(
        before.len(),
        |j: int| before[j](Seq::empty(), key, n, instants[j]),
    ));
}

/// The combined answer is the first denial. If there is none, it is the first
/// with the least remaining. Of no answers, it is that requests may go ahead and
/// nothing remains. The result is the place of the answer that wins.
pub proof fn the_most_restrictive_answer_wins(
    given: Seq<RateLimitResult>,
    r: RateLimitResult,
) -> (i: int)
    requires
        combined(given, r),
    ensures
        given.len() == 0 ==> r.allowed && r.remaining == 0 && r.limit == 0 && r.retry_after is None,
        given.len() > 0 ==> {
            &&& 0 <= i < given.len()
            &&& r == given[i]
            &&& !r.allowed ==> forall|j: int| 0 <= j < i ==> (#[trigger] given[j]).allowed
            &&& r.allowed ==> forall|j: int|
                0 <= j < given.len() ==> (#[trigger] given[j]).allowed && given[j].remaining
                    >= r.remaining
            &&& r.allowed ==> forall|j: int|
                0 <= j < i ==> (#[trigger] given[j]).remaining > r.remaining
        },
{
    choose|i: int| #[trigger] most_restrictive(given, i) && r == given[i]
}

} // verus!
