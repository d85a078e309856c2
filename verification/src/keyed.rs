//! Limiters that keep one state per key.
use crate::clock::Clock;
use crate::keyed_map::KeyedMap;
use crate::types::{after, answer, Algorithm, Behaviour, Call, RateLimitResult, RateLimiter};
use vstd::prelude::*;

verus! {

/// The state that a limiter keeps for one key.
pub trait KeyState: Sized + Send + Sync {
    /// The parameters of the limiter.
    type Config: Send + Sync;

    /// What the state stands for.
    type Model;

    /// Whether a limiter can work with these parameters.
    spec fn usable(config: Self::Config) -> bool;

    /// Whether the state is in order.
    spec fn valid(&self, config: Self::Config) -> bool;

    /// What the state stands for.
    spec fn model(&self, config: Self::Config) -> Self::Model;

    /// The state of a key that is first seen at `now`.
    spec fn fresh(config: Self::Config, now: u64) -> Self::Model;

    /// The state after a check of `n` requests at `now`, and the answer.
    spec fn checked(config: Self::Config, state: Self::Model, n: u64, now: u64) -> (
        Self::Model,
        RateLimitResult,
    );

    /// The algorithm that answers name.
    spec fn kind() -> Algorithm;

    /// The limit that answers name.
    spec fn limit(config: Self::Config) -> u64;

    /// The algorithm that answers name.
    fn algorithm() -> (a: Algorithm)
        ensures
            a == Self::kind(),
    ;

    /// The state of a key that is first seen at `now`.
    fn start(config: &Self::Config, now: u64) -> (s: Self)
        requires
            Self::usable(*config),
        ensures
            s.valid(*config),
            s.model(*config) == Self::fresh(*config, now),
    ;

    /// Checks `n` requests at `now`.
    fn check_n(&mut self, config: &Self::Config, n: u64, now: u64) -> (r: RateLimitResult)
        requires
            Self::usable(*config),
            old(self).valid(*config),
        ensures
            final(self).valid(*config),
            (final(self).model(*config), r) == Self::checked(
                *config,
                old(self).model(*config),
                n,
                now,
            ),
            r.informative(Self::limit(*config), Self::kind()),
    ;
}

/// The state of `key` before a check at `now`.
pub open spec fn current<S: KeyState>(
    config: S::Config,
    states: Map<Seq<char>, S::Model>,
    key: Seq<char>,
    now: u64,
) -> S::Model {
    if states.contains_key(key) {
        states[key]
    } else {
        S::fresh(config, now)
    }
}

/// The states after one call.
pub open spec fn step<S: KeyState>(
    config: S::Config,
    states: Map<Seq<char>, S::Model>,
    call: Call,
) -> Map<Seq<char>, S::Model> {
    match call {
        Call::Check { key, n, now } => states.insert(
            key,
            S::checked(config, current::<S>(config, states, key, now), n, now).0,
        ),
        Call::Reset { key } => states.remove(key),
    }
}

/// The states after a sequence of calls.
pub open spec fn run<S: KeyState>(
    config: S::Config,
    states: Map<Seq<char>, S::Model>,
    calls: Seq<Call>,
) -> Map<Seq<char>, S::Model>
    decreases calls.len(),
{
    if calls.len() == 0 {
        states
    } else {
        run::<S>(config, step::<S>(config, states, calls[0]), calls.skip(1))
    }
}

/// What a check is answered in these states.
pub open spec fn verdict<S: KeyState>(
    config: S::Config,
    states: Map<Seq<char>, S::Model>,
    key: Seq<char>,
    n: u64,
    now: u64,
) -> RateLimitResult {
    S::checked(config, current::<S>(config, states, key, now), n, now).1
}

/// How a limiter in these states behaves.
pub open spec fn keyed_behaviour<S: KeyState>(
    config: S::Config,
    states: Map<Seq<char>, S::Model>,
) -> Behaviour {
    |calls: Seq<Call>, key: Seq<char>, n: u64, now: u64|
        verdict::<S>(config, run::<S>(config, states, calls), key, n, now)
}

/// Whether a check of `n` requests for `key` at `now` leads from the states
/// `before` to the states `then` and is answered by `r`.
pub open spec fn check_step<S: KeyState>(
    config: S::Config,
    before: Map<Seq<char>, S::Model>,
    key: Seq<char>,
    n: u64,
    now: u64,
    then: Map<Seq<char>, S::Model>,
    r: RateLimitResult,
) -> bool {
    &&& then == step::<S>(config, before, Call::Check { key, n, now })
    &&& r == verdict::<S>(config, before, key, n, now)
}

/// `n` times the instant `now`.
pub open spec fn repeated(now: u64, n: nat) -> Seq<u64> {
    Seq::new(n, |i: int| now)
}

/// A request for `n` at the instant `now`.
pub struct Ask {
    pub n: u64,
    pub now: u64,
}

/// The state of a key after a sequence of checks.
pub open spec fn after_asks<S: KeyState>(
    config: S::Config,
    state: S::Model,
    asks: Seq<Ask>,
) -> S::Model
    decreases asks.len(),
{
    if asks.len() == 0 {
        state
    } else {
        S::checked(
            config,
            after_asks::<S>(config, state, asks.drop_last()),
            asks.last().n,
            asks.last().now,
        ).0
    }
}

/// The number of requests that the last of a sequence of checks lets
/// through.
pub open spec fn granted_last<S: KeyState>(
    config: S::Config,
    state: S::Model,
    asks: Seq<Ask>,
) -> nat {
    if S::checked(
        config,
        after_asks::<S>(config, state, asks.drop_last()),
        asks.last().n,
        asks.last().now,
    ).1.allowed {
        asks.last().n as nat
    } else {
        0
    }
}

/// The number of requests that a sequence of checks lets through.
pub open spec fn granted<S: KeyState>(config: S::Config, state: S::Model, asks: Seq<Ask>) -> nat
    decreases asks.len(),
{
    if asks.len() == 0 {
        0
    } else {
        granted::<S>(config, state, asks.drop_last()) + granted_last::<S>(config, state, asks)
    }
}

/// The calls of a sequence that are about `key`.
pub open spec fn calls_of(calls: Seq<Call>, key: Seq<char>) -> Seq<Call> {
    calls.filter(|call: Call| call.about() == key)
}

/// Keys are independent: whatever calls are made, a check of a key is answered
/// as if only those about this key had been made.
pub proof fn keys_are_independent<S: KeyState>(
    config: S::Config,
    states: Map<Seq<char>, S::Model>,
    calls: Seq<Call>,
    key: Seq<char>,
    n: u64,
    now: u64,
)
    ensures
        keyed_behaviour::<S>(config, states)(calls, key, n, now) == keyed_behaviour::<S>(
            config,
            states,
        )(calls_of(calls, key), key, n, now),
{
    lemma_run_same::<S>(config, states, states, calls, key);
}

/// Whether two maps say the same of `key`.
spec fn agree<M>(a: Map<Seq<char>, M>, b: Map<Seq<char>, M>, key: Seq<char>) -> bool {
    a.contains_key(key) == b.contains_key(key) && (a.contains_key(key) ==> a[key] == b[key])
}

proof fn lemma_run_same<S: KeyState>(
    config: S::Config,
    a: Map<Seq<char>, S::Model>,
    b: Map<Seq<char>, S::Model>,
    calls: Seq<Call>,
    key: Seq<char>,
)
    requires
        agree(a, b, key),
    ensures
        agree(
            run::<S>(config, a, calls),
            run::<S>(config, b, calls_of(calls, key)),
            key,
        ),
    decreases calls.len(),
{
    let about = |call: Call| call.about() == key;
    if calls.len() == 0 {
        reveal(Seq::filter);
    } else {
        let call = calls[0];
        let rest = calls.skip(1);
        assert(calls =~= seq![call] + rest);
        Seq::filter_distributes_over_add(seq![call], rest, about);
        assert(seq![call].filter(about) =~= if about(call) {
            seq![call]
        } else {
            Seq::empty()
        }) by {
            reveal(Seq::filter);
            assert(seq![call].drop_last() =~= Seq::<Call>::empty());
            assert(Seq::<Call>::empty().filter(about) =~= Seq::<Call>::empty());
        }
        let own = calls_of(calls, key);
        if about(call) {
            assert(own[0] == call);
            assert(own.skip(1) =~= calls_of(rest, key));
            lemma_run_same::<S>(
                config,
                step::<S>(config, a, call),
                step::<S>(config, b, call),
                rest,
                key,
            );
        } else {
            assert(own =~= calls_of(rest, key));
            lemma_run_same::<S>(config, step::<S>(config, a, call), b, rest, key);
        }
    }
}

/// A key that was reset starts afresh: whatever calls are made afterwards, it
/// is answered as if the limiter had never seen it before. Every other key is
/// answered as without the reset.
pub proof fn reset_starts_afresh<S: KeyState>(
    config: S::Config,
    states: Map<Seq<char>, S::Model>,
    key: Seq<char>,
    calls: Seq<Call>,
    other: Seq<char>,
    n: u64,
    now: u64,
)
    ensures
        ({
            let reset = keyed_behaviour::<S>(
                config,
                step::<S>(config, states, Call::Reset { key }),
            );
            let unseen = keyed_behaviour::<S>(config, Map::empty());
            let kept = keyed_behaviour::<S>(config, states);
            &&& reset(calls, key, n, now) == unseen(calls, key, n, now)
            &&& other != key ==> reset(calls, other, n, now) == kept(calls, other, n, now)
        }),
{
    let after_reset = step::<S>(config, states, Call::Reset { key });
    lemma_run_same::<S>(config, after_reset, Map::empty(), calls, key);
    lemma_run_same::<S>(config, Map::empty(), Map::empty(), calls, key);
    if other != key {
        lemma_run_same::<S>(config, after_reset, states, calls, other);
        lemma_run_same::<S>(config, states, states, calls, other);
    }
}

/// Checks of `key`, as calls.
pub open spec fn checks_of(key: Seq<char>, asks: Seq<Ask>) -> Seq<Call> {
    Seq::new(asks.len(), |i: int| Call::Check { key, n: asks[i].n, now: asks[i].now })
}

/// A key that was never seen starts afresh with its first check, and every
/// check after that finds what the one before has left.
pub proof fn checks_build_on_each_other<S: KeyState>(
    config: S::Config,
    key: Seq<char>,
    asks: Seq<Ask>,
    n: u64,
    now: u64,
)
    ensures
        ({
            let first = if asks.len() > 0 {
                asks[0].now
            } else {
                now
            };
            let found = after_asks::<S>(config, S::fresh(config, first), asks);
            keyed_behaviour::<S>(config, Map::empty())(checks_of(key, asks), key, n, now)
                == S::checked(config, found, n, now).1
        }),
{
    let calls = checks_of(key, asks);
    if asks.len() > 0 {
        let empty = Map::<Seq<char>, S::Model>::empty();
        let start = S::fresh(config, asks[0].now);
        let seeded = empty.insert(key, start);
        assert(step::<S>(config, empty, calls[0]) =~= step::<S>(config, seeded, calls[0]));
        assert(run::<S>(config, empty, calls) == run::<S>(config, seeded, calls));
        lemma_run_asks::<S>(config, seeded, key, asks);
    }
}

proof fn lemma_run_asks<S: KeyState>(
    config: S::Config,
    states: Map<Seq<char>, S::Model>,
    key: Seq<char>,
    asks: Seq<Ask>,
)
    requires
        states.contains_key(key),
    ensures
        ({
            let end = run::<S>(config, states, checks_of(key, asks));
            end.contains_key(key) && end[key] == after_asks::<S>(config, states[key], asks)
        }),
    decreases asks.len(),
{
    if asks.len() > 0 {
        let calls = checks_of(key, asks);
        let rest = asks.skip(1);
        assert(calls.skip(1) =~= checks_of(key, rest));
        let next = step::<S>(config, states, calls[0]);
        lemma_run_asks::<S>(config, next, key, rest);
        lemma_after_asks_front::<S>(config, states[key], asks);
    }
}

proof fn lemma_after_asks_front<S: KeyState>(config: S::Config, state: S::Model, asks: Seq<Ask>)
    requires
        asks.len() > 0,
    ensures
        after_asks::<S>(config, state, asks) == after_asks::<S>(
            config,
            S::checked(config, state, asks[0].n, asks[0].now).0,
            asks.skip(1),
        ),
    decreases asks.len(),
{
    let next = S::checked(config, state, asks[0].n, asks[0].now).0;
    let rest = asks.skip(1);
    if asks.len() == 1 {
        assert(after_asks::<S>(config, state, asks.drop_last()) == state);
        assert(after_asks::<S>(config, next, rest) == next);
    } else {
        lemma_after_asks_front::<S>(config, state, asks.drop_last());
        assert(asks.drop_last().skip(1) =~= rest.drop_last());
        assert(rest.last() == asks.last());
    }
}

/// The behaviour after a call is the behaviour in the states after it, and a
/// check is answered according to the states it finds.
pub proof fn lemma_keyed_behaviour<S: KeyState>(
    config: S::Config,
    states: Map<Seq<char>, S::Model>,
    call: Call,
)
    ensures
        keyed_behaviour::<S>(config, step::<S>(config, states, call)) == after(
            keyed_behaviour::<S>(config, states),
            call,
        ),
        forall|key: Seq<char>, n: u64, now: u64| #[trigger]
            answer(keyed_behaviour::<S>(config, states), key, n, now) == verdict::<S>(
                config,
                states,
                key,
                n,
                now,
            ),
{
    let left = keyed_behaviour::<S>(config, step::<S>(config, states, call));
    let right = after(keyed_behaviour::<S>(config, states), call);
    assert forall|calls: Seq<Call>, key: Seq<char>, n: u64, now: u64| #[trigger]
        left(calls, key, n, now) == right(calls, key, n, now) by {
        let all = seq![call] + calls;
        assert(all[0] == call);
        assert(all.skip(1) =~= calls);
    }
    assert(left =~= right);
}

/// A limiter with one state per key and a clock.
pub struct KeyedLimiter<S: KeyState> {
    config: S::Config,
    clock: Clock,
    last_reading: u64,
    states: KeyedMap<S>,
}

impl<S: KeyState> KeyedLimiter<S> {
    /// The parameters of the limiter.
    pub closed spec fn config(&self) -> S::Config {
        self.config
    }

    /// The keys that have a state, and what their states stand for.
    pub closed spec fn states(&self) -> Map<Seq<char>, S::Model> {
        self.states@.map_values(|s: S| s.model(self.config))
    }

    /// The latest instant that the limiter has read off its clock.
    pub closed spec fn last_reading(&self) -> u64 {
        self.last_reading
    }

    /// A limiter that has seen no key.
    pub fn new(config: S::Config) -> (l: Self)
        requires
            S::usable(config),
        ensures
            l.valid(),
            l.config() == config,
            l.states() == Map::<Seq<char>, S::Model>::empty(),
            l.last_reading() == 0,
    {
        let l = KeyedLimiter {
            config,
            clock: Clock::start(),
            last_reading: 0,
            states: KeyedMap::new(),
        };
        assert(l.states() =~= Map::<Seq<char>, S::Model>::empty());
        l
    }

    /// Moves on to the reading `shown` of the clock, or stays at the one before
    /// if that is later.
    pub fn advance(&mut self, shown: u64) -> (now: u64)
        ensures
            now == if shown > old(self).last_reading() {
                shown
            } else {
                old(self).last_reading()
            },
            final(self).last_reading() == now,
            final(self).config() == old(self).config(),
            final(self).states() == old(self).states(),
            final(self).valid() == old(self).valid(),
    {
        if shown > self.last_reading {
            self.last_reading = shown;
        }
        self.last_reading
    }

    /// The instant of the call: the reading of the clock, or the one before if
    /// that is later. Instants do not go back.
    pub fn now(&mut self) -> (now: u64)
        ensures
            now >= old(self).last_reading(),
            final(self).last_reading() == now,
            final(self).config() == old(self).config(),
            final(self).states() == old(self).states(),
            final(self).valid() == old(self).valid(),
    {
        let shown: u64 = self.clock.now();
        self.advance(shown)
    }
}

impl<S: KeyState> RateLimiter for KeyedLimiter<S> {
    /// Usable parameters and states that are in order.
    closed spec fn valid(&self) -> bool {
        &&& S::usable(self.config)
        &&& self.states.valid()
        &&& forall|k: Seq<char>| #[trigger]
            self.states@.contains_key(k) ==> self.states@[k].valid(self.config)
    }

    open spec fn behaviour(&self) -> Behaviour {
        keyed_behaviour::<S>(self.config(), self.states())
    }

    open spec fn kind(&self) -> Algorithm {
        S::kind()
    }

    fn check_n_at(&mut self, key: &str, n: u64, now: u64) -> (r: RateLimitResult)
        ensures
            final(self).config() == old(self).config(),
            check_step::<S>(
                old(self).config(),
                old(self).states(),
                key@,
                n,
                now,
                final(self).states(),
                r,
            ),
            r.informative(S::limit(old(self).config()), S::kind()),
            final(self).last_reading() == old(self).last_reading(),
    {
        let r = match self.states.get_mut(key) {
            Some(state) => state.check_n(&self.config, n, now),
            None => {
                let mut state = S::start(&self.config, now);
                let r = state.check_n(&self.config, n, now);
                self.states.insert_new(key, state);
                r
            },
        };
        proof {
            let call = Call::Check { key: key@, n, now };
            assert(self.states() =~= step::<S>(old(self).config(), old(self).states(), call));
            lemma_keyed_behaviour::<S>(old(self).config(), old(self).states(), call);
        }
        r
    }

    fn check_n(&mut self, key: &str, n: u64) -> (r: RateLimitResult)
        ensures
            final(self).config() == old(self).config(),
            check_step::<S>(
                old(self).config(),
                old(self).states(),
                key@,
                n,
                final(self).last_reading(),
                final(self).states(),
                r,
            ),
            r == answer(old(self).behaviour(), key@, n, final(self).last_reading()),
            final(self).behaviour() == after(
                old(self).behaviour(),
                Call::Check { key: key@, n, now: final(self).last_reading() },
            ),
            r.informative(S::limit(old(self).config()), S::kind()),
            final(self).last_reading() >= old(self).last_reading(),
    {
        let now: u64 = self.now();
        self.check_n_at(key, n, now)
    }

    fn check(&mut self, key: &str) -> (r: RateLimitResult)
        ensures
            final(self).config() == old(self).config(),
            check_step::<S>(
                old(self).config(),
                old(self).states(),
                key@,
                1,
                final(self).last_reading(),
                final(self).states(),
                r,
            ),
            r == answer(old(self).behaviour(), key@, 1, final(self).last_reading()),
            final(self).behaviour() == after(
                old(self).behaviour(),
                Call::Check { key: key@, n: 1, now: final(self).last_reading() },
            ),
            r.informative(S::limit(old(self).config()), S::kind()),
            final(self).last_reading() >= old(self).last_reading(),
    {
        self.check_n(key, 1)
    }

    fn reset(&mut self, key: &str)
        ensures
            final(self).config() == old(self).config(),
            final(self).states() == old(self).states().remove(key@),
            final(self).last_reading() == old(self).last_reading(),
    {
        self.states.remove(key);
        proof {
            assert(self.states() =~= old(self).states().remove(key@));
            lemma_keyed_behaviour::<S>(
                old(self).config(),
                old(self).states(),
                Call::Reset { key: key@ },
            );
        }
    }

    fn algorithm(&self) -> (a: Algorithm) {
        S::algorithm()
    }
}

} // verus!
