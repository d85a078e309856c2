//! What is observed of a request and of the client it comes from.
use crate::binary64::Binary64;
use crate::chooser::limiter::RequestContext;
use dashmap::DashMap;
use std::collections::VecDeque;
use vstd::prelude::*;

verus! {

/// Number of features of a request.
pub const FEATURE_DIM: usize = 7;

/// Samples without which no burst coefficient is computed.
pub const MIN_BURST_SAMPLES: usize = 10;

/// Tunable parameters of the feature extractor.
#[derive(Clone, Copy, Debug, PartialEq)]
#[non_exhaustive]
pub struct FeatureConfig {
    /// Requests per second that count as full load.
    pub rate_ceiling: Binary64,
    /// Requests in flight that count as full load.
    pub max_concurrency: Binary64,
}

impl FeatureConfig {
    /// The default parameters: 1000.0 and 100.0.
    pub open spec fn default_spec() -> Self {
        FeatureConfig {
            rate_ceiling: Binary64 { bits: 0x408F_4000_0000_0000 },
            max_concurrency: Binary64 { bits: 0x4059_0000_0000_0000 },
        }
    }

    /// Builds a configuration from its parts.
    pub fn with(rate_ceiling: Binary64, max_concurrency: Binary64) -> (c: Self)
        ensures
            c == (FeatureConfig { rate_ceiling, max_concurrency }),
    {
        FeatureConfig { rate_ceiling, max_concurrency }
    }
}

impl Default for FeatureConfig {
    fn default() -> (c: Self)
        ensures
            c == FeatureConfig::default_spec(),
    {
        FeatureConfig {
            rate_ceiling: Binary64 { bits: 0x408F_4000_0000_0000 },
            max_concurrency: Binary64 { bits: 0x4059_0000_0000_0000 },
        }
    }
}

/// The instant one second before `timestamp_ns`, or the first of all.
pub open spec fn second_before(timestamp_ns: u64) -> nat {
    if timestamp_ns >= 1_000_000_000 {
        (timestamp_ns - 1_000_000_000) as nat
    } else {
        0
    }
}

/// The timestamps without those at the front that are earlier than `cutoff`.
pub open spec fn trimmed(times: Seq<u64>, cutoff: nat) -> Seq<u64>
    decreases times.len(),
{
    if times.len() > 0 && times[0] < cutoff {
        trimmed(times.skip(1), cutoff)
    } else {
        times
    }
}

/// The timestamps of a client after a request at `timestamp_ns`.
pub open spec fn times_after(times: Seq<u64>, timestamp_ns: u64) -> Seq<u64> {
    trimmed(times.push(timestamp_ns), second_before(timestamp_ns))
}

/// How many of the timestamps are not earlier than `cutoff`.
pub open spec fn count_since(times: Seq<u64>, cutoff: nat) -> nat
    decreases times.len(),
{
    if times.len() == 0 {
        0
    } else {
        count_since(times.drop_last(), cutoff) + if times.last() >= cutoff {
            1nat
        } else {
            0
        }
    }
}

/// The time between one request and the next, or none if the next bears the
/// earlier timestamp.
pub open spec fn gaps_of(times: Seq<u64>) -> Seq<u64> {
    Seq::new(
        (times.len() - 1) as nat,
        |i: int|
            if times[i + 1] >= times[i] {
                (times[i + 1] - times[i]) as u64
            } else {
                0
            },
    )
}

/// Whether the timestamps give a burst coefficient: there are enough of
/// them, and they are not all the same moment.
pub open spec fn measurable(times: Seq<u64>) -> bool {
    &&& times.len() >= MIN_BURST_SAMPLES
    &&& exists|i: int| 0 <= i < gaps_of(times).len() && #[trigger] gaps_of(times)[i] > 0
}

/// The minute of the day, in universal time.
pub open spec fn minute_of(timestamp_ns: u64) -> nat {
    (timestamp_ns as nat / 60_000_000_000) % 1440
}

/// Recent requests of one client.
#[derive(Debug)]
pub struct ClientState {
    timestamps: VecDeque<u64>,
}

impl ClientState {
    /// The timestamps of the requests, in the order in which they came.
    pub closed spec fn times(&self) -> Seq<u64> {
        self.timestamps@
    }

    /// A client without requests.
    fn new() -> (s: Self)
        ensures
            s.times() == Seq::<u64>::empty(),
    {
        ClientState { timestamps: VecDeque::new() }
    }

    /// Records a request and forgets those at the front that are more than
    /// a second older.
    fn record(&mut self, timestamp_ns: u64)
        ensures
            final(self).times() == times_after(old(self).times(), timestamp_ns),
    {
        self.timestamps.push_back(timestamp_ns);
        let one_sec_ago: u64 = timestamp_ns.saturating_sub(1_000_000_000);
        let ghost all = self.timestamps@;
        while self.timestamps.len() > 0
            invariant_except_break
                trimmed(self.timestamps@, one_sec_ago as nat) == trimmed(all, one_sec_ago as nat),
            ensures
                self.timestamps@ == trimmed(all, one_sec_ago as nat),
            decreases self.timestamps@.len(),
        {
            if self.timestamps[0] < one_sec_ago {
                let ghost before = self.timestamps@;
                let _ = self.timestamps.pop_front();
                assert(before.skip(1) =~= self.timestamps@);
            } else {
                break;
            }
        }
    }

    /// Requests in the second that ends with `timestamp_ns`.
    fn rate_1s(&self, timestamp_ns: u64) -> (n: u64)
        ensures
            n == count_since(self.times(), second_before(timestamp_ns)),
    {
        let one_sec_ago: u64 = timestamp_ns.saturating_sub(1_000_000_000);
        let mut n: u64 = 0;
        let mut i: usize = 0;
        while i < self.timestamps.len()
            invariant
                i <= self.timestamps@.len(),
                n <= i,
                n == count_since(self.timestamps@.take(i as int), one_sec_ago as nat),
            decreases self.timestamps@.len() - i,
        {
            assert(self.timestamps@.take(i + 1).drop_last() =~= self.timestamps@.take(i as int));
            if self.timestamps[i] >= one_sec_ago {
                n = n + 1;
            }
            i = i + 1;
        }
        assert(self.timestamps@.take(i as int) =~= self.timestamps@);
        n
    }

    /// The times between requests, from which the burst coefficient is
    /// computed, or nothing if there is none to compute.
    fn burst_gaps(&self) -> (gaps: Option<Vec<u64>>)
        ensures
            match gaps {
                Some(g) => measurable(self.times()) && g@ == gaps_of(self.times()),
                None => !measurable(self.times()),
            },
    {
        if self.timestamps.len() < MIN_BURST_SAMPLES {
            return None;
        }
        let mut gaps: Vec<u64> = Vec::new();
        let mut moved: bool = false;
        let mut i: usize = 1;
        while i < self.timestamps.len()
            invariant
                1 <= i <= self.timestamps@.len(),
                gaps@.len() == i - 1,
                forall|j: int| 0 <= j < i - 1 ==> #[trigger] gaps@[j] == gaps_of(self.timestamps@)[j],
                moved <==> exists|j: int| 0 <= j < i - 1 && #[trigger] gaps@[j] > 0,
            decreases self.timestamps@.len() - i,
        {
            let gap: u64 = self.timestamps[i].saturating_sub(self.timestamps[i - 1]);
            let ghost before = gaps@;
            gaps.push(gap);
            proof {
                if exists|j: int| 0 <= j < i - 1 && #[trigger] before[j] > 0 {
                    let j = choose|j: int| 0 <= j < i - 1 && #[trigger] before[j] > 0;
                    assert(gaps@[j] > 0);
                }
                if gap > 0 {
                    assert(gaps@[i - 1] > 0);
                }
            }
            if gap > 0 {
                moved = true;
            }
            i = i + 1;
        }
        assert(gaps@ =~= gaps_of(self.timestamps@));
        if moved {
            Some(gaps)
        } else {
            None
        }
    }
}

/// The concurrent map of the `dashmap` crate. Verus sees nothing of what is
/// inside.
#[verifier::external_type_specification]
#[verifier::external_body]
#[verifier::reject_recursive_types(K)]
#[verifier::reject_recursive_types(V)]
#[verifier::reject_recursive_types(S)]
pub struct ExDashMap<K, V, S>(dashmap::DashMap<K, V, S>);

/// The keys of a map from client numbers to timestamps, and the timestamps
/// of each.
pub uninterp spec fn contents(map: DashMap<u64, VecDeque<u64>>) -> Map<u64, Seq<u64>>;

/// Calls `DashMap::new`, which makes a map without keys.
#[verifier::external_body]
fn dashmap_new() -> (map: DashMap<u64, VecDeque<u64>>)
    ensures
        (contents(map) == Map::<u64, Seq<u64>>::empty()),
{
    DashMap::new()
}

/// Calls `DashMap::remove`, which takes a key out of the map and returns
/// what it held, or nothing if it was not there. Nobody else can hold a
/// reference into the map, which is borrowed mutably.
#[verifier::external_body]
fn dashmap_remove(map: &mut DashMap<u64, VecDeque<u64>>, key: u64) -> (r: Option<VecDeque<u64>>)
    ensures
        contents(*final(map)) == contents(*old(map)).remove(key),
        match r {
            Some(times) => contents(*old(map)).contains_key(key) && times@ == contents(
                *old(map),
            )[key],
            None => !contents(*old(map)).contains_key(key),
        },
{
    map.remove(&key).map(|entry| entry.1)
}

/// Calls `DashMap::insert`, which gives a key a value and returns the value
/// that it had before, or nothing if it had none. Nobody else can hold a
/// reference into the map, which is borrowed mutably.
#[verifier::external_body]
fn dashmap_insert(
    map: &mut DashMap<u64, VecDeque<u64>>,
    key: u64,
    times: VecDeque<u64>,
) -> (r: Option<VecDeque<u64>>)
    ensures
        contents(*final(map)) == contents(*old(map)).insert(key, times@),
        match r {
            Some(prior) => contents(*old(map)).contains_key(key) && prior@ == contents(
                *old(map),
            )[key],
            None => !contents(*old(map)).contains_key(key),
        },
{
    map.insert(key, times)
}

/// What is observed of a request: the quantities that the features of the
/// request are scaled from.
#[derive(Debug)]
pub struct Observation {
    /// Requests of the client in the last second, with this one.
    pub requests_last_second: u64,
    /// Times between the recent requests of the client, in nanoseconds, if
    /// there is a burst coefficient to be computed from them.
    pub burst_gaps: Option<Vec<u64>>,
    /// Requests in flight.
    pub in_flight: u64,
    /// The class of the client as a number.
    pub client_class: Binary64,
    /// The minute of the day.
    pub minute_of_day: u64,
    /// The hash of the endpoint.
    pub endpoint_hash: u64,
}

/// Whether `o` is what is observed of a request of a client whose recent
/// requests, with this one, bear the timestamps `times`.
pub open spec fn observed(times: Seq<u64>, ctx: RequestContext, o: Observation) -> bool {
    &&& o.requests_last_second == count_since(times, second_before(ctx.timestamp_ns))
    &&& match o.burst_gaps {
        Some(gaps) => measurable(times) && gaps@ == gaps_of(times),
        None => !measurable(times),
    }
    &&& o.in_flight == ctx.in_flight
    &&& o.client_class == ctx.client_class.ordinal_spec()
    &&& o.minute_of_day == minute_of(ctx.timestamp_ns)
    &&& o.endpoint_hash == ctx.endpoint_hash
}

/// The timestamps of a client, which are none for one that is not known.
pub open spec fn times_of(clients: Map<u64, Seq<u64>>, client_id: u64) -> Seq<u64> {
    if clients.contains_key(client_id) {
        clients[client_id]
    } else {
        Seq::empty()
    }
}

/// Observes requests and remembers the recent ones of each client.
#[derive(Debug)]
pub struct FeatureExtractor {
    config: FeatureConfig,
    client_states: DashMap<u64, VecDeque<u64>>,
}

impl FeatureExtractor {
    /// The parameters.
    pub closed spec fn parameters(&self) -> FeatureConfig {
        self.config
    }

    /// The clients that are known, and the timestamps of each.
    pub closed spec fn clients(&self) -> Map<u64, Seq<u64>> {
        contents(self.client_states)
    }

    /// An extractor that knows no client.
    pub fn new(config: FeatureConfig) -> (f: Self)
        ensures
            f.parameters() == config,
            f.clients() == Map::<u64, Seq<u64>>::empty(),
    {
        FeatureExtractor { config, client_states: dashmap_new() }
    }

    /// The parameters.
    pub fn config(&self) -> (c: FeatureConfig)
        ensures
            c == self.parameters(),
    {
        self.config
    }

    /// Records a request and says what is observed of it.
    pub fn extract(&mut self, ctx: &RequestContext) -> (o: Observation)
        ensures
            final(self).parameters() == old(self).parameters(),
            final(self).clients() == clients_after(old(self).clients(), *ctx),
            observed(
                times_after(times_of(old(self).clients(), ctx.client_id), ctx.timestamp_ns),
                *ctx,
                o,
            ),
    {
        let mut state = match dashmap_remove(&mut self.client_states, ctx.client_id) {
            Some(timestamps) => ClientState { timestamps },
            None => ClientState::new(),
        };
        state.record(ctx.timestamp_ns);
        let requests_last_second = state.rate_1s(ctx.timestamp_ns);
        let burst_gaps = state.burst_gaps();
        let _ = dashmap_insert(&mut self.client_states, ctx.client_id, state.timestamps);
        assert(self.clients() =~= clients_after(old(self).clients(), *ctx));
        Observation {
            requests_last_second,
            burst_gaps,
            in_flight: ctx.in_flight,
            client_class: ctx.client_class.ordinal(),
            minute_of_day: (ctx.timestamp_ns / 60_000_000_000) % 1440,
            endpoint_hash: ctx.endpoint_hash,
        }
    }

    /// Forgets a client.
    pub fn reset(&mut self, client_id: u64)
        ensures
            final(self).parameters() == old(self).parameters(),
            final(self).clients() == old(self).clients().remove(client_id),
    {
        let _ = dashmap_remove(&mut self.client_states, client_id);
    }
}

/// The clients and their timestamps after a request.
pub open spec fn clients_after(
    clients: Map<u64, Seq<u64>>,
    ctx: RequestContext,
) -> Map<u64, Seq<u64>> {
    clients.insert(
        ctx.client_id,
        times_after(times_of(clients, ctx.client_id), ctx.timestamp_ns),
    )
}

/// The clients and their timestamps after some requests.
pub open spec fn clients_after_all(
    clients: Map<u64, Seq<u64>>,
    requests: Seq<RequestContext>,
) -> Map<u64, Seq<u64>>
    decreases requests.len(),
{
    if requests.len() == 0 {
        clients
    } else {
        clients_after(clients_after_all(clients, requests.drop_last()), requests.last())
    }
}

/// The timestamps of one client after its requests among `requests`.
pub open spec fn times_after_all(
    times: Seq<u64>,
    client_id: u64,
    requests: Seq<RequestContext>,
) -> Seq<u64>
    decreases requests.len(),
{
    if requests.len() == 0 {
        times
    } else {
        let before = times_after_all(times, client_id, requests.drop_last());
        if requests.last().client_id == client_id {
            times_after(before, requests.last().timestamp_ns)
        } else {
            before
        }
    }
}

/// What is remembered of a client depends on its own requests alone.
pub proof fn clients_are_independent(
    clients: Map<u64, Seq<u64>>,
    client_id: u64,
    requests: Seq<RequestContext>,
)
    ensures
        times_of(clients_after_all(clients, requests), client_id) == times_after_all(
            times_of(clients, client_id),
            client_id,
            requests,
        ),
    decreases requests.len(),
{
    if requests.len() > 0 {
        clients_are_independent(clients, client_id, requests.drop_last());
    }
}

/// A client that was forgotten is observed as one that was never seen, and
/// no other client is forgotten with it.
pub proof fn reset_forgets_one_client(clients: Map<u64, Seq<u64>>, client_id: u64, other: u64)
    ensures
        times_of(clients.remove(client_id), client_id) == Seq::<u64>::empty(),
        other != client_id ==> times_of(clients.remove(client_id), other) == times_of(
            clients,
            other,
        ),
{
}

/// Forgetting old requests does not change how many fall into the last
/// second.
pub proof fn recent_requests_are_counted(times: Seq<u64>, timestamp_ns: u64)
    ensures
        count_since(times_after(times, timestamp_ns), second_before(timestamp_ns))
            == count_since(times.push(timestamp_ns), second_before(timestamp_ns)),
        count_since(times_after(times, timestamp_ns), second_before(timestamp_ns)) >= 1,
{
    let all = times.push(timestamp_ns);
    lemma_trimmed_count(all, second_before(timestamp_ns));
    assert(all.last() == timestamp_ns);
}

/// Of a client whose timestamps do not decrease, the requests of the last
/// second are remembered and no others.
pub proof fn old_requests_are_forgotten(times: Seq<u64>, timestamp_ns: u64)
    requires
        forall|i: int, j: int| 0 <= i <= j < times.len() ==> times[i] <= times[j],
        forall|i: int| 0 <= i < times.len() ==> times[i] <= timestamp_ns,
    ensures
        times_after(times, timestamp_ns).len() == count_since(
            times.push(timestamp_ns),
            second_before(timestamp_ns),
        ),
        forall|i: int|
            0 <= i < times_after(times, timestamp_ns).len() ==> second_before(timestamp_ns)
                <= #[trigger] times_after(times, timestamp_ns)[i] <= timestamp_ns,
{
    let cutoff = second_before(timestamp_ns);
    let all = times.push(timestamp_ns);
    recent_requests_are_counted(times, timestamp_ns);
    lemma_trimmed_sorted(all, cutoff);
    lemma_count_all(trimmed(all, cutoff), cutoff);
}

/// A timestamp and the same time on another day are the same minute of the
/// day.
pub proof fn time_of_day_wraps(timestamp_ns: u64, later_ns: u64, days: nat)
    requires
        later_ns == timestamp_ns + days * 86_400_000_000_000,
    ensures
        minute_of(later_ns) == minute_of(timestamp_ns),
        minute_of(timestamp_ns) < 1440,
{
    let minutes = timestamp_ns as int / 60_000_000_000;
    assert(later_ns as int / 60_000_000_000 == minutes + days * 1440);
    vstd::arithmetic::div_mod::lemma_mod_multiples_vanish(days as int, minutes, 1440);
    assert(1440 * days + minutes == minutes + days * 1440);
}

proof fn lemma_trimmed_count(times: Seq<u64>, cutoff: nat)
    ensures
        count_since(trimmed(times, cutoff), cutoff) == count_since(times, cutoff),
    decreases times.len(),
{
    if times.len() > 0 && times[0] < cutoff {
        lemma_trimmed_count(times.skip(1), cutoff);
        lemma_count_front(times, cutoff);
    }
}

proof fn lemma_count_front(times: Seq<u64>, cutoff: nat)
    requires
        times.len() > 0,
        times[0] < cutoff,
    ensures
        count_since(times.skip(1), cutoff) == count_since(times, cutoff),
    decreases times.len(),
{
    if times.len() == 1 {
        assert(count_since(times.drop_last(), cutoff) == 0);
        assert(count_since(times.skip(1), cutoff) == 0);
    } else {
        lemma_count_front(times.drop_last(), cutoff);
        assert(times.skip(1).drop_last() =~= times.drop_last().skip(1));
        assert(times.skip(1).last() == times.last());
    }
}

proof fn lemma_trimmed_sorted(times: Seq<u64>, cutoff: nat)
    requires
        forall|i: int, j: int| 0 <= i <= j < times.len() ==> times[i] <= times[j],
    ensures
        forall|i: int|
            0 <= i < trimmed(times, cutoff).len() ==> cutoff <= #[trigger] trimmed(times, cutoff)[i]
                && (times.len() > 0 && trimmed(times, cutoff)[i] <= times.last()),
    decreases times.len(),
{
    if times.len() > 0 && times[0] < cutoff {
        assert forall|i: int, j: int| 0 <= i <= j < times.skip(1).len() implies times.skip(1)[i]
            <= times.skip(1)[j] by {
            assert(times[i + 1] <= times[j + 1]);
        }
        lemma_trimmed_sorted(times.skip(1), cutoff);
        let kept = trimmed(times.skip(1), cutoff);
        assert(trimmed(times, cutoff) == kept);
        assert forall|i: int| 0 <= i < kept.len() implies cutoff <= #[trigger] kept[i]
            <= times.last() by {
            assert(times.skip(1).last() == times.last());
        }
    } else if times.len() > 0 {
        assert(trimmed(times, cutoff) == times);
        assert forall|i: int| 0 <= i < times.len() implies cutoff <= #[trigger] times[i]
            <= times.last() by {
            assert(times[0] <= times[i]);
            assert(times[i] <= times[times.len() - 1]);
        }
    }
}

proof fn lemma_count_all(times: Seq<u64>, cutoff: nat)
    requires
        forall|i: int| 0 <= i < times.len() ==> times[i] >= cutoff,
    ensures
        count_since(times, cutoff) == times.len(),
    decreases times.len(),
{
    if times.len() > 0 {
        lemma_count_all(times.drop_last(), cutoff);
    }
}

/// A request is remembered after those that came before, without those at the
/// front that are more than a second older.
pub proof fn requests_are_remembered(times: Seq<u64>, timestamp_ns: u64)
    ensures
        ({
            let all = times.push(timestamp_ns);
            let kept = times_after(times, timestamp_ns);
            &&& 0 < kept.len() <= all.len()
            &&& kept == all.skip(all.len() - kept.len())
            &&& forall|i: int|
                0 <= i < all.len() - kept.len() ==> #[trigger] all[i] + 1_000_000_000
                    < timestamp_ns
            &&& kept[0] + 1_000_000_000 >= timestamp_ns
        }),
{
    let all = times.push(timestamp_ns);
    let cutoff = second_before(timestamp_ns);
    lemma_trimmed_front(all, cutoff);
    let kept = trimmed(all, cutoff);
    if kept.len() == 0 {
        assert(all[all.len() - 1] < cutoff);
    }
}

proof fn lemma_trimmed_front(times: Seq<u64>, cutoff: nat)
    ensures
        ({
            let kept = trimmed(times, cutoff);
            &&& kept.len() <= times.len()
            &&& kept == times.skip(times.len() - kept.len())
            &&& forall|i: int| 0 <= i < times.len() - kept.len() ==> #[trigger] times[i] < cutoff
            &&& kept.len() > 0 ==> kept[0] >= cutoff
        }),
    decreases times.len(),
{
    if times.len() > 0 && times[0] < cutoff {
        let rest = times.skip(1);
        lemma_trimmed_front(rest, cutoff);
        let kept = trimmed(rest, cutoff);
        assert(rest.skip(rest.len() - kept.len()) =~= times.skip(times.len() - kept.len()));
        assert forall|i: int| 0 <= i < times.len() - kept.len() implies #[trigger] times[i]
            < cutoff by {
            if i > 0 {
                assert(times[i] == rest[i - 1]);
            }
        }
    } else {
        assert(times.skip(0) =~= times);
    }
}

/// What is observed of a request. The requests of the last second are those that
/// are at most a second older. The gaps lead from each request to the next. They
/// are there from ten requests on, unless no request is later than the one before
/// it. The minute is that of the day. The rest is as in the request.
pub proof fn observations_are_faithful(times: Seq<u64>, ctx: RequestContext, o: Observation)
    requires
        observed(times, ctx, o),
    ensures
        o.requests_last_second == times.filter(
            |t: u64| t + 1_000_000_000 >= ctx.timestamp_ns,
        ).len(),
        o.burst_gaps is Some <==> times.len() >= 10 && exists|i: int|
            0 <= i < times.len() - 1 && #[trigger] times[i] < times[i + 1],
        match o.burst_gaps {
            Some(gaps) => {
                &&& gaps@.len() + 1 == times.len()
                &&& forall|i: int|
                    0 <= i < gaps@.len() ==> if times[i] <= times[i + 1] {
                        times[i] + #[trigger] gaps@[i] == times[i + 1]
                    } else {
                        gaps@[i] == 0
                    }
            },
            None => true,
        },
        o.minute_of_day < 1440,
        ({
            let today = ctx.timestamp_ns as int - (ctx.timestamp_ns as int / 86_400_000_000_000)
                * 86_400_000_000_000;
            o.minute_of_day * 60_000_000_000 <= today < (o.minute_of_day + 1) * 60_000_000_000
        }),
        o.in_flight == ctx.in_flight,
        o.endpoint_hash == ctx.endpoint_hash,
        ctx.client_class is ApiKey ==> o.client_class.bits == 0,
        ctx.client_class is Internal ==> o.client_class.bits == 0x3FE0_0000_0000_0000,
        ctx.client_class is Anonymous ==> o.client_class.bits == 0x3FF0_0000_0000_0000,
{
    lemma_count_is_filter(times, ctx.timestamp_ns);
    let gaps = gaps_of(times);
    if times.len() >= 10 {
        if exists|i: int| 0 <= i < times.len() - 1 && #[trigger] times[i] < times[i + 1] {
            let i = choose|i: int| 0 <= i < times.len() - 1 && #[trigger] times[i] < times[i + 1];
            assert(gaps[i] > 0);
        }
        if exists|i: int| 0 <= i < gaps.len() && #[trigger] gaps[i] > 0 {
            let i = choose|i: int| 0 <= i < gaps.len() && #[trigger] gaps[i] > 0;
            assert(times[i] < times[i + 1]);
        }
    }
    let ts = ctx.timestamp_ns as int;
    let minutes = ts / 60_000_000_000;
    let days = ts / 86_400_000_000_000;
    assert(days == minutes / 1440);
}

proof fn lemma_count_is_filter(times: Seq<u64>, timestamp_ns: u64)
    ensures
        count_since(times, second_before(timestamp_ns)) == times.filter(
            |t: u64| t + 1_000_000_000 >= timestamp_ns,
        ).len(),
    decreases times.len(),
{
    reveal(Seq::filter);
    if times.len() > 0 {
        lemma_count_is_filter(times.drop_last(), timestamp_ns);
    }
}

/// A request touches what is remembered of its own client alone.
pub proof fn requests_touch_one_client(
    clients: Map<u64, Seq<u64>>,
    ctx: RequestContext,
    other: u64,
)
    ensures
        ({
            let then = clients_after(clients, ctx);
            let before = if clients.contains_key(ctx.client_id) {
                clients[ctx.client_id]
            } else {
                Seq::empty()
            };
            &&& then.contains_key(ctx.client_id)
            &&& then[ctx.client_id] == times_after(before, ctx.timestamp_ns)
            &&& other != ctx.client_id ==> then.contains_key(other) == clients.contains_key(other)
            &&& other != ctx.client_id && clients.contains_key(other) ==> then[other]
                == clients[other]
        }),
{
}

} // verus!
