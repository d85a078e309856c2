//! Which outcomes the bandit learns from, and when.
//!
//! An outcome waits until somebody says whether the decision was wrong, or
//! until it is so old that nobody will. Either way the bandit is to learn
//! from it once.
use crate::binary64::Binary64;
use crate::chooser::features::FEATURE_DIM;
use crate::chooser::limiter::Decision;
use crate::clock::{elapsed, nanos_between};
use crate::duration::Duration;
use std::collections::HashMap;
use vstd::prelude::*;

verus! {

/// Tunable parameters of the reward.
#[derive(Clone, Copy, Debug, PartialEq)]
#[non_exhaustive]
pub struct RewardConfig {
    /// Reward for a request that was allowed.
    pub goodput_weight: Binary64,
    /// Penalty for a request that should have been allowed.
    pub false_positive_weight: Binary64,
    /// Penalty for a request that should not have been allowed.
    pub false_negative_weight: Binary64,
    /// Penalty for a decision that took as long as the ceiling.
    pub latency_weight: Binary64,
    /// Nanoseconds that count as one unit of latency.
    pub latency_ceiling_ns: Binary64,
    /// How long an outcome waits for a signal.
    pub event_ttl: Duration,
}

impl RewardConfig {
    /// The default parameters: 1.0, 2.0, 3.0, 0.1, ten milliseconds and one
    /// minute.
    pub open spec fn default_spec() -> Self {
        RewardConfig {
            goodput_weight: Binary64 { bits: 0x3FF0_0000_0000_0000 },
            false_positive_weight: Binary64 { bits: 0x4000_0000_0000_0000 },
            false_negative_weight: Binary64 { bits: 0x4008_0000_0000_0000 },
            latency_weight: Binary64 { bits: 0x3FB9_9999_9999_999A },
            latency_ceiling_ns: Binary64 { bits: 0x4163_12D0_0000_0000 },
            event_ttl: Duration { nanos: 60_000_000_000 },
        }
    }

    /// How long to wait between two looks for outcomes that are too old.
    pub fn expire_period(&self) -> (d: Duration)
        ensures
            d.nanos == self.event_ttl.nanos as nat / 10,
    {
        Duration { nanos: self.event_ttl.nanos / 10 }
    }
}

impl Default for RewardConfig {
    fn default() -> (c: Self)
        ensures
            c == RewardConfig::default_spec(),
    {
        RewardConfig {
            goodput_weight: Binary64 { bits: 0x3FF0_0000_0000_0000 },
            false_positive_weight: Binary64 { bits: 0x4000_0000_0000_0000 },
            false_negative_weight: Binary64 { bits: 0x4008_0000_0000_0000 },
            latency_weight: Binary64 { bits: 0x3FB9_9999_9999_999A },
            latency_ceiling_ns: Binary64 { bits: 0x4163_12D0_0000_0000 },
            event_ttl: Duration { nanos: 60_000_000_000 },
        }
    }
}

/// The outcome of one decision.
#[derive(Clone, Copy, Debug)]
pub struct RewardEvent {
    /// Number of the outcome.
    pub event_id: u64,
    /// The arm that decided.
    pub arm_idx: usize,
    /// The features of the request.
    pub context: [Binary64; FEATURE_DIM],
    /// What was decided.
    pub decision: Decision,
    /// How long it took.
    pub latency_ns: u64,
    /// Whether the request should have been allowed, if that is known.
    pub false_positive: Option<bool>,
    /// Whether the request should not have been allowed, if that is known.
    pub false_negative: Option<bool>,
}

/// What the reward of an outcome is computed from.
#[derive(Clone, Copy, Debug, PartialEq, Eq, Structural)]
pub struct RewardTerms {
    /// The request was allowed.
    pub goodput: bool,
    /// The request should have been allowed.
    pub false_positive: bool,
    /// The request should not have been allowed.
    pub false_negative: bool,
    /// How long the decision took.
    pub latency_ns: u64,
}

impl RewardEvent {
    /// What the reward is computed from. What is not known to be wrong counts
    /// as right.
    pub fn reward_terms(&self) -> (t: RewardTerms)
        ensures
            t.goodput == (self.decision is Allow),
            t.false_positive == (self.false_positive == Some(true)),
            t.false_negative == (self.false_negative == Some(true)),
            t.latency_ns == self.latency_ns,
    {
        RewardTerms {
            goodput: self.decision.is_allowed(),
            false_positive: match self.false_positive {
                Some(b) => b,
                None => false,
            },
            false_negative: match self.false_negative {
                Some(b) => b,
                None => false,
            },
            latency_ns: self.latency_ns,
        }
    }
}

/// An outcome that waits.
#[derive(Clone, Copy, Debug)]
pub struct PendingEvent {
    pub event: RewardEvent,
    /// When the outcome arrived.
    pub created_at: u64,
}

/// A place in the order in which outcomes grow old.
#[derive(Clone, Copy, Debug, PartialEq, Eq, Structural)]
pub struct Slot {
    /// When the outcome arrived.
    pub created_at: u64,
    /// Number of the outcome.
    pub event_id: u64,
}

impl Slot {
    /// Whether this slot comes before another one.
    pub open spec fn before(self, other: Slot) -> bool {
        self.created_at < other.created_at || (self.created_at == other.created_at
            && self.event_id < other.event_id)
    }

    /// Whether the outcome has waited for `ttl` nanoseconds.
    pub open spec fn due(self, now: u64, ttl: nat) -> bool {
        elapsed(self.created_at as nat, now as nat) >= ttl
    }

    /// Whether this slot comes before another one.
    fn is_before(&self, other: &Slot) -> (b: bool)
        ensures
            b == self.before(*other),
    {
        self.created_at < other.created_at || (self.created_at == other.created_at
            && self.event_id < other.event_id)
    }
}

/// The outcomes that wait, by number, and the order in which they grow old.
#[verifier::ext_equal]
pub struct Ledger {
    pub held: Map<u64, PendingEvent>,
    pub slots: Seq<Slot>,
}

impl Ledger {
    /// Nothing waits.
    pub open spec fn empty() -> Ledger {
        Ledger { held: Map::empty(), slots: Seq::empty() }
    }

    /// The slots are in order, and every outcome that waits has one.
    pub open spec fn valid(self) -> bool {
        &&& in_order(self.slots)
        &&& forall|id: u64| #[trigger]
            self.held.contains_key(id) ==> self.held[id].event.event_id == id
                && self.slots.contains(Slot { created_at: self.held[id].created_at, event_id: id })
    }
}

/// Every slot comes before those that follow it.
pub open spec fn in_order(slots: Seq<Slot>) -> bool {
    forall|i: int, j: int| 0 <= i < j < slots.len() ==> (#[trigger] slots[i]).before(
        #[trigger] slots[j],
    )
}

/// The slots with one more, in order.
pub open spec fn with_slot(slots: Seq<Slot>, slot: Slot) -> Seq<Slot>
    decreases slots.len(),
{
    if slots.len() == 0 || slots.last().before(slot) {
        slots.push(slot)
    } else if slots.last() == slot {
        slots
    } else {
        with_slot(slots.drop_last(), slot).push(slots.last())
    }
}

/// The slots without `slot`.
pub open spec fn without_slot(slots: Seq<Slot>, slot: Slot) -> Seq<Slot> {
    slots.filter(|s: Slot| s != slot)
}

/// The ledger after an outcome has arrived.
pub open spec fn posted(ledger: Ledger, event: RewardEvent, now: u64) -> Ledger {
    Ledger {
        held: ledger.held.insert(event.event_id, PendingEvent { event, created_at: now }),
        slots: with_slot(ledger.slots, Slot { created_at: now, event_id: event.event_id }),
    }
}

/// The ledger after somebody has spoken about an outcome.
pub open spec fn claimed(ledger: Ledger, event_id: u64) -> Ledger {
    if ledger.held.contains_key(event_id) {
        Ledger {
            held: ledger.held.remove(event_id),
            slots: without_slot(
                ledger.slots,
                Slot { created_at: ledger.held[event_id].created_at, event_id },
            ),
        }
    } else {
        ledger
    }
}

/// The outcome once it is known whether the request should have been
/// allowed.
pub open spec fn judged_positive(event: RewardEvent, is_fp: bool) -> RewardEvent {
    RewardEvent { false_positive: Some(is_fp), ..event }
}

/// The outcome once it is known whether the request should not have been
/// allowed.
pub open spec fn judged_negative(event: RewardEvent, is_fn: bool) -> RewardEvent {
    RewardEvent { false_negative: Some(is_fn), ..event }
}

/// The outcome once nobody will speak about it: what is not known to be
/// wrong is right.
pub open spec fn timed_out(event: RewardEvent) -> RewardEvent {
    RewardEvent {
        false_positive: Some(event.false_positive.unwrap_or(false)),
        false_negative: Some(event.false_negative.unwrap_or(false)),
        ..event
    }
}

/// The slots of outcomes that have waited long enough.
pub open spec fn due_slots(slots: Seq<Slot>, now: u64, ttl: nat) -> Seq<Slot> {
    slots.filter(|s: Slot| s.due(now, ttl))
}

/// The slots of outcomes that have not waited long enough.
pub open spec fn young_slots(slots: Seq<Slot>, now: u64, ttl: nat) -> Seq<Slot> {
    slots.filter(|s: Slot| !s.due(now, ttl))
}

/// The numbers in some slots.
pub open spec fn ids_of(slots: Seq<Slot>) -> Set<u64> {
    Set::new(|id: u64| exists|i: int| 0 <= i < slots.len() && #[trigger] slots[i].event_id == id)
}

/// The outcomes that wait under the numbers in some slots, in the order of
/// the slots, each of them once.
pub open spec fn taken(slots: Seq<Slot>, held: Map<u64, PendingEvent>) -> Seq<RewardEvent>
    decreases slots.len(),
{
    if slots.len() == 0 {
        Seq::empty()
    } else {
        let before = taken(slots.drop_last(), held);
        let id = slots.last().event_id;
        if held.contains_key(id) && !ids_of(slots.drop_last()).contains(id) {
            before.push(timed_out(held[id].event))
        } else {
            before
        }
    }
}

/// The ledger without what has waited long enough.
pub open spec fn expired(ledger: Ledger, now: u64, ttl: nat) -> Ledger {
    Ledger {
        held: ledger.held.remove_keys(ids_of(due_slots(ledger.slots, now, ttl))),
        slots: young_slots(ledger.slots, now, ttl),
    }
}

/// What reaches the observer from the chooser.
#[derive(Clone, Copy, Debug)]
pub enum ObserverMessage {
    /// The outcome of a decision.
    Event(RewardEvent),
    /// Whether a request should have been allowed.
    SignalFalsePositive { event_id: u64, is_fp: bool },
    /// Whether a request should not have been allowed.
    SignalFalseNegative { event_id: u64, is_fn: bool },
    /// Nothing more will come.
    Shutdown,
}

/// What an observer reacts to.
#[derive(Clone, Copy, Debug)]
pub enum ObserverInput {
    /// A message.
    Message(ObserverMessage),
    /// Nobody is left to send messages.
    Closed,
    /// It is time to look for outcomes that are too old.
    Tick,
}

impl ObserverInput {
    /// Whether the observer stops.
    pub open spec fn stops(self) -> bool {
        match self {
            ObserverInput::Message(message) => message is Shutdown,
            ObserverInput::Closed => true,
            ObserverInput::Tick => false,
        }
    }

    /// Whether this is the arrival of the outcome with number `id`.
    pub open spec fn brings(self, id: u64) -> bool {
        match self {
            ObserverInput::Message(ObserverMessage::Event(event)) => event.event_id == id,
            _ => false,
        }
    }
}

/// The ledger after the observer has reacted at the instant `now`.
pub open spec fn reacted(ledger: Ledger, input: ObserverInput, now: u64, ttl: nat) -> Ledger {
    match input {
        ObserverInput::Message(message) => match message {
            ObserverMessage::Event(event) => posted(ledger, event, now),
            ObserverMessage::SignalFalsePositive { event_id, .. } => claimed(ledger, event_id),
            ObserverMessage::SignalFalseNegative { event_id, .. } => claimed(ledger, event_id),
            ObserverMessage::Shutdown => ledger,
        },
        ObserverInput::Closed => ledger,
        ObserverInput::Tick => expired(ledger, now, ttl),
    }
}

/// The outcomes that the bandit is to learn from when the observer reacts at
/// the instant `now`.
pub open spec fn learnt(ledger: Ledger, input: ObserverInput, now: u64, ttl: nat) -> Seq<
    RewardEvent,
> {
    match input {
        ObserverInput::Message(message) => match message {
            ObserverMessage::SignalFalsePositive { event_id, is_fp } => if ledger.held.contains_key(
                event_id,
            ) {
                seq![judged_positive(ledger.held[event_id].event, is_fp)]
            } else {
                Seq::empty()
            },
            ObserverMessage::SignalFalseNegative { event_id, is_fn } => if ledger.held.contains_key(
                event_id,
            ) {
                seq![judged_negative(ledger.held[event_id].event, is_fn)]
            } else {
                Seq::empty()
            },
            _ => Seq::empty(),
        },
        ObserverInput::Closed => Seq::empty(),
        ObserverInput::Tick => taken(due_slots(ledger.slots, now, ttl), ledger.held),
    }
}

/// Holds outcomes until the bandit can learn from them.
pub struct RewardObserver {
    config: RewardConfig,
    pending: HashMap<u64, PendingEvent>,
    expiry_index: Vec<Slot>,
}

impl RewardObserver {
    /// The parameters.
    pub closed spec fn parameters(&self) -> RewardConfig {
        self.config
    }

    /// The outcomes that wait.
    pub closed spec fn ledger(&self) -> Ledger {
        Ledger { held: self.pending@, slots: self.expiry_index@ }
    }

    /// An observer with which nothing waits.
    pub fn new(config: RewardConfig) -> (o: Self)
        ensures
            o.parameters() == config,
            o.ledger() == Ledger::empty(),
            o.ledger().valid(),
    {
        let o = RewardObserver { config, pending: HashMap::new(), expiry_index: Vec::new() };
        assert(o.ledger() =~= Ledger::empty());
        o
    }

    /// Puts a slot where it belongs.
    fn insert_slot(&mut self, slot: Slot)
        requires
            in_order(old(self).expiry_index@),
        ensures
            final(self).config == old(self).config,
            final(self).pending == old(self).pending,
            final(self).expiry_index@ == with_slot(old(self).expiry_index@, slot),
    {
        let mut i: usize = self.expiry_index.len();
        while i > 0 && slot.is_before(&self.expiry_index[i - 1])
            invariant
                i <= self.expiry_index@.len(),
                forall|j: int|
                    i <= j < self.expiry_index@.len() ==> slot.before(
                        #[trigger] self.expiry_index@[j],
                    ),
            decreases i,
        {
            i = i - 1;
        }
        proof {
            lemma_with_slot_at(self.expiry_index@, slot, i as int);
        }
        if i == 0 || self.expiry_index[i - 1] != slot {
            self.expiry_index.insert(i, slot);
        }
    }

    /// Takes a slot out.
    fn remove_slot(&mut self, slot: Slot)
        requires
            in_order(old(self).expiry_index@),
        ensures
            final(self).config == old(self).config,
            final(self).pending == old(self).pending,
            final(self).expiry_index@ == without_slot(old(self).expiry_index@, slot),
    {
        let mut i: usize = 0;
        while i < self.expiry_index.len()
            invariant
                *self == *old(self),
                in_order(self.expiry_index@),
                i <= self.expiry_index@.len(),
                forall|j: int| 0 <= j < i ==> #[trigger] self.expiry_index@[j] != slot,
            decreases self.expiry_index@.len() - i,
        {
            if self.expiry_index[i] == slot {
                proof {
                    lemma_without_slot_at(self.expiry_index@, slot, i as int);
                }
                let _ = self.expiry_index.remove(i);
                return;
            }
            i = i + 1;
        }
        proof {
            lemma_without_absent_slot(self.expiry_index@, slot);
        }
    }

    /// Takes in an outcome that arrives at the instant `now`.
    pub fn process_event(&mut self, event: RewardEvent, now: u64)
        requires
            old(self).ledger().valid(),
        ensures
            final(self).parameters() == old(self).parameters(),
            final(self).ledger() == posted(old(self).ledger(), event, now),
            final(self).ledger().valid(),
    {
        proof {
            lemma_posted_valid(self.ledger(), event, now);
        }
        self.insert_slot(Slot { created_at: now, event_id: event.event_id });
        let _ = self.pending.insert(event.event_id, PendingEvent { event, created_at: now });
        assert(self.ledger() =~= posted(old(self).ledger(), event, now));
    }

    /// Takes out the outcome with this number, if it waits.
    fn claim(&mut self, event_id: u64) -> (event: Option<RewardEvent>)
        requires
            old(self).ledger().valid(),
        ensures
            final(self).parameters() == old(self).parameters(),
            final(self).ledger() == claimed(old(self).ledger(), event_id),
            final(self).ledger().valid(),
            match event {
                Some(e) => old(self).ledger().held.contains_key(event_id) && e == old(
                    self,
                ).ledger().held[event_id].event,
                None => !old(self).ledger().held.contains_key(event_id),
            },
    {
        proof {
            lemma_claimed_valid(self.ledger(), event_id);
        }
        match self.pending.remove(&event_id) {
            Some(pending) => {
                self.remove_slot(Slot { created_at: pending.created_at, event_id });
                assert(self.ledger() =~= claimed(old(self).ledger(), event_id));
                Some(pending.event)
            },
            None => {
                assert(self.ledger() =~= old(self).ledger());
                None
            },
        }
    }

    /// Hears whether a request should have been allowed. The outcome that the
    /// bandit is to learn from is returned, if it still waits.
    pub fn signal_false_positive(&mut self, event_id: u64, is_fp: bool) -> (update: Option<
        RewardEvent,
    >)
        requires
            old(self).ledger().valid(),
        ensures
            final(self).parameters() == old(self).parameters(),
            final(self).ledger() == claimed(old(self).ledger(), event_id),
            final(self).ledger().valid(),
            update == if old(self).ledger().held.contains_key(event_id) {
                Some(judged_positive(old(self).ledger().held[event_id].event, is_fp))
            } else {
                None
            },
            match update {
                Some(e) => {
                    let arrived = old(self).ledger().held[event_id].event;
                    &&& old(self).ledger().held.contains_key(event_id)
                    &&& e.false_positive == Some(is_fp)
                    &&& e.event_id == arrived.event_id
                    &&& e.arm_idx == arrived.arm_idx
                    &&& e.context == arrived.context
                    &&& e.decision == arrived.decision
                    &&& e.latency_ns == arrived.latency_ns
                    &&& e.false_negative == arrived.false_negative
                },
                None => !old(self).ledger().held.contains_key(event_id),
            },
            !final(self).ledger().held.contains_key(event_id),
    {
        match self.claim(event_id) {
            Some(mut event) => {
                event.false_positive = Some(is_fp);
                Some(event)
            },
            None => None,
        }
    }

    /// Hears whether a request should not have been allowed. The outcome that
    /// the bandit is to learn from is returned, if it still waits.
    pub fn signal_false_negative(&mut self, event_id: u64, is_fn: bool) -> (update: Option<
        RewardEvent,
    >)
        requires
            old(self).ledger().valid(),
        ensures
            final(self).parameters() == old(self).parameters(),
            final(self).ledger() == claimed(old(self).ledger(), event_id),
            final(self).ledger().valid(),
            update == if old(self).ledger().held.contains_key(event_id) {
                Some(judged_negative(old(self).ledger().held[event_id].event, is_fn))
            } else {
                None
            },
            match update {
                Some(e) => {
                    let arrived = old(self).ledger().held[event_id].event;
                    &&& old(self).ledger().held.contains_key(event_id)
                    &&& e.false_negative == Some(is_fn)
                    &&& e.event_id == arrived.event_id
                    &&& e.arm_idx == arrived.arm_idx
                    &&& e.context == arrived.context
                    &&& e.decision == arrived.decision
                    &&& e.latency_ns == arrived.latency_ns
                    &&& e.false_positive == arrived.false_positive
                },
                None => !old(self).ledger().held.contains_key(event_id),
            },
            !final(self).ledger().held.contains_key(event_id),
    {
        match self.claim(event_id) {
            Some(mut event) => {
                event.false_negative = Some(is_fn);
                Some(event)
            },
            None => None,
        }
    }

    /// Gives up waiting for signals about outcomes that have waited long
    /// enough at the instant `now`. The outcomes that the bandit is to learn
    /// from are returned.
    pub fn expire_old_events(&mut self, now: u64) -> (updates: Vec<RewardEvent>)
        requires
            old(self).ledger().valid(),
        ensures
            final(self).parameters() == old(self).parameters(),
            final(self).ledger() == expired(
                old(self).ledger(),
                now,
                old(self).parameters().event_ttl.nanos as nat,
            ),
            final(self).ledger().valid(),
            updates@ == taken(
                due_slots(
                    old(self).ledger().slots,
                    now,
                    old(self).parameters().event_ttl.nanos as nat,
                ),
                old(self).ledger().held,
            ),
    {
        let ttl: u128 = self.config.event_ttl.nanos;
        let mut updates: Vec<RewardEvent> = Vec::new();
        let mut k: usize = 0;
        let ghost held = self.pending@;
        let ghost slots = self.expiry_index@;
        assert(held =~= held.remove_keys(ids_of(slots.take(0))));
        while k < self.expiry_index.len()
            invariant_except_break
                k <= slots.len(),
            invariant
                self.config == old(self).config,
                self.expiry_index@ == slots,
                ttl == self.config.event_ttl.nanos,
                self.pending@ == held.remove_keys(ids_of(slots.take(k as int))),
                updates@ == taken(slots.take(k as int), held),
                forall|j: int| 0 <= j < k ==> (#[trigger] slots[j]).due(now, ttl as nat),
            ensures
                k <= slots.len(),
                k < slots.len() ==> !slots[k as int].due(now, ttl as nat),
            decreases slots.len() - k,
        {
            let slot = self.expiry_index[k];
            if (nanos_between(slot.created_at, now) as u128) < ttl {
                break;
            }
            proof {
                lemma_ids_of_next(slots, k as int);
                assert(slots.take(k + 1).drop_last() =~= slots.take(k as int));
            }
            let removed = self.pending.remove(&slot.event_id);
            assert(self.pending@ =~= held.remove_keys(ids_of(slots.take(k + 1))));
            if let Some(pending) = removed {
                let mut event = pending.event;
                if event.false_positive.is_none() {
                    event.false_positive = Some(false);
                }
                if event.false_negative.is_none() {
                    event.false_negative = Some(false);
                }
                assert(event == timed_out(held[slot.event_id].event));
                updates.push(event);
            }
            k = k + 1;
        }
        proof {
            lemma_due_prefix(slots, k as int, now, ttl as nat);
            lemma_expired_valid(old(self).ledger(), now, ttl as nat);
        }
        let rest = self.expiry_index.split_off(k);
        self.expiry_index = rest;
        assert(self.expiry_index@ =~= slots.skip(k as int));
        assert(self.ledger() =~= expired(old(self).ledger(), now, ttl as nat));
        updates
    }

    /// Reacts at the instant `now`. The outcomes that the bandit is to learn
    /// from are returned, or nothing once the observer stops. What still waits
    /// when it stops is not learnt from.
    pub fn step(&mut self, input: ObserverInput, now: u64) -> (updates: Option<Vec<RewardEvent>>)
        requires
            old(self).ledger().valid(),
        ensures
            final(self).parameters() == old(self).parameters(),
            final(self).ledger() == reacted(
                old(self).ledger(),
                input,
                now,
                old(self).parameters().event_ttl.nanos as nat,
            ),
            final(self).ledger().valid(),
            match updates {
                Some(list) => !input.stops() && list@ == learnt(
                    old(self).ledger(),
                    input,
                    now,
                    old(self).parameters().event_ttl.nanos as nat,
                ),
                None => input.stops(),
            },
            match input {
                ObserverInput::Message(
                    ObserverMessage::SignalFalsePositive { event_id, is_fp },
                ) => old(self).ledger().held.contains_key(event_id) ==> {
                    let arrived = old(self).ledger().held[event_id].event;
                    &&& updates is Some
                    &&& updates->0@.len() == 1
                    &&& updates->0@[0].false_positive == Some(is_fp)
                    &&& updates->0@[0].event_id == arrived.event_id
                    &&& updates->0@[0].arm_idx == arrived.arm_idx
                    &&& updates->0@[0].context == arrived.context
                    &&& updates->0@[0].decision == arrived.decision
                    &&& updates->0@[0].latency_ns == arrived.latency_ns
                    &&& updates->0@[0].false_negative == arrived.false_negative
                },
                _ => true,
            },
            match input {
                ObserverInput::Message(
                    ObserverMessage::SignalFalseNegative { event_id, is_fn },
                ) => old(self).ledger().held.contains_key(event_id) ==> {
                    let arrived = old(self).ledger().held[event_id].event;
                    &&& updates is Some
                    &&& updates->0@.len() == 1
                    &&& updates->0@[0].false_negative == Some(is_fn)
                    &&& updates->0@[0].event_id == arrived.event_id
                    &&& updates->0@[0].arm_idx == arrived.arm_idx
                    &&& updates->0@[0].context == arrived.context
                    &&& updates->0@[0].decision == arrived.decision
                    &&& updates->0@[0].latency_ns == arrived.latency_ns
                    &&& updates->0@[0].false_positive == arrived.false_positive
                },
                _ => true,
            },
    {
        let mut updates: Vec<RewardEvent> = Vec::new();
        match input {
            ObserverInput::Message(message) => match message {
                ObserverMessage::Event(event) => {
                    self.process_event(event, now);
                },
                ObserverMessage::SignalFalsePositive { event_id, is_fp } => {
                    if let Some(event) = self.signal_false_positive(event_id, is_fp) {
                        updates.push(event);
                    }
                },
                ObserverMessage::SignalFalseNegative { event_id, is_fn } => {
                    if let Some(event) = self.signal_false_negative(event_id, is_fn) {
                        updates.push(event);
                    }
                },
                ObserverMessage::Shutdown => {
                    return None;
                },
            },
            ObserverInput::Closed => {
                return None;
            },
            ObserverInput::Tick => {
                updates = self.expire_old_events(now);
            },
        }
        assert(updates@ =~= learnt(
            old(self).ledger(),
            input,
            now,
            old(self).parameters().event_ttl.nanos as nat,
        ));
        Some(updates)
    }
}

/// One reaction of an observer.
pub struct Reaction {
    pub input: ObserverInput,
    pub now: u64,
}

/// The ledger of an observer after some reactions.
pub open spec fn ledger_after(reactions: Seq<Reaction>, ttl: nat) -> Ledger
    decreases reactions.len(),
{
    if reactions.len() == 0 {
        Ledger::empty()
    } else {
        reacted(
            ledger_after(reactions.drop_last(), ttl),
            reactions.last().input,
            reactions.last().now,
            ttl,
        )
    }
}

/// All that the bandit is to learn from in the course of some reactions.
pub open spec fn all_learnt(reactions: Seq<Reaction>, ttl: nat) -> Seq<RewardEvent>
    decreases reactions.len(),
{
    if reactions.len() == 0 {
        Seq::empty()
    } else {
        all_learnt(reactions.drop_last(), ttl) + learnt(
            ledger_after(reactions.drop_last(), ttl),
            reactions.last().input,
            reactions.last().now,
            ttl,
        )
    }
}

/// How many of some outcomes bear the number `id`.
pub open spec fn count_of(events: Seq<RewardEvent>, id: u64) -> nat {
    events.filter(|e: RewardEvent| e.event_id == id).len()
}

/// How often an outcome with the number `id` arrives.
pub open spec fn arrivals(reactions: Seq<Reaction>, id: u64) -> nat {
    reactions.filter(|r: Reaction| r.input.brings(id)).len()
}

/// One if the outcome with the number `id` waits, else none.
pub open spec fn waiting(ledger: Ledger, id: u64) -> nat {
    if ledger.held.contains_key(id) {
        1
    } else {
        0
    }
}

/// An outcome whose number is used once is learnt from exactly once: either
/// it still waits, or the bandit was told of it and will not be told again.
/// In no case is an outcome learnt from more often than it arrived.
pub proof fn every_outcome_is_learnt_once(reactions: Seq<Reaction>, ttl: nat, id: u64)
    ensures
        count_of(all_learnt(reactions, ttl), id) + waiting(ledger_after(reactions, ttl), id)
            <= arrivals(reactions, id),
        arrivals(reactions, id) <= 1 ==> count_of(all_learnt(reactions, ttl), id) + waiting(
            ledger_after(reactions, ttl),
            id,
        ) == arrivals(reactions, id),
    decreases reactions.len(),
{
    reveal(Seq::filter);
    if reactions.len() > 0 {
        let before = reactions.drop_last();
        let ledger = ledger_after(before, ttl);
        every_outcome_is_learnt_once(before, ttl, id);
        lemma_ledger_valid(before, ttl);
        lemma_reaction_counts(ledger, reactions.last().input, reactions.last().now, ttl, id);
        Seq::filter_distributes_over_add(
            all_learnt(before, ttl),
            learnt(ledger, reactions.last().input, reactions.last().now, ttl),
            |e: RewardEvent| e.event_id == id,
        );
    }
}

/// Once the observer has looked for old outcomes, none is left that has
/// waited long enough.
pub proof fn nothing_waits_too_long(ledger: Ledger, now: u64, ttl: nat, id: u64)
    requires
        ledger.valid(),
        expired(ledger, now, ttl).held.contains_key(id),
    ensures
        elapsed(ledger.held[id].created_at as nat, now as nat) < ttl,
{
    let k = lemma_due_count(ledger.slots, now, ttl);
    let slot = Slot { created_at: ledger.held[id].created_at, event_id: id };
    let i = ledger.slots.index_of(slot);
    if i < k {
        assert(ledger.slots.take(k)[i].event_id == id);
    }
}

/// Every slot belongs to an outcome that waits.
pub open spec fn exact(ledger: Ledger) -> bool {
    forall|i: int|
        0 <= i < ledger.slots.len() ==> ledger.held.contains_key(
            (#[trigger] ledger.slots[i]).event_id,
        ) && ledger.held[ledger.slots[i].event_id].created_at == ledger.slots[i].created_at
}

/// As long as no number is used twice, outcomes that have not waited long
/// enough go on waiting, unchanged.
pub proof fn young_outcomes_go_on_waiting(reactions: Seq<Reaction>, ttl: nat, now: u64, id: u64)
    requires
        forall|other: u64| #[trigger] arrivals(reactions, other) <= 1,
        ledger_after(reactions, ttl).held.contains_key(id),
        elapsed(ledger_after(reactions, ttl).held[id].created_at as nat, now as nat) < ttl,
    ensures
        expired(ledger_after(reactions, ttl), now, ttl).held.contains_key(id),
        expired(ledger_after(reactions, ttl), now, ttl).held[id] == ledger_after(
            reactions,
            ttl,
        ).held[id],
{
    let ledger = ledger_after(reactions, ttl);
    lemma_ledger_valid(reactions, ttl);
    lemma_ledger_exact(reactions, ttl);
    let k = lemma_due_count(ledger.slots, now, ttl);
    let due = ledger.slots.take(k);
    if ids_of(due).contains(id) {
        let i = choose|i: int| 0 <= i < due.len() && #[trigger] due[i].event_id == id;
        assert(ledger.slots[i].due(now, ttl));
    }
}

/// A signal about an outcome that does not wait changes nothing, and neither
/// does a second signal about the same outcome.
pub proof fn late_signals_change_nothing(ledger: Ledger, id: u64)
    ensures
        !ledger.held.contains_key(id) ==> claimed(ledger, id) == ledger,
        !claimed(ledger, id).held.contains_key(id),
        claimed(claimed(ledger, id), id) == claimed(ledger, id),
{
}

proof fn lemma_ledger_valid(reactions: Seq<Reaction>, ttl: nat)
    ensures
        ledger_after(reactions, ttl).valid(),
    decreases reactions.len(),
{
    if reactions.len() > 0 {
        let ledger = ledger_after(reactions.drop_last(), ttl);
        lemma_ledger_valid(reactions.drop_last(), ttl);
        match reactions.last().input {
            ObserverInput::Message(message) => match message {
                ObserverMessage::Event(event) => {
                    lemma_posted_valid(ledger, event, reactions.last().now);
                },
                ObserverMessage::SignalFalsePositive { event_id, .. } => {
                    lemma_claimed_valid(ledger, event_id);
                },
                ObserverMessage::SignalFalseNegative { event_id, .. } => {
                    lemma_claimed_valid(ledger, event_id);
                },
                ObserverMessage::Shutdown => {},
            },
            ObserverInput::Closed => {},
            ObserverInput::Tick => {
                lemma_expired_valid(ledger, reactions.last().now, ttl);
            },
        }
    }
}

proof fn lemma_ledger_exact(reactions: Seq<Reaction>, ttl: nat)
    requires
        forall|other: u64| #[trigger] arrivals(reactions, other) <= 1,
    ensures
        exact(ledger_after(reactions, ttl)),
    decreases reactions.len(),
{
    if reactions.len() > 0 {
        let before = reactions.drop_last();
        let ledger = ledger_after(before, ttl);
        let now = reactions.last().now;
        assert forall|other: u64| #[trigger] arrivals(before, other) <= 1 by {
            reveal(Seq::filter);
            assert(arrivals(reactions, other) <= 1);
        }
        lemma_ledger_exact(before, ttl);
        lemma_ledger_valid(before, ttl);
        let after = ledger_after(reactions, ttl);
        match reactions.last().input {
            ObserverInput::Message(message) => match message {
                ObserverMessage::Event(event) => {
                    let id = event.event_id;
                    assert(!ledger.held.contains_key(id)) by {
                        reveal(Seq::filter);
                        assert(arrivals(reactions, id) <= 1);
                        every_outcome_is_learnt_once(before, ttl, id);
                    }
                    lemma_with_slot(ledger.slots, Slot { created_at: now, event_id: id });
                    assert forall|i: int| 0 <= i < after.slots.len() implies after.held.contains_key(
                        (#[trigger] after.slots[i]).event_id,
                    ) && after.held[after.slots[i].event_id].created_at
                        == after.slots[i].created_at by {
                        assert(after.slots.contains(after.slots[i]));
                        if ledger.slots.contains(after.slots[i]) {
                            let k = ledger.slots.index_of(after.slots[i]);
                            assert(ledger.held.contains_key(ledger.slots[k].event_id));
                        }
                    }
                },
                ObserverMessage::SignalFalsePositive { event_id, .. } => {
                    lemma_claimed_exact(ledger, event_id);
                },
                ObserverMessage::SignalFalseNegative { event_id, .. } => {
                    lemma_claimed_exact(ledger, event_id);
                },
                ObserverMessage::Shutdown => {},
            },
            ObserverInput::Closed => {},
            ObserverInput::Tick => {
                let k = lemma_due_count(ledger.slots, now, ttl);
                let due = ledger.slots.take(k);
                assert forall|i: int| 0 <= i < after.slots.len() implies after.held.contains_key(
                    (#[trigger] after.slots[i]).event_id,
                ) && after.held[after.slots[i].event_id].created_at == after.slots[i].created_at by {
                    let slot = ledger.slots[i + k];
                    assert(after.slots[i] == slot);
                    if ids_of(due).contains(slot.event_id) {
                        let j = choose|j: int|
                            0 <= j < due.len() && #[trigger] due[j].event_id == slot.event_id;
                        assert(ledger.slots[j].before(ledger.slots[i + k]));
                        assert(ledger.held[ledger.slots[j].event_id].created_at
                            == ledger.slots[j].created_at);
                    }
                }
            },
        }
    }
}

proof fn lemma_claimed_exact(ledger: Ledger, event_id: u64)
    requires
        ledger.valid(),
        exact(ledger),
    ensures
        exact(claimed(ledger, event_id)),
{
    if ledger.held.contains_key(event_id) {
        let after = claimed(ledger, event_id);
        let slot = Slot { created_at: ledger.held[event_id].created_at, event_id };
        let k = ledger.slots.index_of(slot);
        lemma_without_slot_at(ledger.slots, slot, k);
        assert forall|i: int| 0 <= i < after.slots.len() implies after.held.contains_key(
            (#[trigger] after.slots[i]).event_id,
        ) && after.held[after.slots[i].event_id].created_at == after.slots[i].created_at by {
            let j = if i < k {
                i
            } else {
                i + 1
            };
            assert(after.slots[i] == ledger.slots[j]);
            if j < k {
                assert(ledger.slots[j].before(ledger.slots[k]));
            } else {
                assert(ledger.slots[k].before(ledger.slots[j]));
            }
        }
    }
}

proof fn lemma_reaction_counts(
    ledger: Ledger,
    input: ObserverInput,
    now: u64,
    ttl: nat,
    id: u64,
)
    requires
        ledger.valid(),
    ensures
        count_of(learnt(ledger, input, now, ttl), id) + waiting(
            reacted(ledger, input, now, ttl),
            id,
        ) == if input.brings(id) {
            1
        } else {
            waiting(ledger, id)
        },
{
    reveal(Seq::filter);
    match input {
        ObserverInput::Message(message) => match message {
            ObserverMessage::SignalFalsePositive { event_id, is_fp } => {
                if ledger.held.contains_key(event_id) {
                    lemma_count_single(judged_positive(ledger.held[event_id].event, is_fp), id);
                }
            },
            ObserverMessage::SignalFalseNegative { event_id, is_fn } => {
                if ledger.held.contains_key(event_id) {
                    lemma_count_single(judged_negative(ledger.held[event_id].event, is_fn), id);
                }
            },
            _ => {},
        },
        ObserverInput::Closed => {},
        ObserverInput::Tick => {
            lemma_taken_counts(due_slots(ledger.slots, now, ttl), ledger.held, id);
        },
    }
}

proof fn lemma_count_single(event: RewardEvent, id: u64)
    ensures
        count_of(seq![event], id) == if event.event_id == id {
            1nat
        } else {
            0
        },
{
    reveal(Seq::filter);
    assert(seq![event].drop_last() =~= Seq::<RewardEvent>::empty());
    assert(count_of(Seq::<RewardEvent>::empty(), id) == 0);
}

proof fn lemma_taken_counts(slots: Seq<Slot>, held: Map<u64, PendingEvent>, id: u64)
    requires
        forall|n: u64| #[trigger] held.contains_key(n) ==> held[n].event.event_id == n,
    ensures
        count_of(taken(slots, held), id) == if held.contains_key(id) && ids_of(slots).contains(id) {
            1nat
        } else {
            0
        },
    decreases slots.len(),
{
    reveal(Seq::filter);
    if slots.len() > 0 {
        let last = slots.len() - 1;
        lemma_taken_counts(slots.drop_last(), held, id);
        lemma_ids_of_next(slots, last);
        assert(slots.take(last) =~= slots.drop_last());
        assert(slots.take(last + 1) =~= slots);
        let before = taken(slots.drop_last(), held);
        let now = taken(slots, held);
        if now.len() > before.len() {
            assert(now.drop_last() =~= before);
        }
    }
}

proof fn lemma_with_slot_at(slots: Seq<Slot>, slot: Slot, i: int)
    requires
        in_order(slots),
        0 <= i <= slots.len(),
        forall|j: int| i <= j < slots.len() ==> slot.before(#[trigger] slots[j]),
        i > 0 ==> !slot.before(slots[i - 1]),
    ensures
        with_slot(slots, slot) == if i > 0 && slots[i - 1] == slot {
            slots
        } else {
            slots.insert(i, slot)
        },
    decreases slots.len(),
{
    if i < slots.len() {
        assert(slot.before(slots[slots.len() - 1]));
        lemma_with_slot_at(slots.drop_last(), slot, i);
        if i > 0 && slots[i - 1] == slot {
            assert(slots.drop_last().push(slots.last()) =~= slots);
        } else {
            assert(slots.drop_last().insert(i, slot).push(slots.last()) =~= slots.insert(i, slot));
        }
    } else if slots.len() > 0 {
        assert(slots.insert(i, slot) =~= slots.push(slot));
    } else {
        assert(slots.insert(i, slot) =~= slots.push(slot));
    }
}

proof fn lemma_with_slot(slots: Seq<Slot>, slot: Slot)
    requires
        in_order(slots),
    ensures
        in_order(with_slot(slots, slot)),
        forall|s: Slot| #[trigger]
            with_slot(slots, slot).contains(s) <==> slots.contains(s) || s == slot,
    decreases slots.len(),
{
    let r = with_slot(slots, slot);
    if slots.len() == 0 || slots.last().before(slot) {
        assert forall|s: Slot| #[trigger] r.contains(s) <==> slots.contains(s) || s == slot by {
            if slots.contains(s) {
                let i = slots.index_of(s);
                assert(r[i] == s);
            }
            assert(r[slots.len() as int] == slot);
        }
        assert(in_order(r)) by {
            assert forall|i: int, j: int| 0 <= i < j < r.len() implies (#[trigger] r[i]).before(
                #[trigger] r[j],
            ) by {
                if j == slots.len() && i < slots.len() - 1 {
                    assert(slots[i].before(slots[slots.len() - 1]));
                }
            }
        }
    } else if slots.last() == slot {
        assert(slots[slots.len() - 1] == slot);
    } else {
        let front = with_slot(slots.drop_last(), slot);
        lemma_with_slot(slots.drop_last(), slot);
        assert forall|s: Slot| #[trigger] r.contains(s) <==> slots.contains(s) || s == slot by {
            assert(slots =~= slots.drop_last().push(slots.last()));
            if r.contains(s) {
                let i = r.index_of(s);
                if i < front.len() {
                    assert(front[i] == s);
                    assert(front.contains(s));
                    if slots.drop_last().contains(s) {
                        let k = slots.drop_last().index_of(s);
                        assert(slots[k] == s);
                    }
                } else {
                    assert(slots[slots.len() - 1] == s);
                }
            }
            if slots.contains(s) || s == slot {
                if s != slots.last() {
                    if slots.contains(s) {
                        let k = slots.index_of(s);
                        assert(slots.drop_last()[k] == s);
                    }
                    assert(front.contains(s));
                    let i = front.index_of(s);
                    assert(r[i] == s);
                } else {
                    assert(r[front.len() as int] == s);
                }
            }
        }
        assert forall|i: int, j: int| 0 <= i < j < r.len() implies (#[trigger] r[i]).before(
            #[trigger] r[j],
        ) by {
            if j == front.len() {
                assert(front.contains(front[i]));
                if front[i] != slot {
                    assert(slots.drop_last().contains(front[i]));
                    let k = slots.drop_last().index_of(front[i]);
                    assert(slots[k].before(slots[slots.len() - 1]));
                }
            }
        }
    }
}

proof fn lemma_without_absent_slot(slots: Seq<Slot>, slot: Slot)
    requires
        forall|j: int| 0 <= j < slots.len() ==> #[trigger] slots[j] != slot,
    ensures
        without_slot(slots, slot) == slots,
    decreases slots.len(),
{
    reveal(Seq::filter);
    if slots.len() > 0 {
        lemma_without_absent_slot(slots.drop_last(), slot);
        assert(slots.drop_last().push(slots.last()) =~= slots);
    }
}

proof fn lemma_without_slot_at(slots: Seq<Slot>, slot: Slot, i: int)
    requires
        in_order(slots),
        0 <= i < slots.len(),
        slots[i] == slot,
    ensures
        without_slot(slots, slot) == slots.remove(i),
    decreases slots.len(),
{
    reveal(Seq::filter);
    if i == slots.len() - 1 {
        lemma_without_absent_slot(slots.drop_last(), slot);
        assert(slots.remove(i) =~= slots.drop_last());
    } else {
        assert(slots[i].before(slots[slots.len() - 1]));
        lemma_without_slot_at(slots.drop_last(), slot, i);
        assert(slots.remove(i) =~= slots.drop_last().remove(i).push(slots.last()));
    }
}

proof fn lemma_without_slot_contains(slots: Seq<Slot>, slot: Slot, left: Slot)
    requires
        without_slot(slots, slot).contains(left),
    ensures
        slots.contains(left),
    decreases slots.len(),
{
    reveal(Seq::filter);
    let kept = without_slot(slots, slot);
    let i = kept.index_of(left);
    if slots.len() > 0 {
        let front = slots.drop_last();
        let before = without_slot(front, slot);
        if i < before.len() {
            assert(before[i] == left);
            lemma_without_slot_contains(front, slot, left);
            let k = front.index_of(left);
            assert(slots[k] == left);
        } else {
            assert(slots[slots.len() - 1] == left);
        }
    }
}

proof fn lemma_posted_valid(ledger: Ledger, event: RewardEvent, now: u64)
    requires
        ledger.valid(),
    ensures
        posted(ledger, event, now).valid(),
{
    lemma_with_slot(ledger.slots, Slot { created_at: now, event_id: event.event_id });
}

proof fn lemma_claimed_valid(ledger: Ledger, event_id: u64)
    requires
        ledger.valid(),
    ensures
        claimed(ledger, event_id).valid(),
{
    let after = claimed(ledger, event_id);
    if ledger.held.contains_key(event_id) {
        let slot = Slot { created_at: ledger.held[event_id].created_at, event_id };
        let i = ledger.slots.index_of(slot);
        lemma_without_slot_at(ledger.slots, slot, i);
        assert forall|id: u64| #[trigger] after.held.contains_key(id) implies after.slots.contains(
            Slot { created_at: after.held[id].created_at, event_id: id },
        ) by {
            let s = Slot { created_at: ledger.held[id].created_at, event_id: id };
            let k = ledger.slots.index_of(s);
            assert(after.slots[if k < i {
                k
            } else {
                k - 1
            }] == s);
        }
    }
}

proof fn lemma_due_prefix(slots: Seq<Slot>, k: int, now: u64, ttl: nat)
    requires
        in_order(slots),
        0 <= k <= slots.len(),
        forall|j: int| 0 <= j < k ==> (#[trigger] slots[j]).due(now, ttl),
        k < slots.len() ==> !slots[k].due(now, ttl),
    ensures
        due_slots(slots, now, ttl) == slots.take(k),
        young_slots(slots, now, ttl) == slots.skip(k),
    decreases slots.len(),
{
    reveal(Seq::filter);
    if slots.len() > 0 {
        if k == slots.len() {
            lemma_due_prefix(slots.drop_last(), k - 1, now, ttl);
            assert(slots.take(k) =~= slots.drop_last().take(k - 1).push(slots.last()));
            assert(slots.skip(k) =~= slots.drop_last().skip(k - 1));
        } else {
            if k < slots.len() - 1 {
                assert(slots[k].before(slots[slots.len() - 1]));
            }
            lemma_due_prefix(slots.drop_last(), k, now, ttl);
            assert(slots.take(k) =~= slots.drop_last().take(k));
            assert(slots.skip(k) =~= slots.drop_last().skip(k).push(slots.last()));
        }
    } else {
        assert(slots.take(k) =~= slots);
        assert(slots.skip(k) =~= slots);
    }
}

proof fn lemma_ids_of_next(slots: Seq<Slot>, k: int)
    requires
        0 <= k < slots.len(),
    ensures
        ids_of(slots.take(k + 1)) == ids_of(slots.take(k)).insert(slots[k].event_id),
{
    let more = slots.take(k + 1);
    let less = slots.take(k);
    assert forall|id: u64| #[trigger] ids_of(more).contains(id) <==> ids_of(less).insert(
        slots[k].event_id,
    ).contains(id) by {
        if ids_of(more).contains(id) {
            let i = choose|i: int| 0 <= i < more.len() && #[trigger] more[i].event_id == id;
            if i < k {
                assert(less[i].event_id == id);
            }
        }
        if ids_of(less).contains(id) {
            let i = choose|i: int| 0 <= i < less.len() && #[trigger] less[i].event_id == id;
            assert(more[i].event_id == id);
        }
        assert(more[k].event_id == slots[k].event_id);
    }
    assert(ids_of(more) =~= ids_of(less).insert(slots[k].event_id));
}

/// The slots that are due come first.
proof fn lemma_due_count(slots: Seq<Slot>, now: u64, ttl: nat) -> (k: int)
    requires
        in_order(slots),
    ensures
        0 <= k <= slots.len(),
        forall|j: int| 0 <= j < k ==> (#[trigger] slots[j]).due(now, ttl),
        forall|j: int| k <= j < slots.len() ==> !(#[trigger] slots[j]).due(now, ttl),
        due_slots(slots, now, ttl) == slots.take(k),
        young_slots(slots, now, ttl) == slots.skip(k),
    decreases slots.len(),
{
    if slots.len() == 0 {
        lemma_due_prefix(slots, 0, now, ttl);
        0
    } else {
        let k = lemma_due_count(slots.drop_last(), now, ttl);
        let last = slots.len() - 1;
        assert forall|j: int| 0 <= j < k implies (#[trigger] slots[j]).due(now, ttl) by {
            assert(slots.drop_last()[j].due(now, ttl));
        }
        assert forall|j: int| k <= j < last implies !(#[trigger] slots[j]).due(now, ttl) by {
            assert(!slots.drop_last()[j].due(now, ttl));
        }
        let n = if slots[last].due(now, ttl) && k == last {
            k + 1
        } else {
            k
        };
        if k < last {
            assert(slots[k].before(slots[last]));
        }
        lemma_due_prefix(slots, n, now, ttl);
        n
    }
}

proof fn lemma_expired_valid(ledger: Ledger, now: u64, ttl: nat)
    requires
        ledger.valid(),
    ensures
        expired(ledger, now, ttl).valid(),
{
    let slots = ledger.slots;
    let k = lemma_due_count(slots, now, ttl);
    let after = expired(ledger, now, ttl);
    assert forall|id: u64| #[trigger] after.held.contains_key(id) implies after.slots.contains(
        Slot { created_at: after.held[id].created_at, event_id: id },
    ) by {
        let s = Slot { created_at: ledger.held[id].created_at, event_id: id };
        let i = slots.index_of(s);
        if i < k {
            assert(slots.take(k)[i].event_id == id);
        }
        assert(after.slots[i - k] == s);
    }
}

/// Whether outcome `e` arrived as the reaction with number `i` says, and was
/// settled by that with number `j`: with the verdict that was signalled, or,
/// when it or an earlier one under its number had waited for `ttl` nanoseconds,
/// with what was not known to be wrong taken as right. In everything else it is
/// what arrived.
pub open spec fn settled(
    reactions: Seq<Reaction>,
    ttl: nat,
    i: int,
    j: int,
    e: RewardEvent,
) -> bool {
    &&& 0 <= i < j < reactions.len()
    &&& reactions[i].input matches ObserverInput::Message(ObserverMessage::Event(arrived))
    &&& e.event_id == arrived.event_id
    &&& e.arm_idx == arrived.arm_idx
    &&& e.context == arrived.context
    &&& e.decision == arrived.decision
    &&& e.latency_ns == arrived.latency_ns
    &&& forall|x: int| i < x < j ==> !(#[trigger] reactions[x]).input.brings(e.event_id)
    &&& match reactions[j].input {
        ObserverInput::Message(
            ObserverMessage::SignalFalsePositive { event_id, is_fp },
        ) => event_id == e.event_id && e.false_positive == Some(is_fp) && e.false_negative
            == arrived.false_negative,
        ObserverInput::Message(
            ObserverMessage::SignalFalseNegative { event_id, is_fn },
        ) => event_id == e.event_id && e.false_negative == Some(is_fn) && e.false_positive
            == arrived.false_positive,
        ObserverInput::Tick => {
            &&& e.false_positive == Some(arrived.false_positive == Some(true))
            &&& e.false_negative == Some(arrived.false_negative == Some(true))
            &&& exists|w: int|
                0 <= w <= i && (#[trigger] reactions[w]).input.brings(e.event_id)
                    && (ttl == 0 || reactions[w].now + ttl <= reactions[j].now)
        },
        _ => false,
    }
}

/// All that the bandit is to learn from arrived before, and was settled by a
/// signal or by the time, with the verdict that was signalled.
pub proof fn outcomes_are_learnt_as_judged(reactions: Seq<Reaction>, ttl: nat, k: int)
    requires
        0 <= k < all_learnt(reactions, ttl).len(),
    ensures
        exists|i: int, j: int| #[trigger]
            settled(reactions, ttl, i, j, all_learnt(reactions, ttl)[k]),
    decreases reactions.len(),
{
    if reactions.len() > 0 {
        let before = reactions.drop_last();
        let e = all_learnt(reactions, ttl)[k];
        if k < all_learnt(before, ttl).len() {
            outcomes_are_learnt_as_judged(before, ttl, k);
            let (i, j) = choose|i: int, j: int| #[trigger] settled(before, ttl, i, j, e);
            assert forall|x: int| 0 <= x < before.len() implies before[x] == reactions[x] by {}
            if reactions[j].input is Tick {
                let w = choose|w: int|
                    0 <= w <= i && (#[trigger] before[w]).input.brings(e.event_id)
                        && (ttl == 0 || before[w].now + ttl <= before[j].now);
                assert(reactions[w].input.brings(e.event_id));
            }
            assert forall|x: int| i < x < j implies !(#[trigger] reactions[x]).input.brings(
                e.event_id,
            ) by {
                assert(before[x] == reactions[x]);
            }
            assert(settled(reactions, ttl, i, j, e));
        } else {
            let ledger = ledger_after(before, ttl);
            let j = before.len() as int;
            let (input, now) = (reactions[j].input, reactions[j].now);
            assert(learnt(ledger, input, now, ttl).contains(e)) by {
                let list = learnt(ledger, input, now, ttl);
                assert(list[k - all_learnt(before, ttl).len()] == e);
            }
            let list = learnt(ledger, input, now, ttl);
            let p = list.index_of(e);
            let id = e.event_id;
            lemma_ledger_valid(before, ttl);
            if input is Tick {
                lemma_taken_from(due_slots(ledger.slots, now, ttl), ledger.held, p);
            }
            assert(ledger.held.contains_key(id));
            lemma_held_arrived(before, ttl, id);
            let i = choose|i: int| #[trigger] arrived_last(before, i, id, ledger.held[id]);
            assert(reactions[i] == before[i]);
            assert forall|x: int| i < x < j implies !(#[trigger] reactions[x]).input.brings(
                id,
            ) by {
                assert(before[x] == reactions[x]);
            }
            if input is Tick {
                let due = due_slots(ledger.slots, now, ttl);
                let d = lemma_due_count(ledger.slots, now, ttl);
                let q = choose|q: int| 0 <= q < due.len() && #[trigger] due[q].event_id == id;
                assert(due[q] == ledger.slots[q]);
                lemma_slots_arrived(before, ttl, q);
                let w = choose|w: int|
                    0 <= w < before.len() && (#[trigger] before[w]).input.brings(id)
                        && before[w].now == ledger.slots[q].created_at;
                assert(reactions[w] == before[w]);
                if w > i {
                    assert(before[w].input.brings(id));
                }
                assert(reactions[w].input.brings(id));
            }
            assert(settled(reactions, ttl, i, j, e));
        }
    }
}

/// Whether `pending` is what arrived under the number `id` as the reaction with
/// number `i` says, and nothing has arrived under it since.
spec fn arrived_last(reactions: Seq<Reaction>, i: int, id: u64, pending: PendingEvent) -> bool {
    &&& 0 <= i < reactions.len()
    &&& reactions[i].input == ObserverInput::Message(ObserverMessage::Event(pending.event))
    &&& reactions[i].now == pending.created_at
    &&& pending.event.event_id == id
    &&& forall|x: int| i < x < reactions.len() ==> !(#[trigger] reactions[x]).input.brings(id)
}

proof fn lemma_held_arrived(reactions: Seq<Reaction>, ttl: nat, id: u64)
    requires
        ledger_after(reactions, ttl).held.contains_key(id),
    ensures
        exists|i: int| #[trigger]
            arrived_last(reactions, i, id, ledger_after(reactions, ttl).held[id]),
    decreases reactions.len(),
{
    let before = reactions.drop_last();
    let last = reactions.len() - 1;
    let ledger = ledger_after(before, ttl);
    let pending = ledger_after(reactions, ttl).held[id];
    if reactions[last].input.brings(id) {
        assert(arrived_last(reactions, last, id, pending));
    } else {
        assert(ledger.held.contains_key(id) && ledger.held[id] == pending);
        lemma_held_arrived(before, ttl, id);
        let i = choose|i: int| #[trigger] arrived_last(before, i, id, pending);
        assert forall|x: int| i < x < reactions.len() implies !(#[trigger] reactions[x]).input.brings(
            id,
        ) by {
            if x < last {
                assert(before[x] == reactions[x]);
            }
        }
        assert(before[i] == reactions[i]);
        assert(arrived_last(reactions, i, id, pending));
    }
}

proof fn lemma_slots_arrived(reactions: Seq<Reaction>, ttl: nat, q: int)
    requires
        0 <= q < ledger_after(reactions, ttl).slots.len(),
    ensures
        ({
            let slot = ledger_after(reactions, ttl).slots[q];
            exists|w: int|
                0 <= w < reactions.len() && (#[trigger] reactions[w]).input.brings(slot.event_id)
                    && reactions[w].now == slot.created_at
        }),
    decreases reactions.len(),
{
    let before = reactions.drop_last();
    let last = reactions.len() - 1;
    let ledger = ledger_after(before, ttl);
    let after = ledger_after(reactions, ttl);
    let slot = after.slots[q];
    lemma_ledger_valid(before, ttl);
    assert(after.slots.contains(slot));
    let fresh = match reactions[last].input {
        ObserverInput::Message(ObserverMessage::Event(event)) => {
            let new = Slot { created_at: reactions[last].now, event_id: event.event_id };
            lemma_with_slot(ledger.slots, new);
            slot == new
        },
        _ => false,
    };
    if fresh {
        assert(reactions[last].input.brings(slot.event_id));
    } else {
        match reactions[last].input {
            ObserverInput::Message(ObserverMessage::Event(_)) => {},
            ObserverInput::Message(ObserverMessage::SignalFalsePositive { event_id, .. }) => {
                if ledger.held.contains_key(event_id) {
                    let gone = Slot { created_at: ledger.held[event_id].created_at, event_id };
                    lemma_without_slot_contains(ledger.slots, gone, slot);
                }
            },
            ObserverInput::Message(ObserverMessage::SignalFalseNegative { event_id, .. }) => {
                if ledger.held.contains_key(event_id) {
                    let gone = Slot { created_at: ledger.held[event_id].created_at, event_id };
                    lemma_without_slot_contains(ledger.slots, gone, slot);
                }
            },
            ObserverInput::Tick => {
                ledger.slots.lemma_filter_contains_rev(
                    |s: Slot| !s.due(reactions[last].now, ttl),
                    slot,
                );
            },
            _ => {},
        }
        assert(ledger.slots.contains(slot));
        let p = ledger.slots.index_of(slot);
        lemma_slots_arrived(before, ttl, p);
        let w = choose|w: int|
            0 <= w < before.len() && (#[trigger] before[w]).input.brings(slot.event_id)
                && before[w].now == slot.created_at;
        assert(reactions[w] == before[w]);
        assert(reactions[w].input.brings(slot.event_id));
    }
}

proof fn lemma_taken_from(slots: Seq<Slot>, held: Map<u64, PendingEvent>, p: int)
    requires
        0 <= p < taken(slots, held).len(),
        forall|n: u64| #[trigger] held.contains_key(n) ==> held[n].event.event_id == n,
    ensures
        ({
            let e = taken(slots, held)[p];
            &&& held.contains_key(e.event_id)
            &&& e == timed_out(held[e.event_id].event)
            &&& exists|q: int| 0 <= q < slots.len() && #[trigger] slots[q].event_id == e.event_id
        }),
    decreases slots.len(),
{
    let front = slots.drop_last();
    let before = taken(front, held);
    if p < before.len() {
        lemma_taken_from(front, held, p);
        let e = before[p];
        let q = choose|q: int| 0 <= q < front.len() && #[trigger] front[q].event_id == e.event_id;
        assert(slots[q].event_id == e.event_id);
    } else {
        assert(slots[slots.len() - 1].event_id == slots.last().event_id);
    }
}

/// An outcome that arrives waits from then on under its number, as it arrived,
/// and does not touch the others.
pub proof fn arrivals_wait(
    reactions: Seq<Reaction>,
    ttl: nat,
    event: RewardEvent,
    now: u64,
    other: u64,
)
    ensures
        ({
            let before = ledger_after(reactions, ttl);
            let after = ledger_after(
                reactions.push(
                    Reaction {
                        input: ObserverInput::Message(ObserverMessage::Event(event)),
                        now,
                    },
                ),
                ttl,
            );
            &&& after.held.contains_key(event.event_id)
            &&& after.held[event.event_id].event == event
            &&& after.held[event.event_id].created_at == now
            &&& other != event.event_id ==> after.held.contains_key(other)
                == before.held.contains_key(other)
            &&& other != event.event_id && before.held.contains_key(other) ==> after.held[other]
                == before.held[other]
        }),
{
    let r = Reaction { input: ObserverInput::Message(ObserverMessage::Event(event)), now };
    assert(reactions.push(r).drop_last() =~= reactions);
}

/// A signal about an outcome that waits settles it at once, and it alone. The
/// bandit is told of it, and it does not wait any more.
pub proof fn signals_settle_at_once(
    reactions: Seq<Reaction>,
    ttl: nat,
    id: u64,
    verdict: bool,
    positive: bool,
    now: u64,
    other: u64,
)
    ensures
        ({
            let message = if positive {
                ObserverMessage::SignalFalsePositive { event_id: id, is_fp: verdict }
            } else {
                ObserverMessage::SignalFalseNegative { event_id: id, is_fn: verdict }
            };
            let all = reactions.push(Reaction { input: ObserverInput::Message(message), now });
            let (before, after) = (ledger_after(reactions, ttl), ledger_after(all, ttl));
            let (told, then) = (all_learnt(reactions, ttl), all_learnt(all, ttl));
            &&& !after.held.contains_key(id)
            &&& other != id ==> after.held.contains_key(other) == before.held.contains_key(other)
            &&& other != id && before.held.contains_key(other) ==> after.held[other]
                == before.held[other]
            &&& !before.held.contains_key(id) ==> then == told
            &&& before.held.contains_key(id) ==> {
                let arrived = before.held[id].event;
                &&& then.len() == told.len() + 1
                &&& then.drop_last() == told
                &&& then.last().event_id == arrived.event_id
                &&& then.last().arm_idx == arrived.arm_idx
                &&& then.last().context == arrived.context
                &&& then.last().decision == arrived.decision
                &&& then.last().latency_ns == arrived.latency_ns
                &&& then.last().false_positive == if positive {
                    Some(verdict)
                } else {
                    arrived.false_positive
                }
                &&& then.last().false_negative == if positive {
                    arrived.false_negative
                } else {
                    Some(verdict)
                }
            }
        }),
{
    let message = if positive {
        ObserverMessage::SignalFalsePositive { event_id: id, is_fp: verdict }
    } else {
        ObserverMessage::SignalFalseNegative { event_id: id, is_fn: verdict }
    };
    let r = Reaction { input: ObserverInput::Message(message), now };
    let all = reactions.push(r);
    assert(all.drop_last() =~= reactions);
    let (told, then) = (all_learnt(reactions, ttl), all_learnt(all, ttl));
    if ledger_after(reactions, ttl).held.contains_key(id) {
        assert(then.drop_last() =~= told);
    } else {
        assert(then =~= told);
    }
}

/// As long as no number is used twice, a look for old outcomes lets go of exactly
/// those that have waited long enough, the oldest first, with what was not known
/// to be wrong taken as right.
pub proof fn old_outcomes_are_learnt_in_order(reactions: Seq<Reaction>, ttl: nat, now: u64)
    requires
        forall|id: u64| #[trigger] arrivals(reactions, id) <= 1,
    ensures
        ({
            let held = ledger_after(reactions, ttl).held;
            let tick = Reaction { input: ObserverInput::Tick, now };
            let after = ledger_after(reactions.push(tick), ttl).held;
            let (told, then) = (
                all_learnt(reactions, ttl),
                all_learnt(reactions.push(tick), ttl),
            );
            let list = then.skip(told.len() as int);
            &&& then.len() >= told.len()
            &&& then.take(told.len() as int) == told
            &&& forall|id: u64| #[trigger]
                after.contains_key(id) <==> held.contains_key(id) && ttl > 0 && now
                    < held[id].created_at + ttl
            &&& forall|id: u64| #[trigger] after.contains_key(id) ==> after[id] == held[id]
            &&& forall|p: int|
                0 <= p < list.len() ==> {
                    let e = #[trigger] list[p];
                    let arrived = held[e.event_id].event;
                    &&& held.contains_key(e.event_id)
                    &&& e.arm_idx == arrived.arm_idx
                    &&& e.context == arrived.context
                    &&& e.decision == arrived.decision
                    &&& e.latency_ns == arrived.latency_ns
                    &&& e.false_positive == Some(arrived.false_positive == Some(true))
                    &&& e.false_negative == Some(arrived.false_negative == Some(true))
                }
            &&& forall|p: int, q: int|
                0 <= p < q < list.len() ==> held[(#[trigger] list[p]).event_id].created_at
                    <= held[(#[trigger] list[q]).event_id].created_at
        }),
{
    let tick = Reaction { input: ObserverInput::Tick, now };
    let all = reactions.push(tick);
    assert(all.drop_last() =~= reactions);
    let ledger = ledger_after(reactions, ttl);
    let (held, slots) = (ledger.held, ledger.slots);
    let after = ledger_after(all, ttl).held;
    let (told, then) = (all_learnt(reactions, ttl), all_learnt(all, ttl));
    let list = then.skip(told.len() as int);
    let due = due_slots(slots, now, ttl);
    lemma_ledger_valid(reactions, ttl);
    lemma_ledger_exact(reactions, ttl);
    let k = lemma_due_count(slots, now, ttl);
    lemma_taken_in_order(ledger, k);
    assert(list =~= taken(due, held));
    assert(then.take(told.len() as int) =~= told);
    assert forall|id: u64| #[trigger] after.contains_key(id) <==> held.contains_key(id) && ttl > 0
        && now < held[id].created_at + ttl by {
        if after.contains_key(id) {
            nothing_waits_too_long(ledger, now, ttl, id);
        }
        if held.contains_key(id) && ttl > 0 && now < held[id].created_at + ttl {
            young_outcomes_go_on_waiting(reactions, ttl, now, id);
        }
    }
    assert forall|p: int| 0 <= p < list.len() implies {
        let e = #[trigger] list[p];
        let arrived = held[e.event_id].event;
        &&& held.contains_key(e.event_id)
        &&& e.arm_idx == arrived.arm_idx
        &&& e.context == arrived.context
        &&& e.decision == arrived.decision
        &&& e.latency_ns == arrived.latency_ns
        &&& e.false_positive == Some(arrived.false_positive == Some(true))
        &&& e.false_negative == Some(arrived.false_negative == Some(true))
    } by {
        lemma_taken_from(due, held, p);
    }
    assert forall|p: int, q: int| 0 <= p < q < list.len() implies held[(
    #[trigger] list[p]).event_id].created_at <= held[(#[trigger] list[q]).event_id].created_at by {
        assert(slots[p].before(slots[q]));
        assert(list[p].event_id == slots[p].event_id);
        assert(list[q].event_id == slots[q].event_id);
    }
}

proof fn lemma_taken_in_order(ledger: Ledger, k: int)
    requires
        ledger.valid(),
        exact(ledger),
        0 <= k <= ledger.slots.len(),
    ensures
        taken(ledger.slots.take(k), ledger.held).len() == k,
        forall|i: int|
            0 <= i < k ==> (#[trigger] taken(ledger.slots.take(k), ledger.held)[i]).event_id
                == ledger.slots[i].event_id,
    decreases k,
{
    if k > 0 {
        let slots = ledger.slots;
        let some = slots.take(k);
        lemma_taken_in_order(ledger, k - 1);
        assert(some.drop_last() =~= slots.take(k - 1));
        let front = some.drop_last();
        let id = slots[k - 1].event_id;
        assert(some.last() == slots[k - 1]);
        assert(ledger.held.contains_key(id));
        if ids_of(front).contains(id) {
            let q = choose|q: int| 0 <= q < front.len() && #[trigger] front[q].event_id == id;
            assert(slots[q].before(slots[k - 1]));
            assert(ledger.held[slots[q].event_id].created_at == slots[q].created_at);
        }
    }
}

/// An observer stops when it is told to and when nobody is left to tell it, and
/// at no other time; neither changes what waits or lets the bandit learn.
pub proof fn shutdown_stops_the_observer(
    ledger: Ledger,
    input: ObserverInput,
    now: u64,
    ttl: nat,
)
    ensures
        input.stops() <==> input is Closed || input == ObserverInput::Message(
            ObserverMessage::Shutdown,
        ),
        input.stops() ==> reacted(ledger, input, now, ttl) == ledger && learnt(
            ledger,
            input,
            now,
            ttl,
        ).len() == 0,
{
}

} // verus!
