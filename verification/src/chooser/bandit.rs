//! The bookkeeping of a LinUCB contextual bandit: which arm has the best
//! score, how often each arm was updated, and when its inverse is due.
use crate::binary64::Binary64;
use vstd::prelude::*;

verus! {

/// Tunable parameters of the bandit.
#[derive(Clone, Copy, Debug, PartialEq)]
#[non_exhaustive]
pub struct BanditConfig {
    /// Weight of exploration.
    pub alpha: Binary64,
    /// Updates of an arm after which its inverse is computed anew.
    pub lazy_inversion_threshold: usize,
    /// Diagonal element of the matrix that an arm starts with.
    pub regularization: Binary64,
}

impl BanditConfig {
    /// The default parameters: 0.3, 50 and 1.0.
    pub open spec fn default_spec() -> Self {
        BanditConfig {
            alpha: Binary64 { bits: 0x3FD3_3333_3333_3333 },
            lazy_inversion_threshold: 50,
            regularization: Binary64 { bits: 0x3FF0_0000_0000_0000 },
        }
    }

    /// Builds a configuration from its parts.
    pub fn with(
        alpha: Binary64,
        lazy_inversion_threshold: usize,
        regularization: Binary64,
    ) -> (c: Self)
        ensures
            c == (BanditConfig { alpha, lazy_inversion_threshold, regularization }),
    {
        BanditConfig { alpha, lazy_inversion_threshold, regularization }
    }
}

impl Default for BanditConfig {
    fn default() -> (c: Self)
        ensures
            c == BanditConfig::default_spec(),
    {
        BanditConfig {
            alpha: Binary64 { bits: 0x3FD3_3333_3333_3333 },
            lazy_inversion_threshold: 50,
            regularization: Binary64 { bits: 0x3FF0_0000_0000_0000 },
        }
    }
}

/// The bit pattern of minus infinity.
pub const NEGATIVE_INFINITY_BITS: u64 = 0xFFF0_0000_0000_0000;

/// Whether a score is a number greater than minus infinity.
pub open spec fn eligible(score: Binary64) -> bool {
    !score.nan() && score.units() > (Binary64 { bits: NEGATIVE_INFINITY_BITS }).units()
}

/// Whether `best` is the first of the arms with the greatest score. Scores
/// that are no numbers and scores of minus infinity do not count; if there
/// are no others, `best` is the first arm.
pub open spec fn best_arm(scores: Seq<Binary64>, best: int) -> bool {
    if exists|i: int| 0 <= i < scores.len() && eligible(#[trigger] scores[i]) {
        &&& 0 <= best < scores.len()
        &&& eligible(scores[best])
        &&& forall|i: int|
            0 <= i < scores.len() && eligible(#[trigger] scores[i]) ==> scores[i].units()
                <= scores[best].units()
        &&& forall|i: int|
            0 <= i < best && eligible(#[trigger] scores[i]) ==> scores[i].units()
                < scores[best].units()
    } else {
        best == 0
    }
}

/// How often an arm was updated.
#[derive(Clone, Copy, Debug, PartialEq, Structural)]
pub struct ArmState {
    /// Updates since the inverse was last computed.
    pub updates_since_inversion: usize,
    /// Updates in all.
    pub total_updates: usize,
}

impl ArmState {
    /// The arm after one more update.
    pub open spec fn updated(self) -> ArmState {
        ArmState {
            updates_since_inversion: (self.updates_since_inversion + 1) as usize,
            total_updates: (self.total_updates + 1) as usize,
        }
    }

    /// The arm after its inverse has been computed.
    pub open spec fn inverted(self) -> ArmState {
        ArmState { updates_since_inversion: 0, ..self }
    }

    /// An arm that was never updated.
    fn new() -> (a: Self)
        ensures
            a == (ArmState { updates_since_inversion: 0, total_updates: 0 }),
    {
        ArmState { updates_since_inversion: 0, total_updates: 0 }
    }

    /// Counts an update and says whether the inverse is due.
    fn update(&mut self, lazy_threshold: usize) -> (due: bool)
        requires
            old(self).updates_since_inversion <= old(self).total_updates < usize::MAX,
        ensures
            *final(self) == old(self).updated(),
            due == (final(self).updates_since_inversion >= lazy_threshold),
    {
        self.updates_since_inversion = self.updates_since_inversion + 1;
        self.total_updates = self.total_updates + 1;
        self.updates_since_inversion >= lazy_threshold
    }
}

/// The bandit without its matrices: parameters and the counters of the arms.
#[derive(Debug)]
pub struct LinUCBBandit {
    config: BanditConfig,
    arms: Vec<ArmState>,
}

impl LinUCBBandit {
    /// The parameters.
    pub closed spec fn parameters(&self) -> BanditConfig {
        self.config
    }

    /// The counters of the arms.
    pub closed spec fn arms(&self) -> Seq<ArmState> {
        self.arms@
    }

    /// There is an arm, and no arm has counted more updates since its last
    /// inversion than in all.
    pub closed spec fn valid(&self) -> bool {
        &&& self.arms@.len() > 0
        &&& forall|i: int|
            0 <= i < self.arms@.len() ==> (#[trigger] self.arms@[i]).updates_since_inversion
                <= self.arms@[i].total_updates
    }

    /// A bandit with `num_arms` arms that were never updated.
    pub fn new(num_arms: usize, config: BanditConfig) -> (b: Self)
        requires
            num_arms > 0,
        ensures
            b.valid(),
            b.parameters() == config,
            b.arms() == Seq::new(
                num_arms as nat,
                |i: int| ArmState { updates_since_inversion: 0, total_updates: 0 },
            ),
    {
        let mut arms: Vec<ArmState> = Vec::new();
        let mut i: usize = 0;
        while i < num_arms
            invariant
                i <= num_arms,
                arms@.len() == i,
                forall|j: int|
                    0 <= j < i ==> #[trigger] arms@[j] == (ArmState {
                        updates_since_inversion: 0,
                        total_updates: 0,
                    }),
            decreases num_arms - i,
        {
            arms.push(ArmState::new());
            i = i + 1;
        }
        let b = LinUCBBandit { config, arms };
        assert(b.arms() =~= Seq::new(
            num_arms as nat,
            |i: int| ArmState { updates_since_inversion: 0, total_updates: 0 },
        ));
        b
    }

    /// The arm to pull, given the upper confidence bound of each.
    pub fn select(&self, scores: &[Binary64]) -> (best: usize)
        requires
            self.valid(),
            scores@.len() == self.arms().len(),
        ensures
            best_arm(scores@, best as int),
            best < self.arms().len(),
    {
        let mut best: usize = 0;
        let mut best_score = Binary64 { bits: NEGATIVE_INFINITY_BITS };
        let mut found: bool = false;
        let mut i: usize = 0;
        assert(!best_score.nan());
        while i < scores.len()
            invariant
                i <= scores@.len(),
                scores@.len() > 0,
                !best_score.nan(),
                found ==> best < i && best_score == scores@[best as int] && eligible(
                    scores@[best as int],
                ),
                !found ==> best == 0 && best_score.bits == NEGATIVE_INFINITY_BITS,
                forall|j: int|
                    0 <= j < i && eligible(#[trigger] scores@[j]) ==> found && scores@[j].units()
                        <= best_score.units(),
                forall|j: int|
                    0 <= j < best && eligible(#[trigger] scores@[j]) ==> scores@[j].units()
                        < best_score.units(),
            decreases scores@.len() - i,
        {
            let score = scores[i];
            if score.exceeds(&best_score) {
                best_score = score;
                best = i;
                found = true;
            }
            i = i + 1;
        }
        if found {
            assert(eligible(scores@[best as int]));
        }
        best
    }

    /// Counts an update of an arm and says whether the inverse of its matrix
    /// is due.
    pub fn update(&mut self, arm_idx: usize) -> (due: bool)
        requires
            old(self).valid(),
            arm_idx < old(self).arms().len(),
            old(self).arms()[arm_idx as int].total_updates < usize::MAX,
        ensures
            final(self).valid(),
            final(self).parameters() == old(self).parameters(),
            final(self).arms() == old(self).arms().update(
                arm_idx as int,
                old(self).arms()[arm_idx as int].updated(),
            ),
            due == (old(self).arms()[arm_idx as int].updates_since_inversion + 1 >= old(
                self,
            ).parameters().lazy_inversion_threshold),
    {
        let threshold: usize = self.config.lazy_inversion_threshold;
        self.arms[arm_idx].update(threshold)
    }

    /// Notes that the inverse of the matrix of an arm was computed.
    pub fn recompute_inverse(&mut self, arm_idx: usize)
        requires
            old(self).valid(),
            arm_idx < old(self).arms().len(),
        ensures
            final(self).valid(),
            final(self).parameters() == old(self).parameters(),
            final(self).arms() == old(self).arms().update(
                arm_idx as int,
                old(self).arms()[arm_idx as int].inverted(),
            ),
    {
        self.arms[arm_idx].updates_since_inversion = 0;
    }

    /// The parameters.
    pub fn config(&self) -> (c: BanditConfig)
        ensures
            c == self.parameters(),
    {
        self.config
    }

    /// The number of arms.
    pub fn num_arms(&self) -> (n: usize)
        ensures
            n == self.arms().len(),
    {
        self.arms.len()
    }

    /// How often an arm was updated.
    pub fn update_count(&self, arm_idx: usize) -> (n: usize)
        requires
            arm_idx < self.arms().len(),
        ensures
            n == self.arms()[arm_idx as int].total_updates,
    {
        self.arms[arm_idx].total_updates
    }
}

/// The arm after an update, and after the inversion that follows if it is
/// due.
pub open spec fn kept_up(arm: ArmState, lazy_threshold: usize) -> ArmState {
    if arm.updated().updates_since_inversion >= lazy_threshold {
        arm.updated().inverted()
    } else {
        arm.updated()
    }
}

/// An arm that is inverted whenever that is due lags behind by fewer updates
/// than the threshold, and by none if the threshold is zero.
pub proof fn staleness_is_bounded(arm: ArmState, lazy_threshold: usize)
    requires
        arm.total_updates < usize::MAX,
        arm.updates_since_inversion <= arm.total_updates,
    ensures
        lazy_threshold > 0 ==> kept_up(arm, lazy_threshold).updates_since_inversion
            < lazy_threshold,
        lazy_threshold == 0 ==> kept_up(arm, lazy_threshold).updates_since_inversion == 0,
        kept_up(arm, lazy_threshold).total_updates == arm.total_updates + 1,
{
}

/// No arm has a greater score than the one that is pulled, and those before it
/// have smaller ones. Scores that are no numbers count for nothing.
pub proof fn the_best_arm_is_pulled(scores: Seq<Binary64>, best: int, i: int)
    requires
        best_arm(scores, best),
        0 <= i < scores.len(),
        !scores[i].nan(),
    ensures
        0 <= best < scores.len(),
        scores[best].nan() ==> best == 0 && scores[i].bits == 0xFFF0_0000_0000_0000,
        !scores[best].nan() ==> scores[i].units() <= scores[best].units(),
        i < best ==> !scores[best].nan() && scores[i].units() < scores[best].units(),
{
    let least = Binary64 { bits: NEGATIVE_INFINITY_BITS };
    if !eligible(scores[i]) {
        crate::binary64::lemma_units_sign(scores[i]);
        crate::binary64::lemma_units_sign(least);
        crate::binary64::lemma_magnitude_order(scores[i], least);
        crate::binary64::lemma_magnitude_order(least, scores[i]);
        crate::binary64::patterns_are_ieee_754(scores[i]);
        assert(scores[i].units() <= least.units());
    }
    if exists|j: int| 0 <= j < scores.len() && eligible(#[trigger] scores[j]) {
        assert(eligible(scores[best]));
    } else {
        assert(!eligible(scores[0]));
        assert(!eligible(scores[i]));
        if !scores[0].nan() {
            crate::binary64::lemma_units_sign(scores[0]);
            crate::binary64::lemma_units_sign(least);
            crate::binary64::lemma_magnitude_order(scores[0], least);
            crate::binary64::lemma_magnitude_order(least, scores[0]);
            crate::binary64::patterns_are_ieee_754(scores[0]);
        }
    }
}

/// An update counts one more, and an inversion forgets only what was counted
/// since the last one.
pub proof fn updates_are_counted(arm: ArmState)
    requires
        arm.updates_since_inversion <= arm.total_updates < usize::MAX,
    ensures
        arm.updated().total_updates == arm.total_updates + 1,
        arm.updated().updates_since_inversion == arm.updates_since_inversion + 1,
        arm.inverted().total_updates == arm.total_updates,
        arm.inverted().updates_since_inversion == 0,
{
}

} // verus!
