//! Core staking data types.

use vstd::prelude::*;

verus! {

use crate::fraction::Perbill;
use crate::store::KvStore;

/// Counter for the number of eras that have passed.
pub type EraIndex = u32;

/// Counter for sessions; several sessions compose one era.
pub type SessionIndex = u32;

/// Counter for the reward points earned by a validator within an era.
pub type RewardPoint = u32;

/// At most this many unlocking chunks may wait in one ledger.
pub const MAX_UNLOCKING_CHUNKS: usize = 32;

/// At most this many targets may be nominated at once.
pub const MAX_NOMINATIONS: usize = 16;

/// A destination account for reward payments.
#[derive(Clone, Copy, PartialEq, Eq, Structural, Debug)]
pub enum RewardDestination {
    /// Pay into the stash account, increasing the amount at stake.
    Staked,
    /// Pay into the stash account, not increasing the amount at stake.
    Stash,
    /// Pay into the controller account.
    Controller,
}

impl Default for RewardDestination {
    /// Rewards restake by default.
    fn default() -> (r: RewardDestination)
        ensures
            r == RewardDestination::Staked,
    {
        RewardDestination::Staked
    }
}

/// Preference of what happens regarding validation.
#[derive(Clone, Copy, PartialEq, Eq, Structural, Debug)]
pub struct ValidatorPrefs {
    /// Reward that the validator takes up front; only the rest is split
    /// between themselves and nominators.
    pub commission: Perbill,
}

impl Default for ValidatorPrefs {
    /// No commission by default.
    fn default() -> (r: ValidatorPrefs)
        ensures
            r.commission.spec_parts() == 0,
    {
        ValidatorPrefs { commission: Perbill::zero() }
    }
}

/// Commission can be set globally or by validator.
#[derive(Clone, Copy, PartialEq, Eq, Structural, Debug)]
pub enum Commission {
    /// Every validator chooses its own commission.
    Individual,
    /// Every validator carries the same, globally configured commission.
    Global(Perbill),
}

impl Default for Commission {
    /// Individual commissions by default.
    fn default() -> (r: Commission)
        ensures
            r == Commission::Individual,
    {
        Commission::Individual
    }
}

/// A portion of funds scheduled to be unlocked at a given era.
#[derive(Clone, Copy, PartialEq, Eq, Structural, Debug)]
pub struct UnlockChunk {
    /// Amount of funds to be unlocked.
    pub value: u128,
    /// Era at which point the funds unlock.
    pub era: EraIndex,
}

/// The sum of the values of a queue of unlocking chunks.
pub open spec fn unlocking_sum(s: Seq<UnlockChunk>) -> int
    decreases s.len(),
{
    if s.len() == 0 {
        0
    } else {
        unlocking_sum(s.drop_last()) + s.last().value
    }
}

/// Every chunk value is counted at least zero, so partial queues never sum
/// above the whole queue.
pub proof fn lemma_unlocking_sum_take(s: Seq<UnlockChunk>, i: int)
    requires
        0 <= i <= s.len(),
    ensures
        0 <= unlocking_sum(s.take(i)) <= unlocking_sum(s),
        unlocking_sum(s.take(s.len() as int)) == unlocking_sum(s),
    decreases s.len() - i,
{
    lemma_unlocking_sum_nonneg(s.take(i));
    assert(s.take(s.len() as int) =~= s);
    if i == s.len() {
    } else {
        lemma_unlocking_sum_take(s, i + 1);
        assert(s.take(i + 1).drop_last() =~= s.take(i));
        assert(s.take(i + 1).last() == s[i]);
        assert(unlocking_sum(s.take(i + 1)) == unlocking_sum(s.take(i)) + s[i].value);
    }
}

/// The sum of a queue of chunks is never negative.
pub proof fn lemma_unlocking_sum_nonneg(s: Seq<UnlockChunk>)
    ensures
        0 <= unlocking_sum(s),
    decreases s.len(),
{
    if s.len() > 0 {
        lemma_unlocking_sum_nonneg(s.drop_last());
    }
}

/// The ledger of a bonded stash.
#[derive(Clone, Debug)]
pub struct StakingLedger {
    /// The stash account whose balance is locked and at stake.
    pub stash: u64,
    /// The total amount of the stash's balance accounted for: `active` plus
    /// every `unlocking` balance.
    pub total: u128,
    /// The amount at stake in any forthcoming eras.
    pub active: u128,
    /// Funds becoming free, in order of scheduling.
    pub unlocking: Vec<UnlockChunk>,
    /// The highest era for which the staker has claimed a reward.
    pub last_reward: Option<EraIndex>,
}

impl StakingLedger {
    /// A ledger always accounts for its total exactly: active stake plus the
    /// sum of the unlocking queue, and the queue is bounded.
    pub open spec fn wf(&self) -> bool {
        &&& self.total == self.active + unlocking_sum(self.unlocking@)
        &&& self.unlocking@.len() <= MAX_UNLOCKING_CHUNKS
        &&& forall|i: int| 0 <= i < self.unlocking@.len()
            ==> (#[trigger] self.unlocking@[i]).value > 0
    }
}

/// A record of the nominations made by an account.
#[derive(Clone, Debug)]
pub struct Nominations {
    /// The targets of the nomination.
    pub targets: Vec<u64>,
    /// The era the nominations were submitted in.  Initial nominations are
    /// considered submitted at era 0.
    pub submitted_in: EraIndex,
    /// Whether the nominations have been suppressed.
    pub suppressed: bool,
}

/// The amount of exposure to slashing that a single nominator has.
#[derive(Clone, Copy, PartialEq, Eq, Structural, Debug)]
pub struct IndividualExposure {
    /// The stash account of the nominator in question.
    pub who: u64,
    /// Amount of funds exposed.
    pub value: u128,
}

/// The sum of the values of a list of individual exposures.
pub open spec fn others_sum(s: Seq<IndividualExposure>) -> int
    decreases s.len(),
{
    if s.len() == 0 {
        0
    } else {
        others_sum(s.drop_last()) + s.last().value
    }
}

/// The sum of a list of individual exposures is never negative.
pub proof fn lemma_others_sum_nonneg(s: Seq<IndividualExposure>)
    ensures
        0 <= others_sum(s),
    decreases s.len(),
{
    if s.len() > 0 {
        lemma_others_sum_nonneg(s.drop_last());
    }
}

/// A snapshot of the stake backing a single validator.
#[derive(Clone, Debug)]
pub struct Exposure {
    /// The total balance backing this validator.
    pub total: u128,
    /// The validator's own stash that is exposed.
    pub own: u128,
    /// The portions of nominator stashes that are exposed.
    pub others: Vec<IndividualExposure>,
}

impl Exposure {
    /// A stored exposure accounts for its total exactly: the validator's own
    /// stake plus each backer's portion.
    pub open spec fn wf(&self) -> bool {
        self.total == self.own + others_sum(self.others@)
    }
}

/// A pending slash record: computed but deferred for several eras.
#[derive(Clone, Debug)]
pub struct UnappliedSlash {
    /// The stash of the offending validator.
    pub validator: u64,
    /// The validator's own slash.
    pub own: u128,
    /// All other slashed stakers and amounts.
    pub others: Vec<(u64, u128)>,
    /// Reporters of the offence, the bounty recipients.
    pub reporters: Vec<u64>,
    /// The amount of the reporter bounty.
    pub payout: u128,
}

/// Compliance status of a permissioned validator.
#[derive(Clone, Copy, PartialEq, Eq, Structural, Debug)]
pub enum Compliance {
    /// Compliance requirements not met.
    Pending,
    /// Compliant, eligible to participate in validation.
    Active,
}

impl Default for Compliance {
    /// Compliance starts out pending.
    fn default() -> (r: Compliance)
        ensures
            r == Compliance::Pending,
    {
        Compliance::Pending
    }
}

/// The requirement that must be met to be eligible as a validator.
#[derive(Clone, Copy, PartialEq, Eq, Structural, Debug)]
pub struct PermissionedValidator {
    /// The status of the compliance check.
    pub compliance: Compliance,
}

impl Default for PermissionedValidator {
    /// Permissioned validators start out pending.
    fn default() -> (r: PermissionedValidator)
        ensures
            r.compliance == Compliance::Pending,
    {
        PermissionedValidator { compliance: Compliance::Pending }
    }
}

/// Mode of era forcing.
#[derive(Clone, Copy, PartialEq, Eq, Structural, Debug)]
pub enum Forcing {
    /// Not forcing anything: eras advance on their schedule.
    NotForcing,
    /// Force a new era once, then reset to `NotForcing`.
    ForceNew,
    /// Avoid a new era indefinitely.
    ForceNone,
    /// Force a new era at the end of every session indefinitely.
    ForceAlways,
}

impl Default for Forcing {
    /// No forcing by default.
    fn default() -> (r: Forcing)
        ensures
            r == Forcing::NotForcing,
    {
        Forcing::NotForcing
    }
}

/// Information regarding the active era: the era currently rewarded.
#[derive(Clone, Copy, PartialEq, Eq, Structural, Debug)]
pub struct ActiveEraInfo {
    /// Index of the era.
    pub index: EraIndex,
    /// Moment of start; unset until the first block of the era is finalized.
    pub start: Option<u64>,
}

/// Reward points of an era, used to split the era payout between validators.
pub struct EraRewardPoints {
    /// Total number of points: the sum over all validators.
    pub total: RewardPoint,
    /// The points earned by each validator, keyed by stash.
    pub individual: KvStore<RewardPoint>,
}

impl EraRewardPoints {
    /// The per-validator table must itself be well formed.
    pub open spec fn wf(&self) -> bool {
        self.individual.wf()
    }

    /// An empty tally.
    pub fn new() -> (r: EraRewardPoints)
        ensures
            r.wf(),
            r.total == 0,
            r.individual@ == Map::<u64, RewardPoint>::empty(),
    {
        EraRewardPoints { total: 0, individual: KvStore::new() }
    }
}

/// The initial role of a staker, as handed to genesis building.
#[derive(Clone, Debug)]
pub enum StakerStatus {
    /// Chilling.
    Idle,
    /// Declared desire in validating.
    Validator,
    /// Nominating a group of other stakers.
    Nominator(Vec<u64>),
}

/// Why an operation was refused.  Every operation either fully commits or
/// returns one of these and leaves no trace.
#[derive(Clone, Copy, PartialEq, Eq, Structural, Debug)]
pub enum Error {
    /// Not a controller account.
    NotController,
    /// Not a stash account.
    NotStash,
    /// Stash is already bonded.
    AlreadyBonded,
    /// Controller is already paired.
    AlreadyPaired,
    /// Targets cannot be empty.
    EmptyTargets,
    /// Duplicate index.
    DuplicateIndex,
    /// Slash record index out of bounds.
    InvalidSlashIndex,
    /// Cannot bond with a value less than the minimum balance.
    InsufficientValue,
    /// Cannot schedule more unlock chunks.
    NoMoreChunks,
    /// Cannot rebond without unlocking chunks.
    NoUnlockChunk,
    /// Not compliant with the compliance rules.
    NotCompliant,
    /// Permissioned validator already exists.
    AlreadyExists,
    /// Bad origin.
    NotAuthorised,
    /// Permissioned validator does not exist.
    NotExists,
    /// Individual commissions are already enabled.
    AlreadyEnabled,
    /// Update carries the same value as the current one.
    NoChange,
    /// Commission differs from the mandated global commission.
    InvalidCommission,
    /// The targeted stash still has funds.
    FundedTarget,
    /// Invalid era to reward.
    InvalidEraToReward,
    /// Invalid number of nominations.
    InvalidNumberOfNominations,
}

/// An externally indexed record of something the engine did.
#[derive(Clone, Debug)]
pub enum Event {
    /// The staker has been rewarded by this amount.
    Rewarded(u64, u128),
    /// A validator (and possibly its nominators) was slashed by this amount.
    Slashed(u64, u128),
    /// An old slashing report from a prior era was discarded.
    OldSlashingReportDiscarded(SessionIndex),
    /// An account joined the pool of permissioned validators.
    PermissionedValidatorAdded(u64),
    /// An account left the pool of permissioned validators.
    PermissionedValidatorRemoved(u64),
    /// Nominators whose compliance credential lapsed were force-unbonded.
    InvalidatedNominators(u64, Vec<u64>),
    /// Individual commissions are enabled.
    IndividualCommissionEnabled,
    /// The global commission changed: old value, new value.
    GlobalCommissionUpdated(Perbill, Perbill),
    /// The minimum bond threshold changed.
    MinimumBondThresholdUpdated(u128),
    /// Funds were bonded for staking.
    Bonded(u64, u128),
    /// Funds were unbonded.
    Unbonded(u64, u128),
    /// An account updated its nominations.
    Nominated(u64, Vec<u64>),
}

} // verus!
