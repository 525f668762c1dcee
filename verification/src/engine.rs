//! The staking engine: one explicit state value and every operation on it.
//!
//! The runtime owns a single [`Staking`] value and passes it into each
//! externally triggered operation.  External collaborators are not called
//! from here: the currency hands balances in as arguments, the clock hands
//! moments in, and the compliance service hands in the set of accounts whose
//! credential currently verifies.  Every operation either fully commits or
//! returns an error and leaves the state untouched.

use vstd::prelude::*;

verus! {

use crate::fraction::Perbill;
use crate::ledger::{unbonded_amount, unmatured};
use crate::store::{Kv2Store, KvStore};
use crate::types::{
    ActiveEraInfo, Commission, Compliance, EraIndex, EraRewardPoints, Error, Event, Exposure,
    Forcing, IndividualExposure, MAX_NOMINATIONS, MAX_UNLOCKING_CHUNKS, Nominations, PermissionedValidator, RewardDestination,
    SessionIndex, StakingLedger, UnappliedSlash, UnlockChunk, ValidatorPrefs, unlocking_sum,
};
use crate::slashing::{SlashingSpans, SpanRecord};

/// Fixed configuration handed to the engine at construction.
pub struct StakingConfig {
    /// Number of sessions per era.
    pub sessions_per_era: SessionIndex,
    /// Number of eras that unbonded funds wait before withdrawal.
    pub bonding_duration: EraIndex,
    /// Number of eras a computed slash waits before application.
    pub slash_defer_duration: EraIndex,
    /// Only this many of a validator's biggest backers can claim a reward.
    pub max_nominator_rewarded_per_validator: u32,
    /// The currency's minimum balance; smaller staking pots are dust.
    pub minimum_balance: u128,
    /// Length of one session, in blocks.
    pub epoch_duration: u64,
    /// Expected wall-clock time per block, in milliseconds.
    pub expected_block_time: u64,
    /// The annual reward curve: stake-ratio points mapped to inflation.
    pub reward_curve: Vec<(Perbill, Perbill)>,
}

/// The whole persistent state of the staking engine.
pub struct Staking {
    /// Fixed configuration.
    pub config: StakingConfig,
    /// Number of eras kept in history.
    pub history_depth: u32,
    /// The ideal number of validators.
    pub validator_count: u32,
    /// Below this many eligible validators the election fails outright.
    pub minimum_validator_count: u32,
    /// Validators that may never be slashed or forcibly kicked.
    pub invulnerables: Vec<u64>,
    /// Stash account to controller account.
    pub bonded: KvStore<u64>,
    /// Controller account to its staking ledger.
    pub ledger: KvStore<StakingLedger>,
    /// Stash account to reward destination.
    pub payee: KvStore<RewardDestination>,
    /// Would-be validator stashes to their preferences.
    pub validators: KvStore<ValidatorPrefs>,
    /// Nominator stashes to their nominations.
    pub nominators: KvStore<Nominations>,
    /// The latest planned era.
    pub current_era: Option<EraIndex>,
    /// The era currently rewarded.
    pub active_era: Option<ActiveEraInfo>,
    /// The session index each era started at, keyed by era.
    pub eras_start_session_index: KvStore<SessionIndex>,
    /// Full exposure per (era, validator stash).
    pub eras_stakers: Kv2Store<Exposure>,
    /// Clipped exposure per (era, validator stash): only the biggest backers.
    pub eras_stakers_clipped: Kv2Store<Exposure>,
    /// Validator preferences per (era, validator stash), as of the election.
    pub eras_validator_prefs: Kv2Store<ValidatorPrefs>,
    /// Total validator payout per finished era.
    pub eras_validator_reward: KvStore<u128>,
    /// Reward points per era.
    pub eras_reward_points: KvStore<EraRewardPoints>,
    /// Total stake behind the validator set, per era.
    pub eras_total_stake: KvStore<u128>,
    /// Whether the next session forces a new era.
    pub force_era: Forcing,
    /// The fraction of a slash paid out to reporters.
    pub slash_reward_fraction: Perbill,
    /// The payout given to reporters of a slash that was cancelled.
    pub canceled_slash_payout: u128,
    /// Queued, not yet applied slashes, keyed by the era they were found in.
    pub unapplied_slashes: KvStore<Vec<UnappliedSlash>>,
    /// Still-bonded eras and the first session of each.
    pub bonded_eras: Vec<(EraIndex, SessionIndex)>,
    /// The highest slash fraction and amount per (era, validator stash).
    pub validator_slash_in_era: Kv2Store<(Perbill, u128)>,
    /// The highest slash amount per (era, nominator stash).
    pub nominator_slash_in_era: Kv2Store<u128>,
    /// Slashing spans per stash.
    pub slashing_spans: KvStore<SlashingSpans>,
    /// Slash and bounty bookkeeping per (stash, span index).
    pub span_slash: Kv2Store<SpanRecord>,
    /// The earliest era with a pending, unapplied slash.
    pub earliest_unapplied_slash: Option<EraIndex>,
    /// Would-be validators and their compliance status.
    pub permissioned_validators: KvStore<PermissionedValidator>,
    /// The commission regime: individual, or one global rate.
    pub validator_commission: Commission,
    /// The minimum active stake a validator must bond.
    pub min_bond_threshold: u128,
    /// The staking lock per stash: exactly the ledger total.
    pub locks: KvStore<u128>,
    /// Everything the engine did, append-only.
    pub events: Vec<Event>,
}

impl Staking {
    /// All the stores keep their keys unique.
    pub open spec fn stores_wf(&self) -> bool {
        &&& self.bonded.wf()
        &&& self.ledger.wf()
        &&& self.payee.wf()
        &&& self.validators.wf()
        &&& self.nominators.wf()
        &&& self.eras_start_session_index.wf()
        &&& self.eras_stakers.wf()
        &&& self.eras_stakers_clipped.wf()
        &&& self.eras_validator_prefs.wf()
        &&& self.eras_validator_reward.wf()
        &&& self.eras_reward_points.wf()
        &&& self.eras_total_stake.wf()
        &&& self.unapplied_slashes.wf()
        &&& self.validator_slash_in_era.wf()
        &&& self.nominator_slash_in_era.wf()
        &&& self.slashing_spans.wf()
        &&& self.span_slash.wf()
        &&& self.permissioned_validators.wf()
        &&& self.locks.wf()
    }

    /// Every stored ledger accounts for its total exactly.
    pub open spec fn ledgers_wf(&self) -> bool {
        forall|c: u64| self.ledger@.contains_key(c) ==> (#[trigger] self.ledger@[c]).wf()
    }

    /// Every stored full exposure accounts for its total exactly.  Clipped
    /// exposures keep the full total while dropping small backers, so the
    /// identity deliberately does not apply to them.
    pub open spec fn exposures_wf(&self) -> bool {
        forall|k: (u64, u64)| self.eras_stakers@.contains_key(k)
            ==> (#[trigger] self.eras_stakers@[k]).wf()
    }

    /// Every era's reward point table keeps its keys unique.
    pub open spec fn points_wf(&self) -> bool {
        forall|e: u64| self.eras_reward_points@.contains_key(e)
            ==> (#[trigger] self.eras_reward_points@[e]).wf()
    }

    /// Stash-to-controller and controller-to-ledger stay coherent: each
    /// bonded stash names a controller whose ledger names it back.
    pub open spec fn links_wf(&self) -> bool {
        &&& forall|s: u64| #[trigger] self.bonded@.contains_key(s)
            ==> self.ledger@.contains_key(self.bonded@[s])
                && self.ledger@[self.bonded@[s]].stash == s
        &&& forall|c: u64| #[trigger] self.ledger@.contains_key(c)
            ==> self.bonded@.contains_key(self.ledger@[c].stash)
                && self.bonded@[self.ledger@[c].stash] == c
    }

    /// Every commission the engine holds is a genuine fraction.
    pub open spec fn prefs_wf(&self) -> bool {
        &&& forall|s: u64| self.validators@.contains_key(s)
            ==> (#[trigger] self.validators@[s]).commission.wf()
        &&& forall|k: (u64, u64)| self.eras_validator_prefs@.contains_key(k)
            ==> (#[trigger] self.eras_validator_prefs@[k]).commission.wf()
        &&& (self.validator_commission matches Commission::Global(g) ==> g.wf())
        &&& self.slash_reward_fraction.wf()
    }

    /// The engine's global invariant.
    pub open spec fn wf(&self) -> bool {
        &&& self.stores_wf()
        &&& self.ledgers_wf()
        &&& self.exposures_wf()
        &&& self.points_wf()
        &&& self.links_wf()
        &&& self.prefs_wf()
    }

    /// Configuration and counters that bonding operations never touch.
    pub open spec fn same_admin(a: &Staking, b: &Staking) -> bool {
        &&& b.history_depth == a.history_depth
        &&& b.validator_count == a.validator_count
        &&& b.minimum_validator_count == a.minimum_validator_count
        &&& b.invulnerables@ == a.invulnerables@
        &&& b.force_era == a.force_era
        &&& b.slash_reward_fraction == a.slash_reward_fraction
        &&& b.canceled_slash_payout == a.canceled_slash_payout
        &&& b.validator_commission == a.validator_commission
        &&& b.min_bond_threshold == a.min_bond_threshold
        &&& b.config.sessions_per_era == a.config.sessions_per_era
        &&& b.config.bonding_duration == a.config.bonding_duration
        &&& b.config.slash_defer_duration == a.config.slash_defer_duration
        &&& b.config.max_nominator_rewarded_per_validator
            == a.config.max_nominator_rewarded_per_validator
        &&& b.config.minimum_balance == a.config.minimum_balance
        &&& b.config.epoch_duration == a.config.epoch_duration
        &&& b.config.expected_block_time == a.config.expected_block_time
        &&& b.config.reward_curve@ == a.config.reward_curve@
    }

    /// Era bookkeeping that bonding operations never touch.
    pub open spec fn same_eras(a: &Staking, b: &Staking) -> bool {
        &&& b.current_era == a.current_era
        &&& b.active_era == a.active_era
        &&& b.eras_start_session_index@ == a.eras_start_session_index@
        &&& b.eras_stakers@ == a.eras_stakers@
        &&& b.eras_stakers_clipped@ == a.eras_stakers_clipped@
        &&& b.eras_validator_prefs@ == a.eras_validator_prefs@
        &&& b.eras_validator_reward@ == a.eras_validator_reward@
        &&& b.eras_reward_points@ == a.eras_reward_points@
        &&& b.eras_total_stake@ == a.eras_total_stake@
        &&& b.bonded_eras@ == a.bonded_eras@
    }

    /// Slashing bookkeeping that bonding operations never touch.
    pub open spec fn same_slashing(a: &Staking, b: &Staking) -> bool {
        &&& b.unapplied_slashes@ == a.unapplied_slashes@
        &&& b.validator_slash_in_era@ == a.validator_slash_in_era@
        &&& b.nominator_slash_in_era@ == a.nominator_slash_in_era@
        &&& b.slashing_spans@ == a.slashing_spans@
        &&& b.span_slash@ == a.span_slash@
        &&& b.earliest_unapplied_slash == a.earliest_unapplied_slash
    }

    /// The registry: declarations and compliance, untouched by pure bonding.
    pub open spec fn same_registry(a: &Staking, b: &Staking) -> bool {
        &&& b.validators@ == a.validators@
        &&& b.nominators@ == a.nominators@
        &&& b.permissioned_validators@ == a.permissioned_validators@
    }

    /// The bonding records themselves.
    pub open spec fn same_bonding(a: &Staking, b: &Staking) -> bool {
        &&& b.bonded@ == a.bonded@
        &&& b.ledger@ == a.ledger@
        &&& b.payee@ == a.payee@
        &&& b.locks@ == a.locks@
    }

    /// A fresh engine with the given configuration and an empty store.
    pub fn new(config: StakingConfig) -> (r: Staking)
        ensures
            r.wf(),
            r.bonded@ == Map::<u64, u64>::empty(),
            r.ledger@ == Map::<u64, StakingLedger>::empty(),
            r.validators@ == Map::<u64, ValidatorPrefs>::empty(),
            r.nominators@ == Map::<u64, Nominations>::empty(),
            r.current_era.is_none(),
            r.active_era.is_none(),
            r.force_era == Forcing::NotForcing,
            r.validator_commission == Commission::Individual,
            r.events@.len() == 0,
            r.config == config,
            r.history_depth == 84,
            r.minimum_validator_count == 4,
    {
        Staking {
            config,
            history_depth: 84,
            validator_count: 0,
            minimum_validator_count: 4,
            invulnerables: Vec::new(),
            bonded: KvStore::new(),
            ledger: KvStore::new(),
            payee: KvStore::new(),
            validators: KvStore::new(),
            nominators: KvStore::new(),
            current_era: None,
            active_era: None,
            eras_start_session_index: KvStore::new(),
            eras_stakers: Kv2Store::new(),
            eras_stakers_clipped: Kv2Store::new(),
            eras_validator_prefs: Kv2Store::new(),
            eras_validator_reward: KvStore::new(),
            eras_reward_points: KvStore::new(),
            eras_total_stake: KvStore::new(),
            force_era: Forcing::NotForcing,
            slash_reward_fraction: Perbill::zero(),
            canceled_slash_payout: 0,
            unapplied_slashes: KvStore::new(),
            bonded_eras: Vec::new(),
            validator_slash_in_era: Kv2Store::new(),
            nominator_slash_in_era: Kv2Store::new(),
            slashing_spans: KvStore::new(),
            span_slash: Kv2Store::new(),
            earliest_unapplied_slash: None,
            permissioned_validators: KvStore::new(),
            validator_commission: Commission::Individual,
            min_bond_threshold: 0,
            locks: KvStore::new(),
            events: Vec::new(),
        }
    }

    /// The total balance slashable from a stash right now: the active stake
    /// of its ledger, or nothing if it is not bonded.
    pub fn slashable_balance_of(&self, stash: u64) -> (r: u128)
        requires
            self.wf(),
        ensures
            r == self.spec_slashable_balance_of(stash),
    {
        match self.bonded.get(stash) {
            Some(controller) => match self.ledger.get(*controller) {
                Some(l) => l.active,
                None => 0,
            },
            None => 0,
        }
    }

    /// What [`Self::slashable_balance_of`] returns.
    pub open spec fn spec_slashable_balance_of(&self, stash: u64) -> u128 {
        if self.bonded@.contains_key(stash) && self.ledger@.contains_key(self.bonded@[stash]) {
            self.ledger@[self.bonded@[stash]].active
        } else {
            0
        }
    }

    /// The stash of a controller, if it controls one.
    pub fn stash_of(&self, controller: u64) -> (r: Option<u64>)
        requires
            self.wf(),
        ensures
            match r {
                Some(s) => self.ledger@.contains_key(controller)
                    && s == self.ledger@[controller].stash,
                None => !self.ledger@.contains_key(controller),
            },
    {
        match self.ledger.get(controller) {
            Some(l) => Some(l.stash),
            None => None,
        }
    }

    /// Write `ledger` under `controller` and set the stash's staking lock to
    /// the ledger total.
    fn update_ledger(&mut self, controller: u64, ledger: StakingLedger)
        requires
            old(self).stores_wf(),
        ensures
            final(self).ledger@ == old(self).ledger@.insert(controller, ledger),
            final(self).locks@ == old(self).locks@.insert(ledger.stash, ledger.total),
            final(self).stores_wf(),
            final(self).bonded@ == old(self).bonded@,
            final(self).payee@ == old(self).payee@,
            final(self).events@ == old(self).events@,
            Staking::same_admin(old(self), final(self)),
            Staking::same_eras(old(self), final(self)),
            Staking::same_slashing(old(self), final(self)),
            Staking::same_registry(old(self), final(self)),
    {
        let stash = ledger.stash;
        let total = ledger.total;
        self.locks.insert(stash, total);
        self.ledger.insert(controller, ledger);
    }

    /// What blocks a bond call, if anything.
    pub open spec fn bond_check(&self, stash: u64, controller: u64, value: u128) -> Option<Error> {
        if self.bonded@.contains_key(stash) {
            Some(Error::AlreadyBonded)
        } else if self.ledger@.contains_key(controller) {
            Some(Error::AlreadyPaired)
        } else if value < self.config.minimum_balance {
            Some(Error::InsufficientValue)
        } else {
            None
        }
    }

    /// Bond `stash` to `controller`, locking up to `value` of the stash's
    /// free balance as active stake.  Fails when the stash is already
    /// bonded, the controller already paired, or the value dust.
    pub fn bond(
        &mut self,
        stash: u64,
        controller: u64,
        value: u128,
        payee: RewardDestination,
        stash_free_balance: u128,
    ) -> (r: Result<(), Error>)
        requires
            old(self).wf(),
        ensures
            final(self).wf(),
            match r {
                Ok(()) => {
                    let bonded_value = if value <= stash_free_balance {
                        value
                    } else {
                        stash_free_balance
                    };
                    let l = StakingLedger {
                        stash,
                        total: bonded_value,
                        active: bonded_value,
                        unlocking: final(self).ledger@[controller].unlocking,
                        last_reward: old(self).current_era,
                    };
                    &&& old(self).bond_check(stash, controller, value).is_none()
                    &&& final(self).bonded@ == old(self).bonded@.insert(stash, controller)
                    &&& final(self).payee@ == old(self).payee@.insert(stash, payee)
                    &&& final(self).ledger@ == old(self).ledger@.insert(controller, l)
                    &&& final(self).ledger@[controller].unlocking@.len() == 0
                    &&& final(self).locks@ == old(self).locks@.insert(stash, bonded_value)
                    &&& final(self).events@ == old(self).events@.push(
                        Event::Bonded(stash, bonded_value),
                    )
                },
                Err(e) => {
                    &&& old(self).bond_check(stash, controller, value) == Some(e)
                    &&& *final(self) == *old(self)
                },
            },
            Staking::same_admin(old(self), final(self)),
            Staking::same_eras(old(self), final(self)),
            Staking::same_slashing(old(self), final(self)),
            Staking::same_registry(old(self), final(self)),
    {
        if self.bonded.contains_key(stash) {
            return Err(Error::AlreadyBonded);
        }
        if self.ledger.contains_key(controller) {
            return Err(Error::AlreadyPaired);
        }
        if value < self.config.minimum_balance {
            return Err(Error::InsufficientValue);
        }
        let bonded_value = if value <= stash_free_balance { value } else { stash_free_balance };
        self.bonded.insert(stash, controller);
        self.payee.insert(stash, payee);
        let item = StakingLedger {
            stash,
            total: bonded_value,
            active: bonded_value,
            unlocking: Vec::new(),
            last_reward: self.current_era,
        };
        self.events.push(Event::Bonded(stash, bonded_value));
        self.update_ledger(controller, item);
        Ok(())
    }

    /// What blocks a bond-extra call, if anything.
    pub open spec fn stash_controller_check(&self, stash: u64) -> Option<Error> {
        if !self.bonded@.contains_key(stash) {
            Some(Error::NotStash)
        } else if !self.ledger@.contains_key(self.bonded@[stash]) {
            Some(Error::NotController)
        } else {
            None
        }
    }

    /// Bond up to `max_additional` of whatever free balance the stash has
    /// gained beyond its current ledger total.
    pub fn bond_extra(
        &mut self,
        stash: u64,
        max_additional: u128,
        stash_free_balance: u128,
    ) -> (r: Result<(), Error>)
        requires
            old(self).wf(),
        ensures
            final(self).wf(),
            Staking::same_admin(old(self), final(self)),
            Staking::same_eras(old(self), final(self)),
            Staking::same_slashing(old(self), final(self)),
            Staking::same_registry(old(self), final(self)),
            match r {
                Ok(()) => {
                    let c = old(self).bonded@[stash];
                    let l0 = old(self).ledger@[c];
                    &&& old(self).stash_controller_check(stash).is_none()
                    &&& if stash_free_balance >= l0.total {
                        let extra = if stash_free_balance - l0.total <= max_additional {
                            (stash_free_balance - l0.total) as u128
                        } else {
                            max_additional
                        };
                        let l1 = StakingLedger {
                            stash: l0.stash,
                            total: (l0.total + extra) as u128,
                            active: (l0.active + extra) as u128,
                            unlocking: final(self).ledger@[c].unlocking,
                            last_reward: l0.last_reward,
                        };
                        &&& final(self).ledger@ == old(self).ledger@.insert(c, l1)
                        &&& final(self).ledger@[c].unlocking@ == l0.unlocking@
                        &&& final(self).locks@ == old(self).locks@.insert(l0.stash, l1.total)
                        &&& final(self).events@ == old(self).events@.push(
                            Event::Bonded(stash, extra),
                        )
                        &&& final(self).bonded@ == old(self).bonded@
                        &&& final(self).payee@ == old(self).payee@
                    } else {
                        *final(self) == *old(self)
                    }
                },
                Err(e) => {
                    &&& old(self).stash_controller_check(stash) == Some(e)
                    &&& *final(self) == *old(self)
                },
            },
    {
        let controller = match self.bonded.get(stash) {
            Some(c) => *c,
            None => {
                return Err(Error::NotStash);
            },
        };
        let has_headroom = match self.ledger.get(controller) {
            Some(l) => stash_free_balance >= l.total,
            None => {
                return Err(Error::NotController);
            },
        };
        if !has_headroom {
            return Ok(());
        }
        let l0 = match self.ledger.take(controller) {
            Some(l) => l,
            None => {
                proof {
                    assert(false);
                }
                return Err(Error::NotController);
            },
        };
        {
            let headroom = stash_free_balance - l0.total;
            let extra = if headroom <= max_additional { headroom } else { max_additional };
            proof {
                crate::types::lemma_unlocking_sum_nonneg(l0.unlocking@);
            }
            let l1 = StakingLedger {
                stash: l0.stash,
                total: l0.total + extra,
                active: l0.active + extra,
                unlocking: l0.unlocking,
                last_reward: l0.last_reward,
            };
            self.events.push(Event::Bonded(stash, extra));
            self.update_ledger(controller, l1);
            proof {
                let ghost lnew = self.ledger@[controller];
                assert(self.ledger@ =~= old(self).ledger@.insert(controller, lnew));
            }
            Ok(())
        }
    }

    /// The era a chunk unbonded now would mature at.
    pub open spec fn spec_unbond_era(&self) -> int {
        (match self.current_era {
            Some(e) => e as int,
            None => 0,
        }) + self.config.bonding_duration
    }

    /// The maturity era of a fresh unbonding must fit the era counter.
    pub open spec fn unbond_era_fits(&self) -> bool {
        self.spec_unbond_era() <= u32::MAX
    }

    /// Move up to `value` from the active stake of `controller`'s ledger
    /// into the unlocking queue, maturing a bonding duration from now.
    /// Emits and relocks only when something actually moved.
    fn unbond_balance(&mut self, controller: u64, value: u128)
        requires
            old(self).wf(),
            old(self).unbond_era_fits(),
            old(self).ledger@.contains_key(controller),
            old(self).ledger@[controller].unlocking@.len() < MAX_UNLOCKING_CHUNKS,
        ensures
            final(self).wf(),
            Staking::same_admin(old(self), final(self)),
            Staking::same_eras(old(self), final(self)),
            Staking::same_slashing(old(self), final(self)),
            Staking::same_registry(old(self), final(self)),
            final(self).bonded@ == old(self).bonded@,
            final(self).payee@ == old(self).payee@,
            ({
                let l0 = old(self).ledger@[controller];
                let moved = unbonded_amount(
                    l0.active as int,
                    value as int,
                    old(self).config.minimum_balance as int,
                );
                if moved > 0 {
                    let l1 = final(self).ledger@[controller];
                    &&& final(self).ledger@ == old(self).ledger@.insert(controller, l1)
                    &&& l1.stash == l0.stash
                    &&& l1.total == l0.total
                    &&& l1.active == l0.active - moved
                    &&& l1.last_reward == l0.last_reward
                    &&& l1.unlocking@ == l0.unlocking@.push(
                        UnlockChunk { value: moved as u128, era: old(self).spec_unbond_era() as u32 },
                    )
                    &&& final(self).locks@ == old(self).locks@.insert(l0.stash, l1.total)
                    &&& final(self).events@ == old(self).events@.push(
                        Event::Unbonded(l0.stash, moved as u128),
                    )
                } else {
                    *final(self) == *old(self)
                }
            }),
    {
        let nothing_to_move = match self.ledger.get(controller) {
            Some(l) => value == 0 || l.active == 0,
            None => {
                proof {
                    assert(false);
                }
                true
            },
        };
        if nothing_to_move {
            return;
        }
        let mut l0 = match self.ledger.take(controller) {
            Some(l) => l,
            None => {
                proof {
                    assert(false);
                }
                return;
            },
        };
        let era: EraIndex = match self.current_era {
            Some(e) => e + self.config.bonding_duration,
            None => self.config.bonding_duration,
        };
        let moved = l0.unbond_chunk(value, self.config.minimum_balance, era);
        let stash = l0.stash;
        self.events.push(Event::Unbonded(stash, moved));
        self.update_ledger(controller, l0);
        proof {
            let ghost lnew = self.ledger@[controller];
            assert(self.ledger@ =~= old(self).ledger@.insert(controller, lnew));
        }
    }

    /// What blocks an unbond call, if anything.
    pub open spec fn unbond_check(&self, controller: u64) -> Option<Error> {
        if !self.ledger@.contains_key(controller) {
            Some(Error::NotController)
        } else if self.ledger@[controller].unlocking@.len() >= MAX_UNLOCKING_CHUNKS {
            Some(Error::NoMoreChunks)
        } else {
            None
        }
    }

    /// Schedule up to `value` of the active stake for unlock after the
    /// bonding duration.  Fails when the unlocking queue is already full.
    pub fn unbond(&mut self, controller: u64, value: u128) -> (r: Result<(), Error>)
        requires
            old(self).wf(),
            old(self).unbond_era_fits(),
        ensures
            final(self).wf(),
            Staking::same_admin(old(self), final(self)),
            Staking::same_eras(old(self), final(self)),
            Staking::same_slashing(old(self), final(self)),
            Staking::same_registry(old(self), final(self)),
            final(self).bonded@ == old(self).bonded@,
            final(self).payee@ == old(self).payee@,
            match r {
                Ok(()) => {
                    let l0 = old(self).ledger@[controller];
                    let moved = unbonded_amount(
                        l0.active as int,
                        value as int,
                        old(self).config.minimum_balance as int,
                    );
                    &&& old(self).unbond_check(controller).is_none()
                    &&& final(self).ledger@.contains_key(controller)
                    &&& ({
                        let l1 = final(self).ledger@[controller];
                        &&& l1.total == l0.total
                        &&& l1.stash == l0.stash
                        &&& l1.active == l0.active - moved
                        &&& l1.unlocking@.len() <= MAX_UNLOCKING_CHUNKS
                        &&& (moved > 0 ==> {
                            &&& l1.unlocking@ == l0.unlocking@.push(
                                UnlockChunk {
                                    value: moved as u128,
                                    era: old(self).spec_unbond_era() as u32,
                                },
                            )
                            &&& final(self).ledger@ == old(self).ledger@.insert(controller, l1)
                            &&& final(self).locks@ == old(self).locks@.insert(
                                l0.stash,
                                l1.total,
                            )
                            &&& final(self).events@ == old(self).events@.push(
                                Event::Unbonded(l0.stash, moved as u128),
                            )
                        })
                        &&& (moved == 0 ==> *final(self) == *old(self))
                    })
                },
                Err(e) => {
                    &&& old(self).unbond_check(controller) == Some(e)
                    &&& *final(self) == *old(self)
                },
            },
    {
        let len = match self.ledger.get(controller) {
            Some(l) => l.unlocking.len(),
            None => {
                return Err(Error::NotController);
            },
        };
        if len >= MAX_UNLOCKING_CHUNKS {
            return Err(Error::NoMoreChunks);
        }
        self.unbond_balance(controller, value);
        Ok(())
    }

    /// Restore up to `value` from the most recently scheduled unlocking
    /// chunks back into the active stake.  Fails when nothing is unlocking.
    pub fn rebond(&mut self, controller: u64, value: u128) -> (r: Result<(), Error>)
        requires
            old(self).wf(),
        ensures
            final(self).wf(),
            Staking::same_admin(old(self), final(self)),
            Staking::same_eras(old(self), final(self)),
            Staking::same_slashing(old(self), final(self)),
            Staking::same_registry(old(self), final(self)),
            final(self).bonded@ == old(self).bonded@,
            final(self).payee@ == old(self).payee@,
            match r {
                Ok(()) => {
                    let l0 = old(self).ledger@[controller];
                    let moved = if value as int <= unlocking_sum(l0.unlocking@) {
                        value as int
                    } else {
                        unlocking_sum(l0.unlocking@)
                    };
                    let l1 = final(self).ledger@[controller];
                    &&& old(self).ledger@.contains_key(controller)
                    &&& l0.unlocking@.len() > 0
                    &&& final(self).ledger@ == old(self).ledger@.insert(controller, l1)
                    &&& l1.stash == l0.stash
                    &&& l1.total == l0.total
                    &&& l1.active == l0.active + moved
                    &&& final(self).locks@ == old(self).locks@.insert(l0.stash, l1.total)
                    &&& final(self).events@ == old(self).events@.push(
                        Event::Bonded(l0.stash, moved as u128),
                    )
                },
                Err(e) => {
                    &&& *final(self) == *old(self)
                    &&& (e == Error::NotController
                        ==> !old(self).ledger@.contains_key(controller))
                    &&& (e == Error::NoUnlockChunk ==> old(self).ledger@.contains_key(controller)
                        && old(self).ledger@[controller].unlocking@.len() == 0)
                    &&& (e == Error::NotController || e == Error::NoUnlockChunk)
                },
            },
    {
        let has_chunks = match self.ledger.get(controller) {
            Some(l) => l.unlocking.len() > 0,
            None => {
                return Err(Error::NotController);
            },
        };
        if !has_chunks {
            return Err(Error::NoUnlockChunk);
        }
        let l0 = match self.ledger.take(controller) {
            Some(l) => l,
            None => {
                proof {
                    assert(false);
                }
                return Err(Error::NotController);
            },
        };
        proof {
            crate::types::lemma_unlocking_sum_nonneg(l0.unlocking@);
        }
        let initial_bonded = l0.active;
        let l1 = l0.rebond(value);
        let stash = l1.stash;
        let gained = l1.active - initial_bonded;
        self.events.push(Event::Bonded(stash, gained));
        self.update_ledger(controller, l1);
        proof {
            assert(self.ledger@ =~= old(self).ledger@.insert(controller, self.ledger@[controller]));
        }
        Ok(())
    }

    /// Remove the registry and slashing-span records of a stash.  Bonding
    /// records are the caller's business.
    fn remove_stash_records(&mut self, stash: u64)
        requires
            old(self).stores_wf(),
        ensures
            final(self).stores_wf(),
            Staking::same_admin(old(self), final(self)),
            Staking::same_eras(old(self), final(self)),
            final(self).bonded@ == old(self).bonded@,
            final(self).ledger@ == old(self).ledger@,
            final(self).locks@ == old(self).locks@,
            final(self).events@ == old(self).events@,
            final(self).payee@ == old(self).payee@.remove(stash),
            final(self).validators@ == old(self).validators@.remove(stash),
            final(self).nominators@ == old(self).nominators@.remove(stash),
            final(self).permissioned_validators@ == old(self).permissioned_validators@,
            final(self).slashing_spans@ == old(self).slashing_spans@.remove(stash),
            final(self).unapplied_slashes@ == old(self).unapplied_slashes@,
            final(self).validator_slash_in_era@ == old(self).validator_slash_in_era@,
            final(self).nominator_slash_in_era@ == old(self).nominator_slash_in_era@,
            final(self).earliest_unapplied_slash == old(self).earliest_unapplied_slash,
            forall|k: (u64, u64)| #[trigger] final(self).span_slash@.contains_key(k)
                ==> old(self).span_slash@.contains_key(k) && k.0 != stash
                    && final(self).span_slash@[k] == old(self).span_slash@[k],
            forall|k: (u64, u64)| old(self).span_slash@.contains_key(k) && k.0 != stash
                ==> #[trigger] final(self).span_slash@.contains_key(k),
    {
        self.payee.take(stash);
        self.validators.take(stash);
        self.nominators.take(stash);
        self.slashing_spans.take(stash);
        self.span_slash.remove_prefix(stash);
    }

    /// Remove all staking records of a stash: its pairing, its controller's
    /// ledger, its payee, its declarations and its slashing spans.
    fn kill_stash(&mut self, stash: u64) -> (r: Result<(), Error>)
        requires
            old(self).stores_wf(),
        ensures
            final(self).stores_wf(),
            Staking::same_admin(old(self), final(self)),
            Staking::same_eras(old(self), final(self)),
            final(self).events@ == old(self).events@,
            final(self).locks@ == old(self).locks@,
            final(self).permissioned_validators@ == old(self).permissioned_validators@,
            final(self).unapplied_slashes@ == old(self).unapplied_slashes@,
            final(self).validator_slash_in_era@ == old(self).validator_slash_in_era@,
            final(self).nominator_slash_in_era@ == old(self).nominator_slash_in_era@,
            final(self).earliest_unapplied_slash == old(self).earliest_unapplied_slash,
            match r {
                Ok(()) => {
                    &&& old(self).bonded@.contains_key(stash)
                    &&& final(self).bonded@ == old(self).bonded@.remove(stash)
                    &&& final(self).ledger@ == old(self).ledger@.remove(
                        old(self).bonded@[stash],
                    )
                    &&& final(self).payee@ == old(self).payee@.remove(stash)
                    &&& final(self).validators@ == old(self).validators@.remove(stash)
                    &&& final(self).nominators@ == old(self).nominators@.remove(stash)
                    &&& final(self).slashing_spans@ == old(self).slashing_spans@.remove(stash)
                    &&& (forall|k: (u64, u64)| #[trigger] final(self).span_slash@.contains_key(k)
                        ==> old(self).span_slash@.contains_key(k) && k.0 != stash
                            && final(self).span_slash@[k] == old(self).span_slash@[k])
                    &&& (forall|k: (u64, u64)|
                        old(self).span_slash@.contains_key(k) && k.0 != stash
                            ==> #[trigger] final(self).span_slash@.contains_key(k))
                },
                Err(e) => {
                    &&& e == Error::NotStash
                    &&& !old(self).bonded@.contains_key(stash)
                    &&& *final(self) == *old(self)
                },
            },
    {
        let controller = match self.bonded.take(stash) {
            Some(c) => c,
            None => {
                return Err(Error::NotStash);
            },
        };
        self.ledger.take(controller);
        self.remove_stash_records(stash);
        Ok(())
    }

    /// Coherence survives removing a bonded pair together.
    proof fn lemma_links_after_kill(pre: &Staking, post: &Staking, stash: u64, controller: u64)
        requires
            pre.links_wf(),
            pre.bonded@.contains_key(stash),
            pre.bonded@[stash] == controller,
            post.bonded@ == pre.bonded@.remove(stash),
            post.ledger@ == pre.ledger@.remove(controller),
        ensures
            post.links_wf(),
    {
        assert forall|s: u64| #[trigger] post.bonded@.contains_key(s) implies
            post.ledger@.contains_key(post.bonded@[s])
                && post.ledger@[post.bonded@[s]].stash == s by {
            assert(pre.bonded@.contains_key(s) && s != stash);
            let c = pre.bonded@[s];
            assert(pre.ledger@.contains_key(c) && pre.ledger@[c].stash == s);
            if c == controller {
                assert(pre.ledger@[controller].stash == stash);
            }
        }
        assert forall|c: u64| #[trigger] post.ledger@.contains_key(c) implies
            post.bonded@.contains_key(post.ledger@[c].stash)
                && post.bonded@[post.ledger@[c].stash] == c by {
            assert(pre.ledger@.contains_key(c) && c != controller);
            let s = pre.ledger@[c].stash;
            assert(pre.bonded@.contains_key(s) && pre.bonded@[s] == c);
            if s == stash {
                assert(pre.bonded@[stash] == controller);
            }
        }
    }

    /// What blocks a withdraw call, if anything.
    pub open spec fn withdraw_check(&self, controller: u64) -> Option<Error> {
        if !self.ledger@.contains_key(controller) {
            Some(Error::NotController)
        } else {
            None
        }
    }

    /// The chunks of `l` still unmatured under this state's current era.
    pub open spec fn spec_kept_chunks(&self, l: StakingLedger) -> Seq<UnlockChunk> {
        match self.current_era {
            Some(cur) => unmatured(l.unlocking@, cur),
            None => l.unlocking@,
        }
    }

    /// Drop every matured chunk of the controller's ledger.  A ledger left
    /// fully empty — nothing active, nothing unlocking — has every staking
    /// record of its stash deleted and the stash's balance lock released;
    /// any later lookup reports it gone.  Otherwise the reduced ledger and
    /// lock are persisted.
    pub fn withdraw_unbonded(&mut self, controller: u64) -> (r: Result<(), Error>)
        requires
            old(self).wf(),
        ensures
            final(self).wf(),
            Staking::same_admin(old(self), final(self)),
            Staking::same_eras(old(self), final(self)),
            final(self).events@ == old(self).events@,
            final(self).permissioned_validators@ == old(self).permissioned_validators@,
            match r {
                Ok(()) => {
                    let l0 = old(self).ledger@[controller];
                    let kept = old(self).spec_kept_chunks(l0);
                    &&& old(self).withdraw_check(controller).is_none()
                    &&& if kept.len() == 0 && l0.active == 0 {
                        &&& final(self).bonded@ == old(self).bonded@.remove(l0.stash)
                        &&& final(self).ledger@ == old(self).ledger@.remove(controller)
                        &&& final(self).payee@ == old(self).payee@.remove(l0.stash)
                        &&& final(self).validators@ == old(self).validators@.remove(l0.stash)
                        &&& final(self).nominators@ == old(self).nominators@.remove(l0.stash)
                        &&& final(self).locks@ == old(self).locks@.remove(l0.stash)
                        &&& final(self).slashing_spans@ == old(self).slashing_spans@.remove(
                            l0.stash,
                        )
                    } else {
                        let l1 = final(self).ledger@[controller];
                        &&& final(self).ledger@ == old(self).ledger@.insert(controller, l1)
                        &&& l1.stash == l0.stash
                        &&& l1.active == l0.active
                        &&& l1.last_reward == l0.last_reward
                        &&& l1.unlocking@ == kept
                        &&& l1.total == l1.active + unlocking_sum(kept)
                        &&& final(self).locks@ == old(self).locks@.insert(l0.stash, l1.total)
                        &&& final(self).bonded@ == old(self).bonded@
                        &&& final(self).payee@ == old(self).payee@
                        &&& Staking::same_registry(old(self), final(self))
                        &&& Staking::same_slashing(old(self), final(self))
                    }
                },
                Err(e) => {
                    &&& old(self).withdraw_check(controller) == Some(e)
                    &&& *final(self) == *old(self)
                },
            },
    {
        let l0 = match self.ledger.take(controller) {
            Some(l) => l,
            None => {
                return Err(Error::NotController);
            },
        };
        let ghost pre_take = *old(self);
        let l1 = match self.current_era {
            Some(cur) => l0.consolidate_unlocked(cur),
            None => l0,
        };
        if l1.unlocking.len() == 0 && l1.active == 0 {
            let stash = l1.stash;
            proof {
                assert(old(self).bonded@.contains_key(stash));
            }
            self.bonded.take(stash);
            self.remove_stash_records(stash);
            self.locks.take(stash);
            proof {
                Staking::lemma_links_after_kill(
                    old(self),
                    self,
                    stash,
                    old(self).bonded@[stash],
                );
                assert(self.ledger@ =~= old(self).ledger@.remove(controller));
            }
            Ok(())
        } else {
            self.update_ledger(controller, l1);
            proof {
                let ghost lnew = self.ledger@[controller];
                assert(self.ledger@ =~= old(self).ledger@.insert(controller, lnew));
            }
            Ok(())
        }
    }

    /// Take a stash out of both the validator and the nominator registries.
    fn chill_stash(&mut self, stash: u64)
        requires
            old(self).stores_wf(),
        ensures
            final(self).stores_wf(),
            Staking::same_admin(old(self), final(self)),
            Staking::same_eras(old(self), final(self)),
            Staking::same_slashing(old(self), final(self)),
            Staking::same_bonding(old(self), final(self)),
            final(self).events@ == old(self).events@,
            final(self).permissioned_validators@ == old(self).permissioned_validators@,
            final(self).validators@ == old(self).validators@.remove(stash),
            final(self).nominators@ == old(self).nominators@.remove(stash),
    {
        self.validators.take(stash);
        self.nominators.take(stash);
    }

    /// Step back from validating and nominating, immediately.
    pub fn chill(&mut self, controller: u64) -> (r: Result<(), Error>)
        requires
            old(self).wf(),
        ensures
            final(self).wf(),
            Staking::same_admin(old(self), final(self)),
            Staking::same_eras(old(self), final(self)),
            Staking::same_slashing(old(self), final(self)),
            Staking::same_bonding(old(self), final(self)),
            final(self).events@ == old(self).events@,
            final(self).permissioned_validators@ == old(self).permissioned_validators@,
            match r {
                Ok(()) => {
                    let stash = old(self).ledger@[controller].stash;
                    &&& old(self).ledger@.contains_key(controller)
                    &&& final(self).validators@ == old(self).validators@.remove(stash)
                    &&& final(self).nominators@ == old(self).nominators@.remove(stash)
                },
                Err(e) => {
                    &&& e == Error::NotController
                    &&& !old(self).ledger@.contains_key(controller)
                    &&& *final(self) == *old(self)
                },
            },
    {
        let stash = match self.ledger.get(controller) {
            Some(l) => l.stash,
            None => {
                return Err(Error::NotController);
            },
        };
        self.chill_stash(stash);
        Ok(())
    }

    /// Re-route where this controller's stash is paid.
    pub fn set_payee(&mut self, controller: u64, payee: RewardDestination) -> (r: Result<
        (),
        Error,
    >)
        requires
            old(self).wf(),
        ensures
            final(self).wf(),
            Staking::same_admin(old(self), final(self)),
            Staking::same_eras(old(self), final(self)),
            Staking::same_slashing(old(self), final(self)),
            Staking::same_registry(old(self), final(self)),
            final(self).events@ == old(self).events@,
            final(self).bonded@ == old(self).bonded@,
            final(self).ledger@ == old(self).ledger@,
            final(self).locks@ == old(self).locks@,
            match r {
                Ok(()) => {
                    &&& old(self).ledger@.contains_key(controller)
                    &&& final(self).payee@ == old(self).payee@.insert(
                        old(self).ledger@[controller].stash,
                        payee,
                    )
                },
                Err(e) => {
                    &&& e == Error::NotController
                    &&& !old(self).ledger@.contains_key(controller)
                    &&& *final(self) == *old(self)
                },
            },
    {
        let stash = match self.ledger.get(controller) {
            Some(l) => l.stash,
            None => {
                return Err(Error::NotController);
            },
        };
        self.payee.insert(stash, payee);
        Ok(())
    }

    /// What blocks re-pairing a stash to a new controller, if anything.
    pub open spec fn set_controller_check(&self, stash: u64, new_controller: u64) -> Option<
        Error,
    > {
        if !self.bonded@.contains_key(stash) {
            Some(Error::NotStash)
        } else if self.ledger@.contains_key(new_controller) {
            Some(Error::AlreadyPaired)
        } else {
            None
        }
    }

    /// Re-pair a stash with a new controller, moving the ledger over.
    pub fn set_controller(&mut self, stash: u64, new_controller: u64) -> (r: Result<(), Error>)
        requires
            old(self).wf(),
        ensures
            final(self).wf(),
            Staking::same_admin(old(self), final(self)),
            Staking::same_eras(old(self), final(self)),
            Staking::same_slashing(old(self), final(self)),
            Staking::same_registry(old(self), final(self)),
            final(self).events@ == old(self).events@,
            final(self).payee@ == old(self).payee@,
            final(self).locks@ == old(self).locks@,
            match r {
                Ok(()) => {
                    let c0 = old(self).bonded@[stash];
                    &&& old(self).set_controller_check(stash, new_controller).is_none()
                    &&& final(self).bonded@ == old(self).bonded@.insert(stash, new_controller)
                    &&& final(self).ledger@ == old(self).ledger@.remove(c0).insert(
                        new_controller,
                        old(self).ledger@[c0],
                    )
                },
                Err(e) => {
                    &&& old(self).set_controller_check(stash, new_controller) == Some(e)
                    &&& *final(self) == *old(self)
                },
            },
    {
        let old_controller = match self.bonded.get(stash) {
            Some(c) => *c,
            None => {
                return Err(Error::NotStash);
            },
        };
        if self.ledger.contains_key(new_controller) {
            return Err(Error::AlreadyPaired);
        }
        self.bonded.insert(stash, new_controller);
        match self.ledger.take(old_controller) {
            Some(l) => {
                self.ledger.insert(new_controller, l);
            },
            None => {
                proof {
                    assert(false);
                }
            },
        }
        Ok(())
    }

    /// What blocks a validate call, if anything.
    pub open spec fn validate_check(&self, controller: u64, prefs: ValidatorPrefs) -> Option<
        Error,
    > {
        if !self.ledger@.contains_key(controller) {
            Some(Error::NotController)
        } else if self.ledger@[controller].active < self.min_bond_threshold {
            Some(Error::InsufficientValue)
        } else if match self.validator_commission {
            Commission::Global(g) => prefs.commission != g,
            Commission::Individual => false,
        } {
            Some(Error::InvalidCommission)
        } else {
            None
        }
    }

    /// Declare the desire to validate.  Requires enough active stake and,
    /// under a global commission regime, exactly the mandated commission.
    /// Clears any prior nomination.
    pub fn validate(&mut self, controller: u64, prefs: ValidatorPrefs) -> (r: Result<(), Error>)
        requires
            old(self).wf(),
            prefs.commission.wf(),
        ensures
            final(self).wf(),
            Staking::same_admin(old(self), final(self)),
            Staking::same_eras(old(self), final(self)),
            Staking::same_slashing(old(self), final(self)),
            Staking::same_bonding(old(self), final(self)),
            final(self).events@ == old(self).events@,
            final(self).permissioned_validators@ == old(self).permissioned_validators@,
            match r {
                Ok(()) => {
                    let stash = old(self).ledger@[controller].stash;
                    &&& old(self).validate_check(controller, prefs).is_none()
                    &&& final(self).nominators@ == old(self).nominators@.remove(stash)
                    &&& final(self).validators@ == old(self).validators@.insert(stash, prefs)
                },
                Err(e) => {
                    &&& old(self).validate_check(controller, prefs) == Some(e)
                    &&& *final(self) == *old(self)
                },
            },
    {
        let (stash, active) = match self.ledger.get(controller) {
            Some(l) => (l.stash, l.active),
            None => {
                return Err(Error::NotController);
            },
        };
        if active < self.min_bond_threshold {
            return Err(Error::InsufficientValue);
        }
        match self.validator_commission {
            Commission::Global(g) => {
                if prefs.commission != g {
                    return Err(Error::InvalidCommission);
                }
            },
            Commission::Individual => {},
        }
        self.nominators.take(stash);
        self.validators.insert(stash, prefs);
        Ok(())
    }

    /// What blocks a nominate call, if anything.
    pub open spec fn nominate_check(&self, controller: u64, targets: Seq<u64>) -> Option<Error> {
        if !self.ledger@.contains_key(controller) {
            Some(Error::NotController)
        } else if targets.len() == 0 {
            Some(Error::EmptyTargets)
        } else {
            None
        }
    }

    /// Declare nomination targets, at most [`MAX_NOMINATIONS`] of them.  The
    /// caller supplies the compliance answer: whether the nominator's
    /// credential is valid through the whole bonding-duration lookahead.
    /// Without it, nothing happens — the call is accepted and changes no
    /// state, as the engine quietly refuses non-compliant voters.
    pub fn nominate(&mut self, controller: u64, targets: Vec<u64>, cdd_ok: bool) -> (r: Result<
        (),
        Error,
    >)
        requires
            old(self).wf(),
        ensures
            final(self).wf(),
            Staking::same_admin(old(self), final(self)),
            Staking::same_eras(old(self), final(self)),
            Staking::same_slashing(old(self), final(self)),
            Staking::same_bonding(old(self), final(self)),
            final(self).permissioned_validators@ == old(self).permissioned_validators@,
            match r {
                Ok(()) => {
                    let stash = old(self).ledger@[controller].stash;
                    let kept = if targets@.len() <= MAX_NOMINATIONS {
                        targets@
                    } else {
                        targets@.take(MAX_NOMINATIONS as int)
                    };
                    &&& old(self).nominate_check(controller, targets@).is_none()
                    &&& if cdd_ok {
                        &&& final(self).nominators@ == old(self).nominators@.insert(
                            stash,
                            final(self).nominators@[stash],
                        )
                        &&& final(self).nominators@[stash].targets@ == kept
                        &&& final(self).nominators@[stash].submitted_in == (match old(
                            self,
                        ).current_era {
                            Some(e) => e,
                            None => 0,
                        })
                        &&& final(self).nominators@[stash].suppressed == false
                        &&& final(self).validators@ == old(self).validators@.remove(stash)
                        &&& final(self).events@.len() == old(self).events@.len() + 1
                        &&& final(self).events@.drop_last() == old(self).events@
                        &&& (final(self).events@.last() matches Event::Nominated(s2, ts)
                            && s2 == stash && ts@ == kept)
                    } else {
                        *final(self) == *old(self)
                    }
                },
                Err(e) => {
                    &&& old(self).nominate_check(controller, targets@) == Some(e)
                    &&& *final(self) == *old(self)
                },
            },
    {
        let stash = match self.ledger.get(controller) {
            Some(l) => l.stash,
            None => {
                return Err(Error::NotController);
            },
        };
        if targets.len() == 0 {
            return Err(Error::EmptyTargets);
        }
        if !cdd_ok {
            return Ok(());
        }
        let mut kept = targets;
        if kept.len() > MAX_NOMINATIONS {
            kept.truncate(MAX_NOMINATIONS);
            proof {
                assert(kept@ =~= kept@);
            }
        }
        let submitted_in: EraIndex = match self.current_era {
            Some(e) => e,
            None => 0,
        };
        let kept_copy = clone_targets(&kept);
        let nominations = Nominations { targets: kept, submitted_in, suppressed: false };
        self.validators.take(stash);
        self.nominators.insert(stash, nominations);
        self.events.push(Event::Nominated(stash, kept_copy));
        Ok(())
    }
}

/// A sorted sequence with one more value placed before its first strictly
/// greater element.
pub open spec fn spec_sorted_insert(s: Seq<u32>, x: u32) -> Seq<u32>
    decreases s.len(),
{
    if s.len() == 0 {
        seq![x]
    } else if s[0] <= x {
        seq![s[0]] + spec_sorted_insert(s.skip(1), x)
    } else {
        seq![x] + s
    }
}

/// The ascending insertion sort of a list of indices.
pub open spec fn spec_sort_indices(s: Seq<u32>) -> Seq<u32>
    decreases s.len(),
{
    if s.len() == 0 {
        Seq::empty()
    } else {
        spec_sorted_insert(spec_sort_indices(s.drop_last()), s.last())
    }
}

/// Inserting into a sorted sequence at the first strictly greater position
/// is what [`spec_sorted_insert`] does.
proof fn lemma_sorted_insert_at(s: Seq<u32>, x: u32, p: int)
    requires
        forall|a: int, b: int| 0 <= a < b < s.len() ==> s[a] <= s[b],
        0 <= p <= s.len(),
        forall|j: int| 0 <= j < p ==> s[j] <= x,
        p < s.len() ==> s[p] > x,
    ensures
        spec_sorted_insert(s, x) == s.insert(p, x),
    decreases p,
{
    if p == 0 {
        if s.len() == 0 {
            assert(spec_sorted_insert(s, x) =~= s.insert(0, x));
        } else {
            assert(spec_sorted_insert(s, x) =~= s.insert(0, x));
        }
    } else {
        assert(s[0] <= x);
        lemma_sorted_insert_at(s.skip(1), x, p - 1);
        assert(spec_sorted_insert(s, x) == seq![s[0]] + s.skip(1).insert(p - 1, x));
        assert(seq![s[0]] + s.skip(1).insert(p - 1, x) =~= s.insert(p, x));
    }
}

/// What scanning a sorted index list against a queue of `n0` entries turns
/// up, from position `k` on: a repeated index first, an out-of-range index
/// second, or nothing.
pub open spec fn spec_cancel_check(ss: Seq<u32>, n0: int, k: int) -> Option<Error>
    decreases ss.len() - k,
{
    if k < 0 || k >= ss.len() {
        None
    } else if (ss[k] as int) < k {
        Some(Error::DuplicateIndex)
    } else if ss[k] as int >= n0 {
        Some(Error::InvalidSlashIndex)
    } else {
        spec_cancel_check(ss, n0, k + 1)
    }
}

/// The queue after the entries at the sorted indices are removed in
/// ascending order, each position shifted by the removals before it.
pub open spec fn spec_cancel_remove(q: Seq<UnappliedSlash>, ss: Seq<u32>, k: int)
    -> Seq<UnappliedSlash>
    decreases ss.len() - k,
{
    if k < 0 || k >= ss.len() {
        q
    } else {
        spec_cancel_remove(q.remove(ss[k] as int - k), ss, k + 1)
    }
}

/// An ascending copy of a list of indices, by insertion.
fn sort_indices(v: &Vec<u32>) -> (r: Vec<u32>)
    ensures
        r@.len() == v@.len(),
        r@ == spec_sort_indices(v@),
        forall|a: int, b: int| 0 <= a < b < r@.len() ==> r@[a] <= r@[b],
{
    let n = v.len();
    let mut out: Vec<u32> = Vec::new();
    let mut i: usize = 0;
    proof {
        assert(v@.take(0) =~= Seq::<u32>::empty());
    }
    while i < n
        invariant
            n == v@.len(),
            i <= n,
            out@.len() == i,
            out@ == spec_sort_indices(v@.take(i as int)),
            forall|a: int, b: int| 0 <= a < b < out@.len() ==> out@[a] <= out@[b],
        decreases n - i,
    {
        let x = v[i];
        proof {
            assert(v@.take(i as int + 1).drop_last() =~= v@.take(i as int));
            assert(v@.take(i as int + 1).last() == v@[i as int]);
        }
        let mut p: usize = 0;
        while p < out.len() && out[p] <= x
            invariant
                p <= out@.len(),
                forall|j: int| 0 <= j < p ==> out@[j] <= x,
            decreases out@.len() - p,
        {
            p += 1;
        }
        let ghost o0 = out@;
        out.insert(p, x);
        proof {
            lemma_sorted_insert_at(o0, x, p as int);
            assert(out@ == o0.insert(p as int, x));
            assert forall|a: int, b: int| 0 <= a < b < out@.len() implies out@[a] <= out@[b] by {
                let av: u32 = if a < p { o0[a] } else if a == p { x } else { o0[a - 1] };
                let bv: u32 = if b < p { o0[b] } else if b == p { x } else { o0[b - 1] };
                assert(out@[a] == av && out@[b] == bv);
                if b > p && a >= p {
                    assert(p < o0.len() ==> o0[p as int] > x);
                }
            }
        }
        i += 1;
    }
    proof {
        assert(v@.take(n as int) =~= v@);
    }
    out
}

/// What a successful cancellation leaves: the era's queue is exactly the
/// old one with the sorted indices removed in ascending order, each
/// shifted by the removals before it; every other queue stays.
pub open spec fn spec_cancel_applied(
    pre: &Staking,
    post: &Staking,
    era: EraIndex,
    indices: Seq<u32>,
) -> bool {
    let ss = spec_sort_indices(indices);
    let q0 = if pre.unapplied_slashes@.contains_key(era as u64) {
        pre.unapplied_slashes@[era as u64]@
    } else {
        Seq::<UnappliedSlash>::empty()
    };
    &&& spec_cancel_check(ss, q0.len() as int, 0) is None
    &&& post.unapplied_slashes@.contains_key(era as u64)
    &&& post.unapplied_slashes@[era as u64]@ == spec_cancel_remove(q0, ss, 0)
    &&& post.unapplied_slashes@[era as u64]@.len() == q0.len() - indices.len()
    &&& (forall|k: u64| k != era as u64
        ==> (#[trigger] post.unapplied_slashes@.contains_key(k)
            == pre.unapplied_slashes@.contains_key(k))
            && (pre.unapplied_slashes@.contains_key(k)
                ==> post.unapplied_slashes@[k] == pre.unapplied_slashes@[k]))
}

/// Whether the oldest bonded era is older than the first kept one.
fn first_prunable(v: &Vec<(EraIndex, SessionIndex)>, first_kept: EraIndex) -> (r: bool)
    requires
        v@.len() > 0,
    ensures
        r == (v@[0].0 < first_kept),
{
    v[0].0 < first_kept
}

/// Every stored exposure accounts for its total exactly: the validator's
/// own stake plus the sum of the backers' portions is the total, in every
/// well-formed state and for every stored era and validator.
pub proof fn lemma_exposure_accounting(s: &Staking, era: u64, validator: u64)
    requires
        s.wf(),
        s.eras_stakers@.contains_key((era, validator)),
    ensures
        s.eras_stakers@[(era, validator)].own as int + crate::types::others_sum(
            s.eras_stakers@[(era, validator)].others@,
        ) == s.eras_stakers@[(era, validator)].total as int,
{
}

/// Every stored ledger accounts for its total exactly: the active stake
/// plus the sum of the unlocking queue is the total, in every well-formed
/// state and for every bonded controller — after every operation, since
/// each operation returns a well-formed state.
pub proof fn lemma_ledger_accounting(s: &Staking, controller: u64)
    requires
        s.wf(),
        s.ledger@.contains_key(controller),
    ensures
        s.ledger@[controller].active as int + unlocking_sum(
            s.ledger@[controller].unlocking@,
        ) == s.ledger@[controller].total as int,
        s.ledger@[controller].unlocking@.len() <= MAX_UNLOCKING_CHUNKS,
{
}

/// The claimed-era high-water mark moves only upward: a successful payout
/// claim of `era` finds every earlier mark strictly below it, records
/// `era` itself, and forecloses any later successful claim of an era at or
/// below it.
pub proof fn lemma_payout_claims_monotonic(
    pre: &Staking,
    post: &Staking,
    who: u64,
    era: EraIndex,
)
    requires
        pre.payout_check(who, era).is_none(),
        post.ledger@.contains_key(who),
        post.ledger@[who].last_reward == Some(era),
    ensures
        (match pre.ledger@[who].last_reward {
            Some(lr) => lr < era,
            None => true,
        }),
        forall|later: EraIndex| post.payout_check(who, later).is_none() ==> later > era,
{
}

/// Under a fixed global commission, a validate call with an unchanged,
/// mismatching commission fails identically both times: the first failure
/// returns `InvalidCommission` and leaves the state untouched, so the
/// second call's check reads the same state and refuses the same way.
pub proof fn lemma_validate_mismatch_repeats(
    first: &Staking,
    second: &Staking,
    controller: u64,
    prefs: ValidatorPrefs,
)
    requires
        first.validate_check(controller, prefs) == Some(Error::InvalidCommission),
        *second == *first,
    ensures
        second.validate_check(controller, prefs) == Some(Error::InvalidCommission),
{
}

/// Whether a `Slashed` trace for `who` was appended between the event-log
/// positions `lo` (inclusive) and `hi` (exclusive).
pub open spec fn spec_slashed_event_between(events: Seq<Event>, lo: int, hi: int, who: u64)
    -> bool {
    exists|idx: int| lo <= idx < hi && idx < events.len()
        && (#[trigger] events[idx] matches Event::Slashed(v, _) && v == who)
}

/// Being untouched composes across two steps.
pub proof fn lemma_untouched_trans(
    a: &Staking,
    b: &Staking,
    c: &Staking,
    se: u64,
    stash: u64,
)
    requires
        Staking::spec_offender_untouched(a, b, se, stash),
        Staking::spec_offender_untouched(b, c, se, stash),
        a.bonded@.contains_key(stash) ==> b.bonded@.contains_key(stash)
            && b.bonded@[stash] == a.bonded@[stash],
    ensures
        Staking::spec_offender_untouched(a, c, se, stash),
{
}

/// How a stored clipped exposure relates to its full counterpart: same
/// own stake and total, the backer list truncated to the biggest `maxn`,
/// drawn from the full backers and untouched when it already fits.
pub open spec fn clipped_ok(fe: Exposure, ce: Exposure, maxn: u32) -> bool {
    &&& ce.own == fe.own
    &&& ce.total == fe.total
    &&& ce.others@.len() == (if maxn as int <= fe.others@.len() {
        maxn as int
    } else {
        fe.others@.len() as int
    })
    &&& (fe.others@.len() <= maxn as int ==> ce.others@ == fe.others@)
    &&& (forall|j: int| 0 <= j < ce.others@.len()
        ==> fe.others@.contains(#[trigger] ce.others@[j]))
    &&& (fe.others@.len() > maxn as int ==> (forall|a: int, b: int|
        0 <= a < b < ce.others@.len()
            ==> (#[trigger] ce.others@[a]).value >= (#[trigger] ce.others@[b]).value))
}

/// The facts voter assembly establishes about every voter: a compliant
/// nominator, voting its slashable stake, over targets drawn from its
/// nomination with every target that was slashed after the nomination was
/// submitted filtered out.
pub open spec fn voters_ok_for(
    voters: Seq<crate::election::Voter>,
    s: &Staking,
    cdd: Seq<u64>,
) -> bool {
    forall|vi: int| 0 <= vi < voters.len() ==> {
        let v = #[trigger] voters[vi];
        &&& s.nominators@.contains_key(v.who)
        &&& cdd.contains(v.who)
        &&& v.stake == s.spec_slashable_balance_of(v.who)
        &&& (forall|t: int| 0 <= t < v.targets@.len() ==> {
            let tg = #[trigger] v.targets@[t];
            &&& s.nominators@[v.who].targets@.contains(tg)
            &&& (s.slashing_spans@.contains_key(tg)
                ==> s.nominators@[v.who].submitted_in
                    >= s.slashing_spans@[tg].last_nonzero_slash)
        })
    }
}

/// The facts candidate assembly establishes about every candidate.
pub open spec fn candidates_ok_for(
    cands: Seq<crate::election::Candidate>,
    s: &Staking,
    cdd: Seq<u64>,
) -> bool {
    forall|a: int| 0 <= a < cands.len() ==> {
        &&& (#[trigger] cands[a]).stake == s.spec_slashable_balance_of(cands[a].who)
        &&& s.spec_eligible(cands[a].who, cdd)
    }
}

/// Partial backer sums never exceed the whole, and are never negative.
pub proof fn lemma_backer_sum_take(s: Seq<(u64, u128)>, i: int)
    requires
        0 <= i <= s.len(),
    ensures
        0 <= crate::election::backer_sum(s.take(i)) <= crate::election::backer_sum(s),
    decreases s.len() - i,
{
    lemma_backer_sum_nonneg(s.take(i));
    assert(s.take(s.len() as int) =~= s);
    if i < s.len() {
        lemma_backer_sum_take(s, i + 1);
        assert(s.take(i + 1).drop_last() =~= s.take(i));
        assert(s.take(i + 1).last() == s[i]);
    }
}

/// Backer sums are never negative.
pub proof fn lemma_backer_sum_nonneg(s: Seq<(u64, u128)>)
    ensures
        0 <= crate::election::backer_sum(s),
    decreases s.len(),
{
    if s.len() > 0 {
        lemma_backer_sum_nonneg(s.drop_last());
    }
}

/// A plain copy of a target list.
fn clone_targets(v: &Vec<u64>) -> (r: Vec<u64>)
    ensures
        r@ == v@,
{
    let n = v.len();
    let mut out: Vec<u64> = Vec::new();
    let mut i: usize = 0;
    while i < n
        invariant
            n == v@.len(),
            i <= n,
            out@ == v@.take(i as int),
        decreases n - i,
    {
        out.push(v[i]);
        proof {
            assert(out@ =~= v@.take(i as int + 1));
        }
        i += 1;
    }
    proof {
        assert(v@.take(n as int) =~= v@);
    }
    out
}

impl Staking {
    /// Set the ideal number of validators.
    pub fn set_validator_count(&mut self, new: u32)
        requires
            old(self).wf(),
        ensures
            final(self).wf(),
            (*final(self) == Staking { validator_count: new, ..*old(self) }),
    {
        self.validator_count = new;
    }

    /// Set the validators that can never be slashed or kicked.
    pub fn set_invulnerables(&mut self, validators: Vec<u64>)
        requires
            old(self).wf(),
        ensures
            final(self).wf(),
            (*final(self) == Staking { invulnerables: final(self).invulnerables, ..*old(self) }),
            final(self).invulnerables@ == validators@,
    {
        self.invulnerables = validators;
    }

    /// Force there to be no new eras indefinitely.
    pub fn force_no_eras(&mut self)
        requires
            old(self).wf(),
        ensures
            final(self).wf(),
            (*final(self) == Staking { force_era: Forcing::ForceNone, ..*old(self) }),
    {
        self.force_era = Forcing::ForceNone;
    }

    /// Force a new era at the end of the next session, once.
    pub fn force_new_era(&mut self)
        requires
            old(self).wf(),
        ensures
            final(self).wf(),
            (*final(self) == Staking { force_era: Forcing::ForceNew, ..*old(self) }),
    {
        self.force_era = Forcing::ForceNew;
    }

    /// Force a new era at the end of every session indefinitely.
    pub fn force_new_era_always(&mut self)
        requires
            old(self).wf(),
        ensures
            final(self).wf(),
            (*final(self) == Staking { force_era: Forcing::ForceAlways, ..*old(self) }),
    {
        self.force_era = Forcing::ForceAlways;
    }

    /// Ensure that the current session's end brings a new era, without
    /// weakening a standing always-force order.
    pub fn ensure_new_era(&mut self)
        requires
            old(self).wf(),
        ensures
            final(self).wf(),
            final(self).force_era == (match old(self).force_era {
                Forcing::ForceAlways => Forcing::ForceAlways,
                _ => Forcing::ForceNew,
            }),
            (*final(self) == Staking { force_era: final(self).force_era, ..*old(self) }),
    {
        match self.force_era {
            Forcing::ForceAlways => {},
            Forcing::ForceNew => {},
            _ => {
                self.force_era = Forcing::ForceNew;
            },
        }
    }

    /// Admit a stash into the pool of permissioned validators, compliance
    /// still pending.
    pub fn add_permissioned_validator(&mut self, validator: u64) -> (r: Result<(), Error>)
        requires
            old(self).wf(),
        ensures
            final(self).wf(),
            Staking::same_admin(old(self), final(self)),
            Staking::same_eras(old(self), final(self)),
            Staking::same_slashing(old(self), final(self)),
            Staking::same_bonding(old(self), final(self)),
            final(self).validators@ == old(self).validators@,
            final(self).nominators@ == old(self).nominators@,
            match r {
                Ok(()) => {
                    &&& !old(self).permissioned_validators@.contains_key(validator)
                    &&& final(self).permissioned_validators@
                        == old(self).permissioned_validators@.insert(
                        validator,
                        PermissionedValidator { compliance: Compliance::Pending },
                    )
                    &&& final(self).events@ == old(self).events@.push(
                        Event::PermissionedValidatorAdded(validator),
                    )
                },
                Err(e) => {
                    &&& e == Error::AlreadyExists
                    &&& old(self).permissioned_validators@.contains_key(validator)
                    &&& *final(self) == *old(self)
                },
            },
    {
        if self.permissioned_validators.contains_key(validator) {
            return Err(Error::AlreadyExists);
        }
        self.permissioned_validators.insert(
            validator,
            PermissionedValidator { compliance: Compliance::Pending },
        );
        self.events.push(Event::PermissionedValidatorAdded(validator));
        Ok(())
    }

    /// Remove a stash from the pool of permissioned validators.
    pub fn remove_permissioned_validator(&mut self, validator: u64) -> (r: Result<(), Error>)
        requires
            old(self).wf(),
        ensures
            final(self).wf(),
            Staking::same_admin(old(self), final(self)),
            Staking::same_eras(old(self), final(self)),
            Staking::same_slashing(old(self), final(self)),
            Staking::same_bonding(old(self), final(self)),
            final(self).validators@ == old(self).validators@,
            final(self).nominators@ == old(self).nominators@,
            match r {
                Ok(()) => {
                    &&& old(self).permissioned_validators@.contains_key(validator)
                    &&& final(self).permissioned_validators@
                        == old(self).permissioned_validators@.remove(validator)
                    &&& final(self).events@ == old(self).events@.push(
                        Event::PermissionedValidatorRemoved(validator),
                    )
                },
                Err(e) => {
                    &&& e == Error::NotExists
                    &&& !old(self).permissioned_validators@.contains_key(validator)
                    &&& *final(self) == *old(self)
                },
            },
    {
        if !self.permissioned_validators.contains_key(validator) {
            return Err(Error::NotExists);
        }
        self.permissioned_validators.take(validator);
        self.events.push(Event::PermissionedValidatorRemoved(validator));
        Ok(())
    }

    /// Switch from a global commission to individual commissions.  This is a
    /// one-way door.
    pub fn enable_individual_commissions(&mut self) -> (r: Result<(), Error>)
        requires
            old(self).wf(),
        ensures
            final(self).wf(),
            match r {
                Ok(()) => {
                    &&& old(self).validator_commission is Global
                    &&& final(self).validator_commission == Commission::Individual
                    &&& final(self).events@ == old(self).events@.push(
                        Event::IndividualCommissionEnabled,
                    )
                    &&& *final(self) == Staking {
                        validator_commission: Commission::Individual,
                        events: final(self).events,
                        ..*old(self)
                    }
                },
                Err(e) => {
                    &&& e == Error::AlreadyEnabled
                    &&& old(self).validator_commission == Commission::Individual
                    &&& *final(self) == *old(self)
                },
            },
    {
        match self.validator_commission {
            Commission::Global(_) => {
                self.validator_commission = Commission::Individual;
                self.events.push(Event::IndividualCommissionEnabled);
                Ok(())
            },
            Commission::Individual => Err(Error::AlreadyEnabled),
        }
    }

    /// Re-commission every registered validator at the given rate.
    fn update_validator_prefs(&mut self, commission: Perbill)
        requires
            old(self).wf(),
            commission.wf(),
        ensures
            final(self).wf(),
            Staking::same_admin(old(self), final(self)),
            Staking::same_eras(old(self), final(self)),
            Staking::same_slashing(old(self), final(self)),
            Staking::same_bonding(old(self), final(self)),
            final(self).events@ == old(self).events@,
            final(self).nominators@ == old(self).nominators@,
            final(self).permissioned_validators@ == old(self).permissioned_validators@,
            final(self).validators.kseq() == old(self).validators.kseq(),
            forall|s: u64| #[trigger] final(self).validators@.contains_key(s)
                == old(self).validators@.contains_key(s),
            forall|s: u64| old(self).validators@.contains_key(s)
                ==> (#[trigger] final(self).validators@[s] == ValidatorPrefs { commission }),
    {
        let keys = self.validators.keys();
        let n = keys.len();
        let mut i: usize = 0;
        while i < n
            invariant
                old(self).wf(),
                self.wf(),
                commission.wf(),
                n == keys@.len(),
                i <= n,
                keys@ == old(self).validators.kseq(),
                Staking::same_admin(old(self), self),
                Staking::same_eras(old(self), self),
                Staking::same_slashing(old(self), self),
                Staking::same_bonding(old(self), self),
                self.events@ == old(self).events@,
                self.nominators@ == old(self).nominators@,
                self.permissioned_validators@ == old(self).permissioned_validators@,
                self.validators.kseq() == old(self).validators.kseq(),
                forall|s: u64| #[trigger] self.validators@.contains_key(s)
                    == old(self).validators@.contains_key(s),
                forall|j: int| 0 <= j < i
                    ==> self.validators@.contains_key(#[trigger] keys@[j])
                        && (self.validators@[keys@[j]] == ValidatorPrefs { commission }),
            decreases n - i,
        {
            let s = keys[i];
            proof {
                assert(old(self).validators.kseq().contains(keys@[i as int]));
                old(self).validators.lemma_view_dom();
            }
            self.validators.insert(s, ValidatorPrefs { commission });
            i += 1;
        }
        proof {
            assert forall|s: u64| old(self).validators@.contains_key(s) implies
                #[trigger] self.validators@[s] == (ValidatorPrefs { commission }) by {
                old(self).validators.lemma_view_dom();
                let j = old(self).validators.kseq().index_of(s);
                assert(keys@[j] == s);
            }
        }
    }

    /// Change the global commission rate.  Fails when individual
    /// commissions are in force or nothing would change.
    pub fn set_global_commission(&mut self, new_value: Perbill) -> (r: Result<(), Error>)
        requires
            old(self).wf(),
            new_value.wf(),
        ensures
            final(self).wf(),
            Staking::same_admin_but_commission(old(self), final(self)),
            Staking::same_eras(old(self), final(self)),
            Staking::same_slashing(old(self), final(self)),
            Staking::same_bonding(old(self), final(self)),
            final(self).nominators@ == old(self).nominators@,
            final(self).permissioned_validators@ == old(self).permissioned_validators@,
            match r {
                Ok(()) => {
                    &&& (old(self).validator_commission matches Commission::Global(g)
                        && g != new_value)
                    &&& final(self).validator_commission == Commission::Global(new_value)
                    &&& final(self).validators.kseq() == old(self).validators.kseq()
                    &&& (forall|s: u64| old(self).validators@.contains_key(s)
                        ==> #[trigger] final(self).validators@[s]
                            == ValidatorPrefs { commission: new_value })
                    &&& (forall|s: u64| #[trigger] final(self).validators@.contains_key(s)
                        == old(self).validators@.contains_key(s))
                    &&& (final(self).events@.last() matches Event::GlobalCommissionUpdated(a, b)
                        && Commission::Global(a) == old(self).validator_commission
                        && b == new_value)
                    &&& final(self).events@.drop_last() == old(self).events@
                    &&& final(self).events@.len() == old(self).events@.len() + 1
                },
                Err(e) => {
                    &&& *final(self) == *old(self)
                    &&& (e == Error::AlreadyEnabled || e == Error::NoChange)
                    &&& (e == Error::AlreadyEnabled
                        ==> old(self).validator_commission == Commission::Individual)
                    &&& (e == Error::NoChange
                        ==> old(self).validator_commission == Commission::Global(new_value))
                },
            },
    {
        let old_value = match self.validator_commission {
            Commission::Global(g) => g,
            Commission::Individual => {
                return Err(Error::AlreadyEnabled);
            },
        };
        if old_value == new_value {
            return Err(Error::NoChange);
        }
        self.validator_commission = Commission::Global(new_value);
        self.update_validator_prefs(new_value);
        self.events.push(Event::GlobalCommissionUpdated(old_value, new_value));
        Ok(())
    }

    /// Everything in [`Self::same_admin`] except the commission regime.
    pub open spec fn same_admin_but_commission(a: &Staking, b: &Staking) -> bool {
        &&& b.history_depth == a.history_depth
        &&& b.validator_count == a.validator_count
        &&& b.minimum_validator_count == a.minimum_validator_count
        &&& b.invulnerables@ == a.invulnerables@
        &&& b.force_era == a.force_era
        &&& b.slash_reward_fraction == a.slash_reward_fraction
        &&& b.canceled_slash_payout == a.canceled_slash_payout
        &&& b.min_bond_threshold == a.min_bond_threshold
        &&& b.config.sessions_per_era == a.config.sessions_per_era
        &&& b.config.bonding_duration == a.config.bonding_duration
        &&& b.config.slash_defer_duration == a.config.slash_defer_duration
        &&& b.config.max_nominator_rewarded_per_validator
            == a.config.max_nominator_rewarded_per_validator
        &&& b.config.minimum_balance == a.config.minimum_balance
        &&& b.config.epoch_duration == a.config.epoch_duration
        &&& b.config.expected_block_time == a.config.expected_block_time
        &&& b.config.reward_curve@ == a.config.reward_curve@
    }

    /// Change the minimum bond a validator must hold.
    pub fn set_min_bond_threshold(&mut self, new_value: u128)
        requires
            old(self).wf(),
        ensures
            final(self).wf(),
            final(self).min_bond_threshold == new_value,
            final(self).events@ == old(self).events@.push(
                Event::MinimumBondThresholdUpdated(new_value),
            ),
            (*final(self) == Staking {
                min_bond_threshold: new_value,
                events: final(self).events,
                ..*old(self)
            }),
    {
        self.min_bond_threshold = new_value;
        self.events.push(Event::MinimumBondThresholdUpdated(new_value));
    }

    /// Whether the stash's active balance meets the validator minimum bond.
    pub fn is_active_balance_above_min_bond(&self, who: u64) -> (r: bool)
        requires
            self.wf(),
        ensures
            r == (self.bonded@.contains_key(who)
                && self.ledger@.contains_key(self.bonded@[who])
                && self.ledger@[self.bonded@[who]].active >= self.min_bond_threshold),
    {
        match self.bonded.get(who) {
            Some(controller) => match self.ledger.get(*controller) {
                Some(l) => l.active >= self.min_bond_threshold,
                None => false,
            },
            None => false,
        }
    }

    /// Whether the stash is a permissioned validator whose compliance check
    /// stands at `Active`.
    pub fn is_validator_cdd_compliant(&self, who: u64) -> (r: bool)
        requires
            self.wf(),
        ensures
            r == (self.permissioned_validators@.contains_key(who)
                && self.permissioned_validators@[who].compliance == Compliance::Active),
    {
        match self.permissioned_validators.get(who) {
            Some(v) => {
                let c = v.compliance;
                match c {
                    Compliance::Active => true,
                    Compliance::Pending => false,
                }
            },
            None => false,
        }
    }

    /// Whether a stash passes the external compliance check, as reported by
    /// the caller: `cdd_valid` is the set of accounts whose credential
    /// currently verifies.
    pub fn is_validator_or_nominator_compliant(&self, stash: u64, cdd_valid: &Vec<u64>) -> (r:
        bool)
        ensures
            r == cdd_valid@.contains(stash),
    {
        crate::election::account_listed(cdd_valid, stash)
    }

    /// Re-derive every permissioned validator's compliance flag from the
    /// caller-supplied answers: `Active` exactly for the accounts whose
    /// credential verifies.
    pub fn refresh_compliance_statuses(&mut self, cdd_valid: &Vec<u64>)
        requires
            old(self).wf(),
        ensures
            final(self).wf(),
            Staking::same_admin(old(self), final(self)),
            Staking::same_eras(old(self), final(self)),
            Staking::same_slashing(old(self), final(self)),
            Staking::same_bonding(old(self), final(self)),
            final(self).events@ == old(self).events@,
            final(self).validators == old(self).validators,
            final(self).nominators == old(self).nominators,
            final(self).bonded == old(self).bonded,
            final(self).ledger == old(self).ledger,
            final(self).validators@ == old(self).validators@,
            final(self).nominators@ == old(self).nominators@,
            final(self).permissioned_validators.kseq()
                == old(self).permissioned_validators.kseq(),
            forall|s: u64| #[trigger] final(self).permissioned_validators@.contains_key(s)
                == old(self).permissioned_validators@.contains_key(s),
            forall|s: u64| old(self).permissioned_validators@.contains_key(s)
                ==> #[trigger] final(self).permissioned_validators@[s].compliance
                    == (if cdd_valid@.contains(s) {
                    Compliance::Active
                } else {
                    Compliance::Pending
                }),
    {
        let keys = self.permissioned_validators.keys();
        let n = keys.len();
        let mut i: usize = 0;
        while i < n
            invariant
                old(self).wf(),
                self.wf(),
                n == keys@.len(),
                i <= n,
                keys@ == old(self).permissioned_validators.kseq(),
                Staking::same_admin(old(self), self),
                Staking::same_eras(old(self), self),
                Staking::same_slashing(old(self), self),
                Staking::same_bonding(old(self), self),
                self.events@ == old(self).events@,
                self.validators == old(self).validators,
                self.nominators == old(self).nominators,
                self.bonded == old(self).bonded,
                self.ledger == old(self).ledger,
                self.validators@ == old(self).validators@,
                self.nominators@ == old(self).nominators@,
                self.permissioned_validators.kseq() == old(self).permissioned_validators.kseq(),
                forall|s: u64| #[trigger] self.permissioned_validators@.contains_key(s)
                    == old(self).permissioned_validators@.contains_key(s),
                forall|j: int| 0 <= j < i
                    ==> self.permissioned_validators@.contains_key(#[trigger] keys@[j])
                        && self.permissioned_validators@[keys@[j]].compliance
                            == (if cdd_valid@.contains(keys@[j]) {
                            Compliance::Active
                        } else {
                            Compliance::Pending
                        }),
            decreases n - i,
        {
            let s = keys[i];
            proof {
                assert(old(self).permissioned_validators.kseq().contains(keys@[i as int]));
                old(self).permissioned_validators.lemma_view_dom();
            }
            let compliant = self.is_validator_or_nominator_compliant(s, cdd_valid);
            let status = if compliant {
                Compliance::Active
            } else {
                Compliance::Pending
            };
            self.permissioned_validators.insert(s, PermissionedValidator { compliance: status });
            i += 1;
        }
        proof {
            assert forall|s: u64| old(self).permissioned_validators@.contains_key(s) implies
                #[trigger] final(self).permissioned_validators@[s].compliance
                    == (if cdd_valid@.contains(s) {
                    Compliance::Active
                } else {
                    Compliance::Pending
                }) by {
                old(self).permissioned_validators.lemma_view_dom();
                let j = old(self).permissioned_validators.kseq().index_of(s);
                assert(keys@[j] == s);
            }
        }
    }

    /// A saturating 32-bit sum, as reward point tallies use.
    pub open spec fn sat32(x: int) -> int {
        if x <= u32::MAX {
            x
        } else {
            u32::MAX as int
        }
    }

    /// The per-validator point table after a batch of point grants,
    /// processed in order; repeated validators accumulate.
    pub open spec fn spec_points_after(m: Map<u64, u32>, pts: Seq<(u64, u32)>) -> Map<u64, u32>
        decreases pts.len(),
    {
        if pts.len() == 0 {
            m
        } else {
            let prev = Staking::spec_points_after(m, pts.drop_last());
            let v = pts.last().0;
            let p = pts.last().1;
            let base: int = if prev.contains_key(v) {
                prev[v] as int
            } else {
                0
            };
            prev.insert(v, Staking::sat32(base + p) as u32)
        }
    }

    /// The total point tally after a batch of point grants.
    pub open spec fn spec_total_points_after(t: int, pts: Seq<(u64, u32)>) -> int
        decreases pts.len(),
    {
        if pts.len() == 0 {
            t
        } else {
            Staking::sat32(
                Staking::spec_total_points_after(t, pts.drop_last()) + pts.last().1,
            )
        }
    }

    /// Add reward points to validators of the active era, by stash.  This
    /// is the sole ingestion path for reward points; with no active era the
    /// grants fall on the floor.
    pub fn reward_by_ids(&mut self, validators_points: &Vec<(u64, u32)>)
        requires
            old(self).wf(),
        ensures
            final(self).wf(),
            Staking::same_admin(old(self), final(self)),
            Staking::same_slashing(old(self), final(self)),
            Staking::same_bonding(old(self), final(self)),
            Staking::same_registry(old(self), final(self)),
            final(self).events@ == old(self).events@,
            final(self).current_era == old(self).current_era,
            final(self).active_era == old(self).active_era,
            final(self).eras_start_session_index@ == old(self).eras_start_session_index@,
            final(self).eras_stakers@ == old(self).eras_stakers@,
            final(self).eras_stakers_clipped@ == old(self).eras_stakers_clipped@,
            final(self).eras_validator_prefs@ == old(self).eras_validator_prefs@,
            final(self).eras_validator_reward@ == old(self).eras_validator_reward@,
            final(self).eras_total_stake@ == old(self).eras_total_stake@,
            final(self).bonded_eras@ == old(self).bonded_eras@,
            match old(self).active_era {
                Some(a) => {
                    let e = a.index as u64;
                    let m0 = if old(self).eras_reward_points@.contains_key(e) {
                        old(self).eras_reward_points@[e].individual@
                    } else {
                        Map::<u64, u32>::empty()
                    };
                    let t0: int = if old(self).eras_reward_points@.contains_key(e) {
                        old(self).eras_reward_points@[e].total as int
                    } else {
                        0
                    };
                    &&& final(self).eras_reward_points@ == old(self).eras_reward_points@.insert(
                        e,
                        final(self).eras_reward_points@[e],
                    )
                    &&& final(self).eras_reward_points@[e].individual@
                        == Staking::spec_points_after(m0, validators_points@)
                    &&& final(self).eras_reward_points@[e].total
                        == Staking::spec_total_points_after(t0, validators_points@)
                },
                None => final(self).eras_reward_points@ == old(self).eras_reward_points@,
            },
    {
        let era: u64 = match self.active_era {
            Some(a) => a.index as u64,
            None => {
                return;
            },
        };
        let mut pts = match self.eras_reward_points.take(era) {
            Some(p) => p,
            None => EraRewardPoints::new(),
        };
        let ghost m0 = pts.individual@;
        let ghost t0 = pts.total as int;
        let n = validators_points.len();
        let mut i: usize = 0;
        while i < n
            invariant
                n == validators_points@.len(),
                i <= n,
                pts.individual.wf(),
                pts.individual@ == Staking::spec_points_after(
                    m0,
                    validators_points@.take(i as int),
                ),
                pts.total as int == Staking::spec_total_points_after(
                    t0,
                    validators_points@.take(i as int),
                ),
            decreases n - i,
        {
            let (v, p) = validators_points[i];
            proof {
                assert(validators_points@.take(i as int + 1).drop_last() =~= validators_points@
                    .take(i as int));
                assert(validators_points@.take(i as int + 1).last() == validators_points@[
                    i as int]);
            }
            let base: u32 = match pts.individual.take(v) {
                Some(b) => b,
                None => 0,
            };
            let bumped: u32 = if base <= u32::MAX - p {
                base + p
            } else {
                u32::MAX
            };
            pts.individual.insert(v, bumped);
            proof {
                assert(pts.individual@ =~= Staking::spec_points_after(
                    m0,
                    validators_points@.take(i as int + 1),
                ));
            }
            pts.total = if pts.total <= u32::MAX - p {
                pts.total + p
            } else {
                u32::MAX
            };
            i += 1;
        }
        proof {
            assert(validators_points@.take(n as int) =~= validators_points@);
        }
        self.eras_reward_points.insert(era, pts);
        proof {
            let ghost pnew = self.eras_reward_points@[era];
            assert(self.eras_reward_points@ =~= old(self).eras_reward_points@.insert(era, pnew));
        }
    }

    /// Note a freshly authored block: twenty points to the author.
    pub fn note_author(&mut self, author: u64)
        requires
            old(self).wf(),
        ensures
            final(self).wf(),
            Staking::same_admin(old(self), final(self)),
            Staking::same_slashing(old(self), final(self)),
            Staking::same_bonding(old(self), final(self)),
            Staking::same_registry(old(self), final(self)),
            final(self).events@ == old(self).events@,
            final(self).current_era == old(self).current_era,
            final(self).active_era == old(self).active_era,
            final(self).eras_validator_reward@ == old(self).eras_validator_reward@,
            match old(self).active_era {
                Some(a) => {
                    let e = a.index as u64;
                    let m0 = if old(self).eras_reward_points@.contains_key(e) {
                        old(self).eras_reward_points@[e].individual@
                    } else {
                        Map::<u64, u32>::empty()
                    };
                    let t0: int = if old(self).eras_reward_points@.contains_key(e) {
                        old(self).eras_reward_points@[e].total as int
                    } else {
                        0
                    };
                    &&& final(self).eras_reward_points@ == old(self).eras_reward_points@.insert(
                        e,
                        final(self).eras_reward_points@[e],
                    )
                    &&& final(self).eras_reward_points@[e].individual@
                        == Staking::spec_points_after(m0, seq![(author, 20u32)])
                    &&& final(self).eras_reward_points@[e].total
                        == Staking::spec_total_points_after(t0, seq![(author, 20u32)])
                },
                None => final(self).eras_reward_points@ == old(self).eras_reward_points@,
            },
    {
        let mut pts: Vec<(u64, u32)> = Vec::new();
        pts.push((author, 20));
        proof {
            assert(pts@ =~= seq![(author, 20u32)]);
        }
        self.reward_by_ids(&pts);
    }

    /// Note a referenced uncle block: two points to the referencing block's
    /// author, one to the uncle's producer.
    pub fn note_uncle(&mut self, block_author: u64, uncle_author: u64)
        requires
            old(self).wf(),
        ensures
            final(self).wf(),
            Staking::same_admin(old(self), final(self)),
            Staking::same_slashing(old(self), final(self)),
            Staking::same_bonding(old(self), final(self)),
            Staking::same_registry(old(self), final(self)),
            final(self).events@ == old(self).events@,
            final(self).current_era == old(self).current_era,
            final(self).active_era == old(self).active_era,
            final(self).eras_validator_reward@ == old(self).eras_validator_reward@,
            match old(self).active_era {
                Some(a) => {
                    let e = a.index as u64;
                    let m0 = if old(self).eras_reward_points@.contains_key(e) {
                        old(self).eras_reward_points@[e].individual@
                    } else {
                        Map::<u64, u32>::empty()
                    };
                    let t0: int = if old(self).eras_reward_points@.contains_key(e) {
                        old(self).eras_reward_points@[e].total as int
                    } else {
                        0
                    };
                    &&& final(self).eras_reward_points@ == old(self).eras_reward_points@.insert(
                        e,
                        final(self).eras_reward_points@[e],
                    )
                    &&& final(self).eras_reward_points@[e].individual@
                        == Staking::spec_points_after(
                        m0,
                        seq![(block_author, 2u32), (uncle_author, 1u32)],
                    )
                    &&& final(self).eras_reward_points@[e].total
                        == Staking::spec_total_points_after(
                        t0,
                        seq![(block_author, 2u32), (uncle_author, 1u32)],
                    )
                },
                None => final(self).eras_reward_points@ == old(self).eras_reward_points@,
            },
    {
        let mut pts: Vec<(u64, u32)> = Vec::new();
        pts.push((block_author, 2));
        pts.push((uncle_author, 1));
        proof {
            assert(pts@ =~= seq![(block_author, 2u32), (uncle_author, 1u32)]);
        }
        self.reward_by_ids(&pts);
    }

    /// Where a stash's rewards go; unset stashes restake by default.
    pub open spec fn spec_payee(&self, stash: u64) -> RewardDestination {
        if self.payee@.contains_key(stash) {
            self.payee@[stash]
        } else {
            RewardDestination::Staked
        }
    }

    /// The commission snapshotted for `(era, stash)`, in billionths; zero
    /// when no snapshot exists.
    pub open spec fn spec_era_commission(&self, era: u64, stash: u64) -> int {
        if self.eras_validator_prefs@.contains_key((era, stash)) {
            self.eras_validator_prefs@[(era, stash)].commission.spec_parts()
        } else {
            0
        }
    }

    /// The full exposure stored for `(era, stash)`: `(own, total)`, both
    /// zero when none is stored.
    pub open spec fn spec_era_exposure(&self, era: u64, stash: u64) -> (int, int) {
        if self.eras_stakers@.contains_key((era, stash)) {
            (
                self.eras_stakers@[(era, stash)].own as int,
                self.eras_stakers@[(era, stash)].total as int,
            )
        } else {
            (0, 0)
        }
    }

    /// The reward points `stash` earned in `era`; zero when unrecorded.
    pub open spec fn spec_era_points_of(&self, era: u64, stash: u64) -> int {
        if self.eras_reward_points@.contains_key(era)
            && self.eras_reward_points@[era].individual@.contains_key(stash) {
            self.eras_reward_points@[era].individual@[stash] as int
        } else {
            0
        }
    }

    /// The total reward points of `era`; zero when unrecorded.
    pub open spec fn spec_era_points_total(&self, era: u64) -> int {
        if self.eras_reward_points@.contains_key(era) {
            self.eras_reward_points@[era].total as int
        } else {
            0
        }
    }

    /// The billionth parts of the capped rational `p / q`, as
    /// [`Perbill::from_rational`] computes them in its exact regime.
    pub open spec fn spec_rational(p: int, q: int) -> int {
        let qq = if q == 0 {
            1
        } else {
            q
        };
        let pp = if p <= qq {
            p
        } else {
            qq
        };
        pp * (crate::BILLION as int) / qq
    }

    /// Whether the capped numerator of `p / q` is small enough for
    /// [`Perbill::from_rational`] to be exact.
    pub open spec fn spec_rational_exact(p: int, q: int) -> bool {
        let qq = if q == 0 {
            1
        } else {
            q
        };
        let pp = if p <= qq {
            p
        } else {
            qq
        };
        pp <= u128::MAX as int / (crate::BILLION as int)
    }

    /// The reward fraction a validator earned for an era: its point share
    /// times its commission plus its share of what the commission leaves.
    pub open spec fn spec_validator_fraction(&self, era: u64, stash: u64) -> int {
        let b = crate::BILLION as int;
        let c = self.spec_era_commission(era, stash);
        let e = self.spec_era_exposure(era, stash);
        let ep = Staking::spec_rational(e.0, e.1);
        let pp = Staking::spec_rational(
            self.spec_era_points_of(era, stash),
            self.spec_era_points_total(era),
        );
        let inner = c + (b - c) * ep / b;
        pp * inner / b
    }

    /// The amount a validator's era claim pays out.
    pub open spec fn spec_validator_payout(&self, era: u64, stash: u64) -> int {
        let payout = self.eras_validator_reward@[era] as int;
        payout * self.spec_validator_fraction(era, stash) / (crate::BILLION as int)
    }

    /// What blocks an era payout claim, if anything.
    pub open spec fn payout_check(&self, who: u64, era: EraIndex) -> Option<Error> {
        if !self.eras_validator_reward@.contains_key(era as u64) {
            Some(Error::InvalidEraToReward)
        } else if !self.ledger@.contains_key(who) {
            Some(Error::NotController)
        } else if match self.ledger@[who].last_reward {
            Some(lr) => lr >= era,
            None => false,
        } {
            Some(Error::InvalidEraToReward)
        } else {
            None
        }
    }

    /// Restaked rewards must fit the claimant's ledger.
    pub open spec fn payout_headroom_ok(&self, who: u64, era: EraIndex) -> bool {
        (self.ledger@.contains_key(who) && self.eras_validator_reward@.contains_key(era as u64))
            ==> self.ledger@[who].total + self.eras_validator_reward@[era as u64]
                <= u128::MAX
    }

    /// Pay `amount` to the stash's configured reward destination.  Returns
    /// what was paid; the currency deposit itself is the runtime's work.
    /// Restaking grows the stash's ledger and lock by the amount.
    fn make_payout(&mut self, stash: u64, amount: u128) -> (r: Option<u128>)
        requires
            old(self).wf(),
            (old(self).spec_payee(stash) == RewardDestination::Staked
                && old(self).bonded@.contains_key(stash)
                && old(self).ledger@.contains_key(old(self).bonded@[stash]))
                ==> old(self).ledger@[old(self).bonded@[stash]].total + amount <= u128::MAX,
        ensures
            final(self).wf(),
            Staking::same_admin(old(self), final(self)),
            Staking::same_eras(old(self), final(self)),
            Staking::same_slashing(old(self), final(self)),
            Staking::same_registry(old(self), final(self)),
            final(self).bonded@ == old(self).bonded@,
            final(self).payee@ == old(self).payee@,
            final(self).events@ == old(self).events@,
            ({
                let dest = old(self).spec_payee(stash);
                if dest == RewardDestination::Staked {
                    if old(self).bonded@.contains_key(stash)
                        && old(self).ledger@.contains_key(old(self).bonded@[stash]) {
                        let c = old(self).bonded@[stash];
                        let l0 = old(self).ledger@[c];
                        let l1 = final(self).ledger@[c];
                        &&& r == Some(amount)
                        &&& final(self).ledger@ == old(self).ledger@.insert(c, l1)
                        &&& l1.stash == l0.stash
                        &&& l1.active == l0.active + amount
                        &&& l1.total == l0.total + amount
                        &&& l1.unlocking@ == l0.unlocking@
                        &&& l1.last_reward == l0.last_reward
                        &&& final(self).locks@ == old(self).locks@.insert(l0.stash, l1.total)
                    } else {
                        r.is_none() && *final(self) == *old(self)
                    }
                } else if dest == RewardDestination::Controller {
                    &&& *final(self) == *old(self)
                    &&& r == if old(self).bonded@.contains_key(stash) {
                        Some(amount)
                    } else {
                        Option::<u128>::None
                    }
                } else {
                    &&& *final(self) == *old(self)
                    &&& r == Some(amount)
                }
            }),
    {
        let dest = match self.payee.get(stash) {
            Some(d) => *d,
            None => RewardDestination::Staked,
        };
        match dest {
            RewardDestination::Controller => {
                // The deposit to the controller is the currency's business.
                match self.bonded.get(stash) {
                    Some(_) => Some(amount),
                    None => None,
                }
            },
            RewardDestination::Stash => Some(amount),
            RewardDestination::Staked => {
                let controller = match self.bonded.get(stash) {
                    Some(c) => *c,
                    None => {
                        return None;
                    },
                };
                let mut l = match self.ledger.take(controller) {
                    Some(l) => l,
                    None => {
                        return None;
                    },
                };
                proof {
                    crate::types::lemma_unlocking_sum_nonneg(l.unlocking@);
                }
                l.active = l.active + amount;
                l.total = l.total + amount;
                self.update_ledger(controller, l);
                proof {
                    let ghost lnew = self.ledger@[controller];
                    assert(self.ledger@ =~= old(self).ledger@.insert(controller, lnew));
                }
                Some(amount)
            },
        }
    }

    /// Claim a validator's payout for an era.  Fails when the era has no
    /// recorded payout or a reward at or past this era was already claimed:
    /// claiming an era forecloses every era at or below it.  On success the
    /// ledger's high-water mark moves up to this era and the computed
    /// amount is paid to the stash's destination.
    pub fn payout_validator(&mut self, who: u64, era: EraIndex) -> (r: Result<(), Error>)
        requires
            old(self).wf(),
            old(self).payout_headroom_ok(who, era),
        ensures
            final(self).wf(),
            Staking::same_admin(old(self), final(self)),
            Staking::same_eras(old(self), final(self)),
            Staking::same_slashing(old(self), final(self)),
            Staking::same_registry(old(self), final(self)),
            final(self).bonded@ == old(self).bonded@,
            final(self).payee@ == old(self).payee@,
            match r {
                Ok(()) => {
                    let stash = old(self).ledger@[who].stash;
                    let payout = old(self).eras_validator_reward@[era as u64] as int;
                    &&& old(self).payout_check(who, era).is_none()
                    &&& final(self).ledger@.contains_key(who)
                    &&& final(self).ledger@[who].last_reward == Some(era)
                    &&& final(self).ledger@[who].stash == stash
                    &&& final(self).events@.len() == old(self).events@.len() + 1
                    &&& final(self).events@.drop_last() == old(self).events@
                    &&& ({
                        let ev = final(self).events@.last();
                        let dest = old(self).spec_payee(stash);
                        let l0 = old(self).ledger@[who];
                        let l1 = final(self).ledger@[who];
                        &&& (ev matches Event::Rewarded(a, amt) && a == who
                            && amt as int <= payout
                            && (Staking::spec_rational_exact(
                                old(self).spec_era_exposure(era as u64, stash).0,
                                old(self).spec_era_exposure(era as u64, stash).1,
                            ) ==> amt as int == old(self).spec_validator_payout(
                                era as u64,
                                stash,
                            ))
                            // The payment itself: a restaked reward grows the
                            // claimant's ledger and lock by the amount; any
                            // other destination leaves the ledger totals to
                            // the currency deposit outside this state.
                            && (if dest == RewardDestination::Staked {
                                &&& l1.active == l0.active + amt
                                &&& l1.total == l0.total + amt
                                &&& l1.unlocking@ == l0.unlocking@
                                &&& final(self).locks@ == old(self).locks@.insert(
                                    stash,
                                    l1.total,
                                )
                            } else {
                                &&& l1.active == l0.active
                                &&& l1.total == l0.total
                                &&& l1.unlocking@ == l0.unlocking@
                                &&& final(self).locks@ == old(self).locks@
                            }))
                    })
                },
                Err(e) => {
                    &&& old(self).payout_check(who, era) == Some(e)
                    &&& *final(self) == *old(self)
                },
            },
    {
        let era_key: u64 = era as u64;
        let era_payout: u128 = match self.eras_validator_reward.get(era_key) {
            Some(p) => *p,
            None => {
                return Err(Error::InvalidEraToReward);
            },
        };
        let claimable = match self.ledger.get(who) {
            Some(l) => match l.last_reward {
                Some(lr) => lr < era,
                None => true,
            },
            None => {
                return Err(Error::NotController);
            },
        };
        if !claimable {
            return Err(Error::InvalidEraToReward);
        }
        let mut l = match self.ledger.take(who) {
            Some(l) => l,
            None => {
                proof {
                    assert(false);
                }
                return Err(Error::NotController);
            },
        };
        l.last_reward = Some(era);
        let stash = l.stash;
        self.ledger.insert(who, l);
        proof {
            let ghost lnew = self.ledger@[who];
            assert(self.ledger@ =~= old(self).ledger@.insert(who, lnew));
        }

        let commission: Perbill = match self.eras_validator_prefs.get(era_key, stash) {
            Some(p) => p.commission,
            None => Perbill::zero(),
        };
        let (own, total): (u128, u128) = match self.eras_stakers.get(era_key, stash) {
            Some(e) => (e.own, e.total),
            None => (0, 0),
        };
        let (vpoints, tpoints): (u32, u32) = match self.eras_reward_points.get(era_key) {
            Some(p) => {
                let vp = match p.individual.get(stash) {
                    Some(v) => *v,
                    None => 0,
                };
                (vp, p.total)
            },
            None => (0, 0),
        };
        let exposure_part = Perbill::from_rational(own, total);
        let point_part = Perbill::from_rational(vpoints as u128, tpoints as u128);
        let one_minus_c = Perbill::one().saturating_sub(commission);
        let scaled = one_minus_c.saturating_mul(exposure_part);
        proof {
            crate::fraction::lemma_rational_parts_bounded(
                exposure_part.spec_parts(),
                crate::BILLION as int,
                one_minus_c.spec_parts(),
            );
            assert(one_minus_c.spec_parts() * exposure_part.spec_parts()
                == exposure_part.spec_parts() * one_minus_c.spec_parts()) by (nonlinear_arith);
        }
        let inner = commission.saturating_add(scaled);
        let fraction = point_part.saturating_mul(inner);
        let amount = fraction.mul_balance(era_payout);
        self.make_payout(stash, amount);
        self.events.push(Event::Rewarded(who, amount));
        proof {
            assert(u32::MAX as int <= u128::MAX as int / (crate::BILLION as int));
            assert(self.events@.drop_last() =~= old(self).events@);
        }
        Ok(())
    }

    /// The stake slashable from each of a list of stashes, summed.
    pub open spec fn spec_keys_stake_sum(&self, keys: Seq<u64>) -> int
        decreases keys.len(),
    {
        if keys.len() == 0 {
            0
        } else {
            self.spec_keys_stake_sum(keys.drop_last()) + self.spec_slashable_balance_of(
                keys.last(),
            )
        }
    }

    /// Partial stake sums never exceed the whole, and are never negative.
    pub proof fn lemma_keys_stake_sum_take(&self, keys: Seq<u64>, i: int)
        requires
            0 <= i <= keys.len(),
        ensures
            0 <= self.spec_keys_stake_sum(keys.take(i)) <= self.spec_keys_stake_sum(keys),
        decreases keys.len() - i,
    {
        self.lemma_keys_stake_sum_nonneg(keys.take(i));
        assert(keys.take(keys.len() as int) =~= keys);
        if i < keys.len() {
            self.lemma_keys_stake_sum_take(keys, i + 1);
            assert(keys.take(i + 1).drop_last() =~= keys.take(i));
            assert(keys.take(i + 1).last() == keys[i]);
        }
    }

    /// The stake sum reads only the bonding records, so any two states
    /// agreeing on them agree on it.
    pub proof fn lemma_keys_stake_sum_congruent(a: &Staking, b: &Staking, keys: Seq<u64>)
        requires
            a.bonded@ == b.bonded@,
            a.ledger@ == b.ledger@,
        ensures
            a.spec_keys_stake_sum(keys) == b.spec_keys_stake_sum(keys),
        decreases keys.len(),
    {
        if keys.len() > 0 {
            Staking::lemma_keys_stake_sum_congruent(a, b, keys.drop_last());
        }
    }

    /// Stake sums are never negative.
    pub proof fn lemma_keys_stake_sum_nonneg(&self, keys: Seq<u64>)
        ensures
            0 <= self.spec_keys_stake_sum(keys),
        decreases keys.len(),
    {
        if keys.len() > 0 {
            self.lemma_keys_stake_sum_nonneg(keys.drop_last());
        }
    }

    /// The stake that could flow into an election must fit the balance
    /// type.  The currency's bounded total issuance gives this in practice.
    pub open spec fn election_stake_bound_ok(&self) -> bool {
        self.spec_keys_stake_sum(self.validators.kseq()) + self.spec_keys_stake_sum(
            self.nominators.kseq(),
        ) <= u128::MAX
    }

    /// Whether a registered validator stash is eligible for election under
    /// the given compliance answers: enough active bond, and a
    /// permissioned-validator record whose credential verifies.
    pub open spec fn spec_eligible(&self, s: u64, cdd_valid: Seq<u64>) -> bool {
        &&& self.bonded@.contains_key(s)
        &&& self.ledger@.contains_key(self.bonded@[s])
        &&& self.ledger@[self.bonded@[s]].active >= self.min_bond_threshold
        &&& self.permissioned_validators@.contains_key(s)
        &&& cdd_valid.contains(s)
    }

    /// Eligibility reads only the bonding records, the threshold and the
    /// permissioned pool, so any two states agreeing on them agree on the
    /// eligible count.
    pub proof fn lemma_eligible_count_congruent(
        a: &Staking,
        b: &Staking,
        keys: Seq<u64>,
        cdd_valid: Seq<u64>,
    )
        requires
            a.bonded@ == b.bonded@,
            a.ledger@ == b.ledger@,
            a.min_bond_threshold == b.min_bond_threshold,
            a.permissioned_validators@ == b.permissioned_validators@,
        ensures
            a.spec_eligible_count(keys, cdd_valid) == b.spec_eligible_count(keys, cdd_valid),
        decreases keys.len(),
    {
        if keys.len() > 0 {
            Staking::lemma_eligible_count_congruent(a, b, keys.drop_last(), cdd_valid);
        }
    }

    /// How many of the listed stashes are election-eligible.
    pub open spec fn spec_eligible_count(&self, keys: Seq<u64>, cdd_valid: Seq<u64>) -> int
        decreases keys.len(),
    {
        if keys.len() == 0 {
            0
        } else {
            self.spec_eligible_count(keys.drop_last(), cdd_valid) + (if self.spec_eligible(
                keys.last(),
                cdd_valid,
            ) {
                1int
            } else {
                0int
            })
        }
    }

    /// Keep only the biggest backers, at most `max` of them, biggest first.
    fn clip_backers(others: &Vec<IndividualExposure>, max: usize) -> (r: Vec<IndividualExposure>)
        ensures
            r@.len() == if max <= others@.len() {
                max as int
            } else {
                others@.len() as int
            },
            forall|j: int| 0 <= j < r@.len() ==> others@.contains(#[trigger] r@[j]),
            others@.len() <= max ==> r@ == others@,
            // When it actually clips, the kept backers come out biggest
            // first.
            others@.len() > max ==> (forall|a: int, b: int|
                0 <= a < b < r@.len() ==> (#[trigger] r@[a]).value >= (#[trigger] r@[b]).value),
    {
        let n = others.len();
        if n <= max {
            let mut out: Vec<IndividualExposure> = Vec::new();
            let mut i: usize = 0;
            while i < n
                invariant
                    n == others@.len(),
                    i <= n,
                    out@.len() == i,
                    out@ == others@.take(i as int),
                    forall|j: int| 0 <= j < out@.len() ==> others@.contains(#[trigger] out@[j]),
                decreases n - i,
            {
                let e = others[i];
                out.push(e);
                proof {
                    assert(out@[out@.len() - 1] == others@[i as int]);
                    assert(out@ =~= others@.take(i as int + 1));
                }
                i += 1;
            }
            proof {
                assert(others@.take(n as int) =~= others@);
            }
            return out;
        }
        let mut taken: Vec<bool> = Vec::new();
        let mut i: usize = 0;
        while i < n
            invariant
                i <= n,
                taken@.len() == i,
                forall|j: int| 0 <= j < i ==> !(#[trigger] taken@[j]),
            decreases n - i,
        {
            taken.push(false);
            i += 1;
        }
        let mut out: Vec<IndividualExposure> = Vec::new();
        let ghost mut pick_idx: Seq<int> = Seq::empty();
        let mut round: usize = 0;
        while round < max
            invariant
                n == others@.len(),
                max < n,
                taken@.len() == n,
                round <= max,
                out@.len() == round,
                pick_idx.len() == round,
                forall|a: int| 0 <= a < round ==> 0 <= #[trigger] pick_idx[a] < n,
                forall|j: int| 0 <= j < n && #[trigger] taken@[j]
                    ==> exists|a: int| 0 <= a < round && pick_idx[a] == j,
                forall|j: int| 0 <= j < out@.len() ==> others@.contains(#[trigger] out@[j]),
                forall|a: int, b: int| 0 <= a < b < out@.len()
                    ==> (#[trigger] out@[a]).value >= (#[trigger] out@[b]).value,
                // Whatever is still untaken is no bigger than the last
                // pick.
                forall|x: int| 0 <= x < n && !taken@[x] && out@.len() > 0
                    ==> (#[trigger] others@[x]).value <= out@.last().value,
            decreases max - round,
        {
            let mut best: usize = 0;
            let mut best_found: bool = false;
            let mut j: usize = 0;
            while j < n
                invariant
                    n == others@.len(),
                    taken@.len() == n,
                    j <= n,
                    best_found ==> best < n && !taken@[best as int],
                    best_found ==> (forall|x: int| 0 <= x < j && !taken@[x]
                        ==> (#[trigger] others@[x]).value <= others@[best as int].value),
                    !best_found ==> (forall|x: int| 0 <= x < j ==> #[trigger] taken@[x]),
                decreases n - j,
            {
                if !taken[j] {
                    if !best_found {
                        best = j;
                        best_found = true;
                    } else if others[j].value > others[best].value {
                        best = j;
                    }
                }
                j += 1;
            }
            if !best_found {
                // Fewer untaken slots than rounds cannot happen: `max < n`
                // and each round takes one slot, so an untaken slot always
                // remains; the scan saw every slot taken.  Unreachable.
                proof {
                    crate::election::lemma_untaken_slot_exists(
                        taken@,
                        pick_idx,
                        round as int,
                    );
                    let z = choose|z: int| 0 <= z < taken@.len() && !taken@[z];
                }
                best = round;
            }
            let e = others[best];
            let ghost t0 = taken@;
            let ghost o0 = out@;
            taken.remove(best);
            taken.insert(best, true);
            out.push(e);
            proof {
                let ghost p0 = pick_idx;
                pick_idx = pick_idx.push(best as int);
                assert(taken@ =~= t0.update(best as int, true));
                assert forall|j: int| 0 <= j < n && #[trigger] taken@[j] implies
                    exists|a: int| 0 <= a < round + 1 && pick_idx[a] == j by {
                    if j == best as int {
                        assert(pick_idx[round as int] == j);
                    } else {
                        assert(t0[j]);
                        let a = choose|a: int| 0 <= a < round && p0[a] == j;
                        assert(pick_idx[a] == j);
                    }
                }
                assert(out@[out@.len() - 1] == e);
                if best_found {
                    assert forall|a: int, b: int| 0 <= a < b < out@.len() implies
                        (#[trigger] out@[a]).value >= (#[trigger] out@[b]).value by {
                        if b < out@.len() - 1 {
                            assert(out@[a] == o0[a] && out@[b] == o0[b]);
                        } else {
                            assert(out@[b] == e);
                            if a < out@.len() - 1 {
                                assert(out@[a] == o0[a]);
                                if o0.len() > 0 {
                                    assert(others@[best as int].value <= o0.last().value);
                                    assert(o0[a].value >= o0.last().value);
                                }
                            }
                        }
                    }
                    assert forall|x: int| 0 <= x < n && !taken@[x] && out@.len() > 0 implies
                        (#[trigger] others@[x]).value <= out@.last().value by {
                        assert(!t0[x]);
                        assert(others@[x].value <= others@[best as int].value);
                    }
                }
            }
            round += 1;
        }
        out
    }

    /// Elect and store the validator set for `current_era`.
    ///
    /// Candidates are the registered validators with enough bond and an
    /// `Active` compliance flag, each self-voting its slashable stake;
    /// voters are the compliant nominators, their target lists filtered of
    /// validators slashed since the nomination was submitted.  On success
    /// the full and clipped exposures, the preference snapshots and the
    /// era's total stake are stored and the winners returned.  With fewer
    /// eligible validators than the configured minimum the election fails:
    /// nothing is stored, and the prior era's records stay authoritative.
    #[verifier::rlimit(40)]
    pub fn select_validators(&mut self, current_era: EraIndex, cdd_valid: &Vec<u64>) -> (r:
        Option<Vec<u64>>)
        requires
            old(self).wf(),
            old(self).election_stake_bound_ok(),
        ensures
            final(self).wf(),
            Staking::same_admin(old(self), final(self)),
            Staking::same_slashing(old(self), final(self)),
            Staking::same_bonding(old(self), final(self)),
            final(self).events@ == old(self).events@,
            final(self).validators@ == old(self).validators@,
            final(self).nominators@ == old(self).nominators@,
            final(self).current_era == old(self).current_era,
            final(self).active_era == old(self).active_era,
            final(self).eras_start_session_index@ == old(self).eras_start_session_index@,
            final(self).eras_validator_reward@ == old(self).eras_validator_reward@,
            final(self).eras_reward_points@ == old(self).eras_reward_points@,
            final(self).bonded_eras@ == old(self).bonded_eras@,
            r.is_some() == (old(self).spec_eligible_count(old(self).validators.kseq(), cdd_valid@)
                >= (if old(self).minimum_validator_count >= 1 {
                old(self).minimum_validator_count as int
            } else {
                1
            })),
            match r {
                Some(winners) => {
                    // Exactly as many winners as asked for, capped by the
                    // eligible pool.
                    &&& winners@.len() == ({
                        let eligible = old(self).spec_eligible_count(
                            old(self).validators.kseq(),
                            cdd_valid@,
                        );
                        if old(self).validator_count as int <= eligible {
                            old(self).validator_count as int
                        } else {
                            eligible
                        }
                    })
                    &&& winners@.len() <= old(self).validator_count as int
                    &&& (forall|a: int, b: int|
                        0 <= a < b < winners@.len() ==> winners@[a] != winners@[b])
                    &&& (forall|a: int| 0 <= a < winners@.len() ==> {
                        let w = #[trigger] winners@[a];
                        let k = (current_era as u64, w);
                        &&& old(self).spec_eligible(w, cdd_valid@)
                        &&& final(self).eras_stakers@.contains_key(k)
                        &&& final(self).eras_stakers@[k].wf()
                        &&& final(self).eras_stakers@[k].own
                            == old(self).spec_slashable_balance_of(w)
                        // Every winner is backed by at least its self-vote.
                        &&& final(self).eras_stakers@[k].total >= final(self).eras_stakers@[k].own
                        // Every backer is a compliant nominator that listed
                        // the winner, its nomination not voided by a more
                        // recent slash on the winner, and its portion within
                        // its slashable stake.
                        &&& (forall|j: int|
                            0 <= j < final(self).eras_stakers@[k].others@.len() ==> ({
                            let b = #[trigger] final(self).eras_stakers@[k].others@[j];
                            &&& old(self).nominators@.contains_key(b.who)
                            &&& cdd_valid@.contains(b.who)
                            &&& old(self).nominators@[b.who].targets@.contains(w)
                            &&& (old(self).slashing_spans@.contains_key(w)
                                ==> old(self).nominators@[b.who].submitted_in
                                    >= old(self).slashing_spans@[w].last_nonzero_slash)
                            &&& b.value <= old(self).spec_slashable_balance_of(b.who)
                        }))
                        &&& final(self).eras_stakers_clipped@.contains_key(k)
                        &&& clipped_ok(
                            final(self).eras_stakers@[k],
                            final(self).eras_stakers_clipped@[k],
                            old(self).config.max_nominator_rewarded_per_validator,
                        )
                        &&& final(self).eras_validator_prefs@.contains_key(k)
                    })
                    &&& final(self).eras_total_stake@.contains_key(current_era as u64)
                    // Other eras' records are untouched.
                    &&& (forall|k: (u64, u64)| k.0 != current_era as u64
                        ==> (#[trigger] final(self).eras_stakers@.contains_key(k)
                            == old(self).eras_stakers@.contains_key(k))
                            && (old(self).eras_stakers@.contains_key(k)
                                ==> final(self).eras_stakers@[k]
                                    == old(self).eras_stakers@[k]))
                    &&& (forall|k: (u64, u64)| k.0 != current_era as u64
                        ==> (#[trigger] final(self).eras_stakers_clipped@.contains_key(k)
                            == old(self).eras_stakers_clipped@.contains_key(k)))
                    &&& (forall|k: (u64, u64)| k.0 != current_era as u64
                        ==> (#[trigger] final(self).eras_validator_prefs@.contains_key(k)
                            == old(self).eras_validator_prefs@.contains_key(k))
                            && (old(self).eras_validator_prefs@.contains_key(k)
                                ==> final(self).eras_validator_prefs@[k]
                                    == old(self).eras_validator_prefs@[k]))
                    &&& (forall|k: u64| k != current_era as u64
                        ==> (#[trigger] final(self).eras_total_stake@.contains_key(k)
                            == old(self).eras_total_stake@.contains_key(k))
                            && (old(self).eras_total_stake@.contains_key(k)
                                ==> final(self).eras_total_stake@[k]
                                    == old(self).eras_total_stake@[k]))
                },
                None => {
                    &&& final(self).eras_stakers@ == old(self).eras_stakers@
                    &&& final(self).eras_stakers_clipped@ == old(self).eras_stakers_clipped@
                    &&& final(self).eras_validator_prefs@ == old(self).eras_validator_prefs@
                    &&& final(self).eras_total_stake@ == old(self).eras_total_stake@
                },
            },
    {
        self.refresh_compliance_statuses(cdd_valid);

        // Assemble the eligible candidates, each with its slashable stake.
        let vkeys = self.validators.keys();
        let nv = vkeys.len();
        let mut candidates: Vec<crate::election::Candidate> = Vec::new();
        let ghost mut cand_idx: Seq<int> = Seq::empty();
        let mut i: usize = 0;
        proof {
            old(self).lemma_keys_stake_sum_take(old(self).validators.kseq(), 0);
            assert(old(self).validators.kseq().take(0) =~= Seq::<u64>::empty());
        }
        while i < nv
            invariant
                old(self).wf(),
                self.wf(),
                nv == vkeys@.len(),
                i <= nv,
                vkeys@ == old(self).validators.kseq(),
                Staking::same_bonding(old(self), self),
                self.min_bond_threshold == old(self).min_bond_threshold,
                self.validators@ == old(self).validators@,
                (forall|s: u64| #[trigger] self.permissioned_validators@.contains_key(s)
                    == old(self).permissioned_validators@.contains_key(s)),
                (forall|s: u64| old(self).permissioned_validators@.contains_key(s)
                    ==> #[trigger] self.permissioned_validators@[s].compliance
                        == (if cdd_valid@.contains(s) {
                        Compliance::Active
                    } else {
                        Compliance::Pending
                    })),
                candidates@.len() == cand_idx.len(),
                (forall|a: int| 0 <= a < cand_idx.len() ==> 0 <= #[trigger] cand_idx[a] < i),
                (forall|a: int| 0 <= a < candidates@.len()
                    ==> (#[trigger] candidates@[a]).who == vkeys@[cand_idx[a]]),
                (forall|a: int| 0 <= a < candidates@.len()
                    ==> (#[trigger] candidates@[a]).stake == old(
                    self,
                ).spec_slashable_balance_of(candidates@[a].who)),
                (forall|a: int| 0 <= a < candidates@.len()
                    ==> old(self).spec_eligible((#[trigger] candidates@[a]).who, cdd_valid@)),
                (forall|a: int, b: int| 0 <= a < b < cand_idx.len()
                    ==> #[trigger] cand_idx[a] < #[trigger] cand_idx[b]),
                candidates@.len() == old(self).spec_eligible_count(
                    old(self).validators.kseq().take(i as int),
                    cdd_valid@,
                ),
                crate::election::candidates_stake_sum(candidates@)
                    <= old(self).spec_keys_stake_sum(
                    old(self).validators.kseq().take(i as int),
                ),
                old(self).spec_keys_stake_sum(old(self).validators.kseq().take(i as int))
                    <= old(self).spec_keys_stake_sum(old(self).validators.kseq()),
            decreases nv - i,
        {
            let s = vkeys[i];
            proof {
                old(self).lemma_keys_stake_sum_take(old(self).validators.kseq(), i as int + 1);
                assert(old(self).validators.kseq().take(i as int + 1).drop_last()
                    =~= old(self).validators.kseq().take(i as int));
                assert(old(self).validators.kseq().take(i as int + 1).last() == vkeys@[i as int]);
            }
            let eligible = self.is_active_balance_above_min_bond(s)
                && self.is_validator_cdd_compliant(s);
            proof {
                if old(self).permissioned_validators@.contains_key(s) {
                    assert(self.permissioned_validators@[s].compliance == (if cdd_valid@.contains(
                        s,
                    ) {
                        Compliance::Active
                    } else {
                        Compliance::Pending
                    }));
                }
                assert(eligible == old(self).spec_eligible(s, cdd_valid@));
            }
            if eligible {
                proof {
                    assert(self.spec_slashable_balance_of(s) == old(
                        self,
                    ).spec_slashable_balance_of(s));
                }
                let stake = self.slashable_balance_of(s);
                let ghost c0 = candidates@;
                let ghost ci0 = cand_idx;
                candidates.push(crate::election::Candidate { who: s, stake });
                proof {
                    cand_idx = cand_idx.push(i as int);
                    assert(candidates@.drop_last() =~= c0);
                    assert forall|a: int| 0 <= a < candidates@.len() implies
                        0 <= #[trigger] cand_idx[a] < i + 1
                            && ((#[trigger] candidates@[a]).who == vkeys@[cand_idx[a]])
                            && candidates@[a].stake == old(self).spec_slashable_balance_of(
                            candidates@[a].who,
                        ) && old(self).spec_eligible(candidates@[a].who, cdd_valid@) by {
                        if a < candidates@.len() - 1 {
                            assert(candidates@[a] == c0[a]);
                            assert(cand_idx[a] == ci0[a]);
                            assert(0 <= ci0[a] < i);
                        } else {
                            assert(cand_idx[a] == i as int);
                            assert(candidates@[a].who == vkeys@[i as int]);
                        }
                    }
                    assert forall|a: int, b: int| 0 <= a < b < cand_idx.len() implies
                        #[trigger] cand_idx[a] < #[trigger] cand_idx[b] by {
                        if b < cand_idx.len() - 1 {
                            assert(cand_idx[a] == ci0[a] && cand_idx[b] == ci0[b]);
                        } else {
                            assert(cand_idx[b] == i as int);
                            assert(cand_idx[a] == ci0[a]);
                            assert(0 <= ci0[a] < i);
                        }
                    }
                }
            }
            i += 1;
        }
        proof {
            assert(old(self).validators.kseq().take(nv as int) =~= old(self).validators.kseq());
            assert forall|a: int, b: int| 0 <= a < b < candidates@.len() implies
                (#[trigger] candidates@[a]).who != (#[trigger] candidates@[b]).who by {
                assert(0 <= cand_idx[a] < nv && 0 <= cand_idx[b] < nv);
                assert(cand_idx[a] < cand_idx[b]);
                assert(old(self).validators.kseq()[cand_idx[a]] != old(self).validators.kseq()[
                cand_idx[b]]);
            }
            assert(candidates_ok_for(candidates@, old(self), cdd_valid@));
        }

        // Assemble the compliant voters, spans filtering their targets.
        let nn = self.nominators.len();
        let mut voters: Vec<crate::election::Voter> = Vec::new();
        let mut j: usize = 0;
        proof {
            old(self).lemma_keys_stake_sum_take(old(self).nominators.kseq(), 0);
            assert(old(self).nominators.kseq().take(0) =~= Seq::<u64>::empty());
        }
        while j < nn
            invariant
                old(self).wf(),
                self.wf(),
                nn == self.nominators.kseq().len(),
                j <= nn,
                self.nominators@ == old(self).nominators@,
                self.nominators.kseq() == old(self).nominators.kseq(),
                Staking::same_bonding(old(self), self),
                Staking::same_slashing(old(self), self),
                voters_ok_for(voters@, old(self), cdd_valid@),
                crate::election::voters_stake_sum(voters@) <= old(self).spec_keys_stake_sum(
                    old(self).nominators.kseq().take(j as int),
                ),
                old(self).spec_keys_stake_sum(old(self).nominators.kseq().take(j as int))
                    <= old(self).spec_keys_stake_sum(old(self).nominators.kseq()),
            decreases nn - j,
        {
            let who = self.nominators.key_at(j);
            proof {
                old(self).lemma_keys_stake_sum_take(old(self).nominators.kseq(), j as int + 1);
                assert(old(self).nominators.kseq().take(j as int + 1).drop_last()
                    =~= old(self).nominators.kseq().take(j as int));
                assert(old(self).nominators.kseq().take(j as int + 1).last()
                    == old(self).nominators.kseq()[j as int]);
            }
            if crate::election::account_listed(cdd_valid, who) {
                let stake = self.slashable_balance_of(who);
                let noms = self.nominators.value_at(j);
                let nt = noms.targets.len();
                let submitted_in = noms.submitted_in;
                let mut targets: Vec<u64> = Vec::new();
                let mut t: usize = 0;
                while t < nt
                    invariant
                        self.wf(),
                        old(self).wf(),
                        nt == self.nominators@[
                            self.nominators.kseq()[j as int]].targets@.len(),
                        j < self.nominators.kseq().len(),
                        t <= nt,
                        self.nominators@ == old(self).nominators@,
                        self.nominators.kseq() == old(self).nominators.kseq(),
                        Staking::same_slashing(old(self), self),
                        who == self.nominators.kseq()[j as int],
                        submitted_in == self.nominators@[who].submitted_in,
                        self.nominators@.contains_key(who),
                        forall|x: int| 0 <= x < targets@.len() ==> ({
                            let tg = #[trigger] targets@[x];
                            &&& old(self).nominators@[who].targets@.contains(tg)
                            &&& (old(self).slashing_spans@.contains_key(tg)
                                ==> old(self).nominators@[who].submitted_in
                                    >= old(self).slashing_spans@[tg].last_nonzero_slash)
                        }),
                    decreases nt - t,
                {
                    let noms2 = self.nominators.value_at(j);
                    let target = noms2.targets[t];
                    proof {
                        assert(self.nominators@[who].targets@[t as int] == target);
                        assert(self.nominators@[who].targets@.contains(target));
                    }
                    let keep = match self.slashing_spans.get(target) {
                        Some(spans) => submitted_in >= spans.last_nonzero_slash,
                        None => true,
                    };
                    if keep {
                        let ghost t0 = targets@;
                        targets.push(target);
                        proof {
                            assert forall|x: int| 0 <= x < targets@.len() implies ({
                                let tg = #[trigger] targets@[x];
                                &&& old(self).nominators@[who].targets@.contains(tg)
                                &&& (old(self).slashing_spans@.contains_key(tg)
                                    ==> old(self).nominators@[who].submitted_in
                                        >= old(self).slashing_spans@[tg].last_nonzero_slash)
                            }) by {
                                if x < targets@.len() - 1 {
                                    assert(targets@[x] == t0[x]);
                                }
                            }
                        }
                    }
                    t += 1;
                }
                let ghost v0 = voters@;
                proof {
                    old(self).nominators.lemma_view_dom();
                    assert(old(self).nominators.kseq()[j as int] == who);
                    assert(old(self).nominators.kseq().contains(who));
                }
                voters.push(crate::election::Voter { who, stake, targets });
                proof {
                    assert(voters@.drop_last() =~= v0);
                    assert forall|vi: int| 0 <= vi < voters@.len() implies ({
                        let v = #[trigger] voters@[vi];
                        &&& old(self).nominators@.contains_key(v.who)
                        &&& cdd_valid@.contains(v.who)
                        &&& v.stake == old(self).spec_slashable_balance_of(v.who)
                        &&& (forall|t2: int| 0 <= t2 < v.targets@.len() ==> {
                            let tg = #[trigger] v.targets@[t2];
                            &&& old(self).nominators@[v.who].targets@.contains(tg)
                            &&& (old(self).slashing_spans@.contains_key(tg)
                                ==> old(self).nominators@[v.who].submitted_in
                                    >= old(self).slashing_spans@[tg].last_nonzero_slash)
                        })
                    }) by {
                        if vi < voters@.len() - 1 {
                            assert(voters@[vi] == v0[vi]);
                        }
                    }
                }
            }
            j += 1;
        }
        proof {
            assert(old(self).nominators.kseq().take(nn as int) =~= old(self).nominators.kseq());
            crate::election::lemma_candidates_stake_sum_nonneg(candidates@);
            crate::election::lemma_voters_stake_sum_nonneg(voters@);
        }

        // Run the election.
        let outcome = match crate::election::elect(
            self.validator_count,
            self.minimum_validator_count,
            &candidates,
            &voters,
        ) {
            Some(o) => o,
            None => {
                return None;
            },
        };

        // Store exposures and preference snapshots; tally the total stake.
        let era_key: u64 = current_era as u64;
        let ns = outcome.supports.len();
        let mut total_staked: u128 = 0;
        let mut wi: usize = 0;
        while wi < ns
            invariant
                old(self).wf(),
                self.wf(),
                ns == outcome.supports@.len(),
                outcome.winners@.len() == ns,
                wi <= ns,
                Staking::same_admin(old(self), self),
                Staking::same_slashing(old(self), self),
                Staking::same_bonding(old(self), self),
                self.events@ == old(self).events@,
                self.validators@ == old(self).validators@,
                self.nominators@ == old(self).nominators@,
                self.current_era == old(self).current_era,
                self.active_era == old(self).active_era,
                self.eras_start_session_index@ == old(self).eras_start_session_index@,
                self.eras_validator_reward@ == old(self).eras_validator_reward@,
                self.eras_reward_points@ == old(self).eras_reward_points@,
                self.eras_total_stake@ == old(self).eras_total_stake@,
                self.bonded_eras@ == old(self).bonded_eras@,
                crate::election::outcome_ok(
                    outcome,
                    old(self).validator_count,
                    candidates@,
                    voters@,
                ),
                candidates_ok_for(candidates@, old(self), cdd_valid@),
                voters_ok_for(voters@, old(self), cdd_valid@),
                crate::election::candidates_stake_sum(candidates@) + crate::election
                    ::voters_stake_sum(voters@) <= u128::MAX,
                (forall|a: int| 0 <= a < wi ==> {
                    let w = #[trigger] outcome.winners@[a];
                    let k = (era_key, w);
                    &&& self.eras_stakers@.contains_key(k)
                    &&& self.eras_stakers@[k].wf()
                    &&& self.eras_stakers@[k].own == old(self).spec_slashable_balance_of(w)
                    &&& self.eras_stakers@[k].total >= self.eras_stakers@[k].own
                    &&& (forall|j: int| 0 <= j < self.eras_stakers@[k].others@.len() ==> ({
                        let b = #[trigger] self.eras_stakers@[k].others@[j];
                        &&& old(self).nominators@.contains_key(b.who)
                        &&& cdd_valid@.contains(b.who)
                        &&& old(self).nominators@[b.who].targets@.contains(w)
                        &&& (old(self).slashing_spans@.contains_key(w)
                            ==> old(self).nominators@[b.who].submitted_in
                                >= old(self).slashing_spans@[w].last_nonzero_slash)
                        &&& b.value <= old(self).spec_slashable_balance_of(b.who)
                    }))
                    &&& self.eras_stakers_clipped@.contains_key(k)
                    &&& clipped_ok(
                        self.eras_stakers@[k],
                        self.eras_stakers_clipped@[k],
                        old(self).config.max_nominator_rewarded_per_validator,
                    )
                    &&& self.eras_validator_prefs@.contains_key(k)
                }),
                (forall|k: (u64, u64)| k.0 != era_key
                    ==> (#[trigger] self.eras_stakers@.contains_key(k)
                        == old(self).eras_stakers@.contains_key(k))
                        && (old(self).eras_stakers@.contains_key(k)
                            ==> self.eras_stakers@[k] == old(self).eras_stakers@[k])),
                (forall|k: (u64, u64)| k.0 != era_key
                    ==> (#[trigger] self.eras_stakers_clipped@.contains_key(k)
                        == old(self).eras_stakers_clipped@.contains_key(k))),
                (forall|k: (u64, u64)| k.0 != era_key
                    ==> (#[trigger] self.eras_validator_prefs@.contains_key(k)
                        == old(self).eras_validator_prefs@.contains_key(k))
                        && (old(self).eras_validator_prefs@.contains_key(k)
                            ==> self.eras_validator_prefs@[k]
                                == old(self).eras_validator_prefs@[k])),
            decreases ns - wi,
        {
            let who = outcome.winners[wi];
            let own = outcome.supports[wi].own;
            proof {
                assert(outcome.supports@[wi as int].who == outcome.winners@[wi as int]);
                let ghost ci = choose|ci: int|
                    0 <= ci < candidates@.len() && candidates@[ci].who == outcome.supports@[
                    wi as int].who && outcome.supports@[wi as int].own == candidates@[ci].stake;
                assert(candidates@[ci].stake == old(self).spec_slashable_balance_of(who));
            }
            // Build the full exposure from the support.
            let nb = outcome.supports[wi].backers.len();
            let mut others: Vec<IndividualExposure> = Vec::new();
            let mut backed: u128 = 0;
            let mut bi: usize = 0;
            proof {
                crate::election::lemma_candidates_stake_sum_nonneg(candidates@);
                crate::election::lemma_voters_stake_sum_nonneg(voters@);
                lemma_backer_sum_take(outcome.supports@[wi as int].backers@, 0);
                assert(outcome.supports@[wi as int].backers@.take(0)
                    =~= Seq::<(u64, u128)>::empty());
            }
            while bi < nb
                invariant
                    nb == outcome.supports@[wi as int].backers@.len(),
                    wi < outcome.supports@.len(),
                    bi <= nb,
                    others@.len() == bi,
                    forall|x: int| 0 <= x < others@.len() ==> (#[trigger] others@[x]).who
                        == outcome.supports@[wi as int].backers@[x].0 && others@[x].value
                        == outcome.supports@[wi as int].backers@[x].1,
                    backed == crate::election::backer_sum(outcome.supports@[
                    wi as int].backers@.take(bi as int)),
                    crate::election::backer_sum(outcome.supports@[wi as int].backers@.take(
                        bi as int,
                    )) <= crate::election::backer_sum(outcome.supports@[wi as int].backers@),
                    outcome.supports@[wi as int].own + crate::election::backer_sum(
                        outcome.supports@[wi as int].backers@,
                    ) <= u128::MAX,
                    crate::types::others_sum(others@) == backed,
                decreases nb - bi,
            {
                let (bwho, bval) = outcome.supports[wi].backers[bi];
                proof {
                    lemma_backer_sum_take(outcome.supports@[wi as int].backers@, bi as int + 1);
                    assert(outcome.supports@[wi as int].backers@.take(bi as int + 1).drop_last()
                        =~= outcome.supports@[wi as int].backers@.take(bi as int));
                    assert(outcome.supports@[wi as int].backers@.take(bi as int + 1).last()
                        == outcome.supports@[wi as int].backers@[bi as int]);
                }
                let ghost o0 = others@;
                others.push(IndividualExposure { who: bwho, value: bval });
                backed = backed + bval;
                proof {
                    assert(others@.drop_last() =~= o0);
                }
                bi += 1;
            }
            proof {
                assert(outcome.supports@[wi as int].backers@.take(nb as int)
                    =~= outcome.supports@[wi as int].backers@);
            }
            let total: u128 = own + backed;
            let clipped_max = self.config.max_nominator_rewarded_per_validator as usize;
            let others_clipped = Staking::clip_backers(&others, clipped_max);
            let exposure = Exposure { total, own, others };
            let exposure_clipped = Exposure { total, own, others: others_clipped };
            self.eras_stakers.insert(era_key, who, exposure);
            self.eras_stakers_clipped.insert(era_key, who, exposure_clipped);
            let prefs: ValidatorPrefs = match self.validators.get(who) {
                Some(p) => *p,
                None => ValidatorPrefs { commission: Perbill::zero() },
            };
            self.eras_validator_prefs.insert(era_key, who, prefs);
            total_staked = if total_staked <= u128::MAX - total {
                total_staked + total
            } else {
                u128::MAX
            };
            proof {
                crate::types::lemma_others_sum_nonneg(others@);
                assert forall|a: int| 0 <= a < wi + 1 implies {
                    let w = #[trigger] outcome.winners@[a];
                    let k = (era_key, w);
                    &&& self.eras_stakers@.contains_key(k)
                    &&& self.eras_stakers@[k].wf()
                    &&& self.eras_stakers@[k].own == old(self).spec_slashable_balance_of(w)
                    &&& self.eras_stakers@[k].total >= self.eras_stakers@[k].own
                    &&& (forall|j: int| 0 <= j < self.eras_stakers@[k].others@.len() ==> ({
                        let b = #[trigger] self.eras_stakers@[k].others@[j];
                        &&& old(self).nominators@.contains_key(b.who)
                        &&& cdd_valid@.contains(b.who)
                        &&& old(self).nominators@[b.who].targets@.contains(w)
                        &&& (old(self).slashing_spans@.contains_key(w)
                            ==> old(self).nominators@[b.who].submitted_in
                                >= old(self).slashing_spans@[w].last_nonzero_slash)
                        &&& b.value <= old(self).spec_slashable_balance_of(b.who)
                    }))
                    &&& self.eras_stakers_clipped@.contains_key(k)
                    &&& clipped_ok(
                        self.eras_stakers@[k],
                        self.eras_stakers_clipped@[k],
                        old(self).config.max_nominator_rewarded_per_validator,
                    )
                    &&& self.eras_validator_prefs@.contains_key(k)
                } by {
                    if a < wi {
                        assert(outcome.winners@[a] != outcome.winners@[wi as int]);
                    } else {
                        let w = outcome.winners@[a];
                        let k = (era_key, w);
                        assert forall|j: int|
                            0 <= j < self.eras_stakers@[k].others@.len() implies ({
                            let b = #[trigger] self.eras_stakers@[k].others@[j];
                            &&& old(self).nominators@.contains_key(b.who)
                            &&& cdd_valid@.contains(b.who)
                            &&& old(self).nominators@[b.who].targets@.contains(w)
                            &&& (old(self).slashing_spans@.contains_key(w)
                                ==> old(self).nominators@[b.who].submitted_in
                                    >= old(self).slashing_spans@[w].last_nonzero_slash)
                            &&& b.value <= old(self).spec_slashable_balance_of(b.who)
                        }) by {
                            assert(self.eras_stakers@[k].others@[j] == others@[j]);
                            let vi = choose|vi: int|
                                0 <= vi < voters@.len() && voters@[vi].who == (
                                #[trigger] outcome.supports@[wi as int].backers@[j]).0
                                    && outcome.supports@[wi as int].backers@[j].1
                                        <= voters@[vi].stake && voters@[vi].targets@.contains(
                                    outcome.supports@[wi as int].who,
                                );
                            assert(voters@[vi].targets@.contains(w));
                            let ti = choose|ti: int|
                                0 <= ti < voters@[vi].targets@.len()
                                    && voters@[vi].targets@[ti] == w;
                            assert(voters@[vi].targets@[ti] == w);
                        }
                    }
                }
            }
            wi += 1;
        }
        let ghost pre_ts = self.eras_total_stake@;
        self.eras_total_stake.insert(era_key, total_staked);
        proof {
            assert(self.eras_total_stake@ == pre_ts.insert(era_key, total_staked));
            assert forall|k: u64| k != era_key implies
                (#[trigger] self.eras_total_stake@.contains_key(k)
                    == old(self).eras_total_stake@.contains_key(k))
                    && (old(self).eras_total_stake@.contains_key(k)
                        ==> self.eras_total_stake@[k] == old(self).eras_total_stake@[k]) by {
                assert(pre_ts.contains_key(k) == old(self).eras_total_stake@.contains_key(k));
            }
            assert forall|a: int| 0 <= a < outcome.winners@.len() implies
                old(self).spec_eligible(#[trigger] outcome.winners@[a], cdd_valid@) by {
                assert(outcome.supports@[a].who == outcome.winners@[a]);
                let ci = choose|ci: int|
                    0 <= ci < candidates@.len() && candidates@[ci].who == outcome.supports@[
                    a].who && outcome.supports@[a].own == candidates@[ci].stake;
                assert(old(self).spec_eligible(candidates@[ci].who, cdd_valid@));
            }
        }
        Some(outcome.winners)
    }

    /// Drop every record of the given era: exposures, preference
    /// snapshots, payout, points, total stake and start-session index.
    fn clear_era_information(&mut self, era_index: EraIndex)
        requires
            old(self).stores_wf(),
        ensures
            final(self).stores_wf(),
            Staking::same_admin(old(self), final(self)),
            Staking::same_slashing(old(self), final(self)),
            Staking::same_bonding(old(self), final(self)),
            final(self).events@ == old(self).events@,
            final(self).validators == old(self).validators,
            final(self).nominators == old(self).nominators,
            final(self).permissioned_validators@ == old(self).permissioned_validators@,
            final(self).current_era == old(self).current_era,
            final(self).active_era == old(self).active_era,
            final(self).bonded_eras@ == old(self).bonded_eras@,
            final(self).eras_validator_reward@ == old(self).eras_validator_reward@.remove(
                era_index as u64,
            ),
            final(self).eras_reward_points@ == old(self).eras_reward_points@.remove(
                era_index as u64,
            ),
            final(self).eras_total_stake@ == old(self).eras_total_stake@.remove(era_index as u64),
            final(self).eras_start_session_index@ == old(self).eras_start_session_index@.remove(
                era_index as u64,
            ),
            forall|k: (u64, u64)| #[trigger] final(self).eras_stakers@.contains_key(k)
                ==> old(self).eras_stakers@.contains_key(k) && k.0 != era_index as u64
                    && final(self).eras_stakers@[k] == old(self).eras_stakers@[k],
            forall|k: (u64, u64)| old(self).eras_stakers@.contains_key(k)
                && k.0 != era_index as u64
                ==> #[trigger] final(self).eras_stakers@.contains_key(k),
            forall|k: (u64, u64)| #[trigger] final(self).eras_stakers_clipped@.contains_key(k)
                ==> old(self).eras_stakers_clipped@.contains_key(k) && k.0 != era_index as u64,
            forall|k: (u64, u64)| #[trigger] final(self).eras_validator_prefs@.contains_key(k)
                ==> old(self).eras_validator_prefs@.contains_key(k) && k.0 != era_index as u64
                    && final(self).eras_validator_prefs@[k] == old(self).eras_validator_prefs@[k],
            forall|k: (u64, u64)|
                old(self).eras_validator_prefs@.contains_key(k) && k.0 != era_index as u64
                    ==> #[trigger] final(self).eras_validator_prefs@.contains_key(k),
            forall|k: (u64, u64)|
                old(self).eras_stakers_clipped@.contains_key(k) && k.0 != era_index as u64
                    ==> #[trigger] final(self).eras_stakers_clipped@.contains_key(k),
    {
        let e: u64 = era_index as u64;
        self.eras_stakers.remove_prefix(e);
        self.eras_stakers_clipped.remove_prefix(e);
        self.eras_validator_prefs.remove_prefix(e);
        self.eras_validator_reward.take(e);
        self.eras_reward_points.take(e);
        self.eras_total_stake.take(e);
        self.eras_start_session_index.take(e);
    }

    /// The era counter must be able to advance.
    pub open spec fn era_advance_fits(&self) -> bool {
        match self.current_era {
            Some(e) => e < u32::MAX,
            None => true,
        }
    }

    /// Plan a new era: advance the era counter, record its start session,
    /// prune history beyond the configured depth, and elect the new set.
    /// A failed election still advances the bookkeeping but returns no set,
    /// leaving the prior validators in place.
    fn new_era(&mut self, start_session_index: SessionIndex, cdd_valid: &Vec<u64>) -> (r: Option<
        Vec<u64>,
    >)
        requires
            old(self).wf(),
            old(self).election_stake_bound_ok(),
            old(self).era_advance_fits(),
        ensures
            final(self).wf(),
            Staking::same_admin(old(self), final(self)),
            Staking::same_slashing(old(self), final(self)),
            Staking::same_bonding(old(self), final(self)),
            final(self).events@ == old(self).events@,
            final(self).validators@ == old(self).validators@,
            final(self).nominators@ == old(self).nominators@,
            final(self).active_era == old(self).active_era,
            final(self).bonded_eras@ == old(self).bonded_eras@,
            final(self).current_era == Some(
                (match old(self).current_era {
                    Some(e) => e + 1,
                    None => 0,
                }) as EraIndex,
            ),
            final(self).eras_start_session_index@.contains_key(
                final(self).current_era.unwrap() as u64,
            ),
            final(self).eras_start_session_index@[final(self).current_era.unwrap() as u64]
                == start_session_index,
            r.is_some() == (old(self).spec_eligible_count(old(self).validators.kseq(), cdd_valid@)
                >= (if old(self).minimum_validator_count >= 1 {
                old(self).minimum_validator_count as int
            } else {
                1
            })),
            r.is_some() ==> r.unwrap()@.len() == ({
                let eligible = old(self).spec_eligible_count(
                    old(self).validators.kseq(),
                    cdd_valid@,
                );
                if old(self).validator_count as int <= eligible {
                    old(self).validator_count as int
                } else {
                    eligible
                }
            }),
            r.is_some() ==> (forall|a: int, b: int|
                0 <= a < b < r.unwrap()@.len() ==> r.unwrap()@[a] != r.unwrap()@[b]),
            r.is_some() ==> (forall|a: int| 0 <= a < r.unwrap()@.len() ==> {
                let k = (final(self).current_era.unwrap() as u64, #[trigger] r.unwrap()@[a]);
                final(self).eras_stakers@.contains_key(k) && final(self).eras_stakers@[k].wf()
            }),
    {
        let current_era: EraIndex = match self.current_era {
            Some(e) => e + 1,
            None => 0,
        };
        self.current_era = Some(current_era);
        self.eras_start_session_index.insert(current_era as u64, start_session_index);
        // Prune the era falling out of the history window.
        if current_era > self.history_depth {
            let old_era = current_era - self.history_depth - 1;
            self.clear_era_information(old_era);
        }
        proof {
            Staking::lemma_keys_stake_sum_congruent(
                self,
                old(self),
                self.validators.kseq(),
            );
            Staking::lemma_keys_stake_sum_congruent(
                self,
                old(self),
                self.nominators.kseq(),
            );
            Staking::lemma_eligible_count_congruent(
                self,
                old(self),
                self.validators.kseq(),
                cdd_valid@,
            );
        }
        self.select_validators(current_era, cdd_valid)
    }

    /// Whether a planning signal at `session_index` starts a new era, under
    /// the forcing mode and the sessions elapsed in the current era.
    pub open spec fn spec_triggers_new_era(&self, session_index: SessionIndex) -> bool {
        match self.current_era {
            None => true,
            Some(cur) => {
                let start: int = if self.eras_start_session_index@.contains_key(cur as u64) {
                    self.eras_start_session_index@[cur as u64] as int
                } else {
                    0
                };
                let era_length: int = if session_index as int >= start {
                    session_index as int - start
                } else {
                    0
                };
                match self.force_era {
                    Forcing::ForceNew => true,
                    Forcing::ForceAlways => true,
                    Forcing::NotForcing => era_length >= self.config.sessions_per_era as int,
                    Forcing::ForceNone => false,
                }
            },
        }
    }

    /// Plan a new session.  The forcing policy and the elapsed session
    /// count decide whether a new era is planned; a one-shot force resets
    /// itself once consumed.  Returns the new validator set, or nothing
    /// when no era starts or the election is infeasible.
    pub fn new_session(&mut self, session_index: SessionIndex, cdd_valid: &Vec<u64>) -> (r:
        Option<Vec<u64>>)
        requires
            old(self).wf(),
            old(self).election_stake_bound_ok(),
            old(self).era_advance_fits(),
        ensures
            final(self).wf(),
            !old(self).spec_triggers_new_era(session_index) ==> r.is_none() && *final(self)
                == *old(self),
            old(self).spec_triggers_new_era(session_index) ==> {
                &&& final(self).current_era == Some(
                    (match old(self).current_era {
                        Some(e) => e + 1,
                        None => 0,
                    }) as EraIndex,
                )
                &&& final(self).force_era == (if old(self).force_era == Forcing::ForceNew {
                    Forcing::NotForcing
                } else {
                    old(self).force_era
                })
                &&& Staking::same_bonding(old(self), final(self))
                &&& final(self).events@ == old(self).events@
                &&& r.is_some() == (old(self).spec_eligible_count(
                    old(self).validators.kseq(),
                    cdd_valid@,
                ) >= (if old(self).minimum_validator_count >= 1 {
                    old(self).minimum_validator_count as int
                } else {
                    1
                }))
                &&& (r.is_some() ==> (forall|a: int| 0 <= a < r.unwrap()@.len() ==> {
                    let k = (
                        final(self).current_era.unwrap() as u64,
                        #[trigger] r.unwrap()@[a],
                    );
                    final(self).eras_stakers@.contains_key(k)
                        && final(self).eras_stakers@[k].wf()
                }))
                &&& (r.is_some() ==> r.unwrap()@.len() == ({
                    let eligible = old(self).spec_eligible_count(
                        old(self).validators.kseq(),
                        cdd_valid@,
                    );
                    if old(self).validator_count as int <= eligible {
                        old(self).validator_count as int
                    } else {
                        eligible
                    }
                }))
                // The era bookkeeping advanced either way: the new era's
                // start session stands recorded.
                &&& final(self).eras_start_session_index@.contains_key(
                    final(self).current_era.unwrap() as u64,
                )
                &&& final(self).eras_start_session_index@[
                    final(self).current_era.unwrap() as u64] == session_index
            },
    {
        let trigger: bool = match self.current_era {
            Some(cur) => {
                let start: SessionIndex = match self.eras_start_session_index.get(cur as u64) {
                    Some(s) => *s,
                    None => 0,
                };
                let era_length: SessionIndex = if session_index >= start {
                    session_index - start
                } else {
                    0
                };
                match self.force_era {
                    Forcing::ForceNew => true,
                    Forcing::ForceAlways => true,
                    Forcing::NotForcing => era_length >= self.config.sessions_per_era,
                    Forcing::ForceNone => false,
                }
            },
            None => true,
        };
        if !trigger {
            return None;
        }
        if self.force_era == Forcing::ForceNew {
            self.force_era = Forcing::NotForcing;
        }
        proof {
            Staking::lemma_keys_stake_sum_congruent(
                self,
                old(self),
                self.validators.kseq(),
            );
            Staking::lemma_keys_stake_sum_congruent(
                self,
                old(self),
                self.nominators.kseq(),
            );
            Staking::lemma_eligible_count_congruent(
                self,
                old(self),
                self.validators.kseq(),
                cdd_valid@,
            );
        }
        self.new_era(session_index, cdd_valid)
    }

    /// Start a session, flipping the active era forward when this session
    /// is the recorded start of the pending era (or past it, defensively).
    pub fn start_session(&mut self, start_session: SessionIndex)
        requires
            old(self).wf(),
            (match old(self).active_era {
                Some(a) => a.index < u32::MAX,
                None => true,
            }),
        ensures
            final(self).wf(),
            ({
                let next = (match old(self).active_era {
                    Some(a) => a.index + 1,
                    None => 0,
                }) as EraIndex;
                if old(self).eras_start_session_index@.contains_key(next as u64)
                    && old(self).eras_start_session_index@[next as u64] <= start_session {
                    // The active era flips; the bonded-eras ring advances
                    // with its stale prefix pruned and that prefix's slash
                    // records cleared; the deferred slashes due by the new
                    // era are applied and removed from the queue.
                    &&& final(self).active_era == Some(ActiveEraInfo { index: next, start: None })
                    &&& ({
                        let pushed = old(self).bonded_eras@.push((next, start_session));
                        let fk = Staking::spec_first_kept(
                            next,
                            old(self).config.bonding_duration,
                        );
                        let p = Staking::spec_prune_count(pushed, fk);
                        &&& final(self).bonded_eras@ == pushed.skip(p)
                        &&& (forall|j: int, s2: u64| 0 <= j < p
                            ==> !(#[trigger] final(self).validator_slash_in_era@.contains_key(
                                (pushed[j].0 as u64, s2),
                            )))
                        &&& (forall|j: int, s2: u64| 0 <= j < p
                            ==> !(#[trigger] final(self).nominator_slash_in_era@.contains_key(
                                (pushed[j].0 as u64, s2),
                            )))
                    })
                    &&& Staking::same_admin(old(self), final(self))
                    &&& final(self).bonded@ == old(self).bonded@
                    &&& final(self).payee@ == old(self).payee@
                    &&& Staking::same_registry(old(self), final(self))
                    &&& final(self).slashing_spans@ == old(self).slashing_spans@
                    &&& final(self).span_slash@ == old(self).span_slash@
                    &&& old(self).events@.len() <= final(self).events@.len()
                    &&& final(self).events@.take(old(self).events@.len() as int)
                        == old(self).events@
                    &&& (match old(self).earliest_unapplied_slash {
                        Some(e0) => {
                            let keep_from = old(self).spec_slash_keep_from(next);
                            &&& final(self).earliest_unapplied_slash == Some(
                                (if e0 as int >= keep_from {
                                    e0 as int
                                } else {
                                    keep_from
                                }) as EraIndex,
                            )
                            &&& (forall|k: u64| e0 <= k < keep_from
                                ==> !(#[trigger] final(self).unapplied_slashes@.contains_key(
                                    k,
                                )))
                            &&& (forall|k: u64| !(e0 <= k < keep_from)
                                ==> (#[trigger] final(self).unapplied_slashes@.contains_key(k)
                                    == old(self).unapplied_slashes@.contains_key(k))
                                    && (old(self).unapplied_slashes@.contains_key(k)
                                        ==> final(self).unapplied_slashes@[k]
                                            == old(self).unapplied_slashes@[k]))
                            &&& (forall|k: u64, j: int|
                                e0 <= k < keep_from
                                    && old(self).unapplied_slashes@.contains_key(k)
                                    && 0 <= j < old(self).unapplied_slashes@[k]@.len()
                                    && old(self).bonded@.contains_key(
                                    (#[trigger] old(self).unapplied_slashes@[k]@[j]).validator,
                                ) ==> spec_slashed_event_between(
                                    final(self).events@,
                                    old(self).events@.len() as int,
                                    final(self).events@.len() as int,
                                    old(self).unapplied_slashes@[k]@[j].validator,
                                ))
                        },
                        None => {
                            &&& final(self).earliest_unapplied_slash is None
                            &&& final(self).unapplied_slashes@ == old(self).unapplied_slashes@
                            &&& final(self).events@ == old(self).events@
                            &&& Staking::same_bonding(old(self), final(self))
                        },
                    })
                } else {
                    *final(self) == *old(self)
                }
            }),
    {
        let next_active_era: EraIndex = match self.active_era {
            Some(a) => a.index + 1,
            None => 0,
        };
        let flip: bool = match self.eras_start_session_index.get(next_active_era as u64) {
            Some(s) => *s <= start_session,
            None => false,
        };
        if flip {
            self.start_era(start_session);
        }
    }

    /// Start the next active era: advance the index with its start moment
    /// unset, extend the bonded-eras ring, prune slashing metadata beyond
    /// the bonding window, and apply the slashes whose deferral elapsed.
    fn start_era(&mut self, start_session: SessionIndex)
        requires
            old(self).wf(),
            (match old(self).active_era {
                Some(a) => a.index < u32::MAX,
                None => true,
            }),
        ensures
            final(self).wf(),
            final(self).active_era == Some(
                ActiveEraInfo {
                    index: (match old(self).active_era {
                        Some(a) => a.index + 1,
                        None => 0,
                    }) as EraIndex,
                    start: None,
                },
            ),
            final(self).bonded_eras@.len() > 0,
            final(self).bonded_eras@.last() == (
                final(self).active_era.unwrap().index,
                start_session,
            ),
            final(self).active_era.unwrap().index > old(self).config.bonding_duration
                ==> final(self).bonded_eras@[0].0 as int
                    >= final(self).active_era.unwrap().index
                        - old(self).config.bonding_duration,
            // The ring advanced: the new era was appended and exactly the
            // stale prefix was dropped.
            ({
                let pushed = old(self).bonded_eras@.push(
                    (final(self).active_era.unwrap().index, start_session),
                );
                let fk = Staking::spec_first_kept(
                    final(self).active_era.unwrap().index,
                    old(self).config.bonding_duration,
                );
                let p = Staking::spec_prune_count(pushed, fk);
                &&& final(self).bonded_eras@ == pushed.skip(p)
                &&& (forall|j: int| 0 <= j < p ==> ((#[trigger] pushed[j]).0 as int) < fk)
                // The pruned eras' per-era slash records are cleared.
                &&& (forall|j: int, s2: u64| 0 <= j < p
                    ==> !(#[trigger] final(self).validator_slash_in_era@.contains_key(
                        (pushed[j].0 as u64, s2),
                    )))
                &&& (forall|j: int, s2: u64| 0 <= j < p
                    ==> !(#[trigger] final(self).nominator_slash_in_era@.contains_key(
                        (pushed[j].0 as u64, s2),
                    )))
            }),
            // The deferred slashes due by the new era were applied, exactly
            // as the pending queue dictates.
            Staking::same_admin(old(self), final(self)),
            final(self).bonded@ == old(self).bonded@,
            final(self).payee@ == old(self).payee@,
            Staking::same_registry(old(self), final(self)),
            final(self).slashing_spans@ == old(self).slashing_spans@,
            final(self).span_slash@ == old(self).span_slash@,
            old(self).events@.len() <= final(self).events@.len(),
            final(self).events@.take(old(self).events@.len() as int) == old(self).events@,
            match old(self).earliest_unapplied_slash {
                Some(e0) => {
                    let keep_from = old(self).spec_slash_keep_from(
                        final(self).active_era.unwrap().index,
                    );
                    &&& final(self).earliest_unapplied_slash == Some(
                        (if e0 as int >= keep_from {
                            e0 as int
                        } else {
                            keep_from
                        }) as EraIndex,
                    )
                    &&& (forall|k: u64| e0 <= k < keep_from
                        ==> !(#[trigger] final(self).unapplied_slashes@.contains_key(k)))
                    &&& (forall|k: u64| !(e0 <= k < keep_from)
                        ==> (#[trigger] final(self).unapplied_slashes@.contains_key(k)
                            == old(self).unapplied_slashes@.contains_key(k))
                            && (old(self).unapplied_slashes@.contains_key(k)
                                ==> final(self).unapplied_slashes@[k]
                                    == old(self).unapplied_slashes@[k]))
                    &&& (forall|k: u64, j: int|
                        e0 <= k < keep_from && old(self).unapplied_slashes@.contains_key(k)
                            && 0 <= j < old(self).unapplied_slashes@[k]@.len()
                            && old(self).bonded@.contains_key(
                            (#[trigger] old(self).unapplied_slashes@[k]@[j]).validator,
                        ) ==> spec_slashed_event_between(
                            final(self).events@,
                            old(self).events@.len() as int,
                            final(self).events@.len() as int,
                            old(self).unapplied_slashes@[k]@[j].validator,
                        ))
                },
                None => {
                    &&& final(self).earliest_unapplied_slash is None
                    &&& final(self).unapplied_slashes@ == old(self).unapplied_slashes@
                    &&& final(self).events@ == old(self).events@
                    &&& Staking::same_bonding(old(self), final(self))
                },
            },
    {
        let new_index: EraIndex = match self.active_era {
            Some(a) => a.index + 1,
            None => 0,
        };
        self.active_era = Some(ActiveEraInfo { index: new_index, start: None });
        self.bonded_eras.push((new_index, start_session));
        let ghost pushed = self.bonded_eras@;
        let ghost fk = Staking::spec_first_kept(new_index, self.config.bonding_duration);
        let ghost mut dropped: int = 0;
        let bonding_duration = self.config.bonding_duration;
        if new_index > bonding_duration {
            let first_kept = new_index - bonding_duration;
            // Prune everything from before the first kept era.
            while self.bonded_eras.len() > 0 && first_prunable(&self.bonded_eras, first_kept)
                invariant
                    self.wf(),
                    self.active_era == Some(ActiveEraInfo { index: new_index, start: None }),
                    first_kept <= new_index,
                    first_kept as int == fk,
                    self.bonded_eras@.len() > 0,
                    self.bonded_eras@.last() == (new_index, start_session),
                    0 <= dropped <= pushed.len(),
                    self.bonded_eras@ == pushed.skip(dropped),
                    Staking::spec_prune_count(pushed, fk) == dropped
                        + Staking::spec_prune_count(self.bonded_eras@, fk),
                    forall|j: int| 0 <= j < dropped ==> ((#[trigger] pushed[j]).0 as int) < fk,
                    forall|j: int, s2: u64| 0 <= j < dropped
                        ==> !(#[trigger] self.validator_slash_in_era@.contains_key(
                            (pushed[j].0 as u64, s2),
                        )),
                    forall|j: int, s2: u64| 0 <= j < dropped
                        ==> !(#[trigger] self.nominator_slash_in_era@.contains_key(
                            (pushed[j].0 as u64, s2),
                        )),
                    Staking::same_admin(old(self), self),
                    self.bonded@ == old(self).bonded@,
                    self.payee@ == old(self).payee@,
                    Staking::same_registry(old(self), self),
                    self.ledger@ == old(self).ledger@,
                    self.locks@ == old(self).locks@,
                    self.slashing_spans@ == old(self).slashing_spans@,
                    self.span_slash@ == old(self).span_slash@,
                    self.unapplied_slashes@ == old(self).unapplied_slashes@,
                    self.earliest_unapplied_slash == old(self).earliest_unapplied_slash,
                    self.events@ == old(self).events@,
                    self.current_era == old(self).current_era,
                    self.eras_start_session_index@ == old(self).eras_start_session_index@,
                    self.eras_stakers@ == old(self).eras_stakers@,
                    self.eras_stakers_clipped@ == old(self).eras_stakers_clipped@,
                    self.eras_validator_prefs@ == old(self).eras_validator_prefs@,
                    self.eras_validator_reward@ == old(self).eras_validator_reward@,
                    self.eras_reward_points@ == old(self).eras_reward_points@,
                    self.eras_total_stake@ == old(self).eras_total_stake@,
                decreases self.bonded_eras@.len(),
            {
                let ghost ring0 = self.bonded_eras@;
                let (pruned_era, _) = self.bonded_eras.remove(0);
                self.validator_slash_in_era.remove_prefix(pruned_era as u64);
                self.nominator_slash_in_era.remove_prefix(pruned_era as u64);
                proof {
                    assert(self.bonded_eras@ =~= ring0.skip(1));
                    assert(self.bonded_eras@ =~= pushed.skip(dropped + 1));
                    assert(ring0[0] == pushed[dropped]);
                    dropped = dropped + 1;
                    assert(self.bonded_eras@.len() > 0);
                    assert(self.bonded_eras@.last() == (new_index, start_session));
                    assert forall|j: int, s2: u64| 0 <= j < dropped implies
                        !(#[trigger] self.validator_slash_in_era@.contains_key(
                            (pushed[j].0 as u64, s2),
                        )) by {}
                    assert forall|j: int, s2: u64| 0 <= j < dropped implies
                        !(#[trigger] self.nominator_slash_in_era@.contains_key(
                            (pushed[j].0 as u64, s2),
                        )) by {}
                }
            }
            proof {
                assert(Staking::spec_prune_count(self.bonded_eras@, fk) == 0);
            }
        } else {
            proof {
                assert(pushed.skip(0) =~= pushed);
                assert(Staking::spec_prune_count(pushed, fk) == 0) by {
                    assert(pushed[0].0 as int >= 0 && fk == 0);
                }
            }
        }
        let ghost pre_apply = *self;
        self.apply_unapplied_slashes(new_index);
        proof {
            assert(self.events@.take(old(self).events@.len() as int) =~= old(self).events@);
        }
    }

    /// End a session.  When it closes the active era, fix that era's total
    /// payout from the inflation curve — the only point a payout amount is
    /// ever fixed.
    pub fn end_session(
        &mut self,
        session_index: SessionIndex,
        now: u64,
        total_issuance: u128,
    )
        requires
            old(self).wf(),
            crate::inflation::curve_wf(old(self).config.reward_curve@),
            (match old(self).active_era {
                Some(a) => old(self).eras_total_stake@.contains_key(a.index as u64)
                    ==> old(self).eras_total_stake@[a.index as u64]
                        <= u128::MAX / (crate::BILLION as u128),
                None => true,
            }),
            (match old(self).active_era {
                Some(a) => a.index < u32::MAX,
                None => true,
            }),
        ensures
            final(self).wf(),
            ({
                let closing = match old(self).active_era {
                    Some(a) => old(self).eras_start_session_index@.contains_key(
                        (a.index + 1) as u64,
                    ) && old(self).eras_start_session_index@[(a.index + 1) as u64] as int
                        == session_index as int + 1,
                    None => false,
                };
                if closing {
                    let a = old(self).active_era.unwrap();
                    match a.start {
                        Some(start) => {
                            let staked: int = if old(self).eras_total_stake@.contains_key(
                                a.index as u64,
                            ) {
                                old(self).eras_total_stake@[a.index as u64] as int
                            } else {
                                0
                            };
                            let duration: int = if now >= start {
                                now - start
                            } else {
                                0
                            };
                            &&& final(self).eras_validator_reward@
                                == old(self).eras_validator_reward@.insert(
                                a.index as u64,
                                (crate::inflation::spec_total_payout(
                                    crate::inflation::curve_parts(
                                        old(self).config.reward_curve@,
                                    ),
                                    staked,
                                    total_issuance as int,
                                    duration,
                                )) as u128,
                            )
                            &&& Staking::same_bonding(old(self), final(self))
                            &&& Staking::same_admin(old(self), final(self))
                            &&& Staking::same_slashing(old(self), final(self))
                            &&& Staking::same_registry(old(self), final(self))
                            &&& final(self).current_era == old(self).current_era
                            &&& final(self).active_era == old(self).active_era
                            &&& final(self).eras_start_session_index@
                                == old(self).eras_start_session_index@
                            &&& final(self).eras_stakers@ == old(self).eras_stakers@
                            &&& final(self).eras_stakers_clipped@
                                == old(self).eras_stakers_clipped@
                            &&& final(self).eras_validator_prefs@
                                == old(self).eras_validator_prefs@
                            &&& final(self).eras_reward_points@ == old(self).eras_reward_points@
                            &&& final(self).eras_total_stake@ == old(self).eras_total_stake@
                            &&& final(self).bonded_eras@ == old(self).bonded_eras@
                            &&& final(self).events@ == old(self).events@
                        },
                        None => *final(self) == *old(self),
                    }
                } else {
                    *final(self) == *old(self)
                }
            }),
    {
        let a = match self.active_era {
            Some(a) => a,
            None => {
                return;
            },
        };
        let closing: bool = match self.eras_start_session_index.get((a.index + 1) as u64) {
            Some(s) => *s as u64 == session_index as u64 + 1,
            None => false,
        };
        if !closing {
            return;
        }
        let start = match a.start {
            Some(s) => s,
            None => {
                return;
            },
        };
        let era_duration: u64 = if now >= start {
            now - start
        } else {
            0
        };
        let staked: u128 = match self.eras_total_stake.get(a.index as u64) {
            Some(s) => *s,
            None => 0,
        };
        let total_payout = crate::inflation::compute_total_payout(
            &self.config.reward_curve,
            staked,
            total_issuance,
            era_duration,
        );
        self.eras_validator_reward.insert(a.index as u64, total_payout);
        proof {
            let ghost pnew = self.eras_validator_reward@[a.index as u64];
            assert(self.eras_validator_reward@ =~= old(self).eras_validator_reward@.insert(
                a.index as u64,
                pnew,
            ));
        }
    }

    /// Mark the active era as started now, once, on the first block of the
    /// era to be finalized.
    pub fn on_finalize(&mut self, now: u64)
        requires
            old(self).wf(),
        ensures
            final(self).wf(),
            final(self).active_era == (match old(self).active_era {
                Some(a) => if a.start is None {
                    Some(ActiveEraInfo { index: a.index, start: Some(now) })
                } else {
                    old(self).active_era
                },
                None => old(self).active_era,
            }),
            (*final(self) == Staking { active_era: final(self).active_era, ..*old(self) }),
    {
        match self.active_era {
            Some(a) => {
                match a.start {
                    None => {
                        self.active_era = Some(ActiveEraInfo { index: a.index, start: Some(now) });
                    },
                    Some(_) => {},
                }
            },
            None => {},
        }
    }

    /// A copy of the configured reward curve points.
    pub fn get_curve(&self) -> (r: Vec<(Perbill, Perbill)>)
        ensures
            r@ == self.config.reward_curve@,
    {
        let n = self.config.reward_curve.len();
        let mut out: Vec<(Perbill, Perbill)> = Vec::new();
        let mut i: usize = 0;
        while i < n
            invariant
                n == self.config.reward_curve@.len(),
                i <= n,
                out@ == self.config.reward_curve@.take(i as int),
            decreases n - i,
        {
            let p = self.config.reward_curve[i];
            out.push(p);
            proof {
                assert(out@ =~= self.config.reward_curve@.take(i as int + 1));
            }
            i += 1;
        }
        proof {
            assert(self.config.reward_curve@.take(n as int) =~= self.config.reward_curve@);
        }
        out
    }

    /// The full bonding window in wall-clock milliseconds: sessions per era
    /// times bonding duration, times the session length in blocks, times
    /// the expected block time.
    pub fn get_bonding_duration_period(&self) -> (r: u64)
        requires
            (self.config.sessions_per_era as int) * (self.config.bonding_duration as int)
                <= u64::MAX,
            (self.config.sessions_per_era as int) * (self.config.bonding_duration as int)
                * (self.config.epoch_duration as int) <= u64::MAX,
            (self.config.sessions_per_era as int) * (self.config.bonding_duration as int)
                * (self.config.epoch_duration as int) * (self.config.expected_block_time as int)
                <= u64::MAX,
        ensures
            r == (self.config.sessions_per_era as int) * (self.config.bonding_duration as int)
                * (self.config.epoch_duration as int) * (self.config.expected_block_time as int),
    {
        let total_session: u64 = (self.config.sessions_per_era as u64) * (
        self.config.bonding_duration as u64);
        let with_epoch: u64 = total_session * self.config.epoch_duration;
        with_epoch * self.config.expected_block_time
    }

    /// Slash a stash's ledger by up to `value`, per the drain order, and
    /// record what was actually removed.  An unbonded stash loses nothing.
    fn slash_stash(&mut self, stash: u64, value: u128)
        requires
            old(self).wf(),
        ensures
            final(self).wf(),
            Staking::same_admin(old(self), final(self)),
            Staking::same_eras(old(self), final(self)),
            Staking::same_slashing(old(self), final(self)),
            Staking::same_registry(old(self), final(self)),
            final(self).bonded@ == old(self).bonded@,
            final(self).payee@ == old(self).payee@,
            if old(self).bonded@.contains_key(stash) {
                let c = old(self).bonded@[stash];
                let l0 = old(self).ledger@[c];
                let l1 = final(self).ledger@[c];
                &&& final(self).ledger@ == old(self).ledger@.insert(c, l1)
                &&& l1.stash == l0.stash
                &&& l1.total <= l0.total
                &&& l1.active == l0.active - crate::ledger::drained_amount(
                    l0.active as int,
                    value as int,
                    old(self).config.minimum_balance as int,
                )
                &&& final(self).locks@ == old(self).locks@.insert(l0.stash, l1.total)
                &&& final(self).events@ == old(self).events@.push(
                    Event::Slashed(stash, (l0.total - l1.total) as u128),
                )
            } else {
                *final(self) == *old(self)
            },
    {
        let controller = match self.bonded.get(stash) {
            Some(c) => *c,
            None => {
                return;
            },
        };
        let mut l = match self.ledger.take(controller) {
            Some(l) => l,
            None => {
                proof {
                    assert(false);
                }
                return;
            },
        };
        let actual = l.slash(value, self.config.minimum_balance);
        self.update_ledger(controller, l);
        self.events.push(Event::Slashed(stash, actual));
        proof {
            let ghost lnew = self.ledger@[controller];
            assert(self.ledger@ =~= old(self).ledger@.insert(controller, lnew));
        }
    }

    /// Irreversibly apply a previously computed slash: drain the
    /// validator's ledger, then each co-slashed staker's, per the drain
    /// order.  The reporters' bounty leaves the slashed amount through the
    /// currency, outside this state.
    fn apply_slash(&mut self, slash: &UnappliedSlash)
        requires
            old(self).wf(),
        ensures
            final(self).wf(),
            Staking::same_admin(old(self), final(self)),
            Staking::same_eras(old(self), final(self)),
            Staking::same_slashing(old(self), final(self)),
            Staking::same_registry(old(self), final(self)),
            final(self).bonded@ == old(self).bonded@,
            final(self).payee@ == old(self).payee@,
            old(self).events@.len() <= final(self).events@.len(),
            final(self).events@.take(old(self).events@.len() as int) == old(self).events@,
            old(self).bonded@.contains_key(slash.validator)
                ==> spec_slashed_event_between(
                final(self).events@,
                old(self).events@.len() as int,
                final(self).events@.len() as int,
                slash.validator,
            ),
            (slash.others@.len() == 0 && !old(self).bonded@.contains_key(slash.validator))
                ==> final(self).ledger@ == old(self).ledger@
                    && final(self).locks@ == old(self).locks@
                    && final(self).events@ == old(self).events@,
            (slash.others@.len() == 0 && old(self).bonded@.contains_key(slash.validator)) ==> ({
                let c = old(self).bonded@[slash.validator];
                let l0 = old(self).ledger@[c];
                let l1 = final(self).ledger@[c];
                &&& final(self).ledger@ == old(self).ledger@.insert(c, l1)
                &&& l1.active == l0.active - crate::ledger::drained_amount(
                    l0.active as int,
                    slash.own as int,
                    old(self).config.minimum_balance as int,
                )
                &&& final(self).events@ == old(self).events@.push(
                    Event::Slashed(slash.validator, (l0.total - l1.total) as u128),
                )
            }),
    {
        self.slash_stash(slash.validator, slash.own);
        proof {
            if old(self).bonded@.contains_key(slash.validator) {
                assert(self.events@[old(self).events@.len() as int] matches Event::Slashed(v, _)
                    && v == slash.validator);
            }
            assert(self.events@.take(old(self).events@.len() as int) =~= old(self).events@);
        }
        let m = slash.others.len();
        let mut k: usize = 0;
        while k < m
            invariant
                m == slash.others@.len(),
                k <= m,
                self.wf(),
                Staking::same_admin(old(self), self),
                Staking::same_eras(old(self), self),
                Staking::same_slashing(old(self), self),
                Staking::same_registry(old(self), self),
                self.bonded@ == old(self).bonded@,
                self.payee@ == old(self).payee@,
                old(self).events@.len() <= self.events@.len(),
                self.events@.take(old(self).events@.len() as int) == old(self).events@,
                old(self).bonded@.contains_key(slash.validator)
                    ==> spec_slashed_event_between(
                    self.events@,
                    old(self).events@.len() as int,
                    self.events@.len() as int,
                    slash.validator,
                ),
                (slash.others@.len() == 0 && !old(self).bonded@.contains_key(slash.validator))
                    ==> self.ledger@ == old(self).ledger@ && self.locks@ == old(self).locks@
                        && self.events@ == old(self).events@,
                (slash.others@.len() == 0 && old(self).bonded@.contains_key(slash.validator))
                    ==> ({
                    let c = old(self).bonded@[slash.validator];
                    let l0 = old(self).ledger@[c];
                    let l1 = self.ledger@[c];
                    &&& self.ledger@ == old(self).ledger@.insert(c, l1)
                    &&& l1.active == l0.active - crate::ledger::drained_amount(
                        l0.active as int,
                        slash.own as int,
                        old(self).config.minimum_balance as int,
                    )
                    &&& self.events@ == old(self).events@.push(
                        Event::Slashed(slash.validator, (l0.total - l1.total) as u128),
                    )
                }),
            decreases m - k,
        {
            let ghost pre_events = self.events@;
            let (who, amt) = slash.others[k];
            self.slash_stash(who, amt);
            proof {
                assert(self.events@.take(old(self).events@.len() as int)
                    =~= old(self).events@);
                if old(self).bonded@.contains_key(slash.validator) {
                    let idx = choose|idx: int|
                        old(self).events@.len() <= idx < pre_events.len()
                            && idx < pre_events.len()
                            && (#[trigger] pre_events[idx] matches Event::Slashed(v, _)
                                && v == slash.validator);
                    assert(self.events@[idx] == pre_events[idx]);
                }
            }
            k += 1;
        }
    }

    /// The first bonded era the ring keeps once `new_index` starts.
    pub open spec fn spec_first_kept(new_index: EraIndex, duration: EraIndex) -> int {
        if new_index > duration {
            new_index - duration
        } else {
            0
        }
    }

    /// How many leading ring entries fall before the first kept era: the
    /// maximal stale prefix.
    pub open spec fn spec_prune_count(ring: Seq<(EraIndex, SessionIndex)>, fk: int) -> int
        decreases ring.len(),
    {
        if ring.len() == 0 {
            0
        } else if (ring[0].0 as int) < fk {
            1 + Staking::spec_prune_count(ring.skip(1), fk)
        } else {
            0
        }
    }

    /// The era before which a deferral that started at `active_era` has
    /// elapsed.
    pub open spec fn spec_slash_keep_from(&self, active_era: EraIndex) -> int {
        if active_era >= self.config.slash_defer_duration {
            active_era - self.config.slash_defer_duration
        } else {
            0
        }
    }

    /// Apply every queued slash whose deferral window has elapsed by the
    /// start of `active_era`: each queue of an era before the window edge
    /// is drained and applied, leaving a `Slashed` trace per bonded
    /// offender; newer queues stay untouched, so cancellation stays
    /// possible until a slash's own window elapses.  The earliest-pending
    /// marker moves up, never down.
    fn apply_unapplied_slashes(&mut self, active_era: EraIndex)
        requires
            old(self).wf(),
        ensures
            final(self).wf(),
            Staking::same_admin(old(self), final(self)),
            Staking::same_eras(old(self), final(self)),
            Staking::same_registry(old(self), final(self)),
            final(self).bonded@ == old(self).bonded@,
            final(self).payee@ == old(self).payee@,
            final(self).validator_slash_in_era@ == old(self).validator_slash_in_era@,
            final(self).nominator_slash_in_era@ == old(self).nominator_slash_in_era@,
            final(self).slashing_spans@ == old(self).slashing_spans@,
            final(self).span_slash@ == old(self).span_slash@,
            old(self).events@.len() <= final(self).events@.len(),
            final(self).events@.take(old(self).events@.len() as int) == old(self).events@,
            match old(self).earliest_unapplied_slash {
                Some(e0) => {
                    let keep_from = old(self).spec_slash_keep_from(active_era);
                    &&& final(self).earliest_unapplied_slash == Some(
                        (if e0 as int >= keep_from {
                            e0 as int
                        } else {
                            keep_from
                        }) as EraIndex,
                    )
                    &&& (forall|k: u64| e0 <= k < keep_from
                        ==> !(#[trigger] final(self).unapplied_slashes@.contains_key(k)))
                    &&& (forall|k: u64| !(e0 <= k < keep_from)
                        ==> (#[trigger] final(self).unapplied_slashes@.contains_key(k)
                            == old(self).unapplied_slashes@.contains_key(k))
                            && (old(self).unapplied_slashes@.contains_key(k)
                                ==> final(self).unapplied_slashes@[k]
                                    == old(self).unapplied_slashes@[k]))
                    &&& (forall|k: u64, j: int|
                        e0 <= k < keep_from && old(self).unapplied_slashes@.contains_key(k)
                            && 0 <= j < old(self).unapplied_slashes@[k]@.len()
                            && old(self).bonded@.contains_key(
                            (#[trigger] old(self).unapplied_slashes@[k]@[j]).validator,
                        ) ==> spec_slashed_event_between(
                            final(self).events@,
                            old(self).events@.len() as int,
                            final(self).events@.len() as int,
                            old(self).unapplied_slashes@[k]@[j].validator,
                        ))
                },
                None => *final(self) == *old(self),
            },
    {
        let earliest: EraIndex = match self.earliest_unapplied_slash {
            Some(e) => e,
            None => {
                return;
            },
        };
        let defer = self.config.slash_defer_duration;
        let keep_from: EraIndex = if active_era >= defer {
            active_era - defer
        } else {
            0
        };
        let mut era: EraIndex = earliest;
        while era < keep_from
            invariant
                self.wf(),
                earliest <= era,
                era <= keep_from || era == earliest,
                keep_from == old(self).spec_slash_keep_from(active_era),
                Staking::same_admin(old(self), self),
                Staking::same_eras(old(self), self),
                Staking::same_registry(old(self), self),
                self.bonded@ == old(self).bonded@,
                self.payee@ == old(self).payee@,
                self.validator_slash_in_era@ == old(self).validator_slash_in_era@,
                self.nominator_slash_in_era@ == old(self).nominator_slash_in_era@,
                self.slashing_spans@ == old(self).slashing_spans@,
                self.span_slash@ == old(self).span_slash@,
                self.earliest_unapplied_slash == old(self).earliest_unapplied_slash,
                old(self).events@.len() <= self.events@.len(),
                self.events@.take(old(self).events@.len() as int) == old(self).events@,
                forall|k: u64| earliest <= k < era
                    ==> !(#[trigger] self.unapplied_slashes@.contains_key(k)),
                forall|k: u64| !(earliest <= k < era)
                    ==> (#[trigger] self.unapplied_slashes@.contains_key(k)
                        == old(self).unapplied_slashes@.contains_key(k))
                        && (old(self).unapplied_slashes@.contains_key(k)
                            ==> self.unapplied_slashes@[k] == old(self).unapplied_slashes@[k]),
                forall|k: u64, j: int|
                    earliest <= k < era && old(self).unapplied_slashes@.contains_key(k)
                        && 0 <= j < old(self).unapplied_slashes@[k]@.len()
                        && old(self).bonded@.contains_key(
                        (#[trigger] old(self).unapplied_slashes@[k]@[j]).validator,
                    ) ==> spec_slashed_event_between(
                        self.events@,
                        old(self).events@.len() as int,
                        self.events@.len() as int,
                        old(self).unapplied_slashes@[k]@[j].validator,
                    ),
            decreases keep_from - era,
        {
            let ghost had = self.unapplied_slashes@.contains_key(era as u64);
            let ghost pre_un = self.unapplied_slashes@;
            let era_slashes: Vec<UnappliedSlash> = match self.unapplied_slashes.take(era as u64) {
                Some(v) => v,
                None => Vec::new(),
            };
            proof {
                if had {
                    assert(era_slashes@ == old(self).unapplied_slashes@[era as u64]@);
                }
                assert(self.unapplied_slashes@ == pre_un.remove(era as u64));
                assert forall|k2: u64| !(earliest <= k2 <= era) implies
                    (#[trigger] self.unapplied_slashes@.contains_key(k2)
                        == old(self).unapplied_slashes@.contains_key(k2))
                        && (old(self).unapplied_slashes@.contains_key(k2)
                            ==> self.unapplied_slashes@[k2]
                                == old(self).unapplied_slashes@[k2]) by {
                    assert(k2 != era as u64);
                    assert(pre_un.contains_key(k2)
                        == old(self).unapplied_slashes@.contains_key(k2));
                    assert(self.unapplied_slashes@.contains_key(k2) == pre_un.contains_key(k2));
                }
                assert forall|k2: u64| earliest <= k2 <= era implies
                    !(#[trigger] self.unapplied_slashes@.contains_key(k2)) by {
                    if k2 != era as u64 {
                        assert(earliest <= k2 < era);
                    }
                }
            }
            let m = era_slashes.len();
            let mut k: usize = 0;
            while k < m
                invariant
                    m == era_slashes@.len(),
                    k <= m,
                    self.wf(),
                    earliest <= era < keep_from,
                    keep_from == old(self).spec_slash_keep_from(active_era),
                    Staking::same_admin(old(self), self),
                    Staking::same_eras(old(self), self),
                    Staking::same_registry(old(self), self),
                    self.bonded@ == old(self).bonded@,
                    self.payee@ == old(self).payee@,
                    self.validator_slash_in_era@ == old(self).validator_slash_in_era@,
                    self.nominator_slash_in_era@ == old(self).nominator_slash_in_era@,
                    self.slashing_spans@ == old(self).slashing_spans@,
                    self.span_slash@ == old(self).span_slash@,
                    self.earliest_unapplied_slash == old(self).earliest_unapplied_slash,
                    old(self).events@.len() <= self.events@.len(),
                    self.events@.take(old(self).events@.len() as int) == old(self).events@,
                    forall|k2: u64| earliest <= k2 <= era
                        ==> !(#[trigger] self.unapplied_slashes@.contains_key(k2)),
                    forall|k2: u64| !(earliest <= k2 <= era)
                        ==> (#[trigger] self.unapplied_slashes@.contains_key(k2)
                            == old(self).unapplied_slashes@.contains_key(k2))
                            && (old(self).unapplied_slashes@.contains_key(k2)
                                ==> self.unapplied_slashes@[k2]
                                    == old(self).unapplied_slashes@[k2]),
                    forall|k2: u64, j: int|
                        earliest <= k2 < era && old(self).unapplied_slashes@.contains_key(k2)
                            && 0 <= j < old(self).unapplied_slashes@[k2]@.len()
                            && old(self).bonded@.contains_key(
                            (#[trigger] old(self).unapplied_slashes@[k2]@[j]).validator,
                        ) ==> spec_slashed_event_between(
                            self.events@,
                            old(self).events@.len() as int,
                            self.events@.len() as int,
                            old(self).unapplied_slashes@[k2]@[j].validator,
                        ),
                    had ==> era_slashes@ == old(self).unapplied_slashes@[era as u64]@,
                    had == old(self).unapplied_slashes@.contains_key(era as u64),
                    forall|j: int| 0 <= j < k && had && old(self).bonded@.contains_key(
                        (#[trigger] era_slashes@[j]).validator,
                    ) ==> spec_slashed_event_between(
                        self.events@,
                        old(self).events@.len() as int,
                        self.events@.len() as int,
                        era_slashes@[j].validator,
                    ),
                decreases m - k,
            {
                let ghost pre_events = self.events@;
                self.apply_slash(&era_slashes[k]);
                proof {
                    assert(self.events@.take(old(self).events@.len() as int)
                        =~= old(self).events@);
                    assert forall|j: int|
                        0 <= j < k + 1 && had && old(self).bonded@.contains_key(
                            (#[trigger] era_slashes@[j]).validator,
                        ) implies spec_slashed_event_between(
                        self.events@,
                        old(self).events@.len() as int,
                        self.events@.len() as int,
                        era_slashes@[j].validator,
                    ) by {
                        if j < k {
                            let idx = choose|idx: int|
                                old(self).events@.len() <= idx < pre_events.len()
                                    && idx < pre_events.len()
                                    && (#[trigger] pre_events[idx] matches Event::Slashed(v, _)
                                        && v == era_slashes@[j].validator);
                            assert(self.events@[idx] == pre_events[idx]);
                        }
                    }
                    assert forall|k2: u64, j: int|
                        earliest <= k2 < era && old(self).unapplied_slashes@.contains_key(k2)
                            && 0 <= j < old(self).unapplied_slashes@[k2]@.len()
                            && old(self).bonded@.contains_key(
                            (#[trigger] old(self).unapplied_slashes@[k2]@[j]).validator,
                        ) implies spec_slashed_event_between(
                        self.events@,
                        old(self).events@.len() as int,
                        self.events@.len() as int,
                        old(self).unapplied_slashes@[k2]@[j].validator,
                    ) by {
                        let idx = choose|idx: int|
                            old(self).events@.len() <= idx < pre_events.len()
                                && idx < pre_events.len()
                                && (#[trigger] pre_events[idx] matches Event::Slashed(v, _)
                                    && v == old(self).unapplied_slashes@[k2]@[j].validator);
                        assert(self.events@[idx] == pre_events[idx]);
                    }
                }
                k += 1;
            }
            era += 1;
        }
        let ghost pre_fin = *self;
        self.earliest_unapplied_slash = Some(
            if earliest >= keep_from {
                earliest
            } else {
                keep_from
            },
        );
        proof {
            assert(self.unapplied_slashes@ == pre_fin.unapplied_slashes@);
            assert(self.events@ == pre_fin.events@);
            let kf = old(self).spec_slash_keep_from(active_era);
            assert(keep_from as int == kf);
            assert(era as int == if earliest as int >= kf {
                earliest as int
            } else {
                kf
            });
            assert forall|k: u64| earliest <= k < keep_from implies
                !(#[trigger] self.unapplied_slashes@.contains_key(k)) by {
                assert(earliest <= k < era);
                assert(!pre_fin.unapplied_slashes@.contains_key(k));
            }
            assert forall|k: u64| !(earliest <= k < keep_from) implies
                (#[trigger] self.unapplied_slashes@.contains_key(k)
                    == old(self).unapplied_slashes@.contains_key(k))
                    && (old(self).unapplied_slashes@.contains_key(k)
                        ==> self.unapplied_slashes@[k] == old(self).unapplied_slashes@[k]) by {
                assert(!(earliest <= k < era));
            }
            assert forall|k: u64, j: int|
                earliest <= k < keep_from && old(self).unapplied_slashes@.contains_key(k)
                    && 0 <= j < old(self).unapplied_slashes@[k]@.len()
                    && old(self).bonded@.contains_key(
                    (#[trigger] old(self).unapplied_slashes@[k]@[j]).validator,
                ) implies spec_slashed_event_between(
                self.events@,
                old(self).events@.len() as int,
                self.events@.len() as int,
                old(self).unapplied_slashes@[k]@[j].validator,
            ) by {
                assert(earliest <= k < era);
            }
        }
    }

    /// Compute a validator's own-stake slash for an offence of `fraction`
    /// against its exposure, span-bounded: a repeated report for the same
    /// era adds only what a higher fraction adds, and the span record keeps
    /// one continuous misbehavior window from being re-slashed.  The
    /// reporter bounty is capped at `reward_proportion` of the span's
    /// slash.  Returns nothing when the report adds nothing new.
    fn compute_slash(
        &mut self,
        stash: u64,
        fraction: Perbill,
        exposure_own: u128,
        slash_era: EraIndex,
        window_start: EraIndex,
        reward_proportion: Perbill,
    ) -> (r: Option<UnappliedSlash>)
        requires
            old(self).wf(),
            fraction.wf(),
            reward_proportion.wf(),
        ensures
            final(self).wf(),
            Staking::same_admin(old(self), final(self)),
            Staking::same_eras(old(self), final(self)),
            Staking::same_bonding(old(self), final(self)),
            Staking::same_registry(old(self), final(self)),
            final(self).events@ == old(self).events@,
            final(self).unapplied_slashes@ == old(self).unapplied_slashes@,
            final(self).earliest_unapplied_slash == old(self).earliest_unapplied_slash,
            r.is_some() == (old(self).spec_offence_delta(
                slash_era as u64,
                stash,
                fraction,
                exposure_own,
            ) > 0),
            match r {
                Some(unapplied) => {
                    let own_total = (exposure_own as int) * fraction.spec_parts() / (
                    crate::BILLION as int);
                    let prior_amount: int = if old(self).validator_slash_in_era@.contains_key(
                        (slash_era as u64, stash),
                    ) {
                        old(self).validator_slash_in_era@[(slash_era as u64, stash)].1 as int
                    } else {
                        0
                    };
                    let span_idx: u64 = if old(self).slashing_spans@.contains_key(stash) {
                        old(self).slashing_spans@[stash].span_index as u64
                    } else {
                        0
                    };
                    &&& unapplied.validator == stash
                    &&& unapplied.own > 0
                    &&& unapplied.others@.len() == 0
                    &&& unapplied.reporters@.len() == 0
                    // Only the difference over what this era already took.
                    &&& unapplied.own as int == own_total - prior_amount
                    &&& unapplied.own as int == old(self).spec_offence_delta(
                        slash_era as u64,
                        stash,
                        fraction,
                        exposure_own,
                    )
                    &&& final(self).validator_slash_in_era@
                        == old(self).validator_slash_in_era@.insert(
                        (slash_era as u64, stash),
                        (fraction, own_total as u128),
                    )
                    // The stash's span history records the non-zero slash.
                    &&& final(self).slashing_spans@ == old(self).slashing_spans@.insert(
                        stash,
                        final(self).slashing_spans@[stash],
                    )
                    &&& final(self).slashing_spans@.contains_key(stash)
                    &&& final(self).slashing_spans@[stash].span_index == (
                        if old(self).slashing_spans@.contains_key(stash) {
                            old(self).slashing_spans@[stash].span_index
                        } else {
                            0
                        }
                    )
                    &&& final(self).slashing_spans@[stash].last_nonzero_slash as int == (
                        if old(self).slashing_spans@.contains_key(stash)
                            && old(self).slashing_spans@[stash].last_nonzero_slash as int
                                >= slash_era as int {
                            old(self).slashing_spans@[stash].last_nonzero_slash as int
                        } else {
                            slash_era as int
                        }
                    )
                    // The span record accumulates, and the reporter bounty
                    // paid over the whole span only ever catches up to the
                    // reward fraction of everything the span was slashed
                    // for: one continuous window cannot pay bounties twice.
                    &&& ({
                        let old_slashed: int = if old(self).span_slash@.contains_key(
                            (stash, span_idx),
                        ) {
                            old(self).span_slash@[(stash, span_idx)].slashed as int
                        } else {
                            0
                        };
                        let old_paid: int = if old(self).span_slash@.contains_key(
                            (stash, span_idx),
                        ) {
                            old(self).span_slash@[(stash, span_idx)].paid_out as int
                        } else {
                            0
                        };
                        let slashed_after: int = if old_slashed + (own_total - prior_amount)
                            <= u128::MAX {
                            old_slashed + (own_total - prior_amount)
                        } else {
                            u128::MAX as int
                        };
                        let bounty_target: int = slashed_after * reward_proportion.spec_parts()
                            / (crate::BILLION as int);
                        &&& final(self).span_slash@.contains_key((stash, span_idx))
                        &&& final(self).span_slash@ == old(self).span_slash@.insert(
                            (stash, span_idx),
                            final(self).span_slash@[(stash, span_idx)],
                        )
                        &&& final(self).span_slash@[(stash, span_idx)].slashed == slashed_after
                        &&& final(self).span_slash@[(stash, span_idx)].paid_out as int
                            == (if old_paid >= bounty_target {
                            old_paid
                        } else {
                            bounty_target
                        })
                        &&& unapplied.payout as int
                            == final(self).span_slash@[(stash, span_idx)].paid_out - old_paid
                    })
                },
                None => {
                    &&& final(self).validator_slash_in_era@
                        == old(self).validator_slash_in_era@
                    &&& final(self).slashing_spans@ == old(self).slashing_spans@
                    &&& final(self).span_slash@ == old(self).span_slash@
                },
            },
    {
        let own_slash_total: u128 = fraction.mul_balance(exposure_own);
        let era_key: u64 = slash_era as u64;
        let prior: (u32, u128) = match self.validator_slash_in_era.get(era_key, stash) {
            Some(p) => (p.0.parts, p.1),
            None => (0, 0),
        };
        if prior.0 > 0 && fraction.parts <= prior.0 {
            // An equal or stronger slash for this era is already recorded.
            return None;
        }
        let delta: u128 = if own_slash_total > prior.1 {
            own_slash_total - prior.1
        } else {
            0
        };
        if delta == 0 {
            return None;
        }
        self.validator_slash_in_era.insert(era_key, stash, (fraction, own_slash_total));
        // Track the misbehavior span.
        let spans: SlashingSpans = match self.slashing_spans.get(stash) {
            Some(s) => *s,
            None => SlashingSpans::new(window_start),
        };
        let updated_spans = SlashingSpans {
            span_index: spans.span_index,
            last_start: spans.last_start,
            last_nonzero_slash: if slash_era >= spans.last_nonzero_slash {
                slash_era
            } else {
                spans.last_nonzero_slash
            },
        };
        self.slashing_spans.insert(stash, updated_spans);
        let rec: SpanRecord = match self.span_slash.get(stash, spans.span_index as u64) {
            Some(rc) => *rc,
            None => SpanRecord::new(),
        };
        let slashed_after: u128 = if rec.slashed <= u128::MAX - delta {
            rec.slashed + delta
        } else {
            u128::MAX
        };
        let target_bounty: u128 = reward_proportion.mul_balance(slashed_after);
        let payout: u128 = if target_bounty > rec.paid_out {
            target_bounty - rec.paid_out
        } else {
            0
        };
        let new_rec = SpanRecord { slashed: slashed_after, paid_out: rec.paid_out + payout };
        self.span_slash.insert(stash, spans.span_index as u64, new_rec);
        Some(
            UnappliedSlash {
                validator: stash,
                own: delta,
                others: Vec::new(),
                reporters: Vec::new(),
                payout,
            },
        )
    }

    /// The era an offending session belongs to, read from the bonded-eras
    /// ring, newest first.
    pub open spec fn spec_find_slash_era(ring: Seq<(EraIndex, SessionIndex)>, sess: SessionIndex)
        -> Option<EraIndex>
        decreases ring.len(),
    {
        if ring.len() == 0 {
            None
        } else if ring.last().1 <= sess {
            Some(ring.last().0)
        } else {
            Staking::spec_find_slash_era(ring.drop_last(), sess)
        }
    }

    /// The era a report about `slash_session` is charged to: the active era
    /// on the fast path, an older bonded era otherwise, or nothing when the
    /// report predates the bonding window.
    pub open spec fn spec_slash_era(&self, slash_session: SessionIndex) -> Option<EraIndex> {
        match self.active_era {
            None => None,
            Some(a) => {
                let start: int = if self.eras_start_session_index@.contains_key(a.index as u64) {
                    self.eras_start_session_index@[a.index as u64] as int
                } else {
                    0
                };
                if slash_session as int >= start {
                    Some(a.index)
                } else {
                    Staking::spec_find_slash_era(self.bonded_eras@, slash_session)
                }
            },
        }
    }

    /// The whole own-stake slash a fraction asks of an exposure.
    pub open spec fn spec_offence_own_total(fraction: Perbill, exposure_own: u128) -> int {
        (exposure_own as int) * fraction.spec_parts() / (crate::BILLION as int)
    }

    /// What this era already slashed this stash for: `(fraction parts,
    /// amount)`, zero when nothing is recorded.
    pub open spec fn spec_offence_prior(&self, se: u64, stash: u64) -> (int, int) {
        if self.validator_slash_in_era@.contains_key((se, stash)) {
            (
                self.validator_slash_in_era@[(se, stash)].0.spec_parts(),
                self.validator_slash_in_era@[(se, stash)].1 as int,
            )
        } else {
            (0, 0)
        }
    }

    /// The fresh slash a report adds for one offender: only the difference
    /// over what this era already took, and nothing at all for a fraction
    /// no higher than the one already recorded.
    pub open spec fn spec_offence_delta(
        &self,
        se: u64,
        stash: u64,
        fraction: Perbill,
        exposure_own: u128,
    ) -> int {
        let own_total = Staking::spec_offence_own_total(fraction, exposure_own);
        let prior = self.spec_offence_prior(se, stash);
        if prior.0 > 0 && fraction.spec_parts() <= prior.0 {
            0
        } else if own_total > prior.1 {
            own_total - prior.1
        } else {
            0
        }
    }

    /// An offender this report leaves untouched: its per-era slash record,
    /// its spans and span records, and its ledger all stay as they were.
    pub open spec fn spec_offender_untouched(
        pre: &Staking,
        post: &Staking,
        se: u64,
        stash: u64,
    ) -> bool {
        &&& post.validator_slash_in_era@.contains_key((se, stash))
            == pre.validator_slash_in_era@.contains_key((se, stash))
        &&& (pre.validator_slash_in_era@.contains_key((se, stash))
            ==> post.validator_slash_in_era@[(se, stash)]
                == pre.validator_slash_in_era@[(se, stash)])
        &&& post.slashing_spans@.contains_key(stash) == pre.slashing_spans@.contains_key(stash)
        &&& (pre.slashing_spans@.contains_key(stash)
            ==> post.slashing_spans@[stash] == pre.slashing_spans@[stash])
        &&& (forall|idx: u64| (#[trigger] post.span_slash@.contains_key((stash, idx)))
            == pre.span_slash@.contains_key((stash, idx)))
        &&& (forall|idx: u64| pre.span_slash@.contains_key((stash, idx))
            ==> #[trigger] post.span_slash@[(stash, idx)] == pre.span_slash@[(stash, idx)])
        &&& (pre.bonded@.contains_key(stash)
            ==> post.ledger@[pre.bonded@[stash]] == pre.ledger@[pre.bonded@[stash]])
    }

    /// An offender this report slashed afresh: the era record moves to the
    /// reported fraction and full amount, the span accumulates with its
    /// reporter bounty capped at the reward fraction of the span's whole
    /// slash, and the resulting slash — the validator's own stake only,
    /// with the report's reporters — is applied at once without deferral or
    /// queued under the active era with it.
    pub open spec fn spec_offender_slashed(
        pre: &Staking,
        post: &Staking,
        se: u64,
        stash: u64,
        fraction: Perbill,
        exposure_own: u128,
        reporters: Seq<u64>,
        active_era: EraIndex,
    ) -> bool {
        let own_total = Staking::spec_offence_own_total(fraction, exposure_own);
        let delta = pre.spec_offence_delta(se, stash, fraction, exposure_own);
        let span_idx: u64 = if pre.slashing_spans@.contains_key(stash) {
            pre.slashing_spans@[stash].span_index as u64
        } else {
            0
        };
        let old_slashed: int = if pre.span_slash@.contains_key((stash, span_idx)) {
            pre.span_slash@[(stash, span_idx)].slashed as int
        } else {
            0
        };
        let old_paid: int = if pre.span_slash@.contains_key((stash, span_idx)) {
            pre.span_slash@[(stash, span_idx)].paid_out as int
        } else {
            0
        };
        let slashed_after: int = if old_slashed + delta <= u128::MAX {
            old_slashed + delta
        } else {
            u128::MAX as int
        };
        let bounty_target: int = slashed_after * pre.slash_reward_fraction.spec_parts() / (
        crate::BILLION as int);
        let paid_after: int = if old_paid >= bounty_target {
            old_paid
        } else {
            bounty_target
        };
        &&& post.validator_slash_in_era@.contains_key((se, stash))
        &&& post.validator_slash_in_era@[(se, stash)] == (fraction, own_total as u128)
        &&& post.slashing_spans@.contains_key(stash)
        &&& post.slashing_spans@[stash].last_nonzero_slash as int == (if pre.slashing_spans@
            .contains_key(stash) && pre.slashing_spans@[stash].last_nonzero_slash as int
            >= se as int {
            pre.slashing_spans@[stash].last_nonzero_slash as int
        } else {
            se as int
        })
        &&& post.span_slash@.contains_key((stash, span_idx))
        &&& post.span_slash@[(stash, span_idx)].slashed as int == slashed_after
        &&& post.span_slash@[(stash, span_idx)].paid_out as int == paid_after
        &&& (pre.config.slash_defer_duration > 0
            ==> post.unapplied_slashes@.contains_key(active_era as u64))
        &&& (pre.config.slash_defer_duration == 0 && pre.bonded@.contains_key(stash) ==> ({
            let c = pre.bonded@[stash];
            post.ledger@[c].active == pre.ledger@[c].active
                - crate::ledger::drained_amount(
                pre.ledger@[c].active as int,
                delta,
                pre.config.minimum_balance as int,
            )
        }))
    }

    /// React to an offence report: for each non-invulnerable offender,
    /// compute the span-bounded slash against its exposure at the era the
    /// offence belongs to.  Nominator co-slashing is suppressed by design:
    /// only the validator's own stake answers for the offence.  With no
    /// deferral the slash applies on the spot; otherwise it queues under
    /// the active era until its window elapses.
    pub fn on_offence(
        &mut self,
        offenders: &Vec<(u64, u128)>,
        slash_fractions: &Vec<Perbill>,
        slash_session: SessionIndex,
        reporters: &Vec<u64>,
    )
        requires
            old(self).wf(),
            offenders@.len() == slash_fractions@.len(),
            forall|i: int| 0 <= i < slash_fractions@.len()
                ==> (#[trigger] slash_fractions@[i]).wf(),
        ensures
            final(self).wf(),
            Staking::same_admin(old(self), final(self)),
            Staking::same_eras(old(self), final(self)),
            Staking::same_registry(old(self), final(self)),
            final(self).bonded@ == old(self).bonded@,
            final(self).payee@ == old(self).payee@,
            old(self).active_era.is_none() ==> *final(self) == *old(self),
            (old(self).active_era.is_some() && old(self).config.slash_defer_duration > 0)
                ==> Staking::same_bonding(old(self), final(self))
                    && final(self).events@ == old(self).events@,
            old(self).active_era.is_some()
                && old(self).spec_slash_era(slash_session) is None ==> *final(self) == *old(self),
            match old(self).spec_slash_era(slash_session) {
                Some(se) => {
                    let active = old(self).active_era.unwrap().index;
                    &&& final(self).earliest_unapplied_slash == (
                        if old(self).earliest_unapplied_slash is None {
                            Some(active)
                        } else {
                            old(self).earliest_unapplied_slash
                        }
                    )
                    // Queues of other eras are untouched, and the active
                    // era's queue only grows at the back; every entry it
                    // gained holds a validator's own stake alone, with the
                    // report's reporters.
                    &&& (forall|k: u64| k != active as u64
                        ==> (#[trigger] final(self).unapplied_slashes@.contains_key(k)
                            == old(self).unapplied_slashes@.contains_key(k))
                            && (old(self).unapplied_slashes@.contains_key(k)
                                ==> final(self).unapplied_slashes@[k]
                                    == old(self).unapplied_slashes@[k]))
                    &&& (old(self).config.slash_defer_duration > 0 ==> ({
                        let q0 = if old(self).unapplied_slashes@.contains_key(active as u64) {
                            old(self).unapplied_slashes@[active as u64]@
                        } else {
                            Seq::<UnappliedSlash>::empty()
                        };
                        final(self).unapplied_slashes@.contains_key(active as u64) ==> ({
                            let q1 = final(self).unapplied_slashes@[active as u64]@;
                            &&& q0.len() <= q1.len()
                            &&& q1.take(q0.len() as int) == q0
                            &&& (forall|x: int| q0.len() <= x < q1.len() ==> ({
                                let entry = #[trigger] q1[x];
                                &&& entry.others@.len() == 0
                                &&& entry.reporters@ == reporters@
                                &&& entry.own > 0
                            }))
                        })
                    }))
                    // Each offender, offenders distinct: an invulnerable
                    // one is exempt entirely; one whose fraction adds
                    // nothing fresh is left as it was; the rest are slashed
                    // per the span-bounded rule, paired with their own
                    // fractions.
                    &&& ((forall|a: int, b: int| 0 <= a < b < offenders@.len()
                        ==> (#[trigger] offenders@[a]).0 != (#[trigger] offenders@[b]).0)
                        ==> (forall|i: int| 0 <= i < offenders@.len() ==> {
                        let stash = (#[trigger] offenders@[i]).0;
                        let own = offenders@[i].1;
                        let fraction = slash_fractions@[i];
                        if old(self).invulnerables@.contains(stash) {
                            Staking::spec_offender_untouched(
                                old(self),
                                final(self),
                                se as u64,
                                stash,
                            )
                        } else if old(self).spec_offence_delta(se as u64, stash, fraction, own)
                            == 0 {
                            Staking::spec_offender_untouched(
                                old(self),
                                final(self),
                                se as u64,
                                stash,
                            )
                        } else {
                            Staking::spec_offender_slashed(
                                old(self),
                                final(self),
                                se as u64,
                                stash,
                                fraction,
                                own,
                                reporters@,
                                active,
                            )
                        }
                    }))
                },
                None => true,
            },
    {
        let active_era: EraIndex = match self.active_era {
            Some(a) => a.index,
            None => {
                // Before the first era nothing can be slashed.
                return;
            },
        };
        let reward_proportion = self.slash_reward_fraction;
        let start_idx: SessionIndex = match self.eras_start_session_index.get(active_era as u64) {
            Some(s) => *s,
            None => 0,
        };
        let window_start: EraIndex = if active_era >= self.config.bonding_duration {
            active_era - self.config.bonding_duration
        } else {
            0
        };
        let slash_era: EraIndex = if slash_session >= start_idx {
            active_era
        } else {
            // Search the bonded eras, newest first, for the era the
            // offending session belongs to.
            let mut found: Option<EraIndex> = None;
            let nb = self.bonded_eras.len();
            let mut i: usize = nb;
            proof {
                assert(self.bonded_eras@.take(nb as int) =~= self.bonded_eras@);
            }
            while i > 0 && found.is_none()
                invariant
                    i <= nb,
                    nb == self.bonded_eras@.len(),
                    Staking::spec_find_slash_era(self.bonded_eras@, slash_session) == (
                    match found {
                        Some(e) => Some(e),
                        None => Staking::spec_find_slash_era(
                            self.bonded_eras@.take(i as int),
                            slash_session,
                        ),
                    }),
                decreases i,
            {
                i -= 1;
                proof {
                    assert(self.bonded_eras@.take(i as int + 1).drop_last()
                        =~= self.bonded_eras@.take(i as int));
                    assert(self.bonded_eras@.take(i as int + 1).last()
                        == self.bonded_eras@[i as int]);
                }
                if self.bonded_eras[i].1 <= slash_session {
                    found = Some(self.bonded_eras[i].0);
                }
            }
            match found {
                Some(e) => e,
                None => {
                    // Before the bonding period: nothing to do.
                    proof {
                        assert(self.bonded_eras@.take(0) =~= Seq::<(u32, u32)>::empty());
                    }
                    return;
                },
            }
        };
        proof {
            assert(old(self).spec_slash_era(slash_session) == Some(slash_era));
        }
        if self.earliest_unapplied_slash.is_none() {
            self.earliest_unapplied_slash = Some(active_era);
        }
        let defer = self.config.slash_defer_duration;
        let ghost dist = forall|a: int, b: int| 0 <= a < b < offenders@.len()
            ==> (#[trigger] offenders@[a]).0 != (#[trigger] offenders@[b]).0;
        let ghost se64 = slash_era as u64;
        let n = offenders.len();
        let mut i: usize = 0;
        while i < n
            invariant
                n == offenders@.len(),
                n == slash_fractions@.len(),
                forall|j: int| 0 <= j < slash_fractions@.len()
                    ==> (#[trigger] slash_fractions@[j]).wf(),
                reward_proportion == old(self).slash_reward_fraction,
                se64 == slash_era as u64,
                defer == old(self).config.slash_defer_duration,
                window_start == (if old(self).active_era.unwrap().index as int
                    >= old(self).config.bonding_duration as int {
                    old(self).active_era.unwrap().index - old(self).config.bonding_duration
                } else {
                    0
                }),
                active_era == old(self).active_era.unwrap().index,
                dist == (forall|a: int, b: int| 0 <= a < b < offenders@.len()
                    ==> (#[trigger] offenders@[a]).0 != (#[trigger] offenders@[b]).0),
                i <= n,
                self.wf(),
                Staking::same_admin(old(self), self),
                Staking::same_eras(old(self), self),
                Staking::same_registry(old(self), self),
                self.bonded@ == old(self).bonded@,
                self.payee@ == old(self).payee@,
                self.invulnerables@ == old(self).invulnerables@,
                self.config.minimum_balance == old(self).config.minimum_balance,
                self.slash_reward_fraction == old(self).slash_reward_fraction,
                self.earliest_unapplied_slash == (
                    if old(self).earliest_unapplied_slash is None {
                        Some(active_era)
                    } else {
                        old(self).earliest_unapplied_slash
                    }
                ),
                defer > 0 ==> Staking::same_bonding(old(self), self)
                    && self.events@ == old(self).events@,
                old(self).events@.len() <= self.events@.len(),
                self.events@.take(old(self).events@.len() as int) == old(self).events@,
                forall|k: u64| k != active_era as u64
                    ==> (#[trigger] self.unapplied_slashes@.contains_key(k)
                        == old(self).unapplied_slashes@.contains_key(k))
                        && (old(self).unapplied_slashes@.contains_key(k)
                            ==> self.unapplied_slashes@[k]
                                == old(self).unapplied_slashes@[k]),
                defer > 0 ==> ({
                    let q0 = if old(self).unapplied_slashes@.contains_key(active_era as u64) {
                        old(self).unapplied_slashes@[active_era as u64]@
                    } else {
                        Seq::<UnappliedSlash>::empty()
                    };
                    &&& (old(self).unapplied_slashes@.contains_key(active_era as u64)
                        ==> self.unapplied_slashes@.contains_key(active_era as u64))
                    &&& self.unapplied_slashes@.contains_key(active_era as u64) ==> ({
                        let q1 = self.unapplied_slashes@[active_era as u64]@;
                        &&& q0.len() <= q1.len()
                        &&& q1.take(q0.len() as int) == q0
                        &&& (forall|x: int| q0.len() <= x < q1.len() ==> ({
                            let entry = #[trigger] q1[x];
                            &&& entry.others@.len() == 0
                            &&& entry.reporters@ == reporters@
                            &&& entry.own > 0
                        }))
                    })
                }),
                dist ==> (forall|j: int| i <= j < offenders@.len()
                    ==> Staking::spec_offender_untouched(
                        old(self),
                        self,
                        se64,
                        (#[trigger] offenders@[j]).0,
                    )),
                dist ==> (forall|j: int| 0 <= j < i ==> {
                    let stash = (#[trigger] offenders@[j]).0;
                    let own = offenders@[j].1;
                    let fraction = slash_fractions@[j];
                    if old(self).invulnerables@.contains(stash) {
                        Staking::spec_offender_untouched(old(self), self, se64, stash)
                    } else if old(self).spec_offence_delta(se64, stash, fraction, own) == 0 {
                        Staking::spec_offender_untouched(old(self), self, se64, stash)
                    } else {
                        Staking::spec_offender_slashed(
                            old(self),
                            self,
                            se64,
                            stash,
                            fraction,
                            own,
                            reporters@,
                            active_era,
                        )
                    }
                }),
            decreases n - i,
        {
            let (stash, exposure_own) = offenders[i];
            let fraction = slash_fractions[i];
            let ghost pre = *self;
            if !crate::election::account_listed(&self.invulnerables, stash) {
                let unapplied = self.compute_slash(
                    stash,
                    fraction,
                    exposure_own,
                    slash_era,
                    window_start,
                    reward_proportion,
                );
                match unapplied {
                    Some(mut u) => {
                        u.reporters = clone_targets(reporters);
                        if defer == 0 {
                            self.apply_slash(&u);
                        } else {
                            let ghost pre_un = self.unapplied_slashes@;
                            let mut for_later: Vec<UnappliedSlash> = match self.unapplied_slashes
                                .take(active_era as u64) {
                                Some(v) => v,
                                None => Vec::new(),
                            };
                            let ghost q_before = for_later@;
                            for_later.push(u);
                            self.unapplied_slashes.insert(active_era as u64, for_later);
                            proof {
                                assert forall|k: u64| k != active_era as u64 implies
                                    (#[trigger] self.unapplied_slashes@.contains_key(k)
                                        == pre_un.contains_key(k))
                                        && (pre_un.contains_key(k)
                                            ==> self.unapplied_slashes@[k] == pre_un[k]) by {}
                                assert(self.unapplied_slashes@[active_era as u64]@
                                    =~= q_before.push(u));
                                assert(self.unapplied_slashes@[active_era as u64]@.take(
                                    q_before.len() as int,
                                ) =~= q_before);
                                let q0 = if old(self).unapplied_slashes@.contains_key(
                                    active_era as u64,
                                ) {
                                    old(self).unapplied_slashes@[active_era as u64]@
                                } else {
                                    Seq::<UnappliedSlash>::empty()
                                };
                                let q1 = self.unapplied_slashes@[active_era as u64]@;
                                if pre_un.contains_key(active_era as u64) {
                                    assert(q_before == pre_un[active_era as u64]@);
                                } else {
                                    assert(q_before =~= Seq::<UnappliedSlash>::empty());
                                    assert(!old(self).unapplied_slashes@.contains_key(
                                        active_era as u64,
                                    ));
                                    assert(q0 =~= Seq::<UnappliedSlash>::empty());
                                }
                                assert(q_before.take(q0.len() as int) =~= q0);
                                assert(q1.take(q0.len() as int) =~= q0);
                                assert forall|x: int| q0.len() <= x < q1.len() implies ({
                                    let entry = #[trigger] q1[x];
                                    &&& entry.others@.len() == 0
                                    &&& entry.reporters@ == reporters@
                                    &&& entry.own > 0
                                }) by {
                                    if x < q1.len() - 1 {
                                        assert(q1[x] == q_before[x]);
                                    } else {
                                        assert(q1[x] == u);
                                    }
                                }
                            }
                        }
                    },
                    None => {},
                }
            }
            proof {
                assert(self.events@.take(old(self).events@.len() as int) =~= old(self).events@);
                // One step only ever appends to the active era's queue and
                // to the event log.
                assert(pre.events@.len() <= self.events@.len()
                    && self.events@.take(pre.events@.len() as int) =~= pre.events@);
                if pre.unapplied_slashes@.contains_key(active_era as u64) {
                    assert(self.unapplied_slashes@.contains_key(active_era as u64)
                        && pre.unapplied_slashes@[active_era as u64]@.len()
                            <= self.unapplied_slashes@[active_era as u64]@.len()
                        && self.unapplied_slashes@[active_era as u64]@.take(
                        pre.unapplied_slashes@[active_era as u64]@.len() as int,
                    ) =~= pre.unapplied_slashes@[active_era as u64]@);
                }
                assert forall|k: u64| k != active_era as u64 implies
                    (#[trigger] self.unapplied_slashes@.contains_key(k)
                        == old(self).unapplied_slashes@.contains_key(k))
                        && (old(self).unapplied_slashes@.contains_key(k)
                            ==> self.unapplied_slashes@[k]
                                == old(self).unapplied_slashes@[k]) by {
                    assert(pre.unapplied_slashes@.contains_key(k)
                        == old(self).unapplied_slashes@.contains_key(k));
                    assert(self.unapplied_slashes@.contains_key(k)
                        == pre.unapplied_slashes@.contains_key(k));
                    if pre.unapplied_slashes@.contains_key(k) {
                        assert(self.unapplied_slashes@[k] == pre.unapplied_slashes@[k]);
                    }
                }
                if dist {
                    let ghost invuln = old(self).invulnerables@.contains(stash);
                    let ghost own_i = offenders@[i as int].1;
                    let ghost delta_i = old(self).spec_offence_delta(se64, stash, fraction,
                        own_i);
                    // This step touches only this offender's records.
                    assert forall|sj: u64| sj != stash implies
                        Staking::spec_offender_untouched(&pre, self, se64, sj) by {
                        if pre.bonded@.contains_key(sj) {
                            let cj = pre.bonded@[sj];
                            if pre.bonded@.contains_key(stash) && cj == pre.bonded@[stash] {
                                assert(pre.ledger@[cj].stash == sj);
                                assert(pre.ledger@[cj].stash == stash);
                            }
                        }
                    }
                    assert forall|j: int| i + 1 <= j < offenders@.len() implies
                        Staking::spec_offender_untouched(
                        old(self),
                        self,
                        se64,
                        (#[trigger] offenders@[j]).0,
                    ) by {
                        let sj = offenders@[j].0;
                        assert(sj != stash);
                        assert(Staking::spec_offender_untouched(old(self), &pre, se64, sj));
                        lemma_untouched_trans(old(self), &pre, self, se64, sj);
                    }
                    assert forall|j: int| 0 <= j < i + 1 implies {
                        let stash2 = (#[trigger] offenders@[j]).0;
                        let own2 = offenders@[j].1;
                        let fraction2 = slash_fractions@[j];
                        if old(self).invulnerables@.contains(stash2) {
                            Staking::spec_offender_untouched(old(self), self, se64, stash2)
                        } else if old(self).spec_offence_delta(se64, stash2, fraction2, own2)
                            == 0 {
                            Staking::spec_offender_untouched(old(self), self, se64, stash2)
                        } else {
                            Staking::spec_offender_slashed(
                                old(self),
                                self,
                                se64,
                                stash2,
                                fraction2,
                                own2,
                                reporters@,
                                active_era,
                            )
                        }
                    } by {
                        let stash2 = offenders@[j].0;
                        let own2 = offenders@[j].1;
                        let fraction2 = slash_fractions@[j];
                        if j < i {
                            assert(stash2 != stash);
                            assert(Staking::spec_offender_untouched(&pre, self, se64, stash2));
                            if old(self).invulnerables@.contains(stash2)
                                || old(self).spec_offence_delta(se64, stash2, fraction2, own2)
                                    == 0 {
                                lemma_untouched_trans(old(self), &pre, self, se64, stash2);
                            }
                        } else {
                            // The offender processed this very round.
                            assert(Staking::spec_offender_untouched(old(self), &pre, se64,
                                stash));
                            if invuln {
                                assert(Staking::spec_offender_untouched(&pre, self, se64, stash));
                                lemma_untouched_trans(old(self), &pre, self, se64, stash);
                            } else if delta_i == 0 {
                                assert(pre.spec_offence_delta(se64, stash, fraction, own_i)
                                    == delta_i);
                                assert(Staking::spec_offender_untouched(&pre, self, se64, stash));
                                lemma_untouched_trans(old(self), &pre, self, se64, stash);
                            } else {
                                assert(pre.spec_offence_delta(se64, stash, fraction, own_i)
                                    == delta_i);
                                assert(Staking::spec_offender_slashed(old(self), self, se64,
                                    stash, fraction, own_i, reporters@, active_era));
                            }
                        }
                    }
                }
            }
            i += 1;
        }
    }

    /// Whether an offence report from `offence_session` is still within
    /// the bonding window and may be forwarded.  A report from before it
    /// is discarded with a trace.
    pub fn filter_historical_offence(&mut self, offence_session: SessionIndex) -> (r: bool)
        requires
            old(self).wf(),
        ensures
            final(self).wf(),
            r == (old(self).bonded_eras@.len() > 0
                && offence_session >= old(self).bonded_eras@[0].1),
            r ==> *final(self) == *old(self),
            !r ==> (*final(self) == Staking { events: final(self).events, ..*old(self) })
                && final(self).events@ == old(self).events@.push(
                Event::OldSlashingReportDiscarded(offence_session),
            ),
    {
        let ok: bool = if self.bonded_eras.len() > 0 {
            offence_session >= self.bonded_eras[0].1
        } else {
            false
        };
        if !ok {
            self.events.push(Event::OldSlashingReportDiscarded(offence_session));
        }
        ok
    }

    /// Cancel queued, not yet applied slashes of `era` at the given
    /// (ascending, de-duplicated) indices.  After the deferral window has
    /// elapsed and the slashes applied, there is nothing left to cancel.
    #[verifier::rlimit(50)]
    pub fn cancel_deferred_slash(&mut self, era: EraIndex, slash_indices: &Vec<u32>) -> (r:
        Result<(), Error>)
        requires
            old(self).wf(),
        ensures
            final(self).wf(),
            Staking::same_admin(old(self), final(self)),
            Staking::same_eras(old(self), final(self)),
            Staking::same_bonding(old(self), final(self)),
            Staking::same_registry(old(self), final(self)),
            final(self).events@ == old(self).events@,
            match r {
                Ok(()) => spec_cancel_applied(
                    old(self),
                    final(self),
                    era,
                    slash_indices@,
                ),
                Err(e) => {
                    let ss = spec_sort_indices(slash_indices@);
                    let n0: int = if old(self).unapplied_slashes@.contains_key(era as u64) {
                        old(self).unapplied_slashes@[era as u64]@.len() as int
                    } else {
                        0
                    };
                    &&& spec_cancel_check(ss, n0, 0) == Some(e)
                    &&& *final(self) == *old(self)
                },
            },
    {
        // Sort the indices ascending.
        let sorted = sort_indices(slash_indices);
        let n0: usize = match self.unapplied_slashes.get(era as u64) {
            Some(v) => v.len(),
            None => 0,
        };
        // Validate before touching anything: each removal must name a
        // fresh index, and all must fall inside the queue.
        let m = sorted.len();
        let mut k: usize = 0;
        while k < m
            invariant
                m == sorted@.len(),
                k <= m,
                *self == *old(self),
                old(self).wf(),
                n0 as int == (if old(self).unapplied_slashes@.contains_key(era as u64) {
                    old(self).unapplied_slashes@[era as u64]@.len() as int
                } else {
                    0
                }),
                sorted@ == spec_sort_indices(slash_indices@),
                forall|j: int| 0 <= j < k ==> j <= #[trigger] sorted@[j] < n0,
                spec_cancel_check(sorted@, n0 as int, 0) == spec_cancel_check(
                    sorted@,
                    n0 as int,
                    k as int,
                ),
            decreases m - k,
        {
            let index = sorted[k] as usize;
            if index < k {
                return Err(Error::DuplicateIndex);
            }
            if index >= n0 {
                return Err(Error::InvalidSlashIndex);
            }
            k += 1;
        }
        let mut unapplied: Vec<UnappliedSlash> = match self.unapplied_slashes.take(era as u64) {
            Some(v) => v,
            None => Vec::new(),
        };
        let ghost orig_queue = unapplied@;
        let mut removed: usize = 0;
        while removed < m
            invariant
                m == sorted@.len(),
                removed <= m,
                unapplied@.len() == n0 - removed,
                sorted@ == spec_sort_indices(slash_indices@),
                forall|j: int| 0 <= j < m ==> j <= #[trigger] sorted@[j] < n0,
                spec_cancel_remove(orig_queue, sorted@, 0) == spec_cancel_remove(
                    unapplied@,
                    sorted@,
                    removed as int,
                ),
                self.wf(),
                Staking::same_admin(old(self), self),
                Staking::same_eras(old(self), self),
                Staking::same_bonding(old(self), self),
                Staking::same_registry(old(self), self),
                self.events@ == old(self).events@,
                self.unapplied_slashes@ == old(self).unapplied_slashes@.remove(era as u64),
            decreases m - removed,
        {
            let index = sorted[removed] as usize - removed;
            unapplied.remove(index);
            removed += 1;
        }
        self.unapplied_slashes.insert(era as u64, unapplied);
        proof {
            if old(self).unapplied_slashes@.contains_key(era as u64) {
                assert(orig_queue == old(self).unapplied_slashes@[era as u64]@);
            } else {
                assert(orig_queue =~= Seq::<UnappliedSlash>::empty());
            }
            assert(spec_cancel_applied(old(self), self, era, slash_indices@));
        }
        Ok(())
    }

    /// Force a staker to become completely unstaked, immediately: every
    /// record of the stash is removed and its balance lock released.
    pub fn force_unstake(&mut self, stash: u64) -> (r: Result<(), Error>)
        requires
            old(self).wf(),
        ensures
            final(self).wf(),
            Staking::same_admin(old(self), final(self)),
            Staking::same_eras(old(self), final(self)),
            final(self).events@ == old(self).events@,
            match r {
                Ok(()) => {
                    &&& old(self).bonded@.contains_key(stash)
                    &&& final(self).bonded@ == old(self).bonded@.remove(stash)
                    &&& final(self).ledger@ == old(self).ledger@.remove(
                        old(self).bonded@[stash],
                    )
                    &&& final(self).payee@ == old(self).payee@.remove(stash)
                    &&& final(self).validators@ == old(self).validators@.remove(stash)
                    &&& final(self).nominators@ == old(self).nominators@.remove(stash)
                    &&& final(self).locks@ == old(self).locks@.remove(stash)
                    &&& final(self).slashing_spans@ == old(self).slashing_spans@.remove(stash)
                },
                Err(e) => {
                    &&& e == Error::NotStash
                    &&& !old(self).bonded@.contains_key(stash)
                    &&& *final(self) == *old(self)
                },
            },
    {
        let r = self.kill_stash(stash);
        match r {
            Ok(()) => {
                self.locks.take(stash);
                proof {
                    Staking::lemma_links_after_kill(
                        old(self),
                        self,
                        stash,
                        old(self).bonded@[stash],
                    );
                }
                Ok(())
            },
            Err(e) => Err(e),
        }
    }

    /// Reap a dead stash: anyone may remove all staking records of a stash
    /// whose total balance has fallen to zero.
    pub fn reap_stash(&mut self, stash: u64, stash_total_balance: u128) -> (r: Result<(), Error>)
        requires
            old(self).wf(),
        ensures
            final(self).wf(),
            Staking::same_admin(old(self), final(self)),
            Staking::same_eras(old(self), final(self)),
            final(self).events@ == old(self).events@,
            match r {
                Ok(()) => {
                    &&& stash_total_balance == 0
                    &&& old(self).bonded@.contains_key(stash)
                    &&& final(self).bonded@ == old(self).bonded@.remove(stash)
                    &&& final(self).ledger@ == old(self).ledger@.remove(
                        old(self).bonded@[stash],
                    )
                    &&& final(self).payee@ == old(self).payee@.remove(stash)
                    &&& final(self).validators@ == old(self).validators@.remove(stash)
                    &&& final(self).nominators@ == old(self).nominators@.remove(stash)
                    &&& final(self).locks@ == old(self).locks@.remove(stash)
                },
                Err(e) => {
                    &&& *final(self) == *old(self)
                    &&& (e == Error::FundedTarget ==> stash_total_balance > 0)
                    &&& (e == Error::NotStash ==> stash_total_balance == 0
                        && !old(self).bonded@.contains_key(stash))
                    &&& (e == Error::FundedTarget || e == Error::NotStash)
                },
            },
    {
        if stash_total_balance > 0 {
            return Err(Error::FundedTarget);
        }
        self.force_unstake(stash)
    }

    /// Whether era `e` falls in the half-open pruning range `[lo, hi)`.
    pub open spec fn spec_pruned_era(e: int, lo: int, hi: int) -> bool {
        lo <= e < hi
    }

    /// What shrinking the history window to `new_depth` does to the era
    /// stores: every era between the old and the new window edge is pruned
    /// from each of them, and everything else stays.
    pub open spec fn spec_history_pruned(pre: &Staking, post: &Staking, new_depth: EraIndex)
        -> bool {
        let lk = pre.spec_last_kept(pre.history_depth);
        let nlk = if pre.current_era.is_some() {
            pre.spec_last_kept(new_depth)
        } else {
            lk
        };
        &&& (forall|k: u64| #[trigger] post.eras_validator_reward@.contains_key(k)
            == (pre.eras_validator_reward@.contains_key(k)
                && !Staking::spec_pruned_era(k as int, lk, nlk)))
        &&& (forall|k: u64| post.eras_validator_reward@.contains_key(k)
            ==> #[trigger] post.eras_validator_reward@[k] == pre.eras_validator_reward@[k])
        &&& (forall|k: u64| #[trigger] post.eras_total_stake@.contains_key(k)
            == (pre.eras_total_stake@.contains_key(k)
                && !Staking::spec_pruned_era(k as int, lk, nlk)))
        &&& (forall|k: u64| #[trigger] post.eras_start_session_index@.contains_key(k)
            == (pre.eras_start_session_index@.contains_key(k)
                && !Staking::spec_pruned_era(k as int, lk, nlk)))
        &&& (forall|k: u64| #[trigger] post.eras_reward_points@.contains_key(k)
            == (pre.eras_reward_points@.contains_key(k)
                && !Staking::spec_pruned_era(k as int, lk, nlk)))
        &&& (forall|k: (u64, u64)| #[trigger] post.eras_stakers@.contains_key(k)
            ==> pre.eras_stakers@.contains_key(k)
                && !Staking::spec_pruned_era(k.0 as int, lk, nlk)
                && post.eras_stakers@[k] == pre.eras_stakers@[k])
        &&& (forall|k: (u64, u64)|
            pre.eras_stakers@.contains_key(k) && !Staking::spec_pruned_era(k.0 as int, lk, nlk)
                ==> #[trigger] post.eras_stakers@.contains_key(k))
        &&& (forall|k: (u64, u64)| #[trigger] post.eras_validator_prefs@.contains_key(k)
            ==> pre.eras_validator_prefs@.contains_key(k)
                && !Staking::spec_pruned_era(k.0 as int, lk, nlk))
        &&& (forall|k: (u64, u64)|
            pre.eras_validator_prefs@.contains_key(k)
                && !Staking::spec_pruned_era(k.0 as int, lk, nlk)
                ==> #[trigger] post.eras_validator_prefs@.contains_key(k))
    }

    /// The first era the history window keeps, for a given depth.
    pub open spec fn spec_last_kept(&self, depth: EraIndex) -> int {
        match self.current_era {
            Some(cur) => if cur >= depth {
                cur - depth
            } else {
                0
            },
            None => 0,
        }
    }

    /// Change how many eras of history are kept.  Shrinking the window
    /// prunes every era record that falls out of it.
    pub fn set_history_depth(&mut self, new_history_depth: EraIndex)
        requires
            old(self).wf(),
        ensures
            final(self).wf(),
            final(self).history_depth == (if old(self).current_era.is_some() {
                new_history_depth
            } else {
                old(self).history_depth
            }),
            Staking::same_bonding(old(self), final(self)),
            Staking::same_slashing(old(self), final(self)),
            final(self).events@ == old(self).events@,
            final(self).validators@ == old(self).validators@,
            final(self).nominators@ == old(self).nominators@,
            final(self).permissioned_validators@ == old(self).permissioned_validators@,
            final(self).current_era == old(self).current_era,
            final(self).active_era == old(self).active_era,
            final(self).bonded_eras@ == old(self).bonded_eras@,
            Staking::spec_history_pruned(old(self), final(self), new_history_depth),
    {
        let current_era: EraIndex = match self.current_era {
            Some(e) => e,
            None => {
                return;
            },
        };
        let last_kept: EraIndex = if current_era >= self.history_depth {
            current_era - self.history_depth
        } else {
            0
        };
        let new_last_kept: EraIndex = if current_era >= new_history_depth {
            current_era - new_history_depth
        } else {
            0
        };
        self.history_depth = new_history_depth;
        let mut era_index: EraIndex = last_kept;
        while era_index < new_last_kept
            invariant
                self.wf(),
                old(self).current_era.is_some(),
                last_kept == old(self).spec_last_kept(old(self).history_depth),
                new_last_kept == old(self).spec_last_kept(new_history_depth),
                last_kept <= era_index,
                era_index <= new_last_kept || era_index == last_kept,
                Staking::same_bonding(old(self), self),
                Staking::same_slashing(old(self), self),
                self.events@ == old(self).events@,
                self.validators@ == old(self).validators@,
                self.nominators@ == old(self).nominators@,
                self.permissioned_validators@ == old(self).permissioned_validators@,
                self.current_era == old(self).current_era,
                self.active_era == old(self).active_era,
                self.history_depth == new_history_depth,
                self.bonded_eras@ == old(self).bonded_eras@,
                ({
                    let lk = last_kept as int;
                    let nlk = era_index as int;
                    &&& (forall|k: u64| #[trigger] self.eras_validator_reward@.contains_key(k)
                        == (old(self).eras_validator_reward@.contains_key(k)
                            && !Staking::spec_pruned_era(k as int, lk, nlk)))
                    &&& (forall|k: u64| self.eras_validator_reward@.contains_key(k)
                        ==> #[trigger] self.eras_validator_reward@[k]
                            == old(self).eras_validator_reward@[k])
                    &&& (forall|k: u64| #[trigger] self.eras_total_stake@.contains_key(k)
                        == (old(self).eras_total_stake@.contains_key(k) && !Staking::spec_pruned_era(k as int, lk, nlk)))
                    &&& (forall|k: u64| #[trigger] self.eras_start_session_index@
                        .contains_key(k) == (old(self).eras_start_session_index@
                            .contains_key(k) && !Staking::spec_pruned_era(k as int, lk, nlk)))
                    &&& (forall|k: u64| #[trigger] self.eras_reward_points@.contains_key(k)
                        == (old(self).eras_reward_points@.contains_key(k) && !Staking::spec_pruned_era(k as int, lk, nlk)))
                    &&& (forall|k: (u64, u64)| #[trigger] self.eras_stakers@.contains_key(k)
                        ==> old(self).eras_stakers@.contains_key(k) && !Staking::spec_pruned_era(k.0 as int, lk, nlk)
                            && self.eras_stakers@[k] == old(self).eras_stakers@[k])
                    &&& (forall|k: (u64, u64)|
                        old(self).eras_stakers@.contains_key(k) && !Staking::spec_pruned_era(k.0 as int, lk, nlk)
                            ==> #[trigger] self.eras_stakers@.contains_key(k))
                    &&& (forall|k: (u64, u64)|
                        #[trigger] self.eras_validator_prefs@.contains_key(k)
                            ==> old(self).eras_validator_prefs@.contains_key(k)
                                && !Staking::spec_pruned_era(k.0 as int, lk, nlk))
                    &&& (forall|k: (u64, u64)|
                        old(self).eras_validator_prefs@.contains_key(k) && !Staking::spec_pruned_era(k.0 as int, lk, nlk)
                            ==> #[trigger] self.eras_validator_prefs@.contains_key(k))
                }),
            decreases new_last_kept - era_index,
        {
            let ghost pre = *self;
            self.clear_era_information(era_index);
            proof {
                let lk = last_kept as int;
                let e64 = era_index as u64;
                assert forall|k: u64| #[trigger] self.eras_validator_reward@.contains_key(k)
                    == (old(self).eras_validator_reward@.contains_key(k)
                        && !Staking::spec_pruned_era(k as int, lk, era_index as int + 1)) by {
                    assert(self.eras_validator_reward@ == pre.eras_validator_reward@.remove(e64));
                    if k as int == era_index as int {
                        assert(k == e64);
                    }
                }
                assert forall|k: u64| #[trigger] self.eras_total_stake@.contains_key(k)
                    == (old(self).eras_total_stake@.contains_key(k)
                        && !Staking::spec_pruned_era(k as int, lk, era_index as int + 1)) by {
                    if k as int == era_index as int {
                        assert(k == e64);
                    }
                }
                assert forall|k: u64| #[trigger] self.eras_start_session_index@.contains_key(k)
                    == (old(self).eras_start_session_index@.contains_key(k)
                        && !Staking::spec_pruned_era(k as int, lk, era_index as int + 1)) by {
                    if k as int == era_index as int {
                        assert(k == e64);
                    }
                }
                assert forall|k: u64| #[trigger] self.eras_reward_points@.contains_key(k)
                    == (old(self).eras_reward_points@.contains_key(k)
                        && !Staking::spec_pruned_era(k as int, lk, era_index as int + 1)) by {
                    if k as int == era_index as int {
                        assert(k == e64);
                    }
                }
                assert forall|k: (u64, u64)| #[trigger] self.eras_stakers@.contains_key(k)
                    implies (old(self).eras_stakers@.contains_key(k)
                        && !Staking::spec_pruned_era(k.0 as int, lk, era_index as int + 1)
                        && self.eras_stakers@[k] == old(self).eras_stakers@[k]) by {
                    assert(pre.eras_stakers@.contains_key(k) && k.0 != e64);
                }
                assert forall|k: (u64, u64)|
                    old(self).eras_stakers@.contains_key(k)
                        && !Staking::spec_pruned_era(k.0 as int, lk, era_index as int + 1)
                        implies #[trigger] self.eras_stakers@.contains_key(k) by {
                    assert(pre.eras_stakers@.contains_key(k));
                    assert(k.0 != e64);
                }
                assert forall|k: (u64, u64)|
                    #[trigger] self.eras_validator_prefs@.contains_key(k)
                        implies (old(self).eras_validator_prefs@.contains_key(k)
                            && !Staking::spec_pruned_era(k.0 as int, lk, era_index as int + 1))
                    by {
                    assert(pre.eras_validator_prefs@.contains_key(k) && k.0 != e64);
                }
                assert forall|k: (u64, u64)|
                    old(self).eras_validator_prefs@.contains_key(k)
                        && !Staking::spec_pruned_era(k.0 as int, lk, era_index as int + 1)
                        implies #[trigger] self.eras_validator_prefs@.contains_key(k) by {
                    assert(pre.eras_validator_prefs@.contains_key(k));
                    assert(k.0 != e64);
                }
            }
            era_index += 1;
        }
        proof {
            let lk = last_kept as int;
            let nlk = old(self).spec_last_kept(new_history_depth);
            assert(last_kept as int == old(self).spec_last_kept(old(self).history_depth));
            assert(new_last_kept as int == nlk);
            assert forall|e: int|
                Staking::spec_pruned_era(e, lk, era_index as int) == Staking::spec_pruned_era(
                e,
                lk,
                nlk,
            ) by {}
            assert(Staking::spec_history_pruned(old(self), self, new_history_depth));
        }
    }

    /// Force-unbond the whole active stake of each listed nominator whose
    /// compliance credential lapsed, and drop its nominations.  The caller
    /// asserts the targets' credentials have expired; every target must be
    /// a bonded stash, or nothing at all happens.  A target whose
    /// unlocking queue is already full is quietly left as it is.
    pub fn unsafe_validate_cdd_expiry_nominators(&mut self, targets: &Vec<u64>) -> (r: Result<
        (),
        Error,
    >)
        requires
            old(self).wf(),
            old(self).unbond_era_fits(),
        ensures
            final(self).wf(),
            Staking::same_admin(old(self), final(self)),
            Staking::same_eras(old(self), final(self)),
            Staking::same_slashing(old(self), final(self)),
            final(self).bonded@ == old(self).bonded@,
            final(self).payee@ == old(self).payee@,
            final(self).validators@ == old(self).validators@,
            final(self).permissioned_validators@ == old(self).permissioned_validators@,
            match r {
                Ok(()) => {
                    &&& (forall|i: int| 0 <= i < targets@.len()
                        ==> old(self).bonded@.contains_key(#[trigger] targets@[i]))
                    &&& ((forall|a: int, b: int|
                        0 <= a < b < targets@.len() ==> targets@[a] != targets@[b])
                        ==> (forall|i: int| 0 <= i < targets@.len() ==> {
                        let c = old(self).bonded@[#[trigger] targets@[i]];
                        let l0 = old(self).ledger@[c];
                        if l0.unlocking@.len() < MAX_UNLOCKING_CHUNKS {
                            // The whole active stake moves into one chunk
                            // maturing a bonding duration out; the total is
                            // conserved.
                            &&& final(self).ledger@[c].active == 0
                            &&& final(self).ledger@[c].total == l0.total
                            &&& final(self).ledger@[c].stash == l0.stash
                            &&& final(self).ledger@[c].unlocking@ == (if l0.active > 0 {
                                l0.unlocking@.push(
                                    UnlockChunk {
                                        value: l0.active,
                                        era: old(self).spec_unbond_era() as u32,
                                    },
                                )
                            } else {
                                l0.unlocking@
                            })
                            &&& !final(self).nominators@.contains_key(targets@[i])
                        } else {
                            // A full queue leaves the target untouched.
                            &&& final(self).ledger@[c] == l0
                            &&& final(self).nominators@.contains_key(targets@[i])
                                == old(self).nominators@.contains_key(targets@[i])
                        }
                    }))
                },
                Err(e) => {
                    &&& e == Error::NotStash
                    &&& (exists|i: int| 0 <= i < targets@.len()
                        && !old(self).bonded@.contains_key(#[trigger] targets@[i]))
                    &&& *final(self) == *old(self)
                },
            },
    {
        // Check every target first: the operation commits fully or not at
        // all.
        let n = targets.len();
        let mut i: usize = 0;
        while i < n
            invariant
                n == targets@.len(),
                i <= n,
                *self == *old(self),
                old(self).wf(),
                forall|j: int| 0 <= j < i
                    ==> old(self).bonded@.contains_key(#[trigger] targets@[j]),
            decreases n - i,
        {
            if !self.bonded.contains_key(targets[i]) {
                return Err(Error::NotStash);
            }
            i += 1;
        }
        // Apply.
        let ghost dist = forall|a: int, b: int|
            0 <= a < b < targets@.len() ==> targets@[a] != targets@[b];
        let mut k: usize = 0;
        while k < n
            invariant
                n == targets@.len(),
                k <= n,
                old(self).wf(),
                old(self).unbond_era_fits(),
                self.wf(),
                Staking::same_admin(old(self), self),
                Staking::same_eras(old(self), self),
                Staking::same_slashing(old(self), self),
                self.bonded@ == old(self).bonded@,
                self.payee@ == old(self).payee@,
                self.validators@ == old(self).validators@,
                self.permissioned_validators@ == old(self).permissioned_validators@,
                self.current_era == old(self).current_era,
                self.config.bonding_duration == old(self).config.bonding_duration,
                self.config.minimum_balance == old(self).config.minimum_balance,
                dist == (forall|a: int, b: int|
                    0 <= a < b < targets@.len() ==> targets@[a] != targets@[b]),
                forall|j: int| 0 <= j < targets@.len()
                    ==> old(self).bonded@.contains_key(#[trigger] targets@[j]),
                forall|c: u64| #[trigger] self.ledger@.contains_key(c)
                    == old(self).ledger@.contains_key(c),
                dist ==> (forall|j: int| 0 <= j < k ==> {
                    let c = old(self).bonded@[#[trigger] targets@[j]];
                    let l0 = old(self).ledger@[c];
                    if l0.unlocking@.len() < MAX_UNLOCKING_CHUNKS {
                        &&& self.ledger@[c].active == 0
                        &&& self.ledger@[c].total == l0.total
                        &&& self.ledger@[c].stash == l0.stash
                        &&& self.ledger@[c].unlocking@ == (if l0.active > 0 {
                            l0.unlocking@.push(
                                UnlockChunk {
                                    value: l0.active,
                                    era: old(self).spec_unbond_era() as u32,
                                },
                            )
                        } else {
                            l0.unlocking@
                        })
                        &&& !self.nominators@.contains_key(targets@[j])
                    } else {
                        &&& self.ledger@[c] == l0
                        &&& self.nominators@.contains_key(targets@[j])
                            == old(self).nominators@.contains_key(targets@[j])
                    }
                }),
                dist ==> (forall|j: int| k <= j < targets@.len() ==> self.ledger@[
                    old(self).bonded@[#[trigger] targets@[j]]] == old(self).ledger@[
                    old(self).bonded@[targets@[j]]]),
                dist ==> (forall|j: int| k <= j < targets@.len()
                    ==> (#[trigger] self.nominators@.contains_key(targets@[j]))
                        == old(self).nominators@.contains_key(targets@[j])),
            decreases n - k,
        {
            let target = targets[k];
            let controller = match self.bonded.get(target) {
                Some(c) => *c,
                None => {
                    proof {
                        assert(false);
                    }
                    return Err(Error::NotStash);
                },
            };
            let (active, room) = match self.ledger.get(controller) {
                Some(l) => (l.active, l.unlocking.len() < MAX_UNLOCKING_CHUNKS),
                None => {
                    proof {
                        assert(false);
                    }
                    (0, false)
                },
            };
            proof {
                if dist {
                    assert(self.ledger@[controller] == old(self).ledger@[controller]);
                }
            }
            if room {
                self.unbond_balance(controller, active);
                self.nominators.take(target);
            }
            proof {
                if dist {
                    assert forall|j: int| k + 1 <= j < targets@.len() implies self.ledger@[
                        old(self).bonded@[#[trigger] targets@[j]]] == old(self).ledger@[
                        old(self).bonded@[targets@[j]]] by {
                        let cj = old(self).bonded@[targets@[j]];
                        if cj == controller {
                            assert(old(self).ledger@[cj].stash == targets@[j]);
                            assert(old(self).ledger@[controller].stash == targets@[k as int]);
                            assert(targets@[j] != targets@[k as int]);
                            assert(false);
                        }
                    }
                }
            }
            k += 1;
        }
        Ok(())
    }

    /// Check the compliance expiry of the listed nominators: any that is
    /// nominating without a verifying credential is force-unbonded and
    /// dropped from the nominator pool.  Emits which nominators were
    /// invalidated, attributed to the caller.
    pub fn validate_cdd_expiry_nominators(
        &mut self,
        caller: u64,
        targets: &Vec<u64>,
        cdd_valid: &Vec<u64>,
    ) -> (r: Result<(), Error>)
        requires
            old(self).wf(),
            old(self).unbond_era_fits(),
        ensures
            final(self).wf(),
            Staking::same_admin(old(self), final(self)),
            Staking::same_eras(old(self), final(self)),
            Staking::same_slashing(old(self), final(self)),
            final(self).bonded@ == old(self).bonded@,
            final(self).payee@ == old(self).payee@,
            final(self).validators@ == old(self).validators@,
            final(self).permissioned_validators@ == old(self).permissioned_validators@,
            match r {
                Ok(()) => (forall|a: int, b: int|
                    0 <= a < b < targets@.len() ==> targets@[a] != targets@[b])
                    ==> (forall|i: int| 0 <= i < targets@.len() ==> {
                    let t = #[trigger] targets@[i];
                    if old(self).nominators@.contains_key(t) && !cdd_valid@.contains(t) {
                        let c = old(self).bonded@[t];
                        let l0 = old(self).ledger@[c];
                        if l0.unlocking@.len() < MAX_UNLOCKING_CHUNKS {
                            // The expired nominator's whole active stake
                            // moves into one chunk maturing a bonding
                            // duration out; the total is conserved.
                            &&& final(self).ledger@[c].active == 0
                            &&& final(self).ledger@[c].total == l0.total
                            &&& final(self).ledger@[c].stash == l0.stash
                            &&& final(self).ledger@[c].unlocking@ == (if l0.active > 0 {
                                l0.unlocking@.push(
                                    UnlockChunk {
                                        value: l0.active,
                                        era: old(self).spec_unbond_era() as u32,
                                    },
                                )
                            } else {
                                l0.unlocking@
                            })
                            &&& !final(self).nominators@.contains_key(t)
                        } else {
                            &&& final(self).ledger@[c] == l0
                            &&& final(self).nominators@.contains_key(t)
                        }
                    } else {
                        // A compliant or non-nominating target is untouched.
                        &&& (old(self).bonded@.contains_key(t)
                            ==> final(self).ledger@[old(self).bonded@[t]]
                                == old(self).ledger@[old(self).bonded@[t]])
                        &&& final(self).nominators@.contains_key(t)
                            == old(self).nominators@.contains_key(t)
                    }
                }),
                Err(e) => {
                    &&& *final(self) == *old(self)
                    &&& (e == Error::EmptyTargets <==> targets@.len() == 0)
                    &&& (e == Error::NotStash ==> (exists|i: int| 0 <= i < targets@.len()
                        && old(self).nominators@.contains_key(#[trigger] targets@[i])
                        && !cdd_valid@.contains(targets@[i])
                        && !old(self).bonded@.contains_key(targets@[i])))
                    &&& (e == Error::EmptyTargets || e == Error::NotStash)
                },
            },
    {
        if targets.len() == 0 {
            return Err(Error::EmptyTargets);
        }
        // Check first: every expired nominator among the targets must be a
        // bonded stash, or the whole call refuses.
        let n = targets.len();
        let mut i: usize = 0;
        while i < n
            invariant
                n == targets@.len(),
                i <= n,
                *self == *old(self),
                old(self).wf(),
                forall|j: int| 0 <= j < i ==> {
                    let t = #[trigger] targets@[j];
                    (old(self).nominators@.contains_key(t) && !cdd_valid@.contains(t))
                        ==> old(self).bonded@.contains_key(t)
                },
            decreases n - i,
        {
            let t = targets[i];
            let is_expired_nominator = self.nominators.contains_key(t)
                && !crate::election::account_listed(cdd_valid, t);
            if is_expired_nominator {
                if !self.bonded.contains_key(t) {
                    return Err(Error::NotStash);
                }
            }
            i += 1;
        }
        // Apply.
        let ghost dist = forall|a: int, b: int|
            0 <= a < b < targets@.len() ==> targets@[a] != targets@[b];
        let mut expired: Vec<u64> = Vec::new();
        let mut k: usize = 0;
        while k < n
            invariant
                n == targets@.len(),
                k <= n,
                old(self).wf(),
                old(self).unbond_era_fits(),
                self.wf(),
                Staking::same_admin(old(self), self),
                Staking::same_eras(old(self), self),
                Staking::same_slashing(old(self), self),
                self.bonded@ == old(self).bonded@,
                self.payee@ == old(self).payee@,
                self.validators@ == old(self).validators@,
                self.permissioned_validators@ == old(self).permissioned_validators@,
                self.current_era == old(self).current_era,
                self.config.bonding_duration == old(self).config.bonding_duration,
                self.config.minimum_balance == old(self).config.minimum_balance,
                dist == (forall|a: int, b: int|
                    0 <= a < b < targets@.len() ==> targets@[a] != targets@[b]),
                forall|j: int| 0 <= j < targets@.len() ==> {
                    let t = #[trigger] targets@[j];
                    (old(self).nominators@.contains_key(t) && !cdd_valid@.contains(t))
                        ==> old(self).bonded@.contains_key(t)
                },
                forall|c: u64| #[trigger] self.ledger@.contains_key(c)
                    == old(self).ledger@.contains_key(c),
                forall|s: u64| #[trigger] self.nominators@.contains_key(s)
                    ==> old(self).nominators@.contains_key(s),
                dist ==> (forall|j: int| 0 <= j < k ==> {
                    let t = #[trigger] targets@[j];
                    if old(self).nominators@.contains_key(t) && !cdd_valid@.contains(t) {
                        let c = old(self).bonded@[t];
                        let l0 = old(self).ledger@[c];
                        if l0.unlocking@.len() < MAX_UNLOCKING_CHUNKS {
                            &&& self.ledger@[c].active == 0
                            &&& self.ledger@[c].total == l0.total
                            &&& self.ledger@[c].stash == l0.stash
                            &&& self.ledger@[c].unlocking@ == (if l0.active > 0 {
                                l0.unlocking@.push(
                                    UnlockChunk {
                                        value: l0.active,
                                        era: old(self).spec_unbond_era() as u32,
                                    },
                                )
                            } else {
                                l0.unlocking@
                            })
                            &&& !self.nominators@.contains_key(t)
                        } else {
                            &&& self.ledger@[c] == l0
                            &&& self.nominators@.contains_key(t)
                        }
                    } else {
                        &&& (old(self).bonded@.contains_key(t)
                            ==> self.ledger@[old(self).bonded@[t]]
                                == old(self).ledger@[old(self).bonded@[t]])
                        &&& self.nominators@.contains_key(t)
                            == old(self).nominators@.contains_key(t)
                    }
                }),
                dist ==> (forall|j: int| k <= j < targets@.len()
                    ==> old(self).bonded@.contains_key(#[trigger] targets@[j]) ==> self.ledger@[
                    old(self).bonded@[targets@[j]]] == old(self).ledger@[old(self).bonded@[
                    targets@[j]]]),
                dist ==> (forall|j: int| k <= j < targets@.len()
                    ==> (#[trigger] self.nominators@.contains_key(targets@[j]))
                        == old(self).nominators@.contains_key(targets@[j])),
            decreases n - k,
        {
            let t = targets[k];
            let is_expired_nominator = self.nominators.contains_key(t)
                && !crate::election::account_listed(cdd_valid, t);
            if is_expired_nominator {
                let controller = match self.bonded.get(t) {
                    Some(c) => *c,
                    None => {
                        proof {
                            assert(false);
                        }
                        return Err(Error::NotStash);
                    },
                };
                let (active, room) = match self.ledger.get(controller) {
                    Some(l) => (l.active, l.unlocking.len() < MAX_UNLOCKING_CHUNKS),
                    None => {
                        proof {
                            assert(false);
                        }
                        (0, false)
                    },
                };
                proof {
                    if dist {
                        assert(self.ledger@[controller] == old(self).ledger@[controller]);
                    }
                }
                if room {
                    self.unbond_balance(controller, active);
                    self.nominators.take(t);
                    expired.push(t);
                }
                proof {
                    if dist {
                        assert forall|j: int| k + 1 <= j < targets@.len()
                            && old(self).bonded@.contains_key(#[trigger] targets@[j]) implies
                            self.ledger@[old(self).bonded@[targets@[j]]] == old(self).ledger@[
                            old(self).bonded@[targets@[j]]] by {
                            let cj = old(self).bonded@[targets@[j]];
                            if cj == controller {
                                assert(old(self).ledger@[cj].stash == targets@[j]);
                                assert(old(self).ledger@[controller].stash == targets@[k as int]);
                                assert(false);
                            }
                        }
                    }
                }
            }
            k += 1;
        }
        self.events.push(Event::InvalidatedNominators(caller, expired));
        Ok(())
    }

    /// The active exposure of a validator: what backs it in the era being
    /// rewarded right now.
    pub fn exposure_of(&self, validator: u64) -> (r: Option<&Exposure>)
        requires
            self.wf(),
        ensures
            match self.active_era {
                Some(a) => match r {
                    Some(e) => self.eras_stakers@.contains_key((a.index as u64, validator))
                        && *e == self.eras_stakers@[(a.index as u64, validator)],
                    None => !self.eras_stakers@.contains_key((a.index as u64, validator)),
                },
                None => r.is_none(),
            },
    {
        match self.active_era {
            Some(a) => self.eras_stakers.get(a.index as u64, validator),
            None => None,
        }
    }

    /// The reward fraction one listed validator contributes to a
    /// nominator's claim: the validator's point share, less commission,
    /// scaled by the nominator's share of the validator's backing — but
    /// only when the supplied index lands exactly on the nominator in the
    /// clipped exposure.  A mismatched index contributes nothing: the claim
    /// silently under-pays rather than erring.
    pub open spec fn spec_nominator_entry_fraction(
        &self,
        era: u64,
        nstash: u64,
        v: u64,
        idx: int,
    ) -> int {
        let b = crate::BILLION as int;
        if self.eras_stakers_clipped@.contains_key((era, v)) {
            let e = self.eras_stakers_clipped@[(era, v)];
            if 0 <= idx < e.others@.len() && e.others@[idx].who == nstash {
                let nep = Staking::spec_rational(e.others@[idx].value as int, e.total as int);
                let c = self.spec_era_commission(era, v);
                let pp = Staking::spec_rational(
                    self.spec_era_points_of(era, v),
                    self.spec_era_points_total(era),
                );
                (pp * (b - c) / b) * nep / b
            } else {
                0
            }
        } else {
            0
        }
    }

    /// A nominator's total reward fraction over a claimed validator list,
    /// summed in order with saturation at one.
    pub open spec fn spec_nominator_fraction(
        &self,
        era: u64,
        nstash: u64,
        list: Seq<(u64, u32)>,
    ) -> int
        decreases list.len(),
    {
        if list.len() == 0 {
            0
        } else {
            let prev = self.spec_nominator_fraction(era, nstash, list.drop_last());
            let add = self.spec_nominator_entry_fraction(
                era,
                nstash,
                list.last().0,
                list.last().1 as int,
            );
            if prev + add <= crate::BILLION as int {
                prev + add
            } else {
                crate::BILLION as int
            }
        }
    }

    /// Whether one claimed entry's share computes exactly (its exposure
    /// numbers are small enough for the rational arithmetic).
    pub open spec fn spec_entry_exact(&self, era: u64, nstash: u64, v: u64, idx: int) -> bool {
        self.eras_stakers_clipped@.contains_key((era, v)) ==> {
            let e = self.eras_stakers_clipped@[(era, v)];
            (0 <= idx < e.others@.len() && e.others@[idx].who == nstash)
                ==> Staking::spec_rational_exact(e.others@[idx].value as int, e.total as int)
        }
    }

    /// What blocks a nominator payout claim, if anything.
    pub open spec fn payout_nominator_check(
        &self,
        who: u64,
        era: EraIndex,
        list: Seq<(u64, u32)>,
    ) -> Option<Error> {
        if list.len() > MAX_NOMINATIONS {
            Some(Error::InvalidNumberOfNominations)
        } else {
            self.payout_check(who, era)
        }
    }

    /// Claim a nominator's payout for an era, over the listed validators
    /// and claimed exposure indices.  The same one-shot, monotonic rule as
    /// the validator claim applies; each listed validator pays only if the
    /// claimed index locates this nominator in its clipped exposure.
    pub fn payout_nominator(
        &mut self,
        who: u64,
        era: EraIndex,
        validators: Vec<(u64, u32)>,
    ) -> (r: Result<(), Error>)
        requires
            old(self).wf(),
            old(self).payout_headroom_ok(who, era),
        ensures
            final(self).wf(),
            Staking::same_admin(old(self), final(self)),
            Staking::same_eras(old(self), final(self)),
            Staking::same_slashing(old(self), final(self)),
            Staking::same_registry(old(self), final(self)),
            final(self).bonded@ == old(self).bonded@,
            final(self).payee@ == old(self).payee@,
            match r {
                Ok(()) => {
                    let stash = old(self).ledger@[who].stash;
                    let payout = old(self).eras_validator_reward@[era as u64] as int;
                    &&& old(self).payout_nominator_check(who, era, validators@).is_none()
                    &&& final(self).ledger@.contains_key(who)
                    &&& final(self).ledger@[who].last_reward == Some(era)
                    &&& final(self).ledger@[who].stash == stash
                    &&& final(self).events@.len() == old(self).events@.len() + 1
                    &&& final(self).events@.drop_last() == old(self).events@
                    &&& ({
                        let ev = final(self).events@.last();
                        let dest = old(self).spec_payee(stash);
                        let l0 = old(self).ledger@[who];
                        let l1 = final(self).ledger@[who];
                        &&& (ev matches Event::Rewarded(a, amt) && a == who
                            && amt as int <= payout
                            && ((forall|j: int| 0 <= j < validators@.len()
                                ==> old(self).spec_entry_exact(
                                    era as u64,
                                    stash,
                                    (#[trigger] validators@[j]).0,
                                    validators@[j].1 as int,
                                )) ==> amt as int == payout * old(self).spec_nominator_fraction(
                                era as u64,
                                stash,
                                validators@,
                            ) / (crate::BILLION as int))
                            // The payment itself, as for a validator claim.
                            && (if dest == RewardDestination::Staked {
                                &&& l1.active == l0.active + amt
                                &&& l1.total == l0.total + amt
                                &&& l1.unlocking@ == l0.unlocking@
                                &&& final(self).locks@ == old(self).locks@.insert(
                                    stash,
                                    l1.total,
                                )
                            } else {
                                &&& l1.active == l0.active
                                &&& l1.total == l0.total
                                &&& l1.unlocking@ == l0.unlocking@
                                &&& final(self).locks@ == old(self).locks@
                            }))
                    })
                },
                Err(e) => {
                    &&& old(self).payout_nominator_check(who, era, validators@) == Some(e)
                    &&& *final(self) == *old(self)
                },
            },
    {
        if validators.len() > MAX_NOMINATIONS {
            return Err(Error::InvalidNumberOfNominations);
        }
        let era_key: u64 = era as u64;
        let era_payout: u128 = match self.eras_validator_reward.get(era_key) {
            Some(p) => *p,
            None => {
                return Err(Error::InvalidEraToReward);
            },
        };
        let claimable = match self.ledger.get(who) {
            Some(l) => match l.last_reward {
                Some(lr) => lr < era,
                None => true,
            },
            None => {
                return Err(Error::NotController);
            },
        };
        if !claimable {
            return Err(Error::InvalidEraToReward);
        }
        let mut l = match self.ledger.take(who) {
            Some(l) => l,
            None => {
                proof {
                    assert(false);
                }
                return Err(Error::NotController);
            },
        };
        l.last_reward = Some(era);
        let nstash = l.stash;
        self.ledger.insert(who, l);
        proof {
            let ghost lnew = self.ledger@[who];
            assert(self.ledger@ =~= old(self).ledger@.insert(who, lnew));
        }

        let ghost all_exact = forall|j: int| 0 <= j < validators@.len()
            ==> old(self).spec_entry_exact(
                era_key,
                nstash,
                (#[trigger] validators@[j]).0,
                validators@[j].1 as int,
            );
        let mut reward = Perbill::zero();
        let n = validators.len();
        let mut i: usize = 0;
        while i < n
            invariant
                old(self).wf(),
                n == validators@.len(),
                i <= n,
                reward.wf(),
                self.eras_stakers_clipped@ == old(self).eras_stakers_clipped@,
                self.eras_validator_prefs@ == old(self).eras_validator_prefs@,
                self.eras_reward_points@ == old(self).eras_reward_points@,
                self.stores_wf(),
                self.points_wf(),
                self.prefs_wf(),
                all_exact == (forall|j: int| 0 <= j < validators@.len()
                    ==> old(self).spec_entry_exact(
                        era_key,
                        nstash,
                        (#[trigger] validators@[j]).0,
                        validators@[j].1 as int,
                    )),
                all_exact ==> reward.spec_parts() == old(self).spec_nominator_fraction(
                    era_key,
                    nstash,
                    validators@.take(i as int),
                ),
            decreases n - i,
        {
            let (v, idx) = validators[i];
            proof {
                assert(validators@.take(i as int + 1).drop_last() =~= validators@.take(i as int));
                assert(validators@.take(i as int + 1).last() == validators@[i as int]);
            }
            let mut part = Perbill::zero();
            match self.eras_stakers_clipped.get(era_key, v) {
                Some(e) => {
                    let others_len = e.others.len();
                    if (idx as usize) < others_len {
                        let ie = e.others[idx as usize];
                        if ie.who == nstash {
                            let commission: Perbill = match self.eras_validator_prefs.get(
                                era_key,
                                v,
                            ) {
                                Some(p) => p.commission,
                                None => Perbill::zero(),
                            };
                            let (vpoints, tpoints): (u32, u32) = match self.eras_reward_points
                                .get(era_key) {
                                Some(p) => {
                                    let vp = match p.individual.get(v) {
                                        Some(x) => *x,
                                        None => 0,
                                    };
                                    (vp, p.total)
                                },
                                None => (0, 0),
                            };
                            let nominator_part = Perbill::from_rational(ie.value, e.total);
                            let point_part = Perbill::from_rational(
                                vpoints as u128,
                                tpoints as u128,
                            );
                            let one_minus_c = Perbill::one().saturating_sub(commission);
                            let t1 = point_part.saturating_mul(one_minus_c);
                            part = t1.saturating_mul(nominator_part);
                            proof {
                                assert(u32::MAX as int <= u128::MAX as int / (
                                crate::BILLION as int));
                            }
                        }
                    }
                },
                None => {},
            }
            reward = reward.saturating_add(part);
            i += 1;
        }
        proof {
            assert(validators@.take(n as int) =~= validators@);
        }
        let amount = reward.mul_balance(era_payout);
        self.make_payout(nstash, amount);
        self.events.push(Event::Rewarded(who, amount));
        proof {
            assert(self.events@.drop_last() =~= old(self).events@);
        }
        Ok(())
    }

    /// The nominator stashes whose compliance credential no longer
    /// verifies: a non-deterministic off-chain query in spirit, computed
    /// here deterministically from the caller-supplied answers.
    pub fn fetch_invalid_cdd_nominators(&self, cdd_valid: &Vec<u64>) -> (r: Vec<u64>)
        requires
            self.wf(),
        ensures
            forall|i: int| 0 <= i < r@.len()
                ==> self.nominators@.contains_key(#[trigger] r@[i])
                    && !cdd_valid@.contains(r@[i]),
            forall|i: int| 0 <= i < self.nominators.kseq().len()
                ==> (!cdd_valid@.contains(#[trigger] self.nominators.kseq()[i])
                    ==> r@.contains(self.nominators.kseq()[i])),
    {
        let keys = self.nominators.keys();
        let n = keys.len();
        let mut out: Vec<u64> = Vec::new();
        let mut i: usize = 0;
        while i < n
            invariant
                self.wf(),
                n == keys@.len(),
                i <= n,
                keys@ == self.nominators.kseq(),
                forall|j: int| 0 <= j < out@.len()
                    ==> self.nominators@.contains_key(#[trigger] out@[j])
                        && !cdd_valid@.contains(out@[j]),
                forall|j: int| 0 <= j < i
                    ==> (!cdd_valid@.contains(#[trigger] keys@[j]) ==> out@.contains(keys@[j])),
            decreases n - i,
        {
            let s = keys[i];
            if !self.is_validator_or_nominator_compliant(s, cdd_valid) {
                let ghost o0 = out@;
                out.push(s);
                proof {
                    assert(out@[out@.len() - 1] == s);
                    self.nominators.lemma_view_dom();
                    assert(self.nominators.kseq()[i as int] == keys@[i as int]);
                    assert(self.nominators.kseq().contains(keys@[i as int]));
                    assert(self.nominators@.contains_key(keys@[i as int]));
                    assert(!cdd_valid@.contains(keys@[i as int]));
                    assert forall|j: int| 0 <= j < out@.len() implies
                        self.nominators@.contains_key(#[trigger] out@[j])
                            && !cdd_valid@.contains(out@[j]) by {
                        if j < out@.len() - 1 {
                            assert(out@[j] == o0[j]);
                        } else {
                            assert(out@[j] == keys@[i as int]);
                        }
                    }
                    assert forall|j: int| 0 <= j < i + 1 implies
                        (!cdd_valid@.contains(#[trigger] keys@[j]) ==> out@.contains(keys@[j])) by {
                        if j < i && !cdd_valid@.contains(keys@[j]) {
                            let w = choose|w: int| 0 <= w < o0.len() && o0[w] == keys@[j];
                            assert(out@[w] == keys@[j]);
                        }
                    }
                }
            }
            i += 1;
        }
        out
    }
}

} // verus!
