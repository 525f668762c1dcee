//! Tests of the staking engine: bonding, election, rewards and slashing.

use staking_engine::engine::{Staking, StakingConfig};
use staking_engine::fraction::Perbill;
use staking_engine::inflation::{compute_total_payout, MILLISECONDS_PER_YEAR};
use staking_engine::types::{
    ActiveEraInfo, EraRewardPoints, Error, Event, Exposure, Forcing, IndividualExposure,
    RewardDestination, StakingLedger, UnlockChunk, ValidatorPrefs,
};

fn test_config() -> StakingConfig {
    StakingConfig {
        sessions_per_era: 3,
        bonding_duration: 3,
        slash_defer_duration: 0,
        max_nominator_rewarded_per_validator: 64,
        minimum_balance: 1,
        epoch_duration: 10,
        expected_block_time: 1000,
        reward_curve: vec![
            (Perbill::from_percent(0), Perbill::from_percent(10)),
            (Perbill::from_percent(100), Perbill::from_percent(10)),
        ],
    }
}

fn fresh() -> Staking {
    Staking::new(test_config())
}

#[test]
fn bond_and_unbond_scenario() {
    // Scenario: bond 500 out of a 1000 free balance, then unbond 200.
    let mut s = fresh();
    assert_eq!(s.bond(1, 11, 500, RewardDestination::Staked, 1000), Ok(()));
    {
        let l = s.ledger.get(11).unwrap();
        assert_eq!(l.stash, 1);
        assert_eq!(l.total, 500);
        assert_eq!(l.active, 500);
        assert_eq!(l.unlocking.len(), 0);
    }
    assert_eq!(*s.locks.get(1).unwrap(), 500);

    assert!(matches!(s.events.last(), Some(Event::Bonded(1, 500))));
    assert_eq!(s.unbond(11, 200), Ok(()));
    assert!(matches!(s.events.last(), Some(Event::Unbonded(1, 200))));
    {
        let l = s.ledger.get(11).unwrap();
        assert_eq!(l.active, 300);
        assert_eq!(l.total, 500);
        assert_eq!(l.unlocking.len(), 1);
        // No era yet: the chunk matures a full bonding duration from era 0.
        assert_eq!(l.unlocking[0].value, 200);
        assert_eq!(l.unlocking[0].era, 3);
    }
}

#[test]
fn bond_rejects_bad_input() {
    let mut s = fresh();
    assert_eq!(s.bond(1, 11, 0, RewardDestination::Staked, 1000), Err(Error::InsufficientValue));
    assert_eq!(s.bond(1, 11, 500, RewardDestination::Staked, 1000), Ok(()));
    assert_eq!(s.bond(1, 12, 500, RewardDestination::Staked, 1000), Err(Error::AlreadyBonded));
    assert_eq!(s.bond(2, 11, 500, RewardDestination::Staked, 1000), Err(Error::AlreadyPaired));
    assert_eq!(s.unbond(99, 5), Err(Error::NotController));
    assert_eq!(s.rebond(99, 5), Err(Error::NotController));
    assert_eq!(s.rebond(11, 5), Err(Error::NoUnlockChunk));
}

#[test]
fn bond_caps_at_free_balance() {
    let mut s = fresh();
    assert_eq!(s.bond(1, 11, 800, RewardDestination::Staked, 300), Ok(()));
    assert_eq!(s.ledger.get(11).unwrap().total, 300);
}

#[test]
fn bond_extra_adds_only_new_funds() {
    let mut s = fresh();
    assert_eq!(s.bond(1, 11, 500, RewardDestination::Staked, 1000), Ok(()));
    assert_eq!(s.bond_extra(1, 100, 1000), Ok(()));
    let l = s.ledger.get(11).unwrap();
    assert_eq!(l.total, 600);
    assert_eq!(l.active, 600);
}

#[test]
fn unbond_queue_is_bounded() {
    let mut s = fresh();
    s.config.minimum_balance = 0;
    assert_eq!(s.bond(1, 11, 500, RewardDestination::Staked, 1000), Ok(()));
    for _ in 0..32 {
        assert_eq!(s.unbond(11, 1), Ok(()));
    }
    assert_eq!(s.ledger.get(11).unwrap().unlocking.len(), 32);
    assert_eq!(s.unbond(11, 1), Err(Error::NoMoreChunks));
}

#[test]
fn rebond_restores_most_recent_chunks_first() {
    let mut s = fresh();
    s.config.minimum_balance = 0;
    assert_eq!(s.bond(1, 11, 500, RewardDestination::Staked, 1000), Ok(()));
    assert_eq!(s.unbond(11, 100), Ok(()));
    assert_eq!(s.unbond(11, 50), Ok(()));
    assert_eq!(s.rebond(11, 120), Ok(()));
    let l = s.ledger.get(11).unwrap();
    assert_eq!(l.active, 470);
    assert_eq!(l.total, 500);
    // The most recent chunk went first; 30 of the older one remains.
    assert_eq!(l.unlocking.len(), 1);
    assert_eq!(l.unlocking[0].value, 30);
}

#[test]
fn withdraw_unbonded_round_trip_deletes_everything() {
    // Once every chunk matured and nothing is active, withdrawal deletes
    // every record of the stash and releases its lock.
    let mut s = fresh();
    assert_eq!(s.bond(1, 11, 500, RewardDestination::Staked, 1000), Ok(()));
    assert_eq!(s.validate(11, ValidatorPrefs { commission: Perbill::zero() }), Ok(()));
    assert_eq!(s.unbond(11, 500), Ok(()));
    assert_eq!(s.ledger.get(11).unwrap().active, 0);
    // Not yet matured: the ledger survives a withdrawal attempt.
    s.current_era = Some(0);
    assert_eq!(s.withdraw_unbonded(11), Ok(()));
    assert!(s.ledger.get(11).is_some());
    // Past maturity everything unwinds.
    s.current_era = Some(10);
    assert_eq!(s.withdraw_unbonded(11), Ok(()));
    assert!(s.ledger.get(11).is_none());
    assert!(s.bonded.get(1).is_none());
    assert!(s.payee.get(1).is_none());
    assert!(s.validators.get(1).is_none());
    assert!(s.nominators.get(1).is_none());
    assert!(s.locks.get(1).is_none());
    assert_eq!(s.withdraw_unbonded(11), Err(Error::NotController));
}

#[test]
fn validate_enforces_global_commission() {
    let mut s = fresh();
    s.validator_commission = staking_engine::types::Commission::Global(Perbill::from_percent(5));
    assert_eq!(s.bond(1, 11, 500, RewardDestination::Staked, 1000), Ok(()));
    let wrong = ValidatorPrefs { commission: Perbill::from_percent(4) };
    // The same mismatching call fails identically both times.
    assert_eq!(s.validate(11, wrong), Err(Error::InvalidCommission));
    assert_eq!(s.validate(11, wrong), Err(Error::InvalidCommission));
    let right = ValidatorPrefs { commission: Perbill::from_percent(5) };
    assert_eq!(s.validate(11, right), Ok(()));
    assert!(s.validators.get(1).is_some());
}

#[test]
fn validate_requires_minimum_bond() {
    let mut s = fresh();
    assert_eq!(s.bond(1, 11, 500, RewardDestination::Staked, 1000), Ok(()));
    s.set_min_bond_threshold(600);
    let prefs = ValidatorPrefs { commission: Perbill::zero() };
    assert_eq!(s.validate(11, prefs), Err(Error::InsufficientValue));
    assert!(matches!(s.events.last(), Some(Event::MinimumBondThresholdUpdated(600))));
}

#[test]
fn nominate_needs_compliance_and_targets() {
    let mut s = fresh();
    assert_eq!(s.bond(1, 11, 500, RewardDestination::Staked, 1000), Ok(()));
    assert_eq!(s.nominate(11, vec![], true), Err(Error::EmptyTargets));
    // Without a verifying credential the call is accepted but changes
    // nothing.
    assert_eq!(s.nominate(11, vec![7], false), Ok(()));
    assert!(s.nominators.get(1).is_none());
    assert_eq!(s.nominate(11, vec![7, 8], true), Ok(()));
    let n = s.nominators.get(1).unwrap();
    assert_eq!(n.targets, vec![7, 8]);
    assert!(!n.suppressed);
}

#[test]
fn nominate_truncates_to_sixteen_targets() {
    let mut s = fresh();
    assert_eq!(s.bond(1, 11, 500, RewardDestination::Staked, 1000), Ok(()));
    let targets: Vec<u64> = (100..120).collect();
    assert_eq!(s.nominate(11, targets, true), Ok(()));
    assert_eq!(s.nominators.get(1).unwrap().targets.len(), 16);
}

#[test]
fn chill_clears_both_roles() {
    let mut s = fresh();
    assert_eq!(s.bond(1, 11, 500, RewardDestination::Staked, 1000), Ok(()));
    assert_eq!(s.validate(11, ValidatorPrefs { commission: Perbill::zero() }), Ok(()));
    assert_eq!(s.chill(11), Ok(()));
    assert!(s.validators.get(1).is_none());
    assert!(s.nominators.get(1).is_none());
}

#[test]
fn set_controller_moves_the_ledger() {
    let mut s = fresh();
    assert_eq!(s.bond(1, 11, 500, RewardDestination::Staked, 1000), Ok(()));
    assert_eq!(s.set_controller(1, 11), Err(Error::AlreadyPaired));
    assert_eq!(s.set_controller(1, 12), Ok(()));
    assert!(s.ledger.get(11).is_none());
    assert_eq!(s.ledger.get(12).unwrap().stash, 1);
    assert_eq!(*s.bonded.get(1).unwrap(), 12);
}

#[test]
fn permissioned_validator_pool_round_trip() {
    let mut s = fresh();
    assert_eq!(s.add_permissioned_validator(1), Ok(()));
    assert_eq!(s.add_permissioned_validator(1), Err(Error::AlreadyExists));
    assert!(!s.is_validator_cdd_compliant(1));
    s.refresh_compliance_statuses(&vec![1]);
    assert!(s.is_validator_cdd_compliant(1));
    s.refresh_compliance_statuses(&vec![]);
    assert!(!s.is_validator_cdd_compliant(1));
    assert_eq!(s.remove_permissioned_validator(1), Ok(()));
    assert_eq!(s.remove_permissioned_validator(1), Err(Error::NotExists));
}

#[test]
fn commission_regime_is_a_one_way_door() {
    let mut s = fresh();
    assert_eq!(s.enable_individual_commissions(), Err(Error::AlreadyEnabled));
    s.validator_commission = staking_engine::types::Commission::Global(Perbill::from_percent(5));
    assert_eq!(
        s.set_global_commission(Perbill::from_percent(5)),
        Err(Error::NoChange)
    );
    assert_eq!(s.set_global_commission(Perbill::from_percent(7)), Ok(()));
    assert_eq!(s.enable_individual_commissions(), Ok(()));
    assert_eq!(
        s.set_global_commission(Perbill::from_percent(9)),
        Err(Error::AlreadyEnabled)
    );
}

#[test]
fn global_commission_rewrites_validator_prefs() {
    let mut s = fresh();
    s.validator_commission = staking_engine::types::Commission::Global(Perbill::from_percent(5));
    assert_eq!(s.bond(1, 11, 500, RewardDestination::Staked, 1000), Ok(()));
    assert_eq!(s.validate(11, ValidatorPrefs { commission: Perbill::from_percent(5) }), Ok(()));
    assert_eq!(s.set_global_commission(Perbill::from_percent(8)), Ok(()));
    assert_eq!(s.validators.get(1).unwrap().commission, Perbill::from_percent(8));
}

#[test]
fn reward_points_accumulate_per_author() {
    let mut s = fresh();
    s.active_era = Some(ActiveEraInfo { index: 0, start: None });
    s.note_author(1);
    s.note_uncle(1, 2);
    let pts = s.eras_reward_points.get(0).unwrap();
    assert_eq!(*pts.individual.get(1).unwrap(), 22);
    assert_eq!(*pts.individual.get(2).unwrap(), 1);
    assert_eq!(pts.total, 23);
}

fn seed_era_for_payout(s: &mut Staking) {
    // Era 0 is finished: payout 1000, validator stash 1 with own 100 of a
    // 1000 total backing, nominator stash 2 with 300 of it, commission 10%,
    // and every reward point on the validator.
    s.eras_validator_reward.insert(0, 1000);
    let exposure = Exposure {
        total: 1000,
        own: 100,
        others: vec![
            IndividualExposure { who: 2, value: 300 },
            IndividualExposure { who: 3, value: 600 },
        ],
    };
    s.eras_stakers.insert(0, 1, exposure);
    let clipped = Exposure {
        total: 1000,
        own: 100,
        others: vec![
            IndividualExposure { who: 2, value: 300 },
            IndividualExposure { who: 3, value: 600 },
        ],
    };
    s.eras_stakers_clipped.insert(0, 1, clipped);
    s.eras_validator_prefs.insert(
        0,
        1,
        ValidatorPrefs { commission: Perbill::from_percent(10) },
    );
    let mut pts = EraRewardPoints::new();
    pts.individual.insert(1, 20);
    pts.total = 20;
    s.eras_reward_points.insert(0, pts);
}

#[test]
fn validator_payout_formula() {
    // The sole validator holds all points: payout share is
    // 1.0 x (0.10 + 0.90 x 100/1000) x 1000 = 190.
    let mut s = fresh();
    assert_eq!(s.bond(1, 11, 100, RewardDestination::Controller, 1000), Ok(()));
    seed_era_for_payout(&mut s);
    assert_eq!(s.payout_validator(11, 0), Ok(()));
    assert!(matches!(s.events.last(), Some(Event::Rewarded(11, 190))));
    assert_eq!(s.ledger.get(11).unwrap().last_reward, Some(0));
}

#[test]
fn nominator_payout_formula() {
    // The nominator's share is 1.0 x 0.90 x (300/1000) x 1000 = 270.
    let mut s = fresh();
    assert_eq!(s.bond(2, 22, 300, RewardDestination::Controller, 1000), Ok(()));
    seed_era_for_payout(&mut s);
    assert_eq!(s.payout_nominator(22, 0, vec![(1, 0)]), Ok(()));
    assert!(matches!(s.events.last(), Some(Event::Rewarded(22, 270))));
}

#[test]
fn nominator_payout_skips_mismatched_index() {
    // A wrong exposure index silently under-pays rather than erring.
    let mut s = fresh();
    assert_eq!(s.bond(2, 22, 300, RewardDestination::Controller, 1000), Ok(()));
    seed_era_for_payout(&mut s);
    assert_eq!(s.payout_nominator(22, 0, vec![(1, 1)]), Ok(()));
    assert!(matches!(s.events.last(), Some(Event::Rewarded(22, 0))));
}

#[test]
fn payout_claims_are_one_shot_and_monotonic() {
    let mut s = fresh();
    assert_eq!(s.bond(1, 11, 100, RewardDestination::Controller, 1000), Ok(()));
    seed_era_for_payout(&mut s);
    s.eras_validator_reward.insert(1, 500);
    assert_eq!(s.payout_validator(11, 1), Ok(()));
    // Claiming era 1 forecloses era 0 forever.
    assert_eq!(s.payout_validator(11, 0), Err(Error::InvalidEraToReward));
    assert_eq!(s.payout_validator(11, 1), Err(Error::InvalidEraToReward));
    assert_eq!(s.payout_validator(11, 2), Err(Error::InvalidEraToReward));
    assert_eq!(s.ledger.get(11).unwrap().last_reward, Some(1));
}

#[test]
fn payout_rejects_too_many_nominations() {
    let mut s = fresh();
    let list: Vec<(u64, u32)> = (0..17).map(|i| (i as u64, 0u32)).collect();
    assert_eq!(
        s.payout_nominator(22, 0, list),
        Err(Error::InvalidNumberOfNominations)
    );
}

#[test]
fn staked_payout_restakes() {
    let mut s = fresh();
    assert_eq!(s.bond(1, 11, 100, RewardDestination::Staked, 1000), Ok(()));
    seed_era_for_payout(&mut s);
    assert_eq!(s.payout_validator(11, 0), Ok(()));
    let l = s.ledger.get(11).unwrap();
    assert_eq!(l.active, 290);
    assert_eq!(l.total, 290);
    assert_eq!(*s.locks.get(1).unwrap(), 290);
}

fn make_eligible_validator(s: &mut Staking, stash: u64, controller: u64, stake: u128) {
    assert_eq!(s.bond(stash, controller, stake, RewardDestination::Staked, stake), Ok(()));
    assert_eq!(
        s.validate(controller, ValidatorPrefs { commission: Perbill::zero() }),
        Ok(())
    );
    assert_eq!(s.add_permissioned_validator(stash), Ok(()));
}

#[test]
fn election_fails_below_minimum_and_keeps_prior_state() {
    // Three eligible validators under a minimum of four: the election
    // returns nothing and the prior era's records stay authoritative.
    let mut s = fresh();
    s.validator_count = 2;
    s.minimum_validator_count = 4;
    make_eligible_validator(&mut s, 1, 11, 100);
    make_eligible_validator(&mut s, 2, 12, 200);
    make_eligible_validator(&mut s, 3, 13, 300);
    let old_exposure = Exposure { total: 5, own: 5, others: vec![] };
    s.eras_stakers.insert(7, 9, old_exposure);
    let cdd = vec![1, 2, 3];
    let r = s.new_session(0, &cdd);
    assert!(r.is_none());
    // Era bookkeeping still advanced, but no exposures were stored.
    assert_eq!(s.current_era, Some(0));
    assert!(s.eras_stakers.get(0, 1).is_none());
    assert_eq!(s.eras_stakers.get(7, 9).unwrap().own, 5);
}

#[test]
fn election_selects_top_validators_and_builds_exposures() {
    let mut s = fresh();
    s.validator_count = 2;
    s.minimum_validator_count = 1;
    make_eligible_validator(&mut s, 1, 11, 100);
    make_eligible_validator(&mut s, 2, 12, 200);
    make_eligible_validator(&mut s, 3, 13, 300);
    // A compliant nominator backing validators 1 and 2 with 400.
    assert_eq!(s.bond(4, 14, 400, RewardDestination::Staked, 400), Ok(()));
    assert_eq!(s.nominate(14, vec![1, 2], true), Ok(()));
    let cdd = vec![1, 2, 3, 4];
    let winners = s.new_session(0, &cdd).unwrap();
    assert_eq!(winners.len(), 2);
    // Approval stakes: 1 -> 500, 2 -> 600, 3 -> 300.
    assert!(winners.contains(&1) && winners.contains(&2));
    let e1 = s.eras_stakers.get(0, 1).unwrap();
    assert_eq!(e1.own, 100);
    // The nominator's stake splits evenly over its two winning targets.
    assert_eq!(e1.others.len(), 1);
    assert_eq!(e1.others[0].who, 4);
    assert_eq!(e1.others[0].value, 200);
    assert_eq!(e1.total, 300);
    let e2 = s.eras_stakers.get(0, 2).unwrap();
    assert_eq!(e2.total, 400);
    assert!(s.eras_validator_prefs.get(0, 1).is_some());
    assert_eq!(*s.eras_total_stake.get(0).unwrap(), 700);
}

#[test]
fn clipped_exposure_keeps_only_the_biggest_backers() {
    let mut s = fresh();
    s.config.max_nominator_rewarded_per_validator = 1;
    s.validator_count = 1;
    s.minimum_validator_count = 1;
    make_eligible_validator(&mut s, 1, 11, 1000);
    assert_eq!(s.bond(4, 14, 400, RewardDestination::Staked, 400), Ok(()));
    assert_eq!(s.nominate(14, vec![1], true), Ok(()));
    assert_eq!(s.bond(5, 15, 100, RewardDestination::Staked, 100), Ok(()));
    assert_eq!(s.nominate(15, vec![1], true), Ok(()));
    let cdd = vec![1, 4, 5];
    let winners = s.new_session(0, &cdd).unwrap();
    assert_eq!(winners, vec![1]);
    let full = s.eras_stakers.get(0, 1).unwrap();
    assert_eq!(full.others.len(), 2);
    assert_eq!(full.total, 1500);
    let clipped = s.eras_stakers_clipped.get(0, 1).unwrap();
    // Only the biggest backer stays; the clipped total keeps the full sum.
    assert_eq!(clipped.others.len(), 1);
    assert_eq!(clipped.others[0].who, 4);
    assert_eq!(clipped.total, 1500);
}

#[test]
fn forcing_policy_drives_era_planning() {
    let mut s = fresh();
    s.minimum_validator_count = 1;
    make_eligible_validator(&mut s, 1, 11, 100);
    let cdd = vec![1];
    // First session always plans the initial era.
    assert!(s.new_session(0, &cdd).is_some());
    assert_eq!(s.current_era, Some(0));
    // Not enough sessions elapsed: no new era.
    assert!(s.new_session(1, &cdd).is_none());
    assert_eq!(s.current_era, Some(0));
    // Enough sessions elapsed.
    assert!(s.new_session(3, &cdd).is_some());
    assert_eq!(s.current_era, Some(1));
    // ForceNone blocks eras indefinitely.
    s.force_no_eras();
    assert!(s.new_session(10, &cdd).is_none());
    // ForceNew advances once, then resets.
    s.force_new_era();
    assert!(s.new_session(11, &cdd).is_some());
    assert_eq!(s.force_era, Forcing::NotForcing);
    // ForceAlways advances every session.
    s.force_new_era_always();
    assert!(s.new_session(12, &cdd).is_some());
    assert!(s.new_session(13, &cdd).is_some());
    assert_eq!(s.force_era, Forcing::ForceAlways);
}

#[test]
fn session_flips_active_era_and_era_end_fixes_payout() {
    let mut s = fresh();
    s.minimum_validator_count = 1;
    make_eligible_validator(&mut s, 1, 11, 100);
    let cdd = vec![1];
    assert!(s.new_session(0, &cdd).is_some());
    s.start_session(0);
    assert_eq!(s.active_era, Some(ActiveEraInfo { index: 0, start: None }));
    s.on_finalize(1_000);
    assert_eq!(s.active_era, Some(ActiveEraInfo { index: 0, start: Some(1_000) }));
    // Plan the next era at session 3; ending session 2 closes era 0.
    assert!(s.new_session(3, &cdd).is_some());
    // A flat ten-percent curve over half a year on a stake of 100 out of
    // an issuance of 1000 pays 1000 * 10% * 50% = 50.
    let half_year = 1_000 + MILLISECONDS_PER_YEAR / 2;
    s.end_session(2, half_year, 1000);
    assert_eq!(*s.eras_validator_reward.get(0).unwrap(), 50);
}

#[test]
fn ledger_slash_drains_active_then_chunks() {
    // A slash against active 100 with one unlocking chunk of 50: the
    // active pot drains first; its remainder of 25 sits at dust level and
    // is zeroed too, covering the request in full, so the chunk survives.
    let mut l = StakingLedger {
        stash: 1,
        total: 150,
        active: 100,
        unlocking: vec![UnlockChunk { value: 50, era: 5 }],
        last_reward: None,
    };
    let removed = l.slash(75, 30);
    assert_eq!(l.active, 0);
    assert_eq!(removed, 100);
    assert_eq!(l.unlocking.len(), 1);
    assert_eq!(l.unlocking[0].value, 50);
    assert_eq!(l.total, 50);
}

#[test]
fn ledger_slash_reaches_into_chunks() {
    let mut l = StakingLedger {
        stash: 1,
        total: 150,
        active: 100,
        unlocking: vec![UnlockChunk { value: 50, era: 5 }],
        last_reward: None,
    };
    // A deep slash takes the whole active pot and bites 25 from the chunk.
    let removed = l.slash(125, 0);
    assert_eq!(l.active, 0);
    assert_eq!(removed, 125);
    assert_eq!(l.unlocking.len(), 1);
    assert_eq!(l.unlocking[0].value, 25);
    assert_eq!(l.total, 25);
}

#[test]
fn offence_slashes_immediately_without_deferral() {
    let mut s = fresh();
    s.slash_reward_fraction = Perbill::from_percent(10);
    assert_eq!(s.bond(1, 11, 100, RewardDestination::Staked, 100), Ok(()));
    s.active_era = Some(ActiveEraInfo { index: 0, start: None });
    s.eras_start_session_index.insert(0, 0);
    // A 50% slash against an exposure of 100.
    s.on_offence(&vec![(1, 100)], &vec![Perbill::from_percent(50)], 0, &vec![9]);
    let l = s.ledger.get(11).unwrap();
    assert_eq!(l.active, 50);
    assert_eq!(l.total, 50);
    assert!(matches!(s.events.last(), Some(Event::Slashed(1, 50))));
    // Repeating the same report adds nothing.
    s.on_offence(&vec![(1, 100)], &vec![Perbill::from_percent(50)], 0, &vec![9]);
    assert_eq!(s.ledger.get(11).unwrap().active, 50);
}

#[test]
fn invulnerable_validators_are_never_slashed() {
    let mut s = fresh();
    assert_eq!(s.bond(1, 11, 100, RewardDestination::Staked, 100), Ok(()));
    s.set_invulnerables(vec![1]);
    s.active_era = Some(ActiveEraInfo { index: 0, start: None });
    s.eras_start_session_index.insert(0, 0);
    s.on_offence(&vec![(1, 100)], &vec![Perbill::from_percent(50)], 0, &vec![]);
    assert_eq!(s.ledger.get(11).unwrap().active, 100);
}

#[test]
fn deferred_slash_queues_and_cancels() {
    let mut s = fresh();
    s.config.slash_defer_duration = 2;
    assert_eq!(s.bond(1, 11, 100, RewardDestination::Staked, 100), Ok(()));
    s.active_era = Some(ActiveEraInfo { index: 0, start: None });
    s.eras_start_session_index.insert(0, 0);
    s.on_offence(&vec![(1, 100)], &vec![Perbill::from_percent(50)], 0, &vec![9]);
    // Nothing applied yet; one slash queued under era 0, shaped as the
    // validator's own stake alone with the report's reporters.
    assert_eq!(s.ledger.get(11).unwrap().active, 100);
    let queued = s.unapplied_slashes.get(0).unwrap();
    assert_eq!(queued.len(), 1);
    assert_eq!(queued[0].validator, 1);
    assert_eq!(queued[0].own, 50);
    assert!(queued[0].others.is_empty());
    assert_eq!(queued[0].reporters, vec![9]);
    // Cancellation with a bad index is refused; a good one empties the
    // queue.
    assert_eq!(s.cancel_deferred_slash(0, &vec![5]), Err(Error::InvalidSlashIndex));
    assert_eq!(s.cancel_deferred_slash(0, &vec![0, 0]), Err(Error::DuplicateIndex));
    assert_eq!(s.cancel_deferred_slash(0, &vec![0]), Ok(()));
    assert_eq!(s.unapplied_slashes.get(0).unwrap().len(), 0);
}

#[test]
fn deferred_slash_applies_after_the_window() {
    let mut s = fresh();
    s.config.slash_defer_duration = 2;
    assert_eq!(s.bond(1, 11, 100, RewardDestination::Staked, 100), Ok(()));
    s.active_era = Some(ActiveEraInfo { index: 0, start: None });
    s.eras_start_session_index.insert(0, 0);
    s.on_offence(&vec![(1, 100)], &vec![Perbill::from_percent(50)], 0, &vec![]);
    assert_eq!(s.ledger.get(11).unwrap().active, 100);
    // Jump to the start of era 3: the era-0 slash's window has elapsed.
    s.active_era = Some(ActiveEraInfo { index: 2, start: None });
    s.eras_start_session_index.insert(3, 30);
    s.start_session(30);
    assert_eq!(s.active_era, Some(ActiveEraInfo { index: 3, start: None }));
    assert_eq!(s.ledger.get(11).unwrap().active, 50);
    assert!(matches!(s.events.last(), Some(Event::Slashed(1, 50))));
}

#[test]
fn end_session_fixes_no_payout_mid_era() {
    let mut s = fresh();
    s.active_era = Some(ActiveEraInfo { index: 0, start: Some(0) });
    s.eras_start_session_index.insert(1, 5);
    // Session 2 is not the active era's last session.
    s.end_session(2, 1_000, 1_000);
    assert!(s.eras_validator_reward.get(0).is_none());
}

#[test]
fn cancel_takes_indices_in_any_order() {
    let mut s = fresh();
    s.config.slash_defer_duration = 2;
    s.active_era = Some(ActiveEraInfo { index: 0, start: None });
    s.eras_start_session_index.insert(0, 0);
    for (stash, ctrl) in [(1u64, 11u64), (2, 12), (3, 13)] {
        assert_eq!(s.bond(stash, ctrl, 100, RewardDestination::Staked, 100), Ok(()));
    }
    s.on_offence(
        &vec![(1, 100), (2, 100), (3, 100)],
        &vec![
            Perbill::from_percent(50),
            Perbill::from_percent(50),
            Perbill::from_percent(50),
        ],
        0,
        &vec![],
    );
    assert_eq!(s.unapplied_slashes.get(0).unwrap().len(), 3);
    // Unsorted indices are sorted before removal; the middle entry stays.
    assert_eq!(s.cancel_deferred_slash(0, &vec![2, 0]), Ok(()));
    let left = s.unapplied_slashes.get(0).unwrap();
    assert_eq!(left.len(), 1);
    assert_eq!(left[0].validator, 2);
}

#[test]
fn cdd_expiry_refuses_unbonded_nominators() {
    let mut s = fresh();
    assert_eq!(s.bond(1, 11, 500, RewardDestination::Staked, 1000), Ok(()));
    assert_eq!(s.nominate(11, vec![7], true), Ok(()));
    // Sever the pairing so the expired nominator has no stash record.
    s.bonded.take(1);
    assert_eq!(
        s.validate_cdd_expiry_nominators(9, &vec![1], &vec![]),
        Err(Error::NotStash)
    );
}

#[test]
fn old_offence_reports_are_discarded() {
    let mut s = fresh();
    s.bonded_eras.push((3, 30));
    assert!(s.filter_historical_offence(31));
    assert!(!s.filter_historical_offence(2));
    assert!(matches!(
        s.events.last(),
        Some(Event::OldSlashingReportDiscarded(2))
    ));
}

#[test]
fn expired_nominators_are_force_unbonded() {
    let mut s = fresh();
    assert_eq!(s.bond(1, 11, 500, RewardDestination::Staked, 1000), Ok(()));
    assert_eq!(s.nominate(11, vec![7], true), Ok(()));
    assert_eq!(s.bond(2, 12, 400, RewardDestination::Staked, 1000), Ok(()));
    assert_eq!(s.nominate(12, vec![7], true), Ok(()));
    // Stash 1's credential lapsed; stash 2's still verifies.
    let r = s.validate_cdd_expiry_nominators(9, &vec![1, 2], &vec![2]);
    assert_eq!(r, Ok(()));
    assert_eq!(s.ledger.get(11).unwrap().active, 0);
    assert!(s.nominators.get(1).is_none());
    assert_eq!(s.ledger.get(12).unwrap().active, 400);
    assert!(s.nominators.get(2).is_some());
    assert!(matches!(s.events.last(), Some(Event::InvalidatedNominators(9, _))));
    let invalid = s.fetch_invalid_cdd_nominators(&vec![]);
    assert_eq!(invalid, vec![2]);
}

#[test]
fn force_unstake_and_reap_remove_a_stash() {
    let mut s = fresh();
    assert_eq!(s.bond(1, 11, 500, RewardDestination::Staked, 1000), Ok(()));
    assert_eq!(s.force_unstake(1), Ok(()));
    assert!(s.bonded.get(1).is_none());
    assert!(s.ledger.get(11).is_none());
    assert_eq!(s.force_unstake(1), Err(Error::NotStash));

    assert_eq!(s.bond(2, 12, 500, RewardDestination::Staked, 1000), Ok(()));
    assert_eq!(s.reap_stash(2, 77), Err(Error::FundedTarget));
    assert_eq!(s.reap_stash(2, 0), Ok(()));
    assert!(s.bonded.get(2).is_none());
}

#[test]
fn getters_report_bonding_state() {
    let mut s = fresh();
    assert_eq!(s.slashable_balance_of(1), 0);
    assert_eq!(s.bond(1, 11, 500, RewardDestination::Stash, 1000), Ok(()));
    assert_eq!(s.slashable_balance_of(1), 500);
    assert_eq!(s.stash_of(11), Some(1));
    assert_eq!(s.stash_of(12), None);
    assert_eq!(s.set_payee(11, RewardDestination::Controller), Ok(()));
    assert_eq!(*s.payee.get(1).unwrap(), RewardDestination::Controller);
    assert_eq!(s.set_payee(99, RewardDestination::Stash), Err(Error::NotController));
    let curve = s.get_curve();
    assert_eq!(curve.len(), 2);
}

#[test]
fn exposure_of_reads_the_active_era() {
    let mut s = fresh();
    assert!(s.exposure_of(1).is_none());
    s.active_era = Some(ActiveEraInfo { index: 4, start: None });
    s.eras_stakers.insert(4, 1, Exposure { total: 7, own: 7, others: vec![] });
    assert_eq!(s.exposure_of(1).unwrap().total, 7);
    assert!(s.exposure_of(2).is_none());
}

#[test]
fn unsafe_cdd_expiry_unbonds_all_targets() {
    let mut s = fresh();
    assert_eq!(s.bond(1, 11, 500, RewardDestination::Staked, 1000), Ok(()));
    assert_eq!(s.nominate(11, vec![7], true), Ok(()));
    assert_eq!(
        s.unsafe_validate_cdd_expiry_nominators(&vec![1, 99]),
        Err(Error::NotStash)
    );
    // The failed call left everything as it was.
    assert_eq!(s.ledger.get(11).unwrap().active, 500);
    assert_eq!(s.unsafe_validate_cdd_expiry_nominators(&vec![1]), Ok(()));
    assert_eq!(s.ledger.get(11).unwrap().active, 0);
    assert!(s.nominators.get(1).is_none());
}

#[test]
fn perbill_arithmetic_is_exact() {
    let ten = Perbill::from_percent(10);
    assert_eq!(ten.mul_balance(1000), 100);
    assert!(Perbill::zero().is_zero());
    assert!(!ten.is_zero());
    assert_eq!(Perbill::from_parts(2_000_000_000).mul_balance(1000), 1000);
    let third = Perbill::from_rational(1, 3);
    assert_eq!(third.mul_balance(900), 299); // truncation, never rounding up
    let p = Perbill::from_percent(50).saturating_mul(Perbill::from_percent(50));
    assert_eq!(p.mul_balance(1000), 250);
    let capped = Perbill::from_percent(80).saturating_add(Perbill::from_percent(60));
    assert_eq!(capped.mul_balance(1000), 1000);
    assert_eq!(
        Perbill::from_percent(30).saturating_sub(Perbill::from_percent(50)).mul_balance(1000),
        0
    );
}

#[test]
fn inflation_payout_prorates_by_duration() {
    let curve = vec![
        (Perbill::from_percent(0), Perbill::from_percent(10)),
        (Perbill::from_percent(100), Perbill::from_percent(10)),
    ];
    assert_eq!(compute_total_payout(&curve, 500, 1000, MILLISECONDS_PER_YEAR), 100);
    assert_eq!(compute_total_payout(&curve, 500, 1000, MILLISECONDS_PER_YEAR / 2), 50);
    assert_eq!(compute_total_payout(&curve, 500, 1000, 0), 0);
}

#[test]
fn bonding_duration_period_multiplies_out() {
    let s = fresh();
    // 3 sessions x 3 eras x 10 blocks x 1000 ms.
    assert_eq!(s.get_bonding_duration_period(), 90_000);
}

#[test]
fn history_depth_shrink_prunes_old_eras() {
    let mut s = fresh();
    s.current_era = Some(90);
    s.eras_validator_reward.insert(7, 1000);
    s.eras_validator_reward.insert(89, 500);
    s.set_history_depth(1);
    assert!(s.eras_validator_reward.get(7).is_none());
    assert!(s.eras_validator_reward.get(89).is_some());
    assert_eq!(s.history_depth, 1);
}
