//! Tests of the percentage transfer restriction.

use staking_engine::primitives::IdentityId;
use staking_engine::transfer_manager::{PercentageTransferManager, RestrictionResult};

const ALICE: u64 = 1;
const BOB: u64 = 2;

#[test]
fn constructor_initialization_check() {
    let percentage_transfer_manager = PercentageTransferManager::new(ALICE, 200000u128, false);
    assert_eq!(
        percentage_transfer_manager.get_max_allowed_percentage(),
        200000u128
    );
    assert_eq!(
        percentage_transfer_manager.is_primary_issuance_allowed(),
        false
    );
    assert_eq!(percentage_transfer_manager.owner(), ALICE);
}

#[test]
fn test_verify_transfer_successfully() {
    let mut percentage_transfer_manager = PercentageTransferManager::new(ALICE, 200000, false);
    let from = IdentityId::from(1);
    let to = IdentityId::from(2);
    let multiplier: u128 = 1000000;

    // Should pass when the transfer value is under the restriction.
    assert_eq!(
        percentage_transfer_manager.verify_transfer(
            Some(from),
            Some(to),
            100u128 * multiplier,
            2000u128 * multiplier,
            0u128,
            2000u128 * multiplier,
        ),
        RestrictionResult::Valid
    );

    // Should fail if the transfer value is more than the restriction.
    assert_eq!(
        percentage_transfer_manager.verify_transfer(
            Some(from),
            Some(to),
            410u128 * multiplier,
            2000u128 * multiplier,
            0u128,
            2000u128 * multiplier,
        ),
        RestrictionResult::Invalid
    );

    // Should fail when the resulting balance is over the restriction.
    assert_eq!(
        percentage_transfer_manager.verify_transfer(
            Some(from),
            Some(to),
            301u128 * multiplier,
            2000u128 * multiplier,
            100u128 * multiplier,
            2000u128 * multiplier,
        ),
        RestrictionResult::Invalid
    );

    // Should still fail with primary issuance on, because `from` is set.
    percentage_transfer_manager.change_primary_issuance(ALICE, true);
    assert_eq!(
        percentage_transfer_manager.is_primary_issuance_allowed(),
        true
    );
    assert_eq!(
        percentage_transfer_manager.verify_transfer(
            Some(from),
            Some(to),
            700u128 * multiplier,
            2000u128 * multiplier,
            0u128,
            2000u128 * multiplier,
        ),
        RestrictionResult::Invalid
    );

    // Should pass when primary issuance is on and `from` is missing.
    assert_eq!(
        percentage_transfer_manager.verify_transfer(
            None,
            Some(to),
            700u128 * multiplier,
            2000u128 * multiplier,
            0u128,
            2000u128 * multiplier,
        ),
        RestrictionResult::Valid
    );

    // Should pass when the receiving identity is in the exemption list.
    percentage_transfer_manager.change_primary_issuance(ALICE, false);
    assert_eq!(
        percentage_transfer_manager.is_primary_issuance_allowed(),
        false
    );
    percentage_transfer_manager.modify_exemption_list(ALICE, to, true);
    assert_eq!(percentage_transfer_manager.is_exempted_or_not(to), true);

    assert_eq!(
        percentage_transfer_manager.verify_transfer(
            None,
            Some(to),
            700u128 * multiplier,
            2000u128 * multiplier,
            0u128,
            2000u128 * multiplier,
        ),
        RestrictionResult::Valid
    );
}

#[test]
fn test_verify_transfer_with_decimal_percentage() {
    // A threshold of 27.894% of the total supply.
    let percentage_transfer_manager = PercentageTransferManager::new(ALICE, 278940, false);
    let from = IdentityId::from(1);
    let to = IdentityId::from(2);
    let multiplier: u128 = 1000000;

    // Should pass at exactly 27.894% of 2000 tokens.
    assert_eq!(
        percentage_transfer_manager.verify_transfer(
            Some(from),
            Some(to),
            55788u128 * 10000,
            2000u128 * multiplier,
            0u128,
            2000u128 * multiplier,
        ),
        RestrictionResult::Valid
    );

    // Should fail when passing more than 27.894%.
    assert_eq!(
        percentage_transfer_manager.verify_transfer(
            Some(from),
            Some(to),
            558u128 * multiplier,
            2000u128 * multiplier,
            0u128,
            2000u128 * multiplier,
        ),
        RestrictionResult::Invalid
    );
}

#[test]
fn should_successfully_change_allowed_percentage() {
    let mut percentage_transfer_manager = PercentageTransferManager::new(ALICE, 200000, false);
    let from = IdentityId::from(1);
    let to = IdentityId::from(2);
    let multiplier: u128 = 1000000;

    // Should fail if the transfer value is more than the restriction.
    assert_eq!(
        percentage_transfer_manager.verify_transfer(
            Some(from),
            Some(to),
            410u128 * multiplier,
            2000u128 * multiplier,
            0u128,
            2000u128 * multiplier,
        ),
        RestrictionResult::Invalid
    );

    percentage_transfer_manager.change_allowed_percentage(ALICE, 300000u128);

    // Should pass with the same values because the allowance grew.
    assert_eq!(
        percentage_transfer_manager.verify_transfer(
            Some(from),
            Some(to),
            410u128 * multiplier,
            2000u128 * multiplier,
            0u128,
            2000u128 * multiplier,
        ),
        RestrictionResult::Valid
    );
}

#[test]
fn should_exempt_multiple_identities() {
    let mut percentage_transfer_manager = PercentageTransferManager::new(ALICE, 200000, false);
    let exempted_identities = vec![
        (IdentityId::from(1), true),
        (IdentityId::from(2), true),
        (IdentityId::from(3), true),
    ];
    percentage_transfer_manager.modify_exemption_list_batch(ALICE, exempted_identities.clone());

    assert!(percentage_transfer_manager.is_exempted_or_not(IdentityId::from(1)));
    assert!(percentage_transfer_manager.is_exempted_or_not(IdentityId::from(2)));
    assert!(percentage_transfer_manager.is_exempted_or_not(IdentityId::from(3)));
}

#[test]
fn transfer_ownership_changes_owner() {
    let mut ptm = PercentageTransferManager::new(ALICE, 200000, false);
    ptm.transfer_ownership(ALICE, BOB);
    assert_eq!(ptm.owner(), BOB);
    ptm.change_allowed_percentage(BOB, 250000);
    assert_eq!(ptm.get_max_allowed_percentage(), 250000);
}
