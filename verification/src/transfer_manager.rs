//! A percentage-threshold transfer restriction.
//!
//! A single-purpose rule evaluator for asset transfers: a transfer is valid
//! while the receiver's resulting holding stays within a configured
//! percentage of the total supply, with a primary-issuance bypass and a
//! per-identity exemption list.  Only the owner may change the settings.

use vstd::prelude::*;

verus! {

use crate::primitives::IdentityId;

/// The percentage scale: a holding share is measured in millionths.
pub const PERCENTAGE_SCALE: u128 = 1_000_000;

/// The outcome of a transfer restriction check.
#[derive(Clone, Copy, PartialEq, Eq, Structural, Debug)]
pub enum RestrictionResult {
    /// The transfer passes the restriction.
    Valid,
    /// The transfer violates the restriction.
    Invalid,
    /// The transfer must pass regardless of other restrictions.
    ForceValid,
}

/// The transfer manager's whole state.
pub struct PercentageTransferManager {
    /// Owner of the restriction; only it may change settings.
    pub owner: u64,
    /// Maximum allowed holding per investor, in millionths of the total
    /// supply.
    pub max_allowed_percentage: u128,
    /// When set, transfers with no sender (primary issuance) bypass the
    /// restriction.
    pub allow_primary_issuance: bool,
    /// Identities unaffected by the restriction, each at most once.
    pub exemption_list: Vec<(IdentityId, bool)>,
}

impl PercentageTransferManager {
    /// The exemption entries hold each identity at most once.
    pub open spec fn wf(&self) -> bool {
        forall|i: int, j: int|
            0 <= i < j < self.spec_exemptions().len()
                ==> (#[trigger] self.spec_exemptions()[i]).0
                    != (#[trigger] self.spec_exemptions()[j]).0
    }

    /// The exemption entries.
    pub open spec fn spec_exemptions(&self) -> Seq<(IdentityId, bool)> {
        self.exemption_list@
    }

    /// Whether an identity is currently exempted.
    pub open spec fn spec_exempted(&self, id: IdentityId) -> bool {
        exists|i: int|
            0 <= i < self.spec_exemptions().len() && (#[trigger] self.spec_exemptions()[i]).0
                == id && self.spec_exemptions()[i].1
    }

    /// What the outcome of a transfer check is: valid for unrestricted primary
    /// issuance, for an exempted receiver, or while the receiver's
    /// resulting holding stays within the allowed share of the supply.
    pub open spec fn spec_outcome(
        &self,
        from: Option<IdentityId>,
        to: Option<IdentityId>,
        value: u128,
        balance_to: u128,
        total_supply: u128,
    ) -> RestrictionResult {
        let receiver = match to {
            Some(id) => id,
            None => IdentityId { lo: 0, hi: 0 },
        };
        if (from is None && self.allow_primary_issuance) || self.spec_exempted(receiver) || (
        balance_to + value) * (PERCENTAGE_SCALE as int) / (total_supply as int)
            <= self.max_allowed_percentage {
            RestrictionResult::Valid
        } else {
            RestrictionResult::Invalid
        }
    }

    /// A fresh manager owned by the caller.
    pub fn new(caller: u64, max_percentage: u128, primary_issuance: bool) -> (r:
        PercentageTransferManager)
        ensures
            r.wf(),
            r.owner == caller,
            r.max_allowed_percentage == max_percentage,
            r.allow_primary_issuance == primary_issuance,
            forall|id: IdentityId| !r.spec_exempted(id),
    {
        PercentageTransferManager {
            owner: caller,
            max_allowed_percentage: max_percentage,
            allow_primary_issuance: primary_issuance,
            exemption_list: Vec::new(),
        }
    }

    /// Verify a transfer of `value` to a receiver already holding
    /// `balance_to`, out of `total_supply`.
    pub fn verify_transfer(
        &self,
        from: Option<IdentityId>,
        to: Option<IdentityId>,
        value: u128,
        balance_from: u128,
        balance_to: u128,
        total_supply: u128,
    ) -> (r: RestrictionResult)
        requires
            self.wf(),
            total_supply > 0,
            balance_to + value <= u128::MAX as int / (PERCENTAGE_SCALE as int),
        ensures
            r == self.spec_outcome(from, to, value, balance_to, total_supply),
    {
        let receiver = match to {
            Some(id) => id,
            None => IdentityId { lo: 0, hi: 0 },
        };
        let bypass = match from {
            None => self.allow_primary_issuance,
            Some(_) => false,
        };
        if bypass || self.is_exempted_or_not(receiver) {
            return RestrictionResult::Valid;
        }
        proof {
            assert((balance_to + value) * (PERCENTAGE_SCALE as int) <= (u128::MAX as int / (
            PERCENTAGE_SCALE as int)) * (PERCENTAGE_SCALE as int)) by (nonlinear_arith)
                requires balance_to + value <= u128::MAX as int / (PERCENTAGE_SCALE as int);
            assert((u128::MAX as int / (PERCENTAGE_SCALE as int)) * (PERCENTAGE_SCALE as int)
                <= u128::MAX as int) by (nonlinear_arith);
        }
        let share: u128 = (balance_to + value) * PERCENTAGE_SCALE / total_supply;
        if share <= self.max_allowed_percentage {
            RestrictionResult::Valid
        } else {
            RestrictionResult::Invalid
        }
    }

    /// Change the maximum allowed percentage.  Only the owner may, and only
    /// to a genuinely different value.
    pub fn change_allowed_percentage(&mut self, caller: u64, new_percentage: u128)
        requires
            old(self).wf(),
            caller == old(self).owner,
            new_percentage != old(self).max_allowed_percentage,
        ensures
            final(self).wf(),
            (*final(self) == PercentageTransferManager {
                max_allowed_percentage: new_percentage,
                ..*old(self)
            }),
    {
        self.max_allowed_percentage = new_percentage;
        proof {
            assert forall|i: int, j: int| 0 <= i < j < self.spec_exemptions().len() implies
                (#[trigger] self.spec_exemptions()[i]).0
                    != (#[trigger] self.spec_exemptions()[j]).0 by {
                assert(self.spec_exemptions()[i] == old(self).spec_exemptions()[i]);
                assert(self.spec_exemptions()[j] == old(self).spec_exemptions()[j]);
            }
        }
    }

    /// Toggle the primary-issuance bypass.  Only the owner may, and only to
    /// a genuinely different setting.
    pub fn change_primary_issuance(&mut self, caller: u64, primary_issuance: bool)
        requires
            old(self).wf(),
            caller == old(self).owner,
            primary_issuance != old(self).allow_primary_issuance,
        ensures
            final(self).wf(),
            (*final(self) == PercentageTransferManager {
                allow_primary_issuance: primary_issuance,
                ..*old(self)
            }),
    {
        self.allow_primary_issuance = primary_issuance;
        proof {
            assert forall|i: int, j: int| 0 <= i < j < self.spec_exemptions().len() implies
                (#[trigger] self.spec_exemptions()[i]).0
                    != (#[trigger] self.spec_exemptions()[j]).0 by {
                assert(self.spec_exemptions()[i] == old(self).spec_exemptions()[i]);
                assert(self.spec_exemptions()[j] == old(self).spec_exemptions()[j]);
            }
        }
    }

    /// Change an identity's exemption status.  Only the owner may, and only
    /// to a genuinely different status.
    pub fn modify_exemption_list(&mut self, caller: u64, identity: IdentityId, is_exempted: bool)
        requires
            old(self).wf(),
            caller == old(self).owner,
            old(self).spec_exempted(identity) != is_exempted,
        ensures
            final(self).wf(),
            final(self).owner == old(self).owner,
            final(self).max_allowed_percentage == old(self).max_allowed_percentage,
            final(self).allow_primary_issuance == old(self).allow_primary_issuance,
            final(self).spec_exempted(identity) == is_exempted,
            forall|x: IdentityId| x != identity
                ==> #[trigger] final(self).spec_exempted(x) == old(self).spec_exempted(x),
    {
        self.set_exemption(identity, is_exempted);
    }

    /// Change the exemption status of several identities at once, in order.
    pub fn modify_exemption_list_batch(&mut self, caller: u64, exemptions: Vec<(IdentityId, bool)>)
        requires
            old(self).wf(),
            caller == old(self).owner,
            forall|a: int, b: int|
                0 <= a < b < exemptions@.len()
                    ==> (#[trigger] exemptions@[a]).0 != (#[trigger] exemptions@[b]).0,
            forall|a: int| 0 <= a < exemptions@.len()
                ==> old(self).spec_exempted((#[trigger] exemptions@[a]).0) != exemptions@[a].1,
        ensures
            final(self).wf(),
            final(self).owner == old(self).owner,
            final(self).max_allowed_percentage == old(self).max_allowed_percentage,
            final(self).allow_primary_issuance == old(self).allow_primary_issuance,
            forall|a: int| 0 <= a < exemptions@.len()
                ==> #[trigger] final(self).spec_exempted(exemptions@[a].0) == exemptions@[a].1,
    {
        let n = exemptions.len();
        let mut i: usize = 0;
        while i < n
            invariant
                n == exemptions@.len(),
                i <= n,
                self.wf(),
                self.owner == old(self).owner,
                self.max_allowed_percentage == old(self).max_allowed_percentage,
                self.allow_primary_issuance == old(self).allow_primary_issuance,
                forall|a: int, b: int|
                    0 <= a < b < exemptions@.len()
                        ==> (#[trigger] exemptions@[a]).0 != (#[trigger] exemptions@[b]).0,
                forall|a: int| 0 <= a < exemptions@.len()
                    ==> old(self).spec_exempted((#[trigger] exemptions@[a]).0)
                        != exemptions@[a].1,
                forall|a: int| i <= a < exemptions@.len()
                    ==> #[trigger] self.spec_exempted(exemptions@[a].0) == old(
                    self,
                ).spec_exempted(exemptions@[a].0),
                forall|a: int| 0 <= a < i
                    ==> #[trigger] self.spec_exempted(exemptions@[a].0) == exemptions@[a].1,
            decreases n - i,
        {
            let (identity, status) = exemptions[i];
            self.set_exemption(identity, status);
            i += 1;
        }
    }

    /// Hand the manager to a new owner.  Only the current owner may.
    pub fn transfer_ownership(&mut self, caller: u64, new_owner: u64)
        requires
            old(self).wf(),
            caller == old(self).owner,
        ensures
            final(self).wf(),
            (*final(self) == PercentageTransferManager { owner: new_owner, ..*old(self) }),
    {
        self.owner = new_owner;
        proof {
            assert forall|i: int, j: int| 0 <= i < j < self.spec_exemptions().len() implies
                (#[trigger] self.spec_exemptions()[i]).0
                    != (#[trigger] self.spec_exemptions()[j]).0 by {
                assert(self.spec_exemptions()[i] == old(self).spec_exemptions()[i]);
                assert(self.spec_exemptions()[j] == old(self).spec_exemptions()[j]);
            }
        }
    }

    /// The current maximum allowed percentage, in millionths.
    pub fn get_max_allowed_percentage(&self) -> (r: u128)
        ensures
            r == self.max_allowed_percentage,
    {
        self.max_allowed_percentage
    }

    /// Whether primary issuance currently bypasses the restriction.
    pub fn is_primary_issuance_allowed(&self) -> (r: bool)
        ensures
            r == self.allow_primary_issuance,
    {
        self.allow_primary_issuance
    }

    /// The current owner.
    pub fn owner(&self) -> (r: u64)
        ensures
            r == self.owner,
    {
        self.owner
    }

    /// Whether the given identity is exempted.
    pub fn is_exempted_or_not(&self, of: IdentityId) -> (r: bool)
        requires
            self.wf(),
        ensures
            r == self.spec_exempted(of),
    {
        let n = self.exemption_list.len();
        let mut i: usize = 0;
        while i < n
            invariant
                n == self.spec_exemptions().len(),
                i <= n,
                self.wf(),
                forall|j: int| 0 <= j < i ==> (#[trigger] self.spec_exemptions()[j]).0 != of,
            decreases n - i,
        {
            let (id, status) = self.exemption_list[i];
            if id == of {
                proof {
                    if status {
                        assert(self.spec_exemptions()[i as int].0 == of
                            && self.spec_exemptions()[i as int].1);
                    } else {
                        if self.spec_exempted(of) {
                            let w = choose|w: int|
                                0 <= w < self.spec_exemptions().len()
                                    && (#[trigger] self.spec_exemptions()[w]).0 == of
                                    && self.spec_exemptions()[w].1;
                            assert(w == i);
                            assert(false);
                        }
                    }
                }
                return status;
            }
            i += 1;
        }
        proof {
            if self.spec_exempted(of) {
                let w = choose|w: int|
                    0 <= w < self.spec_exemptions().len()
                        && (#[trigger] self.spec_exemptions()[w]).0 == of
                        && self.spec_exemptions()[w].1;
                assert(false);
            }
        }
        false
    }

    /// Write an identity's exemption status into the list.
    fn set_exemption(&mut self, identity: IdentityId, is_exempted: bool)
        requires
            old(self).wf(),
        ensures
            final(self).wf(),
            final(self).owner == old(self).owner,
            final(self).max_allowed_percentage == old(self).max_allowed_percentage,
            final(self).allow_primary_issuance == old(self).allow_primary_issuance,
            final(self).spec_exempted(identity) == is_exempted,
            forall|x: IdentityId| x != identity
                ==> #[trigger] final(self).spec_exempted(x) == old(self).spec_exempted(x),
    {
        let n = self.exemption_list.len();
        let mut i: usize = 0;
        while i < n
            invariant
                n == self.spec_exemptions().len(),
                i <= n,
                self.wf(),
                *self == *old(self),
                forall|j: int| 0 <= j < i
                    ==> (#[trigger] self.spec_exemptions()[j]).0 != identity,
            decreases n - i,
        {
            let (id, _) = self.exemption_list[i];
            if id == identity {
                let ghost pre = self.exemption_list@;
                self.exemption_list.remove(i);
                self.exemption_list.insert(i, (identity, is_exempted));
                proof {
                    assert(self.exemption_list@ =~= pre.update(
                        i as int,
                        (identity, is_exempted),
                    ));
                    assert forall|x: IdentityId| x != identity implies
                        #[trigger] self.spec_exempted(x) == old(self).spec_exempted(x) by {
                        if old(self).spec_exempted(x) {
                            let w = choose|w: int|
                                0 <= w < pre.len() && (#[trigger] pre[w]).0 == x && pre[w].1;
                            assert(self.spec_exemptions()[w] == pre[w]);
                        }
                        if self.spec_exempted(x) {
                            let w = choose|w: int|
                                0 <= w < self.spec_exemptions().len()
                                    && (#[trigger] self.spec_exemptions()[w]).0 == x
                                    && self.spec_exemptions()[w].1;
                            assert(pre[w] == self.spec_exemptions()[w]);
                        }
                    }
                    if is_exempted {
                        assert(self.spec_exemptions()[i as int].0 == identity
                            && self.spec_exemptions()[i as int].1);
                    } else {
                        if self.spec_exempted(identity) {
                            let w = choose|w: int|
                                0 <= w < self.spec_exemptions().len()
                                    && (#[trigger] self.spec_exemptions()[w]).0 == identity
                                    && self.spec_exemptions()[w].1;
                            assert(w == i);
                            assert(false);
                        }
                    }
                }
                return;
            }
            i += 1;
        }
        let ghost pre = self.exemption_list@;
        self.exemption_list.push((identity, is_exempted));
        proof {
            assert(self.spec_exemptions().drop_last() =~= pre);
            assert forall|a: int, b: int|
                0 <= a < b < self.spec_exemptions().len() implies
                (#[trigger] self.spec_exemptions()[a]).0
                    != (#[trigger] self.spec_exemptions()[b]).0 by {
                if b < self.spec_exemptions().len() - 1 {
                    assert(pre[a].0 != pre[b].0);
                } else {
                    assert(self.spec_exemptions()[a] == pre[a]);
                    assert(pre[a].0 != identity);
                }
            }
            assert forall|x: IdentityId| x != identity implies
                #[trigger] self.spec_exempted(x) == old(self).spec_exempted(x) by {
                if old(self).spec_exempted(x) {
                    let w = choose|w: int|
                        0 <= w < pre.len() && (#[trigger] pre[w]).0 == x && pre[w].1;
                    assert(self.spec_exemptions()[w] == pre[w]);
                }
                if self.spec_exempted(x) {
                    let w = choose|w: int|
                        0 <= w < self.spec_exemptions().len()
                            && (#[trigger] self.spec_exemptions()[w]).0 == x
                            && self.spec_exemptions()[w].1;
                    assert(w < pre.len());
                    assert(pre[w] == self.spec_exemptions()[w]);
                }
            }
            if is_exempted {
                let last = self.spec_exemptions().len() - 1;
                assert(self.spec_exemptions()[last].0 == identity
                    && self.spec_exemptions()[last].1);
            } else {
                if self.spec_exempted(identity) {
                    let w = choose|w: int|
                        0 <= w < self.spec_exemptions().len()
                            && (#[trigger] self.spec_exemptions()[w]).0 == identity
                            && self.spec_exemptions()[w].1;
                    if w < pre.len() {
                        assert(pre[w] == self.spec_exemptions()[w]);
                    }
                    assert(false);
                }
            }
        }
    }
}

} // verus!
