//! Shareable primitive types.

use vstd::prelude::*;

verus! {

/// A decentralized identity: a 256-bit identifier, held as two halves.
///
/// Building one from a 128-bit number fills the low half, matching the
/// little-endian padding of the wire form.
#[derive(Clone, Copy, PartialEq, Eq, Structural, Debug, Hash)]
pub struct IdentityId {
    /// The low 128 bits.
    pub lo: u128,
    /// The high 128 bits.
    pub hi: u128,
}

impl Default for IdentityId {
    /// The all-zero identity.
    fn default() -> (r: IdentityId)
        ensures
            r.lo == 0 && r.hi == 0,
    {
        IdentityId { lo: 0, hi: 0 }
    }
}

impl From<u128> for IdentityId {
    /// Widen a 128-bit number into the low half of an identity.
    fn from(id: u128) -> (r: IdentityId)
        ensures
            r.lo == id && r.hi == 0,
    {
        IdentityId { lo: id, hi: 0 }
    }
}

impl vstd::std_specs::convert::FromSpecImpl<u128> for IdentityId {
    open spec fn obeys_from_spec() -> bool {
        true
    }

    open spec fn from_spec(id: u128) -> IdentityId {
        IdentityId { lo: id, hi: 0 }
    }
}

/// A positive coefficient: a numerator and a denominator.
#[derive(Clone, Copy, PartialEq, Eq, Structural, Debug, Hash)]
pub struct PosRatio(pub u32, pub u32);

impl Default for PosRatio {
    /// Defaults to one over one.
    fn default() -> (r: PosRatio)
        ensures
            r.0 == 1 && r.1 == 1,
    {
        PosRatio(1, 1)
    }
}

impl From<(u32, u32)> for PosRatio {
    /// A ratio straight from a numerator-denominator pair.
    fn from(p: (u32, u32)) -> (r: PosRatio)
        ensures
            r.0 == p.0 && r.1 == p.1,
    {
        PosRatio(p.0, p.1)
    }
}

impl vstd::std_specs::convert::FromSpecImpl<(u32, u32)> for PosRatio {
    open spec fn obeys_from_spec() -> bool {
        true
    }

    open spec fn from_spec(p: (u32, u32)) -> PosRatio {
        PosRatio(p.0, p.1)
    }
}

/// Custom transaction validity errors.
#[derive(Clone, Copy, PartialEq, Eq, Structural, Debug)]
pub enum TransactionError {
    /// A zero tip was supplied where one is required.
    ZeroTip,
    /// The transaction needs an identity associated to its account.
    MissingIdentity,
    /// A compliance credential is required.
    CddRequired,
    /// The named authorization does not exist or cannot be used.
    InvalidAuthorization,
}

/// The target identity and the amount requested by a beneficiary.
#[derive(Clone, Copy, PartialEq, Eq, Structural, Debug)]
pub struct Beneficiary<Balance> {
    /// Beneficiary identity.
    pub id: IdentityId,
    /// Amount requested by this beneficiary.
    pub amount: Balance,
}

} // verus!
