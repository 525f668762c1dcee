//! A staking and validator-election engine for a proof-of-stake runtime.
//!
//! The engine tracks bonded funds in per-controller ledgers, elects a bounded
//! validator set each era through a weighted election, distributes era rewards
//! in proportion to stake and reward points, and slashes misbehaving
//! validators under deferred, span-bounded rules.  All state lives in one
//! explicit value that every operation receives; external collaborators (the
//! currency, the clock, the compliance service) hand their answers in as plain
//! values.

pub mod bytes;
pub mod election;
pub mod engine;
pub mod fraction;
pub mod inflation;
pub mod ledger;
pub mod primitives;
pub mod slashing;
pub mod store;
pub mod transfer_manager;
pub mod types;

use vstd::prelude::*;

verus! {

/// Number of parts in a whole for [`fraction::Perbill`] values.
pub const BILLION: u32 = 1_000_000_000;

} // verus!
