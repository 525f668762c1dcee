//! Slashing spans and span records.
//!
//! A span is one continuous misbehavior window of a stash.  Repeated slashes
//! inside one span cannot re-slash value already slashed: the span record
//! tracks how much of the span was slashed and how much reporter bounty was
//! already paid, and a later report only adds the difference.

use vstd::prelude::*;

verus! {

use crate::types::EraIndex;

/// Per-stash record bounding what one continuous misbehavior window can be
/// slashed for.
#[derive(Clone, Copy, PartialEq, Eq, Structural, Debug)]
pub struct SlashingSpans {
    /// Index of the current span; bumps when a new window starts.
    pub span_index: u32,
    /// The era the current span started in.
    pub last_start: EraIndex,
    /// The era of the most recent non-zero slash on this stash.
    pub last_nonzero_slash: EraIndex,
}

impl SlashingSpans {
    /// A fresh span history, opening a span at `window_start`.
    pub fn new(window_start: EraIndex) -> (r: SlashingSpans)
        ensures
            r.span_index == 0,
            r.last_start == window_start,
            r.last_nonzero_slash == 0,
    {
        SlashingSpans { span_index: 0, last_start: window_start, last_nonzero_slash: 0 }
    }
}

/// Slash and bounty accounting for one (stash, span) pair.
#[derive(Clone, Copy, PartialEq, Eq, Structural, Debug)]
pub struct SpanRecord {
    /// How much of the span was already slashed.
    pub slashed: u128,
    /// How much reporter bounty was already paid for the span.
    pub paid_out: u128,
}

impl SpanRecord {
    /// An untouched span record.
    pub fn new() -> (r: SpanRecord)
        ensures
            r.slashed == 0,
            r.paid_out == 0,
    {
        SpanRecord { slashed: 0, paid_out: 0 }
    }
}

} // verus!
