//! Operations on a single bonding ledger.
//!
//! Every balance-affecting operation keeps the ledger's accounting identity:
//! the total equals the active stake plus the sum of the unlocking queue.

use vstd::prelude::*;

verus! {

use crate::types::{
    EraIndex, MAX_UNLOCKING_CHUNKS, StakingLedger, UnlockChunk, unlocking_sum,
    lemma_unlocking_sum_take, lemma_unlocking_sum_nonneg,
};

/// How much a slash of `value` drains from a pot holding `target`: the
/// requested amount, grown to the whole pot when the remainder would be dust
/// at or below `min`.
pub open spec fn drained_amount(target: int, value: int, min: int) -> int {
    let sft = if value < target { value } else { target };
    if sft == 0 {
        0
    } else if target - sft <= min {
        target
    } else {
        sft
    }
}

/// How much `unbond` moves out of an active stake of `active`: the requested
/// amount, capped at the stake, grown to the whole stake when the remainder
/// would fall below the currency minimum `min`.
pub open spec fn unbonded_amount(active: int, value: int, min: int) -> int {
    let v = if value < active { value } else { active };
    if v == 0 {
        0
    } else if active - v < min {
        active
    } else {
        v
    }
}

/// What remains of a slash request of `value` after a pot holding `target`
/// was drained: the request shrinks by what the pot could cover; the dust
/// taken on top of it covers nothing.
pub open spec fn request_after(target: int, value: int) -> int {
    value - (if value < target { value } else { target })
}

/// The unlocking queue after a slash of `value` walked it front to back,
/// together with the amount it drained: each chunk is drained per
/// [`drained_amount`], fully drained chunks disappear, and the rest keep
/// their order and maturity.
pub open spec fn slash_chunks(chunks: Seq<UnlockChunk>, value: int, min: int) -> (
    Seq<UnlockChunk>,
    int,
)
    decreases chunks.len(),
{
    if chunks.len() == 0 {
        (Seq::empty(), 0)
    } else {
        let c = chunks[0];
        let d = drained_amount(c.value as int, value, min);
        let rest = slash_chunks(chunks.skip(1), request_after(c.value as int, value), min);
        if c.value == d {
            (rest.0, d + rest.1)
        } else {
            (seq![UnlockChunk { value: (c.value - d) as u128, era: c.era }] + rest.0, d + rest.1)
        }
    }
}

/// The unlocking queue after `value` was rebonded out of it, most recently
/// scheduled chunks first: whole chunks pop off the back until the request
/// is covered, with the last reached chunk shrunk by the remainder.
pub open spec fn rebond_chunks(chunks: Seq<UnlockChunk>, value: int) -> Seq<UnlockChunk>
    decreases chunks.len(),
{
    if chunks.len() == 0 || value <= 0 {
        chunks
    } else if chunks.last().value <= value {
        rebond_chunks(chunks.drop_last(), value - chunks.last().value)
    } else {
        chunks.update(
            chunks.len() - 1,
            UnlockChunk { value: (chunks.last().value - value) as u128, era: chunks.last().era },
        )
    }
}

/// The subsequence of `s` whose chunks mature strictly after `current_era`,
/// in their original order.
pub open spec fn unmatured(s: Seq<UnlockChunk>, current_era: EraIndex) -> Seq<UnlockChunk>
    decreases s.len(),
{
    if s.len() == 0 {
        Seq::empty()
    } else {
        let rest = unmatured(s.drop_last(), current_era);
        if s.last().era > current_era {
            rest.push(s.last())
        } else {
            rest
        }
    }
}

impl StakingLedger {
    /// Remove every chunk that matured at or before `current_era` and reduce
    /// the total by the sum of their balances.
    pub fn consolidate_unlocked(self, current_era: EraIndex) -> (r: StakingLedger)
        requires
            self.wf(),
        ensures
            r.wf(),
            r.stash == self.stash,
            r.active == self.active,
            r.last_reward == self.last_reward,
            r.unlocking@ == unmatured(self.unlocking@, current_era),
            r.total == r.active + unlocking_sum(r.unlocking@),
    {
        let n = self.unlocking.len();
        let mut kept: Vec<UnlockChunk> = Vec::new();
        let mut kept_sum: u128 = 0;
        let ghost mut dropped_sum: int = 0;
        let mut i: usize = 0;
        proof {
            lemma_unlocking_sum_take(self.unlocking@, 0);
            assert(self.unlocking@.take(0) =~= Seq::<UnlockChunk>::empty());
        }
        while i < n
            invariant
                n == self.unlocking@.len(),
                i <= n,
                self.wf(),
                kept@ == unmatured(self.unlocking@.take(i as int), current_era),
                kept_sum == unlocking_sum(kept@),
                0 <= dropped_sum,
                kept_sum + dropped_sum == unlocking_sum(self.unlocking@.take(i as int)),
                unlocking_sum(self.unlocking@.take(i as int)) <= unlocking_sum(self.unlocking@),
                kept@.len() <= i,
                forall|j: int| 0 <= j < kept@.len() ==> (#[trigger] kept@[j]).value > 0,
            decreases n - i,
        {
            let c = self.unlocking[i];
            proof {
                lemma_unlocking_sum_take(self.unlocking@, i as int + 1);
                assert(self.unlocking@.take(i as int + 1).drop_last() =~= self.unlocking@.take(
                    i as int,
                ));
                assert(self.unlocking@.take(i as int + 1).last() == c);
                assert(unlocking_sum(self.unlocking@.take(i as int + 1)) == unlocking_sum(
                    self.unlocking@.take(i as int),
                ) + c.value);
            }
            if c.era > current_era {
                let ghost k0 = kept@;
                kept.push(c);
                kept_sum = kept_sum + c.value;
                proof {
                    assert(kept@.drop_last() =~= k0);
                }
            } else {
                proof {
                    dropped_sum = dropped_sum + c.value;
                }
            }
            i += 1;
        }
        proof {
            assert(self.unlocking@.take(n as int) =~= self.unlocking@);
        }
        let new_total: u128 = self.active + kept_sum;
        StakingLedger {
            stash: self.stash,
            total: new_total,
            active: self.active,
            unlocking: kept,
            last_reward: self.last_reward,
        }
    }

    /// Move up to `value` back from the most recently scheduled unlocking
    /// chunks into the active stake, most recent first.  The total is
    /// conserved; the active stake grows by exactly the requested amount or
    /// by the whole unlocking balance, whichever is less.
    pub fn rebond(self, value: u128) -> (r: StakingLedger)
        requires
            self.wf(),
        ensures
            r.wf(),
            r.stash == self.stash,
            r.last_reward == self.last_reward,
            r.total == self.total,
            r.active == self.active + (if value as int <= unlocking_sum(self.unlocking@) {
                value as int
            } else {
                unlocking_sum(self.unlocking@)
            }),
            // The most recently queued chunks are restored first; what is
            // left is exactly the queue with the request unwound from its
            // back.
            r.unlocking@ == rebond_chunks(self.unlocking@, value as int),
            r.unlocking@.len() <= self.unlocking@.len(),
    {
        let mut ledger = self;
        let mut moved: u128 = 0;
        proof {
            lemma_unlocking_sum_nonneg(ledger.unlocking@);
        }
        while ledger.unlocking.len() > 0 && moved < value
            invariant
                ledger.wf(),
                ledger.stash == self.stash,
                ledger.last_reward == self.last_reward,
                ledger.total == self.total,
                moved <= value,
                ledger.active == self.active + moved,
                moved + unlocking_sum(ledger.unlocking@) == unlocking_sum(self.unlocking@),
                ledger.unlocking@.len() <= self.unlocking@.len(),
                rebond_chunks(self.unlocking@, value as int) == rebond_chunks(
                    ledger.unlocking@,
                    value - moved,
                ),
            decreases ledger.unlocking@.len(), value - moved,
        {
            let li = ledger.unlocking.len() - 1;
            let last = ledger.unlocking[li];
            proof {
                assert(ledger.unlocking@.drop_last() =~= ledger.unlocking@.take(li as int));
                lemma_unlocking_sum_nonneg(ledger.unlocking@.drop_last());
                assert(unlocking_sum(ledger.unlocking@) == unlocking_sum(
                    ledger.unlocking@.drop_last(),
                ) + last.value);
            }
            if value - moved >= last.value {
                let ghost q0 = ledger.unlocking@;
                moved = moved + last.value;
                ledger.active = ledger.active + last.value;
                ledger.unlocking.pop();
                proof {
                    assert(ledger.unlocking@ =~= q0.drop_last());
                }
            } else {
                let diff = value - moved;
                moved = moved + diff;
                ledger.active = ledger.active + diff;
                let ghost q0 = ledger.unlocking@;
                ledger.unlocking.pop();
                let ghost popped = ledger.unlocking@;
                ledger.unlocking.push(UnlockChunk { value: last.value - diff, era: last.era });
                proof {
                    assert(ledger.unlocking@.drop_last() =~= popped);
                    assert(unlocking_sum(ledger.unlocking@) == unlocking_sum(popped) + (
                    last.value - diff));
                    assert(ledger.unlocking@ =~= q0.update(
                        q0.len() - 1,
                        UnlockChunk { value: (last.value - diff) as u128, era: last.era },
                    ));
                }
            }
        }
        proof {
            lemma_unlocking_sum_nonneg(ledger.unlocking@);
            assert(rebond_chunks(ledger.unlocking@, value - moved) == ledger.unlocking@);
        }
        ledger
    }

    /// Slash up to `value` from this ledger: from the active stake first,
    /// then from the unlocking chunks nearest maturity first.  A drained pot
    /// left at or below `minimum_balance` is fully zeroed; the zeroed dust
    /// counts into the amount removed, while the remaining request shrinks
    /// only by the pre-dust share.  Returns the amount actually removed.
    pub fn slash(&mut self, value: u128, minimum_balance: u128) -> (r: u128)
        requires
            old(self).wf(),
        ensures
            final(self).wf(),
            final(self).stash == old(self).stash,
            final(self).last_reward == old(self).last_reward,
            final(self).total <= old(self).total,
            r == old(self).total - final(self).total,
            final(self).active == old(self).active - drained_amount(
                old(self).active as int,
                value as int,
                minimum_balance as int,
            ),
            final(self).unlocking@ == slash_chunks(
                old(self).unlocking@,
                request_after(old(self).active as int, value as int),
                minimum_balance as int,
            ).0,
            r == drained_amount(old(self).active as int, value as int, minimum_balance as int)
                + slash_chunks(
                old(self).unlocking@,
                request_after(old(self).active as int, value as int),
                minimum_balance as int,
            ).1,
            final(self).unlocking@.len() <= old(self).unlocking@.len(),
            final(self).active <= old(self).active,
    {
        proof {
            lemma_unlocking_sum_nonneg(old(self).unlocking@);
        }
        // Drain the active stake.
        let sft_a: u128 = if value < self.active { value } else { self.active };
        let mut cur_value: u128 = value - sft_a;
        let drained_a: u128;
        if sft_a == 0 {
            drained_a = 0;
        } else {
            let rem = self.active - sft_a;
            if rem <= minimum_balance {
                drained_a = self.active;
                self.active = 0;
            } else {
                drained_a = sft_a;
                self.active = rem;
            }
        }
        // Drain the unlocking queue, nearest maturity first.
        let ghost orig_chunks = old(self).unlocking@;
        let ghost v_after_active = request_after(old(self).active as int, value as int);
        let ghost mb = minimum_balance as int;
        let n = self.unlocking.len();
        let mut kept: Vec<UnlockChunk> = Vec::new();
        let mut kept_sum: u128 = 0;
        let mut drained_c: u128 = 0;
        let mut i: usize = 0;
        proof {
            lemma_unlocking_sum_take(orig_chunks, 0);
            assert(orig_chunks.take(0) =~= Seq::<UnlockChunk>::empty());
            assert(orig_chunks.skip(0) =~= orig_chunks);
            assert(kept@ + slash_chunks(orig_chunks.skip(0), cur_value as int, mb).0
                =~= slash_chunks(orig_chunks, v_after_active, mb).0);
        }
        while i < n
            invariant
                n == orig_chunks.len(),
                i <= n,
                old(self).wf(),
                orig_chunks == old(self).unlocking@,
                mb == minimum_balance as int,
                forall|j: int| 0 <= j < orig_chunks.len()
                    ==> (#[trigger] orig_chunks[j]).value > 0,
                self.unlocking@ == orig_chunks,
                kept_sum == unlocking_sum(kept@),
                0 <= drained_c,
                kept_sum + drained_c == unlocking_sum(orig_chunks.take(i as int)),
                unlocking_sum(orig_chunks.take(i as int)) <= unlocking_sum(orig_chunks),
                kept@.len() <= i,
                forall|j: int| 0 <= j < kept@.len() ==> (#[trigger] kept@[j]).value > 0,
                kept@ + slash_chunks(orig_chunks.skip(i as int), cur_value as int, mb).0
                    == slash_chunks(orig_chunks, v_after_active, mb).0,
                drained_c + slash_chunks(orig_chunks.skip(i as int), cur_value as int, mb).1
                    == slash_chunks(orig_chunks, v_after_active, mb).1,
            decreases n - i,
        {
            let c = self.unlocking[i];
            proof {
                lemma_unlocking_sum_take(orig_chunks, i as int + 1);
                assert(orig_chunks.take(i as int + 1).drop_last() =~= orig_chunks.take(i as int));
                assert(unlocking_sum(orig_chunks.take(i as int + 1)) == unlocking_sum(
                    orig_chunks.take(i as int),
                ) + c.value);
                assert(orig_chunks.skip(i as int)[0] == c);
                assert(orig_chunks.skip(i as int).skip(1) =~= orig_chunks.skip(i as int + 1));
            }
            let ghost pre_kept = kept@;
            let ghost pre_cur = cur_value as int;
            let sft: u128 = if cur_value < c.value { cur_value } else { c.value };
            if sft == 0 {
                let ghost k0 = kept@;
                kept.push(c);
                proof {
                    assert(kept@.drop_last() =~= k0);
                }
                kept_sum = kept_sum + c.value;
            } else {
                let rem = c.value - sft;
                if rem <= minimum_balance {
                    drained_c = drained_c + c.value;
                    cur_value = cur_value - sft;
                } else {
                    drained_c = drained_c + sft;
                    cur_value = cur_value - sft;
                    let ghost k0 = kept@;
                    kept.push(UnlockChunk { value: rem, era: c.era });
                    proof {
                        assert(kept@.drop_last() =~= k0);
                    }
                    kept_sum = kept_sum + rem;
                }
            }
            proof {
                let rest = slash_chunks(orig_chunks.skip(i as int), pre_cur, mb);
                let d = drained_amount(c.value as int, pre_cur, mb);
                assert(request_after(c.value as int, pre_cur) == cur_value as int);
                if c.value as int == d {
                    assert(kept@ == pre_kept);
                    assert(rest.0 == slash_chunks(orig_chunks.skip(i as int + 1),
                        cur_value as int, mb).0);
                } else {
                    assert(kept@ == pre_kept.push(
                        UnlockChunk { value: (c.value - d) as u128, era: c.era },
                    ));
                    assert(rest.0 =~= seq![
                        UnlockChunk { value: (c.value - d) as u128, era: c.era },
                    ] + slash_chunks(orig_chunks.skip(i as int + 1), cur_value as int, mb).0);
                    assert(kept@ + slash_chunks(orig_chunks.skip(i as int + 1), cur_value as int,
                        mb).0 =~= pre_kept + rest.0);
                }
            }
            i += 1;
        }
        proof {
            assert(orig_chunks.take(n as int) =~= orig_chunks);
            assert(orig_chunks.skip(n as int) =~= Seq::<UnlockChunk>::empty());
            assert(kept@ + Seq::<UnlockChunk>::empty() =~= kept@);
        }
        self.unlocking = kept;
        self.total = self.active + kept_sum;
        drained_a + drained_c
    }

    /// Move up to `value` of the active stake into a fresh unlocking chunk
    /// maturing at `era`.  When the remaining active stake would fall below
    /// the currency minimum it is fully zeroed, the dust absorbed into the
    /// unbonded amount.  Returns the amount actually unbonded.
    pub fn unbond_chunk(&mut self, value: u128, minimum_balance: u128, era: EraIndex) -> (r: u128)
        requires
            old(self).wf(),
            old(self).unlocking@.len() < MAX_UNLOCKING_CHUNKS,
        ensures
            final(self).wf(),
            final(self).stash == old(self).stash,
            final(self).last_reward == old(self).last_reward,
            final(self).total == old(self).total,
            r == unbonded_amount(old(self).active as int, value as int, minimum_balance as int),
            final(self).active == old(self).active - r,
            r > 0 ==> final(self).unlocking@ == old(self).unlocking@.push(
                UnlockChunk { value: r, era },
            ),
            r == 0 ==> *final(self) == *old(self),
    {
        let v: u128 = if value < self.active { value } else { self.active };
        if v == 0 {
            return 0;
        }
        let mut unbonded = v;
        self.active = self.active - v;
        if self.active < minimum_balance {
            unbonded = unbonded + self.active;
            self.active = 0;
        }
        let chunk = UnlockChunk { value: unbonded, era };
        self.unlocking.push(chunk);
        proof {
            assert(self.unlocking@.drop_last() =~= old(self).unlocking@);
            assert(unlocking_sum(self.unlocking@) == unlocking_sum(old(self).unlocking@)
                + unbonded);
        }
        unbonded
    }
}

} // verus!
