//! The validator election.
//!
//! A sequential weighted election: candidates are ranked by approval stake
//! (their own stake plus the stake of every voter listing them) and up to the
//! configured number of winners is chosen, best first.  Each voter's stake is
//! then split evenly over its winning targets to build the support that backs
//! each winner.  The internal ranking and tie-breaking are deliberately not
//! part of the contract, so they stay swappable; what is promised is the
//! shape of the result: distinct winners drawn from the candidates, each
//! backed by its full own stake and by backer allocations that never exceed
//! the backers' stakes.

use vstd::prelude::*;

verus! {

/// An election candidate: a validator stash with its own slashable stake.
#[derive(Clone, Copy, PartialEq, Eq, Structural, Debug)]
pub struct Candidate {
    /// The candidate's stash account.
    pub who: u64,
    /// The candidate's own slashable stake, its self-vote.
    pub stake: u128,
}

/// A voter: a nominator with its slashable stake and chosen targets.
#[derive(Clone, Debug)]
pub struct Voter {
    /// The voter's stash account.
    pub who: u64,
    /// The voter's slashable stake.
    pub stake: u128,
    /// The candidates this voter backs.
    pub targets: Vec<u64>,
}

/// The support behind one winner.
#[derive(Clone, Debug)]
pub struct Support {
    /// The winner's stash account.
    pub who: u64,
    /// The winner's own stake: its self-vote, always fully allocated.
    pub own: u128,
    /// Each backer and the portion of its stake allocated to this winner.
    pub backers: Vec<(u64, u128)>,
}

/// The outcome of a feasible election.
pub struct ElectionOutcome {
    /// The winning validator stashes, in selection order.
    pub winners: Vec<u64>,
    /// The support behind each winner, in the same order.
    pub supports: Vec<Support>,
}

/// The sum of the candidates' own stakes.
pub open spec fn candidates_stake_sum(s: Seq<Candidate>) -> int
    decreases s.len(),
{
    if s.len() == 0 {
        0
    } else {
        candidates_stake_sum(s.drop_last()) + s.last().stake
    }
}

/// The sum of the voters' stakes.
pub open spec fn voters_stake_sum(s: Seq<Voter>) -> int
    decreases s.len(),
{
    if s.len() == 0 {
        0
    } else {
        voters_stake_sum(s.drop_last()) + s.last().stake
    }
}

/// The sum of the allocations of a backer list.
pub open spec fn backer_sum(s: Seq<(u64, u128)>) -> int
    decreases s.len(),
{
    if s.len() == 0 {
        0
    } else {
        backer_sum(s.drop_last()) + s.last().1
    }
}

/// Partial candidate stake sums never exceed the whole, and sums are never
/// negative.
pub proof fn lemma_candidates_stake_sum_take(s: Seq<Candidate>, i: int)
    requires
        0 <= i <= s.len(),
    ensures
        0 <= candidates_stake_sum(s.take(i)) <= candidates_stake_sum(s),
    decreases s.len() - i,
{
    lemma_candidates_stake_sum_nonneg(s.take(i));
    assert(s.take(s.len() as int) =~= s);
    if i < s.len() {
        lemma_candidates_stake_sum_take(s, i + 1);
        assert(s.take(i + 1).drop_last() =~= s.take(i));
        assert(s.take(i + 1).last() == s[i]);
    }
}

/// The sum of candidate stakes is never negative.
pub proof fn lemma_candidates_stake_sum_nonneg(s: Seq<Candidate>)
    ensures
        0 <= candidates_stake_sum(s),
    decreases s.len(),
{
    if s.len() > 0 {
        lemma_candidates_stake_sum_nonneg(s.drop_last());
    }
}

/// Partial voter stake sums never exceed the whole, and sums are never
/// negative.
pub proof fn lemma_voters_stake_sum_take(s: Seq<Voter>, i: int)
    requires
        0 <= i <= s.len(),
    ensures
        0 <= voters_stake_sum(s.take(i)) <= voters_stake_sum(s),
    decreases s.len() - i,
{
    lemma_voters_stake_sum_nonneg(s.take(i));
    assert(s.take(s.len() as int) =~= s);
    if i < s.len() {
        lemma_voters_stake_sum_take(s, i + 1);
        assert(s.take(i + 1).drop_last() =~= s.take(i));
        assert(s.take(i + 1).last() == s[i]);
    }
}

/// The sum of voter stakes is never negative.
pub proof fn lemma_voters_stake_sum_nonneg(s: Seq<Voter>)
    ensures
        0 <= voters_stake_sum(s),
    decreases s.len(),
{
    if s.len() > 0 {
        lemma_voters_stake_sum_nonneg(s.drop_last());
    }
}

/// A single candidate's stake is bounded by the sum over all candidates.
pub proof fn lemma_candidate_stake_le_sum(s: Seq<Candidate>, i: int)
    requires
        0 <= i < s.len(),
    ensures
        s[i].stake <= candidates_stake_sum(s),
    decreases s.len(),
{
    lemma_candidates_stake_sum_nonneg(s.drop_last());
    if i == s.len() - 1 {
    } else {
        lemma_candidate_stake_le_sum(s.drop_last(), i);
    }
}

/// What a feasible election promises of its outcome.
pub open spec fn outcome_ok(
    r: ElectionOutcome,
    validator_count: u32,
    candidates: Seq<Candidate>,
    voters: Seq<Voter>,
) -> bool {
    // As many winners as asked for, capped by the candidate pool.
    &&& r.winners@.len() == if validator_count as int <= candidates.len() {
        validator_count as int
    } else {
        candidates.len() as int
    }
    // Winners are distinct.
    &&& (forall|i: int, j: int|
        0 <= i < j < r.winners@.len() ==> r.winners@[i] != r.winners@[j])
    // One support per winner, in order.
    &&& r.supports@.len() == r.winners@.len()
    &&& (forall|i: int| 0 <= i < r.supports@.len()
        ==> (#[trigger] r.supports@[i]).who == r.winners@[i])
    // Every winner is a candidate and is backed by its full own stake.
    &&& (forall|i: int| 0 <= i < r.supports@.len() ==> exists|ci: int|
        0 <= ci < candidates.len() && candidates[ci].who == (#[trigger] r.supports@[i]).who
            && r.supports@[i].own == candidates[ci].stake)
    // No single support exceeds the total stake in play.
    &&& (forall|i: int| 0 <= i < r.supports@.len()
        ==> (#[trigger] r.supports@[i]).own + backer_sum(r.supports@[i].backers@)
            <= candidates_stake_sum(candidates) + voters_stake_sum(voters))
    // Every backer allocation is covered by some voter's stake, and that
    // voter listed the winner among its targets.
    &&& (forall|i: int, j: int|
        0 <= i < r.supports@.len() && 0 <= j < r.supports@[i].backers@.len()
            ==> exists|vi: int| 0 <= vi < voters.len()
                && voters[vi].who == (#[trigger] r.supports@[i].backers@[j]).0
                && r.supports@[i].backers@[j].1 <= voters[vi].stake
                && voters[vi].targets@.contains(r.supports@[i].who))
    // Backer sums individually stay within the voters' total stake.
    &&& (forall|i: int| 0 <= i < r.supports@.len()
        ==> backer_sum((#[trigger] r.supports@[i]).backers@) <= voters_stake_sum(voters))
}

/// Saturating addition on balances.
fn sat_add(a: u128, b: u128) -> (r: u128)
    ensures
        r == if a + b <= u128::MAX { a + b } else { u128::MAX as int },
{
    if a <= u128::MAX - b {
        a + b
    } else {
        u128::MAX
    }
}

/// Whether `v` holds `x`.
pub fn account_listed(v: &Vec<u64>, x: u64) -> (r: bool)
    ensures
        r == v@.contains(x),
{
    let n = v.len();
    let mut i: usize = 0;
    while i < n
        invariant
            n == v@.len(),
            i <= n,
            forall|j: int| 0 <= j < i ==> v@[j] != x,
        decreases n - i,
    {
        if v[i] == x {
            return true;
        }
        i += 1;
    }
    proof {
        if v@.contains(x) {
            let w = choose|w: int| 0 <= w < v@.len() && v@[w] == x;
            assert(false);
        }
    }
    false
}

/// Elect up to `validator_count` winners out of `candidates`, weighted by
/// the voters' stakes.  Fails, returning nothing, exactly when fewer
/// candidates exist than the minimum the engine insists on (at least one).
pub fn elect(
    validator_count: u32,
    minimum_validator_count: u32,
    candidates: &Vec<Candidate>,
    voters: &Vec<Voter>,
) -> (r: Option<ElectionOutcome>)
    requires
        candidates_stake_sum(candidates@) + voters_stake_sum(voters@) <= u128::MAX,
        forall|i: int, j: int|
            0 <= i < j < candidates@.len() ==> candidates@[i].who != candidates@[j].who,
    ensures
        r.is_some() == (candidates@.len() >= (if minimum_validator_count >= 1 {
            minimum_validator_count as int
        } else {
            1
        })),
        r.is_some() ==> outcome_ok(r.unwrap(), validator_count, candidates@, voters@),
{
    let min_needed: u32 = if minimum_validator_count >= 1 { minimum_validator_count } else { 1 };
    let n = candidates.len();
    if n < min_needed as usize {
        return None;
    }

    // Approval stake per candidate: own stake plus the stake of every voter
    // listing it.  Scores only rank; they may saturate.
    let mut scores: Vec<u128> = Vec::new();
    let mut ci: usize = 0;
    while ci < n
        invariant
            n == candidates@.len(),
            ci <= n,
            scores@.len() == ci,
        decreases n - ci,
    {
        let cand = candidates[ci];
        let mut s: u128 = cand.stake;
        let nv = voters.len();
        let mut vi: usize = 0;
        while vi < nv
            invariant
                nv == voters@.len(),
                vi <= nv,
            decreases nv - vi,
        {
            if account_listed(&voters[vi].targets, cand.who) {
                s = sat_add(s, voters[vi].stake);
            }
            vi += 1;
        }
        scores.push(s);
        ci += 1;
    }

    // Pick winners best-score-first; the first index wins ties.
    let to_elect: usize = if (validator_count as usize) < n { validator_count as usize } else { n };
    let mut taken: Vec<bool> = Vec::new();
    let mut i: usize = 0;
    while i < n
        invariant
            i <= n,
            taken@.len() == i,
            forall|j: int| 0 <= j < i ==> !(#[trigger] taken@[j]),
        decreases n - i,
    {
        taken.push(false);
        i += 1;
    }

    let mut winners: Vec<u64> = Vec::new();
    let mut winner_stakes: Vec<u128> = Vec::new();
    let ghost mut winner_idx: Seq<int> = Seq::empty();
    let mut round: usize = 0;
    while round < to_elect
        invariant
            n == candidates@.len(),
            scores@.len() == n,
            to_elect <= n,
            taken@.len() == n,
            round <= to_elect,
            winners@.len() == round,
            winner_stakes@.len() == round,
            winner_idx.len() == round,
            forall|a: int| 0 <= a < round ==> {
                &&& 0 <= #[trigger] winner_idx[a] < n
                &&& taken@[winner_idx[a]]
                &&& winners@[a] == candidates@[winner_idx[a]].who
                &&& winner_stakes@[a] == candidates@[winner_idx[a]].stake
            },
            forall|a: int, b: int| 0 <= a < b < round ==> winner_idx[a] != winner_idx[b],
            // Exactly the winner positions are taken.
            forall|j: int| 0 <= j < n && #[trigger] taken@[j]
                ==> exists|a: int| 0 <= a < round && winner_idx[a] == j,
        decreases to_elect - round,
    {
        // Find the best untaken candidate; one must exist since fewer than
        // `n` are taken.
        let mut best: usize = 0;
        let mut best_found: bool = false;
        let mut j: usize = 0;
        while j < n
            invariant
                n == candidates@.len(),
                scores@.len() == n,
                taken@.len() == n,
                j <= n,
                best_found ==> best < n && !taken@[best as int],
                !best_found ==> forall|x: int| 0 <= x < j ==> #[trigger] taken@[x],
            decreases n - j,
        {
            if !taken[j] {
                if !best_found {
                    best = j;
                    best_found = true;
                } else if scores[j] > scores[best] {
                    best = j;
                }
            }
            j += 1;
        }
        if !best_found {
            // Fewer rounds than candidates have run, so an untaken slot is
            // left; yet the scan saw every slot taken.  The context is
            // impossible, and the rest of this round is unreachable.
            proof {
                lemma_untaken_slot_exists(taken@, winner_idx, round as int);
                let j = choose|j: int| 0 <= j < taken@.len() && !taken@[j];
            }
        }
        let w = candidates[best];
        let ghost taken0 = taken@;
        taken.remove(best);
        taken.insert(best, true);
        winners.push(w.who);
        winner_stakes.push(w.stake);
        proof {
            assert(taken@ =~= taken0.update(best as int, true));
            let ghost wi_old = winner_idx;
            winner_idx = winner_idx.push(best as int);
            assert forall|j: int| 0 <= j < n && #[trigger] taken@[j] implies
                exists|a: int| 0 <= a < round + 1 && winner_idx[a] == j by {
                if j == best as int {
                    assert(winner_idx[round as int] == j);
                } else {
                    assert(taken0[j]);
                    let a = choose|a: int| 0 <= a < round && wi_old[a] == j;
                    assert(winner_idx[a] == j);
                }
            }
        }
        round += 1;
    }

    // Build the support behind each winner.
    let mut supports: Vec<Support> = Vec::new();
    let mut wi: usize = 0;
    while wi < to_elect
        invariant
            n == candidates@.len(),
            to_elect <= n,
            winners@.len() == to_elect,
            winner_stakes@.len() == to_elect,
            winner_idx.len() == to_elect,
            forall|a: int| 0 <= a < to_elect ==> {
                &&& 0 <= #[trigger] winner_idx[a] < n
                &&& winners@[a] == candidates@[winner_idx[a]].who
                &&& winner_stakes@[a] == candidates@[winner_idx[a]].stake
            },
            candidates_stake_sum(candidates@) + voters_stake_sum(voters@) <= u128::MAX,
            wi <= to_elect,
            supports@.len() == wi,
            forall|a: int| 0 <= a < wi ==> {
                &&& (#[trigger] supports@[a]).who == winners@[a]
                &&& supports@[a].own == winner_stakes@[a]
                &&& backer_sum(supports@[a].backers@) <= voters_stake_sum(voters@)
            },
            forall|a: int, j: int|
                0 <= a < wi && 0 <= j < supports@[a].backers@.len()
                    ==> exists|vi: int| 0 <= vi < voters@.len()
                        && voters@[vi].who == (#[trigger] supports@[a].backers@[j]).0
                        && supports@[a].backers@[j].1 <= voters@[vi].stake
                        && voters@[vi].targets@.contains(supports@[a].who),
        decreases to_elect - wi,
    {
        let target = winners[wi];
        let mut backers: Vec<(u64, u128)> = Vec::new();
        let mut backers_total: u128 = 0;
        let nv = voters.len();
        let mut vi: usize = 0;
        proof {
            lemma_voters_stake_sum_take(voters@, 0);
            assert(voters@.take(0) =~= Seq::<Voter>::empty());
        }
        while vi < nv
            invariant
                n == candidates@.len(),
                nv == voters@.len(),
                vi <= nv,
                candidates_stake_sum(candidates@) + voters_stake_sum(voters@) <= u128::MAX,
                backers_total == backer_sum(backers@),
                backers_total <= voters_stake_sum(voters@.take(vi as int)),
                voters_stake_sum(voters@.take(vi as int)) <= voters_stake_sum(voters@),
                forall|j: int| 0 <= j < backers@.len() ==> exists|x: int|
                    0 <= x < voters@.len() && voters@[x].who == (#[trigger] backers@[j]).0
                        && backers@[j].1 <= voters@[x].stake
                        && voters@[x].targets@.contains(target),
            decreases nv - vi,
        {
            let v = &voters[vi];
            proof {
                lemma_voters_stake_sum_take(voters@, vi as int + 1);
                assert(voters@.take(vi as int + 1).drop_last() =~= voters@.take(vi as int));
                assert(voters@.take(vi as int + 1).last() == voters@[vi as int]);
            }
            if account_listed(&v.targets, target) {
                // Count how many of this voter's targets won at all.
                let nt = v.targets.len();
                let mut wt: usize = 0;
                let mut ti: usize = 0;
                while ti < nt
                    invariant
                        nt == v.targets@.len(),
                        ti <= nt,
                        wt <= ti,
                    decreases nt - ti,
                {
                    if account_listed(&winners, v.targets[ti]) {
                        wt += 1;
                    }
                    ti += 1;
                }
                if wt > 0 {
                    let alloc: u128 = v.stake / (wt as u128);
                    proof {
                        vstd::arithmetic::div_mod::lemma_div_is_ordered_by_denominator(
                            v.stake as int,
                            1,
                            wt as int,
                        );
                        assert(v.stake as int / 1 == v.stake as int)
                            by (nonlinear_arith);
                    }
                    if alloc > 0 {
                        let ghost b0 = backers@;
                        proof {
                            lemma_candidates_stake_sum_nonneg(candidates@);
                        }
                        backers.push((v.who, alloc));
                        backers_total = backers_total + alloc;
                        proof {
                            assert(backers@.drop_last() =~= b0);
                            assert forall|j: int| 0 <= j < backers@.len() implies exists|x: int|
                                0 <= x < voters@.len()
                                    && voters@[x].who == (#[trigger] backers@[j]).0
                                    && backers@[j].1 <= voters@[x].stake
                                    && voters@[x].targets@.contains(target) by {
                                if j < backers@.len() - 1 {
                                    assert(backers@[j] == b0[j]);
                                } else {
                                    assert(voters@[vi as int].who == backers@[j].0
                                        && backers@[j].1 <= voters@[vi as int].stake
                                        && voters@[vi as int].targets@.contains(target));
                                }
                            }
                        }
                    }
                }
            }
            vi += 1;
        }
        proof {
            assert(voters@.take(nv as int) =~= voters@);
        }
        let own = winner_stakes[wi];
        proof {
            lemma_candidate_stake_le_sum(candidates@, winner_idx[wi as int]);
            lemma_voters_stake_sum_nonneg(voters@);
            lemma_candidates_stake_sum_nonneg(candidates@);
        }
        supports.push(Support { who: target, own, backers });
        wi += 1;
    }

    let outcome = ElectionOutcome { winners, supports };
    proof {
        assert forall|a: int, b: int|
            0 <= a < b < outcome.winners@.len() implies
            outcome.winners@[a] != outcome.winners@[b] by {
            let ia = winner_idx[a];
            let ib = winner_idx[b];
            assert(ia != ib);
            if ia < ib {
                assert(candidates@[ia].who != candidates@[ib].who);
            } else {
                assert(candidates@[ib].who != candidates@[ia].who);
            }
        }
        assert forall|i: int| 0 <= i < outcome.supports@.len() implies exists|ci: int|
            0 <= ci < candidates@.len() && candidates@[ci].who == (#[trigger] outcome.supports@[i]).who
                && outcome.supports@[i].own == candidates@[ci].stake by {
            let ci = winner_idx[i];
            assert(0 <= ci < candidates@.len() && candidates@[ci].who == outcome.supports@[i].who
                && outcome.supports@[i].own == candidates@[ci].stake);
        }
        assert forall|i: int| 0 <= i < outcome.supports@.len() implies
            (#[trigger] outcome.supports@[i]).own + backer_sum(outcome.supports@[i].backers@)
                <= candidates_stake_sum(candidates@) + voters_stake_sum(voters@) by {
            lemma_candidate_stake_le_sum(candidates@, winner_idx[i]);
        }
    }
    Some(outcome)
}

/// When each taken slot is claimed by one of `round` rounds and more than
/// `round` slots exist, some slot is still untaken: a range of `round`
/// values cannot cover all the slots.
pub(crate) proof fn lemma_untaken_slot_exists(taken: Seq<bool>, winner_idx: Seq<int>, round: int)
    requires
        winner_idx.len() == round,
        0 <= round < taken.len(),
        forall|j: int| 0 <= j < taken.len() && #[trigger] taken[j]
            ==> exists|a: int| 0 <= a < round && winner_idx[a] == j,
        forall|a: int| 0 <= a < round ==> 0 <= #[trigger] winner_idx[a] < taken.len(),
    ensures
        exists|j: int| 0 <= j < taken.len() && !taken[j],
{
    if forall|j: int| 0 <= j < taken.len() ==> #[trigger] taken[j] {
        let f = |a: int| winner_idx[a];
        let claimed = vstd::set_lib::set_int_range(0, round);
        let slots = vstd::set_lib::set_int_range(0, taken.len() as int);
        let image = claimed.map(f);
        vstd::set_lib::lemma_int_range(0, round);
        vstd::set_lib::lemma_int_range(0, taken.len() as int);
        vstd::set_lib::lemma_map_size_bound(claimed, image, f);
        assert forall|j: int| slots.contains(j) implies image.contains(j) by {
            assert(taken[j]);
            let a = choose|a: int| 0 <= a < round && winner_idx[a] == j;
            assert(claimed.contains(a) && f(a) == j);
        }
        vstd::set_lib::lemma_len_subset(slots, image);
    }
}

} // verus!
