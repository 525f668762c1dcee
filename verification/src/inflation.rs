//! The era payout pool.
//!
//! At the end of an era the total payout is fixed, once, from the annual
//! reward curve: a piecewise linear map from the staked fraction of the
//! total issuance to an annual inflation rate, prorated by the era's
//! wall-clock share of a year.

use vstd::prelude::*;

verus! {

use crate::BILLION;
use crate::fraction::Perbill;

/// Milliseconds in a Julian year of 365.25 days.
pub const MILLISECONDS_PER_YEAR: u64 = 31_557_600_000;

/// The billionth parts of the points of a curve.
pub open spec fn curve_parts(s: Seq<(Perbill, Perbill)>) -> Seq<(int, int)> {
    s.map_values(|p: (Perbill, Perbill)| (p.0.spec_parts(), p.1.spec_parts()))
}

/// A usable reward curve: points in strictly increasing x order, every
/// coordinate a fraction of at most one.
pub open spec fn curve_wf(s: Seq<(Perbill, Perbill)>) -> bool {
    &&& forall|i: int| 0 <= i < s.len()
        ==> (#[trigger] s[i]).0.wf() && s[i].1.wf()
    &&& forall|i: int, j: int| 0 <= i < j < s.len()
        ==> (#[trigger] s[i]).0.spec_parts() < (#[trigger] s[j]).0.spec_parts()
}

/// Linear interpolation between two curve points, in billionth parts,
/// truncated toward the left point.
pub open spec fn spec_segment(x0: int, y0: int, x1: int, y1: int, p: int) -> int {
    if y1 >= y0 {
        y0 + (y1 - y0) * (p - x0) / (x1 - x0)
    } else {
        y0 - (y0 - y1) * (p - x0) / (x1 - x0)
    }
}

/// The value of a piecewise linear curve at `p`: clamped at the outer
/// points, interpolated between the two bracketing ones.
pub open spec fn spec_curve_value(pts: Seq<(int, int)>, p: int) -> int
    decreases pts.len(),
{
    if pts.len() == 0 {
        0
    } else if p <= pts[0].0 {
        pts[0].1
    } else if pts.len() == 1 {
        pts[0].1
    } else if p <= pts[1].0 {
        spec_segment(pts[0].0, pts[0].1, pts[1].0, pts[1].1, p)
    } else {
        spec_curve_value(pts.skip(1), p)
    }
}

/// Evaluate the reward curve at the fraction `p`.
pub fn curve_eval(points: &Vec<(Perbill, Perbill)>, p: Perbill) -> (r: Perbill)
    requires
        curve_wf(points@),
        p.wf(),
    ensures
        r.wf(),
        r.spec_parts() == spec_curve_value(curve_parts(points@), p.spec_parts()),
{
    let n = points.len();
    if n == 0 {
        return Perbill::zero();
    }
    if p.parts <= points[0].0.parts {
        proof {
            assert(curve_parts(points@)[0].0 == points@[0].0.spec_parts());
        }
        return points[0].1;
    }
    let mut i: usize = 0;
    proof {
        assert(curve_parts(points@).skip(0) =~= curve_parts(points@));
    }
    while i + 1 < n && p.parts > points[i + 1].0.parts
        invariant
            n == points@.len(),
            n >= 1,
            i < n,
            curve_wf(points@),
            p.wf(),
            p.spec_parts() > points@[i as int].0.spec_parts(),
            spec_curve_value(curve_parts(points@), p.spec_parts()) == spec_curve_value(
                curve_parts(points@).skip(i as int),
                p.spec_parts(),
            ),
        decreases n - i,
    {
        proof {
            let ghost cp = curve_parts(points@);
            assert(cp.skip(i as int)[0] == cp[i as int]);
            assert(cp.skip(i as int)[1] == cp[i as int + 1]);
            assert(cp.skip(i as int).skip(1) =~= cp.skip(i as int + 1));
        }
        i += 1;
    }
    proof {
        let ghost cp = curve_parts(points@);
        assert(cp.skip(i as int)[0] == cp[i as int]);
    }
    if i + 1 == n {
        // Beyond the last point: clamp to it.
        return points[n - 1].1;
    }
    // Interpolate between points i and i + 1.
    let (x0p, y0p) = (points[i].0.parts, points[i].1.parts);
    let (x1p, y1p) = (points[i + 1].0.parts, points[i + 1].1.parts);
    proof {
        let ghost cp = curve_parts(points@);
        assert(cp.skip(i as int)[1] == cp[i as int + 1]);
    }
    let dx: u32 = x1p - x0p;
    let dp: u32 = p.parts - x0p;
    proof {
        assert(points@[i as int].0.wf() && points@[i as int].1.wf());
        assert(points@[i as int + 1].0.wf() && points@[i as int + 1].1.wf());
    }
    if y1p >= y0p {
        proof {
            assert(((y1p - y0p) as int) * (dp as int) <= (BILLION as int) * (BILLION as int))
                by (nonlinear_arith)
                requires y1p - y0p <= BILLION as int, dp <= BILLION, 0 <= y1p - y0p;
        }
        let num: u64 = ((y1p - y0p) as u64) * (dp as u64);
        let add: u64 = num / (dx as u64);
        proof {
            crate::fraction::lemma_rational_parts_bounded(
                dp as int,
                dx as int,
                (y1p - y0p) as int,
            );
            assert((dp as int) * ((y1p - y0p) as int) == ((y1p - y0p) as int) * (dp as int))
                by (nonlinear_arith);
        }
        Perbill { parts: y0p + (add as u32) }
    } else {
        proof {
            assert(((y0p - y1p) as int) * (dp as int) <= (BILLION as int) * (BILLION as int))
                by (nonlinear_arith)
                requires y0p - y1p <= BILLION as int, dp <= BILLION, 0 <= y0p - y1p;
        }
        let num: u64 = ((y0p - y1p) as u64) * (dp as u64);
        let sub: u64 = num / (dx as u64);
        proof {
            crate::fraction::lemma_rational_parts_bounded(
                dp as int,
                dx as int,
                (y0p - y1p) as int,
            );
            assert((dp as int) * ((y0p - y1p) as int) == ((y0p - y1p) as int) * (dp as int))
                by (nonlinear_arith);
        }
        Perbill { parts: y0p - (sub as u32) }
    }
}

/// What [`compute_total_payout`] returns, in plain integers.
pub open spec fn spec_total_payout(
    curve: Seq<(int, int)>,
    staked: int,
    issuance: int,
    duration_ms: int,
) -> int {
    let year = MILLISECONDS_PER_YEAR as int;
    let d = if duration_ms <= year { duration_ms } else { year };
    let portion = d * (BILLION as int) / year;
    let q = if issuance == 0 { 1 } else { issuance };
    let sp = if staked <= q { staked } else { q };
    let ratio = sp * (BILLION as int) / q;
    let annual = spec_curve_value(curve, ratio);
    let inner = issuance * annual / (BILLION as int);
    inner * portion / (BILLION as int)
}

/// The total payout owed to the validator set for an era that lasted
/// `era_duration_ms`, given the stake behind the set and the total issuance
/// of the currency.
pub fn compute_total_payout(
    curve: &Vec<(Perbill, Perbill)>,
    staked: u128,
    issuance: u128,
    era_duration_ms: u64,
) -> (r: u128)
    requires
        curve_wf(curve@),
        staked <= u128::MAX / (BILLION as u128),
    ensures
        r == spec_total_payout(curve_parts(curve@), staked as int, issuance as int,
            era_duration_ms as int),
        r <= issuance,
{
    let portion = Perbill::from_rational(era_duration_ms as u128, MILLISECONDS_PER_YEAR as u128);
    let ratio = Perbill::from_rational(staked, issuance);
    let annual = curve_eval(curve, ratio);
    let inner = annual.mul_balance(issuance);
    let r = portion.mul_balance(inner);
    proof {
        assert(MILLISECONDS_PER_YEAR as int <= u128::MAX as int / (BILLION as int));
    }
    r
}

} // verus!
