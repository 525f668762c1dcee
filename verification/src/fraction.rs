//! Saturating parts-per-billion fractions.
//!
//! Commission rates, reward shares and slash fractions are all values in
//! `[0, 1]` held as a number of billionths.  Arithmetic saturates at the
//! bounds and multiplication against balances truncates, so rounding loss is
//! never manufactured into new value.

use vstd::prelude::*;

verus! {

use crate::BILLION;

/// A fraction in `[0, 1]`, stored as parts per billion.
#[derive(Clone, Copy, PartialEq, Eq, Structural, Debug)]
pub struct Perbill {
    pub parts: u32,
}

impl Perbill {
    /// The number of billionths this fraction holds.
    pub open spec fn spec_parts(self) -> int {
        self.parts as int
    }

    /// A well-formed fraction never exceeds one whole.
    pub open spec fn wf(self) -> bool {
        self.parts <= BILLION
    }

    /// The fraction with the given number of billionths, capped at one.
    pub fn from_parts(parts: u32) -> (r: Perbill)
        ensures
            r.wf(),
            r.spec_parts() == if parts <= BILLION { parts as int } else { BILLION as int },
    {
        if parts <= BILLION {
            Perbill { parts }
        } else {
            Perbill { parts: BILLION }
        }
    }

    /// The fraction `x / 100`, capped at one.
    pub fn from_percent(x: u32) -> (r: Perbill)
        ensures
            r.wf(),
            r.spec_parts() == if x <= 100 { x * 10_000_000 } else { BILLION as int },
    {
        if x <= 100 {
            Perbill { parts: x * 10_000_000 }
        } else {
            Perbill { parts: BILLION }
        }
    }

    /// Zero.
    pub fn zero() -> (r: Perbill)
        ensures
            r.wf(),
            r.spec_parts() == 0,
    {
        Perbill { parts: 0 }
    }

    /// One whole.
    pub fn one() -> (r: Perbill)
        ensures
            r.wf(),
            r.spec_parts() == BILLION as int,
    {
        Perbill { parts: BILLION }
    }

    /// Whether this fraction is zero.
    pub fn is_zero(&self) -> (r: bool)
        ensures
            r == (self.spec_parts() == 0),
    {
        self.parts == 0
    }

    /// The best approximation of `p / q` not exceeding one.
    ///
    /// A zero denominator is read as one; a numerator above the denominator
    /// is capped to it.  When `p * BILLION` fits in the balance type the
    /// result is the exact truncation of `p * BILLION / q`.
    pub fn from_rational(p: u128, q: u128) -> (r: Perbill)
        ensures
            r.wf(),
            ({
                let qq = if q == 0 { 1 as int } else { q as int };
                let pp = if p as int <= qq { p as int } else { qq };
                pp <= u128::MAX as int / (BILLION as int) ==> r.spec_parts() == pp * (
                BILLION as int) / qq
            }),
    {
        let q: u128 = if q == 0 { 1 } else { q };
        let p: u128 = if p <= q { p } else { q };
        if p <= u128::MAX / (BILLION as u128) {
            proof {
                assert((p as int) * (BILLION as int) <= (u128::MAX as int / (BILLION as int)) * (
                BILLION as int)) by (nonlinear_arith)
                    requires p as int <= u128::MAX as int / (BILLION as int);
                assert((u128::MAX as int / (BILLION as int)) * (BILLION as int)
                    <= u128::MAX as int) by (nonlinear_arith);
            }
            let parts_wide: u128 = p * (BILLION as u128) / q;
            proof {
                lemma_rational_parts_bounded(p as int, q as int, BILLION as int);
            }
            Perbill { parts: parts_wide as u32 }
        } else {
            // The numerator is astronomically large; halve both sides until
            // the product fits.  The result stays a fraction in [0, 1].
            let mut p2: u128 = p;
            let mut q2: u128 = q;
            while p2 > u128::MAX / (BILLION as u128)
                invariant
                    p2 <= q2,
                    q2 >= 1,
                decreases p2,
            {
                p2 = p2 / 2;
                q2 = q2 / 2;
                if q2 == 0 {
                    q2 = 1;
                }
            }
            let parts_wide: u128 = p2 * (BILLION as u128) / q2;
            proof {
                lemma_rational_parts_bounded(p2 as int, q2 as int, BILLION as int);
            }
            Perbill { parts: parts_wide as u32 }
        }
    }

    /// The sum, capped at one.
    pub fn saturating_add(self, other: Perbill) -> (r: Perbill)
        requires
            self.wf(),
            other.wf(),
        ensures
            r.wf(),
            r.spec_parts() == if self.spec_parts() + other.spec_parts() <= BILLION {
                self.spec_parts() + other.spec_parts()
            } else {
                BILLION as int
            },
    {
        let sum: u32 = self.parts + other.parts;
        if sum <= BILLION {
            Perbill { parts: sum }
        } else {
            Perbill { parts: BILLION }
        }
    }

    /// The difference, floored at zero.
    pub fn saturating_sub(self, other: Perbill) -> (r: Perbill)
        requires
            self.wf(),
            other.wf(),
        ensures
            r.wf(),
            r.spec_parts() == if self.spec_parts() >= other.spec_parts() {
                self.spec_parts() - other.spec_parts()
            } else {
                0
            },
    {
        if self.parts >= other.parts {
            Perbill { parts: self.parts - other.parts }
        } else {
            Perbill { parts: 0 }
        }
    }

    /// The product of two fractions, truncated.
    pub fn saturating_mul(self, other: Perbill) -> (r: Perbill)
        requires
            self.wf(),
            other.wf(),
        ensures
            r.wf(),
            r.spec_parts() == self.spec_parts() * other.spec_parts() / (BILLION as int),
    {
        proof {
            assert((self.parts as int) * (other.parts as int) <= (BILLION as int) * (BILLION as int))
                by (nonlinear_arith)
                requires self.parts <= BILLION, other.parts <= BILLION;
        }
        let wide: u64 = (self.parts as u64) * (other.parts as u64);
        let parts_wide: u64 = wide / (BILLION as u64);
        proof {
            lemma_rational_parts_bounded(self.parts as int, BILLION as int, other.parts as int);
            assert(self.parts as int * other.parts as int == other.parts as int * self.parts as int)
                by (nonlinear_arith);
        }
        Perbill { parts: parts_wide as u32 }
    }

    /// What this fraction of `v` is, truncated: `v * parts / BILLION`.
    pub fn mul_balance(self, v: u128) -> (r: u128)
        requires
            self.wf(),
        ensures
            r == (v as int) * self.spec_parts() / (BILLION as int),
            r <= v,
    {
        let b: u128 = BILLION as u128;
        let q: u128 = v / b;
        let rem: u128 = v % b;
        proof {
            lemma_mul_balance_split(v as int, self.parts as int, b as int);
        }
        proof {
            assert((rem as int) * (self.parts as int) <= (BILLION as int) * (BILLION as int))
                by (nonlinear_arith)
                requires rem < BILLION as u128, self.parts <= BILLION;
        }
        let high: u128 = q * (self.parts as u128);
        let low: u128 = rem * (self.parts as u128) / b;
        high + low
    }
}

/// For `0 <= p <= q` and `m >= 0`, the truncated product `p * m / q` lies in
/// `[0, m]`.
pub proof fn lemma_rational_parts_bounded(p: int, q: int, m: int)
    requires
        0 <= p,
        p <= q,
        1 <= q,
        0 <= m,
    ensures
        0 <= p * m / q <= m,
{
    assert(p * m <= q * m) by (nonlinear_arith)
        requires 0 <= p, p <= q, 0 <= m;
    assert(q * m / q == m) by (nonlinear_arith)
        requires 1 <= q;
    assert(p * m / q <= q * m / q) by (nonlinear_arith)
        requires 1 <= q, p * m <= q * m;
    assert(0 <= p * m) by (nonlinear_arith)
        requires 0 <= p, 0 <= m;
    assert(0 <= p * m / q) by (nonlinear_arith)
        requires 1 <= q, 0 <= p * m;
}

/// Splitting `v` at the divisor: `v * parts / b` equals
/// `(v / b) * parts + (v % b) * parts / b`, and the pieces stay in bounds.
proof fn lemma_mul_balance_split(v: int, parts: int, b: int)
    requires
        0 <= v <= u128::MAX,
        0 <= parts <= b,
        1 <= b,
    ensures
        v * parts / b == (v / b) * parts + (v % b) * parts / b,
        (v / b) * parts <= v,
        (v / b) * parts + (v % b) * parts / b <= v,
        v * parts / b <= v,
{
    let q = v / b;
    let r = v % b;
    vstd::arithmetic::div_mod::lemma_fundamental_div_mod(v, b);
    vstd::arithmetic::div_mod::lemma_mod_bound(v, b);
    vstd::arithmetic::div_mod::lemma_div_pos_is_pos(v, b);
    assert(v == b * q + r);
    assert(q * b == b * q) by (nonlinear_arith);
    assert(v * parts == r * parts + (q * parts) * b) by (nonlinear_arith)
        requires v == q * b + r;
    assert(0 <= r * parts) by (nonlinear_arith)
        requires 0 <= r, 0 <= parts;
    vstd::arithmetic::div_mod::lemma_hoist_over_denominator(r * parts, q * parts, b as nat);
    assert(v * parts / b == q * parts + r * parts / b);
    lemma_rational_parts_bounded(parts, b, v);
    assert(v * parts == parts * v) by (nonlinear_arith);
    assert(parts * v / b <= v);
    assert(v * parts / b <= v);
    assert(q * parts <= q * parts + r * parts / b) by {
        assert(0 <= r * parts / b) by (nonlinear_arith)
            requires 1 <= b, 0 <= r * parts;
    }
}

} // verus!
