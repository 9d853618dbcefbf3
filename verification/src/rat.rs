//! Exact rational amounts.
//!
//! A `Rat` is a signed ratio of two arbitrary-precision naturals. The
//! engine never reduces fractions: equality, ordering and the arithmetic
//! relations between rationals are all stated by cross-multiplication
//! over the denoted numerator and denominator.

use vstd::prelude::*;
use crate::bignat::BigNat;

verus! {

/// An exact rational number: `num / den`, negated when `neg` is set.
pub struct Rat {
    pub neg: bool,
    pub num: BigNat,
    pub den: BigNat,
}

/// The signed numerator of `r` as a mathematical integer.
pub open spec fn rnum(r: Rat) -> int {
    if r.neg {
        -(r.num@ as int)
    } else {
        r.num@ as int
    }
}

/// The denominator of `r` as a mathematical integer.
pub open spec fn rden(r: Rat) -> int {
    r.den@ as int
}

/// Well-formed: the denominator is positive.
pub open spec fn rat_wf(r: Rat) -> bool {
    rden(r) > 0
}

/// `x` and `y` denote the same number.
pub open spec fn rat_eq(x: Rat, y: Rat) -> bool {
    rnum(x) * rden(y) == rnum(y) * rden(x)
}

/// `x` denotes a strictly smaller number than `y` (read under `rat_wf`
/// of both sides).
pub open spec fn rat_lt(x: Rat, y: Rat) -> bool {
    rnum(x) * rden(y) < rnum(y) * rden(x)
}

/// `s` denotes exactly the sum of `x` and `y`.
pub open spec fn rat_is_sum(x: Rat, y: Rat, s: Rat) -> bool {
    (rnum(x) * rden(y) + rnum(y) * rden(x)) * rden(s) == rnum(s) * (rden(x) * rden(y))
}

/// `d` denotes exactly the difference `x - y`.
pub open spec fn rat_is_diff(x: Rat, y: Rat, d: Rat) -> bool {
    (rnum(x) * rden(y) - rnum(y) * rden(x)) * rden(d) == rnum(d) * (rden(x) * rden(y))
}

impl Rat {
    /// Builds `num / den` from machine integers, negative when `neg` is set.
    pub fn new_frac(neg: bool, num: u64, den: u64) -> (r: Rat)
        requires
            den > 0,
        ensures
            rat_wf(r),
            rden(r) == den,
            rnum(r) == (if neg {
                -(num as int)
            } else {
                num as int
            }),
    {
        Rat { neg, num: BigNat::from_u64(num), den: BigNat::from_u64(den) }
    }

    /// An identical copy.
    pub fn duplicate(&self) -> (r: Rat)
        ensures
            rnum(r) == rnum(*self),
            rden(r) == rden(*self),
    {
        Rat { neg: self.neg, num: self.num.duplicate(), den: self.den.duplicate() }
    }
}

} // verus!
