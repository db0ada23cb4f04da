//! Exact rational numbers with a positive denominator.
//!
//! The pipeline represents every daily average as the quotient of an integer
//! sum by a positive sample count, and the fence multiplier as a configured
//! quotient of two integers. Comparisons between such quotients are carried
//! out exactly by cross-multiplication, so no stage depends on rounding.

use vstd::prelude::*;

verus! {

/// A rational number `num / den`. Well-formed values have `den > 0`.
#[derive(Debug, Clone, Copy, PartialEq, Eq, Structural)]
pub struct Ratio {
    pub num: i128,
    pub den: i128,
}

impl Ratio {
    /// A well-formed rational has a positive denominator.
    pub open spec fn wf(self) -> bool {
        self.den > 0
    }

    /// Builds the rational `num / den`.
    pub fn new(num: i128, den: i128) -> (r: Ratio)
        requires
            den > 0,
        ensures
            r.wf(),
            r.num == num,
            r.den == den,
    {
        Ratio { num, den }
    }
}

} // verus!
