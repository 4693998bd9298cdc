//! A fraction of two machine integers, used where a statistic is a quotient
//! of two counts.

use vstd::prelude::*;

verus! {

/// The non-negative fraction `num / den`.
#[derive(Clone, Copy, Debug, PartialEq, Eq, Structural)]
pub struct Ratio {
    pub num: usize,
    pub den: usize,
}

impl Ratio {
    /// The denominator is positive and the value lies between 0 and 1.
    pub open spec fn is_proper(self) -> bool {
        0 < self.den && self.num <= self.den
    }

    /// Returns `count / total`, or `0 / 1` when `total` is zero.
    pub fn of_counts(count: usize, total: usize) -> (r: Ratio)
        ensures
            r.num == (if total == 0 { 0 } else { count }),
            r.den == (if total == 0 { 1 } else { total }),
    {
        if total == 0 {
            Ratio { num: 0, den: 1 }
        } else {
            Ratio { num: count, den: total }
        }
    }
}

} // verus!
