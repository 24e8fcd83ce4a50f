//! The tolerance value: a fraction of the shorter string's length allowed as
//! edit distance.

use vstd::prelude::*;

verus! {

/// A rational tolerance `num / den`.  A usable tolerance denotes a value in
/// the closed interval [0, 1] with a positive denominator; any other value is
/// rejected by validation at the entry point.
#[derive(Clone, Copy, PartialEq, Eq, Structural, Debug)]
pub struct Fraction {
    /// Numerator; may be negative, in which case the fraction is invalid.
    pub num: i64,
    /// Denominator; must be positive for the fraction to be valid.
    pub den: i64,
}

impl Fraction {
    /// The fraction denotes a value in [0, 1] with a positive denominator.
    pub open spec fn is_valid(self) -> bool {
        0 < self.den && 0 <= self.num <= self.den
    }

    /// Build the fraction `num / den`.
    pub fn new(num: i64, den: i64) -> (r: Fraction)
        ensures
            r == (Fraction { num, den }),
    {
        Fraction { num, den }
    }

    /// Whether the fraction is a usable tolerance.
    pub fn valid(&self) -> (r: bool)
        ensures
            r == self.is_valid(),
    {
        0 < self.den && 0 <= self.num && self.num <= self.den
    }
}

} // verus!
