//! The ways in which a well-formed equation can fail to balance.

use vstd::prelude::*;

verus! {

/// Why an equation was not balanced.
#[derive(Debug, Clone, Copy, PartialEq, Eq, Structural)]
pub enum BalancerError {
    /// Only the coefficient vector of zeros balances the equation.
    AllCoefficientsAreZero,
    /// The coefficients found do not balance every element, or could not be
    /// found within 32-bit arithmetic.
    CoefficientsAreIncorrectlyPlaced,
    /// The number of coefficients differs from the number of entities.
    MismatchInNumberOfCoefficients,
    /// The equation leaves more than one ratio of coefficients open.
    ReactionCanBeEqualizedInInfiniteNumberOfWays,
}

impl BalancerError {
    /// The text that describes each kind of error.
    pub open spec fn description(self) -> Seq<char> {
        match self {
            Self::AllCoefficientsAreZero => "All coefficients are zero."@,
            Self::CoefficientsAreIncorrectlyPlaced => "The coefficients are incorrectly placed."@,
            Self::MismatchInNumberOfCoefficients => "Mismatch in the number of coefficients."@,
            Self::ReactionCanBeEqualizedInInfiniteNumberOfWays =>
                "The reaction can be equalized in an infinite number of ways."@,
        }
    }

    /// Returns the description.
    pub fn get_description(&self) -> (description: &'static str)
        ensures
            description@ == self.description(),
    {
        match self {
            Self::AllCoefficientsAreZero => "All coefficients are zero.",
            Self::CoefficientsAreIncorrectlyPlaced => "The coefficients are incorrectly placed.",
            Self::MismatchInNumberOfCoefficients => "Mismatch in the number of coefficients.",
            Self::ReactionCanBeEqualizedInInfiniteNumberOfWays =>
                "The reaction can be equalized in an infinite number of ways.",
        }
    }
}

} // verus!
