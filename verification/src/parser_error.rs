//! The ways in which a text can fail to be an equation.
//!
//! Indices count characters from the start of the text.

use vstd::prelude::*;

verus! {

/// Why a text was not parsed.
#[derive(Debug, Clone, Copy, PartialEq, Eq, Structural)]
pub enum ParserError {
    /// A token was taken where the text had already ended.
    AdvancingBeyondLastToken,
    /// After `{` neither a number nor a sign follows.
    ChargeOrChargeSignIsExpected { start_index: usize },
    /// After the magnitude of a charge no `+` or `-` follows.
    ChargeSignIsExpected { start_index: usize },
    /// After the sign of a charge no `}` follows.
    ClosingBracketAfterChargeIsExpected { start_index: usize },
    /// An entity holds `e` together with elements or groups.
    ElectronNeedsToStandAlone { start_index: usize, end_index: usize },
    /// Inside a group something else than an element, a group or `)` stands.
    ElementGroupOrClosingBracketIsExpected { start_index: usize },
    /// An element was asked for where no element symbol stands.
    ElementIsNotParsed,
    /// A group holds nothing between its parentheses.
    EmptyGroup { start_index: usize, end_index: usize },
    /// An entity holds neither an element nor a group nor `e`.
    EntityIsExpected { start_index: usize, end_index: usize },
    /// An electron carries a charge other than one negative unit.
    InvalidChargeForElectron { start_index: usize, end_index: usize },
    /// No token starts at this character.
    InvalidSymbol { start_index: usize },
    /// A number stands where an element, a group or `e` has to start, or a
    /// count or the magnitude of a charge is zero.
    NumberIsNotExpected { start_index: usize },
    /// A number does not fit the range of a count or of a charge, or the
    /// atoms of an entity cannot be counted in 32 bits.
    NumberIsTooLarge,
    /// After a product something else than `+` or the end of the text follows.
    PlusSignOrEndIsExpected { start_index: usize },
    /// After a reactant something else than `+` or `=` follows.
    PlusSignOrEqualSignIsExpected { start_index: usize },
    /// The token taken is not the one that was asked for.
    TokenDoesNotMatchString,
}

impl ParserError {
    /// The text that describes each kind of error.
    pub open spec fn description(self) -> Seq<char> {
        match self {
            Self::AdvancingBeyondLastToken => "Advancing beyond the last token."@,
            Self::ChargeOrChargeSignIsExpected { .. } => "The charge or charge sign is expected."@,
            Self::ChargeSignIsExpected { .. } => "The charge sign is expected."@,
            Self::ClosingBracketAfterChargeIsExpected { .. } =>
                "The closing bracket after the charge is expected."@,
            Self::ElectronNeedsToStandAlone { .. } => "An electron needs to stand alone."@,
            Self::ElementGroupOrClosingBracketIsExpected { .. } =>
                "The element, group, or closing bracket is expected."@,
            Self::ElementIsNotParsed => "The element is not parsed."@,
            Self::EmptyGroup { .. } => "Empty group."@,
            Self::EntityIsExpected { .. } => "The entity is expected."@,
            Self::InvalidChargeForElectron { .. } => "Invalid charge for an electron."@,
            Self::InvalidSymbol { .. } => "Invalid symbol."@,
            Self::NumberIsNotExpected { .. } => "The number is not expected."@,
            Self::NumberIsTooLarge => "The number is too large."@,
            Self::PlusSignOrEndIsExpected { .. } => "The plus sign or end is expected."@,
            Self::PlusSignOrEqualSignIsExpected { .. } =>
                "The plus sign or equal sign is expected."@,
            Self::TokenDoesNotMatchString => "The token does not match the string."@,
        }
    }

    /// Returns the description.
    pub fn get_description(&self) -> (description: &'static str)
        ensures
            description@ == self.description(),
    {
        match self {
            Self::AdvancingBeyondLastToken => "Advancing beyond the last token.",
            Self::ChargeOrChargeSignIsExpected { .. } => "The charge or charge sign is expected.",
            Self::ChargeSignIsExpected { .. } => "The charge sign is expected.",
            Self::ClosingBracketAfterChargeIsExpected { .. } =>
                "The closing bracket after the charge is expected.",
            Self::ElectronNeedsToStandAlone { .. } => "An electron needs to stand alone.",
            Self::ElementGroupOrClosingBracketIsExpected { .. } =>
                "The element, group, or closing bracket is expected.",
            Self::ElementIsNotParsed => "The element is not parsed.",
            Self::EmptyGroup { .. } => "Empty group.",
            Self::EntityIsExpected { .. } => "The entity is expected.",
            Self::InvalidChargeForElectron { .. } => "Invalid charge for an electron.",
            Self::InvalidSymbol { .. } => "Invalid symbol.",
            Self::NumberIsNotExpected { .. } => "The number is not expected.",
            Self::NumberIsTooLarge => "The number is too large.",
            Self::PlusSignOrEndIsExpected { .. } => "The plus sign or end is expected.",
            Self::PlusSignOrEqualSignIsExpected { .. } =>
                "The plus sign or equal sign is expected.",
            Self::TokenDoesNotMatchString => "The token does not match the string.",
        }
    }
}

} // verus!
