use chem_balancer::balancer::Balancer;
use chem_balancer::balancer_error::BalancerError;
use chem_balancer::parser::Parser;
use chem_balancer::parser_error::ParserError;
use chem_balancer::regular_expression::RegularExpression;
use chem_balancer::text::{decimal_text, parse_u8, same_text, signed_decimal_text};

fn coefficients_of(text: &str) -> Vec<i32> {
    let mut balancer = Balancer::new(text).unwrap();
    balancer.solve_matrix().unwrap();
    let coefficients = balancer.extract_coefficients().unwrap();
    balancer.check_answer(&coefficients).unwrap();
    coefficients
}

fn greatest_common_divisor(a: i64, b: i64) -> i64 {
    if b == 0 {
        a.abs()
    } else {
        greatest_common_divisor(b, a % b)
    }
}

const EQUATIONS: [&str; 8] = [
    "H2 + O2 = H2O",
    "Fe + H2SO4 = Fe2(SO4)3 + SO2 + H2O",
    "H2O + Pb(CH3COO)2 = CH3COOH + Pb(OH)2",
    "NaOH + Cl2 + Br2 = NaBrO3 + NaCl + H2O",
    "C6H12O6 + KMnO4 + H2SO4 = CO2 + K2SO4 + MnSO4 + H2O",
    "Cr2O7{2-} + H{+} + e = Cr{3+} + H2O",
    "MnO4{-} + H{+} + Fe{2+} = Mn{2+} + Fe{3+} + H2O",
    "K4Fe(CN)6 + KMnO4 + H2SO4 = KHSO4 + Fe2(SO4)3 + MnSO4 + HNO3 + CO2 + H2O",
];

#[test]
fn coefficients_conserve_atoms_and_charge() {
    for text in EQUATIONS {
        let coefficients = coefficients_of(text);
        let equation = Parser::new(text).parse_equation().unwrap();
        for name in equation.get_elements_names() {
            let mut left: i64 = 0;
            for (i, entity) in equation.reactants.iter().enumerate() {
                left += i64::from(coefficients[i]) * i64::from(entity.count_element_by_name(&name));
            }
            let mut right: i64 = 0;
            for (i, entity) in equation.products.iter().enumerate() {
                right += i64::from(coefficients[equation.reactants.len() + i])
                    * i64::from(entity.count_element_by_name(&name));
            }
            assert_eq!(left, right, "{} in {}", name, text);
        }
        let mut left: i64 = 0;
        for (i, entity) in equation.reactants.iter().enumerate() {
            left += i64::from(coefficients[i]) * i64::from(entity.charge);
        }
        let mut right: i64 = 0;
        for (i, entity) in equation.products.iter().enumerate() {
            right += i64::from(coefficients[equation.reactants.len() + i]) * i64::from(entity.charge);
        }
        assert_eq!(left, right, "charge in {}", text);
    }
}

#[test]
fn coefficients_have_no_common_divisor() {
    for text in EQUATIONS {
        let mut divisor = 0;
        for coefficient in coefficients_of(text) {
            divisor = greatest_common_divisor(divisor, i64::from(coefficient));
        }
        assert_eq!(divisor, 1, "{}", text);
    }
}

#[test]
fn the_largest_equation_has_the_known_coefficients() {
    assert_eq!(coefficients_of(EQUATIONS[7]), vec![10, 122, 299, 162, 5, 122, 60, 60, 188]);
    assert_eq!(coefficients_of(EQUATIONS[6]), vec![1, 8, 5, 1, 5, 4]);
}

#[test]
fn one_free_ratio_is_accepted_and_two_are_not() {
    assert_eq!(coefficients_of("H2 + O2 = H2O"), vec![2, 1, 2]);
    let mut balancer = Balancer::new("H2 + O2 + C = H2O + CO2").unwrap();
    assert_eq!(
        balancer.balance_equation(),
        Err(BalancerError::ReactionCanBeEqualizedInInfiniteNumberOfWays)
    );
}

#[test]
fn the_patterns_match_at_the_start_only() {
    assert_eq!(RegularExpression::Digits.captures("120H"), Some("120".to_string()));
    assert_eq!(RegularExpression::Digits.captures("H120"), None);
    assert_eq!(RegularExpression::Digits.captures(""), None);
    assert_eq!(RegularExpression::Digits.captures("\u{663}"), None);
    assert_eq!(RegularExpression::Spaces.captures(" \t\r\n\u{b}\u{c}x "), Some(" \t\r\n\u{b}\u{c}".to_string()));
    assert_eq!(RegularExpression::Spaces.captures("\u{85}\u{1680}\u{2000}\u{200a}\u{2028}\u{2029}\u{202f}\u{205f}\u{3000}\u{200b}"),
        Some("\u{85}\u{1680}\u{2000}\u{200a}\u{2028}\u{2029}\u{202f}\u{205f}\u{3000}".to_string()));
    assert_eq!(RegularExpression::Spaces.captures("x "), None);
    assert_eq!(RegularExpression::Symbol.captures("Uuo2"), Some("Uuo".to_string()));
    assert_eq!(RegularExpression::Symbol.captures("HH"), Some("H".to_string()));
    assert_eq!(RegularExpression::Symbol.captures("hH"), None);
    assert_eq!(RegularExpression::Symbol.captures("\u{c9}a"), None);
    assert_eq!(RegularExpression::Token.captures("Na2"), Some("Na".to_string()));
    assert_eq!(RegularExpression::Token.captures("22Na"), Some("22".to_string()));
    assert_eq!(RegularExpression::Token.captures("ee"), Some("e".to_string()));
    assert_eq!(RegularExpression::Token.captures("-+"), Some("-".to_string()));
    assert_eq!(RegularExpression::Token.captures(" H"), None);
    assert_eq!(RegularExpression::Token.captures("<"), None);
    assert!(RegularExpression::Digits.is_match("7"));
    assert!(!RegularExpression::Digits.is_match("x7"));
    assert!(RegularExpression::Symbol.is_match("He"));
    assert!(!RegularExpression::Symbol.is_match("e"));
    assert!(RegularExpression::Token.is_match("e"));
    assert!(!RegularExpression::Spaces.is_match("e "));
}

#[test]
fn the_patterns_are_anchored() {
    for expression in [
        RegularExpression::Digits,
        RegularExpression::Spaces,
        RegularExpression::Symbol,
        RegularExpression::Token,
    ] {
        assert!(expression.get_pattern().starts_with('^'));
    }
    assert_eq!(RegularExpression::Digits.get_pattern(), "^[0-9]+");
    assert_eq!(RegularExpression::Spaces.get_pattern(), "^\\s+");
    assert_eq!(RegularExpression::Symbol.get_pattern(), "^[A-Z][a-z]*");
    assert_eq!(RegularExpression::Token.get_pattern(), "^([A-Z][a-z]*|[0-9]+|[e+=(){}-])");
}

#[test]
fn numerals_are_written_and_read() {
    assert_eq!(decimal_text(0), "0");
    assert_eq!(decimal_text(9), "9");
    assert_eq!(decimal_text(10), "10");
    assert_eq!(decimal_text(1234567890), "1234567890");
    assert_eq!(decimal_text(u64::MAX), "18446744073709551615");
    assert_eq!(signed_decimal_text(0), "0");
    assert_eq!(signed_decimal_text(-1), "-1");
    assert_eq!(signed_decimal_text(i32::MIN), "-2147483648");
    assert_eq!(signed_decimal_text(i32::MAX), "2147483647");
    assert_eq!(parse_u8(""), None);
    assert_eq!(parse_u8("12a"), None);
    assert_eq!(parse_u8("-1"), None);
    assert_eq!(parse_u8("\u{661}"), None);
    assert_eq!(parse_u8("0"), Some(0));
    assert_eq!(parse_u8("255"), Some(255));
    assert_eq!(parse_u8("256"), None);
    assert_eq!(parse_u8("0000128"), Some(128));
    assert!(same_text("Na", "Na"));
    assert!(!same_text("Na", "N"));
    assert!(same_text("", ""));
}

#[test]
fn every_error_has_its_description() {
    assert_eq!(ParserError::AdvancingBeyondLastToken.get_description(), "Advancing beyond the last token.");
    assert_eq!(
        ParserError::ChargeOrChargeSignIsExpected { start_index: 0 }.get_description(),
        "The charge or charge sign is expected."
    );
    assert_eq!(
        ParserError::ChargeSignIsExpected { start_index: 0 }.get_description(),
        "The charge sign is expected."
    );
    assert_eq!(
        ParserError::ClosingBracketAfterChargeIsExpected { start_index: 0 }.get_description(),
        "The closing bracket after the charge is expected."
    );
    assert_eq!(
        ParserError::ElectronNeedsToStandAlone { start_index: 0, end_index: 1 }.get_description(),
        "An electron needs to stand alone."
    );
    assert_eq!(
        ParserError::ElementGroupOrClosingBracketIsExpected { start_index: 0 }.get_description(),
        "The element, group, or closing bracket is expected."
    );
    assert_eq!(ParserError::ElementIsNotParsed.get_description(), "The element is not parsed.");
    assert_eq!(
        ParserError::EmptyGroup { start_index: 0, end_index: 1 }.get_description(),
        "Empty group."
    );
    assert_eq!(
        ParserError::EntityIsExpected { start_index: 0, end_index: 1 }.get_description(),
        "The entity is expected."
    );
    assert_eq!(
        ParserError::InvalidChargeForElectron { start_index: 0, end_index: 1 }.get_description(),
        "Invalid charge for an electron."
    );
    assert_eq!(ParserError::InvalidSymbol { start_index: 0 }.get_description(), "Invalid symbol.");
    assert_eq!(
        ParserError::NumberIsNotExpected { start_index: 0 }.get_description(),
        "The number is not expected."
    );
    assert_eq!(ParserError::NumberIsTooLarge.get_description(), "The number is too large.");
    assert_eq!(
        ParserError::PlusSignOrEndIsExpected { start_index: 0 }.get_description(),
        "The plus sign or end is expected."
    );
    assert_eq!(
        ParserError::PlusSignOrEqualSignIsExpected { start_index: 0 }.get_description(),
        "The plus sign or equal sign is expected."
    );
    assert_eq!(
        ParserError::TokenDoesNotMatchString.get_description(),
        "The token does not match the string."
    );
    assert_eq!(BalancerError::AllCoefficientsAreZero.get_description(), "All coefficients are zero.");
    assert_eq!(
        BalancerError::CoefficientsAreIncorrectlyPlaced.get_description(),
        "The coefficients are incorrectly placed."
    );
    assert_eq!(
        BalancerError::MismatchInNumberOfCoefficients.get_description(),
        "Mismatch in the number of coefficients."
    );
    assert_eq!(
        BalancerError::ReactionCanBeEqualizedInInfiniteNumberOfWays.get_description(),
        "The reaction can be equalized in an infinite number of ways."
    );
}
