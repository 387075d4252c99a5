use chem_balancer::balancer::{balance, Balancer, Error};
use chem_balancer::balancer_error::BalancerError;
use chem_balancer::parser::Parser;
use chem_balancer::parser_error::ParserError;

#[test]
fn balancer_test_new() {
    assert!(Balancer::new("H2 + O2 = H2O").is_ok());
    assert!(matches!(
        Balancer::new("H2 + O2"),
        Err(ParserError::PlusSignOrEqualSignIsExpected { start_index: 7 })
    ));
}

#[test]
fn test_fill_matrix() {
    let equation = Parser::new("H2 + O2 = H2O").parse_equation().unwrap();
    let matrix = Balancer::get_initial_matrix(&equation);
    assert_eq!(matrix.rows_count, 4);
    assert_eq!(matrix.columns_count, 4);
    assert_eq!(
        matrix.cells,
        vec![vec![0, 0, 0, 0], vec![2, 0, -2, 0], vec![0, 2, -1, 0], vec![0, 0, 0, 0]]
    );

    let equation = Parser::new("Cr2O7{2-} + H{+} + e = Cr{3+} + H2O").parse_equation().unwrap();
    let matrix = Balancer::get_initial_matrix(&equation);
    assert_eq!(
        matrix.cells,
        vec![
            vec![2, -1, 1, 3, 0, 0],
            vec![2, 0, 0, -1, 0, 0],
            vec![7, 0, 0, 0, -1, 0],
            vec![0, 1, 0, 0, -2, 0],
            vec![0, 0, 0, 0, 0, 0],
        ]
    );
}

#[test]
fn test_solve_matrix() {
    let mut balancer = Balancer::new("H2 + O2 = H2O").unwrap();
    assert_eq!(balancer.solve_matrix(), Ok(()));
    assert_eq!(balancer.extract_coefficients(), Ok(vec![2, 1, 2]));

    let mut balancer = Balancer::new("H2 + O2 = N2 + C").unwrap();
    assert_eq!(balancer.solve_matrix(), Err(BalancerError::AllCoefficientsAreZero));
}

#[test]
fn test_count_nonzero_coefficients_in_row() {
    let balancer = Balancer::new("H2 + O2 = H2O").unwrap();
    assert_eq!(balancer.count_nonzero_coefficients_in_row(0), 0);
    assert_eq!(balancer.count_nonzero_coefficients_in_row(1), 2);
    assert_eq!(balancer.count_nonzero_coefficients_in_row(2), 2);
    assert_eq!(balancer.count_nonzero_coefficients_in_row(3), 0);
}

#[test]
fn test_extract_coefficients() {
    let mut balancer = Balancer::new("Fe + H2SO4 = Fe2(SO4)3 + SO2 + H2O").unwrap();
    assert_eq!(balancer.solve_matrix(), Ok(()));
    assert_eq!(balancer.extract_coefficients(), Ok(vec![2, 6, 1, 3, 6]));

    let mut balancer = Balancer::new("H2 + O2 + C = H2O + CO2").unwrap();
    assert_eq!(balancer.solve_matrix(), Ok(()));
    assert_eq!(
        balancer.extract_coefficients(),
        Err(BalancerError::ReactionCanBeEqualizedInInfiniteNumberOfWays)
    );
}

#[test]
fn test_check_answer() {
    let balancer = Balancer::new("H2 + O2 = H2O").unwrap();
    assert_eq!(balancer.check_answer(&[2, 1, 2]), Ok(()));
    assert_eq!(balancer.check_answer(&[4, 2, 4]), Ok(()));
    assert_eq!(balancer.check_answer(&[-2, -1, -2]), Ok(()));
    assert_eq!(
        balancer.check_answer(&[2, 1]),
        Err(BalancerError::MismatchInNumberOfCoefficients)
    );
    assert_eq!(
        balancer.check_answer(&[2, 1, 2, 1]),
        Err(BalancerError::MismatchInNumberOfCoefficients)
    );
    assert_eq!(balancer.check_answer(&[0, 0, 0]), Err(BalancerError::AllCoefficientsAreZero));
    assert_eq!(
        balancer.check_answer(&[1, 1, 1]),
        Err(BalancerError::CoefficientsAreIncorrectlyPlaced)
    );
    assert_eq!(
        balancer.check_answer(&[2, 1, 0]),
        Err(BalancerError::CoefficientsAreIncorrectlyPlaced)
    );

    let balancer = Balancer::new("Fe{3+} + e = Fe").unwrap();
    assert_eq!(balancer.check_answer(&[1, 3, 1]), Ok(()));
    assert_eq!(
        balancer.check_answer(&[1, 1, 1]),
        Err(BalancerError::CoefficientsAreIncorrectlyPlaced)
    );
}

#[test]
fn test_balance_equation() {
    let molecular_equations = [
        ["H2 + O2 = H2O", "2\u{a0}H2 + O2 = 2\u{a0}H2O"],
        [
            "Fe + H2SO4 = Fe2(SO4)3 + SO2 + H2O",
            "2\u{a0}Fe + 6\u{a0}H2SO4 = Fe2(SO4)3 + 3\u{a0}SO2 + 6\u{a0}H2O",
        ],
        [
            "H2O + Pb(CH3COO)2 = CH3COOH + Pb(OH)2",
            "2\u{a0}H2O + Pb(CH3COO)2 = 2\u{a0}CH3COOH + Pb(OH)2",
        ],
        [
            "NaOH + Cl2 + Br2 = NaBrO3 + NaCl + H2O",
            "12\u{a0}NaOH + 5\u{a0}Cl2 + Br2 = 2\u{a0}NaBrO3 + 10\u{a0}NaCl + 6\u{a0}H2O",
        ],
        [
            "C6H12O6 + KMnO4 + H2SO4 = CO2 + K2SO4 + MnSO4 + H2O",
            "5\u{a0}C6H12O6 + 24\u{a0}KMnO4 + 36\u{a0}H2SO4 = 30\u{a0}CO2 + 12\u{a0}K2SO4 + 24\u{a0}MnSO4 + 66\u{a0}H2O",
        ],
    ];

    for x in &molecular_equations {
        assert_eq!(Balancer::new(x[0]).unwrap().balance_equation().unwrap(), x[1]);
    }

    let ionic_equations = [
        ["Fe{3+} + e = Fe", "Fe{3+} + 3\u{a0}e− = Fe"],
        ["Cl{5+} + e = Cl{-}", "Cl{5+} + 6\u{a0}e− = Cl"],
        ["CO3{2-} + H{+} = H2O + CO2", "CO3{2−} + 2\u{a0}H = H2O + CO2"],
        ["CaCO3 + H{+} = Ca{2+} + CO2 + H2O", "CaCO3 + 2\u{a0}H = Ca{2+} + CO2 + H2O"],
        [
            "Cr2O7{2-} + H{+} + e = Cr{3+} + H2O",
            "Cr2O7{2−} + 14\u{a0}H + 6\u{a0}e− = 2\u{a0}Cr{3+} + 7\u{a0}H2O",
        ],
    ];

    for x in &ionic_equations {
        assert_eq!(Balancer::new(x[0]).unwrap().balance_equation().unwrap(), x[1]);
    }
}

#[test]
fn water_is_balanced() {
    assert_eq!(balance("H2 + O2 = H2O"), Ok("2\u{a0}H2 + O2 = 2\u{a0}H2O".to_string()));
}

#[test]
fn iron_and_sulfuric_acid_are_balanced() {
    assert_eq!(
        balance("Fe + H2SO4 = Fe2(SO4)3 + SO2 + H2O"),
        Ok("2\u{a0}Fe + 6\u{a0}H2SO4 = Fe2(SO4)3 + 3\u{a0}SO2 + 6\u{a0}H2O".to_string())
    );
}

#[test]
fn two_halogens_in_lye_are_balanced() {
    assert_eq!(
        balance("NaOH + Cl2 + Br2 = NaBrO3 + NaCl + H2O"),
        Ok("12\u{a0}NaOH + 5\u{a0}Cl2 + Br2 = 2\u{a0}NaBrO3 + 10\u{a0}NaCl + 6\u{a0}H2O"
            .to_string())
    );
}

#[test]
fn the_reduction_of_iron_is_balanced() {
    assert_eq!(balance("Fe{3+} + e = Fe"), Ok("Fe{3+} + 3\u{a0}e\u{2212} = Fe".to_string()));
}

#[test]
fn carbonate_and_acid_are_balanced() {
    assert_eq!(
        balance("CO3{2-} + H{+} = H2O + CO2"),
        Ok("CO3{2\u{2212}} + 2\u{a0}H = H2O + CO2".to_string())
    );
}

#[test]
fn a_missing_operand_is_reported_behind_the_plus_sign() {
    assert_eq!(
        balance("H2 + = H2O"),
        Err(Error::Parser(ParserError::EntityIsExpected { start_index: 5, end_index: 5 }))
    );
    assert!(matches!(
        Balancer::new("H2 + = H2O"),
        Err(ParserError::EntityIsExpected { start_index: 5, end_index: 5 })
    ));
}

#[test]
fn an_equation_that_only_zeros_solve_is_rejected() {
    assert_eq!(
        balance("H2 + O2 = N2 + C"),
        Err(Error::Balancer(BalancerError::AllCoefficientsAreZero))
    );
    assert_eq!(balance("H2 = O2"), Err(Error::Balancer(BalancerError::AllCoefficientsAreZero)));
    assert_eq!(
        balance("Fe{3+} = Fe"),
        Err(Error::Balancer(BalancerError::AllCoefficientsAreZero))
    );
    assert_eq!(
        balance("H2O = H2O2"),
        Err(Error::Balancer(BalancerError::AllCoefficientsAreZero))
    );
}

#[test]
fn an_equation_with_two_free_ratios_is_rejected() {
    assert_eq!(
        balance("H2 + O2 + C = H2O + CO2"),
        Err(Error::Balancer(BalancerError::ReactionCanBeEqualizedInInfiniteNumberOfWays))
    );
    assert_eq!(
        balance("H2 + O2 + N2 = H2O + NO2"),
        Err(Error::Balancer(BalancerError::ReactionCanBeEqualizedInInfiniteNumberOfWays))
    );
    assert_eq!(
        balance("C + O2 = CO + CO2"),
        Err(Error::Balancer(BalancerError::ReactionCanBeEqualizedInInfiniteNumberOfWays))
    );
    let balancer = Balancer::new("C + O2 = CO + CO2").unwrap();
    assert_eq!(balancer.check_answer(&[2, 1, 2, 0]), Ok(()));
    assert_eq!(balancer.check_answer(&[1, 1, 0, 1]), Ok(()));
}

#[test]
fn counts_beyond_32_bits_are_rejected() {
    assert_eq!(
        balance("((((H255)255)255)255)255 = H"),
        Err(Error::Parser(ParserError::NumberIsTooLarge))
    );
    assert!(matches!(
        Balancer::new("H = ((((H255)255)255)255)255"),
        Err(ParserError::NumberIsTooLarge)
    ));
    assert_eq!(
        balance("(((H255)255)255)129 = H"),
        Ok("(((H255)255)255)129 = 2138997375\u{a0}H".to_string())
    );
}

#[test]
fn balancing_twice_gives_the_same_text() {
    for text in ["H2 + O2 = H2O", "Cr2O7{2-} + H{+} + e = Cr{3+} + H2O", "H2 + = H2O", "H = O"] {
        assert_eq!(balance(text), balance(text));
    }
}

#[test]
fn an_equation_in_balance_gets_no_coefficients() {
    assert_eq!(balance(" C+O2=CO2 "), Ok("C + O2 = CO2".to_string()));
    assert_eq!(balance("H = H"), Ok("H = H".to_string()));
    assert_eq!(balance("e = e"), Ok("e\u{2212} = e\u{2212}".to_string()));
}

#[test]
fn the_same_entity_on_both_sides_is_balanced() {
    assert_eq!(balance("H2 + O2 = O2 + H2"), Err(Error::Balancer(
        BalancerError::ReactionCanBeEqualizedInInfiniteNumberOfWays
    )));
    assert_eq!(balance("H2 + H2 = H4"), Err(Error::Balancer(
        BalancerError::ReactionCanBeEqualizedInInfiniteNumberOfWays
    )));
}

#[test]
fn the_text_of_a_balanced_equation_balances_again() {
    for text in [
        "H2 + O2 = H2O",
        "Fe + H2SO4 = Fe2(SO4)3 + SO2 + H2O",
        "NaOH + Cl2 + Br2 = NaBrO3 + NaCl + H2O",
        "Al2(SO4)3 + Ca(OH)2 = Al(OH)3 + CaSO4",
    ] {
        let first = balance(text).unwrap();
        let mut stripped = String::new();
        for term in first.split(' ') {
            let formula = match term.split_once('\u{a0}') {
                Some((_, formula)) => formula,
                None => term,
            };
            if !stripped.is_empty() {
                stripped.push(' ');
            }
            stripped.push_str(formula);
        }
        assert_eq!(balance(&stripped).unwrap(), first);
    }
}

#[test]
fn an_elimination_beyond_32_bits_is_reported() {
    assert_eq!(
        balance("(((A255)255)255)129B + A(((B255)255)255)129 = AB"),
        Err(Error::Balancer(BalancerError::CoefficientsAreIncorrectlyPlaced))
    );
    assert_eq!(
        balance("(((A255)255)255)129B = A(((B255)255)255)129"),
        Err(Error::Balancer(BalancerError::CoefficientsAreIncorrectlyPlaced))
    );
    let mut balancer = Balancer::new("(((A255)255)255)129B + A(((B255)255)255)129 = AB").unwrap();
    assert_eq!(balancer.check_answer(&[1, 1, 2138997376]), Ok(()));
}

#[test]
fn a_coefficient_of_zero_drops_the_entity() {
    assert_eq!(balance("H2 + O2 + N2 = H2O"), Ok("2\u{a0}H2 + O2 = 2\u{a0}H2O".to_string()));
    assert_eq!(balance("H2 + O2 = H2O + N2"), Ok("2\u{a0}H2 + O2 = 2\u{a0}H2O".to_string()));
}

#[test]
fn a_coefficient_may_be_negative() {
    assert_eq!(balance("H2O + O2 = H2"), Ok("2\u{a0}H2O + -1\u{a0}O2 = 2\u{a0}H2".to_string()));
}

#[test]
fn an_error_of_balancing_describes_itself() {
    assert_eq!(balance("H2 + = H2O").unwrap_err().get_description(), "The entity is expected.");
    assert_eq!(balance("H2 = O2").unwrap_err().get_description(), "All coefficients are zero.");
    assert_eq!(
        balance("H2 + O2 + C = H2O + CO2").unwrap_err().get_description(),
        "The reaction can be equalized in an infinite number of ways."
    );
}

#[test]
fn a_count_of_zero_is_no_equation() {
    assert_eq!(
        balance("H0 + O0 = N0 + C"),
        Err(Error::Parser(ParserError::NumberIsNotExpected { start_index: 1 }))
    );
    assert!(matches!(
        Balancer::new("H2 + O2 = H2O0"),
        Err(ParserError::NumberIsNotExpected { start_index: 13 })
    ));
}
