use chem_balancer::parser::Parser;
use chem_balancer::parser_error::ParserError;

#[test]
fn parser_test_new() {
    let parser = Parser::new("H2 + O2 = H2O");
    assert_eq!(parser.equation, "H2 + O2 = H2O");
    assert_eq!(parser.position, 0);
}

#[test]
fn test_get_substring() {
    let parser = Parser::new("H2 + O2 = H2O");
    assert_eq!(parser.get_substring(), "H2 + O2 = H2O");
}

#[test]
fn test_get_next_token() {
    let mut parser = Parser::new("H2 + O2 = H2O");
    assert_eq!(parser.get_next_token().unwrap(), Some("H".to_string()));

    let _ = parser.consume("H");
    assert_eq!(parser.get_next_token().unwrap(), Some("2".to_string()));
}

#[test]
fn test_take_token() {
    let mut parser = Parser::new("H2 + O2 = H2O");
    assert_eq!(parser.take_token().unwrap(), "H");
    assert_eq!(parser.position, 1);
    assert_eq!(parser.take_token().unwrap(), "2");
    assert_eq!(parser.position, 3);
    assert_eq!(parser.take_token().unwrap(), "+");
    assert_eq!(parser.position, 5);
}

#[test]
fn test_consume() {
    let mut parser = Parser::new("H2 + O2 = H2O");
    let _ = parser.consume("H");
    assert_eq!(parser.position, 1);
}

#[test]
fn test_skip_spaces() {
    let mut parser = Parser::new("H2 + O2 = H2O");
    let _ = parser.consume("H");
    let _ = parser.consume("2");
    parser.skip_spaces();
    assert_eq!(parser.position, 3);
}

#[test]
fn test_parse_optional_number() {
    let mut parser = Parser::new("H2 + O2 = H2O");
    let _ = parser.consume("H");
    assert_eq!(parser.parse_optional_number().unwrap(), 2);
}

#[test]
fn test_parse_element() {
    let mut parser = Parser::new("H2 + O2 = H2O");
    assert_eq!(parser.parse_element().unwrap().format(), "H2");
}

#[test]
fn test_parse_group() {
    let mut parser = Parser::new("Al2(SO4)3 = Al2O3 + SO3");
    let _ = parser.consume("Al");
    let _ = parser.consume("2");
    assert_eq!(parser.parse_group().unwrap().format(), "(SO4)3");
}

#[test]
fn test_parse_entity() {
    let mut parser = Parser::new("Al2(SO4)3 = Al2O3 + SO3");
    assert_eq!(parser.parse_entity().unwrap().format(), "Al2(SO4)3");
}

#[test]
fn test_parse_equation() {
    let mut parser = Parser::new("H2 + O2 = H2O");
    assert_eq!(
        parser.parse_equation().unwrap().format(&[2, 1, 2]),
        "2\u{a0}H2 + O2 = 2\u{a0}H2O"
    );
}

fn error_of(text: &str) -> ParserError {
    match Parser::new(text).parse_equation() {
        Ok(_) => panic!("{} was parsed", text),
        Err(error) => error,
    }
}

fn parsed(text: &str) -> String {
    let equation = Parser::new(text).parse_equation().unwrap();
    let ones = vec![1; equation.reactants.len() + equation.products.len()];
    equation.format(&ones)
}

#[test]
fn tokens_are_symbols_numbers_and_marks() {
    let mut parser = Parser::new("Uue120(e+-={})");
    let mut tokens = Vec::new();
    while let Some(token) = parser.get_next_token().unwrap() {
        tokens.push(parser.take_token().unwrap());
        assert_eq!(tokens[tokens.len() - 1], token);
    }
    assert_eq!(tokens, vec!["Uue", "120", "(", "e", "+", "-", "=", "{", "}", ")"]);
    assert_eq!(parser.position, 14);
    assert_eq!(parser.take_token(), Err(ParserError::AdvancingBeyondLastToken));
}

#[test]
fn a_symbol_ends_before_the_next_capital_letter() {
    let mut parser = Parser::new("NaCl");
    assert_eq!(parser.take_token().unwrap(), "Na");
    assert_eq!(parser.take_token().unwrap(), "Cl");
    assert_eq!(parser.get_next_token(), Ok(None));
}

#[test]
fn characters_between_plus_and_equals_are_no_tokens() {
    for text in [",", ".", "/", ":", ";", "<", "a", "*", "[", "\u{2212}", "_"] {
        let parser = Parser::new(text);
        assert_eq!(parser.get_next_token(), Err(ParserError::InvalidSymbol { start_index: 0 }));
    }
}

#[test]
fn white_space_after_a_token_is_skipped() {
    let mut parser = Parser::new("H \t\n\u{a0}\u{3000}2");
    assert_eq!(parser.take_token().unwrap(), "H");
    assert_eq!(parser.position, 6);
    assert_eq!(parser.get_substring(), "2");
}

#[test]
fn positions_count_characters() {
    assert_eq!(error_of("H2\u{a0}\u{a0}+ \u{2212}"), ParserError::InvalidSymbol { start_index: 6 });
    assert_eq!(error_of("\u{2003}H2 = H2 \u{e9}"), ParserError::InvalidSymbol { start_index: 9 });
}

#[test]
fn consume_reports_another_token() {
    let mut parser = Parser::new("H2");
    assert_eq!(parser.consume("O"), Err(ParserError::TokenDoesNotMatchString));
    assert_eq!(parser.position, 1);
    assert_eq!(parser.consume("2"), Ok(()));
    assert_eq!(parser.consume("2"), Err(ParserError::AdvancingBeyondLastToken));
}

#[test]
fn optional_number_defaults_to_one() {
    assert_eq!(Parser::new("H").parse_optional_number(), Ok(1));
    assert_eq!(Parser::new("").parse_optional_number(), Ok(1));
    assert_eq!(
        Parser::new("0").parse_optional_number(),
        Err(ParserError::NumberIsNotExpected { start_index: 0 })
    );
    assert_eq!(
        Parser::new("000 H").parse_optional_number(),
        Err(ParserError::NumberIsNotExpected { start_index: 0 })
    );
    assert_eq!(Parser::new("1").parse_optional_number(), Ok(1));
    assert_eq!(Parser::new("H2").parse_optional_number(), Ok(1));
    assert_eq!(Parser::new("007").parse_optional_number(), Ok(7));
    assert_eq!(Parser::new("255").parse_optional_number(), Ok(255));
    assert_eq!(Parser::new("000000000000000000000000255").parse_optional_number(), Ok(255));
    assert_eq!(Parser::new("256").parse_optional_number(), Err(ParserError::NumberIsTooLarge));
    assert_eq!(
        Parser::new("99999999999999999999999999").parse_optional_number(),
        Err(ParserError::NumberIsTooLarge)
    );
    assert_eq!(
        Parser::new("?").parse_optional_number(),
        Err(ParserError::InvalidSymbol { start_index: 0 })
    );
}

#[test]
fn parse_element_wants_a_symbol() {
    assert!(matches!(Parser::new("(H)").parse_element(), Err(ParserError::ElementIsNotParsed)));
    assert!(matches!(Parser::new("2").parse_element(), Err(ParserError::ElementIsNotParsed)));
    assert!(matches!(
        Parser::new("").parse_element(),
        Err(ParserError::AdvancingBeyondLastToken)
    ));
    assert!(matches!(Parser::new("H256").parse_element(), Err(ParserError::NumberIsTooLarge)));
}

#[test]
fn parse_group_wants_an_opening_bracket() {
    assert!(matches!(Parser::new("H").parse_group(), Err(ParserError::TokenDoesNotMatchString)));
    let group = Parser::new("((OH)2Ca)3").parse_group().unwrap();
    assert_eq!(group.format(), "((OH)2Ca)3");
    assert_eq!(group.count_element_by_name("H"), 6);
}

#[test]
fn syntax_errors_carry_their_positions() {
    assert_eq!(error_of("H2 + = H2O"), ParserError::EntityIsExpected { start_index: 5, end_index: 5 });
    assert_eq!(error_of(""), ParserError::EntityIsExpected { start_index: 0, end_index: 0 });
    assert_eq!(error_of("   "), ParserError::EntityIsExpected { start_index: 3, end_index: 3 });
    assert_eq!(error_of("H2 + O2"), ParserError::PlusSignOrEqualSignIsExpected { start_index: 7 });
    assert_eq!(error_of("H2 ) O2"), ParserError::PlusSignOrEqualSignIsExpected { start_index: 3 });
    assert_eq!(error_of("H2 = O2 = H2O"), ParserError::PlusSignOrEndIsExpected { start_index: 8 });
    assert_eq!(error_of("H2 = O2 )"), ParserError::PlusSignOrEndIsExpected { start_index: 8 });
    assert_eq!(error_of("2 H2 = H2"), ParserError::NumberIsNotExpected { start_index: 0 });
    assert_eq!(error_of("H2 + 2 O2 = H2O"), ParserError::NumberIsNotExpected { start_index: 5 });
    assert_eq!(error_of("H2 $ O2 = H2O"), ParserError::InvalidSymbol { start_index: 3 });
    assert_eq!(error_of("H2 = ()"), ParserError::EmptyGroup { start_index: 5, end_index: 7 });
    assert_eq!(error_of("H2 = ( ) 2"), ParserError::EmptyGroup { start_index: 5, end_index: 9 });
    assert_eq!(
        error_of("H2 = (H"),
        ParserError::ElementGroupOrClosingBracketIsExpected { start_index: 7 }
    );
    assert_eq!(
        error_of("H2 = (H + O)"),
        ParserError::ElementGroupOrClosingBracketIsExpected { start_index: 8 }
    );
    assert_eq!(error_of("H300 = H"), ParserError::NumberIsTooLarge);
    assert_eq!(error_of("(H)256 = H"), ParserError::NumberIsTooLarge);
}

#[test]
fn charge_errors_carry_their_positions() {
    assert_eq!(error_of("Fe{"), ParserError::ChargeOrChargeSignIsExpected { start_index: 3 });
    assert_eq!(error_of("Fe{3"), ParserError::ChargeSignIsExpected { start_index: 4 });
    assert_eq!(error_of("Fe{3}"), ParserError::ChargeSignIsExpected { start_index: 4 });
    assert_eq!(error_of("Fe{ }"), ParserError::ChargeSignIsExpected { start_index: 4 });
    assert_eq!(error_of("Fe{H+}"), ParserError::ChargeSignIsExpected { start_index: 3 });
    assert_eq!(
        error_of("Fe{3+"),
        ParserError::ClosingBracketAfterChargeIsExpected { start_index: 5 }
    );
    assert_eq!(
        error_of("Fe{3+ + e = Fe"),
        ParserError::ClosingBracketAfterChargeIsExpected { start_index: 6 }
    );
    assert_eq!(error_of("Fe{128+} = Fe"), ParserError::NumberIsTooLarge);
    assert_eq!(error_of("Fe{256-} = Fe"), ParserError::NumberIsTooLarge);
    assert_eq!(error_of("Fe{?"), ParserError::InvalidSymbol { start_index: 3 });
}

#[test]
fn electron_errors_carry_their_spans() {
    assert_eq!(
        error_of("Fe e = Fe"),
        ParserError::ElectronNeedsToStandAlone { start_index: 0, end_index: 5 }
    );
    assert_eq!(
        error_of("H = e Fe{2+} + H"),
        ParserError::ElectronNeedsToStandAlone { start_index: 4, end_index: 13 }
    );
    assert_eq!(
        error_of("e{+} = Fe"),
        ParserError::InvalidChargeForElectron { start_index: 0, end_index: 5 }
    );
    assert_eq!(
        error_of("Fe = e{2-}"),
        ParserError::InvalidChargeForElectron { start_index: 5, end_index: 10 }
    );
    assert_eq!(
        error_of("e{3-} = Fe"),
        ParserError::InvalidChargeForElectron { start_index: 0, end_index: 6 }
    );
}

#[test]
fn charges_are_read_with_their_signs() {
    let equation = Parser::new("Fe{3+} + e{-} + e + e{1-} = Cl{-} + Na{+} + S{127-} + O")
        .parse_equation()
        .unwrap();
    let charges: Vec<i8> = equation.reactants.iter().map(|entity| entity.charge).collect();
    assert_eq!(charges, vec![3, -1, -1, -1]);
    let charges: Vec<i8> = equation.products.iter().map(|entity| entity.charge).collect();
    assert_eq!(charges, vec![-1, 1, -127, 0]);
    assert!(equation.reactants[1].items.is_empty());
}

#[test]
fn a_parsed_equation_formats_to_its_canonical_text() {
    assert_eq!(parsed("  H2+O2=H2O  "), "H2 + O2 = H2O");
    assert_eq!(parsed("Fe1 + H2S1O4 = Fe2(S O4)3"), "Fe + H2SO4 = Fe2(SO4)3");
    assert_eq!(parsed("Ca(OH)2 = Ca{2+} + OH{-}"), "Ca(OH)2 = Ca{2+} + OH");
    assert_eq!(parsed("e = e{-}"), "e\u{2212} = e\u{2212}");
    assert_eq!(parsed("((H)) = H"), "((H)) = H");
}

#[test]
fn the_cursor_ends_behind_the_equation() {
    let mut parser = Parser::new(" H2 + O2 = H2O ");
    assert!(parser.parse_equation().is_ok());
    assert_eq!(parser.position, 15);
    let mut parser = Parser::new("H2 + = H2O");
    assert!(parser.parse_equation().is_err());
    assert_eq!(parser.position, 5);
}

#[test]
fn parse_charge_reads_what_stands_between_braces() {
    assert_eq!(Parser::new("{3+}").parse_charge(), Ok(Some(3)));
    assert_eq!(Parser::new("{-} + e").parse_charge(), Ok(Some(-1)));
    assert_eq!(Parser::new("{ 12 - }").parse_charge(), Ok(Some(-12)));
    assert_eq!(Parser::new("+ H").parse_charge(), Ok(None));
    assert_eq!(Parser::new("").parse_charge(), Ok(None));
    assert_eq!(Parser::new("{127+}").parse_charge(), Ok(Some(127)));
    assert_eq!(Parser::new("{128-}").parse_charge(), Err(ParserError::NumberIsTooLarge));
    let mut parser = Parser::new("{2+} = H");
    assert_eq!(parser.parse_charge(), Ok(Some(2)));
    assert_eq!(parser.position, 5);
}

#[test]
fn a_count_of_zero_is_rejected_where_it_stands() {
    assert_eq!(error_of("H0 = H"), ParserError::NumberIsNotExpected { start_index: 1 });
    assert_eq!(error_of("H2 = (OH)0"), ParserError::NumberIsNotExpected { start_index: 9 });
    assert_eq!(error_of("H2 = (O00H)2"), ParserError::NumberIsNotExpected { start_index: 7 });
    assert_eq!(error_of("H2 + O 0 = H2O"), ParserError::NumberIsNotExpected { start_index: 7 });
    assert_eq!(error_of("O{0+} = O"), ParserError::NumberIsNotExpected { start_index: 2 });
    assert_eq!(error_of("O = O{00-}"), ParserError::NumberIsNotExpected { start_index: 6 });
    assert_eq!(error_of("e{0-} = Fe"), ParserError::NumberIsNotExpected { start_index: 2 });
    let mut parser = Parser::new("H0");
    assert!(matches!(
        parser.parse_element(),
        Err(ParserError::NumberIsNotExpected { start_index: 1 })
    ));
    assert_eq!(parser.position, 1);
    assert_eq!(parsed("H01 = (H)001"), "H = (H)");
    assert_eq!(parsed("H10 = H"), "H10 = H");
}

#[test]
fn a_count_that_is_read_is_at_least_one() {
    for text in ["", "H", "1", "2", "9", "10", "099", "255", "+", "(", "e"] {
        let mut parser = Parser::new(text);
        let before = parser.position;
        match parser.parse_optional_number() {
            Ok(number) => {
                assert!(number >= 1);
                if !text.starts_with(|c: char| c.is_ascii_digit()) {
                    assert_eq!(number, 1);
                    assert_eq!(parser.position, before);
                } else {
                    assert_eq!(parser.position, text.len());
                }
            },
            Err(error) => panic!("{} gives {:?}", text, error),
        }
    }
}
