use chem_balancer::regular_expression::RegularExpression;

fn is_space(c: char) -> bool {
    matches!(
        c,
        '\u{9}'..='\u{d}'
            | ' '
            | '\u{85}'
            | '\u{a0}'
            | '\u{1680}'
            | '\u{2000}'..='\u{200a}'
            | '\u{2028}'
            | '\u{2029}'
            | '\u{202f}'
            | '\u{205f}'
            | '\u{3000}'
    )
}

fn is_mark(c: char) -> bool {
    matches!(c, 'e' | '+' | '-' | '=' | '(' | ')' | '{' | '}')
}

fn run_len(text: &[char], class: fn(char) -> bool) -> usize {
    text.iter().take_while(|c| class(**c)).count()
}

fn symbol_len(text: &[char]) -> usize {
    if !text.is_empty() && text[0].is_ascii_uppercase() {
        1 + run_len(&text[1..], |c| c.is_ascii_lowercase())
    } else {
        0
    }
}

fn token_len(text: &[char]) -> usize {
    if symbol_len(text) > 0 {
        symbol_len(text)
    } else if run_len(text, |c| c.is_ascii_digit()) > 0 {
        run_len(text, |c| c.is_ascii_digit())
    } else if !text.is_empty() && is_mark(text[0]) {
        1
    } else {
        0
    }
}

fn expected(expression: &RegularExpression, text: &str) -> Option<String> {
    let characters: Vec<char> = text.chars().collect();
    let len = match expression {
        RegularExpression::Digits => run_len(&characters, |c| c.is_ascii_digit()),
        RegularExpression::Spaces => run_len(&characters, is_space),
        RegularExpression::Symbol => symbol_len(&characters),
        RegularExpression::Token => token_len(&characters),
    };
    if len == 0 {
        None
    } else {
        Some(characters[..len].iter().collect())
    }
}

fn expressions() -> [RegularExpression; 4] {
    [
        RegularExpression::Digits,
        RegularExpression::Spaces,
        RegularExpression::Symbol,
        RegularExpression::Token,
    ]
}

fn sample() -> Vec<char> {
    let mut characters: Vec<char> = Vec::new();
    for code in 0u32..0x250 {
        characters.push(char::from_u32(code).unwrap());
    }
    for code in [
        0x660u32, 0x669, 0x966, 0x167f, 0x1680, 0x1681, 0x180e, 0x1fff, 0x2000, 0x2005, 0x200a,
        0x200b, 0x2027, 0x2028, 0x2029, 0x202a, 0x202e, 0x202f, 0x2030, 0x205e, 0x205f, 0x2060,
        0x2212, 0x2fff, 0x3000, 0x3001, 0xfeff, 0xff10, 0xff21, 0xff41, 0x1d7ce, 0x10ffff,
    ] {
        characters.push(char::from_u32(code).unwrap());
    }
    characters
}

#[test]
fn every_pattern_matches_one_character_as_its_class_says() {
    for expression in expressions() {
        for c in sample() {
            let text = c.to_string();
            assert_eq!(expression.captures(&text), expected(&expression, &text), "{:?}", c);
            assert_eq!(expression.is_match(&text), expected(&expression, &text).is_some());
        }
    }
}

#[test]
fn every_pattern_matches_the_longest_run() {
    let texts = [
        "", "H", "He", "HeH", "Hee", "HE", "hE", "eH", "e", "ee", "0", "01", "0a1", "12H", "H12",
        "1 2", " 1", "+", "+-", "-", "=", "(", ")", "{", "}", "()", "e+", "Uuo118", "  ", " \t H",
        "\u{a0}\u{a0}1", "\u{2003}e", "H\u{e9}", "A\u{430}", "1\u{661}", "\u{661}1", ",", "<",
        "H e", "Cl2", "aB", "Zz", "Zzz9", "9Zzz", "e9", "(e", "}{",
    ];
    for expression in expressions() {
        for text in texts {
            assert_eq!(expression.captures(text), expected(&expression, text), "{:?}", text);
            assert_eq!(expression.is_match(text), expected(&expression, text).is_some());
        }
    }
}
