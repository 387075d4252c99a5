//! The lexical patterns of the parser.
//!
//! Each pattern is matched at the start of a text by the `regex` crate. What
//! a pattern matches there is stated by `match_len`, over plain sequences of
//! characters.

use vstd::prelude::*;
use vstd::string::*;
use regex::Regex;
use crate::text::is_digit;

verus! {

/// The kinds of text that the lexer looks for at the cursor.
#[derive(Debug)]
pub enum RegularExpression {
    /// A run of decimal digits.
    Digits,
    /// A run of white space.
    Spaces,
    /// The symbol of an element: a capital letter and the small letters
    /// after it.
    Symbol,
    /// A symbol, a run of digits, or one of `e + - = ( ) { }`.
    Token,
}

/// Whether a character is one of `A` to `Z`.
pub open spec fn is_upper(c: char) -> bool {
    'A' <= c && c <= 'Z'
}

/// Whether a character is one of `a` to `z`.
pub open spec fn is_lower(c: char) -> bool {
    'a' <= c && c <= 'z'
}

/// Whether a character is white space, as Unicode defines it.
pub open spec fn is_space(c: char) -> bool {
    ||| '\u{9}' <= c && c <= '\u{d}'
    ||| c == ' '
    ||| c == '\u{85}'
    ||| c == '\u{a0}'
    ||| c == '\u{1680}'
    ||| '\u{2000}' <= c && c <= '\u{200a}'
    ||| c == '\u{2028}'
    ||| c == '\u{2029}'
    ||| c == '\u{202f}'
    ||| c == '\u{205f}'
    ||| c == '\u{3000}'
}

/// Whether a character is a token by itself.
pub open spec fn is_mark(c: char) -> bool {
    c == 'e' || c == '+' || c == '-' || c == '=' || c == '(' || c == ')' || c == '{' || c == '}'
}

/// The number of characters at the start of `text` that all belong to
/// `class`.
pub open spec fn run_len(text: Seq<char>, class: spec_fn(char) -> bool) -> nat
    decreases text.len(),
{
    if text.len() > 0 && class(text[0]) {
        1 + run_len(text.skip(1), class)
    } else {
        0
    }
}

/// The number of decimal digits at the start of `text`.
pub open spec fn digits_len(text: Seq<char>) -> nat {
    run_len(text, |c: char| is_digit(c))
}

/// The number of characters of white space at the start of `text`.
pub open spec fn spaces_len(text: Seq<char>) -> nat {
    run_len(text, |c: char| is_space(c))
}

/// The number of small letters at the start of `text`.
pub open spec fn lowers_len(text: Seq<char>) -> nat {
    run_len(text, |c: char| is_lower(c))
}

/// The length of the element symbol at the start of `text`, or zero if
/// `text` does not start with a capital letter.
pub open spec fn symbol_len(text: Seq<char>) -> nat {
    if text.len() > 0 && is_upper(text[0]) {
        1 + lowers_len(text.skip(1))
    } else {
        0
    }
}

/// The length of the token at the start of `text`: the whole symbol or the
/// whole run of digits that starts there, or one mark. Zero if no token
/// starts there.
pub open spec fn token_len(text: Seq<char>) -> nat {
    if symbol_len(text) > 0 {
        symbol_len(text)
    } else if digits_len(text) > 0 {
        digits_len(text)
    } else if text.len() > 0 && is_mark(text[0]) {
        1
    } else {
        0
    }
}

/// Whether `pattern` is one of the four patterns of this module.
pub open spec fn is_lexical_pattern(pattern: Seq<char>) -> bool {
    ||| pattern == RegularExpression::Digits.pattern()
    ||| pattern == RegularExpression::Spaces.pattern()
    ||| pattern == RegularExpression::Symbol.pattern()
    ||| pattern == RegularExpression::Token.pattern()
}

/// The number of characters that `pattern` matches at the start of `text`.
/// No pattern of this module matches the empty text, so zero means that
/// there is no match.
pub open spec fn pattern_match_len(pattern: Seq<char>, text: Seq<char>) -> nat {
    if pattern == RegularExpression::Digits.pattern() {
        digits_len(text)
    } else if pattern == RegularExpression::Spaces.pattern() {
        spaces_len(text)
    } else if pattern == RegularExpression::Symbol.pattern() {
        symbol_len(text)
    } else if pattern == RegularExpression::Token.pattern() {
        token_len(text)
    } else {
        0
    }
}

/// A run is not longer than the text, all its characters belong to the
/// class, and the character after it does not.
pub proof fn lemma_run_len(text: Seq<char>, class: spec_fn(char) -> bool)
    ensures
        run_len(text, class) <= text.len(),
        forall|i: int| 0 <= i < run_len(text, class) ==> class(#[trigger] text[i]),
        run_len(text, class) < text.len() ==> !class(text[run_len(text, class) as int]),
    decreases text.len(),
{
    if text.len() > 0 && class(text[0]) {
        let rest = text.skip(1);
        lemma_run_len(rest, class);
        assert forall|i: int| 0 <= i < run_len(text, class) implies class(#[trigger] text[i]) by {
            if i > 0 {
                assert(text[i] == rest[i - 1]);
            }
        }
        if run_len(text, class) < text.len() {
            assert(text[run_len(text, class) as int] == rest[run_len(rest, class) as int]);
        }
    }
}

/// No match is longer than the text.
pub proof fn lemma_match_len_bound(expression: RegularExpression, text: Seq<char>)
    ensures
        expression.match_len(text) <= text.len(),
{
    lemma_run_len(text, |c: char| is_digit(c));
    lemma_run_len(text, |c: char| is_space(c));
    if text.len() > 0 {
        lemma_run_len(text.skip(1), |c: char| is_lower(c));
    }
}

/// A token that starts with a digit consists of digits.
pub proof fn lemma_number_token(text: Seq<char>)
    requires
        digits_len(text.take(token_len(text) as int)) > 0,
    ensures
        token_len(text) == digits_len(text),
        forall|i: int| 0 <= i < token_len(text) ==> is_digit(#[trigger] text[i]),
{
    let token = text.take(token_len(text) as int);
    lemma_match_len_bound(RegularExpression::Token, text);
    assert(token.len() > 0 && is_digit(token[0]));
    assert(token[0] == text[0]);
    lemma_run_len(text, |c: char| is_digit(c));
}

/// The four patterns differ from each other.
proof fn lemma_patterns_differ()
    ensures
        RegularExpression::Digits.pattern().len() == 7,
        RegularExpression::Spaces.pattern().len() == 4,
        RegularExpression::Symbol.pattern().len() == 12,
        RegularExpression::Token.pattern().len() == 32,
{
    reveal_strlit("^[0-9]+");
    reveal_strlit("^\\s+");
    reveal_strlit("^[A-Z][a-z]*");
    reveal_strlit("^([A-Z][a-z]*|[0-9]+|[e+=(){}-])");
}

/// The first match of a pattern of the lexer in `text`.
///
/// Compiles `pattern` with `Regex::new` and calls `Regex::captures`, whose
/// group 0 is the whole match. Every pattern of this module starts with
/// `^`, so a match can only begin at the start of the text. Repetitions are
/// greedy and alternatives are tried from left to right, so the match is
/// the one that `pattern_match_len` measures; `[0-9]`, `[A-Z]` and `[a-z]`
/// are those characters alone, and `\s` is Unicode's white space.
#[verifier::external_body]
fn regex_captures(pattern: &str, text: &str) -> (found: Option<String>)
    requires
        is_lexical_pattern(pattern@),
    ensures
        match found {
            Some(matched) => pattern_match_len(pattern@, text@) > 0 && matched@ == text@.take(
                pattern_match_len(pattern@, text@) as int,
            ),
            None => pattern_match_len(pattern@, text@) == 0,
        },
{
    match Regex::new(pattern).unwrap().captures(text) {
        Some(groups) => Some(groups[0].to_string()),
        None => None,
    }
}

/// Whether a pattern of the lexer matches in `text`.
///
/// Compiles `pattern` with `Regex::new` and calls `Regex::is_match`, which
/// says whether there is a match anywhere; for a pattern that starts with
/// `^` that is a match at the start of the text.
#[verifier::external_body]
fn regex_is_match(pattern: &str, text: &str) -> (matched: bool)
    requires
        is_lexical_pattern(pattern@),
    ensures
        matched == (pattern_match_len(pattern@, text@) > 0),
{
    Regex::new(pattern).unwrap().is_match(text)
}

impl RegularExpression {
    /// The text of the pattern.
    pub open spec fn pattern(self) -> Seq<char> {
        match self {
            Self::Digits => "^[0-9]+"@,
            Self::Spaces => "^\\s+"@,
            Self::Symbol => "^[A-Z][a-z]*"@,
            Self::Token => "^([A-Z][a-z]*|[0-9]+|[e+=(){}-])"@,
        }
    }

    /// The number of characters that the pattern matches at the start of
    /// `text`; zero if it does not match there.
    pub open spec fn match_len(self, text: Seq<char>) -> nat {
        match self {
            Self::Digits => digits_len(text),
            Self::Spaces => spaces_len(text),
            Self::Symbol => symbol_len(text),
            Self::Token => token_len(text),
        }
    }

    /// Returns a pattern.
    pub fn get_pattern(&self) -> (pattern: &'static str)
        ensures
            pattern@ == self.pattern(),
    {
        match self {
            Self::Digits => "^[0-9]+",
            Self::Spaces => "^\\s+",
            Self::Symbol => "^[A-Z][a-z]*",
            Self::Token => "^([A-Z][a-z]*|[0-9]+|[e+=(){}-])",
        }
    }

    /// Returns what the pattern matches at the start of `text`, if it
    /// matches there.
    pub fn captures(&self, text: &str) -> (found: Option<String>)
        ensures
            match found {
                Some(matched) => self.match_len(text@) > 0 && self.match_len(text@) <= text@.len()
                    && matched@ == text@.take(self.match_len(text@) as int),
                None => self.match_len(text@) == 0,
            },
    {
        proof {
            lemma_patterns_differ();
            lemma_match_len_bound(*self, text@);
        }
        regex_captures(self.get_pattern(), text)
    }

    /// Whether the pattern matches at the start of `text`.
    pub fn is_match(&self, text: &str) -> (matched: bool)
        ensures
            matched == (self.match_len(text@) > 0),
    {
        proof {
            lemma_patterns_differ();
        }
        regex_is_match(self.get_pattern(), text)
    }
}

} // verus!
