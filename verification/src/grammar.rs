//! What the parser yields, as functions of the text and of the position of
//! the cursor in it.
//!
//! Positions count characters. Each function says what one step of the
//! parser returns and where it leaves the cursor, whether it succeeds or
//! not.

use vstd::prelude::*;
use crate::element::ElementView;
use crate::entity::EntityView;
use crate::equation::EquationView;
use crate::group::GroupView;
use crate::item::ItemView;
use crate::parser_error::ParserError;
use crate::regular_expression::RegularExpression;
use crate::text::decimal_value;

verus! {

/// What a step of the parser yields, and the position of the cursor after
/// it.
pub struct Parsed<T> {
    pub value: Result<T, ParserError>,
    pub position: int,
}

/// The items of an entity, and whether `e` stood among them.
pub struct Listed {
    pub items: Seq<ItemView>,
    pub electron: bool,
}

/// The token that consists of the one character `c`.
pub open spec fn mark(c: char) -> Seq<char> {
    seq![c]
}

/// The position `count` characters after `position`, but not beyond the end
/// of the text.
pub open spec fn advanced(text: Seq<char>, position: int, count: nat) -> int {
    if position + count <= text.len() {
        position + count
    } else {
        text.len() as int
    }
}

/// The position `next` if it lies after `position` and within the text,
/// else the end of the text.
pub open spec fn onward(text: Seq<char>, position: int, next: int) -> int {
    if position < next <= text.len() {
        next
    } else {
        text.len() as int
    }
}

/// The position after the white space that starts at `position`.
pub open spec fn skip_spaces(text: Seq<char>, position: int) -> int {
    advanced(text, position, RegularExpression::Spaces.match_len(text.skip(position)))
}

/// The token at `position`: `None` at the end of the text, an error where
/// no token starts.
pub open spec fn next_token(text: Seq<char>, position: int) -> Result<
    Option<Seq<char>>,
    ParserError,
> {
    if position < 0 || position >= text.len() {
        Ok(None)
    } else {
        let len = RegularExpression::Token.match_len(text.skip(position));
        if len == 0 {
            Err(ParserError::InvalidSymbol { start_index: position as usize })
        } else {
            Ok(Some(text.subrange(position, advanced(text, position, len))))
        }
    }
}

/// Takes the token at `position` and skips the white space after it.
pub open spec fn take_token(text: Seq<char>, position: int) -> Parsed<Seq<char>> {
    match next_token(text, position) {
        Err(error) => Parsed { value: Err(error), position },
        Ok(None) => Parsed { value: Err(ParserError::AdvancingBeyondLastToken), position },
        Ok(Some(token)) => Parsed {
            value: Ok(token),
            position: skip_spaces(text, position + token.len()),
        },
    }
}

/// Takes the token at `position`, which has to be `expected`.
pub open spec fn consume(text: Seq<char>, position: int, expected: Seq<char>) -> Parsed<()> {
    let taken = take_token(text, position);
    match taken.value {
        Err(error) => Parsed { value: Err(error), position: taken.position },
        Ok(token) => if token == expected {
            Parsed { value: Ok(()), position: taken.position }
        } else {
            Parsed { value: Err(ParserError::TokenDoesNotMatchString), position: taken.position }
        },
    }
}

/// The number at `position`, or 1 where no number stands. The number is
/// at least 1 and at most 255: zero is an error that leaves the cursor at
/// the number, a number above 255 an error behind it.
#[verifier::opaque]
pub open spec fn optional_number(text: Seq<char>, position: int) -> Parsed<u8> {
    match next_token(text, position) {
        Err(error) => Parsed { value: Err(error), position },
        Ok(None) => Parsed { value: Ok(1u8), position },
        Ok(Some(token)) => if RegularExpression::Digits.match_len(token) > 0 {
            let after = skip_spaces(text, position + token.len());
            if decimal_value(token) == 0 {
                Parsed {
                    value: Err(ParserError::NumberIsNotExpected { start_index: position as usize }),
                    position,
                }
            } else if decimal_value(token) > 255 {
                Parsed { value: Err(ParserError::NumberIsTooLarge), position: after }
            } else {
                Parsed { value: Ok(decimal_value(token) as u8), position: after }
            }
        } else {
            Parsed { value: Ok(1u8), position }
        },
    }
}

/// The element at `position`: a symbol and its optional count.
#[verifier::opaque]
pub open spec fn element(text: Seq<char>, position: int) -> Parsed<ElementView> {
    let taken = take_token(text, position);
    match taken.value {
        Err(error) => Parsed { value: Err(error), position: taken.position },
        Ok(token) => if RegularExpression::Symbol.match_len(token) > 0 {
            let number = optional_number(text, taken.position);
            match number.value {
                Err(error) => Parsed { value: Err(error), position: number.position },
                Ok(count) => Parsed {
                    value: Ok(ElementView { name: token, count: count as nat }),
                    position: number.position,
                },
            }
        } else {
            Parsed { value: Err(ParserError::ElementIsNotParsed), position: taken.position }
        },
    }
}

/// The group at `position`: `(`, at least one element or group, `)`, and an
/// optional count.
pub open spec fn group(text: Seq<char>, position: int) -> Parsed<GroupView>
    decreases text.len() - position, 0int,
{
    let opened = consume(text, position, mark('('));
    match opened.value {
        Err(error) => Parsed { value: Err(error), position: opened.position },
        Ok(_) => {
            let listed = group_items(text, opened.position, position, Seq::empty());
            match listed.value {
                Err(error) => Parsed { value: Err(error), position: listed.position },
                Ok(items) => {
                    let number = optional_number(text, listed.position);
                    match number.value {
                        Err(error) => Parsed { value: Err(error), position: number.position },
                        Ok(count) => Parsed {
                            value: Ok(GroupView { items, count: count as nat }),
                            position: number.position,
                        },
                    }
                },
            }
        },
    }
}

/// The rest of the items of a group that started at `start`, after the
/// items `items`, up to and with the closing parenthesis.
pub open spec fn group_items(text: Seq<char>, position: int, start: int, items: Seq<ItemView>)
    -> Parsed<Seq<ItemView>>
    decreases text.len() - position, 1int,
{
    match next_token(text, position) {
        Err(error) => Parsed { value: Err(error), position },
        Ok(None) => Parsed {
            value: Err(
                ParserError::ElementGroupOrClosingBracketIsExpected {
                    start_index: position as usize,
                },
            ),
            position,
        },
        Ok(Some(token)) => if token == mark('(') {
            let inner = group(text, position);
            match inner.value {
                Err(error) => Parsed { value: Err(error), position: inner.position },
                Ok(found) => group_items(
                    text,
                    onward(text, position, inner.position),
                    start,
                    items.push(ItemView::Group(found)),
                ),
            }
        } else if RegularExpression::Symbol.match_len(token) > 0 {
            let inner = element(text, position);
            match inner.value {
                Err(error) => Parsed { value: Err(error), position: inner.position },
                Ok(found) => group_items(
                    text,
                    onward(text, position, inner.position),
                    start,
                    items.push(ItemView::Element(found)),
                ),
            }
        } else if token == mark(')') {
            let closed = take_token(text, position);
            if items.len() == 0 {
                Parsed {
                    value: Err(
                        ParserError::EmptyGroup {
                            start_index: start as usize,
                            end_index: closed.position as usize,
                        },
                    ),
                    position: closed.position,
                }
            } else {
                Parsed { value: Ok(items), position: closed.position }
            }
        } else {
            Parsed {
                value: Err(
                    ParserError::ElementGroupOrClosingBracketIsExpected {
                        start_index: position as usize,
                    },
                ),
                position,
            }
        },
    }
}

/// The rest of the items of an entity, after the items `items`: elements,
/// groups and `e`, up to a token that is none of them. A number where an
/// item has to start is an error.
pub open spec fn entity_items(text: Seq<char>, position: int, items: Seq<ItemView>, electron: bool)
    -> Parsed<Listed>
    decreases text.len() - position,
{
    match next_token(text, position) {
        Err(error) => Parsed { value: Err(error), position },
        Ok(None) => Parsed { value: Ok(Listed { items, electron }), position },
        Ok(Some(token)) => if token == mark('(') {
            let inner = group(text, position);
            match inner.value {
                Err(error) => Parsed { value: Err(error), position: inner.position },
                Ok(found) => entity_items(
                    text,
                    onward(text, position, inner.position),
                    items.push(ItemView::Group(found)),
                    electron,
                ),
            }
        } else if token == mark('e') {
            entity_items(text, onward(text, position, take_token(text, position).position), items, true)
        } else if RegularExpression::Symbol.match_len(token) > 0 {
            let inner = element(text, position);
            match inner.value {
                Err(error) => Parsed { value: Err(error), position: inner.position },
                Ok(found) => entity_items(
                    text,
                    onward(text, position, inner.position),
                    items.push(ItemView::Element(found)),
                    electron,
                ),
            }
        } else if RegularExpression::Digits.match_len(token) > 0 {
            Parsed {
                value: Err(ParserError::NumberIsNotExpected { start_index: position as usize }),
                position,
            }
        } else {
            Parsed { value: Ok(Listed { items, electron }), position }
        },
    }
}

/// The charge at `position`, if `{` stands there: an optional magnitude of
/// at most 127, a sign, and `}`.
#[verifier::opaque]
pub open spec fn charge(text: Seq<char>, position: int) -> Parsed<Option<i8>> {
    match next_token(text, position) {
        Err(error) => Parsed { value: Err(error), position },
        Ok(None) => Parsed { value: Ok(None), position },
        Ok(Some(token)) => if token != mark('{') {
            Parsed { value: Ok(None), position }
        } else {
            let opened = take_token(text, position).position;
            match next_token(text, opened) {
                Err(error) => Parsed { value: Err(error), position: opened },
                Ok(None) => Parsed {
                    value: Err(
                        ParserError::ChargeOrChargeSignIsExpected { start_index: opened as usize },
                    ),
                    position: opened,
                },
                Ok(Some(_)) => {
                    let number = optional_number(text, opened);
                    match number.value {
                        Err(error) => Parsed { value: Err(error), position: number.position },
                        Ok(magnitude) => if magnitude > 127 {
                            Parsed {
                                value: Err(ParserError::NumberIsTooLarge),
                                position: number.position,
                            }
                        } else {
                            signed_charge(text, number.position, magnitude as int)
                        },
                    }
                },
            }
        },
    }
}

/// The sign at `position` and `}` after it, for a charge of the magnitude
/// `magnitude`.
pub open spec fn signed_charge(text: Seq<char>, position: int, magnitude: int) -> Parsed<
    Option<i8>,
> {
    match next_token(text, position) {
        Err(error) => Parsed { value: Err(error), position },
        Ok(None) => Parsed {
            value: Err(ParserError::ChargeSignIsExpected { start_index: position as usize }),
            position,
        },
        Ok(Some(sign)) => if sign != mark('+') && sign != mark('-') {
            Parsed {
                value: Err(ParserError::ChargeSignIsExpected { start_index: position as usize }),
                position,
            }
        } else {
            let signed = take_token(text, position).position;
            let value = if sign == mark('-') {
                -magnitude
            } else {
                magnitude
            };
            match next_token(text, signed) {
                Err(error) => Parsed { value: Err(error), position: signed },
                Ok(None) => Parsed {
                    value: Err(
                        ParserError::ClosingBracketAfterChargeIsExpected {
                            start_index: signed as usize,
                        },
                    ),
                    position: signed,
                },
                Ok(Some(closing)) => if closing == mark('}') {
                    Parsed {
                        value: Ok(Some(value as i8)),
                        position: take_token(text, signed).position,
                    }
                } else {
                    Parsed {
                        value: Err(
                            ParserError::ClosingBracketAfterChargeIsExpected {
                                start_index: signed as usize,
                            },
                        ),
                        position: signed,
                    }
                },
            }
        },
    }
}

/// The entity that the items and the charge found from `start` to `end`
/// make up. An electron stands alone and has the charge -1; anything else
/// holds at least one item, and has the charge 0 where none is written.
pub open spec fn entity_of(listed: Listed, charge: Option<i8>, start: int, end: int) -> Result<
    EntityView,
    ParserError,
> {
    if listed.electron {
        if listed.items.len() > 0 {
            Err(
                ParserError::ElectronNeedsToStandAlone {
                    start_index: start as usize,
                    end_index: end as usize,
                },
            )
        } else if charge is Some && charge != Some(-1i8) {
            Err(
                ParserError::InvalidChargeForElectron {
                    start_index: start as usize,
                    end_index: end as usize,
                },
            )
        } else {
            Ok(EntityView { items: listed.items, charge: -1 })
        }
    } else if listed.items.len() == 0 {
        Err(ParserError::EntityIsExpected { start_index: start as usize, end_index: end as usize })
    } else {
        Ok(
            EntityView {
                items: listed.items,
                charge: match charge {
                    Some(value) => value as int,
                    None => 0,
                },
            },
        )
    }
}

/// The entity at `position`: its items and its optional charge.
#[verifier::opaque]
pub open spec fn entity(text: Seq<char>, position: int) -> Parsed<EntityView> {
    let listed = entity_items(text, position, Seq::empty(), false);
    match listed.value {
        Err(error) => Parsed { value: Err(error), position: listed.position },
        Ok(found) => {
            let charged = charge(text, listed.position);
            match charged.value {
                Err(error) => Parsed { value: Err(error), position: charged.position },
                Ok(value) => Parsed {
                    value: entity_of(found, value, position, charged.position),
                    position: charged.position,
                },
            }
        },
    }
}

/// The rest of the reactants, after the reactants `reactants`, up to and
/// with `=`.
pub open spec fn more_reactants(text: Seq<char>, position: int, reactants: Seq<EntityView>)
    -> Parsed<Seq<EntityView>>
    decreases text.len() - position,
{
    match next_token(text, position) {
        Err(error) => Parsed { value: Err(error), position },
        Ok(None) => Parsed {
            value: Err(
                ParserError::PlusSignOrEqualSignIsExpected { start_index: position as usize },
            ),
            position,
        },
        Ok(Some(token)) => if token == mark('+') {
            let next = entity(text, take_token(text, position).position);
            match next.value {
                Err(error) => Parsed { value: Err(error), position: next.position },
                Ok(found) => more_reactants(
                    text,
                    onward(text, position, next.position),
                    reactants.push(found),
                ),
            }
        } else if token == mark('=') {
            Parsed { value: Ok(reactants), position: take_token(text, position).position }
        } else {
            Parsed {
                value: Err(
                    ParserError::PlusSignOrEqualSignIsExpected { start_index: position as usize },
                ),
                position,
            }
        },
    }
}

/// The rest of the products, after the products `products`, up to the end
/// of the text.
pub open spec fn more_products(text: Seq<char>, position: int, products: Seq<EntityView>)
    -> Parsed<Seq<EntityView>>
    decreases text.len() - position,
{
    match next_token(text, position) {
        Err(error) => Parsed { value: Err(error), position },
        Ok(None) => Parsed { value: Ok(products), position },
        Ok(Some(token)) => if token == mark('+') {
            let next = entity(text, take_token(text, position).position);
            match next.value {
                Err(error) => Parsed { value: Err(error), position: next.position },
                Ok(found) => more_products(
                    text,
                    onward(text, position, next.position),
                    products.push(found),
                ),
            }
        } else {
            Parsed {
                value: Err(ParserError::PlusSignOrEndIsExpected { start_index: position as usize }),
                position,
            }
        },
    }
}

/// The equation that the text holds from `position` on: white space, the
/// reactants joined by `+`, `=`, and the products joined by `+` up to the
/// end.
pub open spec fn equation(text: Seq<char>, position: int) -> Parsed<EquationView> {
    let first = entity(text, skip_spaces(text, position));
    match first.value {
        Err(error) => Parsed { value: Err(error), position: first.position },
        Ok(reactant) => {
            let left = more_reactants(text, first.position, seq![reactant]);
            match left.value {
                Err(error) => Parsed { value: Err(error), position: left.position },
                Ok(reactants) => {
                    let second = entity(text, left.position);
                    match second.value {
                        Err(error) => Parsed { value: Err(error), position: second.position },
                        Ok(product) => {
                            let right = more_products(text, second.position, seq![product]);
                            match right.value {
                                Err(error) => Parsed {
                                    value: Err(error),
                                    position: right.position,
                                },
                                Ok(products) => Parsed {
                                    value: Ok(EquationView { reactants, products }),
                                    position: right.position,
                                },
                            }
                        },
                    }
                },
            }
        },
    }
}

} // verus!
