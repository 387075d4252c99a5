//! The recursive-descent parser of equations.
//!
//! Every method returns what the function of the same name in `grammar`
//! yields for the text and the position of the cursor, and leaves the cursor
//! where that function says.

use vstd::prelude::*;
use vstd::string::*;
use crate::element::Element;
use crate::entity::Entity;
use crate::equation::{entity_views, Equation};
use crate::grammar;
use crate::grammar::{mark, Listed};
use crate::group::Group;
use crate::item::{item_views, lemma_item_view, lemma_item_views, lemma_item_views_push, Item};
use crate::parser_error::ParserError;
use crate::regular_expression::{lemma_match_len_bound, lemma_number_token, RegularExpression};
use crate::text::{parse_u8, same_text};

verus! {

/// A cursor in the text of an equation.
pub struct Parser<'eq> {
    /// The text.
    pub equation: &'eq str,
    /// The number of characters before the cursor.
    pub position: usize,
}

/// What a method returned is what the grammar yields, the value taken by
/// its view.
pub open spec fn agrees<T: View>(result: Result<T, ParserError>, value: Result<T::V, ParserError>)
    -> bool {
    match result {
        Ok(found) => value == Ok::<T::V, ParserError>(found@),
        Err(error) => value == Err::<T::V, ParserError>(error),
    }
}

/// The token that a method returned is the one that the grammar yields.
pub open spec fn token_agrees(
    token: Result<Option<String>, ParserError>,
    value: Result<Option<Seq<char>>, ParserError>,
) -> bool {
    match token {
        Ok(Some(found)) => value == Ok::<Option<Seq<char>>, ParserError>(Some(found@)),
        Ok(None) => value == Ok::<Option<Seq<char>>, ParserError>(None),
        Err(error) => value == Err::<Option<Seq<char>>, ParserError>(error),
    }
}

impl<'eq> Parser<'eq> {
    /// The cursor stands within the text or at its end, and the length of
    /// the text is a machine integer.
    pub open spec fn wf(&self) -> bool {
        self.position <= self.equation@.len() <= usize::MAX
    }

    /// Parser constructor.
    pub fn new(equation: &'eq str) -> (parser: Parser<'eq>)
        ensures
            parser.equation == equation,
            parser.position == 0,
            parser.wf(),
    {
        let length: usize = equation.unicode_len();
        Parser { equation, position: 0 }
    }

    /// Returns a substring.
    pub fn get_substring(&self) -> (rest: &str)
        requires
            self.wf(),
        ensures
            rest@ == self.equation@.skip(self.position as int),
    {
        let end = self.equation.unicode_len();
        let rest = self.equation.substring_char(self.position, end);
        assert(rest@ =~= self.equation@.skip(self.position as int));
        rest
    }

    /// Returns the next token.
    pub fn get_next_token(&self) -> (token: Result<Option<String>, ParserError>)
        requires
            self.wf(),
        ensures
            token_agrees(token, grammar::next_token(self.equation@, self.position as int)),
            token matches Ok(Some(found)) ==> 0 < found@.len() <= self.equation@.len()
                - self.position,
    {
        if self.position == self.equation.unicode_len() {
            return Ok(None);
        }
        let ghost rest = self.equation@.skip(self.position as int);
        proof {
            lemma_match_len_bound(RegularExpression::Token, rest);
        }
        match RegularExpression::Token.captures(self.get_substring()) {
            Some(found) => {
                assert(found@ =~= self.equation@.subrange(
                    self.position as int,
                    self.position + RegularExpression::Token.match_len(rest),
                ));
                Ok(Some(found))
            },
            None => Err(ParserError::InvalidSymbol { start_index: self.position }),
        }
    }

    /// Takes a token.
    pub fn take_token(&mut self) -> (token: Result<String, ParserError>)
        requires
            old(self).wf(),
        ensures
            final(self).wf(),
            final(self).equation == old(self).equation,
            agrees(token, grammar::take_token(old(self).equation@, old(self).position as int).value),
            final(self).position == grammar::take_token(
                old(self).equation@,
                old(self).position as int,
            ).position,
            final(self).position >= old(self).position,
            token is Ok ==> final(self).position > old(self).position,
    {
        let next_token = match self.get_next_token() {
            Err(error) => {
                return Err(error);
            },
            Ok(None) => {
                return Err(ParserError::AdvancingBeyondLastToken);
            },
            Ok(Some(found)) => found,
        };
        self.position += next_token.as_str().unicode_len();
        self.skip_spaces();
        Ok(next_token)
    }

    /// Consumes a string.
    pub fn consume(&mut self, string: &str) -> (result: Result<(), ParserError>)
        requires
            old(self).wf(),
        ensures
            final(self).wf(),
            final(self).equation == old(self).equation,
            result == grammar::consume(
                old(self).equation@,
                old(self).position as int,
                string@,
            ).value,
            final(self).position == grammar::consume(
                old(self).equation@,
                old(self).position as int,
                string@,
            ).position,
            final(self).position >= old(self).position,
            result is Ok ==> final(self).position > old(self).position,
    {
        match self.take_token() {
            Err(error) => Err(error),
            Ok(token) => if same_text(token.as_str(), string) {
                Ok(())
            } else {
                Err(ParserError::TokenDoesNotMatchString)
            },
        }
    }

    /// Skips the spaces.
    pub fn skip_spaces(&mut self)
        requires
            old(self).wf(),
        ensures
            final(self).wf(),
            final(self).equation == old(self).equation,
            final(self).position == grammar::skip_spaces(
                old(self).equation@,
                old(self).position as int,
            ),
            final(self).position >= old(self).position,
    {
        proof {
            lemma_match_len_bound(
                RegularExpression::Spaces,
                self.equation@.skip(self.position as int),
            );
        }
        if let Some(found) = RegularExpression::Spaces.captures(self.get_substring()) {
            self.position += found.as_str().unicode_len();
        }
    }

    /// Parses an optional number.
    pub fn parse_optional_number(&mut self) -> (number: Result<u8, ParserError>)
        requires
            old(self).wf(),
        ensures
            final(self).wf(),
            final(self).equation == old(self).equation,
            number == grammar::optional_number(
                old(self).equation@,
                old(self).position as int,
            ).value,
            final(self).position == grammar::optional_number(
                old(self).equation@,
                old(self).position as int,
            ).position,
            final(self).position >= old(self).position,
            number matches Ok(found) ==> found >= 1,
    {
        let ghost rest = self.equation@.skip(self.position as int);
        proof {
            reveal(grammar::optional_number);
        }
        match self.get_next_token() {
            Err(error) => Err(error),
            Ok(None) => Ok(1),
            Ok(Some(found)) => {
                if RegularExpression::Digits.is_match(found.as_str()) {
                    proof {
                        lemma_match_len_bound(RegularExpression::Token, rest);
                        assert(found@ =~= rest.take(
                            RegularExpression::Token.match_len(rest) as int,
                        ));
                        lemma_number_token(rest);
                    }
                    let value = parse_u8(found.as_str());
                    if let Some(0) = value {
                        return Err(ParserError::NumberIsNotExpected { start_index: self.position });
                    }
                    match self.take_token() {
                        Err(error) => Err(error),
                        Ok(_) => match value {
                            Some(value) => Ok(value),
                            None => Err(ParserError::NumberIsTooLarge),
                        },
                    }
                } else {
                    Ok(1)
                }
            },
        }
    }

    /// Parses an element.
    pub fn parse_element(&mut self) -> (element: Result<Element, ParserError>)
        requires
            old(self).wf(),
        ensures
            final(self).wf(),
            final(self).equation == old(self).equation,
            agrees(element, grammar::element(old(self).equation@, old(self).position as int).value),
            final(self).position == grammar::element(
                old(self).equation@,
                old(self).position as int,
            ).position,
            final(self).position >= old(self).position,
            element is Ok ==> final(self).position > old(self).position,
    {
        proof {
            reveal(grammar::element);
        }
        let token = match self.take_token() {
            Err(error) => {
                return Err(error);
            },
            Ok(token) => token,
        };
        if RegularExpression::Symbol.is_match(token.as_str()) {
            match self.parse_optional_number() {
                Err(error) => Err(error),
                Ok(count) => Ok(Element::new(token, count)),
            }
        } else {
            Err(ParserError::ElementIsNotParsed)
        }
    }

    /// Parses a group.
    pub fn parse_group(&mut self) -> (group: Result<Group, ParserError>)
        requires
            old(self).wf(),
        ensures
            final(self).wf(),
            final(self).equation == old(self).equation,
            agrees(group, grammar::group(old(self).equation@, old(self).position as int).value),
            final(self).position == grammar::group(
                old(self).equation@,
                old(self).position as int,
            ).position,
            final(self).position >= old(self).position,
            group is Ok ==> final(self).position > old(self).position,
        decreases old(self).equation@.len() - old(self).position,
    {
        let ghost text = self.equation@;
        let start_position = self.position;
        let mut items: Vec<Item> = Vec::new();
        proof {
            reveal_strlit("(");
            reveal_strlit(")");
            assert("("@ =~= mark('('));
            assert(")"@ =~= mark(')'));
        }
        match self.consume("(") {
            Err(error) => {
                return Err(error);
            },
            Ok(_) => {},
        }
        let ghost opened = self.position as int;
        let ghost goal = grammar::group_items(text, opened, start_position as int, Seq::empty());
        loop
            invariant_except_break
                grammar::group_items(
                    text,
                    self.position as int,
                    start_position as int,
                    item_views(items@),
                ) == goal,
            invariant
                self.wf(),
                self.equation == old(self).equation,
                text == self.equation@,
                start_position == old(self).position,
                start_position < self.position,
                "("@ == mark('('),
                ")"@ == mark(')'),
                grammar::consume(text, start_position as int, mark('(')).value == Ok::<
                    (),
                    ParserError,
                >(()),
                grammar::consume(text, start_position as int, mark('(')).position == opened,
                goal == grammar::group_items(text, opened, start_position as int, Seq::empty()),
            ensures
                goal.value == Ok::<Seq<crate::item::ItemView>, ParserError>(item_views(items@)),
                goal.position == self.position,
            decreases text.len() - self.position,
        {
            let ghost here = self.position as int;
            let ghost before = item_views(items@);
            let next_token = match self.get_next_token() {
                Err(error) => {
                    return Err(error);
                },
                Ok(None) => {
                    return Err(
                        ParserError::ElementGroupOrClosingBracketIsExpected {
                            start_index: self.position,
                        },
                    );
                },
                Ok(Some(found)) => found,
            };
            if same_text(next_token.as_str(), "(") {
                match self.parse_group() {
                    Err(error) => {
                        return Err(error);
                    },
                    Ok(found) => {
                        proof {
                            lemma_item_views_push(items@, Item::Group(found));
                            lemma_item_view(Item::Group(found));
                        }
                        items.push(Item::Group(found));
                    },
                }
            } else if RegularExpression::Symbol.is_match(next_token.as_str()) {
                match self.parse_element() {
                    Err(error) => {
                        return Err(error);
                    },
                    Ok(found) => {
                        proof {
                            lemma_item_views_push(items@, Item::Element(found));
                            lemma_item_view(Item::Element(found));
                        }
                        items.push(Item::Element(found));
                    },
                }
            } else if same_text(next_token.as_str(), ")") {
                match self.consume(")") {
                    Err(error) => {
                        return Err(error);
                    },
                    Ok(_) => {},
                }
                proof {
                    lemma_item_views(items@);
                }
                if items.len() == 0 {
                    return Err(
                        ParserError::EmptyGroup {
                            start_index: start_position,
                            end_index: self.position,
                        },
                    );
                }
                break ;
            } else {
                return Err(
                    ParserError::ElementGroupOrClosingBracketIsExpected {
                        start_index: self.position,
                    },
                );
            }
        }
        match self.parse_optional_number() {
            Err(error) => Err(error),
            Ok(count) => Ok(Group::new(items, count)),
        }
    }

    /// Parses the charge of an entity, if one is written.
    pub fn parse_charge(&mut self) -> (charge: Result<Option<i8>, ParserError>)
        requires
            old(self).wf(),
        ensures
            final(self).wf(),
            final(self).equation == old(self).equation,
            charge == grammar::charge(old(self).equation@, old(self).position as int).value,
            final(self).position == grammar::charge(
                old(self).equation@,
                old(self).position as int,
            ).position,
            final(self).position >= old(self).position,
    {
        proof {
            reveal(grammar::charge);
            reveal_strlit("{");
            reveal_strlit("}");
            reveal_strlit("+");
            reveal_strlit("-");
            assert("{"@ =~= mark('{'));
            assert("}"@ =~= mark('}'));
            assert("+"@ =~= mark('+'));
            assert("-"@ =~= mark('-'));
        }
        match self.get_next_token() {
            Err(error) => {
                return Err(error);
            },
            Ok(None) => {
                return Ok(None);
            },
            Ok(Some(found)) => {
                if !same_text(found.as_str(), "{") {
                    return Ok(None);
                }
            },
        }
        match self.consume("{") {
            Err(error) => {
                return Err(error);
            },
            Ok(_) => {},
        }
        match self.get_next_token() {
            Err(error) => {
                return Err(error);
            },
            Ok(None) => {
                return Err(
                    ParserError::ChargeOrChargeSignIsExpected { start_index: self.position },
                );
            },
            Ok(Some(_)) => {},
        }
        let number = match self.parse_optional_number() {
            Err(error) => {
                return Err(error);
            },
            Ok(number) => number,
        };
        if number > 127 {
            return Err(ParserError::NumberIsTooLarge);
        }
        let mut charge: i8 = number as i8;
        match self.get_next_token() {
            Err(error) => {
                return Err(error);
            },
            Ok(None) => {
                return Err(ParserError::ChargeSignIsExpected { start_index: self.position });
            },
            Ok(Some(found)) => {
                if same_text(found.as_str(), "-") {
                    charge = -charge;
                } else if !same_text(found.as_str(), "+") {
                    return Err(ParserError::ChargeSignIsExpected { start_index: self.position });
                }
            },
        }
        match self.take_token() {
            Err(error) => {
                return Err(error);
            },
            Ok(_) => {},
        }
        match self.get_next_token() {
            Err(error) => {
                return Err(error);
            },
            Ok(None) => {
                return Err(
                    ParserError::ClosingBracketAfterChargeIsExpected {
                        start_index: self.position,
                    },
                );
            },
            Ok(Some(found)) => {
                if same_text(found.as_str(), "}") {
                    match self.consume("}") {
                        Err(error) => {
                            return Err(error);
                        },
                        Ok(_) => {},
                    }
                } else {
                    return Err(
                        ParserError::ClosingBracketAfterChargeIsExpected {
                            start_index: self.position,
                        },
                    );
                }
            },
        }
        Ok(Some(charge))
    }

    /// Parses an entity.
    pub fn parse_entity(&mut self) -> (entity: Result<Entity, ParserError>)
        requires
            old(self).wf(),
        ensures
            final(self).wf(),
            final(self).equation == old(self).equation,
            agrees(entity, grammar::entity(old(self).equation@, old(self).position as int).value),
            final(self).position == grammar::entity(
                old(self).equation@,
                old(self).position as int,
            ).position,
            final(self).position >= old(self).position,
            entity is Ok ==> final(self).position > old(self).position,
    {
        let ghost text = self.equation@;
        let start_position = self.position;
        let mut items: Vec<Item> = Vec::new();
        let mut is_electron = false;
        proof {
            reveal(grammar::entity);
            reveal_strlit("(");
            reveal_strlit("e");
            assert("("@ =~= mark('('));
            assert("e"@ =~= mark('e'));
        }
        let ghost goal = grammar::entity_items(text, start_position as int, Seq::empty(), false);
        let ghost whole = grammar::entity(text, start_position as int);
        loop
            invariant_except_break
                grammar::entity_items(text, self.position as int, item_views(items@), is_electron)
                    == goal,
            invariant
                goal.value is Err ==> whole.value == Err::<crate::entity::EntityView, ParserError>(
                    goal.value->Err_0,
                ) && whole.position == goal.position,
                whole == grammar::entity(text, start_position as int),
                self.wf(),
                self.equation == old(self).equation,
                text == self.equation@,
                start_position == old(self).position,
                start_position <= self.position,
                items@.len() > 0 || is_electron ==> start_position < self.position,
                "("@ == mark('('),
                "e"@ == mark('e'),
                goal == grammar::entity_items(text, start_position as int, Seq::empty(), false),
            ensures
                goal.value == Ok::<Listed, ParserError>(
                    Listed { items: item_views(items@), electron: is_electron },
                ),
                goal.position == self.position,
            decreases text.len() - self.position,
        {
            let next_token = match self.get_next_token() {
                Err(error) => {
                    return Err(error);
                },
                Ok(None) => {
                    break ;
                },
                Ok(Some(found)) => found,
            };
            if same_text(next_token.as_str(), "(") {
                match self.parse_group() {
                    Err(error) => {
                        return Err(error);
                    },
                    Ok(found) => {
                        proof {
                            lemma_item_views_push(items@, Item::Group(found));
                            lemma_item_view(Item::Group(found));
                        }
                        items.push(Item::Group(found));
                    },
                }
            } else if same_text(next_token.as_str(), "e") {
                match self.consume("e") {
                    Err(error) => {
                        return Err(error);
                    },
                    Ok(_) => {},
                }
                is_electron = true;
            } else if RegularExpression::Symbol.is_match(next_token.as_str()) {
                match self.parse_element() {
                    Err(error) => {
                        return Err(error);
                    },
                    Ok(found) => {
                        proof {
                            lemma_item_views_push(items@, Item::Element(found));
                            lemma_item_view(Item::Element(found));
                        }
                        items.push(Item::Element(found));
                    },
                }
            } else if RegularExpression::Digits.is_match(next_token.as_str()) {
                return Err(ParserError::NumberIsNotExpected { start_index: self.position });
            } else {
                break ;
            }
        }
        let charge = match self.parse_charge() {
            Err(error) => {
                return Err(error);
            },
            Ok(charge) => charge,
        };
        proof {
            lemma_item_views(items@);
        }
        if is_electron {
            if items.len() != 0 {
                return Err(
                    ParserError::ElectronNeedsToStandAlone {
                        start_index: start_position,
                        end_index: self.position,
                    },
                );
            }
            match charge {
                Some(value) => {
                    if value != -1 {
                        return Err(
                            ParserError::InvalidChargeForElectron {
                                start_index: start_position,
                                end_index: self.position,
                            },
                        );
                    }
                },
                None => {},
            }
            Ok(Entity::new(items, -1))
        } else {
            if items.len() == 0 {
                return Err(
                    ParserError::EntityIsExpected {
                        start_index: start_position,
                        end_index: self.position,
                    },
                );
            }
            let value: i8 = match charge {
                Some(value) => value,
                None => 0,
            };
            Ok(Entity::new(items, value))
        }
    }

    /// Parses an equation.
    pub fn parse_equation(&mut self) -> (equation: Result<Equation, ParserError>)
        requires
            old(self).wf(),
        ensures
            final(self).wf(),
            final(self).equation == old(self).equation,
            agrees(
                equation,
                grammar::equation(old(self).equation@, old(self).position as int).value,
            ),
            final(self).position == grammar::equation(
                old(self).equation@,
                old(self).position as int,
            ).position,
            equation matches Ok(found) ==> found.reactants@.len() >= 1 && found.products@.len()
                >= 1,
    {
        let ghost text = self.equation@;
        proof {
            reveal_strlit("+");
            reveal_strlit("=");
            assert("+"@ =~= mark('+'));
            assert("="@ =~= mark('='));
        }
        let ghost whole = grammar::equation(text, self.position as int);
        self.skip_spaces();
        let mut reactants: Vec<Entity> = Vec::new();
        match self.parse_entity() {
            Err(error) => {
                return Err(error);
            },
            Ok(found) => {
                reactants.push(found);
                assert(entity_views(reactants@) =~= seq![found@]);
            },
        }
        let ghost goal = grammar::more_reactants(text, self.position as int, entity_views(reactants@));
        loop
            invariant_except_break
                grammar::more_reactants(text, self.position as int, entity_views(reactants@))
                    == goal,
            invariant
                goal.value is Err ==> whole.value == Err::<
                    crate::equation::EquationView,
                    ParserError,
                >(goal.value->Err_0) && whole.position == goal.position,
                whole == grammar::equation(old(self).equation@, old(self).position as int),
                self.wf(),
                self.equation == old(self).equation,
                text == self.equation@,
                reactants@.len() >= 1,
                "+"@ == mark('+'),
                "="@ == mark('='),
            ensures
                goal.value == Ok::<Seq<crate::entity::EntityView>, ParserError>(
                    entity_views(reactants@),
                ),
                goal.position == self.position,
            decreases text.len() - self.position,
        {
            let next_token = match self.get_next_token() {
                Err(error) => {
                    return Err(error);
                },
                Ok(None) => {
                    return Err(
                        ParserError::PlusSignOrEqualSignIsExpected { start_index: self.position },
                    );
                },
                Ok(Some(found)) => found,
            };
            if same_text(next_token.as_str(), "+") {
                match self.consume("+") {
                    Err(error) => {
                        return Err(error);
                    },
                    Ok(_) => {},
                }
                match self.parse_entity() {
                    Err(error) => {
                        return Err(error);
                    },
                    Ok(found) => {
                        assert(entity_views(reactants@.push(found)) =~= entity_views(
                            reactants@,
                        ).push(found@));
                        reactants.push(found);
                    },
                }
            } else if same_text(next_token.as_str(), "=") {
                match self.consume("=") {
                    Err(error) => {
                        return Err(error);
                    },
                    Ok(_) => {},
                }
                break ;
            } else {
                return Err(
                    ParserError::PlusSignOrEqualSignIsExpected { start_index: self.position },
                );
            }
        }
        let mut products: Vec<Entity> = Vec::new();
        match self.parse_entity() {
            Err(error) => {
                return Err(error);
            },
            Ok(found) => {
                products.push(found);
                assert(entity_views(products@) =~= seq![found@]);
            },
        }
        let ghost rest = grammar::more_products(text, self.position as int, entity_views(products@));
        loop
            invariant_except_break
                grammar::more_products(text, self.position as int, entity_views(products@))
                    == rest,
            invariant
                rest.value is Err ==> whole.value == Err::<
                    crate::equation::EquationView,
                    ParserError,
                >(rest.value->Err_0) && whole.position == rest.position,
                whole == grammar::equation(old(self).equation@, old(self).position as int),
                self.wf(),
                self.equation == old(self).equation,
                text == self.equation@,
                products@.len() >= 1,
                "+"@ == mark('+'),
            ensures
                rest.value == Ok::<Seq<crate::entity::EntityView>, ParserError>(
                    entity_views(products@),
                ),
                rest.position == self.position,
            decreases text.len() - self.position,
        {
            let next_token = match self.get_next_token() {
                Err(error) => {
                    return Err(error);
                },
                Ok(None) => {
                    break ;
                },
                Ok(Some(found)) => found,
            };
            if same_text(next_token.as_str(), "+") {
                match self.consume("+") {
                    Err(error) => {
                        return Err(error);
                    },
                    Ok(_) => {},
                }
                match self.parse_entity() {
                    Err(error) => {
                        return Err(error);
                    },
                    Ok(found) => {
                        assert(entity_views(products@.push(found)) =~= entity_views(
                            products@,
                        ).push(found@));
                        products.push(found);
                    },
                }
            } else {
                return Err(ParserError::PlusSignOrEndIsExpected { start_index: self.position });
            }
        }
        Ok(Equation::new(reactants, products))
    }
}

} // verus!
