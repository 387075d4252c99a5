//! What holds of every equation that the parser yields.

use vstd::prelude::*;
use crate::canonical::{is_symbol, plain_entities, plain_item, plain_items};
use crate::entity::EntityView;
use crate::equation::EquationView;
use crate::grammar;
use crate::item::ItemView;
use crate::parser_error::ParserError;
use crate::regular_expression::{
    is_lower, lemma_match_len_bound, lemma_run_len, symbol_len, RegularExpression,
};

verus! {

/// An entity as the parser yields it: plain items, with names that are
/// symbols and counts from 1 to 255, at least one of them unless it is an
/// electron, and a charge of a magnitude up to 127.
pub open spec fn valid_entity(entity: EntityView) -> bool {
    &&& plain_items(entity.items)
    &&& entity.items.len() >= 1 || entity.charge == -1
    &&& -127 <= entity.charge <= 127
}

/// Every entity of the list is valid.
pub open spec fn valid_entities(entities: Seq<EntityView>) -> bool {
    forall|i: int| 0 <= i < entities.len() ==> valid_entity(#[trigger] entities[i])
}

/// An equation as the parser yields it: a reactant, a product, and valid
/// entities.
pub open spec fn valid_equation(equation: EquationView) -> bool {
    &&& equation.reactants.len() >= 1
    &&& equation.products.len() >= 1
    &&& valid_entities(equation.reactants)
    &&& valid_entities(equation.products)
}

/// No entity of the list has a charge, and none is an electron.
pub open spec fn neutral(entities: Seq<EntityView>) -> bool {
    forall|i: int|
        0 <= i < entities.len() ==> (#[trigger] entities[i]).charge == 0 && entities[i].items.len()
            >= 1
}

/// A list of plain items with one more plain item at its end is a list of
/// plain items.
pub proof fn lemma_plain_items_push(items: Seq<ItemView>, item: ItemView)
    requires
        plain_items(items),
        plain_item(item),
    ensures
        plain_items(items.push(item)),
    decreases items.len(),
{
    let longer = items.push(item);
    if items.len() == 0 {
        assert(longer[0] == item);
        assert(longer.drop_first().len() == 0);
        assert(plain_items(longer.drop_first()));
    } else {
        assert(plain_item(items[0]) && plain_items(items.drop_first()));
        lemma_plain_items_push(items.drop_first(), item);
        assert(longer.drop_first() =~= items.drop_first().push(item));
        assert(longer[0] == items[0]);
    }
}

/// Valid entities without charge, none of them an electron, are plain.
pub proof fn lemma_neutral_is_plain(entities: Seq<EntityView>)
    requires
        valid_entities(entities),
        neutral(entities),
    ensures
        plain_entities(entities),
    decreases entities.len(),
{
    if entities.len() > 0 {
        let rest = entities.drop_first();
        assert(valid_entity(entities[0]));
        assert forall|i: int| 0 <= i < rest.len() implies valid_entity(#[trigger] rest[i]) by {
            assert(rest[i] == entities[i + 1]);
        }
        assert forall|i: int| 0 <= i < rest.len() implies (#[trigger] rest[i]).charge == 0
            && rest[i].items.len() >= 1 by {
            assert(rest[i] == entities[i + 1]);
        }
        lemma_neutral_is_plain(rest);
    }
}

/// A number that is read is at least 1 and at most 255.
pub proof fn lemma_number_range(text: Seq<char>, position: int)
    ensures
        grammar::optional_number(text, position).value matches Ok(number) ==> 1 <= number <= 255,
{
    reveal(grammar::optional_number);
}

/// The name of a parsed element is a symbol, and its count is from 1 to
/// 255.
pub proof fn lemma_parsed_element(text: Seq<char>, position: int)
    requires
        grammar::element(text, position).value is Ok,
    ensures
        plain_item(ItemView::Element(grammar::element(text, position).value->Ok_0)),
{
    reveal(grammar::element);
    reveal(grammar::optional_number);
    let rest = text.skip(position);
    let len = RegularExpression::Token.match_len(rest);
    lemma_match_len_bound(RegularExpression::Token, rest);
    let token = text.subrange(position, position + len);
    assert(grammar::take_token(text, position).value == Ok::<
        Seq<char>,
        crate::parser_error::ParserError,
    >(token));
    assert(token[0] == rest[0]);
    assert(symbol_len(rest) > 0);
    lemma_run_len(rest.skip(1), |c: char| is_lower(c));
    assert forall|i: int| 1 <= i < token.len() implies is_lower(#[trigger] token[i]) by {
        assert(token[i] == rest[i]);
        assert(rest.skip(1)[i - 1] == rest[i]);
    }
    assert(is_symbol(token));
}

/// A parsed group holds at least one item, plain items only, and has a
/// count from 1 to 255.
pub proof fn lemma_parsed_group(text: Seq<char>, position: int)
    requires
        grammar::group(text, position).value is Ok,
    ensures
        plain_item(ItemView::Group(grammar::group(text, position).value->Ok_0)),
    decreases text.len() - position, 0int,
{
    let opened = grammar::consume(text, position, grammar::mark('('));
    lemma_parsed_group_items(text, opened.position, position, Seq::empty());
    let listed = grammar::group_items(text, opened.position, position, Seq::empty());
    lemma_number_range(text, listed.position);
}

/// The items of a parsed group are plain, and at least one.
pub proof fn lemma_parsed_group_items(
    text: Seq<char>,
    position: int,
    start: int,
    items: Seq<ItemView>,
)
    requires
        plain_items(items),
        grammar::group_items(text, position, start, items).value is Ok,
    ensures
        plain_items(grammar::group_items(text, position, start, items).value->Ok_0),
        grammar::group_items(text, position, start, items).value->Ok_0.len() >= 1,
    decreases text.len() - position, 1int,
{
    let token = grammar::next_token(text, position)->Ok_0->0;
    if token == grammar::mark('(') {
        let inner = grammar::group(text, position);
        lemma_parsed_group(text, position);
        let found = ItemView::Group(inner.value->Ok_0);
        lemma_plain_items_push(items, found);
        lemma_parsed_group_items(
            text,
            grammar::onward(text, position, inner.position),
            start,
            items.push(found),
        );
    } else if RegularExpression::Symbol.match_len(token) > 0 {
        let inner = grammar::element(text, position);
        lemma_parsed_element(text, position);
        let found = ItemView::Element(inner.value->Ok_0);
        lemma_plain_items_push(items, found);
        lemma_parsed_group_items(
            text,
            grammar::onward(text, position, inner.position),
            start,
            items.push(found),
        );
    }
}

/// The items of a parsed entity are plain.
pub proof fn lemma_parsed_entity_items(
    text: Seq<char>,
    position: int,
    items: Seq<ItemView>,
    electron: bool,
)
    requires
        plain_items(items),
        grammar::entity_items(text, position, items, electron).value is Ok,
    ensures
        plain_items(grammar::entity_items(text, position, items, electron).value->Ok_0.items),
    decreases text.len() - position,
{
    match grammar::next_token(text, position) {
        Ok(Some(token)) => {
            if token == grammar::mark('(') {
                let inner = grammar::group(text, position);
                lemma_parsed_group(text, position);
                let found = ItemView::Group(inner.value->Ok_0);
                lemma_plain_items_push(items, found);
                lemma_parsed_entity_items(
                    text,
                    grammar::onward(text, position, inner.position),
                    items.push(found),
                    electron,
                );
            } else if token == grammar::mark('e') {
                lemma_parsed_entity_items(
                    text,
                    grammar::onward(text, position, grammar::take_token(text, position).position),
                    items,
                    true,
                );
            } else if RegularExpression::Symbol.match_len(token) > 0 {
                let inner = grammar::element(text, position);
                lemma_parsed_element(text, position);
                let found = ItemView::Element(inner.value->Ok_0);
                lemma_plain_items_push(items, found);
                lemma_parsed_entity_items(
                    text,
                    grammar::onward(text, position, inner.position),
                    items.push(found),
                    electron,
                );
            }
        },
        _ => {},
    }
}

/// A parsed entity is valid.
pub proof fn lemma_parsed_entity(text: Seq<char>, position: int)
    requires
        grammar::entity(text, position).value is Ok,
    ensures
        valid_entity(grammar::entity(text, position).value->Ok_0),
{
    reveal(grammar::entity);
    reveal(grammar::charge);
    assert(plain_items(Seq::<ItemView>::empty()));
    lemma_parsed_entity_items(text, position, Seq::empty(), false);
}

/// The reactants of a parsed equation are valid.
pub proof fn lemma_parsed_reactants(text: Seq<char>, position: int, reactants: Seq<EntityView>)
    requires
        valid_entities(reactants),
        grammar::more_reactants(text, position, reactants).value is Ok,
    ensures
        valid_entities(grammar::more_reactants(text, position, reactants).value->Ok_0),
        grammar::more_reactants(text, position, reactants).value->Ok_0.len() >= reactants.len(),
    decreases text.len() - position,
{
    let token = grammar::next_token(text, position)->Ok_0->0;
    if token == grammar::mark('+') {
        let start = grammar::take_token(text, position).position;
        let next = grammar::entity(text, start);
        lemma_parsed_entity(text, start);
        let longer = reactants.push(next.value->Ok_0);
        assert forall|i: int| 0 <= i < longer.len() implies valid_entity(#[trigger] longer[i]) by {
            if i < reactants.len() {
                assert(longer[i] == reactants[i]);
            }
        }
        lemma_parsed_reactants(text, grammar::onward(text, position, next.position), longer);
    }
}

/// The products of a parsed equation are valid.
pub proof fn lemma_parsed_products(text: Seq<char>, position: int, products: Seq<EntityView>)
    requires
        valid_entities(products),
        grammar::more_products(text, position, products).value is Ok,
    ensures
        valid_entities(grammar::more_products(text, position, products).value->Ok_0),
        grammar::more_products(text, position, products).value->Ok_0.len() >= products.len(),
    decreases text.len() - position,
{
    match grammar::next_token(text, position) {
        Ok(Some(token)) => {
            if token == grammar::mark('+') {
                let start = grammar::take_token(text, position).position;
                let next = grammar::entity(text, start);
                lemma_parsed_entity(text, start);
                let longer = products.push(next.value->Ok_0);
                assert forall|i: int| 0 <= i < longer.len() implies valid_entity(
                    #[trigger] longer[i],
                ) by {
                    if i < products.len() {
                        assert(longer[i] == products[i]);
                    }
                }
                lemma_parsed_products(text, grammar::onward(text, position, next.position), longer);
            }
        },
        _ => {},
    }
}

/// A parsed equation is valid.
pub proof fn lemma_parsed_equation(text: Seq<char>, position: int)
    requires
        grammar::equation(text, position).value is Ok,
    ensures
        valid_equation(grammar::equation(text, position).value->Ok_0),
{
    let start = grammar::skip_spaces(text, position);
    let first = grammar::entity(text, start);
    lemma_parsed_entity(text, start);
    let left = grammar::more_reactants(text, first.position, seq![first.value->Ok_0]);
    lemma_parsed_reactants(text, first.position, seq![first.value->Ok_0]);
    let second = grammar::entity(text, left.position);
    lemma_parsed_entity(text, left.position);
    lemma_parsed_products(text, second.position, seq![second.value->Ok_0]);
}

/// An error that tells what is wrong with a text. The three other kinds
/// tell that a method of the parser was called where the grammar has no
/// use for it.
pub open spec fn tells_of_the_text(error: ParserError) -> bool {
    &&& error != ParserError::AdvancingBeyondLastToken
    &&& error != ParserError::TokenDoesNotMatchString
    &&& error != ParserError::ElementIsNotParsed
}

/// Whether a step failed with an error that does not tell of the text.
pub open spec fn misused<T>(value: Result<T, ParserError>) -> bool {
    value is Err && !tells_of_the_text(value->Err_0)
}

/// Reading an optional number fails only with errors that tell of the
/// text.
pub proof fn lemma_number_errors(text: Seq<char>, position: int)
    ensures
        !misused(grammar::optional_number(text, position).value),
{
    reveal(grammar::optional_number);
}

/// Reading an element where a symbol stands fails only with errors that
/// tell of the text.
pub proof fn lemma_element_errors(text: Seq<char>, position: int)
    requires
        grammar::next_token(text, position) is Ok,
        grammar::next_token(text, position)->Ok_0 is Some,
        RegularExpression::Symbol.match_len(grammar::next_token(text, position)->Ok_0->0) > 0,
    ensures
        !misused(grammar::element(text, position).value),
{
    reveal(grammar::element);
    lemma_number_errors(text, grammar::take_token(text, position).position);
}

/// Reading a group where `(` stands fails only with errors that tell of
/// the text.
pub proof fn lemma_group_errors(text: Seq<char>, position: int)
    requires
        grammar::next_token(text, position) == Ok::<Option<Seq<char>>, ParserError>(
            Some(grammar::mark('(')),
        ),
    ensures
        !misused(grammar::group(text, position).value),
    decreases text.len() - position, 0int,
{
    let opened = grammar::consume(text, position, grammar::mark('('));
    lemma_group_items_errors(text, opened.position, position, Seq::empty());
    let listed = grammar::group_items(text, opened.position, position, Seq::empty());
    lemma_number_errors(text, listed.position);
}

/// Reading the items of a group fails only with errors that tell of the
/// text.
pub proof fn lemma_group_items_errors(
    text: Seq<char>,
    position: int,
    start: int,
    items: Seq<ItemView>,
)
    ensures
        !misused(grammar::group_items(text, position, start, items).value),
    decreases text.len() - position, 1int,
{
    match grammar::next_token(text, position) {
        Ok(Some(token)) => {
            if token == grammar::mark('(') {
                let inner = grammar::group(text, position);
                lemma_group_errors(text, position);
                if inner.value is Ok {
                    lemma_group_items_errors(
                        text,
                        grammar::onward(text, position, inner.position),
                        start,
                        items.push(ItemView::Group(inner.value->Ok_0)),
                    );
                }
            } else if RegularExpression::Symbol.match_len(token) > 0 {
                let inner = grammar::element(text, position);
                lemma_element_errors(text, position);
                if inner.value is Ok {
                    lemma_group_items_errors(
                        text,
                        grammar::onward(text, position, inner.position),
                        start,
                        items.push(ItemView::Element(inner.value->Ok_0)),
                    );
                }
            }
        },
        _ => {},
    }
}

/// Reading the items of an entity fails only with errors that tell of the
/// text.
pub proof fn lemma_entity_items_errors(
    text: Seq<char>,
    position: int,
    items: Seq<ItemView>,
    electron: bool,
)
    ensures
        !misused(grammar::entity_items(text, position, items, electron).value),
    decreases text.len() - position,
{
    match grammar::next_token(text, position) {
        Ok(Some(token)) => {
            if token == grammar::mark('(') {
                let inner = grammar::group(text, position);
                lemma_group_errors(text, position);
                if inner.value is Ok {
                    lemma_entity_items_errors(
                        text,
                        grammar::onward(text, position, inner.position),
                        items.push(ItemView::Group(inner.value->Ok_0)),
                        electron,
                    );
                }
            } else if token == grammar::mark('e') {
                lemma_entity_items_errors(
                    text,
                    grammar::onward(text, position, grammar::take_token(text, position).position),
                    items,
                    true,
                );
            } else if RegularExpression::Symbol.match_len(token) > 0 {
                let inner = grammar::element(text, position);
                lemma_element_errors(text, position);
                if inner.value is Ok {
                    lemma_entity_items_errors(
                        text,
                        grammar::onward(text, position, inner.position),
                        items.push(ItemView::Element(inner.value->Ok_0)),
                        electron,
                    );
                }
            }
        },
        _ => {},
    }
}

/// Reading a charge fails only with errors that tell of the text.
pub proof fn lemma_charge_errors(text: Seq<char>, position: int)
    ensures
        !misused(grammar::charge(text, position).value),
{
    reveal(grammar::charge);
    match grammar::next_token(text, position) {
        Ok(Some(token)) => {
            if token == grammar::mark('{') {
                let opened = grammar::take_token(text, position).position;
                lemma_number_errors(text, opened);
            }
        },
        _ => {},
    }
}

/// Reading an entity fails only with errors that tell of the text.
pub proof fn lemma_entity_errors(text: Seq<char>, position: int)
    ensures
        !misused(grammar::entity(text, position).value),
{
    reveal(grammar::entity);
    lemma_entity_items_errors(text, position, Seq::empty(), false);
    let listed = grammar::entity_items(text, position, Seq::empty(), false);
    lemma_charge_errors(text, listed.position);
}

/// Reading the reactants fails only with errors that tell of the text.
pub proof fn lemma_reactants_errors(text: Seq<char>, position: int, reactants: Seq<EntityView>)
    ensures
        !misused(grammar::more_reactants(text, position, reactants).value),
    decreases text.len() - position,
{
    match grammar::next_token(text, position) {
        Ok(Some(token)) => {
            if token == grammar::mark('+') {
                let start = grammar::take_token(text, position).position;
                let next = grammar::entity(text, start);
                lemma_entity_errors(text, start);
                if next.value is Ok {
                    lemma_reactants_errors(
                        text,
                        grammar::onward(text, position, next.position),
                        reactants.push(next.value->Ok_0),
                    );
                }
            }
        },
        _ => {},
    }
}

/// Reading the products fails only with errors that tell of the text.
pub proof fn lemma_products_errors(text: Seq<char>, position: int, products: Seq<EntityView>)
    ensures
        !misused(grammar::more_products(text, position, products).value),
    decreases text.len() - position,
{
    match grammar::next_token(text, position) {
        Ok(Some(token)) => {
            if token == grammar::mark('+') {
                let start = grammar::take_token(text, position).position;
                let next = grammar::entity(text, start);
                lemma_entity_errors(text, start);
                if next.value is Ok {
                    lemma_products_errors(
                        text,
                        grammar::onward(text, position, next.position),
                        products.push(next.value->Ok_0),
                    );
                }
            }
        },
        _ => {},
    }
}

/// Reading an equation fails only with errors that tell of the text.
pub proof fn lemma_equation_errors(text: Seq<char>, position: int)
    ensures
        !misused(grammar::equation(text, position).value),
{
    let start = grammar::skip_spaces(text, position);
    let first = grammar::entity(text, start);
    lemma_entity_errors(text, start);
    if first.value is Ok {
        let left = grammar::more_reactants(text, first.position, seq![first.value->Ok_0]);
        lemma_reactants_errors(text, first.position, seq![first.value->Ok_0]);
        if left.value is Ok {
            let second = grammar::entity(text, left.position);
            lemma_entity_errors(text, left.position);
            if second.value is Ok {
                lemma_products_errors(text, second.position, seq![second.value->Ok_0]);
            }
        }
    }
}

/// The offsets that an error carries lie within a text of the length
/// `len`, and where there are two, the first is not behind the second.
pub open spec fn within(error: ParserError, len: int) -> bool {
    match error {
        ParserError::ChargeOrChargeSignIsExpected { start_index } => start_index <= len,
        ParserError::ChargeSignIsExpected { start_index } => start_index <= len,
        ParserError::ClosingBracketAfterChargeIsExpected { start_index } => start_index <= len,
        ParserError::ElementGroupOrClosingBracketIsExpected { start_index } => start_index <= len,
        ParserError::InvalidSymbol { start_index } => start_index <= len,
        ParserError::NumberIsNotExpected { start_index } => start_index <= len,
        ParserError::PlusSignOrEndIsExpected { start_index } => start_index <= len,
        ParserError::PlusSignOrEqualSignIsExpected { start_index } => start_index <= len,
        ParserError::ElectronNeedsToStandAlone { start_index, end_index } => start_index
            <= end_index <= len,
        ParserError::EmptyGroup { start_index, end_index } => start_index <= end_index <= len,
        ParserError::EntityIsExpected { start_index, end_index } => start_index <= end_index
            <= len,
        ParserError::InvalidChargeForElectron { start_index, end_index } => start_index
            <= end_index <= len,
        _ => true,
    }
}

/// A step that started at `from` leaves the cursor at or behind `from` and
/// within the text, and the offsets of its error, if it failed, lie within
/// the text.
pub open spec fn stays<T>(parsed: grammar::Parsed<T>, from: int, len: int) -> bool {
    &&& from <= parsed.position <= len
    &&& parsed.value matches Err(error) ==> within(error, len)
}

/// Taking a token stays within the text.
pub proof fn lemma_take_token_stays(text: Seq<char>, position: int)
    requires
        0 <= position <= text.len() <= usize::MAX,
    ensures
        stays(grammar::take_token(text, position), position, text.len() as int),
        grammar::next_token(text, position) matches Err(error) ==> within(
            error,
            text.len() as int,
        ),
        grammar::next_token(text, position) matches Ok(Some(token)) ==> position < text.len()
            && position + token.len() <= text.len(),
{
}

/// Reading an optional number stays within the text.
pub proof fn lemma_number_stays(text: Seq<char>, position: int)
    requires
        0 <= position <= text.len() <= usize::MAX,
    ensures
        stays(grammar::optional_number(text, position), position, text.len() as int),
{
    reveal(grammar::optional_number);
    lemma_take_token_stays(text, position);
}

/// Reading an element stays within the text.
pub proof fn lemma_element_stays(text: Seq<char>, position: int)
    requires
        0 <= position <= text.len() <= usize::MAX,
    ensures
        stays(grammar::element(text, position), position, text.len() as int),
{
    reveal(grammar::element);
    lemma_take_token_stays(text, position);
    lemma_number_stays(text, grammar::take_token(text, position).position);
}

/// Reading a group stays within the text.
pub proof fn lemma_group_stays(text: Seq<char>, position: int)
    requires
        0 <= position <= text.len() <= usize::MAX,
    ensures
        stays(grammar::group(text, position), position, text.len() as int),
    decreases text.len() - position, 0int,
{
    lemma_take_token_stays(text, position);
    let opened = grammar::consume(text, position, grammar::mark('('));
    if opened.value is Ok {
        lemma_group_items_stays(text, opened.position, position, Seq::empty());
        let listed = grammar::group_items(text, opened.position, position, Seq::empty());
        lemma_number_stays(text, listed.position);
    }
}

/// Reading the items of a group stays within the text.
pub proof fn lemma_group_items_stays(
    text: Seq<char>,
    position: int,
    start: int,
    items: Seq<ItemView>,
)
    requires
        0 <= start <= position <= text.len() <= usize::MAX,
    ensures
        stays(grammar::group_items(text, position, start, items), position, text.len() as int),
    decreases text.len() - position, 1int,
{
    lemma_take_token_stays(text, position);
    match grammar::next_token(text, position) {
        Ok(Some(token)) => {
            if token == grammar::mark('(') {
                let inner = grammar::group(text, position);
                lemma_group_stays(text, position);
                if inner.value is Ok {
                    lemma_group_items_stays(
                        text,
                        grammar::onward(text, position, inner.position),
                        start,
                        items.push(ItemView::Group(inner.value->Ok_0)),
                    );
                }
            } else if RegularExpression::Symbol.match_len(token) > 0 {
                let inner = grammar::element(text, position);
                lemma_element_stays(text, position);
                if inner.value is Ok {
                    lemma_group_items_stays(
                        text,
                        grammar::onward(text, position, inner.position),
                        start,
                        items.push(ItemView::Element(inner.value->Ok_0)),
                    );
                }
            }
        },
        _ => {},
    }
}

/// Reading the items of an entity stays within the text.
pub proof fn lemma_entity_items_stays(
    text: Seq<char>,
    position: int,
    items: Seq<ItemView>,
    electron: bool,
)
    requires
        0 <= position <= text.len() <= usize::MAX,
    ensures
        stays(
            grammar::entity_items(text, position, items, electron),
            position,
            text.len() as int,
        ),
    decreases text.len() - position,
{
    lemma_take_token_stays(text, position);
    match grammar::next_token(text, position) {
        Ok(Some(token)) => {
            if token == grammar::mark('(') {
                let inner = grammar::group(text, position);
                lemma_group_stays(text, position);
                if inner.value is Ok {
                    lemma_entity_items_stays(
                        text,
                        grammar::onward(text, position, inner.position),
                        items.push(ItemView::Group(inner.value->Ok_0)),
                        electron,
                    );
                }
            } else if token == grammar::mark('e') {
                lemma_entity_items_stays(
                    text,
                    grammar::onward(text, position, grammar::take_token(text, position).position),
                    items,
                    true,
                );
            } else if RegularExpression::Symbol.match_len(token) > 0 {
                let inner = grammar::element(text, position);
                lemma_element_stays(text, position);
                if inner.value is Ok {
                    lemma_entity_items_stays(
                        text,
                        grammar::onward(text, position, inner.position),
                        items.push(ItemView::Element(inner.value->Ok_0)),
                        electron,
                    );
                }
            }
        },
        _ => {},
    }
}

/// Reading the sign of a charge and the bracket behind it stays within
/// the text.
pub proof fn lemma_signed_charge_stays(text: Seq<char>, position: int, magnitude: int)
    requires
        0 <= position <= text.len() <= usize::MAX,
    ensures
        stays(grammar::signed_charge(text, position, magnitude), position, text.len() as int),
{
    lemma_take_token_stays(text, position);
    let signed = grammar::take_token(text, position).position;
    lemma_take_token_stays(text, signed);
}

/// Reading a charge stays within the text.
pub proof fn lemma_charge_stays(text: Seq<char>, position: int)
    requires
        0 <= position <= text.len() <= usize::MAX,
    ensures
        stays(grammar::charge(text, position), position, text.len() as int),
{
    reveal(grammar::charge);
    lemma_take_token_stays(text, position);
    let opened = grammar::take_token(text, position).position;
    lemma_take_token_stays(text, opened);
    lemma_number_stays(text, opened);
    let number = grammar::optional_number(text, opened);
    if number.value is Ok {
        lemma_signed_charge_stays(text, number.position, number.value->Ok_0 as int);
    }
}

/// Reading an entity stays within the text.
pub proof fn lemma_entity_stays(text: Seq<char>, position: int)
    requires
        0 <= position <= text.len() <= usize::MAX,
    ensures
        stays(grammar::entity(text, position), position, text.len() as int),
{
    reveal(grammar::entity);
    lemma_entity_items_stays(text, position, Seq::empty(), false);
    let listed = grammar::entity_items(text, position, Seq::empty(), false);
    lemma_charge_stays(text, listed.position);
}

/// Reading the reactants stays within the text.
pub proof fn lemma_reactants_stays(text: Seq<char>, position: int, reactants: Seq<EntityView>)
    requires
        0 <= position <= text.len() <= usize::MAX,
    ensures
        stays(grammar::more_reactants(text, position, reactants), position, text.len() as int),
    decreases text.len() - position,
{
    lemma_take_token_stays(text, position);
    match grammar::next_token(text, position) {
        Ok(Some(token)) => {
            if token == grammar::mark('+') {
                let start = grammar::take_token(text, position).position;
                let next = grammar::entity(text, start);
                lemma_entity_stays(text, start);
                if next.value is Ok {
                    lemma_reactants_stays(
                        text,
                        grammar::onward(text, position, next.position),
                        reactants.push(next.value->Ok_0),
                    );
                }
            }
        },
        _ => {},
    }
}

/// Reading the products stays within the text.
pub proof fn lemma_products_stays(text: Seq<char>, position: int, products: Seq<EntityView>)
    requires
        0 <= position <= text.len() <= usize::MAX,
    ensures
        stays(grammar::more_products(text, position, products), position, text.len() as int),
    decreases text.len() - position,
{
    lemma_take_token_stays(text, position);
    match grammar::next_token(text, position) {
        Ok(Some(token)) => {
            if token == grammar::mark('+') {
                let start = grammar::take_token(text, position).position;
                let next = grammar::entity(text, start);
                lemma_entity_stays(text, start);
                if next.value is Ok {
                    lemma_products_stays(
                        text,
                        grammar::onward(text, position, next.position),
                        products.push(next.value->Ok_0),
                    );
                }
            }
        },
        _ => {},
    }
}

/// Reading an equation stays within the text.
pub proof fn lemma_equation_stays(text: Seq<char>, position: int)
    requires
        0 <= position <= text.len() <= usize::MAX,
    ensures
        stays(grammar::equation(text, position), position, text.len() as int),
{
    let start = grammar::skip_spaces(text, position);
    let first = grammar::entity(text, start);
    lemma_entity_stays(text, start);
    if first.value is Ok {
        let left = grammar::more_reactants(text, first.position, seq![first.value->Ok_0]);
        lemma_reactants_stays(text, first.position, seq![first.value->Ok_0]);
        if left.value is Ok {
            let second = grammar::entity(text, left.position);
            lemma_entity_stays(text, left.position);
            if second.value is Ok {
                lemma_products_stays(text, second.position, seq![second.value->Ok_0]);
            }
        }
    }
}

} // verus!
