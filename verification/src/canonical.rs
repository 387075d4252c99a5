//! The canonical text of an equation without charges is parsed back to the
//! equation.

use vstd::prelude::*;
use crate::element::{count_text, ElementView};
use crate::entity::EntityView;
use crate::equation::{any_shown, coefficient_at, term_text, terms_text, EquationView};
use crate::grammar;
use crate::grammar::{mark, Listed, Parsed};
use crate::group::{group_text, GroupView};
use crate::item::{texts, ItemView};
use crate::parser_error::ParserError;
use crate::regular_expression::{
    digits_len, is_lower, is_mark, is_space, is_upper, lemma_run_len, run_len, symbol_len,
    RegularExpression,
};
use crate::text::{decimal, decimal_value, digit, digit_value, is_digit};

verus! {

/// The symbol of an element: a capital letter and small letters after it.
pub open spec fn is_symbol(name: Seq<char>) -> bool {
    &&& name.len() >= 1
    &&& is_upper(name[0])
    &&& forall|i: int| 1 <= i < name.len() ==> is_lower(#[trigger] name[i])
}

/// An item as the parser yields it inside an entity: an element with a
/// symbol as its name, or a group of at least one such item, with a count
/// from 1 to 255.
pub open spec fn plain_item(item: ItemView) -> bool
    decreases item,
{
    match item {
        ItemView::Element(element) => is_symbol(element.name) && 1 <= element.count <= 255,
        ItemView::Group(group) => group.items.len() >= 1 && 1 <= group.count <= 255
            && plain_items(group.items),
        ItemView::Entity(_) => false,
    }
}

/// Every item of the list is plain.
pub open spec fn plain_items(items: Seq<ItemView>) -> bool
    decreases items,
{
    items.len() == 0 || (plain_item(items[0]) && plain_items(items.drop_first()))
}

/// The text holds `part` from `position` on.
pub open spec fn at(text: Seq<char>, position: int, part: Seq<char>) -> bool {
    &&& 0 <= position
    &&& position + part.len() <= text.len()
    &&& text.subrange(position, position + part.len()) == part
}

/// Nothing that belongs to an item stands at `position`: the text ends
/// there, or a capital letter, a parenthesis, or a space before `+` or `=`
/// stands there.
pub open spec fn ends_item(text: Seq<char>, position: int) -> bool {
    0 <= position <= text.len() && (position == text.len() || is_upper(text[position])
        || text[position] == '(' || text[position] == ')' || ends_entity(text, position))
}

/// An entity ends at `position`: the text ends there, or a space before
/// `+` or `=` stands there.
pub open spec fn ends_entity(text: Seq<char>, position: int) -> bool {
    0 <= position <= text.len() && (position == text.len() || (text[position] == ' ' && position
        + 1 < text.len() && (text[position + 1] == '+' || text[position + 1] == '=')))
}

/// The characters of a part of a text.
pub proof fn lemma_at(text: Seq<char>, position: int, part: Seq<char>)
    requires
        at(text, position, part),
    ensures
        forall|i: int| 0 <= i < part.len() ==> text[position + i] == #[trigger] part[i],
{
    assert forall|i: int| 0 <= i < part.len() implies text[position + i] == #[trigger] part[i] by {
        assert(text.subrange(position, position + part.len())[i] == text[position + i]);
    }
}

/// A text holds two parts one after the other exactly if it holds them
/// joined.
pub proof fn lemma_at_joined(text: Seq<char>, position: int, first: Seq<char>, second: Seq<char>)
    requires
        at(text, position, first + second),
    ensures
        at(text, position, first),
        at(text, position + first.len(), second),
{
    lemma_at(text, position, first + second);
    assert(text.subrange(position, position + first.len()) =~= first) by {
        assert forall|i: int| 0 <= i < first.len() implies text[position + i] == first[i] by {
            assert((first + second)[i] == first[i]);
        }
    }
    assert(text.subrange(position + first.len(), position + first.len() + second.len())
        =~= second) by {
        assert forall|i: int| 0 <= i < second.len() implies text[position + first.len() + i]
            == second[i] by {
            assert((first + second)[first.len() + i] == second[i]);
        }
    }
}

/// A run has the length `count` if the first `count` characters belong to
/// the class and the next one does not.
pub proof fn lemma_run_len_is(text: Seq<char>, class: spec_fn(char) -> bool, count: int)
    requires
        0 <= count <= text.len(),
        forall|i: int| 0 <= i < count ==> class(#[trigger] text[i]),
        count == text.len() || !class(text[count]),
    ensures
        run_len(text, class) == count,
    decreases count,
{
    if count > 0 {
        let rest = text.skip(1);
        assert forall|i: int| 0 <= i < count - 1 implies class(#[trigger] rest[i]) by {
            assert(rest[i] == text[i + 1]);
        }
        if count < text.len() {
            assert(rest[count - 1] == text[count]);
        }
        lemma_run_len_is(rest, class, count - 1);
    }
}

/// The decimal numeral of a number consists of digits and stands for the
/// number.
pub proof fn lemma_decimal(n: nat)
    ensures
        decimal(n).len() >= 1,
        forall|i: int| 0 <= i < decimal(n).len() ==> is_digit(#[trigger] decimal(n)[i]),
        decimal_value(decimal(n)) == n,
    decreases n,
{
    let numeral = decimal(n);
    if n < 10 {
        assert(numeral.drop_last().len() == 0);
        assert(numeral.last() == digit(n));
        assert(digit_value(digit(n)) == n);
        assert(decimal_value(numeral) == decimal_value(numeral.drop_last()) * 10 + digit_value(
            numeral.last(),
        ));
    } else {
        lemma_decimal(n / 10);
        let d = n % 10;
        assert(numeral.drop_last() =~= decimal(n / 10));
        assert(numeral.last() == digit(d));
        assert(digit_value(digit(d)) == d);
        assert forall|i: int| 0 <= i < numeral.len() implies is_digit(#[trigger] numeral[i]) by {
            if i < numeral.len() - 1 {
                assert(numeral[i] == decimal(n / 10)[i]);
            }
        }
        assert(decimal_value(numeral) == decimal_value(numeral.drop_last()) * 10 + digit_value(
            numeral.last(),
        ));
    }
}

/// No white space is skipped where the text ends or another character
/// stands.
pub proof fn lemma_no_space(text: Seq<char>, position: int)
    requires
        0 <= position <= text.len(),
        position == text.len() || !is_space(text[position]),
    ensures
        grammar::skip_spaces(text, position) == position,
{
    let rest = text.skip(position);
    if position < text.len() {
        assert(rest[0] == text[position]);
    }
    lemma_run_len_is(rest, |c: char| is_space(c), 0);
}

/// One space is skipped before a character that is no white space.
pub proof fn lemma_one_space(text: Seq<char>, position: int)
    requires
        0 <= position,
        position + 1 < text.len(),
        text[position] == ' ',
        !is_space(text[position + 1]),
    ensures
        grammar::skip_spaces(text, position) == position + 1,
{
    let rest = text.skip(position);
    assert(rest[0] == text[position]);
    assert(rest[1] == text[position + 1]);
    lemma_run_len_is(rest, |c: char| is_space(c), 1);
}

/// Where an item ends, the white space after it ends at the end of the
/// text or before a capital letter, a parenthesis, `+` or `=`.
pub proof fn lemma_after_item(text: Seq<char>, position: int)
    requires
        ends_item(text, position),
    ensures
        position <= grammar::skip_spaces(text, position) <= text.len(),
        ends_entity(text, position) && position < text.len() ==> grammar::skip_spaces(
            text,
            position,
        ) == position + 1,
        !ends_entity(text, position) || position == text.len() ==> grammar::skip_spaces(
            text,
            position,
        ) == position,
        ({
            let next = grammar::skip_spaces(text, position);
            next == text.len() || is_upper(text[next]) || text[next] == '(' || text[next] == ')'
                || text[next] == '+' || text[next] == '='
        }),
{
    if position < text.len() && text[position] == ' ' {
        lemma_one_space(text, position);
    } else {
        lemma_no_space(text, position);
    }
}

/// The token at the start of a symbol, where no small letter follows the
/// symbol, is the symbol.
pub proof fn lemma_symbol_token(text: Seq<char>, position: int, name: Seq<char>)
    requires
        at(text, position, name),
        is_symbol(name),
        position + name.len() == text.len() || !is_lower(text[position + name.len()]),
    ensures
        grammar::next_token(text, position) == Ok::<Option<Seq<char>>, ParserError>(Some(name)),
        RegularExpression::Symbol.match_len(name) > 0,
        name != mark('('),
        name != mark(')'),
        name != mark('e'),
{
    lemma_at(text, position, name);
    let rest = text.skip(position);
    let tail = rest.skip(1);
    assert(rest[0] == name[0]);
    assert forall|i: int| 0 <= i < name.len() - 1 implies is_lower(#[trigger] tail[i]) by {
        assert(tail[i] == text[position + 1 + i]);
        assert(text[position + (i + 1)] == name[i + 1]);
    }
    if position + name.len() < text.len() {
        assert(tail[name.len() - 1] == text[position + name.len()]);
    }
    lemma_run_len_is(tail, |c: char| is_lower(c), name.len() - 1);
    assert(symbol_len(rest) == name.len());
    assert(text.subrange(position, position + name.len()) == name);
    assert(mark('(')[0] == '(' && mark(')')[0] == ')' && mark('e')[0] == 'e');
}

/// The token at the start of a decimal numeral, where no digit follows the
/// numeral, is the numeral.
pub proof fn lemma_numeral_token(text: Seq<char>, position: int, n: nat)
    requires
        at(text, position, decimal(n)),
        position + decimal(n).len() == text.len() || !is_digit(text[position + decimal(n).len()]),
    ensures
        grammar::next_token(text, position) == Ok::<Option<Seq<char>>, ParserError>(
            Some(decimal(n)),
        ),
        RegularExpression::Digits.match_len(decimal(n)) > 0,
{
    let numeral = decimal(n);
    lemma_decimal(n);
    lemma_at(text, position, numeral);
    let rest = text.skip(position);
    assert(rest[0] == numeral[0]);
    assert forall|i: int| 0 <= i < numeral.len() implies is_digit(#[trigger] rest[i]) by {
        assert(rest[i] == text[position + i]);
        assert(text[position + i] == numeral[i]);
    }
    if position + numeral.len() < text.len() {
        assert(rest[numeral.len() as int] == text[position + numeral.len()]);
    }
    lemma_run_len_is(rest, |c: char| is_digit(c), numeral.len() as int);
    assert(symbol_len(rest) == 0);
    assert(digits_len(rest) == numeral.len());
    assert(text.subrange(position, position + numeral.len()) == numeral);
    assert(is_digit(numeral[0]));
}

/// The token at a character that is a token by itself, and neither a
/// capital letter nor a digit, is that character.
pub proof fn lemma_mark_token(text: Seq<char>, position: int)
    requires
        0 <= position < text.len(),
        is_mark(text[position]),
    ensures
        grammar::next_token(text, position) == Ok::<Option<Seq<char>>, ParserError>(
            Some(mark(text[position])),
        ),
        RegularExpression::Symbol.match_len(mark(text[position])) == 0,
        RegularExpression::Digits.match_len(mark(text[position])) == 0,
{
    let rest = text.skip(position);
    assert(rest[0] == text[position]);
    assert(symbol_len(rest) == 0);
    assert(digits_len(rest) == 0);
    assert(text.subrange(position, position + 1) =~= mark(text[position]));
    let token = mark(text[position]);
    assert(token[0] == text[position]);
    assert(symbol_len(token) == 0);
    assert(digits_len(token) == 0);
}

/// The count that stands behind an element or a group is read back, and
/// the cursor stops behind the white space after it.
#[verifier::rlimit(40)]
pub proof fn lemma_count(text: Seq<char>, position: int, count: nat)
    requires
        at(text, position, count_text(count)),
        1 <= count <= 255,
        ends_item(text, position + count_text(count).len()),
    ensures
        grammar::optional_number(text, grammar::skip_spaces(text, position)) == (Parsed {
            value: Ok::<u8, ParserError>(count as u8),
            position: grammar::skip_spaces(text, position + count_text(count).len()),
        }),
{
    reveal(grammar::optional_number);
    let end = position + count_text(count).len();
    lemma_after_item(text, end);
    if count == 1 {
        let next = grammar::skip_spaces(text, position);
        if next < text.len() {
            if is_upper(text[next]) {
                let rest = text.skip(next);
                assert(rest[0] == text[next]);
                lemma_run_len(rest.skip(1), |c: char| is_lower(c));
                let len = symbol_len(rest);
                assert(len > 0);
                assert(len <= rest.len());
                let token = text.subrange(next, grammar::advanced(text, next, len));
                assert(token[0] == text[next]);
                assert(digits_len(token) == 0);
            } else {
                lemma_mark_token(text, next);
            }
        }
    } else {
        lemma_decimal(count);
        lemma_at(text, position, decimal(count));
        assert(is_digit(decimal(count)[0]));
        assert(text[position + 0] == decimal(count)[0]);
        lemma_no_space(text, position);
        lemma_numeral_token(text, position, count);
    }
}

/// An element in its canonical text is read back, and the cursor stops
/// behind the white space after it.
#[verifier::rlimit(40)]
pub proof fn lemma_element(text: Seq<char>, position: int, element: ElementView)
    requires
        at(text, position, element.text()),
        is_symbol(element.name),
        1 <= element.count <= 255,
        ends_item(text, position + element.text().len()),
    ensures
        grammar::element(text, position) == (Parsed {
            value: Ok::<ElementView, ParserError>(element),
            position: grammar::skip_spaces(text, position + element.text().len()),
        }),
{
    reveal(grammar::element);
    let name = element.name;
    let middle = position + name.len();
    lemma_at_joined(text, position, name, count_text(element.count));
    lemma_at(text, middle, count_text(element.count));
    if element.count != 1 {
        lemma_decimal(element.count);
        assert(text[middle + 0] == decimal(element.count)[0]);
    }
    lemma_symbol_token(text, position, name);
    lemma_count(text, middle, element.count);
}

/// The text of a plain item starts with a capital letter or an opening
/// parenthesis.
pub proof fn lemma_item_text_start(item: ItemView)
    requires
        plain_item(item),
    ensures
        item.text().len() >= 1,
        is_upper(item.text()[0]) || item.text()[0] == '(',
{
    match item {
        ItemView::Element(element) => {
            assert(element.text()[0] == element.name[0]);
        },
        ItemView::Group(group) => {
            assert(item.text() == group_text(texts(group.items), group.count));
            assert(item.text()[0] == '(');
        },
        ItemView::Entity(_) => {},
    }
}

/// The texts of a list of items are the text of the first and the texts
/// of the others.
pub proof fn lemma_texts_first(items: Seq<ItemView>)
    requires
        items.len() >= 1,
    ensures
        texts(items) == items[0].text() + texts(items.drop_first()),
    decreases items.len(),
{
    assert(texts(items) == texts(items.drop_last()) + items.last().text());
    if items.len() == 1 {
        assert(items.drop_last().len() == 0);
        assert(items.drop_first().len() == 0);
        assert(texts(items.drop_last()) =~= Seq::<char>::empty());
        assert(texts(items.drop_first()) =~= Seq::<char>::empty());
        assert(items.last() == items[0]);
        assert(texts(items) =~= items[0].text() + texts(items.drop_first()));
    } else {
        let tail = items.drop_first();
        lemma_texts_first(items.drop_last());
        assert(items.drop_last().drop_first() =~= tail.drop_last());
        assert(items.drop_last()[0] == items[0]);
        assert(tail.last() == items.last());
        assert(texts(tail) == texts(tail.drop_last()) + tail.last().text());
        assert(texts(items) =~= items[0].text() + texts(tail));
    }
}

/// The rest of the items of a group in their canonical text, and the
/// closing parenthesis, are read back.
#[verifier::rlimit(40)]
pub proof fn lemma_group_items(
    text: Seq<char>,
    position: int,
    start: int,
    done: Seq<ItemView>,
    pending: Seq<ItemView>,
)
    requires
        at(text, position, texts(pending)),
        plain_items(pending),
        position + texts(pending).len() < text.len(),
        text[position + texts(pending).len()] == ')',
        done.len() + pending.len() >= 1,
    ensures
        grammar::group_items(text, position, start, done) == (Parsed {
            value: Ok::<Seq<ItemView>, ParserError>(done + pending),
            position: grammar::skip_spaces(text, position + texts(pending).len() + 1),
        }),
    decreases pending,
{
    if pending.len() == 0 {
        assert(texts(pending).len() == 0);
        lemma_mark_token(text, position);
        assert(mark(')')[0] == ')' && mark('(')[0] == '(');
        assert(done + pending =~= done);
    } else {
        let first = pending[0];
        let rest = pending.drop_first();
        assert(plain_item(first) && plain_items(rest));
        if rest.len() > 0 {
            assert(plain_item(rest[0]));
        }
        lemma_texts_first(pending);
        lemma_at_joined(text, position, first.text(), texts(rest));
        lemma_item_text_start(first);
        let next = position + first.text().len();
        lemma_at(text, position, first.text());
        assert(text[position + 0] == first.text()[0]);
        if rest.len() > 0 {
            lemma_texts_first(rest);
            lemma_item_text_start(rest[0]);
            lemma_at(text, next, texts(rest));
            assert(text[next + 0] == texts(rest)[0]);
            assert(texts(rest)[0] == rest[0].text()[0]);
        } else {
            assert(texts(rest).len() == 0);
        }
        assert(ends_item(text, next));
        lemma_after_item(text, next);
        assert(grammar::skip_spaces(text, next) == next);
        assert(done.push(first) + rest =~= done + pending);
        match first {
            ItemView::Element(element) => {
                lemma_at_joined(text, position, element.name, count_text(element.count));
                if element.count != 1 {
                    lemma_decimal(element.count);
                    lemma_at(text, position + element.name.len(), count_text(element.count));
                    assert(text[position + element.name.len() + 0] == decimal(element.count)[0]);
                }
                lemma_symbol_token(text, position, element.name);
                lemma_element(text, position, element);
                lemma_group_items(text, next, start, done.push(first), rest);
            },
            ItemView::Group(group) => {
                lemma_mark_token(text, position);
                assert(mark('(')[0] == '(');
                assert(mark(text[position]) =~= mark('('));
                lemma_group(text, position, group);
                lemma_group_items(text, next, start, done.push(first), rest);
            },
            ItemView::Entity(_) => {},
        }
    }
}

/// A group in its canonical text is read back, and the cursor stops
/// behind the white space after it.
#[verifier::rlimit(40)]
pub proof fn lemma_group(text: Seq<char>, position: int, group: GroupView)
    requires
        at(text, position, group_text(texts(group.items), group.count)),
        plain_item(ItemView::Group(group)),
        ends_item(text, position + group_text(texts(group.items), group.count).len()),
    ensures
        grammar::group(text, position) == (Parsed {
            value: Ok::<GroupView, ParserError>(group),
            position: grammar::skip_spaces(
                text,
                position + group_text(texts(group.items), group.count).len(),
            ),
        }),
    decreases group,
{
    let inner = texts(group.items);
    let whole = group_text(inner, group.count);
    assert(plain_items(group.items) && group.items.len() >= 1 && 1 <= group.count <= 255);
    assert(plain_item(group.items[0]));
    assert(whole =~= seq!['('] + (inner + (seq![')'] + count_text(group.count))));
    lemma_at_joined(text, position, seq!['('], inner + (seq![')'] + count_text(group.count)));
    lemma_at_joined(text, position + 1, inner, seq![')'] + count_text(group.count));
    let close = position + 1 + inner.len();
    lemma_at_joined(text, close, seq![')'], count_text(group.count));
    lemma_at(text, position, seq!['(']);
    lemma_at(text, close, seq![')']);
    assert(text[position + 0] == seq!['('][0]);
    assert(text[close + 0] == seq![')'][0]);
    lemma_mark_token(text, position);
    assert(mark(text[position]) =~= mark('('));
    lemma_texts_first(group.items);
    lemma_item_text_start(group.items[0]);
    lemma_at(text, position + 1, inner);
    assert(text[position + 1 + 0] == inner[0]);
    assert(inner[0] == group.items[0].text()[0]);
    lemma_no_space(text, position + 1);
    lemma_group_items(text, position + 1, position, Seq::empty(), group.items);
    assert(Seq::<ItemView>::empty() + group.items =~= group.items);
    lemma_count(text, close + 1, group.count);
}

/// One step of reading the items of an entity: an element.
pub proof fn lemma_entity_items_element(
    text: Seq<char>,
    position: int,
    done: Seq<ItemView>,
    element: ElementView,
    next: int,
)
    requires
        grammar::next_token(text, position) == Ok::<Option<Seq<char>>, ParserError>(
            Some(element.name),
        ),
        element.name != mark('('),
        element.name != mark('e'),
        RegularExpression::Symbol.match_len(element.name) > 0,
        grammar::element(text, position) == (Parsed {
            value: Ok::<ElementView, ParserError>(element),
            position: next,
        }),
        position < next <= text.len(),
    ensures
        grammar::entity_items(text, position, done, false) == grammar::entity_items(
            text,
            next,
            done.push(ItemView::Element(element)),
            false,
        ),
{
}

/// One step of reading the items of an entity: a group.
pub proof fn lemma_entity_items_group(
    text: Seq<char>,
    position: int,
    done: Seq<ItemView>,
    group: GroupView,
    next: int,
)
    requires
        grammar::next_token(text, position) == Ok::<Option<Seq<char>>, ParserError>(
            Some(mark('(')),
        ),
        grammar::group(text, position) == (Parsed {
            value: Ok::<GroupView, ParserError>(group),
            position: next,
        }),
        position < next <= text.len(),
    ensures
        grammar::entity_items(text, position, done, false) == grammar::entity_items(
            text,
            next,
            done.push(ItemView::Group(group)),
            false,
        ),
{
}

/// The last step of reading the items of an entity: the end of the text,
/// or a token that starts no item.
pub proof fn lemma_entity_items_end(text: Seq<char>, position: int, done: Seq<ItemView>)
    requires
        0 <= position <= text.len(),
        position == text.len() || text[position] == '+' || text[position] == '=',
    ensures
        grammar::entity_items(text, position, done, false) == (Parsed {
            value: Ok::<Listed, ParserError>(Listed { items: done, electron: false }),
            position,
        }),
{
    if position < text.len() {
        lemma_mark_token(text, position);
        assert(mark('(')[0] == '(' && mark('e')[0] == 'e');
        assert(mark(text[position])[0] == text[position]);
    }
}

/// The rest of the items of an entity in their canonical text are read
/// back up to the end of the entity.
#[verifier::rlimit(40)]
pub proof fn lemma_entity_items(
    text: Seq<char>,
    position: int,
    done: Seq<ItemView>,
    pending: Seq<ItemView>,
)
    requires
        at(text, position, texts(pending)),
        plain_items(pending),
        ends_entity(text, position + texts(pending).len()),
    ensures
        grammar::entity_items(text, grammar::skip_spaces(text, position), done, false) == (Parsed {
            value: Ok::<Listed, ParserError>(Listed { items: done + pending, electron: false }),
            position: grammar::skip_spaces(text, position + texts(pending).len()),
        }),
    decreases pending.len(),
{
    if pending.len() == 0 {
        assert(texts(pending).len() == 0);
        assert(ends_item(text, position));
        lemma_after_item(text, position);
        let next = grammar::skip_spaces(text, position);
        assert(next == text.len() || text[next] == '+' || text[next] == '=');
        lemma_entity_items_end(text, next, done);
        assert(done + pending =~= done);
    } else {
        let first = pending[0];
        let rest = pending.drop_first();
        assert(plain_item(first) && plain_items(rest));
        if rest.len() > 0 {
            assert(plain_item(rest[0]));
        }
        lemma_texts_first(pending);
        lemma_at_joined(text, position, first.text(), texts(rest));
        lemma_item_text_start(first);
        let next = position + first.text().len();
        lemma_at(text, position, first.text());
        assert(text[position + 0] == first.text()[0]);
        lemma_no_space(text, position);
        if rest.len() > 0 {
            lemma_texts_first(rest);
            lemma_item_text_start(rest[0]);
            lemma_at(text, next, texts(rest));
            assert(text[next + 0] == texts(rest)[0]);
            assert(texts(rest)[0] == rest[0].text()[0]);
        } else {
            assert(texts(rest).len() == 0);
        }
        assert(ends_item(text, next));
        lemma_after_item(text, next);
        let after = grammar::skip_spaces(text, next);
        assert(done.push(first) + rest =~= done + pending);
        lemma_entity_items(text, next, done.push(first), rest);
        match first {
            ItemView::Element(element) => {
                lemma_at_joined(text, position, element.name, count_text(element.count));
                if element.count != 1 {
                    lemma_decimal(element.count);
                    lemma_at(text, position + element.name.len(), count_text(element.count));
                    assert(text[position + element.name.len() + 0] == decimal(element.count)[0]);
                }
                lemma_symbol_token(text, position, element.name);
                lemma_element(text, position, element);
                lemma_entity_items_element(text, position, done, element, after);
            },
            ItemView::Group(group) => {
                lemma_mark_token(text, position);
                assert(mark(text[position]) =~= mark('('));
                lemma_group(text, position, group);
                lemma_entity_items_group(text, position, done, group, after);
            },
            ItemView::Entity(_) => {},
        }
    }
}

/// An entity as the parser yields it for a formula without charge: at
/// least one plain item, and the charge zero.
pub open spec fn plain_entity(entity: EntityView) -> bool {
    entity.items.len() >= 1 && plain_items(entity.items) && entity.charge == 0
}

/// An entity without charge in its canonical text is read back, and the
/// cursor stops behind the white space after it.
#[verifier::rlimit(40)]
pub proof fn lemma_entity(text: Seq<char>, position: int, entity: EntityView)
    requires
        at(text, position, entity.text()),
        plain_entity(entity),
        ends_entity(text, position + entity.text().len()),
    ensures
        grammar::entity(text, position) == (Parsed {
            value: Ok::<EntityView, ParserError>(entity),
            position: grammar::skip_spaces(text, position + entity.text().len()),
        }),
        entity.text().len() >= 1,
        is_upper(text[position]) || text[position] == '(',
{
    reveal(grammar::entity);
    reveal(grammar::charge);
    let inner = texts(entity.items);
    assert(entity.text() =~= inner);
    assert(plain_item(entity.items[0]));
    lemma_texts_first(entity.items);
    lemma_item_text_start(entity.items[0]);
    lemma_at(text, position, inner);
    assert(text[position + 0] == inner[0]);
    assert(inner[0] == entity.items[0].text()[0]);
    lemma_no_space(text, position);
    lemma_entity_items(text, position, Seq::empty(), entity.items);
    assert(Seq::<ItemView>::empty() + entity.items =~= entity.items);
    let end = position + inner.len();
    assert(ends_item(text, end));
    lemma_after_item(text, end);
    let next = grammar::skip_spaces(text, end);
    if next < text.len() {
        lemma_mark_token(text, next);
        assert(mark('{')[0] == '{');
        assert(mark(text[next])[0] == text[next]);
    }
}

/// The sign between two entities of one side.
pub open spec fn plus() -> Seq<char> {
    seq![' ', '+', ' ']
}

/// The sign between the two sides.
pub open spec fn equals() -> Seq<char> {
    seq![' ', '=', ' ']
}

/// The texts of a list of entities, each with ` + ` before it.
pub open spec fn continued(entities: Seq<EntityView>) -> Seq<char>
    decreases entities.len(),
{
    if entities.len() == 0 {
        Seq::empty()
    } else {
        plus() + entities[0].text() + continued(entities.drop_first())
    }
}

/// Every entity of the list is plain.
pub open spec fn plain_entities(entities: Seq<EntityView>) -> bool
    decreases entities.len(),
{
    entities.len() == 0 || (plain_entity(entities[0]) && plain_entities(entities.drop_first()))
}

/// An equation as the parser yields it for a text without charges and
/// electrons.
pub open spec fn plain_equation(equation: EquationView) -> bool {
    &&& equation.reactants.len() >= 1
    &&& equation.products.len() >= 1
    &&& plain_entities(equation.reactants)
    &&& plain_entities(equation.products)
}

/// The first `count` coefficients are 1.
pub open spec fn units(coefficients: Seq<int>, count: int) -> bool {
    forall|i: int| 0 <= i < count ==> coefficient_at(coefficients, i) == 1
}

/// A list of entities with ` + ` before each is the list without its last
/// entity, and then ` + ` and the last entity.
pub proof fn lemma_continued_last(entities: Seq<EntityView>)
    requires
        entities.len() >= 1,
    ensures
        continued(entities) == continued(entities.drop_last()) + plus() + entities.last().text(),
    decreases entities.len(),
{
    let tail = entities.drop_first();
    assert(continued(entities) == plus() + entities[0].text() + continued(tail));
    if entities.len() == 1 {
        assert(tail.len() == 0);
        assert(entities.drop_last().len() == 0);
        assert(continued(tail) =~= Seq::<char>::empty());
        assert(continued(entities.drop_last()) =~= Seq::<char>::empty());
        assert(entities.last() == entities[0]);
        assert(continued(entities) =~= continued(entities.drop_last()) + plus()
            + entities.last().text());
    } else {
        lemma_continued_last(tail);
        let front = entities.drop_last();
        assert(front.drop_first() =~= tail.drop_last());
        assert(front[0] == entities[0]);
        assert(tail.last() == entities.last());
        assert(continued(front) == plus() + front[0].text() + continued(front.drop_first()));
        assert(continued(entities) =~= continued(front) + plus() + entities.last().text());
    }
}

/// One side of an equation with coefficients of 1 is the text of its
/// first entity, and the others with ` + ` before each.
pub proof fn lemma_terms_text(coefficients: Seq<int>, entities: Seq<EntityView>)
    requires
        entities.len() >= 1,
        units(coefficients, entities.len() as int),
    ensures
        terms_text(coefficients, entities) == entities[0].text() + continued(
            entities.drop_first(),
        ),
    decreases entities.len(),
{
    let index = entities.len() - 1;
    let front = entities.drop_last();
    assert(coefficient_at(coefficients, index) == 1);
    assert(term_text(1, entities.last()) == entities.last().text());
    if entities.len() == 1 {
        assert(front.len() == 0);
        assert(terms_text(coefficients, front) =~= Seq::<char>::empty());
        assert(!any_shown(coefficients, 0));
        assert(entities.drop_first().len() == 0);
        assert(continued(entities.drop_first()) =~= Seq::<char>::empty());
        assert(entities.last() == entities[0]);
        assert(terms_text(coefficients, entities) =~= entities[0].text() + continued(
            entities.drop_first(),
        ));
    } else {
        lemma_terms_text(coefficients, front);
        assert(coefficient_at(coefficients, 0) == 1);
        assert(any_shown(coefficients, index));
        let tail = entities.drop_first();
        lemma_continued_last(tail);
        assert(front.drop_first() =~= tail.drop_last());
        assert(front[0] == entities[0]);
        assert(tail.last() == entities.last());
        assert(terms_text(coefficients, entities) == terms_text(coefficients, front) + plus()
            + entities.last().text());
        assert(terms_text(coefficients, entities) =~= entities[0].text() + continued(tail));
    }
}

/// One step of reading the reactants: `+` and an entity.
pub proof fn lemma_more_reactants_plus(
    text: Seq<char>,
    position: int,
    done: Seq<EntityView>,
    entity: EntityView,
    start: int,
    next: int,
)
    requires
        grammar::next_token(text, position) == Ok::<Option<Seq<char>>, ParserError>(
            Some(mark('+')),
        ),
        grammar::take_token(text, position).position == start,
        grammar::entity(text, start) == (Parsed {
            value: Ok::<EntityView, ParserError>(entity),
            position: next,
        }),
        position < next <= text.len(),
    ensures
        grammar::more_reactants(text, position, done) == grammar::more_reactants(
            text,
            next,
            done.push(entity),
        ),
{
}

/// One step of reading the products: `+` and an entity.
pub proof fn lemma_more_products_plus(
    text: Seq<char>,
    position: int,
    done: Seq<EntityView>,
    entity: EntityView,
    start: int,
    next: int,
)
    requires
        grammar::next_token(text, position) == Ok::<Option<Seq<char>>, ParserError>(
            Some(mark('+')),
        ),
        grammar::take_token(text, position).position == start,
        grammar::entity(text, start) == (Parsed {
            value: Ok::<EntityView, ParserError>(entity),
            position: next,
        }),
        position < next <= text.len(),
    ensures
        grammar::more_products(text, position, done) == grammar::more_products(
            text,
            next,
            done.push(entity),
        ),
{
}

/// A sign between spaces is taken as a token, and the cursor stops behind
/// the space after it.
pub proof fn lemma_sign(text: Seq<char>, position: int, sign: char)
    requires
        at(text, position, seq![' ', sign, ' ']),
        sign == '+' || sign == '=',
        position + 3 < text.len(),
        is_upper(text[position + 3]) || text[position + 3] == '(',
    ensures
        grammar::skip_spaces(text, position) == position + 1,
        grammar::next_token(text, position + 1) == Ok::<Option<Seq<char>>, ParserError>(
            Some(mark(sign)),
        ),
        grammar::take_token(text, position + 1).position == position + 3,
        ends_entity(text, position),
{
    lemma_at(text, position, seq![' ', sign, ' ']);
    assert(text[position + 0] == seq![' ', sign, ' '][0]);
    assert(text[position + 1] == seq![' ', sign, ' '][1]);
    assert(text[position + 2] == seq![' ', sign, ' '][2]);
    lemma_one_space(text, position);
    lemma_mark_token(text, position + 1);
    lemma_one_space(text, position + 2);
    assert(mark(sign).len() == 1);
}

/// The rest of the reactants in their canonical text, and the sign of
/// equality, are read back.
#[verifier::rlimit(40)]
pub proof fn lemma_more_reactants(
    text: Seq<char>,
    position: int,
    done: Seq<EntityView>,
    pending: Seq<EntityView>,
)
    requires
        at(text, position, continued(pending) + equals()),
        plain_entities(pending),
        position + continued(pending).len() + 3 < text.len(),
        is_upper(text[position + continued(pending).len() + 3]) || text[position + continued(
            pending,
        ).len() + 3] == '(',
    ensures
        grammar::more_reactants(text, grammar::skip_spaces(text, position), done) == (Parsed {
            value: Ok::<Seq<EntityView>, ParserError>(done + pending),
            position: position + continued(pending).len() + 3,
        }),
        ends_entity(text, position),
    decreases pending.len(),
{
    if pending.len() == 0 {
        assert(continued(pending).len() == 0);
        assert(continued(pending) + equals() =~= equals());
        lemma_sign(text, position, '=');
        assert(mark('=') != mark('+')) by {
            assert(mark('=')[0] == '=');
            assert(mark('+')[0] == '+');
        }
        assert(done + pending =~= done);
    } else {
        let first = pending[0];
        let rest = pending.drop_first();
        assert(plain_entity(first) && plain_entities(rest));
        let tail = continued(rest) + equals();
        assert(continued(pending) + equals() =~= plus() + (first.text() + tail));
        lemma_at_joined(text, position, plus(), first.text() + tail);
        lemma_at_joined(text, position + 3, first.text(), tail);
        let end = position + 3 + first.text().len();
        lemma_at_joined(text, end, continued(rest), equals());
        lemma_texts_first(first.items);
        assert(plain_item(first.items[0]));
        lemma_item_text_start(first.items[0]);
        assert(first.text() =~= texts(first.items));
        lemma_at(text, position + 3, first.text());
        assert(text[position + 3 + 0] == first.text()[0]);
        lemma_sign(text, position, '+');
        lemma_more_reactants(text, end, done.push(first), rest);
        lemma_entity(text, position + 3, first);
        assert(ends_item(text, end));
        lemma_after_item(text, end);
        lemma_more_reactants_plus(
            text,
            position + 1,
            done,
            first,
            position + 3,
            grammar::skip_spaces(text, end),
        );
        assert(done.push(first) + rest =~= done + pending);
    }
}

/// The rest of the products in their canonical text are read back up to
/// the end of the text.
#[verifier::rlimit(40)]
pub proof fn lemma_more_products(
    text: Seq<char>,
    position: int,
    done: Seq<EntityView>,
    pending: Seq<EntityView>,
)
    requires
        at(text, position, continued(pending)),
        plain_entities(pending),
        position + continued(pending).len() == text.len(),
    ensures
        grammar::more_products(text, grammar::skip_spaces(text, position), done) == (Parsed {
            value: Ok::<Seq<EntityView>, ParserError>(done + pending),
            position: text.len() as int,
        }),
        ends_entity(text, position),
    decreases pending.len(),
{
    if pending.len() == 0 {
        assert(continued(pending).len() == 0);
        lemma_no_space(text, position);
        assert(done + pending =~= done);
    } else {
        let first = pending[0];
        let rest = pending.drop_first();
        assert(plain_entity(first) && plain_entities(rest));
        let tail = continued(rest);
        assert(continued(pending) =~= plus() + (first.text() + tail));
        lemma_at_joined(text, position, plus(), first.text() + tail);
        lemma_at_joined(text, position + 3, first.text(), tail);
        let end = position + 3 + first.text().len();
        lemma_texts_first(first.items);
        assert(plain_item(first.items[0]));
        lemma_item_text_start(first.items[0]);
        assert(first.text() =~= texts(first.items));
        lemma_at(text, position + 3, first.text());
        assert(text[position + 3 + 0] == first.text()[0]);
        lemma_sign(text, position, '+');
        lemma_more_products(text, end, done.push(first), rest);
        lemma_entity(text, position + 3, first);
        assert(ends_item(text, end));
        lemma_after_item(text, end);
        lemma_more_products_plus(
            text,
            position + 1,
            done,
            first,
            position + 3,
            grammar::skip_spaces(text, end),
        );
        assert(done.push(first) + rest =~= done + pending);
    }
}

/// An equation is read back from a text that holds its first reactant,
/// the other reactants each behind ` + `, ` = `, its first product, and
/// the other products each behind ` + `.
#[verifier::rlimit(40)]
pub proof fn lemma_equation_parts(
    text: Seq<char>,
    equation: EquationView,
    a: int,
    b: int,
    c: int,
)
    requires
        plain_equation(equation),
        at(text, 0, equation.reactants[0].text()),
        a == equation.reactants[0].text().len(),
        at(text, a, continued(equation.reactants.drop_first()) + equals()),
        b == a + continued(equation.reactants.drop_first()).len() + 3,
        at(text, b, equation.products[0].text()),
        c == b + equation.products[0].text().len(),
        at(text, c, continued(equation.products.drop_first())),
        c + continued(equation.products.drop_first()).len() == text.len(),
    ensures
        grammar::equation(text, 0) == (Parsed {
            value: Ok::<EquationView, ParserError>(equation),
            position: text.len() as int,
        }),
{
    let reactants = equation.reactants;
    let products = equation.products;
    let first = reactants[0];
    let second = products[0];
    assert(plain_entity(first) && plain_entities(reactants.drop_first()));
    assert(plain_entity(second) && plain_entities(products.drop_first()));
    lemma_texts_first(second.items);
    assert(plain_item(second.items[0]));
    lemma_item_text_start(second.items[0]);
    assert(second.text() =~= texts(second.items));
    lemma_at(text, b, second.text());
    assert(text[b + 0] == second.text()[0]);
    lemma_more_reactants(text, a, seq![first], reactants.drop_first());
    lemma_more_products(text, c, seq![second], products.drop_first());
    lemma_entity(text, 0, first);
    lemma_entity(text, b, second);
    lemma_no_space(text, 0);
    assert(seq![first] + reactants.drop_first() =~= reactants);
    assert(seq![second] + products.drop_first() =~= products);
}

/// The text of an equation with coefficients of 1 holds the first
/// reactant, the other reactants each behind ` + `, ` = `, the first
/// product, and the other products each behind ` + `.
pub proof fn lemma_equation_text(equation: EquationView, coefficients: Seq<int>)
    requires
        equation.reactants.len() >= 1,
        equation.products.len() >= 1,
        coefficients.len() >= equation.reactants.len(),
        units(coefficients, equation.entities().len() as int),
    ensures
        equation.text(coefficients) == equation.reactants[0].text() + ((continued(
            equation.reactants.drop_first(),
        ) + equals()) + (equation.products[0].text() + continued(
            equation.products.drop_first(),
        ))),
{
    let reactants = equation.reactants;
    let products = equation.products;
    let rest = coefficients.skip(reactants.len() as int);
    assert(units(coefficients, reactants.len() as int));
    assert(units(rest, products.len() as int)) by {
        assert forall|i: int| 0 <= i < products.len() implies coefficient_at(rest, i) == 1 by {
            assert(coefficient_at(coefficients, i + reactants.len()) == 1);
            if i < rest.len() {
                assert(rest[i] == coefficients[i + reactants.len()]);
            }
        }
    }
    lemma_terms_text(coefficients, reactants);
    lemma_terms_text(rest, products);
    let left = terms_text(coefficients, reactants);
    let right = terms_text(rest, products);
    assert(equation.text(coefficients) == left + equals() + right);
    assert(left + equals() + right =~= reactants[0].text() + ((continued(reactants.drop_first())
        + equals()) + (products[0].text() + continued(products.drop_first()))));
}

/// Where a text is made of four parts, each part stands behind the parts
/// before it.
pub proof fn lemma_four_parts(
    text: Seq<char>,
    first: Seq<char>,
    second: Seq<char>,
    third: Seq<char>,
    fourth: Seq<char>,
)
    requires
        text == first + (second + (third + fourth)),
    ensures
        at(text, 0, first),
        at(text, first.len() as int, second),
        at(text, first.len() as int + second.len(), third),
        at(text, first.len() as int + second.len() + third.len(), fourth),
        text.len() == first.len() + second.len() + third.len() + fourth.len(),
{
    assert(text.subrange(0, text.len() as int) =~= text);
    lemma_at_joined(text, 0, first, second + (third + fourth));
    lemma_at_joined(text, first.len() as int, second, third + fourth);
    lemma_at_joined(text, first.len() as int + second.len(), third, fourth);
}

/// The canonical text of a plain equation with coefficients of 1 is read
/// back to the equation.
pub proof fn lemma_equation(equation: EquationView, coefficients: Seq<int>)
    requires
        plain_equation(equation),
        coefficients.len() >= equation.reactants.len(),
        units(coefficients, equation.entities().len() as int),
    ensures
        grammar::equation(equation.text(coefficients), 0) == (Parsed {
            value: Ok::<EquationView, ParserError>(equation),
            position: equation.text(coefficients).len() as int,
        }),
{
    let text = equation.text(coefficients);
    let first = equation.reactants[0].text();
    let second = continued(equation.reactants.drop_first()) + equals();
    let third = equation.products[0].text();
    let fourth = continued(equation.products.drop_first());
    lemma_equation_text(equation, coefficients);
    lemma_four_parts(text, first, second, third, fourth);
    let a = first.len() as int;
    let b = a + second.len();
    let c = b + third.len();
    assert(second.len() == continued(equation.reactants.drop_first()).len() + 3);
    lemma_equation_parts(text, equation, a, b, c);
}

} // verus!
