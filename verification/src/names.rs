//! The names of the elements of an equation: each name that counts an
//! atom is among them, and the electron is the first.

use vstd::prelude::*;
use crate::element::with_name;
use crate::entity::EntityView;
use crate::equation::{entity_names, EquationView};
use crate::item::{all_names, counts, electron, ItemView};
use crate::solution::{balances, residual, weighted};

verus! {

/// The charge of a list of entities, each entity taken as many times as its
/// coefficient says.
pub open spec fn weighted_charge(entities: Seq<EntityView>, coefficients: Seq<int>) -> int
    decreases entities.len(),
{
    if entities.len() == 0 {
        0
    } else {
        weighted_charge(entities.drop_last(), coefficients) + coefficients[entities.len() - 1]
            * entities.last().charge
    }
}

/// The list `longer` starts with the list `shorter`.
pub open spec fn extends(shorter: Seq<Seq<char>>, longer: Seq<Seq<char>>) -> bool {
    &&& shorter.len() <= longer.len()
    &&& forall|i: int| 0 <= i < shorter.len() ==> longer[i] == shorter[i]
}

/// The names of an item are added behind the names found before.
pub proof fn lemma_names_extend(item: ItemView, found: Seq<Seq<char>>)
    ensures
        extends(found, item.names(found)),
    decreases item,
{
    match item {
        ItemView::Element(element) => {},
        ItemView::Group(group) => {
            lemma_all_names_extend(group.items, found);
        },
        ItemView::Entity(entity) => {
            lemma_all_names_extend(entity.items, with_name(found, electron()));
        },
    }
}

/// The names of a list of items are added behind the names found before.
pub proof fn lemma_all_names_extend(items: Seq<ItemView>, found: Seq<Seq<char>>)
    ensures
        extends(found, all_names(items, found)),
    decreases items,
{
    if items.len() > 0 {
        lemma_names_extend(items[0], found);
        lemma_all_names_extend(items.drop_first(), items[0].names(found));
    }
}

/// The names of a list of entities are added behind the names found
/// before.
pub proof fn lemma_entity_names_extend(entities: Seq<EntityView>, found: Seq<Seq<char>>)
    ensures
        extends(found, entity_names(entities, found)),
    decreases entities.len(),
{
    if entities.len() > 0 {
        lemma_all_names_extend(entities[0].items, with_name(found, electron()));
        lemma_entity_names_extend(entities.drop_first(), entities[0].names(found));
    }
}

/// The first name of an equation with a reactant is the electron.
pub proof fn lemma_electron_is_first(equation: EquationView)
    requires
        equation.reactants.len() >= 1,
    ensures
        equation.names().len() >= 1,
        equation.names()[0] == electron(),
{
    let first = equation.reactants[0];
    let start = with_name(Seq::empty(), electron());
    assert(start[0] == electron());
    lemma_all_names_extend(first.items, start);
    lemma_entity_names_extend(equation.reactants.drop_first(), first.names(Seq::empty()));
    lemma_entity_names_extend(
        equation.products,
        entity_names(equation.reactants, Seq::empty()),
    );
}

/// Counting electrons is counting charge with the opposite sign.
pub proof fn lemma_weighted_electrons(entities: Seq<EntityView>, coefficients: Seq<int>)
    ensures
        weighted(entities, coefficients, electron()) == -weighted_charge(entities, coefficients),
    decreases entities.len(),
{
    if entities.len() > 0 {
        lemma_weighted_electrons(entities.drop_last(), coefficients);
        let c = coefficients[entities.len() - 1];
        let q = entities.last().charge;
        assert(c * (-q) == -(c * q)) by (nonlinear_arith);
    }
}

/// The sum of the counts over a list of items is the count of the first
/// and the sum over the others.
pub proof fn lemma_counts_first(items: Seq<ItemView>, name: Seq<char>)
    requires
        items.len() >= 1,
    ensures
        counts(items, name) == items[0].count(name) + counts(items.drop_first(), name),
    decreases items.len(),
{
    assert(counts(items, name) == counts(items.drop_last(), name) + items.last().count(name));
    if items.len() == 1 {
        assert(items.drop_last().len() == 0);
        assert(items.drop_first().len() == 0);
        assert(items.last() == items[0]);
        assert(counts(items.drop_last(), name) == 0);
        assert(counts(items.drop_first(), name) == 0);
    } else {
        let tail = items.drop_first();
        lemma_counts_first(items.drop_last(), name);
        assert(items.drop_last().drop_first() =~= tail.drop_last());
        assert(items.drop_last()[0] == items[0]);
        assert(tail.last() == items.last());
        assert(counts(tail, name) == counts(tail.drop_last(), name) + tail.last().count(name));
    }
}

/// A name is among the names of an item if the item counts atoms of it,
/// or if it was found before.
pub proof fn lemma_counted_name(item: ItemView, name: Seq<char>, found: Seq<Seq<char>>)
    requires
        item.count(name) != 0 || found.contains(name),
    ensures
        item.names(found).contains(name),
    decreases item,
{
    lemma_names_extend(item, found);
    if found.contains(name) {
        let i = choose|i: int| 0 <= i < found.len() && found[i] == name;
        assert(item.names(found)[i] == name);
    } else {
        match item {
            ItemView::Element(element) => {
                let longer = with_name(found, element.name);
                assert(longer[found.len() as int] == name);
            },
            ItemView::Group(group) => {
                let inner = counts(group.items, name);
                assert(inner != 0) by (nonlinear_arith)
                    requires
                        group.count * inner != 0,
                ;
                lemma_counted_names(group.items, name, found);
            },
            ItemView::Entity(entity) => {
                let start = with_name(found, electron());
                if name == electron() {
                    if found.contains(electron()) {
                    } else {
                        assert(start[found.len() as int] == name);
                    }
                }
                lemma_counted_names(entity.items, name, start);
            },
        }
    }
}

/// A name is among the names of a list of items if one of the items counts
/// atoms of it, or if it was found before.
pub proof fn lemma_counted_names(items: Seq<ItemView>, name: Seq<char>, found: Seq<Seq<char>>)
    requires
        counts(items, name) != 0 || found.contains(name),
    ensures
        all_names(items, found).contains(name),
    decreases items,
{
    if items.len() > 0 {
        lemma_counts_first(items, name);
        let next = items[0].names(found);
        if items[0].count(name) != 0 || found.contains(name) {
            lemma_counted_name(items[0], name, found);
        }
        lemma_counted_names(items.drop_first(), name, next);
    }
}

/// A name is among the names of a list of entities if one of the entities,
/// taken as often as its coefficient says, counts atoms of it, or if it
/// was found before.
pub proof fn lemma_weighted_name(
    entities: Seq<EntityView>,
    coefficients: Seq<int>,
    name: Seq<char>,
    found: Seq<Seq<char>>,
)
    requires
        coefficients.len() >= entities.len(),
        weighted(entities, coefficients, name) != 0 || found.contains(name),
    ensures
        entity_names(entities, found).contains(name),
    decreases entities.len(),
{
    if entities.len() > 0 {
        let first = entities[0];
        let rest = entities.drop_first();
        let next = first.names(found);
        lemma_weighted_first(entities, coefficients, name);
        if first.count(name) != 0 || found.contains(name) {
            lemma_counted_name(ItemView::Entity(first), name, found);
        } else {
            let c = coefficients[0];
            assert(c * 0 == 0) by (nonlinear_arith);
        }
        lemma_weighted_name(rest, coefficients.drop_first(), name, next);
    }
}

/// The weighted count of a list of entities is that of the first and that
/// of the others.
pub proof fn lemma_weighted_first(
    entities: Seq<EntityView>,
    coefficients: Seq<int>,
    name: Seq<char>,
)
    requires
        entities.len() >= 1,
        coefficients.len() >= entities.len(),
    ensures
        weighted(entities, coefficients, name) == coefficients[0] * entities[0].count(name)
            + weighted(entities.drop_first(), coefficients.drop_first(), name),
    decreases entities.len(),
{
    let last = entities.len() - 1;
    assert(weighted(entities, coefficients, name) == weighted(
        entities.drop_last(),
        coefficients,
        name,
    ) + coefficients[last] * entities.last().count(name));
    let tail = entities.drop_first();
    let rest = coefficients.drop_first();
    if entities.len() == 1 {
        assert(entities.drop_last().len() == 0);
        assert(tail.len() == 0);
        assert(entities.last() == entities[0]);
        assert(weighted(entities.drop_last(), coefficients, name) == 0);
        assert(weighted(tail, rest, name) == 0);
    } else {
        lemma_weighted_first(entities.drop_last(), coefficients, name);
        assert(entities.drop_last().drop_first() =~= tail.drop_last());
        assert(entities.drop_last()[0] == entities[0]);
        assert(tail.last() == entities.last());
        assert(weighted(tail, rest, name) == weighted(tail.drop_last(), rest, name) + rest[
            tail.len() - 1] * tail.last().count(name));
        assert(rest[tail.len() - 1] == coefficients[last]) by {
            lemma_drop_first_index(coefficients, tail.len() - 1);
        }
    }
}

/// The entry of a list without its first entry.
pub proof fn lemma_drop_first_index(list: Seq<int>, index: int)
    requires
        0 <= index < list.len() - 1,
    ensures
        list.drop_first()[index] == list[index + 1],
{
}

/// A list without a name twice stays so when a name is added to it.
pub proof fn lemma_with_name_distinct(found: Seq<Seq<char>>, name: Seq<char>)
    requires
        found.no_duplicates(),
    ensures
        with_name(found, name).no_duplicates(),
{
    if !found.contains(name) {
        let longer = found.push(name);
        assert forall|i: int, j: int| 0 <= i < longer.len() && 0 <= j < longer.len() && i
            != j implies longer[i] != longer[j] by {
            if i < found.len() && j < found.len() {
            } else if i < found.len() {
                assert(found.contains(found[i]));
            } else {
                assert(found.contains(found[j]));
            }
        }
    }
}

/// A list without a name twice stays so when the names of an item are
/// added to it.
pub proof fn lemma_names_distinct(item: ItemView, found: Seq<Seq<char>>)
    requires
        found.no_duplicates(),
    ensures
        item.names(found).no_duplicates(),
    decreases item,
{
    match item {
        ItemView::Element(element) => {
            lemma_with_name_distinct(found, element.name);
        },
        ItemView::Group(group) => {
            lemma_all_names_distinct(group.items, found);
        },
        ItemView::Entity(entity) => {
            lemma_with_name_distinct(found, electron());
            lemma_all_names_distinct(entity.items, with_name(found, electron()));
        },
    }
}

/// A list without a name twice stays so when the names of a list of items
/// are added to it.
pub proof fn lemma_all_names_distinct(items: Seq<ItemView>, found: Seq<Seq<char>>)
    requires
        found.no_duplicates(),
    ensures
        all_names(items, found).no_duplicates(),
    decreases items,
{
    if items.len() > 0 {
        lemma_names_distinct(items[0], found);
        lemma_all_names_distinct(items.drop_first(), items[0].names(found));
    }
}

/// A list without a name twice stays so when the names of a list of
/// entities are added to it.
pub proof fn lemma_entity_names_distinct(entities: Seq<EntityView>, found: Seq<Seq<char>>)
    requires
        found.no_duplicates(),
    ensures
        entity_names(entities, found).no_duplicates(),
    decreases entities.len(),
{
    if entities.len() > 0 {
        lemma_names_distinct(ItemView::Entity(entities[0]), found);
        lemma_entity_names_distinct(entities.drop_first(), entities[0].names(found));
    }
}

/// No name stands twice among the names of an equation.
pub proof fn lemma_equation_names_distinct(equation: EquationView)
    ensures
        equation.names().no_duplicates(),
{
    lemma_entity_names_distinct(equation.reactants, Seq::empty());
    lemma_entity_names_distinct(
        equation.products,
        entity_names(equation.reactants, Seq::empty()),
    );
}

/// Coefficients that balance every name of an equation balance any name
/// whatever: a name that is not among the names of the equation counts no
/// atoms.
pub proof fn lemma_balanced_everywhere(
    equation: EquationView,
    coefficients: Seq<int>,
    name: Seq<char>,
)
    requires
        coefficients.len() >= equation.entities().len(),
        balances(equation, coefficients),
    ensures
        residual(equation, coefficients, name) == 0,
{
    let rest = coefficients.skip(equation.reactants.len() as int);
    let names = equation.names();
    if names.contains(name) {
        let i = choose|i: int| 0 <= i < names.len() && names[i] == name;
        assert(residual(equation, coefficients, names[i]) == 0);
    } else {
        let first = entity_names(equation.reactants, Seq::empty());
        lemma_entity_names_extend(equation.products, first);
        if weighted(equation.reactants, coefficients, name) != 0 {
            lemma_weighted_name(equation.reactants, coefficients, name, Seq::empty());
            let i = choose|i: int| 0 <= i < first.len() && first[i] == name;
            assert(names[i] == name);
        }
        if weighted(equation.products, rest, name) != 0 {
            lemma_weighted_name(equation.products, rest, name, first);
        }
    }
}

} // verus!
