//! Every entity of a parsed equation counts an atom or a charge, so that no
//! column of the matrix is zero; and where two vectors balance an equation
//! that are not multiples of each other, the eliminated matrix has a row
//! with two entries.

use vstd::prelude::*;
use crate::canonical::{is_symbol, plain_item, plain_items};
use crate::echelon::{is_zero, lemma_eliminated, reduced_echelon};
use crate::entity::EntityView;
use crate::equation::EquationView;
use crate::freedom::{row_starting_at, starts_a_row};
use crate::invariants::{valid_entity, valid_equation};
use crate::item::{all_positive, counts, electron, ItemView};
use crate::kernel::{dot, lemma_dot_none, lemma_dot_one, lemma_eliminated_keeps, solves};
use crate::matrix::{eliminated, lead, lemma_lead, Grid};
use crate::names::{lemma_balanced_everywhere, lemma_counts_first};
use crate::solution::{
    balances, boundary_from, initial_matrix, lemma_boundary_from, nonzero_count, residual, weighted,
};
use crate::system::{lemma_balances_agrees, lemma_initial_matrix_shape, lemma_initial_matrix_solves};

verus! {

/// The name of the first element under an item.
pub open spec fn atom_of(item: ItemView) -> Seq<char>
    decreases item,
{
    match item {
        ItemView::Element(element) => element.name,
        ItemView::Group(group) => if group.items.len() > 0 {
            atom_of(group.items[0])
        } else {
            Seq::empty()
        },
        ItemView::Entity(_) => Seq::empty(),
    }
}

/// The vector of the length `len` with 1 at `place` and 0 elsewhere.
pub open spec fn unit(len: nat, place: int) -> Seq<int> {
    Seq::new(len, |k: int| if k == place { 1int } else { 0int })
}

/// Every item of a list of plain items is plain.
pub proof fn lemma_plain_items_index(items: Seq<ItemView>, i: int)
    requires
        plain_items(items),
        0 <= i < items.len(),
    ensures
        plain_item(items[i]),
    decreases items.len(),
{
    if i > 0 {
        lemma_plain_items_index(items.drop_first(), i - 1);
    }
}

/// Every count under a plain item is at least 1.
pub proof fn lemma_plain_is_positive(item: ItemView)
    requires
        plain_item(item),
    ensures
        item.positive(),
    decreases item,
{
    match item {
        ItemView::Group(group) => {
            assert forall|i: int| 0 <= i < group.items.len() implies plain_item(
                #[trigger] group.items[i],
            ) by {
                lemma_plain_items_index(group.items, i);
            }
            lemma_plain_are_positive(group.items);
        },
        _ => {},
    }
}

/// Every count under plain items is at least 1.
pub proof fn lemma_plain_are_positive(items: Seq<ItemView>)
    requires
        forall|i: int| 0 <= i < items.len() ==> plain_item(#[trigger] items[i]),
    ensures
        all_positive(items),
    decreases items,
{
    if items.len() > 0 {
        let rest = items.drop_last();
        assert forall|i: int| 0 <= i < rest.len() implies plain_item(#[trigger] rest[i]) by {
            assert(rest[i] == items[i]);
        }
        lemma_plain_are_positive(rest);
        assert(plain_item(items[items.len() - 1]));
        lemma_plain_is_positive(items.last());
    }
}

/// Every count under a valid entity is at least 1.
pub proof fn lemma_valid_is_positive(entity: EntityView)
    requires
        valid_entity(entity),
    ensures
        all_positive(entity.items),
{
    assert forall|i: int| 0 <= i < entity.items.len() implies plain_item(
        #[trigger] entity.items[i],
    ) by {
        lemma_plain_items_index(entity.items, i);
    }
    lemma_plain_are_positive(entity.items);
}

/// A plain item counts no name a negative number of times.
pub proof fn lemma_plain_count(item: ItemView, name: Seq<char>)
    requires
        plain_item(item),
    ensures
        item.count(name) >= 0,
    decreases item,
{
    match item {
        ItemView::Group(group) => {
            assert forall|i: int| 0 <= i < group.items.len() implies plain_item(
                #[trigger] group.items[i],
            ) by {
                lemma_plain_items_index(group.items, i);
            }
            lemma_plain_counts(group.items, name);
            let inner = counts(group.items, name);
            assert(group.count * inner >= 0) by (nonlinear_arith)
                requires
                    group.count >= 0,
                    inner >= 0,
            ;
        },
        _ => {},
    }
}

/// Plain items count no name a negative number of times.
pub proof fn lemma_plain_counts(items: Seq<ItemView>, name: Seq<char>)
    requires
        forall|i: int| 0 <= i < items.len() ==> plain_item(#[trigger] items[i]),
    ensures
        counts(items, name) >= 0,
    decreases items,
{
    if items.len() > 0 {
        let rest = items.drop_last();
        assert forall|i: int| 0 <= i < rest.len() implies plain_item(#[trigger] rest[i]) by {
            assert(rest[i] == items[i]);
        }
        lemma_plain_counts(rest, name);
        assert(plain_item(items[items.len() - 1]));
        lemma_plain_count(items.last(), name);
    }
}

/// A plain item counts at least one atom of its first element, whose name
/// is a symbol.
pub proof fn lemma_plain_has_atom(item: ItemView)
    requires
        plain_item(item),
    ensures
        item.count(atom_of(item)) >= 1,
        is_symbol(atom_of(item)),
    decreases item,
{
    match item {
        ItemView::Group(group) => {
            let name = atom_of(item);
            let first = group.items[0];
            let rest = group.items.drop_first();
            lemma_plain_items_index(group.items, 0);
            lemma_plain_has_atom(first);
            lemma_counts_first(group.items, name);
            assert forall|i: int| 0 <= i < rest.len() implies plain_item(#[trigger] rest[i]) by {
                lemma_plain_items_index(group.items, i + 1);
                assert(rest[i] == group.items[i + 1]);
            }
            lemma_plain_counts(rest, name);
            let inner = counts(group.items, name);
            assert(group.count * inner >= 1) by (nonlinear_arith)
                requires
                    group.count >= 1,
                    inner >= 1,
            ;
        },
        _ => {},
    }
}

/// A valid entity counts an atom of some name, or electrons.
pub proof fn lemma_entity_has_atom(entity: EntityView) -> (name: Seq<char>)
    requires
        valid_entity(entity),
    ensures
        entity.count(name) != 0,
{
    if entity.charge != 0 {
        electron()
    } else {
        let first = entity.items[0];
        let rest = entity.items.drop_first();
        lemma_plain_items_index(entity.items, 0);
        lemma_plain_has_atom(first);
        let name = atom_of(first);
        assert(name[0] != electron()[0]);
        lemma_counts_first(entity.items, name);
        assert forall|i: int| 0 <= i < rest.len() implies plain_item(#[trigger] rest[i]) by {
            lemma_plain_items_index(entity.items, i + 1);
            assert(rest[i] == entity.items[i + 1]);
        }
        lemma_plain_counts(rest, name);
        name
    }
}

/// Under coefficients that are 1 at one place and 0 elsewhere, the atoms of
/// a list of entities are those of the entity at that place.
pub proof fn lemma_weighted_unit(
    entities: Seq<EntityView>,
    coefficients: Seq<int>,
    place: int,
    name: Seq<char>,
)
    requires
        coefficients.len() >= entities.len(),
        forall|k: int|
            0 <= k < entities.len() ==> coefficients[k] == if k == place {
                1int
            } else {
                0int
            },
    ensures
        weighted(entities, coefficients, name) == if 0 <= place < entities.len() {
            entities[place].count(name)
        } else {
            0
        },
    decreases entities.len(),
{
    if entities.len() > 0 {
        let last = entities.len() - 1;
        lemma_weighted_unit(entities.drop_last(), coefficients, place, name);
        let c = entities.last().count(name);
        assert(1 * c == c && 0 * c == 0) by (nonlinear_arith);
        if place < last && place >= 0 {
            assert(entities.drop_last()[place] == entities[place]);
        }
    }
}

/// No vector with 1 at the place of an entity and 0 elsewhere balances a
/// valid equation: the entity counts an atom that nothing makes up for.
pub proof fn lemma_unit_does_not_balance(equation: EquationView, place: int)
    requires
        valid_equation(equation),
        0 <= place < equation.entities().len(),
    ensures
        !balances(equation, unit(equation.entities().len() + 1, place)),
{
    let all = equation.entities();
    let reactants = equation.reactants.len() as int;
    let x = unit(all.len() + 1, place);
    let rest = x.skip(reactants);
    let entity = all[place];
    if place < reactants {
        assert(entity == equation.reactants[place]);
    } else {
        assert(entity == equation.products[place - reactants]);
    }
    let name = lemma_entity_has_atom(entity);
    if balances(equation, x) {
        lemma_balanced_everywhere(equation, x, name);
        lemma_weighted_unit(equation.reactants, x, place, name);
        assert forall|k: int| 0 <= k < equation.products.len() implies rest[k] == if k == place
            - reactants {
            1int
        } else {
            0int
        } by {
            assert(rest[k] == x[k + reactants]);
        }
        lemma_weighted_unit(equation.products, rest, place - reactants, name);
        assert(residual(equation, x, name) != 0);
    }
}

/// A row without an entry other than zero is zero.
pub proof fn lemma_no_entry(row: Seq<int>)
    requires
        nonzero_count(row) == 0,
    ensures
        is_zero(row),
    decreases row.len(),
{
    if row.len() > 0 {
        let rest = row.drop_last();
        lemma_no_entry(rest);
        assert forall|k: int| 0 <= k < row.len() implies row[k] == 0 by {
            if k < row.len() - 1 {
                assert(rest[k] == row[k]);
            }
        }
    }
}

/// A row with one entry other than zero is zero at all other places.
pub proof fn lemma_single_entry(row: Seq<int>, place: int)
    requires
        nonzero_count(row) <= 1,
        0 <= place < row.len(),
        row[place] != 0,
    ensures
        forall|k: int| 0 <= k < row.len() && k != place ==> row[k] == 0,
    decreases row.len(),
{
    let rest = row.drop_last();
    let last = row.len() - 1;
    assert forall|k: int| 0 <= k < rest.len() implies rest[k] == row[k] by {}
    if row[last] != 0 {
        lemma_no_entry(rest);
        if place < last {
            assert(rest[place] == 0);
        }
    } else {
        lemma_single_entry(rest, place);
    }
}

/// Where no row of a grid in reduced echelon form has two entries other
/// than zero, every solution is zero at a place at which the unit vector
/// is no solution.
pub proof fn lemma_forced_zero(m: Grid, columns: int, rank: int, x: Seq<int>, place: int)
    requires
        reduced_echelon(m, columns, rank),
        forall|r: int| 0 <= r < m.len() ==> nonzero_count(#[trigger] m[r]) <= 1,
        0 <= place < columns,
        solves(m, x),
        !solves(m, unit(columns as nat, place)),
    ensures
        x[place] == 0,
{
    let one = unit(columns as nat, place);
    if starts_a_row(m, rank, place) {
        let k = row_starting_at(m, rank, place);
        let row = m[k];
        lemma_lead(row);
        assert(row.len() == columns);
        lemma_single_entry(row, place);
        lemma_dot_one(row, x, place);
        assert(dot(row, x) == 0);
        let p = row[place];
        let v = x[place];
        assert(v == 0) by (nonlinear_arith)
            requires
                p * v == 0,
                p != 0,
        ;
    } else {
        assert forall|r: int| 0 <= r < m.len() implies dot(#[trigger] m[r], one) == 0 by {
            let row = m[r];
            lemma_lead(row);
            assert(row.len() == columns);
            if lead(row) < columns {
                assert(r < rank);
                assert(lead(row) != place);
                lemma_single_entry(row, lead(row));
            }
            lemma_dot_none(row, one);
        }
    }
}

/// Where two vectors balance a valid equation that are not multiples of
/// each other, the eliminated matrix of the equation has, before its last
/// row, a row with more than one entry other than zero.
pub proof fn lemma_two_ratios_leave_a_boundary(
    equation: EquationView,
    first: Seq<int>,
    second: Seq<int>,
    i: int,
    j: int,
)
    requires
        valid_equation(equation),
        eliminated(initial_matrix(equation), equation.columns()) is Some,
        first.len() == equation.entities().len(),
        second.len() == equation.entities().len(),
        balances(equation, first),
        balances(equation, second),
        0 <= i < first.len(),
        0 <= j < first.len(),
        first[i] * second[j] != first[j] * second[i],
    ensures
        boundary_from(eliminated(initial_matrix(equation), equation.columns())->0, 0)
            < eliminated(initial_matrix(equation), equation.columns())->0.len() - 1,
{
    let start = initial_matrix(equation);
    let columns = equation.columns();
    let m = eliminated(start, columns)->0;
    lemma_initial_matrix_shape(equation);
    lemma_eliminated(start, columns);
    lemma_boundary_from(m, 0);
    if boundary_from(m, 0) >= m.len() - 1 {
        let rank = choose|rank: int| reduced_echelon(m, columns, rank);
        assert forall|r: int| 0 <= r < m.len() implies nonzero_count(#[trigger] m[r]) <= 1 by {
            if r == m.len() - 1 {
                lemma_zero_count(m[r]);
            }
        }
        let x = first.push(0);
        lemma_balances_agrees(equation, first, x);
        lemma_initial_matrix_solves(equation, x);
        lemma_eliminated_keeps(start, columns, x);
        lemma_place_is_forced(equation, m, rank, x, i);
        lemma_place_is_forced(equation, m, rank, x, j);
        assert(x[i] == first[i] && x[j] == first[j]);
        let a = second[j];
        let b = second[i];
        assert(0 * a == 0 * b) by (nonlinear_arith);
    }
}

/// A zero row has no entry other than zero.
pub proof fn lemma_zero_count(row: Seq<int>)
    requires
        is_zero(row),
    ensures
        nonzero_count(row) == 0,
    decreases row.len(),
{
    if row.len() > 0 {
        let rest = row.drop_last();
        assert forall|k: int| 0 <= k < rest.len() implies rest[k] == 0 by {
            assert(rest[k] == row[k]);
        }
        lemma_zero_count(rest);
        assert(row.last() == row[row.len() - 1]);
    }
}

/// Where no row of the eliminated matrix of a valid equation has two
/// entries other than zero, every solution is zero at the place of every
/// entity.
pub proof fn lemma_place_is_forced(
    equation: EquationView,
    m: Grid,
    rank: int,
    x: Seq<int>,
    place: int,
)
    requires
        valid_equation(equation),
        eliminated(initial_matrix(equation), equation.columns()) == Some(m),
        reduced_echelon(m, equation.columns(), rank),
        forall|r: int| 0 <= r < m.len() ==> nonzero_count(#[trigger] m[r]) <= 1,
        solves(m, x),
        0 <= place < equation.entities().len(),
    ensures
        x[place] == 0,
{
    let start = initial_matrix(equation);
    let columns = equation.columns();
    let one = unit(columns as nat, place);
    lemma_initial_matrix_shape(equation);
    lemma_unit_does_not_balance(equation, place);
    lemma_initial_matrix_solves(equation, one);
    lemma_eliminated_keeps(start, columns, one);
    lemma_forced_zero(m, columns, rank, x, place);
}

} // verus!
