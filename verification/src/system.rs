//! The matrix of an equation as a system of equations: a vector solves it
//! exactly if it balances every element.

use vstd::prelude::*;
use crate::echelon::{has_zero_row, is_zero, rectangular};
use crate::entity::EntityView;
use crate::equation::EquationView;
use crate::kernel::{dot, lemma_dot_none, solves};
use crate::solution::{balances, initial_matrix, initial_row, residual, weighted};

verus! {

/// The weighted count of a list of entities depends only on the
/// coefficients at the places of the entities.
pub proof fn lemma_weighted_agrees(
    entities: Seq<EntityView>,
    first: Seq<int>,
    second: Seq<int>,
    name: Seq<char>,
)
    requires
        forall|k: int| 0 <= k < entities.len() ==> first[k] == second[k],
    ensures
        weighted(entities, first, name) == weighted(entities, second, name),
    decreases entities.len(),
{
    if entities.len() > 0 {
        lemma_weighted_agrees(entities.drop_last(), first, second, name);
    }
}

/// The product of a vector with the start of the row of an element is the
/// weighted count of the reactants in that start, minus that of the
/// products in it.
pub proof fn lemma_initial_row_start(equation: EquationView, name: Seq<char>, y: Seq<int>, k: int)
    requires
        0 <= k <= equation.entities().len(),
        y.len() >= equation.entities().len(),
    ensures
        dot(initial_row(equation, name).take(k), y) == if k <= equation.reactants.len() {
            weighted(equation.reactants.take(k), y, name)
        } else {
            weighted(equation.reactants, y, name) - weighted(
                equation.products.take(k - equation.reactants.len()),
                y.skip(equation.reactants.len() as int),
                name,
            )
        },
    decreases k,
{
    let row = initial_row(equation, name);
    let reactants = equation.reactants.len() as int;
    if k == 0 {
        assert(row.take(0).len() == 0);
        assert(equation.reactants.take(0).len() == 0);
    }
    if k > 0 {
        lemma_initial_row_start(equation, name, y, k - 1);
        assert(row.take(k).drop_last() =~= row.take(k - 1));
        assert(row.take(k).last() == row[k - 1]);
        assert(dot(row.take(k), y) == dot(row.take(k - 1), y) + row[k - 1] * y[k - 1]);
        if k <= reactants {
            let part = equation.reactants.take(k);
            assert(part.drop_last() =~= equation.reactants.take(k - 1));
            assert(part.last() == equation.reactants[k - 1]);
            let c = equation.reactants[k - 1].count(name);
            let v = y[k - 1];
            assert(row[k - 1] == c);
            assert(weighted(part, y, name) == weighted(part.drop_last(), y, name) + y[part.len()
                - 1] * part.last().count(name));
            assert(c * v == v * c) by (nonlinear_arith);
        } else {
            let j = k - reactants;
            let rest = y.skip(reactants);
            let part = equation.products.take(j);
            assert(part.drop_last() =~= equation.products.take(j - 1));
            assert(part.last() == equation.products[j - 1]);
            assert(rest[j - 1] == y[k - 1]);
            if k - 1 == reactants {
                assert(equation.reactants.take(reactants) =~= equation.reactants);
                assert(equation.products.take(0).len() == 0);
            }
            let c = equation.products[j - 1].count(name);
            let v = y[k - 1];
            assert(row[k - 1] == -c);
            assert(weighted(part, rest, name) == weighted(part.drop_last(), rest, name) + rest[
                part.len() - 1] * part.last().count(name));
            assert((-c) * v == -(v * c)) by (nonlinear_arith);
        }
    }
}

/// The product of a vector with the row of an element is what the vector
/// leaves of that element out of balance.
pub proof fn lemma_initial_row_dot(equation: EquationView, name: Seq<char>, y: Seq<int>)
    requires
        y.len() >= equation.entities().len(),
    ensures
        dot(initial_row(equation, name), y) == residual(equation, y, name),
{
    let row = initial_row(equation, name);
    let entities = equation.entities().len() as int;
    let reactants = equation.reactants.len() as int;
    lemma_initial_row_start(equation, name, y, entities);
    assert(row.drop_last() =~= row.take(entities));
    assert(row.last() == 0);
    assert(equation.products.take(entities - reactants) =~= equation.products);
    if entities <= reactants {
        assert(equation.reactants.take(entities) =~= equation.reactants);
        assert(equation.products.len() == 0);
    }
}

/// The matrix of an equation has as many entries in every row as the
/// equation has entities, and one more; and its last row is zero.
pub proof fn lemma_initial_matrix_shape(equation: EquationView)
    ensures
        initial_matrix(equation).len() == equation.names().len() + 1,
        rectangular(initial_matrix(equation), equation.columns()),
        has_zero_row(initial_matrix(equation)),
        is_zero(initial_matrix(equation)[equation.names().len() as int]),
{
    let m = initial_matrix(equation);
    assert forall|r: int| 0 <= r < m.len() implies (#[trigger] m[r]).len()
        == equation.columns() by {}
    assert(is_zero(m[equation.names().len() as int]));
}

/// A vector solves the matrix of an equation exactly if it balances every
/// element of the equation.
pub proof fn lemma_initial_matrix_solves(equation: EquationView, y: Seq<int>)
    requires
        y.len() >= equation.entities().len(),
    ensures
        solves(initial_matrix(equation), y) == balances(equation, y),
{
    let m = initial_matrix(equation);
    let names = equation.names();
    if solves(m, y) {
        assert forall|i: int| 0 <= i < names.len() implies residual(
            equation,
            y,
            #[trigger] names[i],
        ) == 0 by {
            lemma_initial_row_dot(equation, names[i], y);
            assert(dot(m[i], y) == 0);
        }
    }
    if balances(equation, y) {
        assert forall|r: int| 0 <= r < m.len() implies dot(#[trigger] m[r], y) == 0 by {
            if r < names.len() {
                lemma_initial_row_dot(equation, names[r], y);
                assert(residual(equation, y, names[r]) == 0);
            } else {
                lemma_dot_none(m[r], y);
            }
        }
    }
}

/// Two vectors of coefficients that agree at the places of the entities
/// balance the same equations.
pub proof fn lemma_balances_agrees(equation: EquationView, first: Seq<int>, second: Seq<int>)
    requires
        first.len() >= equation.entities().len(),
        second.len() >= equation.entities().len(),
        forall|k: int| 0 <= k < equation.entities().len() ==> first[k] == second[k],
    ensures
        balances(equation, first) == balances(equation, second),
{
    let reactants = equation.reactants.len() as int;
    assert forall|name: Seq<char>| residual(equation, first, name) == residual(
        equation,
        second,
        name,
    ) by {
        lemma_weighted_agrees(equation.reactants, first, second, name);
        assert forall|k: int| 0 <= k < equation.products.len() implies first.skip(reactants)[k]
            == second.skip(reactants)[k] by {
            assert(first.skip(reactants)[k] == first[k + reactants]);
            assert(second.skip(reactants)[k] == second[k + reactants]);
        }
        lemma_weighted_agrees(
            equation.products,
            first.skip(reactants),
            second.skip(reactants),
            name,
        );
    }
    if balances(equation, first) {
        assert forall|i: int| 0 <= i < equation.names().len() implies residual(
            equation,
            second,
            #[trigger] equation.names()[i],
        ) == 0 by {
            assert(residual(equation, first, equation.names()[i]) == 0);
        }
    }
    if balances(equation, second) {
        assert forall|i: int| 0 <= i < equation.names().len() implies residual(
            equation,
            first,
            #[trigger] equation.names()[i],
        ) == 0 by {
            assert(residual(equation, second, equation.names()[i]) == 0);
        }
    }
}

} // verus!
