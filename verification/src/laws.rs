//! What holds of every parsed and of every balanced equation.

use vstd::prelude::*;
use crate::arithmetic::divides;
use crate::balancer::{answers, balanced_text, prepared, Error};
use crate::balancer_error::BalancerError;
use crate::canonical::{lemma_equation, plain_equation};
use crate::columns::{lemma_two_ratios_leave_a_boundary, lemma_valid_is_positive};
use crate::item::all_positive;
use crate::echelon::{is_zero, lemma_eliminated, reduced_echelon};
use crate::equation::EquationView;
use crate::fixed::{bounded_rows, lemma_eliminated_fixed};
use crate::freedom::lemma_free_coefficient;
use crate::grammar;
use crate::invariants::{
    lemma_equation_errors, lemma_equation_stays, lemma_neutral_is_plain, lemma_parsed_equation,
    neutral, tells_of_the_text, valid_equation, within,
};
use crate::kernel::lemma_eliminated_keeps;
use crate::matrix::{eliminated, zero_row, Grid};
use crate::names::{
    lemma_balanced_everywhere, lemma_electron_is_first, lemma_equation_names_distinct,
    lemma_weighted_electrons, weighted_charge,
};
use crate::parser_error::ParserError;
use crate::ratio::{
    lemma_cross_ratio, lemma_diagonal_divides, lemma_diagonal_form, lemma_lowest_terms,
    lemma_solution_is_multiple, lemma_solution_solves, lemma_solved, pinned_place, solution,
};
use crate::solution::{
    all_zero, balances, boundary_from, checked, coefficients, diagonal_lcm, eliminations_fit,
    extracted, initial_matrix, lemma_boundary_column, lemma_boundary_from, pinned, raw_coefficients,
    residual, solved, weighted,
};
use crate::system::{lemma_balances_agrees, lemma_initial_matrix_shape, lemma_initial_matrix_solves};

verus! {

/// The names are a set. No name stands twice among the names of an
/// equation, so that the matrix has one row for each element.
pub proof fn law_names_are_distinct(equation: EquationView)
    ensures
        equation.names().no_duplicates(),
        forall|i: int, j: int|
            0 <= i < j < equation.names().len() ==> equation.names()[i] != equation.names()[j],
{
    lemma_equation_names_distinct(equation);
}

/// Conservation of atoms and of charge. Whenever balancing finds
/// coefficients, these are as many as the entities and not all zero; for
/// every name of the equation the atoms of the reactants, each reactant
/// taken as often as its coefficient says, are as many as those of the
/// products; and so is the charge.
pub proof fn law_conservation(equation: EquationView, m: Grid)
    requires
        equation.reactants.len() >= 1,
        coefficients(equation, m) is Ok,
    ensures
        ({
            let found = coefficients(equation, m)->Ok_0;
            let rest = found.skip(equation.reactants.len() as int);
            &&& found.len() == equation.entities().len()
            &&& !all_zero(found)
            &&& forall|i: int|
                0 <= i < equation.names().len() ==> weighted(
                    equation.reactants,
                    found,
                    #[trigger] equation.names()[i],
                ) == weighted(equation.products, rest, equation.names()[i])
            &&& weighted_charge(equation.reactants, found) == weighted_charge(
                equation.products,
                rest,
            )
        }),
{
    let found = coefficients(equation, m)->Ok_0;
    let rest = found.skip(equation.reactants.len() as int);
    assert(balances(equation, found));
    assert forall|i: int| 0 <= i < equation.names().len() implies weighted(
        equation.reactants,
        found,
        #[trigger] equation.names()[i],
    ) == weighted(equation.products, rest, equation.names()[i]) by {
        assert(residual(equation, found, equation.names()[i]) == 0);
    }
    lemma_electron_is_first(equation);
    assert(residual(equation, found, equation.names()[0]) == 0);
    lemma_weighted_electrons(equation.reactants, found);
    lemma_weighted_electrons(equation.products, rest);
}

/// Conservation of the atoms of every name. Whenever balancing finds
/// coefficients, the atoms of any name whatever are as many among the
/// reactants, each taken as often as its coefficient says, as among the
/// products: a name that is not among the names of the equation counts no
/// atoms at all.
pub proof fn law_conservation_of_every_name(equation: EquationView, m: Grid, name: Seq<char>)
    requires
        coefficients(equation, m) is Ok,
    ensures
        ({
            let found = coefficients(equation, m)->Ok_0;
            weighted(equation.reactants, found, name) == weighted(
                equation.products,
                found.skip(equation.reactants.len() as int),
                name,
            )
        }),
{
    let found = coefficients(equation, m)->Ok_0;
    assert(balances(equation, found));
    lemma_balanced_everywhere(equation, found, name);
}

/// The balanced text. Where balancing a text succeeds, the text holds an
/// equation, and the balanced text is the text of that equation under
/// coefficients that balance every element, are not all zero, and have no
/// common divisor but 1.
pub proof fn law_balanced_text(text: Seq<char>)
    requires
        balanced_text(text) is Ok,
    ensures
        prepared(text) is Ok,
        coefficients(prepared(text)->Ok_0, initial_matrix(prepared(text)->Ok_0)) is Ok,
        ({
            let equation = prepared(text)->Ok_0;
            let found = coefficients(equation, initial_matrix(equation))->Ok_0;
            &&& balanced_text(text) == Ok::<Seq<char>, Error>(equation.text(found))
            &&& found.len() == equation.entities().len()
            &&& balances(equation, found)
            &&& !all_zero(found)
            &&& forall|d: nat| #[trigger] common_divisor(d, found) ==> d == 1
        }),
{
    let equation = prepared(text)->Ok_0;
    let found = coefficients(equation, initial_matrix(equation))->Ok_0;
    lemma_parsed_equation(text, 0);
    assert forall|d: nat| #[trigger] common_divisor(d, found) implies d == 1 by {
        law_minimality(equation, d);
    }
}

/// Determinism. Two answers for one text are the same: both hold the same
/// characters, or both are the same error.
pub proof fn law_determinism(text: Seq<char>, first: Result<String, Error>, second: Result<
    String,
    Error,
>)
    requires
        answers(text, first),
        answers(text, second),
    ensures
        match (first, second) {
            (Ok(a), Ok(b)) => a@ == b@,
            (Err(a), Err(b)) => a == b,
            _ => false,
        },
{
}

/// The solver is right. The coefficients that are read from the solved
/// matrix of an equation balance the equation, unless all of them are
/// zero: the check that follows never finds them out of balance, and never
/// finds another number of them than there are entities.
pub proof fn law_solution_balances(equation: EquationView)
    requires
        equation.entities().len() >= 1,
        solved(initial_matrix(equation), equation.columns()) is Ok,
        extracted(
            solved(initial_matrix(equation), equation.columns())->Ok_0,
            equation.columns(),
        ) is Ok,
    ensures
        ({
            let matrix = solved(initial_matrix(equation), equation.columns())->Ok_0;
            let found = extracted(matrix, equation.columns())->Ok_0;
            &&& found.len() == equation.entities().len()
            &&& !all_zero(found) ==> balances(equation, found)
            &&& checked(equation, found) is Ok || checked(equation, found) == Err::<
                (),
                BalancerError,
            >(BalancerError::AllCoefficientsAreZero)
        }),
{
    let start = initial_matrix(equation);
    let columns = equation.columns();
    let matrix = solved(start, columns)->Ok_0;
    let found = extracted(matrix, columns)->Ok_0;
    if !all_zero(found) {
        let y = solution(matrix, columns);
        lemma_initial_matrix_shape(equation);
        lemma_solved(start, columns, y);
        let rank = choose|rank: int| reduced_echelon(matrix, columns, rank);
        lemma_diagonal_form(matrix, columns, rank);
        lemma_solution_solves(matrix, columns, rank);
        lemma_initial_matrix_solves(equation, y);
        lemma_balances_agrees(equation, y, found);
    }
}

/// The number `d` divides every entry of the list.
pub open spec fn common_divisor(d: nat, list: Seq<int>) -> bool {
    forall|i: int| 0 <= i < list.len() ==> divides(d, #[trigger] list[i])
}

/// Minimality. The coefficients that balancing finds have no common
/// divisor but 1.
pub proof fn law_minimality(equation: EquationView, d: nat)
    requires
        equation.entities().len() >= 1,
        coefficients(equation, initial_matrix(equation)) is Ok,
        common_divisor(d, coefficients(equation, initial_matrix(equation))->Ok_0),
    ensures
        d == 1,
{
    let start = initial_matrix(equation);
    let columns = equation.columns();
    let matrix = solved(start, columns)->Ok_0;
    let found = extracted(matrix, columns)->Ok_0;
    assert(found == coefficients(equation, start)->Ok_0);
    let y = solution(matrix, columns);
    lemma_initial_matrix_shape(equation);
    lemma_solved(start, columns, y);
    let rank = choose|rank: int| reduced_echelon(matrix, columns, rank);
    lemma_diagonal_form(matrix, columns, rank);
    lemma_solution_solves(matrix, columns, rank);
    let place = pinned_place(start, columns);
    assert(y[place] == found[place]);
    assert(y[columns - 1] == -(diagonal_lcm(matrix, columns - 1) as int));
    assert forall|i: int| 0 <= i < columns - 1 implies divides(
        d,
        #[trigger] raw_coefficients(matrix, columns)[i],
    ) by {
        assert(divides(d, found[i]));
    }
    lemma_lowest_terms(matrix, columns, place, d);
}

/// One ratio. Where balancing finds coefficients, every vector that
/// balances the equation is a multiple of them: any two of its entries are
/// in the same ratio as the coefficients at their places.
pub proof fn law_one_ratio(equation: EquationView, other: Seq<int>, i: int, j: int)
    requires
        equation.entities().len() >= 1,
        coefficients(equation, initial_matrix(equation)) is Ok,
        other.len() == equation.entities().len(),
        balances(equation, other),
        0 <= i < other.len(),
        0 <= j < other.len(),
    ensures
        other[i] * coefficients(equation, initial_matrix(equation))->Ok_0[j] == other[j]
            * coefficients(equation, initial_matrix(equation))->Ok_0[i],
{
    let start = initial_matrix(equation);
    let columns = equation.columns();
    let matrix = solved(start, columns)->Ok_0;
    let found = extracted(matrix, columns)->Ok_0;
    assert(found == coefficients(equation, start)->Ok_0);
    let place = pinned_place(start, columns);
    lemma_initial_matrix_shape(equation);
    lemma_solved(start, columns, other);
    let y = other.push(-other[place]);
    lemma_solved(start, columns, y);
    lemma_balances_agrees(equation, other, y);
    lemma_initial_matrix_solves(equation, y);
    let rank = choose|rank: int| reduced_echelon(matrix, columns, rank);
    lemma_diagonal_form(matrix, columns, rank);
    assert(y[place] == other[place]);
    assert(y[columns - 1] == -other[place]);
    lemma_solution_is_multiple(matrix, columns, y, i);
    lemma_solution_is_multiple(matrix, columns, y, j);
    let multiple = diagonal_lcm(matrix, columns - 1) as int;
    lemma_diagonal_divides(matrix, columns - 1, 0);
    let t = other[place];
    let a = other[i];
    let b = other[j];
    let ci = found[i];
    let cj = found[j];
    assert(y[i] == a && y[j] == b);
    assert(a * cj == b * ci) by (nonlinear_arith)
        requires
            multiple * a == -(ci * (-t)),
            multiple * b == -(cj * (-t)),
            multiple >= 1,
    ;
}

/// Rejection of equations with more than one ratio. Where two vectors
/// balance an equation that are not multiples of each other, and the
/// eliminations stay within the bounds of 32 bits, balancing yields the
/// error of infinitely many balancings. The equation is one that the
/// parser yields: every entity of it counts an atom or a charge.
pub proof fn law_two_ratios_are_rejected(
    equation: EquationView,
    first: Seq<int>,
    second: Seq<int>,
    i: int,
    j: int,
)
    requires
        valid_equation(equation),
        eliminations_fit(initial_matrix(equation), equation.columns()),
        first.len() == equation.entities().len(),
        second.len() == equation.entities().len(),
        balances(equation, first),
        balances(equation, second),
        0 <= i < first.len(),
        0 <= j < first.len(),
        first[i] * second[j] != first[j] * second[i],
    ensures
        coefficients(equation, initial_matrix(equation)) == Err::<Seq<int>, BalancerError>(
            BalancerError::ReactionCanBeEqualizedInInfiniteNumberOfWays,
        ),
{
    lemma_two_ratios_leave_a_boundary(equation, first, second, i, j);
    assert(solved(initial_matrix(equation), equation.columns()) is Ok);
    let start = initial_matrix(equation);
    let columns = equation.columns();
    let matrix = solved(start, columns)->Ok_0;
    let place = pinned_place(start, columns);
    lemma_initial_matrix_shape(equation);
    let y = first.push(-first[place]);
    let z = second.push(-second[place]);
    lemma_solved(start, columns, y);
    lemma_solved(start, columns, z);
    if matrix.len() >= columns - 1 && matrix[columns - 2][columns - 2] != 0 {
        lemma_balances_agrees(equation, first, y);
        lemma_balances_agrees(equation, second, z);
        lemma_initial_matrix_solves(equation, y);
        lemma_initial_matrix_solves(equation, z);
        let rank = choose|rank: int| reduced_echelon(matrix, columns, rank);
        lemma_diagonal_form(matrix, columns, rank);
        assert(y[place] == first[place]);
        assert(z[place] == second[place]);
        lemma_solution_is_multiple(matrix, columns, y, i);
        lemma_solution_is_multiple(matrix, columns, y, j);
        lemma_solution_is_multiple(matrix, columns, z, i);
        lemma_solution_is_multiple(matrix, columns, z, j);
        let multiple = diagonal_lcm(matrix, columns - 1) as int;
        lemma_diagonal_divides(matrix, columns - 1, 0);
        let found = raw_coefficients(matrix, columns);
        let s = first[place];
        let t = second[place];
        let a = first[i];
        let b = first[j];
        let c = second[i];
        let e = second[j];
        let ci = found[i];
        let cj = found[j];
        assert(y[i] == a && y[j] == b && z[i] == c && z[j] == e);
        assert(multiple * a == ci * s && multiple * b == cj * s) by (nonlinear_arith)
            requires
                multiple * a == -(ci * (-s)),
                multiple * b == -(cj * (-s)),
        ;
        assert(multiple * c == ci * t && multiple * e == cj * t) by (nonlinear_arith)
            requires
                multiple * c == -(ci * (-t)),
                multiple * e == -(cj * (-t)),
        ;
        lemma_cross_ratio(multiple, a, b, c, e, ci, cj, s, t);
    }
}

/// Rejection of equations that only zeros balance. Where no vector but
/// that of zeros balances an equation, balancing yields an error, whatever
/// the matrix is.
pub proof fn law_only_zeros_are_rejected(equation: EquationView, m: Grid)
    requires
        forall|other: Seq<int>|
            other.len() == equation.entities().len() && #[trigger] balances(equation, other)
                ==> all_zero(other),
    ensures
        coefficients(equation, m) is Err,
{
    if coefficients(equation, m) is Ok {
        let found = coefficients(equation, m)->Ok_0;
        assert(balances(equation, found));
        assert(found.len() == equation.entities().len());
    }
}

/// The boundary of the equations that only zeros balance. Where no vector
/// but that of zeros balances an equation, and the first elimination of
/// its matrix stays within the bounds, balancing yields the error of
/// coefficients that are all zero.
pub proof fn law_only_zeros_give_the_zero_error(equation: EquationView)
    requires
        eliminated(initial_matrix(equation), equation.columns()) is Some,
        forall|other: Seq<int>|
            other.len() == equation.entities().len() && #[trigger] balances(equation, other)
                ==> all_zero(other),
    ensures
        coefficients(equation, initial_matrix(equation)) == Err::<Seq<int>, BalancerError>(
            BalancerError::AllCoefficientsAreZero,
        ),
{
    let start = initial_matrix(equation);
    let columns = equation.columns();
    let first = eliminated(start, columns)->0;
    lemma_initial_matrix_shape(equation);
    lemma_eliminated(start, columns);
    let rank = choose|rank: int| reduced_echelon(first, columns, rank);
    let boundary = boundary_from(first, 0);
    lemma_boundary_from(first, 0);
    if boundary < first.len() - 1 {
        let x = lemma_free_coefficient(first, columns, rank, boundary);
        lemma_eliminated_keeps(start, columns, x);
        lemma_initial_matrix_solves(equation, x);
        let other = x.take(columns - 1);
        lemma_balances_agrees(equation, x, other);
        assert(all_zero(other));
        let l = choose|l: int| 0 <= l < columns - 1 && x[l] != 0;
        assert(other[l] == x[l]);
    }
}

/// As many coefficients of 1 as `count`.
pub open spec fn ones(count: nat) -> Seq<int> {
    Seq::new(count, |i: int| 1int)
}

/// The invariants of the data. Every equation that is parsed has a
/// reactant and a product; each of its entities holds an item or is an
/// electron with the charge -1, and has a charge of a magnitude up to 127;
/// every group holds an item; every name is a symbol; and every count of
/// an element or of a group is at least 1 and at most 255.
pub proof fn law_parsed_equation_is_valid(text: Seq<char>)
    requires
        grammar::equation(text, 0).value is Ok,
    ensures
        valid_equation(grammar::equation(text, 0).value->Ok_0),
        forall|i: int|
            0 <= i < grammar::equation(text, 0).value->Ok_0.entities().len() ==> all_positive(
                (#[trigger] grammar::equation(text, 0).value->Ok_0.entities()[i]).items,
            ),
{
    lemma_parsed_equation(text, 0);
    let equation = grammar::equation(text, 0).value->Ok_0;
    assert forall|i: int| 0 <= i < equation.entities().len() implies all_positive(
        (#[trigger] equation.entities()[i]).items,
    ) by {
        if i < equation.reactants.len() {
            assert(equation.entities()[i] == equation.reactants[i]);
        } else {
            assert(equation.entities()[i] == equation.products[i - equation.reactants.len()]);
        }
        lemma_valid_is_positive(equation.entities()[i]);
    }
}

/// The errors of a text. Parsing a text fails only with an error that
/// tells what is wrong with the text: never with the error of advancing
/// beyond the last token, of a token that does not match a string, or of an
/// element that is not parsed, which tell of a method of the parser that
/// was called out of place.
pub proof fn law_errors_tell_of_the_text(text: Seq<char>)
    ensures
        grammar::equation(text, 0).value matches Err(error) ==> tells_of_the_text(error),
        prepared(text) matches Err(error) ==> tells_of_the_text(error),
{
    lemma_equation_errors(text, 0);
}

/// The offsets of an error. Where parsing a text fails, every offset that
/// the error carries is at most the number of characters of the text, and
/// of two offsets the first is not behind the second: the error points
/// into the text, or at its end.
pub proof fn law_errors_point_into_the_text(text: Seq<char>)
    requires
        text.len() <= usize::MAX,
    ensures
        grammar::equation(text, 0).value matches Err(error) ==> within(error, text.len() as int),
        prepared(text) matches Err(error) ==> within(error, text.len() as int),
        0 <= grammar::equation(text, 0).position <= text.len(),
{
    lemma_equation_stays(text, 0);
}

/// A second elimination changes nothing. The elimination leaves a matrix
/// in reduced row echelon form with bounded entries, which is what it
/// yields, as it is.
pub proof fn law_elimination_settles(m: Grid, columns: int, rank: int)
    requires
        reduced_echelon(m, columns, rank),
        bounded_rows(m),
        0 <= columns,
    ensures
        eliminated(m, columns) == Some(m),
{
    lemma_eliminated_fixed(m, columns, rank);
}

/// Solving. Where the eliminations stay within the bounds of 32 bits, the
/// matrix of an equation is first brought into reduced row echelon form,
/// with a last row of zeros. If none of its rows before the last has more
/// than one entry other than zero, solving yields the error of
/// coefficients that are all zero, and only then. Else it yields the
/// reduced row echelon form of that matrix with its last row replaced: 1
/// in the column with the index of the first such row, 1 in the last
/// column, and 0 elsewhere.
pub proof fn law_solving(equation: EquationView)
    requires
        eliminations_fit(initial_matrix(equation), equation.columns()),
    ensures
        eliminated(initial_matrix(equation), equation.columns()) is Some,
        ({
            let columns = equation.columns();
            let first = eliminated(initial_matrix(equation), columns)->0;
            let place = boundary_from(first, 0);
            let last = first.len() - 1;
            let result = solved(initial_matrix(equation), columns);
            &&& exists|rank: int| reduced_echelon(first, columns, rank)
            &&& is_zero(first[last])
            &&& result == Err::<Grid, BalancerError>(BalancerError::AllCoefficientsAreZero)
                <==> place >= last
            &&& place < last ==> {
                &&& 0 <= place < columns - 1
                &&& result == Ok::<Grid, BalancerError>(
                    eliminated(pinned(first, place), columns)->0,
                )
                &&& pinned(first, place)[last] == zero_row(columns as nat).update(
                    place,
                    1,
                ).update(columns - 1, 1)
                &&& exists|rank: int| reduced_echelon(result->Ok_0, columns, rank)
            }
        }),
{
    let start = initial_matrix(equation);
    let columns = equation.columns();
    let first = eliminated(start, columns)->0;
    lemma_initial_matrix_shape(equation);
    lemma_eliminated(start, columns);
    let place = boundary_from(first, 0);
    let last = first.len() - 1;
    lemma_boundary_from(first, 0);
    assert(first[last].len() == columns);
    assert(first[last] =~= zero_row(columns as nat));
    if place < last {
        let rank = choose|rank: int| reduced_echelon(first, columns, rank);
        lemma_boundary_column(first, columns, rank, place);
        lemma_solved(start, columns, Seq::empty());
    }
}

/// The canonical text is read back. The text of an equation without
/// charges and electrons, with coefficients of 1, is parsed to that
/// equation.
pub proof fn law_canonical_text_is_parsed_back(equation: EquationView)
    requires
        plain_equation(equation),
    ensures
        grammar::equation(equation.text(ones(equation.entities().len())), 0).value == Ok::<
            EquationView,
            ParserError,
        >(equation),
{
    lemma_equation(equation, ones(equation.entities().len()));
}

/// Idempotent formatting. Where a text holds an equation without charges
/// and electrons, the canonical text of that equation with coefficients
/// of 1, which is its balanced text with the coefficients taken away,
/// holds the same equation, and balancing it gives the same answer as
/// balancing the text.
pub proof fn law_idempotent_formatting(text: Seq<char>)
    requires
        prepared(text) is Ok,
        neutral(prepared(text)->Ok_0.reactants),
        neutral(prepared(text)->Ok_0.products),
    ensures
        ({
            let equation = prepared(text)->Ok_0;
            let again = equation.text(ones(equation.entities().len()));
            &&& prepared(again) == Ok::<EquationView, ParserError>(equation)
            &&& balanced_text(again) == balanced_text(text)
        }),
{
    let equation = prepared(text)->Ok_0;
    lemma_parsed_equation(text, 0);
    lemma_neutral_is_plain(equation.reactants);
    lemma_neutral_is_plain(equation.products);
    lemma_equation(equation, ones(equation.entities().len()));
}

} // verus!
