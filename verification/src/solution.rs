//! What balancing yields, as functions of an equation and of its matrix.

use vstd::prelude::*;
use crate::arithmetic::{
    abs, divides, gcd_int, lcm_int, lemma_divisor_bound, lemma_gcd_divides, lemma_gcd_zero, LIMIT,
};
use crate::balancer_error::BalancerError;
use crate::echelon::{echelon_upto, normal, reduced_echelon};
use crate::entity::EntityView;
use crate::equation::EquationView;
use crate::matrix::{bounded, eliminated, lead, lemma_lead, zero_row, Grid};

verus! {

/// The row of the element named `name`: its count in each reactant, its
/// count negated in each product, and zero in the solution column.
pub open spec fn initial_row(equation: EquationView, name: Seq<char>) -> Seq<int> {
    let reactants = equation.reactants.len() as int;
    let entities = equation.entities().len() as int;
    Seq::new(
        (entities + 1) as nat,
        |j: int|
            if 0 <= j < reactants {
                equation.reactants[j].count(name)
            } else if reactants <= j < entities {
                -equation.products[j - reactants].count(name)
            } else {
                0
            },
    )
}

/// The matrix of an equation: a row for each name, and one more row of
/// zeros.
pub open spec fn initial_matrix(equation: EquationView) -> Grid {
    let names = equation.names();
    Seq::new(
        names.len() + 1,
        |i: int|
            if 0 <= i < names.len() {
                initial_row(equation, names[i])
            } else {
                zero_row(equation.entities().len() + 1)
            },
    )
}

/// The number of entries of a row that are not zero.
pub open spec fn nonzero_count(row: Seq<int>) -> nat
    decreases row.len(),
{
    if row.len() == 0 {
        0
    } else if row.last() != 0 {
        nonzero_count(row.drop_last()) + 1
    } else {
        nonzero_count(row.drop_last())
    }
}

/// The first row from `row` on with more than one entry that is not zero,
/// or the number of rows if there is none.
pub open spec fn boundary_from(m: Grid, row: int) -> int
    decreases m.len() - row,
{
    if row < 0 || row >= m.len() {
        m.len() as int
    } else if nonzero_count(m[row]) > 1 {
        row
    } else {
        boundary_from(m, row + 1)
    }
}

/// The grid with a 1 in the column `boundary` and a 1 in the last column of
/// its last row.
pub open spec fn pinned(m: Grid, boundary: int) -> Grid {
    let last = m.len() - 1;
    let columns = m[last].len() as int;
    m.update(last, m[last].update(boundary, 1).update(columns - 1, 1))
}

/// The solved matrix: eliminated, one coefficient pinned to 1 in the last
/// row, and eliminated again. An error where only zeros solve the system,
/// or where an entry leaves the bounds.
pub open spec fn solved(m: Grid, columns: int) -> Result<Grid, BalancerError> {
    match eliminated(m, columns) {
        None => Err(BalancerError::CoefficientsAreIncorrectlyPlaced),
        Some(first) => {
            let boundary = boundary_from(first, 0);
            if boundary >= first.len() - 1 {
                Err(BalancerError::AllCoefficientsAreZero)
            } else {
                match eliminated(pinned(first, boundary), columns) {
                    None => Err(BalancerError::CoefficientsAreIncorrectlyPlaced),
                    Some(second) => Ok(second),
                }
            }
        },
    }
}

/// Both eliminations of solving stay within the bounds of 32 bits.
pub open spec fn eliminations_fit(m: Grid, columns: int) -> bool {
    solved(m, columns) != Err::<Grid, BalancerError>(
        BalancerError::CoefficientsAreIncorrectlyPlaced,
    )
}

/// The matrix as solving leaves it, whether solving succeeds or not: a
/// step that would leave the bounds is not taken.
pub open spec fn worked(m: Grid, columns: int) -> Grid {
    match eliminated(m, columns) {
        None => m,
        Some(first) => {
            let boundary = boundary_from(first, 0);
            if boundary >= first.len() - 1 {
                first
            } else {
                match eliminated(pinned(first, boundary), columns) {
                    None => pinned(first, boundary),
                    Some(second) => second,
                }
            }
        },
    }
}

/// The least common multiple of the first `count` entries on the diagonal.
pub open spec fn diagonal_lcm(m: Grid, count: int) -> nat
    decreases count,
{
    if count <= 0 {
        1
    } else {
        lcm_int(diagonal_lcm(m, count - 1) as int, m[count - 1][count - 1])
    }
}

/// The coefficients that a solved matrix stands for: for each column but
/// the last, the least common multiple of the diagonal, divided by the
/// entry on the diagonal and multiplied by the entry in the last column.
pub open spec fn raw_coefficients(m: Grid, columns: int) -> Seq<int> {
    let multiple = diagonal_lcm(m, columns - 1) as int;
    Seq::new((columns - 1) as nat, |i: int| (multiple / m[i][i]) * m[i][columns - 1])
}

/// The coefficients of a solved matrix. An error where the matrix has
/// fewer rows than coefficients or a zero at the end of its diagonal, so
/// that more than one ratio solves the system, or where a coefficient
/// leaves the bounds.
pub open spec fn extracted(m: Grid, columns: int) -> Result<Seq<int>, BalancerError> {
    if m.len() < columns - 1 || m[columns - 2][columns - 2] == 0 {
        Err(BalancerError::ReactionCanBeEqualizedInInfiniteNumberOfWays)
    } else if diagonal_lcm(m, columns - 1) > LIMIT || !bounded(raw_coefficients(m, columns)) {
        Err(BalancerError::CoefficientsAreIncorrectlyPlaced)
    } else {
        Ok(raw_coefficients(m, columns))
    }
}

/// The atoms of the element named `name` in a list of entities, each
/// entity taken as many times as its coefficient says.
pub open spec fn weighted(entities: Seq<EntityView>, coefficients: Seq<int>, name: Seq<char>) -> int
    decreases entities.len(),
{
    if entities.len() == 0 {
        0
    } else {
        weighted(entities.drop_last(), coefficients, name) + coefficients[entities.len() - 1]
            * entities.last().count(name)
    }
}

/// The atoms of the element named `name` on the left of the equation minus
/// those on its right, under the coefficients.
pub open spec fn residual(equation: EquationView, coefficients: Seq<int>, name: Seq<char>) -> int {
    weighted(equation.reactants, coefficients, name) - weighted(
        equation.products,
        coefficients.skip(equation.reactants.len() as int),
        name,
    )
}

/// Every coefficient is zero.
pub open spec fn all_zero(coefficients: Seq<int>) -> bool {
    forall|i: int| 0 <= i < coefficients.len() ==> coefficients[i] == 0
}

/// The coefficients balance every element of the equation, and its charge.
pub open spec fn balances(equation: EquationView, coefficients: Seq<int>) -> bool {
    forall|i: int|
        0 <= i < equation.names().len() ==> residual(
            equation,
            coefficients,
            #[trigger] equation.names()[i],
        ) == 0
}

/// The check of an answer: as many coefficients as entities, not all of
/// them zero, and every element balanced.
pub open spec fn checked(equation: EquationView, coefficients: Seq<int>) -> Result<
    (),
    BalancerError,
> {
    if equation.entities().len() != coefficients.len() {
        Err(BalancerError::MismatchInNumberOfCoefficients)
    } else if all_zero(coefficients) {
        Err(BalancerError::AllCoefficientsAreZero)
    } else if !balances(equation, coefficients) {
        Err(BalancerError::CoefficientsAreIncorrectlyPlaced)
    } else {
        Ok(())
    }
}

/// The coefficients that balancing finds for an equation with the matrix
/// `m`.
pub open spec fn coefficients(equation: EquationView, m: Grid) -> Result<Seq<int>, BalancerError> {
    let columns = equation.columns();
    match solved(m, columns) {
        Err(error) => Err(error),
        Ok(matrix) => match extracted(matrix, columns) {
            Err(error) => Err(error),
            Ok(found) => match checked(equation, found) {
                Err(error) => Err(error),
                Ok(_) => Ok(found),
            },
        },
    }
}

/// The balanced equation as a text.
pub open spec fn balanced(equation: EquationView, m: Grid) -> Result<Seq<char>, BalancerError> {
    match coefficients(equation, m) {
        Err(error) => Err(error),
        Ok(found) => Ok(equation.text(found)),
    }
}

/// A row with an entry that is not zero has a first such entry.
pub proof fn lemma_nonzero_count(row: Seq<int>)
    ensures
        nonzero_count(row) > 0 ==> lead(row) < row.len(),
    decreases row.len(),
{
    lemma_lead(row);
    if row.len() > 0 {
        lemma_nonzero_count(row.drop_last());
        lemma_lead(row.drop_last());
        if nonzero_count(row) > 0 && lead(row) >= row.len() {
            assert(row.last() == row[row.len() - 1]);
            assert forall|j: int| 0 <= j < row.drop_last().len() implies row.drop_last()[j] == 0 by {
                assert(row.drop_last()[j] == row[j]);
            }
        }
    }
}

/// A row with more than one entry that is not zero has its first such entry
/// before its last place.
pub proof fn lemma_nonzero_count_two(row: Seq<int>)
    ensures
        nonzero_count(row) > 1 ==> lead(row) < row.len() - 1,
{
    lemma_lead(row);
    if row.len() > 0 {
        lemma_nonzero_count(row.drop_last());
        lemma_lead(row.drop_last());
        if nonzero_count(row) > 1 {
            let l = lead(row.drop_last());
            assert(row.drop_last()[l] == row[l]);
        }
    }
}

/// What `boundary_from` returns.
pub proof fn lemma_boundary_from(m: Grid, row: int)
    requires
        0 <= row <= m.len(),
    ensures
        row <= boundary_from(m, row) <= m.len(),
        forall|r: int| row <= r < boundary_from(m, row) ==> nonzero_count(#[trigger] m[r]) <= 1,
        boundary_from(m, row) < m.len() ==> nonzero_count(m[boundary_from(m, row)]) > 1,
    decreases m.len() - row,
{
    if row < m.len() && nonzero_count(m[row]) <= 1 {
        lemma_boundary_from(m, row + 1);
    }
}

/// In echelon form the first entry of a pivot row stands at or after the
/// diagonal.
pub proof fn lemma_lead_after_diagonal(m: Grid, pivots: int, columns: int, row: int)
    requires
        echelon_upto(m, pivots, columns),
        0 <= row < pivots,
    ensures
        lead(m[row]) >= row,
    decreases row,
{
    lemma_lead(m[row]);
    if row > 0 {
        lemma_lead_after_diagonal(m, pivots, columns, row - 1);
    }
}

/// In reduced echelon form a row with more than one entry that is not zero
/// has an index below the number of columns less one.
pub proof fn lemma_boundary_column(m: Grid, columns: int, pivots: int, row: int)
    requires
        reduced_echelon(m, columns, pivots),
        0 <= row < m.len(),
        nonzero_count(m[row]) > 1,
    ensures
        row < columns - 1,
{
    lemma_nonzero_count_two(m[row]);
    lemma_lead_after_diagonal(m, pivots, columns, row);
}

/// In reduced echelon form with an entry other than zero at the place
/// `last` of the diagonal, the rows up to `last` have their first entries on
/// the diagonal, and nothing else in the columns up to `last`.
pub proof fn lemma_diagonal(m: Grid, columns: int, pivots: int, last: int, row: int)
    requires
        reduced_echelon(m, columns, pivots),
        0 <= row <= last < m.len(),
        last < columns,
        m[last][last] != 0,
    ensures
        row < pivots,
        lead(m[row]) == row,
        m[row][row] > 0,
        forall|j: int| 0 <= j <= last && j != row ==> m[row][j] == 0,
    decreases last - row,
{
    lemma_lead(m[last]);
    lemma_lead(m[row]);
    assert(last < pivots);
    lemma_lead_after_diagonal(m, pivots, columns, last);
    lemma_lead_after_diagonal(m, pivots, columns, row);
    if row < last {
        lemma_diagonal(m, columns, pivots, last, row + 1);
    }
    assert(lead(m[row]) == row);
    assert(normal(m[row]));
    assert forall|j: int| 0 <= j <= last && j != row implies m[row][j] == 0 by {
        if j > row {
            lemma_diagonal_lead(m, columns, pivots, last, j);
        }
    }
}

/// In reduced echelon form with an entry other than zero at the place
/// `last` of the diagonal, the first entry of each row up to `last` stands
/// on the diagonal.
pub proof fn lemma_diagonal_lead(m: Grid, columns: int, pivots: int, last: int, row: int)
    requires
        reduced_echelon(m, columns, pivots),
        0 <= row <= last < m.len(),
        last < columns,
        m[last][last] != 0,
    ensures
        lead(m[row]) == row,
    decreases last - row,
{
    lemma_lead(m[last]);
    lemma_lead(m[row]);
    assert(last < pivots);
    lemma_lead_after_diagonal(m, pivots, columns, last);
    lemma_lead_after_diagonal(m, pivots, columns, row);
    if row < last {
        lemma_diagonal_lead(m, columns, pivots, last, row + 1);
    }
}

/// The least common multiple of a positive number and a number other than
/// zero is not smaller than the first, and both divide it.
pub proof fn lemma_lcm_grows(a: int, b: int)
    requires
        a >= 1,
        b != 0,
    ensures
        lcm_int(a, b) >= a,
        divides(abs(a), lcm_int(a, b) as int),
        divides(abs(b), lcm_int(a, b) as int),
{
    let g = gcd_int(a, b);
    lemma_gcd_zero(abs(a), abs(b));
    lemma_gcd_divides(abs(a), abs(b));
    lemma_divisor_bound(g, abs(b));
    let k = (abs(b) as int) / (g as int);
    let j = (abs(a) as int) / (g as int);
    assert(k >= 1 && a * k >= a) by (nonlinear_arith)
        requires
            abs(b) == g * k,
            g > 0,
            abs(b) > 0,
            a >= 1,
    ;
    crate::arithmetic::lemma_divides_product(abs(a), k);
    assert(abs(a) * k == abs(b) * j) by (nonlinear_arith)
        requires
            abs(b) == g * k,
            abs(a) == g * j,
    ;
    crate::arithmetic::lemma_divides_product(abs(b), j);
}

/// The least common multiple of the diagonal grows with the number of
/// entries taken, where these are not zero.
pub proof fn lemma_diagonal_lcm_grows(m: Grid, count: int, more: int)
    requires
        0 <= count <= more,
        forall|i: int| 0 <= i < more ==> (#[trigger] m[i])[i] != 0,
    ensures
        1 <= diagonal_lcm(m, count) <= diagonal_lcm(m, more),
    decreases more,
{
    if more > 0 {
        if count < more {
            lemma_diagonal_lcm_grows(m, count, more - 1);
        } else {
            lemma_diagonal_lcm_grows(m, count - 1, more - 1);
        }
        assert(m[more - 1][more - 1] != 0);
        lemma_lcm_grows(diagonal_lcm(m, more - 1) as int, m[more - 1][more - 1]);
    }
}

} // verus!
