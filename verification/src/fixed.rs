//! A matrix in reduced row echelon form is left as it is by the
//! elimination.

use vstd::prelude::*;
use vstd::arithmetic::div_mod::{lemma_div_basics, lemma_div_by_self};
use crate::arithmetic::{abs, gcd_int, lemma_gcd_of_zero};
use crate::echelon::{
    echelon_upto, lemma_pivot_row_from, normal, normal_rows, rectangular, reduced_echelon,
    reduced_from,
};
use crate::matrix::{
    all_simplified, backward, bounded, cleared_above, cleared_below, combined, eliminated,
    forward, lead, lemma_lead, lemma_row_gcd_zero, pivot_row_from, row_gcd, row_scaled, row_sum,
    simplified, swapped, Grid,
};

verus! {

/// Every row of the grid is bounded.
pub open spec fn bounded_rows(m: Grid) -> bool {
    forall|r: int| 0 <= r < m.len() ==> bounded(#[trigger] m[r])
}

/// Simplifying leaves a normal row as it is.
pub proof fn lemma_simplified_fixed(row: Seq<int>)
    requires
        normal(row),
    ensures
        simplified(row) == row,
{
    lemma_lead(row);
    lemma_row_gcd_zero(row);
    let l = lead(row);
    if l < row.len() {
        assert(row_gcd(row) == 1);
        assert forall|i: int| 0 <= i < row.len() implies simplified(row)[i] == row[i] by {
            lemma_div_basics(row[i]);
            let x = row[i];
            assert(1 * (x / 1) == x) by (nonlinear_arith)
                requires
                    x / 1 == x,
            ;
        }
        assert(simplified(row) =~= row);
    }
}

/// Combining a row that is zero in the pivot's column with the pivot row
/// leaves the row as it is.
pub proof fn lemma_combined_fixed(row: Seq<int>, pivot_row: Seq<int>, column: int)
    requires
        row.len() == pivot_row.len(),
        0 <= column < row.len(),
        pivot_row[column] > 0,
        row[column] == 0,
        bounded(row),
    ensures
        combined(row, pivot_row, column) == Some(row),
{
    let pivot = pivot_row[column];
    lemma_gcd_of_zero(abs(pivot));
    let g = gcd_int(pivot, 0) as int;
    assert(g == pivot);
    lemma_div_by_self(pivot);
    crate::arithmetic::lemma_divides_self_and_zero(pivot as nat);
    assert(0int / pivot == 0) by {
        vstd::arithmetic::div_mod::lemma_div_of0(pivot);
    }
    let first = row_scaled(row, 1);
    let second = row_scaled(pivot_row, 0);
    assert(first =~= row) by {
        assert forall|i: int| 0 <= i < row.len() implies first[i] == row[i] by {
            let x = row[i];
            assert(1 * x == x) by (nonlinear_arith);
        }
    }
    assert forall|i: int| 0 <= i < second.len() implies #[trigger] second[i] == 0 by {
        let x = pivot_row[i];
        assert(0 * x == 0) by (nonlinear_arith);
    }
    assert(row_sum(first, second) =~= row);
    assert(bounded(second));
}

/// Eliminating a column below the pivot row changes nothing where the
/// rows below are zero in that column.
pub proof fn lemma_cleared_below_fixed(m: Grid, columns: int, pivots: int, column: int, row: int)
    requires
        rectangular(m, columns),
        normal_rows(m),
        bounded_rows(m),
        0 <= pivots < row <= m.len(),
        0 <= column < columns,
        m[pivots][column] > 0,
        forall|r: int| pivots < r < m.len() ==> (#[trigger] m[r])[column] == 0,
    ensures
        cleared_below(m, pivots, column, row) == Some(m),
    decreases m.len() - row,
{
    if row < m.len() {
        lemma_combined_fixed(m[row], m[pivots], column);
        lemma_simplified_fixed(m[row]);
        assert(m.update(row, m[row]) =~= m);
        lemma_cleared_below_fixed(m, columns, pivots, column, row + 1);
    }
}

/// The forward phase changes nothing in a grid in reduced echelon form.
pub proof fn lemma_forward_fixed(m: Grid, columns: int, rank: int, column: int, pivots: int)
    requires
        reduced_echelon(m, columns, rank),
        bounded_rows(m),
        0 <= column <= columns,
        echelon_upto(m, pivots, column),
        pivots <= rank,
    ensures
        forward(m, columns, column, pivots) == Some(m),
    decreases columns - column,
{
    if column < columns {
        lemma_pivot_row_from(m, pivots, column);
        let found = pivot_row_from(m, pivots, column);
        assert forall|r: int| pivots < r < m.len() implies (#[trigger] m[r])[column] == 0 by {
            lemma_lead(m[r]);
            lemma_lead(m[pivots]);
            assert(m[r].len() == columns);
            if r < rank {
                assert(lead(m[pivots]) < lead(m[r]));
            }
        }
        if pivots < m.len() && m[pivots][column] != 0 {
            lemma_lead(m[pivots]);
            assert(m[pivots].len() == columns);
            assert(lead(m[pivots]) == column);
            assert(normal(m[pivots]));
            assert(found == pivots);
            assert(pivots < rank);
            assert(swapped(m, pivots, pivots) =~= m);
            lemma_cleared_below_fixed(m, columns, pivots, column, pivots + 1);
            assert(echelon_upto(m, pivots + 1, column + 1)) by {
                assert forall|r: int| pivots + 1 <= r < m.len() implies lead(#[trigger] m[r])
                    >= column + 1 by {
                    lemma_lead(m[r]);
                    assert(m[r].len() == columns);
                }
            }
            lemma_forward_fixed(m, columns, rank, column + 1, pivots + 1);
        } else {
            assert(found >= m.len());
            assert(echelon_upto(m, pivots, column + 1)) by {
                assert forall|r: int| pivots <= r < m.len() implies lead(#[trigger] m[r])
                    >= column + 1 by {
                    lemma_lead(m[r]);
                    assert(m[r].len() == columns);
                }
            }
            lemma_forward_fixed(m, columns, rank, column + 1, pivots);
        }
    }
}

/// Eliminating a column above the pivot row changes nothing where the
/// rows above are zero in that column.
pub proof fn lemma_cleared_above_fixed(
    m: Grid,
    columns: int,
    pivot_row: int,
    column: int,
    rows_left: int,
)
    requires
        rectangular(m, columns),
        normal_rows(m),
        bounded_rows(m),
        0 <= rows_left <= pivot_row < m.len(),
        0 <= column < columns,
        m[pivot_row][column] > 0,
        forall|r: int| 0 <= r < pivot_row ==> (#[trigger] m[r])[column] == 0,
    ensures
        cleared_above(m, pivot_row, column, rows_left) == Some(m),
    decreases rows_left,
{
    if rows_left > 0 {
        let j = rows_left - 1;
        lemma_combined_fixed(m[j], m[pivot_row], column);
        lemma_simplified_fixed(m[j]);
        assert(m.update(j, m[j]) =~= m);
        lemma_cleared_above_fixed(m, columns, pivot_row, column, rows_left - 1);
    }
}

/// The backward phase changes nothing in a grid in reduced echelon form.
pub proof fn lemma_backward_fixed(m: Grid, columns: int, rank: int, rows_left: int)
    requires
        reduced_echelon(m, columns, rank),
        bounded_rows(m),
        0 <= rows_left <= m.len(),
    ensures
        backward(m, columns, rows_left) == Some(m),
    decreases rows_left,
{
    if rows_left > 0 {
        let row = rows_left - 1;
        let column = lead(m[row]);
        lemma_lead(m[row]);
        assert(m[row].len() == columns);
        if !(row == 0 || column >= columns) {
            assert(normal(m[row]));
            lemma_cleared_above_fixed(m, columns, row, column, row);
        }
        lemma_backward_fixed(m, columns, rank, rows_left - 1);
    }
}

/// The elimination changes nothing in a grid in reduced echelon form with
/// bounded entries.
pub proof fn lemma_eliminated_fixed(m: Grid, columns: int, rank: int)
    requires
        reduced_echelon(m, columns, rank),
        bounded_rows(m),
        0 <= columns,
    ensures
        eliminated(m, columns) == Some(m),
{
    assert(all_simplified(m) =~= m) by {
        assert forall|r: int| 0 <= r < m.len() implies all_simplified(m)[r] == m[r] by {
            assert(normal(m[r]));
            lemma_simplified_fixed(m[r]);
        }
    }
    assert(echelon_upto(m, 0, 0)) by {
        assert forall|r: int| 0 <= r < m.len() implies lead(#[trigger] m[r]) >= 0 by {
            lemma_lead(m[r]);
        }
    }
    lemma_forward_fixed(m, columns, rank, 0, 0);
    lemma_backward_fixed(m, columns, rank, m.len() as int);
}

} // verus!
