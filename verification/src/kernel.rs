//! The solutions of a homogeneous system, and that elimination keeps them.
//!
//! A vector solves a grid if its product with every row is zero. The steps
//! of the elimination exchange rows, divide a row by a number other than
//! zero, and replace a row by a combination in which it has a factor other
//! than zero; none of them changes the solutions.

use vstd::prelude::*;
use crate::arithmetic::{
    abs, gcd_int, lemma_divides_abs, lemma_exact_quotient, lemma_gcd_divides, lemma_gcd_zero,
};
use crate::echelon::{lemma_pivot_row_from, lemma_simplified_shape, rectangular};
use crate::matrix::{
    all_simplified, backward, cleared_above, cleared_below, combined, eliminated, forward, lead,
    lemma_lead, lemma_row_gcd_divides, lemma_row_gcd_zero, pivot_row_from, row_gcd, row_scaled,
    row_sum, simplified, swapped, Grid,
};

verus! {

/// The product of a row with a vector: the sum of the products of their
/// entries.
pub open spec fn dot(row: Seq<int>, x: Seq<int>) -> int
    decreases row.len(),
{
    if row.len() == 0 {
        0
    } else {
        dot(row.drop_last(), x) + row.last() * x[row.len() - 1]
    }
}

/// The vector `x` solves the grid: its product with every row is zero.
pub open spec fn solves(m: Grid, x: Seq<int>) -> bool {
    forall|r: int| 0 <= r < m.len() ==> dot(#[trigger] m[r], x) == 0
}

/// The product with a scaled row is the scaled product.
pub proof fn lemma_dot_scaled(row: Seq<int>, factor: int, x: Seq<int>)
    ensures
        dot(row_scaled(row, factor), x) == factor * dot(row, x),
    decreases row.len(),
{
    let scaled = row_scaled(row, factor);
    if row.len() > 0 {
        assert(scaled.drop_last() =~= row_scaled(row.drop_last(), factor));
        lemma_dot_scaled(row.drop_last(), factor, x);
        let a = dot(row.drop_last(), x);
        let b = row.last();
        let c = x[row.len() - 1];
        assert(factor * a + (factor * b) * c == factor * (a + b * c)) by (nonlinear_arith);
    } else {
        assert(factor * 0 == 0) by (nonlinear_arith);
    }
}

/// The product with a sum of rows is the sum of the products.
pub proof fn lemma_dot_sum(a: Seq<int>, b: Seq<int>, x: Seq<int>)
    requires
        a.len() == b.len(),
    ensures
        dot(row_sum(a, b), x) == dot(a, x) + dot(b, x),
    decreases a.len(),
{
    let sum = row_sum(a, b);
    if a.len() > 0 {
        assert(sum.drop_last() =~= row_sum(a.drop_last(), b.drop_last()));
        lemma_dot_sum(a.drop_last(), b.drop_last(), x);
        let c = x[a.len() - 1];
        let u = a.last();
        let v = b.last();
        assert((u + v) * c == u * c + v * c) by (nonlinear_arith);
    }
}

/// The product of a vector with a row is the sum of the products at two
/// places, where all products at the other places are zero.
pub proof fn lemma_dot_two(row: Seq<int>, x: Seq<int>, i: int, j: int)
    requires
        0 <= i < j < row.len(),
        forall|k: int| 0 <= k < row.len() && k != i && k != j ==> row[k] == 0 || x[k] == 0,
    ensures
        dot(row, x) == row[i] * x[i] + row[j] * x[j],
    decreases row.len(),
{
    let rest = row.drop_last();
    let last = row.len() - 1;
    assert forall|k: int| 0 <= k < rest.len() implies rest[k] == row[k] by {}
    if j == last {
        lemma_dot_one(rest, x, i);
    } else {
        lemma_dot_two(rest, x, i, j);
        let u = row[last];
        let v = x[last];
        assert(u * v == 0) by (nonlinear_arith)
            requires
                u == 0 || v == 0,
        ;
    }
}

/// The product of a vector with a row is the product at one place, where
/// all products at the other places are zero.
pub proof fn lemma_dot_one(row: Seq<int>, x: Seq<int>, i: int)
    requires
        0 <= i < row.len(),
        forall|k: int| 0 <= k < row.len() && k != i ==> row[k] == 0 || x[k] == 0,
    ensures
        dot(row, x) == row[i] * x[i],
    decreases row.len(),
{
    let rest = row.drop_last();
    let last = row.len() - 1;
    assert forall|k: int| 0 <= k < rest.len() implies rest[k] == row[k] by {}
    if i == last {
        lemma_dot_none(rest, x);
    } else {
        lemma_dot_one(rest, x, i);
        let u = row[last];
        let v = x[last];
        assert(u * v == 0) by (nonlinear_arith)
            requires
                u == 0 || v == 0,
        ;
    }
}

/// The product of a vector with a row is zero, where all products of their
/// entries are zero.
pub proof fn lemma_dot_none(row: Seq<int>, x: Seq<int>)
    requires
        forall|k: int| 0 <= k < row.len() ==> row[k] == 0 || x[k] == 0,
    ensures
        dot(row, x) == 0,
    decreases row.len(),
{
    if row.len() > 0 {
        let rest = row.drop_last();
        let last = row.len() - 1;
        assert forall|k: int| 0 <= k < rest.len() implies rest[k] == row[k] by {}
        lemma_dot_none(rest, x);
        let u = row[last];
        let v = x[last];
        assert(u * v == 0) by (nonlinear_arith)
            requires
                u == 0 || v == 0,
        ;
    }
}

/// The product of a row with a vector depends only on the entries of the
/// vector at the places of the row.
pub proof fn lemma_dot_agrees(row: Seq<int>, x: Seq<int>, y: Seq<int>)
    requires
        forall|k: int| 0 <= k < row.len() ==> x[k] == y[k],
    ensures
        dot(row, x) == dot(row, y),
    decreases row.len(),
{
    if row.len() > 0 {
        let rest = row.drop_last();
        lemma_dot_agrees(rest, x, y);
    }
}

/// A vector solves a simplified row exactly if it solves the row.
pub proof fn lemma_dot_simplified(row: Seq<int>, x: Seq<int>)
    ensures
        (dot(simplified(row), x) == 0) == (dot(row, x) == 0),
{
    lemma_lead(row);
    let l = lead(row);
    if l < row.len() {
        lemma_row_gcd_zero(row);
        let g = row_gcd(row) as int;
        let sign: int = if row[l] > 0 { 1 } else { -1 };
        let simple = simplified(row);
        let f = sign * g;
        assert(f != 0) by (nonlinear_arith)
            requires
                f == sign * g,
                g > 0,
                sign == 1 || sign == -1,
        ;
        assert(row =~= row_scaled(simple, f)) by {
            assert forall|i: int| 0 <= i < row.len() implies row[i] == row_scaled(simple, f)[i] by {
                lemma_row_gcd_divides(row, i);
                let q = row[i] / g;
                assert((sign * g) * (sign * q) == g * q) by (nonlinear_arith)
                    requires
                        sign == 1 || sign == -1,
                ;
            }
        }
        lemma_dot_scaled(simple, f, x);
        let d = dot(simple, x);
        assert((f * d == 0) == (d == 0)) by (nonlinear_arith)
            requires
                f != 0,
        ;
    }
}

/// Where a vector solves the pivot row, it solves the combination of a row
/// with the pivot row exactly if it solves the row.
pub proof fn lemma_dot_combined(row: Seq<int>, pivot_row: Seq<int>, column: int, x: Seq<int>)
    requires
        row.len() == pivot_row.len(),
        0 <= column < row.len(),
        pivot_row[column] != 0,
        combined(row, pivot_row, column) is Some,
        dot(pivot_row, x) == 0,
    ensures
        (dot(combined(row, pivot_row, column)->0, x) == 0) == (dot(row, x) == 0),
{
    let pivot = pivot_row[column];
    let entry = row[column];
    let g = gcd_int(pivot, entry);
    lemma_gcd_zero(abs(pivot), abs(entry));
    lemma_gcd_divides(abs(pivot), abs(entry));
    lemma_divides_abs(g, pivot);
    lemma_exact_quotient(pivot, g);
    let a = pivot / (g as int);
    let b = (-entry) / (g as int);
    lemma_dot_scaled(row, a, x);
    lemma_dot_scaled(pivot_row, b, x);
    lemma_dot_sum(row_scaled(row, a), row_scaled(pivot_row, b), x);
    let d = dot(row, x);
    assert(b * 0 == 0) by (nonlinear_arith);
    assert((a * d == 0) == (d == 0)) by (nonlinear_arith)
        requires
            a != 0,
    ;
}

/// Eliminating a column below the pivot row keeps the solutions.
pub proof fn lemma_cleared_below_keeps(
    m: Grid,
    columns: int,
    pivots: int,
    column: int,
    row: int,
    x: Seq<int>,
)
    requires
        rectangular(m, columns),
        0 <= pivots < row <= m.len(),
        0 <= column < columns,
        m[pivots][column] != 0,
        cleared_below(m, pivots, column, row) is Some,
    ensures
        cleared_below(m, pivots, column, row)->0.len() == m.len(),
        rectangular(cleared_below(m, pivots, column, row)->0, columns),
        solves(m, x) == solves(cleared_below(m, pivots, column, row)->0, x),
    decreases m.len() - row,
{
    if row < m.len() {
        let r = combined(m[row], m[pivots], column)->0;
        let next = m.update(row, simplified(r));
        lemma_simplified_shape(r);
        crate::echelon::lemma_combined_shape(m[row], m[pivots], column);
        assert(rectangular(next, columns)) by {
            assert forall|q: int| 0 <= q < next.len() implies (#[trigger] next[q]).len()
                == columns by {
                if q != row {
                    assert(next[q] == m[q]);
                }
            }
        }
        assert(next[pivots] == m[pivots]);
        lemma_update_keeps(m, row, pivots, column, x);
        lemma_cleared_below_keeps(next, columns, pivots, column, row + 1, x);
    }
}

/// Replacing a row by the simplified combination of that row with another
/// row keeps the solutions.
pub proof fn lemma_update_keeps(m: Grid, row: int, pivot_row: int, column: int, x: Seq<int>)
    requires
        0 <= row < m.len(),
        0 <= pivot_row < m.len(),
        row != pivot_row,
        m[row].len() == m[pivot_row].len(),
        0 <= column < m[row].len(),
        m[pivot_row][column] != 0,
        combined(m[row], m[pivot_row], column) is Some,
    ensures
        solves(m, x) == solves(
            m.update(row, simplified(combined(m[row], m[pivot_row], column)->0)),
            x,
        ),
{
    let r = combined(m[row], m[pivot_row], column)->0;
    let next = m.update(row, simplified(r));
    assert(next[pivot_row] == m[pivot_row]);
    lemma_dot_simplified(r, x);
    if solves(m, x) {
        assert(dot(m[pivot_row], x) == 0);
        assert(dot(m[row], x) == 0);
        lemma_dot_combined(m[row], m[pivot_row], column, x);
        assert forall|q: int| 0 <= q < next.len() implies dot(#[trigger] next[q], x) == 0 by {
            if q != row {
                assert(next[q] == m[q]);
            }
        }
    }
    if solves(next, x) {
        assert(dot(next[pivot_row], x) == 0);
        assert(dot(next[row], x) == 0);
        lemma_dot_combined(m[row], m[pivot_row], column, x);
        assert forall|q: int| 0 <= q < m.len() implies dot(#[trigger] m[q], x) == 0 by {
            if q != row {
                assert(next[q] == m[q]);
            }
        }
    }
}

/// Exchanging two rows keeps the solutions.
pub proof fn lemma_swapped_keeps(m: Grid, i: int, j: int, x: Seq<int>)
    requires
        0 <= i < m.len(),
        0 <= j < m.len(),
    ensures
        solves(m, x) == solves(swapped(m, i, j), x),
{
    let exchanged = swapped(m, i, j);
    if solves(m, x) {
        assert forall|q: int| 0 <= q < exchanged.len() implies dot(#[trigger] exchanged[q], x)
            == 0 by {
            if q == i {
                assert(exchanged[q] == m[j] || i == j);
            } else if q == j {
                assert(exchanged[q] == m[i]);
            } else {
                assert(exchanged[q] == m[q]);
            }
        }
    }
    if solves(exchanged, x) {
        assert forall|q: int| 0 <= q < m.len() implies dot(#[trigger] m[q], x) == 0 by {
            if q == i {
                assert(exchanged[j] == m[i]);
            } else if q == j {
                assert(exchanged[i] == m[j]);
            } else {
                assert(exchanged[q] == m[q]);
            }
        }
    }
}

/// The forward phase keeps the solutions.
pub proof fn lemma_forward_keeps(m: Grid, columns: int, column: int, pivots: int, x: Seq<int>)
    requires
        rectangular(m, columns),
        0 <= column <= columns,
        0 <= pivots <= m.len(),
        forward(m, columns, column, pivots) is Some,
    ensures
        forward(m, columns, column, pivots)->0.len() == m.len(),
        rectangular(forward(m, columns, column, pivots)->0, columns),
        solves(m, x) == solves(forward(m, columns, column, pivots)->0, x),
    decreases columns - column,
{
    if column < columns {
        let found = pivot_row_from(m, pivots, column);
        lemma_pivot_row_from(m, pivots, column);
        if found >= m.len() {
            lemma_forward_keeps(m, columns, column + 1, pivots, x);
        } else {
            let exchanged = swapped(m, pivots, found);
            lemma_swapped_keeps(m, pivots, found, x);
            assert(exchanged[pivots] == m[found]);
            assert(rectangular(exchanged, columns)) by {
                assert forall|r: int| 0 <= r < exchanged.len() implies (
                #[trigger] exchanged[r]).len() == columns by {
                    if r == pivots {
                    } else if r == found {
                        assert(exchanged[r] == m[pivots]);
                    } else {
                        assert(exchanged[r] == m[r]);
                    }
                }
            }
            lemma_cleared_below_keeps(exchanged, columns, pivots, column, pivots + 1, x);
            let next = cleared_below(exchanged, pivots, column, pivots + 1)->0;
            lemma_forward_keeps(next, columns, column + 1, pivots + 1, x);
        }
    }
}

/// Eliminating a column above the pivot row keeps the solutions.
pub proof fn lemma_cleared_above_keeps(
    m: Grid,
    columns: int,
    pivot_row: int,
    column: int,
    rows_left: int,
    x: Seq<int>,
)
    requires
        rectangular(m, columns),
        0 <= rows_left <= pivot_row < m.len(),
        0 <= column < columns,
        m[pivot_row][column] != 0,
        cleared_above(m, pivot_row, column, rows_left) is Some,
    ensures
        cleared_above(m, pivot_row, column, rows_left)->0.len() == m.len(),
        rectangular(cleared_above(m, pivot_row, column, rows_left)->0, columns),
        solves(m, x) == solves(cleared_above(m, pivot_row, column, rows_left)->0, x),
    decreases rows_left,
{
    if rows_left > 0 {
        let j = rows_left - 1;
        let r = combined(m[j], m[pivot_row], column)->0;
        let next = m.update(j, simplified(r));
        lemma_simplified_shape(r);
        crate::echelon::lemma_combined_shape(m[j], m[pivot_row], column);
        assert(rectangular(next, columns)) by {
            assert forall|q: int| 0 <= q < next.len() implies (#[trigger] next[q]).len()
                == columns by {
                if q != j {
                    assert(next[q] == m[q]);
                }
            }
        }
        assert(next[pivot_row] == m[pivot_row]);
        lemma_update_keeps(m, j, pivot_row, column, x);
        lemma_cleared_above_keeps(next, columns, pivot_row, column, rows_left - 1, x);
    }
}

/// The backward phase keeps the solutions.
pub proof fn lemma_backward_keeps(m: Grid, columns: int, rows_left: int, x: Seq<int>)
    requires
        rectangular(m, columns),
        0 <= rows_left <= m.len(),
        backward(m, columns, rows_left) is Some,
    ensures
        backward(m, columns, rows_left)->0.len() == m.len(),
        rectangular(backward(m, columns, rows_left)->0, columns),
        solves(m, x) == solves(backward(m, columns, rows_left)->0, x),
    decreases rows_left,
{
    if rows_left > 0 {
        let row = rows_left - 1;
        let column = lead(m[row]);
        lemma_lead(m[row]);
        if row == 0 || column >= columns {
            lemma_backward_keeps(m, columns, rows_left - 1, x);
        } else {
            lemma_cleared_above_keeps(m, columns, row, column, row, x);
            let next = cleared_above(m, row, column, row)->0;
            lemma_backward_keeps(next, columns, rows_left - 1, x);
        }
    }
}

/// Elimination keeps the solutions: a vector solves the eliminated grid
/// exactly if it solves the grid.
pub proof fn lemma_eliminated_keeps(m: Grid, columns: int, x: Seq<int>)
    requires
        rectangular(m, columns),
        0 <= columns,
        eliminated(m, columns) is Some,
    ensures
        solves(m, x) == solves(eliminated(m, columns)->0, x),
{
    let start = all_simplified(m);
    assert(rectangular(start, columns)) by {
        assert forall|r: int| 0 <= r < start.len() implies (#[trigger] start[r]).len()
            == columns by {
            lemma_simplified_shape(m[r]);
        }
    }
    if solves(m, x) {
        assert forall|r: int| 0 <= r < start.len() implies dot(#[trigger] start[r], x) == 0 by {
            lemma_dot_simplified(m[r], x);
        }
    }
    if solves(start, x) {
        assert forall|r: int| 0 <= r < m.len() implies dot(#[trigger] m[r], x) == 0 by {
            lemma_dot_simplified(m[r], x);
            assert(start[r] == simplified(m[r]));
        }
    }
    lemma_forward_keeps(start, columns, 0, 0, x);
    let middle = forward(start, columns, 0, 0)->0;
    lemma_backward_keeps(middle, columns, middle.len() as int, x);
}

} // verus!
