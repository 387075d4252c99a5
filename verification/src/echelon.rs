//! The shape of an eliminated matrix: reduced row echelon form.
//!
//! The lemmas of this module follow the elimination of `matrix` step by
//! step and show that what it yields has its first entries on a staircase,
//! each of them positive and alone in its column.

use vstd::prelude::*;
use vstd::arithmetic::div_mod::lemma_div_multiples_vanish;
use crate::arithmetic::{
    abs, gcd_int, lemma_divides_abs, lemma_divides_negated, lemma_exact_quotient, lemma_gcd_divides,
    lemma_gcd_zero,
};
use crate::matrix::{
    all_simplified, backward, cleared_above, cleared_below, combined, eliminated, forward, lead,
    lemma_lead, lemma_lead_unique, lemma_row_gcd_divides, lemma_row_gcd_zero, lemma_simplified_gcd,
    pivot_row_from, row_gcd, row_scaled, row_sum, simplified, swapped, Grid,
};

verus! {

/// Every row has `columns` entries.
pub open spec fn rectangular(m: Grid, columns: int) -> bool {
    forall|r: int| 0 <= r < m.len() ==> (#[trigger] m[r]).len() == columns
}

/// The first entry of the row that is not zero, if there is one, is
/// positive.
pub open spec fn positive_lead(row: Seq<int>) -> bool {
    lead(row) < row.len() ==> row[lead(row)] > 0
}

/// A row as simplifying leaves it: its first entry is positive and its
/// entries have no common divisor but 1, or it is zero.
pub open spec fn normal(row: Seq<int>) -> bool {
    &&& positive_lead(row)
    &&& row_gcd(row) <= 1
}

/// Every row is as simplifying leaves it.
pub open spec fn normal_rows(m: Grid) -> bool {
    forall|r: int| 0 <= r < m.len() ==> normal(#[trigger] m[r])
}

/// Every entry of the row is zero.
pub open spec fn is_zero(row: Seq<int>) -> bool {
    forall|k: int| 0 <= k < row.len() ==> row[k] == 0
}

/// Some row of the grid is zero.
pub open spec fn has_zero_row(m: Grid) -> bool {
    exists|r: int| 0 <= r < m.len() && is_zero(#[trigger] m[r])
}

/// The first `pivots` rows have their first entries before `column`, each
/// further to the right than the one above; all other rows are zero before
/// `column`.
pub open spec fn echelon_upto(m: Grid, pivots: int, column: int) -> bool {
    &&& 0 <= pivots <= m.len()
    &&& forall|r: int| 0 <= r < pivots ==> lead(#[trigger] m[r]) < column
    &&& forall|r: int, s: int|
        0 <= r < s < pivots ==> lead(#[trigger] m[r]) < lead(#[trigger] m[s])
    &&& forall|r: int| pivots <= r < m.len() ==> lead(#[trigger] m[r]) >= column
}

/// For every row from `from` on that is not zero, all rows above it are
/// zero in the column of its first entry.
pub open spec fn reduced_from(m: Grid, columns: int, from: int) -> bool {
    forall|k: int, j: int|
        from <= k < m.len() && 0 <= j < k && lead(#[trigger] m[k]) < columns ==> (
        #[trigger] m[j])[lead(m[k])] == 0
}

/// Reduced row echelon form with `pivots` rows that are not zero: the first
/// entries stand on a staircase, are positive, and are alone in their
/// columns.
pub open spec fn reduced_echelon(m: Grid, columns: int, pivots: int) -> bool {
    &&& rectangular(m, columns)
    &&& normal_rows(m)
    &&& echelon_upto(m, pivots, columns)
    &&& reduced_from(m, columns, 0)
}

/// A simplified row has the same length, the same zeros and the same first
/// entry as the row it comes from, and that entry is positive.
pub proof fn lemma_simplified_shape(row: Seq<int>)
    ensures
        simplified(row).len() == row.len(),
        forall|k: int| 0 <= k < row.len() ==> ((#[trigger] simplified(row)[k]) == 0) == (row[k] == 0),
        lead(simplified(row)) == lead(row),
        normal(simplified(row)),
{
    lemma_simplified_gcd(row);
    lemma_lead(row);
    let l = lead(row);
    if l < row.len() {
        lemma_row_gcd_zero(row);
        let g = row_gcd(row);
        let simple = simplified(row);
        assert forall|k: int| 0 <= k < row.len() implies ((#[trigger] simple[k]) == 0) == (row[k]
            == 0) by {
            lemma_row_gcd_divides(row, k);
            lemma_exact_quotient(row[k], g);
            let q = row[k] / (g as int);
            if row[k] == 0 {
                assert(q == 0) by (nonlinear_arith)
                    requires
                        0 == g * q,
                        g > 0,
                ;
            }
        }
        lemma_row_gcd_divides(row, l);
        lemma_exact_quotient(row[l], g);
        assert(simple[l] > 0);
        lemma_lead_unique(simple, l);
    }
}

/// The combination of a row with the pivot row is zero in the pivot's
/// column; where the pivot row is zero, it is zero exactly where the row
/// is.
pub proof fn lemma_combined_shape(row: Seq<int>, pivot_row: Seq<int>, column: int)
    requires
        row.len() == pivot_row.len(),
        0 <= column < row.len(),
        pivot_row[column] != 0,
        combined(row, pivot_row, column) is Some,
    ensures
        combined(row, pivot_row, column)->0.len() == row.len(),
        combined(row, pivot_row, column)->0[column] == 0,
        forall|k: int|
            0 <= k < row.len() && pivot_row[k] == 0 ==> ((#[trigger] combined(
                row,
                pivot_row,
                column,
            )->0[k]) == 0) == (row[k] == 0),
        is_zero(row) ==> is_zero(combined(row, pivot_row, column)->0),
{
    let pivot = pivot_row[column];
    let entry = row[column];
    let g = gcd_int(pivot, entry);
    lemma_gcd_zero(abs(pivot), abs(entry));
    lemma_gcd_divides(abs(pivot), abs(entry));
    lemma_divides_abs(g, pivot);
    lemma_divides_abs(g, entry);
    lemma_divides_negated(g, entry);
    lemma_exact_quotient(pivot, g);
    let a = pivot / (g as int);
    let b = (-entry) / (g as int);
    let c = entry / (g as int);
    lemma_div_multiples_vanish(-c, g as int);
    assert(-entry == g * (-c)) by (nonlinear_arith)
        requires
            entry == g * c,
    ;
    assert(b == -c);
    let r = combined(row, pivot_row, column)->0;
    assert(r == row_sum(row_scaled(row, a), row_scaled(pivot_row, b)));
    assert(r[column] == a * entry + b * pivot);
    assert(a * entry + b * pivot == 0) by (nonlinear_arith)
        requires
            pivot == g * a,
            entry == g * c,
            b == -c,
    ;
    assert forall|k: int| 0 <= k < row.len() && pivot_row[k] == 0 implies ((#[trigger] r[k]) == 0)
        == (row[k] == 0) by {
        assert(r[k] == a * row[k] + b * pivot_row[k]);
        let x = row[k];
        assert((a * x + b * 0 == 0) == (x == 0)) by (nonlinear_arith)
            requires
                a != 0,
        ;
    }
    if is_zero(row) {
        assert(c == 0) by (nonlinear_arith)
            requires
                0 == g * c,
                g > 0,
        ;
        assert forall|k: int| 0 <= k < r.len() implies r[k] == 0 by {
            assert(r[k] == a * row[k] + b * pivot_row[k]);
            let y = pivot_row[k];
            assert(a * 0 + 0 * y == 0) by (nonlinear_arith);
        }
    }
}

/// A grid keeps a zero row when a row is replaced by the simplified
/// combination of that row with another.
pub proof fn lemma_update_keeps_zero_row(m: Grid, row: int, pivot_row: int, column: int)
    requires
        0 <= row < m.len(),
        0 <= pivot_row < m.len(),
        m[row].len() == m[pivot_row].len(),
        0 <= column < m[row].len(),
        m[pivot_row][column] != 0,
        combined(m[row], m[pivot_row], column) is Some,
        has_zero_row(m),
    ensures
        has_zero_row(m.update(row, simplified(combined(m[row], m[pivot_row], column)->0))),
{
    let r = combined(m[row], m[pivot_row], column)->0;
    let next = m.update(row, simplified(r));
    let z = choose|z: int| 0 <= z < m.len() && is_zero(#[trigger] m[z]);
    if z == row {
        lemma_combined_shape(m[row], m[pivot_row], column);
        lemma_simplified_shape(r);
        assert(is_zero(next[row]));
    } else {
        assert(next[z] == m[z]);
    }
}

/// A row that is zero before `column` and in it is zero before the next
/// column.
pub proof fn lemma_lead_step(row: Seq<int>, column: int)
    requires
        0 <= column < row.len(),
        lead(row) >= column,
        row[column] == 0,
    ensures
        lead(row) >= column + 1,
{
    lemma_lead(row);
}

/// The first entry of a row that is zero before `column` and not zero in
/// it stands in `column`.
pub proof fn lemma_lead_at(row: Seq<int>, column: int)
    requires
        0 <= column < row.len(),
        lead(row) >= column,
        row[column] != 0,
    ensures
        lead(row) == column,
{
    lemma_lead(row);
}

/// What `pivot_row_from` returns: the first row from `row` on that is not
/// zero in `column`.
pub proof fn lemma_pivot_row_from(m: Grid, row: int, column: int)
    requires
        0 <= row <= m.len(),
    ensures
        row <= pivot_row_from(m, row, column) <= m.len(),
        forall|r: int| row <= r < pivot_row_from(m, row, column) ==> (#[trigger] m[r])[column] == 0,
        pivot_row_from(m, row, column) < m.len() ==> m[pivot_row_from(m, row, column)][column] != 0,
    decreases m.len() - row,
{
    if row < m.len() && m[row][column] == 0 {
        lemma_pivot_row_from(m, row + 1, column);
    }
}

/// Eliminating a column below the pivot row leaves the rows up to the
/// pivot row as they are and makes every row below it zero up to and with
/// that column.
pub proof fn lemma_cleared_below(m: Grid, columns: int, pivots: int, column: int, row: int)
    requires
        rectangular(m, columns),
        normal_rows(m),
        0 <= pivots < row <= m.len(),
        0 <= column < columns,
        lead(m[pivots]) == column,
        forall|r: int| pivots < r < row ==> lead(#[trigger] m[r]) >= column + 1,
        forall|r: int| row <= r < m.len() ==> lead(#[trigger] m[r]) >= column,
        cleared_below(m, pivots, column, row) is Some,
    ensures
        cleared_below(m, pivots, column, row)->0.len() == m.len(),
        rectangular(cleared_below(m, pivots, column, row)->0, columns),
        normal_rows(cleared_below(m, pivots, column, row)->0),
        forall|r: int|
            0 <= r <= pivots ==> (#[trigger] cleared_below(m, pivots, column, row)->0[r]) == m[r],
        forall|r: int|
            pivots < r < m.len() ==> lead(#[trigger] cleared_below(m, pivots, column, row)->0[r])
                >= column + 1,
        has_zero_row(m) ==> has_zero_row(cleared_below(m, pivots, column, row)->0),
    decreases m.len() - row,
{
    if row < m.len() {
        if has_zero_row(m) {
            lemma_lead(m[pivots]);
            lemma_update_keeps_zero_row(m, row, pivots, column);
        }
        let pivot_row = m[pivots];
        lemma_lead(pivot_row);
        lemma_lead(m[row]);
        let r = combined(m[row], pivot_row, column)->0;
        lemma_combined_shape(m[row], pivot_row, column);
        lemma_simplified_shape(r);
        assert forall|k: int| 0 <= k < column implies r[k] == 0 by {
            assert(pivot_row[k] == 0);
            assert(m[row][k] == 0);
        }
        lemma_lead(r);
        assert(lead(r) >= column + 1);
        let next = m.update(row, simplified(r));
        assert(rectangular(next, columns)) by {
            assert forall|q: int| 0 <= q < next.len() implies (#[trigger] next[q]).len()
                == columns by {
                if q != row {
                    assert(next[q] == m[q]);
                }
            }
        }
        assert(normal_rows(next)) by {
            assert forall|q: int| 0 <= q < next.len() implies normal(#[trigger] next[q]) by {
                if q != row {
                    assert(next[q] == m[q]);
                }
            }
        }
        assert(next[pivots] == m[pivots]);
        assert forall|q: int| pivots < q < row + 1 implies lead(#[trigger] next[q]) >= column
            + 1 by {
            if q != row {
                assert(next[q] == m[q]);
            }
        }
        assert forall|q: int| row + 1 <= q < next.len() implies lead(#[trigger] next[q])
            >= column by {
            assert(next[q] == m[q]);
        }
        lemma_cleared_below(next, columns, pivots, column, row + 1);
        let result = cleared_below(m, pivots, column, row)->0;
        assert(result == cleared_below(next, pivots, column, row + 1)->0);
        assert forall|q: int| 0 <= q <= pivots implies (#[trigger] result[q]) == m[q] by {
            assert(result[q] == next[q]);
            assert(next[q] == m[q]);
        }
    }
}

/// The forward phase brings a grid that is in echelon form before `column`
/// into echelon form.
pub proof fn lemma_forward(m: Grid, columns: int, column: int, pivots: int)
    requires
        rectangular(m, columns),
        normal_rows(m),
        0 <= column <= columns,
        pivots <= column,
        echelon_upto(m, pivots, column),
        forward(m, columns, column, pivots) is Some,
    ensures
        forward(m, columns, column, pivots)->0.len() == m.len(),
        rectangular(forward(m, columns, column, pivots)->0, columns),
        normal_rows(forward(m, columns, column, pivots)->0),
        exists|rank: int| echelon_upto(forward(m, columns, column, pivots)->0, rank, columns),
        has_zero_row(m) ==> has_zero_row(forward(m, columns, column, pivots)->0),
    decreases columns - column,
{
    if column < columns {
        let found = pivot_row_from(m, pivots, column);
        lemma_pivot_row_from(m, pivots, column);
        if found >= m.len() {
            assert forall|r: int| pivots <= r < m.len() implies lead(#[trigger] m[r]) >= column
                + 1 by {
                lemma_lead_step(m[r], column);
            }
            assert(echelon_upto(m, pivots, column + 1));
            lemma_forward(m, columns, column + 1, pivots);
        } else {
            let exchanged = swapped(m, pivots, found);
            assert(exchanged.len() == m.len());
            assert(exchanged[pivots] == m[found]);
            assert(exchanged[found] == m[pivots]);
            assert forall|r: int| 0 <= r < m.len() && r != pivots && r != found implies (
            #[trigger] exchanged[r]) == m[r] by {}
            assert(rectangular(exchanged, columns)) by {
                assert forall|r: int| 0 <= r < exchanged.len() implies (
                #[trigger] exchanged[r]).len() == columns by {
                    if r == pivots {
                    } else if r == found {
                    } else {
                        assert(exchanged[r] == m[r]);
                    }
                }
            }
            assert(normal_rows(exchanged)) by {
                assert forall|r: int| 0 <= r < exchanged.len() implies normal(
                    #[trigger] exchanged[r],
                ) by {
                    if r == pivots {
                    } else if r == found {
                    } else {
                        assert(exchanged[r] == m[r]);
                    }
                }
            }
            lemma_lead_at(m[found], column);
            if has_zero_row(m) {
                let z = choose|z: int| 0 <= z < m.len() && is_zero(#[trigger] m[z]);
                if z == pivots {
                    assert(is_zero(exchanged[found]));
                } else if z == found {
                    assert(is_zero(exchanged[pivots]));
                } else {
                    assert(exchanged[z] == m[z]);
                    assert(is_zero(exchanged[z]));
                }
                assert(has_zero_row(exchanged));
            }
            assert forall|r: int| pivots + 1 <= r < exchanged.len() implies lead(
                #[trigger] exchanged[r],
            ) >= column by {
                if r == found {
                } else {
                    assert(exchanged[r] == m[r]);
                }
            }
            lemma_cleared_below(exchanged, columns, pivots, column, pivots + 1);
            let next = cleared_below(exchanged, pivots, column, pivots + 1)->0;
            assert(echelon_upto(next, pivots + 1, column + 1)) by {
                assert forall|r: int| 0 <= r < pivots + 1 implies lead(#[trigger] next[r]) < column
                    + 1 by {
                    assert(next[r] == exchanged[r]);
                    if r < pivots {
                        assert(exchanged[r] == m[r]);
                    }
                }
                assert forall|r: int, s: int| 0 <= r < s < pivots + 1 implies lead(
                    #[trigger] next[r],
                ) < lead(#[trigger] next[s]) by {
                    assert(next[r] == exchanged[r]);
                    assert(next[s] == exchanged[s]);
                    assert(exchanged[r] == m[r]);
                    if s < pivots {
                        assert(exchanged[s] == m[s]);
                    }
                }
            }
            lemma_forward(next, columns, column + 1, pivots + 1);
        }
    } else {
        assert(echelon_upto(m, pivots, columns));
    }
}

/// Eliminating the column of the first entry of a row from the rows above
/// it keeps the echelon form and the columns cleared before, and leaves
/// that column zero above the row.
pub proof fn lemma_cleared_above(
    m: Grid,
    columns: int,
    pivots: int,
    pivot_row: int,
    column: int,
    rows_left: int,
)
    requires
        rectangular(m, columns),
        normal_rows(m),
        echelon_upto(m, pivots, columns),
        0 <= rows_left <= pivot_row < m.len(),
        lead(m[pivot_row]) == column,
        column < columns,
        reduced_from(m, columns, pivot_row + 1),
        forall|j: int| rows_left <= j < pivot_row ==> (#[trigger] m[j])[column] == 0,
        cleared_above(m, pivot_row, column, rows_left) is Some,
    ensures
        cleared_above(m, pivot_row, column, rows_left)->0.len() == m.len(),
        rectangular(cleared_above(m, pivot_row, column, rows_left)->0, columns),
        normal_rows(cleared_above(m, pivot_row, column, rows_left)->0),
        echelon_upto(cleared_above(m, pivot_row, column, rows_left)->0, pivots, columns),
        reduced_from(cleared_above(m, pivot_row, column, rows_left)->0, columns, pivot_row),
        has_zero_row(m) ==> has_zero_row(cleared_above(m, pivot_row, column, rows_left)->0),
    decreases rows_left,
{
    if rows_left <= 0 {
        assert forall|k: int, j: int|
            pivot_row <= k < m.len() && 0 <= j < k && lead(#[trigger] m[k]) < columns implies (
        #[trigger] m[j])[lead(m[k])] == 0 by {
            if k == pivot_row {
            }
        }
    } else {
        let j = rows_left - 1;
        let base = m[pivot_row];
        lemma_lead(base);
        lemma_lead(m[j]);
        if has_zero_row(m) {
            lemma_update_keeps_zero_row(m, j, pivot_row, column);
        }
        let r = combined(m[j], base, column)->0;
        lemma_combined_shape(m[j], base, column);
        lemma_simplified_shape(r);
        let old_lead = lead(m[j]);
        assert(pivot_row < pivots);
        assert(old_lead < column);
        assert forall|k: int| 0 <= k < old_lead implies r[k] == 0 by {
            assert(base[k] == 0);
            assert(m[j][k] == 0);
        }
        assert(base[old_lead] == 0);
        assert(r[old_lead] != 0);
        lemma_lead_unique(r, old_lead);
        let simple = simplified(r);
        let next = m.update(j, simple);
        assert(lead(next[j]) == lead(m[j]));
        assert forall|q: int| 0 <= q < next.len() implies lead(#[trigger] next[q]) == lead(m[q]) by {
            if q != j {
                assert(next[q] == m[q]);
            }
        }
        assert(rectangular(next, columns)) by {
            assert forall|q: int| 0 <= q < next.len() implies (#[trigger] next[q]).len()
                == columns by {
                if q != j {
                    assert(next[q] == m[q]);
                }
            }
        }
        assert(normal_rows(next)) by {
            assert forall|q: int| 0 <= q < next.len() implies normal(#[trigger] next[q]) by {
                if q != j {
                    assert(next[q] == m[q]);
                }
            }
        }
        assert(echelon_upto(next, pivots, columns)) by {
            assert forall|q: int| 0 <= q < pivots implies lead(#[trigger] next[q]) < columns by {
                assert(lead(m[q]) < columns);
            }
            assert forall|q: int, s: int| 0 <= q < s < pivots implies lead(#[trigger] next[q])
                < lead(#[trigger] next[s]) by {
                assert(lead(m[q]) < lead(m[s]));
            }
            assert forall|q: int| pivots <= q < next.len() implies lead(#[trigger] next[q])
                >= columns by {
                assert(lead(m[q]) >= columns);
            }
        }
        assert(next[pivot_row] == m[pivot_row]);
        assert(reduced_from(next, columns, pivot_row + 1)) by {
            assert forall|k: int, q: int|
                pivot_row + 1 <= k < next.len() && 0 <= q < k && lead(#[trigger] next[k])
                    < columns implies (#[trigger] next[q])[lead(next[k])] == 0 by {
                let c = lead(next[k]);
                assert(next[k] == m[k]);
                lemma_lead(m[k]);
                assert(m[q][c] == 0);
                if q == j {
                    assert(m[j][c] == 0);
                    assert(m[pivot_row][c] == 0);
                    assert(r[c] == 0);
                    assert(simple[c] == 0);
                } else {
                    assert(next[q] == m[q]);
                }
            }
        }
        assert forall|q: int| rows_left - 1 <= q < pivot_row implies (#[trigger] next[q])[column]
            == 0 by {
            if q == j {
                assert(simple[column] == 0);
            } else {
                assert(next[q] == m[q]);
            }
        }
        lemma_cleared_above(next, columns, pivots, pivot_row, column, rows_left - 1);
    }
}

/// The backward phase brings a grid in echelon form into reduced echelon
/// form.
pub proof fn lemma_backward(m: Grid, columns: int, pivots: int, rows_left: int)
    requires
        rectangular(m, columns),
        normal_rows(m),
        echelon_upto(m, pivots, columns),
        0 <= rows_left <= m.len(),
        reduced_from(m, columns, rows_left),
        backward(m, columns, rows_left) is Some,
    ensures
        backward(m, columns, rows_left)->0.len() == m.len(),
        reduced_echelon(backward(m, columns, rows_left)->0, columns, pivots),
        has_zero_row(m) ==> has_zero_row(backward(m, columns, rows_left)->0),
    decreases rows_left,
{
    if rows_left > 0 {
        let row = rows_left - 1;
        let column = lead(m[row]);
        lemma_lead(m[row]);
        if row == 0 || column >= columns {
            assert forall|k: int, j: int|
                row <= k < m.len() && 0 <= j < k && lead(#[trigger] m[k]) < columns implies (
            #[trigger] m[j])[lead(m[k])] == 0 by {
                if k == row {
                }
            }
            lemma_backward(m, columns, pivots, rows_left - 1);
        } else {
            lemma_cleared_above(m, columns, pivots, row, column, row);
            let next = cleared_above(m, row, column, row)->0;
            lemma_backward(next, columns, pivots, rows_left - 1);
        }
    }
}

/// An eliminated grid is in reduced row echelon form.
pub proof fn lemma_eliminated(m: Grid, columns: int)
    requires
        rectangular(m, columns),
        0 <= columns,
        eliminated(m, columns) is Some,
    ensures
        eliminated(m, columns)->0.len() == m.len(),
        exists|rank: int| reduced_echelon(eliminated(m, columns)->0, columns, rank),
        has_zero_row(m) ==> is_zero(eliminated(m, columns)->0[m.len() - 1]),
{
    let start = all_simplified(m);
    if has_zero_row(m) {
        let z = choose|z: int| 0 <= z < m.len() && is_zero(#[trigger] m[z]);
        lemma_simplified_shape(m[z]);
        assert(is_zero(start[z]));
        assert(has_zero_row(start));
    }
    assert(rectangular(start, columns)) by {
        assert forall|r: int| 0 <= r < start.len() implies (#[trigger] start[r]).len()
            == columns by {
            lemma_simplified_shape(m[r]);
        }
    }
    assert(normal_rows(start)) by {
        assert forall|r: int| 0 <= r < start.len() implies normal(#[trigger] start[r]) by {
            lemma_simplified_shape(m[r]);
        }
    }
    assert(echelon_upto(start, 0, 0)) by {
        assert forall|r: int| 0 <= r < start.len() implies lead(#[trigger] start[r]) >= 0 by {
            lemma_lead(start[r]);
        }
    }
    lemma_forward(start, columns, 0, 0);
    let middle = forward(start, columns, 0, 0)->0;
    let rank = choose|rank: int| echelon_upto(middle, rank, columns);
    assert(reduced_from(middle, columns, middle.len() as int));
    lemma_backward(middle, columns, rank, middle.len() as int);
    let result = eliminated(m, columns)->0;
    if has_zero_row(m) {
        let z = choose|z: int| 0 <= z < result.len() && is_zero(#[trigger] result[z]);
        lemma_lead(result[z]);
        assert(z >= rank);
        let last = result[result.len() - 1];
        lemma_lead(last);
        assert(lead(last) >= columns);
    }
}

} // verus!
