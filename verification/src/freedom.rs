//! A row with two entries other than zero leaves a coefficient free.
//!
//! In reduced echelon form such a row has, beside its first entry, an
//! entry in a column in which no row starts. Giving that column a value
//! and every column in which a row starts the value that the row asks for
//! yields a solution that is not zero.

use vstd::prelude::*;
use crate::arithmetic::{divides, lemma_divides_product};
use crate::echelon::{normal, reduced_echelon};
use crate::kernel::{dot, lemma_dot_none, lemma_dot_two, solves};
use crate::matrix::{lead, lemma_lead, Grid};
use crate::solution::nonzero_count;

verus! {

/// The product of the first entries of the first `count` rows.
pub open spec fn pivot_product(m: Grid, count: int) -> int
    decreases count,
{
    if count <= 0 {
        1
    } else {
        pivot_product(m, count - 1) * m[count - 1][lead(m[count - 1])]
    }
}

/// The row among the first `rank` whose first entry stands in `column`.
pub open spec fn row_starting_at(m: Grid, rank: int, column: int) -> int {
    choose|k: int| 0 <= k < rank && lead(#[trigger] m[k]) == column
}

/// Whether one of the first `rank` rows has its first entry in `column`.
pub open spec fn starts_a_row(m: Grid, rank: int, column: int) -> bool {
    exists|k: int| 0 <= k < rank && lead(#[trigger] m[k]) == column
}

/// The vector that gives the column `free` the product of all first
/// entries, and every column in which a row starts what that row asks for.
pub open spec fn free_solution(m: Grid, columns: int, rank: int, free: int) -> Seq<int> {
    let product = pivot_product(m, rank);
    Seq::new(
        columns as nat,
        |j: int|
            if j == free {
                product
            } else if starts_a_row(m, rank, j) {
                let k = row_starting_at(m, rank, j);
                -(m[k][free] * (product / m[k][j]))
            } else {
                0
            },
    )
}

/// A row with more than one entry other than zero has such an entry behind
/// its first.
pub proof fn lemma_second_entry(row: Seq<int>)
    requires
        nonzero_count(row) > 1,
    ensures
        exists|f: int| lead(row) < f < row.len() && row[f] != 0,
    decreases row.len(),
{
    let rest = row.drop_last();
    let last = row.len() - 1;
    lemma_lead(row);
    lemma_lead(rest);
    assert forall|k: int| 0 <= k < rest.len() implies rest[k] == row[k] by {}
    crate::solution::lemma_nonzero_count(rest);
    if row[last] != 0 {
        assert(nonzero_count(rest) >= 1);
        assert(lead(rest) < rest.len());
        assert(row[lead(rest)] != 0);
        assert(lead(row) <= lead(rest));
        assert(lead(row) < last && row[last] != 0);
    } else {
        lemma_second_entry(rest);
        let f = choose|f: int| lead(rest) < f < rest.len() && rest[f] != 0;
        assert(row[lead(rest)] != 0);
        assert(lead(row) <= lead(rest));
        assert(lead(row) < f < row.len() && row[f] != 0);
    }
}

/// The product of the first entries is positive, and each of them divides
/// it.
pub proof fn lemma_pivot_product(m: Grid, columns: int, rank: int, count: int, k: int)
    requires
        reduced_echelon(m, columns, rank),
        0 <= k < count <= rank,
    ensures
        pivot_product(m, count) >= 1,
        m[k][lead(m[k])] >= 1,
        pivot_product(m, count) == m[k][lead(m[k])] * (pivot_product(m, count) / m[k][lead(
            m[k],
        )]),
        pivot_product(m, count) / m[k][lead(m[k])] >= 1,
    decreases count,
{
    let entry = m[count - 1][lead(m[count - 1])];
    lemma_lead(m[count - 1]);
    assert(normal(m[count - 1]));
    assert(m[count - 1].len() == columns);
    assert(entry >= 1);
    let before = pivot_product(m, count - 1);
    if count > 1 {
        lemma_pivot_product(m, columns, rank, count - 1, 0);
    }
    assert(before >= 1);
    assert(before * entry >= 1) by (nonlinear_arith)
        requires
            before >= 1,
            entry >= 1,
    ;
    let p = m[k][lead(m[k])];
    let product = pivot_product(m, count);
    if k == count - 1 {
        assert(product == p * before) by (nonlinear_arith)
            requires
                product == before * p,
        ;
        lemma_divides_product(p as nat, before);
    } else {
        lemma_pivot_product(m, columns, rank, count - 1, k);
        let q = before / p;
        assert(product == p * (q * entry)) by (nonlinear_arith)
            requires
                product == before * entry,
                before == p * q,
        ;
        lemma_divides_product(p as nat, q * entry);
    }
    let quotient = product / p;
    assert(quotient >= 1) by (nonlinear_arith)
        requires
            product == p * quotient,
            product >= 1,
            p >= 1,
    ;
}

/// In reduced echelon form a row has zeros where other rows start.
pub proof fn lemma_zero_at_other_starts(m: Grid, columns: int, rank: int, k: int, other: int)
    requires
        reduced_echelon(m, columns, rank),
        0 <= k < m.len(),
        0 <= other < rank,
        other != k,
    ensures
        m[k][lead(m[other])] == 0,
{
    lemma_lead(m[k]);
    lemma_lead(m[other]);
    assert(m[k].len() == columns);
    if k < other {
    } else if k < rank {
        assert(lead(m[other]) < lead(m[k]));
    } else {
        assert(lead(m[k]) >= columns);
    }
}

/// The free solution solves a grid in reduced echelon form, if no row
/// starts in the free column.
pub proof fn lemma_free_solution_solves(m: Grid, columns: int, rank: int, free: int)
    requires
        reduced_echelon(m, columns, rank),
        0 <= free < columns,
        !starts_a_row(m, rank, free),
    ensures
        solves(m, free_solution(m, columns, rank, free)),
{
    let x = free_solution(m, columns, rank, free);
    let product = pivot_product(m, rank);
    assert forall|r: int| 0 <= r < m.len() implies dot(#[trigger] m[r], x) == 0 by {
        let row = m[r];
        lemma_lead(row);
        assert(row.len() == columns);
        if r >= rank {
            assert(lead(row) >= columns);
            lemma_dot_none(row, x);
        } else {
            let l = lead(row);
            assert(l < columns);
            assert(l != free);
            assert(starts_a_row(m, rank, l));
            let chosen = row_starting_at(m, rank, l);
            assert(chosen == r) by {
                if chosen < r {
                    assert(lead(m[chosen]) < lead(m[r]));
                } else if chosen > r {
                    assert(lead(m[r]) < lead(m[chosen]));
                }
            }
            lemma_pivot_product(m, columns, rank, rank, r);
            let p = row[l];
            let q = product / p;
            let e = row[free];
            assert(x[l] == -(e * q));
            assert(x[free] == product);
            assert forall|j: int| 0 <= j < columns && j != l && j != free implies row[j] == 0
                || x[j] == 0 by {
                if starts_a_row(m, rank, j) {
                    let other = row_starting_at(m, rank, j);
                    assert(other != r);
                    lemma_zero_at_other_starts(m, columns, rank, r, other);
                }
            }
            if e == 0 {
                assert(e * q == 0) by (nonlinear_arith)
                    requires
                        e == 0,
                ;
                lemma_dot_none(row, x);
            } else {
                assert(l < free);
                lemma_dot_two(row, x, l, free);
                assert(p * (-(e * q)) + e * product == 0) by (nonlinear_arith)
                    requires
                        product == p * q,
                ;
            }
        }
    }
}

/// A grid in reduced echelon form with a row that has more than one entry
/// other than zero has a solution that is not zero before its last place.
pub proof fn lemma_free_coefficient(m: Grid, columns: int, rank: int, row: int) -> (x: Seq<int>)
    requires
        reduced_echelon(m, columns, rank),
        0 <= row < m.len(),
        nonzero_count(m[row]) > 1,
    ensures
        x.len() == columns,
        solves(m, x),
        exists|l: int| 0 <= l < columns - 1 && x[l] != 0,
{
    lemma_second_entry(m[row]);
    lemma_lead(m[row]);
    assert(m[row].len() == columns);
    let l = lead(m[row]);
    let free = choose|f: int| l < f < m[row].len() && m[row][f] != 0;
    assert(row < rank);
    assert(!starts_a_row(m, rank, free)) by {
        if starts_a_row(m, rank, free) {
            let other = row_starting_at(m, rank, free);
            assert(other != row);
            lemma_zero_at_other_starts(m, columns, rank, row, other);
        }
    }
    lemma_free_solution_solves(m, columns, rank, free);
    let x = free_solution(m, columns, rank, free);
    assert(starts_a_row(m, rank, l));
    let chosen = row_starting_at(m, rank, l);
    assert(chosen == row) by {
        if chosen < row {
            assert(lead(m[chosen]) < lead(m[row]));
        } else if chosen > row {
            assert(lead(m[row]) < lead(m[chosen]));
        }
    }
    lemma_pivot_product(m, columns, rank, rank, row);
    let q = pivot_product(m, rank) / m[row][l];
    let e = m[row][free];
    assert(x[l] == -(e * q));
    assert(e * q != 0) by (nonlinear_arith)
        requires
            e != 0,
            q >= 1,
    ;
    assert(0 <= l < columns - 1 && x[l] != 0);
    x
}

} // verus!
