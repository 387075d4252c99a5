//! The coefficients that a solved matrix stands for: they solve the system,
//! every other solution is a multiple of them, and they have no common
//! divisor.

use vstd::prelude::*;
use crate::arithmetic::{
    abs, divides, gcd, lemma_divides_abs, lemma_divides_product, lemma_divides_scaled_gcd,
    lemma_divides_transitive, lemma_gcd_of_zero, lemma_lcm_is_least,
};
use crate::echelon::{has_zero_row, is_zero, lemma_eliminated, normal, rectangular, reduced_echelon};
use crate::kernel::{dot, lemma_dot_none, lemma_dot_two, lemma_eliminated_keeps, solves};
use crate::matrix::{eliminated, lead, lemma_lead, lemma_row_gcd_zero, row_gcd, Grid};
use crate::solution::{
    all_zero, boundary_from, diagonal_lcm, lemma_boundary_column, lemma_boundary_from,
    lemma_diagonal, lemma_lcm_grows, pinned, raw_coefficients, solved,
};

verus! {

/// The first `count` rows have positive entries on the diagonal and zeros
/// in the other columns before the last.
pub open spec fn diagonal(m: Grid, columns: int) -> bool {
    &&& columns >= 2
    &&& m.len() >= columns - 1
    &&& rectangular(m, columns)
    &&& forall|i: int| 0 <= i < columns - 1 ==> (#[trigger] m[i])[i] > 0
    &&& forall|i: int, j: int|
        0 <= i < columns - 1 && 0 <= j < columns - 1 && j != i ==> #[trigger] m[i][j] == 0
    &&& forall|i: int| 0 <= i < columns - 1 ==> row_gcd(#[trigger] m[i]) <= 1
}

/// A grid in reduced echelon form with as many rows as columns before the
/// last, and an entry other than zero at the end of its diagonal, is
/// diagonal.
pub proof fn lemma_diagonal_form(m: Grid, columns: int, rank: int)
    requires
        reduced_echelon(m, columns, rank),
        columns >= 2,
        m.len() >= columns - 1,
        m[columns - 2][columns - 2] != 0,
    ensures
        diagonal(m, columns),
{
    assert forall|i: int| 0 <= i < columns - 1 implies (#[trigger] m[i])[i] > 0 by {
        lemma_diagonal(m, columns, rank, columns - 2, i);
    }
    assert forall|i: int, j: int|
        0 <= i < columns - 1 && 0 <= j < columns - 1 && j != i implies #[trigger] m[i][j]
        == 0 by {
        lemma_diagonal(m, columns, rank, columns - 2, i);
    }
    assert forall|i: int| 0 <= i < columns - 1 implies row_gcd(#[trigger] m[i]) <= 1 by {
        assert(normal(m[i]));
    }
}

/// The product of a vector with a row of a diagonal grid.
pub proof fn lemma_diagonal_dot(m: Grid, columns: int, i: int, y: Seq<int>)
    requires
        diagonal(m, columns),
        0 <= i < columns - 1,
    ensures
        dot(m[i], y) == m[i][i] * y[i] + m[i][columns - 1] * y[columns - 1],
{
    assert(m[i].len() == columns);
    lemma_dot_two(m[i], y, i, columns - 1);
}

/// The greatest common divisor of a row with one entry other than zero is
/// the magnitude of that entry.
pub proof fn lemma_row_gcd_one(row: Seq<int>, i: int)
    requires
        0 <= i < row.len(),
        forall|k: int| 0 <= k < row.len() && k != i ==> row[k] == 0,
    ensures
        row_gcd(row) == abs(row[i]),
    decreases row.len(),
{
    let rest = row.drop_last();
    let last = row.len() - 1;
    assert forall|k: int| 0 <= k < rest.len() implies rest[k] == row[k] by {}
    if i == last {
        lemma_row_gcd_zero(rest);
        lemma_gcd_of_zero(abs(row[i]));
    } else {
        lemma_row_gcd_one(rest, i);
        lemma_gcd_of_zero(abs(row[i]));
    }
}

/// In a diagonal grid the entry on the diagonal and the entry in the last
/// column of a row have no common divisor but 1.
pub proof fn lemma_diagonal_lowest_terms(m: Grid, columns: int, i: int)
    requires
        diagonal(m, columns),
        0 <= i < columns - 1,
    ensures
        gcd(abs(m[i][i]), abs(m[i][columns - 1])) == 1,
{
    let row = m[i];
    assert(row.len() == columns);
    let rest = row.drop_last();
    assert forall|k: int| 0 <= k < rest.len() implies rest[k] == row[k] by {}
    lemma_row_gcd_one(rest, i);
    assert(row.last() == row[columns - 1]);
    assert(row_gcd(row) == gcd(abs(row[i]), abs(row[columns - 1])));
    crate::arithmetic::lemma_gcd_zero(abs(row[i]), abs(row[columns - 1]));
}

/// Every entry on the diagonal divides the least common multiple of the
/// diagonal.
pub proof fn lemma_diagonal_divides(m: Grid, count: int, i: int)
    requires
        0 <= i < count,
        forall|k: int| 0 <= k < count ==> (#[trigger] m[k])[k] > 0,
    ensures
        diagonal_lcm(m, count) >= 1,
        divides(m[i][i] as nat, diagonal_lcm(m, count) as int),
    decreases count,
{
    crate::solution::lemma_diagonal_lcm_grows(m, count - 1, count - 1);
    let before = diagonal_lcm(m, count - 1);
    let entry = m[count - 1][count - 1];
    lemma_lcm_grows(before as int, entry);
    if i < count - 1 {
        lemma_diagonal_divides(m, count - 1, i);
        lemma_divides_transitive(m[i][i] as nat, before, diagonal_lcm(m, count) as int);
    }
}

/// The least common multiple of the diagonal divides every number that
/// all entries on the diagonal divide.
pub proof fn lemma_diagonal_lcm_least(m: Grid, count: int, n: nat)
    requires
        0 <= count,
        forall|k: int| 0 <= k < count ==> (#[trigger] m[k])[k] > 0,
        forall|k: int| 0 <= k < count ==> divides((#[trigger] m[k])[k] as nat, n as int),
    ensures
        divides(diagonal_lcm(m, count), n as int),
    decreases count,
{
    if count > 0 {
        lemma_diagonal_lcm_least(m, count - 1, n);
        crate::solution::lemma_diagonal_lcm_grows(m, count - 1, count - 1);
        let before = diagonal_lcm(m, count - 1);
        let entry = m[count - 1][count - 1];
        assert(divides(m[count - 1][count - 1] as nat, n as int));
        lemma_lcm_is_least(before, entry as nat, n);
    } else {
        lemma_divides_product(1, n as int);
        assert(1 * (n as int) == n) by (nonlinear_arith);
    }
}

/// The coefficients of a diagonal grid, with the least common multiple of
/// its diagonal negated as the last entry.
pub open spec fn solution(m: Grid, columns: int) -> Seq<int> {
    raw_coefficients(m, columns).push(-(diagonal_lcm(m, columns - 1) as int))
}

/// The coefficients of a solved matrix, if one of them is not zero, solve
/// the matrix together with the least common multiple of the diagonal.
pub proof fn lemma_solution_solves(m: Grid, columns: int, rank: int)
    requires
        reduced_echelon(m, columns, rank),
        diagonal(m, columns),
        !all_zero(raw_coefficients(m, columns)),
    ensures
        solves(m, solution(m, columns)),
{
    let found = raw_coefficients(m, columns);
    let multiple = diagonal_lcm(m, columns - 1) as int;
    let y = solution(m, columns);
    let k = choose|k: int| 0 <= k < found.len() && found[k] != 0;
    assert(m[k][columns - 1] != 0) by {
        let q = multiple / m[k][k];
        let s = m[k][columns - 1];
        assert(s != 0) by (nonlinear_arith)
            requires
                q * s != 0,
        ;
    }
    assert forall|r: int| 0 <= r < m.len() implies dot(#[trigger] m[r], y) == 0 by {
        if r < columns - 1 {
            lemma_diagonal_dot(m, columns, r, y);
            lemma_diagonal_divides(m, columns - 1, r);
            let p = m[r][r];
            let s = m[r][columns - 1];
            let q = multiple / p;
            assert(y[r] == q * s);
            assert(y[columns - 1] == -multiple);
            assert(p * (q * s) + s * (-multiple) == 0) by (nonlinear_arith)
                requires
                    multiple == p * q,
            ;
        } else {
            lemma_lead(m[r]);
            lemma_lead(m[columns - 2]);
            assert(lead(m[columns - 2]) == columns - 2);
            if lead(m[r]) < columns {
                assert(r < rank);
                assert(columns - 1 < rank);
                assert(lead(m[columns - 2]) < lead(m[columns - 1]));
                lemma_lead(m[columns - 1]);
                assert(lead(m[columns - 1]) == columns - 1);
                assert(m[k][lead(m[columns - 1])] == 0);
            }
            lemma_dot_none(m[r], y);
        }
    }
}

/// A vector solves the matrix with a pinned coefficient exactly if it
/// solves the matrix before and has the same entry at the pinned place as
/// at its last place, negated.
pub proof fn lemma_pinned_solves(first: Grid, columns: int, boundary: int, y: Seq<int>)
    requires
        rectangular(first, columns),
        first.len() >= 1,
        is_zero(first[first.len() - 1]),
        0 <= boundary < columns - 1,
    ensures
        rectangular(pinned(first, boundary), columns),
        solves(pinned(first, boundary), y) == (solves(first, y) && y[boundary] + y[columns - 1]
            == 0),
{
    let last = first.len() - 1;
    let next = pinned(first, boundary);
    let row = next[last];
    assert(first[last].len() == columns);
    assert(row == first[last].update(boundary, 1).update(columns - 1, 1));
    assert forall|r: int| 0 <= r < next.len() implies (#[trigger] next[r]).len() == columns by {
        if r != last {
            assert(next[r] == first[r]);
        }
    }
    lemma_dot_two(row, y, boundary, columns - 1);
    lemma_dot_none(first[last], y);
    assert(dot(row, y) == y[boundary] + y[columns - 1]) by {
        let u = y[boundary];
        let v = y[columns - 1];
        assert(1 * u + 1 * v == u + v) by (nonlinear_arith);
    }
    if solves(next, y) {
        assert(dot(next[last], y) == 0);
        assert forall|r: int| 0 <= r < first.len() implies dot(#[trigger] first[r], y) == 0 by {
            if r != last {
                assert(next[r] == first[r]);
            }
        }
    }
    if solves(first, y) && y[boundary] + y[columns - 1] == 0 {
        assert forall|r: int| 0 <= r < next.len() implies dot(#[trigger] next[r], y) == 0 by {
            if r != last {
                assert(next[r] == first[r]);
            }
        }
    }
}

/// The place of the coefficient that solving pins to 1.
pub open spec fn pinned_place(m: Grid, columns: int) -> int {
    boundary_from(eliminated(m, columns)->0, 0)
}

/// What solving yields: a grid in reduced echelon form, which a vector
/// solves exactly if it solves the grid before and has the same entry at
/// the pinned place as at its last place, negated.
pub proof fn lemma_solved(m: Grid, columns: int, y: Seq<int>)
    requires
        rectangular(m, columns),
        has_zero_row(m),
        columns >= 2,
        solved(m, columns) is Ok,
    ensures
        0 <= pinned_place(m, columns) < columns - 1,
        solved(m, columns)->Ok_0.len() == m.len(),
        exists|rank: int| reduced_echelon(solved(m, columns)->Ok_0, columns, rank),
        solves(solved(m, columns)->Ok_0, y) == (solves(m, y) && y[pinned_place(m, columns)]
            + y[columns - 1] == 0),
{
    let first = eliminated(m, columns)->0;
    lemma_eliminated(m, columns);
    lemma_eliminated_keeps(m, columns, y);
    let boundary = boundary_from(first, 0);
    lemma_boundary_from(first, 0);
    let rank = choose|rank: int| reduced_echelon(first, columns, rank);
    lemma_boundary_column(first, columns, rank, boundary);
    lemma_pinned_solves(first, columns, boundary, y);
    let middle = pinned(first, boundary);
    lemma_eliminated(middle, columns);
    lemma_eliminated_keeps(middle, columns, y);
}

/// In a diagonal grid every solution is a multiple of the coefficients:
/// the entry of a solution at a place, times the least common multiple of
/// the diagonal, is the coefficient at that place times the last entry of
/// the solution, negated.
pub proof fn lemma_solution_is_multiple(m: Grid, columns: int, y: Seq<int>, i: int)
    requires
        diagonal(m, columns),
        solves(m, y),
        0 <= i < columns - 1,
    ensures
        diagonal_lcm(m, columns - 1) * y[i] == -(raw_coefficients(m, columns)[i] * y[columns - 1]),
{
    lemma_diagonal_dot(m, columns, i, y);
    lemma_diagonal_divides(m, columns - 1, i);
    assert(dot(m[i], y) == 0);
    let multiple = diagonal_lcm(m, columns - 1) as int;
    let p = m[i][i];
    let s = m[i][columns - 1];
    let q = multiple / p;
    let u = y[i];
    let t = y[columns - 1];
    assert(raw_coefficients(m, columns)[i] == q * s);
    assert(multiple * u == -((q * s) * t)) by (nonlinear_arith)
        requires
            multiple == p * q,
            p * u + s * t == 0,
    ;
}

/// The coefficients of a diagonal grid have no common divisor but 1, where
/// one of them is the least common multiple of the diagonal.
pub proof fn lemma_lowest_terms(m: Grid, columns: int, place: int, d: nat)
    requires
        diagonal(m, columns),
        0 <= place < columns - 1,
        raw_coefficients(m, columns)[place] == diagonal_lcm(m, columns - 1),
        forall|i: int| 0 <= i < columns - 1 ==> divides(d, #[trigger] raw_coefficients(m, columns)[i]),
    ensures
        d == 1,
{
    let found = raw_coefficients(m, columns);
    let multiple = diagonal_lcm(m, columns - 1);
    lemma_diagonal_divides(m, columns - 1, place);
    assert(divides(d, found[place]));
    assert(d > 0) by {
        if d == 0 {
            assert(multiple == 0 * (multiple as int / 0));
        }
    }
    let rest = (multiple as int / d as int) as nat;
    assert(rest >= 0 && multiple == d * rest);
    assert forall|k: int| 0 <= k < columns - 1 implies divides((#[trigger] m[k])[k] as nat, rest as int) by {
        lemma_diagonal_divides(m, columns - 1, k);
        lemma_diagonal_lowest_terms(m, columns, k);
        let p = m[k][k];
        let s = m[k][columns - 1];
        let q = multiple as int / p;
        assert(multiple == p * q);
        assert(q >= 0) by (nonlinear_arith)
            requires
                multiple == p * q,
                multiple >= 1,
                p > 0,
        ;
        assert(found[k] == q * s);
        lemma_divides_abs(d, q * s);
        assert(abs(q * s) == q * abs(s)) by (nonlinear_arith)
            requires
                q >= 0,
        ;
        assert(q * p == multiple) by (nonlinear_arith)
            requires
                multiple == p * q,
        ;
        lemma_divides_scaled_gcd(d, q as nat, p as nat, abs(s));
        assert(q * 1 == q) by (nonlinear_arith);
        let u = q / (d as int);
        assert(q == d * u);
        assert(rest == p * u) by (nonlinear_arith)
            requires
                multiple == d * rest,
                multiple == p * q,
                q == d * u,
                d > 0,
        ;
        lemma_divides_product(p as nat, u);
    }
    lemma_diagonal_lcm_least(m, columns - 1, rest);
    let w = rest as int / multiple as int;
    assert(rest == multiple * w);
    assert(d == 1) by (nonlinear_arith)
        requires
            multiple == d * rest,
            rest == multiple * w,
            multiple >= 1,
            d > 0,
            rest >= 0,
    ;
}

/// Two vectors that are both multiples of a third are multiples of each
/// other.
pub proof fn lemma_cross_ratio(
    multiple: int,
    a: int,
    b: int,
    c: int,
    e: int,
    ci: int,
    cj: int,
    s: int,
    t: int,
)
    requires
        multiple >= 1,
        multiple * a == ci * s,
        multiple * b == cj * s,
        multiple * c == ci * t,
        multiple * e == cj * t,
    ensures
        a * e == b * c,
{
    let left = (multiple * a) * (multiple * e);
    let right = (multiple * b) * (multiple * c);
    assert(left == (ci * s) * (cj * t));
    assert(right == (cj * s) * (ci * t));
    assert((ci * s) * (cj * t) == (cj * s) * (ci * t)) by (nonlinear_arith);
    let square = multiple * multiple;
    assert(left == square * (a * e)) by (nonlinear_arith)
        requires
            left == (multiple * a) * (multiple * e),
            square == multiple * multiple,
    ;
    assert(right == square * (b * c)) by (nonlinear_arith)
        requires
            right == (multiple * b) * (multiple * c),
            square == multiple * multiple,
    ;
    assert(square >= 1) by (nonlinear_arith)
        requires
            square == multiple * multiple,
            multiple >= 1,
    ;
    let x = a * e;
    let y = b * c;
    assert(x == y) by (nonlinear_arith)
        requires
            square * x == square * y,
            square >= 1,
    ;
}

} // verus!
