//! A dense integer matrix and its fraction-free Gaussian elimination.
//!
//! Rows are modelled as sequences of mathematical integers. For every step
//! of the elimination a function on such rows says what the step yields,
//! or that a 32-bit entry would overflow.

use vstd::prelude::*;
use crate::arithmetic::{
    abs, divides, gcd, gcd_int, integer_gcd, lemma_divides_abs, lemma_divides_negated,
    lemma_divides_transitive, lemma_exact_quotient, lemma_gcd_divides, lemma_gcd_zero, LIMIT,
};

verus! {

/// A matrix of 32-bit integers, row by row.
pub struct Matrix {
    /// Cells
    pub cells: Vec<Vec<i32>>,
    /// Number of rows
    pub rows_count: usize,
    /// Number of columns
    pub columns_count: usize,
}

/// A grid of integers, row by row.
pub type Grid = Seq<Seq<int>>;

/// The entries of a row as mathematical integers.
pub open spec fn ints(row: Seq<i32>) -> Seq<int> {
    row.map_values(|x: i32| x as int)
}

/// Every entry has a magnitude of at most `LIMIT`, so that it can be negated
/// in 32 bits.
pub open spec fn bounded(row: Seq<int>) -> bool {
    forall|i: int| 0 <= i < row.len() ==> -LIMIT <= #[trigger] row[i] <= LIMIT
}

/// The row of `n` zeros.
pub open spec fn zero_row(n: nat) -> Seq<int> {
    Seq::new(n, |i: int| 0int)
}

/// The entry-wise sum of two rows of one length.
pub open spec fn row_sum(a: Seq<int>, b: Seq<int>) -> Seq<int> {
    Seq::new(a.len(), |i: int| a[i] + b[i])
}

/// The row with every entry multiplied by `factor`.
pub open spec fn row_scaled(row: Seq<int>, factor: int) -> Seq<int> {
    Seq::new(row.len(), |i: int| factor * row[i])
}

/// The greatest common divisor of all entries of a row; zero for a row of
/// zeros.
pub open spec fn row_gcd(row: Seq<int>) -> nat
    decreases row.len(),
{
    if row.len() == 0 {
        0
    } else {
        gcd(row_gcd(row.drop_last()), abs(row.last()))
    }
}

/// The index of the first entry at or after `start` that is not zero, or
/// the length of the row if there is none.
pub open spec fn lead_from(row: Seq<int>, start: int) -> int
    decreases row.len() - start,
{
    if start >= row.len() {
        row.len() as int
    } else if row[start] != 0 {
        start
    } else {
        lead_from(row, start + 1)
    }
}

/// The index of the first entry that is not zero, or the length of the row
/// if all are zero.
pub open spec fn lead(row: Seq<int>) -> int {
    lead_from(row, 0)
}

/// The row divided by its greatest common divisor, and negated if its first
/// entry other than zero is negative. A row of zeros stays as it is.
pub open spec fn simplified(row: Seq<int>) -> Seq<int> {
    let l = lead(row);
    if l >= row.len() {
        row
    } else {
        let sign: int = if row[l] > 0 { 1 } else { -1 };
        let g = row_gcd(row) as int;
        Seq::new(row.len(), |i: int| sign * (row[i] / g))
    }
}

/// The combination of `row` and `pivot_row` that is zero in `column`:
/// `row * (pivot / g) + pivot_row * (-entry / g)`, where `pivot` and `entry`
/// are what the two rows hold in that column and `g` is their greatest
/// common divisor. `None` if a scaled row or the sum leaves the bounds.
pub open spec fn combined(row: Seq<int>, pivot_row: Seq<int>, column: int) -> Option<Seq<int>> {
    let pivot = pivot_row[column];
    let entry = row[column];
    let g = gcd_int(pivot, entry) as int;
    let first = row_scaled(row, pivot / g);
    let second = row_scaled(pivot_row, (-entry) / g);
    if bounded(first) && bounded(second) && bounded(row_sum(first, second)) {
        Some(row_sum(first, second))
    } else {
        None
    }
}

/// The grid with rows `i` and `j` exchanged.
pub open spec fn swapped(m: Grid, i: int, j: int) -> Grid {
    m.update(i, m[j]).update(j, m[i])
}

/// The first row at or after `row` whose entry in `column` is not zero, or
/// the number of rows if there is none.
pub open spec fn pivot_row_from(m: Grid, row: int, column: int) -> int
    decreases m.len() - row,
{
    if row >= m.len() {
        m.len() as int
    } else if m[row][column] != 0 {
        row
    } else {
        pivot_row_from(m, row + 1, column)
    }
}

/// The grid after `column` has been eliminated from the rows `row` and
/// below by means of `pivot_row`, each such row simplified again.
pub open spec fn cleared_below(m: Grid, pivot_row: int, column: int, row: int) -> Option<Grid>
    decreases m.len() - row,
{
    if row < 0 || row >= m.len() {
        Some(m)
    } else {
        match combined(m[row], m[pivot_row], column) {
            None => None,
            Some(r) => cleared_below(m.update(row, simplified(r)), pivot_row, column, row + 1),
        }
    }
}

/// The forward phase from `column` on, with `pivots` rows already in place:
/// the first row at or below the pivot cursor that is not zero in the
/// column is exchanged into place and eliminates the column below it.
pub open spec fn forward(m: Grid, columns: int, column: int, pivots: int) -> Option<Grid>
    decreases columns - column,
{
    if column >= columns {
        Some(m)
    } else {
        let found = pivot_row_from(m, pivots, column);
        if found >= m.len() {
            forward(m, columns, column + 1, pivots)
        } else {
            match cleared_below(swapped(m, pivots, found), pivots, column, pivots + 1) {
                None => None,
                Some(next) => forward(next, columns, column + 1, pivots + 1),
            }
        }
    }
}

/// The grid after `column` has been eliminated from the first `rows_left`
/// rows, from the last of them up to the first, by means of `pivot_row`.
pub open spec fn cleared_above(m: Grid, pivot_row: int, column: int, rows_left: int) -> Option<
    Grid,
>
    decreases rows_left,
{
    if rows_left <= 0 {
        Some(m)
    } else {
        let row = rows_left - 1;
        match combined(m[row], m[pivot_row], column) {
            None => None,
            Some(r) => cleared_above(
                m.update(row, simplified(r)),
                pivot_row,
                column,
                rows_left - 1,
            ),
        }
    }
}

/// The backward phase over the first `rows_left` rows, from the last of
/// them up: each row that is neither the top row nor zero eliminates the
/// column of its first entry from all rows above it.
pub open spec fn backward(m: Grid, columns: int, rows_left: int) -> Option<Grid>
    decreases rows_left,
{
    if rows_left <= 0 {
        Some(m)
    } else {
        let row = rows_left - 1;
        let column = lead(m[row]);
        if row == 0 || column >= columns {
            backward(m, columns, rows_left - 1)
        } else {
            match cleared_above(m, row, column, row) {
                None => None,
                Some(next) => backward(next, columns, rows_left - 1),
            }
        }
    }
}

/// The grid with every row simplified.
pub open spec fn all_simplified(m: Grid) -> Grid {
    Seq::new(m.len(), |i: int| simplified(m[i]))
}

/// The whole elimination: every row simplified, then the forward phase over
/// all columns, then the backward phase over all rows. `None` if an entry
/// leaves the bounds on the way.
pub open spec fn eliminated(m: Grid, columns: int) -> Option<Grid> {
    match forward(all_simplified(m), columns, 0, 0) {
        None => None,
        Some(echelon) => backward(echelon, columns, m.len() as int),
    }
}

/// `m` has `rows` rows of `columns` bounded entries each.
pub open spec fn well_formed(m: Grid, rows: int, columns: int) -> bool {
    &&& m.len() == rows
    &&& forall|i: int| 0 <= i < rows ==> (#[trigger] m[i]).len() == columns
    &&& forall|i: int| 0 <= i < rows ==> bounded(#[trigger] m[i])
}

/// What `lead_from` returns: an index from `start` on, with zeros before it
/// and an entry other than zero at it, unless it is the length.
pub proof fn lemma_lead_from(row: Seq<int>, start: int)
    requires
        0 <= start <= row.len(),
    ensures
        start <= lead_from(row, start) <= row.len(),
        forall|j: int| start <= j < lead_from(row, start) ==> row[j] == 0,
        lead_from(row, start) < row.len() ==> row[lead_from(row, start)] != 0,
    decreases row.len() - start,
{
    if start < row.len() && row[start] == 0 {
        lemma_lead_from(row, start + 1);
    }
}

/// What `lead` returns.
pub proof fn lemma_lead(row: Seq<int>)
    ensures
        0 <= lead(row) <= row.len(),
        forall|j: int| 0 <= j < lead(row) ==> row[j] == 0,
        lead(row) < row.len() ==> row[lead(row)] != 0,
{
    lemma_lead_from(row, 0);
}

/// An index with zeros before it and an entry other than zero at it is
/// the lead of the row.
pub proof fn lemma_lead_unique(row: Seq<int>, l: int)
    requires
        0 <= l <= row.len(),
        forall|j: int| 0 <= j < l ==> row[j] == 0,
        l < row.len() ==> row[l] != 0,
    ensures
        lead(row) == l,
{
    lemma_lead(row);
}

/// The greatest common divisor of a row divides each of its entries.
pub proof fn lemma_row_gcd_divides(row: Seq<int>, i: int)
    requires
        0 <= i < row.len(),
    ensures
        divides(row_gcd(row), row[i]),
    decreases row.len(),
{
    let rest = row_gcd(row.drop_last());
    let last = abs(row.last());
    lemma_gcd_divides(rest, last);
    if i == row.len() - 1 {
        lemma_divides_abs(row_gcd(row), row[i]);
    } else {
        lemma_row_gcd_divides(row.drop_last(), i);
        lemma_divides_transitive(row_gcd(row), rest, row[i]);
    }
}

/// The greatest common divisor of a row is zero only if every entry is.
pub proof fn lemma_row_gcd_zero(row: Seq<int>)
    ensures
        row_gcd(row) == 0 <==> (forall|i: int| 0 <= i < row.len() ==> row[i] == 0),
    decreases row.len(),
{
    if row.len() > 0 {
        lemma_row_gcd_zero(row.drop_last());
        lemma_gcd_zero(row_gcd(row.drop_last()), abs(row.last()));
        if row_gcd(row) == 0 {
            assert forall|i: int| 0 <= i < row.len() implies row[i] == 0 by {
                if i < row.len() - 1 {
                    assert(row.drop_last()[i] == row[i]);
                }
            }
        } else {
            if forall|i: int| 0 <= i < row.len() ==> row[i] == 0 {
                assert forall|i: int| 0 <= i < row.drop_last().len() implies row.drop_last()[i]
                    == 0 by {
                    assert(row.drop_last()[i] == row[i]);
                }
                assert(row.last() == row[row.len() - 1]);
            }
        }
    }
}

/// The greatest common divisor of a row does not depend on the signs of its
/// entries.
pub proof fn lemma_row_gcd_abs(a: Seq<int>, b: Seq<int>)
    requires
        a.len() == b.len(),
        forall|i: int| 0 <= i < a.len() ==> abs(a[i]) == abs(b[i]),
    ensures
        row_gcd(a) == row_gcd(b),
    decreases a.len(),
{
    if a.len() > 0 {
        assert forall|i: int| 0 <= i < a.drop_last().len() implies abs(a.drop_last()[i]) == abs(
            b.drop_last()[i],
        ) by {
            assert(a.drop_last()[i] == a[i]);
            assert(b.drop_last()[i] == b[i]);
        }
        lemma_row_gcd_abs(a.drop_last(), b.drop_last());
        assert(a.last() == a[a.len() - 1]);
        assert(b.last() == b[b.len() - 1]);
    }
}

/// A common factor can be taken out of the greatest common divisor of a
/// row.
pub proof fn lemma_row_gcd_scaled(row: Seq<int>, factor: nat)
    ensures
        row_gcd(row_scaled(row, factor as int)) == factor * row_gcd(row),
    decreases row.len(),
{
    let scaled = row_scaled(row, factor as int);
    if row.len() > 0 {
        assert(scaled.drop_last() =~= row_scaled(row.drop_last(), factor as int));
        lemma_row_gcd_scaled(row.drop_last(), factor);
        let x = row.last();
        assert(scaled.last() == factor * x);
        assert(abs(factor * x) == factor * abs(x)) by (nonlinear_arith)
            requires
                factor >= 0,
        ;
        crate::arithmetic::lemma_gcd_scaled(factor, row_gcd(row.drop_last()), abs(x));
    } else {
        assert(factor * 0 == 0) by (nonlinear_arith);
    }
}

/// The entries of a simplified row have no common divisor but 1, unless
/// all of them are zero.
pub proof fn lemma_simplified_gcd(row: Seq<int>)
    ensures
        row_gcd(simplified(row)) <= 1,
{
    lemma_lead(row);
    lemma_row_gcd_zero(row);
    let l = lead(row);
    if l < row.len() {
        let g = row_gcd(row);
        let quotients = Seq::new(row.len(), |i: int| row[i] / (g as int));
        assert(row =~= row_scaled(quotients, g as int)) by {
            assert forall|i: int| 0 <= i < row.len() implies row[i] == row_scaled(
                quotients,
                g as int,
            )[i] by {
                lemma_row_gcd_divides(row, i);
            }
        }
        lemma_row_gcd_scaled(quotients, g);
        let t = row_gcd(quotients);
        assert(t == 1) by (nonlinear_arith)
            requires
                g == g * t,
                g > 0,
        ;
        let simple = simplified(row);
        assert forall|i: int| 0 <= i < simple.len() implies abs(simple[i]) == abs(
            quotients[i],
        ) by {
            let q = quotients[i];
            assert(abs(1 * q) == abs(q) && abs((-1) * q) == abs(q)) by (nonlinear_arith);
        }
        lemma_row_gcd_abs(simple, quotients);
    }
}

/// A simplified row keeps its length and its bounds.
pub proof fn lemma_simplified_bounded(row: Seq<int>)
    requires
        bounded(row),
    ensures
        bounded(simplified(row)),
        simplified(row).len() == row.len(),
{
    lemma_lead(row);
    let l = lead(row);
    if l < row.len() {
        lemma_row_gcd_zero(row);
        let g = row_gcd(row);
        assert forall|i: int| 0 <= i < row.len() implies -LIMIT <= #[trigger] simplified(row)[i]
            <= LIMIT by {
            lemma_row_gcd_divides(row, i);
            lemma_exact_quotient(row[i], g);
        }
    }
}

impl View for Matrix {
    type V = Grid;

    open spec fn view(&self) -> Grid {
        Seq::new(self.cells@.len(), |i: int| ints(self.cells@[i]@))
    }
}

impl Matrix {
    /// The counts agree with the cells, and every entry is bounded.
    pub open spec fn wf(&self) -> bool {
        well_formed(self@, self.rows_count as int, self.columns_count as int)
    }

    /// Matrix constructor.
    pub fn new(rows_count: usize, columns_count: usize) -> (matrix: Self)
        ensures
            matrix.wf(),
            matrix.rows_count == rows_count,
            matrix.columns_count == columns_count,
            matrix@ == Seq::new(rows_count as nat, |i: int| zero_row(columns_count as nat)),
    {
        let mut cells: Vec<Vec<i32>> = Vec::new();
        let mut i: usize = 0;
        while i < rows_count
            invariant
                i <= rows_count,
                cells@.len() == i,
                forall|k: int| 0 <= k < i ==> ints(#[trigger] cells@[k]@) == zero_row(columns_count as nat),
            decreases rows_count - i,
        {
            let mut row: Vec<i32> = Vec::new();
            let mut j: usize = 0;
            while j < columns_count
                invariant
                    j <= columns_count,
                    row@.len() == j,
                    forall|k: int| 0 <= k < j ==> row@[k] == 0,
                decreases columns_count - j,
            {
                row.push(0);
                j += 1;
            }
            assert(ints(row@) =~= zero_row(columns_count as nat));
            cells.push(row);
            i += 1;
        }
        let matrix = Matrix { cells, rows_count, columns_count };
        assert(matrix@ =~= Seq::new(rows_count as nat, |i: int| zero_row(columns_count as nat)));
        matrix
    }

    /// Adds two rows.
    pub fn add_rows(row_1: &[i32], row_2: &[i32]) -> (sum: Vec<i32>)
        requires
            row_1@.len() == row_2@.len(),
            forall|i: int|
                0 <= i < row_1@.len() ==> i32::MIN <= (#[trigger] row_1@[i]) + row_2@[i] <= i32::MAX,
        ensures
            ints(sum@) == row_sum(ints(row_1@), ints(row_2@)),
    {
        let mut sum: Vec<i32> = Vec::new();
        let mut i: usize = 0;
        while i < row_1.len()
            invariant
                i <= row_1@.len(),
                row_1@.len() == row_2@.len(),
                sum@.len() == i,
                forall|k: int|
                    0 <= k < row_1@.len() ==> i32::MIN <= (#[trigger] row_1@[k]) + row_2@[k]
                        <= i32::MAX,
                forall|k: int| 0 <= k < i ==> #[trigger] sum@[k] == row_1@[k] + row_2@[k],
            decreases row_1@.len() - i,
        {
            assert(i32::MIN <= row_1@[i as int] + row_2@[i as int] <= i32::MAX);
            sum.push(row_1[i] + row_2[i]);
            i += 1;
        }
        assert(ints(sum@) =~= row_sum(ints(row_1@), ints(row_2@)));
        sum
    }

    /// Returns the greatest common divisor of row.
    pub fn get_gcd_of_row(row: &[i32]) -> (g: i32)
        requires
            bounded(ints(row@)),
        ensures
            g == row_gcd(ints(row@)),
    {
        let mut result: i32 = 0;
        let mut i: usize = 0;
        while i < row.len()
            invariant
                i <= row@.len(),
                bounded(ints(row@)),
                0 <= result,
                result == row_gcd(ints(row@).take(i as int)),
            decreases row@.len() - i,
        {
            proof {
                let next = ints(row@).take(i + 1);
                assert(next.drop_last() =~= ints(row@).take(i as int));
                assert(next.last() == ints(row@)[i as int]);
            }
            result = integer_gcd(result, row[i]);
            i += 1;
        }
        assert(ints(row@).take(i as int) =~= ints(row@));
        result
    }

    /// Simplifies a row.
    pub fn simplify_row(row: &[i32]) -> (simple: Vec<i32>)
        requires
            bounded(ints(row@)),
        ensures
            ints(simple@) == simplified(ints(row@)),
            bounded(ints(simple@)),
    {
        let ghost model = ints(row@);
        let n = row.len();
        let mut first: usize = 0;
        while first < n && row[first] == 0
            invariant
                first <= n,
                n == row@.len(),
                forall|k: int| 0 <= k < first ==> row@[k] == 0,
            decreases n - first,
        {
            first += 1;
        }
        proof {
            lemma_lead_unique(model, first as int);
            lemma_simplified_bounded(model);
        }
        let mut simple: Vec<i32> = Vec::new();
        if first == n {
            let mut i: usize = 0;
            while i < n
                invariant
                    i <= n,
                    n == row@.len(),
                    simple@.len() == i,
                    forall|k: int| 0 <= k < i ==> simple@[k] == row@[k],
                decreases n - i,
            {
                simple.push(row[i]);
                i += 1;
            }
            assert(ints(simple@) =~= simplified(model));
            return simple;
        }
        let positive = row[first] > 0;
        let g = Self::get_gcd_of_row(row);
        proof {
            lemma_row_gcd_zero(model);
            assert(model[first as int] != 0);
        }
        let mut i: usize = 0;
        while i < n
            invariant
                i <= n,
                n == row@.len(),
                model == ints(row@),
                bounded(model),
                first < n,
                lead(model) == first,
                positive == (model[first as int] > 0),
                g == row_gcd(model),
                g > 0,
                simple@.len() == i,
                forall|k: int| 0 <= k < i ==> (#[trigger] simple@[k]) as int == simplified(model)[k],
            decreases n - i,
        {
            let x = row[i];
            proof {
                assert(model[i as int] == x);
                lemma_row_gcd_divides(model, i as int);
                lemma_exact_quotient(x as int, g as nat);
            }
            let q = x / g;
            assert(q == x as int / g as int);
            let value = if positive { q } else { -q };
            assert(value == simplified(model)[i as int]);
            simple.push(value);
            i += 1;
        }
        assert(ints(simple@) =~= simplified(model));
        simple
    }

    /// Multiplies every entry of a row by `factor`, unless a product leaves
    /// the bounds.
    fn scale_row(row: &[i32], factor: i32) -> (scaled: Option<Vec<i32>>)
        requires
            bounded(ints(row@)),
            -LIMIT <= factor <= LIMIT,
        ensures
            match scaled {
                Some(v) => ints(v@) == row_scaled(ints(row@), factor as int) && bounded(ints(v@))
                    && v@.len() == row@.len(),
                None => !bounded(row_scaled(ints(row@), factor as int)),
            },
    {
        let ghost model = row_scaled(ints(row@), factor as int);
        let mut scaled: Vec<i32> = Vec::new();
        let mut i: usize = 0;
        while i < row.len()
            invariant
                i <= row@.len(),
                bounded(ints(row@)),
                -LIMIT <= factor <= LIMIT,
                model == row_scaled(ints(row@), factor as int),
                scaled@.len() == i,
                forall|k: int|
                    0 <= k < i ==> (#[trigger] scaled@[k]) as int == model[k] && -LIMIT
                        <= scaled@[k] <= LIMIT,
            decreases row@.len() - i,
        {
            let x = row[i];
            assert(ints(row@)[i as int] == x);
            assert(-4611686018427387904 <= (factor as int) * (x as int) <= 4611686018427387904)
                by (nonlinear_arith)
                requires
                    -LIMIT <= factor <= LIMIT,
                    -LIMIT <= x <= LIMIT,
            ;
            let product: i64 = (factor as i64) * (x as i64);
            assert(model[i as int] == product);
            if product < -(LIMIT as i64) || product > LIMIT as i64 {
                return None;
            }
            scaled.push(product as i32);
            i += 1;
        }
        assert(ints(scaled@) =~= model);
        Some(scaled)
    }

    /// Whether the entry-wise sum of two rows stays within the bounds.
    fn sum_is_bounded(row_1: &[i32], row_2: &[i32]) -> (fits: bool)
        requires
            row_1@.len() == row_2@.len(),
        ensures
            fits == bounded(row_sum(ints(row_1@), ints(row_2@))),
    {
        let ghost model = row_sum(ints(row_1@), ints(row_2@));
        let mut i: usize = 0;
        while i < row_1.len()
            invariant
                i <= row_1@.len(),
                row_1@.len() == row_2@.len(),
                model == row_sum(ints(row_1@), ints(row_2@)),
                forall|k: int| 0 <= k < i ==> -LIMIT <= #[trigger] model[k] <= LIMIT,
            decreases row_1@.len() - i,
        {
            let total: i64 = (row_1[i] as i64) + (row_2[i] as i64);
            assert(model[i as int] == total);
            if total < -(LIMIT as i64) || total > LIMIT as i64 {
                return false;
            }
            i += 1;
        }
        true
    }

    /// Combines a row with the pivot row so that the result is zero in
    /// `column`, unless an entry leaves the bounds.
    fn combine_rows(row: &[i32], pivot_row: &[i32], column: usize) -> (result: Option<Vec<i32>>)
        requires
            row@.len() == pivot_row@.len(),
            column < row@.len(),
            bounded(ints(row@)),
            bounded(ints(pivot_row@)),
            pivot_row@[column as int] != 0,
        ensures
            match result {
                Some(v) => combined(ints(row@), ints(pivot_row@), column as int) == Some(ints(v@))
                    && bounded(ints(v@)),
                None => combined(ints(row@), ints(pivot_row@), column as int) is None,
            },
    {
        let pivot = pivot_row[column];
        let entry = row[column];
        assert(ints(pivot_row@)[column as int] == pivot);
        assert(ints(row@)[column as int] == entry);
        let g = integer_gcd(pivot, entry);
        proof {
            lemma_gcd_zero(abs(pivot as int), abs(entry as int));
            lemma_gcd_divides(abs(pivot as int), abs(entry as int));
            lemma_divides_abs(g as nat, pivot as int);
            lemma_divides_abs(g as nat, entry as int);
            lemma_divides_negated(g as nat, entry as int);
            lemma_exact_quotient(pivot as int, g as nat);
            lemma_exact_quotient(-(entry as int), g as nat);
        }
        let factor_1 = pivot / g;
        let factor_2 = (-entry) / g;
        assert(factor_1 == (pivot as int) / (g as int));
        assert(factor_2 == (-(entry as int)) / (g as int));
        let first = Self::scale_row(row, factor_1);
        let second = Self::scale_row(pivot_row, factor_2);
        match (first, second) {
            (Some(first), Some(second)) => {
                if Self::sum_is_bounded(first.as_slice(), second.as_slice()) {
                    assert forall|i: int| 0 <= i < first@.len() implies i32::MIN <= (
                    #[trigger] first@[i]) + second@[i] <= i32::MAX by {
                        assert(row_sum(ints(first@), ints(second@))[i] == first@[i] + second@[i]);
                    }
                    let sum = Self::add_rows(first.as_slice(), second.as_slice());
                    Some(sum)
                } else {
                    None
                }
            },
            _ => None,
        }
    }

    /// Exchanges two rows.
    fn swap_rows(&mut self, i: usize, j: usize)
        requires
            old(self).wf(),
            i < old(self).rows_count,
            j < old(self).rows_count,
            i != j,
        ensures
            final(self).wf(),
            final(self).rows_count == old(self).rows_count,
            final(self).columns_count == old(self).columns_count,
            final(self)@ == swapped(old(self)@, i as int, j as int),
    {
        let mut held: Vec<i32> = Vec::new();
        core::mem::swap(&mut held, &mut self.cells[i]);
        core::mem::swap(&mut held, &mut self.cells[j]);
        core::mem::swap(&mut held, &mut self.cells[i]);
        assert(self@ =~= swapped(old(self)@, i as int, j as int));
    }

    /// Puts `value` into the cell in `row` and `column`.
    pub fn set(&mut self, row: usize, column: usize, value: i32)
        requires
            old(self).wf(),
            row < old(self).rows_count,
            column < old(self).columns_count,
            -LIMIT <= value <= LIMIT,
        ensures
            final(self).wf(),
            final(self).rows_count == old(self).rows_count,
            final(self).columns_count == old(self).columns_count,
            final(self)@ == old(self)@.update(
                row as int,
                old(self)@[row as int].update(column as int, value as int),
            ),
    {
        assert(old(self)@[row as int].len() == self.columns_count);
        let mut held: Vec<i32> = Vec::new();
        core::mem::swap(&mut held, &mut self.cells[row]);
        held[column] = value;
        core::mem::swap(&mut held, &mut self.cells[row]);
        assert(ints(self.cells@[row as int]@) =~= old(self)@[row as int].update(
            column as int,
            value as int,
        ));
        assert(self@ =~= old(self)@.update(
            row as int,
            old(self)@[row as int].update(column as int, value as int),
        ));
    }

    /// Puts `row` in place of the row at `index`.
    pub fn replace_row(&mut self, index: usize, row: Vec<i32>)
        requires
            old(self).wf(),
            index < old(self).rows_count,
            row@.len() == old(self).columns_count,
            bounded(ints(row@)),
        ensures
            final(self).wf(),
            final(self).rows_count == old(self).rows_count,
            final(self).columns_count == old(self).columns_count,
            final(self)@ == old(self)@.update(index as int, ints(row@)),
    {
        self.cells[index] = row;
        assert(self@ =~= old(self)@.update(index as int, ints(row@)));
    }

    /// Eliminates `column` from every row below `pivot_row`.
    fn clear_below(&mut self, pivot_row: usize, column: usize) -> (done: bool)
        requires
            old(self).wf(),
            pivot_row < old(self).rows_count,
            column < old(self).columns_count,
            old(self)@[pivot_row as int][column as int] != 0,
        ensures
            final(self).wf(),
            final(self).rows_count == old(self).rows_count,
            final(self).columns_count == old(self).columns_count,
            match cleared_below(old(self)@, pivot_row as int, column as int, pivot_row + 1) {
                Some(m) => done && final(self)@ == m,
                None => !done,
            },
    {
        let ghost goal = cleared_below(old(self)@, pivot_row as int, column as int, pivot_row + 1);
        let mut j: usize = pivot_row + 1;
        while j < self.rows_count
            invariant
                self.wf(),
                self.rows_count == old(self).rows_count,
                self.columns_count == old(self).columns_count,
                pivot_row < j <= self.rows_count,
                column < self.columns_count,
                self@[pivot_row as int][column as int] != 0,
                goal == cleared_below(old(self)@, pivot_row as int, column as int, pivot_row + 1),
                cleared_below(self@, pivot_row as int, column as int, j as int) == goal,
            decreases self.rows_count - j,
        {
            let ghost before = self@;
            assert(ints(self.cells@[j as int]@) == before[j as int]);
            assert(ints(self.cells@[pivot_row as int]@) == before[pivot_row as int]);
            let result = Self::combine_rows(
                self.cells[j].as_slice(),
                self.cells[pivot_row].as_slice(),
                column,
            );
            match result {
                None => {
                    assert(cleared_below(before, pivot_row as int, column as int, j as int) is None);
                    return false;
                },
                Some(row) => {
                    let simple = Self::simplify_row(row.as_slice());
                    proof {
                        lemma_simplified_bounded(ints(row@));
                    }
                    self.replace_row(j, simple);
                    assert(cleared_below(before, pivot_row as int, column as int, j as int)
                        == cleared_below(self@, pivot_row as int, column as int, j + 1));
                },
            }
            j += 1;
        }
        true
    }

    /// The forward phase of the elimination.
    fn eliminate_forward(&mut self) -> (done: bool)
        requires
            old(self).wf(),
        ensures
            final(self).wf(),
            final(self).rows_count == old(self).rows_count,
            final(self).columns_count == old(self).columns_count,
            match forward(old(self)@, old(self).columns_count as int, 0, 0) {
                Some(m) => done && final(self)@ == m,
                None => !done,
            },
    {
        let ghost goal = forward(old(self)@, old(self).columns_count as int, 0, 0);
        let mut pivots_count: usize = 0;
        let mut i: usize = 0;
        while i < self.columns_count
            invariant
                self.wf(),
                self.rows_count == old(self).rows_count,
                self.columns_count == old(self).columns_count,
                i <= self.columns_count,
                pivots_count <= i,
                pivots_count <= self.rows_count,
                goal == forward(old(self)@, old(self).columns_count as int, 0, 0),
                forward(self@, self.columns_count as int, i as int, pivots_count as int) == goal,
            decreases self.columns_count - i,
        {
            let ghost before = self@;
            let mut pivot_row = pivots_count;
            while pivot_row < self.rows_count && self.cells[pivot_row][i] == 0
                invariant
                    self.wf(),
                    i < self.columns_count,
                    pivots_count <= pivot_row <= self.rows_count,
                    pivot_row_from(self@, pivot_row as int, i as int) == pivot_row_from(
                        self@,
                        pivots_count as int,
                        i as int,
                    ),
                decreases self.rows_count - pivot_row,
            {
                assert(self@[pivot_row as int][i as int] == self.cells@[pivot_row as int]@[i as int]);
                pivot_row += 1;
            }
            if pivot_row == self.rows_count {
                assert(pivot_row_from(before, pivots_count as int, i as int) == before.len());
                i += 1;
                continue ;
            }
            assert(self@[pivot_row as int][i as int] == self.cells@[pivot_row as int]@[i as int]);
            assert(pivot_row_from(before, pivots_count as int, i as int) == pivot_row);
            if pivot_row != pivots_count {
                self.swap_rows(pivots_count, pivot_row);
            } else {
                assert(self@ =~= swapped(self@, pivots_count as int, pivot_row as int));
            }
            assert(self@ == swapped(before, pivots_count as int, pivot_row as int));
            let ghost exchanged = self@;
            if !self.clear_below(pivots_count, i) {
                assert(forward(before, self.columns_count as int, i as int, pivots_count as int)
                    is None);
                return false;
            }
            assert(forward(before, self.columns_count as int, i as int, pivots_count as int)
                == forward(self@, self.columns_count as int, i + 1, pivots_count + 1));
            pivots_count += 1;
            i += 1;
        }
        true
    }

    /// Eliminates `column` from every row above `pivot_row`, from the row
    /// next to it up to the top row.
    fn clear_above(&mut self, pivot_row: usize, column: usize) -> (done: bool)
        requires
            old(self).wf(),
            pivot_row < old(self).rows_count,
            column < old(self).columns_count,
            old(self)@[pivot_row as int][column as int] != 0,
        ensures
            final(self).wf(),
            final(self).rows_count == old(self).rows_count,
            final(self).columns_count == old(self).columns_count,
            match cleared_above(old(self)@, pivot_row as int, column as int, pivot_row as int) {
                Some(m) => done && final(self)@ == m,
                None => !done,
            },
    {
        let ghost goal = cleared_above(old(self)@, pivot_row as int, column as int, pivot_row as int);
        let mut rows_left: usize = pivot_row;
        while rows_left > 0
            invariant
                self.wf(),
                self.rows_count == old(self).rows_count,
                self.columns_count == old(self).columns_count,
                rows_left <= pivot_row < self.rows_count,
                column < self.columns_count,
                self@[pivot_row as int][column as int] != 0,
                goal == cleared_above(
                    old(self)@,
                    pivot_row as int,
                    column as int,
                    pivot_row as int,
                ),
                cleared_above(self@, pivot_row as int, column as int, rows_left as int) == goal,
            decreases rows_left,
        {
            let j = rows_left - 1;
            let ghost before = self@;
            assert(ints(self.cells@[j as int]@) == before[j as int]);
            assert(ints(self.cells@[pivot_row as int]@) == before[pivot_row as int]);
            let result = Self::combine_rows(
                self.cells[j].as_slice(),
                self.cells[pivot_row].as_slice(),
                column,
            );
            match result {
                None => {
                    assert(cleared_above(before, pivot_row as int, column as int, rows_left as int)
                        is None);
                    return false;
                },
                Some(row) => {
                    let simple = Self::simplify_row(row.as_slice());
                    proof {
                        lemma_simplified_bounded(ints(row@));
                    }
                    self.replace_row(j, simple);
                    assert(cleared_above(before, pivot_row as int, column as int, rows_left as int)
                        == cleared_above(self@, pivot_row as int, column as int, rows_left - 1));
                },
            }
            rows_left -= 1;
        }
        true
    }

    /// The backward phase of the elimination.
    fn eliminate_backward(&mut self) -> (done: bool)
        requires
            old(self).wf(),
        ensures
            final(self).wf(),
            final(self).rows_count == old(self).rows_count,
            final(self).columns_count == old(self).columns_count,
            match backward(
                old(self)@,
                old(self).columns_count as int,
                old(self).rows_count as int,
            ) {
                Some(m) => done && final(self)@ == m,
                None => !done,
            },
    {
        let ghost goal = backward(
            old(self)@,
            old(self).columns_count as int,
            old(self).rows_count as int,
        );
        let mut rows_left: usize = self.rows_count;
        while rows_left > 0
            invariant
                self.wf(),
                self.rows_count == old(self).rows_count,
                self.columns_count == old(self).columns_count,
                rows_left <= self.rows_count,
                goal == backward(
                    old(self)@,
                    old(self).columns_count as int,
                    old(self).rows_count as int,
                ),
                backward(self@, self.columns_count as int, rows_left as int) == goal,
            decreases rows_left,
        {
            let i = rows_left - 1;
            let ghost before = self@;
            assert(before[i as int].len() == self.columns_count);
            let mut pivot_column: usize = 0;
            while pivot_column < self.columns_count && self.cells[i][pivot_column] == 0
                invariant
                    self.wf(),
                    i < self.rows_count,
                    self.cells@[i as int]@.len() == self.columns_count,
                    pivot_column <= self.columns_count,
                    forall|k: int| 0 <= k < pivot_column ==> self@[i as int][k] == 0,
                decreases self.columns_count - pivot_column,
            {
                assert(self@[i as int][pivot_column as int] == self.cells@[i as int]@[pivot_column as int]);
                pivot_column += 1;
            }
            proof {
                if pivot_column < self.columns_count {
                    assert(self@[i as int][pivot_column as int] == self.cells@[i as int]@[pivot_column as int]);
                }
                lemma_lead_unique(self@[i as int], pivot_column as int);
            }
            rows_left -= 1;
            if i == 0 || self.columns_count == pivot_column {
                assert(backward(before, self.columns_count as int, i + 1) == backward(
                    before,
                    self.columns_count as int,
                    i as int,
                ));
                continue ;
            }
            if !self.clear_above(i, pivot_column) {
                assert(backward(before, self.columns_count as int, i + 1) is None);
                return false;
            }
            assert(backward(before, self.columns_count as int, i + 1) == backward(
                self@,
                self.columns_count as int,
                i as int,
            ));
        }
        true
    }

    /// A copy of the cells.
    fn copy_cells(&self) -> (copy: Vec<Vec<i32>>)
        ensures
            copy@.len() == self.cells@.len(),
            forall|i: int| 0 <= i < copy@.len() ==> (#[trigger] copy@[i])@ == self.cells@[i]@,
    {
        let mut copy: Vec<Vec<i32>> = Vec::new();
        let mut i: usize = 0;
        while i < self.cells.len()
            invariant
                i <= self.cells@.len(),
                copy@.len() == i,
                forall|k: int| 0 <= k < i ==> (#[trigger] copy@[k])@ == self.cells@[k]@,
            decreases self.cells@.len() - i,
        {
            let mut row: Vec<i32> = Vec::new();
            let mut j: usize = 0;
            while j < self.cells[i].len()
                invariant
                    i < self.cells@.len(),
                    j <= self.cells@[i as int]@.len(),
                    row@.len() == j,
                    forall|k: int| 0 <= k < j ==> row@[k] == self.cells@[i as int]@[k],
                decreases self.cells@[i as int]@.len() - j,
            {
                row.push(self.cells[i][j]);
                j += 1;
            }
            assert(row@ =~= self.cells@[i as int]@);
            copy.push(row);
            i += 1;
        }
        copy
    }

    /// Eliminates a matrix: brings it into reduced row echelon form with
    /// integer entries, which the same vectors solve as before, and which
    /// another elimination leaves as it is. Returns `false`, and leaves the
    /// matrix as it was, if an entry would leave the bounds.
    pub fn eliminate(&mut self) -> (done: bool)
        requires
            old(self).wf(),
        ensures
            final(self).wf(),
            final(self).rows_count == old(self).rows_count,
            final(self).columns_count == old(self).columns_count,
            match eliminated(old(self)@, old(self).columns_count as int) {
                Some(m) => done && final(self)@ == m,
                None => !done && final(self)@ == old(self)@,
            },
            done ==> exists|rank: int|
                crate::echelon::reduced_echelon(
                    final(self)@,
                    final(self).columns_count as int,
                    rank,
                ),
            done ==> forall|x: Seq<int>|
                crate::kernel::solves(old(self)@, x) == #[trigger] crate::kernel::solves(
                    final(self)@,
                    x,
                ),
            done ==> eliminated(final(self)@, final(self).columns_count as int) == Some(
                final(self)@,
            ),
    {
        proof {
            if eliminated(old(self)@, old(self).columns_count as int) is Some {
                crate::echelon::lemma_eliminated(old(self)@, old(self).columns_count as int);
                assert forall|x: Seq<int>|
                    crate::kernel::solves(old(self)@, x) == #[trigger] crate::kernel::solves(
                        eliminated(old(self)@, old(self).columns_count as int)->0,
                        x,
                    ) by {
                    crate::kernel::lemma_eliminated_keeps(
                        old(self)@,
                        old(self).columns_count as int,
                        x,
                    );
                }
            }
        }
        let saved = self.copy_cells();
        let mut i: usize = 0;
        while i < self.rows_count
            invariant
                self.wf(),
                self.rows_count == old(self).rows_count,
                self.columns_count == old(self).columns_count,
                i <= self.rows_count,
                forall|k: int| 0 <= k < i ==> #[trigger] self@[k] == simplified(old(self)@[k]),
                forall|k: int| i <= k < self.rows_count ==> #[trigger] self@[k] == old(self)@[k],
            decreases self.rows_count - i,
        {
            assert(ints(self.cells@[i as int]@) == self@[i as int]);
            let simple = Self::simplify_row(self.cells[i].as_slice());
            proof {
                lemma_simplified_bounded(self@[i as int]);
            }
            self.replace_row(i, simple);
            i += 1;
        }
        assert(self@ =~= all_simplified(old(self)@));
        if !self.eliminate_forward() || !self.eliminate_backward() {
            self.cells = saved;
            assert(self@ =~= old(self)@);
            return false;
        }
        proof {
            let rank = choose|rank: int|
                crate::echelon::reduced_echelon(self@, self.columns_count as int, rank);
            crate::fixed::lemma_eliminated_fixed(self@, self.columns_count as int, rank);
        }
        true
    }
}

} // verus!
