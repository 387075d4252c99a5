//! The balancer: from the text of an equation to its balanced text.

use vstd::prelude::*;
use vstd::slice::slice_subrange;
use vstd::string::*;
use crate::arithmetic::{integer_lcm, LIMIT};
use crate::balancer_error::BalancerError;
use crate::echelon::{lemma_eliminated, reduced_echelon};
use crate::element::strings;
use crate::entity::Entity;
use crate::equation::{entity_views, Equation, EquationView};
use crate::grammar;
use crate::item::{lemma_count_bound, ItemView};
use crate::matrix::{bounded, ints, zero_row, Grid, Matrix};
use crate::parser::Parser;
use crate::parser_error::ParserError;
use crate::solution::{
    all_zero, balanced, boundary_from, checked, coefficients, diagonal_lcm, extracted,
    initial_matrix, initial_row, lemma_boundary_column, lemma_boundary_from, lemma_diagonal,
    lemma_diagonal_lcm_grows, nonzero_count, pinned, raw_coefficients, residual, solved, weighted,
    worked,
};

verus! {

/// An equation together with its matrix, which balancing solves in place.
pub struct Balancer {
    /// Equation
    equation: Equation,
    /// Matrix
    matrix: Matrix,
}

/// A balancer as plain values.
pub struct BalancerView {
    pub equation: EquationView,
    pub matrix: Grid,
}

/// What balancing a text can fail with.
#[derive(Debug, Clone, Copy, PartialEq, Eq, Structural)]
pub enum Error {
    /// The text is not an equation.
    Parser(ParserError),
    /// The equation cannot be balanced.
    Balancer(BalancerError),
}

impl Error {
    /// The text that describes the error.
    pub open spec fn description(self) -> Seq<char> {
        match self {
            Self::Parser(error) => error.description(),
            Self::Balancer(error) => error.description(),
        }
    }

    /// Returns the description.
    pub fn get_description(&self) -> (description: &'static str)
        ensures
            description@ == self.description(),
    {
        match self {
            Self::Parser(error) => error.get_description(),
            Self::Balancer(error) => error.get_description(),
        }
    }
}

/// The equation that a text holds, if its counts of atoms fit 32 bits.
pub open spec fn prepared(text: Seq<char>) -> Result<EquationView, ParserError> {
    match grammar::equation(text, 0).value {
        Err(error) => Err(error),
        Ok(equation) => if equation.countable() {
            Ok(equation)
        } else {
            Err(ParserError::NumberIsTooLarge)
        },
    }
}

/// The balanced text of the equation that a text holds.
pub open spec fn balanced_text(text: Seq<char>) -> Result<Seq<char>, Error> {
    match prepared(text) {
        Err(error) => Err(Error::Parser(error)),
        Ok(equation) => match balanced(equation, initial_matrix(equation)) {
            Err(error) => Err(Error::Balancer(error)),
            Ok(found) => Ok(found),
        },
    }
}

/// What `balance` may return for a text.
pub open spec fn answers(text: Seq<char>, result: Result<String, Error>) -> bool {
    match result {
        Ok(found) => balanced_text(text) == Ok::<Seq<char>, Error>(found@),
        Err(error) => balanced_text(text) == Err::<Seq<char>, Error>(error),
    }
}

/// The largest magnitude of a coefficient times a count.
pub open spec fn term_bound() -> int {
    4611686018427387904
}

/// The atoms of an element in a list of entities, each entity taken as many
/// times as its coefficient says.
fn weighted_sum(entities: &Vec<Entity>, coefficients: &[i32], element_name: &str) -> (sum: i128)
    requires
        coefficients@.len() >= entities@.len(),
        forall|i: int|
            0 <= i < entities@.len() ==> (#[trigger] entity_views(entities@)[i]).countable(),
    ensures
        sum == weighted(entity_views(entities@), ints(coefficients@), element_name@),
        -entities@.len() * term_bound() <= sum <= entities@.len() * term_bound(),
{
    let ghost views = entity_views(entities@);
    let ghost numbers = ints(coefficients@);
    let mut sum: i128 = 0;
    let mut i: usize = 0;
    while i < entities.len()
        invariant
            i <= entities@.len(),
            coefficients@.len() >= entities@.len(),
            views == entity_views(entities@),
            numbers == ints(coefficients@),
            forall|k: int| 0 <= k < entities@.len() ==> (#[trigger] views[k]).countable(),
            sum == weighted(views.take(i as int), numbers, element_name@),
            -i * term_bound() <= sum <= i * term_bound(),
        decreases entities@.len() - i,
    {
        proof {
            assert(views.take(i + 1).drop_last() =~= views.take(i as int));
            assert(views.take(i + 1).last() == views[i as int]);
            assert(views[i as int].countable());
            lemma_count_bound(ItemView::Entity(views[i as int]), element_name@);
        }
        let count = entities[i].count_element_by_name(element_name);
        let coefficient = coefficients[i];
        assert(-term_bound() <= (count as int) * (coefficient as int) <= term_bound())
            by (nonlinear_arith)
            requires
                -2147483647 <= count <= 2147483647,
                -2147483648 <= coefficient <= 2147483647,
        ;
        let term: i128 = (count as i128) * (coefficient as i128);
        assert(coefficient as int * count as int == count as int * coefficient as int)
            by (nonlinear_arith);
        assert(-(i + 1) * term_bound() <= sum + term <= (i + 1) * term_bound()) by (nonlinear_arith)
            requires
                -i * term_bound() <= sum <= i * term_bound(),
                -term_bound() <= term <= term_bound(),
        ;
        assert((i + 1) * term_bound() <= 18446744073709551616 * 4611686018427387904)
            by (nonlinear_arith)
            requires
                i + 1 <= 18446744073709551616,
                term_bound() == 4611686018427387904,
        ;
        sum = sum + term;
        i += 1;
    }
    assert(views.take(i as int) =~= views);
    sum
}

impl View for Balancer {
    type V = BalancerView;

    closed spec fn view(&self) -> BalancerView {
        BalancerView { equation: self.equation@, matrix: self.matrix@ }
    }
}

impl Balancer {
    /// The matrix has a row for each name of the equation and one more, a
    /// column for each entity and one more, and bounded entries; the
    /// equation has a reactant and a product, and counts that fit 32 bits.
    pub closed spec fn wf(&self) -> bool {
        &&& self.equation@.countable()
        &&& self.equation@.reactants.len() >= 1
        &&& self.equation@.products.len() >= 1
        &&& self.matrix.wf()
        &&& self.matrix.rows_count == self.equation@.names().len() + 1
        &&& self.matrix.columns_count == self.equation@.entities().len() + 1
    }

    /// The matrix is in reduced row echelon form.
    pub closed spec fn reduced(&self) -> bool {
        exists|rank: int|
            reduced_echelon(self.matrix@, self.matrix.columns_count as int, rank)
    }

    /// Balancer constructor.
    pub fn new(equation: &str) -> (balancer: Result<Balancer, ParserError>)
        ensures
            match balancer {
                Ok(found) => found.wf() && prepared(equation@) == Ok::<EquationView, ParserError>(
                    found@.equation,
                ) && found@.matrix == initial_matrix(found@.equation),
                Err(error) => prepared(equation@) == Err::<EquationView, ParserError>(error),
            },
    {
        let mut parser = Parser::new(equation);
        let equation = match parser.parse_equation() {
            Ok(x) => x,
            Err(e) => {
                return Err(e);
            },
        };
        if !equation.is_countable() {
            return Err(ParserError::NumberIsTooLarge);
        }
        let matrix = Balancer::get_initial_matrix(&equation);
        Ok(Balancer { equation, matrix })
    }

    /// The row of an element in the initial matrix.
    fn get_initial_row(equation: &Equation, element_name: &str) -> (row: Vec<i32>)
        requires
            equation@.countable(),
        ensures
            ints(row@) == initial_row(equation@, element_name@),
            bounded(ints(row@)),
            row@.len() == equation@.entities().len() + 1,
    {
        let ghost all = equation@.entities();
        let ghost goal = initial_row(equation@, element_name@);
        let mut row: Vec<i32> = Vec::new();
        let mut j: usize = 0;
        while j < equation.reactants.len()
            invariant
                j <= equation.reactants@.len(),
                equation@.countable(),
                all == equation@.entities(),
                goal == initial_row(equation@, element_name@),
                row@.len() == j,
                forall|k: int| 0 <= k < j ==> (#[trigger] row@[k]) as int == goal[k],
                forall|k: int| 0 <= k < j ==> -LIMIT <= #[trigger] row@[k] <= LIMIT,
            decreases equation.reactants@.len() - j,
        {
            proof {
                assert(all[j as int] == equation@.reactants[j as int]);
                assert(all[j as int].countable());
                lemma_count_bound(ItemView::Entity(equation@.reactants[j as int]), element_name@);
            }
            row.push(equation.reactants[j].count_element_by_name(element_name));
            j += 1;
        }
        let mut k: usize = 0;
        while k < equation.products.len()
            invariant
                k <= equation.products@.len(),
                equation@.countable(),
                all == equation@.entities(),
                goal == initial_row(equation@, element_name@),
                row@.len() == equation.reactants@.len() + k,
                forall|i: int| 0 <= i < row@.len() ==> (#[trigger] row@[i]) as int == goal[i],
                forall|i: int| 0 <= i < row@.len() ==> -LIMIT <= #[trigger] row@[i] <= LIMIT,
            decreases equation.products@.len() - k,
        {
            proof {
                assert(all[equation.reactants@.len() + k] == equation@.products[k as int]);
                assert(all[equation.reactants@.len() + k].countable());
                lemma_count_bound(ItemView::Entity(equation@.products[k as int]), element_name@);
            }
            row.push(-equation.products[k].count_element_by_name(element_name));
            k += 1;
        }
        row.push(0);
        assert(ints(row@) =~= goal);
        row
    }

    /// Returns an initial matrix.
    pub fn get_initial_matrix(equation: &Equation) -> (matrix: Matrix)
        requires
            equation@.countable(),
        ensures
            matrix.wf(),
            matrix.rows_count == equation@.names().len() + 1,
            matrix.columns_count == equation@.entities().len() + 1,
            matrix@ == initial_matrix(equation@),
    {
        let elements_names = equation.get_elements_names();
        let ghost names = equation@.names();
        assert(names.len() == elements_names@.len());
        let mut matrix = Matrix::new(
            elements_names.len() + 1,
            equation.reactants.len() + equation.products.len() + 1,
        );
        let mut i: usize = 0;
        while i < elements_names.len()
            invariant
                i <= elements_names@.len(),
                equation@.countable(),
                names == equation@.names(),
                names == strings(elements_names@),
                matrix.wf(),
                matrix.rows_count == names.len() + 1,
                matrix.columns_count == equation@.entities().len() + 1,
                forall|k: int|
                    0 <= k < i ==> (#[trigger] matrix@[k]) == initial_row(equation@, names[k]),
                forall|k: int|
                    i <= k < matrix.rows_count ==> (#[trigger] matrix@[k]) == zero_row(
                        matrix.columns_count as nat,
                    ),
            decreases elements_names@.len() - i,
        {
            let row = Balancer::get_initial_row(equation, elements_names[i].as_str());
            assert(names[i as int] == elements_names@[i as int]@);
            matrix.replace_row(i, row);
            i += 1;
        }
        assert(matrix@ =~= initial_matrix(equation@));
        matrix
    }

    /// Solves a matrix.
    pub fn solve_matrix(&mut self) -> (result: Result<(), BalancerError>)
        requires
            old(self).wf(),
        ensures
            final(self).wf(),
            final(self)@.equation == old(self)@.equation,
            match result {
                Ok(_) => final(self).reduced() && solved(
                    old(self)@.matrix,
                    old(self)@.equation.columns(),
                ) == Ok::<Grid, BalancerError>(final(self)@.matrix),
                Err(error) => solved(old(self)@.matrix, old(self)@.equation.columns())
                    == Err::<Grid, BalancerError>(error),
            },
            final(self)@.matrix == worked(old(self)@.matrix, old(self)@.equation.columns()),
    {
        let ghost start = self.matrix@;
        let ghost columns = self.matrix.columns_count as int;
        if !self.matrix.eliminate() {
            return Err(BalancerError::CoefficientsAreIncorrectlyPlaced);
        }
        let ghost first = self.matrix@;
        proof {
            lemma_eliminated(start, columns);
            lemma_boundary_from(first, 0);
        }
        let mut row_index: usize = 0;
        while row_index < self.matrix.rows_count && self.count_nonzero_coefficients_in_row(
            row_index,
        ) <= 1
            invariant
                self.wf(),
                self.matrix@ == first,
                row_index <= self.matrix.rows_count,
                boundary_from(first, row_index as int) == boundary_from(first, 0),
            decreases self.matrix.rows_count - row_index,
        {
            row_index += 1;
        }
        if row_index >= self.matrix.rows_count - 1 {
            return Err(BalancerError::AllCoefficientsAreZero);
        }
        proof {
            let rank = choose|rank: int| reduced_echelon(first, columns, rank);
            lemma_boundary_column(first, columns, rank, row_index as int);
        }
        let last = self.matrix.rows_count - 1;
        self.matrix.set(last, row_index, 1);
        self.matrix.set(last, self.matrix.columns_count - 1, 1);
        let ghost middle = self.matrix@;
        assert(middle =~= pinned(first, row_index as int));
        if !self.matrix.eliminate() {
            return Err(BalancerError::CoefficientsAreIncorrectlyPlaced);
        }
        proof {
            lemma_eliminated(middle, columns);
        }
        Ok(())
    }

    /// Counts the non-zero coefficients in row by its index.
    pub fn count_nonzero_coefficients_in_row(&self, row_index: usize) -> (count: usize)
        requires
            self.wf(),
            row_index < self@.matrix.len(),
        ensures
            count == nonzero_count(self@.matrix[row_index as int]),
    {
        let ghost row = self.matrix@[row_index as int];
        assert(row == ints(self.matrix.cells@[row_index as int]@));
        let mut count: usize = 0;
        let mut j: usize = 0;
        while j < self.matrix.columns_count
            invariant
                self.wf(),
                row_index < self.matrix.rows_count,
                row == ints(self.matrix.cells@[row_index as int]@),
                row.len() == self.matrix.columns_count,
                j <= self.matrix.columns_count,
                count <= j,
                count == nonzero_count(row.take(j as int)),
            decreases self.matrix.columns_count - j,
        {
            proof {
                assert(row.take(j + 1).drop_last() =~= row.take(j as int));
                assert(row.take(j + 1).last() == row[j as int]);
            }
            if self.matrix.cells[row_index][j] != 0 {
                count += 1;
            }
            j += 1;
        }
        assert(row.take(j as int) =~= row);
        count
    }

    /// Extracts the coefficients.
    pub fn extract_coefficients(&self) -> (result: Result<Vec<i32>, BalancerError>)
        requires
            self.wf(),
            self.reduced(),
        ensures
            match result {
                Ok(found) => extracted(self@.matrix, self@.equation.columns()) == Ok::<
                    Seq<int>,
                    BalancerError,
                >(ints(found@)),
                Err(error) => extracted(self@.matrix, self@.equation.columns()) == Err::<
                    Seq<int>,
                    BalancerError,
                >(error),
            },
    {
        let rows_count = self.matrix.rows_count;
        let columns_count = self.matrix.columns_count;
        let ghost m = self.matrix@;
        let ghost columns = columns_count as int;
        assert(rows_count < columns_count - 1 || m[columns - 2].len() == columns);
        if rows_count < columns_count - 1 || self.matrix.cells[columns_count
            - 2][columns_count - 2] == 0 {
            return Err(BalancerError::ReactionCanBeEqualizedInInfiniteNumberOfWays);
        }
        proof {
            let rank = choose|rank: int| reduced_echelon(m, columns, rank);
            assert forall|i: int| 0 <= i < columns - 1 implies (#[trigger] m[i])[i] > 0 by {
                lemma_diagonal(m, columns, rank, columns - 2, i);
            }
        }
        let mut least_common_multiple: i32 = 1;
        let mut i: usize = 0;
        while i < columns_count - 1
            invariant
                self.wf(),
                m == self.matrix@,
                columns_count == self.matrix.columns_count,
                rows_count == self.matrix.rows_count,
                rows_count >= columns_count - 1,
                columns_count >= 2,
                i <= columns_count - 1,
                forall|k: int| 0 <= k < columns_count - 1 ==> (#[trigger] m[k])[k] > 0,
                1 <= least_common_multiple <= LIMIT,
                least_common_multiple == diagonal_lcm(m, i as int),
            decreases columns_count - 1 - i,
        {
            assert(m[i as int].len() == columns_count);
            assert(m[i as int][i as int] > 0);
            proof {
                crate::solution::lemma_lcm_grows(
                    least_common_multiple as int,
                    m[i as int][i as int],
                );
            }
            let next = integer_lcm(
                least_common_multiple as i64,
                self.matrix.cells[i][i] as i64,
            );
            if next > LIMIT as i64 {
                proof {
                    lemma_diagonal_lcm_grows(m, i + 1, columns_count - 1);
                }
                return Err(BalancerError::CoefficientsAreIncorrectlyPlaced);
            }
            least_common_multiple = next as i32;
            i += 1;
        }
        let ghost goal = raw_coefficients(m, columns_count as int);
        let mut coefficients: Vec<i32> = Vec::new();
        let mut i: usize = 0;
        while i < columns_count - 1
            invariant
                self.wf(),
                m == self.matrix@,
                columns_count == self.matrix.columns_count,
                rows_count == self.matrix.rows_count,
                rows_count >= columns_count - 1,
                columns_count >= 2,
                i <= columns_count - 1,
                forall|k: int| 0 <= k < columns_count - 1 ==> (#[trigger] m[k])[k] > 0,
                1 <= least_common_multiple <= LIMIT,
                least_common_multiple == diagonal_lcm(m, columns_count - 1),
                goal == raw_coefficients(m, columns_count as int),
                coefficients@.len() == i,
                forall|k: int|
                    0 <= k < i ==> (#[trigger] coefficients@[k]) as int == goal[k] && -LIMIT
                        <= coefficients@[k] <= LIMIT,
            decreases columns_count - 1 - i,
        {
            assert(m[i as int].len() == columns_count);
            assert(m[i as int][i as int] > 0);
            let pivot = self.matrix.cells[i][i];
            let quotient = least_common_multiple / pivot;
            assert(0 <= quotient <= LIMIT) by (nonlinear_arith)
                requires
                    quotient == least_common_multiple as int / pivot as int,
                    1 <= least_common_multiple <= LIMIT,
                    pivot >= 1,
            ;
            let solution = self.matrix.cells[i][columns_count - 1];
            assert(-4611686018427387904 <= (quotient as int) * (solution as int)
                <= 4611686018427387904) by (nonlinear_arith)
                requires
                    0 <= quotient <= 2147483647,
                    -2147483648 <= solution <= 2147483647,
            ;
            let coefficient: i64 = (quotient as i64) * (solution as i64);
            assert(goal[i as int] == coefficient);
            if coefficient < -(LIMIT as i64) || coefficient > LIMIT as i64 {
                return Err(BalancerError::CoefficientsAreIncorrectlyPlaced);
            }
            coefficients.push(coefficient as i32);
            i += 1;
        }
        assert(ints(coefficients@) =~= goal);
        Ok(coefficients)
    }

    /// Checks the answer.
    pub fn check_answer(&self, coefficients: &[i32]) -> (result: Result<(), BalancerError>)
        requires
            self.wf(),
        ensures
            result == checked(self@.equation, ints(coefficients@)),
    {
        let reactants = &self.equation.reactants;
        let products = &self.equation.products;
        let ghost equation = self.equation@;
        let ghost numbers = ints(coefficients@);
        if reactants.len() + products.len() != coefficients.len() {
            return Err(BalancerError::MismatchInNumberOfCoefficients);
        }
        let mut is_zero = true;
        let mut i: usize = 0;
        while i < coefficients.len()
            invariant
                i <= coefficients@.len(),
                numbers == ints(coefficients@),
                is_zero == (forall|k: int| 0 <= k < i ==> numbers[k] == 0),
            decreases coefficients@.len() - i,
        {
            if coefficients[i] != 0 {
                assert(numbers[i as int] != 0);
                is_zero = false;
            }
            i += 1;
        }
        if is_zero {
            return Err(BalancerError::AllCoefficientsAreZero);
        }
        let reactants_count = reactants.len();
        let rest = slice_subrange(coefficients, reactants_count, coefficients.len());
        assert(ints(rest@) =~= numbers.skip(reactants_count as int));
        let elements_names = self.equation.get_elements_names();
        let ghost names = equation.names();
        proof {
            let all = equation.entities();
            assert forall|k: int| 0 <= k < reactants@.len() implies (#[trigger] entity_views(
                reactants@,
            )[k]).countable() by {
                assert(all[k] == entity_views(reactants@)[k]);
            }
            assert forall|k: int| 0 <= k < products@.len() implies (#[trigger] entity_views(
                products@,
            )[k]).countable() by {
                assert(all[k + reactants@.len()] == entity_views(products@)[k]);
            }
        }
        let mut i: usize = 0;
        while i < elements_names.len()
            invariant
                i <= elements_names@.len(),
                self.wf(),
                equation == self.equation@,
                reactants == &self.equation.reactants,
                products == &self.equation.products,
                names == equation.names(),
                names == strings(elements_names@),
                numbers == ints(coefficients@),
                !all_zero(numbers),
                equation.entities().len() == numbers.len(),
                ints(rest@) == numbers.skip(reactants@.len() as int),
                coefficients@.len() == reactants@.len() + products@.len(),
                rest@.len() == products@.len(),
                forall|k: int|
                    0 <= k < reactants@.len() ==> (#[trigger] entity_views(reactants@)[k]).countable(),
                forall|k: int|
                    0 <= k < products@.len() ==> (#[trigger] entity_views(products@)[k]).countable(),
                forall|k: int| 0 <= k < i ==> residual(equation, numbers, #[trigger] names[k]) == 0,
            decreases elements_names@.len() - i,
        {
            let name = elements_names[i].as_str();
            assert(names[i as int] == name@);
            let left = weighted_sum(reactants, coefficients, name);
            let right = weighted_sum(products, rest, name);
            if left != right {
                assert(residual(equation, numbers, names[i as int]) != 0);
                return Err(BalancerError::CoefficientsAreIncorrectlyPlaced);
            }
            i += 1;
        }
        Ok(())
    }

    /// Balances an equation.
    pub fn balance_equation(&mut self) -> (result: Result<String, BalancerError>)
        requires
            old(self).wf(),
        ensures
            final(self).wf(),
            final(self)@.equation == old(self)@.equation,
            match result {
                Ok(text) => balanced(old(self)@.equation, old(self)@.matrix) == Ok::<
                    Seq<char>,
                    BalancerError,
                >(text@),
                Err(error) => balanced(old(self)@.equation, old(self)@.matrix) == Err::<
                    Seq<char>,
                    BalancerError,
                >(error),
            },
            final(self)@.matrix == worked(old(self)@.matrix, old(self)@.equation.columns()),
    {
        if let Err(e) = self.solve_matrix() {
            return Err(e);
        }
        let coefficients = match self.extract_coefficients() {
            Ok(x) => x,
            Err(e) => {
                return Err(e);
            },
        };
        if let Err(e) = self.check_answer(coefficients.as_slice()) {
            return Err(e);
        }
        Ok(self.equation.format(coefficients.as_slice()))
    }
}

/// Balances the equation that a text holds.
pub fn balance(text: &str) -> (result: Result<String, Error>)
    ensures
        answers(text@, result),
{
    let mut balancer = match Balancer::new(text) {
        Ok(found) => found,
        Err(error) => {
            return Err(Error::Parser(error));
        },
    };
    match balancer.balance_equation() {
        Ok(found) => Ok(found),
        Err(error) => Err(Error::Balancer(error)),
    }
}

} // verus!
