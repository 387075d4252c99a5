use chem_balancer::matrix::Matrix;
use itertools::Itertools;

/// Formats a matrix.
pub fn format_matrix(matrix: &Matrix) -> String {
    let mut result = "[".to_string();

    for i in 0..matrix.rows_count {
        if i != 0 {
            result += ",\n";
        }

        result += &["[", &matrix.cells[i].iter().join(", "), "]"].join("");
    }

    result + "]"
}

fn matrix_of(cells: Vec<Vec<i32>>) -> Matrix {
    let mut matrix = Matrix::new(cells.len(), cells[0].len());
    matrix.cells = cells;
    matrix
}

#[test]
fn matrix_test_new() {
    let matrix = Matrix::new(2, 3);
    assert_eq!(matrix.cells, vec![vec![0; 3]; 2]);
    assert_eq!(matrix.rows_count, 2);
    assert_eq!(matrix.columns_count, 3);
}

#[test]
fn test_add_rows() {
    assert_eq!(Matrix::add_rows(&[1, 2, 3], &[4, 5, 6]), [5, 7, 9]);
}

#[test]
fn test_get_gcd_of_row() {
    assert_eq!(Matrix::get_gcd_of_row(&[4, 8, 12]), 4);
}

#[test]
fn test_simplify_row() {
    assert_eq!(Matrix::simplify_row(&[0, -2, 2, 4]), [0, 1, -1, -2]);
}

#[test]
fn test_eliminate() {
    let mut matrix = Matrix::new(4, 4);
    matrix.cells = vec![
        vec![2, 0, -2, 0],
        vec![0, 2, -1, 0],
        vec![0, 0, 0, 0],
        vec![0, 0, 0, 0],
    ];
    matrix.eliminate();
    assert_eq!(
        format_matrix(&matrix),
        "[[1, 0, -1, 0],\n[0, 2, -1, 0],\n[0, 0, 0, 0],\n[0, 0, 0, 0]]"
    );
}

#[test]
fn gcd_of_row_takes_magnitudes() {
    assert_eq!(Matrix::get_gcd_of_row(&[-4, 6, -10]), 2);
    assert_eq!(Matrix::get_gcd_of_row(&[0, 0, 0]), 0);
    assert_eq!(Matrix::get_gcd_of_row(&[0, -7, 0]), 7);
    assert_eq!(Matrix::get_gcd_of_row(&[]), 0);
    assert_eq!(Matrix::get_gcd_of_row(&[3, 5]), 1);
    assert_eq!(Matrix::get_gcd_of_row(&[2147483647, -2147483647]), 2147483647);
}

#[test]
fn simplify_row_leaves_zeros_and_lowest_terms() {
    assert_eq!(Matrix::simplify_row(&[0, 0, 0]), [0, 0, 0]);
    assert_eq!(Matrix::simplify_row(&[3, 5]), [3, 5]);
    assert_eq!(Matrix::simplify_row(&[-3, 5]), [3, -5]);
    assert_eq!(Matrix::simplify_row(&[6, -9, 0, 12]), [2, -3, 0, 4]);
    assert_eq!(Matrix::simplify_row(&[]), Vec::<i32>::new());
    assert_eq!(Matrix::simplify_row(&[-2147483647, 0]), [1, 0]);
}

#[test]
fn add_rows_of_no_entries() {
    assert_eq!(Matrix::add_rows(&[], &[]), Vec::<i32>::new());
    assert_eq!(Matrix::add_rows(&[2147483647, -5], &[-2147483647, 5]), [0, 0]);
}

#[test]
fn set_changes_one_cell() {
    let mut matrix = Matrix::new(2, 2);
    matrix.set(1, 0, 7);
    assert_eq!(matrix.cells, vec![vec![0, 0], vec![7, 0]]);
    matrix.replace_row(0, vec![1, 2]);
    assert_eq!(matrix.cells, vec![vec![1, 2], vec![7, 0]]);
}

#[test]
fn eliminate_exchanges_rows_and_clears_both_ways() {
    let mut matrix = matrix_of(vec![vec![0, 2, 4], vec![3, 6, 9], vec![1, 1, 1]]);
    assert!(matrix.eliminate());
    assert_eq!(matrix.cells, vec![vec![1, 0, -1], vec![0, 1, 2], vec![0, 0, 0]]);
    let mut matrix = matrix_of(vec![vec![0, 2, 4], vec![3, 6, 9], vec![1, 1, 2]]);
    assert!(matrix.eliminate());
    assert_eq!(matrix.cells, vec![vec![1, 0, 0], vec![0, 1, 0], vec![0, 0, 1]]);
}

#[test]
fn eliminate_skips_a_column_without_pivot() {
    let mut matrix = matrix_of(vec![vec![0, 0, 2, 4], vec![0, 0, 1, 3], vec![0, 0, 0, 0]]);
    assert!(matrix.eliminate());
    assert_eq!(matrix.cells, vec![vec![0, 0, 1, 0], vec![0, 0, 0, 1], vec![0, 0, 0, 0]]);
}

#[test]
fn eliminate_keeps_integer_entries() {
    let mut matrix = matrix_of(vec![vec![2, 3, 5], vec![4, 1, 7]]);
    assert!(matrix.eliminate());
    assert_eq!(matrix.cells, vec![vec![5, 0, 8], vec![0, 5, 3]]);
}

#[test]
fn eliminate_reports_an_entry_out_of_bounds() {
    let mut matrix = matrix_of(vec![vec![2147483647, 2147483646], vec![2147483646, 2147483645]]);
    assert!(!matrix.eliminate());
    assert_eq!(matrix.rows_count, 2);
    assert_eq!(matrix.columns_count, 2);
    assert_eq!(
        matrix.cells,
        vec![vec![2147483647, 2147483646], vec![2147483646, 2147483645]]
    );
    let mut matrix = matrix_of(vec![vec![2, 4], vec![2147483647, 2147483646], vec![3, 1]]);
    assert!(!matrix.eliminate());
    assert_eq!(matrix.cells, vec![vec![2, 4], vec![2147483647, 2147483646], vec![3, 1]]);
}

#[test]
fn eliminate_without_rows_or_columns() {
    let mut matrix = Matrix::new(0, 3);
    assert!(matrix.eliminate());
    assert!(matrix.cells.is_empty());
    let mut matrix = Matrix::new(2, 0);
    assert!(matrix.eliminate());
    assert_eq!(matrix.cells, vec![Vec::<i32>::new(), Vec::<i32>::new()]);
}

#[test]
fn a_second_elimination_changes_nothing() {
    for cells in [
        vec![vec![2, 0, -2, 0], vec![0, 2, -1, 0], vec![0, 0, 0, 0], vec![0, 0, 0, 0]],
        vec![vec![0, 2, 4], vec![3, 6, 9], vec![1, 1, 1]],
        vec![vec![2, 3, 5], vec![4, 1, 7]],
        vec![vec![0, 0, 2, 4], vec![0, 0, 1, 3], vec![0, 0, 0, 0]],
        vec![vec![6, -4, 2, 0, 8], vec![0, 0, 0, 0, 0], vec![3, 1, 1, 1, 1], vec![9, 9, 0, 3, 6]],
    ] {
        let mut matrix = matrix_of(cells);
        assert!(matrix.eliminate());
        let once = matrix.cells.clone();
        assert!(matrix.eliminate());
        assert_eq!(matrix.cells, once);
    }
}
