use exact_simplex::matrix::Matrix;

#[test]
fn get() {
    let matrix: Matrix<i8> = Matrix::nones(1, 1);
    assert_eq!(matrix.see(0, 0), None);
}

#[test]
fn set() {
    let mut matrix: Matrix<i8> = Matrix::nones(3, 3);
    matrix.set(1, 1, Some(1i8));
    assert_eq!(matrix.get(1, 1), 1i8);
}

#[test]
fn matrix_add() {
    let mut matrix: Matrix<i8> = Matrix::nones(1, 1);
    matrix.add_row(vec![Some(2)]);
    matrix.add_col(vec![Some(1), Some(3)]);
    assert_eq!(
        vec![
            vec![matrix.see(0, 0), matrix.see(0, 1)],
            vec![matrix.see(1, 0), matrix.see(1, 1)]
        ],
        vec![vec![None, Some(1)], vec![Some(2), Some(3)]]
    );
}

#[test]
fn fill_and_dimensions() {
    let mut matrix: Matrix<u32> = Matrix::fill(2, 3, 7);
    assert_eq!((matrix.get_rows(), matrix.get_cols()), (2, 3));
    assert_eq!(matrix.get(1, 2), 7);
    matrix.set(1, 2, None);
    assert_eq!(matrix.see(1, 2), None);
    matrix.add_row(vec![Some(1), None, Some(2)]);
    matrix.add_col(vec![Some(4), Some(5), Some(6)]);
    assert_eq!((matrix.get_rows(), matrix.get_cols()), (3, 4));
    assert_eq!(matrix.see(2, 3), Some(6));
}
