use svd_compress::matrix::Matrix;

#[test]
fn from_vec_accepts_matching_length() {
    let m = Matrix::from_vec(2, 3, vec![1u8, 2, 3, 4, 5, 6]).unwrap();
    assert_eq!(m.rows(), 2);
    assert_eq!(m.cols(), 3);
    assert_eq!(m.cells(), &vec![1u8, 2, 3, 4, 5, 6]);
}

#[test]
fn from_vec_rejects_wrong_length() {
    assert!(Matrix::from_vec(2, 3, vec![1u8, 2, 3, 4, 5]).is_none());
    assert!(Matrix::from_vec(2, 3, vec![1u8, 2, 3, 4, 5, 6, 7]).is_none());
    assert!(Matrix::from_vec(0, 3, vec![1u8]).is_none());
}

#[test]
fn from_vec_rejects_a_shape_too_large_to_count() {
    assert!(Matrix::from_vec(usize::MAX, 2, Vec::<u8>::new()).is_none());
    assert!(Matrix::from_vec(usize::MAX, usize::MAX, vec![1u8]).is_none());
}

#[test]
fn from_vec_accepts_empty_shapes() {
    let m = Matrix::from_vec(0, 5, Vec::<i64>::new()).unwrap();
    assert_eq!(m.rows(), 0);
    assert_eq!(m.cols(), 5);
    assert!(m.cells().is_empty());
    let m = Matrix::from_vec(4, 0, Vec::<i64>::new()).unwrap();
    assert_eq!(m.rows(), 4);
    assert_eq!(m.cols(), 0);
}

#[test]
fn get_reads_row_by_row() {
    let m = Matrix::from_vec(2, 3, vec![1i64, 2, 3, 4, 5, 6]).unwrap();
    assert_eq!(m.get(0, 0), Some(1));
    assert_eq!(m.get(0, 2), Some(3));
    assert_eq!(m.get(1, 0), Some(4));
    assert_eq!(m.get(1, 2), Some(6));
}

#[test]
fn get_outside_the_matrix_is_none() {
    let m = Matrix::from_vec(2, 3, vec![1i64, 2, 3, 4, 5, 6]).unwrap();
    assert_eq!(m.get(2, 0), None);
    assert_eq!(m.get(0, 3), None);
    assert_eq!(m.get(1, 5), None);
    assert_eq!(m.get(usize::MAX, usize::MAX), None);
}

#[test]
fn into_cells_gives_the_cells_back() {
    let m = Matrix::from_vec(2, 2, vec![9i64, 8, 7, 6]).unwrap();
    assert_eq!(m.into_cells(), vec![9, 8, 7, 6]);
}

#[test]
fn leading_columns_keeps_the_start_of_each_row() {
    let m = Matrix::from_vec(2, 3, vec![1i64, 2, 3, 4, 5, 6]).unwrap();
    let two = m.leading_columns(2).unwrap();
    assert_eq!((two.rows(), two.cols()), (2, 2));
    assert_eq!(two.cells(), &vec![1, 2, 4, 5]);
    let one = m.leading_columns(1).unwrap();
    assert_eq!((one.rows(), one.cols()), (2, 1));
    assert_eq!(one.cells(), &vec![1, 4]);
}

#[test]
fn leading_columns_of_all_or_none() {
    let m = Matrix::from_vec(2, 3, vec![1i64, 2, 3, 4, 5, 6]).unwrap();
    let all = m.leading_columns(3).unwrap();
    assert_eq!((all.rows(), all.cols()), (2, 3));
    assert_eq!(all.cells(), m.cells());
    let none = m.leading_columns(0).unwrap();
    assert_eq!((none.rows(), none.cols()), (2, 0));
    assert!(none.cells().is_empty());
    assert!(m.leading_columns(4).is_none());
}

#[test]
fn leading_rows_keeps_the_first_rows() {
    let m = Matrix::from_vec(3, 2, vec![1i64, 2, 3, 4, 5, 6]).unwrap();
    let two = m.leading_rows(2).unwrap();
    assert_eq!((two.rows(), two.cols()), (2, 2));
    assert_eq!(two.cells(), &vec![1, 2, 3, 4]);
    let all = m.leading_rows(3).unwrap();
    assert_eq!(all.cells(), m.cells());
    let none = m.leading_rows(0).unwrap();
    assert_eq!((none.rows(), none.cols()), (0, 2));
    assert!(m.leading_rows(4).is_none());
}

#[test]
fn diagonal_puts_values_on_the_diagonal() {
    let d = Matrix::diagonal(&vec![7i64, 8, 9], 3, 0).unwrap();
    assert_eq!((d.rows(), d.cols()), (3, 3));
    assert_eq!(d.cells(), &vec![7, 0, 0, 0, 8, 0, 0, 0, 9]);
}

#[test]
fn diagonal_takes_only_the_first_values() {
    let d = Matrix::diagonal(&vec![7i64, 8, 9], 2, -1).unwrap();
    assert_eq!((d.rows(), d.cols()), (2, 2));
    assert_eq!(d.cells(), &vec![7, -1, -1, 8]);
    let empty = Matrix::diagonal(&vec![7i64, 8, 9], 0, 0).unwrap();
    assert_eq!((empty.rows(), empty.cols()), (0, 0));
}

#[test]
fn diagonal_needs_enough_values() {
    assert!(Matrix::diagonal(&vec![7i64, 8, 9], 4, 0).is_none());
    assert!(Matrix::diagonal(&Vec::<i64>::new(), 1, 0).is_none());
}
