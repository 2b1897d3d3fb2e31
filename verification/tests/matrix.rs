use linalg::{LinalgError, Matrix, Ratio, Scalar};

fn r(v: i64) -> Ratio {
    Ratio::from_int(v).unwrap()
}

fn q(n: i64, d: i64) -> Ratio {
    Ratio::new(n, d).unwrap()
}

fn mat(rows: Vec<Vec<i64>>) -> Matrix<Ratio> {
    Matrix::from(rows.into_iter().map(|row| row.into_iter().map(r).collect()).collect()).unwrap()
}

fn col(v: Vec<i64>) -> Vec<Ratio> {
    v.into_iter().map(r).collect()
}

#[test]
fn test_from() {
    let matrix = mat(vec![vec![1, 2], vec![3, 4]]);
    assert_eq!(matrix.get(0, 0), r(1));
    assert_eq!(matrix.get(0, 1), r(2));
    assert_eq!(matrix.get(1, 0), r(3));
    assert_eq!(matrix.get(1, 1), r(4));

    let column = Matrix::from_column(col(vec![1, 2])).unwrap();
    assert!(column.is_column());
    assert_eq!(column.get(0, 0), r(1));
    assert_eq!(column.get(1, 0), r(2));

    let line = Matrix::from_line(col(vec![1, 2])).unwrap();
    assert!(line.is_line());
    assert_eq!(line.get(0, 0), r(1));
    assert_eq!(line.get(0, 1), r(2));

    let diag = Matrix::from_diag(col(vec![1, 2])).unwrap();
    assert!(diag.is_diag());
    assert_eq!(diag.get(0, 0), r(1));
    assert_eq!(diag.get(1, 1), r(2));
}

#[test]
fn test_add() {
    let m1 = mat(vec![vec![1, 2], vec![3, 4]]);
    let m2 = mat(vec![vec![5, 6], vec![7, 8]]);
    let m3 = m1.add(&m2).unwrap();
    let expected_m3 = mat(vec![vec![6, 8], vec![10, 12]]);
    assert_eq!(m3, expected_m3);
}

#[test]
fn test_transpose() {
    let m1 = mat(vec![vec![1, 2], vec![3, 4]]);
    let m2 = m1.transpose();
    let expected_m2 = mat(vec![vec![1, 3], vec![2, 4]]);
    assert_eq!(m2, expected_m2);
}

#[test]
fn test_line_column() {
    let m1 = mat(vec![vec![1, 2], vec![3, 4]]);
    let c1 = m1.column(0);
    let expected_c1 = mat(vec![vec![1], vec![3]]);
    assert_eq!(c1, expected_c1);
    let l2 = m1.line(1);
    let expected_l2 = mat(vec![vec![3, 4]]);
    assert_eq!(l2, expected_l2);
}

#[test]
fn test_mul_constant() {
    let m1 = mat(vec![vec![1, 2], vec![3, 4]]);
    let m2 = m1.scale(r(2)).unwrap();
    let expected_m2 = mat(vec![vec![2, 4], vec![6, 8]]);
    assert_eq!(m2, expected_m2);
}

#[test]
fn test_triangular_checks() {
    let m1 = mat(vec![vec![1, 2], vec![3, 4]]);
    assert!(!m1.is_lower_triangular());
    assert!(!m1.is_upper_triangular());

    let l1 = mat(vec![vec![1, 0], vec![3, 4]]);
    assert!(l1.is_lower_triangular());
    assert!(!l1.is_upper_triangular());

    let u1 = mat(vec![vec![1, 2], vec![0, 4]]);
    assert!(!u1.is_lower_triangular());
    assert!(u1.is_upper_triangular());
}

#[test]
fn product_of_two_by_three_and_three_by_two() {
    let a = mat(vec![vec![1, 2, 3], vec![4, 5, 6]]);
    let b = mat(vec![vec![7, 8], vec![9, 10], vec![11, 12]]);
    let c = a.mul(&b).unwrap();
    assert_eq!(c, mat(vec![vec![58, 64], vec![139, 154]]));
    assert_eq!(a.mul(&a), Err(LinalgError::Dimension));
}

#[test]
fn difference_and_shape_fault() {
    let a = mat(vec![vec![5, 6], vec![7, 8]]);
    let b = mat(vec![vec![1, 2], vec![3, 4]]);
    assert_eq!(a.sub(&b).unwrap(), mat(vec![vec![4, 4], vec![4, 4]]));
    let c = mat(vec![vec![1, 2, 3]]);
    assert_eq!(a.sub(&c), Err(LinalgError::Dimension));
    assert_eq!(a.add(&c), Err(LinalgError::Dimension));
    assert_eq!(a.all_close(&c), Err(LinalgError::Dimension));
}

#[test]
fn constructors_reject_empty_and_ragged_input() {
    assert_eq!(Matrix::<Ratio>::new(0, 3), Err(LinalgError::Dimension));
    assert_eq!(Matrix::<Ratio>::new(3, 0), Err(LinalgError::Dimension));
    assert_eq!(Matrix::<Ratio>::new(usize::MAX, 2), Err(LinalgError::Dimension));
    assert_eq!(Matrix::<Ratio>::id(0), Err(LinalgError::Dimension));
    assert_eq!(Matrix::<Ratio>::new_column(0), Err(LinalgError::Dimension));
    assert_eq!(Matrix::<Ratio>::new_line(0), Err(LinalgError::Dimension));
    assert_eq!(Matrix::<Ratio>::new_diag(0), Err(LinalgError::Dimension));
    assert_eq!(Matrix::<Ratio>::from_column(vec![]), Err(LinalgError::Dimension));
    assert_eq!(Matrix::<Ratio>::from_line(vec![]), Err(LinalgError::Dimension));
    assert_eq!(Matrix::<Ratio>::from_diag(vec![]), Err(LinalgError::Dimension));
    assert_eq!(Matrix::<Ratio>::from(vec![]), Err(LinalgError::Dimension));
    assert_eq!(Matrix::<Ratio>::from(vec![vec![], vec![]]), Err(LinalgError::Dimension));
    assert_eq!(
        Matrix::from(vec![vec![r(1), r(2)], vec![r(3)]]),
        Err(LinalgError::Ragged)
    );
    assert_eq!(Matrix::from(vec![vec![], vec![r(3)]]), Err(LinalgError::Ragged));
}

#[test]
fn zero_matrices_and_identity() {
    let z = Matrix::<Ratio>::new(2, 3).unwrap();
    assert_eq!(z, mat(vec![vec![0, 0, 0], vec![0, 0, 0]]));
    assert_eq!(z.rows(), 2);
    assert_eq!(z.cols(), 3);
    assert_eq!(Matrix::<Ratio>::new_column(2).unwrap(), mat(vec![vec![0], vec![0]]));
    assert_eq!(Matrix::<Ratio>::new_line(2).unwrap(), mat(vec![vec![0, 0]]));
    assert_eq!(Matrix::<Ratio>::new_diag(2).unwrap(), mat(vec![vec![0, 0], vec![0, 0]]));
    let id = Matrix::<Ratio>::id(3).unwrap();
    assert_eq!(id, mat(vec![vec![1, 0, 0], vec![0, 1, 0], vec![0, 0, 1]]));
    assert_eq!(Matrix::filled(2, 2, r(7)).unwrap(), mat(vec![vec![7, 7], vec![7, 7]]));
}

#[test]
fn entries_are_written_and_read_in_place() {
    let mut m = mat(vec![vec![1, 2, 3], vec![4, 5, 6]]);
    m.set(1, 0, r(9));
    assert_eq!(m, mat(vec![vec![1, 2, 3], vec![9, 5, 6]]));
    assert_eq!(m.get(1, 2), r(6));
    let mut line = mat(vec![vec![1, 2, 3]]);
    assert_eq!(line.at(2), r(3));
    line.set_at(1, r(8));
    assert_eq!(line, mat(vec![vec![1, 8, 3]]));
    let mut column = mat(vec![vec![1], vec![2]]);
    assert_eq!(column.at(1), r(2));
    column.set_at(0, r(5));
    assert_eq!(column, mat(vec![vec![5], vec![2]]));
    let single = mat(vec![vec![4]]);
    assert_eq!(single.at(0), r(4));
}

#[test]
fn rows_and_columns_are_replaced_only_by_fitting_ones() {
    let mut m = mat(vec![vec![1, 2], vec![3, 4], vec![5, 6]]);
    assert_eq!(m.set_line(1, mat(vec![vec![7, 8]])), Ok(()));
    assert_eq!(m, mat(vec![vec![1, 2], vec![7, 8], vec![5, 6]]));
    assert_eq!(m.set_column(0, mat(vec![vec![9], vec![10], vec![11]])), Ok(()));
    assert_eq!(m, mat(vec![vec![9, 2], vec![10, 8], vec![11, 6]]));
    let kept = m.duplicate();
    assert_eq!(m.set_line(3, mat(vec![vec![7, 8]])), Err(LinalgError::Dimension));
    assert_eq!(m.set_line(0, mat(vec![vec![7, 8, 9]])), Err(LinalgError::Dimension));
    assert_eq!(m.set_line(0, mat(vec![vec![7], vec![8]])), Err(LinalgError::Dimension));
    assert_eq!(m.set_column(2, mat(vec![vec![1], vec![1], vec![1]])), Err(LinalgError::Dimension));
    assert_eq!(m.set_column(0, mat(vec![vec![1], vec![1]])), Err(LinalgError::Dimension));
    assert_eq!(m.set_column(0, mat(vec![vec![1, 1, 1]])), Err(LinalgError::Dimension));
    assert_eq!(m, kept);
}

#[test]
fn rows_are_exchanged() {
    let mut m = mat(vec![vec![1, 2], vec![3, 4], vec![5, 6]]);
    m.swap_lines(0, 2);
    assert_eq!(m, mat(vec![vec![5, 6], vec![3, 4], vec![1, 2]]));
    m.swap_lines(1, 1);
    assert_eq!(m, mat(vec![vec![5, 6], vec![3, 4], vec![1, 2]]));
}

#[test]
fn transpose_of_a_rectangle_and_its_short_name() {
    let m = mat(vec![vec![1, 2, 3], vec![4, 5, 6]]);
    assert_eq!(m.t(), mat(vec![vec![1, 4], vec![2, 5], vec![3, 6]]));
    assert_eq!(m.t().t(), m);
    assert!(!m.is_square());
    assert!(m.t().mul(&m).unwrap().is_square());
}

#[test]
fn a_single_entry_is_diagonal_and_triangular_both_ways() {
    let m = mat(vec![vec![5]]);
    assert!(m.is_diag());
    assert!(m.is_lower_triangular());
    assert!(m.is_upper_triangular());
    assert!(m.is_column());
    assert!(m.is_line());
}

#[test]
fn a_rectangle_is_neither_diagonal_nor_triangular() {
    let m = mat(vec![vec![1, 0, 0], vec![0, 1, 0]]);
    assert!(!m.is_diag());
    assert!(!m.is_lower_triangular());
    assert!(!m.is_upper_triangular());
}

#[test]
fn closeness_has_a_tolerance_of_one_thousandth() {
    let a = Matrix::from(vec![vec![q(1, 1), q(1, 2)]]).unwrap();
    let near = Matrix::from(vec![vec![q(1001, 1000), q(499, 1000)]]).unwrap();
    let far = Matrix::from(vec![vec![q(1002, 1000), q(1, 2)]]).unwrap();
    assert_eq!(a.all_close(&near), Ok(true));
    assert_eq!(near.all_close(&a), Ok(true));
    assert_eq!(a.all_close(&far), Ok(false));
    assert_eq!(a.all_close(&a), Ok(true));
}

#[test]
fn scaling_multiplies_every_entry() {
    let m = Matrix::from(vec![vec![q(1, 2), q(-3, 4)]]).unwrap();
    let s = m.scale(q(2, 3)).unwrap();
    assert_eq!(s.get(0, 0), q(1, 3));
    assert_eq!(s.get(0, 1), q(-1, 2));
}

#[test]
fn arithmetic_fault_is_reported() {
    let big = Ratio::from_int(i64::MAX).unwrap();
    let m = Matrix::from(vec![vec![big]]).unwrap();
    assert_eq!(m.add(&m), Err(LinalgError::Arithmetic));
    assert_eq!(m.mul(&m), Err(LinalgError::Arithmetic));
    assert_eq!(m.scale(r(2)), Err(LinalgError::Arithmetic));
    let z = Matrix::from(vec![vec![Ratio::zero()]]).unwrap();
    assert_eq!(z.sub(&m).unwrap().sub(&m), Err(LinalgError::Arithmetic));
}
