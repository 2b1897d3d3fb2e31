use linalg::{
    find_pu, find_u, gaxpy_column, gaxpy_line, invert, lu_fact, solves_diag,
    solves_lower_triangular, solves_lower_triangular_mat, solves_upper_triangular, LinalgError,
    Matrix, Ratio,
};

fn r(v: i64) -> Ratio {
    Ratio::from_int(v).unwrap()
}

fn q(n: i64, d: i64) -> Ratio {
    Ratio::new(n, d).unwrap()
}

fn mat(rows: Vec<Vec<i64>>) -> Matrix<Ratio> {
    Matrix::from(rows.into_iter().map(|row| row.into_iter().map(r).collect()).collect()).unwrap()
}

fn column(v: Vec<i64>) -> Matrix<Ratio> {
    Matrix::from_column(v.into_iter().map(r).collect()).unwrap()
}

fn diag(v: Vec<i64>) -> Matrix<Ratio> {
    Matrix::from_diag(v.into_iter().map(r).collect()).unwrap()
}

#[test]
fn test_solves_diag() {
    let d = diag(vec![1, 2, 3, 4]);
    let b = column(vec![5, 6, 7, 8]);
    let x = solves_diag(&d, &b).unwrap();
    let b2 = d.mul(&x).unwrap();
    assert!(b.all_close(&b2).unwrap());
}

#[test]
fn diagonal_solve_gives_the_exact_quotients() {
    let d = diag(vec![1, 2, 3, 4]);
    let b = column(vec![5, 6, 7, 8]);
    let x = solves_diag(&d, &b).unwrap();
    assert_eq!(x.get(0, 0), r(5));
    assert_eq!(x.get(1, 0), r(3));
    assert_eq!(x.get(2, 0), q(7, 3));
    assert_eq!(x.get(3, 0), r(2));
    assert_eq!(d.mul(&x).unwrap(), b);
}

#[test]
fn test_gaxpy_line() {
    let a = mat(vec![vec![1, 2], vec![3, 4]]);
    let x = column(vec![5, 6]);
    let mut y = column(vec![7, 8]);
    gaxpy_line(a, &x, &mut y).unwrap();
    let expected_y = column(vec![24, 47]);
    assert_eq!(y, expected_y);
}

#[test]
fn test_gaxpy_column() {
    let a = mat(vec![vec![1, 2], vec![3, 4]]);
    let x = column(vec![5, 6]);
    let mut y = column(vec![7, 8]);
    gaxpy_column(a, &x, &mut y).unwrap();
    let expected_y = column(vec![24, 47]);
    assert_eq!(y, expected_y);
}

#[test]
fn test_u() {
    let a = mat(vec![vec![-1, -1, -1], vec![-1, 1, -1], vec![1, 2, 2]]);
    let u = find_u(&a).unwrap();
    println!("{u:?}");
    assert_eq!(u, mat(vec![vec![-1, -1, -1], vec![0, 2, 0], vec![0, 0, 1]]));
}

#[test]
fn test_pu() {
    let a = mat(vec![vec![3, 17, 10], vec![2, 4, -2], vec![6, 18, -12]]);
    let u = find_pu(&a).unwrap();
    println!("{u:?}");
    assert_eq!(u.0, vec![2, 2]);
    assert_eq!(u.1, mat(vec![vec![6, 18, -12], vec![0, 8, 16], vec![0, 0, 6]]));
}

#[test]
fn test_solves_lower_triangular() {
    let l = mat(vec![vec![1, 0, 0], vec![2, 3, 0], vec![4, 5, 6]]);
    let b = column(vec![7, 8, 9]);
    let x = solves_lower_triangular(&l, &b).unwrap();
    let b2 = l.mul(&x).unwrap();
    assert!(b.all_close(&b2).unwrap());
}

#[test]
fn test_solves_lower_triangular_mat() {
    let l = mat(vec![vec![1, 0, 0], vec![2, 3, 0], vec![4, 5, 6]]);
    let b = column(vec![7, 8, 9]);
    let x = solves_lower_triangular_mat(&l, &b).unwrap();
    let b2 = l.mul(&x).unwrap();
    assert!(b.all_close(&b2).unwrap());
}

#[test]
fn test_solves_upper_triangular() {
    let u = mat(vec![vec![1, 2], vec![0, 3]]);
    let b = column(vec![4, 5]);
    let x = solves_upper_triangular(&u, &b).unwrap();
    let b2 = u.mul(&x).unwrap();
    println!("{b2:?}");
    assert!(b.all_close(&b2).unwrap());
}

#[test]
fn test_inv() {
    let l = mat(vec![vec![1, 0, 0], vec![2, 3, 0], vec![4, 5, 6]]);
    let inv = invert(&l).unwrap();
    let prod = l.mul(&inv).unwrap();
    let id = Matrix::id(3).unwrap();
    assert!(prod.all_close(&id).unwrap());
}

#[test]
fn forward_substitution_gives_the_exact_solution() {
    let l = mat(vec![vec![1, 0, 0], vec![2, 3, 0], vec![4, 5, 6]]);
    let b = column(vec![7, 8, 9]);
    let x = solves_lower_triangular(&l, &b).unwrap();
    assert_eq!(x.get(0, 0), r(7));
    assert_eq!(x.get(1, 0), r(-2));
    assert_eq!(x.get(2, 0), q(-3, 2));
    assert_eq!(l.mul(&x).unwrap(), b);
}

#[test]
fn both_lower_solvers_agree() {
    let l = mat(vec![vec![2, 0, 0], vec![-1, 3, 0], vec![4, 5, -6]]);
    let b = column(vec![1, 2, 3]);
    let x = solves_lower_triangular(&l, &b).unwrap();
    let y = solves_lower_triangular_mat(&l, &b).unwrap();
    assert_eq!(x, y);
    assert_eq!(x.get(0, 0), q(1, 2));
    assert_eq!(x.get(1, 0), q(5, 6));
    assert_eq!(x.get(2, 0), q(19, 36));
}

#[test]
fn backward_substitution_gives_the_exact_solution() {
    let u = mat(vec![vec![1, 2], vec![0, 3]]);
    let b = column(vec![4, 5]);
    let x = solves_upper_triangular(&u, &b).unwrap();
    assert_eq!(x.get(0, 0), q(2, 3));
    assert_eq!(x.get(1, 0), q(5, 3));
    let u3 = mat(vec![vec![2, 1, -1], vec![0, 4, 2], vec![0, 0, 5]]);
    let b3 = column(vec![3, 8, 10]);
    let x3 = solves_upper_triangular(&u3, &b3).unwrap();
    assert_eq!(x3.get(2, 0), r(2));
    assert_eq!(x3.get(1, 0), r(1));
    assert_eq!(x3.get(0, 0), r(2));
    assert_eq!(u3.mul(&x3).unwrap(), b3);
}

#[test]
fn inverse_of_a_lower_triangle_is_exact() {
    let l = mat(vec![vec![1, 0, 0], vec![2, 3, 0], vec![4, 5, 6]]);
    let inv = invert(&l).unwrap();
    assert_eq!(inv.get(0, 0), r(1));
    assert_eq!(inv.get(1, 0), q(-2, 3));
    assert_eq!(inv.get(1, 1), q(1, 3));
    assert_eq!(inv.get(2, 0), q(-1, 9));
    assert_eq!(inv.get(2, 1), q(-5, 18));
    assert_eq!(inv.get(2, 2), q(1, 6));
    assert_eq!(inv.get(0, 1), r(0));
    assert_eq!(inv.get(0, 2), r(0));
    assert_eq!(inv.get(1, 2), r(0));
    let id = Matrix::id(3).unwrap();
    assert_eq!(l.mul(&inv).unwrap(), id);
    assert_eq!(inv.mul(&l).unwrap(), id);
}

#[test]
fn solvers_handle_a_single_unknown() {
    let m = mat(vec![vec![4]]);
    let b = column(vec![2]);
    let half = Matrix::from(vec![vec![q(1, 2)]]).unwrap();
    assert_eq!(solves_diag(&m, &b).unwrap(), half);
    assert_eq!(solves_lower_triangular(&m, &b).unwrap(), half);
    assert_eq!(solves_lower_triangular_mat(&m, &b).unwrap(), half);
    assert_eq!(solves_upper_triangular(&m, &b).unwrap(), half);
    assert_eq!(invert(&m).unwrap(), Matrix::from(vec![vec![q(1, 4)]]).unwrap());
    assert_eq!(find_u(&m).unwrap(), m);
    let (rows, u) = find_pu(&m).unwrap();
    assert!(rows.is_empty());
    assert_eq!(u, m);
    let (l, u) = lu_fact(&m).unwrap();
    assert_eq!(l, mat(vec![vec![1]]));
    assert_eq!(u, m);
}

#[test]
fn solvers_reject_the_wrong_structure() {
    let full = mat(vec![vec![1, 2], vec![3, 4]]);
    let b = column(vec![1, 1]);
    assert_eq!(solves_diag(&full, &b), Err(LinalgError::Structure));
    assert_eq!(solves_lower_triangular(&full, &b), Err(LinalgError::Structure));
    assert_eq!(solves_lower_triangular_mat(&full, &b), Err(LinalgError::Structure));
    assert_eq!(solves_upper_triangular(&full, &b), Err(LinalgError::Structure));
    assert_eq!(invert(&full), Err(LinalgError::Structure));
    let wide = mat(vec![vec![1, 0, 0], vec![0, 1, 0]]);
    assert_eq!(solves_diag(&wide, &b), Err(LinalgError::Structure));
    assert_eq!(invert(&wide), Err(LinalgError::Structure));
}

#[test]
fn solvers_reject_a_right_hand_side_of_the_wrong_shape() {
    let d = diag(vec![1, 2]);
    let long = column(vec![1, 2, 3]);
    let wide = mat(vec![vec![1, 2], vec![3, 4]]);
    assert_eq!(solves_diag(&d, &long), Err(LinalgError::Dimension));
    assert_eq!(solves_diag(&d, &wide), Err(LinalgError::Dimension));
    assert_eq!(solves_lower_triangular(&d, &long), Err(LinalgError::Dimension));
    assert_eq!(solves_lower_triangular(&d, &wide), Err(LinalgError::Dimension));
    assert_eq!(solves_lower_triangular_mat(&d, &long), Err(LinalgError::Dimension));
    assert_eq!(solves_upper_triangular(&d, &wide), Err(LinalgError::Dimension));
}

#[test]
fn solvers_report_a_zero_on_the_diagonal() {
    let d = diag(vec![1, 0]);
    let b = column(vec![1, 1]);
    assert_eq!(solves_diag(&d, &b), Err(LinalgError::Singular));
    assert_eq!(solves_lower_triangular(&d, &b), Err(LinalgError::Singular));
    assert_eq!(solves_lower_triangular_mat(&d, &b), Err(LinalgError::Singular));
    assert_eq!(solves_upper_triangular(&d, &b), Err(LinalgError::Singular));
    assert_eq!(invert(&d), Err(LinalgError::Singular));
}

#[test]
fn solvers_report_an_overflow() {
    let big = Ratio::from_int(i64::MAX).unwrap();
    let tiny = Ratio::new(1, i64::MAX).unwrap();
    let d = Matrix::from(vec![vec![tiny]]).unwrap();
    let b = Matrix::from(vec![vec![big]]).unwrap();
    assert_eq!(solves_diag(&d, &b), Err(LinalgError::Arithmetic));
    assert_eq!(solves_lower_triangular(&d, &b), Err(LinalgError::Arithmetic));
    assert_eq!(solves_upper_triangular(&d, &b), Err(LinalgError::Arithmetic));
    assert_eq!(solves_lower_triangular_mat(&d, &b), Err(LinalgError::Arithmetic));
}

#[test]
fn elimination_without_exchange_stops_at_a_zero_pivot() {
    let a = mat(vec![vec![0, 1], vec![1, 1]]);
    assert_eq!(find_u(&a), Err(LinalgError::Singular));
    assert_eq!(lu_fact(&a), Err(LinalgError::Singular));
    let (rows, u) = find_pu(&a).unwrap();
    assert_eq!(rows, vec![1]);
    assert_eq!(u, mat(vec![vec![1, 1], vec![0, 1]]));
}

#[test]
fn elimination_rejects_a_rectangle() {
    let a = mat(vec![vec![1, 2, 3], vec![4, 5, 6]]);
    assert_eq!(find_u(&a), Err(LinalgError::Dimension));
    assert_eq!(find_pu(&a), Err(LinalgError::Dimension));
    assert_eq!(lu_fact(&a), Err(LinalgError::Dimension));
}

#[test]
fn pivoting_reports_a_column_of_zeros() {
    let a = mat(vec![vec![0, 1], vec![0, 2]]);
    assert_eq!(find_pu(&a), Err(LinalgError::Singular));
}

#[test]
fn pivoting_keeps_the_earlier_row_on_a_tie() {
    let a = mat(vec![vec![1, 2, 3], vec![4, 5, 6], vec![4, 9, 1]]);
    let (rows, u) = find_pu(&a).unwrap();
    assert_eq!(rows[0], 1);
    assert_eq!(rows.len(), 2);
    assert!(u.is_upper_triangular());
    assert_eq!(u.get(0, 0), r(4));
}

#[test]
fn pivoting_takes_the_running_maximum() {
    let a = mat(vec![vec![1, 0, 0], vec![3, 1, 0], vec![2, 0, 1]]);
    let (rows, u) = find_pu(&a).unwrap();
    assert_eq!(rows[0], 1);
    assert!(u.is_upper_triangular());
    for (k, row) in rows.iter().enumerate() {
        assert!(k <= *row && *row < 3);
    }
}

#[test]
fn factors_multiply_back_to_the_matrix() {
    let a = mat(vec![vec![2, 1, 1], vec![4, 3, 3], vec![8, 7, 9]]);
    let (l, u) = lu_fact(&a).unwrap();
    assert_eq!(l, mat(vec![vec![1, 0, 0], vec![2, 1, 0], vec![4, 3, 1]]));
    assert_eq!(u, mat(vec![vec![2, 1, 1], vec![0, 1, 1], vec![0, 0, 2]]));
    assert!(l.is_lower_triangular());
    assert!(u.is_upper_triangular());
    assert_eq!(l.mul(&u).unwrap(), a);
    assert_eq!(find_u(&a).unwrap(), u);
}

#[test]
fn factorization_rejects_a_zero_on_the_diagonal() {
    let a = mat(vec![vec![1, 1], vec![1, 0]]);
    assert_eq!(lu_fact(&a), Err(LinalgError::Singular));
    assert_eq!(find_u(&a).unwrap(), mat(vec![vec![1, 1], vec![0, -1]]));
}

#[test]
fn both_updates_agree_with_the_product_and_sum() {
    let a = mat(vec![vec![1, 2, 3], vec![4, 5, 6]]);
    let x = mat(vec![vec![1, -1], vec![2, 0], vec![-3, 4]]);
    let y = mat(vec![vec![10, 20], vec![30, 40]]);
    let mut by_line = y.duplicate();
    let mut by_column = y.duplicate();
    gaxpy_line(a.duplicate(), &x, &mut by_line).unwrap();
    gaxpy_column(a.duplicate(), &x, &mut by_column).unwrap();
    let direct = a.mul(&x).unwrap().add(&y).unwrap();
    assert_eq!(by_line, direct);
    assert_eq!(by_column, direct);
    assert_eq!(direct, mat(vec![vec![6, 31], vec![26, 60]]));
}

#[test]
fn updates_leave_the_accumulator_alone_on_a_fault() {
    let a = mat(vec![vec![1, 2], vec![3, 4]]);
    let x = column(vec![5, 6, 7]);
    let mut y = column(vec![7, 8]);
    assert_eq!(gaxpy_line(a.duplicate(), &x, &mut y), Err(LinalgError::Dimension));
    assert_eq!(gaxpy_column(a.duplicate(), &x, &mut y), Err(LinalgError::Dimension));
    assert_eq!(y, column(vec![7, 8]));
    let x2 = column(vec![5, 6]);
    let mut tall = column(vec![7, 8, 9]);
    assert_eq!(gaxpy_line(a.duplicate(), &x2, &mut tall), Err(LinalgError::Dimension));
    let mut wide = mat(vec![vec![7, 8], vec![9, 10]]);
    assert_eq!(gaxpy_column(a.duplicate(), &x2, &mut wide), Err(LinalgError::Dimension));
    let big = Ratio::from_int(i64::MAX).unwrap();
    let huge = Matrix::from(vec![vec![big, big], vec![big, big]]).unwrap();
    let mut z = column(vec![7, 8]);
    assert_eq!(gaxpy_line(huge.duplicate(), &x2, &mut z), Err(LinalgError::Arithmetic));
    assert_eq!(gaxpy_column(huge, &x2, &mut z), Err(LinalgError::Arithmetic));
    assert_eq!(z, column(vec![7, 8]));
}

#[test]
fn elementary_matrix_is_the_identity_less_a_column() {
    let t = column(vec![0, 2, 3]);
    let m = t.elementary(1).unwrap();
    assert_eq!(m, mat(vec![vec![1, 0, 0], vec![0, -1, 0], vec![0, -3, 1]]));
    assert_eq!(t.elementary(3), Err(LinalgError::Dimension));
    assert_eq!(mat(vec![vec![1, 2]]).elementary(0), Err(LinalgError::Dimension));
    let big = Matrix::from_column(vec![Ratio::from_int(-i64::MAX).unwrap()]).unwrap();
    assert_eq!(big.elementary(0), Err(LinalgError::Arithmetic));
}

#[test]
fn products_of_elementary_matrices_solve_and_invert() {
    let l = mat(vec![vec![1, 0, 0], vec![2, 3, 0], vec![4, 5, 6]]);
    let b = column(vec![7, 8, 9]);
    let mut x = b.duplicate();
    let mut inv = Matrix::id(3).unwrap();
    let mut factors = Vec::new();
    for j in 0..3 {
        let m = linalg::triangular::make_tau(&l, j).unwrap().elementary(j).unwrap();
        x = m.mul(&x).unwrap();
        factors.push(m);
    }
    for m in factors.iter().rev() {
        inv = inv.mul(m).unwrap();
    }
    assert_eq!(x, solves_lower_triangular_mat(&l, &b).unwrap());
    assert_eq!(x, solves_lower_triangular(&l, &b).unwrap());
    assert_eq!(inv, invert(&l).unwrap());
}

#[test]
fn elimination_step_is_a_product_with_an_elementary_matrix() {
    let a = mat(vec![vec![2, 1, 1], vec![4, 3, 3], vec![8, 7, 9]]);
    let t = Matrix::from_column(vec![r(0), r(2), r(4)]).unwrap();
    let m = t.elementary(0).unwrap();
    let stepped = linalg::palu::tf_gauss(&a, 0).unwrap();
    assert_eq!(m.mul(&a).unwrap(), stepped);
    assert_eq!(stepped, mat(vec![vec![2, 1, 1], vec![0, 1, 1], vec![0, 3, 5]]));
    let l1 = linalg::palu::update_l(&Matrix::id(3).unwrap(), &a, 0).unwrap();
    assert_eq!(l1, mat(vec![vec![1, 0, 0], vec![2, 1, 0], vec![4, 0, 1]]));
    assert_eq!(linalg::palu::select_pivot(&a, 0), 2);
    assert_eq!(linalg::palu::select_pivot(&a, 2), 2);
}

#[test]
fn tau_of_a_column_holds_the_scaled_entries_below_the_diagonal() {
    let l = mat(vec![vec![2, 0, 0], vec![4, 3, 0], vec![6, 5, 6]]);
    let t = linalg::triangular::make_tau(&l, 0).unwrap();
    assert_eq!(t.get(0, 0), q(1, 2));
    assert_eq!(t.get(1, 0), r(2));
    assert_eq!(t.get(2, 0), r(3));
    let t1 = linalg::triangular::make_tau(&l, 1).unwrap();
    assert_eq!(t1.get(0, 0), r(0));
    assert_eq!(t1.get(1, 0), q(2, 3));
    assert_eq!(t1.get(2, 0), q(5, 3));
}

#[test]
fn system_checks_come_in_a_fixed_order() {
    let full = mat(vec![vec![0, 2], vec![3, 4]]);
    let long = column(vec![1, 2, 3]);
    assert_eq!(
        linalg::system::check_system(&full, &long, true, false),
        Some(LinalgError::Structure)
    );
    let low = mat(vec![vec![0, 0], vec![3, 4]]);
    assert_eq!(
        linalg::system::check_system(&low, &long, true, false),
        Some(LinalgError::Dimension)
    );
    let b = column(vec![1, 2]);
    assert_eq!(linalg::system::check_system(&low, &b, true, false), Some(LinalgError::Singular));
    assert_eq!(linalg::system::check_system(&full, &b, true, true), Some(LinalgError::Singular));
    let fine = mat(vec![vec![1, 0], vec![3, 4]]);
    assert_eq!(linalg::system::check_system(&fine, &b, true, false), None);
    assert!(linalg::system::find_zero_pivot(&low));
    assert!(!linalg::system::find_zero_pivot(&fine));
    assert_eq!(
        linalg::arith::row_dot(&fine, 1, &b, 0, 0, 2),
        Some(Ratio::from_int(11).unwrap())
    );
    assert_eq!(
        linalg::arith::row_dot(&fine, 1, &b, 0, 1, 2),
        Some(Ratio::from_int(8).unwrap())
    );
}

#[test]
fn recorded_exchanges_are_made_in_the_order_of_the_steps() {
    let mut m = mat(vec![vec![1, 1], vec![2, 2], vec![3, 3]]);
    assert_eq!(m.exchange_lines(&vec![2, 2]), Ok(()));
    assert_eq!(m, mat(vec![vec![3, 3], vec![1, 1], vec![2, 2]]));
    assert_eq!(m.exchange_lines(&vec![]), Ok(()));
    assert_eq!(m, mat(vec![vec![3, 3], vec![1, 1], vec![2, 2]]));
    assert_eq!(m.exchange_lines(&vec![0, 0]), Err(LinalgError::Dimension));
    assert_eq!(m.exchange_lines(&vec![3]), Err(LinalgError::Dimension));
    assert_eq!(m.exchange_lines(&vec![0, 1, 2, 3]), Err(LinalgError::Dimension));
    assert_eq!(m, mat(vec![vec![3, 3], vec![1, 1], vec![2, 2]]));
}

#[test]
fn pivoting_is_reduction_of_the_exchanged_matrix() {
    let a = mat(vec![vec![3, 17, 10], vec![2, 4, -2], vec![6, 18, -12]]);
    let (rows, u) = find_pu(&a).unwrap();
    let mut pa = a.duplicate();
    pa.exchange_lines(&rows).unwrap();
    assert_eq!(pa, mat(vec![vec![6, 18, -12], vec![3, 17, 10], vec![2, 4, -2]]));
    assert_eq!(find_u(&pa).unwrap(), u);
    let (l, u2) = lu_fact(&pa).unwrap();
    assert_eq!(u2, u);
    assert_eq!(l.get(1, 0), q(1, 2));
    assert_eq!(l.get(2, 0), q(1, 3));
    assert_eq!(l.get(2, 1), q(-1, 4));
    assert_eq!(l.mul(&u).unwrap(), pa);
}
