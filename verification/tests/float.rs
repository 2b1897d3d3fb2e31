use linalg::{
    find_pu, find_u, gaxpy_column, gaxpy_line, invert, solves_diag, solves_lower_triangular,
    solves_lower_triangular_mat, solves_upper_triangular, LinalgError, Matrix, Scalar,
};

/// A double-precision number as a scalar: an operation has a result where
/// what comes out is finite.
#[derive(Clone, Copy, Debug, PartialEq)]
struct Real(f64);

fn finite(v: f64) -> Option<Real> {
    if v.is_finite() {
        Some(Real(v))
    } else {
        None
    }
}

impl Scalar for Real {
    fn zero_spec() -> Self {
        Self::zero()
    }

    fn one_spec() -> Self {
        Self::one()
    }

    fn add_spec(self, rhs: Self) -> Option<Self> {
        self.add(rhs)
    }

    fn sub_spec(self, rhs: Self) -> Option<Self> {
        self.sub(rhs)
    }

    fn mul_spec(self, rhs: Self) -> Option<Self> {
        self.mul(rhs)
    }

    fn div_spec(self, rhs: Self) -> Option<Self> {
        self.div(rhs)
    }

    fn is_zero_spec(self) -> bool {
        self.is_zero()
    }

    fn gt_spec(self, rhs: Self) -> bool {
        self.gt(rhs)
    }

    fn close_spec(self, rhs: Self) -> bool {
        self.close_to(rhs)
    }

    fn zero_is_zero() {}

    fn zero() -> Self {
        Real(0.0)
    }

    fn one() -> Self {
        Real(1.0)
    }

    fn add(self, rhs: Self) -> Option<Self> {
        finite(self.0 + rhs.0)
    }

    fn sub(self, rhs: Self) -> Option<Self> {
        finite(self.0 - rhs.0)
    }

    fn mul(self, rhs: Self) -> Option<Self> {
        finite(self.0 * rhs.0)
    }

    fn div(self, rhs: Self) -> Option<Self> {
        finite(self.0 / rhs.0)
    }

    fn is_zero(self) -> bool {
        self.0 == 0.0
    }

    fn gt(self, rhs: Self) -> bool {
        self.0 > rhs.0
    }

    fn close_to(self, rhs: Self) -> bool {
        !((self.0 - rhs.0).abs() > 0.001)
    }
}

fn mat(rows: Vec<Vec<f64>>) -> Matrix<Real> {
    Matrix::from(rows.into_iter().map(|row| row.into_iter().map(Real).collect()).collect()).unwrap()
}

fn column(v: Vec<f64>) -> Matrix<Real> {
    Matrix::from_column(v.into_iter().map(Real).collect()).unwrap()
}

#[test]
fn floats_solve_a_diagonal_system() {
    let d = Matrix::from_diag(vec![Real(1.0), Real(2.0), Real(3.0), Real(4.0)]).unwrap();
    let b = column(vec![5.0, 6.0, 7.0, 8.0]);
    let x = solves_diag(&d, &b).unwrap();
    assert_eq!(x.get(0, 0), Real(5.0));
    assert_eq!(x.get(1, 0), Real(3.0));
    assert_eq!(x.get(2, 0), Real(7.0 / 3.0));
    assert_eq!(x.get(3, 0), Real(2.0));
    let b2 = d.mul(&x).unwrap();
    assert!(b.all_close(&b2).unwrap());
}

#[test]
fn floats_solve_a_lower_triangular_system_both_ways() {
    let l = mat(vec![vec![1.0, 0.0, 0.0], vec![2.0, 3.0, 0.0], vec![4.0, 5.0, 6.0]]);
    let b = column(vec![7.0, 8.0, 9.0]);
    let x = solves_lower_triangular(&l, &b).unwrap();
    assert_eq!(x.get(0, 0), Real(7.0));
    assert_eq!(x.get(1, 0), Real(-2.0));
    assert_eq!(x.get(2, 0), Real(-1.5));
    assert!(b.all_close(&l.mul(&x).unwrap()).unwrap());
    let y = solves_lower_triangular_mat(&l, &b).unwrap();
    assert!(b.all_close(&l.mul(&y).unwrap()).unwrap());
    assert!(x.all_close(&y).unwrap());
}

#[test]
fn floats_solve_an_upper_triangular_system() {
    let u = mat(vec![vec![1.0, 2.0], vec![0.0, 3.0]]);
    let b = column(vec![4.0, 5.0]);
    let x = solves_upper_triangular(&u, &b).unwrap();
    let b2 = u.mul(&x).unwrap();
    assert!(b.all_close(&b2).unwrap());
}

#[test]
fn floats_invert_a_lower_triangle() {
    let l = mat(vec![vec![1.0, 0.0, 0.0], vec![2.0, 3.0, 0.0], vec![4.0, 5.0, 6.0]]);
    let inv = invert(&l).unwrap();
    let prod = l.mul(&inv).unwrap();
    let id = Matrix::id(3).unwrap();
    assert!(prod.all_close(&id).unwrap());
}

#[test]
fn floats_reduce_to_an_upper_triangle() {
    let a = mat(vec![vec![-1.0, -1.0, -1.0], vec![-1.0, 1.0, -1.0], vec![1.0, 2.0, 2.0]]);
    let u = find_u(&a).unwrap();
    assert!(u.is_upper_triangular());
    assert_eq!(u, mat(vec![vec![-1.0, -1.0, -1.0], vec![0.0, 2.0, 0.0], vec![0.0, 0.0, 1.0]]));
    let b = mat(vec![vec![3.0, 17.0, 10.0], vec![2.0, 4.0, -2.0], vec![6.0, 18.0, -12.0]]);
    let (rows, u) = find_pu(&b).unwrap();
    assert_eq!(rows, vec![2, 2]);
    assert!(u.is_upper_triangular());
    assert!(u.all_close(&mat(vec![vec![6.0, 18.0, -12.0], vec![0.0, 8.0, 16.0], vec![0.0, 0.0, 6.0]]))
        .unwrap());
}

#[test]
fn floats_update_by_rows_and_by_columns() {
    let a = mat(vec![vec![1.0, 2.0], vec![3.0, 4.0]]);
    let x = column(vec![5.0, 6.0]);
    let mut by_line = column(vec![7.0, 8.0]);
    let mut by_column = column(vec![7.0, 8.0]);
    gaxpy_line(a.duplicate(), &x, &mut by_line).unwrap();
    gaxpy_column(a.duplicate(), &x, &mut by_column).unwrap();
    assert_eq!(by_line, column(vec![24.0, 47.0]));
    assert_eq!(by_column, column(vec![24.0, 47.0]));
    let direct = a.mul(&x).unwrap().add(&column(vec![7.0, 8.0])).unwrap();
    assert!(by_line.all_close(&direct).unwrap());
}

#[test]
fn floats_report_what_has_no_finite_value() {
    let d = mat(vec![vec![1e-300]]);
    let b = column(vec![1e300]);
    assert_eq!(solves_diag(&d, &b), Err(LinalgError::Arithmetic));
    let z = mat(vec![vec![0.0]]);
    assert_eq!(solves_diag(&z, &b), Err(LinalgError::Singular));
    let big = mat(vec![vec![f64::MAX]]);
    assert_eq!(big.add(&big), Err(LinalgError::Arithmetic));
}
