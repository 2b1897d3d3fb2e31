use crate::error::LinalgError;
use crate::matrix::Matrix;
use crate::pattern::zero_outside;
use crate::scalar::Scalar;
use vstd::prelude::*;

verus! {

/// The entry of `m` in row `k` on the diagonal.
pub open spec fn pivot<T>(m: Seq<Seq<T>>, k: int) -> T {
    m[k][k]
}

/// Whether some entry on the diagonal of the square grid `m` is zero.
pub open spec fn has_zero_pivot<T: Scalar>(m: Seq<Seq<T>>) -> bool {
    exists|k: int| 0 <= k < m.len() && (#[trigger] pivot(m, k)).is_zero_spec()
}

/// What keeps `m x = b` from being solved by substitution, if anything.
/// In this order: `m` is not square with zeros in the places that the
/// routine needs (`lower` and `upper` say which triangles may be filled);
/// `b` is not a column of the height of `m`; an entry on the diagonal of `m`
/// is zero.
pub open spec fn system_fault<T: Scalar>(
    m: Seq<Seq<T>>,
    b: Seq<Seq<T>>,
    lower: bool,
    upper: bool,
) -> Option<LinalgError> {
    if !zero_outside(m, lower, upper) {
        Some(LinalgError::Structure)
    } else if b[0].len() != 1 || b.len() != m.len() {
        Some(LinalgError::Dimension)
    } else if has_zero_pivot(m) {
        Some(LinalgError::Singular)
    } else {
        None
    }
}

/// Whether some entry on the diagonal of the square matrix `m` is zero.
pub fn find_zero_pivot<T: Scalar>(m: &Matrix<T>) -> (r: bool)
    requires
        m.wf(),
        m@.len() == m@[0].len(),
    ensures
        r == has_zero_pivot(m@),
{
    let n: usize = m.rows();
    let mut k: usize = 0;
    while k < n
        invariant
            m.wf(),
            n == m@.len(),
            n == m@[0].len(),
            k <= n,
            forall|a: int| 0 <= a < k ==> !(#[trigger] pivot(m@, a)).is_zero_spec(),
        decreases n - k,
    {
        if m.get(k, k).is_zero() {
            assert(pivot(m@, k as int).is_zero_spec());
            return true;
        }
        k = k + 1;
    }
    false
}

/// Looks for what keeps `m x = b` from being solved by substitution.
pub fn check_system<T: Scalar>(m: &Matrix<T>, b: &Matrix<T>, lower: bool, upper: bool) -> (r:
    Option<LinalgError>)
    requires
        m.wf(),
        b.wf(),
    ensures
        r == system_fault(m@, b@, lower, upper),
{
    let fits = if lower {
        if upper {
            m.is_square()
        } else {
            m.is_lower_triangular()
        }
    } else {
        if upper {
            m.is_upper_triangular()
        } else {
            m.is_diag()
        }
    };
    if !fits {
        Some(LinalgError::Structure)
    } else if !b.is_column() || b.rows() != m.rows() {
        Some(LinalgError::Dimension)
    } else if find_zero_pivot(m) {
        Some(LinalgError::Singular)
    } else {
        None
    }
}

} // verus!
