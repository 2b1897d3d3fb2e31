use crate::arith::{lemma_settled, lemma_unsettled, outcome, settle};
use crate::error::LinalgError;
use crate::matrix::{grid, has_shape, Matrix};
use crate::scalar::Scalar;
use crate::system::{check_system, system_fault};
use vstd::prelude::*;

verus! {

/// The quotients `b[k] / d[k][k]`, row by row.
pub open spec fn quotient_grid<T: Scalar>(d: Seq<Seq<T>>, b: Seq<Seq<T>>) -> Seq<Seq<Option<T>>> {
    grid(b.len(), 1, |k: int, c: int| b[k][0].div_spec(d[k][k]))
}

/// The solution of the diagonal system `d x = b`.
pub open spec fn diagonal_solution<T: Scalar>(d: Seq<Seq<T>>, b: Seq<Seq<T>>) -> Result<
    Seq<Seq<T>>,
    LinalgError,
> {
    match system_fault(d, b, false, false) {
        Some(e) => Err(e),
        None => settle(quotient_grid(d, b)),
    }
}

/// Solves `d x = b` for a diagonal `d`: `x[k] = b[k] / d[k][k]`.
///
/// Fails with `Structure` where `d` is not diagonal, else with `Dimension`
/// where `b` is not a column of the height of `d`, else with `Singular`
/// where an entry on the diagonal of `d` is zero, else with `Arithmetic`
/// where a division has no result.
pub fn solves_diag<T: Scalar>(d: &Matrix<T>, b: &Matrix<T>) -> (r: Result<Matrix<T>, LinalgError>)
    requires
        d.wf(),
        b.wf(),
    ensures
        outcome(r) == diagonal_solution(d@, b@),
        r matches Ok(x) ==> x.wf(),
{
    if let Some(e) = check_system(d, b, false, false) {
        return Err(e);
    }
    let n: usize = d.rows();
    let ghost g = quotient_grid(d@, b@);
    let mut x = Matrix::constant(n, 1, T::zero());
    let mut k: usize = 0;
    while k < n
        invariant
            d.wf(),
            b.wf(),
            x.wf(),
            n == d@.len(),
            n == d@[0].len(),
            n == b@.len(),
            b@[0].len() == 1,
            has_shape(x@, n as nat, 1),
            k <= n,
            g == quotient_grid(d@, b@),
            system_fault(d@, b@, false, false) is None,
            forall|a: int| 0 <= a < k ==> #[trigger] g[a][0] == Some(x@[a][0]),
        decreases n - k,
    {
        match b.get(k, 0).div(d.get(k, k)) {
            Some(v) => {
                x.set(k, 0, v);
            },
            None => {
                proof {
                    lemma_unsettled(g, k as int, 0);
                }
                return Err(LinalgError::Arithmetic);
            },
        }
        k = k + 1;
    }
    proof {
        lemma_settled(g, x@);
    }
    Ok(x)
}

} // verus!
