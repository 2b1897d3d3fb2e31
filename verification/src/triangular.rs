use crate::arith::{inner, lemma_settled, lemma_unsettled, outcome, row_dot, settle};
use crate::error::LinalgError;
use crate::matrix::{column_of, grid, has_shape, with_entry, Matrix};
use crate::pattern::{identity, is_lower, zeros};
use crate::scalar::{opt_div, opt_mul, opt_sub, Scalar};
use crate::system::{check_system, find_zero_pivot, has_zero_pivot, system_fault};
use vstd::prelude::*;

verus! {

/// The unknown in row `i` of the lower-triangular system `l x = b`, from
/// the unknowns before it, which `x` holds:
/// `(b[i] - sum of l[i][j] * x[j] for j < i) / l[i][i]`.
pub open spec fn forward_entry<T: Scalar>(
    l: Seq<Seq<T>>,
    b: Seq<Seq<T>>,
    x: Seq<Seq<T>>,
    i: int,
) -> Option<T> {
    opt_div(opt_sub(Some(b[i][0]), inner(l[i], column_of(x, 0), 0, i)), Some(l[i][i]))
}

/// The column of unknowns of `l x = b` after forward substitution has found
/// the first `i` of them; the places of the others still hold zero.
pub open spec fn forward<T: Scalar>(l: Seq<Seq<T>>, b: Seq<Seq<T>>, i: nat) -> Option<Seq<Seq<T>>>
    decreases i,
{
    if i == 0 {
        Some(zeros(b.len(), 1))
    } else {
        match forward(l, b, (i - 1) as nat) {
            Some(x) => match forward_entry(l, b, x, i - 1) {
                Some(v) => Some(with_entry(x, i - 1, 0, v)),
                None => None,
            },
            None => None,
        }
    }
}

/// The unknown in row `i` of the upper-triangular system `u x = b`, from
/// the unknowns after it, which `x` holds: for the last row `b[i] / u[i][i]`,
/// for the others `(b[i] - sum of u[i][j] * x[j] for j > i) / u[i][i]`.
pub open spec fn backward_entry<T: Scalar>(
    u: Seq<Seq<T>>,
    b: Seq<Seq<T>>,
    x: Seq<Seq<T>>,
    i: int,
) -> Option<T> {
    let n = b.len() as int;
    let top = if i == n - 1 {
        Some(b[i][0])
    } else {
        opt_sub(Some(b[i][0]), inner(u[i], column_of(x, 0), i + 1, n))
    };
    opt_div(top, Some(u[i][i]))
}

/// The column of unknowns of `u x = b` after backward substitution has
/// found those from row `i` on; the places of the others still hold zero.
pub open spec fn backward<T: Scalar>(u: Seq<Seq<T>>, b: Seq<Seq<T>>, i: int) -> Option<Seq<Seq<T>>>
    decreases b.len() - i,
{
    if i >= b.len() {
        Some(zeros(b.len(), 1))
    } else {
        match backward(u, b, i + 1) {
            Some(x) => match backward_entry(u, b, x, i) {
                Some(v) => Some(with_entry(x, i, 0, v)),
                None => None,
            },
            None => None,
        }
    }
}

/// The solution of the lower-triangular system `l x = b` by forward
/// substitution.
pub open spec fn lower_solution<T: Scalar>(l: Seq<Seq<T>>, b: Seq<Seq<T>>) -> Result<
    Seq<Seq<T>>,
    LinalgError,
> {
    match system_fault(l, b, true, false) {
        Some(e) => Err(e),
        None => match forward(l, b, b.len()) {
            Some(x) => Ok(x),
            None => Err(LinalgError::Arithmetic),
        },
    }
}

/// The solution of the upper-triangular system `u x = b` by backward
/// substitution.
pub open spec fn upper_solution<T: Scalar>(u: Seq<Seq<T>>, b: Seq<Seq<T>>) -> Result<
    Seq<Seq<T>>,
    LinalgError,
> {
    match system_fault(u, b, false, true) {
        Some(e) => Err(e),
        None => match backward(u, b, 0) {
            Some(x) => Ok(x),
            None => Err(LinalgError::Arithmetic),
        },
    }
}

/// Once forward substitution has failed at a row, it has failed for good.
pub proof fn lemma_forward_stays_none<T: Scalar>(l: Seq<Seq<T>>, b: Seq<Seq<T>>, i: nat, k: nat)
    requires
        i <= k,
        forward(l, b, i) is None,
    ensures
        forward(l, b, k) is None,
    decreases k,
{
    if i < k {
        lemma_forward_stays_none(l, b, i, (k - 1) as nat);
    }
}

/// Once backward substitution has failed at a row, it has failed for good.
pub proof fn lemma_backward_stays_none<T: Scalar>(u: Seq<Seq<T>>, b: Seq<Seq<T>>, i: int, k: int)
    requires
        k <= i,
        backward(u, b, i) is None,
    ensures
        backward(u, b, k) is None,
    decreases i - k,
{
    if k < i {
        lemma_backward_stays_none(u, b, i, k + 1);
    }
}

/// Every stage of a substitution is a column of the height of `b`.
pub proof fn lemma_forward_shape<T: Scalar>(l: Seq<Seq<T>>, b: Seq<Seq<T>>, i: nat)
    requires
        i <= b.len(),
    ensures
        forward(l, b, i) matches Some(x) ==> has_shape(x, b.len(), 1),
    decreases i,
{
    if i > 0 {
        lemma_forward_shape(l, b, (i - 1) as nat);
    }
}

/// Every stage of a substitution is a column of the height of `b`.
pub proof fn lemma_backward_shape<T: Scalar>(u: Seq<Seq<T>>, b: Seq<Seq<T>>, i: int)
    requires
        0 <= i,
    ensures
        backward(u, b, i) matches Some(x) ==> has_shape(x, b.len(), 1),
    decreases b.len() - i,
{
    if i < b.len() {
        lemma_backward_shape(u, b, i + 1);
    }
}

/// Solves `l x = b` for a lower-triangular `l` by forward substitution.
///
/// Fails with `Structure` where `l` is not lower triangular, else with
/// `Dimension` where `b` is not a column of the height of `l`, else with
/// `Singular` where an entry on the diagonal of `l` is zero, else with
/// `Arithmetic` where an operation on the way has no result.
pub fn solves_lower_triangular<T: Scalar>(l: &Matrix<T>, b: &Matrix<T>) -> (r: Result<
    Matrix<T>,
    LinalgError,
>)
    requires
        l.wf(),
        b.wf(),
    ensures
        outcome(r) == lower_solution(l@, b@),
        r matches Ok(x) ==> x.wf(),
{
    if let Some(e) = check_system(l, b, true, false) {
        return Err(e);
    }
    let n: usize = l.rows();
    let mut x = Matrix::constant(n, 1, T::zero());
    let mut i: usize = 0;
    while i < n
        invariant
            l.wf(),
            b.wf(),
            x.wf(),
            n == l@.len(),
            n == l@[0].len(),
            n == b@.len(),
            b@[0].len() == 1,
            has_shape(x@, n as nat, 1),
            i <= n,
            system_fault(l@, b@, true, false) is None,
            forward(l@, b@, i as nat) == Some(x@),
        decreases n - i,
    {
        let v = match row_dot(l, i, &x, 0, 0, i) {
            Some(s) => match b.get(i, 0).sub(s) {
                Some(d) => d.div(l.get(i, i)),
                None => None,
            },
            None => None,
        };
        match v {
            Some(v) => {
                x.set(i, 0, v);
            },
            None => {
                proof {
                    lemma_forward_stays_none(l@, b@, (i + 1) as nat, n as nat);
                }
                return Err(LinalgError::Arithmetic);
            },
        }
        i = i + 1;
    }
    Ok(x)
}

/// Solves `u x = b` for an upper-triangular `u` by backward substitution.
///
/// Fails with `Structure` where `u` is not upper triangular, else with
/// `Dimension` where `b` is not a column of the height of `u`, else with
/// `Singular` where an entry on the diagonal of `u` is zero, else with
/// `Arithmetic` where an operation on the way has no result.
pub fn solves_upper_triangular<T: Scalar>(u: &Matrix<T>, b: &Matrix<T>) -> (r: Result<
    Matrix<T>,
    LinalgError,
>)
    requires
        u.wf(),
        b.wf(),
    ensures
        outcome(r) == upper_solution(u@, b@),
        r matches Ok(x) ==> x.wf(),
{
    if let Some(e) = check_system(u, b, false, true) {
        return Err(e);
    }
    let n: usize = u.rows();
    let mut x = Matrix::constant(n, 1, T::zero());
    let mut i: usize = n;
    while i > 0
        invariant
            u.wf(),
            b.wf(),
            x.wf(),
            n == u@.len(),
            n == u@[0].len(),
            n == b@.len(),
            b@[0].len() == 1,
            has_shape(x@, n as nat, 1),
            i <= n,
            system_fault(u@, b@, false, true) is None,
            backward(u@, b@, i as int) == Some(x@),
        decreases i,
    {
        i = i - 1;
        let top = if i == n - 1 {
            Some(b.get(i, 0))
        } else {
            match row_dot(u, i, &x, 0, i + 1, n) {
                Some(s) => b.get(i, 0).sub(s),
                None => None,
            }
        };
        let v = match top {
            Some(d) => d.div(u.get(i, i)),
            None => None,
        };
        match v {
            Some(v) => {
                x.set(i, 0, v);
            },
            None => {
                proof {
                    lemma_backward_stays_none(u@, b@, i as int, 0);
                }
                return Err(LinalgError::Arithmetic);
            },
        }
    }
    Ok(x)
}

/// The entries of the column that defines the elementary matrix for column
/// `j` of the lower-triangular `l`: zero above row `j`, `1 - 1 / l[j][j]` in
/// row `j`, and `(1 / l[j][j]) * l[i][j]` in each row `i` below.
pub open spec fn tau_grid<T: Scalar>(l: Seq<Seq<T>>, j: int) -> Seq<Seq<Option<T>>> {
    grid(
        l.len(),
        1,
        |i: int, c: int|
            if i < j {
                Some(T::zero_spec())
            } else if i == j {
                opt_sub(Some(T::one_spec()), T::one_spec().div_spec(l[j][j]))
            } else {
                opt_mul(T::one_spec().div_spec(l[j][j]), Some(l[i][j]))
            },
    )
}

/// The column `tau` that defines the elementary matrix `I - tau e_j^T` for
/// column `j` of `l`.
pub open spec fn tau<T: Scalar>(l: Seq<Seq<T>>, j: int) -> Result<Seq<Seq<T>>, LinalgError> {
    settle(tau_grid(l, j))
}

/// The entries of `(I - tau e_j^T) x`: `x[i] - tau[i] * x[j]` from row `j`
/// on, and `x[i]` above.
pub open spec fn reduce_grid<T: Scalar>(x: Seq<Seq<T>>, t: Seq<Seq<T>>, j: int) -> Seq<
    Seq<Option<T>>,
> {
    grid(
        x.len(),
        1,
        |i: int, c: int|
            if i < j {
                Some(x[i][0])
            } else {
                opt_sub(Some(x[i][0]), t[i][0].mul_spec(x[j][0]))
            },
    )
}

/// The column `x` multiplied from the left by the elementary matrix for
/// column `j` of `l`.
pub open spec fn elementary_step<T: Scalar>(l: Seq<Seq<T>>, x: Seq<Seq<T>>, j: int) -> Result<
    Seq<Seq<T>>,
    LinalgError,
> {
    match tau(l, j) {
        Ok(t) => settle(reduce_grid(x, t, j)),
        Err(e) => Err(e),
    }
}

/// The column `b` multiplied from the left by the elementary matrices for
/// the columns `0` to `j - 1` of `l`, in that order.
pub open spec fn elementary<T: Scalar>(l: Seq<Seq<T>>, b: Seq<Seq<T>>, j: nat) -> Result<
    Seq<Seq<T>>,
    LinalgError,
>
    decreases j,
{
    if j == 0 {
        Ok(b)
    } else {
        match elementary(l, b, (j - 1) as nat) {
            Ok(x) => elementary_step(l, x, j - 1),
            Err(e) => Err(e),
        }
    }
}

/// The solution of the lower-triangular system `l x = b` as the product of
/// the elementary matrices of all columns of `l` with `b`.
pub open spec fn elementary_solution<T: Scalar>(l: Seq<Seq<T>>, b: Seq<Seq<T>>) -> Result<
    Seq<Seq<T>>,
    LinalgError,
> {
    match system_fault(l, b, true, false) {
        Some(e) => Err(e),
        None => elementary(l, b, l.len()),
    }
}

/// The entries of `acc (I - tau e_j^T)`: column `j` becomes
/// `acc[i][j] - sum of acc[i][m] * tau[m] for m from j on`, the other
/// columns stay.
pub open spec fn absorb_grid<T: Scalar>(acc: Seq<Seq<T>>, t: Seq<Seq<T>>, j: int) -> Seq<
    Seq<Option<T>>,
> {
    grid(
        acc.len(),
        acc[0].len(),
        |i: int, c: int|
            if c == j {
                opt_sub(Some(acc[i][j]), inner(acc[i], column_of(t, 0), j, acc.len() as int))
            } else {
                Some(acc[i][c])
            },
    )
}

/// The square grid `acc` multiplied from the right by the elementary matrix
/// for column `j` of `l`.
pub open spec fn absorb<T: Scalar>(l: Seq<Seq<T>>, acc: Seq<Seq<T>>, j: int) -> Result<
    Seq<Seq<T>>,
    LinalgError,
> {
    match tau(l, j) {
        Ok(t) => settle(absorb_grid(acc, t, j)),
        Err(e) => Err(e),
    }
}

/// The identity multiplied from the right by the elementary matrices of the
/// last `s` columns of `l`, the last column first.
pub open spec fn inverse_upto<T: Scalar>(l: Seq<Seq<T>>, s: nat) -> Result<
    Seq<Seq<T>>,
    LinalgError,
>
    decreases s,
{
    if s == 0 {
        Ok(identity(l.len()))
    } else {
        match inverse_upto(l, (s - 1) as nat) {
            Ok(acc) => absorb(l, acc, l.len() - s),
            Err(e) => Err(e),
        }
    }
}

/// The inverse of the lower-triangular `l` as the product of the elementary
/// matrices of its columns, the last column first.
pub open spec fn inverse<T: Scalar>(l: Seq<Seq<T>>) -> Result<Seq<Seq<T>>, LinalgError> {
    if !is_lower(l) {
        Err(LinalgError::Structure)
    } else if has_zero_pivot(l) {
        Err(LinalgError::Singular)
    } else {
        inverse_upto(l, l.len())
    }
}

/// A product of elementary matrices that has failed stays failed.
pub proof fn lemma_elementary_stays_err<T: Scalar>(
    l: Seq<Seq<T>>,
    b: Seq<Seq<T>>,
    j: nat,
    k: nat,
)
    requires
        j <= k,
        elementary(l, b, j) is Err,
    ensures
        elementary(l, b, k) == elementary(l, b, j),
    decreases k,
{
    if j < k {
        lemma_elementary_stays_err(l, b, j, (k - 1) as nat);
    }
}

/// A product of elementary matrices that has failed stays failed.
pub proof fn lemma_inverse_stays_err<T: Scalar>(l: Seq<Seq<T>>, s: nat, k: nat)
    requires
        s <= k,
        inverse_upto(l, s) is Err,
    ensures
        inverse_upto(l, k) == inverse_upto(l, s),
    decreases k,
{
    if s < k {
        lemma_inverse_stays_err(l, s, (k - 1) as nat);
    }
}

/// The column `tau` that defines the elementary matrix for column `j` of
/// the square matrix `l`.
pub fn make_tau<T: Scalar>(l: &Matrix<T>, j: usize) -> (r: Result<Matrix<T>, LinalgError>)
    requires
        l.wf(),
        l@.len() == l@[0].len(),
        j < l@.len(),
    ensures
        outcome(r) == tau(l@, j as int),
        r matches Ok(t) ==> t.wf(),
{
    let n: usize = l.rows();
    let ghost g = tau_grid(l@, j as int);
    let recip = match T::one().div(l.get(j, j)) {
        Some(recip) => recip,
        None => {
            proof {
                lemma_unsettled(g, j as int, 0);
            }
            return Err(LinalgError::Arithmetic);
        },
    };
    let mut t = Matrix::constant(n, 1, T::zero());
    match T::one().sub(recip) {
        Some(v) => {
            t.set(j, 0, v);
        },
        None => {
            proof {
                lemma_unsettled(g, j as int, 0);
            }
            return Err(LinalgError::Arithmetic);
        },
    }
    let mut i: usize = j + 1;
    while i < n
        invariant
            l.wf(),
            t.wf(),
            n == l@.len(),
            n == l@[0].len(),
            j < i <= n,
            g == tau_grid(l@, j as int),
            T::one_spec().div_spec(l@[j as int][j as int]) == Some(recip),
            has_shape(t@, n as nat, 1),
            forall|a: int| 0 <= a < i ==> #[trigger] g[a][0] == Some(t@[a][0]),
            forall|a: int| i <= a < n ==> #[trigger] t@[a][0] == T::zero_spec(),
        decreases n - i,
    {
        match recip.mul(l.get(i, j)) {
            Some(v) => {
                t.set(i, 0, v);
            },
            None => {
                proof {
                    lemma_unsettled(g, i as int, 0);
                }
                return Err(LinalgError::Arithmetic);
            },
        }
        i = i + 1;
    }
    proof {
        lemma_settled(g, t@);
    }
    Ok(t)
}

/// Solves `l x = b` for a lower-triangular `l` by multiplying `b` from the
/// left with the elementary matrix of each column of `l` in turn.
///
/// Fails with `Structure` where `l` is not lower triangular, else with
/// `Dimension` where `b` is not a column of the height of `l`, else with
/// `Singular` where an entry on the diagonal of `l` is zero, else with
/// `Arithmetic` where an operation on the way has no result.
pub fn solves_lower_triangular_mat<T: Scalar>(l: &Matrix<T>, b: &Matrix<T>) -> (r: Result<
    Matrix<T>,
    LinalgError,
>)
    requires
        l.wf(),
        b.wf(),
    ensures
        outcome(r) == elementary_solution(l@, b@),
        r matches Ok(x) ==> x.wf(),
{
    if let Some(e) = check_system(l, b, true, false) {
        return Err(e);
    }
    let n: usize = l.rows();
    let mut x = b.duplicate();
    let mut j: usize = 0;
    while j < n
        invariant
            l.wf(),
            b.wf(),
            x.wf(),
            n == l@.len(),
            n == l@[0].len(),
            has_shape(x@, n as nat, 1),
            j <= n,
            system_fault(l@, b@, true, false) is None,
            elementary(l@, b@, j as nat) == Ok::<Seq<Seq<T>>, LinalgError>(x@),
        decreases n - j,
    {
        let t = match make_tau(l, j) {
            Ok(t) => t,
            Err(e) => {
                proof {
                    lemma_elementary_stays_err(l@, b@, (j + 1) as nat, n as nat);
                }
                return Err(e);
            },
        };
        let ghost g = reduce_grid(x@, t@, j as int);
        let pivot = x.get(j, 0);
        let mut y = x.duplicate();
        let mut i: usize = j;
        while i < n
            invariant
                x.wf(),
                t.wf(),
                y.wf(),
                has_shape(x@, n as nat, 1),
                has_shape(t@, n as nat, 1),
                has_shape(y@, n as nat, 1),
                j <= i <= n,
                g == reduce_grid(x@, t@, j as int),
                pivot == x@[j as int][0],
                system_fault(l@, b@, true, false) is None,
                elementary(l@, b@, j as nat) == Ok::<Seq<Seq<T>>, LinalgError>(x@),
                tau(l@, j as int) == Ok::<Seq<Seq<T>>, LinalgError>(t@),
                forall|a: int| 0 <= a < i ==> #[trigger] g[a][0] == Some(y@[a][0]),
            decreases n - i,
        {
            let v = match t.get(i, 0).mul(pivot) {
                Some(d) => x.get(i, 0).sub(d),
                None => None,
            };
            match v {
                Some(v) => {
                    y.set(i, 0, v);
                },
                None => {
                    proof {
                        lemma_unsettled(g, i as int, 0);
                        assert(elementary(l@, b@, (j + 1) as nat) == Err::<Seq<Seq<T>>, LinalgError>(
                            LinalgError::Arithmetic,
                        ));
                        lemma_elementary_stays_err(l@, b@, (j + 1) as nat, n as nat);
                    }
                    return Err(LinalgError::Arithmetic);
                },
            }
            i = i + 1;
        }
        proof {
            lemma_settled(g, y@);
        }
        x = y;
        j = j + 1;
    }
    Ok(x)
}

/// Inverts the lower-triangular `l`: starting from the identity, multiplies
/// from the right with the elementary matrix of each column of `l`, the
/// last column first.
///
/// Fails with `Structure` where `l` is not lower triangular, else with
/// `Singular` where an entry on the diagonal of `l` is zero, else with
/// `Arithmetic` where an operation on the way has no result.
pub fn invert<T: Scalar>(l: &Matrix<T>) -> (r: Result<Matrix<T>, LinalgError>)
    requires
        l.wf(),
    ensures
        outcome(r) == inverse(l@),
        r matches Ok(m) ==> m.wf(),
{
    if !l.is_lower_triangular() {
        return Err(LinalgError::Structure);
    }
    if find_zero_pivot(l) {
        return Err(LinalgError::Singular);
    }
    let n: usize = l.rows();
    let mut acc = match Matrix::id(n) {
        Ok(acc) => acc,
        Err(e) => {
            return Err(e);
        },
    };
    let mut s: usize = 0;
    while s < n
        invariant
            l.wf(),
            acc.wf(),
            n == l@.len(),
            n == l@[0].len(),
            has_shape(acc@, n as nat, n as nat),
            s <= n,
            is_lower(l@),
            !has_zero_pivot(l@),
            inverse_upto(l@, s as nat) == Ok::<Seq<Seq<T>>, LinalgError>(acc@),
        decreases n - s,
    {
        let j: usize = n - 1 - s;
        let t = match make_tau(l, j) {
            Ok(t) => t,
            Err(e) => {
                proof {
                    lemma_inverse_stays_err(l@, (s + 1) as nat, n as nat);
                }
                return Err(e);
            },
        };
        let ghost before = acc@;
        let ghost g = absorb_grid(before, t@, j as int);
        let mut i: usize = 0;
        while i < n
            invariant
                acc.wf(),
                t.wf(),
                n == l@.len(),
                has_shape(acc@, n as nat, n as nat),
                has_shape(before, n as nat, n as nat),
                has_shape(t@, n as nat, 1),
                j == n - 1 - s,
                s < n,
                i <= n,
                g == absorb_grid(before, t@, j as int),
                is_lower(l@),
                !has_zero_pivot(l@),
                inverse_upto(l@, s as nat) == Ok::<Seq<Seq<T>>, LinalgError>(before),
                tau(l@, j as int) == Ok::<Seq<Seq<T>>, LinalgError>(t@),
                forall|a: int, c: int|
                    0 <= a < i && 0 <= c < n ==> #[trigger] g[a][c] == Some(acc@[a][c]),
                forall|a: int| i <= a < n ==> #[trigger] acc@[a] == before[a],
            decreases n - i,
        {
            let v = match row_dot(&acc, i, &t, 0, j, n) {
                Some(w) => acc.get(i, j).sub(w),
                None => None,
            };
            match v {
                Some(v) => {
                    acc.set(i, j, v);
                },
                None => {
                    proof {
                        lemma_unsettled(g, i as int, j as int);
                        assert(inverse_upto(l@, (s + 1) as nat) == Err::<Seq<Seq<T>>, LinalgError>(
                            LinalgError::Arithmetic,
                        ));
                        lemma_inverse_stays_err(l@, (s + 1) as nat, n as nat);
                    }
                    return Err(LinalgError::Arithmetic);
                },
            }
            i = i + 1;
        }
        proof {
            lemma_settled(g, acc@);
        }
        s = s + 1;
    }
    Ok(acc)
}

} // verus!
