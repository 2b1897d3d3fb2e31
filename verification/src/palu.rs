use crate::arith::{lemma_settle_ok, lemma_settled, lemma_unsettled, outcome, settle};
use crate::error::LinalgError;
use crate::matrix::{grid, has_shape, swapped, Matrix};
use crate::pattern::{identity, is_lower, is_upper};
use crate::pivoting::{exchanged, law_pivoting_reduces_exchanged};
use crate::scalar::{opt_mul, opt_sub, Exact, Scalar};
use crate::system::{find_zero_pivot, has_zero_pivot, pivot};
use vstd::prelude::*;

verus! {

/// The multiplier of row `i` in elimination step `k`:
/// `(1 / u[k][k]) * u[i][k]`.
pub open spec fn multiplier<T: Scalar>(u: Seq<Seq<T>>, k: int, i: int) -> Option<T> {
    opt_mul(T::one_spec().div_spec(u[k][k]), Some(u[i][k]))
}

/// The entries of the square grid `u` after elimination step `k`: in each
/// row `i` below row `k`, column `k` becomes zero and each column `j` after
/// it becomes `u[i][j] - multiplier * u[k][j]`; the rest stays.
pub open spec fn gauss_grid<T: Scalar>(u: Seq<Seq<T>>, k: int) -> Seq<Seq<Option<T>>> {
    grid(
        u.len(),
        u.len(),
        |i: int, j: int|
            if i <= k || j < k {
                Some(u[i][j])
            } else if j == k {
                Some(T::zero_spec())
            } else {
                opt_sub(Some(u[i][j]), opt_mul(multiplier(u, k, i), Some(u[k][j])))
            },
    )
}

/// Elimination step `k` on the square grid `u`: `Singular` where the pivot
/// `u[k][k]` is zero, `Arithmetic` where an operation has no result.
pub open spec fn gauss_step<T: Scalar>(u: Seq<Seq<T>>, k: int) -> Result<Seq<Seq<T>>, LinalgError> {
    if pivot(u, k).is_zero_spec() {
        Err(LinalgError::Singular)
    } else {
        settle(gauss_grid(u, k))
    }
}

/// The square grid `a` after the elimination steps `0` to `k - 1`, without
/// any exchange of rows.
pub open spec fn reduced<T: Scalar>(a: Seq<Seq<T>>, k: nat) -> Result<Seq<Seq<T>>, LinalgError>
    decreases k,
{
    if k == 0 {
        Ok(a)
    } else {
        match reduced(a, (k - 1) as nat) {
            Ok(u) => gauss_step(u, k - 1),
            Err(e) => Err(e),
        }
    }
}

/// The upper-triangular factor of the square grid `a`, found without any
/// exchange of rows: `a` after the elimination steps `0` to `n - 2`.
pub open spec fn upper_factor<T: Scalar>(a: Seq<Seq<T>>) -> Result<Seq<Seq<T>>, LinalgError> {
    if a.len() != a[0].len() {
        Err(LinalgError::Dimension)
    } else {
        reduced(a, (a.len() - 1) as nat)
    }
}

/// The row to exchange with row `k` before step `k`, after a scan of the
/// rows `k + 1` to `z - 1`: the scan starts with row `k` and moves to a
/// row whenever its entry in column `k` is greater than that of the row
/// held so far.
pub open spec fn pivot_row<T: Scalar>(u: Seq<Seq<T>>, k: int, z: int) -> int
    decreases z - k,
{
    if z <= k + 1 {
        k
    } else {
        let best = pivot_row(u, k, z - 1);
        if u[z - 1][k].gt_spec(u[best][k]) {
            z - 1
        } else {
            best
        }
    }
}

/// The rows exchanged and the square grid `a` after the steps `0` to
/// `k - 1` with partial pivoting: each step picks its pivot row, exchanges
/// it with row `k`, and eliminates.
pub open spec fn pivoted<T: Scalar>(a: Seq<Seq<T>>, k: nat) -> Result<
    (Seq<int>, Seq<Seq<T>>),
    LinalgError,
>
    decreases k,
{
    if k == 0 {
        Ok((Seq::empty(), a))
    } else {
        match pivoted(a, (k - 1) as nat) {
            Ok((rows, u)) => {
                let row = pivot_row(u, k - 1, u.len() as int);
                match gauss_step(swapped(u, k - 1, row), k - 1) {
                    Ok(w) => Ok((rows.push(row), w)),
                    Err(e) => Err(e),
                }
            },
            Err(e) => Err(e),
        }
    }
}

/// The indices in `v` as integers.
pub open spec fn as_ints(v: Seq<usize>) -> Seq<int> {
    v.map_values(|x: usize| x as int)
}

/// The rows exchanged and the upper-triangular factor of the square grid
/// `a`, found with partial pivoting.
pub open spec fn pivoted_factor<T: Scalar>(a: Seq<Seq<T>>) -> Result<
    (Seq<int>, Seq<Seq<T>>),
    LinalgError,
> {
    if a.len() != a[0].len() {
        Err(LinalgError::Dimension)
    } else {
        pivoted(a, (a.len() - 1) as nat)
    }
}

/// The entries of the lower factor `l` after step `k` has put its
/// multipliers into column `k`, below the diagonal.
pub open spec fn multipliers_grid<T: Scalar>(l: Seq<Seq<T>>, u: Seq<Seq<T>>, k: int) -> Seq<
    Seq<Option<T>>,
> {
    grid(
        l.len(),
        l.len(),
        |i: int, j: int|
            if j == k && i > k {
                multiplier(u, k, i)
            } else {
                Some(l[i][j])
            },
    )
}

/// Step `k` on the lower factor: the multipliers of the step, taken from
/// `u`, go into column `k` of `l`.
pub open spec fn lower_step<T: Scalar>(l: Seq<Seq<T>>, u: Seq<Seq<T>>, k: int) -> Result<
    Seq<Seq<T>>,
    LinalgError,
> {
    if pivot(u, k).is_zero_spec() {
        Err(LinalgError::Singular)
    } else {
        settle(multipliers_grid(l, u, k))
    }
}

/// The two factors of the square grid `a` after the steps `0` to `k - 1`,
/// without any exchange of rows.
pub open spec fn factored<T: Scalar>(a: Seq<Seq<T>>, k: nat) -> Result<
    (Seq<Seq<T>>, Seq<Seq<T>>),
    LinalgError,
>
    decreases k,
{
    if k == 0 {
        Ok((identity(a.len()), a))
    } else {
        match factored(a, (k - 1) as nat) {
            Ok((l, u)) => match lower_step(l, u, k - 1) {
                Ok(l2) => match gauss_step(u, k - 1) {
                    Ok(u2) => Ok((l2, u2)),
                    Err(e) => Err(e),
                },
                Err(e) => Err(e),
            },
            Err(e) => Err(e),
        }
    }
}

/// The factors `(l, u)` of the square grid `a`, found without any exchange
/// of rows: `l` holds one on the diagonal and the multipliers below it, `u`
/// is `a` after all elimination steps.
pub open spec fn lu<T: Scalar>(a: Seq<Seq<T>>) -> Result<(Seq<Seq<T>>, Seq<Seq<T>>), LinalgError> {
    if a.len() != a[0].len() {
        Err(LinalgError::Dimension)
    } else if has_zero_pivot(a) {
        Err(LinalgError::Singular)
    } else {
        factored(a, (a.len() - 1) as nat)
    }
}

/// Whether the square grid `u` holds zero in every place below the
/// diagonal in the columns before column `k`.
pub open spec fn cleared<T: Scalar>(u: Seq<Seq<T>>, k: int) -> bool {
    forall|i: int, j: int|
        0 <= j < k && j < i < u.len() ==> #[trigger] u[i][j] == T::zero_spec()
}

/// A square grid that is cleared in all columns is upper triangular.
pub proof fn lemma_cleared_is_upper<T: Scalar>(u: Seq<Seq<T>>, k: int)
    requires
        has_shape(u, u.len(), u.len()),
        u.len() > 0,
        cleared(u, k),
        k >= u.len() - 1,
    ensures
        is_upper(u),
{
    T::zero_is_zero();
}

/// An elimination step keeps the shape of the grid, keeps the columns that
/// are cleared so, and clears its own column.
pub proof fn lemma_gauss_step_clears<T: Scalar>(u: Seq<Seq<T>>, k: int)
    requires
        has_shape(u, u.len(), u.len()),
        0 <= k < u.len(),
        cleared(u, k),
    ensures
        gauss_step(u, k) matches Ok(w) ==> has_shape(w, u.len(), u.len()) && cleared(w, k + 1),
{
    if let Ok(w) = gauss_step(u, k) {
        assert forall|i: int, j: int| 0 <= j < k + 1 && j < i < w.len() implies #[trigger] w[i][j]
            == T::zero_spec() by {
            assert(gauss_grid(u, k)[i][j] == Some(w[i][j]));
        }
    }
}

/// After `k` elimination steps without exchange the grid has its shape
/// still and is cleared in the first `k` columns.
pub proof fn lemma_reduced_clears<T: Scalar>(a: Seq<Seq<T>>, k: nat)
    requires
        has_shape(a, a.len(), a.len()),
        k <= a.len(),
    ensures
        reduced(a, k) matches Ok(u) ==> has_shape(u, a.len(), a.len()) && cleared(u, k as int),
    decreases k,
{
    if k > 0 {
        lemma_reduced_clears(a, (k - 1) as nat);
        if let Ok(u) = reduced(a, (k - 1) as nat) {
            lemma_gauss_step_clears(u, k - 1);
        }
    }
}

/// The row picked as pivot row for step `k` is none of the rows before
/// row `k`, and a row of the grid.
pub proof fn lemma_pivot_row_in_range<T: Scalar>(u: Seq<Seq<T>>, k: int, z: int)
    requires
        0 <= k,
    ensures
        k <= pivot_row(u, k, z),
        pivot_row(u, k, z) < z || pivot_row(u, k, z) == k,
    decreases z - k,
{
    if z > k + 1 {
        lemma_pivot_row_in_range(u, k, z - 1);
    }
}

/// With exact scalars, the row picked as pivot row holds the largest entry
/// of column `k` among the rows scanned, and it is the first row that does.
pub proof fn law_pivot_row_is_first_maximum<T: Exact>(u: Seq<Seq<T>>, k: int, z: int)
    requires
        0 <= k < z,
    ensures
        k <= pivot_row(u, k, z) < z,
        forall|a: int| k <= a < z ==> (#[trigger] u[a][k]).val() <= u[pivot_row(u, k, z)][k].val(),
        forall|a: int|
            k <= a < pivot_row(u, k, z) ==> (#[trigger] u[a][k]).val() < u[pivot_row(u, k, z)][k].val(),
    decreases z - k,
{
    if z > k + 1 {
        law_pivot_row_is_first_maximum(u, k, z - 1);
        let best = pivot_row(u, k, z - 1);
        T::gt_exact(u[z - 1][k], u[best][k]);
    }
}

/// After `k` steps with partial pivoting the grid has its shape still and
/// is cleared in the first `k` columns; one row was recorded for each step,
/// and the row recorded for a step is a row of the grid at or below the
/// step's own.
pub proof fn lemma_pivoted_clears<T: Scalar>(a: Seq<Seq<T>>, k: nat)
    requires
        has_shape(a, a.len(), a.len()),
        k <= a.len(),
    ensures
        pivoted(a, k) matches Ok((rows, u)) ==> {
            &&& has_shape(u, a.len(), a.len())
            &&& cleared(u, k as int)
            &&& rows.len() == k
            &&& forall|s: int| 0 <= s < k ==> s <= #[trigger] rows[s] < a.len()
        },
    decreases k,
{
    if k > 0 {
        lemma_pivoted_clears(a, (k - 1) as nat);
        if let Ok((rows, u)) = pivoted(a, (k - 1) as nat) {
            let row = pivot_row(u, k - 1, u.len() as int);
            lemma_pivot_row_in_range(u, k - 1, u.len() as int);
            let v = swapped(u, k - 1, row);
            assert forall|i: int, j: int| 0 <= j < k - 1 && j < i < v.len() implies #[trigger] v[i][j]
                == T::zero_spec() by {
                assert(u[row][j] == T::zero_spec());
                assert(u[k - 1][j] == T::zero_spec());
                assert(u[i][j] == T::zero_spec());
            }
            lemma_gauss_step_clears(v, k - 1);
        }
    }
}

/// The upper-triangular factor found without exchange of rows is upper
/// triangular.
pub proof fn law_upper_factor_is_upper<T: Scalar>(a: Seq<Seq<T>>)
    requires
        has_shape(a, a.len(), a.len()),
        a.len() > 0,
    ensures
        upper_factor(a) matches Ok(u) ==> has_shape(u, a.len(), a.len()) && is_upper(u),
{
    lemma_reduced_clears(a, (a.len() - 1) as nat);
    if let Ok(u) = upper_factor(a) {
        lemma_cleared_is_upper(u, a.len() - 1);
    }
}

/// The factor found with partial pivoting is upper triangular, and the
/// rows recorded are one for each of the `n - 1` steps, each a row of the
/// grid at or below the row of its step.
pub proof fn law_pivoted_factor_is_upper<T: Scalar>(a: Seq<Seq<T>>)
    requires
        has_shape(a, a.len(), a.len()),
        a.len() > 0,
    ensures
        pivoted_factor(a) matches Ok((rows, u)) ==> {
            &&& has_shape(u, a.len(), a.len())
            &&& is_upper(u)
            &&& rows.len() == a.len() - 1
            &&& forall|s: int| 0 <= s < rows.len() ==> s <= #[trigger] rows[s] < a.len()
        },
{
    lemma_pivoted_clears(a, (a.len() - 1) as nat);
    if let Ok((rows, u)) = pivoted_factor(a) {
        lemma_cleared_is_upper(u, a.len() - 1);
    }
}

/// Whether the square grid `l` is a lower factor after `k` steps: one on
/// the diagonal, zero above it, and zero below it from column `k` on.
pub open spec fn lower_factor_upto<T: Scalar>(l: Seq<Seq<T>>, k: int) -> bool {
    forall|i: int, j: int|
        0 <= i < l.len() && 0 <= j < l.len() ==> {
            &&& i == j ==> #[trigger] l[i][j] == T::one_spec()
            &&& (i < j || (j < i && k <= j)) ==> l[i][j] == T::zero_spec()
        }
}

/// A lower factor is lower triangular.
pub proof fn lemma_unit_lower<T: Scalar>(l: Seq<Seq<T>>, k: int)
    requires
        has_shape(l, l.len(), l.len()),
        l.len() > 0,
        lower_factor_upto(l, k),
    ensures
        is_lower(l),
{
    T::zero_is_zero();
    assert forall|i: int, j: int| 0 <= i < l.len() && 0 <= j < l.len() && i < j implies (#[trigger] l[i][j]).is_zero_spec() by {
    }
}

/// After `k` steps of the factorization, the lower factor has one on its
/// diagonal, zero above it and zero below it from column `k` on, and the
/// upper factor is cleared in its first `k` columns.
pub proof fn lemma_factored_patterns<T: Scalar>(a: Seq<Seq<T>>, k: nat)
    requires
        has_shape(a, a.len(), a.len()),
        k <= a.len(),
    ensures
        factored(a, k) matches Ok((l, u)) ==> {
            &&& has_shape(l, a.len(), a.len())
            &&& has_shape(u, a.len(), a.len())
            &&& lower_factor_upto(l, k as int)
            &&& cleared(u, k as int)
        },
    decreases k,
{
    let n = a.len() as int;
    if k > 0 {
        lemma_factored_patterns(a, (k - 1) as nat);
        if let Ok((l2, u2)) = factored(a, k) {
            let (l, u) = factored(a, (k - 1) as nat).unwrap();
            let g = multipliers_grid(l, u, k - 1);
            lemma_settle_ok(g, l2);
            lemma_gauss_step_clears(u, k - 1);
            assert forall|i: int, j: int| 0 <= i < n && 0 <= j < n implies {
                &&& i == j ==> #[trigger] l2[i][j] == T::one_spec()
                &&& (i < j || (j < i && k <= j)) ==> l2[i][j] == T::zero_spec()
            } by {
                assert(g[i][j] == Some(l2[i][j]));
            }
        }
    }
}

/// The upper factor of the factorization is the one that the reduction
/// alone finds: where the factorization of `a` gives `(l, u)`, the upper
/// factor of `a` is `u`.
pub proof fn law_factorization_reduces<T: Scalar>(a: Seq<Seq<T>>)
    ensures
        lu(a) matches Ok((l, u)) ==> upper_factor(a) == Ok::<Seq<Seq<T>>, LinalgError>(u),
{
    if a.len() == a[0].len() {
        lemma_factored_reduces(a, (a.len() - 1) as nat);
    }
}

/// After `k` steps, the upper factor of the factorization is what `k`
/// steps of the reduction alone give.
pub proof fn lemma_factored_reduces<T: Scalar>(a: Seq<Seq<T>>, k: nat)
    ensures
        factored(a, k) matches Ok((l, u)) ==> reduced(a, k) == Ok::<Seq<Seq<T>>, LinalgError>(u),
    decreases k,
{
    if k > 0 {
        lemma_factored_reduces(a, (k - 1) as nat);
    }
}

/// A reduction that has failed stays failed.
pub proof fn lemma_reduced_stays_err<T: Scalar>(a: Seq<Seq<T>>, k: nat, m: nat)
    requires
        k <= m,
        reduced(a, k) is Err,
    ensures
        reduced(a, m) == reduced(a, k),
    decreases m,
{
    if k < m {
        lemma_reduced_stays_err(a, k, (m - 1) as nat);
    }
}

/// A reduction that has failed stays failed.
pub proof fn lemma_pivoted_stays_err<T: Scalar>(a: Seq<Seq<T>>, k: nat, m: nat)
    requires
        k <= m,
        pivoted(a, k) is Err,
    ensures
        pivoted(a, m) == pivoted(a, k),
    decreases m,
{
    if k < m {
        lemma_pivoted_stays_err(a, k, (m - 1) as nat);
    }
}

/// A factorization that has failed stays failed.
pub proof fn lemma_factored_stays_err<T: Scalar>(a: Seq<Seq<T>>, k: nat, m: nat)
    requires
        k <= m,
        factored(a, k) is Err,
    ensures
        factored(a, m) == factored(a, k),
    decreases m,
{
    if k < m {
        lemma_factored_stays_err(a, k, (m - 1) as nat);
    }
}

/// Elimination step `k` on the square matrix `u`: subtracts from each row
/// below row `k` the multiple of row `k` that clears its entry in column
/// `k`.
///
/// Fails with `Singular` where the pivot `u[k][k]` is zero, and with
/// `Arithmetic` where an operation has no result.
pub fn tf_gauss<T: Scalar>(u: &Matrix<T>, k: usize) -> (r: Result<Matrix<T>, LinalgError>)
    requires
        u.wf(),
        u@.len() == u@[0].len(),
        k < u@.len(),
    ensures
        outcome(r) == gauss_step(u@, k as int),
        r matches Ok(w) ==> w.wf(),
{
    let n: usize = u.rows();
    if u.get(k, k).is_zero() {
        return Err(LinalgError::Singular);
    }
    let ghost g = gauss_grid(u@, k as int);
    let mut w = u.duplicate();
    if k + 1 < n {
        let recip = T::one().div(u.get(k, k));
        let mut i: usize = k + 1;
        while i < n
            invariant
                u.wf(),
                w.wf(),
                n == u@.len(),
                n == u@[0].len(),
                has_shape(w@, n as nat, n as nat),
                k + 1 < n,
                k < i <= n,
                g == gauss_grid(u@, k as int),
                !pivot(u@, k as int).is_zero_spec(),
                recip == T::one_spec().div_spec(u@[k as int][k as int]),
                forall|a: int, c: int|
                    0 <= a < i && 0 <= c < n ==> #[trigger] g[a][c] == Some(w@[a][c]),
                forall|a: int, c: int|
                    i <= a < n && 0 <= c < n ==> #[trigger] w@[a][c] == u@[a][c],
            decreases n - i,
        {
            let factor = match recip {
                Some(recip) => recip.mul(u.get(i, k)),
                None => None,
            };
            w.set(i, k, T::zero());
            let mut j: usize = k + 1;
            while j < n
                invariant
                    u.wf(),
                    w.wf(),
                    n == u@.len(),
                    n == u@[0].len(),
                    has_shape(w@, n as nat, n as nat),
                    k < i < n,
                    k < j <= n,
                    g == gauss_grid(u@, k as int),
                    !pivot(u@, k as int).is_zero_spec(),
                    factor == multiplier(u@, k as int, i as int),
                    forall|a: int, c: int|
                        0 <= a < i && 0 <= c < n ==> #[trigger] g[a][c] == Some(w@[a][c]),
                    forall|a: int, c: int|
                        i < a < n && 0 <= c < n ==> #[trigger] w@[a][c] == u@[a][c],
                    forall|c: int| 0 <= c < j ==> #[trigger] g[i as int][c] == Some(w@[i as int][c]),
                    forall|c: int| j <= c < n ==> #[trigger] w@[i as int][c] == u@[i as int][c],
                decreases n - j,
            {
                let v = match factor {
                    Some(f) => match f.mul(u.get(k, j)) {
                        Some(t) => u.get(i, j).sub(t),
                        None => None,
                    },
                    None => None,
                };
                match v {
                    Some(v) => {
                        w.set(i, j, v);
                    },
                    None => {
                        proof {
                            lemma_unsettled(g, i as int, j as int);
                        }
                        return Err(LinalgError::Arithmetic);
                    },
                }
                j = j + 1;
            }
            i = i + 1;
        }
    }
    proof {
        lemma_settled(g, w@);
    }
    Ok(w)
}

/// Puts the multipliers of step `k`, taken from the square matrix `u`, into
/// column `k` of the lower factor `l`, below the diagonal.
///
/// Fails with `Singular` where the pivot `u[k][k]` is zero, and with
/// `Arithmetic` where an operation has no result.
pub fn update_l<T: Scalar>(l: &Matrix<T>, u: &Matrix<T>, k: usize) -> (r: Result<
    Matrix<T>,
    LinalgError,
>)
    requires
        l.wf(),
        u.wf(),
        u@.len() == u@[0].len(),
        has_shape(l@, u@.len(), u@.len()),
        k < u@.len(),
    ensures
        outcome(r) == lower_step(l@, u@, k as int),
        r matches Ok(w) ==> w.wf(),
{
    let n: usize = u.rows();
    if u.get(k, k).is_zero() {
        return Err(LinalgError::Singular);
    }
    let ghost g = multipliers_grid(l@, u@, k as int);
    let mut w = l.duplicate();
    if k + 1 < n {
        let recip = T::one().div(u.get(k, k));
        let mut i: usize = k + 1;
        while i < n
            invariant
                u.wf(),
                l.wf(),
                w.wf(),
                n == u@.len(),
                n == u@[0].len(),
                has_shape(l@, n as nat, n as nat),
                has_shape(w@, n as nat, n as nat),
                k < i <= n,
                g == multipliers_grid(l@, u@, k as int),
                !pivot(u@, k as int).is_zero_spec(),
                recip == T::one_spec().div_spec(u@[k as int][k as int]),
                forall|a: int, c: int|
                    0 <= a < i && 0 <= c < n ==> #[trigger] g[a][c] == Some(w@[a][c]),
                forall|a: int, c: int|
                    i <= a < n && 0 <= c < n ==> #[trigger] w@[a][c] == l@[a][c],
            decreases n - i,
        {
            let factor = match recip {
                Some(recip) => recip.mul(u.get(i, k)),
                None => None,
            };
            match factor {
                Some(f) => {
                    w.set(i, k, f);
                },
                None => {
                    proof {
                        lemma_unsettled(g, i as int, k as int);
                    }
                    return Err(LinalgError::Arithmetic);
                },
            }
            i = i + 1;
        }
    }
    proof {
        lemma_settled(g, w@);
    }
    Ok(w)
}

/// Reduces the square matrix `a` to its upper-triangular factor by
/// elimination, without any exchange of rows.
///
/// Fails with `Dimension` where `a` is not square, with `Singular` where a
/// step meets a zero pivot, and with `Arithmetic` where an operation has no
/// result. What comes out is upper triangular.
pub fn find_u<T: Scalar>(a: &Matrix<T>) -> (r: Result<Matrix<T>, LinalgError>)
    requires
        a.wf(),
    ensures
        outcome(r) == upper_factor(a@),
        r matches Ok(u) ==> u.wf() && has_shape(u@, a@.len(), a@.len()) && is_upper(u@),
{
    if !a.is_square() {
        return Err(LinalgError::Dimension);
    }
    let n: usize = a.rows();
    let mut u = a.duplicate();
    let mut k: usize = 0;
    while k < n - 1
        invariant
            a.wf(),
            u.wf(),
            n == a@.len(),
            n == a@[0].len(),
            has_shape(a@, n as nat, n as nat),
            has_shape(u@, n as nat, n as nat),
            k <= n - 1,
            reduced(a@, k as nat) == Ok::<Seq<Seq<T>>, LinalgError>(u@),
        decreases n - 1 - k,
    {
        match tf_gauss(&u, k) {
            Ok(w) => {
                u = w;
            },
            Err(e) => {
                proof {
                    lemma_reduced_stays_err(a@, (k + 1) as nat, (n - 1) as nat);
                }
                return Err(e);
            },
        }
        k = k + 1;
    }
    proof {
        law_upper_factor_is_upper(a@);
    }
    Ok(u)
}

/// The row to exchange with row `k` of the square matrix `u` before step
/// `k`: the first row, from row `k` down, whose entry in column `k` no later
/// row exceeds in the scan.
pub fn select_pivot<T: Scalar>(u: &Matrix<T>, k: usize) -> (r: usize)
    requires
        u.wf(),
        u@.len() == u@[0].len(),
        k < u@.len(),
    ensures
        r == pivot_row(u@, k as int, u@.len() as int),
        k <= r < u@.len(),
{
    let n: usize = u.rows();
    let mut best: usize = k;
    let mut z: usize = k + 1;
    while z < n
        invariant
            u.wf(),
            n == u@.len(),
            n == u@[0].len(),
            k < z <= n,
            k <= best < z,
            best == pivot_row(u@, k as int, z as int),
        decreases n - z,
    {
        if u.get(z, k).gt(u.get(best, k)) {
            best = z;
        }
        z = z + 1;
    }
    best
}

/// Reduces the square matrix `a` to an upper-triangular factor by
/// elimination with partial pivoting, and records for each step the row
/// that it exchanged with the step's own.
///
/// Fails with `Dimension` where `a` is not square, with `Singular` where
/// the pivot of a step is zero after the exchange, and with `Arithmetic`
/// where an operation has no result. What comes out is upper triangular,
/// with one recorded row for each of the `n - 1` steps, and it is the factor
/// that the reduction without exchange finds for the matrix in which the
/// recorded exchanges were made beforehand.
pub fn find_pu<T: Scalar>(a: &Matrix<T>) -> (r: Result<(Vec<usize>, Matrix<T>), LinalgError>)
    requires
        a.wf(),
    ensures
        match r {
            Ok((rows, u)) => u.wf() && pivoted_factor(a@) == Ok::<
                (Seq<int>, Seq<Seq<T>>),
                LinalgError,
            >((as_ints(rows@), u@)),
            Err(e) => pivoted_factor(a@) == Err::<(Seq<int>, Seq<Seq<T>>), LinalgError>(e),
        },
        r matches Ok((rows, u)) ==> {
            &&& has_shape(u@, a@.len(), a@.len())
            &&& is_upper(u@)
            &&& rows@.len() == a@.len() - 1
            &&& forall|s: int| 0 <= s < rows@.len() ==> s <= #[trigger] rows@[s] < a@.len()
            &&& upper_factor(exchanged(a@, as_ints(rows@), rows@.len())) == Ok::<
                Seq<Seq<T>>,
                LinalgError,
            >(u@)
        },
{
    if !a.is_square() {
        return Err(LinalgError::Dimension);
    }
    let n: usize = a.rows();
    let mut rows: Vec<usize> = Vec::new();
    let mut u = a.duplicate();
    assert(as_ints(rows@) =~= Seq::<int>::empty());
    let mut k: usize = 0;
    while k < n - 1
        invariant
            a.wf(),
            u.wf(),
            n == a@.len(),
            n == a@[0].len(),
            has_shape(a@, n as nat, n as nat),
            has_shape(u@, n as nat, n as nat),
            k <= n - 1,
            pivoted(a@, k as nat) == Ok::<(Seq<int>, Seq<Seq<T>>), LinalgError>(
                (as_ints(rows@), u@),
            ),
        decreases n - 1 - k,
    {
        let ghost before = as_ints(rows@);
        let row = select_pivot(&u, k);
        rows.push(row);
        u.swap_lines(k, row);
        assert(as_ints(rows@) =~= before.push(row as int));
        match tf_gauss(&u, k) {
            Ok(w) => {
                u = w;
            },
            Err(e) => {
                proof {
                    lemma_pivoted_stays_err(a@, (k + 1) as nat, (n - 1) as nat);
                }
                return Err(e);
            },
        }
        k = k + 1;
    }
    proof {
        law_pivoted_factor_is_upper(a@);
        law_pivoting_reduces_exchanged(a@);
        assert forall|s: int| 0 <= s < rows@.len() implies s <= #[trigger] rows@[s] < a@.len() by {
            assert(as_ints(rows@)[s] == rows@[s] as int);
        }
    }
    Ok((rows, u))
}

/// Factors the square matrix `a` into a lower factor with one on the
/// diagonal and an upper-triangular factor, by elimination without any
/// exchange of rows.
///
/// Fails with `Dimension` where `a` is not square, with `Singular` where an
/// entry on the diagonal of `a` is zero or a step meets a zero pivot, and
/// with `Arithmetic` where an operation has no result.
pub fn lu_fact<T: Scalar>(a: &Matrix<T>) -> (r: Result<(Matrix<T>, Matrix<T>), LinalgError>)
    requires
        a.wf(),
    ensures
        match r {
            Ok((l, u)) => l.wf() && u.wf() && lu(a@) == Ok::<
                (Seq<Seq<T>>, Seq<Seq<T>>),
                LinalgError,
            >((l@, u@)),
            Err(e) => lu(a@) == Err::<(Seq<Seq<T>>, Seq<Seq<T>>), LinalgError>(e),
        },
        r matches Ok((l, u)) ==> {
            &&& has_shape(l@, a@.len(), a@.len())
            &&& has_shape(u@, a@.len(), a@.len())
            &&& is_lower(l@)
            &&& is_upper(u@)
        },
{
    if !a.is_square() {
        return Err(LinalgError::Dimension);
    }
    if find_zero_pivot(a) {
        return Err(LinalgError::Singular);
    }
    let n: usize = a.rows();
    let mut u = a.duplicate();
    let mut l = match Matrix::id(n) {
        Ok(l) => l,
        Err(e) => {
            return Err(e);
        },
    };
    let mut k: usize = 0;
    while k < n - 1
        invariant
            a.wf(),
            u.wf(),
            l.wf(),
            n == a@.len(),
            n == a@[0].len(),
            !has_zero_pivot(a@),
            has_shape(a@, n as nat, n as nat),
            has_shape(u@, n as nat, n as nat),
            has_shape(l@, n as nat, n as nat),
            k <= n - 1,
            factored(a@, k as nat) == Ok::<(Seq<Seq<T>>, Seq<Seq<T>>), LinalgError>((l@, u@)),
        decreases n - 1 - k,
    {
        let l2 = match update_l(&l, &u, k) {
            Ok(l2) => l2,
            Err(e) => {
                proof {
                    lemma_factored_stays_err(a@, (k + 1) as nat, (n - 1) as nat);
                }
                return Err(e);
            },
        };
        let u2 = match tf_gauss(&u, k) {
            Ok(u2) => u2,
            Err(e) => {
                proof {
                    lemma_factored_stays_err(a@, (k + 1) as nat, (n - 1) as nat);
                }
                return Err(e);
            },
        };
        l = l2;
        u = u2;
        k = k + 1;
    }
    proof {
        lemma_factored_patterns(a@, (n - 1) as nat);
        lemma_unit_lower(l@, n - 1);
        lemma_cleared_is_upper(u@, n - 1);
    }
    Ok((l, u))
}

} // verus!
