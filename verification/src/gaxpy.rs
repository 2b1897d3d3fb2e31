use crate::arith::{inner, lemma_settled, lemma_unsettled, row_dot, settle};
use crate::error::LinalgError;
use crate::matrix::{column_of, grid, has_shape, Matrix};
use crate::scalar::{opt_add, Scalar};
use vstd::prelude::*;

verus! {

/// Whether `a x + y` can be formed: `a` has as many columns as `x` has
/// rows, and `y` has the rows of `a` and the columns of `x`.
pub open spec fn compatible<T>(a: Seq<Seq<T>>, x: Seq<Seq<T>>, y: Seq<Seq<T>>) -> bool {
    &&& a[0].len() == x.len()
    &&& a.len() == y.len()
    &&& x[0].len() == y[0].len()
}

/// The entries of `a x + y`, each the product of a row of `a` with a column
/// of `x`, plus the entry of `y`.
pub open spec fn line_grid<T: Scalar>(a: Seq<Seq<T>>, x: Seq<Seq<T>>, y: Seq<Seq<T>>) -> Seq<
    Seq<Option<T>>,
> {
    grid(
        y.len(),
        y[0].len(),
        |i: int, c: int| opt_add(inner(a[i], column_of(x, c), 0, x.len() as int), Some(y[i][c])),
    )
}

/// `a x + y`, formed row by row.
pub open spec fn line_update<T: Scalar>(a: Seq<Seq<T>>, x: Seq<Seq<T>>, y: Seq<Seq<T>>) -> Result<
    Seq<Seq<T>>,
    LinalgError,
> {
    if compatible(a, x, y) {
        settle(line_grid(a, x, y))
    } else {
        Err(LinalgError::Dimension)
    }
}

/// The entries of `y` after column `j` of `a`, times row `j` of `x`, has
/// been added to it: `x[j][c] * a[i][j] + y[i][c]`.
pub open spec fn column_grid<T: Scalar>(
    a: Seq<Seq<T>>,
    x: Seq<Seq<T>>,
    y: Seq<Seq<T>>,
    j: int,
) -> Seq<Seq<Option<T>>> {
    grid(
        y.len(),
        y[0].len(),
        |i: int, c: int| opt_add(x[j][c].mul_spec(a[i][j]), Some(y[i][c])),
    )
}

/// `y` after the contributions of the columns `0` to `j - 1` of `a` have
/// been added to it, one column after the other.
pub open spec fn column_upto<T: Scalar>(
    a: Seq<Seq<T>>,
    x: Seq<Seq<T>>,
    y: Seq<Seq<T>>,
    j: nat,
) -> Result<Seq<Seq<T>>, LinalgError>
    decreases j,
{
    if j == 0 {
        Ok(y)
    } else {
        match column_upto(a, x, y, (j - 1) as nat) {
            Ok(w) => settle(column_grid(a, x, w, j - 1)),
            Err(e) => Err(e),
        }
    }
}

/// `a x + y`, formed column by column.
pub open spec fn column_update<T: Scalar>(
    a: Seq<Seq<T>>,
    x: Seq<Seq<T>>,
    y: Seq<Seq<T>>,
) -> Result<Seq<Seq<T>>, LinalgError> {
    if compatible(a, x, y) {
        column_upto(a, x, y, x.len())
    } else {
        Err(LinalgError::Dimension)
    }
}

/// An update by columns that has failed stays failed.
pub proof fn lemma_column_upto_stays_err<T: Scalar>(
    a: Seq<Seq<T>>,
    x: Seq<Seq<T>>,
    y: Seq<Seq<T>>,
    j: nat,
    k: nat,
)
    requires
        j <= k,
        column_upto(a, x, y, j) is Err,
    ensures
        column_upto(a, x, y, k) == column_upto(a, x, y, j),
    decreases k,
{
    if j < k {
        lemma_column_upto_stays_err(a, x, y, j, (k - 1) as nat);
    }
}

/// Replaces `y` by `a x + y`, one row of the result at a time: each entry
/// is the product of a row of `a` with a column of `x`, plus the entry of
/// `y`.
///
/// Fails with `Dimension` where the three shapes do not go together, and
/// with `Arithmetic` where an operation has no result; `y` then stays as it
/// was.
pub fn gaxpy_line<T: Scalar>(a: Matrix<T>, x: &Matrix<T>, y: &mut Matrix<T>) -> (r: Result<
    (),
    LinalgError,
>)
    requires
        a.wf(),
        x.wf(),
        old(y).wf(),
    ensures
        final(y).wf(),
        match line_update(a@, x@, old(y)@) {
            Ok(s) => r is Ok && final(y)@ == s,
            Err(e) => r == Err::<(), LinalgError>(e) && final(y)@ == old(y)@,
        },
{
    let n: usize = a.rows();
    let q: usize = a.cols();
    let p: usize = x.cols();
    if q != x.rows() || n != y.rows() || p != y.cols() {
        return Err(LinalgError::Dimension);
    }
    let ghost g = line_grid(a@, x@, y@);
    let mut w = y.duplicate();
    let mut i: usize = 0;
    while i < n
        invariant
            a.wf(),
            x.wf(),
            y.wf(),
            w.wf(),
            y@ == old(y)@,
            n == a@.len(),
            q == a@[0].len(),
            q == x@.len(),
            p == x@[0].len(),
            has_shape(y@, n as nat, p as nat),
            has_shape(w@, n as nat, p as nat),
            i <= n,
            g == line_grid(a@, x@, y@),
            forall|r: int, c: int| 0 <= r < i && 0 <= c < p ==> #[trigger] g[r][c] == Some(w@[r][c]),
        decreases n - i,
    {
        let mut c: usize = 0;
        while c < p
            invariant
                a.wf(),
                x.wf(),
                y.wf(),
                w.wf(),
                y@ == old(y)@,
                n == a@.len(),
                q == a@[0].len(),
                q == x@.len(),
                p == x@[0].len(),
                has_shape(y@, n as nat, p as nat),
                has_shape(w@, n as nat, p as nat),
                i < n,
                c <= p,
                g == line_grid(a@, x@, y@),
                forall|r: int, c: int|
                    0 <= r < i && 0 <= c < p ==> #[trigger] g[r][c] == Some(w@[r][c]),
                forall|d: int| 0 <= d < c ==> #[trigger] g[i as int][d] == Some(w@[i as int][d]),
            decreases p - c,
        {
            let v = match row_dot(&a, i, x, c, 0, q) {
                Some(s) => s.add(y.get(i, c)),
                None => None,
            };
            match v {
                Some(v) => {
                    w.set(i, c, v);
                },
                None => {
                    proof {
                        lemma_unsettled(g, i as int, c as int);
                    }
                    return Err(LinalgError::Arithmetic);
                },
            }
            c = c + 1;
        }
        i = i + 1;
    }
    proof {
        lemma_settled(g, w@);
    }
    *y = w;
    Ok(())
}

/// Replaces `y` by `a x + y`, one column of `a` at a time: the
/// contribution of column `j` of `a`, times row `j` of `x`, is added to the
/// whole of `y` before the next column is taken.
///
/// Fails with `Dimension` where the three shapes do not go together, and
/// with `Arithmetic` where an operation has no result; `y` then stays as it
/// was.
pub fn gaxpy_column<T: Scalar>(a: Matrix<T>, x: &Matrix<T>, y: &mut Matrix<T>) -> (r: Result<
    (),
    LinalgError,
>)
    requires
        a.wf(),
        x.wf(),
        old(y).wf(),
    ensures
        final(y).wf(),
        match column_update(a@, x@, old(y)@) {
            Ok(s) => r is Ok && final(y)@ == s,
            Err(e) => r == Err::<(), LinalgError>(e) && final(y)@ == old(y)@,
        },
{
    let n: usize = a.rows();
    let q: usize = a.cols();
    let p: usize = x.cols();
    if q != x.rows() || n != y.rows() || p != y.cols() {
        return Err(LinalgError::Dimension);
    }
    let mut w = y.duplicate();
    let mut j: usize = 0;
    while j < q
        invariant
            a.wf(),
            x.wf(),
            y.wf(),
            w.wf(),
            y@ == old(y)@,
            n == a@.len(),
            q == a@[0].len(),
            q == x@.len(),
            p == x@[0].len(),
            has_shape(y@, n as nat, p as nat),
            has_shape(w@, n as nat, p as nat),
            j <= q,
            column_upto(a@, x@, y@, j as nat) == Ok::<Seq<Seq<T>>, LinalgError>(w@),
        decreases q - j,
    {
        let ghost before = w@;
        let ghost g = column_grid(a@, x@, before, j as int);
        let mut i: usize = 0;
        while i < n
            invariant
                a.wf(),
                x.wf(),
                y.wf(),
                w.wf(),
                y@ == old(y)@,
                n == a@.len(),
                q == a@[0].len(),
                q == x@.len(),
                p == x@[0].len(),
                has_shape(y@, n as nat, p as nat),
                has_shape(w@, n as nat, p as nat),
                has_shape(before, n as nat, p as nat),
                j < q,
                i <= n,
                g == column_grid(a@, x@, before, j as int),
                column_upto(a@, x@, y@, j as nat) == Ok::<Seq<Seq<T>>, LinalgError>(before),
                forall|r: int, c: int|
                    0 <= r < i && 0 <= c < p ==> #[trigger] g[r][c] == Some(w@[r][c]),
                forall|r: int, c: int|
                    i <= r < n && 0 <= c < p ==> #[trigger] w@[r][c] == before[r][c],
            decreases n - i,
        {
            let mut c: usize = 0;
            while c < p
                invariant
                    a.wf(),
                    x.wf(),
                    y.wf(),
                    w.wf(),
                    y@ == old(y)@,
                    n == a@.len(),
                    q == a@[0].len(),
                    q == x@.len(),
                    p == x@[0].len(),
                    has_shape(y@, n as nat, p as nat),
                    has_shape(w@, n as nat, p as nat),
                    has_shape(before, n as nat, p as nat),
                    j < q,
                    i < n,
                    c <= p,
                    g == column_grid(a@, x@, before, j as int),
                    column_upto(a@, x@, y@, j as nat) == Ok::<Seq<Seq<T>>, LinalgError>(before),
                    forall|r: int, c: int|
                        0 <= r < i && 0 <= c < p ==> #[trigger] g[r][c] == Some(w@[r][c]),
                    forall|r: int, c: int|
                        i < r < n && 0 <= c < p ==> #[trigger] w@[r][c] == before[r][c],
                    forall|d: int| 0 <= d < c ==> #[trigger] g[i as int][d] == Some(w@[i as int][d]),
                    forall|d: int| c <= d < p ==> #[trigger] w@[i as int][d] == before[i as int][d],
                decreases p - c,
            {
                let v = match x.get(j, c).mul(a.get(i, j)) {
                    Some(t) => t.add(w.get(i, c)),
                    None => None,
                };
                match v {
                    Some(v) => {
                        w.set(i, c, v);
                    },
                    None => {
                        proof {
                            lemma_unsettled(g, i as int, c as int);
                            lemma_column_upto_stays_err(a@, x@, y@, (j + 1) as nat, q as nat);
                        }
                        return Err(LinalgError::Arithmetic);
                    },
                }
                c = c + 1;
            }
            i = i + 1;
        }
        proof {
            lemma_settled(g, w@);
        }
        j = j + 1;
    }
    *y = w;
    Ok(())
}

} // verus!
