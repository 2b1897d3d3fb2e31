use crate::arith::{
    close, inner, lemma_settle_ok, lemma_settled, lemma_unsettled, outcome, product, settle,
};
use crate::error::LinalgError;
use crate::exact::{
    delta, dot_val, lemma_identity_exact, lemma_inner_exact, lemma_product_exact,
    lemma_same_values_close, lemma_zero_product, same_values, terms,
};
use crate::matrix::{column_of, grid, has_shape, Matrix};
use crate::palu::{cleared, gauss_grid, gauss_step, multiplier};
use crate::pattern::identity;
use crate::scalar::{Exact, Scalar};
use crate::sums::{
    lemma_sum_add, lemma_sum_ext, lemma_sum_single, lemma_sum_split, lemma_sum_zero,
};
use crate::triangular::{absorb_grid, reduce_grid};
use vstd::prelude::*;

verus! {

/// The entries of the elementary matrix `I - t e_j^T` for the column `t`:
/// the identity, with `t` subtracted from column `j`.
pub open spec fn elementary_grid<T: Scalar>(t: Seq<Seq<T>>, j: int) -> Seq<Seq<Option<T>>> {
    grid(
        t.len(),
        t.len(),
        |i: int, c: int|
            if c == j {
                identity::<T>(t.len())[i][c].sub_spec(t[i][0])
            } else {
                Some(identity::<T>(t.len())[i][c])
            },
    )
}

/// The elementary matrix `I - t e_j^T` for the column `t`.
pub open spec fn elementary_matrix<T: Scalar>(t: Seq<Seq<T>>, j: int) -> Result<
    Seq<Seq<T>>,
    LinalgError,
> {
    if t[0].len() != 1 || j >= t.len() || t.len() * t.len() > usize::MAX {
        Err(LinalgError::Dimension)
    } else {
        settle(elementary_grid(t, j))
    }
}

/// The column of the multipliers of elimination step `k` on the square grid
/// `u`: zero down to row `k`, and `(1 / u[k][k]) * u[i][k]` in each row `i`
/// below.
pub open spec fn gauss_tau_grid<T: Scalar>(u: Seq<Seq<T>>, k: int) -> Seq<Seq<Option<T>>> {
    grid(
        u.len(),
        1,
        |i: int, c: int|
            if i <= k {
                Some(T::zero_spec())
            } else {
                multiplier(u, k, i)
            },
    )
}

impl<T: Scalar> Matrix<T> {
    /// The elementary matrix `I - t e_j^T` for the column `self`: the
    /// identity, with the column subtracted from its column `j`.
    ///
    /// Fails with `Dimension` where `self` is not a column, `j` is not one
    /// of its rows, or the matrix would have more than `usize::MAX`
    /// entries, and with `Arithmetic` where a subtraction has no result.
    pub fn elementary(&self, j: usize) -> (r: Result<Matrix<T>, LinalgError>)
        requires
            self.wf(),
        ensures
            outcome(r) == elementary_matrix(self@, j as int),
            r matches Ok(m) ==> m.wf(),
    {
        let n: usize = self.rows();
        if !self.is_column() || j >= n {
            return Err(LinalgError::Dimension);
        }
        let mut m: Matrix<T> = match Matrix::id(n) {
            Ok(m) => m,
            Err(e) => {
                return Err(e);
            },
        };
        let ghost g = elementary_grid(self@, j as int);
        let ghost id = identity::<T>(n as nat);
        let mut i: usize = 0;
        while i < n
            invariant
                self.wf(),
                m.wf(),
                n == self@.len(),
                self@[0].len() == 1,
                j < n,
                n * n <= usize::MAX,
                has_shape(m@, n as nat, n as nat),
                i <= n,
                g == elementary_grid(self@, j as int),
                id == identity::<T>(n as nat),
                forall|a: int, c: int|
                    0 <= a < n && 0 <= c < n && (c != j || a >= i) ==> #[trigger] m@[a][c] == id[a][c],
                forall|a: int| 0 <= a < i ==> #[trigger] g[a][j as int] == Some(m@[a][j as int]),
            decreases n - i,
        {
            match m.get(i, j).sub(self.get(i, 0)) {
                Some(v) => {
                    m.set(i, j, v);
                },
                None => {
                    proof {
                        lemma_unsettled(g, i as int, j as int);
                    }
                    return Err(LinalgError::Arithmetic);
                },
            }
            i = i + 1;
        }
        proof {
            lemma_settled(g, m@);
        }
        Ok(m)
    }
}

/// With exact scalars, the product of a row of the elementary matrix
/// `I - t e_j^T` with a column `v` stands for `v[i] - t[i] v[j]`.
pub proof fn lemma_elementary_row<T: Exact>(
    t: Seq<Seq<T>>,
    j: int,
    m: Seq<Seq<T>>,
    v: Seq<T>,
    i: int,
)
    requires
        elementary_matrix(t, j) == Ok::<Seq<Seq<T>>, LinalgError>(m),
        0 <= j,
        0 <= i < t.len(),
    ensures
        dot_val(m[i], v, 0, t.len() as int) == v[i].val() - t[i][0].val() * v[j].val(),
{
    let n = t.len() as int;
    let g = elementary_grid(t, j);
    lemma_settle_ok(g, m);
    let all = terms(m[i], v);
    let kept = |c: int| delta(i, c) * v[c].val();
    let lost = |c: int| all(c) - kept(c);
    assert forall|c: int| 0 <= c < n implies #[trigger] all(c) == kept(c) + lost(c) by {
    }
    lemma_sum_add(kept, lost, all, 0, n);
    assert forall|c: int| 0 <= c < n && c != i implies #[trigger] kept(c) == 0real by {
        lemma_zero_product(delta(i, c), v[c].val());
    }
    lemma_sum_single(kept, 0, n, i);
    assert(kept(i) == v[i].val()) by {
        assert(1real * v[i].val() == v[i].val()) by (nonlinear_arith);
    }
    assert forall|c: int| 0 <= c < n && c != j implies #[trigger] lost(c) == 0real by {
        assert(g[i][c] == Some(m[i][c]));
        lemma_identity_exact::<T>(t.len(), i, c);
    }
    lemma_sum_single(lost, 0, n, j);
    assert(lost(j) == -(t[i][0].val() * v[j].val())) by {
        assert(g[i][j] == Some(m[i][j]));
        lemma_identity_exact::<T>(t.len(), i, j);
        T::sub_exact(identity::<T>(t.len())[i][j], t[i][0]);
        let d = delta(i, j);
        let a = t[i][0].val();
        let b = v[j].val();
        assert((d - a) * b - d * b == -(a * b)) by (nonlinear_arith);
    }
}

/// With exact scalars, the product of a row `u` with a column of the
/// elementary matrix `I - t e_j^T` stands for the entry of the row in that
/// column, less, in column `j`, the product of the row with `t`.
pub proof fn lemma_elementary_column<T: Exact>(
    t: Seq<Seq<T>>,
    j: int,
    m: Seq<Seq<T>>,
    u: Seq<T>,
    c: int,
)
    requires
        elementary_matrix(t, j) == Ok::<Seq<Seq<T>>, LinalgError>(m),
        0 <= j,
        0 <= c < t.len(),
    ensures
        dot_val(u, column_of(m, c), 0, t.len() as int) == u[c].val() - (if c == j {
            dot_val(u, column_of(t, 0), 0, t.len() as int)
        } else {
            0real
        }),
{
    let n = t.len() as int;
    let g = elementary_grid(t, j);
    lemma_settle_ok(g, m);
    let all = terms(u, column_of(m, c));
    let kept = |a: int| u[a].val() * delta(a, c);
    let lost = |a: int| all(a) - kept(a);
    assert forall|a: int| 0 <= a < n implies #[trigger] all(a) == kept(a) + lost(a) by {
    }
    lemma_sum_add(kept, lost, all, 0, n);
    assert forall|a: int| 0 <= a < n && a != c implies #[trigger] kept(a) == 0real by {
        lemma_zero_product(u[a].val(), delta(a, c));
    }
    lemma_sum_single(kept, 0, n, c);
    assert(kept(c) == u[c].val()) by {
        assert(u[c].val() * 1real == u[c].val()) by (nonlinear_arith);
    }
    if c == j {
        let through = terms(u, column_of(t, 0));
        let minus = |a: int| -through(a);
        assert forall|a: int| 0 <= a < n implies #[trigger] lost(a) == minus(a) by {
            assert(g[a][j] == Some(m[a][j]));
            lemma_identity_exact::<T>(t.len(), a, j);
            T::sub_exact(identity::<T>(t.len())[a][j], t[a][0]);
            let d = delta(a, j);
            let x = t[a][0].val();
            let y = u[a].val();
            assert(y * (d - x) - y * d == -(y * x)) by (nonlinear_arith);
        }
        lemma_sum_ext(lost, minus, 0, n);
        let none = |a: int| 0real;
        assert forall|a: int| 0 <= a < n implies #[trigger] none(a) == through(a) + minus(a) by {
        }
        lemma_sum_add(through, minus, none, 0, n);
        lemma_sum_zero(none, 0, n);
    } else {
        assert forall|a: int| 0 <= a < n implies #[trigger] lost(a) == 0real by {
            assert(g[a][c] == Some(m[a][c]));
            lemma_identity_exact::<T>(t.len(), a, c);
        }
        lemma_sum_zero(lost, 0, n);
    }
}

/// The step of the solve is the product with the elementary matrix. With
/// exact scalars, for a column `t` that is zero above row `j` and a column
/// `x` of its height: where the elementary matrix `I - t e_j^T`, its
/// product with `x`, and the step on `x` in place have results, the product
/// and the step stand for the same real numbers, place by place.
pub proof fn law_step_is_product<T: Exact>(t: Seq<Seq<T>>, j: int, x: Seq<Seq<T>>)
    requires
        has_shape(t, t.len(), 1),
        has_shape(x, t.len(), 1),
        0 <= j < t.len(),
        forall|i: int| 0 <= i < j ==> (#[trigger] t[i][0]).is_zero_spec(),
    ensures
        elementary_matrix(t, j) matches Ok(m) ==> (product(m, x) matches Ok(p) ==> (settle(
            reduce_grid(x, t, j),
        ) matches Ok(w) ==> same_values(p, w) && close(p, w) == Ok::<bool, LinalgError>(true))),
{
    if let Ok(m) = elementary_matrix(t, j) {
        if let Ok(p) = product(m, x) {
            if let Ok(w) = settle(reduce_grid(x, t, j)) {
                let n = t.len() as int;
                let g = reduce_grid(x, t, j);
                lemma_settle_ok(elementary_grid(t, j), m);
                lemma_settle_ok(g, w);
                lemma_product_exact(m, x, p);
                assert(m[0].len() == n) by {
                    assert(elementary_grid(t, j)[0].len() == n);
                }
                assert(w[0].len() == 1) by {
                    assert(g[0].len() == 1);
                }
                assert forall|i: int, c: int|
                    0 <= i < p.len() && 0 <= c < p[0].len() implies (#[trigger] p[i][c]).val()
                    == w[i][c].val() by {
                    let v = column_of(x, 0);
                    lemma_elementary_row(t, j, m, v, i);
                    assert(g[i][0] == Some(w[i][0]));
                    if i < j {
                        T::is_zero_exact(t[i][0]);
                        lemma_zero_product(t[i][0].val(), v[j].val());
                    } else {
                        let d = t[i][0].mul_spec(x[j][0]).unwrap();
                        T::mul_exact(t[i][0], x[j][0]);
                        T::sub_exact(x[i][0], d);
                    }
                }
                lemma_same_values_close(p, w);
            }
        }
    }
}

/// The step of the inversion is the product with the elementary matrix.
/// With exact scalars, for a column `t` that is zero above row `j` and a
/// square `acc` of its height: where the elementary matrix `I - t e_j^T`,
/// the product of `acc` with it, and the step on `acc` in place have
/// results, the product and the step stand for the same real numbers, place
/// by place.
pub proof fn law_absorb_is_product<T: Exact>(t: Seq<Seq<T>>, j: int, acc: Seq<Seq<T>>)
    requires
        has_shape(t, t.len(), 1),
        has_shape(acc, t.len(), t.len()),
        0 <= j < t.len(),
        forall|i: int| 0 <= i < j ==> (#[trigger] t[i][0]).is_zero_spec(),
    ensures
        elementary_matrix(t, j) matches Ok(m) ==> (product(acc, m) matches Ok(p) ==> (settle(
            absorb_grid(acc, t, j),
        ) matches Ok(w) ==> same_values(p, w) && close(p, w) == Ok::<bool, LinalgError>(true))),
{
    if let Ok(m) = elementary_matrix(t, j) {
        if let Ok(p) = product(acc, m) {
            if let Ok(w) = settle(absorb_grid(acc, t, j)) {
                let n = t.len() as int;
                let g = absorb_grid(acc, t, j);
                lemma_settle_ok(elementary_grid(t, j), m);
                lemma_settle_ok(g, w);
                lemma_product_exact(acc, m, p);
                assert(m[0].len() == n) by {
                    assert(elementary_grid(t, j)[0].len() == n);
                }
                assert(w[0].len() == n) by {
                    assert(g[0].len() == n);
                }
                assert forall|i: int, c: int|
                    0 <= i < p.len() && 0 <= c < p[0].len() implies (#[trigger] p[i][c]).val()
                    == w[i][c].val() by {
                    lemma_elementary_column(t, j, m, acc[i], c);
                    assert(g[i][c] == Some(w[i][c]));
                    if c == j {
                        let tc = column_of(t, 0);
                        let s = inner(acc[i], tc, j, n).unwrap();
                        lemma_inner_exact(acc[i], tc, j, n);
                        T::sub_exact(acc[i][j], s);
                        // the part of `t` above row `j` adds nothing
                        lemma_sum_split(terms(acc[i], tc), 0, j, n);
                        assert forall|a: int| 0 <= a < j implies #[trigger] terms(acc[i], tc)(a)
                            == 0real by {
                            T::is_zero_exact(t[a][0]);
                            lemma_zero_product(acc[i][a].val(), t[a][0].val());
                        }
                        lemma_sum_zero(terms(acc[i], tc), 0, j);
                    }
                }
                lemma_same_values_close(p, w);
            }
        }
    }
}

/// The elimination step is the product with the elementary matrix. With
/// exact scalars, for a square `u` that is cleared in the columns before
/// column `k` and whose pivot `u[k][k]` is not zero: where the column of
/// multipliers, the elementary matrix of that column, its product with `u`,
/// and the elimination step in place have results, the product and the
/// step stand for the same real numbers, place by place.
pub proof fn law_elimination_is_product<T: Exact>(u: Seq<Seq<T>>, k: int)
    requires
        has_shape(u, u.len(), u.len()),
        0 <= k < u.len(),
        cleared(u, k),
    ensures
        settle(gauss_tau_grid(u, k)) matches Ok(t) ==> (elementary_matrix(t, k) matches Ok(m) ==> (
        product(m, u) matches Ok(p) ==> (gauss_step(u, k) matches Ok(w) ==> same_values(p, w)
            && close(p, w) == Ok::<bool, LinalgError>(true)))),
{
    if let Ok(t) = settle(gauss_tau_grid(u, k)) {
        if let Ok(m) = elementary_matrix(t, k) {
            if let Ok(p) = product(m, u) {
                if let Ok(w) = gauss_step(u, k) {
                    let n = u.len() as int;
                    let gt = gauss_tau_grid(u, k);
                    let g = gauss_grid(u, k);
                    lemma_settle_ok(gt, t);
                    lemma_settle_ok(elementary_grid(t, k), m);
                    lemma_settle_ok(g, w);
                    lemma_product_exact(m, u, p);
                    T::zero_exact();
                    assert(m[0].len() == n) by {
                        assert(elementary_grid(t, k)[0].len() == n);
                    }
                    assert(w[0].len() == n) by {
                        assert(g[0].len() == n);
                    }
                    assert forall|i: int, c: int|
                        0 <= i < p.len() && 0 <= c < p[0].len() implies (#[trigger] p[i][c]).val()
                        == w[i][c].val() by {
                        let v = column_of(u, c);
                        lemma_elementary_row(t, k, m, v, i);
                        assert(g[i][c] == Some(w[i][c]));
                        assert(gt[i][0] == Some(t[i][0]));
                        if i <= k {
                            lemma_zero_product(t[i][0].val(), v[k].val());
                        } else if c < k {
                            assert(u[k][c] == T::zero_spec());
                            lemma_zero_product(t[i][0].val(), v[k].val());
                        } else if c == k {
                            let r = T::one_spec().div_spec(u[k][k]).unwrap();
                            T::div_exact(T::one_spec(), u[k][k]);
                            T::one_exact();
                            T::mul_exact(r, u[i][k]);
                            let a = r.val();
                            let b = u[i][k].val();
                            let q = u[k][k].val();
                            assert((a * b) * q == b) by (nonlinear_arith)
                                requires
                                    a * q == 1real,
                            ;
                        } else {
                            let d = t[i][0].mul_spec(u[k][c]).unwrap();
                            T::mul_exact(t[i][0], u[k][c]);
                            T::sub_exact(u[i][c], d);
                        }
                    }
                    lemma_same_values_close(p, w);
                }
            }
        }
    }
}

} // verus!
