use crate::arith::{
    close, inner, lemma_settle_ok, lemma_unsettled, product, product_grid, sum, sum_grid,
};
use crate::diag::{diagonal_solution, quotient_grid};
use crate::error::LinalgError;
use crate::exact::{
    delta, dot_val, lemma_dot_around, lemma_dot_ext, lemma_dot_zero, lemma_identity_exact,
    lemma_inner_exact, lemma_product_exact, lemma_same_values_close, lemma_zero_product,
    same_values, terms,
};
use crate::gaxpy::{
    column_grid, column_update, column_upto, compatible, line_grid, line_update,
};
use crate::matrix::{column_of, has_shape, is_grid};
use crate::scalar::{Exact, Scalar};
use crate::sums::{
    lemma_sum_add, lemma_sum_scale, lemma_sum_single, lemma_sum_swap, lemma_sum_zero, sum_over,
};
use crate::pattern::{identity, is_diagonal, is_lower, is_upper};
use crate::system::{has_zero_pivot, pivot, system_fault};
use crate::triangular::{
    absorb_grid, backward, backward_entry, elementary, elementary_solution, forward,
    forward_entry, inverse, inverse_upto, lemma_backward_shape, lemma_forward_shape,
    lower_solution, reduce_grid, tau, tau_grid, upper_solution,
};
use vstd::prelude::*;

verus! {

/// With exact scalars, where `d` is
/// diagonal without a zero on the diagonal and `b` is a column of its
/// height, and the solve and the product have results, the product of `d`
/// with the solution of `d x = b` is `b` again, place by place.
pub proof fn lemma_diagonal_solves<T: Exact>(
    d: Seq<Seq<T>>,
    b: Seq<Seq<T>>,
    x: Seq<Seq<T>>,
    m: Seq<Seq<T>>,
)
    requires
        is_grid(d),
        is_grid(b),
        diagonal_solution(d, b) == Ok::<Seq<Seq<T>>, LinalgError>(x),
        product(d, x) == Ok::<Seq<Seq<T>>, LinalgError>(m),
    ensures
        same_values(m, b),
        close(m, b) == Ok::<bool, LinalgError>(true),
{
    let n = d.len() as int;
    lemma_settle_ok(quotient_grid(d, b), x);
    lemma_product_exact(d, x, m);
    assert forall|i: int, j: int| 0 <= i < m.len() && 0 <= j < m[0].len() implies (#[trigger] m[i][j]).val()
        == b[i][j].val() by {
        let u = d[i];
        let v = column_of(x, 0);
        let f = terms(u, v);
        assert forall|k: int| 0 <= k < n && k != i implies #[trigger] f(k) == 0real by {
            T::is_zero_exact(d[i][k]);
            lemma_zero_product(u[k].val(), v[k].val());
        }
        lemma_sum_single(f, 0, n, i);
        assert(quotient_grid(d, b)[i][0] == Some(x[i][0]));
        T::div_exact(b[i][0], d[i][i]);
        assert(m[i][j].val() == dot_val(u, v, 0, n));
        assert(f(i) == d[i][i].val() * x[i][0].val());
        assert(d[i][i].val() * x[i][0].val() == x[i][0].val() * d[i][i].val()) by (nonlinear_arith);
    }
    lemma_same_values_close(m, b);
}

/// Row `i` of the lower-triangular system `l x = b` holds of `x`, as far as
/// the entries of `l` up to the diagonal go.
pub open spec fn lower_row_holds<T: Exact>(
    l: Seq<Seq<T>>,
    b: Seq<Seq<T>>,
    x: Seq<Seq<T>>,
    i: int,
) -> bool {
    x[i][0].val() * l[i][i].val() == b[i][0].val() - dot_val(l[i], column_of(x, 0), 0, i)
}

/// Row `i` of the upper-triangular system `u x = b` holds of `x`, as far as
/// the entries of `u` from the diagonal on go.
pub open spec fn upper_row_holds<T: Exact>(
    u: Seq<Seq<T>>,
    b: Seq<Seq<T>>,
    x: Seq<Seq<T>>,
    i: int,
) -> bool {
    x[i][0].val() * u[i][i].val() == b[i][0].val() - dot_val(
        u[i],
        column_of(x, 0),
        i + 1,
        b.len() as int,
    )
}

/// After forward substitution has found the first `i` unknowns, the rows
/// before row `i` hold.
pub proof fn lemma_forward_rows<T: Exact>(l: Seq<Seq<T>>, b: Seq<Seq<T>>, i: nat)
    requires
        i <= b.len(),
    ensures
        forward(l, b, i) matches Some(x) ==> has_shape(x, b.len(), 1) && forall|k: int|
            0 <= k < i ==> #[trigger] lower_row_holds(l, b, x, k),
    decreases i,
{
    if i > 0 {
        lemma_forward_rows(l, b, (i - 1) as nat);
        if let Some(x) = forward(l, b, i) {
            let y = forward(l, b, (i - 1) as nat).unwrap();
            let v = forward_entry(l, b, y, i - 1).unwrap();
            assert forall|k: int| 0 <= k < i implies #[trigger] lower_row_holds(l, b, x, k) by {
                lemma_dot_ext(l[k], column_of(x, 0), l[k], column_of(y, 0), 0, k);
                if k < i - 1 {
                    assert(lower_row_holds(l, b, y, k));
                } else {
                    let s = inner(l[k], column_of(y, 0), 0, k).unwrap();
                    let d = b[k][0].sub_spec(s).unwrap();
                    lemma_inner_exact(l[k], column_of(y, 0), 0, k);
                    T::sub_exact(b[k][0], s);
                    T::div_exact(d, l[k][k]);
                    assert(x[k][0] == v);
                }
            }
        }
    }
}

/// After backward substitution has found the unknowns from row `i` on, the
/// rows from row `i` on hold.
pub proof fn lemma_backward_rows<T: Exact>(u: Seq<Seq<T>>, b: Seq<Seq<T>>, i: int)
    requires
        0 <= i <= b.len(),
    ensures
        backward(u, b, i) matches Some(x) ==> has_shape(x, b.len(), 1) && forall|k: int|
            i <= k < b.len() ==> #[trigger] upper_row_holds(u, b, x, k),
    decreases b.len() - i,
{
    let n = b.len() as int;
    if i < n {
        lemma_backward_rows(u, b, i + 1);
        if let Some(x) = backward(u, b, i) {
            let y = backward(u, b, i + 1).unwrap();
            let v = backward_entry(u, b, y, i).unwrap();
            assert forall|k: int| i <= k < n implies #[trigger] upper_row_holds(u, b, x, k) by {
                lemma_dot_ext(u[k], column_of(x, 0), u[k], column_of(y, 0), k + 1, n);
                if k > i {
                    assert(upper_row_holds(u, b, y, k));
                } else {
                    assert(x[k][0] == v);
                    if i == n - 1 {
                        T::div_exact(b[k][0], u[k][k]);
                    } else {
                        let s = inner(u[k], column_of(y, 0), k + 1, n).unwrap();
                        let d = b[k][0].sub_spec(s).unwrap();
                        lemma_inner_exact(u[k], column_of(y, 0), k + 1, n);
                        T::sub_exact(b[k][0], s);
                        T::div_exact(d, u[k][k]);
                    }
                }
            }
        }
    }
}

/// With exact scalars, where `l` is
/// lower triangular without a zero on the diagonal and `b` is a column of
/// its height, and the solve and the product have results, the product of
/// `l` with the solution of `l x = b` is `b` again, place by place.
pub proof fn lemma_forward_solves<T: Exact>(
    l: Seq<Seq<T>>,
    b: Seq<Seq<T>>,
    x: Seq<Seq<T>>,
    m: Seq<Seq<T>>,
)
    requires
        is_grid(l),
        is_grid(b),
        lower_solution(l, b) == Ok::<Seq<Seq<T>>, LinalgError>(x),
        product(l, x) == Ok::<Seq<Seq<T>>, LinalgError>(m),
    ensures
        same_values(m, b),
        close(m, b) == Ok::<bool, LinalgError>(true),
{
    let n = l.len() as int;
    lemma_forward_rows(l, b, b.len());
    lemma_product_exact(l, x, m);
    assert forall|i: int, j: int| 0 <= i < m.len() && 0 <= j < m[0].len() implies (#[trigger] m[i][j]).val()
        == b[i][j].val() by {
        let v = column_of(x, 0);
        assert(lower_row_holds(l, b, x, i));
        lemma_dot_around(l[i], v, 0, i, n);
        assert forall|k: int| i + 1 <= k < n implies (#[trigger] l[i][k]).is_zero_spec() by {
        }
        lemma_dot_zero(l[i], v, i + 1, n);
        assert(l[i][i].val() * v[i].val() == x[i][0].val() * l[i][i].val()) by (nonlinear_arith)
            requires
                v[i] == x[i][0],
        ;
    }
    lemma_same_values_close(m, b);
}

/// With exact scalars, where `u` is
/// upper triangular without a zero on the diagonal and `b` is a column of
/// its height, and the solve and the product have results, the product of
/// `u` with the solution of `u x = b` is `b` again, place by place.
pub proof fn lemma_backward_solves<T: Exact>(
    u: Seq<Seq<T>>,
    b: Seq<Seq<T>>,
    x: Seq<Seq<T>>,
    m: Seq<Seq<T>>,
)
    requires
        is_grid(u),
        is_grid(b),
        upper_solution(u, b) == Ok::<Seq<Seq<T>>, LinalgError>(x),
        product(u, x) == Ok::<Seq<Seq<T>>, LinalgError>(m),
    ensures
        same_values(m, b),
        close(m, b) == Ok::<bool, LinalgError>(true),
{
    let n = u.len() as int;
    lemma_backward_rows(u, b, 0);
    lemma_product_exact(u, x, m);
    assert forall|i: int, j: int| 0 <= i < m.len() && 0 <= j < m[0].len() implies (#[trigger] m[i][j]).val()
        == b[i][j].val() by {
        let v = column_of(x, 0);
        assert(upper_row_holds(u, b, x, i));
        lemma_dot_around(u[i], v, 0, i, n);
        assert forall|k: int| 0 <= k < i implies (#[trigger] u[i][k]).is_zero_spec() by {
        }
        lemma_dot_zero(u[i], v, 0, i);
        assert(u[i][i].val() * v[i].val() == x[i][0].val() * u[i][i].val()) by (nonlinear_arith)
            requires
                v[i] == x[i][0],
        ;
    }
    lemma_same_values_close(m, b);
}

/// The update by rows is the direct computation. With any scalars, where
/// the shapes of `a`, `x` and `y` go together, `a x + y` formed row by row
/// is the sum of the matrix product `a x` and `y`, operation by operation;
/// and it fails where the product does.
pub proof fn law_gaxpy_line_is_direct<T: Scalar>(a: Seq<Seq<T>>, x: Seq<Seq<T>>, y: Seq<Seq<T>>)
    requires
        is_grid(a),
        is_grid(x),
        is_grid(y),
        compatible(a, x, y),
        y.len() * y[0].len() <= usize::MAX,
    ensures
        line_update(a, x, y) == (match product(a, x) {
            Ok(m) => sum(m, y),
            Err(e) => Err(e),
        }),
{
    let g = product_grid(a, x);
    let h = line_grid(a, x, y);
    match product(a, x) {
        Ok(m) => {
            lemma_settle_ok(g, m);
            assert(m[0].len() == g[0].len());
            assert(sum_grid(m, y) =~~= h);
        },
        Err(e) => {
            let (i, c) = choose|i: int, c: int|
                0 <= i < g.len() && 0 <= c < g[i].len() && (#[trigger] g[i][c]) is None;
            assert(h[i][c] is None);
            lemma_unsettled(h, i, c);
        },
    }
}

/// After the contributions of the first `j` columns, every entry of the
/// update by columns stands for the entry of `y` plus the sum of the first
/// `j` products of its row of `a` and its column of `x`.
pub proof fn lemma_column_upto_exact<T: Exact>(
    a: Seq<Seq<T>>,
    x: Seq<Seq<T>>,
    y: Seq<Seq<T>>,
    j: nat,
)
    requires
        is_grid(y),
        j <= x.len(),
    ensures
        column_upto(a, x, y, j) matches Ok(w) ==> has_shape(w, y.len(), y[0].len()) && forall|
            i: int,
            c: int,
        |
            0 <= i < y.len() && 0 <= c < y[0].len() ==> (#[trigger] w[i][c]).val() == y[i][c].val()
                + dot_val(a[i], column_of(x, c), 0, j as int),
    decreases j,
{
    if j > 0 {
        lemma_column_upto_exact(a, x, y, (j - 1) as nat);
        if let Ok(w) = column_upto(a, x, y, j) {
            let v = column_upto(a, x, y, (j - 1) as nat).unwrap();
            let g = column_grid(a, x, v, j - 1);
            lemma_settle_ok(g, w);
            assert forall|i: int, c: int| 0 <= i < y.len() && 0 <= c < y[0].len() implies (#[trigger] w[i][c]).val()
                == y[i][c].val() + dot_val(a[i], column_of(x, c), 0, j as int) by {
                assert(g[i][c] == Some(w[i][c]));
                let t = x[j - 1][c].mul_spec(a[i][j - 1]).unwrap();
                T::mul_exact(x[j - 1][c], a[i][j - 1]);
                T::add_exact(t, v[i][c]);
                assert(v[i][c].val() == y[i][c].val() + dot_val(
                    a[i],
                    column_of(x, c),
                    0,
                    j - 1,
                ));
                let f = terms(a[i], column_of(x, c));
                assert(sum_over(f, 0, j as int) == sum_over(f, 0, j - 1) + f(j - 1));
                assert(x[j - 1][c].val() * a[i][j - 1].val() == a[i][j - 1].val() * x[j - 1][c].val())
                    by (nonlinear_arith);
            }
            assert forall|i: int| 0 <= i < y.len() implies (#[trigger] w[i]).len() == y[0].len() by {
                assert(g[i].len() == y[0].len());
            }
        }
    }
}

/// With exact scalars, where the shapes of `a`, `x`
/// and `y` go together and both updates have results, `a x + y` formed
/// column by column stands for the same real numbers as `a x + y` formed
/// row by row, place by place.
pub proof fn lemma_updates_agree<T: Exact>(
    a: Seq<Seq<T>>,
    x: Seq<Seq<T>>,
    y: Seq<Seq<T>>,
    by_line: Seq<Seq<T>>,
    by_column: Seq<Seq<T>>,
)
    requires
        is_grid(a),
        is_grid(x),
        is_grid(y),
        line_update(a, x, y) == Ok::<Seq<Seq<T>>, LinalgError>(by_line),
        column_update(a, x, y) == Ok::<Seq<Seq<T>>, LinalgError>(by_column),
    ensures
        same_values(by_column, by_line),
        close(by_column, by_line) == Ok::<bool, LinalgError>(true),
{
    let q = x.len();
    let h = line_grid(a, x, y);
    lemma_settle_ok(h, by_line);
    lemma_column_upto_exact(a, x, y, q);
    assert(by_line[0].len() == h[0].len());
    assert forall|i: int, c: int|
        0 <= i < by_column.len() && 0 <= c < by_column[0].len() implies (#[trigger] by_column[i][c]).val()
        == by_line[i][c].val() by {
        assert(h[i][c] == Some(by_line[i][c]));
        let s = inner(a[i], column_of(x, c), 0, q as int).unwrap();
        lemma_inner_exact(a[i], column_of(x, c), 0, q as int);
        T::add_exact(s, y[i][c]);
    }
    lemma_same_values_close(by_column, by_line);
}

/// The real number `1 / l[j][j]`, as the scalars compute it.
pub open spec fn recip_val<T: Exact>(l: Seq<Seq<T>>, j: int) -> real {
    T::one_spec().div_spec(l[j][j]).unwrap().val()
}

/// What the column that defines the elementary matrix of column `j` stands
/// for: zero above row `j`, `1 - r` in row `j` and `r * l[i][j]` below,
/// where `r` is the reciprocal of `l[j][j]`.
pub proof fn lemma_tau_exact<T: Exact>(l: Seq<Seq<T>>, j: int, t: Seq<Seq<T>>)
    requires
        0 <= j < l.len(),
        tau(l, j) == Ok::<Seq<Seq<T>>, LinalgError>(t),
    ensures
        has_shape(t, l.len(), 1),
        recip_val(l, j) * l[j][j].val() == 1real,
        t[j][0].val() == 1real - recip_val(l, j),
        forall|i: int| 0 <= i < j ==> (#[trigger] t[i][0]).val() == 0real,
        forall|i: int| j < i < l.len() ==> (#[trigger] t[i][0]).val() == recip_val(l, j) * l[i][j].val(),
{
    let g = tau_grid(l, j);
    lemma_settle_ok(g, t);
    let one = T::one_spec();
    assert(g[j][0] == Some(t[j][0]));
    let r = one.div_spec(l[j][j]).unwrap();
    T::one_exact();
    T::zero_exact();
    T::div_exact(one, l[j][j]);
    T::sub_exact(one, r);
    assert forall|i: int| 0 <= i < l.len() implies (#[trigger] t[i]).len() == 1 by {
        assert(g[i].len() == 1);
    }
    assert forall|i: int| 0 <= i < j implies (#[trigger] t[i][0]).val() == 0real by {
        assert(g[i][0] == Some(t[i][0]));
    }
    assert forall|i: int| j < i < l.len() implies (#[trigger] t[i][0]).val() == recip_val(l, j)
        * l[i][j].val() by {
        assert(g[i][0] == Some(t[i][0]));
        T::mul_exact(r, l[i][j]);
    }
}

/// Row `i` of `l x = b` is still open after the first `j` elementary
/// matrices: the entry of `v` in that row is `b[i]` less the products of
/// the entries of `l` in the first `j` columns with the unknowns found.
pub open spec fn lower_row_open<T: Exact>(
    l: Seq<Seq<T>>,
    b: Seq<Seq<T>>,
    v: Seq<Seq<T>>,
    i: int,
    j: int,
) -> bool {
    v[i][0].val() == b[i][0].val() - dot_val(l[i], column_of(v, 0), 0, j)
}

/// The algebra of one elementary step on the pivot row: `v - (1 - r) v` is
/// `r v`, and times `p` it is `v` again where `r p = 1`.
pub proof fn lemma_pivot_row_step(v: real, r: real, p: real, w: real)
    requires
        r * p == 1real,
        w == v - (1real - r) * v,
    ensures
        w == r * v,
        w * p == v,
{
    assert(v - (1real - r) * v == r * v) by (nonlinear_arith);
    assert((r * v) * p == (r * p) * v) by (nonlinear_arith);
    assert((r * p) * v == v) by (nonlinear_arith)
        requires
            r * p == 1real,
    ;
}

/// The algebra of one elementary step on a row below the pivot row:
/// `(r e) v` is `e (r v)`.
pub proof fn lemma_lower_row_step(e: real, r: real, v: real)
    ensures
        (r * e) * v == e * (r * v),
{
    assert((r * e) * v == e * (r * v)) by (nonlinear_arith);
}

/// After the elementary matrices of the first `j` columns, the rows before
/// row `j` of `l x = b` hold, and the rows from row `j` on are open.
pub proof fn lemma_elementary_rows<T: Exact>(l: Seq<Seq<T>>, b: Seq<Seq<T>>, j: nat)
    requires
        has_shape(b, l.len(), 1),
        j <= l.len(),
    ensures
        elementary(l, b, j) matches Ok(v) ==> {
            &&& has_shape(v, l.len(), 1)
            &&& forall|i: int| 0 <= i < j ==> #[trigger] lower_row_holds(l, b, v, i)
            &&& forall|i: int| j <= i < l.len() ==> #[trigger] lower_row_open(l, b, v, i, j as int)
        },
    decreases j,
{
    let n = l.len() as int;
    if j == 0 {
        assert forall|i: int| 0 <= i < n implies #[trigger] lower_row_open(l, b, b, i, 0) by {
        }
    } else {
        lemma_elementary_rows(l, b, (j - 1) as nat);
        if let Ok(w) = elementary(l, b, j) {
            let k = j - 1;
            let v = elementary(l, b, k as nat).unwrap();
            let t = tau(l, k).unwrap();
            let g = reduce_grid(v, t, k);
            lemma_tau_exact(l, k, t);
            lemma_settle_ok(g, w);
            let r = recip_val(l, k);
            assert forall|i: int| 0 <= i < n implies (#[trigger] w[i]).len() == 1 by {
                assert(g[i].len() == 1);
            }
            assert forall|i: int| 0 <= i < k implies (#[trigger] w[i][0]) == v[i][0] by {
                assert(g[i][0] == Some(w[i][0]));
            }
            // the pivot row
            assert(g[k][0] == Some(w[k][0]));
            let tk = t[k][0].mul_spec(v[k][0]).unwrap();
            T::mul_exact(t[k][0], v[k][0]);
            T::sub_exact(v[k][0], tk);
            lemma_pivot_row_step(v[k][0].val(), r, l[k][k].val(), w[k][0].val());
            assert(lower_row_open(l, b, v, k, k));
            assert forall|i: int| 0 <= i < j implies #[trigger] lower_row_holds(l, b, w, i) by {
                lemma_dot_ext(l[i], column_of(w, 0), l[i], column_of(v, 0), 0, i);
                if i < k {
                    assert(lower_row_holds(l, b, v, i));
                }
            }
            assert forall|i: int| j <= i < n implies #[trigger] lower_row_open(
                l,
                b,
                w,
                i,
                j as int,
            ) by {
                assert(g[i][0] == Some(w[i][0]));
                let ti = t[i][0].mul_spec(v[k][0]).unwrap();
                T::mul_exact(t[i][0], v[k][0]);
                T::sub_exact(v[i][0], ti);
                assert(lower_row_open(l, b, v, i, k));
                lemma_lower_row_step(l[i][k].val(), r, v[k][0].val());
                lemma_dot_ext(l[i], column_of(w, 0), l[i], column_of(v, 0), 0, k);
                let f = terms(l[i], column_of(w, 0));
                assert(sum_over(f, 0, j as int) == sum_over(f, 0, k) + f(k));
            }
        }
    }
}

/// A lower-triangular system without a zero on its diagonal has one
/// solution: two columns of which every row holds stand for the same real
/// numbers in the first `i` rows.
pub proof fn lemma_lower_unique<T: Exact>(
    l: Seq<Seq<T>>,
    b: Seq<Seq<T>>,
    x: Seq<Seq<T>>,
    y: Seq<Seq<T>>,
    i: nat,
)
    requires
        i <= l.len(),
        !has_zero_pivot(l),
        has_shape(x, l.len(), 1),
        has_shape(y, l.len(), 1),
        forall|k: int| 0 <= k < l.len() ==> #[trigger] lower_row_holds(l, b, x, k),
        forall|k: int| 0 <= k < l.len() ==> #[trigger] lower_row_holds(l, b, y, k),
    ensures
        forall|k: int| 0 <= k < i ==> (#[trigger] x[k][0]).val() == y[k][0].val(),
    decreases i,
{
    if i > 0 {
        lemma_lower_unique(l, b, x, y, (i - 1) as nat);
        let k = i - 1;
        assert(lower_row_holds(l, b, x, k));
        assert(lower_row_holds(l, b, y, k));
        lemma_dot_ext(l[k], column_of(x, 0), l[k], column_of(y, 0), 0, k);
        assert(!pivot(l, k).is_zero_spec());
        T::is_zero_exact(l[k][k]);
        let p = l[k][k].val();
        let a = x[k][0].val();
        let c = y[k][0].val();
        assert(a == c) by (nonlinear_arith)
            requires
                a * p == c * p,
                p != 0real,
        ;
    }
}

/// With exact
/// scalars, where `l` is lower triangular without a zero on the diagonal
/// and `b` is a column of its height, and both solvers have results, the
/// solution by forward substitution and the solution by elementary matrices
/// stand for the same real numbers, place by place.
pub proof fn lemma_solvers_agree<T: Exact>(
    l: Seq<Seq<T>>,
    b: Seq<Seq<T>>,
    x: Seq<Seq<T>>,
    y: Seq<Seq<T>>,
)
    requires
        is_grid(l),
        is_grid(b),
        lower_solution(l, b) == Ok::<Seq<Seq<T>>, LinalgError>(x),
        elementary_solution(l, b) == Ok::<Seq<Seq<T>>, LinalgError>(y),
    ensures
        same_values(x, y),
        close(x, y) == Ok::<bool, LinalgError>(true),
{
    assert(system_fault(l, b, true, false) is None);
    lemma_forward_rows(l, b, b.len());
    lemma_elementary_rows(l, b, l.len());
    lemma_lower_unique(l, b, x, y, l.len());
    lemma_same_values_close(x, y);
}

/// Column `c` of the product of elementary matrices is done, seen from row
/// `i`: times the diagonal entry of `l` it is the entry of the identity
/// less the products of the row with the part of column `c` of `l` below
/// the diagonal.
pub open spec fn column_done<T: Exact>(l: Seq<Seq<T>>, acc: Seq<Seq<T>>, i: int, c: int) -> bool {
    acc[i][c].val() * l[c][c].val() == delta(i, c) - dot_val(
        acc[i],
        column_of(l, c),
        c + 1,
        l.len() as int,
    )
}

/// The algebra of one step of the inversion: where `r p = 1` and
/// `w = d - (d (1 - r) + r s)`, `w p` is `d - s`.
pub proof fn lemma_absorb_step(d: real, r: real, p: real, s: real, w: real)
    requires
        r * p == 1real,
        w == d - (d * (1real - r) + r * s),
    ensures
        w * p == d - s,
{
    assert(d - (d * (1real - r) + r * s) == r * (d - s)) by (nonlinear_arith);
    assert((r * (d - s)) * p == (r * p) * (d - s)) by (nonlinear_arith);
    assert((r * p) * (d - s) == d - s) by (nonlinear_arith)
        requires
            r * p == 1real,
    ;
}

/// After the elementary matrices of the last `s` columns have been
/// multiplied in, the columns before them are those of the identity still,
/// and the last `s` columns are done.
pub proof fn lemma_inverse_columns<T: Exact>(l: Seq<Seq<T>>, s: nat)
    requires
        has_shape(l, l.len(), l.len()),
        s <= l.len(),
    ensures
        inverse_upto(l, s) matches Ok(acc) ==> {
            &&& has_shape(acc, l.len(), l.len())
            &&& forall|i: int, c: int|
                0 <= i < l.len() && 0 <= c < l.len() - s ==> #[trigger] acc[i][c] == identity::<T>(
                    l.len(),
                )[i][c]
            &&& forall|i: int, c: int|
                0 <= i < l.len() && l.len() - s <= c < l.len() ==> #[trigger] column_done(
                    l,
                    acc,
                    i,
                    c,
                )
        },
    decreases s,
{
    let n = l.len() as int;
    if s > 0 {
        lemma_inverse_columns(l, (s - 1) as nat);
        if let Ok(next) = inverse_upto(l, s) {
            let acc = inverse_upto(l, (s - 1) as nat).unwrap();
            let j = n - s;
            let t = tau(l, j).unwrap();
            let g = absorb_grid(acc, t, j);
            lemma_tau_exact(l, j, t);
            lemma_settle_ok(g, next);
            let r = recip_val(l, j);
            assert forall|i: int| 0 <= i < n implies (#[trigger] next[i]).len() == n by {
                assert(g[i].len() == n);
            }
            assert forall|i: int, c: int| 0 <= i < n && 0 <= c < n && c != j implies (#[trigger] next[i][c])
                == acc[i][c] by {
                assert(g[i][c] == Some(next[i][c]));
            }
            assert forall|i: int, c: int| 0 <= i < n && j <= c < n implies #[trigger] column_done(
                l,
                next,
                i,
                c,
            ) by {
                lemma_dot_ext(next[i], column_of(l, c), acc[i], column_of(l, c), c + 1, n);
                if c > j {
                    assert(column_done(l, acc, i, c));
                } else {
                    assert(g[i][j] == Some(next[i][j]));
                    let u = acc[i];
                    let v = column_of(t, 0);
                    let w = inner(u, v, j, n).unwrap();
                    lemma_inner_exact(u, v, j, n);
                    T::sub_exact(acc[i][j], w);
                    lemma_dot_around(u, v, j, j, n);
                    let base = terms(u, column_of(l, j));
                    let scaled = terms(u, v);
                    assert forall|m: int| j + 1 <= m < n implies #[trigger] scaled(m) == r * base(
                        m,
                    ) by {
                        assert(t[m][0].val() == r * l[m][j].val());
                        lemma_lower_row_step(u[m].val(), r, l[m][j].val());
                        assert(u[m].val() * (r * l[m][j].val()) == r * (u[m].val() * l[m][j].val()))
                            by (nonlinear_arith);
                    }
                    lemma_sum_scale(base, scaled, r, j + 1, n);
                    assert(acc[i][j] == identity::<T>(l.len())[i][j]);
                    lemma_identity_exact::<T>(l.len(), i, j);
                    lemma_absorb_step(
                        delta(i, j),
                        r,
                        l[j][j].val(),
                        dot_val(u, column_of(l, j), j + 1, n),
                        next[i][j].val(),
                    );
                }
            }
        }
    }
}

/// The real number that the product of row `i` of `l` with column `c` of
/// `x` stands for.
pub open spec fn row_times_column<T: Exact>(l: Seq<Seq<T>>, x: Seq<Seq<T>>, i: int, c: int) -> real {
    dot_val(l[i], column_of(x, c), 0, l.len() as int)
}

/// Where every column of `x` is done and the columns after column `c` of
/// the product `l x` are those of the identity, so is the entry in row `i`
/// of column `c`.
pub proof fn lemma_right_inverse_entry<T: Exact>(l: Seq<Seq<T>>, x: Seq<Seq<T>>, i: int, c: int)
    requires
        has_shape(l, l.len(), l.len()),
        has_shape(x, l.len(), l.len()),
        is_lower(l),
        !has_zero_pivot(l),
        0 <= i < l.len(),
        0 <= c < l.len(),
        forall|a: int, k: int|
            0 <= a < l.len() && 0 <= k < l.len() ==> #[trigger] column_done(l, x, a, k),
        forall|m: int| c < m < l.len() ==> #[trigger] row_times_column(l, x, i, m) == delta(i, m),
    ensures
        row_times_column(l, x, i, c) == delta(i, c),
{
    let n = l.len() as int;
    let p = l[c][c].val();
    assert(!pivot(l, c).is_zero_spec());
    T::is_zero_exact(l[c][c]);
    let y = row_times_column(l, x, i, c);
    let direct = terms(l[i], column_of(x, c));
    // every term of the product, times the diagonal entry
    let h = |a: int| l[i][a].val() * (x[a][c].val() * p);
    assert forall|a: int| 0 <= a < n implies #[trigger] h(a) == p * direct(a) by {
        assert(l[i][a].val() * (x[a][c].val() * p) == p * (l[i][a].val() * x[a][c].val()))
            by (nonlinear_arith);
    }
    lemma_sum_scale(direct, h, p, 0, n);
    // the same terms through the columns that are done
    let e = |a: int| l[i][a].val() * delta(a, c);
    let f = |a: int, m: int| l[i][a].val() * (x[a][m].val() * l[m][c].val());
    let rows = |a: int| l[i][a].val() * dot_val(x[a], column_of(l, c), c + 1, n);
    let cols = |m: int| l[m][c].val() * row_times_column(l, x, i, m);
    assert forall|a: int| 0 <= a < n implies #[trigger] e(a) == h(a) + rows(a) by {
        assert(column_done(l, x, a, c));
        let d = dot_val(x[a], column_of(l, c), c + 1, n);
        assert(l[i][a].val() * delta(a, c) == l[i][a].val() * (x[a][c].val() * p) + l[i][a].val()
            * d) by (nonlinear_arith)
            requires
                x[a][c].val() * p == delta(a, c) - d,
        ;
    }
    lemma_sum_add(h, rows, e, 0, n);
    assert forall|a: int| 0 <= a < n && a != c implies #[trigger] e(a) == 0real by {
        lemma_zero_product(l[i][a].val(), delta(a, c));
    }
    lemma_sum_single(e, 0, n, c);
    assert(e(c) == l[i][c].val()) by {
        assert(l[i][c].val() * 1real == l[i][c].val()) by (nonlinear_arith);
    }
    assert forall|a: int| 0 <= a < n implies #[trigger] rows(a) == sum_over(
        |m: int| f(a, m),
        c + 1,
        n,
    ) by {
        let base = terms(x[a], column_of(l, c));
        let fa = |m: int| f(a, m);
        assert forall|m: int| c + 1 <= m < n implies #[trigger] fa(m) == l[i][a].val() * base(m) by {
        }
        lemma_sum_scale(base, fa, l[i][a].val(), c + 1, n);
    }
    assert forall|m: int| c + 1 <= m < n implies #[trigger] cols(m) == sum_over(
        |a: int| f(a, m),
        0,
        n,
    ) by {
        let base = terms(l[i], column_of(x, m));
        let fm = |a: int| f(a, m);
        assert forall|a: int| 0 <= a < n implies #[trigger] fm(a) == l[m][c].val() * base(a) by {
            assert(l[i][a].val() * (x[a][m].val() * l[m][c].val()) == l[m][c].val() * (l[i][a].val()
                * x[a][m].val())) by (nonlinear_arith);
        }
        lemma_sum_scale(base, fm, l[m][c].val(), 0, n);
    }
    lemma_sum_swap(f, rows, cols, 0, n, c + 1, n);
    // the columns after column c are those of the identity
    assert forall|m: int| c + 1 <= m < n && m != i implies #[trigger] cols(m) == 0real by {
        assert(row_times_column(l, x, i, m) == delta(i, m));
        lemma_zero_product(l[m][c].val(), delta(i, m));
    }
    if i > c {
        lemma_sum_single(cols, c + 1, n, i);
        assert(row_times_column(l, x, i, i) == delta(i, i));
        assert(cols(i) == l[i][c].val()) by {
            assert(l[i][c].val() * 1real == l[i][c].val()) by (nonlinear_arith);
        }
    } else {
        lemma_sum_zero(cols, c + 1, n);
        if i < c {
            assert(l[i][c].is_zero_spec());
            T::is_zero_exact(l[i][c]);
        }
    }
    assert(y == delta(i, c)) by (nonlinear_arith)
        requires
            p != 0real,
            p * y == (if i == c {
                p
            } else {
                0real
            }),
            delta(i, c) == (if i == c {
                1real
            } else {
                0real
            }),
    ;
}

/// Where every column of `x` is done, the columns from column `c` on of
/// the product `l x` are those of the identity.
pub proof fn lemma_right_inverse<T: Exact>(l: Seq<Seq<T>>, x: Seq<Seq<T>>, c: int)
    requires
        has_shape(l, l.len(), l.len()),
        has_shape(x, l.len(), l.len()),
        is_lower(l),
        !has_zero_pivot(l),
        0 <= c <= l.len(),
        forall|a: int, k: int|
            0 <= a < l.len() && 0 <= k < l.len() ==> #[trigger] column_done(l, x, a, k),
    ensures
        forall|i: int, m: int|
            0 <= i < l.len() && c <= m < l.len() ==> #[trigger] row_times_column(l, x, i, m)
                == delta(i, m),
    decreases l.len() - c,
{
    if c < l.len() {
        lemma_right_inverse(l, x, c + 1);
        assert forall|i: int, m: int| 0 <= i < l.len() && c <= m < l.len() implies #[trigger] row_times_column(
            l,
            x,
            i,
            m,
        ) == delta(i, m) by {
            if m == c {
                lemma_right_inverse_entry(l, x, i, c);
            }
        }
    }
}

/// With exact scalars, where `l` is lower
/// triangular without a zero on the diagonal, and the inversion and the
/// product have results, the product of `l` with its inverse stands for the
/// identity, place by place.
pub proof fn lemma_inverse_inverts<T: Exact>(l: Seq<Seq<T>>, x: Seq<Seq<T>>, m: Seq<Seq<T>>)
    requires
        is_grid(l),
        inverse(l) == Ok::<Seq<Seq<T>>, LinalgError>(x),
        product(l, x) == Ok::<Seq<Seq<T>>, LinalgError>(m),
    ensures
        same_values(m, identity::<T>(l.len())),
        close(m, identity::<T>(l.len())) == Ok::<bool, LinalgError>(true),
{
    let n = l.len();
    lemma_inverse_columns(l, n);
    lemma_right_inverse(l, x, 0);
    lemma_product_exact(l, x, m);
    let id = identity::<T>(n);
    assert forall|i: int, c: int| 0 <= i < m.len() && 0 <= c < m[0].len() implies (#[trigger] m[i][c]).val()
        == id[i][c].val() by {
        assert(row_times_column(l, x, i, c) == delta(i, c));
        lemma_identity_exact::<T>(n, i, c);
    }
    lemma_same_values_close(m, id);
}

/// A product of elementary matrices fails only for want of a result of an
/// operation.
pub proof fn lemma_elementary_fault<T: Scalar>(l: Seq<Seq<T>>, b: Seq<Seq<T>>, j: nat)
    ensures
        elementary(l, b, j) matches Err(e) ==> e == LinalgError::Arithmetic,
    decreases j,
{
    if j > 0 {
        lemma_elementary_fault(l, b, (j - 1) as nat);
    }
}

/// A product of elementary matrices fails only for want of a result of an
/// operation.
pub proof fn lemma_inverse_fault<T: Scalar>(l: Seq<Seq<T>>, s: nat)
    ensures
        inverse_upto(l, s) matches Err(e) ==> e == LinalgError::Arithmetic,
    decreases s,
{
    if s > 0 {
        lemma_inverse_fault(l, (s - 1) as nat);
    }
}

/// An update by columns fails only for want of a result of an operation.
pub proof fn lemma_column_upto_fault<T: Scalar>(
    a: Seq<Seq<T>>,
    x: Seq<Seq<T>>,
    y: Seq<Seq<T>>,
    j: nat,
)
    ensures
        column_upto(a, x, y, j) matches Err(e) ==> e == LinalgError::Arithmetic,
    decreases j,
{
    if j > 0 {
        lemma_column_upto_fault(a, x, y, (j - 1) as nat);
    }
}

/// Round trip of the diagonal solve. With exact scalars, for a diagonal
/// `d` without a zero on its diagonal and a column `b` of its height: the
/// product of `d` with the solution of `d x = b` is `b` again, place by
/// place, and so is close to `b`. The solve and the product fail only where
/// an operation has no result.
pub proof fn law_diagonal_round_trip<T: Exact>(d: Seq<Seq<T>>, b: Seq<Seq<T>>)
    requires
        is_grid(d),
        is_grid(b),
        d.len() <= usize::MAX,
        is_diagonal(d),
        !has_zero_pivot(d),
        b[0].len() == 1,
        b.len() == d.len(),
    ensures
        match diagonal_solution(d, b) {
            Ok(x) => match product(d, x) {
                Ok(m) => same_values(m, b) && close(m, b) == Ok::<bool, LinalgError>(true),
                Err(e) => e == LinalgError::Arithmetic,
            },
            Err(e) => e == LinalgError::Arithmetic,
        },
{
    if let Ok(x) = diagonal_solution(d, b) {
        lemma_settle_ok(quotient_grid(d, b), x);
        assert(x[0].len() == quotient_grid(d, b)[0].len());
        if let Ok(m) = product(d, x) {
            lemma_diagonal_solves(d, b, x, m);
        }
    }
}

/// Round trip of forward substitution. With exact scalars, for a
/// lower-triangular `l` without a zero on its diagonal and a column `b` of
/// its height: the product of `l` with the solution of `l x = b` is `b`
/// again, place by place, and so is close to `b`. The solve and the product
/// fail only where an operation has no result.
pub proof fn law_lower_round_trip<T: Exact>(l: Seq<Seq<T>>, b: Seq<Seq<T>>)
    requires
        is_grid(l),
        is_grid(b),
        l.len() <= usize::MAX,
        is_lower(l),
        !has_zero_pivot(l),
        b[0].len() == 1,
        b.len() == l.len(),
    ensures
        match lower_solution(l, b) {
            Ok(x) => match product(l, x) {
                Ok(m) => same_values(m, b) && close(m, b) == Ok::<bool, LinalgError>(true),
                Err(e) => e == LinalgError::Arithmetic,
            },
            Err(e) => e == LinalgError::Arithmetic,
        },
{
    if let Ok(x) = lower_solution(l, b) {
        lemma_forward_shape(l, b, b.len());
        if let Ok(m) = product(l, x) {
            lemma_forward_solves(l, b, x, m);
        }
    }
}

/// Round trip of backward substitution. With exact scalars, for an
/// upper-triangular `u` without a zero on its diagonal and a column `b` of
/// its height: the product of `u` with the solution of `u x = b` is `b`
/// again, place by place, and so is close to `b`. The solve and the product
/// fail only where an operation has no result.
pub proof fn law_upper_round_trip<T: Exact>(u: Seq<Seq<T>>, b: Seq<Seq<T>>)
    requires
        is_grid(u),
        is_grid(b),
        u.len() <= usize::MAX,
        is_upper(u),
        !has_zero_pivot(u),
        b[0].len() == 1,
        b.len() == u.len(),
    ensures
        match upper_solution(u, b) {
            Ok(x) => match product(u, x) {
                Ok(m) => same_values(m, b) && close(m, b) == Ok::<bool, LinalgError>(true),
                Err(e) => e == LinalgError::Arithmetic,
            },
            Err(e) => e == LinalgError::Arithmetic,
        },
{
    if let Ok(x) = upper_solution(u, b) {
        lemma_backward_shape(u, b, 0);
        if let Ok(m) = product(u, x) {
            lemma_backward_solves(u, b, x, m);
        }
    }
}

/// Cross-validation of the two lower-triangular solvers. With exact
/// scalars, for a lower-triangular `l` without a zero on its diagonal and a
/// column `b` of its height: the solution by forward substitution and the
/// solution by elementary matrices stand for the same real numbers, place
/// by place, and so are close. Either solver fails only where an operation
/// has no result.
pub proof fn law_lower_solvers_agree<T: Exact>(l: Seq<Seq<T>>, b: Seq<Seq<T>>)
    requires
        is_grid(l),
        is_grid(b),
        is_lower(l),
        !has_zero_pivot(l),
        b[0].len() == 1,
        b.len() == l.len(),
    ensures
        match lower_solution(l, b) {
            Ok(x) => match elementary_solution(l, b) {
                Ok(y) => same_values(x, y) && close(x, y) == Ok::<bool, LinalgError>(true),
                Err(e) => e == LinalgError::Arithmetic,
            },
            Err(e) => e == LinalgError::Arithmetic,
        },
        elementary_solution(l, b) matches Err(e) ==> e == LinalgError::Arithmetic,
{
    lemma_elementary_fault(l, b, l.len());
    if let Ok(x) = lower_solution(l, b) {
        if let Ok(y) = elementary_solution(l, b) {
            lemma_solvers_agree(l, b, x, y);
        }
    }
}

/// Inversion. With exact scalars, for a lower-triangular `l` without a
/// zero on its diagonal: the product of `l` with its inverse stands for the
/// identity, place by place, and so is close to it. The inversion and the
/// product fail only where an operation has no result.
pub proof fn law_inverse<T: Exact>(l: Seq<Seq<T>>)
    requires
        is_grid(l),
        l.len() * l.len() <= usize::MAX,
        is_lower(l),
        !has_zero_pivot(l),
    ensures
        match inverse(l) {
            Ok(x) => match product(l, x) {
                Ok(m) => same_values(m, identity::<T>(l.len())) && close(
                    m,
                    identity::<T>(l.len()),
                ) == Ok::<bool, LinalgError>(true),
                Err(e) => e == LinalgError::Arithmetic,
            },
            Err(e) => e == LinalgError::Arithmetic,
        },
{
    lemma_inverse_fault(l, l.len());
    if let Ok(x) = inverse(l) {
        lemma_inverse_columns(l, l.len());
        if let Ok(m) = product(l, x) {
            lemma_inverse_inverts(l, x, m);
        }
    }
}

/// The two updates agree. With exact scalars, for `a`, `x` and `y` whose
/// shapes go together: `a x + y` formed column by column stands for the
/// same real numbers as `a x + y` formed row by row, place by place, and so
/// the two are close. Either update fails only where an operation has no
/// result.
pub proof fn law_gaxpy_agree<T: Exact>(a: Seq<Seq<T>>, x: Seq<Seq<T>>, y: Seq<Seq<T>>)
    requires
        is_grid(a),
        is_grid(x),
        is_grid(y),
        compatible(a, x, y),
    ensures
        match line_update(a, x, y) {
            Ok(by_line) => match column_update(a, x, y) {
                Ok(by_column) => same_values(by_column, by_line) && close(by_column, by_line)
                    == Ok::<bool, LinalgError>(true),
                Err(e) => e == LinalgError::Arithmetic,
            },
            Err(e) => e == LinalgError::Arithmetic,
        },
        column_update(a, x, y) matches Err(e) ==> e == LinalgError::Arithmetic,
{
    lemma_column_upto_fault(a, x, y, x.len());
    if let Ok(by_line) = line_update(a, x, y) {
        if let Ok(by_column) = column_update(a, x, y) {
            lemma_updates_agree(a, x, y, by_line, by_column);
        }
    }
}

} // verus!
