use crate::arith::{close, lemma_settle_ok, product, settle};
use crate::error::LinalgError;
use crate::exact::{
    dot_val, lemma_product_exact, lemma_same_values_close, lemma_zero_product, same_values, terms,
};
use crate::laws::recip_val;
use crate::matrix::{column_of, has_shape};
use crate::palu::{
    cleared, factored, gauss_grid, gauss_step, lemma_cleared_is_upper, lemma_factored_patterns,
    lemma_gauss_step_clears, lemma_unit_lower, lower_factor_upto, lu, multiplier,
    multipliers_grid,
};
use crate::pattern::{identity, is_lower, is_upper};
use crate::scalar::{Exact, Scalar};
use crate::sums::{lemma_sum_add, lemma_sum_single, lemma_sum_split, lemma_sum_zero, sum_over};
use crate::system::pivot;
use vstd::prelude::*;

verus! {

/// The product of the two factors is the matrix: every entry of `a` stands
/// for the product of the row of `l` with the column of `u`.
pub open spec fn multiplies_back<T: Exact>(l: Seq<Seq<T>>, u: Seq<Seq<T>>, a: Seq<Seq<T>>) -> bool {
    forall|i: int, c: int|
        0 <= i < a.len() && 0 <= c < a.len() ==> dot_val(
            l[i],
            column_of(u, c),
            0,
            a.len() as int,
        ) == (#[trigger] a[i][c]).val()
}

/// The algebra of clearing the pivot column: where `r p = 1`, the
/// multiplier `r e` times the pivot `p` is `e`.
pub proof fn lemma_multiplier_clears(r: real, e: real, p: real)
    requires
        r * p == 1real,
    ensures
        (r * e) * p == e,
{
    assert((r * e) * p == (r * p) * e) by (nonlinear_arith);
    assert((r * p) * e == e) by (nonlinear_arith)
        requires
            r * p == 1real,
    ;
}

/// One step of the factorization keeps the product: where `l` times `u`
/// stands for `a` before step `k`, the two factors after the step stand for
/// `a` too, and they keep their patterns of zeros.
pub proof fn lemma_factor_step<T: Exact>(
    a: Seq<Seq<T>>,
    l: Seq<Seq<T>>,
    u: Seq<Seq<T>>,
    k: int,
    l2: Seq<Seq<T>>,
    u2: Seq<Seq<T>>,
)
    requires
        0 <= k < a.len(),
        has_shape(l, a.len(), a.len()),
        has_shape(u, a.len(), a.len()),
        lower_factor_upto(l, k),
        cleared(u, k),
        multiplies_back(l, u, a),
        !pivot(u, k).is_zero_spec(),
        settle(multipliers_grid(l, u, k)) == Ok::<Seq<Seq<T>>, LinalgError>(l2),
        gauss_step(u, k) == Ok::<Seq<Seq<T>>, LinalgError>(u2),
    ensures
        has_shape(l2, a.len(), a.len()),
        has_shape(u2, a.len(), a.len()),
        lower_factor_upto(l2, k + 1),
        cleared(u2, k + 1),
        multiplies_back(l2, u2, a),
{
    let n = a.len() as int;
    let gl = multipliers_grid(l, u, k);
    let gu = gauss_grid(u, k);
    lemma_settle_ok(gl, l2);
    lemma_settle_ok(gu, u2);
    lemma_gauss_step_clears(u, k);
    T::zero_exact();
    T::one_exact();
    assert forall|i: int| 0 <= i < n implies (#[trigger] l2[i]).len() == n by {
        assert(gl[i].len() == n);
    }
    assert forall|i: int, j: int| 0 <= i < n && 0 <= j < n implies {
        &&& i == j ==> #[trigger] l2[i][j] == T::one_spec()
        &&& (i < j || (j < i && k + 1 <= j)) ==> l2[i][j] == T::zero_spec()
    } by {
        assert(gl[i][j] == Some(l2[i][j]));
    }
    assert forall|i: int, c: int| 0 <= i < n && 0 <= c < n implies dot_val(
        l2[i],
        column_of(u2, c),
        0,
        n,
    ) == (#[trigger] a[i][c]).val() by {
        let before = terms(l[i], column_of(u, c));
        let after = terms(l2[i], column_of(u2, c));
        let gain = |m: int| after(m) - before(m);
        assert forall|m: int| 0 <= m < n implies #[trigger] after(m) == before(m) + gain(m) by {
        }
        lemma_sum_add(before, gain, after, 0, n);
        assert(dot_val(l[i], column_of(u, c), 0, n) == a[i][c].val());
        assert forall|m: int| 0 <= m < n && !(i > k && (m == k || m == i)) implies #[trigger] gain(
            m,
        ) == 0real by {
            assert(gl[i][m] == Some(l2[i][m]));
            assert(gu[m][c] == Some(u2[m][c]));
            if m <= k {
                assert(u2[m][c] == u[m][c]);
                assert(l2[i][m] == l[i][m]);
            } else {
                assert(l2[i][m] == l[i][m]);
                if m != i {
                    assert(l[i][m] == T::zero_spec());
                    lemma_zero_product(l[i][m].val(), u[m][c].val());
                    lemma_zero_product(l2[i][m].val(), u2[m][c].val());
                } else {
                    assert(u2[m][c] == u[m][c]);
                }
            }
        }
        if i > k {
            let r = recip_val(u, k);
            let e = u[i][k];
            let f = multiplier(u, k, i).unwrap();
            assert(gl[i][k] == Some(l2[i][k]));
            assert(gu[i][c] == Some(u2[i][c]));
            assert(gu[k][c] == Some(u2[k][c]));
            assert(gl[i][i] == Some(l2[i][i]));
            let inv = T::one_spec().div_spec(u[k][k]).unwrap();
            T::div_exact(T::one_spec(), u[k][k]);
            T::mul_exact(inv, e);
            assert(f.val() == r * e.val());
            // the two terms that change
            assert(l[i][k] == T::zero_spec());
            lemma_zero_product(l[i][k].val(), u[k][c].val());
            assert(gain(k) == f.val() * u[k][c].val());
            assert(l2[i][i] == T::one_spec() && l[i][i] == T::one_spec());
            assert(1real * u2[i][c].val() == u2[i][c].val()) by (nonlinear_arith);
            assert(1real * u[i][c].val() == u[i][c].val()) by (nonlinear_arith);
            assert(gain(i) == u2[i][c].val() - u[i][c].val());
            if c > k {
                let t = f.mul_spec(u[k][c]).unwrap();
                T::mul_exact(f, u[k][c]);
                T::sub_exact(u[i][c], t);
            } else if c == k {
                lemma_multiplier_clears(r, e.val(), u[k][k].val());
            } else {
                assert(u[k][c] == T::zero_spec());
                lemma_zero_product(f.val(), u[k][c].val());
            }
            assert(gain(k) + gain(i) == 0real);
            lemma_sum_split(gain, 0, i, n);
            lemma_sum_single(gain, 0, i, k);
            lemma_sum_split(gain, i, i + 1, n);
            lemma_sum_zero(gain, i + 1, n);
            assert(sum_over(gain, i, i + 1) == sum_over(gain, i, i) + gain(i));
        } else {
            lemma_sum_zero(gain, 0, n);
        }
    }
}

/// After `k` steps of the factorization, the two factors multiply back to
/// the matrix, the lower factor has one on its diagonal and zero above it,
/// and the upper factor is cleared in its first `k` columns.
pub proof fn lemma_factored_exact<T: Exact>(a: Seq<Seq<T>>, k: nat)
    requires
        has_shape(a, a.len(), a.len()),
        k <= a.len(),
    ensures
        factored(a, k) matches Ok((l, u)) ==> {
            &&& has_shape(l, a.len(), a.len())
            &&& has_shape(u, a.len(), a.len())
            &&& lower_factor_upto(l, k as int)
            &&& cleared(u, k as int)
            &&& multiplies_back(l, u, a)
        },
    decreases k,
{
    let n = a.len() as int;
    if k == 0 {
        let l = identity::<T>(a.len());
        T::one_exact();
        T::zero_exact();
        assert forall|i: int, c: int| 0 <= i < n && 0 <= c < n implies dot_val(
            l[i],
            column_of(a, c),
            0,
            n,
        ) == (#[trigger] a[i][c]).val() by {
            let f = terms(l[i], column_of(a, c));
            assert forall|m: int| 0 <= m < n && m != i implies #[trigger] f(m) == 0real by {
                lemma_zero_product(l[i][m].val(), a[m][c].val());
            }
            lemma_sum_single(f, 0, n, i);
            assert(1real * a[i][c].val() == a[i][c].val()) by (nonlinear_arith);
        }
    } else {
        lemma_factored_exact(a, (k - 1) as nat);
        if let Ok((l2, u2)) = factored(a, k) {
            let (l, u) = factored(a, (k - 1) as nat).unwrap();
            lemma_factor_step(a, l, u, k - 1, l2, u2);
        }
    }
}

/// With exact scalars, where the factorization
/// of the square `a` without exchange of rows has the result `(l, u)`, `l`
/// is lower triangular with one on its diagonal, `u` is upper triangular,
/// and the product `l u`, where it has a result, stands for `a`, place by
/// place.
pub proof fn lemma_factors_multiply_back<T: Exact>(
    a: Seq<Seq<T>>,
    l: Seq<Seq<T>>,
    u: Seq<Seq<T>>,
    m: Seq<Seq<T>>,
)
    requires
        has_shape(a, a.len(), a.len()),
        a.len() > 0,
        lu(a) == Ok::<(Seq<Seq<T>>, Seq<Seq<T>>), LinalgError>((l, u)),
        product(l, u) == Ok::<Seq<Seq<T>>, LinalgError>(m),
    ensures
        is_lower(l),
        is_upper(u),
        forall|i: int| 0 <= i < a.len() ==> (#[trigger] l[i][i]).val() == 1real,
        same_values(m, a),
        close(m, a) == Ok::<bool, LinalgError>(true),
{
    let n = a.len() as int;
    lemma_factored_exact(a, (n - 1) as nat);
    lemma_cleared_is_upper(u, n - 1);
    lemma_unit_lower(l, n - 1);
    T::one_exact();
    assert forall|i: int| 0 <= i < n implies (#[trigger] l[i][i]).val() == 1real by {
        assert(l[i][i] == T::one_spec());
    }
    lemma_product_exact(l, u, m);
    assert forall|i: int, c: int| 0 <= i < m.len() && 0 <= c < m[0].len() implies (#[trigger] m[i][c]).val()
        == a[i][c].val() by {
        assert(dot_val(l[i], column_of(u, c), 0, n) == a[i][c].val());
    }
    lemma_same_values_close(m, a);
}

/// A factorization fails only at a zero pivot or for want of a result of
/// an operation.
pub proof fn lemma_factored_fault<T: Scalar>(a: Seq<Seq<T>>, k: nat)
    ensures
        factored(a, k) matches Err(e) ==> e == LinalgError::Singular || e
            == LinalgError::Arithmetic,
    decreases k,
{
    if k > 0 {
        lemma_factored_fault(a, (k - 1) as nat);
    }
}

/// The factors multiply back. With exact scalars, for a square `a`: where
/// the factorization without exchange of rows gives `(l, u)`, `l` is lower
/// triangular with one on its diagonal, `u` is upper triangular, and the
/// product `l u` stands for `a`, place by place, and so is close to it. The
/// factorization fails only at a zero on the diagonal, at a zero pivot, or
/// where an operation has no result; the product only where an operation
/// has no result.
pub proof fn law_factors_multiply_back<T: Exact>(a: Seq<Seq<T>>)
    requires
        has_shape(a, a.len(), a.len()),
        a.len() > 0,
        a.len() * a.len() <= usize::MAX,
    ensures
        match lu(a) {
            Ok((l, u)) => {
                &&& is_lower(l)
                &&& is_upper(u)
                &&& forall|i: int| 0 <= i < a.len() ==> (#[trigger] l[i][i]).val() == 1real
                &&& match product(l, u) {
                    Ok(m) => same_values(m, a) && close(m, a) == Ok::<bool, LinalgError>(true),
                    Err(e) => e == LinalgError::Arithmetic,
                }
            },
            Err(e) => e == LinalgError::Singular || e == LinalgError::Arithmetic,
        },
{
    let n = a.len() as int;
    lemma_factored_fault(a, (n - 1) as nat);
    if let Ok((l, u)) = lu(a) {
        lemma_factored_patterns(a, (n - 1) as nat);
        lemma_cleared_is_upper(u, n - 1);
        lemma_unit_lower(l, n - 1);
        T::one_exact();
        assert forall|i: int| 0 <= i < n implies (#[trigger] l[i][i]).val() == 1real by {
            assert(l[i][i] == T::one_spec());
        }
        if let Ok(m) = product(l, u) {
            lemma_factors_multiply_back(a, l, u, m);
        }
    }
}

} // verus!
