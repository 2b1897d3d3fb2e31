use crate::arith::{close, inner, lemma_settle_ok, product, product_grid, same_shape};
use crate::error::LinalgError;
use crate::matrix::{column_of, has_shape};
use crate::pattern::identity;
use crate::scalar::{tolerance, Exact};
use crate::sums::{lemma_sum_ext, lemma_sum_split, lemma_sum_zero, sum_over};
use vstd::prelude::*;

verus! {

/// The products `u[m] * v[m]` as real numbers.
pub open spec fn terms<T: Exact>(u: Seq<T>, v: Seq<T>) -> spec_fn(int) -> real {
    |m: int| u[m].val() * v[m].val()
}

/// The real number `sum of u[m] * v[m]` for `m` from `lo` up to, not
/// including, `hi`.
pub open spec fn dot_val<T: Exact>(u: Seq<T>, v: Seq<T>, lo: int, hi: int) -> real {
    sum_over(terms(u, v), lo, hi)
}

/// Whether two grids have one shape and stand for the same real number in
/// every place.
pub open spec fn same_values<T: Exact>(a: Seq<Seq<T>>, b: Seq<Seq<T>>) -> bool {
    &&& same_shape(a, b)
    &&& forall|i: int, j: int|
        0 <= i < a.len() && 0 <= j < a[0].len() ==> (#[trigger] a[i][j]).val() == b[i][j].val()
}

/// With exact scalars, a sum of products that has a value has the value of
/// the real sum.
pub proof fn lemma_inner_exact<T: Exact>(u: Seq<T>, v: Seq<T>, lo: int, hi: int)
    ensures
        inner(u, v, lo, hi) matches Some(s) ==> s.val() == dot_val(u, v, lo, hi),
    decreases hi - lo,
{
    if hi <= lo {
        T::zero_exact();
    } else {
        lemma_inner_exact(u, v, lo, hi - 1);
        if let Some(s) = inner(u, v, lo, hi) {
            let before = inner(u, v, lo, hi - 1).unwrap();
            let t = u[hi - 1].mul_spec(v[hi - 1]).unwrap();
            T::mul_exact(u[hi - 1], v[hi - 1]);
            T::add_exact(before, t);
        }
    }
}

/// With exact scalars, every entry of a matrix product that has a value
/// has the value of the real sum of products.
pub proof fn lemma_product_exact<T: Exact>(a: Seq<Seq<T>>, b: Seq<Seq<T>>, m: Seq<Seq<T>>)
    requires
        product(a, b) == Ok::<Seq<Seq<T>>, LinalgError>(m),
    ensures
        has_shape(m, a.len(), b[0].len()),
        forall|i: int, c: int|
            0 <= i < a.len() && 0 <= c < b[0].len() ==> (#[trigger] m[i][c]).val() == dot_val(
                a[i],
                column_of(b, c),
                0,
                a[0].len() as int,
            ),
{
    let g = product_grid(a, b);
    lemma_settle_ok(g, m);
    assert forall|i: int, c: int| 0 <= i < a.len() && 0 <= c < b[0].len() implies (#[trigger] m[i][c]).val()
        == dot_val(a[i], column_of(b, c), 0, a[0].len() as int) by {
        assert(g[i][c] == Some(m[i][c]));
        lemma_inner_exact(a[i], column_of(b, c), 0, a[0].len() as int);
    }
    assert forall|i: int| 0 <= i < a.len() implies (#[trigger] m[i]).len() == b[0].len() by {
        assert(g[i].len() == b[0].len());
    }
}

/// Grids that stand for the same real numbers are close.
pub proof fn lemma_same_values_close<T: Exact>(a: Seq<Seq<T>>, b: Seq<Seq<T>>)
    requires
        same_values(a, b),
    ensures
        close(a, b) == Ok::<bool, LinalgError>(true),
{
    assert forall|i: int, j: int| 0 <= i < a.len() && 0 <= j < a[0].len() implies (#[trigger] a[i][j]).close_spec(
        b[i][j],
    ) by {
        T::close_exact(a[i][j], b[i][j]);
    }
}

/// With exact scalars, two grids of one shape are close where, in every
/// place, the real numbers that they stand for differ by no more than the
/// tolerance, and only there.
pub proof fn law_close_is_within_tolerance<T: Exact>(a: Seq<Seq<T>>, b: Seq<Seq<T>>)
    requires
        same_shape(a, b),
    ensures
        close(a, b) == Ok::<bool, LinalgError>(
            forall|i: int, j: int|
                0 <= i < a.len() && 0 <= j < a[0].len() ==> -tolerance() <= (#[trigger] a[i][j]).val()
                    - b[i][j].val() <= tolerance(),
        ),
{
    assert forall|i: int, j: int| 0 <= i < a.len() && 0 <= j < a[0].len() implies ((#[trigger] a[i][j]).close_spec(
        b[i][j],
    ) <==> -tolerance() <= a[i][j].val() - b[i][j].val() <= tolerance()) by {
        T::close_exact(a[i][j], b[i][j]);
    }
}

/// A product with a factor that is zero is zero.
pub proof fn lemma_zero_product(a: real, b: real)
    requires
        a == 0real || b == 0real,
    ensures
        a * b == 0real,
{
    assert(a * b == 0real) by (nonlinear_arith)
        requires
            a == 0real || b == 0real,
    ;
}

/// A sum of products depends only on the real numbers that the entries in
/// its range stand for.
pub proof fn lemma_dot_ext<T: Exact>(u: Seq<T>, v: Seq<T>, w: Seq<T>, z: Seq<T>, lo: int, hi: int)
    requires
        forall|m: int| lo <= m < hi ==> (#[trigger] u[m]).val() == w[m].val(),
        forall|m: int| lo <= m < hi ==> (#[trigger] v[m]).val() == z[m].val(),
    ensures
        dot_val(u, v, lo, hi) == dot_val(w, z, lo, hi),
{
    let f = terms(u, v);
    let g = terms(w, z);
    assert forall|m: int| lo <= m < hi implies #[trigger] f(m) == g(m) by {
        assert(u[m].val() == w[m].val());
        assert(v[m].val() == z[m].val());
    }
    lemma_sum_ext(f, g, lo, hi);
}

/// A sum of products in which every first factor is zero is zero.
pub proof fn lemma_dot_zero<T: Exact>(u: Seq<T>, v: Seq<T>, lo: int, hi: int)
    requires
        forall|m: int| lo <= m < hi ==> (#[trigger] u[m]).is_zero_spec(),
    ensures
        dot_val(u, v, lo, hi) == 0real,
{
    let f = terms(u, v);
    assert forall|m: int| lo <= m < hi implies #[trigger] f(m) == 0real by {
        assert(u[m].is_zero_spec());
        T::is_zero_exact(u[m]);
        lemma_zero_product(u[m].val(), v[m].val());
    }
    lemma_sum_zero(f, lo, hi);
}

/// A sum of products over a range, taken apart at the term `k`.
pub proof fn lemma_dot_around<T: Exact>(u: Seq<T>, v: Seq<T>, lo: int, k: int, hi: int)
    requires
        lo <= k < hi,
    ensures
        dot_val(u, v, lo, hi) == dot_val(u, v, lo, k) + u[k].val() * v[k].val() + dot_val(
            u,
            v,
            k + 1,
            hi,
        ),
{
    let f = terms(u, v);
    lemma_sum_split(f, lo, k, hi);
    lemma_sum_split(f, k, k + 1, hi);
    assert(sum_over(f, k, k + 1) == sum_over(f, k, k) + f(k));
}

/// The entry of the real identity matrix at `(i, c)`.
pub open spec fn delta(i: int, c: int) -> real {
    if i == c {
        1real
    } else {
        0real
    }
}

/// Every entry of the identity stands for the entry of the real identity.
pub proof fn lemma_identity_exact<T: Exact>(n: nat, i: int, c: int)
    requires
        0 <= i < n,
        0 <= c < n,
    ensures
        identity::<T>(n)[i][c].val() == delta(i, c),
{
    T::one_exact();
    T::zero_exact();
}

} // verus!
