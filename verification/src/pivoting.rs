use crate::arith::{close, lemma_settle_ok, lemma_settled, lemma_unsettled, product, settle};
use crate::error::LinalgError;
use crate::exact::{dot_val, lemma_product_exact, lemma_same_values_close, same_values};
use crate::laws_factor::lemma_factored_exact;
use crate::matrix::{column_of, has_shape, swapped, Matrix};
use crate::palu::{
    as_ints, factored, gauss_grid, gauss_step, lemma_factored_patterns, lemma_factored_reduces,
    lemma_pivot_row_in_range, lemma_pivoted_clears, lemma_reduced_clears, lemma_unit_lower,
    multipliers_grid, pivot_row, pivoted, pivoted_factor, reduced, upper_factor,
};
use crate::pattern::is_lower;
use crate::scalar::{Exact, Scalar};
use vstd::prelude::*;

verus! {

/// The grid `a` after the first `k` of the recorded exchanges: for each
/// step `s` before `k`, in this order, row `s` changes places with row
/// `rows[s]`. A recorded row is a row of the grid as it stands when its
/// exchange is made.
pub open spec fn exchanged<T>(a: Seq<Seq<T>>, rows: Seq<int>, k: nat) -> Seq<Seq<T>>
    decreases k,
{
    if k == 0 {
        a
    } else {
        swapped(exchanged(a, rows, (k - 1) as nat), k - 1, rows[k - 1])
    }
}

/// Whether `rows` records an exchange for each of the first `k` steps on a
/// grid of `n` rows: the row recorded for a step is a row of the grid, at
/// or below the step's own.
pub open spec fn exchanges<T>(rows: Seq<int>, k: nat, n: nat) -> bool {
    &&& rows.len() >= k
    &&& forall|s: int| 0 <= s < k ==> s <= #[trigger] rows[s] < n
}

/// Exchanges keep the shape of the grid.
pub proof fn lemma_exchanged_shape<T>(a: Seq<Seq<T>>, rows: Seq<int>, k: nat, n: nat, p: nat)
    requires
        has_shape(a, n, p),
        exchanges::<T>(rows, k, n),
        k <= n,
    ensures
        has_shape(exchanged(a, rows, k), n, p),
    decreases k,
{
    if k > 0 {
        lemma_exchanged_shape(a, rows, (k - 1) as nat, n, p);
        assert(0 <= rows[k - 1] < n);
    }
}

/// The first `k` exchanges do not depend on what is recorded after them.
pub proof fn lemma_exchanged_prefix<T>(a: Seq<Seq<T>>, rows: Seq<int>, more: Seq<int>, k: nat)
    requires
        k <= rows.len(),
        k <= more.len(),
        forall|s: int| 0 <= s < k ==> rows[s] == more[s],
    ensures
        exchanged(a, rows, k) == exchanged(a, more, k),
    decreases k,
{
    if k > 0 {
        lemma_exchanged_prefix(a, rows, more, (k - 1) as nat);
    }
}

/// What a routine gives for a grid with two rows exchanged, where it gives
/// `r` for the grid and works on every row in the same way.
pub open spec fn swapped_outcome<T>(r: Result<Seq<Seq<T>>, LinalgError>, x: int, y: int) -> Result<
    Seq<Seq<T>>,
    LinalgError,
> {
    match r {
        Ok(w) => Ok(swapped(w, x, y)),
        Err(e) => Err(e),
    }
}

/// An elimination step treats the rows below its own alike: on a grid with
/// two of these rows exchanged it gives what it gives on the grid, with the
/// same two rows exchanged.
pub proof fn lemma_gauss_step_commutes<T: Scalar>(u: Seq<Seq<T>>, k: int, x: int, y: int)
    requires
        has_shape(u, u.len(), u.len()),
        0 <= k < x < u.len(),
        k < y < u.len(),
    ensures
        gauss_step(swapped(u, x, y), k) == swapped_outcome(gauss_step(u, k), x, y),
{
    let v = swapped(u, x, y);
    let g = gauss_grid(u, k);
    let h = gauss_grid(v, k);
    assert(v[k] == u[k]);
    assert(h.len() == g.len());
    assert forall|i: int| 0 <= i < g.len() implies #[trigger] h[i] == (if i == x {
        g[y]
    } else if i == y {
        g[x]
    } else {
        g[i]
    }) by {
        let other = if i == x {
            y
        } else if i == y {
            x
        } else {
            i
        };
        assert(v[i] == u[other]);
        assert(h[i] =~= g[other]);
    }
    if !u[k][k].is_zero_spec() {
        match settle(g) {
            Ok(w) => {
                lemma_settle_ok(g, w);
                let z = swapped(w, x, y);
                assert forall|i: int, j: int| 0 <= i < h.len() && 0 <= j < h[i].len() implies #[trigger] h[i][j]
                    == Some(z[i][j]) by {
                    let other = if i == x {
                        y
                    } else if i == y {
                        x
                    } else {
                        i
                    };
                    assert(g[other][j] == Some(w[other][j]));
                }
                assert forall|i: int| 0 <= i < h.len() implies (#[trigger] h[i]).len() == z[i].len() by {
                    let other = if i == x {
                        y
                    } else if i == y {
                        x
                    } else {
                        i
                    };
                    assert(w[other].len() == g[other].len());
                }
                lemma_settled(h, z);
            },
            Err(_) => {
                let (i, j) = choose|i: int, j: int|
                    0 <= i < g.len() && 0 <= j < g[i].len() && (#[trigger] g[i][j]) is None;
                let other = if i == x {
                    y
                } else if i == y {
                    x
                } else {
                    i
                };
                assert(h[other][j] is None);
                lemma_unsettled(h, other, j);
            },
        }
    }
}

/// The first `k` elimination steps treat the rows from row `k` on alike: on
/// a grid with two of these rows exchanged they give what they give on the
/// grid, with the same two rows exchanged.
pub proof fn lemma_reduced_commutes<T: Scalar>(a: Seq<Seq<T>>, k: nat, x: int, y: int)
    requires
        has_shape(a, a.len(), a.len()),
        k <= x < a.len(),
        k <= y < a.len(),
    ensures
        reduced(swapped(a, x, y), k) == swapped_outcome(reduced(a, k), x, y),
    decreases k,
{
    if k > 0 {
        lemma_reduced_commutes(a, (k - 1) as nat, x, y);
        lemma_reduced_clears(a, (k - 1) as nat);
        if let Ok(u) = reduced(a, (k - 1) as nat) {
            lemma_gauss_step_commutes(u, k - 1, x, y);
        }
    }
}

/// After `k` steps with partial pivoting, the grid is what `k` steps
/// without exchange make of the matrix after the recorded exchanges.
pub proof fn lemma_pivoted_reduces<T: Scalar>(a: Seq<Seq<T>>, k: nat)
    requires
        has_shape(a, a.len(), a.len()),
        k < a.len(),
    ensures
        pivoted(a, k) matches Ok((rows, u)) ==> {
            &&& exchanges::<T>(rows, k, a.len())
            &&& rows.len() == k
            &&& reduced(exchanged(a, rows, k), k) == Ok::<Seq<Seq<T>>, LinalgError>(u)
        },
    decreases k,
{
    if k > 0 {
        let j = (k - 1) as nat;
        lemma_pivoted_reduces(a, j);
        lemma_pivoted_clears(a, j);
        lemma_pivoted_clears(a, k);
        if let Ok((more, w)) = pivoted(a, k) {
            let (rows, u) = pivoted(a, j).unwrap();
            let row = pivot_row(u, k - 1, u.len() as int);
            lemma_pivot_row_in_range(u, k - 1, u.len() as int);
            assert(more == rows.push(row));
            lemma_exchanged_prefix(a, rows, more, j);
            lemma_exchanged_shape(a, rows, j, a.len(), a.len());
            let before = exchanged(a, rows, j);
            assert(exchanged(a, more, k) == swapped(before, k - 1, row));
            lemma_reduced_commutes(before, j, k - 1, row);
        }
    }
}

/// Pivoting is reduction after the exchanges. For a square `a`: where the
/// reduction with partial pivoting gives the rows `rows` and the factor
/// `u`, the reduction without exchange of rows, of the matrix in which the
/// recorded exchanges were made beforehand, gives `u` too.
pub proof fn law_pivoting_reduces_exchanged<T: Scalar>(a: Seq<Seq<T>>)
    requires
        has_shape(a, a.len(), a.len()),
        a.len() > 0,
    ensures
        pivoted_factor(a) matches Ok((rows, u)) ==> {
            &&& exchanges::<T>(rows, rows.len(), a.len())
            &&& rows.len() == a.len() - 1
            &&& upper_factor(exchanged(a, rows, rows.len())) == Ok::<Seq<Seq<T>>, LinalgError>(u)
        },
{
    let k = (a.len() - 1) as nat;
    lemma_pivoted_reduces(a, k);
    if let Ok((rows, u)) = pivoted_factor(a) {
        lemma_exchanged_shape(a, rows, k, a.len(), a.len());
    }
}

/// A reduction that has a result has its lower factor too: where `k` steps
/// without exchange succeed on `a`, so does the factorization, with the
/// same upper factor.
pub proof fn lemma_reduced_factors<T: Scalar>(a: Seq<Seq<T>>, k: nat)
    requires
        has_shape(a, a.len(), a.len()),
        k < a.len(),
    ensures
        reduced(a, k) matches Ok(u) ==> (factored(a, k) matches Ok((l, w)) && w == u),
    decreases k,
{
    if k > 0 {
        let j = (k - 1) as nat;
        lemma_reduced_factors(a, j);
        lemma_factored_patterns(a, j);
        if let Ok(u2) = reduced(a, k) {
            let u = reduced(a, j).unwrap();
            let (l, w) = factored(a, j).unwrap();
            let g = gauss_grid(u, k - 1);
            let h = multipliers_grid(l, u, k - 1);
            lemma_settle_ok(g, u2);
            let n = a.len() as int;
            // every multiplier is used in the last column, so it has a value
            assert forall|i: int, c: int| 0 <= i < h.len() && 0 <= c < h[i].len() implies (#[trigger] h[i][c]) is Some by {
                if c == k - 1 && i > k - 1 {
                    assert(g[i][n - 1] == Some(u2[i][n - 1]));
                }
            }
            lemma_factored_reduces(a, k);
        }
    }
}

/// The factors of the matrix after the exchanges. With exact scalars, for
/// a square `a`: where the reduction with partial pivoting gives the rows
/// `rows` and the factor `u`, the matrix `pa`, in which the recorded
/// exchanges were made beforehand, has a lower factor `l` beside `u`: `l` is
/// lower triangular with one on its diagonal, and the product `l u`, where
/// it has a result, stands for `pa`, place by place.
pub proof fn law_pivoted_factors_multiply_back<T: Exact>(a: Seq<Seq<T>>)
    requires
        has_shape(a, a.len(), a.len()),
        a.len() > 0,
    ensures
        pivoted_factor(a) matches Ok((rows, u)) ==> (factored(
            exchanged(a, rows, rows.len()),
            rows.len(),
        ) matches Ok((l, w)) && {
            &&& w == u
            &&& has_shape(exchanged(a, rows, rows.len()), a.len(), a.len())
            &&& is_lower(l)
            &&& forall|i: int| 0 <= i < a.len() ==> (#[trigger] l[i][i]).val() == 1real
            &&& product(l, u) matches Ok(m) ==> same_values(m, exchanged(a, rows, rows.len()))
                && close(m, exchanged(a, rows, rows.len())) == Ok::<bool, LinalgError>(true)
        }),
{
    let k = (a.len() - 1) as nat;
    law_pivoting_reduces_exchanged(a);
    if let Ok((rows, u)) = pivoted_factor(a) {
        let pa = exchanged(a, rows, k);
        lemma_exchanged_shape(a, rows, k, a.len(), a.len());
        lemma_reduced_factors(pa, k);
        lemma_factored_patterns(pa, k);
        lemma_factored_exact(pa, k);
        let (l, w) = factored(pa, k).unwrap();
        lemma_unit_lower(l, k as int);
        T::one_exact();
        assert forall|i: int| 0 <= i < a.len() implies (#[trigger] l[i][i]).val() == 1real by {
            assert(l[i][i] == T::one_spec());
        }
        if let Ok(m) = product(l, u) {
            lemma_product_exact(l, u, m);
            assert forall|i: int, c: int| 0 <= i < m.len() && 0 <= c < m[0].len() implies (#[trigger] m[i][c]).val()
                == pa[i][c].val() by {
                assert(dot_val(l[i], column_of(u, c), 0, a.len() as int)
                    == pa[i][c].val());
            }
            lemma_same_values_close(m, pa);
        }
    }
}

impl<T: Copy> Matrix<T> {
    /// Makes the recorded exchanges: for each step `s`, in the order of the
    /// steps, row `s` changes places with row `rows[s]`.
    ///
    /// Fails with `Dimension`, and leaves the matrix as it is, where more
    /// rows are recorded than the matrix has, or a recorded row is none of
    /// the matrix or lies above the row of its step.
    pub fn exchange_lines(&mut self, rows: &Vec<usize>) -> (r: Result<(), LinalgError>)
        requires
            old(self).wf(),
        ensures
            final(self).wf(),
            r is Ok <==> rows@.len() <= old(self)@.len() && exchanges::<T>(
                as_ints(rows@),
                rows@.len(),
                old(self)@.len(),
            ),
            r is Ok ==> final(self)@ == exchanged(old(self)@, as_ints(rows@), rows@.len()),
            r matches Err(e) ==> e == LinalgError::Dimension && final(self)@ == old(self)@,
    {
        let n: usize = self.rows();
        let count: usize = rows.len();
        if count > n {
            return Err(LinalgError::Dimension);
        }
        let mut s: usize = 0;
        while s < count
            invariant
                self.wf(),
                self@ == old(self)@,
                n == self@.len(),
                count == rows@.len(),
                s <= count <= n,
                forall|t: int| 0 <= t < s ==> t <= #[trigger] rows@[t] < n,
            decreases count - s,
        {
            if rows[s] < s || rows[s] >= n {
                proof {
                    assert(as_ints(rows@)[s as int] == rows@[s as int]);
                }
                return Err(LinalgError::Dimension);
            }
            s = s + 1;
        }
        proof {
            assert forall|t: int| 0 <= t < count implies t <= #[trigger] as_ints(rows@)[t] < n by {
                assert(as_ints(rows@)[t] == rows@[t]);
            }
        }
        let mut s: usize = 0;
        while s < count
            invariant
                self.wf(),
                n == self@.len(),
                n == old(self)@.len(),
                count == rows@.len(),
                s <= count <= n,
                forall|t: int| 0 <= t < count ==> t <= #[trigger] rows@[t] < n,
                self@ == exchanged(old(self)@, as_ints(rows@), s as nat),
            decreases count - s,
        {
            assert(as_ints(rows@)[s as int] == rows@[s as int]);
            self.swap_lines(s, rows[s]);
            s = s + 1;
        }
        Ok(())
    }
}

} // verus!
