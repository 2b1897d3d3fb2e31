use crate::error::LinalgError;
use crate::matrix::{column_of, grid, has_shape, Matrix};
use crate::scalar::{opt_add, Scalar};
use vstd::prelude::*;

verus! {

/// What a routine that returns a matrix hands back, with the matrix taken
/// by its rows.
pub open spec fn outcome<T>(r: Result<Matrix<T>, LinalgError>) -> Result<Seq<Seq<T>>, LinalgError> {
    match r {
        Ok(m) => Ok(m@),
        Err(e) => Err(e),
    }
}

/// The grid of the values in `g`, where every place of `g` has one; the
/// arithmetic fault where some place has none.
pub open spec fn settle<T>(g: Seq<Seq<Option<T>>>) -> Result<Seq<Seq<T>>, LinalgError> {
    if forall|i: int, j: int|
        0 <= i < g.len() && 0 <= j < g[i].len() ==> (#[trigger] g[i][j]) is Some {
        Ok(Seq::new(g.len(), |i: int| Seq::new(g[i].len(), |j: int| g[i][j].unwrap())))
    } else {
        Err(LinalgError::Arithmetic)
    }
}

/// A grid of options whose places all hold the entries of `s` settles to
/// `s`.
pub proof fn lemma_settled<T>(g: Seq<Seq<Option<T>>>, s: Seq<Seq<T>>)
    requires
        g.len() == s.len(),
        forall|i: int| 0 <= i < g.len() ==> (#[trigger] g[i]).len() == s[i].len(),
        forall|i: int, j: int|
            0 <= i < g.len() && 0 <= j < g[i].len() ==> #[trigger] g[i][j] == Some(s[i][j]),
    ensures
        settle(g) == Ok::<Seq<Seq<T>>, LinalgError>(s),
{
    let t = Seq::new(g.len(), |i: int| Seq::new(g[i].len(), |j: int| g[i][j].unwrap()));
    assert(t =~~= s);
}

/// Where a grid of options settles to `s`, every place of it holds the
/// entry of `s` in the same place.
pub proof fn lemma_settle_ok<T>(g: Seq<Seq<Option<T>>>, s: Seq<Seq<T>>)
    requires
        settle(g) == Ok::<Seq<Seq<T>>, LinalgError>(s),
    ensures
        g.len() == s.len(),
        forall|i: int| 0 <= i < g.len() ==> (#[trigger] s[i]).len() == g[i].len(),
        forall|i: int, j: int|
            0 <= i < g.len() && 0 <= j < g[i].len() ==> g[i][j] == Some(#[trigger] s[i][j]),
{
    assert forall|i: int, j: int| 0 <= i < g.len() && 0 <= j < g[i].len() implies g[i][j] == Some(
        #[trigger] s[i][j],
    ) by {
    }
}

/// A grid of options with an empty place settles to the arithmetic fault.
pub proof fn lemma_unsettled<T>(g: Seq<Seq<Option<T>>>, i: int, j: int)
    requires
        0 <= i < g.len(),
        0 <= j < g[i].len(),
        g[i][j] is None,
    ensures
        settle(g) == Err::<Seq<Seq<T>>, LinalgError>(LinalgError::Arithmetic),
{
}

/// The sum of the products `u[k] * v[k]` for `k` from `lo` up to, not
/// including, `hi`: starting from zero, each product is added to what has
/// been summed so far. There is no sum where a product or a partial sum has
/// no value.
pub open spec fn inner<T: Scalar>(u: Seq<T>, v: Seq<T>, lo: int, hi: int) -> Option<T>
    decreases hi - lo,
{
    if hi <= lo {
        Some(T::zero_spec())
    } else {
        opt_add(inner(u, v, lo, hi - 1), u[hi - 1].mul_spec(v[hi - 1]))
    }
}

/// Once a partial sum has no value, no longer sum has one.
pub proof fn lemma_inner_stays_none<T: Scalar>(u: Seq<T>, v: Seq<T>, lo: int, mid: int, hi: int)
    requires
        lo <= mid <= hi,
        inner(u, v, lo, mid) is None,
    ensures
        inner(u, v, lo, hi) is None,
    decreases hi - mid,
{
    if mid < hi {
        lemma_inner_stays_none(u, v, lo, mid, hi - 1);
    }
}

/// Whether two grids have the same number of rows and of columns.
pub open spec fn same_shape<T>(a: Seq<Seq<T>>, b: Seq<Seq<T>>) -> bool {
    a.len() == b.len() && a[0].len() == b[0].len()
}

/// The sums `a[i][j] + b[i][j]`, place by place.
pub open spec fn sum_grid<T: Scalar>(a: Seq<Seq<T>>, b: Seq<Seq<T>>) -> Seq<Seq<Option<T>>> {
    grid(a.len(), a[0].len(), |i: int, j: int| a[i][j].add_spec(b[i][j]))
}

/// The differences `a[i][j] - b[i][j]`, place by place.
pub open spec fn difference_grid<T: Scalar>(a: Seq<Seq<T>>, b: Seq<Seq<T>>) -> Seq<
    Seq<Option<T>>,
> {
    grid(a.len(), a[0].len(), |i: int, j: int| a[i][j].sub_spec(b[i][j]))
}

/// The products of row `i` of `a` with column `j` of `b`, place by place.
pub open spec fn product_grid<T: Scalar>(a: Seq<Seq<T>>, b: Seq<Seq<T>>) -> Seq<Seq<Option<T>>> {
    grid(
        a.len(),
        b[0].len(),
        |i: int, j: int| inner(a[i], column_of(b, j), 0, a[0].len() as int),
    )
}

/// The products `k * a[i][j]`, place by place.
pub open spec fn scaled_grid<T: Scalar>(k: T, a: Seq<Seq<T>>) -> Seq<Seq<Option<T>>> {
    grid(a.len(), a[0].len(), |i: int, j: int| k.mul_spec(a[i][j]))
}

/// The sum of two grids of one shape.
pub open spec fn sum<T: Scalar>(a: Seq<Seq<T>>, b: Seq<Seq<T>>) -> Result<
    Seq<Seq<T>>,
    LinalgError,
> {
    if same_shape(a, b) {
        settle(sum_grid(a, b))
    } else {
        Err(LinalgError::Dimension)
    }
}

/// The difference of two grids of one shape.
pub open spec fn difference<T: Scalar>(a: Seq<Seq<T>>, b: Seq<Seq<T>>) -> Result<
    Seq<Seq<T>>,
    LinalgError,
> {
    if same_shape(a, b) {
        settle(difference_grid(a, b))
    } else {
        Err(LinalgError::Dimension)
    }
}

/// The matrix product of `a` and `b`, where `a` has as many columns as `b`
/// has rows and the product has no more than `usize::MAX` entries.
pub open spec fn product<T: Scalar>(a: Seq<Seq<T>>, b: Seq<Seq<T>>) -> Result<
    Seq<Seq<T>>,
    LinalgError,
> {
    if a[0].len() == b.len() && a.len() * b[0].len() <= usize::MAX {
        settle(product_grid(a, b))
    } else {
        Err(LinalgError::Dimension)
    }
}

/// The grid `a` with every entry multiplied by `k` from the left.
pub open spec fn scaled<T: Scalar>(k: T, a: Seq<Seq<T>>) -> Result<Seq<Seq<T>>, LinalgError> {
    settle(scaled_grid(k, a))
}

/// Whether the entries of two grids of one shape are close, place by place.
pub open spec fn close<T: Scalar>(a: Seq<Seq<T>>, b: Seq<Seq<T>>) -> Result<bool, LinalgError> {
    if same_shape(a, b) {
        Ok(
            forall|i: int, j: int|
                0 <= i < a.len() && 0 <= j < a[0].len() ==> (#[trigger] a[i][j]).close_spec(
                    b[i][j],
                ),
        )
    } else {
        Err(LinalgError::Dimension)
    }
}

/// The sum of the products of the entries `lo..hi` of row `i` of `a` with
/// those of column `j` of `b`.
pub fn row_dot<T: Scalar>(
    a: &Matrix<T>,
    i: usize,
    b: &Matrix<T>,
    j: usize,
    lo: usize,
    hi: usize,
) -> (r: Option<T>)
    requires
        a.wf(),
        b.wf(),
        i < a@.len(),
        j < b@[0].len(),
        lo <= hi,
        hi <= a@[0].len(),
        hi <= b@.len(),
    ensures
        r == inner(a@[i as int], column_of(b@, j as int), lo as int, hi as int),
{
    let ghost u = a@[i as int];
    let ghost v = column_of(b@, j as int);
    let mut acc: T = T::zero();
    let mut k: usize = lo;
    while k < hi
        invariant
            a.wf(),
            b.wf(),
            i < a@.len(),
            j < b@[0].len(),
            u == a@[i as int],
            v == column_of(b@, j as int),
            lo <= k <= hi,
            hi <= a@[0].len(),
            hi <= b@.len(),
            inner(u, v, lo as int, k as int) == Some(acc),
        decreases hi - k,
    {
        let term = a.get(i, k).mul(b.get(k, j));
        let next = match term {
            Some(t) => acc.add(t),
            None => None,
        };
        match next {
            Some(s) => {
                acc = s;
            },
            None => {
                proof {
                    lemma_inner_stays_none(u, v, lo as int, k + 1, hi as int);
                }
                return None;
            },
        }
        k = k + 1;
    }
    Some(acc)
}

impl<T: Scalar> Matrix<T> {
    /// The sum of two matrices of one shape.
    pub fn add(&self, rhs: &Matrix<T>) -> (r: Result<Matrix<T>, LinalgError>)
        requires
            self.wf(),
            rhs.wf(),
        ensures
            outcome(r) == sum(self@, rhs@),
            r matches Ok(m) ==> m.wf(),
    {
        let n: usize = self.rows();
        let p: usize = self.cols();
        if n != rhs.rows() || p != rhs.cols() {
            return Err(LinalgError::Dimension);
        }
        let ghost g = sum_grid(self@, rhs@);
        let mut m = self.duplicate();
        let mut i: usize = 0;
        while i < n
            invariant
                self.wf(),
                rhs.wf(),
                m.wf(),
                n == self@.len(),
                p == self@[0].len(),
                same_shape(self@, rhs@),
                has_shape(m@, n as nat, p as nat),
                g == sum_grid(self@, rhs@),
                i <= n,
                forall|a: int, b: int| 0 <= a < i && 0 <= b < p ==> #[trigger] g[a][b] == Some(m@[a][b]),
            decreases n - i,
        {
            let mut j: usize = 0;
            while j < p
                invariant
                    self.wf(),
                    rhs.wf(),
                    m.wf(),
                    n == self@.len(),
                    p == self@[0].len(),
                    same_shape(self@, rhs@),
                    has_shape(m@, n as nat, p as nat),
                    g == sum_grid(self@, rhs@),
                    i < n,
                    j <= p,
                    forall|a: int, b: int|
                        0 <= a < i && 0 <= b < p ==> #[trigger] g[a][b] == Some(m@[a][b]),
                    forall|b: int| 0 <= b < j ==> #[trigger] g[i as int][b] == Some(m@[i as int][b]),
                decreases p - j,
            {
                match self.get(i, j).add(rhs.get(i, j)) {
                    Some(v) => {
                        m.set(i, j, v);
                    },
                    None => {
                        proof {
                            lemma_unsettled(g, i as int, j as int);
                        }
                        return Err(LinalgError::Arithmetic);
                    },
                }
                j = j + 1;
            }
            i = i + 1;
        }
        proof {
            lemma_settled(g, m@);
        }
        Ok(m)
    }

    /// The difference of two matrices of one shape.
    pub fn sub(&self, rhs: &Matrix<T>) -> (r: Result<Matrix<T>, LinalgError>)
        requires
            self.wf(),
            rhs.wf(),
        ensures
            outcome(r) == difference(self@, rhs@),
            r matches Ok(m) ==> m.wf(),
    {
        let n: usize = self.rows();
        let p: usize = self.cols();
        if n != rhs.rows() || p != rhs.cols() {
            return Err(LinalgError::Dimension);
        }
        let ghost g = difference_grid(self@, rhs@);
        let mut m = self.duplicate();
        let mut i: usize = 0;
        while i < n
            invariant
                self.wf(),
                rhs.wf(),
                m.wf(),
                n == self@.len(),
                p == self@[0].len(),
                same_shape(self@, rhs@),
                has_shape(m@, n as nat, p as nat),
                g == difference_grid(self@, rhs@),
                i <= n,
                forall|a: int, b: int| 0 <= a < i && 0 <= b < p ==> #[trigger] g[a][b] == Some(m@[a][b]),
            decreases n - i,
        {
            let mut j: usize = 0;
            while j < p
                invariant
                    self.wf(),
                    rhs.wf(),
                    m.wf(),
                    n == self@.len(),
                    p == self@[0].len(),
                    same_shape(self@, rhs@),
                    has_shape(m@, n as nat, p as nat),
                    g == difference_grid(self@, rhs@),
                    i < n,
                    j <= p,
                    forall|a: int, b: int|
                        0 <= a < i && 0 <= b < p ==> #[trigger] g[a][b] == Some(m@[a][b]),
                    forall|b: int| 0 <= b < j ==> #[trigger] g[i as int][b] == Some(m@[i as int][b]),
                decreases p - j,
            {
                match self.get(i, j).sub(rhs.get(i, j)) {
                    Some(v) => {
                        m.set(i, j, v);
                    },
                    None => {
                        proof {
                            lemma_unsettled(g, i as int, j as int);
                        }
                        return Err(LinalgError::Arithmetic);
                    },
                }
                j = j + 1;
            }
            i = i + 1;
        }
        proof {
            lemma_settled(g, m@);
        }
        Ok(m)
    }

    /// The matrix product `self * rhs`, where `self` has as many columns as
    /// `rhs` has rows and the product has no more than `usize::MAX` entries.
    pub fn mul(&self, rhs: &Matrix<T>) -> (r: Result<Matrix<T>, LinalgError>)
        requires
            self.wf(),
            rhs.wf(),
        ensures
            outcome(r) == product(self@, rhs@),
            r matches Ok(m) ==> m.wf(),
    {
        let n: usize = self.rows();
        let q: usize = self.cols();
        let p: usize = rhs.cols();
        if q != rhs.rows() {
            return Err(LinalgError::Dimension);
        }
        let ghost g = product_grid(self@, rhs@);
        let mut m = match Matrix::filled(n, p, T::zero()) {
            Ok(m) => m,
            Err(e) => {
                return Err(e);
            },
        };
        let mut i: usize = 0;
        while i < n
            invariant
                self.wf(),
                rhs.wf(),
                m.wf(),
                n == self@.len(),
                q == self@[0].len(),
                q == rhs@.len(),
                p == rhs@[0].len(),
                n * p <= usize::MAX,
                has_shape(m@, n as nat, p as nat),
                g == product_grid(self@, rhs@),
                i <= n,
                forall|a: int, b: int| 0 <= a < i && 0 <= b < p ==> #[trigger] g[a][b] == Some(m@[a][b]),
            decreases n - i,
        {
            let mut j: usize = 0;
            while j < p
                invariant
                    self.wf(),
                    rhs.wf(),
                    m.wf(),
                    n == self@.len(),
                    q == self@[0].len(),
                    q == rhs@.len(),
                    p == rhs@[0].len(),
                    n * p <= usize::MAX,
                    has_shape(m@, n as nat, p as nat),
                    g == product_grid(self@, rhs@),
                    i < n,
                    j <= p,
                    forall|a: int, b: int|
                        0 <= a < i && 0 <= b < p ==> #[trigger] g[a][b] == Some(m@[a][b]),
                    forall|b: int| 0 <= b < j ==> #[trigger] g[i as int][b] == Some(m@[i as int][b]),
                decreases p - j,
            {
                match row_dot(self, i, rhs, j, 0, q) {
                    Some(v) => {
                        m.set(i, j, v);
                    },
                    None => {
                        proof {
                            lemma_unsettled(g, i as int, j as int);
                        }
                        return Err(LinalgError::Arithmetic);
                    },
                }
                j = j + 1;
            }
            i = i + 1;
        }
        proof {
            lemma_settled(g, m@);
        }
        Ok(m)
    }

    /// The matrix with every entry multiplied by `k` from the left.
    pub fn scale(&self, k: T) -> (r: Result<Matrix<T>, LinalgError>)
        requires
            self.wf(),
        ensures
            outcome(r) == scaled(k, self@),
            r matches Ok(m) ==> m.wf(),
    {
        let n: usize = self.rows();
        let p: usize = self.cols();
        let ghost g = scaled_grid(k, self@);
        let mut m = self.duplicate();
        let mut i: usize = 0;
        while i < n
            invariant
                self.wf(),
                m.wf(),
                n == self@.len(),
                p == self@[0].len(),
                has_shape(m@, n as nat, p as nat),
                g == scaled_grid(k, self@),
                i <= n,
                forall|a: int, b: int| 0 <= a < i && 0 <= b < p ==> #[trigger] g[a][b] == Some(m@[a][b]),
            decreases n - i,
        {
            let mut j: usize = 0;
            while j < p
                invariant
                    self.wf(),
                    m.wf(),
                    n == self@.len(),
                    p == self@[0].len(),
                    has_shape(m@, n as nat, p as nat),
                    g == scaled_grid(k, self@),
                    i < n,
                    j <= p,
                    forall|a: int, b: int|
                        0 <= a < i && 0 <= b < p ==> #[trigger] g[a][b] == Some(m@[a][b]),
                    forall|b: int| 0 <= b < j ==> #[trigger] g[i as int][b] == Some(m@[i as int][b]),
                decreases p - j,
            {
                match k.mul(self.get(i, j)) {
                    Some(v) => {
                        m.set(i, j, v);
                    },
                    None => {
                        proof {
                            lemma_unsettled(g, i as int, j as int);
                        }
                        return Err(LinalgError::Arithmetic);
                    },
                }
                j = j + 1;
            }
            i = i + 1;
        }
        proof {
            lemma_settled(g, m@);
        }
        Ok(m)
    }

    /// Whether every entry of `self` is close to the entry of `other` in
    /// the same place. The two must have one shape.
    pub fn all_close(&self, other: &Matrix<T>) -> (r: Result<bool, LinalgError>)
        requires
            self.wf(),
            other.wf(),
        ensures
            r == close(self@, other@),
    {
        let n: usize = self.rows();
        let p: usize = self.cols();
        if n != other.rows() || p != other.cols() {
            return Err(LinalgError::Dimension);
        }
        let mut i: usize = 0;
        while i < n
            invariant
                self.wf(),
                other.wf(),
                n == self@.len(),
                p == self@[0].len(),
                same_shape(self@, other@),
                i <= n,
                forall|a: int, b: int|
                    0 <= a < i && 0 <= b < p ==> (#[trigger] self@[a][b]).close_spec(other@[a][b]),
            decreases n - i,
        {
            let mut j: usize = 0;
            while j < p
                invariant
                    self.wf(),
                    other.wf(),
                    n == self@.len(),
                    p == self@[0].len(),
                    same_shape(self@, other@),
                    i < n,
                    j <= p,
                    forall|a: int, b: int|
                        0 <= a < i && 0 <= b < p ==> (#[trigger] self@[a][b]).close_spec(
                            other@[a][b],
                        ),
                    forall|b: int|
                        0 <= b < j ==> (#[trigger] self@[i as int][b]).close_spec(other@[i as int][b]),
                decreases p - j,
            {
                if !self.get(i, j).close_to(other.get(i, j)) {
                    return Ok(false);
                }
                j = j + 1;
            }
            i = i + 1;
        }
        Ok(true)
    }
}

} // verus!
