use crate::error::LinalgError;
use crate::matrix::{grid, has_shape, Matrix};
use crate::scalar::Scalar;
use vstd::prelude::*;

verus! {

/// The grid of `n` rows and `p` columns that holds zero everywhere.
pub open spec fn zeros<T: Scalar>(n: nat, p: nat) -> Seq<Seq<T>> {
    grid(n, p, |i: int, j: int| T::zero_spec())
}

/// The square grid with the entries of `v` down the diagonal and zero
/// elsewhere.
pub open spec fn diagonal<T: Scalar>(v: Seq<T>) -> Seq<Seq<T>> {
    grid(
        v.len(),
        v.len(),
        |i: int, j: int|
            if i == j {
                v[i]
            } else {
                T::zero_spec()
            },
    )
}

/// The identity of size `n`: one down the diagonal and zero elsewhere.
pub open spec fn identity<T: Scalar>(n: nat) -> Seq<Seq<T>> {
    grid(
        n,
        n,
        |i: int, j: int|
            if i == j {
                T::one_spec()
            } else {
                T::zero_spec()
            },
    )
}

/// Whether the grid is square and zero in every place off the diagonal,
/// but for the places below it where `lower` is set and the places above it
/// where `upper` is set.
pub open spec fn zero_outside<T: Scalar>(s: Seq<Seq<T>>, lower: bool, upper: bool) -> bool {
    &&& s.len() == s[0].len()
    &&& forall|i: int, j: int|
        0 <= i < s.len() && 0 <= j < s.len() && ((j < i && !lower) || (i < j && !upper))
            ==> (#[trigger] s[i][j]).is_zero_spec()
}

/// A diagonal grid: square, with zero in every place off the diagonal.
pub open spec fn is_diagonal<T: Scalar>(s: Seq<Seq<T>>) -> bool {
    zero_outside(s, false, false)
}

/// A lower-triangular grid: square, with zero in every place above the
/// diagonal.
pub open spec fn is_lower<T: Scalar>(s: Seq<Seq<T>>) -> bool {
    zero_outside(s, true, false)
}

/// An upper-triangular grid: square, with zero in every place below the
/// diagonal.
pub open spec fn is_upper<T: Scalar>(s: Seq<Seq<T>>) -> bool {
    zero_outside(s, false, true)
}

/// A grid of a single entry is diagonal, lower triangular and upper
/// triangular at once.
pub proof fn law_single_entry<T: Scalar>(s: Seq<Seq<T>>)
    requires
        s.len() == 1,
        s[0].len() == 1,
    ensures
        is_diagonal(s),
        is_lower(s),
        is_upper(s),
{
}

/// A diagonal grid is both lower and upper triangular, and a grid that is
/// both is diagonal.
pub proof fn law_diagonal_is_both<T: Scalar>(s: Seq<Seq<T>>)
    ensures
        is_diagonal(s) <==> is_lower(s) && is_upper(s),
{
    if is_lower(s) && is_upper(s) {
        assert forall|i: int, j: int|
            0 <= i < s.len() && 0 <= j < s.len() && (j < i || i < j) implies (#[trigger] s[i][j]).is_zero_spec() by {
        }
    }
}

impl<T: Scalar> Matrix<T> {
    /// The matrix of `n` rows and `p` columns that holds zero everywhere.
    /// There is none where a dimension is zero or the number of entries
    /// exceeds `usize::MAX`.
    pub fn new(n: usize, p: usize) -> (r: Result<Self, LinalgError>)
        ensures
            r is Ok <==> n > 0 && p > 0 && n * p <= usize::MAX,
            r matches Ok(m) ==> m.wf() && m@ == zeros::<T>(n as nat, p as nat),
            r matches Err(e) ==> e == LinalgError::Dimension,
    {
        Matrix::filled(n, p, T::zero())
    }

    /// The column of `p` zeros.
    pub fn new_column(p: usize) -> (r: Result<Self, LinalgError>)
        ensures
            r is Ok <==> p > 0,
            r matches Ok(m) ==> m.wf() && m@ == zeros::<T>(p as nat, 1),
            r matches Err(e) ==> e == LinalgError::Dimension,
    {
        Matrix::new(p, 1)
    }

    /// The row of `n` zeros.
    pub fn new_line(n: usize) -> (r: Result<Self, LinalgError>)
        ensures
            r is Ok <==> n > 0,
            r matches Ok(m) ==> m.wf() && m@ == zeros::<T>(1, n as nat),
            r matches Err(e) ==> e == LinalgError::Dimension,
    {
        Matrix::new(1, n)
    }

    /// The square matrix of size `n` that holds zero everywhere.
    pub fn new_diag(n: usize) -> (r: Result<Self, LinalgError>)
        ensures
            r is Ok <==> n > 0 && n * n <= usize::MAX,
            r matches Ok(m) ==> m.wf() && m@ == zeros::<T>(n as nat, n as nat),
            r matches Err(e) ==> e == LinalgError::Dimension,
    {
        Matrix::new(n, n)
    }

    /// The square matrix with the entries of `line` down the diagonal and
    /// zero elsewhere. There is none of an empty vector, nor of one so long
    /// that the number of entries exceeds `usize::MAX`.
    pub fn from_diag(line: Vec<T>) -> (r: Result<Self, LinalgError>)
        ensures
            r is Ok <==> line@.len() > 0 && line@.len() * line@.len() <= usize::MAX,
            r matches Ok(m) ==> m.wf() && m@ == diagonal(line@),
            r matches Err(e) ==> e == LinalgError::Dimension,
    {
        let n: usize = line.len();
        let mut m = match Matrix::new_diag(n) {
            Ok(m) => m,
            Err(e) => {
                return Err(e);
            },
        };
        let mut k: usize = 0;
        while k < n
            invariant
                m.wf(),
                n == line@.len(),
                has_shape(m@, n as nat, n as nat),
                k <= n,
                forall|i: int, j: int|
                    0 <= i < n && 0 <= j < n ==> #[trigger] m@[i][j] == (if i == j && i < k {
                        line@[i]
                    } else {
                        T::zero_spec()
                    }),
            decreases n - k,
        {
            m.set(k, k, line[k]);
            k = k + 1;
        }
        proof {
            assert(m@ =~~= diagonal(line@));
        }
        Ok(m)
    }

    /// The identity matrix of size `n`. There is none of size zero, nor of
    /// a size whose number of entries exceeds `usize::MAX`.
    pub fn id(n: usize) -> (r: Result<Self, LinalgError>)
        ensures
            r is Ok <==> n > 0 && n * n <= usize::MAX,
            r matches Ok(m) ==> m.wf() && m@ == identity::<T>(n as nat),
            r matches Err(e) ==> e == LinalgError::Dimension,
    {
        let mut m = match Matrix::new_diag(n) {
            Ok(m) => m,
            Err(e) => {
                return Err(e);
            },
        };
        let mut k: usize = 0;
        while k < n
            invariant
                m.wf(),
                has_shape(m@, n as nat, n as nat),
                k <= n,
                forall|i: int, j: int|
                    0 <= i < n && 0 <= j < n ==> #[trigger] m@[i][j] == (if i == j && i < k {
                        T::one_spec()
                    } else {
                        T::zero_spec()
                    }),
            decreases n - k,
        {
            m.set(k, k, T::one());
            k = k + 1;
        }
        proof {
            assert(m@ =~~= identity::<T>(n as nat));
        }
        Ok(m)
    }

    /// Whether the matrix is square and zero off the diagonal, but for one
    /// or both of the triangles beside it.
    fn has_zeros_outside(&self, lower: bool, upper: bool) -> (r: bool)
        requires
            self.wf(),
        ensures
            r == zero_outside(self@, lower, upper),
    {
        let n: usize = self.rows();
        if n != self.cols() {
            return false;
        }
        let mut i: usize = 0;
        while i < n
            invariant
                self.wf(),
                n == self@.len(),
                n == self@[0].len(),
                i <= n,
                forall|a: int, b: int|
                    0 <= a < i && 0 <= b < n && ((b < a && !lower) || (a < b && !upper))
                        ==> (#[trigger] self@[a][b]).is_zero_spec(),
            decreases n - i,
        {
            let mut j: usize = 0;
            while j < n
                invariant
                    self.wf(),
                    n == self@.len(),
                    n == self@[0].len(),
                    i < n,
                    j <= n,
                    forall|a: int, b: int|
                        0 <= a < i && 0 <= b < n && ((b < a && !lower) || (a < b && !upper))
                            ==> (#[trigger] self@[a][b]).is_zero_spec(),
                    forall|b: int|
                        0 <= b < j && ((b < i && !lower) || (i < b && !upper)) ==> (#[trigger] self@[i as int][b]).is_zero_spec(),
                decreases n - j,
            {
                let outside = (j < i && !lower) || (i < j && !upper);
                if outside && !self.get(i, j).is_zero() {
                    return false;
                }
                j = j + 1;
            }
            i = i + 1;
        }
        true
    }

    /// Whether the matrix is diagonal: square, with zero in every place off
    /// the diagonal.
    pub fn is_diag(&self) -> (r: bool)
        requires
            self.wf(),
        ensures
            r == is_diagonal(self@),
    {
        self.has_zeros_outside(false, false)
    }

    /// Whether the matrix is lower triangular: square, with zero in every
    /// place above the diagonal.
    pub fn is_lower_triangular(&self) -> (r: bool)
        requires
            self.wf(),
        ensures
            r == is_lower(self@),
    {
        self.has_zeros_outside(true, false)
    }

    /// Whether the matrix is upper triangular: square, with zero in every
    /// place below the diagonal.
    pub fn is_upper_triangular(&self) -> (r: bool)
        requires
            self.wf(),
        ensures
            r == is_upper(self@),
    {
        self.has_zeros_outside(false, true)
    }
}

} // verus!
