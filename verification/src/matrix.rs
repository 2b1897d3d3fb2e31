use crate::error::LinalgError;
use vstd::prelude::*;

verus! {

/// A grid is a non-empty sequence of rows, all of one positive length.
pub open spec fn is_grid<T>(s: Seq<Seq<T>>) -> bool {
    &&& s.len() > 0
    &&& s[0].len() > 0
    &&& forall|i: int| 0 <= i < s.len() ==> #[trigger] s[i].len() == s[0].len()
}

/// The grid of `n` rows and `p` columns whose entry at `(i, j)` is `f(i, j)`.
pub open spec fn grid<T>(n: nat, p: nat, f: spec_fn(int, int) -> T) -> Seq<Seq<T>> {
    Seq::new(n, |i: int| Seq::new(p, |j: int| f(i, j)))
}

/// Column `j` of the grid `s`, from the top down.
pub open spec fn column_of<T>(s: Seq<Seq<T>>, j: int) -> Seq<T> {
    Seq::new(s.len(), |i: int| s[i][j])
}

/// The grid `s` with the entry at `(i, j)` replaced by `v`.
pub open spec fn with_entry<T>(s: Seq<Seq<T>>, i: int, j: int, v: T) -> Seq<Seq<T>> {
    s.update(i, s[i].update(j, v))
}

/// The place of entry `(i, j)` in row-major storage is within the storage.
pub proof fn lemma_offset_in_range(i: int, j: int, n: int, p: int)
    requires
        0 <= i < n,
        0 <= j < p,
    ensures
        0 <= i * p,
        0 <= i * p + j < n * p,
{
    assert(0 <= i * p && i * p + p <= n * p) by (nonlinear_arith)
        requires
            0 <= i < n,
            0 < p,
    ;
}

/// Two entries of a row-major storage share a place only if they are the
/// same entry.
pub proof fn lemma_offset_injective(i: int, j: int, a: int, b: int, p: int)
    requires
        0 <= j < p,
        0 <= b < p,
        i * p + j == a * p + b,
    ensures
        i == a,
        j == b,
{
    assert(i == a) by (nonlinear_arith)
        requires
            0 <= j < p,
            0 <= b < p,
            i * p + j == a * p + b,
    ;
}

/// A dense matrix of `n` rows and `p` columns, both positive, stored row by
/// row in one vector.
#[derive(Clone, Debug, PartialEq)]
pub struct Matrix<T> {
    n: usize,
    p: usize,
    data: Vec<T>,
}

impl<T> View for Matrix<T> {
    type V = Seq<Seq<T>>;

    /// The rows of the matrix, from the top down.
    closed spec fn view(&self) -> Seq<Seq<T>> {
        grid(self.n as nat, self.p as nat, |i: int, j: int| self.data@[i * self.p + j])
    }
}

impl<T: Copy> Matrix<T> {
    /// The storage has one place for each entry, and there is at least one.
    pub closed spec fn stored(&self) -> bool {
        &&& self.n > 0
        &&& self.p > 0
        &&& self.n * self.p <= usize::MAX
        &&& self.data@.len() == self.n * self.p
    }

    /// The matrix is well formed: its view is a grid, and the storage backs
    /// it.
    pub open spec fn wf(&self) -> bool {
        &&& self.stored()
        &&& is_grid(self@)
    }

    /// The number of rows.
    pub fn rows(&self) -> (r: usize)
        requires
            self.wf(),
        ensures
            r == self@.len(),
            r > 0,
            self@.len() * self@[0].len() <= usize::MAX,
    {
        self.n
    }

    /// The number of columns.
    pub fn cols(&self) -> (r: usize)
        requires
            self.wf(),
        ensures
            r == self@[0].len(),
            r > 0,
            self@.len() * self@[0].len() <= usize::MAX,
    {
        self.p
    }

    /// The entry in row `i` and column `j`.
    pub fn get(&self, i: usize, j: usize) -> (r: T)
        requires
            self.wf(),
            i < self@.len(),
            j < self@[0].len(),
        ensures
            r == self@[i as int][j as int],
    {
        proof {
            lemma_offset_in_range(i as int, j as int, self.n as int, self.p as int);
        }
        self.data[i * self.p + j]
    }

    /// Puts `v` in row `i` and column `j`.
    pub fn set(&mut self, i: usize, j: usize, v: T)
        requires
            old(self).wf(),
            i < old(self)@.len(),
            j < old(self)@[0].len(),
        ensures
            final(self).wf(),
            final(self)@ == with_entry(old(self)@, i as int, j as int, v),
    {
        proof {
            lemma_offset_in_range(i as int, j as int, self.n as int, self.p as int);
        }
        let at: usize = i * self.p + j;
        self.data.set(at, v);
        proof {
            let p = self.p as int;
            let target = with_entry(old(self)@, i as int, j as int, v);
            assert forall|a: int, b: int| 0 <= a < self.n && 0 <= b < self.p implies #[trigger] self@[a][b]
                == target[a][b] by {
                lemma_offset_in_range(a, b, self.n as int, p);
                if a * p + b == i * p + j {
                    lemma_offset_injective(a, b, i as int, j as int, p);
                }
            }
            assert(self@ =~~= target);
        }
    }

    /// The entry at place `k` of a matrix that is a single row or a single
    /// column.
    pub fn at(&self, k: usize) -> (r: T)
        requires
            self.wf(),
            self@.len() == 1 || self@[0].len() == 1,
            self@.len() == 1 ==> k < self@[0].len(),
            self@.len() != 1 ==> k < self@.len(),
        ensures
            r == (if self@.len() == 1 {
                self@[0][k as int]
            } else {
                self@[k as int][0]
            }),
    {
        if self.n == 1 {
            self.get(0, k)
        } else {
            self.get(k, 0)
        }
    }

    /// Puts `v` at place `k` of a matrix that is a single row or a single
    /// column.
    pub fn set_at(&mut self, k: usize, v: T)
        requires
            old(self).wf(),
            old(self)@.len() == 1 || old(self)@[0].len() == 1,
            old(self)@.len() == 1 ==> k < old(self)@[0].len(),
            old(self)@.len() != 1 ==> k < old(self)@.len(),
        ensures
            final(self).wf(),
            final(self)@ == (if old(self)@.len() == 1 {
                with_entry(old(self)@, 0, k as int, v)
            } else {
                with_entry(old(self)@, k as int, 0, v)
            }),
    {
        if self.n == 1 {
            self.set(0, k, v)
        } else {
            self.set(k, 0, v)
        }
    }

    /// The matrix of `n` rows and `p` columns with `v` in every place, for
    /// dimensions known to be in range.
    pub(crate) fn constant(n: usize, p: usize, v: T) -> (m: Self)
        requires
            n > 0,
            p > 0,
            n * p <= usize::MAX,
        ensures
            m.wf(),
            m@ == grid(n as nat, p as nat, |i: int, j: int| v),
    {
        let size: usize = n * p;
        let mut data: Vec<T> = Vec::new();
        let mut k: usize = 0;
        while k < size
            invariant
                k <= size,
                data@.len() == k,
                forall|x: int| 0 <= x < k ==> data@[x] == v,
            decreases size - k,
        {
            data.push(v);
            k = k + 1;
        }
        let m = Matrix { n, p, data };
        proof {
            assert forall|i: int, j: int| 0 <= i < n && 0 <= j < p implies #[trigger] m@[i][j]
                == v by {
                lemma_offset_in_range(i, j, n as int, p as int);
            }
            assert(m@ =~~= grid(n as nat, p as nat, |i: int, j: int| v));
        }
        m
    }

    /// The matrix of `n` rows and `p` columns with `v` in every place.
    /// There is none where a dimension is zero or the number of entries
    /// exceeds `usize::MAX`.
    pub fn filled(n: usize, p: usize, v: T) -> (r: Result<Self, LinalgError>)
        ensures
            r is Ok <==> n > 0 && p > 0 && n * p <= usize::MAX,
            r matches Ok(m) ==> m.wf() && m@ == grid(n as nat, p as nat, |i: int, j: int| v),
            r matches Err(e) ==> e == LinalgError::Dimension,
    {
        if n == 0 || p == 0 || n.checked_mul(p).is_none() {
            Err(LinalgError::Dimension)
        } else {
            Ok(Matrix::constant(n, p, v))
        }
    }

    /// A copy of the matrix.
    pub fn duplicate(&self) -> (m: Self)
        requires
            self.wf(),
        ensures
            m.wf(),
            m@ == self@,
    {
        let mut data: Vec<T> = Vec::new();
        let size: usize = self.data.len();
        let mut k: usize = 0;
        while k < size
            invariant
                size == self.data@.len(),
                k <= size,
                data@.len() == k,
                forall|x: int| 0 <= x < k ==> data@[x] == self.data@[x],
            decreases size - k,
        {
            data.push(self.data[k]);
            k = k + 1;
        }
        let m = Matrix { n: self.n, p: self.p, data };
        proof {
            assert forall|i: int, j: int| 0 <= i < self.n && 0 <= j < self.p implies #[trigger] m@[i][j]
                == self@[i][j] by {
                lemma_offset_in_range(i, j, self.n as int, self.p as int);
            }
            assert(m@ =~~= self@);
        }
        m
    }

    /// Whether the matrix is a single column.
    pub fn is_column(&self) -> (r: bool)
        requires
            self.wf(),
        ensures
            r == (self@[0].len() == 1),
    {
        self.p == 1
    }

    /// Whether the matrix is a single row.
    pub fn is_line(&self) -> (r: bool)
        requires
            self.wf(),
        ensures
            r == (self@.len() == 1),
    {
        self.n == 1
    }

    /// Whether the matrix has as many rows as columns.
    pub fn is_square(&self) -> (r: bool)
        requires
            self.wf(),
        ensures
            r == (self@.len() == self@[0].len()),
    {
        self.n == self.p
    }

    /// The transpose: entry `(i, j)` of the result is entry `(j, i)` of
    /// `self`.
    pub fn transpose(&self) -> (m: Self)
        requires
            self.wf(),
        ensures
            m.wf(),
            m@ == transposed(self@),
    {
        let n: usize = self.n;
        let p: usize = self.p;
        let mut m = Matrix::constant(p, n, self.get(0, 0));
        let mut i: usize = 0;
        while i < n
            invariant
                self.wf(),
                m.wf(),
                n == self@.len(),
                p == self@[0].len(),
                has_shape(m@, p as nat, n as nat),
                i <= n,
                forall|a: int, b: int| 0 <= a < i && 0 <= b < p ==> #[trigger] m@[b][a] == self@[a][b],
            decreases n - i,
        {
            let mut j: usize = 0;
            while j < p
                invariant
                    self.wf(),
                    m.wf(),
                    n == self@.len(),
                    p == self@[0].len(),
                    has_shape(m@, p as nat, n as nat),
                    i < n,
                    j <= p,
                    forall|a: int, b: int|
                        0 <= a < i && 0 <= b < p ==> #[trigger] m@[b][a] == self@[a][b],
                    forall|b: int| 0 <= b < j ==> #[trigger] m@[b][i as int] == self@[i as int][b],
                decreases p - j,
            {
                m.set(j, i, self.get(i, j));
                j = j + 1;
            }
            i = i + 1;
        }
        proof {
            assert(m@ =~~= transposed(self@));
        }
        m
    }

    /// The transpose, under its short name.
    pub fn t(&self) -> (m: Self)
        requires
            self.wf(),
        ensures
            m.wf(),
            m@ == transposed(self@),
    {
        self.transpose()
    }

    /// Row `i` as a matrix of one row.
    pub fn line(&self, i: usize) -> (m: Self)
        requires
            self.wf(),
            i < self@.len(),
        ensures
            m.wf(),
            m@ == seq![self@[i as int]],
    {
        let p: usize = self.p;
        let mut m = Matrix::constant(1, p, self.get(i, 0));
        let mut j: usize = 0;
        while j < p
            invariant
                self.wf(),
                m.wf(),
                i < self@.len(),
                p == self@[0].len(),
                has_shape(m@, 1, p as nat),
                j <= p,
                forall|b: int| 0 <= b < j ==> #[trigger] m@[0][b] == self@[i as int][b],
            decreases p - j,
        {
            m.set(0, j, self.get(i, j));
            j = j + 1;
        }
        proof {
            assert(m@ =~~= seq![self@[i as int]]);
        }
        m
    }

    /// Column `j` as a matrix of one column.
    pub fn column(&self, j: usize) -> (m: Self)
        requires
            self.wf(),
            j < self@[0].len(),
        ensures
            m.wf(),
            m@ == as_column(column_of(self@, j as int)),
    {
        let n: usize = self.n;
        let mut m = Matrix::constant(n, 1, self.get(0, j));
        let mut i: usize = 0;
        while i < n
            invariant
                self.wf(),
                m.wf(),
                j < self@[0].len(),
                n == self@.len(),
                has_shape(m@, n as nat, 1),
                i <= n,
                forall|a: int| 0 <= a < i ==> #[trigger] m@[a][0] == self@[a][j as int],
            decreases n - i,
        {
            m.set(i, 0, self.get(i, j));
            i = i + 1;
        }
        proof {
            assert(m@ =~~= as_column(column_of(self@, j as int)));
        }
        m
    }

    /// Replaces row `i` by the single row of `line`. The matrix stays as it
    /// is, and the call fails, where `i` is not a row of the matrix or
    /// `line` is not one row of the matrix's width.
    pub fn set_line(&mut self, i: usize, line: Matrix<T>) -> (r: Result<(), LinalgError>)
        requires
            old(self).wf(),
            line.wf(),
        ensures
            final(self).wf(),
            r is Ok <==> i < old(self)@.len() && line@.len() == 1 && line@[0].len() == old(
                self,
            )@[0].len(),
            r is Ok ==> final(self)@ == old(self)@.update(i as int, line@[0]),
            r matches Err(e) ==> e == LinalgError::Dimension && final(self)@ == old(self)@,
    {
        if i >= self.n || line.n != 1 || line.p != self.p {
            return Err(LinalgError::Dimension);
        }
        let p: usize = self.p;
        let mut j: usize = 0;
        while j < p
            invariant
                self.wf(),
                line.wf(),
                i < old(self)@.len(),
                line@.len() == 1,
                line@[0].len() == p,
                has_shape(self@, old(self)@.len(), p as nat),
                has_shape(old(self)@, old(self)@.len(), p as nat),
                j <= p,
                forall|a: int, b: int|
                    0 <= a < self@.len() && 0 <= b < p && a != i ==> #[trigger] self@[a][b] == old(
                        self,
                    )@[a][b],
                forall|b: int| 0 <= b < j ==> #[trigger] self@[i as int][b] == line@[0][b],
            decreases p - j,
        {
            self.set(i, j, line.get(0, j));
            j = j + 1;
        }
        proof {
            assert(self@ =~~= old(self)@.update(i as int, line@[0]));
        }
        Ok(())
    }

    /// Replaces column `j` by the single column of `column`. The matrix
    /// stays as it is, and the call fails, where `j` is not a column of the
    /// matrix or `column` is not one column of the matrix's height.
    pub fn set_column(&mut self, j: usize, column: Matrix<T>) -> (r: Result<(), LinalgError>)
        requires
            old(self).wf(),
            column.wf(),
        ensures
            final(self).wf(),
            r is Ok <==> j < old(self)@[0].len() && column@[0].len() == 1 && column@.len() == old(
                self,
            )@.len(),
            r is Ok ==> final(self)@ == with_column(old(self)@, j as int, column_of(column@, 0)),
            r matches Err(e) ==> e == LinalgError::Dimension && final(self)@ == old(self)@,
    {
        if j >= self.p || column.p != 1 || column.n != self.n {
            return Err(LinalgError::Dimension);
        }
        let n: usize = self.n;
        let mut i: usize = 0;
        while i < n
            invariant
                self.wf(),
                column.wf(),
                j < old(self)@[0].len(),
                column@[0].len() == 1,
                column@.len() == n,
                n == old(self)@.len(),
                has_shape(self@, n as nat, old(self)@[0].len()),
                has_shape(old(self)@, n as nat, old(self)@[0].len()),
                i <= n,
                forall|a: int, b: int|
                    0 <= a < n && 0 <= b < self@[0].len() && b != j ==> #[trigger] self@[a][b]
                        == old(self)@[a][b],
                forall|a: int| 0 <= a < i ==> #[trigger] self@[a][j as int] == column@[a][0],
                forall|a: int| i <= a < n ==> #[trigger] self@[a][j as int] == old(self)@[a][j as int],
            decreases n - i,
        {
            self.set(i, j, column.get(i, 0));
            i = i + 1;
        }
        proof {
            assert(self@ =~~= with_column(old(self)@, j as int, column_of(column@, 0)));
        }
        Ok(())
    }

    /// Exchanges the rows `a` and `b`.
    pub fn swap_lines(&mut self, a: usize, b: usize)
        requires
            old(self).wf(),
            a < old(self)@.len(),
            b < old(self)@.len(),
        ensures
            final(self).wf(),
            final(self)@ == swapped(old(self)@, a as int, b as int),
    {
        let p: usize = self.p;
        let mut j: usize = 0;
        while j < p
            invariant
                self.wf(),
                a < self@.len(),
                b < self@.len(),
                p == self@[0].len(),
                has_shape(self@, old(self)@.len(), p as nat),
                has_shape(old(self)@, old(self)@.len(), p as nat),
                j <= p,
                forall|i: int, c: int|
                    0 <= i < self@.len() && 0 <= c < p && i != a && i != b ==> #[trigger] self@[i][c]
                        == old(self)@[i][c],
                forall|c: int| 0 <= c < j ==> #[trigger] self@[a as int][c] == old(self)@[b as int][c],
                forall|c: int| 0 <= c < j ==> #[trigger] self@[b as int][c] == old(self)@[a as int][c],
                forall|c: int| j <= c < p ==> #[trigger] self@[a as int][c] == old(self)@[a as int][c],
                forall|c: int| j <= c < p ==> #[trigger] self@[b as int][c] == old(self)@[b as int][c],
            decreases p - j,
        {
            let upper = self.get(a, j);
            let lower = self.get(b, j);
            self.set(a, j, lower);
            self.set(b, j, upper);
            j = j + 1;
        }
        proof {
            assert(self@ =~~= swapped(old(self)@, a as int, b as int));
        }
    }

    /// The column whose entries are those of `column`, from the top down.
    /// There is none of an empty vector.
    pub fn from_column(column: Vec<T>) -> (r: Result<Self, LinalgError>)
        ensures
            r is Ok <==> column@.len() > 0,
            r matches Ok(m) ==> m.wf() && m@ == as_column(column@),
            r matches Err(e) ==> e == LinalgError::Dimension,
    {
        let n: usize = column.len();
        if n == 0 {
            return Err(LinalgError::Dimension);
        }
        let mut m = Matrix::constant(n, 1, column[0]);
        let mut i: usize = 0;
        while i < n
            invariant
                m.wf(),
                n == column@.len(),
                has_shape(m@, n as nat, 1),
                i <= n,
                forall|a: int| 0 <= a < i ==> #[trigger] m@[a][0] == column@[a],
            decreases n - i,
        {
            m.set(i, 0, column[i]);
            i = i + 1;
        }
        proof {
            assert(m@ =~~= as_column(column@));
        }
        Ok(m)
    }

    /// The row whose entries are those of `line`, from left to right. There
    /// is none of an empty vector.
    pub fn from_line(line: Vec<T>) -> (r: Result<Self, LinalgError>)
        ensures
            r is Ok <==> line@.len() > 0,
            r matches Ok(m) ==> m.wf() && m@ == seq![line@],
            r matches Err(e) ==> e == LinalgError::Dimension,
    {
        let p: usize = line.len();
        if p == 0 {
            return Err(LinalgError::Dimension);
        }
        let mut m = Matrix::constant(1, p, line[0]);
        let mut j: usize = 0;
        while j < p
            invariant
                m.wf(),
                p == line@.len(),
                has_shape(m@, 1, p as nat),
                j <= p,
                forall|b: int| 0 <= b < j ==> #[trigger] m@[0][b] == line@[b],
            decreases p - j,
        {
            m.set(0, j, line[j]);
            j = j + 1;
        }
        proof {
            assert(m@ =~~= seq![line@]);
        }
        Ok(m)
    }

    /// The matrix whose rows are those of `value`. There is none where
    /// `value` holds no row or only empty rows (`Dimension`), or rows of
    /// different lengths (`Ragged`).
    pub fn from(value: Vec<Vec<T>>) -> (r: Result<Self, LinalgError>)
        ensures
            match rows_fault(rows_of(value@)) {
                Some(e) => r matches Err(x) && x == e,
                None => r matches Ok(m) && m.wf() && m@ == rows_of(value@),
            },
    {
        let n: usize = value.len();
        if n == 0 {
            return Err(LinalgError::Dimension);
        }
        let p: usize = value[0].len();
        let mut i: usize = 0;
        while i < n
            invariant
                n == value@.len(),
                p == value@[0]@.len(),
                i <= n,
                forall|a: int| 0 <= a < i ==> (#[trigger] value@[a])@.len() == p,
            decreases n - i,
        {
            if value[i].len() != p {
                proof {
                    assert(rows_of(value@)[i as int].len() != rows_of(value@)[0].len());
                }
                return Err(LinalgError::Ragged);
            }
            i = i + 1;
        }
        proof {
            assert forall|a: int| 0 <= a < n implies #[trigger] rows_of(value@)[a].len() == rows_of(
                value@,
            )[0].len() by {
            }
        }
        if p == 0 {
            return Err(LinalgError::Dimension);
        }
        if n.checked_mul(p).is_none() {
            return Err(LinalgError::Dimension);
        }
        let mut m = Matrix::constant(n, p, value[0][0]);
        let mut i: usize = 0;
        while i < n
            invariant
                m.wf(),
                n == value@.len(),
                p > 0,
                forall|a: int| 0 <= a < n ==> (#[trigger] value@[a])@.len() == p,
                has_shape(m@, n as nat, p as nat),
                i <= n,
                forall|a: int, b: int|
                    0 <= a < i && 0 <= b < p ==> #[trigger] m@[a][b] == value@[a]@[b],
            decreases n - i,
        {
            let mut j: usize = 0;
            while j < p
                invariant
                    m.wf(),
                    n == value@.len(),
                    forall|a: int| 0 <= a < n ==> (#[trigger] value@[a])@.len() == p,
                    has_shape(m@, n as nat, p as nat),
                    i < n,
                    j <= p,
                    forall|a: int, b: int|
                        0 <= a < i && 0 <= b < p ==> #[trigger] m@[a][b] == value@[a]@[b],
                    forall|b: int| 0 <= b < j ==> #[trigger] m@[i as int][b] == value@[i as int]@[b],
                decreases p - j,
            {
                let row = &value[i];
                m.set(i, j, row[j]);
                j = j + 1;
            }
            i = i + 1;
        }
        proof {
            assert(m@ =~~= rows_of(value@));
        }
        Ok(m)
    }
}

/// Whether `s` has `n` rows of `p` entries each.
pub open spec fn has_shape<T>(s: Seq<Seq<T>>, n: nat, p: nat) -> bool {
    &&& s.len() == n
    &&& forall|i: int| 0 <= i < n ==> #[trigger] s[i].len() == p
}

/// The transpose of the grid `s`.
pub open spec fn transposed<T>(s: Seq<Seq<T>>) -> Seq<Seq<T>> {
    grid(s[0].len(), s.len(), |i: int, j: int| s[j][i])
}

/// The entries of `v` as a grid of one column.
pub open spec fn as_column<T>(v: Seq<T>) -> Seq<Seq<T>> {
    grid(v.len(), 1, |i: int, j: int| v[i])
}

/// The grid `s` with column `j` replaced by the entries of `v`.
pub open spec fn with_column<T>(s: Seq<Seq<T>>, j: int, v: Seq<T>) -> Seq<Seq<T>> {
    grid(
        s.len(),
        s[0].len(),
        |a: int, b: int|
            if b == j {
                v[a]
            } else {
                s[a][b]
            },
    )
}

/// The grid `s` with the rows `a` and `b` exchanged.
pub open spec fn swapped<T>(s: Seq<Seq<T>>, a: int, b: int) -> Seq<Seq<T>> {
    s.update(a, s[b]).update(b, s[a])
}

/// The rows held by a vector of vectors.
pub open spec fn rows_of<T>(value: Seq<Vec<T>>) -> Seq<Seq<T>> {
    Seq::new(value.len(), |i: int| value[i]@)
}

/// What is wrong with `s` as the rows of a matrix, if anything: no rows at
/// all, rows of different lengths, rows without entries, or more entries
/// than can be counted.
pub open spec fn rows_fault<T>(s: Seq<Seq<T>>) -> Option<LinalgError> {
    if s.len() == 0 {
        Some(LinalgError::Dimension)
    } else if exists|i: int| 0 <= i < s.len() && #[trigger] s[i].len() != s[0].len() {
        Some(LinalgError::Ragged)
    } else if s[0].len() == 0 || s.len() * s[0].len() > usize::MAX {
        Some(LinalgError::Dimension)
    } else {
        None
    }
}

} // verus!
