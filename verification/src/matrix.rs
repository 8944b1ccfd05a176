//! Matrices, stored row by row.

use vstd::prelude::*;
use crate::numbers::UnsignedInt;
use crate::vector::{Vector, may_succeed, fails_first_at};
use crate::modular::{sum, cong, lemma_cong_ops, lemma_cong_mod};

verus! {

/// A matrix of `rows` rows and `cols` columns. The entry of row `r` and column `c`
/// is held at index `r * cols + c` of `entries`.
pub struct Matrix<T> {
    pub rows: usize,
    pub cols: usize,
    pub entries: Vec<T>,
}

/// The index of an entry of a matrix lies within its storage.
pub proof fn lemma_flat_index(r: int, c: int, rows: int, cols: int)
    requires
        0 <= r < rows,
        0 <= c < cols,
    ensures
        0 <= r * cols + c < rows * cols,
        r * cols >= 0,
{
    assert(0 <= r * cols + c < rows * cols && r * cols >= 0) by (nonlinear_arith)
        requires
            0 <= r < rows,
            0 <= c < cols,
    ;
}

/// Two entries of a matrix with the same index are the same entry.
pub proof fn lemma_flat_index_injective(r1: int, c1: int, r2: int, c2: int, cols: int)
    requires
        0 <= c1 < cols,
        0 <= c2 < cols,
        r1 * cols + c1 == r2 * cols + c2,
    ensures
        r1 == r2,
        c1 == c2,
{
    assert(r1 == r2 && c1 == c2) by (nonlinear_arith)
        requires
            0 <= c1 < cols,
            0 <= c2 < cols,
            r1 * cols + c1 == r2 * cols + c2,
    ;
}

/// The index that takes the place of `r` when `i` and `j` are exchanged.
pub open spec fn swapped(r: int, i: int, j: int) -> int {
    if r == i {
        j
    } else if r == j {
        i
    } else {
        r
    }
}

impl<T> Matrix<T> {
    /// The storage has one place for each entry.
    pub open spec fn wf(&self) -> bool {
        self.entries@.len() == self.rows * self.cols
    }

    /// Whether `(r, c)` is the place of an entry.
    pub open spec fn has(&self, r: int, c: int) -> bool {
        0 <= r < self.rows && 0 <= c < self.cols
    }

    /// The index in `entries` of the entry of row `r` and column `c`.
    pub open spec fn flat(&self, r: int, c: int) -> int {
        r * self.cols + c
    }

    /// The entry of row `r` and column `c`.
    pub open spec fn at(&self, r: int, c: int) -> T {
        self.entries@[self.flat(r, c)]
    }

    /// Whether this is `old` with rows `i` and `j` exchanged.
    pub open spec fn rows_swapped(&self, old: &Matrix<T>, i: int, j: int) -> bool {
        &&& self.wf()
        &&& self.same_dims(old)
        &&& forall|r: int, c: int|
            old.has(r, c) ==> #[trigger] self.at(r, c) == old.at(swapped(r, i, j), c)
    }

    /// Whether this is `old` with columns `i` and `j` exchanged.
    pub open spec fn cols_swapped(&self, old: &Matrix<T>, i: int, j: int) -> bool {
        &&& self.wf()
        &&& self.same_dims(old)
        &&& forall|r: int, c: int|
            old.has(r, c) ==> #[trigger] self.at(r, c) == old.at(r, swapped(c, i, j))
    }

    /// Whether two matrices have the same dimensions.
    pub open spec fn same_dims<U>(&self, other: &Matrix<U>) -> bool {
        self.rows == other.rows && self.cols == other.cols
    }

    /// Whether `f` fails with `e` on the first entry, in storage order, on which it
    /// may fail, where `row` is the index of that entry divided by the number of
    /// rows and `col` its remainder by the number of columns.
    pub open spec fn fails_with<U, E, F: Fn(&T) -> Result<U, E>>(
        &self,
        f: F,
        row: int,
        col: int,
        e: E,
    ) -> bool {
        exists|at: int|
            {
                &&& #[trigger] fails_first_at(f, self.entries@, at, e)
                &&& row == at / (self.rows as int)
                &&& col == at % (self.cols as int)
            }
    }

    /// The matrix without rows and columns.
    pub fn empty() -> (m: Self)
        ensures
            m.wf(),
            m.rows == 0,
            m.cols == 0,
    {
        Self { rows: 0, cols: 0, entries: Vec::new() }
    }

    /// The smaller of the two dimensions.
    pub fn min_dim(&self) -> (d: usize)
        ensures
            d == if self.rows <= self.cols { self.rows } else { self.cols },
    {
        if self.rows <= self.cols {
            self.rows
        } else {
            self.cols
        }
    }

    /// The entry of row `r` and column `c`.
    pub fn entry(&self, r: usize, c: usize) -> (e: &T)
        requires
            self.wf(),
            self.has(r as int, c as int),
        ensures
            *e == self.at(r as int, c as int),
    {
        let n: usize = self.entries.len();
        proof {
            lemma_flat_index(r as int, c as int, self.rows as int, self.cols as int);
        }
        &self.entries[r * self.cols + c]
    }

    /// The entry of row `r` and column `c`, to be written to.
    pub fn entry_mut(&mut self, r: usize, c: usize) -> (e: &mut T)
        requires
            old(self).wf(),
            old(self).has(r as int, c as int),
        ensures
            *e == old(self).at(r as int, c as int),
            final(self).wf(),
            final(self).same_dims(old(self)),
            final(self).at(r as int, c as int) == *final(e),
            forall|r2: int, c2: int|
                old(self).has(r2, c2) && (r2 != r || c2 != c) ==> #[trigger] final(self).at(r2, c2)
                    == old(self).at(r2, c2),
    {
        let n: usize = self.entries.len();
        proof {
            lemma_flat_index(r as int, c as int, self.rows as int, self.cols as int);
            assert forall|r2: int, c2: int|
                old(self).has(r2, c2) && (r2 != r || c2 != c) implies #[trigger] old(self).flat(
                    r2,
                    c2,
                ) != old(self).flat(r as int, c as int) && 0 <= old(self).flat(r2, c2) < n by {
                lemma_flat_index(r2, c2, self.rows as int, self.cols as int);
                if r2 * self.cols + c2 == r * self.cols + c {
                    lemma_flat_index_injective(r2, c2, r as int, c as int, self.cols as int);
                }
            }
        }
        &mut self.entries[r * self.cols + c]
    }

    /// Row `r` as a slice.
    pub fn row(&self, r: usize) -> (s: &[T])
        requires
            self.wf(),
            r < self.rows,
        ensures
            s@.len() == self.cols,
            forall|c: int| 0 <= c < self.cols ==> s@[c] == self.at(r as int, c),
    {
        let n: usize = self.entries.len();
        proof {
            if self.cols > 0 {
                lemma_flat_index(r as int, self.cols - 1, self.rows as int, self.cols as int);
            } else {
                assert(r * self.cols == 0) by (nonlinear_arith)
                    requires
                        self.cols == 0,
                ;
            }
        }
        let i: usize = r * self.cols;
        let s = vstd::slice::slice_subrange(self.entries.as_slice(), i, i + self.cols);
        s
    }

    /// The matrix of the images of the entries under `f`.
    pub fn map<U, F: Fn(&T) -> U>(&self, f: F) -> (m: Matrix<U>)
        requires
            self.wf(),
            forall|i: int|
                0 <= i < self.entries@.len() ==> call_requires(f, (&#[trigger] self.entries@[i],)),
        ensures
            m.wf(),
            m.same_dims(self),
            forall|i: int|
                0 <= i < self.entries@.len() ==> call_ensures(
                    f,
                    (&self.entries@[i],),
                    #[trigger] m.entries@[i],
                ),
    {
        let mut out: Vec<U> = Vec::new();
        let mut i: usize = 0;
        while i < self.entries.len()
            invariant
                i <= self.entries@.len(),
                out@.len() == i,
                forall|k: int|
                    0 <= k < self.entries@.len() ==> call_requires(
                        f,
                        (&#[trigger] self.entries@[k],),
                    ),
                forall|k: int|
                    0 <= k < i ==> call_ensures(f, (&self.entries@[k],), #[trigger] out@[k]),
            decreases self.entries@.len() - i,
        {
            let u = f(&self.entries[i]);
            out.push(u);
            i += 1;
        }
        Matrix { rows: self.rows, cols: self.cols, entries: out }
    }

    /// The matrix of the images of the entries under `f`. Where `f` fails, the error
    /// of the first entry, in storage order, on which it does, with the index of that
    /// entry divided by the number of rows and its remainder by the number of columns.
    pub fn try_map<U, E, F: Fn(&T) -> Result<U, E>>(&self, f: F) -> (r: Result<
        Matrix<U>,
        (usize, usize, E),
    >)
        requires
            self.wf(),
            forall|i: int|
                0 <= i < self.entries@.len() ==> call_requires(f, (&#[trigger] self.entries@[i],)),
        ensures
            match r {
                Ok(m) => {
                    &&& m.wf()
                    &&& m.same_dims(self)
                    &&& forall|i: int|
                        0 <= i < self.entries@.len() ==> call_ensures(
                            f,
                            (&self.entries@[i],),
                            Ok(#[trigger] m.entries@[i]),
                        )
                },
                Err((row, col, e)) => self.fails_with(f, row as int, col as int, e),
            },
    {
        let mut out: Vec<U> = Vec::new();
        let mut i: usize = 0;
        while i < self.entries.len()
            invariant
                self.wf(),
                i <= self.entries@.len(),
                out@.len() == i,
                forall|k: int|
                    0 <= k < self.entries@.len() ==> call_requires(
                        f,
                        (&#[trigger] self.entries@[k],),
                    ),
                forall|k: int|
                    0 <= k < i ==> call_ensures(f, (&self.entries@[k],), Ok(#[trigger] out@[k])),
            decreases self.entries@.len() - i,
        {
            match f(&self.entries[i]) {
                Ok(u) => {
                    out.push(u);
                },
                Err(e) => {
                    assert forall|k: int| 0 <= k < i implies #[trigger] may_succeed(
                        f,
                        self.entries@[k],
                    ) by {
                        assert(call_ensures(f, (&self.entries@[k],), Ok(out@[k])));
                    }
                    assert(self.rows != 0 && self.cols != 0) by (nonlinear_arith)
                        requires
                            self.rows * self.cols > 0,
                    ;
                    let row: usize = i / self.rows;
                    let col: usize = i % self.cols;
                    assert(fails_first_at(f, self.entries@, i as int, e));

                    return Err((row, col, e));
                },
            }
            i += 1;
        }
        Ok(Matrix { rows: self.rows, cols: self.cols, entries: out })
    }
}

impl<T: Copy> Matrix<T> {
    /// Writes `val` to the entry of row `r` and column `c`.
    pub fn set(&mut self, r: usize, c: usize, val: T)
        requires
            old(self).wf(),
            old(self).has(r as int, c as int),
        ensures
            final(self).wf(),
            final(self).same_dims(old(self)),
            final(self).at(r as int, c as int) == val,
            forall|r2: int, c2: int|
                old(self).has(r2, c2) && (r2 != r || c2 != c) ==> #[trigger] final(self).at(r2, c2)
                    == old(self).at(r2, c2),
    {
        let e = self.entry_mut(r, c);
        *e = val;
    }

    /// The matrix whose rows are the elements of `a`.
    pub fn from_array<const R: usize, const C: usize>(a: [[T; C]; R]) -> (m: Self)
        requires
            R * C <= usize::MAX,
        ensures
            m.wf(),
            m.rows == R,
            m.cols == C,
            forall|r: int, c: int| m.has(r, c) ==> #[trigger] m.at(r, c) == a@[r]@[c],
    {
        let mut out: Vec<T> = Vec::new();
        let mut r: usize = 0;
        while r < R
            invariant
                r <= R,
                R * C <= usize::MAX,
                out@.len() == r * C,
                forall|r2: int, c2: int|
                    0 <= r2 < r && 0 <= c2 < C ==> #[trigger] out@[r2 * C + c2] == a@[r2]@[c2],
            decreases R - r,
        {
            let mut c: usize = 0;
            while c < C
                invariant
                    r < R,
                    c <= C,
                    R * C <= usize::MAX,
                    out@.len() == r * C + c,
                    forall|r2: int, c2: int|
                        0 <= r2 < r && 0 <= c2 < C ==> #[trigger] out@[r2 * C + c2] == a@[r2]@[c2],
                    forall|c2: int| 0 <= c2 < c ==> #[trigger] out@[r * C + c2] == a@[r as int]@[c2],
                decreases C - c,
            {
                let ghost prev = out@;
                let row: &[T; C] = &a[r];
                out.push(row[c]);
                proof {
                    assert forall|r2: int, c2: int| 0 <= r2 < r && 0 <= c2 < C implies #[trigger] out@[r2
                        * C + c2] == a@[r2]@[c2] by {
                        lemma_flat_index(r2, c2, r as int, C as int);
                        assert(out@[r2 * C + c2] == prev[r2 * C + c2]);
                    }
                }
                c += 1;
            }
            proof {
                assert((r + 1) * C == r * C + C) by (nonlinear_arith);
                assert forall|r2: int, c2: int| 0 <= r2 < r + 1 && 0 <= c2 < C implies #[trigger] out@[r2
                    * C + c2] == a@[r2]@[c2] by {
                    if r2 == r {
                        assert(out@[r * C + c2] == a@[r as int]@[c2]);
                    }
                }
            }
            r += 1;
        }
        Matrix { rows: R, cols: C, entries: out }
    }

    /// The matrix of `r` rows and `c` columns whose entries all are `val`.
    pub fn uniform(r: usize, c: usize, val: T) -> (m: Self)
        requires
            r * c <= usize::MAX,
        ensures
            m.wf(),
            m.rows == r,
            m.cols == c,
            forall|i: int, j: int| m.has(i, j) ==> #[trigger] m.at(i, j) == val,
    {
        let n: usize = r * c;
        let v = Vector::uniform(n, val);
        let m = Matrix { rows: r, cols: c, entries: v.entries };
        proof {
            assert forall|i: int, j: int| m.has(i, j) implies #[trigger] m.at(i, j) == val by {
                lemma_flat_index(i, j, r as int, c as int);
                assert(v@[m.flat(i, j)] == val);
            }
        }
        m
    }

    /// A copy of the matrix.
    pub fn copy(&self) -> (m: Self)
        ensures
            m.rows == self.rows,
            m.cols == self.cols,
            m.entries@ == self.entries@,
    {
        let v = Vector::from_slice(self.entries.as_slice());
        Matrix { rows: self.rows, cols: self.cols, entries: v.entries }
    }

    /// Column `c`, to be walked from the first row to the last.
    pub fn col(&self, c: usize) -> (it: Column<'_, T>)
        requires
            self.wf(),
            c < self.cols,
        ensures
            it.wf(),
            *it.mat == *self,
            it.col == c,
            it.row == 0,
    {
        Column::from_matrix(self, c)
    }

    /// Column `c`, to be walked from the first row to the last and written to.
    pub fn col_mut(&mut self, c: usize) -> (it: ColumnMut<'_, T>)
        requires
            old(self).wf(),
            c < old(self).cols,
        ensures
            it.wf(),
            *it.mat == *old(self),
            *final(it.mat) == *final(self),
            it.col == c,
            it.row == 0,
    {
        ColumnMut::from_matrix(self, c)
    }

    /// Row `r` as a slice that can be written to. Where the slice keeps its length,
    /// the matrix keeps its dimensions, row `r` holds what was written, and the
    /// other rows are untouched.
    pub fn row_mut(&mut self, r: usize) -> (s: &mut [T])
        requires
            old(self).wf(),
            r < old(self).rows,
        ensures
            s@.len() == old(self).cols,
            forall|c: int| 0 <= c < old(self).cols ==> s@[c] == old(self).at(r as int, c),
            final(self).rows == old(self).rows,
            final(self).cols == old(self).cols,
            final(s)@.len() == s@.len() ==> {
                &&& final(self).wf()
                &&& forall|c: int|
                    0 <= c < old(self).cols ==> #[trigger] final(self).at(r as int, c)
                        == final(s)@[c]
                &&& forall|r2: int, c: int|
                    old(self).has(r2, c) && r2 != r ==> #[trigger] final(self).at(r2, c)
                        == old(self).at(r2, c)
            },
    {
        let n: usize = self.entries.len();
        let cols: usize = self.cols;
        proof {
            if self.cols > 0 {
                lemma_flat_index(r as int, self.cols - 1, self.rows as int, self.cols as int);
            } else {
                assert(r * self.cols == 0) by (nonlinear_arith)
                    requires
                        self.cols == 0,
                ;
            }
            assert forall|r2: int, c: int|
                old(self).has(r2, c) implies 0 <= #[trigger] old(self).flat(r2, c) < n && (r2 < r ==> old(self).flat(r2, c) < r * cols) && (r2 > r
                ==> old(self).flat(r2, c) >= r * cols + cols) by {
                lemma_flat_index(r2, c, self.rows as int, self.cols as int);
                assert(r2 < r ==> r2 * cols + c < r * cols) by (nonlinear_arith)
                    requires
                        0 <= c < cols,
                ;
                assert(r2 > r ==> r2 * cols + c >= r * cols + cols) by (nonlinear_arith)
                    requires
                        0 <= c < cols,
                ;
            }
        }
        let i: usize = r * cols;
        let all = self.entries.as_mut_slice();
        let (_, tail) = all.split_at_mut(i);
        let (row, _) = tail.split_at_mut(cols);
        row
    }

    /// Exchanges rows `i` and `j`.
    pub fn swap_rows(&mut self, i: usize, j: usize)
        requires
            old(self).wf(),
            i < old(self).rows,
            j < old(self).rows,
        ensures
            final(self).rows_swapped(old(self), i as int, j as int),
    {
        if i == j {
            return ;
        }
        let mut c: usize = 0;
        while c < self.cols
            invariant
                self.wf(),
                self.same_dims(old(self)),
                i < self.rows,
                j < self.rows,
                i != j,
                c <= self.cols,
                forall|r: int, c2: int|
                    self.has(r, c2) && c2 < c ==> #[trigger] self.at(r, c2) == old(self).at(
                        swapped(r, i as int, j as int),
                        c2,
                    ),
                forall|r: int, c2: int|
                    self.has(r, c2) && c2 >= c ==> #[trigger] self.at(r, c2) == old(self).at(r, c2),
            decreases self.cols - c,
        {
            let x: T = *self.entry(i, c);
            let y: T = *self.entry(j, c);
            self.set(i, c, y);
            self.set(j, c, x);
            c += 1;
        }
    }

    /// Exchanges columns `i` and `j`.
    pub fn swap_columns(&mut self, i: usize, j: usize)
        requires
            old(self).wf(),
            i < old(self).cols,
            j < old(self).cols,
        ensures
            final(self).cols_swapped(old(self), i as int, j as int),
    {
        if i == j {
            return ;
        }
        let mut r: usize = 0;
        while r < self.rows
            invariant
                self.wf(),
                self.same_dims(old(self)),
                i < self.cols,
                j < self.cols,
                i != j,
                r <= self.rows,
                forall|r2: int, c: int|
                    self.has(r2, c) && r2 < r ==> #[trigger] self.at(r2, c) == old(self).at(
                        r2,
                        swapped(c, i as int, j as int),
                    ),
                forall|r2: int, c: int|
                    self.has(r2, c) && r2 >= r ==> #[trigger] self.at(r2, c) == old(self).at(r2, c),
            decreases self.rows - r,
        {
            let x: T = *self.entry(r, i);
            let y: T = *self.entry(r, j);
            self.set(r, i, y);
            self.set(r, j, x);
            r += 1;
        }
    }
}

impl<T: UnsignedInt> Matrix<T> {
    /// The representative of the entry of row `r` and column `c`.
    pub open spec fn val_at(&self, r: int, c: int) -> int {
        self.at(r, c).val()
    }

    /// The sum, over the integers, of the first `n` products of an entry of row `r`
    /// with the entry of column `c` of `rhs` that it meets.
    pub open spec fn dot_upto(&self, r: int, rhs: &Matrix<T>, c: int, n: int) -> int {
        sum(self.dot_terms(r, rhs, c), n)
    }

    /// The products of the entries of row `r` with the entries of column `c` of `rhs`.
    pub open spec fn dot_terms(&self, r: int, rhs: &Matrix<T>, c: int) -> spec_fn(int) -> int {
        |k: int| self.val_at(r, k) * rhs.val_at(k, c)
    }

    /// The products of the entries of row `r` with the numbers `y`.
    pub open spec fn apply_terms(&self, y: Seq<int>, r: int) -> spec_fn(int) -> int {
        |k: int| self.val_at(r, k) * y[k]
    }

    /// The sum, over the integers, of the first `n` products of an entry of row `r`
    /// with the number of `y` that it meets.
    pub open spec fn apply_upto(&self, y: Seq<int>, r: int, n: int) -> int {
        sum(self.apply_terms(y, r), n)
    }

    /// The sum, over the integers, of the products of the entries of row `r` with
    /// the numbers `y`.
    pub open spec fn apply_at(&self, y: Seq<int>, r: int) -> int {
        self.apply_upto(y, r, self.cols as int)
    }

    /// The product of the matrix with the column of the numbers `y`, over the
    /// integers.
    pub open spec fn apply(&self, y: Seq<int>) -> Seq<int> {
        Seq::new(self.rows as nat, |r: int| self.apply_at(y, r))
    }

    /// Whether the numbers `x` solve the system of this matrix with the right-hand
    /// sides `b`, over the ring.
    pub open spec fn solved_by(&self, x: Seq<int>, b: Seq<int>) -> bool {
        &&& x.len() == self.cols
        &&& b.len() == self.rows
        &&& forall|r: int|
            0 <= r < self.rows ==> cong(#[trigger] self.apply_at(x, r), b[r], T::modulus())
    }

    /// The sum, over the integers, of the products of the entries of row `r` with
    /// the entries of column `c` of `rhs`.
    pub open spec fn dot(&self, r: int, rhs: &Matrix<T>, c: int) -> int {
        self.dot_upto(r, rhs, c, self.cols as int)
    }

    /// Whether `v` is the product of this matrix and `x` over the ring.
    pub open spec fn is_image(&self, x: &Vector<T>, v: &Vector<T>) -> bool {
        &&& v@.len() == self.rows
        &&& forall|i: int|
            0 <= i < self.rows ==> #[trigger] v.val_at(i) == self.apply_at(x.vals(), i)
                % T::modulus()
    }

    /// Whether this is `old` with `c` times row `src` added to row `dst`.
    pub open spec fn row_added(&self, old: &Matrix<T>, src: int, dst: int, c: T) -> bool {
        &&& self.wf()
        &&& self.same_dims(old)
        &&& forall|r: int, j: int|
            old.has(r, j) && r != dst ==> #[trigger] self.at(r, j) == old.at(r, j)
        &&& forall|j: int|
            0 <= j < old.cols ==> #[trigger] self.val_at(dst, j) == (old.val_at(dst, j)
                + old.val_at(src, j) * c.val()) % T::modulus()
    }

    /// Whether this is `old` with `c` times column `src` added to column `dst`.
    pub open spec fn col_added(&self, old: &Matrix<T>, src: int, dst: int, c: T) -> bool {
        &&& self.wf()
        &&& self.same_dims(old)
        &&& forall|i: int, r: int|
            old.has(i, r) && r != dst ==> #[trigger] self.at(i, r) == old.at(i, r)
        &&& forall|i: int|
            0 <= i < old.rows ==> #[trigger] self.val_at(i, dst) == (old.val_at(i, dst)
                + old.val_at(i, src) * c.val()) % T::modulus()
    }

    /// Whether the entries off the diagonal are zero.
    pub open spec fn is_diagonal(&self) -> bool {
        forall|r: int, c: int| self.has(r, c) && r != c ==> #[trigger] self.val_at(r, c) == 0
    }

    /// Whether this is an identity matrix.
    pub open spec fn is_identity(&self) -> bool {
        &&& self.rows == self.cols
        &&& forall|r: int, c: int|
            self.has(r, c) ==> #[trigger] self.val_at(r, c) == if r == c {
                1int
            } else {
                0int
            }
    }

    /// Whether the two matrices have the same dimensions and, as ring elements,
    /// equal entries.
    pub open spec fn same_as(&self, other: &Matrix<T>) -> bool {
        &&& self.same_dims(other)
        &&& forall|r: int, c: int|
            self.has(r, c) ==> #[trigger] self.val_at(r, c) == other.val_at(r, c)
    }

    /// The zero matrix of `r` rows and `c` columns; the matrix without rows and
    /// columns where `r` or `c` is zero.
    pub fn zero(r: usize, c: usize) -> (m: Self)
        requires
            r * c <= usize::MAX,
        ensures
            m.wf(),
            m.rows == if c == 0 { 0 } else { r },
            m.cols == if r == 0 { 0 } else { c },
            forall|i: int, j: int| m.has(i, j) ==> #[trigger] m.val_at(i, j) == 0,
    {
        if r == 0 || c == 0 {
            return Self::empty();
        }
        let z: T = T::zero();
        let m = Self::uniform(r, c, z);
        assert forall|i: int, j: int| m.has(i, j) implies #[trigger] m.val_at(i, j) == 0 by {
            assert(m.at(i, j) == z);
        }
        m
    }

    /// The identity matrix of `n` rows and columns.
    pub fn id(n: usize) -> (m: Self)
        requires
            n * n <= usize::MAX,
        ensures
            m.wf(),
            m.rows == n,
            m.cols == n,
            m.is_identity(),
    {
        let mut m = Self::zero(n, n);
        let mut i: usize = 0;
        while i < n
            invariant
                m.wf(),
                m.rows == n,
                m.cols == n,
                i <= n,
                forall|r: int, c: int|
                    m.has(r, c) ==> #[trigger] m.val_at(r, c) == if r == c && r < i {
                        1int
                    } else {
                        0int
                    },
            decreases n - i,
        {
            let ghost prev = m;
            m.set(i, i, T::one());
            proof {
                assert forall|r: int, c: int| m.has(r, c) implies #[trigger] m.val_at(r, c) == if r
                    == c && r < i + 1 {
                    1int
                } else {
                    0int
                } by {
                    if r != i || c != i {
                        assert(m.at(r, c) == prev.at(r, c));
                        assert(prev.val_at(r, c) == if r == c && r < i {
                            1int
                        } else {
                            0int
                        });
                    }
                }
            }
            i += 1;
        }
        m
    }

    /// Adds `c` times row `n` to row `m`.
    pub fn row_multiply_add(&mut self, n: usize, m: usize, c: T)
        requires
            old(self).wf(),
            n < old(self).rows,
            m < old(self).rows,
        ensures
            final(self).row_added(old(self), n as int, m as int, c),
    {
        let mut i: usize = 0;
        while i < self.cols
            invariant
                self.wf(),
                self.same_dims(old(self)),
                n < self.rows,
                m < self.rows,
                i <= self.cols,
                forall|r: int, j: int|
                    self.has(r, j) && (r != m || j >= i) ==> #[trigger] self.at(r, j) == old(
                        self,
                    ).at(r, j),
                forall|j: int|
                    0 <= j < i ==> #[trigger] self.val_at(m as int, j) == (old(self).val_at(
                        m as int,
                        j,
                    ) + old(self).val_at(n as int, j) * c.val()) % T::modulus(),
            decreases self.cols - i,
        {
            let ghost prev = *self;
            assert(self.at(n as int, i as int) == old(self).at(n as int, i as int));
            assert(self.at(m as int, i as int) == old(self).at(m as int, i as int));
            let s: T = self.entry(n, i).mul(c);
            let e: T = self.entry(m, i).add(s);
            self.set(m, i, e);
            proof {
                let md = T::modulus();
                let a = old(self).val_at(m as int, i as int);
                let b = old(self).val_at(n as int, i as int) * c.val();
                T::lemma_modulus();
                lemma_cong_mod(b, md);
                lemma_cong_ops(a, a, b % md, b, md);
                assert forall|j: int| 0 <= j < i + 1 implies #[trigger] self.val_at(m as int, j) == (
                old(self).val_at(m as int, j) + old(self).val_at(n as int, j) * c.val())
                    % T::modulus() by {
                    if j < i {
                        assert(self.at(m as int, j) == prev.at(m as int, j));
                        assert(prev.val_at(m as int, j) == (old(self).val_at(m as int, j) + old(
                            self,
                        ).val_at(n as int, j) * c.val()) % T::modulus());
                    }
                }
            }
            i += 1;
        }
    }

    /// Adds `c` times column `n` to column `m`.
    pub fn col_multiply_add(&mut self, n: usize, m: usize, c: T)
        requires
            old(self).wf(),
            n < old(self).cols,
            m < old(self).cols,
        ensures
            final(self).col_added(old(self), n as int, m as int, c),
    {
        let mut i: usize = 0;
        while i < self.rows
            invariant
                self.wf(),
                self.same_dims(old(self)),
                n < self.cols,
                m < self.cols,
                i <= self.rows,
                forall|k: int, r: int|
                    self.has(k, r) && (r != m || k >= i) ==> #[trigger] self.at(k, r) == old(
                        self,
                    ).at(k, r),
                forall|k: int|
                    0 <= k < i ==> #[trigger] self.val_at(k, m as int) == (old(self).val_at(
                        k,
                        m as int,
                    ) + old(self).val_at(k, n as int) * c.val()) % T::modulus(),
            decreases self.rows - i,
        {
            let ghost prev = *self;
            assert(self.at(i as int, n as int) == old(self).at(i as int, n as int));
            assert(self.at(i as int, m as int) == old(self).at(i as int, m as int));
            let s: T = self.entry(i, n).mul(c);
            let e: T = self.entry(i, m).add(s);
            self.set(i, m, e);
            proof {
                let md = T::modulus();
                let a = old(self).val_at(i as int, m as int);
                let b = old(self).val_at(i as int, n as int) * c.val();
                T::lemma_modulus();
                lemma_cong_mod(b, md);
                lemma_cong_ops(a, a, b % md, b, md);
                assert forall|k: int| 0 <= k < i + 1 implies #[trigger] self.val_at(k, m as int) == (
                old(self).val_at(k, m as int) + old(self).val_at(k, n as int) * c.val())
                    % T::modulus() by {
                    if k < i {
                        assert(self.at(k, m as int) == prev.at(k, m as int));
                        assert(prev.val_at(k, m as int) == (old(self).val_at(k, m as int) + old(
                            self,
                        ).val_at(k, n as int) * c.val()) % T::modulus());
                    }
                }
            }
            i += 1;
        }
    }

    /// The product of this matrix and `rhs` over the ring; the matrix without rows
    /// and columns where the product has no entry.
    pub fn mul(&self, rhs: &Matrix<T>) -> (m: Matrix<T>)
        requires
            self.wf(),
            rhs.wf(),
            self.cols == rhs.rows,
            self.rows * rhs.cols <= usize::MAX,
        ensures
            m.wf(),
            m.rows == if rhs.cols == 0 { 0 } else { self.rows },
            m.cols == if self.rows == 0 { 0 } else { rhs.cols },
            forall|i: int, j: int|
                m.has(i, j) ==> #[trigger] m.val_at(i, j) == self.dot(i, rhs, j) % T::modulus(),
    {
        let mut m = Self::zero(self.rows, rhs.cols);
        let mut i: usize = 0;
        while i < m.rows
            invariant
                self.wf(),
                rhs.wf(),
                m.wf(),
                self.cols == rhs.rows,
                m.rows == if rhs.cols == 0 { 0 } else { self.rows },
                m.cols == if self.rows == 0 { 0 } else { rhs.cols },
                i <= m.rows,
                forall|r: int, j: int|
                    m.has(r, j) && r < i ==> #[trigger] m.val_at(r, j) == self.dot(r, rhs, j)
                        % T::modulus(),
            decreases m.rows - i,
        {
            let mut j: usize = 0;
            while j < m.cols
                invariant
                    self.wf(),
                    rhs.wf(),
                    m.wf(),
                    self.cols == rhs.rows,
                    m.rows == if rhs.cols == 0 { 0 } else { self.rows },
                    m.cols == if self.rows == 0 { 0 } else { rhs.cols },
                    i < m.rows,
                    j <= m.cols,
                    forall|r: int, c: int|
                        m.has(r, c) && (r < i || (r == i && c < j)) ==> #[trigger] m.val_at(r, c)
                            == self.dot(r, rhs, c) % T::modulus(),
                decreases m.cols - j,
            {
                let mut acc: T = T::zero();
                let mut k: usize = 0;
                proof {
                    T::lemma_modulus();
                    crate::modular::lemma_mod_small(0, T::modulus());
                }
                while k < self.cols
                    invariant
                        self.wf(),
                        rhs.wf(),
                        self.cols == rhs.rows,
                        i < self.rows,
                        j < rhs.cols,
                        k <= self.cols,
                        acc.val() == self.dot_upto(i as int, rhs, j as int, k as int) % T::modulus(),
                    decreases self.cols - k,
                {
                    let p: T = self.entry(i, k).mul(*rhs.entry(k, j));
                    let next: T = acc.add(p);
                    proof {
                        let md = T::modulus();
                        let s = self.dot_upto(i as int, rhs, j as int, k as int);
                        let t = self.val_at(i as int, k as int) * rhs.val_at(k as int, j as int);
                        T::lemma_modulus();
                        lemma_cong_mod(s, md);
                        lemma_cong_mod(t, md);
                        lemma_cong_ops(s % md, s, t % md, t, md);
                        assert(self.dot_upto(i as int, rhs, j as int, k + 1) == s + t);
                    }
                    acc = next;
                    k += 1;
                }
                let ghost prev = m;
                m.set(i, j, acc);
                proof {
                    assert forall|r: int, c: int|
                        m.has(r, c) && (r < i || (r == i && c < j + 1)) implies #[trigger] m.val_at(
                        r,
                        c,
                    ) == self.dot(r, rhs, c) % T::modulus() by {
                        if r != i || c != j {
                            assert(m.at(r, c) == prev.at(r, c));
                            assert(prev.val_at(r, c) == self.dot(r, rhs, c) % T::modulus());
                        }
                    }
                }
                j += 1;
            }
            i += 1;
        }
        m
    }

    /// The product of this matrix and the vector `rhs` over the ring.
    pub fn mul_vec(&self, rhs: &Vector<T>) -> (v: Vector<T>)
        requires
            self.wf(),
            self.cols == rhs@.len(),
        ensures
            self.is_image(rhs, &v),
    {
        let mut v = Vector::<T>::zero(self.rows);
        let mut i: usize = 0;
        while i < self.rows
            invariant
                self.wf(),
                self.cols == rhs@.len(),
                v@.len() == self.rows,
                i <= self.rows,
                forall|r: int|
                    0 <= r < i ==> #[trigger] v.val_at(r) == self.apply_at(rhs.vals(), r)
                        % T::modulus(),
            decreases self.rows - i,
        {
            let mut acc: T = T::zero();
            let mut k: usize = 0;
            proof {
                T::lemma_modulus();
                crate::modular::lemma_mod_small(0, T::modulus());
            }
            while k < self.cols
                invariant
                    self.wf(),
                    self.cols == rhs@.len(),
                    i < self.rows,
                    k <= self.cols,
                    acc.val() == self.apply_upto(rhs.vals(), i as int, k as int) % T::modulus(),
                decreases self.cols - k,
            {
                let p: T = self.entry(i, k).mul(*rhs.entry(k));
                let next: T = acc.add(p);
                proof {
                    let md = T::modulus();
                    let s = self.apply_upto(rhs.vals(), i as int, k as int);
                    let t = self.val_at(i as int, k as int) * rhs.val_at(k as int);
                    assert(rhs.vals()[k as int] == rhs.val_at(k as int));
                    T::lemma_modulus();
                    lemma_cong_mod(s, md);
                    lemma_cong_mod(t, md);
                    lemma_cong_ops(s % md, s, t % md, t, md);
                    assert(self.apply_upto(rhs.vals(), i as int, k + 1) == s + t);
                }
                acc = next;
                k += 1;
            }
            let ghost prev = v;
            v.set(i, acc);
            proof {
                assert forall|r: int| 0 <= r < i + 1 implies #[trigger] v.val_at(r)
                    == self.apply_at(rhs.vals(), r) % T::modulus() by {
                    if r != i {
                        assert(v@[r] == prev@[r]);
                        assert(prev.val_at(r) == self.apply_at(rhs.vals(), r) % T::modulus());
                    }
                }
            }
            i += 1;
        }
        v
    }

    /// Whether the two matrices have the same dimensions and equal entries.
    pub fn equals(&self, other: &Matrix<T>) -> (b: bool)
        requires
            self.wf(),
            other.wf(),
        ensures
            b == self.same_as(other),
    {
        if self.rows != other.rows || self.cols != other.cols {
            return false;
        }
        let mut r: usize = 0;
        while r < self.rows
            invariant
                self.wf(),
                other.wf(),
                self.same_dims(other),
                r <= self.rows,
                forall|i: int, j: int|
                    self.has(i, j) && i < r ==> #[trigger] self.val_at(i, j) == other.val_at(i, j),
            decreases self.rows - r,
        {
            let mut c: usize = 0;
            while c < self.cols
                invariant
                    self.wf(),
                    other.wf(),
                    self.same_dims(other),
                    r < self.rows,
                    c <= self.cols,
                    forall|i: int, j: int|
                        self.has(i, j) && (i < r || (i == r && j < c)) ==> #[trigger] self.val_at(
                            i,
                            j,
                        ) == other.val_at(i, j),
                decreases self.cols - c,
            {
                if !self.entry(r, c).eq(*other.entry(r, c)) {
                    proof {
                        assert(self.has(r as int, c as int));
                        assert(self.val_at(r as int, c as int) != other.val_at(r as int, c as int));
                    }
                    return false;
                }
                c += 1;
            }
            r += 1;
        }
        true
    }
}

/// A walk down a column of a matrix, from the first row to the last.
pub struct Column<'a, T> {
    /// The matrix.
    pub mat: &'a Matrix<T>,
    /// The column.
    pub col: usize,
    /// The row of the next entry.
    pub row: usize,
}

impl<'a, T> Column<'a, T> {
    /// Whether the walk is one down a column of a matrix.
    pub open spec fn wf(&self) -> bool {
        self.mat.wf() && self.col < self.mat.cols && self.row <= self.mat.rows
    }

    /// The entries that the walk has still to give.
    pub open spec fn remaining(&self) -> Seq<T> {
        Seq::new((self.mat.rows - self.row) as nat, |k: int| self.mat.at(self.row + k, self.col as int))
    }

    /// The walk down column `c` of the matrix, from its first row.
    pub fn from_matrix(mat: &'a Matrix<T>, c: usize) -> (it: Self)
        requires
            mat.wf(),
            c < mat.cols,
        ensures
            it.wf(),
            *it.mat == *mat,
            it.col == c,
            it.row == 0,
    {
        Column { mat, col: c, row: 0 }
    }

    /// The next entry of the column; `None` after the last.
    pub fn next(&mut self) -> (e: Option<&'a T>)
        requires
            old(self).wf(),
        ensures
            final(self).wf(),
            final(self).mat == old(self).mat,
            final(self).col == old(self).col,
            match e {
                Some(x) => {
                    &&& old(self).row < old(self).mat.rows
                    &&& *x == old(self).mat.at(old(self).row as int, old(self).col as int)
                    &&& final(self).row == old(self).row + 1
                    &&& old(self).remaining() == seq![*x] + final(self).remaining()
                },
                None => old(self).row == old(self).mat.rows && final(self).row == old(self).row,
            },
    {
        if self.row < self.mat.rows {
            let e = self.mat.entry(self.row, self.col);
            self.row += 1;
            proof {
                assert(old(self).remaining() =~= seq![*e] + self.remaining());
            }
            Some(e)
        } else {
            None
        }
    }
}

/// A walk down a column of a matrix whose entries can be written to, from the first
/// row to the last.
pub struct ColumnMut<'a, T> {
    /// The matrix.
    pub mat: &'a mut Matrix<T>,
    /// The column.
    pub col: usize,
    /// The row of the next entry.
    pub row: usize,
}

impl<'a, T> ColumnMut<'a, T> {
    /// Whether the walk is one down a column of a matrix.
    pub open spec fn wf(&self) -> bool {
        self.mat.wf() && self.col < self.mat.cols && self.row <= self.mat.rows
    }

    /// The walk down column `c` of the matrix, from its first row.
    pub fn from_matrix(mat: &'a mut Matrix<T>, c: usize) -> (it: Self)
        requires
            old(mat).wf(),
            c < old(mat).cols,
        ensures
            it.wf(),
            *it.mat == *old(mat),
            *final(it.mat) == *final(mat),
            it.col == c,
            it.row == 0,
    {
        ColumnMut { mat, col: c, row: 0 }
    }

    /// The next entry of the column, to be written to; `None` after the last.
    pub fn next(&mut self) -> (e: Option<&mut T>)
        requires
            old(self).wf(),
        ensures
            final(self).wf(),
            final(self).col == old(self).col,
            final(self).mat.same_dims(old(self).mat),
            *final(final(self).mat) == *final(old(self).mat),
            match e {
                Some(x) => {
                    &&& old(self).row < old(self).mat.rows
                    &&& final(self).row == old(self).row + 1
                    &&& *x == old(self).mat.at(old(self).row as int, old(self).col as int)
                    &&& final(self).mat.at(old(self).row as int, old(self).col as int) == *final(x)
                    &&& forall|r: int, c: int|
                        old(self).mat.has(r, c) && (r != old(self).row || c != old(self).col)
                            ==> #[trigger] final(self).mat.at(r, c) == old(self).mat.at(r, c)
                },
                None => {
                    &&& old(self).row == old(self).mat.rows
                    &&& final(self).row == old(self).row
                    &&& *final(self).mat == *old(self).mat
                },
            },
    {
        if self.row < self.mat.rows {
            let r: usize = self.row;
            self.row += 1;
            Some(self.mat.entry_mut(r, self.col))
        } else {
            None
        }
    }
}

} // verus!
