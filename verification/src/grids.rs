//! The diagonalization of a matrix as a function of its entries: the rule by which
//! the pivots are chosen and the rows and columns are reduced.

use vstd::prelude::*;
use crate::numbers::UnsignedInt;
use crate::matrix::{Matrix, swapped};

verus! {

/// The entries of a matrix as numbers, row by row.
pub open spec fn grid<T: UnsignedInt>(m: &Matrix<T>) -> Seq<Seq<int>> {
    Seq::new(m.rows as nat, |r: int| Seq::new(m.cols as nat, |c: int| m.val_at(r, c)))
}

/// The identity matrix of `n` rows.
pub open spec fn g_id(n: int) -> Seq<Seq<int>> {
    Seq::new(
        n as nat,
        |r: int|
            Seq::new(
                n as nat,
                |c: int|
                    if r == c {
                        1int
                    } else {
                        0int
                    },
            ),
    )
}

/// The rows `i` and `j` exchanged.
pub open spec fn g_swap_rows(g: Seq<Seq<int>>, i: int, j: int) -> Seq<Seq<int>> {
    Seq::new(g.len(), |r: int| g[swapped(r, i, j)])
}

/// The columns `i` and `j` exchanged.
pub open spec fn g_swap_cols(g: Seq<Seq<int>>, i: int, j: int) -> Seq<Seq<int>> {
    Seq::new(g.len(), |r: int| Seq::new(g[r].len(), |c: int| g[r][swapped(c, i, j)]))
}

/// Row `dst` with `c` times row `src` added to it, over the ring of `m` elements.
pub open spec fn g_row_add(g: Seq<Seq<int>>, src: int, dst: int, c: int, m: int) -> Seq<Seq<int>> {
    g.update(dst, Seq::new(g[dst].len(), |j: int| (g[dst][j] + g[src][j] * c) % m))
}

/// Column `dst` with `c` times column `src` added to it, over the ring of `m`
/// elements.
pub open spec fn g_col_add(g: Seq<Seq<int>>, src: int, dst: int, c: int, m: int) -> Seq<Seq<int>> {
    Seq::new(
        g.len(),
        |r: int|
            Seq::new(
                g[r].len(),
                |j: int|
                    if j == dst {
                        (g[r][dst] + g[r][src] * c) % m
                    } else {
                        g[r][j]
                    },
            ),
    )
}

/// The entries of a matrix whose rows were exchanged.
pub proof fn lemma_grid_swap_rows<T: UnsignedInt>(new: &Matrix<T>, old: &Matrix<T>, i: int, j: int)
    requires
        new.rows_swapped(old, i, j),
        0 <= i < old.rows,
        0 <= j < old.rows,
    ensures
        grid(new) == g_swap_rows(grid(old), i, j),
{
    let a = grid(new);
    let b = g_swap_rows(grid(old), i, j);
    assert forall|r: int| 0 <= r < a.len() implies a[r] =~= b[r] by {
        assert forall|c: int| 0 <= c < old.cols implies a[r][c] == b[r][c] by {
            assert(old.has(r, c));
            assert(new.at(r, c) == old.at(swapped(r, i, j), c));
        }
    }
    assert(a =~= b);
}

/// The entries of a matrix whose columns were exchanged.
pub proof fn lemma_grid_swap_cols<T: UnsignedInt>(new: &Matrix<T>, old: &Matrix<T>, i: int, j: int)
    requires
        new.cols_swapped(old, i, j),
        0 <= i < old.cols,
        0 <= j < old.cols,
    ensures
        grid(new) == g_swap_cols(grid(old), i, j),
{
    let a = grid(new);
    let b = g_swap_cols(grid(old), i, j);
    assert forall|r: int| 0 <= r < a.len() implies a[r] =~= b[r] by {
        assert forall|c: int| 0 <= c < old.cols implies a[r][c] == b[r][c] by {
            assert(old.has(r, c));
            assert(new.at(r, c) == old.at(r, swapped(c, i, j)));
        }
    }
    assert(a =~= b);
}

/// The entries of a matrix to a row of which a multiple of a row was added.
pub proof fn lemma_grid_row_add<T: UnsignedInt>(
    new: &Matrix<T>,
    old: &Matrix<T>,
    src: int,
    dst: int,
    c: T,
)
    requires
        new.row_added(old, src, dst, c),
        0 <= src < old.rows,
        0 <= dst < old.rows,
    ensures
        grid(new) == g_row_add(grid(old), src, dst, c.val(), T::modulus()),
{
    let a = grid(new);
    let b = g_row_add(grid(old), src, dst, c.val(), T::modulus());
    assert forall|r: int| 0 <= r < a.len() implies a[r] =~= b[r] by {
        assert forall|j: int| 0 <= j < old.cols implies a[r][j] == b[r][j] by {
            assert(old.has(r, j));
            if r != dst {
                assert(new.at(r, j) == old.at(r, j));
            } else {
                assert(new.val_at(dst, j) == (old.val_at(dst, j) + old.val_at(src, j) * c.val())
                    % T::modulus());
            }
        }
    }
    assert(a =~= b);
}

/// The entries of a matrix to a column of which a multiple of a column was added.
pub proof fn lemma_grid_col_add<T: UnsignedInt>(
    new: &Matrix<T>,
    old: &Matrix<T>,
    src: int,
    dst: int,
    c: T,
)
    requires
        new.col_added(old, src, dst, c),
        0 <= src < old.cols,
        0 <= dst < old.cols,
    ensures
        grid(new) == g_col_add(grid(old), src, dst, c.val(), T::modulus()),
{
    let a = grid(new);
    let b = g_col_add(grid(old), src, dst, c.val(), T::modulus());
    assert forall|r: int| 0 <= r < a.len() implies a[r] =~= b[r] by {
        assert forall|j: int| 0 <= j < old.cols implies a[r][j] == b[r][j] by {
            assert(old.has(r, j));
            if j != dst {
                assert(new.at(r, j) == old.at(r, j));
            } else {
                assert(new.val_at(r, dst) == (old.val_at(r, dst) + old.val_at(r, src) * c.val())
                    % T::modulus());
            }
        }
    }
    assert(a =~= b);
}

/// The entries of an identity matrix.
pub proof fn lemma_grid_id<T: UnsignedInt>(m: &Matrix<T>)
    requires
        m.is_identity(),
    ensures
        grid(m) == g_id(m.rows as int),
{
    let a = grid(m);
    let b = g_id(m.rows as int);
    assert forall|r: int| 0 <= r < a.len() implies a[r] =~= b[r] by {
        assert forall|c: int| 0 <= c < m.cols implies a[r][c] == b[r][c] by {
            assert(m.has(r, c));
        }
    }
    assert(a =~= b);
}

/// Whether row `p` is the first from row `i` on in which column `i` has its
/// smallest entry that is not zero.
pub open spec fn is_col_pivot(g: Seq<Seq<int>>, i: int, p: int) -> bool {
    &&& i <= p < g.len()
    &&& g[p][i] != 0
    &&& forall|k: int| i <= k < g.len() && #[trigger] g[k][i] != 0 ==> g[p][i] <= g[k][i]
    &&& forall|k: int| i <= k < p ==> #[trigger] g[k][i] == 0 || g[k][i] > g[p][i]
}

/// The first row from row `i` on in which column `i` has its smallest entry that is
/// not zero.
pub open spec fn g_col_pivot(g: Seq<Seq<int>>, i: int) -> int {
    choose|p: int| is_col_pivot(g, i, p)
}

/// Whether column `p` is the first from column `i` on in which row `i` has its
/// smallest entry that is not zero.
pub open spec fn is_row_pivot(g: Seq<Seq<int>>, i: int, p: int) -> bool {
    &&& i <= p < g[i].len()
    &&& g[i][p] != 0
    &&& forall|k: int| i <= k < g[i].len() && #[trigger] g[i][k] != 0 ==> g[i][p] <= g[i][k]
    &&& forall|k: int| i <= k < p ==> #[trigger] g[i][k] == 0 || g[i][k] > g[i][p]
}

/// The first column from column `i` on in which row `i` has its smallest entry that
/// is not zero.
pub open spec fn g_row_pivot(g: Seq<Seq<int>>, i: int) -> int {
    choose|p: int| is_row_pivot(g, i, p)
}

/// There is one such row.
pub proof fn lemma_col_pivot(g: Seq<Seq<int>>, i: int, p: int)
    requires
        is_col_pivot(g, i, p),
    ensures
        g_col_pivot(g, i) == p,
{
    let q = g_col_pivot(g, i);
    assert(is_col_pivot(g, i, q));
    if q < p {
        assert(g[q][i] == 0 || g[q][i] > g[p][i]);
        assert(g[p][i] != 0 ==> g[q][i] <= g[p][i]);
    }
    if p < q {
        assert(g[p][i] == 0 || g[p][i] > g[q][i]);
        assert(g[q][i] != 0 ==> g[p][i] <= g[q][i]);
    }
}

/// There is one such column.
pub proof fn lemma_row_pivot(g: Seq<Seq<int>>, i: int, p: int)
    requires
        is_row_pivot(g, i, p),
    ensures
        g_row_pivot(g, i) == p,
{
    let q = g_row_pivot(g, i);
    assert(is_row_pivot(g, i, q));
    if q < p {
        assert(g[i][q] == 0 || g[i][q] > g[i][p]);
        assert(g[i][p] != 0 ==> g[i][q] <= g[i][p]);
    }
    if p < q {
        assert(g[i][p] == 0 || g[i][p] > g[i][q]);
        assert(g[i][q] != 0 ==> g[i][p] <= g[i][q]);
    }
}

/// The rows from row `k` on, each less its multiple of row `i` that leaves the
/// remainder in column `i`, in `g` and, by the same multiples, in `s`.
pub open spec fn g_reduce_rows(
    g: Seq<Seq<int>>,
    s: Seq<Seq<int>>,
    i: int,
    k: int,
    m: int,
) -> (Seq<Seq<int>>, Seq<Seq<int>>)
    decreases g.len() - k,
{
    if k < 0 || k >= g.len() {
        (g, s)
    } else if g[k][i] != 0 {
        let c = (0 - g[k][i] / g[i][i]) % m;
        g_reduce_rows(g_row_add(g, i, k, c, m), g_row_add(s, i, k, c, m), i, k + 1, m)
    } else {
        g_reduce_rows(g, s, i, k + 1, m)
    }
}

/// The smallest entry of column `i` that is not zero, from the diagonal down,
/// brought to the diagonal, and the rows below it reduced by row `i`; `s` undergoes
/// the same operations.
pub open spec fn g_eliminate_col(g: Seq<Seq<int>>, s: Seq<Seq<int>>, i: int, m: int) -> (
    Seq<Seq<int>>,
    Seq<Seq<int>>,
) {
    let p = g_col_pivot(g, i);
    g_reduce_rows(g_swap_rows(g, i, p), g_swap_rows(s, i, p), i, i + 1, m)
}

/// The columns from column `k` on, each less its multiple of column `i` that leaves
/// the remainder in row `i`, in `g` and, by the same multiples, in `t`.
pub open spec fn g_reduce_cols(
    g: Seq<Seq<int>>,
    t: Seq<Seq<int>>,
    i: int,
    k: int,
    m: int,
) -> (Seq<Seq<int>>, Seq<Seq<int>>)
    decreases g[i].len() - k,
{
    if k < 0 || k >= g[i].len() || i < 0 || i >= g.len() {
        (g, t)
    } else if g[i][k] != 0 {
        let c = (0 - g[i][k] / g[i][i]) % m;
        let h = g_col_add(g, i, k, c, m);
        if h[i].len() == g[i].len() {
            g_reduce_cols(h, g_col_add(t, i, k, c, m), i, k + 1, m)
        } else {
            (g, t)
        }
    } else {
        g_reduce_cols(g, t, i, k + 1, m)
    }
}

/// The smallest entry of row `i` that is not zero, from the diagonal on, brought to
/// the diagonal, and the columns right of it reduced by column `i`; `t` undergoes
/// the same operations.
pub open spec fn g_eliminate_row(g: Seq<Seq<int>>, t: Seq<Seq<int>>, i: int, m: int) -> (
    Seq<Seq<int>>,
    Seq<Seq<int>>,
) {
    let p = g_row_pivot(g, i);
    g_reduce_cols(g_swap_cols(g, i, p), g_swap_cols(t, i, p), i, i + 1, m)
}

/// Whether the entries of column `i` below the diagonal are zero.
pub open spec fn g_col_zero_below(g: Seq<Seq<int>>, i: int) -> bool {
    forall|k: int| i < k < g.len() ==> (#[trigger] g[k])[i] == 0
}

/// Whether the entries of row `i` right of the diagonal are zero.
pub open spec fn g_row_zero_right(g: Seq<Seq<int>>, i: int) -> bool {
    forall|k: int| i < k < g[i].len() ==> #[trigger] g[i][k] == 0
}

/// The matrices after `fuel` steps of the diagonalization from row and column `i`
/// on, of `n` of them, and the row and column that is reached: a step reduces
/// column `i` where it is not zero below the diagonal, else row `i` where it is not
/// zero right of the diagonal, and else goes on to the next row and column. The
/// matrices are `g` that is made diagonal, and `s` and `t` that undergo the
/// operations on its rows and on its columns.
pub open spec fn g_run(
    g: Seq<Seq<int>>,
    s: Seq<Seq<int>>,
    t: Seq<Seq<int>>,
    i: int,
    n: int,
    fuel: nat,
    m: int,
) -> (Seq<Seq<int>>, Seq<Seq<int>>, Seq<Seq<int>>, int)
    decreases fuel,
{
    if fuel == 0 || i >= n || i < 0 {
        (g, s, t, i)
    } else if !g_col_zero_below(g, i) {
        let (h, r) = g_eliminate_col(g, s, i, m);
        g_run(h, r, t, i, n, (fuel - 1) as nat, m)
    } else if g_row_zero_right(g, i) {
        g_run(g, s, t, i + 1, n, (fuel - 1) as nat, m)
    } else {
        let (h, r) = g_eliminate_row(g, t, i, m);
        g_run(h, s, r, i, n, (fuel - 1) as nat, m)
    }
}

/// The number of rows or of columns of a matrix, whichever is smaller.
pub open spec fn short_side<T: UnsignedInt>(a: &Matrix<T>) -> int {
    if a.rows <= a.cols {
        a.rows as int
    } else {
        a.cols as int
    }
}

/// Whether `d`, `s` and `t` are what the diagonalization of `a` gives: the matrices
/// after as many steps as it takes to reach the last row or column.
pub open spec fn is_diagonalization<T: UnsignedInt>(
    d: &Matrix<T>,
    s: &Matrix<T>,
    t: &Matrix<T>,
    a: &Matrix<T>,
) -> bool {
    exists|fuel: nat| #[trigger]
        g_run(
            grid(a),
            g_id(a.rows as int),
            g_id(a.cols as int),
            0,
            short_side(a),
            fuel,
            T::modulus(),
        ) == (grid(d), grid(s), grid(t), short_side(a))
}

/// The pivot of a column of a matrix, as it is found, is that of its entries.
pub proof fn lemma_found_col_pivot<T: UnsignedInt>(a: &Matrix<T>, i: int, p: int)
    requires
        0 <= i < a.cols,
        i <= p < a.rows,
        a.val_at(p, i) != 0,
        forall|k: int| i <= k < a.rows && #[trigger] a.val_at(k, i) != 0 ==> a.val_at(p, i) <= a.val_at(k, i),
        forall|k: int| i <= k < p ==> #[trigger] a.val_at(k, i) == 0 || a.val_at(k, i) > a.val_at(p, i),
    ensures
        g_col_pivot(grid(a), i) == p,
{
    let g = grid(a);
    assert forall|k: int| i <= k < g.len() && #[trigger] g[k][i] != 0 implies g[p][i] <= g[k][i] by {
        assert(a.val_at(k, i) != 0);
    }
    assert forall|k: int| i <= k < p implies #[trigger] g[k][i] == 0 || g[k][i] > g[p][i] by {
        assert(a.val_at(k, i) == 0 || a.val_at(k, i) > a.val_at(p, i));
    }
    lemma_col_pivot(g, i, p);
}

/// The pivot of a row of a matrix, as it is found, is that of its entries.
pub proof fn lemma_found_row_pivot<T: UnsignedInt>(a: &Matrix<T>, i: int, p: int)
    requires
        0 <= i < a.rows,
        i <= p < a.cols,
        a.val_at(i, p) != 0,
        forall|k: int| i <= k < a.cols && #[trigger] a.val_at(i, k) != 0 ==> a.val_at(i, p) <= a.val_at(i, k),
        forall|k: int| i <= k < p ==> #[trigger] a.val_at(i, k) == 0 || a.val_at(i, k) > a.val_at(i, p),
    ensures
        g_row_pivot(grid(a), i) == p,
{
    let g = grid(a);
    assert forall|k: int| i <= k < g[i].len() && #[trigger] g[i][k] != 0 implies g[i][p]
        <= g[i][k] by {
        assert(a.val_at(i, k) != 0);
    }
    assert forall|k: int| i <= k < p implies #[trigger] g[i][k] == 0 || g[i][k] > g[i][p] by {
        assert(a.val_at(i, k) == 0 || a.val_at(i, k) > a.val_at(i, p));
    }
    lemma_row_pivot(g, i, p);
}

/// One row reduced: the reduction of the rows from row `k` on is that of the rows
/// after it, once row `k` is reduced, or is left where its entry is zero.
pub proof fn lemma_reduce_row<T: UnsignedInt>(
    a: &Matrix<T>,
    s: &Matrix<T>,
    a2: &Matrix<T>,
    s2: &Matrix<T>,
    i: int,
    k: int,
    c: T,
)
    requires
        0 <= i < k < a.rows,
        i < a.cols,
        s.rows == a.rows,
        a.val_at(k, i) != 0,
        c.val() == (0 - a.val_at(k, i) / a.val_at(i, i)) % T::modulus(),
        a2.row_added(a, i, k, c),
        s2.row_added(s, i, k, c),
    ensures
        g_reduce_rows(grid(a), grid(s), i, k, T::modulus()) == g_reduce_rows(
            grid(a2),
            grid(s2),
            i,
            k + 1,
            T::modulus(),
        ),
{
    lemma_grid_row_add(a2, a, i, k, c);
    lemma_grid_row_add(s2, s, i, k, c);
    let g = grid(a);
    assert(g[k][i] == a.val_at(k, i));
    assert(g[i][i] == a.val_at(i, i));
}

/// One column reduced: the reduction of the columns from column `k` on is that of
/// the columns after it, once column `k` is reduced.
pub proof fn lemma_reduce_col<T: UnsignedInt>(
    a: &Matrix<T>,
    t: &Matrix<T>,
    a2: &Matrix<T>,
    t2: &Matrix<T>,
    i: int,
    k: int,
    c: T,
)
    requires
        0 <= i < k < a.cols,
        i < a.rows,
        t.cols == a.cols,
        a.val_at(i, k) != 0,
        c.val() == (0 - a.val_at(i, k) / a.val_at(i, i)) % T::modulus(),
        a2.col_added(a, i, k, c),
        t2.col_added(t, i, k, c),
    ensures
        g_reduce_cols(grid(a), grid(t), i, k, T::modulus()) == g_reduce_cols(
            grid(a2),
            grid(t2),
            i,
            k + 1,
            T::modulus(),
        ),
{
    lemma_grid_col_add(a2, a, i, k, c);
    lemma_grid_col_add(t2, t, i, k, c);
    let g = grid(a);
    assert(g[i][k] == a.val_at(i, k));
    assert(g[i][i] == a.val_at(i, i));
    let h = g_col_add(g, i, k, c.val(), T::modulus());
    assert(h[i].len() == g[i].len());
}

/// A row or column whose entry is zero is left as it is.
pub proof fn lemma_reduce_skip<T: UnsignedInt>(a: &Matrix<T>, s: &Matrix<T>, t: &Matrix<T>, i: int, k: int)
    requires
        0 <= i < a.rows,
        0 <= i < a.cols,
        i < k,
    ensures
        k < a.rows && a.val_at(k, i) == 0 ==> g_reduce_rows(grid(a), grid(s), i, k, T::modulus())
            == g_reduce_rows(grid(a), grid(s), i, k + 1, T::modulus()),
        k < a.cols && a.val_at(i, k) == 0 ==> g_reduce_cols(grid(a), grid(t), i, k, T::modulus())
            == g_reduce_cols(grid(a), grid(t), i, k + 1, T::modulus()),
        k >= a.rows ==> g_reduce_rows(grid(a), grid(s), i, k, T::modulus()) == (grid(a), grid(s)),
        k >= a.cols ==> g_reduce_cols(grid(a), grid(t), i, k, T::modulus()) == (grid(a), grid(t)),
{
    let g = grid(a);
    if k < a.rows {
        assert(g[k][i] == a.val_at(k, i));
    }
    if k < a.cols {
        assert(g[i][k] == a.val_at(i, k));
    }
    assert(g[i].len() == a.cols);
}

/// Whether a column or a row of a matrix is zero beside the diagonal is whether that
/// of its entries is.
pub proof fn lemma_grid_zero<T: UnsignedInt>(a: &Matrix<T>, i: int)
    requires
        0 <= i < a.rows,
        0 <= i < a.cols,
    ensures
        g_col_zero_below(grid(a), i) == crate::elimination::col_zero_below(a, i),
        g_row_zero_right(grid(a), i) == crate::elimination::row_zero_right(a, i),
{
    let g = grid(a);
    if crate::elimination::col_zero_below(a, i) {
        assert forall|k: int| i < k < g.len() implies (#[trigger] g[k])[i] == 0 by {
            assert(a.val_at(k, i) == 0);
        }
    }
    if g_col_zero_below(g, i) {
        assert forall|k: int| i < k < a.rows implies #[trigger] a.val_at(k, i) == 0 by {
            assert(g[k][i] == 0);
        }
    }
    if crate::elimination::row_zero_right(a, i) {
        assert forall|k: int| i < k < g[i].len() implies #[trigger] g[i][k] == 0 by {
            assert(a.val_at(i, k) == 0);
        }
    }
    if g_row_zero_right(g, i) {
        assert forall|k: int| i < k < a.cols implies #[trigger] a.val_at(i, k) == 0 by {
            assert(g[i][k] == 0);
        }
    }
}

/// Whether the matrices `g`, `s` and `t` at row and column `i` are what `used` steps
/// of the diagonalization of `g0` make: whatever steps follow, they make the same of
/// both.
pub open spec fn is_reached(
    g0: Seq<Seq<int>>,
    s0: Seq<Seq<int>>,
    t0: Seq<Seq<int>>,
    used: nat,
    g: Seq<Seq<int>>,
    s: Seq<Seq<int>>,
    t: Seq<Seq<int>>,
    i: int,
    n: int,
    m: int,
) -> bool {
    forall|rest: nat| #[trigger]
        g_run(g0, s0, t0, 0, n, used + rest, m) == g_run(g, s, t, i, n, rest, m)
}

/// One step more: what is reached is reached one step later at the matrices that
/// the step makes.
pub proof fn lemma_reached_step(
    g0: Seq<Seq<int>>,
    s0: Seq<Seq<int>>,
    t0: Seq<Seq<int>>,
    used: nat,
    g: Seq<Seq<int>>,
    s: Seq<Seq<int>>,
    t: Seq<Seq<int>>,
    i: int,
    n: int,
    m: int,
    g2: Seq<Seq<int>>,
    s2: Seq<Seq<int>>,
    t2: Seq<Seq<int>>,
    i2: int,
)
    requires
        is_reached(g0, s0, t0, used, g, s, t, i, n, m),
        0 <= i < n,
        g_run(g, s, t, i, n, 1, m) == (g2, s2, t2, i2),
    ensures
        is_reached(g0, s0, t0, used + 1, g2, s2, t2, i2, n, m),
{
    assert forall|rest: nat| #[trigger]
        g_run(g0, s0, t0, 0, n, (used + 1) + rest, m) == g_run(g2, s2, t2, i2, n, rest, m) by {
        assert(g_run(g0, s0, t0, 0, n, used + (rest + 1) as nat, m) == g_run(
            g,
            s,
            t,
            i,
            n,
            (rest + 1) as nat,
            m,
        ));
        assert(used + (rest + 1) as nat == (used + 1) + rest);
        lemma_run_one(g, s, t, i, n, rest, m);
    }
}

/// A step and the steps after it.
pub proof fn lemma_run_one(
    g: Seq<Seq<int>>,
    s: Seq<Seq<int>>,
    t: Seq<Seq<int>>,
    i: int,
    n: int,
    rest: nat,
    m: int,
)
    requires
        0 <= i < n,
    ensures
        ({
            let (g2, s2, t2, i2) = g_run(g, s, t, i, n, 1, m);
            g_run(g, s, t, i, n, (rest + 1) as nat, m) == g_run(g2, s2, t2, i2, n, rest, m)
        }),
{
    reveal_with_fuel(g_run, 3);
}

/// Before any step, the matrices are those at the start.
pub proof fn lemma_reached_start(
    g0: Seq<Seq<int>>,
    s0: Seq<Seq<int>>,
    t0: Seq<Seq<int>>,
    n: int,
    m: int,
)
    ensures
        is_reached(g0, s0, t0, 0, g0, s0, t0, 0, n, m),
{
    assert forall|rest: nat| #[trigger]
        g_run(g0, s0, t0, 0, n, 0 + rest, m) == g_run(g0, s0, t0, 0, n, rest, m) by {
        assert(0 + rest == rest);
    }
}

/// What is reached at the last row or column is what the steps give.
pub proof fn lemma_reached_end(
    g0: Seq<Seq<int>>,
    s0: Seq<Seq<int>>,
    t0: Seq<Seq<int>>,
    used: nat,
    g: Seq<Seq<int>>,
    s: Seq<Seq<int>>,
    t: Seq<Seq<int>>,
    n: int,
    m: int,
)
    requires
        is_reached(g0, s0, t0, used, g, s, t, n, n, m),
    ensures
        g_run(g0, s0, t0, 0, n, used, m) == (g, s, t, n),
{
    assert(g_run(g0, s0, t0, 0, n, used + 0, m) == g_run(g, s, t, n, n, 0, m));
    assert(used + 0 == used);
}

/// The step that reduces a column of a matrix.
pub proof fn lemma_reached_col<T: UnsignedInt>(
    g0: Seq<Seq<int>>,
    s0: Seq<Seq<int>>,
    t0: Seq<Seq<int>>,
    used: nat,
    a: &Matrix<T>,
    s: &Matrix<T>,
    t: &Matrix<T>,
    a2: &Matrix<T>,
    s2: &Matrix<T>,
    i: int,
    n: int,
)
    requires
        is_reached(g0, s0, t0, used, grid(a), grid(s), grid(t), i, n, T::modulus()),
        0 <= i < n,
        n <= a.rows,
        n <= a.cols,
        !crate::elimination::col_zero_below(a, i),
        (grid(a2), grid(s2)) == g_eliminate_col(grid(a), grid(s), i, T::modulus()),
    ensures
        is_reached(g0, s0, t0, used + 1, grid(a2), grid(s2), grid(t), i, n, T::modulus()),
{
    lemma_grid_zero(a, i);
    reveal_with_fuel(g_run, 2);
    lemma_reached_step(
        g0,
        s0,
        t0,
        used,
        grid(a),
        grid(s),
        grid(t),
        i,
        n,
        T::modulus(),
        grid(a2),
        grid(s2),
        grid(t),
        i,
    );
}

/// The step that reduces a row of a matrix.
pub proof fn lemma_reached_row<T: UnsignedInt>(
    g0: Seq<Seq<int>>,
    s0: Seq<Seq<int>>,
    t0: Seq<Seq<int>>,
    used: nat,
    a: &Matrix<T>,
    s: &Matrix<T>,
    t: &Matrix<T>,
    a2: &Matrix<T>,
    t2: &Matrix<T>,
    i: int,
    n: int,
)
    requires
        is_reached(g0, s0, t0, used, grid(a), grid(s), grid(t), i, n, T::modulus()),
        0 <= i < n,
        n <= a.rows,
        n <= a.cols,
        crate::elimination::col_zero_below(a, i),
        !crate::elimination::row_zero_right(a, i),
        (grid(a2), grid(t2)) == g_eliminate_row(grid(a), grid(t), i, T::modulus()),
    ensures
        is_reached(g0, s0, t0, used + 1, grid(a2), grid(s), grid(t2), i, n, T::modulus()),
{
    lemma_grid_zero(a, i);
    reveal_with_fuel(g_run, 2);
    lemma_reached_step(
        g0,
        s0,
        t0,
        used,
        grid(a),
        grid(s),
        grid(t),
        i,
        n,
        T::modulus(),
        grid(a2),
        grid(s),
        grid(t2),
        i,
    );
}

/// The step from a row and column that are reduced to the next.
pub proof fn lemma_reached_next<T: UnsignedInt>(
    g0: Seq<Seq<int>>,
    s0: Seq<Seq<int>>,
    t0: Seq<Seq<int>>,
    used: nat,
    a: &Matrix<T>,
    s: &Matrix<T>,
    t: &Matrix<T>,
    i: int,
    n: int,
)
    requires
        is_reached(g0, s0, t0, used, grid(a), grid(s), grid(t), i, n, T::modulus()),
        0 <= i < n,
        n <= a.rows,
        n <= a.cols,
        crate::elimination::col_zero_below(a, i),
        crate::elimination::row_zero_right(a, i),
    ensures
        is_reached(g0, s0, t0, used + 1, grid(a), grid(s), grid(t), i + 1, n, T::modulus()),
{
    lemma_grid_zero(a, i);
    reveal_with_fuel(g_run, 2);
    lemma_reached_step(
        g0,
        s0,
        t0,
        used,
        grid(a),
        grid(s),
        grid(t),
        i,
        n,
        T::modulus(),
        grid(a),
        grid(s),
        grid(t),
        i + 1,
    );
}

/// Steps beyond the last row or column change nothing.
pub proof fn lemma_run_more(
    g: Seq<Seq<int>>,
    s: Seq<Seq<int>>,
    t: Seq<Seq<int>>,
    i: int,
    n: int,
    fuel: nat,
    more: nat,
    m: int,
)
    requires
        0 <= i <= n,
        fuel <= more,
        g_run(g, s, t, i, n, fuel, m).3 == n,
    ensures
        g_run(g, s, t, i, n, more, m) == g_run(g, s, t, i, n, fuel, m),
    decreases fuel,
{
    if i < n {
        let f = (fuel - 1) as nat;
        let f2 = (more - 1) as nat;
        if !g_col_zero_below(g, i) {
            let (h, r) = g_eliminate_col(g, s, i, m);
            lemma_run_more(h, r, t, i, n, f, f2, m);
        } else if g_row_zero_right(g, i) {
            lemma_run_more(g, s, t, i + 1, n, f, f2, m);
        } else {
            let (h, r) = g_eliminate_row(g, t, i, m);
            lemma_run_more(h, s, r, i, n, f, f2, m);
        }
    }
}

/// A matrix has one diagonalization: the matrices `d`, `s` and `t` are functions of
/// its entries.
pub proof fn lemma_one_diagonalization<T: UnsignedInt>(
    a: &Matrix<T>,
    d1: &Matrix<T>,
    s1: &Matrix<T>,
    t1: &Matrix<T>,
    d2: &Matrix<T>,
    s2: &Matrix<T>,
    t2: &Matrix<T>,
)
    requires
        is_diagonalization(d1, s1, t1, a),
        is_diagonalization(d2, s2, t2, a),
    ensures
        grid(d1) == grid(d2),
        grid(s1) == grid(s2),
        grid(t1) == grid(t2),
{
    let n = short_side(a);
    let g = grid(a);
    let s = g_id(a.rows as int);
    let t = g_id(a.cols as int);
    let m = T::modulus();
    let f1 = choose|fuel: nat| #[trigger]
        g_run(g, s, t, 0, n, fuel, m) == (grid(d1), grid(s1), grid(t1), n);
    let f2 = choose|fuel: nat| #[trigger]
        g_run(g, s, t, 0, n, fuel, m) == (grid(d2), grid(s2), grid(t2), n);
    if f1 <= f2 {
        lemma_run_more(g, s, t, 0, n, f1, f2, m);
    } else {
        lemma_run_more(g, s, t, 0, n, f2, f1, m);
    }
}

} // verus!
