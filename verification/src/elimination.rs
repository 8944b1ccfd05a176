//! The elimination of a row and a column of a matrix by elementary operations, as the
//! diagonalization repeats it.

use vstd::prelude::*;
use crate::numbers::UnsignedInt;
use crate::matrix::{Matrix, swapped};
use crate::products::{
    lemma_swap_rows_keeps_product, lemma_swap_cols_keeps_product, lemma_add_row_keeps_product,
    lemma_add_col_keeps_product,
};
use crate::systems::{
    is_equivalent_form, lemma_swap_rows_keeps_solutions, lemma_swap_cols_keeps_solutions,
    lemma_add_row_keeps_solutions, lemma_add_col_keeps_solutions,
};
use crate::modular::{lemma_cong_ops, lemma_cong_mod, lemma_mod_small};
use crate::grids::{
    grid, g_eliminate_col, g_eliminate_row, g_reduce_rows, g_reduce_cols, lemma_grid_swap_rows,
    lemma_grid_swap_cols, lemma_found_col_pivot, lemma_found_row_pivot, lemma_reduce_row,
    lemma_reduce_col, lemma_reduce_skip,
};

verus! {

/// Whether the entries off the diagonal in the rows and the columns before `i` are
/// zero.
pub open spec fn cleared<T: UnsignedInt>(d: &Matrix<T>, i: int) -> bool {
    forall|r: int, c: int|
        d.has(r, c) && r != c && (r < i || c < i) ==> #[trigger] d.val_at(r, c) == 0
}

/// Whether the entries of column `i` below the diagonal are zero.
pub open spec fn col_zero_below<T: UnsignedInt>(d: &Matrix<T>, i: int) -> bool {
    forall|k: int| i < k < d.rows ==> #[trigger] d.val_at(k, i) == 0
}

/// Whether the entries of row `i` right of the diagonal are zero.
pub open spec fn row_zero_right<T: UnsignedInt>(d: &Matrix<T>, i: int) -> bool {
    forall|k: int| i < k < d.cols ==> #[trigger] d.val_at(i, k) == 0
}

/// The diagonal entry `i`, with the modulus in place of zero: what the elimination
/// of row and column `i` makes smaller.
pub open spec fn pivot_measure<T: UnsignedInt>(d: &Matrix<T>, i: int) -> int {
    if d.val_at(i, i) == 0 {
        T::modulus()
    } else {
        d.val_at(i, i)
    }
}

/// Adding to `x` the pivot `v` times the negated quotient of `x` by `v` leaves the
/// remainder of `x` by `v`.
proof fn lemma_reduce_entry(x: int, v: int, c: int, m: int)
    requires
        0 < v < m,
        0 <= x < m,
        c == (0 - x / v) % m,
    ensures
        (x + v * c) % m == x % v,
        0 <= x % v < v,
{
    let q = x / v;
    vstd::arithmetic::div_mod::lemma_fundamental_div_mod(x, v);
    vstd::arithmetic::div_mod::lemma_mod_bound(x, v);
    lemma_cong_mod(0 - q, m);
    lemma_cong_ops(v, v, c, 0 - q, m);
    lemma_cong_ops(x, x, v * c, v * (0 - q), m);
    assert(x + v * (0 - q) == x % v) by (nonlinear_arith)
        requires
            x == v * q + x % v,
    ;
    lemma_mod_small(x % v, m);
}

/// Whether column `i` is zero below the diagonal.
pub fn col_is_zero_below<T: UnsignedInt>(a: &Matrix<T>, i: usize) -> (b: bool)
    requires
        a.wf(),
        i < a.rows,
        i < a.cols,
    ensures
        b == col_zero_below(a, i as int),
{
    let mut k: usize = i + 1;
    while k < a.rows
        invariant
            a.wf(),
            i < a.cols,
            i < k <= a.rows,
            forall|k2: int| i < k2 < k ==> #[trigger] a.val_at(k2, i as int) == 0,
        decreases a.rows - k,
    {
        if !a.entry(k, i).eq(T::zero()) {
            assert(a.val_at(k as int, i as int) != 0);
            return false;
        }
        k += 1;
    }
    true
}

/// Whether row `i` is zero right of the diagonal.
pub fn row_is_zero_right<T: UnsignedInt>(a: &Matrix<T>, i: usize) -> (b: bool)
    requires
        a.wf(),
        i < a.rows,
        i < a.cols,
    ensures
        b == row_zero_right(a, i as int),
{
    let mut k: usize = i + 1;
    while k < a.cols
        invariant
            a.wf(),
            i < a.rows,
            i < k <= a.cols,
            forall|k2: int| i < k2 < k ==> #[trigger] a.val_at(i as int, k2) == 0,
        decreases a.cols - k,
    {
        if !a.entry(i, k).eq(T::zero()) {
            assert(a.val_at(i as int, k as int) != 0);
            return false;
        }
        k += 1;
    }
    true
}

/// The first row from `i` on in which column `i` has its smallest entry that is not
/// zero.
pub fn find_col_pivot<T: UnsignedInt>(a: &Matrix<T>, i: usize) -> (p: usize)
    requires
        a.wf(),
        i < a.rows,
        i < a.cols,
        exists|k: int| i <= k < a.rows && #[trigger] a.val_at(k, i as int) != 0,
    ensures
        i <= p < a.rows,
        a.val_at(p as int, i as int) != 0,
        forall|k: int|
            i <= k < a.rows && #[trigger] a.val_at(k, i as int) != 0 ==> a.val_at(
                p as int,
                i as int,
            ) <= a.val_at(k, i as int),
        forall|k: int|
            i <= k < p ==> #[trigger] a.val_at(k, i as int) == 0 || a.val_at(k, i as int)
                > a.val_at(p as int, i as int),
{
    let mut p: usize = i;
    let mut found: bool = false;
    let mut k: usize = i;
    while k < a.rows
        invariant
            a.wf(),
            i < a.cols,
            i <= k <= a.rows,
            i <= p < a.rows,
            found ==> p < k && a.val_at(p as int, i as int) != 0,
            found ==> forall|k2: int|
                i <= k2 < k && #[trigger] a.val_at(k2, i as int) != 0 ==> a.val_at(
                    p as int,
                    i as int,
                ) <= a.val_at(k2, i as int),
            found ==> forall|k2: int|
                i <= k2 < p ==> #[trigger] a.val_at(k2, i as int) == 0 || a.val_at(k2, i as int)
                    > a.val_at(p as int, i as int),
            !found ==> forall|k2: int| i <= k2 < k ==> #[trigger] a.val_at(k2, i as int) == 0,
        decreases a.rows - k,
    {
        let e: T = *a.entry(k, i);
        if !e.eq(T::zero()) {
            if !found || e.lt(*a.entry(p, i)) {
                p = k;
                found = true;
            }
        }
        k += 1;
    }
    p
}

/// The first column from `i` on in which row `i` has its smallest entry that is not
/// zero.
pub fn find_row_pivot<T: UnsignedInt>(a: &Matrix<T>, i: usize) -> (p: usize)
    requires
        a.wf(),
        i < a.rows,
        i < a.cols,
        exists|k: int| i <= k < a.cols && #[trigger] a.val_at(i as int, k) != 0,
    ensures
        i <= p < a.cols,
        a.val_at(i as int, p as int) != 0,
        forall|k: int|
            i <= k < a.cols && #[trigger] a.val_at(i as int, k) != 0 ==> a.val_at(
                i as int,
                p as int,
            ) <= a.val_at(i as int, k),
        forall|k: int|
            i <= k < p ==> #[trigger] a.val_at(i as int, k) == 0 || a.val_at(i as int, k)
                > a.val_at(i as int, p as int),
{
    let mut p: usize = i;
    let mut found: bool = false;
    let mut k: usize = i;
    while k < a.cols
        invariant
            a.wf(),
            i < a.rows,
            i <= k <= a.cols,
            i <= p < a.cols,
            found ==> p < k && a.val_at(i as int, p as int) != 0,
            found ==> forall|k2: int|
                i <= k2 < k && #[trigger] a.val_at(i as int, k2) != 0 ==> a.val_at(
                    i as int,
                    p as int,
                ) <= a.val_at(i as int, k2),
            found ==> forall|k2: int|
                i <= k2 < p ==> #[trigger] a.val_at(i as int, k2) == 0 || a.val_at(i as int, k2)
                    > a.val_at(i as int, p as int),
            !found ==> forall|k2: int| i <= k2 < k ==> #[trigger] a.val_at(i as int, k2) == 0,
        decreases a.cols - k,
    {
        let e: T = *a.entry(i, k);
        if !e.eq(T::zero()) {
            if !found || e.lt(*a.entry(i, p)) {
                p = k;
                found = true;
            }
        }
        k += 1;
    }
    p
}

/// Brings the smallest entry of column `i` that is not zero, from the diagonal down,
/// to the diagonal, and takes from each row below its multiple of row `i` that
/// leaves the remainder in column `i`. `s` undergoes the same operations.
pub(crate) fn eliminate_col<T: UnsignedInt>(
    a: &mut Matrix<T>,
    s: &mut Matrix<T>,
    i: usize,
    Ghost(a0): Ghost<Matrix<T>>,
    Ghost(t): Ghost<Matrix<T>>,
)
    requires
        is_equivalent_form(old(a), old(s), &a0, &t),
        i < old(a).rows,
        i < old(a).cols,
        cleared(old(a), i as int),
        !col_zero_below(old(a), i as int),
    ensures
        (grid(final(a)), grid(final(s))) == g_eliminate_col(
            grid(old(a)),
            grid(old(s)),
            i as int,
            T::modulus(),
        ),
        is_equivalent_form(final(a), final(s), &a0, &t),
        cleared(final(a), i as int),
        final(a).val_at(i as int, i as int) != 0,
        forall|k: int|
            i <= k < old(a).rows && #[trigger] old(a).val_at(k, i as int) != 0 ==> final(a).val_at(i as int, i as int) <= old(a).val_at(k, i as int),
        forall|k: int|
            i < k < old(a).rows ==> #[trigger] final(a).val_at(k, i as int) < final(a).val_at(
                i as int,
                i as int,
            ),
{
    let p: usize = find_col_pivot(a, i);
    let ghost a1 = *a;
    let ghost s1 = *s;
    let ghost goal = g_eliminate_col(grid(&a1), grid(&s1), i as int, T::modulus());
    a.swap_rows(i, p);
    s.swap_rows(i, p);
    let ghost v = a.val_at(i as int, i as int);
    proof {
        lemma_found_col_pivot(&a1, i as int, p as int);
        lemma_grid_swap_rows(a, &a1, i as int, p as int);
        lemma_grid_swap_rows(s, &s1, i as int, p as int);
        lemma_swap_rows_keeps_product(&a1, a, &s1, s, &a0, &t, i as int, p as int);
        lemma_swap_rows_keeps_solutions(&a1, a, &s1, s, &a0, &t, i as int, p as int);
        assert(a.at(i as int, i as int) == a1.at(p as int, i as int));
        assert forall|r: int, c: int|
            a.has(r, c) && r != c && (r < i || c < i) implies #[trigger] a.val_at(r, c) == 0 by {
            let r0 = swapped(r, i as int, p as int);
            assert(a.at(r, c) == a1.at(r0, c));
            assert(a1.val_at(r0, c) == 0);
        }
        T::lemma_modulus();
    }
    let mut k: usize = i + 1;
    while k < a.rows
        invariant
            is_equivalent_form(a, s, &a0, &t),
            a.same_dims(&a1),
            i < a.rows,
            i < a.cols,
            i < k <= a.rows,
            cleared(a, i as int),
            a.val_at(i as int, i as int) == v,
            v != 0,
            forall|k2: int| i < k2 < k ==> #[trigger] a.val_at(k2, i as int) < v,
            g_reduce_rows(grid(a), grid(s), i as int, k as int, T::modulus()) == goal,
        decreases a.rows - k,
    {
        let x: T = *a.entry(k, i);
        proof {
            a.at(i as int, i as int).lemma_val_bound();
            assert(x.val() == 0 ==> a.val_at(k as int, i as int) < v);
            lemma_reduce_skip(a, s, s, i as int, k as int);
        }
        if !x.eq(T::zero()) {
            let c: T = T::zero().sub(x.div(*a.entry(i, i)));
            let ghost a2 = *a;
            let ghost s2 = *s;
            a.row_multiply_add(i, k, c);
            s.row_multiply_add(i, k, c);
            proof {
                let m = T::modulus();
                T::lemma_modulus();
                x.lemma_val_bound();
                a2.at(i as int, i as int).lemma_val_bound();
                lemma_add_row_keeps_product(&a2, a, &s2, s, &a0, &t, i as int, k as int, c);
                lemma_add_row_keeps_solutions(&a2, a, &s2, s, &a0, &t, i as int, k as int, c);
                lemma_reduce_row(&a2, &s2, a, s, i as int, k as int, c);
                assert(a.at(i as int, i as int) == a2.at(i as int, i as int));
                assert forall|r: int, c2: int|
                    a.has(r, c2) && r != c2 && (r < i || c2 < i) implies #[trigger] a.val_at(r, c2)
                    == 0 by {
                    if r != k {
                        assert(a.at(r, c2) == a2.at(r, c2));
                        assert(a2.val_at(r, c2) == 0);
                    } else {
                        assert(a2.val_at(k as int, c2) == 0);
                        assert(a2.val_at(i as int, c2) == 0);
                        assert(a2.val_at(i as int, c2) * c.val() == 0) by (nonlinear_arith)
                            requires
                                a2.val_at(i as int, c2) == 0,
                        ;
                        lemma_mod_small(0, m);
                    }
                }
                assert(a.val_at(k as int, i as int) == (x.val() + v * c.val()) % m);
                lemma_reduce_entry(x.val(), v, c.val(), m);
                assert forall|k2: int| i < k2 < k + 1 implies #[trigger] a.val_at(k2, i as int)
                    < v by {
                    if k2 < k {
                        assert(a.at(k2, i as int) == a2.at(k2, i as int));
                        assert(a2.val_at(k2, i as int) < v);
                    }
                }
            }
        }
        k += 1;
    }
    proof {
        lemma_reduce_skip(a, s, s, i as int, k as int);
        assert forall|k2: int|
            i <= k2 < a1.rows && #[trigger] a1.val_at(k2, i as int) != 0 implies v <= a1.val_at(
            k2,
            i as int,
        ) by {}
    }
}

/// Brings the smallest entry of row `i` that is not zero, from the diagonal on, to
/// the diagonal, and takes from each column right of it its multiple of column `i`
/// that leaves the remainder in row `i`. `t` undergoes the same operations.
pub(crate) fn eliminate_row<T: UnsignedInt>(
    a: &mut Matrix<T>,
    t: &mut Matrix<T>,
    i: usize,
    Ghost(a0): Ghost<Matrix<T>>,
    Ghost(s): Ghost<Matrix<T>>,
)
    requires
        is_equivalent_form(old(a), &s, &a0, old(t)),
        i < old(a).rows,
        i < old(a).cols,
        cleared(old(a), i as int),
        !row_zero_right(old(a), i as int),
    ensures
        (grid(final(a)), grid(final(t))) == g_eliminate_row(
            grid(old(a)),
            grid(old(t)),
            i as int,
            T::modulus(),
        ),
        is_equivalent_form(final(a), &s, &a0, final(t)),
        cleared(final(a), i as int),
        final(a).val_at(i as int, i as int) != 0,
        forall|k: int|
            i <= k < old(a).cols && #[trigger] old(a).val_at(i as int, k) != 0 ==> final(a).val_at(i as int, i as int) <= old(a).val_at(i as int, k),
        forall|k: int|
            i < k < old(a).cols ==> #[trigger] final(a).val_at(i as int, k) < final(a).val_at(
                i as int,
                i as int,
            ),
        final(a).val_at(i as int, i as int) == old(a).val_at(i as int, i as int) ==> forall|r: int|
            0 <= r < old(a).rows ==> #[trigger] final(a).at(r, i as int) == old(a).at(r, i as int),
{
    let p: usize = find_row_pivot(a, i);
    let ghost a1 = *a;
    let ghost t1 = *t;
    let ghost goal = g_eliminate_row(grid(&a1), grid(&t1), i as int, T::modulus());
    a.swap_columns(i, p);
    t.swap_columns(i, p);
    let ghost v = a.val_at(i as int, i as int);
    let ghost a15 = *a;
    proof {
        lemma_found_row_pivot(&a1, i as int, p as int);
        lemma_grid_swap_cols(a, &a1, i as int, p as int);
        lemma_grid_swap_cols(t, &t1, i as int, p as int);
        lemma_swap_cols_keeps_product(&a1, a, &s, &a0, &t1, t, i as int, p as int);
        lemma_swap_cols_keeps_solutions(&a1, a, &s, &a0, &t1, t, i as int, p as int);
        assert(a.at(i as int, i as int) == a1.at(i as int, p as int));
        assert forall|r: int, c: int|
            a.has(r, c) && r != c && (r < i || c < i) implies #[trigger] a.val_at(r, c) == 0 by {
            let c0 = swapped(c, i as int, p as int);
            assert(a.at(r, c) == a1.at(r, c0));
            assert(a1.val_at(r, c0) == 0);
        }
        T::lemma_modulus();
        if v == a1.val_at(i as int, i as int) {
            assert(p == i);
            assert forall|r: int| 0 <= r < a1.rows implies #[trigger] a.at(r, i as int) == a1.at(
                r,
                i as int,
            ) by {
                assert(a.at(r, i as int) == a1.at(r, swapped(i as int, i as int, p as int)));
            }
        }
    }
    let mut k: usize = i + 1;
    while k < a.cols
        invariant
            is_equivalent_form(a, &s, &a0, t),
            a.same_dims(&a1),
            i < a.rows,
            i < a.cols,
            i < k <= a.cols,
            cleared(a, i as int),
            a.val_at(i as int, i as int) == v,
            v != 0,
            forall|k2: int| i < k2 < k ==> #[trigger] a.val_at(i as int, k2) < v,
            forall|r: int| 0 <= r < a.rows ==> #[trigger] a.at(r, i as int) == a15.at(r, i as int),
            g_reduce_cols(grid(a), grid(t), i as int, k as int, T::modulus()) == goal,
        decreases a.cols - k,
    {
        let x: T = *a.entry(i, k);
        proof {
            a.at(i as int, i as int).lemma_val_bound();
            assert(x.val() == 0 ==> a.val_at(i as int, k as int) < v);
            lemma_reduce_skip(a, t, t, i as int, k as int);
        }
        if !x.eq(T::zero()) {
            let c: T = T::zero().sub(x.div(*a.entry(i, i)));
            let ghost a2 = *a;
            let ghost t2 = *t;
            a.col_multiply_add(i, k, c);
            t.col_multiply_add(i, k, c);
            proof {
                let m = T::modulus();
                T::lemma_modulus();
                x.lemma_val_bound();
                a2.at(i as int, i as int).lemma_val_bound();
                lemma_add_col_keeps_product(&a2, a, &s, &a0, &t2, t, i as int, k as int, c);
                lemma_add_col_keeps_solutions(&a2, a, &s, &a0, &t2, t, i as int, k as int, c);
                lemma_reduce_col(&a2, &t2, a, t, i as int, k as int, c);
                assert(a.at(i as int, i as int) == a2.at(i as int, i as int));
                assert forall|r: int, c2: int|
                    a.has(r, c2) && r != c2 && (r < i || c2 < i) implies #[trigger] a.val_at(r, c2)
                    == 0 by {
                    if c2 != k {
                        assert(a.at(r, c2) == a2.at(r, c2));
                        assert(a2.val_at(r, c2) == 0);
                    } else {
                        assert(a2.val_at(r, k as int) == 0);
                        assert(a2.val_at(r, i as int) == 0);
                        assert(a2.val_at(r, i as int) * c.val() == 0) by (nonlinear_arith)
                            requires
                                a2.val_at(r, i as int) == 0,
                        ;
                        lemma_mod_small(0, m);
                    }
                }
                assert(a.val_at(i as int, k as int) == (x.val() + v * c.val()) % m);
                lemma_reduce_entry(x.val(), v, c.val(), m);
                assert forall|k2: int| i < k2 < k + 1 implies #[trigger] a.val_at(i as int, k2)
                    < v by {
                    if k2 < k {
                        assert(a.at(i as int, k2) == a2.at(i as int, k2));
                        assert(a2.val_at(i as int, k2) < v);
                    }
                }
                assert forall|r: int| 0 <= r < a.rows implies #[trigger] a.at(r, i as int)
                    == a15.at(r, i as int) by {
                    assert(a.at(r, i as int) == a2.at(r, i as int));
                }
            }
        }
        k += 1;
    }
    proof {
        lemma_reduce_skip(a, t, t, i as int, k as int);
        assert forall|k2: int|
            i <= k2 < a1.cols && #[trigger] a1.val_at(i as int, k2) != 0 implies v <= a1.val_at(
            i as int,
            k2,
        ) by {}
    }
}

} // verus!
