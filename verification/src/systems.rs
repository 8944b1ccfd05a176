//! Systems of linear congruences, and how the elementary operations that diagonalize
//! a matrix carry the solutions of one system to those of another.

use vstd::prelude::*;
use crate::numbers::UnsignedInt;
use crate::matrix::{Matrix, swapped};
use crate::products::is_triple_product;
use crate::modular::{
    cong, lemma_cong_ops, lemma_cong_mod, lemma_sum_cong, lemma_sum_eq, lemma_sum_linear,
    lemma_sum_single, lemma_sum_two, lemma_sum_add,
};

verus! {

/// Whether two sequences have the same length and congruent members.
pub open spec fn cong_seq(x: Seq<int>, y: Seq<int>, m: int) -> bool {
    &&& x.len() == y.len()
    &&& forall|i: int| 0 <= i < x.len() ==> cong(#[trigger] x[i], y[i], m)
}

/// The numbers `y` with the members at `i` and `j` exchanged.
pub open spec fn swap_arg(y: Seq<int>, i: int, j: int) -> Seq<int> {
    Seq::new(y.len(), |k: int| y[swapped(k, i, j)])
}

/// The numbers `y` with `c` times the member at `dst` added to the member at `src`.
pub open spec fn add_arg(y: Seq<int>, src: int, dst: int, c: int) -> Seq<int> {
    Seq::new(
        y.len(),
        |k: int|
            if k == src {
                y[src] + c * y[dst]
            } else {
                y[k]
            },
    )
}

/// Whether `y` solves the system of `d` with the right-hand sides `s * b`, and `t`
/// carries it to `x`.
pub open spec fn lifts<T: UnsignedInt>(
    d: &Matrix<T>,
    s: &Matrix<T>,
    t: &Matrix<T>,
    b: Seq<int>,
    x: Seq<int>,
    y: Seq<int>,
) -> bool {
    &&& d.solved_by(y, s.apply(b))
    &&& cong_seq(t.apply(y), x, T::modulus())
}

/// Whether `t` carries the solutions of the systems of `d`, with right-hand sides
/// `s * b`, onto the solutions of the systems of `a`, with right-hand sides `b`.
pub open spec fn same_solutions<T: UnsignedInt>(
    d: &Matrix<T>,
    s: &Matrix<T>,
    a: &Matrix<T>,
    t: &Matrix<T>,
) -> bool {
    &&& d.same_dims(a)
    &&& s.rows == a.rows && s.cols == a.rows
    &&& t.rows == a.cols && t.cols == a.cols
    &&& forall|b: Seq<int>, y: Seq<int>|
        b.len() == a.rows && #[trigger] d.solved_by(y, s.apply(b)) ==> a.solved_by(t.apply(y), b)
    &&& forall|b: Seq<int>, x: Seq<int>| #[trigger]
        a.solved_by(x, b) ==> exists|y: Seq<int>| #[trigger] lifts(d, s, t, b, x, y)
}

/// Whether `d` is the product `s * a * t` over the ring, and `t` carries the solutions
/// of the systems of `d` onto those of the systems of `a`.
pub open spec fn is_equivalent_form<T: UnsignedInt>(
    d: &Matrix<T>,
    s: &Matrix<T>,
    a: &Matrix<T>,
    t: &Matrix<T>,
) -> bool {
    is_triple_product(d, s, a, t) && same_solutions(d, s, a, t)
}

/// Rows with equal entries give equal sums.
pub proof fn lemma_apply_row_eq<T: UnsignedInt>(
    m0: &Matrix<T>,
    r0: int,
    m1: &Matrix<T>,
    r1: int,
    y: Seq<int>,
)
    requires
        m0.cols == m1.cols,
        forall|k: int| 0 <= k < m0.cols ==> #[trigger] m1.val_at(r1, k) == m0.val_at(r0, k),
    ensures
        m1.apply_at(y, r1) == m0.apply_at(y, r0),
{
    let f0 = m0.apply_terms(y, r0);
    let f1 = m1.apply_terms(y, r1);
    assert forall|k: int| 0 <= k < m0.cols implies #[trigger] f1(k) == f0(k) by {
        assert(m1.val_at(r1, k) == m0.val_at(r0, k));
    }
    lemma_sum_eq(f1, f0, m0.cols as int);
}

/// Congruent numbers give congruent sums.
pub proof fn lemma_apply_cong<T: UnsignedInt>(m: &Matrix<T>, y0: Seq<int>, y1: Seq<int>, r: int)
    requires
        y0.len() == m.cols,
        cong_seq(y0, y1, T::modulus()),
    ensures
        cong(m.apply_at(y0, r), m.apply_at(y1, r), T::modulus()),
{
    let md = T::modulus();
    T::lemma_modulus();
    let f0 = m.apply_terms(y0, r);
    let f1 = m.apply_terms(y1, r);
    assert forall|k: int| 0 <= k < m.cols implies cong(#[trigger] f0(k), f1(k), md) by {
        lemma_cong_ops(m.val_at(r, k), m.val_at(r, k), y0[k], y1[k], md);
    }
    lemma_sum_cong(f0, f1, m.cols as int, md);
}

/// The row of an identity matrix picks out a member.
pub proof fn lemma_apply_identity<T: UnsignedInt>(m: &Matrix<T>, y: Seq<int>, r: int)
    requires
        m.is_identity(),
        0 <= r < m.rows,
    ensures
        m.apply_at(y, r) == y[r],
{
    let f = m.apply_terms(y, r);
    assert forall|k: int| 0 <= k < m.cols && k != r implies #[trigger] f(k) == 0 by {
        assert(m.val_at(r, k) == 0);
        assert(0 * y[k] == 0);
    }
    lemma_sum_single(f, m.cols as int, r);
    assert(m.val_at(r, r) == 1);
    assert(f(r) == y[r]) by (nonlinear_arith)
        requires
            f(r) == m.val_at(r, r) * y[r],
            m.val_at(r, r) == 1,
    ;
}

/// Where row `dst` of `m1` is row `dst` of `m0` plus `c` times its row `src`, over
/// the ring, the same holds of the sums.
pub proof fn lemma_apply_row_add<T: UnsignedInt>(
    m0: &Matrix<T>,
    m1: &Matrix<T>,
    src: int,
    dst: int,
    c: T,
    y: Seq<int>,
)
    requires
        0 <= dst < m0.rows,
        m1.row_added(m0, src, dst, c),
    ensures
        cong(
            m1.apply_at(y, dst),
            m0.apply_at(y, dst) + c.val() * m0.apply_at(y, src),
            T::modulus(),
        ),
{
    let md = T::modulus();
    T::lemma_modulus();
    let f1 = m1.apply_terms(y, dst);
    let fd = m0.apply_terms(y, dst);
    let fs = m0.apply_terms(y, src);
    let h = |k: int| fd(k) + c.val() * fs(k);
    assert forall|k: int| 0 <= k < m0.cols implies cong(#[trigger] f1(k), h(k), md) by {
        let e = m0.val_at(dst, k) + m0.val_at(src, k) * c.val();
        lemma_cong_mod(e, md);
        lemma_cong_ops(m1.val_at(dst, k), e, y[k], y[k], md);
        assert(e * y[k] == m0.val_at(dst, k) * y[k] + c.val() * (m0.val_at(src, k) * y[k]))
            by (nonlinear_arith)
            requires
                e == m0.val_at(dst, k) + m0.val_at(src, k) * c.val(),
        ;
    }
    lemma_sum_cong(f1, h, m0.cols as int, md);
    lemma_sum_linear(fd, fs, h, c.val(), m0.cols as int);
}

/// Where column `dst` of `m1` is column `dst` of `m0` plus `c` times its column
/// `src`, over the ring, the sums of `m1` with `y` are those of `m0` with the numbers
/// that have `c` times the member at `dst` added to the member at `src`.
pub proof fn lemma_apply_col_add<T: UnsignedInt>(
    m0: &Matrix<T>,
    m1: &Matrix<T>,
    src: int,
    dst: int,
    c: T,
    y: Seq<int>,
    r: int,
)
    requires
        0 <= r < m0.rows,
        0 <= src < m0.cols,
        0 <= dst < m0.cols,
        src != dst,
        y.len() == m0.cols,
        m1.col_added(m0, src, dst, c),
    ensures
        cong(m1.apply_at(y, r), m0.apply_at(add_arg(y, src, dst, c.val()), r), T::modulus()),
{
    let md = T::modulus();
    T::lemma_modulus();
    let y2 = add_arg(y, src, dst, c.val());
    let f1 = m1.apply_terms(y, r);
    let f0 = m0.apply_terms(y2, r);
    let x = c.val() * (m0.val_at(r, src) * y[dst]);
    let e = |k: int|
        if k == dst {
            x
        } else if k == src {
            -x
        } else {
            0int
        };
    let g = |k: int| f0(k) + e(k);
    assert forall|k: int| 0 <= k < m0.cols implies cong(#[trigger] f1(k), g(k), md) by {
        if k == dst {
            let v = m0.val_at(r, dst) + m0.val_at(r, src) * c.val();
            lemma_cong_mod(v, md);
            lemma_cong_ops(m1.val_at(r, dst), v, y[dst], y[dst], md);
            assert(v * y[dst] == m0.val_at(r, dst) * y[dst] + c.val() * (m0.val_at(r, src)
                * y[dst])) by (nonlinear_arith)
                requires
                    v == m0.val_at(r, dst) + m0.val_at(r, src) * c.val(),
            ;
            assert(y2[dst] == y[dst]);
        } else if k == src {
            assert(m1.at(r, src) == m0.at(r, src));
            assert(y2[src] == y[src] + c.val() * y[dst]);
            assert(m0.val_at(r, src) * y[src] == m0.val_at(r, src) * (y[src] + c.val() * y[dst])
                - c.val() * (m0.val_at(r, src) * y[dst])) by (nonlinear_arith);
        } else {
            assert(m1.at(r, k) == m0.at(r, k));
            assert(y2[k] == y[k]);
        }
    }
    lemma_sum_cong(f1, g, m0.cols as int, md);
    lemma_sum_add(f0, e, g, m0.cols as int);
    lemma_sum_two(e, m0.cols as int, src, dst);
}

/// Where `m1` is `m0` with two columns exchanged, the sums of `m1` with `y` are
/// those of `m0` with the two members of `y` exchanged.
pub proof fn lemma_apply_col_swap<T: UnsignedInt>(
    m0: &Matrix<T>,
    m1: &Matrix<T>,
    i: int,
    j: int,
    y: Seq<int>,
    r: int,
)
    requires
        0 <= r < m0.rows,
        0 <= i < m0.cols,
        0 <= j < m0.cols,
        y.len() == m0.cols,
        m1.cols_swapped(m0, i, j),
    ensures
        m1.apply_at(y, r) == m0.apply_at(swap_arg(y, i, j), r),
{
    let y2 = swap_arg(y, i, j);
    let f1 = m1.apply_terms(y, r);
    let f0 = m0.apply_terms(y2, r);
    if i == j {
        assert forall|k: int| 0 <= k < m0.cols implies #[trigger] f1(k) == f0(k) by {
            assert(m1.at(r, k) == m0.at(r, swapped(k, i, j)));
            assert(y2[k] == y[k]);
        }
        lemma_sum_eq(f1, f0, m0.cols as int);
    } else {
        let e = |k: int| f1(k) - f0(k);
        let g = |k: int| f0(k) + e(k);
        assert forall|k: int| 0 <= k < m0.cols && k != i && k != j implies #[trigger] e(k)
            == 0 by {
            assert(m1.at(r, k) == m0.at(r, swapped(k, i, j)));
            assert(y2[k] == y[k]);
        }
        assert(m1.at(r, i) == m0.at(r, swapped(i, i, j)));
        assert(m1.at(r, j) == m0.at(r, swapped(j, i, j)));
        assert(y2[i] == y[j]);
        assert(y2[j] == y[i]);
        lemma_sum_two(e, m0.cols as int, i, j);
        lemma_sum_add(f0, e, g, m0.cols as int);
        lemma_sum_eq(f1, g, m0.cols as int);
    }
}

/// With identity matrices on both sides, the systems are the same.
pub proof fn lemma_same_solutions_identity<T: UnsignedInt>(
    a: &Matrix<T>,
    s: &Matrix<T>,
    t: &Matrix<T>,
)
    requires
        s.is_identity(),
        t.is_identity(),
        s.rows == a.rows,
        t.rows == a.cols,
    ensures
        same_solutions(a, s, a, t),
{
    let md = T::modulus();
    T::lemma_modulus();
    assert forall|b: Seq<int>, y: Seq<int>|
        b.len() == a.rows && #[trigger] a.solved_by(y, s.apply(b)) implies a.solved_by(
        t.apply(y),
        b,
    ) by {
        assert forall|q: int| 0 <= q < a.cols implies cong(#[trigger] t.apply(y)[q], y[q], md) by {
            lemma_apply_identity(t, y, q);
        }
        assert forall|r: int| 0 <= r < a.rows implies cong(
            #[trigger] a.apply_at(t.apply(y), r),
            b[r],
            md,
        ) by {
            lemma_apply_cong(a, t.apply(y), y, r);
            lemma_apply_identity(s, b, r);
            assert(cong(a.apply_at(y, r), s.apply(b)[r], md));
        }
    }
    assert forall|b: Seq<int>, x: Seq<int>| #[trigger] a.solved_by(x, b) implies exists|
        y: Seq<int>,
    | #[trigger] lifts(a, s, t, b, x, y) by {
        assert forall|q: int| 0 <= q < a.cols implies cong(#[trigger] t.apply(x)[q], x[q], md) by {
            lemma_apply_identity(t, x, q);
        }
        assert forall|r: int| 0 <= r < a.rows implies cong(
            #[trigger] a.apply_at(x, r),
            s.apply(b)[r],
            md,
        ) by {
            lemma_apply_identity(s, b, r);
        }
        assert(lifts(a, s, t, b, x, x));
    }
}

/// Exchanging two rows of `d` and of `s` keeps the solutions.
pub proof fn lemma_swap_rows_keeps_solutions<T: UnsignedInt>(
    d0: &Matrix<T>,
    d1: &Matrix<T>,
    s0: &Matrix<T>,
    s1: &Matrix<T>,
    a: &Matrix<T>,
    t: &Matrix<T>,
    i: int,
    j: int,
)
    requires
        same_solutions(d0, s0, a, t),
        0 <= i < d0.rows,
        0 <= j < d0.rows,
        d1.rows_swapped(d0, i, j),
        s1.rows_swapped(s0, i, j),
    ensures
        same_solutions(d1, s1, a, t),
{
    let md = T::modulus();
    // The systems of d0 and d1 have the same equations.
    assert forall|b: Seq<int>, y: Seq<int>| b.len() == a.rows implies (d1.solved_by(
        y,
        s1.apply(b),
    ) <==> #[trigger] d0.solved_by(y, s0.apply(b))) by {
        assert forall|r: int| 0 <= r < d0.rows implies d1.apply_at(y, swapped(r, i, j))
            == #[trigger] d0.apply_at(y, r) && s1.apply_at(b, swapped(r, i, j)) == s0.apply_at(
            b,
            r,
        ) by {
            let r1 = swapped(r, i, j);
            assert forall|k: int| 0 <= k < d0.cols implies #[trigger] d1.val_at(r1, k)
                == d0.val_at(r, k) by {
                assert(d1.at(r1, k) == d0.at(swapped(r1, i, j), k));
            }
            lemma_apply_row_eq(d0, r, d1, r1, y);
            assert forall|k: int| 0 <= k < s0.cols implies #[trigger] s1.val_at(r1, k)
                == s0.val_at(r, k) by {
                assert(s1.at(r1, k) == s0.at(swapped(r1, i, j), k));
            }
            lemma_apply_row_eq(s0, r, s1, r1, b);
        }
        if d1.solved_by(y, s1.apply(b)) {
            assert forall|r: int| 0 <= r < d0.rows implies cong(
                #[trigger] d0.apply_at(y, r),
                s0.apply(b)[r],
                md,
            ) by {
                let r1 = swapped(r, i, j);
                assert(cong(d1.apply_at(y, r1), s1.apply(b)[r1], md));
            }
        }
        if d0.solved_by(y, s0.apply(b)) {
            assert forall|r: int| 0 <= r < d0.rows implies cong(
                #[trigger] d1.apply_at(y, r),
                s1.apply(b)[r],
                md,
            ) by {
                let r1 = swapped(r, i, j);
                assert(swapped(r1, i, j) == r);
                assert(cong(d0.apply_at(y, r1), s0.apply(b)[r1], md));
                assert(d1.apply_at(y, swapped(r1, i, j)) == d0.apply_at(y, r1));
            }
        }
    }
    assert forall|b: Seq<int>, y: Seq<int>|
        b.len() == a.rows && #[trigger] d1.solved_by(y, s1.apply(b)) implies a.solved_by(
        t.apply(y),
        b,
    ) by {
        assert(d0.solved_by(y, s0.apply(b)));
    }
    assert forall|b: Seq<int>, x: Seq<int>| #[trigger] a.solved_by(x, b) implies exists|
        y: Seq<int>,
    | #[trigger] lifts(d1, s1, t, b, x, y) by {
        let y = choose|y: Seq<int>| #[trigger] lifts(d0, s0, t, b, x, y);
        assert(d0.solved_by(y, s0.apply(b)));
        assert(lifts(d1, s1, t, b, x, y));
    }
}

/// Adding a multiple of a row to another, in `d` and in `s`, keeps the solutions.
pub proof fn lemma_add_row_keeps_solutions<T: UnsignedInt>(
    d0: &Matrix<T>,
    d1: &Matrix<T>,
    s0: &Matrix<T>,
    s1: &Matrix<T>,
    a: &Matrix<T>,
    t: &Matrix<T>,
    src: int,
    dst: int,
    c: T,
)
    requires
        same_solutions(d0, s0, a, t),
        0 <= src < d0.rows,
        0 <= dst < d0.rows,
        src != dst,
        d1.row_added(d0, src, dst, c),
        s1.row_added(s0, src, dst, c),
    ensures
        same_solutions(d1, s1, a, t),
{
    let md = T::modulus();
    T::lemma_modulus();
    assert forall|b: Seq<int>, y: Seq<int>| b.len() == a.rows implies (d1.solved_by(
        y,
        s1.apply(b),
    ) <==> #[trigger] d0.solved_by(y, s0.apply(b))) by {
        assert forall|r: int| 0 <= r < d0.rows && r != dst implies d1.apply_at(y, r)
            == #[trigger] d0.apply_at(y, r) && s1.apply_at(b, r) == s0.apply_at(b, r) by {
            assert forall|k: int| 0 <= k < d0.cols implies #[trigger] d1.val_at(r, k)
                == d0.val_at(r, k) by {
                assert(d1.at(r, k) == d0.at(r, k));
            }
            lemma_apply_row_eq(d0, r, d1, r, y);
            assert forall|k: int| 0 <= k < s0.cols implies #[trigger] s1.val_at(r, k)
                == s0.val_at(r, k) by {
                assert(s1.at(r, k) == s0.at(r, k));
            }
            lemma_apply_row_eq(s0, r, s1, r, b);
        }
        lemma_apply_row_add(d0, d1, src, dst, c, y);
        lemma_apply_row_add(s0, s1, src, dst, c, b);
        let p = d0.apply_at(y, dst);
        let q = d0.apply_at(y, src);
        let image = d1.apply_at(y, dst);
        let u = s0.apply_at(b, dst);
        let v = s0.apply_at(b, src);
        let u1 = s1.apply_at(b, dst);
        assert(d1.apply_at(y, src) == q);
        assert(s1.apply_at(b, src) == v);
        if d1.solved_by(y, s1.apply(b)) {
            assert(cong(d1.apply_at(y, src), s1.apply(b)[src], md));
            assert(cong(d1.apply_at(y, dst), s1.apply(b)[dst], md));
            lemma_cong_ops(c.val(), c.val(), q, v, md);
            lemma_cong_ops(p + c.val() * q, u + c.val() * v, c.val() * q, c.val() * v, md);
            assert(cong(p, u, md));
            assert forall|r: int| 0 <= r < d0.rows implies cong(
                #[trigger] d0.apply_at(y, r),
                s0.apply(b)[r],
                md,
            ) by {
                if r != dst {
                    assert(cong(d1.apply_at(y, r), s1.apply(b)[r], md));
                }
            }
        }
        if d0.solved_by(y, s0.apply(b)) {
            assert(cong(d0.apply_at(y, src), s0.apply(b)[src], md));
            assert(cong(d0.apply_at(y, dst), s0.apply(b)[dst], md));
            lemma_cong_ops(c.val(), c.val(), q, v, md);
            lemma_cong_ops(p, u, c.val() * q, c.val() * v, md);
            assert(cong(image, u1, md));
            assert forall|r: int| 0 <= r < d0.rows implies cong(
                #[trigger] d1.apply_at(y, r),
                s1.apply(b)[r],
                md,
            ) by {
                if r != dst {
                    assert(cong(d0.apply_at(y, r), s0.apply(b)[r], md));
                }
            }
        }
    }
    assert forall|b: Seq<int>, y: Seq<int>|
        b.len() == a.rows && #[trigger] d1.solved_by(y, s1.apply(b)) implies a.solved_by(
        t.apply(y),
        b,
    ) by {
        assert(d0.solved_by(y, s0.apply(b)));
    }
    assert forall|b: Seq<int>, x: Seq<int>| #[trigger] a.solved_by(x, b) implies exists|
        y: Seq<int>,
    | #[trigger] lifts(d1, s1, t, b, x, y) by {
        let y = choose|y: Seq<int>| #[trigger] lifts(d0, s0, t, b, x, y);
        assert(d0.solved_by(y, s0.apply(b)));
        assert(lifts(d1, s1, t, b, x, y));
    }
}

/// Exchanging two columns of `d` and of `t` keeps the solutions.
pub proof fn lemma_swap_cols_keeps_solutions<T: UnsignedInt>(
    d0: &Matrix<T>,
    d1: &Matrix<T>,
    s: &Matrix<T>,
    a: &Matrix<T>,
    t0: &Matrix<T>,
    t1: &Matrix<T>,
    i: int,
    j: int,
)
    requires
        same_solutions(d0, s, a, t0),
        0 <= i < d0.cols,
        0 <= j < d0.cols,
        d1.cols_swapped(d0, i, j),
        t1.cols_swapped(t0, i, j),
    ensures
        same_solutions(d1, s, a, t1),
{
    let md = T::modulus();
    T::lemma_modulus();
    // Exchanging the two members of y exchanges the solutions of the two systems.
    assert forall|b: Seq<int>, y: Seq<int>|
        b.len() == a.rows && y.len() == a.cols && #[trigger] d1.solved_by(
            y,
            s.apply(b),
        ) implies d0.solved_by(swap_arg(y, i, j), s.apply(b)) && t1.apply(y) =~= t0.apply(
        swap_arg(y, i, j),
    ) by {
        let y2 = swap_arg(y, i, j);
        assert forall|r: int| 0 <= r < d0.rows implies cong(
            #[trigger] d0.apply_at(y2, r),
            s.apply(b)[r],
            md,
        ) by {
            lemma_apply_col_swap(d0, d1, i, j, y, r);
            assert(cong(d1.apply_at(y, r), s.apply(b)[r], md));
        }
        assert forall|q: int| 0 <= q < t0.rows implies #[trigger] t1.apply(y)[q] == t0.apply(
            y2,
        )[q] by {
            lemma_apply_col_swap(t0, t1, i, j, y, q);
        }
    }
    assert forall|b: Seq<int>, y: Seq<int>|
        b.len() == a.rows && #[trigger] d1.solved_by(y, s.apply(b)) implies a.solved_by(
        t1.apply(y),
        b,
    ) by {
        let y2 = swap_arg(y, i, j);
        assert(d0.solved_by(y2, s.apply(b)));
        assert(a.solved_by(t0.apply(y2), b));
    }
    assert forall|b: Seq<int>, x: Seq<int>| #[trigger] a.solved_by(x, b) implies exists|
        y: Seq<int>,
    | #[trigger] lifts(d1, s, t1, b, x, y) by {
        let y0 = choose|y: Seq<int>| #[trigger] lifts(d0, s, t0, b, x, y);
        let y = swap_arg(y0, i, j);
        assert(swap_arg(y, i, j) =~= y0);
        assert forall|r: int| 0 <= r < d0.rows implies cong(
            #[trigger] d1.apply_at(y, r),
            s.apply(b)[r],
            md,
        ) by {
            lemma_apply_col_swap(d0, d1, i, j, y, r);
            assert(cong(d0.apply_at(y0, r), s.apply(b)[r], md));
        }
        assert forall|q: int| 0 <= q < t0.rows implies cong(
            #[trigger] t1.apply(y)[q],
            x[q],
            md,
        ) by {
            lemma_apply_col_swap(t0, t1, i, j, y, q);
            assert(cong(t0.apply(y0)[q], x[q], md));
        }
        assert(lifts(d1, s, t1, b, x, y));
    }
}

/// Adding a multiple of a column to another, in `d` and in `t`, keeps the
/// solutions.
pub proof fn lemma_add_col_keeps_solutions<T: UnsignedInt>(
    d0: &Matrix<T>,
    d1: &Matrix<T>,
    s: &Matrix<T>,
    a: &Matrix<T>,
    t0: &Matrix<T>,
    t1: &Matrix<T>,
    src: int,
    dst: int,
    c: T,
)
    requires
        same_solutions(d0, s, a, t0),
        0 <= src < d0.cols,
        0 <= dst < d0.cols,
        src != dst,
        d1.col_added(d0, src, dst, c),
        t1.col_added(t0, src, dst, c),
    ensures
        same_solutions(d1, s, a, t1),
{
    let md = T::modulus();
    T::lemma_modulus();
    assert forall|b: Seq<int>, y: Seq<int>|
        b.len() == a.rows && #[trigger] d1.solved_by(y, s.apply(b)) implies a.solved_by(
        t1.apply(y),
        b,
    ) by {
        let y2 = add_arg(y, src, dst, c.val());
        assert forall|r: int| 0 <= r < d0.rows implies cong(
            #[trigger] d0.apply_at(y2, r),
            s.apply(b)[r],
            md,
        ) by {
            lemma_apply_col_add(d0, d1, src, dst, c, y, r);
            assert(cong(d1.apply_at(y, r), s.apply(b)[r], md));
        }
        assert(d0.solved_by(y2, s.apply(b)));
        assert(a.solved_by(t0.apply(y2), b));
        assert forall|q: int| 0 <= q < t0.rows implies cong(
            #[trigger] t1.apply(y)[q],
            t0.apply(y2)[q],
            md,
        ) by {
            lemma_apply_col_add(t0, t1, src, dst, c, y, q);
        }
        assert forall|r: int| 0 <= r < a.rows implies cong(
            #[trigger] a.apply_at(t1.apply(y), r),
            b[r],
            md,
        ) by {
            lemma_apply_cong(a, t1.apply(y), t0.apply(y2), r);
            assert(cong(a.apply_at(t0.apply(y2), r), b[r], md));
        }
    }
    assert forall|b: Seq<int>, x: Seq<int>| #[trigger] a.solved_by(x, b) implies exists|
        y: Seq<int>,
    | #[trigger] lifts(d1, s, t1, b, x, y) by {
        let y0 = choose|y: Seq<int>| #[trigger] lifts(d0, s, t0, b, x, y);
        let y = add_arg(y0, src, dst, -c.val());
        assert(add_arg(y, src, dst, c.val()) =~= y0) by {
            assert((y0[src] + (-c.val()) * y0[dst]) + c.val() * y0[dst] == y0[src])
                by (nonlinear_arith);
        }
        assert forall|r: int| 0 <= r < d0.rows implies cong(
            #[trigger] d1.apply_at(y, r),
            s.apply(b)[r],
            md,
        ) by {
            lemma_apply_col_add(d0, d1, src, dst, c, y, r);
            assert(cong(d0.apply_at(y0, r), s.apply(b)[r], md));
        }
        assert forall|q: int| 0 <= q < t0.rows implies cong(
            #[trigger] t1.apply(y)[q],
            x[q],
            md,
        ) by {
            lemma_apply_col_add(t0, t1, src, dst, c, y, q);
            assert(cong(t0.apply(y0)[q], x[q], md));
        }
        assert(lifts(d1, s, t1, b, x, y));
    }
}

/// A system is solved by the numbers congruent to a solution, and with right-hand
/// sides congruent to its own.
pub proof fn lemma_solved_by_cong<T: UnsignedInt>(
    a: &Matrix<T>,
    x0: Seq<int>,
    b0: Seq<int>,
    x1: Seq<int>,
    b1: Seq<int>,
)
    requires
        a.solved_by(x0, b0),
        cong_seq(x0, x1, T::modulus()),
        cong_seq(b0, b1, T::modulus()),
    ensures
        a.solved_by(x1, b1),
{
    assert forall|r: int| 0 <= r < a.rows implies cong(
        #[trigger] a.apply_at(x1, r),
        b1[r],
        T::modulus(),
    ) by {
        lemma_apply_cong(a, x0, x1, r);
        assert(cong(a.apply_at(x0, r), b0[r], T::modulus()));
        assert(cong(b0[r], b1[r], T::modulus()));
    }
}

/// The products of a matrix with congruent numbers are congruent.
pub proof fn lemma_apply_cong_seq<T: UnsignedInt>(t: &Matrix<T>, y0: Seq<int>, y1: Seq<int>)
    requires
        y0.len() == t.cols,
        cong_seq(y0, y1, T::modulus()),
    ensures
        cong_seq(t.apply(y0), t.apply(y1), T::modulus()),
{
    assert forall|q: int| 0 <= q < t.rows implies cong(
        #[trigger] t.apply(y0)[q],
        t.apply(y1)[q],
        T::modulus(),
    ) by {
        lemma_apply_cong(t, y0, y1, q);
    }
}

} // verus!
