//! Products of three matrices, and how the elementary operations on the outer two
//! act on them.

use vstd::prelude::*;
use crate::numbers::UnsignedInt;
use crate::matrix::Matrix;
use crate::modular::{
    sum, cong, lemma_cong_ops, lemma_cong_mod, lemma_sum_cong, lemma_sum_eq, lemma_sum_linear,
    lemma_sum_single,
};

verus! {

/// The terms of the entry of row `i` and column `j` of the product `s * a * t`: for
/// each column `q` of `a`, the entry of `s * a` in row `i` times the entry of `t` in
/// column `j`, over the integers.
pub open spec fn triple_terms<T: UnsignedInt>(
    s: &Matrix<T>,
    a: &Matrix<T>,
    t: &Matrix<T>,
    i: int,
    j: int,
) -> spec_fn(int) -> int {
    |q: int| s.dot(i, a, q) * t.val_at(q, j)
}

/// The entry of row `i` and column `j` of the product `s * a * t`, over the integers.
pub open spec fn triple<T: UnsignedInt>(
    s: &Matrix<T>,
    a: &Matrix<T>,
    t: &Matrix<T>,
    i: int,
    j: int,
) -> int {
    sum(triple_terms(s, a, t, i, j), a.cols as int)
}

/// Whether `d` is the product `s * a * t` over the ring.
pub open spec fn is_triple_product<T: UnsignedInt>(
    d: &Matrix<T>,
    s: &Matrix<T>,
    a: &Matrix<T>,
    t: &Matrix<T>,
) -> bool {
    &&& d.wf() && s.wf() && a.wf() && t.wf()
    &&& d.same_dims(a)
    &&& s.rows == a.rows && s.cols == a.rows
    &&& t.rows == a.cols && t.cols == a.cols
    &&& forall|i: int, j: int|
        d.has(i, j) ==> cong(#[trigger] d.val_at(i, j), triple(s, a, t, i, j), T::modulus())
}

/// A matrix is the product of itself with identity matrices on both sides.
pub proof fn lemma_triple_identity<T: UnsignedInt>(a: &Matrix<T>, s: &Matrix<T>, t: &Matrix<T>)
    requires
        a.wf(),
        s.wf(),
        t.wf(),
        s.is_identity(),
        t.is_identity(),
        s.rows == a.rows,
        t.rows == a.cols,
    ensures
        is_triple_product(a, s, a, t),
{
    assert forall|i: int, j: int| a.has(i, j) implies cong(
        #[trigger] a.val_at(i, j),
        triple(s, a, t, i, j),
        T::modulus(),
    ) by {
        let f = triple_terms(s, a, t, i, j);
        assert forall|q: int| 0 <= q < a.cols && q != j implies #[trigger] f(q) == 0 by {
            assert(t.val_at(q, j) == 0);
            assert(s.dot(i, a, q) * 0 == 0);
        }
        lemma_sum_single(f, a.cols as int, j);
        let g = s.dot_terms(i, a, j);
        assert forall|p: int| 0 <= p < s.cols && p != i implies #[trigger] g(p) == 0 by {
            assert(s.val_at(i, p) == 0);
            assert(0 * a.val_at(p, j) == 0);
        }
        lemma_sum_single(g, s.cols as int, i);
        assert(s.val_at(i, i) == 1);
        assert(t.val_at(j, j) == 1);
        assert(g(i) == a.val_at(i, j)) by (nonlinear_arith)
            requires
                g(i) == s.val_at(i, i) * a.val_at(i, j),
                s.val_at(i, i) == 1,
        ;
        assert(f(j) == a.val_at(i, j)) by (nonlinear_arith)
            requires
                f(j) == s.dot(i, a, j) * t.val_at(j, j),
                t.val_at(j, j) == 1,
                s.dot(i, a, j) == a.val_at(i, j),
        ;
    }
}

/// Rows of `s` with equal entries give equal rows of `s * a * t`.
pub proof fn lemma_triple_row_eq<T: UnsignedInt>(
    s0: &Matrix<T>,
    r0: int,
    s1: &Matrix<T>,
    r1: int,
    a: &Matrix<T>,
    t: &Matrix<T>,
    j: int,
)
    requires
        s0.cols == s1.cols,
        forall|p: int| 0 <= p < s0.cols ==> #[trigger] s1.val_at(r1, p) == s0.val_at(r0, p),
    ensures
        triple(s1, a, t, r1, j) == triple(s0, a, t, r0, j),
{
    let f0 = triple_terms(s0, a, t, r0, j);
    let f1 = triple_terms(s1, a, t, r1, j);
    assert forall|q: int| 0 <= q < a.cols implies #[trigger] f1(q) == f0(q) by {
        let g0 = s0.dot_terms(r0, a, q);
        let g1 = s1.dot_terms(r1, a, q);
        assert forall|p: int| 0 <= p < s0.cols implies #[trigger] g1(p) == g0(p) by {
            assert(s1.val_at(r1, p) == s0.val_at(r0, p));
        }
        lemma_sum_eq(g1, g0, s0.cols as int);
    }
    lemma_sum_eq(f1, f0, a.cols as int);
}

/// Columns of `t` with equal entries give equal columns of `s * a * t`.
pub proof fn lemma_triple_col_eq<T: UnsignedInt>(
    s: &Matrix<T>,
    a: &Matrix<T>,
    t0: &Matrix<T>,
    c0: int,
    t1: &Matrix<T>,
    c1: int,
    i: int,
)
    requires
        forall|q: int| 0 <= q < a.cols ==> #[trigger] t1.val_at(q, c1) == t0.val_at(q, c0),
    ensures
        triple(s, a, t1, i, c1) == triple(s, a, t0, i, c0),
{
    let f0 = triple_terms(s, a, t0, i, c0);
    let f1 = triple_terms(s, a, t1, i, c1);
    assert forall|q: int| 0 <= q < a.cols implies #[trigger] f1(q) == f0(q) by {
        assert(t1.val_at(q, c1) == t0.val_at(q, c0));
    }
    lemma_sum_eq(f1, f0, a.cols as int);
}

/// Where row `dst` of `s1` is row `dst` of `s0` plus `c` times its row `src`, over
/// the ring, the same holds of the rows of `s1 * a * t` and `s0 * a * t`.
pub proof fn lemma_triple_row_add<T: UnsignedInt>(
    s0: &Matrix<T>,
    s1: &Matrix<T>,
    a: &Matrix<T>,
    t: &Matrix<T>,
    src: int,
    dst: int,
    c: int,
    j: int,
)
    requires
        s0.cols == s1.cols,
        forall|p: int|
            0 <= p < s0.cols ==> cong(
                #[trigger] s1.val_at(dst, p),
                s0.val_at(dst, p) + s0.val_at(src, p) * c,
                T::modulus(),
            ),
    ensures
        cong(
            triple(s1, a, t, dst, j),
            triple(s0, a, t, dst, j) + triple(s0, a, t, src, j) * c,
            T::modulus(),
        ),
{
    let m = T::modulus();
    T::lemma_modulus();
    let f1 = triple_terms(s1, a, t, dst, j);
    let fd = triple_terms(s0, a, t, dst, j);
    let fs = triple_terms(s0, a, t, src, j);
    let h = |q: int| fd(q) + c * fs(q);
    assert forall|q: int| 0 <= q < a.cols implies cong(#[trigger] f1(q), h(q), m) by {
        let g1 = s1.dot_terms(dst, a, q);
        let gd = s0.dot_terms(dst, a, q);
        let gs = s0.dot_terms(src, a, q);
        let k = |p: int| gd(p) + c * gs(p);
        assert forall|p: int| 0 <= p < s0.cols implies cong(#[trigger] g1(p), k(p), m) by {
            let x = a.val_at(p, q);
            lemma_cong_ops(
                s1.val_at(dst, p),
                s0.val_at(dst, p) + s0.val_at(src, p) * c,
                x,
                x,
                m,
            );
            assert((s0.val_at(dst, p) + s0.val_at(src, p) * c) * x == s0.val_at(dst, p) * x + c * (
            s0.val_at(src, p) * x)) by (nonlinear_arith);
        }
        lemma_sum_cong(g1, k, s0.cols as int, m);
        lemma_sum_linear(gd, gs, k, c, s0.cols as int);
        // s1.dot(dst, a, q) is congruent to s0.dot(dst, a, q) + c * s0.dot(src, a, q)
        let y = t.val_at(q, j);
        lemma_cong_ops(sum(g1, s0.cols as int), sum(k, s0.cols as int), y, y, m);
        assert((sum(gd, s0.cols as int) + c * sum(gs, s0.cols as int)) * y == sum(
            gd,
            s0.cols as int,
        ) * y + c * (sum(gs, s0.cols as int) * y)) by (nonlinear_arith);
    }
    lemma_sum_cong(f1, h, a.cols as int, m);
    lemma_sum_linear(fd, fs, h, c, a.cols as int);
    assert(c * sum(fs, a.cols as int) == sum(fs, a.cols as int) * c) by (nonlinear_arith);
}

/// Where column `dst` of `t1` is column `dst` of `t0` plus `c` times its column
/// `src`, over the ring, the same holds of the columns of `s * a * t1` and
/// `s * a * t0`.
pub proof fn lemma_triple_col_add<T: UnsignedInt>(
    s: &Matrix<T>,
    a: &Matrix<T>,
    t0: &Matrix<T>,
    t1: &Matrix<T>,
    src: int,
    dst: int,
    c: int,
    i: int,
)
    requires
        forall|q: int|
            0 <= q < a.cols ==> cong(
                #[trigger] t1.val_at(q, dst),
                t0.val_at(q, dst) + t0.val_at(q, src) * c,
                T::modulus(),
            ),
    ensures
        cong(
            triple(s, a, t1, i, dst),
            triple(s, a, t0, i, dst) + triple(s, a, t0, i, src) * c,
            T::modulus(),
        ),
{
    let m = T::modulus();
    T::lemma_modulus();
    let f1 = triple_terms(s, a, t1, i, dst);
    let fd = triple_terms(s, a, t0, i, dst);
    let fs = triple_terms(s, a, t0, i, src);
    let h = |q: int| fd(q) + c * fs(q);
    assert forall|q: int| 0 <= q < a.cols implies cong(#[trigger] f1(q), h(q), m) by {
        let x = s.dot(i, a, q);
        lemma_cong_ops(x, x, t1.val_at(q, dst), t0.val_at(q, dst) + t0.val_at(q, src) * c, m);
        assert(x * (t0.val_at(q, dst) + t0.val_at(q, src) * c) == x * t0.val_at(q, dst) + c * (x
            * t0.val_at(q, src))) by (nonlinear_arith);
    }
    lemma_sum_cong(f1, h, a.cols as int, m);
    lemma_sum_linear(fd, fs, h, c, a.cols as int);
    assert(c * sum(fs, a.cols as int) == sum(fs, a.cols as int) * c) by (nonlinear_arith);
}

/// Exchanging two rows of `d` and of `s` keeps `d = s * a * t`.
pub proof fn lemma_swap_rows_keeps_product<T: UnsignedInt>(
    d0: &Matrix<T>,
    d1: &Matrix<T>,
    s0: &Matrix<T>,
    s1: &Matrix<T>,
    a: &Matrix<T>,
    t: &Matrix<T>,
    i: int,
    j: int,
)
    requires
        is_triple_product(d0, s0, a, t),
        0 <= i < d0.rows,
        0 <= j < d0.rows,
        d1.rows_swapped(d0, i, j),
        s1.rows_swapped(s0, i, j),
    ensures
        is_triple_product(d1, s1, a, t),
{
    assert forall|r: int, c: int| d1.has(r, c) implies cong(
        #[trigger] d1.val_at(r, c),
        triple(s1, a, t, r, c),
        T::modulus(),
    ) by {
        let r0 = crate::matrix::swapped(r, i, j);
        assert(d1.at(r, c) == d0.at(r0, c));
        assert(cong(d0.val_at(r0, c), triple(s0, a, t, r0, c), T::modulus()));
        assert forall|p: int| 0 <= p < s0.cols implies #[trigger] s1.val_at(r, p) == s0.val_at(
            r0,
            p,
        ) by {
            assert(s1.at(r, p) == s0.at(r0, p));
        }
        lemma_triple_row_eq(s0, r0, s1, r, a, t, c);
    }
}

/// Exchanging two columns of `d` and of `t` keeps `d = s * a * t`.
pub proof fn lemma_swap_cols_keeps_product<T: UnsignedInt>(
    d0: &Matrix<T>,
    d1: &Matrix<T>,
    s: &Matrix<T>,
    a: &Matrix<T>,
    t0: &Matrix<T>,
    t1: &Matrix<T>,
    i: int,
    j: int,
)
    requires
        is_triple_product(d0, s, a, t0),
        0 <= i < d0.cols,
        0 <= j < d0.cols,
        d1.cols_swapped(d0, i, j),
        t1.cols_swapped(t0, i, j),
    ensures
        is_triple_product(d1, s, a, t1),
{
    assert forall|r: int, c: int| d1.has(r, c) implies cong(
        #[trigger] d1.val_at(r, c),
        triple(s, a, t1, r, c),
        T::modulus(),
    ) by {
        let c0 = crate::matrix::swapped(c, i, j);
        assert(d1.at(r, c) == d0.at(r, c0));
        assert(cong(d0.val_at(r, c0), triple(s, a, t0, r, c0), T::modulus()));
        assert forall|q: int| 0 <= q < a.cols implies #[trigger] t1.val_at(q, c) == t0.val_at(
            q,
            c0,
        ) by {
            assert(t1.at(q, c) == t0.at(q, c0));
        }
        lemma_triple_col_eq(s, a, t0, c0, t1, c, r);
    }
}

/// Adding a multiple of a row to another, in `d` and in `s`, keeps `d = s * a * t`.
pub proof fn lemma_add_row_keeps_product<T: UnsignedInt>(
    d0: &Matrix<T>,
    d1: &Matrix<T>,
    s0: &Matrix<T>,
    s1: &Matrix<T>,
    a: &Matrix<T>,
    t: &Matrix<T>,
    src: int,
    dst: int,
    c: T,
)
    requires
        is_triple_product(d0, s0, a, t),
        0 <= src < d0.rows,
        0 <= dst < d0.rows,
        d1.row_added(d0, src, dst, c),
        s1.row_added(s0, src, dst, c),
    ensures
        is_triple_product(d1, s1, a, t),
{
    let m = T::modulus();
    T::lemma_modulus();
    assert forall|r: int, j: int| d1.has(r, j) implies cong(
        #[trigger] d1.val_at(r, j),
        triple(s1, a, t, r, j),
        m,
    ) by {
        if r != dst {
            assert(d1.at(r, j) == d0.at(r, j));
            assert(cong(d0.val_at(r, j), triple(s0, a, t, r, j), m));
            assert forall|p: int| 0 <= p < s0.cols implies #[trigger] s1.val_at(r, p)
                == s0.val_at(r, p) by {
                assert(s1.at(r, p) == s0.at(r, p));
            }
            lemma_triple_row_eq(s0, r, s1, r, a, t, j);
        } else {
            assert forall|p: int| 0 <= p < s0.cols implies cong(
                #[trigger] s1.val_at(dst, p),
                s0.val_at(dst, p) + s0.val_at(src, p) * c.val(),
                m,
            ) by {
                lemma_cong_mod(s0.val_at(dst, p) + s0.val_at(src, p) * c.val(), m);
            }
            lemma_triple_row_add(s0, s1, a, t, src, dst, c.val(), j);
            assert(cong(d0.val_at(dst, j), triple(s0, a, t, dst, j), m));
            assert(cong(d0.val_at(src, j), triple(s0, a, t, src, j), m));
            lemma_cong_ops(d0.val_at(src, j), triple(s0, a, t, src, j), c.val(), c.val(), m);
            lemma_cong_ops(
                d0.val_at(dst, j),
                triple(s0, a, t, dst, j),
                d0.val_at(src, j) * c.val(),
                triple(s0, a, t, src, j) * c.val(),
                m,
            );
            lemma_cong_mod(d0.val_at(dst, j) + d0.val_at(src, j) * c.val(), m);
        }
    }
}

/// Adding a multiple of a column to another, in `d` and in `t`, keeps
/// `d = s * a * t`.
pub proof fn lemma_add_col_keeps_product<T: UnsignedInt>(
    d0: &Matrix<T>,
    d1: &Matrix<T>,
    s: &Matrix<T>,
    a: &Matrix<T>,
    t0: &Matrix<T>,
    t1: &Matrix<T>,
    src: int,
    dst: int,
    c: T,
)
    requires
        is_triple_product(d0, s, a, t0),
        0 <= src < d0.cols,
        0 <= dst < d0.cols,
        d1.col_added(d0, src, dst, c),
        t1.col_added(t0, src, dst, c),
    ensures
        is_triple_product(d1, s, a, t1),
{
    let m = T::modulus();
    T::lemma_modulus();
    assert forall|i: int, r: int| d1.has(i, r) implies cong(
        #[trigger] d1.val_at(i, r),
        triple(s, a, t1, i, r),
        m,
    ) by {
        if r != dst {
            assert(d1.at(i, r) == d0.at(i, r));
            assert(cong(d0.val_at(i, r), triple(s, a, t0, i, r), m));
            assert forall|q: int| 0 <= q < a.cols implies #[trigger] t1.val_at(q, r)
                == t0.val_at(q, r) by {
                assert(t1.at(q, r) == t0.at(q, r));
            }
            lemma_triple_col_eq(s, a, t0, r, t1, r, i);
        } else {
            assert forall|q: int| 0 <= q < a.cols implies cong(
                #[trigger] t1.val_at(q, dst),
                t0.val_at(q, dst) + t0.val_at(q, src) * c.val(),
                m,
            ) by {
                lemma_cong_mod(t0.val_at(q, dst) + t0.val_at(q, src) * c.val(), m);
            }
            lemma_triple_col_add(s, a, t0, t1, src, dst, c.val(), i);
            assert(cong(d0.val_at(i, dst), triple(s, a, t0, i, dst), m));
            assert(cong(d0.val_at(i, src), triple(s, a, t0, i, src), m));
            lemma_cong_ops(d0.val_at(i, src), triple(s, a, t0, i, src), c.val(), c.val(), m);
            lemma_cong_ops(
                d0.val_at(i, dst),
                triple(s, a, t0, i, dst),
                d0.val_at(i, src) * c.val(),
                triple(s, a, t0, i, src) * c.val(),
                m,
            );
            lemma_cong_mod(d0.val_at(i, dst) + d0.val_at(i, src) * c.val(), m);
        }
    }
}

} // verus!
