//! A system of linear congruences has one lattice of solutions that its
//! diagonalization gives.

use vstd::prelude::*;
use crate::numbers::UnsignedInt;
use crate::matrix::Matrix;
use crate::vector::Vector;
use crate::lattice::AffineLattice;
use crate::grids::{grid, short_side, lemma_one_diagonalization};
use crate::systems::lemma_apply_row_eq;
use crate::diagonal::{
    basis_vals, solved_part, has_excess, diagonal_solution, is_diagonal_solution,
};
use crate::congruence_solver::{is_assembled, is_lattice_of};

verus! {

/// Whether two matrices have the same dimensions and entries.
pub open spec fn same_entries<T: UnsignedInt>(x: &Matrix<T>, y: &Matrix<T>) -> bool {
    &&& x.same_dims(y)
    &&& forall|r: int, c: int| x.has(r, c) ==> #[trigger] x.val_at(r, c) == y.val_at(r, c)
}

/// Matrices of the same dimensions whose entries are the same numbers.
pub proof fn lemma_same_entries<T: UnsignedInt>(x: &Matrix<T>, y: &Matrix<T>)
    requires
        x.same_dims(y),
        grid(x) == grid(y),
    ensures
        same_entries(x, y),
{
    assert forall|r: int, c: int| x.has(r, c) implies #[trigger] x.val_at(r, c) == y.val_at(
        r,
        c,
    ) by {
        assert(grid(x)[r][c] == x.val_at(r, c));
        assert(grid(y)[r][c] == y.val_at(r, c));
    }
}

/// Matrices with the same entries have the same product with a vector.
pub proof fn lemma_same_image<T: UnsignedInt>(
    x: &Matrix<T>,
    y: &Matrix<T>,
    u: &Vector<T>,
    v: &Vector<T>,
    p: &Vector<T>,
    q: &Vector<T>,
)
    requires
        same_entries(x, y),
        u.vals() == v.vals(),
        x.is_image(u, p),
        y.is_image(v, q),
    ensures
        p.vals() == q.vals(),
{
    assert forall|i: int| 0 <= i < x.rows implies p.val_at(i) == q.val_at(i) by {
        assert forall|k: int| 0 <= k < x.cols implies #[trigger] y.val_at(i, k) == x.val_at(
            i,
            k,
        ) by {
            assert(x.has(i, k));
        }
        lemma_apply_row_eq(x, i, y, i, u.vals());
    }
    assert(p.vals() =~= q.vals());
}

/// Diagonal systems with the same entries and right-hand sides give the same
/// offset and basis for their first congruences.
pub proof fn lemma_same_part<T: UnsignedInt>(
    d1: &Matrix<T>,
    bp1: &Vector<T>,
    d2: &Matrix<T>,
    bp2: &Vector<T>,
    i: int,
)
    requires
        same_entries(d1, d2),
        bp1.vals() == bp2.vals(),
        bp1@.len() == d1.rows,
        i <= short_side(d1),
    ensures
        solved_part(d1, bp1, i) == solved_part(d2, bp2, i),
    decreases i,
{
    if i > 0 {
        lemma_same_part(d1, bp1, d2, bp2, i - 1);
        assert(d1.has(i - 1, i - 1));
        assert(d1.val_at(i - 1, i - 1) == d2.val_at(i - 1, i - 1));
        assert(bp1.vals().len() == bp1@.len());
        assert(bp2.vals().len() == bp2@.len());
        assert(bp1.vals()[i - 1] == bp1.val_at(i - 1));
        assert(bp2.vals()[i - 1] == bp2.val_at(i - 1));
    }
}

/// Diagonal systems with the same entries and right-hand sides have the same
/// solutions.
pub proof fn lemma_same_solution<T: UnsignedInt>(
    d1: &Matrix<T>,
    bp1: &Vector<T>,
    d2: &Matrix<T>,
    bp2: &Vector<T>,
)
    requires
        same_entries(d1, d2),
        bp1.vals() == bp2.vals(),
        bp1@.len() == d1.rows,
        bp2@.len() == d2.rows,
    ensures
        diagonal_solution(d1, bp1) == diagonal_solution(d2, bp2),
{
    lemma_same_part(d1, bp1, d2, bp2, short_side(d1));
    if has_excess(d1, bp1) {
        let r = choose|r: int| short_side(d1) <= r < d1.rows && #[trigger] bp1.val_at(r) != 0;
        assert(bp1.vals()[r] == bp1.val_at(r));
        assert(bp2.vals()[r] == bp2.val_at(r));
        assert(bp2.val_at(r) != 0);
    }
    if has_excess(d2, bp2) {
        let r = choose|r: int| short_side(d2) <= r < d2.rows && #[trigger] bp2.val_at(r) != 0;
        assert(bp1.vals()[r] == bp1.val_at(r));
        assert(bp2.vals()[r] == bp2.val_at(r));
        assert(bp1.val_at(r) != 0);
    }
}

/// The lattice that the diagonalization of a matrix gives for a system is one: its
/// offset and its basis are functions of the entries of the system.
pub proof fn lemma_one_lattice<T: UnsignedInt>(
    a: &Matrix<T>,
    b: &Vector<T>,
    l1: &AffineLattice<T>,
    l2: &AffineLattice<T>,
)
    requires
        is_lattice_of(l1, a, b),
        is_lattice_of(l2, a, b),
    ensures
        l1.offset.vals() == l2.offset.vals(),
        basis_vals(l1) == basis_vals(l2),
{
    let (d1, s1, t1, bp1, pre1) = choose|
        d: Matrix<T>,
        s: Matrix<T>,
        t: Matrix<T>,
        bp: Vector<T>,
        pre: AffineLattice<T>,
    | #[trigger] is_assembled(l1, a, b, &d, &s, &t, &bp, &pre);
    let (d2, s2, t2, bp2, pre2) = choose|
        d: Matrix<T>,
        s: Matrix<T>,
        t: Matrix<T>,
        bp: Vector<T>,
        pre: AffineLattice<T>,
    | #[trigger] is_assembled(l2, a, b, &d, &s, &t, &bp, &pre);
    lemma_one_diagonalization(a, &d1, &s1, &t1, &d2, &s2, &t2);
    lemma_same_entries(&d1, &d2);
    lemma_same_entries(&s1, &s2);
    lemma_same_entries(&t1, &t2);
    lemma_same_image(&s1, &s2, b, b, &bp1, &bp2);
    lemma_same_solution(&d1, &bp1, &d2, &bp2);
    assert(is_diagonal_solution(&pre1, &d1, &bp1));
    assert(is_diagonal_solution(&pre2, &d2, &bp2));
    assert(pre1.offset.vals().len() == pre1.offset@.len());
    assert(pre2.offset.vals().len() == pre2.offset@.len());
    if pre1.offset@.len() == 0 {
        assert(l1.offset.vals() =~= l2.offset.vals());
        assert(basis_vals(l1) =~= basis_vals(l2));
    } else {
        lemma_same_image(&t1, &t2, &pre1.offset, &pre2.offset, &l1.offset, &l2.offset);
        assert(basis_vals(&pre1).len() == pre1.basis@.len());
        assert(basis_vals(&pre2).len() == pre2.basis@.len());
        assert forall|j: int| 0 <= j < l1.basis@.len() implies basis_vals(l1)[j] == basis_vals(
            l2,
        )[j] by {
            assert(basis_vals(&pre1)[j] == pre1.basis@[j].vals());
            assert(basis_vals(&pre2)[j] == pre2.basis@[j].vals());
            assert(t1.is_image(&pre1.basis@[j], &l1.basis@[j]));
            assert(t2.is_image(&pre2.basis@[j], &l2.basis@[j]));
            lemma_same_image(
                &t1,
                &t2,
                &pre1.basis@[j],
                &pre2.basis@[j],
                &l1.basis@[j],
                &l2.basis@[j],
            );
        }
        assert(basis_vals(l1) =~= basis_vals(l2));
    }
}

} // verus!
