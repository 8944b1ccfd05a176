//! Systems of linear congruences with a diagonal matrix.

use vstd::prelude::*;
use crate::numbers::UnsignedInt;
use crate::matrix::Matrix;
use crate::vector::Vector;
use crate::lattice::AffineLattice;
use crate::systems::cong_seq;
use crate::congruence_solver::{
    solve_scalar_congruence, solves, lattice_point, is_solution_set, scalar_solution,
};
use crate::grids::short_side;
use crate::modular::{sum, cong, lemma_sum_single, lemma_sum_zero, lemma_mod_small};

verus! {

/// The entry at index `p` of the vector of the basis that belongs to the unknown `p`,
/// or zero where none does. `idx` gives, for each unknown, the index of its vector
/// in the basis, or `-1`.
pub open spec fn generator_at<T: UnsignedInt>(l: &AffineLattice<T>, idx: Seq<int>, p: int) -> int {
    if idx[p] >= 0 {
        l.basis@[idx[p]].val_at(p)
    } else {
        0
    }
}

/// Whether each vector of the basis belongs to one unknown before `n`, given by
/// `pos`, and is zero at the others, and the offset is zero from `n` on.
pub open spec fn placed<T: UnsignedInt>(
    l: &AffineLattice<T>,
    idx: Seq<int>,
    pos: Seq<int>,
    n: int,
    cols: int,
) -> bool {
    &&& l.offset@.len() == cols
    &&& idx.len() == cols
    &&& pos.len() == l.basis@.len()
    &&& l.wf()
    &&& forall|p: int| 0 <= p < cols ==> -1 <= #[trigger] idx[p] < pos.len()
    &&& forall|p: int| 0 <= p < cols && #[trigger] idx[p] >= 0 ==> pos[idx[p]] == p
    &&& forall|p: int| n <= p < cols ==> #[trigger] idx[p] == -1 && l.offset.val_at(p) == 0
    &&& forall|j: int| 0 <= j < pos.len() ==> 0 <= #[trigger] pos[j] < n && idx[pos[j]] == j
    &&& forall|j: int, q: int|
        0 <= j < pos.len() && 0 <= q < cols && q != pos[j] ==> #[trigger] l.basis@[j].val_at(q)
            == 0
}

/// Whether, for each unknown before `n`, the entry of the offset and the generator
/// give the solutions of its congruence; an unknown without a congruence has the
/// offset zero and the generator one.
pub open spec fn solved_upto<T: UnsignedInt>(
    d: &Matrix<T>,
    bp: &Vector<T>,
    l: &AffineLattice<T>,
    idx: Seq<int>,
    n: int,
) -> bool {
    &&& forall|p: int|
        0 <= p < n && p < d.rows ==> is_solution_set::<T>(
            d.val_at(p, p),
            bp.val_at(p),
            #[trigger] l.offset.val_at(p),
            generator_at(l, idx, p),
        )
    &&& forall|p: int|
        d.rows <= p < n ==> #[trigger] l.offset.val_at(p) == 0 && generator_at(l, idx, p) == 1
}

/// The sum of a row of a diagonal matrix with `y` is its diagonal entry times the
/// member of `y` that it meets.
pub proof fn lemma_apply_diagonal<T: UnsignedInt>(d: &Matrix<T>, y: Seq<int>, r: int)
    requires
        d.is_diagonal(),
        0 <= r < d.rows,
    ensures
        d.apply_at(y, r) == if r < d.cols {
            d.val_at(r, r) * y[r]
        } else {
            0
        },
{
    let f = d.apply_terms(y, r);
    assert forall|k: int| 0 <= k < d.cols && k != r implies #[trigger] f(k) == 0 by {
        assert(d.val_at(r, k) == 0);
        assert(0 * y[k] == 0);
    }
    if r < d.cols {
        lemma_sum_single(f, d.cols as int, r);
    } else {
        lemma_sum_zero(f, d.cols as int);
    }
}

/// The entry at index `p` of a point is the entry of the offset plus the
/// coefficient times the generator of the unknown `p`.
pub proof fn lemma_point_at<T: UnsignedInt>(
    l: &AffineLattice<T>,
    idx: Seq<int>,
    pos: Seq<int>,
    cs: Seq<int>,
    p: int,
)
    requires
        placed(l, idx, pos, l.offset@.len() as int, l.offset@.len() as int),
        0 <= p < l.offset@.len(),
    ensures
        l.point_at(cs, p) == l.offset.val_at(p) + (if idx[p] >= 0 {
            cs[idx[p]] * generator_at(l, idx, p)
        } else {
            0
        }),
{
    let f = l.combination_terms(cs, p);
    let nb = l.basis@.len() as int;
    assert forall|j: int| 0 <= j < nb && j != idx[p] implies #[trigger] f(j) == 0 by {
        assert(idx[pos[j]] == j);
        assert(pos[j] != p);
        assert(l.basis@[j].val_at(p) == 0);
        assert(cs[j] * 0 == 0);
    }
    if idx[p] >= 0 {
        lemma_sum_single(f, nb, idx[p]);
    } else {
        lemma_sum_zero(f, nb);
    }
}

/// Where the lattice holds the solutions of each congruence of a diagonal system,
/// its points are the solutions of the system.
pub proof fn lemma_diagonal_solutions<T: UnsignedInt>(
    d: &Matrix<T>,
    bp: &Vector<T>,
    l: &AffineLattice<T>,
    idx: Seq<int>,
    pos: Seq<int>,
)
    requires
        d.wf(),
        d.is_diagonal(),
        bp@.len() == d.rows,
        placed(l, idx, pos, d.cols as int, d.cols as int),
        solved_upto(d, bp, l, idx, d.cols as int),
        forall|r: int| d.cols <= r < d.rows ==> bp.val_at(r) == 0,
    ensures
        forall|cs: Seq<int>|
            cs.len() == l.basis@.len() ==> d.solved_by(#[trigger] l.point(cs), bp.vals()),
        forall|y: Seq<int>| #[trigger] d.solved_by(y, bp.vals()) ==> l.contains(y),
{
    let md = T::modulus();
    T::lemma_modulus();
    assert forall|cs: Seq<int>| cs.len() == l.basis@.len() implies d.solved_by(
        #[trigger] l.point(cs),
        bp.vals(),
    ) by {
        let y = l.point(cs);
        assert forall|r: int| 0 <= r < d.rows implies cong(
            #[trigger] d.apply_at(y, r),
            bp.vals()[r],
            md,
        ) by {
            lemma_apply_diagonal(d, y, r);
            if r < d.cols {
                lemma_point_at(l, idx, pos, cs, r);
                let c = if idx[r] >= 0 {
                    cs[idx[r]]
                } else {
                    0
                };
                let o = l.offset.val_at(r);
                assert(is_solution_set::<T>(
                    d.val_at(r, r),
                    bp.val_at(r),
                    o,
                    generator_at(l, idx, r),
                ));
                assert(y[r] == lattice_point(o, generator_at(l, idx, r), c)) by {
                    assert(0 * generator_at(l, idx, r) == 0);
                }
                assert(solves::<T>(
                    d.val_at(r, r),
                    lattice_point(o, generator_at(l, idx, r), c),
                    bp.val_at(r),
                ));
            }
        }
    }
    assert forall|y: Seq<int>| #[trigger] d.solved_by(y, bp.vals()) implies l.contains(y) by {
        // A coefficient for each unknown.
        let e = |p: int|
            if p < d.rows {
                choose|t: int|
                    cong(
                        #[trigger] lattice_point(l.offset.val_at(p), generator_at(l, idx, p), t),
                        y[p],
                        md,
                    )
            } else {
                y[p]
            };
        let cs = Seq::new(l.basis@.len(), |j: int| e(pos[j]));
        assert forall|p: int| 0 <= p < d.cols implies cong(#[trigger] l.point(cs)[p], y[p], md) by {
            lemma_point_at(l, idx, pos, cs, p);
            let o = l.offset.val_at(p);
            let g = generator_at(l, idx, p);
            if p < d.rows {
                lemma_apply_diagonal(d, y, p);
                assert(cong(d.apply_at(y, p), bp.vals()[p], md));
                assert(solves::<T>(d.val_at(p, p), y[p], bp.val_at(p)));
                assert(is_solution_set::<T>(d.val_at(p, p), bp.val_at(p), o, g));
                let t = e(p);
                assert(cong(lattice_point(o, g, t), y[p], md));
                if idx[p] >= 0 {
                    assert(cs[idx[p]] == e(pos[idx[p]]));
                } else {
                    assert(t * 0 == 0);
                }
            } else {
                assert(o == 0 && g == 1);
                assert(cs[idx[p]] == e(pos[idx[p]]));
                assert(y[p] * 1 == y[p]);
            }
        }
        assert(cong_seq(l.point(cs), y, md));
    }
}

/// A basis is still placed when the offset changes at the unknown `n`.
proof fn lemma_placed_next<T: UnsignedInt>(
    l0: &AffineLattice<T>,
    l1: &AffineLattice<T>,
    idx: Seq<int>,
    pos: Seq<int>,
    n: int,
    cols: int,
)
    requires
        placed(l0, idx, pos, n, cols),
        0 <= n < cols,
        l1.basis@ == l0.basis@,
        l1.offset@.len() == cols,
        forall|p: int| 0 <= p < cols && p != n ==> l1.offset@[p] == l0.offset@[p],
    ensures
        placed(l1, idx, pos, n + 1, cols),
{
    assert forall|p: int| n + 1 <= p < cols implies #[trigger] idx[p] == -1 && l1.offset.val_at(p)
        == 0 by {
        assert(idx[p] == -1);
        assert(l1.offset@[p] == l0.offset@[p]);
        assert(l0.offset.val_at(p) == 0);
    }
    assert forall|j: int| 0 <= j < pos.len() implies 0 <= #[trigger] pos[j] < n + 1
        && idx[pos[j]] == j by {}
    assert forall|j: int, q: int|
        0 <= j < pos.len() && 0 <= q < cols && q != pos[j] implies #[trigger] l1.basis@[j].val_at(
        q,
    ) == 0 by {
        assert(l0.basis@[j].val_at(q) == 0);
    }
    assert forall|j: int| 0 <= j < l1.basis@.len() implies (#[trigger] l1.basis@[j])@.len()
        == l1.offset@.len() by {
        assert(l0.basis@[j]@.len() == l0.offset@.len());
    }
}

/// A basis is still placed when the offset changes at the unknown `n` and a vector
/// that is zero but at `n` joins the basis.
proof fn lemma_placed_push<T: UnsignedInt>(
    l0: &AffineLattice<T>,
    l1: &AffineLattice<T>,
    idx: Seq<int>,
    pos: Seq<int>,
    n: int,
    cols: int,
    v: Vector<T>,
)
    requires
        placed(l0, idx, pos, n, cols),
        0 <= n < cols,
        l1.basis@ == l0.basis@.push(v),
        v@.len() == cols,
        forall|q: int| 0 <= q < cols && q != n ==> v.val_at(q) == 0,
        l1.offset@.len() == cols,
        forall|p: int| 0 <= p < cols && p != n ==> l1.offset@[p] == l0.offset@[p],
    ensures
        placed(l1, idx.update(n, pos.len() as int), pos.push(n), n + 1, cols),
{
    let idx1 = idx.update(n, pos.len() as int);
    let pos1 = pos.push(n);
    assert(idx[n] == -1);
    assert forall|p: int| 0 <= p < cols implies -1 <= #[trigger] idx1[p] < pos1.len() by {
        if p != n {
            assert(idx1[p] == idx[p]);
        }
    }
    assert forall|p: int| 0 <= p < cols && #[trigger] idx1[p] >= 0 implies pos1[idx1[p]] == p by {
        if p != n {
            assert(idx1[p] == idx[p]);
            assert(pos[idx[p]] == p);
        }
    }
    assert forall|p: int| n + 1 <= p < cols implies #[trigger] idx1[p] == -1 && l1.offset.val_at(
        p,
    ) == 0 by {
        assert(idx1[p] == idx[p]);
        assert(l1.offset@[p] == l0.offset@[p]);
        assert(l0.offset.val_at(p) == 0);
    }
    assert forall|j: int| 0 <= j < pos1.len() implies 0 <= #[trigger] pos1[j] < n + 1
        && idx1[pos1[j]] == j by {
        if j < pos.len() {
            assert(pos1[j] == pos[j]);
            assert(0 <= pos[j] < n);
            assert(idx[pos[j]] == j);
        }
    }
    assert forall|j: int, q: int|
        0 <= j < pos1.len() && 0 <= q < cols && q != pos1[j] implies #[trigger] l1.basis@[j].val_at(
        q,
    ) == 0 by {
        if j < pos.len() {
            assert(pos1[j] == pos[j]);
            assert(l1.basis@[j] == l0.basis@[j]);
            assert(l0.basis@[j].val_at(q) == 0);
        } else {
            assert(l1.basis@[j] == v);
        }
    }
    assert forall|j: int| 0 <= j < l1.basis@.len() implies (#[trigger] l1.basis@[j])@.len()
        == l1.offset@.len() by {
        if j < pos.len() {
            assert(l1.basis@[j] == l0.basis@[j]);
            assert(l0.basis@[j]@.len() == l0.offset@.len());
        }
    }
}

/// The numbers of a vector of `len` entries with `k` at index `i` and zero at the
/// others.
pub open spec fn unit(len: int, i: int, k: int) -> Seq<int> {
    Seq::new(
        len as nat,
        |q: int|
            if q == i {
                k
            } else {
                0int
            },
    )
}

/// The vectors of the basis of a lattice, as numbers.
pub open spec fn basis_vals<T: UnsignedInt>(l: &AffineLattice<T>) -> Seq<Seq<int>> {
    Seq::new(l.basis@.len(), |j: int| l.basis@[j].vals())
}

/// The offset and the basis that the first `i` congruences of the diagonal system
/// give, or none where one of them has no solution: the offset holds the solution
/// of each, as the division chain gives it, and the basis holds, for each whose
/// second number is not zero, the vector with that number at its unknown, in the
/// order of the unknowns.
pub open spec fn solved_part<T: UnsignedInt>(d: &Matrix<T>, bp: &Vector<T>, i: int) -> Option<
    (Seq<int>, Seq<Seq<int>>),
>
    decreases i,
{
    if i <= 0 {
        Some((unit(d.cols as int, -1, 0), Seq::empty()))
    } else {
        match solved_part(d, bp, i - 1) {
            None => None,
            Some((o, b)) => match scalar_solution(
                d.val_at(i - 1, i - 1),
                bp.val_at(i - 1),
                T::modulus(),
            ) {
                None => None,
                Some((x, k)) => Some(
                    (
                        o.update(i - 1, x),
                        if k != 0 {
                            b.push(unit(d.cols as int, i - 1, k))
                        } else {
                            b
                        },
                    ),
                ),
            },
        }
    }
}

/// The basis `b` and, for each unknown from `from` up to `i`, the vector with one at
/// that unknown.
pub open spec fn with_free(b: Seq<Seq<int>>, cols: int, from: int, i: int) -> Seq<Seq<int>>
    decreases i - from,
{
    if i <= from {
        b
    } else {
        with_free(b, cols, from, i - 1).push(unit(cols, i - 1, 1))
    }
}

/// Whether a row without an unknown has a right-hand side that is not zero.
pub open spec fn has_excess<T: UnsignedInt>(d: &Matrix<T>, bp: &Vector<T>) -> bool {
    exists|r: int| short_side(d) <= r < d.rows && #[trigger] bp.val_at(r) != 0
}

/// The offset and the basis of the solutions of the diagonal system, or none where
/// it has no solution: those of its congruences, and a vector with one at each
/// unknown that has no congruence.
pub open spec fn diagonal_solution<T: UnsignedInt>(d: &Matrix<T>, bp: &Vector<T>) -> Option<
    (Seq<int>, Seq<Seq<int>>),
> {
    if has_excess(d, bp) {
        None
    } else {
        match solved_part(d, bp, short_side(d)) {
            None => None,
            Some((o, b)) => Some((o, with_free(b, d.cols as int, short_side(d), d.cols as int))),
        }
    }
}

/// Whether the lattice `l` has the offset and the basis of the solutions of the
/// diagonal system, or is the empty one where it has none.
pub open spec fn is_diagonal_solution<T: UnsignedInt>(
    l: &AffineLattice<T>,
    d: &Matrix<T>,
    bp: &Vector<T>,
) -> bool {
    match diagonal_solution(d, bp) {
        None => l.offset@.len() == 0 && l.basis@.len() == 0,
        Some((o, b)) => l.offset.vals() == o && basis_vals(l) == b,
    }
}

/// Where one of the first congruences has no solution, the system has none.
pub proof fn lemma_part_none<T: UnsignedInt>(d: &Matrix<T>, bp: &Vector<T>, i: int, n: int)
    requires
        0 <= i <= n,
        solved_part(d, bp, i) is None,
    ensures
        solved_part(d, bp, n) is None,
    decreases n - i,
{
    if i < n {
        lemma_part_none(d, bp, i, n - 1);
    }
}

/// A zero vector with one entry set is a unit vector.
pub proof fn lemma_unit_vals<T: UnsignedInt>(z: &Vector<T>, v: &Vector<T>, i: int, k: T)
    requires
        z.spec_is_zero(),
        0 <= i < z@.len(),
        v@ == z@.update(i, k),
    ensures
        v.vals() == unit(z@.len() as int, i, k.val()),
{
    assert forall|q: int| 0 <= q < z@.len() implies #[trigger] v.vals()[q] == unit(
        z@.len() as int,
        i,
        k.val(),
    )[q] by {
        if q != i {
            assert(v@[q] == z@[q]);
            assert(z.val_at(q) == 0);
        }
    }
    assert(v.vals() =~= unit(z@.len() as int, i, k.val()));
}

/// The basis with one vector more, as numbers.
pub proof fn lemma_basis_push<T: UnsignedInt>(
    l0: &AffineLattice<T>,
    l: &AffineLattice<T>,
    v: &Vector<T>,
)
    requires
        l.basis@ == l0.basis@.push(*v),
    ensures
        basis_vals(l) == basis_vals(l0).push(v.vals()),
{
    assert(basis_vals(l) =~= basis_vals(l0).push(v.vals()));
}

/// The offset with one entry set, as numbers.
pub proof fn lemma_offset_set<T: UnsignedInt>(o0: &Vector<T>, o: &Vector<T>, i: int, x: T)
    requires
        0 <= i < o0@.len(),
        o@ == o0@.update(i, x),
    ensures
        o.vals() == o0.vals().update(i, x.val()),
{
    assert(o.vals() =~= o0.vals().update(i, x.val()));
}

/// The solutions of the system of the diagonal matrix `d` with the right-hand sides
/// `bp`: the empty lattice where there is none, or no unknown.
pub fn solve_diagonal<T: UnsignedInt>(d: &Matrix<T>, bp: &Vector<T>) -> (l: AffineLattice<T>)
    requires
        d.wf(),
        d.is_diagonal(),
        bp@.len() == d.rows,
    ensures
        is_diagonal_solution(&l, d, bp),
        l.wf(),
        l.offset@.len() == 0 || l.offset@.len() == d.cols,
        l.offset@.len() == 0 && d.cols > 0 ==> forall|y: Seq<int>| !d.solved_by(y, bp.vals()),
        l.offset@.len() > 0 ==> forall|cs: Seq<int>|
            cs.len() == l.basis@.len() ==> d.solved_by(#[trigger] l.point(cs), bp.vals()),
        l.offset@.len() > 0 ==> forall|y: Seq<int>| #[trigger]
            d.solved_by(y, bp.vals()) ==> l.contains(y),
{
    let n: usize = d.min_dim();
    proof {
        T::lemma_modulus();
    }
    // A congruence without unknowns has a solution only where its right-hand side
    // is zero.
    let mut r: usize = n;
    while r < d.rows
        invariant
            d.wf(),
            d.is_diagonal(),
            bp@.len() == d.rows,
            n <= r,
            n == if d.rows <= d.cols { d.rows } else { d.cols },
            forall|r2: int| n <= r2 < r ==> bp.val_at(r2) == 0,
        decreases d.rows - r,
    {
        if !bp.entry(r).eq(T::zero()) {
            proof {
                assert(bp.val_at(r as int) != 0);
                assert(has_excess(d, bp));
                assert forall|y: Seq<int>| !d.solved_by(y, bp.vals()) by {
                    if d.solved_by(y, bp.vals()) {
                        lemma_apply_diagonal(d, y, r as int);
                        assert(cong(d.apply_at(y, r as int), bp.vals()[r as int], T::modulus()));
                        bp@[r as int].lemma_val_bound();
                        lemma_mod_small(bp.val_at(r as int), T::modulus());
                        lemma_mod_small(0, T::modulus());
                        assert(false);
                    }
                }
            }
            return AffineLattice::empty();
        }
        r += 1;
    }
    let mut l = AffineLattice::<T> { offset: Vector::zero(d.cols), basis: Vec::new() };
    let ghost mut idx: Seq<int> = Seq::new(d.cols as nat, |p: int| -1int);
    let ghost mut pos: Seq<int> = Seq::empty();
    proof {
        assert(!has_excess(d, bp));
        assert(l.offset.vals() =~= unit(d.cols as int, -1, 0));
        assert(basis_vals(&l) =~= Seq::<Seq<int>>::empty());
    }
    let mut i: usize = 0;
    while i < n
        invariant
            d.wf(),
            d.is_diagonal(),
            bp@.len() == d.rows,
            i <= n,
            n == if d.rows <= d.cols { d.rows } else { d.cols },
            placed(&l, idx, pos, i as int, d.cols as int),
            solved_upto(d, bp, &l, idx, i as int),
            !has_excess(d, bp),
            solved_part(d, bp, i as int) == Some((l.offset.vals(), basis_vals(&l))),
        decreases n - i,
    {
        let ghost l0 = l;
        let ghost idx0 = idx;
        match solve_scalar_congruence(*d.entry(i, i), *bp.entry(i)) {
            None => {
                proof {
                    assert(solved_part(d, bp, i + 1) is None);
                    lemma_part_none(d, bp, i + 1, n as int);
                    assert forall|y: Seq<int>| !d.solved_by(y, bp.vals()) by {
                        if d.solved_by(y, bp.vals()) {
                            lemma_apply_diagonal(d, y, i as int);
                            assert(cong(
                                d.apply_at(y, i as int),
                                bp.vals()[i as int],
                                T::modulus(),
                            ));
                            assert(solves::<T>(
                                d.val_at(i as int, i as int),
                                y[i as int],
                                bp.val_at(i as int),
                            ));
                            assert(false);
                        }
                    }
                }
                return AffineLattice::empty();
            },
            Some((x, kern)) => {
                l.offset.set(i, x);
                if !kern.eq(T::zero()) {
                    let mut v = Vector::<T>::zero(d.cols);
                    let ghost z = v;
                    v.set(i, kern);
                    let ghost gv = v;
                    l.basis.push(v);
                    proof {
                        assert(basis_vals(&l) == basis_vals(&l0).push(
                            unit(d.cols as int, i as int, kern.val()),
                        )) by {
                            lemma_unit_vals(&z, &gv, i as int, kern);
                            lemma_basis_push(&l0, &l, &gv);
                        }
                        assert forall|q: int| 0 <= q < d.cols && q != i implies gv.val_at(q)
                            == 0 by {
                            assert(gv@[q] == z@[q]);
                            assert(z.val_at(q) == 0);
                        }
                        lemma_placed_push(&l0, &l, idx, pos, i as int, d.cols as int, gv);
                        idx = idx.update(i as int, pos.len() as int);
                        pos = pos.push(i as int);
                    }
                } else {
                    proof {
                        lemma_placed_next(&l0, &l, idx, pos, i as int, d.cols as int);
                        assert(idx0[i as int] == -1);
                        assert(basis_vals(&l) == basis_vals(&l0));
                    }
                }
                proof {
                    assert(l.offset.vals() == l0.offset.vals().update(i as int, x.val())) by {
                        lemma_offset_set(&l0.offset, &l.offset, i as int, x);
                    }
                    assert forall|j: int| 0 <= j < l0.basis@.len() implies #[trigger] l.basis@[j]
                        == l0.basis@[j] by {}
                    assert forall|p: int| 0 <= p < d.cols && p != i implies #[trigger] l.offset.val_at(
                        p,
                    ) == l0.offset.val_at(p) && generator_at(&l, idx, p) == generator_at(
                        &l0,
                        idx0,
                        p,
                    ) by {
                        assert(l.offset@[p] == l0.offset@[p]);
                        if idx0[p] >= 0 {
                            assert(l.basis@[idx0[p]] == l0.basis@[idx0[p]]);
                        }
                    }
                    assert(generator_at(&l, idx, i as int) == kern.val());
                    assert(placed(&l, idx, pos, i + 1, d.cols as int));
                    assert forall|p: int| 0 <= p < i + 1 && p < d.rows implies is_solution_set::<T>(
                        d.val_at(p, p),
                        bp.val_at(p),
                        #[trigger] l.offset.val_at(p),
                        generator_at(&l, idx, p),
                    ) by {
                        if p < i {
                            assert(is_solution_set::<T>(
                                d.val_at(p, p),
                                bp.val_at(p),
                                l0.offset.val_at(p),
                                generator_at(&l0, idx0, p),
                            ));
                        }
                    }
                }
            },
        }
        i += 1;
    }
    // An unknown without a congruence is free.
    let ghost o1 = l.offset.vals();
    let ghost b1 = basis_vals(&l);
    let mut i: usize = if d.rows <= d.cols { d.rows } else { d.cols };
    while i < d.cols
        invariant
            d.wf(),
            d.is_diagonal(),
            bp@.len() == d.rows,
            n <= i <= d.cols,
            i >= d.rows || i == d.cols,
            n == if d.rows <= d.cols { d.rows } else { d.cols },
            placed(&l, idx, pos, i as int, d.cols as int),
            solved_upto(d, bp, &l, idx, i as int),
            !has_excess(d, bp),
            solved_part(d, bp, n as int) == Some((o1, b1)),
            l.offset.vals() == o1,
            basis_vals(&l) == with_free(b1, d.cols as int, n as int, i as int),
        decreases d.cols - i,
    {
        let ghost l0 = l;
        let ghost idx0 = idx;
        let mut v = Vector::<T>::zero(d.cols);
        let ghost z = v;
        let one: T = T::one();
        v.set(i, one);
        let ghost gv = v;
        l.basis.push(v);
        proof {
            assert(basis_vals(&l) == with_free(b1, d.cols as int, n as int, i + 1)) by {
                lemma_unit_vals(&z, &gv, i as int, one);
                lemma_basis_push(&l0, &l, &gv);
            }
            assert forall|q: int| 0 <= q < d.cols && q != i implies gv.val_at(q) == 0 by {
                assert(gv@[q] == z@[q]);
                assert(z.val_at(q) == 0);
            }
            lemma_placed_push(&l0, &l, idx, pos, i as int, d.cols as int, gv);
            assert(idx0[i as int] == -1);
            assert(l0.offset.val_at(i as int) == 0);
            idx = idx.update(i as int, pos.len() as int);
            pos = pos.push(i as int);
            assert forall|j: int| 0 <= j < l0.basis@.len() implies #[trigger] l.basis@[j]
                == l0.basis@[j] by {}
            assert forall|p: int| 0 <= p < d.cols && p != i implies generator_at(&l, idx, p)
                == #[trigger] generator_at(&l0, idx0, p) by {
                if idx0[p] >= 0 {
                    assert(l.basis@[idx0[p]] == l0.basis@[idx0[p]]);
                }
            }
            assert(generator_at(&l, idx, i as int) == 1);
            assert(placed(&l, idx, pos, i + 1, d.cols as int));
            assert forall|p: int| 0 <= p < i + 1 && p < d.rows implies is_solution_set::<T>(
                d.val_at(p, p),
                bp.val_at(p),
                #[trigger] l.offset.val_at(p),
                generator_at(&l, idx, p),
            ) by {
                assert(is_solution_set::<T>(
                    d.val_at(p, p),
                    bp.val_at(p),
                    l0.offset.val_at(p),
                    generator_at(&l0, idx0, p),
                ));
                assert(generator_at(&l, idx, p) == generator_at(&l0, idx0, p));
            }
            assert forall|p: int| d.rows <= p < i + 1 implies #[trigger] l.offset.val_at(p) == 0
                && generator_at(&l, idx, p) == 1 by {
                if p < i {
                    assert(solved_upto(d, bp, &l0, idx0, i as int));
                    assert(l0.offset.val_at(p) == 0 && generator_at(&l0, idx0, p) == 1);
                    assert(generator_at(&l, idx, p) == generator_at(&l0, idx0, p));
                    assert(l.offset.val_at(p) == l0.offset.val_at(p));
                }
            }
        }
        i += 1;
    }
    proof {
        lemma_diagonal_solutions(d, bp, &l, idx, pos);
    }
    l
}

} // verus!
