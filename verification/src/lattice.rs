//! Affine lattices: the sets of solutions of systems of linear congruences.

use vstd::prelude::*;
use crate::numbers::UnsignedInt;
use crate::matrix::Matrix;
use crate::vector::Vector;
use crate::systems::cong_seq;
use crate::modular::{
    sum, cong, inner_sums, outer_sums, lemma_cong_ops, lemma_cong_mod, lemma_sum_cong,
    lemma_sum_add, lemma_sum_scale, lemma_sum_exchange,
};

verus! {

/// The set of the vectors `offset + a_1 * b_1 + ... + a_n * b_n` for ring elements
/// `a_i` and the vectors `b_i` of `basis`. An offset of dimension zero stands for the
/// empty set.
pub struct AffineLattice<T> {
    pub offset: Vector<T>,
    pub basis: Vec<Vector<T>>,
}

impl<T> AffineLattice<T> {
    /// The empty lattice.
    pub fn empty() -> (l: Self)
        ensures
            l.offset@.len() == 0,
            l.basis@.len() == 0,
    {
        Self { offset: Vector::empty(), basis: Vec::new() }
    }

    /// Whether the lattice is the empty one.
    pub fn is_empty(&self) -> (b: bool)
        ensures
            b == (self.offset@.len() == 0),
    {
        self.offset.is_empty()
    }

    /// Whether the vectors of the basis have the dimension of the offset.
    pub open spec fn wf(&self) -> bool {
        forall|j: int|
            0 <= j < self.basis@.len() ==> (#[trigger] self.basis@[j])@.len() == self.offset@.len()
    }
}

impl<T: UnsignedInt> AffineLattice<T> {
    /// The products of the coefficients `cs` with the entries at index `q` of the
    /// vectors of the basis.
    pub open spec fn combination_terms(&self, cs: Seq<int>, q: int) -> spec_fn(int) -> int {
        |j: int| cs[j] * self.basis@[j].val_at(q)
    }

    /// The entry at index `q` of the point with the coefficients `cs`, over the
    /// integers.
    pub open spec fn point_at(&self, cs: Seq<int>, q: int) -> int {
        self.offset.val_at(q) + sum(self.combination_terms(cs, q), self.basis@.len() as int)
    }

    /// The point with the coefficients `cs`, over the integers.
    pub open spec fn point(&self, cs: Seq<int>) -> Seq<int> {
        Seq::new(self.offset@.len(), |q: int| self.point_at(cs, q))
    }

    /// Whether the numbers `x` are, over the ring, a point of the lattice.
    pub open spec fn contains(&self, x: Seq<int>) -> bool {
        exists|cs: Seq<int>|
            cs.len() == self.basis@.len() && cong_seq(#[trigger] self.point(cs), x, T::modulus())
    }

    /// Whether the offset and the vectors of the basis are the products of `t` with
    /// those of `pre`.
    pub open spec fn is_image_of(&self, t: &Matrix<T>, pre: &AffineLattice<T>) -> bool {
        &&& t.is_image(&pre.offset, &self.offset)
        &&& self.basis@.len() == pre.basis@.len()
        &&& forall|j: int|
            0 <= j < pre.basis@.len() ==> t.is_image(&pre.basis@[j], #[trigger] &self.basis@[j])
    }
}

/// The product of a matrix with a point of a lattice is, over the ring, the point
/// with the same coefficients of the lattice of the products.
pub proof fn lemma_image_of_point<T: UnsignedInt>(
    t: &Matrix<T>,
    pre: &AffineLattice<T>,
    post: &AffineLattice<T>,
    cs: Seq<int>,
)
    requires
        pre.wf(),
        pre.offset@.len() == t.cols,
        post.is_image_of(t, pre),
    ensures
        cong_seq(t.apply(pre.point(cs)), post.point(cs), T::modulus()),
{
    let md = T::modulus();
    T::lemma_modulus();
    let n = t.cols as int;
    let nb = pre.basis@.len() as int;
    let y = pre.point(cs);
    assert forall|q: int| 0 <= q < t.rows implies cong(
        #[trigger] t.apply(y)[q],
        post.point(cs)[q],
        md,
    ) by {
        // The terms of the product, split into those of the offset and those of
        // the basis.
        let f = t.apply_terms(y, q);
        let fo = t.apply_terms(pre.offset.vals(), q);
        let g = |k: int, j: int| cs[j] * (t.val_at(q, k) * pre.basis@[j].val_at(k));
        let fb = inner_sums(g, nb);
        assert forall|k: int| 0 <= k < n implies #[trigger] f(k) == fo(k) + fb(k) by {
            let c = pre.combination_terms(cs, k);
            let gk = |j: int| g(k, j);
            assert forall|j: int| 0 <= j < nb implies #[trigger] gk(j) == t.val_at(q, k) * c(
                j,
            ) by {
                assert(cs[j] * (t.val_at(q, k) * pre.basis@[j].val_at(k)) == t.val_at(q, k) * (
                cs[j] * pre.basis@[j].val_at(k))) by (nonlinear_arith);
            }
            lemma_sum_scale(c, gk, t.val_at(q, k), nb);
            assert(y[k] == pre.offset.val_at(k) + sum(c, nb));
            assert(pre.offset.vals()[k] == pre.offset.val_at(k));
            assert(t.val_at(q, k) * (pre.offset.val_at(k) + sum(c, nb)) == t.val_at(q, k)
                * pre.offset.val_at(k) + t.val_at(q, k) * sum(c, nb)) by (nonlinear_arith);
        }
        lemma_sum_add(fo, fb, f, n);
        lemma_sum_exchange(g, n, nb);
        // The sums over the rows of `t`, for each vector of the basis.
        let h = outer_sums(g, n);
        let p = post.combination_terms(cs, q);
        assert forall|j: int| 0 <= j < nb implies cong(#[trigger] h(j), p(j), md) by {
            let v = pre.basis@[j];
            let tv = t.apply_terms(v.vals(), q);
            let gj = |k: int| g(k, j);
            assert forall|k: int| 0 <= k < n implies #[trigger] gj(k) == cs[j] * tv(k) by {
                assert(v.vals()[k] == v.val_at(k));
            }
            lemma_sum_scale(tv, gj, cs[j], n);
            assert(post.basis@[j].val_at(q) == t.apply_at(v.vals(), q) % md);
            lemma_cong_mod(t.apply_at(v.vals(), q), md);
            lemma_cong_ops(cs[j], cs[j], t.apply_at(v.vals(), q), post.basis@[j].val_at(q), md);
        }
        lemma_sum_cong(h, p, nb, md);
        assert(post.offset.val_at(q) == t.apply_at(pre.offset.vals(), q) % md);
        lemma_cong_mod(t.apply_at(pre.offset.vals(), q), md);
        lemma_cong_ops(sum(fo, n), post.offset.val_at(q), sum(h, nb), sum(p, nb), md);
    }
}

impl<T: UnsignedInt> AffineLattice<T> {
    /// The point of the lattice with the coefficients `coeffs`.
    pub fn sample(&self, coeffs: &Vec<T>) -> (x: Vector<T>)
        requires
            self.wf(),
            coeffs@.len() == self.basis@.len(),
        ensures
            cong_seq(
                x.vals(),
                self.point(Seq::new(coeffs@.len(), |j: int| coeffs@[j].val())),
                T::modulus(),
            ),
    {
        let ghost md = T::modulus();
        let ghost cs = Seq::new(coeffs@.len(), |j: int| coeffs@[j].val());
        let mut x = self.offset.copy();
        let mut j: usize = 0;
        proof {
            T::lemma_modulus();
        }
        while j < self.basis.len()
            invariant
                self.wf(),
                coeffs@.len() == self.basis@.len(),
                md == T::modulus(),
                md > 0,
                cs == Seq::new(coeffs@.len(), |j: int| coeffs@[j].val()),
                j <= self.basis@.len(),
                x@.len() == self.offset@.len(),
                forall|q: int|
                    0 <= q < x@.len() ==> cong(
                        #[trigger] x.val_at(q),
                        self.offset.val_at(q) + sum(self.combination_terms(cs, q), j as int),
                        md,
                    ),
            decreases self.basis@.len() - j,
        {
            let ghost before = x;
            assert(self.basis@[j as int]@.len() == self.offset@.len());
            let v = self.basis[j].copy().mul(coeffs[j]);
            x.add_assign(&v);
            proof {
                assert forall|q: int| 0 <= q < x@.len() implies cong(
                    #[trigger] x.val_at(q),
                    self.offset.val_at(q) + sum(self.combination_terms(cs, q), j + 1),
                    md,
                ) by {
                    let f = self.combination_terms(cs, q);
                    let s = self.offset.val_at(q) + sum(f, j as int);
                    let t = self.basis@[j as int].val_at(q) * coeffs@[j as int].val();
                    assert(f(j as int) == cs[j as int] * self.basis@[j as int].val_at(q));
                    assert(cs[j as int] == coeffs@[j as int].val());
                    assert(cs[j as int] * self.basis@[j as int].val_at(q) == t)
                        by (nonlinear_arith)
                        requires
                            cs[j as int] == coeffs@[j as int].val(),
                            t == self.basis@[j as int].val_at(q) * coeffs@[j as int].val(),
                    ;
                    assert(cong(before.val_at(q), s, md));
                    lemma_cong_mod(t, md);
                    lemma_cong_ops(before.val_at(q), s, v.val_at(q), t, md);
                    lemma_cong_mod(before.val_at(q) + v.val_at(q), md);
                }
            }
            j += 1;
        }
        proof {
            assert forall|q: int| 0 <= q < x.vals().len() implies cong(
                #[trigger] x.vals()[q],
                self.point(cs)[q],
                md,
            ) by {
                assert(cong(
                    x.val_at(q),
                    self.offset.val_at(q) + sum(
                        self.combination_terms(cs, q),
                        self.basis@.len() as int,
                    ),
                    md,
                ));
            }
        }
        x
    }
}

impl<T: UnsignedInt> AffineLattice<T> {
    /// The lattice of the products of `t` with the offset and with the vectors of
    /// the basis.
    pub fn transformed(&self, t: &Matrix<T>) -> (l: Self)
        requires
            self.wf(),
            t.wf(),
            self.offset@.len() == t.cols,
        ensures
            l.is_image_of(t, self),
            l.wf(),
            l.offset@.len() == t.rows,
    {
        let offset = t.mul_vec(&self.offset);
        let mut basis: Vec<Vector<T>> = Vec::new();
        let mut j: usize = 0;
        while j < self.basis.len()
            invariant
                t.wf(),
                self.wf(),
                self.offset@.len() == t.cols,
                j <= self.basis@.len(),
                basis@.len() == j,
                forall|k: int| 0 <= k < j ==> t.is_image(&self.basis@[k], #[trigger] &basis@[k]),
            decreases self.basis@.len() - j,
        {
            proof {
                assert(self.basis@[j as int]@.len() == self.offset@.len());
            }
            let v = t.mul_vec(&self.basis[j]);
            basis.push(v);
            j += 1;
        }
        AffineLattice { offset, basis }
    }
}

} // verus!
