//! Polynomials that permute the ring, and their inverses.

use vstd::prelude::*;
use crate::numbers::{UnsignedInt, UniformNum};
use crate::polynomial::{Polynomial, coeff, poly_eval};
use crate::zero_ideal::ZeroIdeal;
use crate::reduction::{same_function, compose};
use crate::canonical::{
    is_canonical, canonical_for, composed, valued, lemma_canonical_for,
    lemma_canonical_unique, lemma_identity_canonical,
};
use crate::random::{random_element, random_between};
use crate::poly_parser::{parse_poly, PolyError};
use vstd::string::StringExecFns;
use crate::obfuscate::Bitness;
use crate::matrix::Matrix;
use crate::vector::Vector;
use crate::congruence_solver::solve_congruences;
use crate::bits::lemma_bit_and_one;
use crate::modular::{
    sum, cong, lemma_cong_ops, lemma_cong_mod, lemma_mod_small, lemma_sum_cong, lemma_sum_zero,
};
use crate::polynomial::{lemma_eval_push, lemma_eval_arg_cong};
use vstd::arithmetic::power::pow;

verus! {

/// The sum of every second coefficient, from index `from` on.
pub open spec fn stride_sum(c: Seq<int>, from: int) -> int
    decreases c.len() + 1 - from,
{
    if from < 0 || from >= c.len() {
        0
    } else {
        c[from] + stride_sum(c, from + 2)
    }
}

/// Whether the polynomial with the coefficients `c` permutes the ring: the
/// coefficient of `X` is odd, and the sums of the other coefficients of the even and
/// of the odd powers, from `X^2` on, are even.
pub open spec fn is_permutation(c: Seq<int>) -> bool {
    &&& coeff(c, 1) % 2 == 1
    &&& stride_sum(c, 2) % 2 == 0
    &&& stride_sum(c, 3) % 2 == 0
}

/// Whether `q(p(x)) = x`, in the ring, at every natural number `x`, and so on every
/// element of the ring.
pub open spec fn inverts(q: Seq<int>, p: Seq<int>, m: int) -> bool {
    forall|x: int| 0 <= x ==> cong(#[trigger] poly_eval(q, poly_eval(p, x)), x, m)
}

/// Whether the ring element is odd.
pub fn is_odd<T: UniformNum>(x: T) -> (b: bool)
    ensures
        b == (x.val() % 2 == 1),
{
    proof {
        x.lemma_val_bound();
        lemma_bit_and_one(x.val());
    }
    x.and(T::one()).eq(T::one())
}

/// The parity of a sum after the term `i`, where `acc` says whether it was even
/// before.
pub fn parity<T: UniformNum>(acc: bool, i: &T) -> (b: bool)
    ensures
        b == (acc != (i.val() % 2 == 1)),
{
    if is_odd(*i) {
        !acc
    } else {
        acc
    }
}

/// Whether every second coefficient from index `from` on sums to an even number.
pub fn stride_is_even<T: UniformNum>(f: &Polynomial<T>, from: usize) -> (b: bool)
    ensures
        b == (stride_sum(f@, from as int) % 2 == 0),
{
    let mut even: bool = true;
    let mut i: usize = from;
    let n: usize = f.coeffs.len();
    while i < n
        invariant
            n == f@.len(),
            from <= i,
            (stride_sum(f@, from as int) % 2 == 0) == (even == (stride_sum(f@, i as int) % 2
                == 0)),
        decreases n - i,
    {
        even = parity(even, &f.coeffs[i]);
        if n - i < 2 {
            assert(stride_sum(f@, i + 2) == 0);
            i = n;
        } else {
            i += 2;
        }
    }
    even
}

/// Whether the polynomial permutes the ring.
pub fn is_perm_poly<T: UniformNum>(f: &Polynomial<T>) -> (b: bool)
    ensures
        b == is_permutation(f@),
{
    if f.coeffs.len() < 2 {
        return false;
    }
    is_odd(f.coeffs[1]) && stride_is_even(f, 2) && stride_is_even(f, 3)
}

/// The polynomial `X`.
pub fn identity<T: UnsignedInt>() -> (p: Polynomial<T>)
    ensures
        p@ == seq![0int, 1int],
{
    let mut v: Vec<T> = Vec::new();
    v.push(T::zero());
    v.push(T::one());
    let p = Polynomial { coeffs: v };
    assert(p@ =~= seq![0int, 1int]);
    p
}

/// The value of the polynomial `X` is its argument.
pub proof fn lemma_identity_eval(x: int)
    ensures
        poly_eval(seq![0int, 1int], x) == x,
{
    let c = seq![0int, 1int];
    assert(c.drop_first() =~= seq![1int]);
    assert(seq![1int].drop_first() =~= Seq::<int>::empty());
    assert(poly_eval(Seq::<int>::empty(), x) == 0);
    assert(poly_eval(seq![1int], x) == 1 + x * 0);
    assert(x * 0 == 0);
    assert(x * 1 == x);
}

/// Whether `q` composed with `p`, reduced, is the polynomial `X`: whether `q`
/// inverts `p`, since `X` is the only polynomial in reduced form with its values.
pub fn composes_to_identity<T: UnsignedInt>(
    q: &Polynomial<T>,
    p: &Polynomial<T>,
    zi: &ZeroIdeal<T>,
) -> (b: bool)
    requires
        zi.wf(),
        p@.len() + 2 * zi.gen@.len() + 1 <= usize::MAX,
    ensures
        b == inverts(q@, p@, T::modulus()),
{
    let c0 = compose(q, p, zi);
    let ghost g0 = c0@;
    let c = c0.simplified(zi);
    let b = c.is_id();
    proof {
        let md = T::modulus();
        let x = seq![0int, 1int];
        c.lemma_bounds();
        lemma_identity_canonical(zi);
        if b {
            assert forall|y: int| 0 <= y implies cong(
                #[trigger] poly_eval(q@, poly_eval(p@, y)),
                y,
                md,
            ) by {
                lemma_identity_eval(y);
                assert(cong(poly_eval(c@, y), poly_eval(g0, y), md));
                assert(cong(poly_eval(g0, y), poly_eval(q@, poly_eval(p@, y)), md));
            }
        }
        if inverts(q@, p@, md) {
            assert forall|y: int| 0 <= y implies cong(
                #[trigger] poly_eval(c@, y),
                poly_eval(x, y),
                md,
            ) by {
                lemma_identity_eval(y);
                assert(cong(poly_eval(c@, y), poly_eval(g0, y), md));
                assert(cong(poly_eval(g0, y), poly_eval(q@, poly_eval(p@, y)), md));
                assert(cong(poly_eval(q@, poly_eval(p@, y)), y, md));
            }
            lemma_canonical_unique(zi, c@, x);
        }
    }
    b
}

/// The difference of two polynomials over the ring of `m` elements.
pub open spec fn difference(a: Seq<int>, b: Seq<int>, m: int) -> Seq<int> {
    Seq::new(
        if a.len() >= b.len() {
            a.len()
        } else {
            b.len()
        },
        |i: int| (coeff(a, i) - coeff(b, i)) % m,
    )
}

/// The derivative of a polynomial over the ring of `m` elements.
pub open spec fn derivative_of(c: Seq<int>, m: int) -> Seq<int> {
    Seq::new(
        if c.len() == 0 {
            0
        } else {
            (c.len() - 1) as nat
        },
        |i: int| ((i + 1) * c[i + 1]) % m,
    )
}

/// The product of two polynomials over the ring of `m` elements.
pub open spec fn product_of(a: Seq<int>, b: Seq<int>, m: int) -> Seq<int> {
    Seq::new(
        if a.len() == 0 || b.len() == 0 {
            0
        } else {
            (a.len() + b.len() - 1) as nat
        },
        |k: int| crate::polynomial::product_coeff(a, b, k, b.len() as int) % m,
    )
}

/// The guess after the guess `q` in Newton's method for the inverse of `p`:
/// `q - q' * (p(q) - X)`, in reduced form, with `p(q)` in reduced form.
pub open spec fn newton_next<T: UnsignedInt>(zi: &ZeroIdeal<T>, p: Seq<int>, q: Seq<int>) -> Seq<
    int,
> {
    let m = T::modulus();
    let rest = difference(canonical_for(zi, composed(p, q)), seq![0int, 1int], m);
    let step = product_of(derivative_of(q, m), rest, m);
    canonical_for(zi, valued(difference(q, step, m)))
}

/// The first of the guesses of Newton's method from `q` on, `steps` after it at
/// most, with `p(q) = X` on the ring.
pub open spec fn newton_from<T: UnsignedInt>(
    zi: &ZeroIdeal<T>,
    p: Seq<int>,
    q: Seq<int>,
    steps: nat,
) -> Option<Seq<int>>
    decreases steps,
{
    if inverts(p, q, T::modulus()) {
        Some(q)
    } else if steps == 0 {
        None
    } else {
        newton_from(zi, p, newton_next(zi, p, q), (steps - 1) as nat)
    }
}

/// Whether the result of a method is the polynomial with the coefficients that
/// `found` holds, or none where it holds none.
pub open spec fn is_result<T: UnsignedInt>(r: Option<Polynomial<T>>, found: Option<Seq<int>>) -> bool {
    match r {
        Some(q) => found == Some(q@),
        None => found is None,
    }
}

/// An inverse of `p` by Newton's method: from the guess `X` on, the guess `q` is
/// corrected by `q' * (p(q) - X)` until `p(q)` is `X`. The result is `None` where
/// that does not happen within twice as many steps as the ring has bits.
pub fn invert_newton<T: UnsignedInt>(p: &Polynomial<T>, zi: &ZeroIdeal<T>) -> (r: Option<
    Polynomial<T>,
>)
    requires
        zi.wf(),
    ensures
        is_result(r, newton_from(zi, p@, seq![0int, 1int], (2 * zi.n) as nat)),
        r matches Some(q) ==> inverts(p@, q@, T::modulus()) && q@.len() <= 2 * zi.gen@.len() + 2,
{
    proof {
        zi.lemma_generator_count();
    }
    let mut q = identity::<T>();
    let x = identity::<T>();
    let mut it: usize = 0;
    proof {
        T::lemma_modulus();
    }
    let limit: usize = 2 * zi.n;
    let ghost md = T::modulus();
    let ghost goal = newton_from(zi, p@, seq![0int, 1int], limit as nat);
    while it <= limit
        invariant
            zi.wf(),
            zi.gen@.len() <= 128,
            limit <= 256,
            it <= limit + 1,
            md == T::modulus(),
            x@ == seq![0int, 1int],
            q@.len() <= 2 * zi.gen@.len() || q@.len() == 2,
            limit == 2 * zi.n,
            goal == newton_from(zi, p@, seq![0int, 1int], limit as nat),
            it <= limit ==> goal == newton_from(zi, p@, q@, (limit - it) as nat),
            it > limit ==> goal is None,
        decreases limit + 1 - it,
    {
        // Do we already have p(q(x)) = x?
        if composes_to_identity(p, &q, zi) {
            return Some(q);
        }
        let ghost q0 = q@;
        let c0 = compose(p, &q, zi);
        let mut comp = c0.simplified(zi);
        proof {
            comp.lemma_bounds();
            let f = composed(p@, q0);
            assert forall|y: int| 0 <= y implies cong(#[trigger] poly_eval(comp@, y), f(y), md) by {
                assert(cong(poly_eval(comp@, y), poly_eval(c0@, y), md));
                assert(cong(poly_eval(c0@, y), poly_eval(p@, poly_eval(q0, y)), md));
            }
            lemma_canonical_for(zi, f, comp@);
        }
        // Subtract X: this is the quantity to make zero.
        comp.sub_assign(&x);
        // Update the guess.
        let qd = q.derivative();
        let step = qd.mul(&comp);
        q.sub_assign(&step);
        let ghost q2 = q@;
        q.simplify(zi);
        proof {
            let rest = difference(canonical_for(zi, composed(p@, q0)), seq![0int, 1int], md);
            assert(comp@ =~= rest);
            assert(qd@ =~= derivative_of(q0, md));
            assert(step@ =~= product_of(derivative_of(q0, md), rest, md));
            assert(q2 =~= difference(q0, step@, md));
            q.lemma_bounds();
            let f = valued(q2);
            assert forall|y: int| 0 <= y implies cong(#[trigger] poly_eval(q@, y), f(y), md) by {
                assert(cong(poly_eval(q@, y), poly_eval(q2, y), md));
            }
            lemma_canonical_for(zi, f, q@);
            assert(q@ == newton_next(zi, p@, q0));
        }
        it += 1;
    }
    None
}

/// The power of `p` under composition after the power `f`, in Fermat's method:
/// `f(f(p))`, in reduced form.
pub open spec fn fermat_next<T: UnsignedInt>(zi: &ZeroIdeal<T>, p: Seq<int>, f: Seq<int>) -> Seq<
    int,
> {
    canonical_for(zi, composed(f, composed_with(zi, f, p)))
}

/// The polynomial in reduced form with the values of `f` at the values of `p`.
pub open spec fn composed_with<T: UnsignedInt>(zi: &ZeroIdeal<T>, f: Seq<int>, p: Seq<int>) -> Seq<
    int,
> {
    canonical_for(zi, composed(f, p))
}

/// The first of the powers `p^(2^i - 1)` from `f` on, of `steps` of them, that `p`
/// composed with gives `X` on the ring.
pub open spec fn fermat_from<T: UnsignedInt>(
    zi: &ZeroIdeal<T>,
    p: Seq<int>,
    f: Seq<int>,
    steps: nat,
) -> Option<Seq<int>>
    decreases steps,
{
    if steps == 0 {
        None
    } else if inverts(f, p, T::modulus()) {
        Some(f)
    } else {
        fermat_from(zi, p, fermat_next(zi, p, f), (steps - 1) as nat)
    }
}

/// An inverse of `p` among its powers under composition: `p^(2^i - 1)` for the first
/// `i` for which `p^(2^i)` is `X`, below the number of bits of the ring, and `None`
/// where there is none.
pub fn invert_fermat<T: UnsignedInt>(p: &Polynomial<T>, zi: &ZeroIdeal<T>) -> (r: Option<
    Polynomial<T>,
>)
    requires
        zi.wf(),
        p@.len() + 2 * zi.gen@.len() + 1 <= usize::MAX,
    ensures
        is_result(r, fermat_from(zi, p@, p@, zi.n as nat)),
        r matches Some(q) ==> inverts(q@, p@, T::modulus()),
{
    proof {
        zi.lemma_generator_count();
    }
    let ghost md = T::modulus();
    let ghost goal = fermat_from(zi, p@, p@, zi.n as nat);
    // p^(2^i - 1)
    let mut f = p.copy();
    let mut i: usize = 0;
    while i < zi.n
        invariant
            zi.wf(),
            zi.gen@.len() <= 128,
            md == T::modulus(),
            i <= zi.n,
            p@.len() + 2 * zi.gen@.len() + 1 <= usize::MAX,
            f@.len() <= 2 * zi.gen@.len() || f.coeffs@ == p.coeffs@,
            goal == fermat_from(zi, p@, p@, zi.n as nat),
            goal == fermat_from(zi, p@, f@, (zi.n - i) as nat),
        decreases zi.n - i,
    {
        proof {
            assert(f.coeffs@ == p.coeffs@ ==> f@ =~= p@);
        }
        // p^(2^i)
        if composes_to_identity(&f, p, zi) {
            return Some(f);
        }
        let ghost f0 = f@;
        let c0 = compose(&f, p, zi);
        let g = c0.simplified(zi);
        proof {
            g.lemma_bounds();
            let h = composed(f0, p@);
            assert forall|y: int| 0 <= y implies cong(#[trigger] poly_eval(g@, y), h(y), md) by {
                assert(cong(poly_eval(g@, y), poly_eval(c0@, y), md));
                assert(cong(poly_eval(c0@, y), poly_eval(f0, poly_eval(p@, y)), md));
            }
            lemma_canonical_for(zi, h, g@);
        }
        let c1 = compose(&f, &g, zi);
        f = c1.simplified(zi);
        proof {
            f.lemma_bounds();
            let h = composed(f0, g@);
            assert forall|y: int| 0 <= y implies cong(#[trigger] poly_eval(f@, y), h(y), md) by {
                assert(cong(poly_eval(f@, y), poly_eval(c1@, y), md));
                assert(cong(poly_eval(c1@, y), poly_eval(f0, poly_eval(g@, y)), md));
            }
            lemma_canonical_for(zi, h, f@);
            assert(f@ == fermat_next(zi, p@, f0));
        }
        i += 1;
    }
    None
}

/// The products of the coefficients with the powers of `y`.
pub open spec fn power_terms(c: Seq<int>, y: int) -> spec_fn(int) -> int {
    |i: int| c[i] * pow(y, i as nat)
}

/// The value of a polynomial is the sum of its coefficients times the powers of the
/// argument.
pub proof fn lemma_eval_as_sum(c: Seq<int>, y: int)
    ensures
        poly_eval(c, y) == sum(power_terms(c, y), c.len() as int),
    decreases c.len(),
{
    if c.len() > 0 {
        let r = c.drop_last();
        lemma_eval_as_sum(r, y);
        assert(c =~= r.push(c.last()));
        lemma_eval_push(r, c.last(), y);
        let f = power_terms(c, y);
        let g = power_terms(r, y);
        assert forall|i: int| 0 <= i < r.len() implies #[trigger] f(i) == g(i) by {
            assert(c[i] == r[i]);
        }
        crate::modular::lemma_sum_eq(f, g, r.len() as int);
    }
}

/// The number of the points of the interpolation: the number of coefficients of the
/// generator of the highest degree.
pub open spec fn points<T: UnsignedInt>(zi: &ZeroIdeal<T>) -> int {
    2 * (zi.gen@.len() as int) + 1
}

/// Whether the polynomial with the coefficients `c` takes the value `r` at `p(r)`, in
/// the ring of `m` elements, for the natural numbers `r` below `n`.
pub open spec fn interpolates(c: Seq<int>, p: Seq<int>, n: int, m: int) -> bool {
    forall|r: int| 0 <= r < n ==> cong(#[trigger] poly_eval(c, poly_eval(p, r)), r, m)
}

/// Whether `q` is the reduced form of a polynomial of `n` coefficients that takes
/// the value `r` at `p(r)` for the natural numbers `r` below `n`.
pub open spec fn is_interpolant<T: UnsignedInt>(
    zi: &ZeroIdeal<T>,
    p: Seq<int>,
    q: Seq<int>,
    n: int,
) -> bool {
    exists|c: Seq<int>|
        c.len() == n && #[trigger] interpolates(c, p, n, T::modulus()) && q == canonical_for(
            zi,
            valued(c),
        )
}

/// Whether no polynomial of `n` coefficients takes the value `r` at `p(r)`, in the
/// ring of `m` elements, for the natural numbers `r` below `n`.
pub open spec fn no_interpolant(p: Seq<int>, n: int, m: int) -> bool {
    forall|c: Seq<int>| c.len() == n ==> !#[trigger] interpolates(c, p, n, m)
}

/// A row of a matrix of the powers of `y`, times the coefficients of a polynomial,
/// is the value of the polynomial at `y`, in the ring.
pub proof fn lemma_power_row<T: UnsignedInt>(a: &Matrix<T>, c: Seq<int>, k: int, y: int)
    requires
        a.wf(),
        0 <= k < a.rows,
        c.len() == a.cols,
        forall|j: int| 0 <= j < a.cols ==> cong(#[trigger] a.val_at(k, j), pow(y, j as nat), T::modulus()),
    ensures
        cong(a.apply_at(c, k), poly_eval(c, y), T::modulus()),
{
    let md = T::modulus();
    T::lemma_modulus();
    lemma_eval_as_sum(c, y);
    let f = a.apply_terms(c, k);
    let h = power_terms(c, y);
    assert forall|j: int| 0 <= j < a.cols implies cong(#[trigger] f(j), h(j), md) by {
        assert(cong(a.val_at(k, j), pow(y, j as nat), md));
        lemma_cong_ops(a.val_at(k, j), pow(y, j as nat), c[j], c[j], md);
        assert(pow(y, j as nat) * c[j] == c[j] * pow(y, j as nat)) by (nonlinear_arith);
    }
    lemma_sum_cong(f, h, a.cols as int, md);
}

/// An inverse of `p` by interpolation: the polynomial, of a degree below that of the
/// generator of the highest degree, that takes the value `r` at `p(r)` for the first
/// numbers `r`, one more than that degree of them, in reduced form. The result is
/// `None` where there is none, and only there.
pub fn invert_lagrange<T: UnsignedInt>(p: &Polynomial<T>, zi: &ZeroIdeal<T>) -> (res: Option<
    Polynomial<T>,
>)
    requires
        zi.wf(),
    ensures
        match res {
            Some(q) => {
                &&& is_interpolant(zi, p@, q@, points(zi))
                &&& interpolates(q@, p@, points(zi), T::modulus())
                &&& is_canonical(zi, q@)
                &&& q@.len() <= 2 * zi.gen@.len()
            },
            None => no_interpolant(p@, points(zi), T::modulus()),
        },
{
    let ghost md = T::modulus();
    proof {
        zi.lemma_generator_count();
        zi.lemma_generator(zi.gen@.len() - 1);
        T::lemma_modulus();
    }
    // Construct a system of linear congruences.
    let rows: usize = zi.gen[zi.gen.len() - 1].len();
    let cols: usize = rows;
    assert(rows * cols <= 66049) by (nonlinear_arith)
        requires
            rows <= 257,
            cols == rows,
    ;
    // Construct the Vandermonde matrix and the vector of the values.
    let mut a = Matrix::<T>::zero(rows, cols);
    let mut b = Vector::<T>::zero(rows);
    let mut i: T = T::zero();
    let mut r: usize = 0;
    proof {
        lemma_mod_small(0, md);
    }
    while r < rows
        invariant
            r <= rows,
            rows == cols,
            0 < rows <= 257,
            md == T::modulus(),
            md > 1,
            a.wf(),
            a.rows == rows,
            a.cols == cols,
            b@.len() == rows,
            i.val() == (r as int) % md,
            forall|k: int, c: int|
                0 <= k < r && 0 <= c < cols ==> cong(
                    #[trigger] a.val_at(k, c),
                    pow(poly_eval(p@, k), c as nat),
                    md,
                ),
            forall|k: int| 0 <= k < r ==> cong(#[trigger] b.val_at(k), k, md),
        decreases rows - r,
    {
        let mut j: T = T::one();
        let x: T = p.eval(i);
        let ghost y = poly_eval(p@, r as int);
        proof {
            lemma_cong_mod(r as int, md);
            lemma_eval_arg_cong(p@, i.val(), r as int, md);
            lemma_cong_mod(poly_eval(p@, i.val()), md);
            vstd::arithmetic::power::lemma_pow0(y);
            lemma_mod_small(1, md);
        }
        let mut c: usize = 0;
        while c < cols
            invariant
                c <= cols,
                r < rows,
                md == T::modulus(),
                md > 1,
                a.wf(),
                a.rows == rows,
                a.cols == cols,
                cong(x.val(), y, md),
                cong(j.val(), pow(y, c as nat), md),
                y == poly_eval(p@, r as int),
                forall|k: int, c2: int|
                    0 <= k < r && 0 <= c2 < cols ==> cong(
                        #[trigger] a.val_at(k, c2),
                        pow(poly_eval(p@, k), c2 as nat),
                        md,
                    ),
                forall|c2: int|
                    0 <= c2 < c ==> cong(#[trigger] a.val_at(r as int, c2), pow(y, c2 as nat), md),
            decreases cols - c,
        {
            let ghost prev = a;
            a.set(r, c, j);
            let next: T = j.mul(x);
            proof {
                assert forall|k: int, c2: int| 0 <= k < r && 0 <= c2 < cols implies cong(
                    #[trigger] a.val_at(k, c2),
                    pow(poly_eval(p@, k), c2 as nat),
                    md,
                ) by {
                    assert(a.at(k, c2) == prev.at(k, c2));
                    assert(cong(prev.val_at(k, c2), pow(poly_eval(p@, k), c2 as nat), md));
                }
                assert forall|c2: int| 0 <= c2 < c + 1 implies cong(
                    #[trigger] a.val_at(r as int, c2),
                    pow(y, c2 as nat),
                    md,
                ) by {
                    if c2 < c {
                        assert(a.at(r as int, c2) == prev.at(r as int, c2));
                        assert(cong(prev.val_at(r as int, c2), pow(y, c2 as nat), md));
                    }
                }
                lemma_cong_ops(j.val(), pow(y, c as nat), x.val(), y, md);
                lemma_cong_mod(j.val() * x.val(), md);
                vstd::arithmetic::power::lemma_pow_adds(y, c as nat, 1);
                vstd::arithmetic::power::lemma_pow1(y);
            }
            j = next;
            c += 1;
        }
        let ghost prev = b;
        b.set(r, i);
        let next: T = i.add(T::one());
        proof {
            assert forall|k: int| 0 <= k < r + 1 implies cong(#[trigger] b.val_at(k), k, md) by {
                if k < r {
                    assert(b@[k] == prev@[k]);
                    assert(cong(prev.val_at(k), k, md));
                }
            }
            lemma_cong_ops(i.val(), r as int, 1, 1, md);
            lemma_cong_mod(i.val() + 1, md);
            assert forall|k: int, c2: int| 0 <= k < r + 1 && 0 <= c2 < cols implies cong(
                #[trigger] a.val_at(k, c2),
                pow(poly_eval(p@, k), c2 as nat),
                md,
            ) by {}
        }
        i = next;
        r += 1;
    }
    let ghost a0 = a;
    assert(rows * rows <= 66049 && cols * cols <= 66049) by (nonlinear_arith)
        requires
            rows <= 257,
            cols == rows,
    ;
    let l = solve_congruences(a, &b);
    if l.is_empty() {
        proof {
            assert forall|c: Seq<int>| c.len() == rows implies !#[trigger] interpolates(
                c,
                p@,
                rows as int,
                md,
            ) by {
                if interpolates(c, p@, rows as int, md) {
                    assert forall|k: int| 0 <= k < a0.rows implies cong(
                        #[trigger] a0.apply_at(c, k),
                        b.vals()[k],
                        md,
                    ) by {
                        lemma_power_row(&a0, c, k, poly_eval(p@, k));
                        assert(cong(poly_eval(c, poly_eval(p@, k)), k, md));
                        assert(cong(b.val_at(k), k, md));
                    }
                    assert(a0.solved_by(c, b.vals()));
                    assert(false);
                }
            }
        }
        return None;
    }
    let q0 = Polynomial::from_coeffs(l.offset.entries());
    let ghost g0 = q0@;
    let q = q0.simplified(zi);
    proof {
        let zeros = Seq::new(l.basis@.len(), |j: int| 0int);
        let pt = l.point(zeros);
        assert(a0.solved_by(pt, b.vals()));
        assert(pt =~= g0) by {
            assert forall|t: int| 0 <= t < pt.len() implies pt[t] == g0[t] by {
                let f = l.combination_terms(zeros, t);
                assert forall|j: int| 0 <= j < l.basis@.len() implies #[trigger] f(j) == 0 by {
                    assert(zeros[j] * l.basis@[j].val_at(t) == 0) by (nonlinear_arith)
                        requires
                            zeros[j] == 0,
                    ;
                }
                lemma_sum_zero(f, l.basis@.len() as int);
            }
        }
        assert forall|k: int| 0 <= k <= 2 * zi.gen@.len() implies cong(
            #[trigger] poly_eval(q@, poly_eval(p@, k)),
            k,
            md,
        ) by {
            let y = poly_eval(p@, k);
            let yr = y % md;
            lemma_cong_mod(y, md);
            // the row of the system is the value of the polynomial at p(k)
            lemma_eval_as_sum(g0, y);
            let f = a0.apply_terms(g0, k);
            let h = power_terms(g0, y);
            assert forall|c: int| 0 <= c < cols implies cong(#[trigger] f(c), h(c), md) by {
                assert(cong(a0.val_at(k, c), pow(y, c as nat), md));
                lemma_cong_ops(a0.val_at(k, c), pow(y, c as nat), g0[c], g0[c], md);
                assert(pow(y, c as nat) * g0[c] == g0[c] * pow(y, c as nat)) by (nonlinear_arith);
            }
            lemma_sum_cong(f, h, cols as int, md);
            assert(cong(a0.apply_at(g0, k), b.vals()[k], md));
            assert(cong(b.val_at(k), k, md));
            // the reduced polynomial has the same values
            lemma_eval_arg_cong(q@, y, yr, md);
            lemma_eval_arg_cong(g0, y, yr, md);
            assert(cong(poly_eval(q@, yr), poly_eval(g0, yr), md));
        }
        assert(interpolates(g0, p@, rows as int, md)) by {
            assert forall|k: int| 0 <= k < rows implies cong(
                #[trigger] poly_eval(g0, poly_eval(p@, k)),
                k,
                md,
            ) by {
                lemma_power_row(&a0, g0, k, poly_eval(p@, k));
                assert(cong(a0.apply_at(g0, k), b.vals()[k], md));
                assert(cong(b.val_at(k), k, md));
            }
        }
        q.lemma_bounds();
        let f = valued(g0);
        assert forall|y: int| 0 <= y implies cong(#[trigger] poly_eval(q@, y), f(y), md) by {
            assert(cong(poly_eval(q@, y), poly_eval(g0, y), md));
        }
        lemma_canonical_for(zi, f, q@);
        assert(is_interpolant(zi, p@, q@, rows as int));
    }
    Some(q)
}

/// The method by which a polynomial is inverted.
#[derive(Clone, Copy, PartialEq, Eq, Structural, Debug)]
pub enum Algorithm {
    Newton,
    Fermat,
    Lagrange,
}

/// What is found, where it has few enough coefficients and `p` of it is `X` on the
/// ring; none else.
pub open spec fn checked<T: UnsignedInt>(
    zi: &ZeroIdeal<T>,
    p: Seq<int>,
    found: Option<Seq<int>>,
) -> Option<Seq<int>> {
    match found {
        Some(q) => if q.len() <= 2 * zi.gen@.len() + 2 && inverts(p, q, T::modulus()) {
            found
        } else {
            None
        },
        None => None,
    }
}

/// Whether `res` is what the inversion of `p` by the method gives: by Newton's
/// method the first guess with `p(q) = X`; by Fermat's method the first power `f`
/// with `f(p) = X`, where it has `p(f) = X` too; by interpolation the reduced form of
/// an interpolating polynomial, and none where there is no such polynomial, or the
/// one that was found has not `p(q) = X`.
pub open spec fn is_inverse_by<T: UnsignedInt>(
    res: Option<Polynomial<T>>,
    zi: &ZeroIdeal<T>,
    p: Seq<int>,
    alg: Algorithm,
) -> bool {
    match alg {
        Algorithm::Newton => is_result(
            res,
            newton_from(zi, p, seq![0int, 1int], (2 * zi.n) as nat),
        ),
        Algorithm::Fermat => is_result(res, checked(zi, p, fermat_from(zi, p, p, zi.n as nat))),
        Algorithm::Lagrange => match res {
            Some(q) => is_interpolant(zi, p, q@, points(zi)),
            None => no_interpolant(p, points(zi), T::modulus()) || exists|q: Seq<int>| #[trigger]
                is_interpolant(zi, p, q, points(zi)) && !inverts(p, q, T::modulus()),
        },
    }
}

/// An inverse of `p` by the given method, verified: the result composed with `p`
/// reduces to `X`. The result is `None` where the method finds no polynomial, or one
/// that does not invert `p`.
pub fn invert<T: UnsignedInt>(p: &Polynomial<T>, zi: &ZeroIdeal<T>, alg: Algorithm) -> (res:
    Option<Polynomial<T>>)
    requires
        zi.wf(),
        p@.len() + 2 * zi.gen@.len() + 1 <= usize::MAX,
    ensures
        res matches Some(q) ==> inverts(p@, q@, T::modulus()),
        is_inverse_by(res, zi, p@, alg),
{
    proof {
        zi.lemma_generator_count();
    }
    let candidate = match alg {
        Algorithm::Newton => invert_newton(p, zi),
        Algorithm::Fermat => invert_fermat(p, zi),
        Algorithm::Lagrange => invert_lagrange(p, zi),
    };
    match candidate {
        None => None,
        Some(q) => {
            if q.coeffs.len() > 2 * zi.gen.len() + 2 {
                return None;
            }
            // Check that this is indeed the inverse.
            if composes_to_identity(p, &q, zi) {
                Some(q)
            } else {
                proof {
                    if alg == Algorithm::Lagrange {
                        assert(is_interpolant(zi, p@, q@, points(zi)) && !inverts(
                            p@,
                            q@,
                            T::modulus(),
                        ));
                    }
                }
                None
            }
        },
    }
}

/// The sum of every second coefficient changes its parity with the parity of one of
/// them, and with that of no other coefficient.
pub proof fn lemma_stride_parity(c: Seq<int>, d: Seq<int>, idx: int, from: int)
    requires
        c.len() == d.len(),
        0 <= from,
        0 <= idx < c.len(),
        forall|i: int| 0 <= i < c.len() && i != idx ==> #[trigger] d[i] == c[i],
        (d[idx] - c[idx]) % 2 == 1,
    ensures
        (stride_sum(d, from) - stride_sum(c, from)) % 2 == (if idx >= from && (idx - from) % 2
            == 0 {
            1int
        } else {
            0int
        }),
    decreases c.len() + 1 - from,
{
    if from < c.len() {
        lemma_stride_parity(c, d, idx, from + 2);
        if from != idx {
            assert(d[from] == c[from]);
        }
    }
}

/// The coefficients `c` with one more at index `i`, over the ring of `m` elements.
pub open spec fn raised(c: Seq<int>, i: int, m: int) -> Seq<int> {
    c.update(i, (c[i] + 1) % m)
}

/// The coefficients `c`, corrected to those of a polynomial that permutes the ring:
/// with one more at `X` where that coefficient is even, then one more at `X^(2 *
/// k_even)` where the sum of the coefficients of the even powers from `X^2` on is
/// odd, then one more at `X^(2 * k_odd + 1)` where the sum of those of the odd
/// powers from `X^3` on is odd.
pub open spec fn corrected(c: Seq<int>, k_even: int, k_odd: int, m: int) -> Seq<int> {
    let c1 = if c[1] % 2 == 1 {
        c
    } else {
        raised(c, 1, m)
    };
    let c2 = if stride_sum(c1, 2) % 2 == 0 {
        c1
    } else {
        raised(c1, 2 * k_even, m)
    };
    if stride_sum(c2, 3) % 2 == 0 || c.len() < 4 {
        c2
    } else {
        raised(c2, 2 * k_odd + 1, m)
    }
}

/// The polynomial that permutes the ring, in reduced form, that the coefficients
/// and the two places of correction give: the coefficients are corrected by one
/// where the coefficient of `X` is even, and at the places `2 * k_even` and `2 *
/// k_odd + 1` where a sum that has to be even is odd.
#[verifier::rlimit(60)]
pub fn permutation_from<T: UniformNum>(
    coeffs: Vec<T>,
    k_even: usize,
    k_odd: usize,
    zi: &ZeroIdeal<T>,
) -> (p: Polynomial<T>)
    requires
        zi.wf(),
        coeffs@.len() == 2 * zi.gen@.len() + 1,
        1 <= k_even <= zi.gen@.len(),
        1 <= k_odd,
        2 * k_odd + 1 < coeffs@.len() || coeffs@.len() < 4,
    ensures
        is_permutation(corrected(Polynomial { coeffs }@, k_even as int, k_odd as int, T::modulus())),
        p@ == canonical_for(
            zi,
            valued(corrected(Polynomial { coeffs }@, k_even as int, k_odd as int, T::modulus())),
        ),
        is_canonical(zi, p@),
        same_function(
            p@,
            corrected(Polynomial { coeffs }@, k_even as int, k_odd as int, T::modulus()),
            T::modulus(),
        ),
{
    let ghost md = T::modulus();
    proof {
        zi.lemma_generator_count();
        T::lemma_modulus();
        vstd::arithmetic::power2::lemma_pow2_unfold(T::bits());
    }
    let mut p = Polynomial { coeffs };
    let ghost c0 = p@;
    // a_1 has to be odd.
    if !is_odd(p.coeffs[1]) {
        let ghost before = p@;
        let v: T = p.coeffs[1].add(T::one());
        p.coeffs[1] = v;
        proof {
            p.lemma_bounds();
            assert(p@ =~= raised(before, 1, md));
            lemma_even_modulus_parity(before[1] + 1, md);
        }
    }
    let ghost c1 = p@;
    // a_2 + a_4 + ... has to be even.
    if !stride_is_even(&p, 2) {
        let ghost before = p@;
        let v: T = p.coeffs[2 * k_even].add(T::one());
        p.coeffs[2 * k_even] = v;
        proof {
            assert(p@ =~= raised(before, 2 * k_even, md));
            lemma_even_modulus_parity(before[2 * k_even as int] + 1, md);
            lemma_stride_parity(before, p@, 2 * k_even as int, 2);
            lemma_stride_parity(before, p@, 2 * k_even as int, 3);
        }
    }
    let ghost c2 = p@;
    // a_3 + a_5 + ... has to be even.
    if !stride_is_even(&p, 3) {
        if p.coeffs.len() >= 4 {
            let ghost before = p@;
            let v: T = p.coeffs[2 * k_odd + 1].add(T::one());
            p.coeffs[2 * k_odd + 1] = v;
            proof {
                assert(p@ =~= raised(before, 2 * k_odd + 1, md));
                lemma_even_modulus_parity(before[2 * k_odd + 1] + 1, md);
                lemma_stride_parity(before, p@, 2 * k_odd + 1, 2);
                lemma_stride_parity(before, p@, 2 * k_odd + 1, 3);
            }
        } else {
            proof {
                assert(stride_sum(p@, 3) == 0);
            }
        }
    }
    let ghost c = p@;
    proof {
        assert(c == corrected(c0, k_even as int, k_odd as int, md));
        assert(is_permutation(c));
    }
    p.simplify(zi);
    proof {
        p.lemma_bounds();
        let f = valued(c);
        assert forall|y: int| 0 <= y implies cong(#[trigger] poly_eval(p@, y), f(y), md) by {
            assert(cong(poly_eval(p@, y), poly_eval(c, y), md));
        }
        lemma_canonical_for(zi, f, p@);
    }
    p
}

/// A random polynomial that permutes the ring, of the least degree that every
/// permutation of the ring by a polynomial has, in its reduced form by the ideal:
/// random coefficients, corrected by one where the coefficient of `X` is even, and
/// at a random place where a sum that has to be even is odd.
pub fn random_permutation<T: UniformNum>(zi: &ZeroIdeal<T>) -> (p: Polynomial<T>)
    requires
        zi.wf(),
    ensures
        exists|c: Seq<int>| is_permutation(c) && #[trigger] same_function(p@, c, T::modulus()),
        is_canonical(zi, p@),
{
    proof {
        zi.lemma_generator_count();
        zi.lemma_generator(zi.gen@.len() - 1);
    }
    // The smallest degree that can represent any permutation that has a
    // polynomial representation.
    let degree: usize = zi.gen[zi.gen.len() - 1].len() - 1;
    // Initialize the coefficients with random values.
    let mut coeffs: Vec<T> = Vec::new();
    let mut i: usize = 0;
    while i <= degree
        invariant
            i <= degree + 1,
            degree <= 256,
            coeffs@.len() == i,
        decreases degree + 1 - i,
    {
        coeffs.push(random_element::<T>());
        i += 1;
    }
    // The places of the corrections.
    let k_even: usize = random_between(1, degree / 2);
    let k_odd: usize = if degree >= 3 {
        random_between(1, (degree - 1) / 2)
    } else {
        1
    };
    let ghost c = corrected(Polynomial { coeffs }@, k_even as int, k_odd as int, T::modulus());
    let p = permutation_from(coeffs, k_even, k_odd, zi);
    proof {
        assert(is_permutation(c));
        assert(same_function(p@, c, T::modulus()));
    }
    p
}

/// A number keeps its parity when it is reduced by an even modulus.
pub proof fn lemma_even_modulus_parity(x: int, m: int)
    requires
        m > 0,
        m % 2 == 0,
    ensures
        (x % m) % 2 == x % 2,
{
    vstd::arithmetic::div_mod::lemma_fundamental_div_mod(x, m);
    let q = x / m;
    let h = m / 2;
    assert(x == 2 * (h * q) + x % m) by (nonlinear_arith)
        requires
            x == m * q + x % m,
            m == 2 * h,
    ;
}

/// Whether the text writes, in the notation that polynomials are read in, a
/// polynomial over the ring of `T` that has the values of one that permutes the
/// ring.
pub open spec fn permutation_text<T: UniformNum>(s: Seq<char>) -> bool {
    exists|p: Seq<int>, c: Seq<int>|
        is_permutation(c) && #[trigger] same_function(p, c, T::modulus()) && s
            == crate::printer::plain_polynomial(p)
}

/// A random polynomial that permutes the ring of `T`, in the notation that
/// polynomials are read in.
pub fn rand_poly_impl<T: UniformNum>() -> (s: String)
    ensures
        permutation_text::<T>(s@),
{
    let zi = ZeroIdeal::<T>::init();
    let p = random_permutation(&zi);
    let s = p.to_string();
    proof {
        let c = choose|c: Seq<int>| is_permutation(c) && #[trigger] same_function(p@, c, T::modulus());
        assert(is_permutation(c) && same_function(p@, c, T::modulus()));
    }
    s
}

/// Why a polynomial is not inverted.
#[derive(Clone, Copy, Debug, PartialEq, Eq, Structural)]
pub enum InvertError {
    /// The text is no polynomial.
    Parse(PolyError),
    /// The polynomial does not permute the ring.
    NotPermutation,
    /// The name is that of no method.
    InvalidAlgorithm,
    /// The method found no inverse.
    NoInverse,
}

impl InvertError {
    /// The message of the error.
    pub open spec fn text(self) -> Seq<char> {
        match self {
            InvertError::Parse(e) => e.text(),
            InvertError::NotPermutation => "The input is not a permutation polynomial"@,
            InvertError::InvalidAlgorithm => "Invalid algorithm."@,
            InvertError::NoInverse => "Failed to invert the polynomial."@,
        }
    }

    /// The message of the error.
    pub fn message(self) -> (s: String)
        ensures
            s@ == self.text(),
    {
        match self {
            InvertError::Parse(e) => e.message(),
            InvertError::NotPermutation => String::from_str(
                "The input is not a permutation polynomial",
            ),
            InvertError::InvalidAlgorithm => String::from_str("Invalid algorithm."),
            InvertError::NoInverse => String::from_str("Failed to invert the polynomial."),
        }
    }
}

/// The method with the name `Newton`, `Fermat` or `Lagrange`.
pub fn algorithm_by_name(name: &str) -> (r: Option<Algorithm>)
    ensures
        r == if name@ == "Newton"@ {
            Some(Algorithm::Newton)
        } else if name@ == "Fermat"@ {
            Some(Algorithm::Fermat)
        } else if name@ == "Lagrange"@ {
            Some(Algorithm::Lagrange)
        } else {
            None
        },
{
    if crate::names::compare_names(name, "Newton") == crate::names::Order::Same {
        Some(Algorithm::Newton)
    } else if crate::names::compare_names(name, "Fermat") == crate::names::Order::Same {
        Some(Algorithm::Fermat)
    } else if crate::names::compare_names(name, "Lagrange") == crate::names::Order::Same {
        Some(Algorithm::Lagrange)
    } else {
        None
    }
}

/// A polynomial whose coefficients and argument are not negative has a value that is
/// not negative.
pub proof fn lemma_eval_not_negative(c: Seq<int>, x: int)
    requires
        0 <= x,
        forall|i: int| 0 <= i < c.len() ==> 0 <= #[trigger] c[i],
    ensures
        0 <= poly_eval(c, x),
    decreases c.len(),
{
    if c.len() > 0 {
        let r = c.drop_first();
        assert forall|i: int| 0 <= i < r.len() implies 0 <= #[trigger] r[i] by {
            assert(r[i] == c[i + 1]);
        }
        lemma_eval_not_negative(r, x);
        assert(0 <= x * poly_eval(r, x)) by (nonlinear_arith)
            requires
                0 <= x,
                0 <= poly_eval(r, x),
        ;
    }
}

/// Whether the text is, in LaTeX notation, a polynomial `q` without negative
/// coefficients with `c(q(x)) = x` on the ring of `T`.
pub open spec fn inverse_text<T: UniformNum>(s: Seq<char>, c: Seq<int>) -> bool {
    exists|q: Seq<int>| #[trigger]
        inverts(c, q, T::modulus()) && s == crate::printer::tex_polynomial(q)
}

/// The method with the name; interpolation for a name of none.
pub open spec fn method_of(alg: Seq<char>) -> Algorithm {
    if alg == "Newton"@ {
        Algorithm::Newton
    } else if alg == "Fermat"@ {
        Algorithm::Fermat
    } else {
        Algorithm::Lagrange
    }
}

/// Whether `res` is what the inversion of the polynomial with the coefficients `c`,
/// in its reduced form by the zero ideal of the ring, gives by the method.
pub open spec fn is_inverse_of<T: UniformNum>(
    res: Option<Polynomial<T>>,
    c: Seq<int>,
    alg: Algorithm,
) -> bool {
    exists|zi: ZeroIdeal<T>|
        zi.wf() && #[trigger] is_inverse_by(res, &zi, canonical_for(&zi, valued(c)), alg)
}

/// Whether the text is, in LaTeX notation, what the inversion of the polynomial with
/// the coefficients `c` gives by the method.
pub open spec fn inverse_text_by<T: UniformNum>(s: Seq<char>, c: Seq<int>, alg: Algorithm) -> bool {
    exists|q: Polynomial<T>| #[trigger]
        is_inverse_of(Some(q), c, alg) && s == crate::printer::tex_polynomial(q@)
}

/// What the inversion of the polynomial that a text writes gives over the ring of
/// `T`, by the method with the name `alg`: the error of the text where it is no
/// polynomial; an error where the polynomial does not permute the ring, and else
/// where the name is that of no method; and else an inverse in LaTeX notation, or
/// the error that the method found none.
pub open spec fn inversion_result<T: UniformNum>(
    r: Result<String, InvertError>,
    poly: Seq<char>,
    alg: Seq<char>,
) -> bool {
    if !vstd::utf8::is_ascii_chars(poly) {
        r == Err::<String, InvertError>(InvertError::Parse(PolyError::NonAscii))
    } else {
        match crate::poly_parser::parse_polynomial(poly, T::modulus()) {
            Err(e) => r == Err::<String, InvertError>(InvertError::Parse(e)),
            Ok(c) => if !is_permutation(c) {
                r == Err::<String, InvertError>(InvertError::NotPermutation)
            } else if alg != "Newton"@ && alg != "Fermat"@ && alg != "Lagrange"@ {
                r == Err::<String, InvertError>(InvertError::InvalidAlgorithm)
            } else {
                match r {
                    Ok(text) => inverse_text::<T>(text@, c) && inverse_text_by::<T>(
                        text@,
                        c,
                        method_of(alg),
                    ),
                    Err(e) => e == InvertError::NoInverse && is_inverse_of::<T>(
                        None,
                        c,
                        method_of(alg),
                    ),
                }
            },
        }
    }
}

/// Reads a polynomial and inverts it, over the ring of `T`, by the method with the
/// name `alg`, and gives the inverse in LaTeX notation. It is an error where the
/// text is no polynomial, where the polynomial does not permute the ring, where the
/// name is that of no method, and where the method finds no inverse.
pub fn invert_poly_impl<T: UniformNum>(poly: &str, alg: &str) -> (r: Result<String, InvertError>)
    ensures
        inversion_result::<T>(r, poly@, alg@),
{
    let ghost md = T::modulus();
    // Parse the polynomial and make sure it's a permutation.
    let p = match parse_poly::<T>(poly) {
        Ok(p) => p,
        Err(e) => {
            return Err(InvertError::Parse(e));
        },
    };
    if !is_perm_poly(&p) {
        return Err(InvertError::NotPermutation);
    }
    let ghost c = p@;
    // Find the generators of the "zero ideal".
    let zi = ZeroIdeal::<T>::init();
    // Simplify the polynomial.
    let p = p.simplified(&zi);
    proof {
        p.lemma_bounds();
        let f = valued(c);
        assert forall|y: int| 0 <= y implies cong(#[trigger] poly_eval(p@, y), f(y), md) by {
            assert(cong(poly_eval(p@, y), poly_eval(c, y), md));
        }
        lemma_canonical_for(&zi, f, p@);
    }
    // Select the algorithm.
    let method = match algorithm_by_name(alg) {
        Some(m) => m,
        None => {
            return Err(InvertError::InvalidAlgorithm);
        },
    };
    proof {
        zi.lemma_generator_count();
    }
    // Compute the inverse, and check that it is one.
    let found = invert(&p, &zi, method);
    proof {
        assert(method == method_of(alg@));
        assert(is_inverse_by(found, &zi, canonical_for(&zi, valued(c)), method));
        assert(is_inverse_of(found, c, method));
    }
    match found {
        Some(q) => {
            let text = q.to_tex();
            proof {
                q.lemma_bounds();
                T::lemma_modulus();
                assert forall|x: int| 0 <= x implies cong(
                    #[trigger] poly_eval(c, poly_eval(q@, x)),
                    x,
                    md,
                ) by {
                    lemma_eval_not_negative(q@, x);
                    let y = poly_eval(q@, x);
                    assert(cong(poly_eval(p@, y), poly_eval(c, y), md));
                    assert(cong(poly_eval(p@, poly_eval(q@, x)), x, md));
                }
                assert(inverts(c, q@, md));
            }
            Ok(text)
        },
        None => Err(InvertError::NoInverse),
    }
}

/// The message of the error in the place of the error.
pub open spec fn with_message(r: Result<String, InvertError>) -> Result<Seq<char>, Seq<char>> {
    match r {
        Ok(s) => Ok(s@),
        Err(e) => Err(e.text()),
    }
}

/// Whether `r` is, with the message of the error in the place of the error, a result
/// of the inversion of the polynomial that the text writes over the ring of `T`.
pub open spec fn inversion_message<T: UniformNum>(
    r: Result<String, String>,
    poly: Seq<char>,
    alg: Seq<char>,
) -> bool {
    exists|x: Result<String, InvertError>| #[trigger]
        inversion_result::<T>(x, poly, alg) && with_message(x) == (match r {
            Ok(s) => Ok::<Seq<char>, Seq<char>>(s@),
            Err(e) => Err::<Seq<char>, Seq<char>>(e@),
        })
}

/// Reads a polynomial and inverts it, over the ring of the width `bits`, by the
/// method with the name `alg`, and gives the inverse in LaTeX notation, or the
/// message of the error.
pub fn invert_poly(poly: String, bits: Bitness, alg: String) -> (r: Result<String, String>)
    ensures
        match bits {
            Bitness::U8 => inversion_message::<u8>(r, poly@, alg@),
            Bitness::U16 => inversion_message::<u16>(r, poly@, alg@),
            Bitness::U32 => inversion_message::<u32>(r, poly@, alg@),
            Bitness::U64 => inversion_message::<u64>(r, poly@, alg@),
            Bitness::U128 => inversion_message::<u128>(r, poly@, alg@),
        },
{
    let x = match bits {
        Bitness::U8 => invert_poly_impl::<u8>(poly.as_str(), alg.as_str()),
        Bitness::U16 => invert_poly_impl::<u16>(poly.as_str(), alg.as_str()),
        Bitness::U32 => invert_poly_impl::<u32>(poly.as_str(), alg.as_str()),
        Bitness::U64 => invert_poly_impl::<u64>(poly.as_str(), alg.as_str()),
        Bitness::U128 => invert_poly_impl::<u128>(poly.as_str(), alg.as_str()),
    };
    let ghost x0 = x;
    let r = match x {
        Ok(s) => Ok(s),
        Err(e) => Err(e.message()),
    };
    proof {
        assert(with_message(x0) == (match r {
            Ok(s) => Ok::<Seq<char>, Seq<char>>(s@),
            Err(e) => Err::<Seq<char>, Seq<char>>(e@),
        }));
    }
    r
}

/// A random polynomial that permutes the ring of the width `bits`, in the notation
/// that polynomials are read in.
pub fn rand_poly(bits: Bitness) -> (s: String)
    ensures
        match bits {
            Bitness::U8 => permutation_text::<u8>(s@),
            Bitness::U16 => permutation_text::<u16>(s@),
            Bitness::U32 => permutation_text::<u32>(s@),
            Bitness::U64 => permutation_text::<u64>(s@),
            Bitness::U128 => permutation_text::<u128>(s@),
        },
{
    match bits {
        Bitness::U8 => rand_poly_impl::<u8>(),
        Bitness::U16 => rand_poly_impl::<u16>(),
        Bitness::U32 => rand_poly_impl::<u32>(),
        Bitness::U64 => rand_poly_impl::<u64>(),
        Bitness::U128 => rand_poly_impl::<u128>(),
    }
}

} // verus!
