//! Linear congruences over the integers modulo a power of two: one congruence in one
//! unknown, the diagonalization of a matrix, and systems of congruences.

use vstd::prelude::*;
use crate::numbers::UnsignedInt;
use crate::matrix::Matrix;
use crate::vector::Vector;
use crate::products::lemma_triple_identity;
use crate::systems::{
    is_equivalent_form, lemma_same_solutions_identity, cong_seq, lifts, lemma_solved_by_cong,
    lemma_apply_cong_seq,
};
use crate::lattice::{AffineLattice, lemma_image_of_point};
use crate::diagonal::{solve_diagonal, is_diagonal_solution};
use crate::elimination::{
    cleared, col_zero_below, row_zero_right, pivot_measure, col_is_zero_below, row_is_zero_right,
    eliminate_col, eliminate_row,
};
use crate::grids::{
    grid, g_id, short_side, is_reached, is_diagonalization, lemma_grid_id, lemma_reached_start,
    lemma_reached_end, lemma_reached_col, lemma_reached_row, lemma_reached_next,
};
use crate::modular::{
    cong, lemma_cong_ops, lemma_cong_mod, lemma_cong_add_multiple, lemma_cong_diff,
    lemma_mod_small,
};

verus! {

/// Whether `y` solves `a * y = b` in the ring of `T`.
pub open spec fn solves<T: UnsignedInt>(a: int, y: int, b: int) -> bool {
    cong(a * y, b, T::modulus())
}

/// The point `x + t * k` of the lattice through `x` that `k` generates.
pub open spec fn lattice_point(x: int, k: int, t: int) -> int {
    x + t * k
}

/// Whether the solutions of `a * y = b` in the ring of `T` are the numbers congruent
/// to a point `x + t * k`.
pub open spec fn is_solution_set<T: UnsignedInt>(a: int, b: int, x: int, k: int) -> bool {
    &&& solves::<T>(a, x, b)
    &&& forall|t: int| solves::<T>(a, #[trigger] lattice_point(x, k, t), b)
    &&& forall|y: int|
        solves::<T>(a, y, b) ==> exists|t: int|
            cong(#[trigger] lattice_point(x, k, t), y, T::modulus())
}

/// Whether no number solves `a * y = b` in the ring of `T`.
pub open spec fn has_no_solution<T: UnsignedInt>(a: int, b: int) -> bool {
    forall|y: int| !solves::<T>(a, y, b)
}

/// One step of the division chain keeps the relations between the remainders, their
/// cofactors and the two numbers that the chain started from.
proof fn lemma_euclid_step(
    m: int,
    a: int,
    r0: int,
    r1: int,
    s0: int,
    t0: int,
    s1: int,
    t1: int,
    u: int,
    v: int,
    w: int,
    z: int,
    sg: int,
    q: int,
)
    requires
        r0 == s0 * m + t0 * a,
        r1 == s1 * m + t1 * a,
        m == u * r0 + v * r1,
        a == w * r0 + z * r1,
        t1 * r0 - t0 * r1 == sg * m,
    ensures
        r0 - q * r1 == (s0 - q * s1) * m + (t0 - q * t1) * a,
        m == (u * q + v) * r1 + u * (r0 - q * r1),
        a == (w * q + z) * r1 + w * (r0 - q * r1),
        (t0 - q * t1) * r1 - t1 * (r0 - q * r1) == (-sg) * m,
{
    assert(r0 - q * r1 == (s0 - q * s1) * m + (t0 - q * t1) * a) by (nonlinear_arith)
        requires
            r0 == s0 * m + t0 * a,
            r1 == s1 * m + t1 * a,
    ;
    assert(m == (u * q + v) * r1 + u * (r0 - q * r1)) by (nonlinear_arith)
        requires
            m == u * r0 + v * r1,
    ;
    assert(a == (w * q + z) * r1 + w * (r0 - q * r1)) by (nonlinear_arith)
        requires
            a == w * r0 + z * r1,
    ;
    assert((t0 - q * t1) * r1 - t1 * (r0 - q * r1) == (-sg) * m) by (nonlinear_arith)
        requires
            t1 * r0 - t0 * r1 == sg * m,
    ;
}

/// Where `g` divides `a` and the modulus `m`, with `g = s * m + t * a`, every `y`
/// with `a * y = b` modulo `m` makes `(b / g) * t` a solution too.
proof fn lemma_solution_from_bezout(
    m: int,
    a: int,
    b: int,
    g: int,
    s: int,
    t: int,
    u: int,
    w: int,
    y: int,
)
    requires
        0 < m,
        0 < g,
        g == s * m + t * a,
        m == u * g,
        a == w * g,
        cong(a * y, b, m),
    ensures
        cong(a * ((b / g) * t), b, m),
{
    let j = lemma_cong_diff(a * y, b, m);
    let c = w * y - j * u;
    assert(b == g * c) by (nonlinear_arith)
        requires
            a * y - b == j * m,
            m == u * g,
            a == w * g,
            c == w * y - j * u,
    ;
    vstd::arithmetic::div_mod::lemma_div_multiples_vanish(c, g);
    assert(b / g == c);
    assert(a * (c * t) == b + (-c * s) * m) by (nonlinear_arith)
        requires
            g == s * m + t * a,
            b == g * c,
    ;
    lemma_cong_add_multiple(b, -c * s, m);
}

/// Where `g` divides `a` and the modulus `m`, with `g = s * m + t * a` and
/// `k * g = sg * m` for a sign `sg`, two solutions of `a * y = b` modulo `m` differ
/// by a multiple of `k`.
proof fn lemma_kernel_generator(
    m: int,
    a: int,
    b: int,
    g: int,
    s: int,
    t: int,
    u: int,
    w: int,
    k: int,
    sg: int,
    x: int,
    y: int,
) -> (f: int)
    requires
        0 < m,
        0 < g,
        g == s * m + t * a,
        m == u * g,
        a == w * g,
        k * g == sg * m,
        sg == 1 || sg == -1,
        cong(a * x, b, m),
        cong(a * y, b, m),
    ensures
        y == x + f * k,
{
    let d = y - x;
    assert(a * y - a * x == a * d) by (nonlinear_arith)
        requires
            d == y - x,
    ;
    lemma_cong_ops(a * y, b, a * x, b, m);
    assert(cong(a * d, 0, m));
    let j = lemma_cong_diff(a * d, 0, m);
    assert(w * d == j * u) by (nonlinear_arith)
        requires
            a * d - 0 == j * m,
            m == u * g,
            a == w * g,
            0 < g,
    ;
    assert(1 == s * u + t * w) by (nonlinear_arith)
        requires
            g == s * m + t * a,
            m == u * g,
            a == w * g,
            0 < g,
    ;
    let e = d * s + t * j;
    assert(d == u * e) by (nonlinear_arith)
        requires
            1 == s * u + t * w,
            w * d == j * u,
            e == d * s + t * j,
    ;
    assert(k == sg * u) by (nonlinear_arith)
        requires
            k * g == sg * m,
            m == u * g,
            0 < g,
    ;
    let f = sg * e;
    assert(d == f * k) by (nonlinear_arith)
        requires
            d == u * e,
            k == sg * u,
            f == sg * e,
            sg == 1 || sg == -1,
    ;
    f
}

/// The cofactors that the division chain of a ring element `a` with the modulus `m`
/// ends with: the greatest common divisor `g` is `s * m + t * a`, it divides the
/// modulus `u` times and `a` `w` times, and `k * g` is the modulus up to the sign `sg`.
pub struct Cofactors {
    pub g: int,
    pub s: int,
    pub t: int,
    pub k: int,
    pub u: int,
    pub w: int,
    pub sg: int,
}

impl Cofactors {
    /// Whether these are cofactors of `a` and the modulus `m`.
    pub open spec fn fit(self, m: int, a: int) -> bool {
        &&& 0 < self.g < m
        &&& self.g == self.s * m + self.t * a
        &&& m == self.u * self.g
        &&& a == self.w * self.g
        &&& self.k * self.g == self.sg * m
        &&& (self.sg == 1 || self.sg == -1)
    }
}

/// The quotient of the modulus by `a` is one more than that of `m - a` by `a`.
proof fn lemma_first_quotient(m: int, a: int)
    requires
        0 < a < m,
    ensures
        (m - a) / a + 1 == m / a,
{
    let q0 = (m - a) / a;
    vstd::arithmetic::div_mod::lemma_fundamental_div_mod(m - a, a);
    vstd::arithmetic::div_mod::lemma_mod_bound(m - a, a);
    assert(m == (q0 + 1) * a + (m - a) % a) by (nonlinear_arith)
        requires
            m - a == a * q0 + (m - a) % a,
    ;
    vstd::arithmetic::div_mod::lemma_fundamental_div_mod_converse(m, a, q0 + 1, (m - a) % a);
}

/// The relations of the division chain hold at its start.
proof fn lemma_euclid_start(m: int, a: int)
    ensures
        m == 1 * m + 0 * a,
        a == 0 * m + 1 * a,
        m == 1 * m + 0 * a,
        a == 0 * m + 1 * a,
        1 * m - 0 * a == 1 * m,
{
}

/// The remainder of `r0` by `r1`, as the ring computes it from congruent numbers.
proof fn lemma_ring_remainder(m: int, old_r: int, q: int, r: int, new_r: int, r0: int, r1: int)
    requires
        0 < r1 < r0 <= m,
        0 <= new_r < m,
        r == r1,
        cong(old_r, r0, m),
        cong(q, r0 / r1, m),
        new_r == (old_r - (q * r) % m) % m,
    ensures
        new_r == r0 - (r0 / r1) * r1,
        0 <= new_r < r1,
{
    let qq = r0 / r1;
    let r2 = r0 - qq * r1;
    vstd::arithmetic::div_mod::lemma_fundamental_div_mod(r0, r1);
    vstd::arithmetic::div_mod::lemma_mod_bound(r0, r1);
    assert(r2 == r0 % r1) by (nonlinear_arith)
        requires
            r0 == r1 * (r0 / r1) + r0 % r1,
            r2 == r0 - (r0 / r1) * r1,
    ;
    lemma_cong_ops(q, qq, r, r1, m);
    lemma_cong_mod(q * r, m);
    lemma_cong_ops(old_r, r0, (q * r) % m, qq * r1, m);
    lemma_mod_small(new_r, m);
    lemma_mod_small(r2, m);
    lemma_cong_mod(old_r - (q * r) % m, m);
}

/// The next cofactor, as the ring computes it from congruent numbers.
proof fn lemma_ring_cofactor(m: int, old_t: int, q: int, t: int, new_t: int, t0: int, t1: int, qq: int)
    requires
        0 < m,
        cong(old_t, t0, m),
        cong(t, t1, m),
        cong(q, qq, m),
        new_t == (old_t - (q * t) % m) % m,
    ensures
        cong(new_t, t0 - qq * t1, m),
{
    lemma_cong_ops(q, qq, t, t1, m);
    lemma_cong_mod(q * t, m);
    lemma_cong_ops(old_t, t0, (q * t) % m, qq * t1, m);
    lemma_cong_mod(old_t - (q * t) % m, m);
}

/// What the division chain ends with, from the remainders `r0` and `r1` and the
/// cofactors `t0` and `t1` on: the last remainder that is not zero, its cofactor and
/// the cofactor after it. A step divides `r0` by `r1` and takes the quotient times
/// `r1` from `r0`, and the quotient times `t1` from `t0`, this over the ring of `m`
/// elements.
pub open spec fn chain(r0: int, r1: int, t0: int, t1: int, m: int) -> (int, int, int)
    decreases r1,
{
    if r1 <= 0 || r0 < 0 {
        (r0, t0, t1)
    } else {
        chain(r1, r0 % r1, t1, (t0 - (((r0 / r1) % m) * t1) % m) % m, m)
    }
}

/// The solutions of `a * x = b` in the ring of `m` elements as the division chain of
/// the modulus and `a` gives them: with the greatest common divisor `g`, its
/// cofactor `c` and the cofactor `k` after it, the solution `(b / g) * c`, where it
/// is one, and `k`, whose multiples give the others. For `a` zero they are zero and
/// one where `b` is zero.
pub open spec fn scalar_solution(a: int, b: int, m: int) -> Option<(int, int)> {
    if a == 0 {
        if b == 0 {
            Some((0int, 1int))
        } else {
            None
        }
    } else {
        let (g, c, k) = chain(m, a, 0, 1, m);
        let x = ((b / g) * c) % m;
        if (a * x) % m == b {
            Some((x, k))
        } else {
            None
        }
    }
}

/// The division chain of `a` with the modulus: the greatest common divisor, its
/// cofactor and the cofactor of zero, each as a ring element.
fn euclid<T: UnsignedInt>(a: T) -> (res: (T, T, T, Ghost<Cofactors>))
    requires
        a.val() != 0,
    ensures
        (res.0.val(), res.1.val(), res.2.val()) == chain(T::modulus(), a.val(), 0, 1, T::modulus()),
        res.3@.fit(T::modulus(), a.val()),
        res.0.val() == res.3@.g,
        cong(res.1.val(), res.3@.t, T::modulus()),
        cong(res.2.val(), res.3@.k, T::modulus()),
{
    let ghost m = T::modulus();
    let ghost av = a.val();
    proof {
        T::lemma_modulus();
        a.lemma_val_bound();
    }
    // The first quotient is that of the modulus by `a`. The modulus is no ring
    // element, so it is had from the quotient of `modulus - a` by `a`.
    let mut old_r: T = T::zero();
    let mut r: T = a;
    let mut old_t: T = T::zero();
    let mut t: T = T::one();
    let mut q: T = T::zero().sub(a).div(a).add(T::one());

    let ghost mut r0: int = m;
    let ghost mut r1: int = av;
    let ghost mut s0: int = 1;
    let ghost mut t0: int = 0;
    let ghost mut s1: int = 0;
    let ghost mut t1: int = 1;
    let ghost mut u: int = 1;
    let ghost mut v: int = 0;
    let ghost mut w: int = 0;
    let ghost mut z: int = 1;
    let ghost mut sg: int = 1;
    let ghost goal = chain(m, av, 0, 1, m);
    proof {
        lemma_cong_add_multiple(-av, 1, m);
        lemma_mod_small(m - av, m);
        assert((0 - av) % m == m - av);
        lemma_first_quotient(m, av);
        lemma_cong_mod(m / av, m);
        lemma_euclid_start(m, av);
        lemma_mod_small(0, m);
        lemma_mod_small(1, m);
        crate::modular::lemma_mod_self(m);
    }
    loop
        invariant_except_break
            0 < r1 < r0 <= m,
            r.val() == r1,
            cong(old_r.val(), r0, m),
            cong(old_t.val(), t0, m),
            cong(t.val(), t1, m),
            cong(q.val(), r0 / r1, m),
            goal == chain(r0, r1, old_t.val(), t.val(), m),
        invariant
            m == T::modulus(),
            av == a.val(),
            0 < av < m,
            r0 == s0 * m + t0 * av,
            r1 == s1 * m + t1 * av,
            m == u * r0 + v * r1,
            av == w * r0 + z * r1,
            t1 * r0 - t0 * r1 == sg * m,
            sg == 1 || sg == -1,
        ensures
            0 < r0 < m,
            r1 == 0,
            old_r.val() == r0,
            cong(old_t.val(), t0, m),
            cong(t.val(), t1, m),
            goal == (r0, old_t.val(), t.val()),
        decreases r1,
    {
        let ghost qq = r0 / r1;
        let ghost r2 = r0 - qq * r1;
        let new_r: T = old_r.sub(q.mul(r));
        let new_t: T = old_t.sub(q.mul(t));
        proof {
            q.lemma_val_bound();
            lemma_mod_small(q.val(), m);
            assert(q.val() == qq % m);
            vstd::arithmetic::div_mod::lemma_fundamental_div_mod(r0, r1);
            assert(r2 == r0 % r1) by (nonlinear_arith)
                requires
                    r0 == r1 * (r0 / r1) + r0 % r1,
                    r2 == r0 - (r0 / r1) * r1,
            ;
            assert(goal == chain(r1, r2, t.val(), new_t.val(), m));
            new_r.lemma_val_bound();
            lemma_ring_remainder(m, old_r.val(), q.val(), r.val(), new_r.val(), r0, r1);
            lemma_ring_cofactor(m, old_t.val(), q.val(), t.val(), new_t.val(), t0, t1, qq);
            lemma_euclid_step(m, av, r0, r1, s0, t0, s1, t1, u, v, w, z, sg, qq);
            let ns = s0 - qq * s1;
            let nt = t0 - qq * t1;
            let nu = u * qq + v;
            let nw = w * qq + z;
            s0 = s1;
            t0 = t1;
            s1 = ns;
            t1 = nt;
            v = u;
            u = nu;
            z = w;
            w = nw;
            r0 = r1;
            r1 = r2;
            sg = -sg;
        }
        old_r = r;
        r = new_r;
        old_t = t;
        t = new_t;
        proof {
            old_r.lemma_val_bound();
            lemma_mod_small(old_r.val(), m);
        }
        if r.eq(T::zero()) {
            break ;
        }
        q = old_r.div(r);
        proof {
            q.lemma_val_bound();
            lemma_mod_small(q.val(), m);
        }
    }
    let ghost co = Cofactors { g: r0, s: s0, t: t0, k: t1, u: u, w: w, sg: sg };
    proof {
        assert(m == u * r0) by (nonlinear_arith)
            requires
                m == u * r0 + v * r1,
                r1 == 0,
        ;
        assert(av == w * r0) by (nonlinear_arith)
            requires
                av == w * r0 + z * r1,
                r1 == 0,
        ;
        assert(t1 * r0 == sg * m) by (nonlinear_arith)
            requires
                t1 * r0 - t0 * r1 == sg * m,
                r1 == 0,
        ;
    }
    (old_r, old_t, t, Ghost(co))
}

/// The points of the lattice through a solution `x` that `k` generates are the
/// solutions.
proof fn lemma_scalar_solutions<T: UnsignedInt>(co: Cofactors, a: int, b: int, x: int, k: int)
    requires
        co.fit(T::modulus(), a),
        cong(k, co.k, T::modulus()),
        solves::<T>(a, x, b),
    ensures
        is_solution_set::<T>(a, b, x, k),
{
    let m = T::modulus();
    assert(a * co.k == (co.w * co.sg) * m) by (nonlinear_arith)
        requires
            a == co.w * co.g,
            co.k * co.g == co.sg * m,
    ;
    lemma_cong_add_multiple(0, co.w * co.sg, m);
    lemma_cong_ops(a, a, k, co.k, m);
    assert(cong(a * k, 0, m));
    assert forall|f: int| solves::<T>(a, #[trigger] lattice_point(x, k, f), b) by {
        lemma_cong_ops(a * k, 0, f, f, m);
        lemma_cong_ops(a * x, b, (a * k) * f, 0 * f, m);
        assert(a * lattice_point(x, k, f) == a * x + (a * k) * f) by (nonlinear_arith)
            requires
                lattice_point(x, k, f) == x + f * k,
        ;
    }
    assert forall|y: int| solves::<T>(a, y, b) implies exists|f: int|
        cong(#[trigger] lattice_point(x, k, f), y, m) by {
        let f = lemma_kernel_generator(m, a, b, co.g, co.s, co.t, co.u, co.w, co.k, co.sg, x, y);
        lemma_cong_ops(f, f, k, co.k, m);
        lemma_cong_ops(x, x, f * k, f * co.k, m);
        assert(cong(lattice_point(x, k, f), y, m));
    }
}

/// Where the candidate `(b / g) * t` is no solution, there is none.
proof fn lemma_scalar_unsolvable<T: UnsignedInt>(co: Cofactors, a: int, b: int, c: int, x: int)
    requires
        co.fit(T::modulus(), a),
        0 <= b < T::modulus(),
        cong(c, co.t, T::modulus()),
        cong(x, (b / co.g) * c, T::modulus()),
        !solves::<T>(a, x, b),
    ensures
        has_no_solution::<T>(a, b),
{
    let m = T::modulus();
    assert forall|y: int| !solves::<T>(a, y, b) by {
        if solves::<T>(a, y, b) {
            lemma_solution_from_bezout(m, a, b, co.g, co.s, co.t, co.u, co.w, y);
            lemma_cong_ops(b / co.g, b / co.g, c, co.t, m);
            lemma_cong_ops(a, a, x, (b / co.g) * co.t, m);
            assert(false);
        }
    }
}

/// Solves `a * x = b` in the ring of `T`. The result is `None` where no ring element
/// solves it. Otherwise it is a solution `x` together with a `k` such that the
/// solutions are the ring elements `x + t * k`. Where `a` is zero it is `(0, 1)` or
/// `None`.
pub fn solve_scalar_congruence<T: UnsignedInt>(a: T, b: T) -> (res: Option<(T, T)>)
    ensures
        match res {
            Some((x, k)) => {
                &&& scalar_solution(a.val(), b.val(), T::modulus()) == Some((x.val(), k.val()))
                &&& is_solution_set::<T>(a.val(), b.val(), x.val(), k.val())
                &&& a.val() == 0 ==> x.val() == 0 && k.val() == 1
            },
            None => scalar_solution(a.val(), b.val(), T::modulus()) is None && has_no_solution::<T>(
                a.val(),
                b.val(),
            ),
        },
{
    let ghost m = T::modulus();
    let ghost av = a.val();
    let ghost bv = b.val();
    proof {
        T::lemma_modulus();
        a.lemma_val_bound();
        b.lemma_val_bound();
        lemma_mod_small(bv, m);
    }
    if a.eq(T::zero()) {
        if b.eq(T::zero()) {
            let x: T = T::zero();
            let k: T = T::one();
            proof {
                lemma_zero_solutions::<T>();
            }
            return Some((x, k));
        } else {
            proof {
                assert forall|y: int| !solves::<T>(av, y, bv) by {
                    assert(av * y == 0) by (nonlinear_arith)
                        requires
                            av == 0,
                    ;
                    lemma_mod_small(0, m);
                }
            }
            return None;
        }
    }
    let (gcd, c, k, Ghost(co)) = euclid(a);
    // gcd is the greatest common divisor of a and the modulus, and c its cofactor:
    // a * c = gcd in the ring.
    let x: T = b.div(gcd).mul(c);
    proof {
        lemma_cong_mod((bv / co.g) * c.val(), m);
    }
    if !a.mul(x).eq(b) {
        proof {
            lemma_cong_mod(av * x.val(), m);
            lemma_scalar_unsolvable::<T>(co, av, bv, c.val(), x.val());
        }
        return None;
    }
    proof {
        lemma_cong_mod(av * x.val(), m);
        lemma_scalar_solutions::<T>(co, av, bv, x.val(), k.val());
    }
    Some((x, k))
}

/// Every number solves `0 * y = 0`.
proof fn lemma_zero_solutions<T: UnsignedInt>()
    ensures
        is_solution_set::<T>(0, 0, 0, 1),
{
    let m = T::modulus();
    assert forall|t: int| solves::<T>(0, #[trigger] lattice_point(0, 1, t), 0) by {
        assert(0 * lattice_point(0, 1, t) == 0);
    }
    assert(0int * 0int == 0);
    assert forall|y: int| solves::<T>(0, y, 0) implies exists|t: int|
        cong(#[trigger] lattice_point(0, 1, t), y, m) by {
        assert(lattice_point(0, 1, y) == y);
    }
}

/// Turns `a` into a diagonal matrix `d` by exchanging rows and columns and by adding
/// multiples of one to another, and returns the matrices `(s, t)` that undergo the
/// row and the column operations from the identity on: `d = s * a * t`, and `x`
/// solves a system `a * x = b` where it is `t * y` for a solution `y` of
/// `d * y = s * b`, and only there.
pub fn diagonalize<T: UnsignedInt>(a: &mut Matrix<T>) -> (res: (Matrix<T>, Matrix<T>))
    requires
        old(a).wf(),
        old(a).rows * old(a).rows <= usize::MAX,
        old(a).cols * old(a).cols <= usize::MAX,
    ensures
        is_diagonalization(final(a), &res.0, &res.1, old(a)),
        is_equivalent_form(final(a), &res.0, old(a), &res.1),
        final(a).is_diagonal(),
{
    let mut s = Matrix::<T>::id(a.rows);
    let mut t = Matrix::<T>::id(a.cols);
    let ghost a0 = *a;
    let ghost g0 = grid(&a0);
    let ghost s0 = g_id(a0.rows as int);
    let ghost t0 = g_id(a0.cols as int);
    let ghost mut used: nat = 0;
    let n: usize = a.min_dim();
    proof {
        lemma_triple_identity(&a0, &s, &t);
        lemma_same_solutions_identity(&a0, &s, &t);
        lemma_grid_id(&s);
        lemma_grid_id(&t);
        lemma_reached_start(g0, s0, t0, n as int, T::modulus());
    }
    let mut i: usize = 0;
    while i < n
        invariant
            is_equivalent_form(a, &s, &a0, &t),
            cleared(a, i as int),
            i <= n,
            n <= a.rows,
            n <= a.cols,
            n == short_side(&a0),
            g0 == grid(&a0),
            s0 == g_id(a0.rows as int),
            t0 == g_id(a0.cols as int),
            is_reached(g0, s0, t0, used, grid(a), grid(&s), grid(&t), i as int, n as int, T::modulus()),
        decreases n - i,
    {
        // Eliminate row i and column i. What is known of the entries that are left
        // to eliminate: nothing (2); those of the column are smaller than the
        // diagonal entry (1); the column is zero and those of the row are smaller
        // than the diagonal entry (0).
        let ghost mut known: int = 2;
        loop
            invariant
                is_equivalent_form(a, &s, &a0, &t),
                cleared(a, i as int),
                i < a.rows,
                i < a.cols,
                i < n,
                n <= a.rows,
                n <= a.cols,
                is_reached(
                    g0,
                    s0,
                    t0,
                    used,
                    grid(a),
                    grid(&s),
                    grid(&t),
                    i as int,
                    n as int,
                    T::modulus(),
                ),
                0 <= known <= 2,
                known <= 1 ==> forall|k: int|
                    i < k < a.rows ==> #[trigger] a.val_at(k, i as int) < a.val_at(
                        i as int,
                        i as int,
                    ),
                known == 0 ==> col_zero_below(a, i as int) && forall|k: int|
                    i < k < a.cols ==> #[trigger] a.val_at(i as int, k) < a.val_at(
                        i as int,
                        i as int,
                    ),
            ensures
                col_zero_below(a, i as int),
                row_zero_right(a, i as int),
            decreases pivot_measure(a, i as int), known,
        {
            let ghost before = *a;
            let ghost s1 = s;
            let ghost t1 = t;
            proof {
                T::lemma_modulus();
                a.at(i as int, i as int).lemma_val_bound();
            }
            if !col_is_zero_below(a, i) {
                let ghost k0 = choose|k: int| i < k < a.rows && a.val_at(k, i as int) != 0;
                proof {
                    before.at(k0, i as int).lemma_val_bound();
                    assert(before.val_at(k0, i as int) != 0);
                }
                eliminate_col(a, &mut s, i, Ghost(a0), Ghost(t));
                proof {
                    lemma_reached_col(g0, s0, t0, used, &before, &s1, &t1, a, &s, i as int, n as int);
                    used = used + 1;
                    a.at(i as int, i as int).lemma_val_bound();
                    if known <= 1 {
                        assert(before.val_at(k0, i as int) < before.val_at(i as int, i as int));
                    }
                    known = 1;
                }
            } else if row_is_zero_right(a, i) {
                break ;
            } else {
                let ghost k0 = choose|k: int| i < k < a.cols && a.val_at(i as int, k) != 0;
                proof {
                    before.at(i as int, k0).lemma_val_bound();
                    assert(before.val_at(i as int, k0) != 0);
                }
                eliminate_row(a, &mut t, i, Ghost(a0), Ghost(s));
                proof {
                    lemma_reached_row(g0, s0, t0, used, &before, &s1, &t1, a, &t, i as int, n as int);
                    used = used + 1;
                    a.at(i as int, i as int).lemma_val_bound();
                    if known == 0 {
                        assert(before.val_at(i as int, k0) < before.val_at(i as int, i as int));
                    }
                    if a.val_at(i as int, i as int) == before.val_at(i as int, i as int) {
                        assert forall|k: int| i < k < a.rows implies #[trigger] a.val_at(
                            k,
                            i as int,
                        ) == 0 by {
                            assert(a.at(k, i as int) == before.at(k, i as int));
                            assert(before.val_at(k, i as int) == 0);
                        }
                        known = 0;
                    } else {
                        known = 2;
                    }
                }
            }
        }
        proof {
            lemma_reached_next(g0, s0, t0, used, a, &s, &t, i as int, n as int);
            used = used + 1;
            assert forall|r: int, c: int|
                a.has(r, c) && r != c && (r < i + 1 || c < i + 1) implies #[trigger] a.val_at(r, c)
                == 0 by {
                if r < i || c < i {
                } else if r == i {
                    assert(a.val_at(i as int, c) == 0);
                } else {
                    assert(a.val_at(r, i as int) == 0);
                }
            }
        }
        i += 1;
    }
    proof {
        lemma_reached_end(g0, s0, t0, used, grid(a), grid(&s), grid(&t), n as int, T::modulus());
    }
    (s, t)
}

/// Whether the points of the lattice `l` are the solutions of the system `a * x = b`
/// over the ring.
pub open spec fn is_solution_lattice<T: UnsignedInt>(
    l: &AffineLattice<T>,
    a: &Matrix<T>,
    b: &Vector<T>,
) -> bool {
    &&& l.wf()
    &&& l.offset@.len() == a.cols
    &&& forall|cs: Seq<int>|
        cs.len() == l.basis@.len() ==> a.solved_by(#[trigger] l.point(cs), b.vals())
    &&& forall|x: Seq<int>| #[trigger] a.solved_by(x, b.vals()) ==> l.contains(x)
}

/// Whether the system `a * x = b` has no solution over the ring.
pub open spec fn is_unsolvable<T: UnsignedInt>(a: &Matrix<T>, b: &Vector<T>) -> bool {
    forall|x: Seq<int>| !a.solved_by(x, b.vals())
}

/// The right-hand sides `s * b`, as the ring computes them, are those of the
/// integers, over the ring.
pub proof fn lemma_image_cong<T: UnsignedInt>(s: &Matrix<T>, b: &Vector<T>, bp: &Vector<T>)
    requires
        s.is_image(b, bp),
    ensures
        cong_seq(bp.vals(), s.apply(b.vals()), T::modulus()),
        cong_seq(s.apply(b.vals()), bp.vals(), T::modulus()),
{
    let md = T::modulus();
    T::lemma_modulus();
    assert forall|p: int| 0 <= p < s.rows implies cong(
        #[trigger] bp.vals()[p],
        s.apply(b.vals())[p],
        md,
    ) by {
        lemma_cong_mod(s.apply_at(b.vals(), p), md);
    }
    assert(cong_seq(bp.vals(), s.apply(b.vals()), md));
    assert(cong_seq(s.apply(b.vals()), bp.vals(), md));
}

/// Where the diagonal system has no solution, the system has none.
pub proof fn lemma_no_solution<T: UnsignedInt>(
    a: &Matrix<T>,
    b: &Vector<T>,
    d: &Matrix<T>,
    s: &Matrix<T>,
    t: &Matrix<T>,
    bp: &Vector<T>,
)
    requires
        is_equivalent_form(d, s, a, t),
        s.is_image(b, bp),
        is_unsolvable(d, bp),
    ensures
        is_unsolvable(a, b),
{
    lemma_image_cong(s, b, bp);
    assert forall|x: Seq<int>| !a.solved_by(x, b.vals()) by {
        if a.solved_by(x, b.vals()) {
            let y = choose|y: Seq<int>| #[trigger] lifts(d, s, t, b.vals(), x, y);
            lemma_solved_by_cong(d, y, s.apply(b.vals()), y, bp.vals());
            assert(false);
        }
    }
}

/// Where the points of a lattice are the solutions of the diagonal system, the
/// points of the lattice of their products with `t` are the solutions of the
/// system.
pub proof fn lemma_solution_lattice<T: UnsignedInt>(
    a: &Matrix<T>,
    b: &Vector<T>,
    d: &Matrix<T>,
    s: &Matrix<T>,
    t: &Matrix<T>,
    bp: &Vector<T>,
    pre: &AffineLattice<T>,
    l: &AffineLattice<T>,
)
    requires
        is_equivalent_form(d, s, a, t),
        b@.len() == a.rows,
        s.is_image(b, bp),
        is_solution_lattice(pre, d, bp),
        l.is_image_of(t, pre),
        l.wf(),
    ensures
        is_solution_lattice(l, a, b),
{
    let md = T::modulus();
    lemma_image_cong(s, b, bp);
    assert forall|cs: Seq<int>| cs.len() == l.basis@.len() implies a.solved_by(
        #[trigger] l.point(cs),
        b.vals(),
    ) by {
        let y = pre.point(cs);
        assert(d.solved_by(y, bp.vals()));
        lemma_solved_by_cong(d, y, bp.vals(), y, s.apply(b.vals()));
        assert(a.solved_by(t.apply(y), b.vals()));
        lemma_image_of_point(t, pre, l, cs);
        lemma_solved_by_cong(a, t.apply(y), b.vals(), l.point(cs), b.vals());
    }
    assert forall|x: Seq<int>| #[trigger] a.solved_by(x, b.vals()) implies l.contains(x) by {
        let y = choose|y: Seq<int>| #[trigger] lifts(d, s, t, b.vals(), x, y);
        lemma_solved_by_cong(d, y, s.apply(b.vals()), y, bp.vals());
        assert(pre.contains(y));
        let cs = choose|cs: Seq<int>|
            cs.len() == pre.basis@.len() && cong_seq(#[trigger] pre.point(cs), y, md);
        lemma_apply_cong_seq(t, pre.point(cs), y);
        lemma_image_of_point(t, pre, l, cs);
        assert(cong_seq(l.point(cs), x, md)) by {
            assert forall|q: int| 0 <= q < l.point(cs).len() implies cong(
                #[trigger] l.point(cs)[q],
                x[q],
                md,
            ) by {
                assert(cong(t.apply(pre.point(cs))[q], l.point(cs)[q], md));
                assert(cong(t.apply(pre.point(cs))[q], t.apply(y)[q], md));
                assert(cong(t.apply(y)[q], x[q], md));
            }
        }
    }
}

/// Whether the lattice `l` is assembled for the system `a * x = b` from the
/// diagonalization `d`, `s` and `t` of `a`, the right-hand sides `bp = s * b` and the
/// solutions `pre` of the diagonal system: the empty lattice where `pre` is, and else
/// the products of `t` with the offset and with each vector of the basis of `pre`.
pub open spec fn is_assembled<T: UnsignedInt>(
    l: &AffineLattice<T>,
    a: &Matrix<T>,
    b: &Vector<T>,
    d: &Matrix<T>,
    s: &Matrix<T>,
    t: &Matrix<T>,
    bp: &Vector<T>,
    pre: &AffineLattice<T>,
) -> bool {
    &&& is_diagonalization(d, s, t, a)
    &&& d.same_dims(a)
    &&& s.rows == a.rows && s.cols == a.rows
    &&& t.rows == a.cols && t.cols == a.cols
    &&& s.is_image(b, bp)
    &&& is_diagonal_solution(pre, d, bp)
    &&& if pre.offset@.len() == 0 {
        l.offset@.len() == 0 && l.basis@.len() == 0
    } else {
        l.is_image_of(t, pre)
    }
}

/// Whether the lattice `l` is the one that the diagonalization of `a` gives for the
/// system `a * x = b`.
pub open spec fn is_lattice_of<T: UnsignedInt>(
    l: &AffineLattice<T>,
    a: &Matrix<T>,
    b: &Vector<T>,
) -> bool {
    exists|d: Matrix<T>, s: Matrix<T>, t: Matrix<T>, bp: Vector<T>, pre: AffineLattice<T>| #[trigger]
        is_assembled(l, a, b, &d, &s, &t, &bp, &pre)
}

/// The solutions of the system `a * x = b` over the ring: the lattice that the
/// diagonalization of `a` gives. Where the system has unknowns, the result is the
/// empty lattice if it has no solution, and else the lattice whose points are its
/// solutions.
pub fn solve_congruences<T: UnsignedInt>(a: Matrix<T>, b: &Vector<T>) -> (l: AffineLattice<T>)
    requires
        a.wf(),
        a.rows == b@.len(),
        a.rows * a.rows <= usize::MAX,
        a.cols * a.cols <= usize::MAX,
    ensures
        is_lattice_of(&l, &a, b),
        l.wf(),
        l.offset@.len() == 0 || l.offset@.len() == a.cols,
        l.offset@.len() == 0 && a.cols > 0 ==> is_unsolvable(&a, b),
        l.offset@.len() > 0 ==> is_solution_lattice(&l, &a, b),
{
    let ghost a0 = a;
    let mut d = a;
    // Diagonalize the system, and transform the right-hand sides with it.
    let (s, t) = diagonalize(&mut d);
    let bp = s.mul_vec(b);
    let pre = solve_diagonal(&d, &bp);
    if pre.is_empty() {
        let l = AffineLattice::empty();
        proof {
            if a0.cols > 0 {
                lemma_no_solution(&a0, b, &d, &s, &t, &bp);
            }
            assert(is_assembled(&l, &a0, b, &d, &s, &t, &bp, &pre));
        }
        return l;
    }
    // Carry the solutions of the diagonal system over.
    let l = pre.transformed(&t);
    proof {
        lemma_solution_lattice(&a0, b, &d, &s, &t, &bp, &pre, &l);
        assert(is_assembled(&l, &a0, b, &d, &s, &t, &bp, &pre));
    }
    l
}

/// What the division chain of `a` and `n` gives for `a * x = b` in the ring of `m`
/// elements: with the last remainder `g` that is not zero and the cofactors `c` and
/// `t` that the chain ends with, `(b / g) * c` and `t`, where the first is a
/// solution. For `a` zero it is zero and one where `b` is zero.
pub open spec fn scalar_solution_mod(a: int, b: int, n: int, m: int) -> Option<(int, int)> {
    if a == 0 {
        if b == 0 {
            Some((0int, 1int))
        } else {
            None
        }
    } else {
        let (g, c, t) = chain(a, n, 0, 1, m);
        let x = ((b / g) * c) % m;
        if (a * x) % m == b {
            Some((x, t))
        } else {
            None
        }
    }
}

/// A solution `x` of `a * x = b` in the ring of `T`, and a second number, both from
/// the division chain of `a` and `n`: with the last remainder `g` that is not zero
/// and the cofactors `c` and `t` that the chain ends with, `x` is `(b / g) * c`, and
/// the second number is `t`. The result is `None` where that `x` is no solution.
/// Where `a` is zero it is `(0, 1)` or `None`.
pub fn solve_scalar_congruence_mod<T: UnsignedInt>(a: T, b: T, n: T) -> (res: Option<(T, T)>)
    requires
        n.val() != 0,
    ensures
        match res {
            Some((x, k)) => scalar_solution_mod(a.val(), b.val(), n.val(), T::modulus()) == Some(
                (x.val(), k.val()),
            ),
            None => scalar_solution_mod(a.val(), b.val(), n.val(), T::modulus()) is None,
        },
        res matches Some((x, k)) ==> solves::<T>(a.val(), x.val(), b.val()),
        a.val() == 0 && b.val() != 0 ==> res is None,
        a.val() == 0 && b.val() == 0 ==> (res matches Some((x, k)) && x.val() == 0 && k.val() == 1),
{
    let ghost md = T::modulus();
    proof {
        T::lemma_modulus();
        a.lemma_val_bound();
        b.lemma_val_bound();
        n.lemma_val_bound();
        lemma_mod_small(b.val(), md);
    }
    // Handle the case that a is zero, so we don't have to think about it.
    if a.eq(T::zero()) {
        if b.eq(T::zero()) {
            proof {
                assert(a.val() * 0 == 0);
            }
            return Some((T::zero(), T::one()));
        } else {
            return None;
        }
    }
    let mut old_r: T = a;
    let mut r: T = n;
    let mut old_t: T = T::zero();
    let mut t: T = T::one();
    let ghost goal = chain(a.val(), n.val(), 0, 1, md);
    while !r.eq(T::zero())
        invariant
            md == T::modulus(),
            md > 1,
            0 <= r.val() < md,
            0 < old_r.val() < md,
            goal == chain(old_r.val(), r.val(), old_t.val(), t.val(), md),
        decreases r.val(),
    {
        let q: T = old_r.div(r);
        let next_r: T = old_r.sub(q.mul(r));
        let next_t: T = old_t.sub(q.mul(t));
        proof {
            q.lemma_val_bound();
            lemma_mod_small(q.val(), md);
            vstd::arithmetic::div_mod::lemma_fundamental_div_mod(old_r.val(), r.val());
            vstd::arithmetic::div_mod::lemma_mod_bound(old_r.val(), r.val());
            let qr = q.val() * r.val();
            assert(qr == old_r.val() - old_r.val() % r.val()) by (nonlinear_arith)
                requires
                    old_r.val() == r.val() * (old_r.val() / r.val()) + old_r.val() % r.val(),
                    qr == (old_r.val() / r.val()) * r.val(),
            ;
            lemma_mod_small(qr, md);
            lemma_mod_small(old_r.val() - qr, md);
            next_t.lemma_val_bound();
            assert(next_r.val() == old_r.val() % r.val());
            assert(goal == chain(r.val(), next_r.val(), t.val(), next_t.val(), md));
        }
        old_r = r;
        r = next_r;
        old_t = t;
        t = next_t;
    }
    // old_r is the last remainder of the chain.
    let gcd: T = old_r;
    let x: T = b.div(gcd).mul(old_t);
    if !a.mul(x).eq(b) {
        return None;
    }
    Some((x, t))
}

} // verus!
