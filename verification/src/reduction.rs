//! The reduction of polynomials by the zero ideal, and the composition of
//! polynomials.

use vstd::prelude::*;
use vstd::arithmetic::power2::{pow2, lemma_pow2_pos, lemma_pow2_strictly_increases, lemma2_to64};
use crate::numbers::UnsignedInt;
use crate::polynomial::{
    Polynomial, coeff, trimmed, poly_eval, sub_shifted, product_coeff, product_upto,
    lemma_eval_cong, lemma_eval_sub_shifted, lemma_eval_push, lemma_eval_trimmed,
    lemma_eval_product,
};
use crate::zero_ideal::{ZeroIdeal, falling, scaled, reduced, lemma_falling_monic};
use crate::ideal_laws::lemma_generator_vanishes;
use crate::modular::{cong, lemma_cong_ops, lemma_cong_mod, lemma_mod_small};

verus! {

/// Whether the two polynomials have the same value, in the ring, at every natural
/// number, and so on every element of the ring.
pub open spec fn same_function(p: Seq<int>, q: Seq<int>, m: int) -> bool {
    forall|x: int| 0 <= x ==> cong(#[trigger] poly_eval(p, x), poly_eval(q, x), m)
}

/// Whether the polynomial is zero, in the ring, at every natural number.
pub open spec fn vanishes(g: Seq<int>, m: int) -> bool {
    forall|x: int| 0 <= x ==> cong(#[trigger] poly_eval(g, x), 0, m)
}

/// A polynomial keeps its values where a multiple of a polynomial that vanishes is
/// taken from it.
pub proof fn lemma_reduction_step(p: Seq<int>, r: Seq<int>, g: Seq<int>, s: int, k: int, m: int)
    requires
        m > 0,
        r.len() == p.len(),
        0 <= s,
        s + g.len() <= p.len(),
        forall|i: int| 0 <= i < p.len() ==> cong(#[trigger] r[i], p[i] - k * coeff(g, i - s), m),
        vanishes(g, m),
    ensures
        same_function(r, p, m),
{
    assert forall|x: int| 0 <= x implies cong(#[trigger] poly_eval(r, x), poly_eval(p, x), m) by {
        let d = sub_shifted(p, g, s, k);
        lemma_eval_cong(r, d, x, m);
        lemma_eval_sub_shifted(p, g, s, k, x);
        let pw = vstd::arithmetic::power::pow(x, s as nat);
        assert(cong(poly_eval(g, x), 0, m));
        lemma_cong_ops(pw, pw, poly_eval(g, x), 0, m);
        lemma_cong_ops(k, k, pw * poly_eval(g, x), pw * 0, m);
        lemma_cong_ops(poly_eval(p, x), poly_eval(p, x), k * (pw * poly_eval(g, x)), k * (pw * 0), m);
        assert(k * (pw * 0) == 0) by (nonlinear_arith);
    }
}

impl<T: UnsignedInt> ZeroIdeal<T> {
    /// Generator `k` has a coefficient for each of its factors and one more, the last
    /// of them the power of two that it is scaled with, and is zero on the ring.
    pub proof fn lemma_generator(&self, k: int)
        requires
            self.wf(),
            0 <= k < self.gen@.len(),
        ensures
            self.gen@[k]@.len() == 2 * k + 3,
            self.gen@[k]@.last() == pow2(Self::scale_of(k)),
            0 < self.gen@[k]@.last() < T::modulus(),
            k == self.gen@.len() - 1 ==> self.gen@[k]@.last() == 1,
            vanishes(self.gen@[k]@, T::modulus()),
    {
        let md = T::modulus();
        T::lemma_modulus();
        lemma2_to64();
        let i = Self::factors(k);
        let e = Self::scale_of(k);
        lemma_falling_monic(i);
        assert(self.gen@[k]@ == Self::generator(k));
        let c = scaled(falling(i), pow2(e) as int);
        assert(c.last() == 1 * pow2(e));
        lemma_pow2_pos(e);
        if e > 0 {
            lemma_pow2_strictly_increases(e, T::bits());
        }
        if e < T::bits() {
            if e > 0 {
            } else {
                lemma_pow2_pos(T::bits());
            }
            lemma_mod_small(pow2(e) as int, md);
        }
        assert(Self::generator(k).last() == c.last() % md);
        assert forall|x: int| 0 <= x implies cong(
            #[trigger] poly_eval(self.gen@[k]@, x),
            0,
            md,
        ) by {
            lemma_generator_vanishes::<T>(k, x);
        }
    }
}

impl<T: UnsignedInt> Polynomial<T> {
    /// Takes from the polynomial `k` times `X^s` times the polynomial `g`.
    pub fn sub_multiple(&mut self, g: &Polynomial<T>, s: usize, k: T)
        requires
            s + g@.len() <= old(self)@.len(),
        ensures
            final(self)@.len() == old(self)@.len(),
            forall|i: int|
                0 <= i < old(self)@.len() ==> #[trigger] final(self)@[i] == (old(self)@[i] - k.val()
                    * coeff(g@, i - s)) % T::modulus(),
    {
        let ghost md = T::modulus();
        let ghost c = self@;
        proof {
            T::lemma_modulus();
            self.lemma_bounds();
            assert forall|i: int| 0 <= i < c.len() implies #[trigger] c[i] == (c[i] - k.val() * 0)
                % md by {
                assert(k.val() * 0 == 0);
                lemma_mod_small(c[i], md);
            }
        }
        let n: usize = self.coeffs.len();
        let mut t: usize = 0;
        while t < g.coeffs.len()
            invariant
                t <= g@.len(),
                n == c.len(),
                s + g@.len() <= c.len(),
                self@.len() == c.len(),
                md == T::modulus(),
                md > 0,
                forall|i: int| 0 <= i < c.len() ==> #[trigger] c[i] == (c[i] - k.val() * 0) % md,
                forall|i: int|
                    0 <= i < c.len() && !(s <= i < s + t) ==> #[trigger] self@[i] == c[i],
                forall|i: int|
                    s <= i < s + t ==> #[trigger] self@[i] == (c[i] - k.val() * g@[i - s]) % md,
            decreases g@.len() - t,
        {
            let ghost before = self@;
            let e: T = self.coeffs[s + t].sub(k.mul(g.coeffs[t]));
            self.coeffs[s + t] = e;
            proof {
                assert(before[s + t] == c[s + t]);
                lemma_cong_mod(k.val() * g@[t as int], md);
                lemma_cong_ops(
                    c[s + t],
                    c[s + t],
                    (k.val() * g@[t as int]) % md,
                    k.val() * g@[t as int],
                    md,
                );
                assert forall|i: int| 0 <= i < c.len() && !(s <= i < s + t + 1) implies #[trigger] self@[i]
                    == c[i] by {
                    assert(self@[i] == before[i]);
                }
                assert forall|i: int| s <= i < s + t + 1 implies #[trigger] self@[i] == (c[i]
                    - k.val() * g@[i - s]) % md by {
                    if i < s + t {
                        assert(self@[i] == before[i]);
                    }
                }
            }
            t += 1;
        }
    }

    /// Brings the degree of the polynomial below that of the generator of the
    /// highest degree, by taking multiples of that generator from it.
    pub fn reduce(&mut self, zi: &ZeroIdeal<T>)
        requires
            zi.wf(),
        ensures
            same_function(final(self)@, old(self)@, T::modulus()),
            final(self)@ == trimmed(final(self)@),
            final(self)@.len() <= 2 * zi.gen@.len(),
    {
        let ghost md = T::modulus();
        let top: usize = zi.gen.len() - 1;
        let gen = &zi.gen[top];
        proof {
            T::lemma_modulus();
            zi.lemma_generator(top as int);
        }
        let d: usize = gen.coeffs.len() - 1;
        while self.coeffs.len() >= gen.coeffs.len()
            invariant
                md == T::modulus(),
                md > 1,
                gen@.len() == d + 1,
                d == 2 * zi.gen@.len(),
                gen@.last() == 1,
                vanishes(gen@, md),
                same_function(self@, old(self)@, md),
            decreases self@.len(),
        {
            let ghost p = self@;
            let n: usize = self.coeffs.len();
            let c: T = self.coeffs[n - 1];
            self.sub_multiple(gen, n - 1 - d, c);
            let ghost r = self@;
            proof {
                assert forall|i: int| 0 <= i < p.len() implies cong(
                    #[trigger] r[i],
                    p[i] - c.val() * coeff(gen@, i - (n - 1 - d)),
                    md,
                ) by {
                    lemma_cong_mod(p[i] - c.val() * coeff(gen@, i - (n - 1 - d)), md);
                }
                lemma_reduction_step(p, r, gen@, n - 1 - d, c.val(), md);
                // the leading coefficient is gone
                assert(r[n - 1] == (p[n - 1] - c.val() * gen@[d as int]) % md);
                assert(c.val() * 1 == c.val());
                lemma_mod_small(0, md);
            }
            self.coeffs.pop();
            proof {
                assert(r =~= self@.push(0));
                assert forall|x: int| 0 <= x implies cong(
                    #[trigger] poly_eval(self@, x),
                    poly_eval(old(self)@, x),
                    md,
                ) by {
                    lemma_eval_push(self@, 0, x);
                    assert(0 * vstd::arithmetic::power::pow(x, self@.len()) == 0);
                    assert(cong(poly_eval(r, x), poly_eval(p, x), md));
                    assert(cong(poly_eval(p, x), poly_eval(old(self)@, x), md));
                }
            }
        }
        let ghost before = self@;
        self.truncate();
        proof {
            lemma_trimmed(before);
            assert forall|x: int| 0 <= x implies cong(
                #[trigger] poly_eval(self@, x),
                poly_eval(old(self)@, x),
                md,
            ) by {
                lemma_eval_trimmed(before, x);
                assert(cong(poly_eval(before, x), poly_eval(old(self)@, x), md));
            }
        }
    }
}

/// Coefficients without zeros at their end stay as they are when the zeros at their
/// end are removed, and are no more than before.
pub proof fn lemma_trimmed(c: Seq<int>)
    ensures
        trimmed(trimmed(c)) == trimmed(c),
        trimmed(c).len() <= c.len(),
        trimmed(c).len() > 0 ==> trimmed(c).last() != 0,
    decreases c.len(),
{
    if c.len() > 0 && c.last() == 0 {
        lemma_trimmed(c.drop_last());
    }
}

/// Where the coefficients from index `n` on are zero, none is left from there on
/// when the zeros at the end are removed, and the others stay.
pub proof fn lemma_trimmed_upto(c: Seq<int>, n: int)
    requires
        0 <= n,
        forall|i: int| n <= i < c.len() ==> #[trigger] c[i] == 0,
    ensures
        trimmed(c).len() <= n || trimmed(c).len() <= c.len() && n >= c.len(),
        forall|i: int| 0 <= i < trimmed(c).len() ==> #[trigger] trimmed(c)[i] == c[i],
        trimmed(c).len() <= c.len(),
    decreases c.len(),
{
    if c.len() > 0 && c.last() == 0 {
        lemma_trimmed_upto(c.drop_last(), n);
    } else if c.len() > 0 {
        assert(c[c.len() - 1] != 0);
    }
}

impl<T: UnsignedInt> ZeroIdeal<T> {
    /// The generator that reduces the coefficient of `X^i`: the one of the highest
    /// degree that is not above `i`.
    pub open spec fn reducer(&self, i: int) -> int {
        if i / 2 - 1 >= self.gen@.len() - 1 {
            self.gen@.len() - 1
        } else {
            i / 2 - 1
        }
    }

    /// Whether each coefficient from that of `X^2` on is below the leading
    /// coefficient of the generator that reduces it.
    pub open spec fn is_reduced(&self, c: Seq<int>) -> bool {
        forall|i: int| 2 <= i < c.len() ==> #[trigger] c[i] < self.gen@[self.reducer(i)]@.last()
    }
}

impl<T: UnsignedInt> Polynomial<T> {
    /// Brings the polynomial into its reduced form by the ideal: takes multiples of
    /// the generators from it, from the highest degree down, so that each
    /// coefficient comes below the leading coefficient of the generator that
    /// reduces it.
    pub fn simplify(&mut self, zi: &ZeroIdeal<T>)
        requires
            zi.wf(),
        ensures
            same_function(final(self)@, old(self)@, T::modulus()),
            final(self)@ == trimmed(final(self)@),
            final(self)@.len() <= 2 * zi.gen@.len(),
            zi.is_reduced(final(self)@),
    {
        let ghost md = T::modulus();
        proof {
            T::lemma_modulus();
        }
        if self.coeffs.len() == 0 {
            assert(self@ =~= Seq::<int>::empty());
            return ;
        }
        let len: usize = self.coeffs.len();
        let mut at: usize = len;
        let mut k: usize = zi.gen.len();
        while k > 0
            invariant
                zi.wf(),
                md == T::modulus(),
                md > 1,
                k <= zi.gen@.len(),
                self@.len() == len,
                at <= len,
                at <= 2 * k + 2 || k == zi.gen@.len(),
                same_function(self@, old(self)@, md),
                forall|i: int|
                    at <= i < len && i >= 2 ==> #[trigger] self@[i] < zi.gen@[zi.reducer(i)]@.last(),
            decreases k,
        {
            k -= 1;
            let gen = &zi.gen[k];
            proof {
                zi.lemma_generator(k as int);
            }
            let d: usize = gen.coeffs.len() - 1;
            while at > d
                invariant
                    zi.wf(),
                    md == T::modulus(),
                    md > 1,
                    k < zi.gen@.len(),
                    gen == zi.gen@[k as int],
                    gen@.len() == d + 1,
                    d == 2 * k + 2,
                    0 < gen@.last() < md,
                    vanishes(gen@, md),
                    self@.len() == len,
                    at <= len,
                    at <= 2 * k + 4 || k == zi.gen@.len() - 1,
                    same_function(self@, old(self)@, md),
                    forall|i: int|
                        at <= i < len && i >= 2 ==> #[trigger] self@[i] < zi.gen@[zi.reducer(
                            i,
                        )]@.last(),
                decreases at,
            {
                let idx: usize = at - 1;
                let ghost p = self@;
                proof {
                    self.lemma_bounds();
                }
                let m: T = self.coeffs[idx].div(gen.coeffs[d]);
                if !m.eq(T::zero()) {
                    self.sub_multiple(gen, idx - d, m);
                    proof {
                        let r = self@;
                        assert forall|i: int| 0 <= i < p.len() implies cong(
                            #[trigger] r[i],
                            p[i] - m.val() * coeff(gen@, i - (idx - d)),
                            md,
                        ) by {
                            lemma_cong_mod(p[i] - m.val() * coeff(gen@, i - (idx - d)), md);
                        }
                        lemma_reduction_step(p, r, gen@, idx - d, m.val(), md);
                        assert forall|x: int| 0 <= x implies cong(
                            #[trigger] poly_eval(self@, x),
                            poly_eval(old(self)@, x),
                            md,
                        ) by {
                            assert(cong(poly_eval(r, x), poly_eval(p, x), md));
                            assert(cong(poly_eval(p, x), poly_eval(old(self)@, x), md));
                        }
                    }
                }
                proof {
                    let lead = gen@.last();
                    let v = p[idx as int];
                    vstd::arithmetic::div_mod::lemma_fundamental_div_mod(v, lead);
                    vstd::arithmetic::div_mod::lemma_mod_bound(v, lead);
                    assert(v - m.val() * lead == v % lead) by (nonlinear_arith)
                        requires
                            v == lead * (v / lead) + v % lead,
                            m.val() == v / lead,
                    ;
                    lemma_mod_small(v % lead, md);
                    assert(self@[idx as int] == v % lead) by {
                        if m.val() != 0 {
                            assert(coeff(gen@, idx - (idx - d)) == gen@[d as int]);
                        } else {
                            assert(0 * lead == 0);
                        }
                    }
                    assert(zi.reducer(idx as int) == k) by {
                        if k == zi.gen@.len() - 1 {
                        } else {
                            assert(idx < 2 * k + 4);
                        }
                    }
                    assert forall|i: int| idx <= i < len && i >= 2 implies #[trigger] self@[i]
                        < zi.gen@[zi.reducer(i)]@.last() by {
                        if i > idx {
                            assert(self@[i] == p[i]) by {
                                if m.val() != 0 {
                                    assert(coeff(gen@, i - (idx - d)) == 0);
                                    assert(m.val() * 0 == 0);
                                    lemma_mod_small(p[i], md);
                                }
                            }
                        }
                    }
                }
                at -= 1;
            }
        }
        let ghost before = self@;
        proof {
            self.lemma_bounds();
        }
        self.truncate();
        proof {
            lemma_trimmed(before);
            zi.lemma_generator(zi.gen@.len() - 1);
            let top = 2 * zi.gen@.len();
            assert forall|i: int| top <= i < before.len() implies #[trigger] before[i] == 0 by {
                assert(zi.reducer(i) == zi.gen@.len() - 1);
                assert(before[i] < zi.gen@[zi.reducer(i)]@.last());
            }
            lemma_trimmed_upto(before, top as int);
            assert forall|x: int| 0 <= x implies cong(
                #[trigger] poly_eval(self@, x),
                poly_eval(old(self)@, x),
                md,
            ) by {
                lemma_eval_trimmed(before, x);
                assert(cong(poly_eval(before, x), poly_eval(old(self)@, x), md));
            }
            assert forall|i: int| 2 <= i < self@.len() implies #[trigger] self@[i]
                < zi.gen@[zi.reducer(i)]@.last() by {
                assert(self@[i] == before[i]);
            }
        }
    }

    /// The polynomial in its reduced form by the ideal.
    pub fn simplified(self, zi: &ZeroIdeal<T>) -> (p: Self)
        requires
            zi.wf(),
        ensures
            same_function(p@, self@, T::modulus()),
            p@ == trimmed(p@),
            p@.len() <= 2 * zi.gen@.len(),
            zi.is_reduced(p@),
    {
        let mut p = self;
        p.simplify(zi);
        p
    }
}

/// The value of the product of two polynomials, as `Polynomial::mul` gives it, is
/// the product of their values, in the ring.
pub proof fn lemma_mul_eval<T: UnsignedInt>(a: Seq<int>, b: Seq<int>, p: Seq<int>, x: int)
    requires
        p.len() == if a.len() == 0 || b.len() == 0 { 0 } else { a.len() + b.len() - 1 },
        forall|k: int|
            0 <= k < p.len() ==> #[trigger] p[k] == product_coeff(a, b, k, b.len() as int)
                % T::modulus(),
    ensures
        cong(poly_eval(p, x), poly_eval(a, x) * poly_eval(b, x), T::modulus()),
{
    let md = T::modulus();
    T::lemma_modulus();
    if a.len() == 0 {
        assert(0 * poly_eval(b, x) == 0);
    } else if b.len() == 0 {
        assert(poly_eval(a, x) * 0 == 0);
    } else {
        let c = product_upto(a, b, b.len() as int, p.len());
        assert forall|k: int| 0 <= k < p.len() implies cong(#[trigger] p[k], c[k], md) by {
            lemma_cong_mod(c[k], md);
        }
        lemma_eval_cong(p, c, x, md);
        lemma_eval_product(a, b, b.len() as int, p.len(), x);
        assert(b.subrange(0, b.len() as int) =~= b);
    }
}

/// The value of a polynomial plus a constant, as `Polynomial::add_const` gives it, is
/// its value plus the constant, in the ring.
pub proof fn lemma_add_const_eval(a: Seq<int>, p: Seq<int>, c: int, x: int, m: int)
    requires
        m > 0,
        p.len() == if a.len() == 0 { 1 } else { a.len() },
        p[0] == (coeff(a, 0) + c) % m,
        forall|i: int| 1 <= i < p.len() ==> #[trigger] p[i] == a[i],
    ensures
        cong(poly_eval(p, x), poly_eval(a, x) + c, m),
{
    lemma_cong_mod(coeff(a, 0) + c, m);
    if a.len() == 0 {
        assert(p.drop_first() =~= Seq::<int>::empty());
        assert(poly_eval(Seq::<int>::empty(), x) == 0);
        assert(x * 0 == 0);
    } else {
        assert(p.drop_first() =~= a.drop_first());
        let r = x * poly_eval(a.drop_first(), x);
        lemma_cong_ops(p[0], a[0] + c, r, r, m);
    }
}

/// The composition of `p` with `q`: the polynomial `p(q(X))`, of a degree below that
/// of the generator of the highest degree where `p` is no constant.
pub fn compose<T: UnsignedInt>(p: &Polynomial<T>, q: &Polynomial<T>, zi: &ZeroIdeal<T>) -> (r:
    Polynomial<T>)
    requires
        zi.wf(),
        q@.len() + 2 * zi.gen@.len() + 1 <= usize::MAX,
    ensures
        forall|x: int|
            0 <= x ==> cong(
                #[trigger] poly_eval(r@, x),
                poly_eval(p@, poly_eval(q@, x)),
                T::modulus(),
            ),
        p@.len() >= 2 ==> r@ == trimmed(r@) && r@.len() <= 2 * zi.gen@.len(),
        p@.len() < 2 ==> r@.len() == 1,
{
    let ghost md = T::modulus();
    proof {
        T::lemma_modulus();
    }
    // Horner's method, from the highest coefficient down.
    let n: usize = p.coeffs.len();
    let mut r = if n == 0 {
        Polynomial::constant(T::zero())
    } else {
        Polynomial::constant(p.coeffs[n - 1])
    };
    let mut i: usize = if n == 0 {
        0
    } else {
        n - 1
    };
    proof {
        assert forall|x: int| 0 <= x implies cong(
            #[trigger] poly_eval(r@, x),
            poly_eval(p@.subrange(i as int, n as int), poly_eval(q@, x)),
            md,
        ) by {
            let y = poly_eval(q@, x);
            assert(r@.drop_first() =~= Seq::<int>::empty());
            assert(poly_eval(Seq::<int>::empty(), x) == 0);
            assert(x * 0 == 0);
            if n == 0 {
                assert(p@.subrange(0, 0) =~= Seq::<int>::empty());
                assert(poly_eval(Seq::<int>::empty(), y) == 0);
            } else {
                let c = p@.subrange(n - 1, n as int);
                assert(c.drop_first() =~= Seq::<int>::empty());
                assert(poly_eval(Seq::<int>::empty(), y) == 0);
                assert(y * 0 == 0);
                assert(c[0] == p@[n - 1]);
            }
        }
    }
    while i > 0
        invariant
            zi.wf(),
            q@.len() + 2 * zi.gen@.len() + 1 <= usize::MAX,
            md == T::modulus(),
            md > 1,
            n == p@.len(),
            i < n || (n == 0 && i == 0),
            r@.len() <= 2 * zi.gen@.len() || r@.len() == 1,
            i < n - 1 ==> r@ == trimmed(r@) && r@.len() <= 2 * zi.gen@.len(),
            i == n - 1 || n == 0 ==> r@.len() == 1,
            forall|x: int|
                0 <= x ==> cong(
                    #[trigger] poly_eval(r@, x),
                    poly_eval(p@.subrange(i as int, n as int), poly_eval(q@, x)),
                    md,
                ),
        decreases i,
    {
        let ghost r0 = r@;
        let c: T = p.coeffs[i - 1];
        r.mul_assign(q);
        let ghost r1 = r@;
        r.add_const(c);
        let ghost r2 = r@;
        r.reduce(zi);
        proof {
            let rest = p@.subrange(i as int, n as int);
            let cur = p@.subrange(i - 1, n as int);
            assert(cur.drop_first() =~= rest);
            assert(cur[0] == c.val());
            assert forall|x: int| 0 <= x implies cong(
                #[trigger] poly_eval(r@, x),
                poly_eval(cur, poly_eval(q@, x)),
                md,
            ) by {
                let y = poly_eval(q@, x);
                lemma_mul_eval::<T>(r0, q@, r1, x);
                lemma_add_const_eval(r1, r2, c.val(), x, md);
                assert(cong(poly_eval(r0, x), poly_eval(rest, y), md));
                lemma_cong_ops(poly_eval(r0, x), poly_eval(rest, y), y, y, md);
                lemma_cong_ops(
                    poly_eval(r0, x) * y,
                    poly_eval(rest, y) * y,
                    c.val(),
                    c.val(),
                    md,
                );
                lemma_cong_ops(poly_eval(r1, x), poly_eval(r0, x) * y, c.val(), c.val(), md);
                assert(cong(poly_eval(r@, x), poly_eval(r2, x), md));
                assert(poly_eval(rest, y) * y + c.val() == c.val() + y * poly_eval(rest, y))
                    by (nonlinear_arith);
            }
        }
        i -= 1;
    }
    proof {
        assert(p@.subrange(0, n as int) =~= p@);
    }
    r
}

} // verus!
