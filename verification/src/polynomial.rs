//! Polynomials in one unknown over the rings of integers modulo a power of two.

use vstd::prelude::*;
use vstd::arithmetic::power2::pow2;
use crate::numbers::{UnsignedInt, shift_left};
use crate::modular::sum;
use crate::modular::{cong, lemma_cong_ops, lemma_cong_mod, lemma_mod_small};

verus! {

/// A polynomial: the coefficient of `X^i` is held at index `i`.
#[derive(Debug)]
pub struct Polynomial<T> {
    pub coeffs: Vec<T>,
}

/// The value at `x`, over the integers, of the polynomial with the coefficients `c`.
pub open spec fn poly_eval(c: Seq<int>, x: int) -> int
    decreases c.len(),
{
    if c.len() == 0 {
        0
    } else {
        c[0] + x * poly_eval(c.drop_first(), x)
    }
}

/// The coefficients `c` without the zeros at their end.
pub open spec fn trimmed(c: Seq<int>) -> Seq<int>
    decreases c.len(),
{
    if c.len() == 0 || c.last() != 0 {
        c
    } else {
        trimmed(c.drop_last())
    }
}

/// The coefficient of `X^i`, which is zero from the length of `c` on.
pub open spec fn coeff(c: Seq<int>, i: int) -> int {
    if 0 <= i < c.len() {
        c[i]
    } else {
        0
    }
}

impl<T: UnsignedInt> View for Polynomial<T> {
    type V = Seq<int>;

    open spec fn view(&self) -> Seq<int> {
        Seq::new(self.coeffs@.len(), |i: int| self.coeffs@[i].val())
    }
}

/// The value of a polynomial whose last coefficient is the coefficient of `X^n`.
pub proof fn lemma_eval_push(c: Seq<int>, a: int, x: int)
    ensures
        poly_eval(c.push(a), x) == poly_eval(c, x) + a * vstd::arithmetic::power::pow(
            x,
            c.len(),
        ),
    decreases c.len(),
{
    if c.len() == 0 {
        assert(c.push(a).drop_first() =~= Seq::<int>::empty());
        assert(poly_eval(Seq::<int>::empty(), x) == 0);
        assert(c.push(a)[0] == a);
        assert(poly_eval(c.push(a), x) == a + x * 0);
        vstd::arithmetic::power::lemma_pow0(x);
        assert(a * 1 == a);
        assert(x * 0 == 0);
    } else {
        lemma_eval_push(c.drop_first(), a, x);
        assert(c.push(a).drop_first() =~= c.drop_first().push(a));
        vstd::arithmetic::power::lemma_pow_adds(x, 1, (c.len() - 1) as nat);
        vstd::arithmetic::power::lemma_pow1(x);
        let p = vstd::arithmetic::power::pow(x, (c.len() - 1) as nat);
        let q = poly_eval(c.drop_first(), x);
        assert(x * (q + a * p) == x * q + a * (x * p)) by (nonlinear_arith);
    }
}

/// The zeros at the end of the coefficients do not change the value.
pub proof fn lemma_eval_trimmed(c: Seq<int>, x: int)
    ensures
        poly_eval(trimmed(c), x) == poly_eval(c, x),
    decreases c.len(),
{
    if c.len() > 0 && c.last() == 0 {
        lemma_eval_trimmed(c.drop_last(), x);
        lemma_eval_push(c.drop_last(), 0, x);
        assert(c =~= c.drop_last().push(0));
        assert(0 * vstd::arithmetic::power::pow(x, (c.len() - 1) as nat) == 0);
    }
}

/// Polynomials with congruent coefficients have congruent values.
pub proof fn lemma_eval_cong(c: Seq<int>, d: Seq<int>, x: int, m: int)
    requires
        m > 0,
        c.len() == d.len(),
        forall|i: int| 0 <= i < c.len() ==> cong(#[trigger] c[i], d[i], m),
    ensures
        cong(poly_eval(c, x), poly_eval(d, x), m),
    decreases c.len(),
{
    if c.len() > 0 {
        assert forall|i: int| 0 <= i < c.drop_first().len() implies cong(
            #[trigger] c.drop_first()[i],
            d.drop_first()[i],
            m,
        ) by {
            assert(cong(c[i + 1], d[i + 1], m));
        }
        lemma_eval_cong(c.drop_first(), d.drop_first(), x, m);
        lemma_cong_ops(x, x, poly_eval(c.drop_first(), x), poly_eval(d.drop_first(), x), m);
        assert(cong(c[0], d[0], m));
        lemma_cong_ops(
            c[0],
            d[0],
            x * poly_eval(c.drop_first(), x),
            x * poly_eval(d.drop_first(), x),
            m,
        );
    }
}

/// The value of the difference of a polynomial and `k` times another with as many
/// coefficients is the difference of the values.
pub proof fn lemma_eval_sub_scaled(c: Seq<int>, d: Seq<int>, k: int, r: Seq<int>, x: int)
    requires
        c.len() == d.len(),
        r.len() == c.len(),
        forall|i: int| 0 <= i < c.len() ==> #[trigger] r[i] == c[i] - k * d[i],
    ensures
        poly_eval(r, x) == poly_eval(c, x) - k * poly_eval(d, x),
    decreases c.len(),
{
    if c.len() == 0 {
        assert(k * 0 == 0);
    } else {
        assert forall|i: int| 0 <= i < c.len() - 1 implies #[trigger] r.drop_first()[i]
            == c.drop_first()[i] - k * d.drop_first()[i] by {
            assert(r[i + 1] == c[i + 1] - k * d[i + 1]);
        }
        lemma_eval_sub_scaled(c.drop_first(), d.drop_first(), k, r.drop_first(), x);
        let pc = poly_eval(c.drop_first(), x);
        let pd = poly_eval(d.drop_first(), x);
        assert(r[0] == c[0] - k * d[0]);
        assert(c[0] - k * d[0] + x * (pc - k * pd) == (c[0] + x * pc) - k * (d[0] + x * pd))
            by (nonlinear_arith);
    }
}

/// The coefficients `c`, continued with zeros or cut off to the length `n`.
pub open spec fn resized(c: Seq<int>, n: nat) -> Seq<int> {
    Seq::new(n, |i: int| coeff(c, i))
}

/// Zeros after the coefficients do not change the value.
pub proof fn lemma_eval_resized(c: Seq<int>, n: nat, x: int)
    requires
        n >= c.len(),
    ensures
        poly_eval(resized(c, n), x) == poly_eval(c, x),
    decreases n,
{
    if n == c.len() {
        assert(resized(c, n) =~= c);
    } else {
        lemma_eval_resized(c, (n - 1) as nat, x);
        assert(resized(c, n) =~= resized(c, (n - 1) as nat).push(0));
        lemma_eval_push(resized(c, (n - 1) as nat), 0, x);
        assert(0 * vstd::arithmetic::power::pow(x, (n - 1) as nat) == 0);
    }
}

/// The coefficients of the polynomial `c` minus `k` times `X^s` times the
/// polynomial `d`.
pub open spec fn sub_shifted(c: Seq<int>, d: Seq<int>, s: int, k: int) -> Seq<int> {
    Seq::new(c.len(), |i: int| c[i] - k * coeff(d, i - s))
}

/// The value of the polynomial `c` minus `k` times `X^s` times the polynomial `d`.
pub proof fn lemma_eval_sub_shifted(c: Seq<int>, d: Seq<int>, s: int, k: int, x: int)
    requires
        0 <= s,
        s + d.len() <= c.len(),
    ensures
        poly_eval(sub_shifted(c, d, s, k), x) == poly_eval(c, x) - k * (vstd::arithmetic::power::pow(
            x,
            s as nat,
        ) * poly_eval(d, x)),
    decreases s,
{
    let r = sub_shifted(c, d, s, k);
    if s == 0 {
        let e = resized(d, c.len());
        lemma_eval_resized(d, c.len(), x);
        lemma_eval_sub_scaled(c, e, k, r, x);
        vstd::arithmetic::power::lemma_pow0(x);
        assert(1 * poly_eval(d, x) == poly_eval(d, x));
    } else {
        assert(r.drop_first() =~= sub_shifted(c.drop_first(), d, s - 1, k));
        lemma_eval_sub_shifted(c.drop_first(), d, s - 1, k, x);
        assert(r[0] == c[0] - k * 0);
        assert(k * 0 == 0);
        vstd::arithmetic::power::lemma_pow_adds(x, 1, (s - 1) as nat);
        vstd::arithmetic::power::lemma_pow1(x);
        let p = vstd::arithmetic::power::pow(x, (s - 1) as nat);
        let q = poly_eval(d, x);
        let pc = poly_eval(c.drop_first(), x);
        assert(c[0] + x * (pc - k * (p * q)) == (c[0] + x * pc) - k * ((x * p) * q))
            by (nonlinear_arith);
    }
}

/// A polynomial has congruent values at congruent numbers.
pub proof fn lemma_eval_arg_cong(c: Seq<int>, x: int, y: int, m: int)
    requires
        m > 0,
        cong(x, y, m),
    ensures
        cong(poly_eval(c, x), poly_eval(c, y), m),
    decreases c.len(),
{
    if c.len() > 0 {
        lemma_eval_arg_cong(c.drop_first(), x, y, m);
        lemma_cong_ops(x, y, poly_eval(c.drop_first(), x), poly_eval(c.drop_first(), y), m);
        lemma_cong_ops(
            c[0],
            c[0],
            x * poly_eval(c.drop_first(), x),
            y * poly_eval(c.drop_first(), y),
            m,
        );
    }
}

/// The coefficients of the product of the polynomial `a` with the first `n`
/// coefficients of the polynomial `b`, as a polynomial of `len` coefficients.
pub open spec fn product_upto(a: Seq<int>, b: Seq<int>, n: int, len: nat) -> Seq<int> {
    Seq::new(len, |k: int| product_coeff(a, b, k, n))
}

/// The value of the product of two polynomials is the product of their values.
pub proof fn lemma_eval_product(a: Seq<int>, b: Seq<int>, n: int, len: nat, x: int)
    requires
        0 <= n <= b.len(),
        a.len() + n <= len + 1,
        a.len() > 0,
    ensures
        poly_eval(product_upto(a, b, n, len), x) == poly_eval(a, x) * poly_eval(
            b.subrange(0, n),
            x,
        ),
    decreases n,
{
    if n == 0 {
        let z = product_upto(a, b, 0, len);
        assert(z =~= Seq::new(len, |i: int| 0int));
        lemma_eval_all_zero(len, x);
        assert(b.subrange(0, 0) =~= Seq::<int>::empty());
        assert(poly_eval(a, x) * 0 == 0);
    } else {
        lemma_eval_product(a, b, n - 1, len, x);
        let c = product_upto(a, b, n - 1, len);
        let r = product_upto(a, b, n, len);
        let k = -b[n - 1];
        assert(r =~= sub_shifted(c, a, n - 1, k)) by {
            assert forall|t: int| 0 <= t < len implies r[t] == sub_shifted(c, a, n - 1, k)[t] by {
                let f = product_terms(a, b, t);
                assert(f(n - 1) == coeff(a, t - (n - 1)) * coeff(b, n - 1));
                assert(coeff(a, t - (n - 1)) * b[n - 1] == 0 - (-b[n - 1]) * coeff(
                    a,
                    t - (n - 1),
                )) by (nonlinear_arith);
            }
        }
        lemma_eval_sub_shifted(c, a, n - 1, k, x);
        assert(b.subrange(0, n) =~= b.subrange(0, n - 1).push(b[n - 1]));
        lemma_eval_push(b.subrange(0, n - 1), b[n - 1], x);
        let pa = poly_eval(a, x);
        let pb = poly_eval(b.subrange(0, n - 1), x);
        let pw = vstd::arithmetic::power::pow(x, (n - 1) as nat);
        assert(pa * pb - (-b[n - 1]) * (pw * pa) == pa * (pb + b[n - 1] * pw))
            by (nonlinear_arith);
    }
}

/// The value of a polynomial whose coefficients are zero is zero.
pub proof fn lemma_eval_all_zero(n: nat, x: int)
    ensures
        poly_eval(Seq::new(n, |i: int| 0int), x) == 0,
    decreases n,
{
    let z = Seq::new(n, |i: int| 0int);
    if n > 0 {
        lemma_eval_all_zero((n - 1) as nat, x);
        assert(z.drop_first() =~= Seq::new((n - 1) as nat, |i: int| 0int));
        assert(x * 0 == 0);
    }
}

impl<T: UnsignedInt> Polynomial<T> {
    /// The zero polynomial, which has no coefficients.
    pub fn zero() -> (p: Self)
        ensures
            p@ == Seq::<int>::empty(),
    {
        let p = Self { coeffs: Vec::new() };
        assert(p@ =~= Seq::<int>::empty());
        p
    }

    /// The constant polynomial `c`.
    pub fn constant(c: T) -> (p: Self)
        ensures
            p@ == seq![c.val()],
    {
        let mut v: Vec<T> = Vec::new();
        v.push(c);
        let p = Self { coeffs: v };
        assert(p@ =~= seq![c.val()]);
        p
    }

    /// The polynomial with the coefficients `v`, that of the lowest power first.
    pub fn from_coeffs(v: &[T]) -> (p: Self)
        ensures
            p.coeffs@ == v@,
    {
        let mut out: Vec<T> = Vec::new();
        let mut i: usize = 0;
        while i < v.len()
            invariant
                i <= v@.len(),
                out@ == v@.subrange(0, i as int),
            decreases v@.len() - i,
        {
            out.push(v[i]);
            assert(out@ == v@.subrange(0, i + 1));
            i += 1;
        }
        assert(v@.subrange(0, v@.len() as int) == v@);
        Self { coeffs: out }
    }

    /// The number of coefficients.
    pub fn len(&self) -> (n: usize)
        ensures
            n == self@.len(),
    {
        self.coeffs.len()
    }

    /// The degree of a polynomial without zeros at the end of its coefficients. The
    /// degree of the zero polynomial is -1.
    pub fn degree(&self) -> (d: isize)
        requires
            self@.len() <= isize::MAX,
        ensures
            d == self@.len() - 1,
    {
        self.coeffs.len() as isize - 1
    }

    /// Whether this is the zero polynomial, which has no coefficients.
    pub fn is_zero(&self) -> (b: bool)
        ensures
            b == (self@.len() == 0),
    {
        self.coeffs.len() == 0
    }

    /// The constant polynomial one.
    pub fn one() -> (p: Self)
        ensures
            p@ == seq![1int],
    {
        Self::constant(T::one())
    }

    /// Whether this is the polynomial `X`.
    pub fn is_id(&self) -> (b: bool)
        ensures
            b == (self@ == seq![0int, 1int]),
    {
        if self.coeffs.len() != 2 {
            assert(seq![0int, 1int].len() == 2);
            return false;
        }
        let b = self.coeffs[0].eq(T::zero()) && self.coeffs[1].eq(T::one());
        proof {
            if b {
                assert(self@ =~= seq![0int, 1int]);
            } else {
                assert(self@[0] == self.coeffs@[0].val());
                assert(self@[1] == self.coeffs@[1].val());
            }
        }
        b
    }

    /// A copy of the polynomial.
    pub fn copy(&self) -> (p: Self)
        ensures
            p.coeffs@ == self.coeffs@,
    {
        Self::from_coeffs(self.coeffs.as_slice())
    }

    /// Removes the zeros at the end of the coefficients.
    pub fn truncate(&mut self)
        ensures
            final(self)@ == trimmed(old(self)@),
    {
        let mut n: usize = self.coeffs.len();
        assert(self@.subrange(0, n as int) =~= self@);
        while n > 0 && self.coeffs[n - 1].eq(T::zero())
            invariant
                n <= self.coeffs@.len(),
                self.coeffs@ == old(self).coeffs@,
                trimmed(old(self)@) == trimmed(self@.subrange(0, n as int)),
            decreases n,
        {
            proof {
                let c = self@.subrange(0, n as int);
                assert(c.last() == self.coeffs@[n - 1].val());
                assert(c.drop_last() =~= self@.subrange(0, n - 1));
            }
            n -= 1;
        }
        proof {
            assert(self@.subrange(0, self@.len() as int) =~= self@);
            let c = self@.subrange(0, n as int);
            if n > 0 {
                assert(c.last() == self.coeffs@[n - 1].val());
            }
        }
        let ghost before = self@;
        self.coeffs.truncate(n);
        assert(self@ =~= before.subrange(0, n as int));
    }

    /// The polynomial without the zeros at the end of its coefficients.
    pub fn truncated(self) -> (p: Self)
        ensures
            p@ == trimmed(self@),
    {
        let mut p = self;
        p.truncate();
        p
    }

    /// The value of the polynomial at `x`.
    pub fn eval(&self, x: T) -> (r: T)
        ensures
            r.val() == poly_eval(self@, x.val()) % T::modulus(),
    {
        let ghost md = T::modulus();
        let mut r: T = T::zero();
        let mut i: usize = self.coeffs.len();
        proof {
            T::lemma_modulus();
            lemma_mod_small(0, md);
            assert(self@.subrange(i as int, self@.len() as int) =~= Seq::<int>::empty());
        }
        // Horner's method, from the highest coefficient down.
        while i > 0
            invariant
                i <= self.coeffs@.len(),
                md == T::modulus(),
                md > 0,
                r.val() == poly_eval(self@.subrange(i as int, self@.len() as int), x.val()) % md,
            decreases i,
        {
            let ghost rest = self@.subrange(i as int, self@.len() as int);
            let ghost cur = self@.subrange(i - 1, self@.len() as int);
            let next: T = r.mul(x).add(self.coeffs[i - 1]);
            proof {
                assert(cur.drop_first() =~= rest);
                assert(cur[0] == self.coeffs@[i - 1].val());
                let q = poly_eval(rest, x.val());
                lemma_cong_mod(q, md);
                lemma_cong_ops(r.val(), q, x.val(), x.val(), md);
                lemma_cong_mod(r.val() * x.val(), md);
                lemma_cong_ops((r.val() * x.val()) % md, q * x.val(), cur[0], cur[0], md);
                lemma_cong_mod(((r.val() * x.val()) % md) + cur[0], md);
                assert(q * x.val() + cur[0] == cur[0] + x.val() * q) by (nonlinear_arith);
            }
            r = next;
            i -= 1;
        }
        assert(self@.subrange(0, self@.len() as int) =~= self@);
        r
    }
}

/// The products of the coefficients of `b` with the coefficients of `a` that they
/// meet in the coefficient of `X^k` of the product.
pub open spec fn product_terms(a: Seq<int>, b: Seq<int>, k: int) -> spec_fn(int) -> int {
    |i: int| coeff(a, k - i) * coeff(b, i)
}

/// The coefficient of `X^k` of the product of two polynomials, over the integers,
/// from the first `n` coefficients of `b`.
pub open spec fn product_coeff(a: Seq<int>, b: Seq<int>, k: int, n: int) -> int {
    sum(product_terms(a, b, k), n)
}

impl<T: UnsignedInt> Polynomial<T> {
    /// Whether the coefficients are those of `c`, over the ring.
    pub open spec fn is(&self, c: Seq<int>) -> bool {
        &&& self@.len() == c.len()
        &&& forall|i: int| 0 <= i < c.len() ==> #[trigger] self@[i] == c[i] % T::modulus()
    }

    /// The coefficients are representatives.
    pub proof fn lemma_bounds(&self)
        ensures
            forall|i: int| 0 <= i < self@.len() ==> 0 <= #[trigger] self@[i] < T::modulus(),
    {
        assert forall|i: int| 0 <= i < self@.len() implies 0 <= #[trigger] self@[i]
            < T::modulus() by {
            self.coeffs@[i].lemma_val_bound();
        }
    }

    /// Multiplies the polynomial by `X - a`.
    pub fn mul_lin(&mut self, a: T)
        requires
            old(self)@.len() < usize::MAX,
        ensures
            final(self)@.len() == old(self)@.len() + 1,
            forall|i: int|
                0 <= i <= old(self)@.len() ==> #[trigger] final(self)@[i] == (coeff(
                    old(self)@,
                    i - 1,
                ) - a.val() * coeff(old(self)@, i)) % T::modulus(),
    {
        let ghost md = T::modulus();
        let ghost c = self@;
        proof {
            T::lemma_modulus();
            self.lemma_bounds();
        }
        // Shift the coefficients, which multiplies by X.
        self.coeffs.insert(0, T::zero());
        // Subtract `a` times the polynomial.
        let n: usize = self.coeffs.len();
        let mut i: usize = 0;
        while i < n - 1
            invariant
                n == c.len() + 1,
                n == self.coeffs@.len(),
                i <= n - 1,
                md == T::modulus(),
                md > 0,
                forall|k: int| 0 <= k < c.len() ==> 0 <= #[trigger] c[k] < md,
                forall|k: int|
                    0 <= k < i ==> #[trigger] self@[k] == (coeff(c, k - 1) - a.val() * coeff(c, k))
                        % md,
                forall|k: int| i <= k < n ==> #[trigger] self@[k] == coeff(c, k - 1),
            decreases n - 1 - i,
        {
            let ghost before = self@;
            let m: T = a.mul(self.coeffs[i + 1]);
            let e: T = self.coeffs[i].sub(m);
            self.coeffs[i] = e;
            proof {
                assert(before[i + 1] == coeff(c, i as int));
                assert(before[i as int] == coeff(c, i - 1));
                lemma_cong_mod(a.val() * coeff(c, i as int), md);
                lemma_cong_ops(
                    coeff(c, i - 1),
                    coeff(c, i - 1),
                    m.val(),
                    a.val() * coeff(c, i as int),
                    md,
                );
                assert forall|k: int| 0 <= k < i + 1 implies #[trigger] self@[k] == (coeff(
                    c,
                    k - 1,
                ) - a.val() * coeff(c, k)) % md by {
                    if k < i {
                        assert(self@[k] == before[k]);
                    }
                }
                assert forall|k: int| i + 1 <= k < n implies #[trigger] self@[k] == coeff(
                    c,
                    k - 1,
                ) by {
                    assert(self@[k] == before[k]);
                }
            }
            i += 1;
        }
        proof {
            assert forall|k: int| 0 <= k <= c.len() implies #[trigger] self@[k] == (coeff(
                c,
                k - 1,
            ) - a.val() * coeff(c, k)) % md by {
                if k == c.len() {
                    assert(self@[k] == coeff(c, k - 1));
                    assert(a.val() * 0 == 0);
                    lemma_mod_small(coeff(c, k - 1), md);
                }
            }
        }
    }

    /// The formal derivative of the polynomial.
    pub fn derivative(&self) -> (p: Self)
        ensures
            p@.len() == if self@.len() == 0 { 0 } else { self@.len() - 1 },
            forall|i: int| 0 <= i < p@.len() ==> #[trigger] p@[i] == ((i + 1) * self@[i + 1])
                % T::modulus(),
    {
        let ghost md = T::modulus();
        if self.coeffs.len() == 0 {
            return Self::zero();
        }
        let mut coeffs: Vec<T> = Vec::new();
        let mut d: T = T::one();
        let mut i: usize = 1;
        let ghost mut p = Self { coeffs };
        proof {
            T::lemma_modulus();
            lemma_mod_small(1, md);
        }
        while i < self.coeffs.len()
            invariant
                1 <= i <= self.coeffs@.len(),
                md == T::modulus(),
                md > 1,
                p.coeffs == coeffs,
                coeffs@.len() == i - 1,
                d.val() == (i as int) % md,
                forall|k: int| 0 <= k < i - 1 ==> #[trigger] p@[k] == ((k + 1) * self@[k + 1]) % md,
            decreases self.coeffs@.len() - i,
        {
            let ghost before = p@;
            let e: T = self.coeffs[i].mul(d);
            coeffs.push(e);
            let next: T = d.add(T::one());
            proof {
                p = Self { coeffs };
                lemma_cong_mod(i as int, md);
                lemma_cong_ops(self@[i as int], self@[i as int], d.val(), i as int, md);
                assert(self@[i as int] * (i as int) == ((i - 1) + 1) * self@[i as int])
                    by (nonlinear_arith);
                lemma_cong_ops(d.val(), i as int, 1, 1, md);
                lemma_cong_mod(d.val() + 1, md);
                assert forall|k: int| 0 <= k < i implies #[trigger] p@[k] == ((k + 1) * self@[k
                    + 1]) % md by {
                    if k < i - 1 {
                        assert(p@[k] == before[k]);
                    }
                }
            }
            d = next;
            i += 1;
        }
        Self { coeffs }
    }

    /// The sum of the two polynomials.
    pub fn add(&self, rhs: &Polynomial<T>) -> (p: Self)
        ensures
            p@.len() == if self@.len() >= rhs@.len() { self@.len() } else { rhs@.len() },
            forall|i: int|
                0 <= i < p@.len() ==> #[trigger] p@[i] == (coeff(self@, i) + coeff(rhs@, i))
                    % T::modulus(),
    {
        let ghost md = T::modulus();
        let n: usize = if self.coeffs.len() >= rhs.coeffs.len() {
            self.coeffs.len()
        } else {
            rhs.coeffs.len()
        };
        let mut coeffs: Vec<T> = Vec::new();
        let mut i: usize = 0;
        let ghost mut p = Self { coeffs };
        proof {
            T::lemma_modulus();
        }
        while i < n
            invariant
                i <= n,
                n == if self@.len() >= rhs@.len() { self@.len() } else { rhs@.len() },
                md == T::modulus(),
                md > 0,
                p.coeffs == coeffs,
                coeffs@.len() == i,
                forall|k: int|
                    0 <= k < i ==> #[trigger] p@[k] == (coeff(self@, k) + coeff(rhs@, k)) % md,
            decreases n - i,
        {
            let ghost before = p@;
            let l: T = if i < self.coeffs.len() {
                self.coeffs[i]
            } else {
                T::zero()
            };
            let r: T = if i < rhs.coeffs.len() {
                rhs.coeffs[i]
            } else {
                T::zero()
            };
            coeffs.push(l.add(r));
            proof {
                p = Self { coeffs };
                assert forall|k: int| 0 <= k < i + 1 implies #[trigger] p@[k] == (coeff(self@, k)
                    + coeff(rhs@, k)) % md by {
                    if k < i {
                        assert(p@[k] == before[k]);
                    }
                }
            }
            i += 1;
        }
        Self { coeffs }
    }

    /// The difference of the two polynomials.
    pub fn sub(&self, rhs: &Polynomial<T>) -> (p: Self)
        ensures
            p@.len() == if self@.len() >= rhs@.len() { self@.len() } else { rhs@.len() },
            forall|i: int|
                0 <= i < p@.len() ==> #[trigger] p@[i] == (coeff(self@, i) - coeff(rhs@, i))
                    % T::modulus(),
    {
        let ghost md = T::modulus();
        let n: usize = if self.coeffs.len() >= rhs.coeffs.len() {
            self.coeffs.len()
        } else {
            rhs.coeffs.len()
        };
        let mut coeffs: Vec<T> = Vec::new();
        let mut i: usize = 0;
        let ghost mut p = Self { coeffs };
        proof {
            T::lemma_modulus();
        }
        while i < n
            invariant
                i <= n,
                n == if self@.len() >= rhs@.len() { self@.len() } else { rhs@.len() },
                md == T::modulus(),
                md > 0,
                p.coeffs == coeffs,
                coeffs@.len() == i,
                forall|k: int|
                    0 <= k < i ==> #[trigger] p@[k] == (coeff(self@, k) - coeff(rhs@, k)) % md,
            decreases n - i,
        {
            let ghost before = p@;
            let l: T = if i < self.coeffs.len() {
                self.coeffs[i]
            } else {
                T::zero()
            };
            let r: T = if i < rhs.coeffs.len() {
                rhs.coeffs[i]
            } else {
                T::zero()
            };
            coeffs.push(l.sub(r));
            proof {
                p = Self { coeffs };
                assert forall|k: int| 0 <= k < i + 1 implies #[trigger] p@[k] == (coeff(self@, k)
                    - coeff(rhs@, k)) % md by {
                    if k < i {
                        assert(p@[k] == before[k]);
                    }
                }
            }
            i += 1;
        }
        Self { coeffs }
    }

    /// Adds `rhs` to the polynomial.
    pub fn add_assign(&mut self, rhs: &Polynomial<T>)
        ensures
            final(self)@.len() == if old(self)@.len() >= rhs@.len() {
                old(self)@.len()
            } else {
                rhs@.len()
            },
            forall|i: int|
                0 <= i < final(self)@.len() ==> #[trigger] final(self)@[i] == (coeff(old(self)@, i)
                    + coeff(rhs@, i)) % T::modulus(),
    {
        let p = self.add(rhs);
        *self = p;
    }

    /// Subtracts `rhs` from the polynomial.
    pub fn sub_assign(&mut self, rhs: &Polynomial<T>)
        ensures
            final(self)@.len() == if old(self)@.len() >= rhs@.len() {
                old(self)@.len()
            } else {
                rhs@.len()
            },
            forall|i: int|
                0 <= i < final(self)@.len() ==> #[trigger] final(self)@[i] == (coeff(old(self)@, i)
                    - coeff(rhs@, i)) % T::modulus(),
    {
        let p = self.sub(rhs);
        *self = p;
    }

    /// Adds the constant `rhs` to the polynomial.
    pub fn add_const(&mut self, rhs: T)
        ensures
            final(self)@.len() == if old(self)@.len() == 0 { 1 } else { old(self)@.len() },
            final(self)@[0] == (coeff(old(self)@, 0) + rhs.val()) % T::modulus(),
            forall|i: int| 1 <= i < final(self)@.len() ==> #[trigger] final(self)@[i] == old(self)@[i],
    {
        proof {
            T::lemma_modulus();
            rhs.lemma_val_bound();
            lemma_mod_small(rhs.val(), T::modulus());
        }
        if self.coeffs.len() == 0 {
            self.coeffs.push(rhs);
        } else {
            let e: T = self.coeffs[0].add(rhs);
            self.coeffs[0] = e;
        }
    }

    /// Shifts each coefficient left by `m` bits, which multiplies the polynomial by
    /// `2^m`.
    pub fn shl_assign(&mut self, m: usize)
        ensures
            final(self)@.len() == old(self)@.len(),
            forall|i: int|
                0 <= i < old(self)@.len() ==> #[trigger] final(self)@[i] == (old(self)@[i] * pow2(
                    m as nat,
                )) % T::modulus(),
    {
        let mut i: usize = 0;
        while i < self.coeffs.len()
            invariant
                i <= self.coeffs@.len(),
                self@.len() == old(self)@.len(),
                forall|k: int|
                    0 <= k < i ==> #[trigger] self@[k] == (old(self)@[k] * pow2(m as nat))
                        % T::modulus(),
                forall|k: int| i <= k < self@.len() ==> #[trigger] self@[k] == old(self)@[k],
            decreases self.coeffs@.len() - i,
        {
            let ghost before = self@;
            let e: T = shift_left(self.coeffs[i], m);
            self.coeffs[i] = e;
            proof {
                assert(before[i as int] == old(self)@[i as int]);
                assert forall|k: int| 0 <= k < i + 1 implies #[trigger] self@[k] == (old(self)@[k]
                    * pow2(m as nat)) % T::modulus() by {
                    if k < i {
                        assert(self@[k] == before[k]);
                    }
                }
                assert forall|k: int| i + 1 <= k < self@.len() implies #[trigger] self@[k] == old(
                    self,
                )@[k] by {
                    assert(self@[k] == before[k]);
                }
            }
            i += 1;
        }
    }
}

impl<T: UnsignedInt> Polynomial<T> {
    /// The product of the two polynomials; the zero polynomial where one of them
    /// has no coefficients.
    pub fn mul(&self, rhs: &Polynomial<T>) -> (p: Self)
        requires
            self@.len() + rhs@.len() <= usize::MAX,
        ensures
            p@.len() == if self@.len() == 0 || rhs@.len() == 0 {
                0
            } else {
                self@.len() + rhs@.len() - 1
            },
            forall|k: int|
                0 <= k < p@.len() ==> #[trigger] p@[k] == product_coeff(
                    self@,
                    rhs@,
                    k,
                    rhs@.len() as int,
                ) % T::modulus(),
    {
        let ghost md = T::modulus();
        let la: usize = self.coeffs.len();
        let lb: usize = rhs.coeffs.len();
        if la == 0 || lb == 0 {
            return Self::zero();
        }
        let n: usize = la + lb - 1;
        let v = crate::vector::Vector::<T>::zero(n);
        let mut p = Self { coeffs: v.entries };
        proof {
            T::lemma_modulus();
            assert forall|k: int| 0 <= k < n implies #[trigger] p@[k] == 0 by {
                assert(v.val_at(k) == 0);
            }
            lemma_mod_small(0, md);
        }
        let mut i: usize = 0;
        while i < lb
            invariant
                i <= lb,
                la == self@.len(),
                lb == rhs@.len(),
                la > 0,
                n == la + lb - 1,
                p@.len() == n,
                md == T::modulus(),
                md > 0,
                forall|k: int|
                    0 <= k < n ==> #[trigger] p@[k] == product_coeff(self@, rhs@, k, i as int) % md,
            decreases lb - i,
        {
            let c: T = rhs.coeffs[i];
            let ghost base = p@;
            let mut j: usize = 0;
            while j < la
                invariant
                    i < lb,
                    j <= la,
                    la == self@.len(),
                    lb == rhs@.len(),
                    n == la + lb - 1,
                    p@.len() == n,
                    md == T::modulus(),
                    md > 0,
                    c == rhs.coeffs@[i as int],
                    forall|k: int|
                        0 <= k < n ==> #[trigger] base[k] == product_coeff(self@, rhs@, k, i as int)
                            % md,
                    forall|k: int|
                        0 <= k < n && !(i <= k < i + j) ==> #[trigger] p@[k] == base[k],
                    forall|k: int|
                        i <= k < i + j ==> #[trigger] p@[k] == (base[k] + self@[k - i] * c.val())
                            % md,
                decreases la - j,
            {
                let ghost before = p@;
                let d: T = self.coeffs[j];
                let e: T = p.coeffs[i + j].add(c.mul(d));
                p.coeffs[i + j] = e;
                proof {
                    assert(before[i + j] == base[i + j]);
                    lemma_cong_mod(c.val() * d.val(), md);
                    lemma_cong_ops(base[i + j], base[i + j], ((c.val() * d.val()) % md), c.val() * d.val(), md);
                    assert(c.val() * d.val() == self@[j as int] * c.val()) by (nonlinear_arith)
                        requires
                            d.val() == self@[j as int],
                    ;
                    assert forall|k: int| 0 <= k < n && !(i <= k < i + j + 1) implies #[trigger] p@[k]
                        == base[k] by {
                        assert(p@[k] == before[k]);
                    }
                    assert forall|k: int| i <= k < i + j + 1 implies #[trigger] p@[k] == (base[k]
                        + self@[k - i] * c.val()) % md by {
                        if k < i + j {
                            assert(p@[k] == before[k]);
                        }
                    }
                }
                j += 1;
            }
            proof {
                assert forall|k: int| 0 <= k < n implies #[trigger] p@[k] == product_coeff(
                    self@,
                    rhs@,
                    k,
                    i + 1,
                ) % md by {
                    let f = product_terms(self@, rhs@, k);
                    let s = product_coeff(self@, rhs@, k, i as int);
                    assert(f(i as int) == coeff(self@, k - i) * coeff(rhs@, i as int));
                    assert(coeff(rhs@, i as int) == c.val());
                    if i <= k < i + la {
                        lemma_cong_mod(s, md);
                        lemma_cong_ops(base[k], s, f(i as int), f(i as int), md);
                    } else {
                        assert(coeff(self@, k - i) == 0);
                        assert(0 * c.val() == 0);
                    }
                }
            }
            i += 1;
        }
        p
    }

    /// Multiplies the polynomial by `rhs`.
    pub fn mul_assign(&mut self, rhs: &Polynomial<T>)
        requires
            old(self)@.len() + rhs@.len() <= usize::MAX,
        ensures
            final(self)@.len() == if old(self)@.len() == 0 || rhs@.len() == 0 {
                0
            } else {
                old(self)@.len() + rhs@.len() - 1
            },
            forall|k: int|
                0 <= k < final(self)@.len() ==> #[trigger] final(self)@[k] == product_coeff(
                    old(self)@,
                    rhs@,
                    k,
                    rhs@.len() as int,
                ) % T::modulus(),
    {
        let p = self.mul(rhs);
        *self = p;
    }
}

} // verus!
