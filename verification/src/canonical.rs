//! The reduced form of a polynomial is the only one of its function: two polynomials
//! in reduced form with the same values on the ring are the same.

use vstd::prelude::*;
use vstd::arithmetic::power2::{pow2, lemma_pow2_pos, lemma_pow2_unfold, lemma_pow2_adds};
use crate::numbers::UnsignedInt;
use crate::modular::{
    cong, sum, lemma_cong_ops, lemma_mod_small, lemma_sum_cong, lemma_sum_eq,
    lemma_sum_single,
};
use crate::polynomial::{
    poly_eval, coeff, trimmed, lemma_eval_push, lemma_eval_sub_scaled,
};
use crate::zero_ideal::{
    ZeroIdeal, two_adic_spec, factorial_two_adic, falling, lemma_falling_monic,
};
use crate::ideal_laws::{
    falling_value, factorial, binomial, lemma_falling_eval, lemma_falling_binomial,
};
use crate::reduction::same_function;

verus! {

/// A natural number that is not zero, without its factors two.
pub open spec fn odd_of(i: int) -> int
    decreases i,
{
    if i <= 0 || i % 2 != 0 {
        i
    } else {
        odd_of(i / 2)
    }
}

/// A natural number that is not zero is a power of two times an odd number.
pub proof fn lemma_odd_of(i: int)
    requires
        i > 0,
    ensures
        i == pow2(two_adic_spec(i)) * odd_of(i),
        odd_of(i) % 2 == 1,
        odd_of(i) > 0,
    decreases i,
{
    vstd::arithmetic::power2::lemma2_to64();
    if i % 2 == 0 {
        lemma_odd_of(i / 2);
        let t = two_adic_spec(i / 2);
        lemma_pow2_unfold(t + 1);
        assert(2 * (pow2(t) * odd_of(i / 2)) == (2 * pow2(t)) * odd_of(i / 2)) by (nonlinear_arith);
    } else {
        assert(pow2(0) * i == i);
    }
}

/// The factorial of `i` without its factors two.
pub open spec fn odd_factorial(i: nat) -> int
    decreases i,
{
    if i < 2 {
        1
    } else if i % 2 == 0 {
        odd_of(i as int) * ((i - 1) * odd_factorial((i - 2) as nat))
    } else {
        i * odd_factorial((i - 1) as nat)
    }
}

/// The product of two odd numbers is odd.
pub proof fn lemma_odd_product(a: int, b: int)
    requires
        a % 2 == 1,
        b % 2 == 1,
    ensures
        (a * b) % 2 == 1,
{
    let x = a / 2;
    let y = b / 2;
    assert(a * b == 2 * (2 * x * y + x + y) + 1) by (nonlinear_arith)
        requires
            a == 2 * x + 1,
            b == 2 * y + 1,
    ;
}

/// The factorial of `i` is a power of two times an odd number.
pub proof fn lemma_factorial_parts(i: nat)
    ensures
        factorial(i) == pow2(factorial_two_adic(i)) * odd_factorial(i),
        odd_factorial(i) % 2 == 1,
    decreases i,
{
    vstd::arithmetic::power2::lemma2_to64();
    if i == 0 {
    } else if i == 1 {
        assert(factorial(1) == 1 * factorial(0));
    } else if i % 2 == 0 {
        let j = (i - 2) as nat;
        lemma_factorial_parts(j);
        lemma_odd_of(i as int);
        let a = two_adic_spec(i as int);
        let b = factorial_two_adic(j);
        lemma_pow2_adds(a, b);
        assert(factorial(i) == i * factorial((i - 1) as nat));
        assert(factorial((i - 1) as nat) == (i - 1) * factorial(j));
        lemma_odd_product(i - 1, odd_factorial(j));
        lemma_odd_product(odd_of(i as int), (i - 1) * odd_factorial(j));
        let o = odd_of(i as int);
        let q = odd_factorial(j);
        let pa = pow2(a) as int;
        let pb = pow2(b) as int;
        assert((pa * o) * ((i - 1) * (pb * q)) == (pa * pb) * (o * ((i - 1) * q)))
            by (nonlinear_arith);
    } else {
        let j = (i - 1) as nat;
        lemma_factorial_parts(j);
        lemma_odd_product(i as int, odd_factorial(j));
        let q = odd_factorial(j);
        let pb = pow2(factorial_two_adic(j)) as int;
        assert(i * (pb * q) == pb * (i * q)) by (nonlinear_arith);
    }
}

/// Where a power of two divides an odd number times `d`, it divides `d`.
pub proof fn lemma_odd_cancel(q: int, d: int, e: nat)
    requires
        q % 2 == 1,
        (q * d) % (pow2(e) as int) == 0,
    ensures
        d % (pow2(e) as int) == 0,
    decreases e,
{
    vstd::arithmetic::power2::lemma2_to64();
    if e > 0 {
        let h = pow2((e - 1) as nat) as int;
        lemma_pow2_unfold(e);
        lemma_pow2_pos((e - 1) as nat);
        let p = 2 * h;
        // q * d is even, so d is even.
        let t = (q * d) / p;
        vstd::arithmetic::div_mod::lemma_fundamental_div_mod(q * d, p);
        assert(q * d == p * t);
        let x = q / 2;
        let y = d / 2;
        if d % 2 == 1 {
            assert(q * d == 2 * (2 * x * y + x + y) + 1) by (nonlinear_arith)
                requires
                    q == 2 * x + 1,
                    d == 2 * y + 1,
            ;
            assert(p * t == 2 * (h * t)) by (nonlinear_arith)
                requires
                    p == 2 * h,
            ;
            assert(false);
        }
        assert(d == 2 * y);
        assert(q * y == h * t) by (nonlinear_arith)
            requires
                q * d == p * t,
                d == 2 * y,
                p == 2 * h,
        ;
        vstd::arithmetic::div_mod::lemma_mod_multiples_basic(t, h);
        assert((q * y) % h == 0) by {
            assert(h * t == t * h) by (nonlinear_arith);
        }
        lemma_odd_cancel(q, y, (e - 1) as nat);
        vstd::arithmetic::div_mod::lemma_fundamental_div_mod(y, h);
        let z = y / h;
        assert(d == z * p) by (nonlinear_arith)
            requires
                d == 2 * y,
                y == h * z,
                p == 2 * h,
        ;
        vstd::arithmetic::div_mod::lemma_mod_multiples_basic(z, p);
    } else {
        assert(pow2(0) == 1);
    }
}

/// There is no way to choose more than all.
pub proof fn lemma_binomial_none(x: nat, i: nat)
    requires
        i > x,
    ensures
        binomial(x, i) == 0,
    decreases x,
{
    if x > 0 {
        lemma_binomial_none((x - 1) as nat, (i - 1) as nat);
        lemma_binomial_none((x - 1) as nat, i);
    }
}

/// There is one way to choose all.
pub proof fn lemma_binomial_all(x: nat)
    ensures
        binomial(x, x) == 1,
    decreases x,
{
    if x > 0 {
        lemma_binomial_all((x - 1) as nat);
        lemma_binomial_none((x - 1) as nat, x);
    }
}

/// The coefficients `d` without the last, less the last times the coefficients of
/// `X * (X - 1) * ... * (X - (n - 1))`, where `n` is the number of those left.
pub open spec fn lowered(d: Seq<int>) -> Seq<int> {
    Seq::new((d.len() - 1) as nat, |i: int| d[i] - d.last() * falling((d.len() - 1) as nat)[i])
}

/// The coefficients of a polynomial as a sum of the polynomials
/// `X * (X - 1) * ... * (X - (k - 1))`.
pub open spec fn newton(d: Seq<int>) -> Seq<int>
    decreases d.len(),
{
    if d.len() == 0 {
        d
    } else {
        newton(lowered(d)).push(d.last())
    }
}

/// The terms of that sum at `x`.
pub open spec fn newton_terms(c: Seq<int>, x: int) -> spec_fn(int) -> int {
    |k: int| c[k] * falling_value(x, k as nat)
}

/// The coefficients of the sum are as many as those of the polynomial, the last the
/// same.
pub proof fn lemma_newton_len(d: Seq<int>)
    ensures
        newton(d).len() == d.len(),
        d.len() > 0 ==> newton(d).last() == d.last(),
    decreases d.len(),
{
    if d.len() > 0 {
        lemma_newton_len(lowered(d));
    }
}

/// The value of a polynomial is that of the sum.
pub proof fn lemma_newton_eval(d: Seq<int>, x: int)
    ensures
        poly_eval(d, x) == sum(newton_terms(newton(d), x), d.len() as int),
    decreases d.len(),
{
    if d.len() > 0 {
        let n = (d.len() - 1) as nat;
        let top = d.last();
        let e = lowered(d);
        let f = falling(n);
        lemma_falling_monic(n);
        lemma_newton_eval(e, x);
        lemma_newton_len(e);
        lemma_newton_len(d);
        let r = e.push(0);
        assert forall|i: int| 0 <= i < d.len() implies #[trigger] r[i] == d[i] - top * f[i] by {
            if i == n {
                assert(top * 1 == top);
            }
        }
        lemma_eval_sub_scaled(d, f, top, r, x);
        lemma_eval_push(e, 0, x);
        lemma_falling_eval(n, x);
        assert(0 * vstd::arithmetic::power::pow(x, e.len()) == 0);
        // poly_eval(d, x) == poly_eval(e, x) + top * falling_value(x, n)
        let g = newton_terms(newton(d), x);
        let h = newton_terms(newton(e), x);
        assert forall|k: int| 0 <= k < n implies #[trigger] g(k) == h(k) by {
            assert(newton(d)[k] == newton(e)[k]);
        }
        lemma_sum_eq(g, h, n as int);
        assert(sum(g, n as int + 1) == sum(g, n as int) + g(n as int));
        assert(g(n as int) == top * falling_value(x, n));
    }
}

/// Where the sum is zero, in the ring of `m` elements, at the natural numbers below
/// the number of its coefficients, each coefficient times the factorial of its index
/// is zero in the ring.
pub proof fn lemma_newton_divisible(c: Seq<int>, m: int, j: int)
    requires
        m > 0,
        0 <= j < c.len(),
        forall|x: int| 0 <= x < c.len() ==> cong(#[trigger] sum(newton_terms(c, x), c.len() as int), 0, m),
    ensures
        cong(factorial(j as nat) * c[j], 0, m),
    decreases j,
{
    let n = c.len() as int;
    let f = newton_terms(c, j);
    let g = |k: int|
        if k == j {
            factorial(j as nat) * c[j]
        } else {
            0int
        };
    assert forall|k: int| 0 <= k < n implies cong(#[trigger] f(k), g(k), m) by {
        lemma_falling_binomial(j as nat, k as nat);
        let b = binomial(j as nat, k as nat);
        if k < j {
            lemma_newton_divisible(c, m, k);
            lemma_cong_ops(factorial(k as nat) * c[k], 0, b, b, m);
            assert(c[k] * (factorial(k as nat) * b) == (factorial(k as nat) * c[k]) * b)
                by (nonlinear_arith);
            assert(0 * b == 0);
        } else if k == j {
            lemma_binomial_all(j as nat);
            assert(c[j] * (factorial(j as nat) * 1) == factorial(j as nat) * c[j])
                by (nonlinear_arith);
        } else {
            lemma_binomial_none(j as nat, k as nat);
            assert(c[k] * (factorial(k as nat) * 0) == 0) by (nonlinear_arith);
        }
    }
    lemma_sum_cong(f, g, n, m);
    lemma_sum_single(g, n, j);
    assert(cong(sum(f, n), 0, m));
}

/// Where a polynomial is zero, in the ring of `m` elements, at the natural numbers
/// below the number of its coefficients, its last coefficient times the factorial of
/// its index is zero in the ring.
pub proof fn lemma_leading(d: Seq<int>, m: int)
    requires
        m > 0,
        d.len() > 0,
        forall|x: int| 0 <= x < d.len() ==> cong(#[trigger] poly_eval(d, x), 0, m),
    ensures
        cong(factorial((d.len() - 1) as nat) * d.last(), 0, m),
{
    let c = newton(d);
    lemma_newton_len(d);
    assert forall|x: int| 0 <= x < c.len() implies cong(
        #[trigger] sum(newton_terms(c, x), c.len() as int),
        0,
        m,
    ) by {
        lemma_newton_eval(d, x);
        assert(cong(poly_eval(d, x), 0, m));
    }
    lemma_newton_divisible(c, m, d.len() - 1);
}

/// Whether the coefficients are those of a polynomial in reduced form: each is an
/// element of the ring, the last is not zero, and each from that of `X^2` on is less
/// than the leading coefficient of the generator that reduces it.
pub open spec fn is_canonical<T: UnsignedInt>(zi: &ZeroIdeal<T>, c: Seq<int>) -> bool {
    &&& forall|i: int| 0 <= i < c.len() ==> 0 <= #[trigger] c[i] < T::modulus()
    &&& trimmed(c) == c
    &&& zi.is_reduced(c)
}

/// The value of a polynomial whose coefficients from index `k` on are zero is that
/// of the polynomial of its first `k` coefficients.
pub proof fn lemma_eval_zero_tail(c: Seq<int>, k: int, x: int)
    requires
        0 <= k <= c.len(),
        forall|i: int| k <= i < c.len() ==> #[trigger] c[i] == 0,
    ensures
        poly_eval(c, x) == poly_eval(c.subrange(0, k), x),
    decreases c.len() - k,
{
    if k < c.len() {
        let r = c.drop_last();
        assert(c =~= r.push(0));
        lemma_eval_push(r, 0, x);
        assert(0 * vstd::arithmetic::power::pow(x, r.len()) == 0);
        assert forall|i: int| k <= i < r.len() implies #[trigger] r[i] == 0 by {
            assert(r[i] == c[i]);
        }
        lemma_eval_zero_tail(r, k, x);
        assert(r.subrange(0, k) =~= c.subrange(0, k));
    } else {
        assert(c.subrange(0, k) =~= c);
    }
}

/// Two numbers below `2^e` whose difference, times an odd number and `2^v`, is zero
/// modulo `2^(v + e)` are the same.
pub proof fn lemma_same_top(x: int, y: int, f: int, q: int, v: nat, e: nat)
    requires
        0 <= x < pow2(e),
        0 <= y < pow2(e),
        f == pow2(v) * q,
        q % 2 == 1,
        cong(f * (x - y), 0, pow2(v + e) as int),
    ensures
        x == y,
{
    let pv = pow2(v) as int;
    let pe = pow2(e) as int;
    let d = x - y;
    lemma_pow2_pos(v);
    lemma_pow2_pos(e);
    lemma_pow2_adds(v, e);
    let m = pv * pe;
    assert(m > 0) by (nonlinear_arith)
        requires
            m == pv * pe,
            pv > 0,
            pe > 0,
    ;
    lemma_mod_small(0, m);
    vstd::arithmetic::div_mod::lemma_fundamental_div_mod(f * d, m);
    let t = (f * d) / m;
    assert(pv * (q * d) == pv * (pe * t)) by (nonlinear_arith)
        requires
            f * d == m * t,
            f == pv * q,
            m == pv * pe,
    ;
    assert(q * d == pe * t) by (nonlinear_arith)
        requires
            pv * (q * d) == pv * (pe * t),
            pv > 0,
    ;
    vstd::arithmetic::div_mod::lemma_mod_multiples_basic(t, pe);
    assert((q * d) % pe == 0) by {
        assert(pe * t == t * pe) by (nonlinear_arith);
    }
    lemma_odd_cancel(q, d, e);
    vstd::arithmetic::div_mod::lemma_fundamental_div_mod(d, pe);
    let z = d / pe;
    assert(z == 0) by (nonlinear_arith)
        requires
            d == pe * z,
            -pe < d < pe,
            pe > 0,
    ;
    assert(pe * 0 == 0);
}

/// The coefficients of two polynomials in reduced form with the same values on the
/// ring are the same from index `k` on.
pub proof fn lemma_same_from<T: UnsignedInt>(zi: &ZeroIdeal<T>, a: Seq<int>, b: Seq<int>, k: int)
    requires
        zi.wf(),
        is_canonical(zi, a),
        is_canonical(zi, b),
        same_function(a, b, T::modulus()),
        0 <= k,
    ensures
        forall|i: int| k <= i ==> coeff(a, i) == coeff(b, i),
    decreases a.len() + b.len() - k,
{
    let md = T::modulus();
    T::lemma_modulus();
    let len = if a.len() >= b.len() {
        a.len()
    } else {
        b.len()
    };
    if k < len {
        lemma_same_from(zi, a, b, k + 1);
        let ra = crate::polynomial::resized(a, len);
        let rb = crate::polynomial::resized(b, len);
        let full = Seq::new(len, |i: int| coeff(a, i) - coeff(b, i));
        let d = full.subrange(0, k + 1);
        assert forall|i: int| 0 <= i < len implies #[trigger] full[i] == ra[i] - 1 * rb[i] by {}
        assert forall|x: int| 0 <= x < d.len() implies cong(#[trigger] poly_eval(d, x), 0, md) by {
            lemma_eval_sub_scaled(ra, rb, 1, full, x);
            crate::polynomial::lemma_eval_resized(a, len, x);
            crate::polynomial::lemma_eval_resized(b, len, x);
            lemma_eval_zero_tail(full, k + 1, x);
            assert(cong(poly_eval(a, x), poly_eval(b, x), md));
            lemma_cong_ops(poly_eval(a, x), poly_eval(b, x), poly_eval(b, x), poly_eval(b, x), md);
        }
        lemma_leading(d, md);
        let x = coeff(a, k);
        let y = coeff(b, k);
        assert(d.last() == x - y);
        // The bound on the two coefficients.
        lemma_factorial_parts(k as nat);
        let v = factorial_two_adic(k as nat);
        if k < 2 {
            assert(v == 0);
            assert(pow2(0) == 1) by {
                vstd::arithmetic::power2::lemma2_to64();
            }
            lemma_same_top(x, y, factorial(k as nat), odd_factorial(k as nat), 0, T::bits());
        } else {
            let g = zi.reducer(k);
            zi.lemma_generator_count();
            zi.lemma_generator(g);
            let bound = zi.gen@[g]@.last();
            assert(0 <= x < bound) by {
                if k < a.len() {
                    assert(a[k] < zi.gen@[zi.reducer(k)]@.last());
                }
            }
            assert(0 <= y < bound) by {
                if k < b.len() {
                    assert(b[k] < zi.gen@[zi.reducer(k)]@.last());
                }
            }
            if g < zi.gen@.len() - 1 {
                assert(g == k / 2 - 1);
                let i = ZeroIdeal::<T>::factors(g);
                assert(i == 2 * (k / 2));
                assert(factorial_two_adic(i) < T::bits());
                assert(factorial_two_adic(i) == v) by {
                    if k % 2 == 1 {
                        assert(factorial_two_adic(k as nat) == factorial_two_adic((k - 1) as nat));
                    }
                }
                let e = (T::bits() - v) as nat;
                assert(bound == pow2(e));
                assert(v + e == T::bits());
                lemma_same_top(x, y, factorial(k as nat), odd_factorial(k as nat), v, e);
            } else {
                assert(bound == 1);
            }
        }
    } else {
        assert forall|i: int| k <= i implies coeff(a, i) == coeff(b, i) by {}
    }
}

/// Two polynomials in reduced form with the same values on the ring are the same.
pub proof fn lemma_canonical_unique<T: UnsignedInt>(zi: &ZeroIdeal<T>, a: Seq<int>, b: Seq<int>)
    requires
        zi.wf(),
        is_canonical(zi, a),
        is_canonical(zi, b),
        same_function(a, b, T::modulus()),
    ensures
        a == b,
{
    lemma_same_from(zi, a, b, 0);
    crate::poly_text::lemma_trimmed_same(a, b);
}

/// The values of a polynomial.
pub open spec fn valued(c: Seq<int>) -> spec_fn(int) -> int {
    |x: int| poly_eval(c, x)
}

/// The values of `p` at the values of `q`.
pub open spec fn composed(p: Seq<int>, q: Seq<int>) -> spec_fn(int) -> int {
    |x: int| poly_eval(p, poly_eval(q, x))
}

/// Whether the polynomial has the values of `f`, in the ring, at every natural
/// number, and so on every element of the ring.
pub open spec fn has_values(c: Seq<int>, f: spec_fn(int) -> int, m: int) -> bool {
    forall|x: int| 0 <= x ==> cong(#[trigger] poly_eval(c, x), f(x), m)
}

/// The polynomial in reduced form that has the values of `f` on the ring.
pub open spec fn canonical_for<T: UnsignedInt>(zi: &ZeroIdeal<T>, f: spec_fn(int) -> int) -> Seq<
    int,
> {
    choose|c: Seq<int>| is_canonical(zi, c) && has_values(c, f, T::modulus())
}

/// A polynomial in reduced form that has the values of `f` on the ring is the
/// polynomial in reduced form that has them.
pub proof fn lemma_canonical_for<T: UnsignedInt>(
    zi: &ZeroIdeal<T>,
    f: spec_fn(int) -> int,
    r: Seq<int>,
)
    requires
        zi.wf(),
        is_canonical(zi, r),
        has_values(r, f, T::modulus()),
    ensures
        canonical_for(zi, f) == r,
{
    let c = canonical_for(zi, f);
    assert(is_canonical(zi, c) && has_values(c, f, T::modulus()));
    assert forall|x: int| 0 <= x implies cong(
        #[trigger] poly_eval(c, x),
        poly_eval(r, x),
        T::modulus(),
    ) by {
        assert(cong(poly_eval(c, x), f(x), T::modulus()));
        assert(cong(poly_eval(r, x), f(x), T::modulus()));
    }
    lemma_canonical_unique(zi, c, r);
}

/// The polynomial `X` is in reduced form.
pub proof fn lemma_identity_canonical<T: UnsignedInt>(zi: &ZeroIdeal<T>)
    ensures
        is_canonical(zi, seq![0int, 1int]),
{
    T::lemma_modulus();
    let x = seq![0int, 1int];
    assert(x.last() == 1);
    assert(trimmed(x) == x);
}

} // verus!
