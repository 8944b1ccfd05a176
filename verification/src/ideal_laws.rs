//! Why the generators of the zero ideal are zero on every element of the ring.

use vstd::prelude::*;
use vstd::arithmetic::power2::{pow2, lemma_pow2_adds, lemma_pow2_pos, lemma_pow2_unfold, lemma2_to64};
use crate::numbers::UnsignedInt;
use crate::polynomial::{poly_eval, coeff, lemma_eval_cong, lemma_eval_sub_scaled};
use crate::zero_ideal::{
    ZeroIdeal, two_adic_spec, factorial_two_adic, mul_lin_spec, falling, scaled, reduced,
};
use crate::modular::{cong, lemma_cong_mod, lemma_cong_add_multiple};

verus! {

/// The product `x * (x - 1) * ... * (x - (i - 1))`.
pub open spec fn falling_value(x: int, i: nat) -> int
    decreases i,
{
    if i == 0 {
        1
    } else {
        falling_value(x, (i - 1) as nat) * (x - (i - 1))
    }
}

/// The factorial of `i`.
pub open spec fn factorial(i: nat) -> int
    decreases i,
{
    if i == 0 {
        1
    } else {
        i * factorial((i - 1) as nat)
    }
}

/// The number of ways to choose `i` of `x` things.
pub open spec fn binomial(x: nat, i: nat) -> int
    decreases x,
{
    if i == 0 {
        1
    } else if x == 0 {
        0
    } else {
        binomial((x - 1) as nat, (i - 1) as nat) + binomial((x - 1) as nat, i)
    }
}

/// The value of a polynomial times `X - a` is its value times `x - a`.
pub proof fn lemma_eval_mul_lin(c: Seq<int>, a: int, x: int)
    ensures
        poly_eval(mul_lin_spec(c, a), x) == poly_eval(c, x) * (x - a),
    decreases c.len(),
{
    let c2 = mul_lin_spec(c, a);
    if c.len() == 0 {
        assert(c2.drop_first() =~= Seq::<int>::empty());
        assert(poly_eval(Seq::<int>::empty(), x) == 0);
        assert(c2[0] == 0 - a * 0);
        assert(a * 0 == 0);
        assert(x * 0 == 0);
        assert(0 * (x - a) == 0);
    } else {
        let r = c.drop_first();
        let d = mul_lin_spec(r, a);
        lemma_eval_mul_lin(r, a, x);
        let e = c2.drop_first();
        assert(e.len() == d.len());
        assert(e[0] == d[0] + c[0]) by {
            assert(e[0] == c2[1]);
            assert(c2[1] == coeff(c, 0) - a * coeff(c, 1));
            assert(d[0] == coeff(r, -1) - a * coeff(r, 0));
            assert(coeff(r, 0) == coeff(c, 1));
        }
        assert(e.drop_first() =~= d.drop_first()) by {
            assert forall|k: int| 0 <= k < e.len() - 1 implies e.drop_first()[k] == d.drop_first()[k] by {
                assert(e.drop_first()[k] == c2[k + 2]);
                assert(d.drop_first()[k] == d[k + 1]);
                assert(coeff(r, k) == coeff(c, k + 1));
                assert(coeff(r, k + 1) == coeff(c, k + 2));
            }
        }
        assert(poly_eval(e, x) == poly_eval(d, x) + c[0]);
        assert(c2[0] == 0 - a * c[0]);
        let q = poly_eval(r, x);
        assert(0 - a * c[0] + x * (q * (x - a) + c[0]) == (c[0] + x * q) * (x - a))
            by (nonlinear_arith);
    }
}

/// The value of `X * (X - 1) * ... * (X - (i - 1))` at `x` is the product of the
/// numbers from `x` down.
pub proof fn lemma_falling_eval(i: nat, x: int)
    ensures
        poly_eval(falling(i), x) == falling_value(x, i),
    decreases i,
{
    if i == 0 {
        assert(seq![1int].drop_first() =~= Seq::<int>::empty());
        assert(poly_eval(Seq::<int>::empty(), x) == 0);
        assert(x * 0 == 0);
    } else {
        lemma_falling_eval((i - 1) as nat, x);
        lemma_eval_mul_lin(falling((i - 1) as nat), i - 1, x);
    }
}

/// The product of the `i + 1` numbers from `x + 1` down is `x + 1` times the product
/// of the `i` numbers from `x` down.
pub proof fn lemma_falling_shift(x: int, i: nat)
    ensures
        falling_value(x + 1, i + 1) == (x + 1) * falling_value(x, i),
    decreases i,
{
    if i == 0 {
        assert(falling_value(x + 1, 1) == falling_value(x + 1, 0) * (x + 1 - 0));
        assert(1 * (x + 1) == (x + 1) * 1);
    } else {
        lemma_falling_shift(x, (i - 1) as nat);
        let f = falling_value(x, (i - 1) as nat);
        assert(falling_value(x + 1, i + 1) == falling_value(x + 1, i) * (x + 1 - i));
        assert(falling_value(x, i) == f * (x - (i - 1)));
        assert(((x + 1) * f) * (x + 1 - i) == (x + 1) * (f * (x - (i - 1)))) by (nonlinear_arith);
    }
}

/// The product of the `i` numbers from `x` down is the factorial of `i` times the
/// number of ways to choose `i` of `x` things.
pub proof fn lemma_falling_binomial(x: nat, i: nat)
    ensures
        falling_value(x as int, i) == factorial(i) * binomial(x, i),
    decreases x, i,
{
    if i == 0 {
        assert(1 * 1 == 1int);
    } else if x == 0 {
        lemma_falling_zero(i);
        assert(factorial(i) * 0 == 0);
    } else {
        let y = (x - 1) as nat;
        let j = (i - 1) as nat;
        lemma_falling_binomial(y, j);
        lemma_falling_binomial(y, i);
        lemma_falling_shift(y as int, j);
        // falling_value(x, i) == x * falling_value(y, j)
        let fj = falling_value(y as int, j);
        assert(falling_value(y as int, i) == fj * (y - j));
        assert(factorial(i) == i * factorial(j));
        let bj = binomial(y, j);
        let bi = binomial(y, i);
        assert(factorial(i) * (bj + bi) == i * (factorial(j) * bj) + factorial(i) * bi)
            by (nonlinear_arith)
            requires
                factorial(i) == i * factorial(j),
        ;
        assert(i * fj + fj * (y - j) == (y + 1) * fj) by (nonlinear_arith)
            requires
                i == j + 1,
        ;
    }
}

/// The product of one number or more from zero down is zero.
pub proof fn lemma_falling_zero(i: nat)
    requires
        i > 0,
    ensures
        falling_value(0, i) == 0,
    decreases i,
{
    if i == 1 {
        assert(falling_value(0, 1) == falling_value(0, 0) * (0 - 0));
    } else {
        lemma_falling_zero((i - 1) as nat);
        assert(0 * (0 - (i - 1)) == 0);
    }
}

/// The power of two that `two_adic_spec` counts divides the number.
pub proof fn lemma_two_adic_divides(i: int)
    requires
        i > 0,
    ensures
        i % (pow2(two_adic_spec(i)) as int) == 0,
    decreases i,
{
    lemma2_to64();
    if i % 2 == 0 {
        lemma_two_adic_divides(i / 2);
        let t = two_adic_spec(i / 2);
        lemma_pow2_unfold(t + 1);
        lemma_pow2_pos(t);
        lemma_product_divisible(2, i / 2, 2, pow2(t) as int);
    }
}

/// The product of a multiple of `p` and a multiple of `q` is a multiple of `p * q`.
pub proof fn lemma_product_divisible(a: int, b: int, p: int, q: int)
    requires
        p > 0,
        q > 0,
        a % p == 0,
        b % q == 0,
    ensures
        p * q > 0,
        (a * b) % (p * q) == 0,
{
    vstd::arithmetic::div_mod::lemma_fundamental_div_mod(a, p);
    vstd::arithmetic::div_mod::lemma_fundamental_div_mod(b, q);
    let u = a / p;
    let v = b / q;
    assert(p * q > 0) by (nonlinear_arith)
        requires
            p > 0,
            q > 0,
    ;
    assert(a * b == (p * q) * (u * v)) by (nonlinear_arith)
        requires
            a == p * u,
            b == q * v,
    ;
    vstd::arithmetic::div_mod::lemma_mod_multiples_basic(u * v, p * q);
    assert((u * v) * (p * q) == (p * q) * (u * v)) by (nonlinear_arith);
}

/// Two divides the factorial of `i` as often as `factorial_two_adic` counts.
pub proof fn lemma_factorial_divisible(i: nat)
    ensures
        factorial(i) % (pow2(factorial_two_adic(i)) as int) == 0,
    decreases i,
{
    lemma2_to64();
    if i == 0 {
    } else if i == 1 {
        assert(factorial(1) == 1 * factorial(0));
    } else if i % 2 == 0 {
        let j = (i - 2) as nat;
        lemma_factorial_divisible(j);
        lemma_two_adic_divides(i as int);
        let a = two_adic_spec(i as int);
        let b = factorial_two_adic(j);
        lemma_pow2_pos(a);
        lemma_pow2_pos(b);
        lemma_pow2_adds(a, b);
        lemma_product_divisible(i as int, factorial(j), pow2(a) as int, pow2(b) as int);
        // the odd factor i - 1 between
        assert(factorial(i) == i * factorial((i - 1) as nat));
        assert(factorial((i - 1) as nat) == (i - 1) * factorial(j));
        lemma_product_divisible(i * factorial(j), i - 1, pow2(a + b) as int, 1);
        assert(factorial(i) == (i * factorial(j)) * (i - 1)) by (nonlinear_arith)
            requires
                factorial(i) == i * factorial((i - 1) as nat),
                factorial((i - 1) as nat) == (i - 1) * factorial(j),
        ;
        assert(pow2(a + b) * 1 == pow2(a + b));
    } else {
        let j = (i - 1) as nat;
        lemma_factorial_divisible(j);
        let b = factorial_two_adic(j);
        lemma_pow2_pos(b);
        lemma_product_divisible(i as int, factorial(j), 1, pow2(b) as int);
        assert(1 * pow2(b) == pow2(b));
    }
}

/// The value of a polynomial with each coefficient times `k` is `k` times its value.
pub proof fn lemma_eval_scaled(c: Seq<int>, k: int, x: int)
    ensures
        poly_eval(scaled(c, k), x) == k * poly_eval(c, x),
{
    let z = Seq::new(c.len(), |i: int| 0int);
    let r = scaled(c, k);
    assert forall|i: int| 0 <= i < c.len() implies #[trigger] r[i] == z[i] - (-k) * c[i] by {
        assert(c[i] * k == 0 - (-k) * c[i]) by (nonlinear_arith);
    }
    lemma_eval_sub_scaled(z, c, -k, r, x);
    crate::polynomial::lemma_eval_all_zero(c.len(), x);
    assert(0 - (-k) * poly_eval(c, x) == k * poly_eval(c, x)) by (nonlinear_arith);
}

/// Each generator of the zero ideal of a ring is zero, in the ring, at every natural
/// number.
pub proof fn lemma_generator_vanishes<T: UnsignedInt>(k: int, x: int)
    requires
        0 <= k,
        0 <= x,
    ensures
        cong(poly_eval(ZeroIdeal::<T>::generator(k), x), 0, T::modulus()),
{
    let md = T::modulus();
    T::lemma_modulus();
    let n = T::bits();
    let i = ZeroIdeal::<T>::factors(k);
    let e = ZeroIdeal::<T>::scale_of(k);
    let d = factorial_two_adic(i);
    let c = scaled(falling(i), pow2(e) as int);
    assert forall|t: int| 0 <= t < c.len() implies cong(
        #[trigger] reduced(c, md)[t],
        c[t],
        md,
    ) by {
        lemma_cong_mod(c[t], md);
    }
    lemma_eval_cong(reduced(c, md), c, x, md);
    lemma_eval_scaled(falling(i), pow2(e) as int, x);
    lemma_falling_eval(i, x);
    lemma_falling_binomial(x as nat, i);
    lemma_factorial_divisible(i);
    lemma_pow2_pos(d);
    lemma_pow2_pos(e);
    vstd::arithmetic::div_mod::lemma_fundamental_div_mod(factorial(i), pow2(d) as int);
    let w = factorial(i) / (pow2(d) as int);
    assert(factorial(i) == pow2(d) * w);
    lemma_pow2_adds(e, d);
    lemma_pow2_adds(n, (e + d - n) as nat);
    lemma_pow2_pos((e + d - n) as nat);
    let u = pow2((e + d - n) as nat) as int;
    let b = binomial(x as nat, i);
    assert(pow2(e) * (factorial(i) * b) == 0 + ((u * w) * b) * md) by (nonlinear_arith)
        requires
            factorial(i) == pow2(d) * w,
            pow2(e) * pow2(d) == md * u,
    ;
    lemma_cong_add_multiple(0, (u * w) * b, md);
}

/// Each generator of a zero ideal is zero, in the ring, at every natural number,
/// and so on every element of the ring.
pub proof fn lemma_zero_ideal_sound<T: UnsignedInt>(zi: &ZeroIdeal<T>, k: int, x: int)
    requires
        zi.wf(),
        0 <= k < zi.gen@.len(),
        0 <= x,
    ensures
        cong(poly_eval(zi.gen@[k]@, x), 0, T::modulus()),
{
    lemma_generator_vanishes::<T>(k, x);
}

} // verus!
