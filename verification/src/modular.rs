//! Congruences of integers, and finite sums of integer sequences.

use vstd::prelude::*;
use vstd::arithmetic::div_mod::{
    lemma_add_mod_noop, lemma_sub_mod_noop, lemma_mul_mod_noop_general, lemma_mod_multiples_vanish,
    lemma_fundamental_div_mod,
};

verus! {

/// `a` and `b` leave the same remainder modulo `m`.
pub open spec fn cong(a: int, b: int, m: int) -> bool {
    a % m == b % m
}

/// The sum of the first `n` values of `f`.
pub open spec fn sum(f: spec_fn(int) -> int, n: int) -> int
    decreases n,
{
    if n <= 0 {
        0
    } else {
        sum(f, n - 1) + f(n - 1)
    }
}

/// Sums and products of congruent numbers are congruent.
pub proof fn lemma_cong_ops(a: int, a2: int, b: int, b2: int, m: int)
    requires
        0 < m,
        cong(a, a2, m),
        cong(b, b2, m),
    ensures
        cong(a + b, a2 + b2, m),
        cong(a - b, a2 - b2, m),
        cong(a * b, a2 * b2, m),
{
    lemma_add_mod_noop(a, b, m);
    lemma_add_mod_noop(a2, b2, m);
    lemma_sub_mod_noop(a, b, m);
    lemma_sub_mod_noop(a2, b2, m);
    lemma_mul_mod_noop_general(a, b, m);
    lemma_mul_mod_noop_general(a2, b2, m);
}

/// A number is congruent to its remainder.
pub proof fn lemma_cong_mod(a: int, m: int)
    requires
        0 < m,
    ensures
        cong(a % m, a, m),
        0 <= a % m < m,
{
    vstd::arithmetic::div_mod::lemma_mod_twice(a, m);
}

/// Adding a multiple of the modulus changes nothing.
pub proof fn lemma_cong_add_multiple(a: int, k: int, m: int)
    requires
        0 < m,
    ensures
        cong(a + k * m, a, m),
{
    lemma_mod_multiples_vanish(k, a, m);
    assert(m * k + a == a + k * m) by (nonlinear_arith);
}

/// Two congruent numbers differ by a multiple of the modulus.
pub proof fn lemma_cong_diff(a: int, b: int, m: int) -> (k: int)
    requires
        0 < m,
        cong(a, b, m),
    ensures
        a - b == k * m,
{
    lemma_fundamental_div_mod(a, m);
    lemma_fundamental_div_mod(b, m);
    let k = a / m - b / m;
    assert(a - b == k * m) by (nonlinear_arith)
        requires
            a == m * (a / m) + a % m,
            b == m * (b / m) + b % m,
            a % m == b % m,
            k == a / m - b / m,
    ;
    k
}

/// A number in `[0, m)` is its own remainder.
pub proof fn lemma_mod_small(a: int, m: int)
    requires
        0 <= a < m,
    ensures
        a % m == a,
{
    vstd::arithmetic::div_mod::lemma_small_mod(a as nat, m as nat);
}

/// The modulus leaves no remainder.
pub proof fn lemma_mod_self(m: int)
    requires
        0 < m,
    ensures
        m % m == 0,
        cong(0, m, m),
{
    vstd::arithmetic::div_mod::lemma_mod_self_0(m);
    lemma_mod_small(0, m);
}

/// Sums of termwise congruent sequences are congruent.
pub proof fn lemma_sum_cong(f: spec_fn(int) -> int, g: spec_fn(int) -> int, n: int, m: int)
    requires
        0 < m,
        forall|k: int| 0 <= k < n ==> cong(#[trigger] f(k), g(k), m),
    ensures
        cong(sum(f, n), sum(g, n), m),
    decreases n,
{
    if n > 0 {
        lemma_sum_cong(f, g, n - 1, m);
        lemma_cong_ops(sum(f, n - 1), sum(g, n - 1), f(n - 1), g(n - 1), m);
    }
}

/// Sums of termwise equal sequences are equal.
pub proof fn lemma_sum_eq(f: spec_fn(int) -> int, g: spec_fn(int) -> int, n: int)
    requires
        forall|k: int| 0 <= k < n ==> #[trigger] f(k) == g(k),
    ensures
        sum(f, n) == sum(g, n),
    decreases n,
{
    if n > 0 {
        lemma_sum_eq(f, g, n - 1);
    }
}

/// The sum is linear: where `h = f + c * g` termwise, `sum h = sum f + c * sum g`.
pub proof fn lemma_sum_linear(
    f: spec_fn(int) -> int,
    g: spec_fn(int) -> int,
    h: spec_fn(int) -> int,
    c: int,
    n: int,
)
    requires
        forall|k: int| 0 <= k < n ==> #[trigger] h(k) == f(k) + c * g(k),
    ensures
        sum(h, n) == sum(f, n) + c * sum(g, n),
    decreases n,
{
    if n > 0 {
        lemma_sum_linear(f, g, h, c, n - 1);
        assert(c * (sum(g, n - 1) + g(n - 1)) == c * sum(g, n - 1) + c * g(n - 1))
            by (nonlinear_arith);
    } else {
        assert(c * 0 == 0);
    }
}

/// A sum of zeros is zero.
pub proof fn lemma_sum_zero(f: spec_fn(int) -> int, n: int)
    requires
        forall|k: int| 0 <= k < n ==> #[trigger] f(k) == 0,
    ensures
        sum(f, n) == 0,
    decreases n,
{
    if n > 0 {
        lemma_sum_zero(f, n - 1);
    }
}

/// A sum with at most one term that is not zero is that term.
pub proof fn lemma_sum_single(f: spec_fn(int) -> int, n: int, i: int)
    requires
        0 <= i < n,
        forall|k: int| 0 <= k < n && k != i ==> #[trigger] f(k) == 0,
    ensures
        sum(f, n) == f(i),
    decreases n,
{
    if n - 1 == i {
        lemma_sum_zero(f, n - 1);
    } else {
        lemma_sum_single(f, n - 1, i);
    }
}

/// A constant factor can be drawn out of a sum.
pub proof fn lemma_sum_scale(f: spec_fn(int) -> int, h: spec_fn(int) -> int, c: int, n: int)
    requires
        forall|k: int| 0 <= k < n ==> #[trigger] h(k) == c * f(k),
    ensures
        sum(h, n) == c * sum(f, n),
    decreases n,
{
    if n > 0 {
        lemma_sum_scale(f, h, c, n - 1);
        assert(c * (sum(f, n - 1) + f(n - 1)) == c * sum(f, n - 1) + c * f(n - 1))
            by (nonlinear_arith);
    } else {
        assert(c * 0 == 0);
    }
}

/// The sum of a termwise sum is the sum of the sums.
pub proof fn lemma_sum_add(
    f: spec_fn(int) -> int,
    g: spec_fn(int) -> int,
    h: spec_fn(int) -> int,
    n: int,
)
    requires
        forall|k: int| 0 <= k < n ==> #[trigger] h(k) == f(k) + g(k),
    ensures
        sum(h, n) == sum(f, n) + sum(g, n),
    decreases n,
{
    if n > 0 {
        lemma_sum_add(f, g, h, n - 1);
    }
}

/// A sum with at most two terms that are not zero is the sum of the two.
pub proof fn lemma_sum_two(f: spec_fn(int) -> int, n: int, i: int, j: int)
    requires
        0 <= i < n,
        0 <= j < n,
        i != j,
        forall|k: int| 0 <= k < n && k != i && k != j ==> #[trigger] f(k) == 0,
    ensures
        sum(f, n) == f(i) + f(j),
    decreases n,
{
    if n - 1 == i {
        lemma_sum_single(f, n - 1, j);
    } else if n - 1 == j {
        lemma_sum_single(f, n - 1, i);
    } else {
        lemma_sum_two(f, n - 1, i, j);
    }
}

/// The sums over the second argument of `f`, as a function of the first.
pub open spec fn inner_sums(f: spec_fn(int, int) -> int, m: int) -> spec_fn(int) -> int {
    |k: int| sum(|j: int| f(k, j), m)
}

/// The sums over the first argument of `f`, as a function of the second.
pub open spec fn outer_sums(f: spec_fn(int, int) -> int, n: int) -> spec_fn(int) -> int {
    |j: int| sum(|k: int| f(k, j), n)
}

/// A double sum does not depend on the order of summation.
pub proof fn lemma_sum_exchange(f: spec_fn(int, int) -> int, n: int, m: int)
    ensures
        sum(inner_sums(f, m), n) == sum(outer_sums(f, n), m),
    decreases n,
{
    if n <= 0 {
        lemma_sum_zero(outer_sums(f, n), m);
    } else {
        lemma_sum_exchange(f, n - 1, m);
        let row = |j: int| f(n - 1, j);
        assert(inner_sums(f, m)(n - 1) == sum(row, m));
        lemma_sum_add(outer_sums(f, n - 1), row, outer_sums(f, n), m);
    }
}

} // verus!
