//! A linear combination of uniform expressions is known by its values under the
//! boolean valuations: each bit of its value depends on the same bit of the
//! variables, and on nothing else.

use vstd::prelude::*;
use vstd::arithmetic::power2::{pow2, lemma_pow2_unfold, lemma_pow2_pos};
use crate::numbers::{UnsignedInt, bit_and, bit_or, bit_xor};
use crate::bits::{lemma_bit_and_bound, lemma_bit_or_bound, lemma_bit_xor_bound};
use crate::modular::{cong, lemma_sum_linear, lemma_sum_zero, lemma_cong_ops};
use crate::uniform_expr::{UTerm, lu_terms, lu_sum, lu_eval};
use crate::rewrite::{is_boolean, agrees_on_booleans};

verus! {

/// The number of elements of the ring of the integers modulo `2^n`.
pub open spec fn size(n: nat) -> int {
    pow2(n) as int
}


/// Whether `v` gives every variable a value of the ring of `m` elements.
pub open spec fn in_ring(v: spec_fn(Seq<char>) -> int, m: int) -> bool {
    forall|n: Seq<char>| 0 <= #[trigger] v(n) < m
}

/// The lowest bits of the values of the variables.
pub open spec fn low(v: spec_fn(Seq<char>) -> int) -> spec_fn(Seq<char>) -> int {
    |n: Seq<char>| v(n) % 2
}

/// The values of the variables without their lowest bits.
pub open spec fn half(v: spec_fn(Seq<char>) -> int) -> spec_fn(Seq<char>) -> int {
    |n: Seq<char>| v(n) / 2
}

/// The valuation that gives a variable all ones where `b` gives it one, and all
/// zeros where `b` gives it zero.
pub open spec fn spread(b: spec_fn(Seq<char>) -> int, m: int) -> spec_fn(Seq<char>) -> int {
    |n: Seq<char>| (m - 1) * b(n)
}

/// Whether two linear combinations have the same value under every valuation into
/// the ring of `m` elements.
pub open spec fn agrees(r: Seq<(int, UTerm)>, e: Seq<(int, UTerm)>, m: int) -> bool {
    forall|v: spec_fn(Seq<char>) -> int|
        in_ring(v, m) ==> #[trigger] lu_eval(r, v, m) == lu_eval(e, v, m)
}

/// The value of a linear combination, bit by bit: the value under the lowest bits
/// of the variables, and twice the value of the `n - 1` bits above them.
pub open spec fn bitwise(t: Seq<(int, UTerm)>, v: spec_fn(Seq<char>) -> int, n: nat) -> int
    decreases n,
{
    if n == 0 {
        0
    } else {
        lu_sum(t, low(v), 2) + 2 * bitwise(t, half(v), (n - 1) as nat)
    }
}

/// The value of a uniform expression is an element of the ring.
pub proof fn lemma_eval_in_ring(u: UTerm, v: spec_fn(Seq<char>) -> int, n: nat)
    requires
        in_ring(v, size(n)),
    ensures
        0 <= u.eval(v, size(n)) < size(n),
    decreases u,
{
    let m = size(n);
    lemma_pow2_pos(n);
    match u {
        UTerm::Ones => {},
        UTerm::Var(x) => {
            assert(0 <= v(x) < m);
        },
        UTerm::Not(e) => {
            lemma_eval_in_ring(*e, v, n);
        },
        UTerm::And(l, r) => {
            lemma_eval_in_ring(*l, v, n);
            lemma_eval_in_ring(*r, v, n);
            lemma_bit_and_bound(l.eval(v, m), r.eval(v, m));
        },
        UTerm::Or(l, r) => {
            lemma_eval_in_ring(*l, v, n);
            lemma_eval_in_ring(*r, v, n);
            lemma_bit_or_bound(l.eval(v, m), r.eval(v, m), n);
        },
        UTerm::Xor(l, r) => {
            lemma_eval_in_ring(*l, v, n);
            lemma_eval_in_ring(*r, v, n);
            lemma_bit_xor_bound(l.eval(v, m), r.eval(v, m), n);
        },
    }
}

/// The halves of the values of a ring are values of the ring of half the size, and
/// their lowest bits are values of the ring of two elements.
pub proof fn lemma_halves_in_ring(v: spec_fn(Seq<char>) -> int, n: nat)
    requires
        n > 0,
        in_ring(v, size(n)),
    ensures
        in_ring(half(v), size((n - 1) as nat)),
        in_ring(low(v), 2),
        in_ring(low(v), size(1)),
{
    lemma_pow2_unfold(n);
    lemma_pow2_unfold(1);
    assert(size(0) == 1) by {
        vstd::arithmetic::power2::lemma2_to64();
    }
    assert forall|x: Seq<char>| 0 <= #[trigger] half(v)(x) < size((n - 1) as nat) by {
        assert(0 <= v(x) < size(n));
    }
    assert forall|x: Seq<char>| 0 <= #[trigger] low(v)(x) < 2 by {
        assert(0 <= v(x) < size(n));
    }
}

/// The lowest bit of a conjunction, disjunction or exclusive disjunction is that of
/// the lowest bits, and the bits above it are that of the bits above.
pub proof fn lemma_halves(a: int, b: int)
    requires
        0 <= a,
        0 <= b,
    ensures
        bit_and(a, b) % 2 == bit_and(a % 2, b % 2),
        bit_and(a, b) / 2 == bit_and(a / 2, b / 2),
        bit_or(a, b) % 2 == bit_or(a % 2, b % 2),
        bit_or(a, b) / 2 == bit_or(a / 2, b / 2),
        bit_xor(a, b) % 2 == bit_xor(a % 2, b % 2),
        bit_xor(a, b) / 2 == bit_xor(a / 2, b / 2),
{
    lemma_low_bits(a % 2, b % 2);
    assert(0 <= (a % 2) * (b % 2) <= 1) by (nonlinear_arith)
        requires
            0 <= a % 2 <= 1,
            0 <= b % 2 <= 1,
    ;
    if a <= 0 {
        assert(bit_and(a / 2, b / 2) == 0);
    }
    if a <= 0 && b <= 0 {
        assert(bit_or(a / 2, b / 2) == 0);
        assert(bit_xor(a / 2, b / 2) == 0);
    }
}

/// The lowest bit of the value of a uniform expression is its value under the
/// lowest bits of the variables, in the ring of two elements; the bits above it are
/// its value under the halves of the variables, in the ring of half the size.
pub proof fn lemma_eval_halves(u: UTerm, v: spec_fn(Seq<char>) -> int, n: nat)
    requires
        n > 0,
        in_ring(v, size(n)),
    ensures
        u.eval(v, size(n)) % 2 == u.eval(low(v), 2),
        u.eval(v, size(n)) / 2 == u.eval(half(v), size((n - 1) as nat)),
    decreases u,
{
    let m = size(n);
    lemma_pow2_unfold(n);
    lemma_pow2_pos((n - 1) as nat);
    match u {
        UTerm::Ones => {},
        UTerm::Var(x) => {},
        UTerm::Not(e) => {
            lemma_eval_halves(*e, v, n);
            lemma_eval_in_ring(*e, v, n);
        },
        UTerm::And(l, r) => {
            lemma_eval_halves(*l, v, n);
            lemma_eval_halves(*r, v, n);
            lemma_eval_in_ring(*l, v, n);
            lemma_eval_in_ring(*r, v, n);
            lemma_halves(l.eval(v, m), r.eval(v, m));
        },
        UTerm::Or(l, r) => {
            lemma_eval_halves(*l, v, n);
            lemma_eval_halves(*r, v, n);
            lemma_eval_in_ring(*l, v, n);
            lemma_eval_in_ring(*r, v, n);
            lemma_halves(l.eval(v, m), r.eval(v, m));
        },
        UTerm::Xor(l, r) => {
            lemma_eval_halves(*l, v, n);
            lemma_eval_halves(*r, v, n);
            lemma_eval_in_ring(*l, v, n);
            lemma_eval_in_ring(*r, v, n);
            lemma_halves(l.eval(v, m), r.eval(v, m));
        },
    }
}

/// The operations on two bits.
pub proof fn lemma_low_bits(p: int, q: int)
    requires
        0 <= p <= 1,
        0 <= q <= 1,
    ensures
        bit_and(p, q) == p * q,
        bit_or(p, q) == (if p == 1 || q == 1 {
            1int
        } else {
            0int
        }),
        bit_xor(p, q) == (if p != q {
            1int
        } else {
            0int
        }),
{
    assert(bit_and(0, 0) == 0);
    assert(bit_or(0, 0) == 0);
    assert(bit_xor(0, 0) == 0);
    assert(p / 2 == 0 && q / 2 == 0);
    assert(p * q == (p % 2) * (q % 2));
    assert(0 <= p * q <= 1) by (nonlinear_arith)
        requires
            0 <= p <= 1,
            0 <= q <= 1,
    ;
}

/// The value of a linear combination over the integers is its value bit by bit.
pub proof fn lemma_bitwise(t: Seq<(int, UTerm)>, v: spec_fn(Seq<char>) -> int, n: nat)
    requires
        in_ring(v, size(n)),
    ensures
        lu_sum(t, v, size(n)) == bitwise(t, v, n),
    decreases n,
{
    let m = size(n);
    let whole = lu_terms(t, v, m);
    if n == 0 {
        assert forall|i: int| 0 <= i < t.len() implies #[trigger] whole(i) == 0 by {
            lemma_eval_in_ring(t[i].1, v, n);
            assert(size(0) == 1) by {
                vstd::arithmetic::power2::lemma2_to64();
            }
            assert(t[i].0 * 0 == 0);
        }
        lemma_sum_zero(whole, t.len() as int);
    } else {
        let h = size((n - 1) as nat);
        let bits = lu_terms(t, low(v), 2);
        let rest = lu_terms(t, half(v), h);
        lemma_halves_in_ring(v, n);
        assert forall|i: int| 0 <= i < t.len() implies #[trigger] whole(i) == bits(i) + 2 * rest(
            i,
        ) by {
            lemma_eval_halves(t[i].1, v, n);
            let x = t[i].1.eval(v, m);
            let c = t[i].0;
            assert(c * x == c * (x % 2) + 2 * (c * (x / 2))) by (nonlinear_arith)
                requires
                    x == 2 * (x / 2) + x % 2,
            ;
        }
        lemma_sum_linear(bits, rest, whole, 2, t.len() as int);
        lemma_bitwise(t, half(v), (n - 1) as nat);
    }
}

/// Bit by bit, the value of a linear combination under a valuation of all zeros and
/// all ones is all ones times its value under the bits, in the ring of two
/// elements.
pub proof fn lemma_bitwise_spread(t: Seq<(int, UTerm)>, b: spec_fn(Seq<char>) -> int, n: nat)
    requires
        in_ring(b, 2),
    ensures
        bitwise(t, spread(b, size(n)), n) == (size(n) - 1) * lu_sum(t, b, 2),
        in_ring(spread(b, size(n)), size(n)),
        is_boolean(spread(b, size(n)), size(n)),
    decreases n,
{
    let m = size(n);
    let s = spread(b, m);
    lemma_pow2_pos(n);
    assert forall|x: Seq<char>| 0 <= #[trigger] s(x) < m && (s(x) == 0 || s(x) == m - 1) by {
        assert(0 <= b(x) < 2);
        assert((m - 1) * 0 == 0);
        assert((m - 1) * 1 == m - 1);
    }
    if n == 0 {
        assert(size(0) == 1) by {
            vstd::arithmetic::power2::lemma2_to64();
        }
        assert((m - 1) * lu_sum(t, b, 2) == 0) by (nonlinear_arith)
            requires
                m == 1,
        ;
    } else {
        let h = size((n - 1) as nat);
        lemma_pow2_unfold(n);
        lemma_pow2_pos((n - 1) as nat);
        assert forall|x: Seq<char>| #[trigger] low(s)(x) == b(x) && half(s)(x) == spread(b, h)(
            x,
        ) by {
            assert(0 <= b(x) < 2);
            assert((m - 1) * 0 == 0);
            assert((m - 1) * 1 == m - 1);
            assert((h - 1) * 0 == 0);
            assert((h - 1) * 1 == h - 1);
        }
        assert(low(s) =~= b);
        assert(half(s) =~= spread(b, h));
        lemma_bitwise_spread(t, b, (n - 1) as nat);
        let x = lu_sum(t, b, 2);
        assert(x + 2 * ((h - 1) * x) == (2 * h - 1) * x) by (nonlinear_arith);
    }
}

/// Two linear combinations with congruent values under every valuation of bits, in
/// the ring of two elements, have congruent values bit by bit.
pub proof fn lemma_bitwise_cong(
    r: Seq<(int, UTerm)>,
    e: Seq<(int, UTerm)>,
    v: spec_fn(Seq<char>) -> int,
    k: nat,
    m: int,
)
    requires
        m > 0,
        forall|b: spec_fn(Seq<char>) -> int|
            in_ring(b, 2) ==> cong(#[trigger] lu_sum(r, b, 2), lu_sum(e, b, 2), m),
    ensures
        cong(bitwise(r, v, k), bitwise(e, v, k), m),
    decreases k,
{
    if k > 0 {
        lemma_bitwise_cong(r, e, half(v), (k - 1) as nat, m);
        let b = low(v);
        assert forall|x: Seq<char>| 0 <= #[trigger] b(x) < 2 by {}
        assert(in_ring(b, 2));
        assert(cong(lu_sum(r, b, 2), lu_sum(e, b, 2), m));
        let x = bitwise(r, half(v), (k - 1) as nat);
        let y = bitwise(e, half(v), (k - 1) as nat);
        lemma_cong_ops(2, 2, x, y, m);
        lemma_cong_ops(lu_sum(r, b, 2), lu_sum(e, b, 2), 2 * x, 2 * y, m);
    }
}

/// Two linear combinations of uniform expressions that have the same value under
/// every valuation of all zeros and all ones have the same value under every
/// valuation into the ring of `2^n` elements.
pub proof fn lemma_pointwise(r: Seq<(int, UTerm)>, e: Seq<(int, UTerm)>, n: nat)
    requires
        agrees_on_booleans(r, e, size(n)),
    ensures
        agrees(r, e, size(n)),
{
    let m = size(n);
    lemma_pow2_pos(n);
    assert forall|b: spec_fn(Seq<char>) -> int| in_ring(b, 2) implies cong(
        #[trigger] lu_sum(r, b, 2),
        lu_sum(e, b, 2),
        m,
    ) by {
        let s = spread(b, m);
        lemma_bitwise_spread(r, b, n);
        lemma_bitwise_spread(e, b, n);
        lemma_bitwise(r, s, n);
        lemma_bitwise(e, s, n);
        assert(lu_eval(r, s, m) == lu_eval(e, s, m));
        let x = lu_sum(r, b, 2);
        let y = lu_sum(e, b, 2);
        assert(cong((m - 1) * x, (m - 1) * y, m));
        // -x and -y differ from these by multiples of m.
        crate::modular::lemma_cong_add_multiple((m - 1) * x, -x, m);
        crate::modular::lemma_cong_add_multiple((m - 1) * y, -y, m);
        assert((m - 1) * x + (-x) * m == -x) by (nonlinear_arith);
        assert((m - 1) * y + (-y) * m == -y) by (nonlinear_arith);
        lemma_cong_ops(-1, -1, -x, -y, m);
    }
    assert forall|v: spec_fn(Seq<char>) -> int| in_ring(v, m) implies #[trigger] lu_eval(r, v, m)
        == lu_eval(e, v, m) by {
        lemma_bitwise(r, v, n);
        lemma_bitwise(e, v, n);
        lemma_bitwise_cong(r, e, v, n, m);
    }
}

/// Two linear combinations over the ring of `T` that have the same value under
/// every valuation of all zeros and all ones have the same value under every
/// valuation.
pub proof fn lemma_pointwise_in<T: UnsignedInt>(r: Seq<(int, UTerm)>, e: Seq<(int, UTerm)>)
    requires
        agrees_on_booleans(r, e, T::modulus()),
    ensures
        agrees(r, e, T::modulus()),
{
    T::lemma_modulus();
    lemma_pointwise(r, e, T::bits());
}

} // verus!
