//! The bitwise operations of the machine, related to their arithmetic definitions.

use vstd::prelude::*;
use vstd::arithmetic::power2::{pow2, lemma_pow2_unfold};
use crate::numbers::{bit_and, bit_or, bit_xor};

verus! {

/// The conjunction of two naturals is a natural no larger than either.
pub proof fn lemma_bit_and_bound(a: int, b: int)
    requires
        0 <= a,
        0 <= b,
    ensures
        0 <= bit_and(a, b) <= a,
        bit_and(a, b) <= b,
    decreases a,
{
    if a > 0 {
        lemma_bit_and_bound(a / 2, b / 2);
        assert((a % 2) * (b % 2) <= a % 2 && (a % 2) * (b % 2) <= b % 2 && (a % 2) * (b % 2) >= 0)
            by (nonlinear_arith);
    }
}

/// The disjunction of two naturals below `2^n` lies below `2^n`.
pub proof fn lemma_bit_or_bound(a: int, b: int, n: nat)
    requires
        0 <= a < pow2(n),
        0 <= b < pow2(n),
    ensures
        0 <= bit_or(a, b) < pow2(n),
    decreases n,
{
    if n == 0 {
        assert(pow2(0) == 1) by {
            vstd::arithmetic::power2::lemma2_to64();
        }
    } else {
        lemma_pow2_unfold(n);
        if a > 0 || b > 0 {
            lemma_bit_or_bound(a / 2, b / 2, (n - 1) as nat);
        }
    }
}

/// The exclusive disjunction of two naturals below `2^n` lies below `2^n`.
pub proof fn lemma_bit_xor_bound(a: int, b: int, n: nat)
    requires
        0 <= a < pow2(n),
        0 <= b < pow2(n),
    ensures
        0 <= bit_xor(a, b) < pow2(n),
    decreases n,
{
    if n == 0 {
        assert(pow2(0) == 1) by {
            vstd::arithmetic::power2::lemma2_to64();
        }
    } else {
        lemma_pow2_unfold(n);
        if a > 0 || b > 0 {
            lemma_bit_xor_bound(a / 2, b / 2, (n - 1) as nat);
        }
    }
}

/// The machine's `&` on 128-bit integers is the conjunction of the naturals.
pub proof fn lemma_u128_and(a: u128, b: u128)
    ensures
        (a & b) as int == bit_and(a as int, b as int),
    decreases a,
{
    if a == 0 {
        assert(0u128 & b == 0) by (bit_vector);
    } else {
        let ha: u128 = a / 2;
        let hb: u128 = b / 2;
        lemma_u128_and(ha, hb);
        assert((a & b) / 2 == (a / 2) & (b / 2) && (a & b) % 2 == (a % 2) * (b % 2)) by (bit_vector);
    }
}

/// The machine's `|` on 128-bit integers is the disjunction of the naturals.
pub proof fn lemma_u128_or(a: u128, b: u128)
    ensures
        (a | b) as int == bit_or(a as int, b as int),
    decreases a + b,
{
    if a == 0 && b == 0 {
        assert(0u128 | 0u128 == 0) by (bit_vector);
    } else {
        let ha: u128 = a / 2;
        let hb: u128 = b / 2;
        lemma_u128_or(ha, hb);
        assert((a | b) / 2 == (a / 2) | (b / 2) && (a | b) % 2 == (if a % 2 == 1 || b % 2 == 1 {
            1u128
        } else {
            0u128
        })) by (bit_vector);
    }
}

/// The machine's `^` on 128-bit integers is the exclusive disjunction of the naturals.
pub proof fn lemma_u128_xor(a: u128, b: u128)
    ensures
        (a ^ b) as int == bit_xor(a as int, b as int),
    decreases a + b,
{
    if a == 0 && b == 0 {
        assert(0u128 ^ 0u128 == 0) by (bit_vector);
    } else {
        let ha: u128 = a / 2;
        let hb: u128 = b / 2;
        lemma_u128_xor(ha, hb);
        assert((a ^ b) / 2 == (a / 2) ^ (b / 2) && (a ^ b) % 2 == (if a % 2 != b % 2 {
            1u128
        } else {
            0u128
        })) by (bit_vector);
    }
}

/// The conjunction with zero is zero.
pub proof fn lemma_bit_and_zero(a: int)
    ensures
        bit_and(a, 0) == 0,
    decreases a,
{
    if a > 0 {
        lemma_bit_and_zero(a / 2);
    }
}

/// The conjunction of a natural with one is its lowest bit.
pub proof fn lemma_bit_and_one(a: int)
    requires
        0 <= a,
    ensures
        bit_and(a, 1) == a % 2,
{
    if a > 0 {
        lemma_bit_and_zero(a / 2);
        assert(1int / 2 == 0);
        assert((a % 2) * (1int % 2) == a % 2);
    }
}

} // verus!
