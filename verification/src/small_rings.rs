//! The rings of integers modulo `2^N`, for `N` from 1 to 63, each element held in a
//! 64-bit integer and reduced after every operation.

use vstd::prelude::*;
use vstd::arithmetic::power2::{pow2, lemma_pow2_strictly_increases, lemma2_to64};
use vstd::bits::{lemma_u64_pow2_no_overflow, lemma_u64_shl_is_mul};
use crate::numbers::{UnsignedInt, UniformNum};
use crate::bits::{
    lemma_bit_and_bound, lemma_bit_or_bound, lemma_bit_xor_bound, lemma_u128_and, lemma_u128_or,
    lemma_u128_xor,
};
use crate::modular::{lemma_mod_small, lemma_cong_add_multiple, lemma_cong_mod};

verus! {

/// The width of the ring of `Bits<N>`: `N`, or 63 where `N` is not from 1 to 63.
pub open spec fn width_of(n: usize) -> nat {
    if 1 <= n <= 63 {
        n as nat
    } else {
        63
    }
}

/// An element of the ring of integers modulo `2^N`, for `N` from 1 to 63; a width
/// outside of that range is taken as 63.
#[derive(Clone, Copy, Debug)]
pub struct Bits<const N: usize> {
    pub value: u64,
}

impl<const N: usize> Bits<N> {
    /// The number of elements of the ring.
    pub fn size() -> (m: u64)
        ensures
            m == pow2(width_of(N)),
            2 <= m <= 0x8000_0000_0000_0000,
    {
        let w: u64 = if 1 <= N && N <= 63 {
            N as u64
        } else {
            63
        };
        proof {
            lemma2_to64();
            lemma_u64_pow2_no_overflow(w as nat);
            lemma_u64_shl_is_mul(1, w);
            if w > 1 {
                lemma_pow2_strictly_increases(1, w as nat);
            }
            if w < 63 {
                lemma_pow2_strictly_increases(w as nat, 63);
            }
            vstd::arithmetic::power2::lemma2_to64_rest();
        }
        1u64 << w
    }

    /// The ring element of a number, reduced in the ring.
    pub fn new(v: u64) -> (r: Self)
        ensures
            r.val() == v as int % Self::modulus(),
    {
        let m: u64 = Self::size();
        proof {
            lemma_cong_mod(v as int, m as int);
        }
        Bits { value: v % m }
    }

    /// The representative, reduced in the ring.
    pub fn reduced(self) -> (a: u64)
        ensures
            a == self.val(),
            a < pow2(width_of(N)),
            a < 0x8000_0000_0000_0000,
    {
        let m: u64 = Self::size();
        self.value % m
    }
}

impl<const N: usize> UnsignedInt for Bits<N> {
    open spec fn bits() -> nat {
        width_of(N)
    }

    open spec fn modulus() -> int {
        pow2(width_of(N)) as int
    }

    open spec fn val(self) -> int {
        (self.value as int) % (pow2(width_of(N)) as int)
    }

    proof fn lemma_modulus() {
        lemma2_to64();
        if width_of(N) > 1 {
            lemma_pow2_strictly_increases(1, width_of(N));
        }
    }

    proof fn lemma_val_bound(self) {
        Self::lemma_modulus();
        lemma_cong_mod(self.value as int, Self::modulus());
    }

    fn zero() -> (r: Self) {
        proof {
            Self::lemma_modulus();
            lemma_mod_small(0, Self::modulus());
        }
        Bits { value: 0 }
    }

    fn one() -> (r: Self) {
        proof {
            Self::lemma_modulus();
            lemma_mod_small(1, Self::modulus());
        }
        Bits { value: 1 }
    }

    fn from_u8(v: u8) -> (r: Self) {
        Self::new(v as u64)
    }

    fn from_u128(v: u128) -> (r: Self) {
        let m: u64 = Self::size();
        let x: u64 = (v % (m as u128)) as u64;
        proof {
            lemma_mod_small(x as int, m as int);
        }
        Bits { value: x }
    }

    fn to_u128(self) -> (r: u128) {
        self.reduced() as u128
    }

    fn add(self, rhs: Self) -> (r: Self) {
        let a: u64 = self.reduced();
        let b: u64 = rhs.reduced();
        Self::new(a + b)
    }

    fn sub(self, rhs: Self) -> (r: Self) {
        let m: u64 = Self::size();
        let a: u64 = self.reduced();
        let b: u64 = rhs.reduced();
        proof {
            lemma_cong_add_multiple(a - b, 1, m as int);
        }
        Self::new(a + (m - b))
    }

    fn mul(self, rhs: Self) -> (r: Self) {
        let m: u64 = Self::size();
        let a: u128 = self.reduced() as u128;
        let b: u128 = rhs.reduced() as u128;
        proof {
            assert(a * b < 0x1_0000_0000_0000_0000_0000_0000_0000_0000) by (nonlinear_arith)
                requires
                    a < 0x8000_0000_0000_0000,
                    b < 0x8000_0000_0000_0000,
            ;
        }
        let x: u64 = ((a * b) % (m as u128)) as u64;
        proof {
            lemma_mod_small(x as int, m as int);
        }
        Bits { value: x }
    }

    fn div(self, rhs: Self) -> (r: Self) {
        let a: u64 = self.reduced();
        let b: u64 = rhs.reduced();
        let x: u64 = a / b;
        proof {
            vstd::arithmetic::div_mod::lemma_div_is_ordered_by_denominator(a as int, 1, b as int);
            lemma_mod_small(x as int, Self::modulus());
        }
        Bits { value: x }
    }

    fn rem(self, rhs: Self) -> (r: Self) {
        let a: u64 = self.reduced();
        let b: u64 = rhs.reduced();
        let x: u64 = a % b;
        proof {
            vstd::arithmetic::div_mod::lemma_mod_decreases(a as nat, b as nat);
            lemma_mod_small(x as int, Self::modulus());
        }
        Bits { value: x }
    }

    fn eq(self, rhs: Self) -> (r: bool) {
        self.reduced() == rhs.reduced()
    }

    fn lt(self, rhs: Self) -> (r: bool) {
        self.reduced() < rhs.reduced()
    }

    fn print_negative(self) -> (r: bool) {
        let m: u64 = Self::size();
        let a: u64 = self.reduced();
        a + a >= m
    }
}

impl<const N: usize> UniformNum for Bits<N> {
    fn and(self, rhs: Self) -> (r: Self) {
        let a: u64 = self.reduced();
        let b: u64 = rhs.reduced();
        proof {
            lemma_u128_and(a as u128, b as u128);
            lemma_bit_and_bound(a as int, b as int);
            assert((a & b) as u128 == (a as u128) & (b as u128)) by (bit_vector);
            lemma_mod_small((a & b) as int, Self::modulus());
        }
        Bits { value: a & b }
    }

    fn or(self, rhs: Self) -> (r: Self) {
        let a: u64 = self.reduced();
        let b: u64 = rhs.reduced();
        proof {
            lemma_u128_or(a as u128, b as u128);
            lemma_bit_or_bound(a as int, b as int, width_of(N));
            assert((a | b) as u128 == (a as u128) | (b as u128)) by (bit_vector);
            lemma_mod_small((a | b) as int, Self::modulus());
        }
        Bits { value: a | b }
    }

    fn xor(self, rhs: Self) -> (r: Self) {
        let a: u64 = self.reduced();
        let b: u64 = rhs.reduced();
        proof {
            lemma_u128_xor(a as u128, b as u128);
            lemma_bit_xor_bound(a as int, b as int, width_of(N));
            assert((a ^ b) as u128 == (a as u128) ^ (b as u128)) by (bit_vector);
            lemma_mod_small((a ^ b) as int, Self::modulus());
        }
        Bits { value: a ^ b }
    }

    fn not(self) -> (r: Self) {
        let m: u64 = Self::size();
        let a: u64 = self.reduced();
        let x: u64 = m - 1 - a;
        proof {
            lemma_mod_small(x as int, m as int);
        }
        Bits { value: x }
    }
}

} // verus!
