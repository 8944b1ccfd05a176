//! The rings of integers modulo 2^8, 2^16, 2^32, 2^64 and 2^128, each held in the
//! unsigned machine integer of its width.

use vstd::prelude::*;
use vstd::arithmetic::power2::{lemma2_to64, lemma_pow2_adds};
use crate::numbers::{UnsignedInt, UniformNum};
use crate::bits::{
    lemma_bit_and_bound, lemma_bit_or_bound, lemma_bit_xor_bound, lemma_u128_and, lemma_u128_or,
    lemma_u128_xor,
};

verus! {

impl UnsignedInt for u8 {
    open spec fn bits() -> nat {
        8
    }

    open spec fn modulus() -> int {
        0x100
    }

    open spec fn val(self) -> int {
        self as int
    }

    proof fn lemma_modulus() {
        lemma2_to64();
    }

    proof fn lemma_val_bound(self) {
    }

    fn zero() -> (r: Self) {
        0
    }

    fn one() -> (r: Self) {
        1
    }

    fn from_u8(v: u8) -> (r: Self) {
        v
    }

    fn from_u128(v: u128) -> (r: Self) {
        (v % 0x100) as u8
    }

    fn to_u128(self) -> (r: u128) {
        self as u128
    }

    fn add(self, rhs: Self) -> (r: Self) {
        self.wrapping_add(rhs)
    }

    fn sub(self, rhs: Self) -> (r: Self) {
        self.wrapping_sub(rhs)
    }

    fn mul(self, rhs: Self) -> (r: Self) {
        self.wrapping_mul(rhs)
    }

    fn div(self, rhs: Self) -> (r: Self) {
        self / rhs
    }

    fn rem(self, rhs: Self) -> (r: Self) {
        self % rhs
    }

    fn eq(self, rhs: Self) -> (r: bool) {
        self == rhs
    }

    fn lt(self, rhs: Self) -> (r: bool) {
        self < rhs
    }

    fn print_negative(self) -> (r: bool) {
        self >= 0x80
    }
}

impl UniformNum for u8 {
    fn and(self, rhs: Self) -> (r: Self) {
        let a: u128 = self as u128;
        let b: u128 = rhs as u128;
        proof {
            lemma_u128_and(a, b);
            lemma_bit_and_bound(a as int, b as int);
        }
        (a & b) as u8
    }

    fn or(self, rhs: Self) -> (r: Self) {
        let a: u128 = self as u128;
        let b: u128 = rhs as u128;
        proof {
            Self::lemma_modulus();
            lemma_u128_or(a, b);
            lemma_bit_or_bound(a as int, b as int, 8);
        }
        (a | b) as u8
    }

    fn xor(self, rhs: Self) -> (r: Self) {
        let a: u128 = self as u128;
        let b: u128 = rhs as u128;
        proof {
            Self::lemma_modulus();
            lemma_u128_xor(a, b);
            lemma_bit_xor_bound(a as int, b as int, 8);
        }
        (a ^ b) as u8
    }

    fn not(self) -> (r: Self) {
        let a: u8 = self;
        assert(!a == 0xff - a) by (bit_vector);
        !self
    }
}

impl UnsignedInt for u16 {
    open spec fn bits() -> nat {
        16
    }

    open spec fn modulus() -> int {
        0x10000
    }

    open spec fn val(self) -> int {
        self as int
    }

    proof fn lemma_modulus() {
        lemma2_to64();
    }

    proof fn lemma_val_bound(self) {
    }

    fn zero() -> (r: Self) {
        0
    }

    fn one() -> (r: Self) {
        1
    }

    fn from_u8(v: u8) -> (r: Self) {
        v as u16
    }

    fn from_u128(v: u128) -> (r: Self) {
        (v % 0x10000) as u16
    }

    fn to_u128(self) -> (r: u128) {
        self as u128
    }

    fn add(self, rhs: Self) -> (r: Self) {
        self.wrapping_add(rhs)
    }

    fn sub(self, rhs: Self) -> (r: Self) {
        self.wrapping_sub(rhs)
    }

    fn mul(self, rhs: Self) -> (r: Self) {
        self.wrapping_mul(rhs)
    }

    fn div(self, rhs: Self) -> (r: Self) {
        self / rhs
    }

    fn rem(self, rhs: Self) -> (r: Self) {
        self % rhs
    }

    fn eq(self, rhs: Self) -> (r: bool) {
        self == rhs
    }

    fn lt(self, rhs: Self) -> (r: bool) {
        self < rhs
    }

    fn print_negative(self) -> (r: bool) {
        self >= 0x8000
    }
}

impl UniformNum for u16 {
    fn and(self, rhs: Self) -> (r: Self) {
        let a: u128 = self as u128;
        let b: u128 = rhs as u128;
        proof {
            lemma_u128_and(a, b);
            lemma_bit_and_bound(a as int, b as int);
        }
        (a & b) as u16
    }

    fn or(self, rhs: Self) -> (r: Self) {
        let a: u128 = self as u128;
        let b: u128 = rhs as u128;
        proof {
            Self::lemma_modulus();
            lemma_u128_or(a, b);
            lemma_bit_or_bound(a as int, b as int, 16);
        }
        (a | b) as u16
    }

    fn xor(self, rhs: Self) -> (r: Self) {
        let a: u128 = self as u128;
        let b: u128 = rhs as u128;
        proof {
            Self::lemma_modulus();
            lemma_u128_xor(a, b);
            lemma_bit_xor_bound(a as int, b as int, 16);
        }
        (a ^ b) as u16
    }

    fn not(self) -> (r: Self) {
        let a: u16 = self;
        assert(!a == 0xffff - a) by (bit_vector);
        !self
    }
}

impl UnsignedInt for u32 {
    open spec fn bits() -> nat {
        32
    }

    open spec fn modulus() -> int {
        0x100000000
    }

    open spec fn val(self) -> int {
        self as int
    }

    proof fn lemma_modulus() {
        lemma2_to64();
    }

    proof fn lemma_val_bound(self) {
    }

    fn zero() -> (r: Self) {
        0
    }

    fn one() -> (r: Self) {
        1
    }

    fn from_u8(v: u8) -> (r: Self) {
        v as u32
    }

    fn from_u128(v: u128) -> (r: Self) {
        (v % 0x100000000) as u32
    }

    fn to_u128(self) -> (r: u128) {
        self as u128
    }

    fn add(self, rhs: Self) -> (r: Self) {
        self.wrapping_add(rhs)
    }

    fn sub(self, rhs: Self) -> (r: Self) {
        self.wrapping_sub(rhs)
    }

    fn mul(self, rhs: Self) -> (r: Self) {
        self.wrapping_mul(rhs)
    }

    fn div(self, rhs: Self) -> (r: Self) {
        self / rhs
    }

    fn rem(self, rhs: Self) -> (r: Self) {
        self % rhs
    }

    fn eq(self, rhs: Self) -> (r: bool) {
        self == rhs
    }

    fn lt(self, rhs: Self) -> (r: bool) {
        self < rhs
    }

    fn print_negative(self) -> (r: bool) {
        self >= 0x80000000
    }
}

impl UniformNum for u32 {
    fn and(self, rhs: Self) -> (r: Self) {
        let a: u128 = self as u128;
        let b: u128 = rhs as u128;
        proof {
            lemma_u128_and(a, b);
            lemma_bit_and_bound(a as int, b as int);
        }
        (a & b) as u32
    }

    fn or(self, rhs: Self) -> (r: Self) {
        let a: u128 = self as u128;
        let b: u128 = rhs as u128;
        proof {
            Self::lemma_modulus();
            lemma_u128_or(a, b);
            lemma_bit_or_bound(a as int, b as int, 32);
        }
        (a | b) as u32
    }

    fn xor(self, rhs: Self) -> (r: Self) {
        let a: u128 = self as u128;
        let b: u128 = rhs as u128;
        proof {
            Self::lemma_modulus();
            lemma_u128_xor(a, b);
            lemma_bit_xor_bound(a as int, b as int, 32);
        }
        (a ^ b) as u32
    }

    fn not(self) -> (r: Self) {
        let a: u32 = self;
        assert(!a == 0xffffffff - a) by (bit_vector);
        !self
    }
}

impl UnsignedInt for u64 {
    open spec fn bits() -> nat {
        64
    }

    open spec fn modulus() -> int {
        0x10000000000000000
    }

    open spec fn val(self) -> int {
        self as int
    }

    proof fn lemma_modulus() {
        lemma2_to64();
    }

    proof fn lemma_val_bound(self) {
    }

    fn zero() -> (r: Self) {
        0
    }

    fn one() -> (r: Self) {
        1
    }

    fn from_u8(v: u8) -> (r: Self) {
        v as u64
    }

    fn from_u128(v: u128) -> (r: Self) {
        (v % 0x10000000000000000) as u64
    }

    fn to_u128(self) -> (r: u128) {
        self as u128
    }

    fn add(self, rhs: Self) -> (r: Self) {
        self.wrapping_add(rhs)
    }

    fn sub(self, rhs: Self) -> (r: Self) {
        self.wrapping_sub(rhs)
    }

    fn mul(self, rhs: Self) -> (r: Self) {
        self.wrapping_mul(rhs)
    }

    fn div(self, rhs: Self) -> (r: Self) {
        self / rhs
    }

    fn rem(self, rhs: Self) -> (r: Self) {
        self % rhs
    }

    fn eq(self, rhs: Self) -> (r: bool) {
        self == rhs
    }

    fn lt(self, rhs: Self) -> (r: bool) {
        self < rhs
    }

    fn print_negative(self) -> (r: bool) {
        self >= 0x8000000000000000
    }
}

impl UniformNum for u64 {
    fn and(self, rhs: Self) -> (r: Self) {
        let a: u128 = self as u128;
        let b: u128 = rhs as u128;
        proof {
            lemma_u128_and(a, b);
            lemma_bit_and_bound(a as int, b as int);
        }
        (a & b) as u64
    }

    fn or(self, rhs: Self) -> (r: Self) {
        let a: u128 = self as u128;
        let b: u128 = rhs as u128;
        proof {
            Self::lemma_modulus();
            lemma_u128_or(a, b);
            lemma_bit_or_bound(a as int, b as int, 64);
        }
        (a | b) as u64
    }

    fn xor(self, rhs: Self) -> (r: Self) {
        let a: u128 = self as u128;
        let b: u128 = rhs as u128;
        proof {
            Self::lemma_modulus();
            lemma_u128_xor(a, b);
            lemma_bit_xor_bound(a as int, b as int, 64);
        }
        (a ^ b) as u64
    }

    fn not(self) -> (r: Self) {
        let a: u64 = self;
        assert(!a == 0xffffffffffffffff - a) by (bit_vector);
        !self
    }
}

impl UnsignedInt for u128 {
    open spec fn bits() -> nat {
        128
    }

    open spec fn modulus() -> int {
        0x100000000000000000000000000000000int
    }

    open spec fn val(self) -> int {
        self as int
    }

    proof fn lemma_modulus() {
        lemma2_to64();
        lemma_pow2_adds(64, 64);
        assert(0x10000000000000000int * 0x10000000000000000int
            == 0x100000000000000000000000000000000int) by (nonlinear_arith);
    }

    proof fn lemma_val_bound(self) {
    }

    fn zero() -> (r: Self) {
        0
    }

    fn one() -> (r: Self) {
        1
    }

    fn from_u8(v: u8) -> (r: Self) {
        v as u128
    }

    fn from_u128(v: u128) -> (r: Self) {
        v
    }

    fn to_u128(self) -> (r: u128) {
        self
    }

    fn add(self, rhs: Self) -> (r: Self) {
        self.wrapping_add(rhs)
    }

    fn sub(self, rhs: Self) -> (r: Self) {
        self.wrapping_sub(rhs)
    }

    fn mul(self, rhs: Self) -> (r: Self) {
        self.wrapping_mul(rhs)
    }

    fn div(self, rhs: Self) -> (r: Self) {
        self / rhs
    }

    fn rem(self, rhs: Self) -> (r: Self) {
        self % rhs
    }

    fn eq(self, rhs: Self) -> (r: bool) {
        self == rhs
    }

    fn lt(self, rhs: Self) -> (r: bool) {
        self < rhs
    }

    fn print_negative(self) -> (r: bool) {
        self >= 0x80000000000000000000000000000000
    }
}

impl UniformNum for u128 {
    fn and(self, rhs: Self) -> (r: Self) {
        let a: u128 = self;
        let b: u128 = rhs;
        proof {
            lemma_u128_and(a, b);
            lemma_bit_and_bound(a as int, b as int);
        }
        a & b
    }

    fn or(self, rhs: Self) -> (r: Self) {
        let a: u128 = self;
        let b: u128 = rhs;
        proof {
            Self::lemma_modulus();
            lemma_u128_or(a, b);
            lemma_bit_or_bound(a as int, b as int, 128);
        }
        a | b
    }

    fn xor(self, rhs: Self) -> (r: Self) {
        let a: u128 = self;
        let b: u128 = rhs;
        proof {
            Self::lemma_modulus();
            lemma_u128_xor(a, b);
            lemma_bit_xor_bound(a as int, b as int, 128);
        }
        a ^ b
    }

    fn not(self) -> (r: Self) {
        let a: u128 = self;
        assert(!a == 0xffffffffffffffffffffffffffffffff - a) by (bit_vector);
        !self
    }
}

} // verus!
