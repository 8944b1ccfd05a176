//! The rings of integers modulo a power of two.

use vstd::prelude::*;
use vstd::arithmetic::power2::pow2;

verus! {

/// The bitwise conjunction of two naturals.
pub open spec fn bit_and(a: int, b: int) -> int
    decreases a,
{
    if a <= 0 {
        0
    } else {
        2 * bit_and(a / 2, b / 2) + (a % 2) * (b % 2)
    }
}

/// The bitwise disjunction of two naturals.
pub open spec fn bit_or(a: int, b: int) -> int
    decreases a + b,
{
    if a <= 0 && b <= 0 {
        0
    } else if a < 0 || b < 0 {
        0
    } else {
        2 * bit_or(a / 2, b / 2) + (if a % 2 == 1 || b % 2 == 1 { 1int } else { 0int })
    }
}

/// The bitwise exclusive disjunction of two naturals.
pub open spec fn bit_xor(a: int, b: int) -> int
    decreases a + b,
{
    if a <= 0 && b <= 0 {
        0
    } else if a < 0 || b < 0 {
        0
    } else {
        2 * bit_xor(a / 2, b / 2) + (if a % 2 != b % 2 { 1int } else { 0int })
    }
}

/// The integers modulo `2^bits()`. A value stands for its least non-negative
/// representative, `val()`.
pub trait UnsignedInt: Sized + Copy {
    /// The width of the ring in bits.
    spec fn bits() -> nat;

    /// The number of elements of the ring.
    spec fn modulus() -> int;

    /// The least non-negative representative.
    spec fn val(self) -> int;

    /// The modulus is a power of two that fits a 128-bit container.
    proof fn lemma_modulus()
        ensures
            0 < Self::bits() <= 128,
            Self::modulus() == pow2(Self::bits()),
            Self::modulus() >= 2,
    ;

    /// Every representative lies below the modulus.
    proof fn lemma_val_bound(self)
        ensures
            0 <= self.val() < Self::modulus(),
    ;

    fn zero() -> (r: Self)
        ensures
            r.val() == 0,
    ;

    fn one() -> (r: Self)
        ensures
            r.val() == 1,
    ;

    /// Conversion from a byte, reduced modulo the modulus.
    fn from_u8(v: u8) -> (r: Self)
        ensures
            r.val() == (v as int) % Self::modulus(),
    ;

    /// Conversion from a 128-bit integer, reduced modulo the modulus.
    fn from_u128(v: u128) -> (r: Self)
        ensures
            r.val() == (v as int) % Self::modulus(),
    ;

    /// The representative as a 128-bit integer.
    fn to_u128(self) -> (r: u128)
        ensures
            r == self.val(),
    ;

    fn add(self, rhs: Self) -> (r: Self)
        ensures
            r.val() == (self.val() + rhs.val()) % Self::modulus(),
    ;

    fn sub(self, rhs: Self) -> (r: Self)
        ensures
            r.val() == (self.val() - rhs.val()) % Self::modulus(),
    ;

    fn mul(self, rhs: Self) -> (r: Self)
        ensures
            r.val() == (self.val() * rhs.val()) % Self::modulus(),
    ;

    /// Division of the representatives, rounded down.
    fn div(self, rhs: Self) -> (r: Self)
        requires
            rhs.val() != 0,
        ensures
            r.val() == self.val() / rhs.val(),
    ;

    /// The remainder of the division of the representatives.
    fn rem(self, rhs: Self) -> (r: Self)
        requires
            rhs.val() != 0,
        ensures
            r.val() == self.val() % rhs.val(),
    ;

    fn eq(self, rhs: Self) -> (r: bool)
        ensures
            r == (self.val() == rhs.val()),
    ;

    fn lt(self, rhs: Self) -> (r: bool)
        ensures
            r == (self.val() < rhs.val()),
    ;

    /// Whether the number is displayed as a negative one, which is when its
    /// highest bit is set.
    fn print_negative(self) -> (r: bool)
        ensures
            r == (2 * self.val() >= Self::modulus()),
    ;
}

/// The rings on which the bitwise operations act.
pub trait UniformNum: UnsignedInt {
    fn and(self, rhs: Self) -> (r: Self)
        ensures
            r.val() == bit_and(self.val(), rhs.val()),
    ;

    fn or(self, rhs: Self) -> (r: Self)
        ensures
            r.val() == bit_or(self.val(), rhs.val()),
    ;

    fn xor(self, rhs: Self) -> (r: Self)
        ensures
            r.val() == bit_xor(self.val(), rhs.val()),
    ;

    fn not(self) -> (r: Self)
        ensures
            r.val() == Self::modulus() - 1 - self.val(),
    ;
}

/// The ring element `x` shifted left by `k` bits: `x` times `2^k`.
pub fn shift_left<T: UnsignedInt>(x: T, k: usize) -> (r: T)
    ensures
        r.val() == (x.val() * pow2(k as nat)) % T::modulus(),
{
    let ghost md = T::modulus();
    let mut r: T = x;
    let mut i: usize = 0;
    proof {
        T::lemma_modulus();
        x.lemma_val_bound();
        vstd::arithmetic::power2::lemma2_to64();
        crate::modular::lemma_mod_small(x.val(), md);
        assert(x.val() * 1 == x.val());
    }
    while i < k
        invariant
            i <= k,
            md == T::modulus(),
            md > 0,
            r.val() == (x.val() * pow2(i as nat)) % md,
        decreases k - i,
    {
        let next: T = r.add(r);
        proof {
            let p = x.val() * pow2(i as nat);
            vstd::arithmetic::power2::lemma_pow2_unfold((i + 1) as nat);
            crate::modular::lemma_cong_mod(p, md);
            crate::modular::lemma_cong_ops(r.val(), p, r.val(), p, md);
            assert(p + p == x.val() * pow2((i + 1) as nat)) by (nonlinear_arith)
                requires
                    p == x.val() * pow2(i as nat),
                    pow2((i + 1) as nat) == 2 * pow2(i as nat),
            ;
        }
        r = next;
        i += 1;
    }
    r
}

} // verus!
