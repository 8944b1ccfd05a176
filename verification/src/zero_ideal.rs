//! The ideal of the polynomials that are zero on every element of the ring, and the
//! reduction of polynomials by it.

use vstd::prelude::*;
use vstd::arithmetic::power2::{
    pow2, lemma_pow2_unfold, lemma_pow2_pos, lemma_pow2_strictly_increases, lemma2_to64,
};
use crate::numbers::UnsignedInt;
use crate::polynomial::{Polynomial, coeff};
use crate::modular::{cong, lemma_cong_ops, lemma_cong_mod, lemma_mod_small};

verus! {

/// How often two divides `i`; zero for zero.
pub open spec fn two_adic_spec(i: int) -> nat
    decreases i,
{
    if i <= 0 || i % 2 != 0 {
        0
    } else {
        1 + two_adic_spec(i / 2)
    }
}

/// How often two divides `i`; zero for zero.
pub fn two_adic(i: usize) -> (r: usize)
    ensures
        r == two_adic_spec(i as int),
        i > 0 && i % 2 == 0 ==> r >= 1,
        r <= i,
{
    let mut rest: usize = i;
    let mut r: usize = 0;
    while rest > 0 && rest % 2 == 0
        invariant
            two_adic_spec(i as int) == r + two_adic_spec(rest as int),
            r + rest <= i,
        decreases rest,
    {
        rest = rest / 2;
        r += 1;
    }
    r
}

/// The width of the ring in bits.
pub fn bit_width<T: UnsignedInt>() -> (n: usize)
    ensures
        n == T::bits(),
{
    let ghost md = T::modulus();
    let mut x: T = T::one();
    let mut n: usize = 0;
    proof {
        T::lemma_modulus();
        lemma2_to64();
    }
    while !x.eq(T::zero())
        invariant
            md == T::modulus(),
            md == pow2(T::bits()),
            T::bits() <= 128,
            n < T::bits(),
            x.val() == pow2(n as nat),
        decreases T::bits() - n,
    {
        let next: T = x.add(x);
        proof {
            lemma_pow2_unfold((n + 1) as nat);
            if n + 1 < T::bits() {
                lemma_pow2_strictly_increases((n + 1) as nat, T::bits());
                lemma_mod_small(pow2((n + 1) as nat) as int, md);
            } else {
                crate::modular::lemma_mod_self(md);
            }
        }
        x = next;
        n += 1;
        if n >= 128 || x.eq(T::zero()) {
            proof {
                if n < T::bits() {
                    lemma_pow2_pos(n as nat);
                }
            }
            return n;
        }
    }
    proof {
        lemma_pow2_pos(n as nat);
    }
    n
}

/// The coefficients of the polynomial with the coefficients `c` times `X - a`, over
/// the integers.
pub open spec fn mul_lin_spec(c: Seq<int>, a: int) -> Seq<int> {
    Seq::new(c.len() + 1, |i: int| coeff(c, i - 1) - a * coeff(c, i))
}

/// The coefficients of `X * (X - 1) * ... * (X - (i - 1))`, over the integers.
pub open spec fn falling(i: nat) -> Seq<int>
    decreases i,
{
    if i == 0 {
        seq![1int]
    } else {
        mul_lin_spec(falling((i - 1) as nat), i - 1)
    }
}

/// The coefficients `c`, each times `k`.
pub open spec fn scaled(c: Seq<int>, k: int) -> Seq<int> {
    Seq::new(c.len(), |i: int| c[i] * k)
}

/// The coefficients `c`, each reduced modulo `m`.
pub open spec fn reduced(c: Seq<int>, m: int) -> Seq<int> {
    Seq::new(c.len(), |i: int| c[i] % m)
}

/// The polynomial `X * (X - 1) * ... * (X - (i - 1))` has `i + 1` coefficients, the
/// last of them one.
pub proof fn lemma_falling_monic(i: nat)
    ensures
        falling(i).len() == i + 1,
        falling(i).last() == 1,
    decreases i,
{
    if i > 0 {
        lemma_falling_monic((i - 1) as nat);
        let c = falling((i - 1) as nat);
        assert(falling(i)[i as int] == coeff(c, i - 1) - (i - 1) * coeff(c, i as int));
        assert((i - 1) * 0 == 0);
    }
}

/// The ideal of the polynomials that are zero on every element of the ring of `n`
/// bits, by its generators.
pub struct ZeroIdeal<T> {
    pub n: usize,
    pub gen: Vec<Polynomial<T>>,
}

/// The sum of `two_adic_spec` over the even numbers up to `i`: how often two
/// divides the factorial of `i`.
pub open spec fn factorial_two_adic(i: nat) -> nat
    decreases i,
{
    if i < 2 {
        0
    } else if i % 2 == 0 {
        two_adic_spec(i as int) + factorial_two_adic((i - 2) as nat)
    } else {
        factorial_two_adic((i - 1) as nat)
    }
}

impl<T: UnsignedInt> ZeroIdeal<T> {
    /// The number of factors `X - j` of generator `k`.
    pub open spec fn factors(k: int) -> nat {
        (2 * (k + 1)) as nat
    }

    /// The power of two that generator `k` is scaled with: what two lacks in the
    /// factorial of the number of its factors to divide the modulus.
    pub open spec fn scale_of(k: int) -> nat {
        if factorial_two_adic(Self::factors(k)) >= T::bits() {
            0
        } else {
            (T::bits() - factorial_two_adic(Self::factors(k))) as nat
        }
    }

    /// The coefficients of generator `k`.
    pub open spec fn generator(k: int) -> Seq<int> {
        reduced(scaled(falling(Self::factors(k)), pow2(Self::scale_of(k)) as int), T::modulus())
    }

    /// Whether the generators are those of the ring: generator `k` is `2^e` times
    /// `X * (X - 1) * ... * (X - (2k + 1))`, with `e` as `scale_of` gives it, and the
    /// last has `e` zero.
    pub open spec fn wf(&self) -> bool {
        &&& self.n == T::bits()
        &&& self.gen@.len() >= 1
        &&& forall|k: int|
            0 <= k < self.gen@.len() ==> (#[trigger] self.gen@[k])@ == Self::generator(k)
        &&& forall|k: int|
            0 <= k < self.gen@.len() - 1 ==> factorial_two_adic(#[trigger] Self::factors(k))
                < T::bits()
        &&& factorial_two_adic(Self::factors(self.gen@.len() - 1)) >= T::bits()
    }
}

/// The product of the factors `X - j` for `j` below `i`, over the ring.
pub fn falling_factorial<T: UnsignedInt>(i: usize) -> (p: Polynomial<T>)
    requires
        i < usize::MAX,
    ensures
        p.is(falling(i as nat)),
{
    let ghost md = T::modulus();
    let mut p = Polynomial::<T>::one();
    let mut j: T = T::zero();
    let mut t: usize = 0;
    proof {
        T::lemma_modulus();
        lemma_mod_small(0, md);
        lemma_mod_small(1, md);
    }
    while t < i
        invariant
            t <= i,
            i < usize::MAX,
            md == T::modulus(),
            md > 1,
            p.is(falling(t as nat)),
            j.val() == (t as int) % md,
        decreases i - t,
    {
        let ghost before = p@;
        let ghost c = falling(t as nat);
        proof {
            lemma_falling_monic(t as nat);
        }
        p.mul_lin(j);
        let next: T = j.add(T::one());
        proof {
            let c2 = falling((t + 1) as nat);
            assert(c2 == mul_lin_spec(c, t as int));
            assert forall|k: int| 0 <= k < c2.len() implies #[trigger] p@[k] == c2[k] % md by {
                // coefficients of the polynomial before, as those of `c`
                let lo = coeff(before, k - 1);
                let hi = coeff(before, k);
                assert(cong(lo, coeff(c, k - 1), md)) by {
                    if 0 <= k - 1 < c.len() {
                        assert(before[k - 1] == c[k - 1] % md);
                        lemma_cong_mod(c[k - 1], md);
                    }
                }
                assert(cong(hi, coeff(c, k), md)) by {
                    if 0 <= k < c.len() {
                        assert(before[k] == c[k] % md);
                        lemma_cong_mod(c[k], md);
                    }
                }
                lemma_cong_mod(t as int, md);
                lemma_cong_ops(j.val(), t as int, hi, coeff(c, k), md);
                lemma_cong_ops(lo, coeff(c, k - 1), j.val() * hi, t * coeff(c, k), md);
            }
            lemma_cong_mod(t as int, md);
            lemma_cong_ops(j.val(), t as int, 1, 1, md);
            lemma_cong_mod(j.val() + 1, md);
        }
        j = next;
        t += 1;
    }
    p
}

impl<T: UnsignedInt> ZeroIdeal<T> {
    /// The generators of the ideal of the ring of `T`.
    pub fn init() -> (zi: Self)
        ensures
            zi.wf(),
    {
        let ghost md = T::modulus();
        let n: usize = bit_width::<T>();
        let mut gen: Vec<Polynomial<T>> = Vec::new();
        // div is how often 2 divides the factorial of i.
        let mut div: usize = 0;
        let mut i: usize = 2;
        proof {
            T::lemma_modulus();
            lemma2_to64();
        }
        loop
            invariant_except_break
                div < n,
                i == 2 * (gen@.len() + 1),
                gen@.len() <= div,
                div == factorial_two_adic((i - 2) as nat),
                forall|k: int|
                    0 <= k < gen@.len() ==> factorial_two_adic(#[trigger] Self::factors(k))
                        < T::bits(),
            invariant
                n == T::bits(),
                n <= 128,
                md == T::modulus(),
                md == pow2(T::bits()),
                md > 1,
                forall|k: int| 0 <= k < gen@.len() ==> (#[trigger] gen@[k])@ == Self::generator(k),
            ensures
                gen@.len() >= 1,
                factorial_two_adic(Self::factors(gen@.len() - 1)) >= T::bits(),
                forall|k: int|
                    0 <= k < gen@.len() - 1 ==> factorial_two_adic(#[trigger] Self::factors(k))
                        < T::bits(),
            decreases n - div,
        {
            let ghost k = gen@.len() as int;
            div += two_adic(i);
            let mut p = falling_factorial::<T>(i);
            proof {
                lemma_falling_monic(i as nat);
                assert(Self::factors(k) == i);
                assert(div == factorial_two_adic(i as nat));
                lemma_mod_small(1, md);
            }
            if n <= div {
                // The exponent would be negative: this is the last generator.
                let ghost before = p@;
                p.truncate();
                proof {
                    lemma2_to64();
                    assert(before.last() == 1);
                    assert(p@ == before);
                    assert(Self::scale_of(k) == 0);
                    assert(p@ =~= Self::generator(k)) by {
                        assert forall|t: int| 0 <= t < p@.len() implies p@[t] == Self::generator(
                            k,
                        )[t] by {
                            assert(falling(i as nat)[t] * 1 == falling(i as nat)[t]);
                        }
                    }
                }
                gen.push(p);
                break ;
            }
            let e: usize = n - div;
            let ghost before = p@;
            p.shl_assign(e);
            let ghost shifted = p@;
            p.truncate();
            proof {
                assert(Self::scale_of(k) == e);
                lemma_pow2_strictly_increases(e as nat, n as nat);
                lemma_pow2_pos(e as nat);
                assert(1 * pow2(e as nat) == pow2(e as nat));
                lemma_mod_small(pow2(e as nat) as int, md);
                assert(shifted.last() == (before.last() * pow2(e as nat)) % md);
                assert(p@ == shifted);
                assert(p@ =~= Self::generator(k)) by {
                    assert forall|t: int| 0 <= t < p@.len() implies p@[t] == Self::generator(k)[t] by {
                        let c = falling(i as nat)[t];
                        lemma_cong_mod(c, md);
                        lemma_cong_ops(c % md, c, pow2(e as nat) as int, pow2(e as nat) as int, md);
                    }
                }
            }
            gen.push(p);
            i += 2;
        }
        Self { n, gen }
    }
}

/// Two divides the factorial of an even number at least half as often as the number
/// is large.
pub proof fn lemma_factorial_two_adic_grows(k: nat)
    ensures
        factorial_two_adic(2 * k) >= k,
    decreases k,
{
    if k > 0 {
        lemma_factorial_two_adic_grows((k - 1) as nat);
        assert(two_adic_spec((2 * k) as int) >= 1);
    }
}

impl<T: UnsignedInt> ZeroIdeal<T> {
    /// A ring of `n` bits has `n` generators at most.
    pub proof fn lemma_generator_count(&self)
        requires
            self.wf(),
        ensures
            1 <= self.gen@.len() <= 128,
    {
        T::lemma_modulus();
        let g = self.gen@.len();
        if g >= 2 {
            assert(factorial_two_adic(Self::factors(g - 2)) < T::bits());
            lemma_factorial_two_adic_grows((g - 1) as nat);
        }
    }
}

} // verus!
