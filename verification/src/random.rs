//! The source of random numbers.

use vstd::prelude::*;
use crate::numbers::UnsignedInt;

verus! {

/// A random 128-bit integer, from `rand::random`, which draws it from the generator
/// of the thread. Nothing is claimed of the number.
#[verifier::external_body]
pub(crate) fn random_u128() -> u128 {
    rand::random::<u128>()
}

/// A random index, from `rand::random`, which draws it from the generator of the
/// thread. Nothing is claimed of the number.
#[verifier::external_body]
pub(crate) fn random_usize() -> usize {
    rand::random::<usize>()
}

/// A random number from `lo` to `hi`, both included, from `Uniform::from(lo..=hi)`
/// of the crate `rand`, sampled with the generator of the thread. The distribution
/// is made for the closed range, and samples from it.
#[verifier::external_body]
pub(crate) fn random_between(lo: usize, hi: usize) -> (r: usize)
    requires
        lo <= hi,
    ensures
        lo <= r <= hi,
{
    rand::distributions::Distribution::sample(
        &rand::distributions::Uniform::from(lo..=hi),
        &mut rand::thread_rng(),
    )
}

/// A random ring element.
pub fn random_element<T: UnsignedInt>() -> T {
    T::from_u128(random_u128())
}

/// A list of `n` random ring elements.
pub fn random_elements<T: UnsignedInt>(n: usize) -> (v: Vec<T>)
    ensures
        v@.len() == n,
{
    let mut v: Vec<T> = Vec::new();
    let mut i: usize = 0;
    while i < n
        invariant
            i <= n,
            v@.len() == i,
        decreases n - i,
    {
        v.push(random_element::<T>());
        i += 1;
    }
    v
}

} // verus!
