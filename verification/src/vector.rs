//! Vectors of a fixed dimension.

use vstd::prelude::*;
use crate::numbers::UnsignedInt;

verus! {

/// A vector; its dimension is the number of its entries.
pub struct Vector<T> {
    pub entries: Vec<T>,
}

impl<T> View for Vector<T> {
    type V = Seq<T>;

    open spec fn view(&self) -> Seq<T> {
        self.entries@
    }
}

/// Whether `f` may return `Ok` on `x`.
pub open spec fn may_succeed<T, U, E, F: Fn(&T) -> Result<U, E>>(f: F, x: T) -> bool {
    exists|u: U| call_ensures(f, (&x,), Ok::<U, E>(u))
}

/// Whether `at` is the first index of `s` at which `f` may fail, and `e` an error
/// that it may fail with there.
pub open spec fn fails_first_at<T, U, E, F: Fn(&T) -> Result<U, E>>(
    f: F,
    s: Seq<T>,
    at: int,
    e: E,
) -> bool {
    &&& 0 <= at < s.len()
    &&& call_ensures(f, (&s[at],), Err::<U, E>(e))
    &&& forall|i: int| 0 <= i < at ==> #[trigger] may_succeed(f, s[i])
}

impl<T> Vector<T> {
    /// The vector of dimension zero.
    pub fn empty() -> (v: Self)
        ensures
            v@.len() == 0,
    {
        Self { entries: Vec::new() }
    }

    /// The number of entries.
    pub fn dim(&self) -> (d: usize)
        ensures
            d == self@.len(),
    {
        self.entries.len()
    }

    /// Whether the vector has no entry.
    pub fn is_empty(&self) -> (b: bool)
        ensures
            b == (self@.len() == 0),
    {
        self.entries.len() == 0
    }

    /// The entries as a slice.
    pub fn entries(&self) -> (s: &[T])
        ensures
            s@ == self@,
    {
        self.entries.as_slice()
    }

    /// The entries as a slice that can be written to.
    pub fn entries_mut(&mut self) -> (s: &mut [T])
        ensures
            s@ == old(self)@,
            final(s)@ == final(self)@,
    {
        self.entries.as_mut_slice()
    }

    /// A walk over the entries, from the first to the last.
    pub fn iter(&self) -> (it: core::slice::Iter<'_, T>)
        ensures
            vstd::std_specs::slice::into_iter_elts(it) == self@,
    {
        let s = self.entries.as_slice();
        let it = s.iter();
        proof {
            assert(vstd::std_specs::slice::into_iter_elts(it) =~= s@);
        }
        it
    }

    /// The entry at index `i`.
    pub fn entry(&self, i: usize) -> (e: &T)
        requires
            i < self@.len(),
        ensures
            *e == self@[i as int],
    {
        &self.entries[i]
    }

    /// The entry at index `i`, to be written to.
    pub fn entry_mut(&mut self, i: usize) -> (e: &mut T)
        requires
            i < old(self)@.len(),
        ensures
            *e == old(self)@[i as int],
            final(self)@ == old(self)@.update(i as int, *final(e)),
    {
        &mut self.entries[i]
    }

    /// The vector of the images of the entries under `f`.
    pub fn map<U, F: Fn(&T) -> U>(&self, f: F) -> (v: Vector<U>)
        requires
            forall|i: int| 0 <= i < self@.len() ==> call_requires(f, (&#[trigger] self@[i],)),
        ensures
            v@.len() == self@.len(),
            forall|i: int| 0 <= i < self@.len() ==> call_ensures(f, (&self@[i],), #[trigger] v@[i]),
    {
        let mut out: Vec<U> = Vec::new();
        let mut i: usize = 0;
        while i < self.entries.len()
            invariant
                i <= self@.len(),
                out@.len() == i,
                forall|k: int| 0 <= k < self@.len() ==> call_requires(f, (&#[trigger] self@[k],)),
                forall|k: int| 0 <= k < i ==> call_ensures(f, (&self@[k],), #[trigger] out@[k]),
            decreases self@.len() - i,
        {
            let u = f(&self.entries[i]);
            out.push(u);
            i += 1;
        }
        Vector { entries: out }
    }

    /// The vector of the images of the entries under `f`, or the index of the
    /// first entry on which `f` fails, with the error.
    pub fn try_map<U, E, F: Fn(&T) -> Result<U, E>>(&self, f: F) -> (r: Result<Vector<U>, (usize, E)>)
        requires
            forall|i: int| 0 <= i < self@.len() ==> call_requires(f, (&#[trigger] self@[i],)),
        ensures
            match r {
                Ok(v) => {
                    &&& v@.len() == self@.len()
                    &&& forall|i: int|
                        0 <= i < self@.len() ==> call_ensures(f, (&self@[i],), Ok(#[trigger] v@[i]))
                },
                Err((at, e)) => fails_first_at(f, self@, at as int, e),
            },
    {
        let mut out: Vec<U> = Vec::new();
        let mut i: usize = 0;
        while i < self.entries.len()
            invariant
                i <= self@.len(),
                out@.len() == i,
                forall|k: int| 0 <= k < self@.len() ==> call_requires(f, (&#[trigger] self@[k],)),
                forall|k: int| 0 <= k < i ==> call_ensures(f, (&self@[k],), Ok(#[trigger] out@[k])),
            decreases self@.len() - i,
        {
            match f(&self.entries[i]) {
                Ok(u) => {
                    out.push(u);
                },
                Err(e) => {
                    assert forall|k: int| 0 <= k < i implies #[trigger] may_succeed(
                        f,
                        self@[k],
                    ) by {
                        assert(call_ensures(f, (&self@[k],), Ok(out@[k])));
                    }
                    return Err((i, e));
                },
            }
            i += 1;
        }
        Ok(Vector { entries: out })
    }
}

impl<T: Copy> Vector<T> {
    /// The vector that holds the elements of a slice.
    pub fn from_slice(s: &[T]) -> (v: Self)
        ensures
            v@ == s@,
    {
        let mut out: Vec<T> = Vec::new();
        let mut i: usize = 0;
        while i < s.len()
            invariant
                i <= s@.len(),
                out@ == s@.subrange(0, i as int),
            decreases s@.len() - i,
        {
            out.push(s[i]);
            assert(out@ == s@.subrange(0, i + 1));
            i += 1;
        }
        assert(s@.subrange(0, s@.len() as int) == s@);
        Self { entries: out }
    }

    /// The vector of dimension `dim` whose entries all are `val`.
    pub fn uniform(dim: usize, val: T) -> (v: Self)
        ensures
            v@.len() == dim,
            forall|i: int| 0 <= i < dim ==> v@[i] == val,
    {
        let mut out: Vec<T> = Vec::new();
        let mut i: usize = 0;
        while i < dim
            invariant
                i <= dim,
                out@.len() == i,
                forall|k: int| 0 <= k < i ==> out@[k] == val,
            decreases dim - i,
        {
            out.push(val);
            i += 1;
        }
        Self { entries: out }
    }

    /// Writes `val` to the entry at index `i`.
    pub fn set(&mut self, i: usize, val: T)
        requires
            i < old(self)@.len(),
        ensures
            final(self)@ == old(self)@.update(i as int, val),
    {
        self.entries[i] = val;
    }

    /// A copy of the vector.
    pub fn copy(&self) -> (v: Self)
        ensures
            v@ == self@,
    {
        Self::from_slice(self.entries.as_slice())
    }
}

impl<T: UnsignedInt> Vector<T> {
    /// The representative of the entry at index `i`.
    pub open spec fn val_at(&self, i: int) -> int {
        self@[i].val()
    }

    /// The representatives of the entries.
    pub open spec fn vals(&self) -> Seq<int> {
        Seq::new(self@.len(), |i: int| self.val_at(i))
    }

    /// Whether all entries are zero.
    pub open spec fn spec_is_zero(&self) -> bool {
        forall|i: int| 0 <= i < self@.len() ==> self.val_at(i) == 0
    }

    /// The zero vector of dimension `dim`.
    pub fn zero(dim: usize) -> (v: Self)
        ensures
            v@.len() == dim,
            v.spec_is_zero(),
    {
        Self::uniform(dim, T::zero())
    }

    /// Whether this is a zero vector.
    pub fn is_zero(&self) -> (b: bool)
        ensures
            b == self.spec_is_zero(),
    {
        let mut i: usize = 0;
        while i < self.entries.len()
            invariant
                i <= self@.len(),
                forall|k: int| 0 <= k < i ==> self.val_at(k) == 0,
            decreases self@.len() - i,
        {
            if !self.entries[i].eq(T::zero()) {
                assert(self.val_at(i as int) != 0);
                return false;
            }
            i += 1;
        }
        true
    }

    /// The vector scaled by `rhs`.
    pub fn mul(self, rhs: T) -> (v: Self)
        ensures
            v@.len() == self@.len(),
            forall|i: int|
                0 <= i < self@.len() ==> #[trigger] v.val_at(i) == (self.val_at(i) * rhs.val())
                    % T::modulus(),
    {
        let mut out = self;
        let mut i: usize = 0;
        while i < out.entries.len()
            invariant
                i <= self@.len(),
                out@.len() == self@.len(),
                forall|k: int|
                    0 <= k < i ==> #[trigger] out.val_at(k) == (self.val_at(k) * rhs.val())
                        % T::modulus(),
                forall|k: int| i <= k < self@.len() ==> out@[k] == self@[k],
            decreases self@.len() - i,
        {
            let ghost prev = out;
            assert(out@[i as int] == self@[i as int]);
            let e: T = out.entries[i].mul(rhs);
            out.entries[i] = e;
            assert forall|k: int| 0 <= k < i + 1 implies #[trigger] out.val_at(k) == (self.val_at(k)
                * rhs.val()) % T::modulus() by {
                if k < i {
                    assert(out@[k] == prev@[k]);
                    assert(prev.val_at(k) == (self.val_at(k) * rhs.val()) % T::modulus());
                }
            }
            i += 1;
        }
        out
    }

    /// Adds `rhs` to the vector, entry by entry.
    pub fn add_assign(&mut self, rhs: &Vector<T>)
        requires
            old(self)@.len() == rhs@.len(),
        ensures
            final(self)@.len() == old(self)@.len(),
            forall|i: int|
                0 <= i < old(self)@.len() ==> #[trigger] final(self).val_at(i) == (old(self).val_at(
                    i,
                ) + rhs.val_at(i)) % T::modulus(),
    {
        let mut i: usize = 0;
        while i < self.entries.len()
            invariant
                i <= self@.len(),
                self@.len() == old(self)@.len(),
                self@.len() == rhs@.len(),
                forall|k: int|
                    0 <= k < i ==> #[trigger] self.val_at(k) == (old(self).val_at(k) + rhs.val_at(
                        k,
                    )) % T::modulus(),
                forall|k: int| i <= k < self@.len() ==> self@[k] == old(self)@[k],
            decreases self@.len() - i,
        {
            let ghost prev = *self;
            assert(self@[i as int] == old(self)@[i as int]);
            let e: T = self.entries[i].add(rhs.entries[i]);
            self.entries[i] = e;
            assert forall|k: int| 0 <= k < i + 1 implies #[trigger] self.val_at(k) == (old(
                self,
            ).val_at(k) + rhs.val_at(k)) % T::modulus() by {
                if k < i {
                    assert(self@[k] == prev@[k]);
                    assert(prev.val_at(k) == (old(self).val_at(k) + rhs.val_at(k)) % T::modulus());
                }
            }
            i += 1;
        }
    }
}

} // verus!
