//! Expressions that act on every bit alike, and linear combinations of them.

use vstd::prelude::*;
use crate::numbers::{UnsignedInt, UniformNum, bit_and, bit_or, bit_xor};
use crate::names::{compare_names, insert_name, sorted_names, has_name, Order};
use crate::modular::{
    sum, cong, lemma_cong_ops, lemma_cong_mod, lemma_mod_small, lemma_sum_eq, lemma_sum_add,
    lemma_sum_single,
};

verus! {

/// An expression that is uniform on all bits. `Ones` is a one in every bit, which is
/// `-1` in the ring.
#[derive(Debug, PartialEq, Eq)]
pub enum UExpr {
    Ones,
    Var(String),
    Not(Box<UExpr>),
    And(Box<UExpr>, Box<UExpr>),
    Or(Box<UExpr>, Box<UExpr>),
    Xor(Box<UExpr>, Box<UExpr>),
}

/// The mathematical form of a uniform expression: its variables are sequences of
/// characters.
pub enum UTerm {
    Ones,
    Var(Seq<char>),
    Not(Box<UTerm>),
    And(Box<UTerm>, Box<UTerm>),
    Or(Box<UTerm>, Box<UTerm>),
    Xor(Box<UTerm>, Box<UTerm>),
}

impl UTerm {
    /// The variables of the expression.
    pub open spec fn vars(self) -> Set<Seq<char>>
        decreases self,
    {
        match self {
            UTerm::Ones => Set::empty(),
            UTerm::Var(n) => Set::empty().insert(n),
            UTerm::Not(e) => e.vars(),
            UTerm::And(l, r) => l.vars().union(r.vars()),
            UTerm::Or(l, r) => l.vars().union(r.vars()),
            UTerm::Xor(l, r) => l.vars().union(r.vars()),
        }
    }

    /// The value of the expression, modulo `m`, where each variable has the value
    /// that `v` gives it.
    pub open spec fn eval(self, v: spec_fn(Seq<char>) -> int, m: int) -> int
        decreases self,
    {
        match self {
            UTerm::Ones => m - 1,
            UTerm::Var(n) => v(n),
            UTerm::Not(e) => m - 1 - e.eval(v, m),
            UTerm::And(l, r) => bit_and(l.eval(v, m), r.eval(v, m)),
            UTerm::Or(l, r) => bit_or(l.eval(v, m), r.eval(v, m)),
            UTerm::Xor(l, r) => bit_xor(l.eval(v, m), r.eval(v, m)),
        }
    }

    /// Whether the expression is a constant, a variable or a negation.
    pub open spec fn is_unary(self) -> bool {
        self is Ones || self is Var || self is Not
    }

    /// The expression with the variable `old` renamed to `new`.
    pub open spec fn rename(self, old: Seq<char>, new: Seq<char>) -> UTerm
        decreases self,
    {
        match self {
            UTerm::Ones => UTerm::Ones,
            UTerm::Var(n) => if n == old {
                UTerm::Var(new)
            } else {
                UTerm::Var(n)
            },
            UTerm::Not(e) => UTerm::Not(Box::new(e.rename(old, new))),
            UTerm::And(l, r) => UTerm::And(
                Box::new(l.rename(old, new)),
                Box::new(r.rename(old, new)),
            ),
            UTerm::Or(l, r) => UTerm::Or(
                Box::new(l.rename(old, new)),
                Box::new(r.rename(old, new)),
            ),
            UTerm::Xor(l, r) => UTerm::Xor(
                Box::new(l.rename(old, new)),
                Box::new(r.rename(old, new)),
            ),
        }
    }
}

impl UExpr {
    /// The mathematical form of the expression.
    pub open spec fn term(&self) -> UTerm
        decreases self,
    {
        match self {
            UExpr::Ones => UTerm::Ones,
            UExpr::Var(n) => UTerm::Var(n@),
            UExpr::Not(e) => UTerm::Not(Box::new(e.term())),
            UExpr::And(l, r) => UTerm::And(Box::new(l.term()), Box::new(r.term())),
            UExpr::Or(l, r) => UTerm::Or(Box::new(l.term()), Box::new(r.term())),
            UExpr::Xor(l, r) => UTerm::Xor(Box::new(l.term()), Box::new(r.term())),
        }
    }
}

impl UExpr {
    /// The variable with the name `c`.
    pub fn var(c: String) -> (e: Self)
        ensures
            e@ == UTerm::Var(c@),
    {
        UExpr::Var(c)
    }

    /// The negation of `e`.
    pub fn not(e: Self) -> (r: Self)
        ensures
            r@ == UTerm::Not(Box::new(e@)),
    {
        UExpr::Not(Box::new(e))
    }

    /// The conjunction of `l` and `r`.
    pub fn and(l: Self, r: Self) -> (e: Self)
        ensures
            e@ == UTerm::And(Box::new(l@), Box::new(r@)),
    {
        UExpr::And(Box::new(l), Box::new(r))
    }

    /// The disjunction of `l` and `r`.
    pub fn or(l: Self, r: Self) -> (e: Self)
        ensures
            e@ == UTerm::Or(Box::new(l@), Box::new(r@)),
    {
        UExpr::Or(Box::new(l), Box::new(r))
    }

    /// The exclusive disjunction of `l` and `r`.
    pub fn xor(l: Self, r: Self) -> (e: Self)
        ensures
            e@ == UTerm::Xor(Box::new(l@), Box::new(r@)),
    {
        UExpr::Xor(Box::new(l), Box::new(r))
    }

    /// Whether the topmost operator takes one operand or none.
    pub fn is_unary(&self) -> (b: bool)
        ensures
            b == self@.is_unary(),
    {
        match self {
            UExpr::Ones => true,
            UExpr::Var(_) => true,
            UExpr::Not(_) => true,
            _ => false,
        }
    }

    /// A copy of the expression.
    pub fn copy(&self) -> (e: Self)
        ensures
            e@ == self@,
        decreases self,
    {
        match self {
            UExpr::Ones => UExpr::Ones,
            UExpr::Var(n) => UExpr::Var(n.clone()),
            UExpr::Not(e) => UExpr::Not(Box::new(e.copy())),
            UExpr::And(l, r) => UExpr::And(Box::new(l.copy()), Box::new(r.copy())),
            UExpr::Or(l, r) => UExpr::Or(Box::new(l.copy()), Box::new(r.copy())),
            UExpr::Xor(l, r) => UExpr::Xor(Box::new(l.copy()), Box::new(r.copy())),
        }
    }

    /// Whether the two expressions are the same.
    pub fn equals(&self, other: &UExpr) -> (b: bool)
        ensures
            b == (self@ == other@),
        decreases self,
    {
        match (self, other) {
            (UExpr::Ones, UExpr::Ones) => true,
            (UExpr::Var(a), UExpr::Var(b)) => compare_names(a.as_str(), b.as_str()) == Order::Same,
            (UExpr::Not(a), UExpr::Not(b)) => a.equals(b),
            (UExpr::And(a, b), UExpr::And(c, d)) => a.equals(c) && b.equals(d),
            (UExpr::Or(a, b), UExpr::Or(c, d)) => a.equals(c) && b.equals(d),
            (UExpr::Xor(a, b), UExpr::Xor(c, d)) => a.equals(c) && b.equals(d),
            _ => false,
        }
    }

    /// The variables of the expression, sorted, each once.
    pub fn vars(&self) -> (v: Vec<String>)
        ensures
            sorted_names(v@),
            forall|n: Seq<char>| has_name(v@, n) <==> self@.vars().contains(n),
    {
        let mut v: Vec<String> = Vec::new();
        self.vars_impl(&mut v);
        v
    }

    /// Puts the variables of the expression into the sorted list `v`.
    pub fn vars_impl(&self, v: &mut Vec<String>)
        requires
            sorted_names(old(v)@),
        ensures
            sorted_names(final(v)@),
            forall|n: Seq<char>|
                has_name(final(v)@, n) <==> has_name(old(v)@, n) || self@.vars().contains(n),
        decreases self,
    {
        match self {
            UExpr::Ones => {},
            UExpr::Var(c) => {
                insert_name(v, c.as_str());
            },
            UExpr::Not(e) => {
                e.vars_impl(v);
            },
            UExpr::And(l, r) => {
                l.vars_impl(v);
                r.vars_impl(v);
            },
            UExpr::Or(l, r) => {
                l.vars_impl(v);
                r.vars_impl(v);
            },
            UExpr::Xor(l, r) => {
                l.vars_impl(v);
                r.vars_impl(v);
            },
        }
    }

    /// The value of the expression under the valuation `v` of its variables.
    pub fn eval<T: UniformNum>(&self, v: &Valuation<T>) -> (r: T)
        requires
            forall|n: Seq<char>| self@.vars().contains(n) ==> v.has(n),
        ensures
            r.val() == self@.eval(v.assignment(), T::modulus()),
        decreases self,
    {
        match self {
            UExpr::Ones => {
                proof {
                    T::lemma_modulus();
                    crate::modular::lemma_cong_add_multiple(-1, 1, T::modulus());
                    lemma_mod_small(T::modulus() - 1, T::modulus());
                }
                T::zero().sub(T::one())
            },
            UExpr::Var(c) => {
                assert(self@.vars().contains(c@));
                v.get(c.as_str())
            },
            UExpr::Not(e) => e.eval(v).not(),
            UExpr::And(l, r) => {
                assert forall|n: Seq<char>| l@.vars().contains(n) implies v.has(n) by {
                    assert(self@.vars().contains(n));
                }
                assert forall|n: Seq<char>| r@.vars().contains(n) implies v.has(n) by {
                    assert(self@.vars().contains(n));
                }
                l.eval(v).and(r.eval(v))
            },
            UExpr::Or(l, r) => {
                assert forall|n: Seq<char>| l@.vars().contains(n) implies v.has(n) by {
                    assert(self@.vars().contains(n));
                }
                assert forall|n: Seq<char>| r@.vars().contains(n) implies v.has(n) by {
                    assert(self@.vars().contains(n));
                }
                l.eval(v).or(r.eval(v))
            },
            UExpr::Xor(l, r) => {
                assert forall|n: Seq<char>| l@.vars().contains(n) implies v.has(n) by {
                    assert(self@.vars().contains(n));
                }
                assert forall|n: Seq<char>| r@.vars().contains(n) implies v.has(n) by {
                    assert(self@.vars().contains(n));
                }
                l.eval(v).xor(r.eval(v))
            },
        }
    }

    /// Renames the variable `from` to `to`.
    pub fn rename_var(&mut self, from: &str, to: &str)
        ensures
            final(self)@ == old(self)@.rename(from@, to@),
        decreases *old(self),
    {
        match self {
            UExpr::Ones => {},
            UExpr::Var(v) => {
                if compare_names(v.as_str(), from) == Order::Same {
                    *v = to.to_owned();
                }
            },
            UExpr::Not(e) => {
                e.rename_var(from, to);
            },
            UExpr::And(l, r) => {
                l.rename_var(from, to);
                r.rename_var(from, to);
            },
            UExpr::Or(l, r) => {
                l.rename_var(from, to);
                r.rename_var(from, to);
            },
            UExpr::Xor(l, r) => {
                l.rename_var(from, to);
                r.rename_var(from, to);
            },
        }
    }
}

impl View for UExpr {
    type V = UTerm;

    open spec fn view(&self) -> UTerm {
        self.term()
    }
}

/// The values of variables: a list of names, each with its value. Where a name
/// stands twice, its first value counts.
#[derive(Debug)]
pub struct Valuation<T> {
    pub vals: Vec<(String, T)>,
}

impl<T: UnsignedInt> Valuation<T> {
    /// Whether the valuation gives the name a value.
    pub open spec fn has(&self, name: Seq<char>) -> bool {
        exists|i: int| 0 <= i < self.vals@.len() && (#[trigger] self.vals@[i]).0@ == name
    }

    /// The value of the first pair from index `i` on that has the name, or zero.
    pub open spec fn lookup_from(&self, name: Seq<char>, i: int) -> int
        decreases self.vals@.len() - i,
    {
        if i < 0 || i >= self.vals@.len() {
            0
        } else if self.vals@[i].0@ == name {
            self.vals@[i].1.val()
        } else {
            self.lookup_from(name, i + 1)
        }
    }

    /// The value of the name, or zero where it has none.
    pub open spec fn lookup(&self, name: Seq<char>) -> int {
        self.lookup_from(name, 0)
    }

    /// The valuation as a function from names to values.
    pub open spec fn assignment(&self) -> spec_fn(Seq<char>) -> int {
        |n: Seq<char>| self.lookup(n)
    }

    /// The valuation that gives each of the variables the value zero.
    pub fn zero(vars: Vec<String>) -> (v: Self)
        ensures
            v.vals@.len() == vars@.len(),
            forall|i: int| 0 <= i < vars@.len() ==> (#[trigger] v.vals@[i]).0@ == vars@[i]@,
            forall|n: Seq<char>| v.has(n) <==> has_name(vars@, n),
            forall|n: Seq<char>| #[trigger] v.lookup(n) == 0,
    {
        let mut vals: Vec<(String, T)> = Vec::new();
        let mut i: usize = 0;
        while i < vars.len()
            invariant
                i <= vars@.len(),
                vals@.len() == i,
                forall|k: int| 0 <= k < i ==> (#[trigger] vals@[k]).0@ == vars@[k]@,
                forall|k: int| 0 <= k < i ==> (#[trigger] vals@[k]).1.val() == 0,
            decreases vars@.len() - i,
        {
            vals.push((vars[i].clone(), T::zero()));
            i += 1;
        }
        let v = Self { vals };
        proof {
            assert forall|n: Seq<char>| v.has(n) <==> has_name(vars@, n) by {
                if v.has(n) {
                    let k = choose|k: int| 0 <= k < v.vals@.len() && (#[trigger] v.vals@[k]).0@ == n;
                    assert(vars@[k]@ == n);
                }
                if has_name(vars@, n) {
                    let k = choose|k: int| 0 <= k < vars@.len() && #[trigger] vars@[k]@ == n;
                    assert(v.vals@[k].0@ == n);
                }
            }
            assert forall|n: Seq<char>| #[trigger] v.lookup(n) == 0 by {
                v.lemma_lookup_zero(n, 0);
            }
        }
        v
    }

    /// Where all values are zero, so is every value looked up.
    pub proof fn lemma_lookup_zero(&self, name: Seq<char>, i: int)
        requires
            forall|k: int| 0 <= k < self.vals@.len() ==> (#[trigger] self.vals@[k]).1.val() == 0,
        ensures
            self.lookup_from(name, i) == 0,
        decreases self.vals@.len() - i,
    {
        if 0 <= i < self.vals@.len() {
            assert(self.vals@[i].1.val() == 0);
            self.lemma_lookup_zero(name, i + 1);
        }
    }

    /// The value of the variable `name`.
    pub fn get(&self, name: &str) -> (r: T)
        requires
            self.has(name@),
        ensures
            r.val() == self.lookup(name@),
    {
        let n: usize = self.vals.len();
        let mut i: usize = 0;
        loop
            invariant_except_break
                i < self.vals@.len(),
                n == self.vals@.len(),
                self.lookup(name@) == self.lookup_from(name@, i as int),
                exists|k: int| i <= k < self.vals@.len() && (#[trigger] self.vals@[k]).0@ == name@,
            ensures
                i < self.vals@.len(),
                self.vals@[i as int].1.val() == self.lookup(name@),
            decreases self.vals@.len() - i,
        {
            if compare_names(self.vals[i].0.as_str(), name) == Order::Same {
                break ;
            }
            i += 1;
        }
        self.vals[i].1
    }

    /// Gives the variable `name` the value `value`.
    pub fn set(&mut self, name: &str, value: T)
        requires
            old(self).has(name@),
        ensures
            final(self).vals@.len() == old(self).vals@.len(),
            forall|k: int|
                0 <= k < old(self).vals@.len() ==> (#[trigger] final(self).vals@[k]).0@ == old(
                    self,
                ).vals@[k].0@,
            forall|n: Seq<char>|
                #[trigger] final(self).lookup(n) == if n == name@ {
                    value.val()
                } else {
                    old(self).lookup(n)
                },
    {
        let n: usize = self.vals.len();
        let mut i: usize = 0;
        loop
            invariant_except_break
                i < self.vals@.len(),
                n == self.vals@.len(),
                self.vals@ == old(self).vals@,
                forall|k: int| 0 <= k < i ==> (#[trigger] self.vals@[k]).0@ != name@,
                exists|k: int| i <= k < self.vals@.len() && (#[trigger] self.vals@[k]).0@ == name@,
            ensures
                i < self.vals@.len(),
                self.vals@ == old(self).vals@,
                self.vals@[i as int].0@ == name@,
                forall|k: int| 0 <= k < i ==> (#[trigger] self.vals@[k]).0@ != name@,
            decreases self.vals@.len() - i,
        {
            if compare_names(self.vals[i].0.as_str(), name) == Order::Same {
                break ;
            }
            i += 1;
        }
        let ghost before = *self;
        self.vals[i].1 = value;
        proof {
            assert forall|k: int| 0 <= k < before.vals@.len() implies (#[trigger] self.vals@[k]).0@
                == before.vals@[k].0@ by {}
            assert forall|n: Seq<char>|
                #[trigger] self.lookup(n) == if n == name@ {
                    value.val()
                } else {
                    before.lookup(n)
                } by {
                lemma_lookup_update(&before, self, n, name@, i as int, value.val(), 0);
            }
        }
    }
}

/// Looking up a name in a valuation after the value at the first place of `name`
/// was changed.
pub proof fn lemma_lookup_update<T: UnsignedInt>(
    before: &Valuation<T>,
    after: &Valuation<T>,
    n: Seq<char>,
    name: Seq<char>,
    at: int,
    value: int,
    i: int,
)
    requires
        0 <= i <= at < before.vals@.len(),
        after.vals@.len() == before.vals@.len(),
        forall|k: int|
            0 <= k < before.vals@.len() ==> (#[trigger] after.vals@[k]).0@ == before.vals@[k].0@,
        forall|k: int|
            0 <= k < before.vals@.len() && k != at ==> (#[trigger] after.vals@[k]).1
                == before.vals@[k].1,
        after.vals@[at].1.val() == value,
        before.vals@[at].0@ == name,
        forall|k: int| 0 <= k < at ==> (#[trigger] before.vals@[k]).0@ != name,
    ensures
        after.lookup_from(n, i) == if n == name {
            value
        } else {
            before.lookup_from(n, i)
        },
    decreases before.vals@.len() - i,
{
    assert(after.vals@[i].0@ == before.vals@[i].0@);
    if i < at {
        assert(before.vals@[i].0@ != name);
        assert(after.vals@[i].1 == before.vals@[i].1);
        lemma_lookup_update(before, after, n, name, at, value, i + 1);
    } else if n != name {
        lemma_lookup_same(before, after, n, i + 1);
    }
}

/// Two valuations with the same pairs from `i` on give the same values from there.
pub proof fn lemma_lookup_same<T: UnsignedInt>(
    before: &Valuation<T>,
    after: &Valuation<T>,
    n: Seq<char>,
    i: int,
)
    requires
        0 <= i,
        after.vals@.len() == before.vals@.len(),
        forall|k: int|
            i <= k < before.vals@.len() ==> (#[trigger] after.vals@[k]).0@ == before.vals@[k].0@
                && after.vals@[k].1 == before.vals@[k].1,
    ensures
        after.lookup_from(n, i) == before.lookup_from(n, i),
    decreases before.vals@.len() - i,
{
    if i < before.vals@.len() {
        assert(after.vals@[i].0@ == before.vals@[i].0@);
        lemma_lookup_same(before, after, n, i + 1);
    }
}

/// A linear combination of uniform expressions: the sum of the products of each
/// coefficient with its expression.
#[derive(Debug)]
pub struct LUExpr<T>(pub Vec<(T, UExpr)>);

/// The products of the coefficients with the values of their expressions.
pub open spec fn lu_terms(t: Seq<(int, UTerm)>, v: spec_fn(Seq<char>) -> int, m: int) -> spec_fn(
    int,
) -> int {
    |i: int| t[i].0 * t[i].1.eval(v, m)
}

/// The value of a linear combination over the integers, where the uniform
/// expressions are evaluated modulo `m`.
pub open spec fn lu_sum(t: Seq<(int, UTerm)>, v: spec_fn(Seq<char>) -> int, m: int) -> int {
    sum(lu_terms(t, v, m), t.len() as int)
}

/// The value of a linear combination modulo `m`.
pub open spec fn lu_eval(t: Seq<(int, UTerm)>, v: spec_fn(Seq<char>) -> int, m: int) -> int {
    lu_sum(t, v, m) % m
}

/// Whether the variable `n` stands in a linear combination.
pub open spec fn lu_has_var(t: Seq<(int, UTerm)>, n: Seq<char>) -> bool {
    exists|i: int| 0 <= i < t.len() && (#[trigger] t[i]).1.vars().contains(n)
}

impl<T: UnsignedInt> View for LUExpr<T> {
    type V = Seq<(int, UTerm)>;

    open spec fn view(&self) -> Seq<(int, UTerm)> {
        Seq::new(self.0@.len(), |i: int| (self.0@[i].0.val(), self.0@[i].1@))
    }
}

impl<T: UniformNum> LUExpr<T> {
    /// The linear combination that is the constant `c`.
    pub fn constant(c: T) -> (e: Self)
        ensures
            e@ == seq![((0 - c.val()) % T::modulus(), UTerm::Ones)],
    {
        let mut v: Vec<(T, UExpr)> = Vec::new();
        v.push((T::zero().sub(c), UExpr::Ones));
        let e = Self(v);
        assert(e@ =~= seq![((0 - c.val()) % T::modulus(), UTerm::Ones)]);
        e
    }

    /// The uniform expression `u` as a linear combination.
    pub fn from_uexpr(u: UExpr) -> (e: Self)
        ensures
            e@ == seq![(1int, u@)],
    {
        let ghost t = u@;
        let mut v: Vec<(T, UExpr)> = Vec::new();
        v.push((T::one(), u));
        let e = Self(v);
        assert(e@ =~= seq![(1int, t)]);
        e
    }

    /// The variable `name` as a linear combination.
    pub fn var(name: String) -> (e: Self)
        ensures
            e@ == seq![(1int, UTerm::Var(name@))],
    {
        Self::from_uexpr(UExpr::Var(name))
    }

    /// The variables of the linear combination, sorted, each once.
    pub fn vars(&self) -> (v: Vec<String>)
        ensures
            sorted_names(v@),
            forall|n: Seq<char>| has_name(v@, n) <==> lu_has_var(self@, n),
    {
        let mut v: Vec<String> = Vec::new();
        self.vars_impl(&mut v);
        v
    }

    /// Puts the variables of the linear combination into the sorted list `v`.
    pub fn vars_impl(&self, v: &mut Vec<String>)
        requires
            sorted_names(old(v)@),
        ensures
            sorted_names(final(v)@),
            forall|n: Seq<char>|
                has_name(final(v)@, n) <==> has_name(old(v)@, n) || lu_has_var(self@, n),
    {
        let mut i: usize = 0;
        while i < self.0.len()
            invariant
                i <= self.0@.len(),
                sorted_names(v@),
                forall|n: Seq<char>|
                    has_name(v@, n) <==> has_name(old(v)@, n) || lu_has_var(
                        self@.subrange(0, i as int),
                        n,
                    ),
            decreases self.0@.len() - i,
        {
            let ghost before = v@;
            self.0[i].1.vars_impl(v);
            proof {
                let t0 = self@.subrange(0, i as int);
                let t1 = self@.subrange(0, i + 1);
                assert(self@[i as int].1 == self.0@[i as int].1@);
                assert forall|n: Seq<char>|
                    has_name(v@, n) <==> has_name(old(v)@, n) || lu_has_var(t1, n) by {
                    if lu_has_var(t1, n) {
                        let k = choose|k: int| 0 <= k < t1.len() && (#[trigger] t1[k]).1.vars().contains(n);
                        if k < i {
                            assert(t0[k].1.vars().contains(n));
                        }
                    }
                    if lu_has_var(t0, n) {
                        let k = choose|k: int| 0 <= k < t0.len() && (#[trigger] t0[k]).1.vars().contains(n);
                        assert(t1[k].1.vars().contains(n));
                    }
                    if self.0@[i as int].1@.vars().contains(n) {
                        assert(t1[i as int].1.vars().contains(n));
                    }
                }
            }
            i += 1;
        }
        assert(self@.subrange(0, self.0@.len() as int) =~= self@);
    }

    /// The value of the linear combination under the valuation `v` of its
    /// variables.
    pub fn eval(&self, v: &Valuation<T>) -> (r: T)
        requires
            forall|n: Seq<char>| lu_has_var(self@, n) ==> v.has(n),
        ensures
            r.val() == lu_eval(self@, v.assignment(), T::modulus()),
    {
        let ghost md = T::modulus();
        let ghost f = lu_terms(self@, v.assignment(), md);
        let mut acc: T = T::zero();
        let mut i: usize = 0;
        proof {
            T::lemma_modulus();
            lemma_mod_small(0, md);
        }
        while i < self.0.len()
            invariant
                i <= self.0@.len(),
                md == T::modulus(),
                md > 0,
                f == lu_terms(self@, v.assignment(), md),
                forall|n: Seq<char>| lu_has_var(self@, n) ==> v.has(n),
                acc.val() == sum(f, i as int) % md,
            decreases self.0@.len() - i,
        {
            proof {
                assert forall|n: Seq<char>| self.0@[i as int].1@.vars().contains(n) implies v.has(
                    n,
                ) by {
                    assert(self@[i as int].1.vars().contains(n));
                }
            }
            let c: T = self.0[i].0;
            let u: T = self.0[i].1.eval(v);
            let next: T = acc.add(c.mul(u));
            proof {
                let s = sum(f, i as int);
                let t = f(i as int);
                assert(self@[i as int] == (c.val(), self.0@[i as int].1@));
                assert(t == c.val() * u.val());
                lemma_cong_mod(s, md);
                lemma_cong_mod(t, md);
                lemma_cong_ops(s % md, s, t % md, t, md);
            }
            acc = next;
            i += 1;
        }
        acc
    }
}

/// The index of the first term from index `i` on with the uniform expression `u`;
/// `-1` where there is none.
pub open spec fn position(t: Seq<(int, UTerm)>, u: UTerm, i: int) -> int
    decreases t.len() - i,
{
    if i < 0 || i >= t.len() {
        -1
    } else if t[i].1 == u {
        i
    } else {
        position(t, u, i + 1)
    }
}

/// The terms `t` and the term `c * u`, over the ring of `m` elements: `c` is added
/// to the coefficient of the first term with the uniform expression `u`, and the
/// term is the last where there is none.
pub open spec fn added(t: Seq<(int, UTerm)>, c: int, u: UTerm, m: int) -> Seq<(int, UTerm)> {
    let k = position(t, u, 0);
    if k >= 0 {
        t.update(k, ((t[k].0 + c) % m, t[k].1))
    } else {
        t.push((c, u))
    }
}

/// The terms of a linear combination whose coefficient is not zero, in their order.
pub open spec fn nonzero_terms(t: Seq<(int, UTerm)>) -> Seq<(int, UTerm)>
    decreases t.len(),
{
    if t.len() == 0 {
        Seq::empty()
    } else if t.last().0 != 0 {
        nonzero_terms(t.drop_last()).push(t.last())
    } else {
        nonzero_terms(t.drop_last())
    }
}

/// A term more adds its product to the value of a linear combination.
pub proof fn lemma_lu_sum_push(
    t: Seq<(int, UTerm)>,
    x: (int, UTerm),
    v: spec_fn(Seq<char>) -> int,
    m: int,
)
    ensures
        lu_sum(t.push(x), v, m) == lu_sum(t, v, m) + x.0 * x.1.eval(v, m),
{
    let f = lu_terms(t, v, m);
    let g = lu_terms(t.push(x), v, m);
    assert forall|i: int| 0 <= i < t.len() implies #[trigger] g(i) == f(i) by {
        assert(t.push(x)[i] == t[i]);
    }
    lemma_sum_eq(g, f, t.len() as int);
    assert(t.push(x)[t.len() as int] == x);
}

/// A change of the coefficient of one term changes the value of a linear
/// combination by the change times the value of the expression of the term.
pub proof fn lemma_lu_sum_update(
    t: Seq<(int, UTerm)>,
    i: int,
    c: int,
    v: spec_fn(Seq<char>) -> int,
    m: int,
)
    requires
        0 <= i < t.len(),
    ensures
        lu_sum(t.update(i, (c, t[i].1)), v, m) == lu_sum(t, v, m) + (c - t[i].0) * t[i].1.eval(
            v,
            m,
        ),
{
    let u = t.update(i, (c, t[i].1));
    let f = lu_terms(t, v, m);
    let g = lu_terms(u, v, m);
    let e = |k: int| g(k) - f(k);
    assert forall|k: int| 0 <= k < t.len() && k != i implies #[trigger] e(k) == 0 by {
        assert(u[k] == t[k]);
    }
    lemma_sum_single(e, t.len() as int, i);
    lemma_sum_add(f, e, g, t.len() as int);
    assert(u[i] == (c, t[i].1));
    assert(c * t[i].1.eval(v, m) - t[i].0 * t[i].1.eval(v, m) == (c - t[i].0) * t[i].1.eval(v, m))
        by (nonlinear_arith);
}

/// The terms with the coefficient zero add nothing to the value of a linear
/// combination.
pub proof fn lemma_lu_sum_nonzero(t: Seq<(int, UTerm)>, v: spec_fn(Seq<char>) -> int, m: int)
    ensures
        lu_sum(nonzero_terms(t), v, m) == lu_sum(t, v, m),
    decreases t.len(),
{
    if t.len() > 0 {
        let r = t.drop_last();
        lemma_lu_sum_nonzero(r, v, m);
        assert(t =~= r.push(t.last()));
        lemma_lu_sum_push(r, t.last(), v, m);
        if t.last().0 != 0 {
            lemma_lu_sum_push(nonzero_terms(r), t.last(), v, m);
        } else {
            assert(0 * t.last().1.eval(v, m) == 0);
        }
    }
}

impl<T: UniformNum> LUExpr<T> {
    /// Adds `c` times the uniform expression `u` to the linear combination: to the
    /// coefficient of the first term with that expression, or as a new term at the
    /// end.
    pub fn add_term(&mut self, c: T, u: &UExpr)
        ensures
            final(self)@ == added(old(self)@, c.val(), u@, T::modulus()),
            forall|v: spec_fn(Seq<char>) -> int|
                cong(
                    #[trigger] lu_sum(final(self)@, v, T::modulus()),
                    lu_sum(old(self)@, v, T::modulus()) + c.val() * u@.eval(v, T::modulus()),
                    T::modulus(),
                ),
            forall|n: Seq<char>| #[trigger]
                lu_has_var(final(self)@, n) <==> lu_has_var(old(self)@, n) || u@.vars().contains(n),
    {
        let ghost md = T::modulus();
        let ghost before = self@;
        proof {
            T::lemma_modulus();
        }
        let n: usize = self.0.len();
        let mut i: usize = 0;
        while i < n
            invariant
                n == self.0@.len(),
                i <= n,
                self@ == before,
                before == old(self)@,
                md == T::modulus(),
                md > 0,
                position(before, u@, 0) == position(before, u@, i as int),
            decreases n - i,
        {
            if self.0[i].1.equals(u) {
                let d: T = self.0[i].0.add(c);
                self.0[i].0 = d;
                proof {
                    assert(self@ =~= before.update(i as int, (d.val(), before[i as int].1)));
                    assert(position(before, u@, i as int) == i);
                    assert forall|v: spec_fn(Seq<char>) -> int|
                        cong(
                            #[trigger] lu_sum(self@, v, md),
                            lu_sum(before, v, md) + c.val() * u@.eval(v, md),
                            md,
                        ) by {
                        lemma_lu_sum_update(before, i as int, d.val(), v, md);
                        let x = u@.eval(v, md);
                        let o = before[i as int].0;
                        assert(before[i as int].1 == u@);
                        lemma_cong_mod(o + c.val(), md);
                        lemma_cong_ops(d.val(), o + c.val(), o, o, md);
                        lemma_cong_ops(d.val() - o, c.val(), x, x, md);
                        lemma_cong_ops(
                            lu_sum(before, v, md),
                            lu_sum(before, v, md),
                            (d.val() - o) * x,
                            c.val() * x,
                            md,
                        );
                    }
                    assert forall|n: Seq<char>| #[trigger]
                        lu_has_var(self@, n) <==> lu_has_var(before, n) || u@.vars().contains(
                            n,
                        ) by {
                        if lu_has_var(self@, n) {
                            let k = choose|k: int|
                                0 <= k < self@.len() && (#[trigger] self@[k]).1.vars().contains(n);
                            assert(before[k].1.vars().contains(n));
                        }
                        if lu_has_var(before, n) {
                            let k = choose|k: int|
                                0 <= k < before.len() && (#[trigger] before[k]).1.vars().contains(n);
                            assert(self@[k].1.vars().contains(n));
                        }
                        if u@.vars().contains(n) {
                            assert(self@[i as int].1.vars().contains(n));
                        }
                    }
                }
                return ;
            }
            i += 1;
        }
        self.0.push((c, u.copy()));
        proof {
            let x = (c.val(), u@);
            assert(self@ =~= before.push(x));
            assert forall|v: spec_fn(Seq<char>) -> int|
                cong(
                    #[trigger] lu_sum(self@, v, md),
                    lu_sum(before, v, md) + c.val() * u@.eval(v, md),
                    md,
                ) by {
                lemma_lu_sum_push(before, x, v, md);
            }
            assert forall|n: Seq<char>| #[trigger]
                lu_has_var(self@, n) <==> lu_has_var(before, n) || u@.vars().contains(n) by {
                if lu_has_var(self@, n) {
                    let k = choose|k: int|
                        0 <= k < self@.len() && (#[trigger] self@[k]).1.vars().contains(n);
                    if k < before.len() {
                        assert(before[k].1.vars().contains(n));
                    }
                }
                if lu_has_var(before, n) {
                    let k = choose|k: int|
                        0 <= k < before.len() && (#[trigger] before[k]).1.vars().contains(n);
                    assert(self@[k].1.vars().contains(n));
                }
                if u@.vars().contains(n) {
                    assert(self@[before.len() as int].1.vars().contains(n));
                }
            }
        }
    }

    /// The linear combination without the terms whose coefficient is zero.
    pub fn without_zeros(&self) -> (r: Self)
        ensures
            r@ == nonzero_terms(self@),
    {
        let mut out: Vec<(T, UExpr)> = Vec::new();
        let mut i: usize = 0;
        let ghost mut r = LUExpr::<T>(out);
        proof {
            assert(r@ =~= Seq::empty());
            assert(self@.subrange(0, 0) =~= Seq::empty());
        }
        while i < self.0.len()
            invariant
                i <= self.0@.len(),
                r.0 == out,
                r@ == nonzero_terms(self@.subrange(0, i as int)),
            decreases self.0@.len() - i,
        {
            let ghost t0 = self@.subrange(0, i as int);
            let ghost t1 = self@.subrange(0, i + 1);
            proof {
                assert(t1.drop_last() =~= t0);
                assert(t1.last() == self@[i as int]);
            }
            if !self.0[i].0.eq(T::zero()) {
                let ghost prev = r@;
                out.push((self.0[i].0, self.0[i].1.copy()));
                proof {
                    r = LUExpr::<T>(out);
                    assert(r@ =~= prev.push(self@[i as int]));
                }
            }
            i += 1;
        }
        proof {
            assert(self@.subrange(0, self.0@.len() as int) =~= self@);
        }
        LUExpr(out)
    }

    /// A copy of the linear combination.
    pub fn copy(&self) -> (r: Self)
        ensures
            r@ == self@,
    {
        let mut out: Vec<(T, UExpr)> = Vec::new();
        let mut i: usize = 0;
        while i < self.0.len()
            invariant
                i <= self.0@.len(),
                out@.len() == i,
                forall|k: int|
                    0 <= k < i ==> (#[trigger] out@[k]).0 == self.0@[k].0 && out@[k].1@
                        == self.0@[k].1@,
            decreases self.0@.len() - i,
        {
            out.push((self.0[i].0, self.0[i].1.copy()));
            i += 1;
        }
        let r = LUExpr(out);
        assert(r@ =~= self@);
        r
    }
}

} // verus!
