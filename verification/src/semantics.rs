//! The values of expressions in the ring of the integers modulo a power of two.

use vstd::prelude::*;
use vstd::arithmetic::power2::{pow2, lemma_pow2_pos};
use crate::numbers::{UnsignedInt, bit_and, bit_or, bit_xor};
use crate::bits::{lemma_bit_and_bound, lemma_bit_or_bound, lemma_bit_xor_bound};
use crate::expr::{Term, BinaryOp, UnaryOp};
use crate::pointwise::{in_ring, size};

verus! {

/// The value of a binary operation on two elements of the ring of `m` elements. A
/// quotient or a remainder by zero has the value zero; a shift moves the bits by
/// the number of places that its right operand is.
pub open spec fn binary_value(op: BinaryOp, a: int, b: int, m: int) -> int {
    match op {
        BinaryOp::Add => (a + b) % m,
        BinaryOp::Sub => (a - b) % m,
        BinaryOp::Mul => (a * b) % m,
        BinaryOp::Div => if b == 0 {
            0
        } else {
            a / b
        },
        BinaryOp::Mod => if b == 0 {
            0
        } else {
            a % b
        },
        BinaryOp::And => bit_and(a, b),
        BinaryOp::Or => bit_or(a, b),
        BinaryOp::Xor => bit_xor(a, b),
        BinaryOp::Shl => (a * pow2(b as nat)) % m,
        BinaryOp::Shr => a / (pow2(b as nat) as int),
    }
}

/// The value of a unary operation on an element of the ring of `m` elements.
pub open spec fn unary_value(op: UnaryOp, a: int, m: int) -> int {
    match op {
        UnaryOp::Neg => (-a) % m,
        UnaryOp::Not => m - 1 - a,
    }
}

impl Term {
    /// The value of the expression in the ring of `m` elements, where each variable
    /// has the value that `v` gives it.
    pub open spec fn value(self, v: spec_fn(Seq<char>) -> int, m: int) -> int
        decreases self,
    {
        match self {
            Term::Const(c) => c % m,
            Term::Var(n) => v(n),
            Term::Binary(op, l, r) => binary_value(op, l.value(v, m), r.value(v, m), m),
            Term::Unary(op, e) => unary_value(op, e.value(v, m), m),
        }
    }
}

/// Whether two expressions have the same value in the ring of `m` elements under
/// every valuation into the ring.
pub open spec fn same_value(a: Term, b: Term, m: int) -> bool {
    forall|v: spec_fn(Seq<char>) -> int| in_ring(v, m) ==> #[trigger] a.value(v, m) == b.value(v, m)
}

/// The value of an operation on elements of the ring is an element of the ring.
pub proof fn lemma_binary_in_ring(op: BinaryOp, a: int, b: int, n: nat)
    requires
        0 <= a < size(n),
        0 <= b < size(n),
    ensures
        0 <= binary_value(op, a, b, size(n)) < size(n),
{
    let m = size(n);
    lemma_pow2_pos(n);
    lemma_pow2_pos(b as nat);
    match op {
        BinaryOp::Div => {
            if b != 0 {
                vstd::arithmetic::div_mod::lemma_div_pos_is_pos(a, b);
                vstd::arithmetic::div_mod::lemma_div_is_ordered_by_denominator(a, 1, b);
            }
        },
        BinaryOp::Mod => {
            if b != 0 {
                vstd::arithmetic::div_mod::lemma_mod_bound(a, b);
            }
        },
        BinaryOp::And => {
            lemma_bit_and_bound(a, b);
        },
        BinaryOp::Or => {
            lemma_bit_or_bound(a, b, n);
        },
        BinaryOp::Xor => {
            lemma_bit_xor_bound(a, b, n);
        },
        BinaryOp::Shr => {
            let p = pow2(b as nat) as int;
            vstd::arithmetic::div_mod::lemma_div_pos_is_pos(a, p);
            vstd::arithmetic::div_mod::lemma_div_is_ordered_by_denominator(a, 1, p);
        },
        _ => {},
    }
}

/// The value of an expression under a valuation into the ring is an element of the
/// ring.
pub proof fn lemma_value_in_ring(t: Term, v: spec_fn(Seq<char>) -> int, n: nat)
    requires
        in_ring(v, size(n)),
    ensures
        0 <= t.value(v, size(n)) < size(n),
    decreases t,
{
    let m = size(n);
    lemma_pow2_pos(n);
    match t {
        Term::Const(c) => {},
        Term::Var(x) => {
            assert(0 <= v(x) < m);
        },
        Term::Binary(op, l, r) => {
            lemma_value_in_ring(*l, v, n);
            lemma_value_in_ring(*r, v, n);
            lemma_binary_in_ring(op, l.value(v, m), r.value(v, m), n);
        },
        Term::Unary(op, e) => {
            lemma_value_in_ring(*e, v, n);
        },
    }
}

} // verus!
