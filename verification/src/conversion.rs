//! Uniform expressions and their linear combinations as expressions.

use vstd::prelude::*;
use crate::numbers::{UnsignedInt, UniformNum};
use crate::uniform_expr::{UExpr, UTerm, LUExpr, nonzero_terms};
use crate::expr::{Expr, Node, Term, BinaryOp, UnaryOp, tree, nodes_ok};
use crate::expr_parser::{extends, push_node, lemma_extends_trans, lemma_extends_tree};

verus! {

/// The uniform expression as an expression: the constant of all ones, modulo `m`, in
/// place of `Ones`.
pub open spec fn uniform_term(u: UTerm, m: int) -> Term
    decreases u,
{
    match u {
        UTerm::Ones => Term::Const(m - 1),
        UTerm::Var(n) => Term::Var(n),
        UTerm::Not(e) => Term::Unary(UnaryOp::Not, Box::new(uniform_term(*e, m))),
        UTerm::And(l, r) => Term::Binary(
            BinaryOp::And,
            Box::new(uniform_term(*l, m)),
            Box::new(uniform_term(*r, m)),
        ),
        UTerm::Or(l, r) => Term::Binary(
            BinaryOp::Or,
            Box::new(uniform_term(*l, m)),
            Box::new(uniform_term(*r, m)),
        ),
        UTerm::Xor(l, r) => Term::Binary(
            BinaryOp::Xor,
            Box::new(uniform_term(*l, m)),
            Box::new(uniform_term(*r, m)),
        ),
    }
}

/// The term `c * u` as an expression: `u` alone where `c` is one.
pub open spec fn product_term(c: int, u: UTerm, m: int) -> Term {
    if c == 1 {
        uniform_term(u, m)
    } else {
        Term::Binary(BinaryOp::Mul, Box::new(Term::Const(c)), Box::new(uniform_term(u, m)))
    }
}

/// The sum of the first `n` of the terms `t`, of which there is one at least, as an
/// expression: each sum is the left operand of the next.
pub open spec fn sum_term(t: Seq<(int, UTerm)>, n: int, m: int) -> Term
    decreases n,
{
    if n <= 1 {
        product_term(t[0].0, t[0].1, m)
    } else {
        Term::Binary(
            BinaryOp::Add,
            Box::new(sum_term(t, n - 1, m)),
            Box::new(product_term(t[n - 1].0, t[n - 1].1, m)),
        )
    }
}

/// The linear combination with the terms `t` as an expression: zero where it has no
/// term with a coefficient that is not zero.
pub open spec fn linear_term(t: Seq<(int, UTerm)>, m: int) -> Term {
    let z = nonzero_terms(t);
    if z.len() == 0 {
        Term::Const(0)
    } else {
        sum_term(z, z.len() as int, m)
    }
}

impl UExpr {
    /// Puts the nodes of the uniform expression after `nodes`, and gives the index
    /// of its node.
    pub fn push_nodes<T: UniformNum>(&self, nodes: &mut Vec<Node<T>>) -> (i: usize)
        requires
            nodes_ok(old(nodes)@),
        ensures
            extends(final(nodes)@, old(nodes)@),
            i < final(nodes)@.len(),
            tree(final(nodes)@, i as int) == uniform_term(self@, T::modulus()),
        decreases self,
    {
        let ghost start = nodes@;
        match self {
            UExpr::Ones => {
                proof {
                    T::lemma_modulus();
                    crate::modular::lemma_cong_add_multiple(-1, 1, T::modulus());
                    crate::modular::lemma_mod_small(T::modulus() - 1, T::modulus());
                }
                push_node(nodes, Node::Const(T::zero().sub(T::one())))
            },
            UExpr::Var(v) => push_node(nodes, Node::Var(v.clone())),
            UExpr::Not(e) => {
                let c = e.push_nodes(nodes);
                let ghost mid = nodes@;
                let i = push_node(nodes, Node::Unary(UnaryOp::Not, c));
                proof {
                    assert(tree(nodes@, c as int) == tree(mid, c as int));
                    lemma_extends_trans(nodes@, mid, start);
                }
                i
            },
            UExpr::And(l, r) => {
                let a = l.push_nodes(nodes);
                let ghost m1 = nodes@;
                let b = r.push_nodes(nodes);
                let ghost m2 = nodes@;
                let i = push_node(nodes, Node::Binary(BinaryOp::And, a, b));
                proof {
                    lemma_extends_tree(m2, m1, a as int);
                    assert(tree(nodes@, a as int) == tree(m2, a as int));
                    assert(tree(nodes@, b as int) == tree(m2, b as int));
                    lemma_extends_trans(m2, m1, start);
                    lemma_extends_trans(nodes@, m2, start);
                }
                i
            },
            UExpr::Or(l, r) => {
                let a = l.push_nodes(nodes);
                let ghost m1 = nodes@;
                let b = r.push_nodes(nodes);
                let ghost m2 = nodes@;
                let i = push_node(nodes, Node::Binary(BinaryOp::Or, a, b));
                proof {
                    lemma_extends_tree(m2, m1, a as int);
                    assert(tree(nodes@, a as int) == tree(m2, a as int));
                    assert(tree(nodes@, b as int) == tree(m2, b as int));
                    lemma_extends_trans(m2, m1, start);
                    lemma_extends_trans(nodes@, m2, start);
                }
                i
            },
            UExpr::Xor(l, r) => {
                let a = l.push_nodes(nodes);
                let ghost m1 = nodes@;
                let b = r.push_nodes(nodes);
                let ghost m2 = nodes@;
                let i = push_node(nodes, Node::Binary(BinaryOp::Xor, a, b));
                proof {
                    lemma_extends_tree(m2, m1, a as int);
                    assert(tree(nodes@, a as int) == tree(m2, a as int));
                    assert(tree(nodes@, b as int) == tree(m2, b as int));
                    lemma_extends_trans(m2, m1, start);
                    lemma_extends_trans(nodes@, m2, start);
                }
                i
            },
        }
    }

    /// The uniform expression as an expression.
    pub fn to_expr<T: UniformNum>(&self) -> (e: Expr<T>)
        ensures
            e.wf(),
            e@ == uniform_term(self@, T::modulus()),
    {
        let mut nodes: Vec<Node<T>> = Vec::new();
        let root = self.push_nodes(&mut nodes);
        Expr { nodes, root }
    }
}

/// Puts the nodes of the term `c * u` after `nodes`, and gives the index of its node.
pub fn push_product<T: UniformNum>(nodes: &mut Vec<Node<T>>, c: T, u: &UExpr) -> (i: usize)
    requires
        nodes_ok(old(nodes)@),
    ensures
        extends(final(nodes)@, old(nodes)@),
        i < final(nodes)@.len(),
        tree(final(nodes)@, i as int) == product_term(c.val(), u@, T::modulus()),
{
    let ghost start = nodes@;
    if c.eq(T::one()) {
        u.push_nodes(nodes)
    } else {
        let a = push_node(nodes, Node::Const(c));
        let ghost m1 = nodes@;
        let b = u.push_nodes(nodes);
        let ghost m2 = nodes@;
        let i = push_node(nodes, Node::Binary(BinaryOp::Mul, a, b));
        proof {
            lemma_extends_tree(m2, m1, a as int);
            assert(tree(nodes@, a as int) == tree(m2, a as int));
            assert(tree(nodes@, b as int) == tree(m2, b as int));
            lemma_extends_trans(m2, m1, start);
            lemma_extends_trans(nodes@, m2, start);
        }
        i
    }
}

impl<T: UniformNum> LUExpr<T> {
    /// Puts the nodes of the linear combination after `nodes`, and gives the index
    /// of its node.
    pub fn push_nodes(&self, nodes: &mut Vec<Node<T>>) -> (i: usize)
        requires
            nodes_ok(old(nodes)@),
        ensures
            extends(final(nodes)@, old(nodes)@),
            i < final(nodes)@.len(),
            tree(final(nodes)@, i as int) == linear_term(self@, T::modulus()),
    {
        let ghost md = T::modulus();
        let ghost start = nodes@;
        let z = self.without_zeros();
        let n: usize = z.0.len();
        // If the linear combination is empty, then it always evaluates to 0.
        if n == 0 {
            return push_node(nodes, Node::Const(T::zero()));
        }
        let mut e: usize = push_product(nodes, z.0[0].0, &z.0[0].1);
        let mut k: usize = 1;
        proof {
            assert(z@[0] == (z.0@[0].0.val(), z.0@[0].1@));
        }
        while k < n
            invariant
                1 <= k <= n,
                n == z@.len(),
                n == z.0@.len(),
                md == T::modulus(),
                extends(nodes@, start),
                e < nodes@.len(),
                tree(nodes@, e as int) == sum_term(z@, k as int, md),
            decreases n - k,
        {
            let ghost m0 = nodes@;
            let t = push_product(nodes, z.0[k].0, &z.0[k].1);
            let ghost m1 = nodes@;
            let i = push_node(nodes, Node::Binary(BinaryOp::Add, e, t));
            proof {
                assert(z@[k as int] == (z.0@[k as int].0.val(), z.0@[k as int].1@));
                lemma_extends_tree(m1, m0, e as int);
                assert(tree(nodes@, e as int) == tree(m1, e as int));
                assert(tree(nodes@, t as int) == tree(m1, t as int));
                lemma_extends_trans(m1, m0, start);
                lemma_extends_trans(nodes@, m1, start);
            }
            e = i;
            k += 1;
        }
        e
    }

    /// The linear combination as an expression.
    pub fn to_expr(&self) -> (e: Expr<T>)
        ensures
            e.wf(),
            e@ == linear_term(self@, T::modulus()),
    {
        let mut nodes: Vec<Node<T>> = Vec::new();
        let root = self.push_nodes(&mut nodes);
        Expr { nodes, root }
    }
}

} // verus!
