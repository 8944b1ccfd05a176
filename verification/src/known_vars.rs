//! The variables of an obfuscated expression: those of the expression, and those to
//! draw from. No placeholder is left.

use vstd::prelude::*;
use crate::numbers::{UnsignedInt, UniformNum};
use crate::expr::{Node, Term, BinaryOp, UnaryOp, tree, nodes_ok, node_ok};
use crate::uniform_expr::{UTerm, LUExpr, lu_has_var, nonzero_terms};
use crate::names::has_name;
use crate::placeholders::{
    Placeholder, sub_name, lookup, lemma_lookup_own, lemma_lookup_range, is_clean, is_reserved,
};
use crate::conversion::{uniform_term, product_term, sum_term, linear_term};
use crate::rewrite::lemma_nonzero_terms;
use crate::obfuscate::{
    uniform_form, term_form, linear_form, placeholder_for, nodes_of, filled, is_obfuscation,
    is_rewritten_form, is_form_of, is_multiplicative, is_known,
};

verus! {

/// Whether the variables of node `j` are variables of node `i`.
pub open spec fn within<T: UnsignedInt>(nodes: Seq<Node<T>>, j: int, i: int) -> bool {
    forall|n: Seq<char>| #[trigger]
        tree(nodes, j).vars().contains(n) ==> tree(nodes, i).vars().contains(n)
}

/// Whether the name is that of one of the first `len` placeholders.
pub open spec fn is_placeholder_name(n: Seq<char>, len: int) -> bool {
    exists|q: int| 0 <= q < len && n == #[trigger] sub_name(q)
}

/// Whether the nodes `s2` begin with the nodes `s`, and the others have variables of
/// node `i` only.
pub open spec fn grown<T: UnsignedInt>(
    s2: Seq<int>,
    s: Seq<int>,
    nodes: Seq<Node<T>>,
    i: int,
) -> bool {
    &&& s.len() <= s2.len()
    &&& forall|q: int| 0 <= q < s.len() ==> #[trigger] s2[q] == s[q]
    &&& forall|q: int| s.len() <= q < s2.len() ==> within(nodes, #[trigger] s2[q], i)
}

/// Whether each variable of the uniform expression is a variable of node `i` or has
/// the name of one of the first `len` placeholders.
pub open spec fn named_from<T: UnsignedInt>(
    u: UTerm,
    nodes: Seq<Node<T>>,
    i: int,
    len: int,
) -> bool {
    forall|n: Seq<char>| #[trigger]
        u.vars().contains(n) ==> tree(nodes, i).vars().contains(n) || is_placeholder_name(n, len)
}

/// Nodes that grow by variables of an operand grow by variables of the node.
pub proof fn lemma_grown_up<T: UnsignedInt>(
    s2: Seq<int>,
    s: Seq<int>,
    nodes: Seq<Node<T>>,
    j: int,
    i: int,
)
    requires
        grown(s2, s, nodes, j),
        within(nodes, j, i),
    ensures
        grown(s2, s, nodes, i),
{
    assert forall|q: int| s.len() <= q < s2.len() implies within(nodes, #[trigger] s2[q], i) by {
        assert(within(nodes, s2[q], j));
    }
}

/// Nodes that grow twice grow.
pub proof fn lemma_grown_twice<T: UnsignedInt>(
    s3: Seq<int>,
    s2: Seq<int>,
    s: Seq<int>,
    nodes: Seq<Node<T>>,
    i: int,
)
    requires
        grown(s3, s2, nodes, i),
        grown(s2, s, nodes, i),
    ensures
        grown(s3, s, nodes, i),
{
    assert forall|q: int| 0 <= q < s.len() implies #[trigger] s3[q] == s[q] by {
        assert(s3[q] == s2[q]);
        assert(s2[q] == s[q]);
    }
    assert forall|q: int| s.len() <= q < s3.len() implies within(nodes, #[trigger] s3[q], i) by {
        if q < s2.len() {
            assert(s3[q] == s2[q]);
            assert(within(nodes, s2[q], i));
        }
    }
}

/// A uniform expression named from an operand and fewer placeholders is named from
/// the node and more.
pub proof fn lemma_named_up<T: UnsignedInt>(
    u: UTerm,
    nodes: Seq<Node<T>>,
    j: int,
    i: int,
    len: int,
    more: int,
)
    requires
        named_from(u, nodes, j, len),
        within(nodes, j, i),
        len <= more,
    ensures
        named_from(u, nodes, i, more),
{
    assert forall|n: Seq<char>| #[trigger] u.vars().contains(n) implies tree(
        nodes,
        i,
    ).vars().contains(n) || is_placeholder_name(n, more) by {
        if !tree(nodes, j).vars().contains(n) {
            let q = choose|q: int| 0 <= q < len && n == #[trigger] sub_name(q);
            assert(0 <= q < more && n == sub_name(q));
        }
    }
}

/// The variable of a new placeholder has its name, and the node joins the others.
pub proof fn lemma_placeholder_vars<T: UnsignedInt>(nodes: Seq<Node<T>>, i: int, s: Seq<int>)
    ensures
        grown(placeholder_for(i, s).1, s, nodes, i),
        named_from(placeholder_for(i, s).0, nodes, i, placeholder_for(i, s).1.len() as int),
{
    let r = placeholder_for(i, s);
    assert(within(nodes, i, i));
    assert forall|n: Seq<char>| #[trigger] r.0.vars().contains(n) implies tree(
        nodes,
        i,
    ).vars().contains(n) || is_placeholder_name(n, r.1.len() as int) by {
        assert(n == sub_name(s.len() as int));
    }
}

/// The variables of the uniform form of a node are variables of the node or names
/// of placeholders, and the placeholders stand for nodes with variables of the
/// node only.
pub proof fn lemma_uniform_vars<T: UnsignedInt>(
    nodes: Seq<Node<T>>,
    counts: Seq<u8>,
    i: int,
    limit: int,
    s: Seq<int>,
)
    requires
        nodes_ok(nodes),
        0 <= i < nodes.len(),
    ensures
        grown(uniform_form(nodes, counts, i, limit, s).1, s, nodes, i),
        named_from(
            uniform_form(nodes, counts, i, limit, s).0,
            nodes,
            i,
            uniform_form(nodes, counts, i, limit, s).1.len() as int,
        ),
    decreases i,
{
    let res = uniform_form(nodes, counts, i, limit, s);
    lemma_placeholder_vars(nodes, i, s);
    assert(node_ok(nodes, i));
    if i < limit && counts[i] > 1 {
    } else {
        match nodes[i] {
            Node::Var(x) => {
                assert(tree(nodes, i) == Term::Var(x@));
            },
            Node::Binary(op, l, r) => {
                if op == BinaryOp::And || op == BinaryOp::Or || op == BinaryOp::Xor {
                    let a = uniform_form(nodes, counts, l as int, limit, s);
                    let b = uniform_form(nodes, counts, r as int, limit, a.1);
                    lemma_uniform_vars(nodes, counts, l as int, limit, s);
                    lemma_uniform_vars(nodes, counts, r as int, limit, a.1);
                    assert(tree(nodes, i) == Term::Binary(
                        op,
                        Box::new(tree(nodes, l as int)),
                        Box::new(tree(nodes, r as int)),
                    ));
                    assert(within(nodes, l as int, i));
                    assert(within(nodes, r as int, i));
                    lemma_grown_up(a.1, s, nodes, l as int, i);
                    lemma_grown_up(b.1, a.1, nodes, r as int, i);
                    lemma_grown_twice(b.1, a.1, s, nodes, i);
                    lemma_named_up(a.0, nodes, l as int, i, a.1.len() as int, b.1.len() as int);
                    lemma_named_up(b.0, nodes, r as int, i, b.1.len() as int, b.1.len() as int);
                    assert(res.1 == b.1);
                    assert forall|n: Seq<char>| #[trigger] res.0.vars().contains(n) implies tree(
                        nodes,
                        i,
                    ).vars().contains(n) || is_placeholder_name(n, res.1.len() as int) by {
                        assert(a.0.vars().contains(n) || b.0.vars().contains(n));
                    }
                }
            },
            Node::Unary(op, e) => {
                if op == UnaryOp::Not {
                    let a = uniform_form(nodes, counts, e as int, limit, s);
                    lemma_uniform_vars(nodes, counts, e as int, limit, s);
                    assert(tree(nodes, i) == Term::Unary(op, Box::new(tree(nodes, e as int))));
                    assert(within(nodes, e as int, i));
                    lemma_grown_up(a.1, s, nodes, e as int, i);
                    lemma_named_up(a.0, nodes, e as int, i, a.1.len() as int, a.1.len() as int);
                    assert forall|n: Seq<char>| #[trigger] res.0.vars().contains(n) implies tree(
                        nodes,
                        i,
                    ).vars().contains(n) || is_placeholder_name(n, res.1.len() as int) by {
                        assert(a.0.vars().contains(n));
                    }
                }
            },
            _ => {},
        }
    }
}

/// The variables of the term of a node are variables of the node or names of
/// placeholders, and the placeholders stand for nodes with variables of the node
/// only.
pub proof fn lemma_term_vars<T: UnsignedInt>(
    nodes: Seq<Node<T>>,
    counts: Seq<u8>,
    i: int,
    limit: int,
    s: Seq<int>,
    m: int,
)
    requires
        nodes_ok(nodes),
        0 <= i < nodes.len(),
    ensures
        grown(term_form(nodes, counts, i, limit, s, m).1, s, nodes, i),
        named_from(
            term_form(nodes, counts, i, limit, s, m).0.1,
            nodes,
            i,
            term_form(nodes, counts, i, limit, s, m).1.len() as int,
        ),
{
    let res = term_form(nodes, counts, i, limit, s, m);
    lemma_uniform_vars(nodes, counts, i, limit, s);
    assert(node_ok(nodes, i));
    match nodes[i] {
        Node::Binary(op, l, r) => {
            if op == BinaryOp::Mul {
                assert(tree(nodes, i) == Term::Binary(
                    op,
                    Box::new(tree(nodes, l as int)),
                    Box::new(tree(nodes, r as int)),
                ));
                assert(within(nodes, l as int, i));
                assert(within(nodes, r as int, i));
                match nodes[l as int] {
                    Node::Const(c) => {
                        let u = uniform_form(nodes, counts, r as int, limit, s);
                        lemma_uniform_vars(nodes, counts, r as int, limit, s);
                        lemma_grown_up(u.1, s, nodes, r as int, i);
                        lemma_named_up(u.0, nodes, r as int, i, u.1.len() as int, u.1.len() as int);
                    },
                    _ => match nodes[r as int] {
                        Node::Const(c) => {
                            let u = uniform_form(nodes, counts, l as int, limit, s);
                            lemma_uniform_vars(nodes, counts, l as int, limit, s);
                            lemma_grown_up(u.1, s, nodes, l as int, i);
                            lemma_named_up(
                                u.0,
                                nodes,
                                l as int,
                                i,
                                u.1.len() as int,
                                u.1.len() as int,
                            );
                        },
                        _ => {},
                    },
                }
            }
        },
        Node::Const(c) => {
            assert(grown(s, s, nodes, i));
        },
        _ => {},
    }
}

/// Whether each variable of the terms `lu2` is one of the terms `lu`, a variable of
/// node `i`, or has the name of one of the first `len` placeholders.
pub open spec fn terms_from<T: UnsignedInt>(
    lu2: Seq<(int, UTerm)>,
    lu: Seq<(int, UTerm)>,
    nodes: Seq<Node<T>>,
    i: int,
    len: int,
) -> bool {
    forall|n: Seq<char>| #[trigger]
        lu_has_var(lu2, n) ==> lu_has_var(lu, n) || tree(nodes, i).vars().contains(n)
            || is_placeholder_name(n, len)
}

/// The terms with one more, named from node `i`, are terms from node `i`.
pub proof fn lemma_terms_push<T: UnsignedInt>(
    lu: Seq<(int, UTerm)>,
    c: int,
    u: UTerm,
    nodes: Seq<Node<T>>,
    i: int,
    len: int,
)
    requires
        named_from(u, nodes, i, len),
    ensures
        terms_from(lu.push((c, u)), lu, nodes, i, len),
{
    let lu2 = lu.push((c, u));
    assert forall|n: Seq<char>| #[trigger] lu_has_var(lu2, n) implies lu_has_var(lu, n) || tree(
        nodes,
        i,
    ).vars().contains(n) || is_placeholder_name(n, len) by {
        let k = choose|k: int| 0 <= k < lu2.len() && (#[trigger] lu2[k]).1.vars().contains(n);
        if k < lu.len() {
            assert(lu[k].1.vars().contains(n));
        } else {
            assert(u.vars().contains(n));
        }
    }
}

/// The variables of the linear form of a node are variables of the node or names of
/// placeholders, and the placeholders stand for nodes with variables of the node
/// only.
pub proof fn lemma_linear_vars<T: UnsignedInt>(
    nodes: Seq<Node<T>>,
    counts: Seq<u8>,
    i: int,
    limit: int,
    sign: bool,
    lu: Seq<(int, UTerm)>,
    s: Seq<int>,
    m: int,
)
    requires
        nodes_ok(nodes),
        0 <= i < nodes.len(),
    ensures
        grown(linear_form(nodes, counts, i, limit, sign, lu, s, m).1, s, nodes, i),
        terms_from(
            linear_form(nodes, counts, i, limit, sign, lu, s, m).0,
            lu,
            nodes,
            i,
            linear_form(nodes, counts, i, limit, sign, lu, s, m).1.len() as int,
        ),
    decreases i,
{
    let res = linear_form(nodes, counts, i, limit, sign, lu, s, m);
    let t = term_form(nodes, counts, i, limit, s, m);
    let g = if sign {
        (0 - t.0.0) % m
    } else {
        t.0.0
    };
    lemma_term_vars(nodes, counts, i, limit, s, m);
    lemma_terms_push(lu, g, t.0.1, nodes, i, t.1.len() as int);
    assert(node_ok(nodes, i));
    match nodes[i] {
        Node::Binary(op, l, r) => {
            if op == BinaryOp::Add || op == BinaryOp::Sub {
                let a = linear_form(nodes, counts, l as int, limit, sign, lu, s, m);
                let sign2 = if op == BinaryOp::Add {
                    sign
                } else {
                    !sign
                };
                let b = linear_form(nodes, counts, r as int, limit, sign2, a.0, a.1, m);
                lemma_linear_vars(nodes, counts, l as int, limit, sign, lu, s, m);
                lemma_linear_vars(nodes, counts, r as int, limit, sign2, a.0, a.1, m);
                assert(tree(nodes, i) == Term::Binary(
                    op,
                    Box::new(tree(nodes, l as int)),
                    Box::new(tree(nodes, r as int)),
                ));
                assert(within(nodes, l as int, i));
                assert(within(nodes, r as int, i));
                lemma_grown_up(a.1, s, nodes, l as int, i);
                lemma_grown_up(b.1, a.1, nodes, r as int, i);
                lemma_grown_twice(b.1, a.1, s, nodes, i);
                assert(res == b);
                assert forall|n: Seq<char>| #[trigger] lu_has_var(res.0, n) implies lu_has_var(
                    lu,
                    n,
                ) || tree(nodes, i).vars().contains(n) || is_placeholder_name(
                    n,
                    res.1.len() as int,
                ) by {
                    if lu_has_var(a.0, n) {
                        if !lu_has_var(lu, n) && !tree(nodes, l as int).vars().contains(n) {
                            let q = choose|q: int| 0 <= q < a.1.len() && n == #[trigger] sub_name(q);
                            assert(0 <= q < b.1.len() && n == sub_name(q));
                        }
                    }
                }
            }
        },
        Node::Unary(op, e) => {
            if op == UnaryOp::Neg {
                let u = uniform_form(nodes, counts, e as int, limit, s);
                let f = if sign {
                    1int
                } else {
                    m - 1
                };
                lemma_uniform_vars(nodes, counts, e as int, limit, s);
                assert(tree(nodes, i) == Term::Unary(op, Box::new(tree(nodes, e as int))));
                assert(within(nodes, e as int, i));
                lemma_grown_up(u.1, s, nodes, e as int, i);
                lemma_named_up(u.0, nodes, e as int, i, u.1.len() as int, u.1.len() as int);
                lemma_terms_push(lu, f, u.0, nodes, i, u.1.len() as int);
            }
        },
        _ => {},
    }
}

/// A variable of an expression with expressions in the places of placeholders is
/// one of the expression that is no placeholder, or one of those expressions.
pub proof fn lemma_filled_vars(t: Term, subs: Seq<Placeholder>, trees: Seq<Term>, n: Seq<char>)
    requires
        trees.len() == subs.len(),
        filled(t, subs, trees).vars().contains(n),
    ensures
        (t.vars().contains(n) && lookup(subs, n, 0) < 0) || exists|k: int|
            0 <= k < trees.len() && (#[trigger] trees[k]).vars().contains(n),
    decreases t,
{
    match t {
        Term::Const(c) => {},
        Term::Var(x) => {
            lemma_lookup_range(subs, x, 0);
            if lookup(subs, x, 0) >= 0 {
                assert(trees[lookup(subs, x, 0)].vars().contains(n));
            }
        },
        Term::Binary(op, l, r) => {
            if filled(*l, subs, trees).vars().contains(n) {
                lemma_filled_vars(*l, subs, trees, n);
            } else {
                lemma_filled_vars(*r, subs, trees, n);
            }
        },
        Term::Unary(op, e) => {
            lemma_filled_vars(*e, subs, trees, n);
        },
    }
}

/// A uniform expression as an expression has its variables.
pub proof fn lemma_uniform_term_vars(u: UTerm, m: int)
    ensures
        uniform_term(u, m).vars() == u.vars(),
    decreases u,
{
    match u {
        UTerm::Not(e) => {
            lemma_uniform_term_vars(*e, m);
        },
        UTerm::And(l, r) => {
            lemma_uniform_term_vars(*l, m);
            lemma_uniform_term_vars(*r, m);
        },
        UTerm::Or(l, r) => {
            lemma_uniform_term_vars(*l, m);
            lemma_uniform_term_vars(*r, m);
        },
        UTerm::Xor(l, r) => {
            lemma_uniform_term_vars(*l, m);
            lemma_uniform_term_vars(*r, m);
        },
        _ => {},
    }
}

/// A variable of the sum of the first terms as an expression is one of the terms.
pub proof fn lemma_sum_term_vars(z: Seq<(int, UTerm)>, k: int, m: int, n: Seq<char>)
    requires
        1 <= k <= z.len(),
        sum_term(z, k, m).vars().contains(n),
    ensures
        lu_has_var(z, n),
    decreases k,
{
    if k > 1 && sum_term(z, k - 1, m).vars().contains(n) {
        lemma_sum_term_vars(z, k - 1, m, n);
    } else {
        let j = if k > 1 {
            k - 1
        } else {
            0
        };
        lemma_uniform_term_vars(z[j].1, m);
        assert(product_term(z[j].0, z[j].1, m).vars().contains(n));
        if z[j].0 != 1 {
            assert(Term::Const(z[j].0).vars() =~= Set::<Seq<char>>::empty());
            assert(product_term(z[j].0, z[j].1, m).vars() == Term::Const(z[j].0).vars().union(
                uniform_term(z[j].1, m).vars(),
            ));
        }
        assert(uniform_term(z[j].1, m).vars().contains(n));
        assert(z[j].1.vars().contains(n));
    }
}

/// A variable of a linear combination as an expression is one of its terms.
pub proof fn lemma_linear_term_vars(x: Seq<(int, UTerm)>, m: int, n: Seq<char>)
    requires
        linear_term(x, m).vars().contains(n),
    ensures
        lu_has_var(x, n),
{
    let z = nonzero_terms(x);
    lemma_nonzero_terms(x);
    if z.len() > 0 {
        lemma_sum_term_vars(z, z.len() as int, m, n);
    }
}

/// Every variable of an obfuscated form of a node is a variable of the node or one
/// of the names to draw from: no variable of a placeholder is left.
pub proof fn lemma_obfuscation_vars<T: UniformNum>(
    t: Term,
    nodes: Seq<Node<T>>,
    counts: Seq<u8>,
    i: int,
    vars: Seq<String>,
    depth: int,
    count: int,
    n: Seq<char>,
)
    requires
        nodes_ok(nodes),
        is_obfuscation(t, nodes, counts, i, vars, depth, count),
        t.vars().contains(n),
    ensures
        has_name(vars, n) || tree(nodes, i).vars().contains(n),
    decreases i,
{
    assert(node_ok(nodes, i));
    if is_multiplicative(nodes[i]) {
        match nodes[i] {
            Node::Binary(op, a, b) => match t {
                Term::Binary(o, l, r) => {
                    assert(tree(nodes, i) == Term::Binary(
                        op,
                        Box::new(tree(nodes, a as int)),
                        Box::new(tree(nodes, b as int)),
                    ));
                    if l.vars().contains(n) {
                        lemma_obfuscation_vars(*l, nodes, counts, a as int, vars, depth, count, n);
                    } else {
                        lemma_obfuscation_vars(*r, nodes, counts, b as int, vars, depth, count, n);
                    }
                },
                _ => {},
            },
            _ => {},
        }
    } else {
        let (lu, subs, x, trees) = choose|
            lu: LUExpr<T>,
            subs: Seq<Placeholder>,
            x: Seq<(int, UTerm)>,
            trees: Seq<Term>,
        |
            #[trigger] is_rewritten_form(
                t,
                &lu,
                subs,
                x,
                trees,
                nodes,
                counts,
                i,
                vars,
                depth,
                count,
            ) && forall|k: int|
                0 <= k < subs.len() ==> subs[k].node < i && is_obfuscation(
                    #[trigger] trees[k],
                    nodes,
                    counts,
                    subs[k].node as int,
                    vars,
                    depth,
                    count,
                );
        let m = T::modulus();
        let e: Seq<(int, UTerm)> = Seq::empty();
        let s: Seq<int> = Seq::empty();
        lemma_linear_vars(nodes, counts, i, i, false, e, s, m);
        assert(is_form_of(&lu, subs, nodes, counts, i));
        lemma_filled_vars(linear_term(x, m), subs, trees, n);
        if linear_term(x, m).vars().contains(n) && lookup(subs, n, 0) < 0 {
            lemma_linear_term_vars(x, m, n);
            assert(is_known(n, vars, lu@));
            if !has_name(vars, n) {
                assert(lu_has_var(lu@, n));
                assert(!lu_has_var(e, n));
                if !tree(nodes, i).vars().contains(n) {
                    let q = choose|q: int| 0 <= q < subs.len() && n == #[trigger] sub_name(q);
                    lemma_lookup_own(subs, q, 0);
                }
            }
        } else {
            let k = choose|k: int| 0 <= k < trees.len() && (#[trigger] trees[k]).vars().contains(n);
            assert(is_obfuscation(trees[k], nodes, counts, subs[k].node as int, vars, depth, count));
            lemma_obfuscation_vars(
                trees[k],
                nodes,
                counts,
                subs[k].node as int,
                vars,
                depth,
                count,
                n,
            );
            assert(nodes_of(subs)[k] == subs[k].node);
            assert(within(nodes, nodes_of(subs)[k], i));
        }
    }
}

/// Whether each variable of the expression `t` is one of the names `vars` or a
/// variable of the expression `e`.
pub open spec fn has_vars_of(t: Term, vars: Seq<String>, e: Term) -> bool {
    forall|n: Seq<char>| #[trigger] t.vars().contains(n) ==> has_name(vars, n) || e.vars().contains(n)
}

/// An obfuscated form of a node has variables of the node and of the names to draw
/// from only.
pub proof fn lemma_obfuscation_known<T: UniformNum>(
    t: Term,
    nodes: Seq<Node<T>>,
    counts: Seq<u8>,
    i: int,
    vars: Seq<String>,
    depth: int,
    count: int,
)
    requires
        nodes_ok(nodes),
        is_obfuscation(t, nodes, counts, i, vars, depth, count),
    ensures
        has_vars_of(t, vars, tree(nodes, i)),
{
    assert forall|n: Seq<char>| #[trigger] t.vars().contains(n) implies has_name(vars, n) || tree(
        nodes,
        i,
    ).vars().contains(n) by {
        lemma_obfuscation_vars(t, nodes, counts, i, vars, depth, count, n);
    }
}

/// A variable of a node of nodes without a name that begins with an underscore begins
/// with none.
pub proof fn lemma_clean_vars<T: UnsignedInt>(nodes: Seq<Node<T>>, i: int, n: Seq<char>)
    requires
        is_clean(nodes),
        tree(nodes, i).vars().contains(n),
    ensures
        !is_reserved(n),
    decreases i,
{
    if 0 <= i < nodes.len() {
        match nodes[i] {
            Node::Binary(op, l, r) => {
                if l < i && r < i {
                    if tree(nodes, l as int).vars().contains(n) {
                        lemma_clean_vars(nodes, l as int, n);
                    } else {
                        lemma_clean_vars(nodes, r as int, n);
                    }
                }
            },
            Node::Unary(op, e) => {
                if e < i {
                    lemma_clean_vars(nodes, e as int, n);
                }
            },
            _ => {},
        }
    }
}

/// Whether no name of the list begins with an underscore.
pub open spec fn no_reserved(vars: Seq<String>) -> bool {
    forall|k: int| 0 <= k < vars.len() ==> !is_reserved(#[trigger] vars[k]@)
}

/// Whether no variable of the expression has a name that begins with an underscore.
pub open spec fn is_plain(t: Term) -> bool {
    forall|n: Seq<char>| #[trigger] t.vars().contains(n) ==> !is_reserved(n)
}

/// An obfuscated form of a node has no variable whose name begins with an
/// underscore, as the names of the placeholders do, where neither the nodes nor the
/// names to draw from have one.
pub proof fn lemma_obfuscation_plain<T: UniformNum>(
    t: Term,
    nodes: Seq<Node<T>>,
    counts: Seq<u8>,
    i: int,
    vars: Seq<String>,
    depth: int,
    count: int,
)
    requires
        nodes_ok(nodes),
        is_clean(nodes),
        no_reserved(vars),
        is_obfuscation(t, nodes, counts, i, vars, depth, count),
    ensures
        is_plain(t),
{
    assert forall|n: Seq<char>| #[trigger] t.vars().contains(n) implies !is_reserved(n) by {
        lemma_obfuscation_vars(t, nodes, counts, i, vars, depth, count, n);
        if tree(nodes, i).vars().contains(n) {
            lemma_clean_vars(nodes, i, n);
        } else {
            let k = choose|k: int| 0 <= k < vars.len() && #[trigger] vars[k]@ == n;
            assert(!is_reserved(vars[k]@));
        }
    }
}

} // verus!
