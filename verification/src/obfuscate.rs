//! The obfuscation of expressions: each part of an expression that is a linear
//! combination of uniform expressions is rewritten as a linear combination of random
//! uniform expressions.

use vstd::prelude::*;
use vstd::string::StringExecFns;
use crate::numbers::{UnsignedInt, UniformNum};
use crate::names::{has_name, contains_name, sorted_names};
use crate::text::{push_decimal, decimal};
use crate::uniform_expr::{UExpr, UTerm, LUExpr, lu_has_var};
use crate::expr::{Expr, Node, Term, BinaryOp, UnaryOp, tree, nodes_ok, node_ok};
use crate::expr_parser::{
    extends, push_node, lemma_extends_trans, lemma_extends_tree, parse_expr, Parsed, ExprError,
};
use crate::expr_printer::{is_function_of, capped, uses_above};
use crate::known_vars::{
    has_vars_of, is_plain, no_reserved, lemma_obfuscation_known, lemma_obfuscation_plain,
};
use crate::conversion::{uniform_term, product_term, sum_term, linear_term};
use vstd::string::StringExecFnsIsAscii;
use crate::rewrite::{
    rewrite, agrees_on_booleans, rewrites, views, all_vars, too_large, is_rewrite,
};
use crate::pointwise::agrees;
use crate::random::random_usize;
use crate::placeholders::{
    Placeholder, placeholders_below, new_placeholder, find_placeholder, well_named, begins_with,
    lookup, sub_name, is_reserved, lemma_lookup_own, lemma_lookup_other, lemma_lookup_range,
    with_values, sub_values, mapped_values, extended, is_clean,
};
use crate::semantics::{binary_value, same_value, lemma_value_in_ring};
use crate::pointwise::in_ring;
use crate::modular::{
    cong, sum, lemma_cong_ops, lemma_cong_mod, lemma_mod_small, lemma_cong_add_multiple,
};
use crate::uniform_expr::{lu_sum, lu_eval, lu_terms, lemma_lu_sum_push, lemma_lu_sum_nonzero, nonzero_terms};
use crate::printer::Printer;
use crate::parser::parse_linear;
use crate::text::stripped;

verus! {

/// How often a rewrite is tried with new random operations.
pub const REWRITE_TRIES: usize = 128;

/// Whether the uniform expression has variables of `vars` only, and no `Ones`.
pub open spec fn drawn_from(u: UTerm, vars: Seq<String>) -> bool
    decreases u,
{
    match u {
        UTerm::Ones => false,
        UTerm::Var(n) => has_name(vars, n),
        UTerm::Not(e) => drawn_from(*e, vars),
        UTerm::And(l, r) => drawn_from(*l, vars) && drawn_from(*r, vars),
        UTerm::Or(l, r) => drawn_from(*l, vars) && drawn_from(*r, vars),
        UTerm::Xor(l, r) => drawn_from(*l, vars) && drawn_from(*r, vars),
    }
}

/// How deep the operators of the uniform expression are nested.
pub open spec fn depth_of(u: UTerm) -> nat
    decreases u,
{
    match u {
        UTerm::Ones => 0,
        UTerm::Var(_) => 0,
        UTerm::Not(e) => 1 + depth_of(*e),
        UTerm::And(l, r) => 1 + vstd::math::max(depth_of(*l) as int, depth_of(*r) as int) as nat,
        UTerm::Or(l, r) => 1 + vstd::math::max(depth_of(*l) as int, depth_of(*r) as int) as nat,
        UTerm::Xor(l, r) => 1 + vstd::math::max(depth_of(*l) as int, depth_of(*r) as int) as nat,
    }
}

/// The variable of the list that the number `k` picks: the one at the index that
/// is the remainder of `k` by the number of variables.
pub fn var_with(k: usize, vars: &Vec<String>) -> (u: UExpr)
    requires
        vars@.len() > 0,
    ensures
        u@ == UTerm::Var(vars@[(k as int) % (vars@.len() as int)]@),
        drawn_from(u@, vars@),
{
    let i: usize = k % vars.len();
    let u = UExpr::Var(vars[i].clone());
    assert(vars@[i as int]@ == u@->Var_0);
    u
}

/// A random variable of the list.
pub fn random_var(vars: &Vec<String>) -> (u: UExpr)
    requires
        vars@.len() > 0,
    ensures
        drawn_from(u@, vars@),
        u@ is Var,
{
    var_with(random_usize(), vars)
}

/// Whether the uniform expression is of the form that the number `choice` picks: by
/// its remainder by five a variable, a negation, a conjunction, a disjunction or an
/// exclusive disjunction.
pub open spec fn is_choice(u: UTerm, choice: int) -> bool {
    if choice % 5 == 0 {
        u is Var
    } else if choice % 5 == 1 {
        u is Not
    } else if choice % 5 == 2 {
        u is And
    } else if choice % 5 == 3 {
        u is Or
    } else {
        u is Xor
    }
}

/// Whether the operands of the uniform expression are over the variables, with
/// operators nested to the depth `depth` at most.
pub open spec fn has_drawn_operands(u: UTerm, vars: Seq<String>, depth: int) -> bool {
    match u {
        UTerm::Not(e) => drawn_from(*e, vars) && depth_of(*e) <= depth,
        UTerm::And(l, r) => drawn_from(*l, vars) && depth_of(*l) <= depth && drawn_from(*r, vars)
            && depth_of(*r) <= depth,
        UTerm::Or(l, r) => drawn_from(*l, vars) && depth_of(*l) <= depth && drawn_from(*r, vars)
            && depth_of(*r) <= depth,
        UTerm::Xor(l, r) => drawn_from(*l, vars) && depth_of(*l) <= depth && drawn_from(*r, vars)
            && depth_of(*r) <= depth,
        _ => true,
    }
}

/// The uniform expression of the form that the number `choice` picks, over random
/// uniform expressions of a depth below `max_depth`; a random variable where
/// `max_depth` is zero.
pub fn bool_expr_with(choice: usize, vars: &Vec<String>, max_depth: u8) -> (u: UExpr)
    requires
        vars@.len() > 0,
    ensures
        drawn_from(u@, vars@),
        depth_of(u@) <= max_depth,
        max_depth == 0 ==> u@ is Var,
        max_depth > 0 ==> is_choice(u@, choice as int) && has_drawn_operands(
            u@,
            vars@,
            max_depth - 1,
        ),
    decreases max_depth, 0int,
{
    if max_depth == 0 {
        return random_var(vars);
    }
    let d: u8 = max_depth - 1;
    let form: usize = choice % 5;
    if form == 0 {
        random_var(vars)
    } else if form == 1 {
        UExpr::Not(Box::new(random_bool_expr(vars, d)))
    } else if form == 2 {
        UExpr::And(Box::new(random_bool_expr(vars, d)), Box::new(random_bool_expr(vars, d)))
    } else if form == 3 {
        UExpr::Or(Box::new(random_bool_expr(vars, d)), Box::new(random_bool_expr(vars, d)))
    } else {
        UExpr::Xor(Box::new(random_bool_expr(vars, d)), Box::new(random_bool_expr(vars, d)))
    }
}

/// A random uniform expression over the variables, with operators nested to the
/// depth `max_depth` at most. It is a variable, a negation, a conjunction, a
/// disjunction or an exclusive disjunction, each as likely as the others; `Ones`
/// never stands in it.
pub fn random_bool_expr(vars: &Vec<String>, max_depth: u8) -> (u: UExpr)
    requires
        vars@.len() > 0,
    ensures
        drawn_from(u@, vars@),
        depth_of(u@) <= max_depth,
    decreases max_depth, 1int,
{
    if max_depth == 0 {
        return random_var(vars);
    }
    // Generate one of the five variants uniformly at random.
    bool_expr_with(random_usize(), vars, max_depth)
}

/// The variables of a uniform expression that is drawn from a list are names of the
/// list.
pub proof fn lemma_drawn_vars(u: UTerm, vars: Seq<String>, n: Seq<char>)
    requires
        drawn_from(u, vars),
        u.vars().contains(n),
    ensures
        has_name(vars, n),
    decreases u,
{
    match u {
        UTerm::Not(e) => {
            lemma_drawn_vars(*e, vars, n);
        },
        UTerm::And(l, r) => {
            if l.vars().contains(n) {
                lemma_drawn_vars(*l, vars, n);
            } else {
                lemma_drawn_vars(*r, vars, n);
            }
        },
        UTerm::Or(l, r) => {
            if l.vars().contains(n) {
                lemma_drawn_vars(*l, vars, n);
            } else {
                lemma_drawn_vars(*r, vars, n);
            }
        },
        UTerm::Xor(l, r) => {
            if l.vars().contains(n) {
                lemma_drawn_vars(*l, vars, n);
            } else {
                lemma_drawn_vars(*r, vars, n);
            }
        },
        _ => {},
    }
}

/// Whether the name is one of `vars`, or that of a variable of `e`.
pub open spec fn is_known(n: Seq<char>, vars: Seq<String>, e: Seq<(int, UTerm)>) -> bool {
    has_name(vars, n) || lu_has_var(e, n)
}

/// Whether the variables of the uniform expression are names of `vars`, or variables
/// of `e`.
pub open spec fn has_known_vars(u: UTerm, vars: Seq<String>, e: Seq<(int, UTerm)>) -> bool {
    forall|n: Seq<char>| u.vars().contains(n) ==> #[trigger] is_known(n, vars, e)
}

/// Whether the operations are `count` uniform expressions, each once, of the depth
/// `depth` at most, over the variables `vars` and those of `e`.
pub open spec fn is_bank<T: UniformNum>(
    ops: Seq<LUExpr<T>>,
    vars: Seq<String>,
    e: Seq<(int, UTerm)>,
    depth: int,
    count: int,
) -> bool {
    &&& ops.len() == count
    &&& forall|i: int|
        0 <= i < ops.len() ==> {
            &&& (#[trigger] ops[i])@.len() == 1
            &&& ops[i]@[0].0 == 1
            &&& depth_of(ops[i]@[0].1) <= depth
            &&& has_known_vars(ops[i]@[0].1, vars, e)
        }
}

/// Whether the linear combination cannot be rewritten with the operations: their
/// truth table is too large for this machine, or no combination of the operations
/// has its values on the truth table.
pub open spec fn cannot_rewrite<T: UniformNum>(e: &LUExpr<T>, ops: Seq<LUExpr<T>>) -> bool {
    too_large(all_vars(e, ops).len(), ops.len()) || forall|x: Seq<int>|
        x.len() == ops.len() ==> !#[trigger] rewrites(x, views(ops), e@, T::modulus())
}

/// Whether a bank of operations, as they are drawn for `e`, cannot be combined to
/// `e`.
pub open spec fn has_failing_bank<T: UniformNum>(
    e: &LUExpr<T>,
    vars: Seq<String>,
    depth: int,
    count: int,
) -> bool {
    exists|ops: Seq<LUExpr<T>>| is_bank(ops, vars, e@, depth, count) && #[trigger] cannot_rewrite(e, ops)
}

/// Whether `x` is a combination of a bank of operations, as they are drawn for `e`,
/// that has the value of `e` under every valuation that is boolean.
pub open spec fn is_drawn_rewrite<T: UniformNum>(
    x: Seq<(int, UTerm)>,
    e: Seq<(int, UTerm)>,
    vars: Seq<String>,
    depth: int,
    count: int,
) -> bool {
    exists|ops: Seq<LUExpr<T>>|
        is_bank(ops, vars, e, depth, count) && #[trigger] is_rewrite(
            x,
            e,
            views(ops),
            T::modulus(),
        )
}

/// Whether a rewrite of `e` fails for want of a variable or of operations, or can
/// fail: there is a bank of operations, as they are drawn for `e`, that cannot be
/// combined to `e`.
pub open spec fn can_fail<T: UniformNum>(
    e: &LUExpr<T>,
    vars: Seq<String>,
    depth: int,
    count: int,
) -> bool {
    ||| vars.len() == 0 && (forall|n: Seq<char>| !lu_has_var(e@, n))
    ||| count == 0
    ||| has_failing_bank(e, vars, depth, count)
}

/// Rewrites the linear combination as a linear combination of `count` random
/// uniform expressions, of the depth `depth` at most, over the variables `vars` and
/// its own: the first that `REWRITE_TRIES` draws of random expressions give. The
/// result has the value of the linear combination under every valuation, no term
/// with the coefficient zero, and no variable but those of `vars` and of the linear
/// combination. The result is `None` where there is no variable, where `count` is
/// zero, and where none of the draws can be combined to the linear combination.
pub fn rewrite_random<T: UniformNum>(e: &LUExpr<T>, vars: &Vec<String>, depth: u8, count: usize) -> (r:
    Option<LUExpr<T>>)
    ensures
        r matches Some(x) ==> {
            &&& is_drawn_rewrite::<T>(x@, e@, vars@, depth as int, count as int)
            &&& agrees_on_booleans(x@, e@, T::modulus())
            &&& agrees(x@, e@, T::modulus())
            &&& forall|i: int| 0 <= i < x@.len() ==> (#[trigger] x@[i]).0 != 0
            &&& forall|n: Seq<char>| lu_has_var(x@, n) ==> #[trigger] is_known(n, vars@, e@)
        },
        vars@.len() == 0 && (forall|n: Seq<char>| !lu_has_var(e@, n)) ==> r is None,
        count == 0 ==> r is None,
        r is None ==> can_fail(e, vars@, depth as int, count as int),
{
    let mut all: Vec<String> = Vec::new();
    let mut k: usize = 0;
    while k < vars.len()
        invariant
            k <= vars@.len(),
            all@.len() == k,
            forall|n: Seq<char>| has_name(all@, n) ==> #[trigger] is_known(n, vars@, e@),
        decreases vars@.len() - k,
    {
        let ghost before = all@;
        all.push(vars[k].clone());
        proof {
            assert forall|n: Seq<char>| has_name(all@, n) implies #[trigger] is_known(
                n,
                vars@,
                e@,
            ) by {
                let i = choose|i: int| 0 <= i < all@.len() && #[trigger] all@[i]@ == n;
                if i < k {
                    assert(before[i]@ == n);
                    assert(has_name(before, n));
                } else {
                    assert(vars@[k as int]@ == n);
                }
            }
        }
        k += 1;
    }
    let own = e.vars();
    let mut k: usize = 0;
    while k < own.len()
        invariant
            k <= own@.len(),
            vars@.len() <= all@.len() <= vars@.len() + k,
            k > 0 ==> all@.len() > 0,
            forall|n: Seq<char>| has_name(own@, n) <==> lu_has_var(e@, n),
            forall|n: Seq<char>| has_name(all@, n) ==> #[trigger] is_known(n, vars@, e@),
        decreases own@.len() - k,
    {
        if !contains_name(&all, own[k].as_str()) {
            let ghost before = all@;
            all.push(own[k].clone());
            proof {
                assert forall|n: Seq<char>| has_name(all@, n) implies #[trigger] is_known(
                    n,
                    vars@,
                    e@,
                ) by {
                    let i = choose|i: int| 0 <= i < all@.len() && #[trigger] all@[i]@ == n;
                    if i < before.len() {
                        assert(before[i]@ == n);
                        assert(has_name(before, n));
                    } else {
                        assert(own@[k as int]@ == n);
                        assert(has_name(own@, n));
                    }
                }
            }
        }
        k += 1;
    }
    proof {
        if own@.len() > 0 {
            assert(has_name(own@, own@[0]@));
        }
    }
    if all.len() == 0 {
        proof {
            assert forall|n: Seq<char>| !lu_has_var(e@, n) by {
                if lu_has_var(e@, n) {
                    assert(has_name(own@, n));
                }
            }
        }
        return None;
    }
    let ghost bare = vars@.len() == 0 && (forall|n: Seq<char>| !lu_has_var(e@, n));
    proof {
        if bare && own@.len() > 0 {
            assert(lu_has_var(e@, own@[0]@));
        }
    }
    let mut tries: usize = 0;
    while tries < REWRITE_TRIES
        invariant
            tries > 0 ==> count == 0 || has_failing_bank(e, vars@, depth as int, count as int),
            all@.len() > 0,
            !bare,
            bare == (vars@.len() == 0 && (forall|n: Seq<char>| !lu_has_var(e@, n))),
            forall|n: Seq<char>| has_name(all@, n) ==> #[trigger] is_known(n, vars@, e@),
        decreases REWRITE_TRIES - tries,
    {
        let mut ops: Vec<LUExpr<T>> = Vec::new();
        let mut j: usize = 0;
        while j < count
            invariant
                all@.len() > 0,
                j <= count,
                ops@.len() == j,
                forall|i: int|
                    0 <= i < ops@.len() ==> (#[trigger] ops@[i])@.len() == 1 && ops@[i]@[0].0 == 1
                        && depth_of(ops@[i]@[0].1) <= depth && drawn_from(ops@[i]@[0].1, all@),
            decreases count - j,
        {
            let ghost before = ops@;
            ops.push(LUExpr::from_uexpr(random_bool_expr(&all, depth)));
            proof {
                assert forall|i: int| 0 <= i < ops@.len() implies (#[trigger] ops@[i])@.len() == 1
                    && ops@[i]@[0].0 == 1 && depth_of(ops@[i]@[0].1) <= depth && drawn_from(
                    ops@[i]@[0].1,
                    all@,
                ) by {
                    if i < j {
                        assert(ops@[i] == before[i]);
                    }
                }
            }
            j += 1;
        }
        proof {
            assert forall|i: int| 0 <= i < ops@.len() implies has_known_vars(
                (#[trigger] ops@[i])@[0].1,
                vars@,
                e@,
            ) by {
                let u = ops@[i]@[0].1;
                assert forall|n: Seq<char>| u.vars().contains(n) implies #[trigger] is_known(
                    n,
                    vars@,
                    e@,
                ) by {
                    lemma_drawn_vars(u, all@, n);
                }
            }
            assert(is_bank(ops@, vars@, e@, depth as int, count as int));
        }
        match rewrite(e, ops.as_slice(), true) {
            Some(r) => {
                proof {
                    assert(is_rewrite(r@, e@, views(ops@), T::modulus()));
                    assert forall|n: Seq<char>| lu_has_var(r@, n) implies #[trigger] is_known(
                        n,
                        vars@,
                        e@,
                    ) by {
                        let i = choose|i: int|
                            0 <= i < ops@.len() && #[trigger] lu_has_var(ops@[i]@, n);
                        let t = ops@[i]@;
                        let q = choose|q: int| 0 <= q < t.len() && (#[trigger] t[q]).1.vars().contains(n);
                        lemma_drawn_vars(t[0].1, all@, n);
                    }
                }
                return Some(r);
            },
            None => {
                proof {
                    if count > 0 {
                        assert forall|i: int| 0 <= i < ops@.len() implies has_known_vars(
                            (#[trigger] ops@[i])@[0].1,
                            vars@,
                            e@,
                        ) by {
                            let u = ops@[i]@[0].1;
                            assert forall|n: Seq<char>| u.vars().contains(n) implies #[trigger] is_known(
                                n,
                                vars@,
                                e@,
                            ) by {
                                lemma_drawn_vars(u, all@, n);
                            }
                        }
                        assert(is_bank(ops@, vars@, e@, depth as int, count as int));
                        assert(cannot_rewrite(e, ops@));
                    }
                }
            },
        }
        tries += 1;
    }
    None
}

/// Whether the node is a variable or a bitwise operation.
pub open spec fn is_uniform_node<T>(n: Node<T>) -> bool {
    match n {
        Node::Var(_) => true,
        Node::Unary(op, _) => op == UnaryOp::Not,
        Node::Binary(op, _, _) => op == BinaryOp::And || op == BinaryOp::Or || op == BinaryOp::Xor,
        _ => false,
    }
}

/// Whether the uniform expression `u` has the value of the expression of node `i`,
/// where the placeholders `full` have the values of what they stand for.
pub open spec fn uniform_of<T: UnsignedInt>(
    u: UTerm,
    nodes: Seq<Node<T>>,
    i: int,
    full: Seq<Placeholder>,
    v: spec_fn(Seq<char>) -> int,
    m: int,
) -> bool {
    u.eval(extended(nodes, full, v, m), m) == tree(nodes, i).value(v, m)
}

/// Placeholders that begin with placeholders that begin with others begin with
/// these.
pub proof fn lemma_begins_trans(a: Seq<Placeholder>, b: Seq<Placeholder>, c: Seq<Placeholder>)
    requires
        begins_with(a, b),
        begins_with(b, c),
    ensures
        begins_with(a, c),
{
    assert forall|k: int| 0 <= k < c.len() implies #[trigger] a[k] == c[k] by {
        assert(b[k] == c[k]);
        assert(a[k] == b[k]);
    }
}

/// The new placeholder stands for its node.
pub proof fn lemma_new_placeholder<T: UnsignedInt>(
    nodes: Seq<Node<T>>,
    i: int,
    subs: Seq<Placeholder>,
    full: Seq<Placeholder>,
    v: spec_fn(Seq<char>) -> int,
    m: int,
)
    requires
        subs.len() > 0,
        subs.last().node == i,
        begins_with(full, subs),
        well_named(full),
    ensures
        uniform_of(UTerm::Var(sub_name(subs.len() - 1)), nodes, i, full, v, m),
{
    let k = subs.len() - 1;
    lemma_lookup_own(full, k, 0);
    assert(full[k] == subs[k]);
}

/// A variable whose name begins with no underscore stands for itself.
pub proof fn lemma_own_variable<T: UnsignedInt>(
    nodes: Seq<Node<T>>,
    name: Seq<char>,
    full: Seq<Placeholder>,
    v: spec_fn(Seq<char>) -> int,
    m: int,
)
    requires
        !is_reserved(name),
        well_named(full),
    ensures
        extended(nodes, full, v, m)(name) == v(name),
{
    lemma_lookup_other(full, name, 0);
}

/// For each node, how often it is an operand of a node that the root reaches: two
/// for more than once.
pub open spec fn counts_of<T>(nodes: Seq<Node<T>>, root: int) -> Seq<u8> {
    Seq::new(nodes.len(), |j: int| capped(uses_above(nodes, root, j, j + 1)) as u8)
}

/// The nodes that the placeholders stand for.
pub open spec fn nodes_of(subs: Seq<Placeholder>) -> Seq<int> {
    Seq::new(subs.len(), |k: int| subs[k].node as int)
}

/// The variable of a new placeholder for node `i`, after the placeholders for the
/// nodes `subs`, with these and node `i`.
pub open spec fn placeholder_for(i: int, subs: Seq<int>) -> (UTerm, Seq<int>) {
    (UTerm::Var(sub_name(subs.len() as int)), subs.push(i))
}

/// The expression of node `i` as a uniform expression, and the nodes that
/// placeholders stand for, after those for the nodes `subs`: a variable is itself, a
/// bitwise operation is that operation on its operands, the left first, and every
/// other node, and every node below node `limit` that is an operand more than once,
/// is the variable of a new placeholder.
pub open spec fn uniform_form<T: UnsignedInt>(
    nodes: Seq<Node<T>>,
    counts: Seq<u8>,
    i: int,
    limit: int,
    subs: Seq<int>,
) -> (UTerm, Seq<int>)
    decreases i,
{
    if i < 0 || i >= nodes.len() {
        (UTerm::Ones, subs)
    } else if i < limit && counts[i] > 1 {
        placeholder_for(i, subs)
    } else {
        match nodes[i] {
            Node::Var(x) => (UTerm::Var(x@), subs),
            Node::Binary(op, l, r) => if l < i && r < i && (op == BinaryOp::And || op
                == BinaryOp::Or || op == BinaryOp::Xor) {
                let a = uniform_form(nodes, counts, l as int, limit, subs);
                let b = uniform_form(nodes, counts, r as int, limit, a.1);
                (
                    if op == BinaryOp::And {
                        UTerm::And(Box::new(a.0), Box::new(b.0))
                    } else if op == BinaryOp::Or {
                        UTerm::Or(Box::new(a.0), Box::new(b.0))
                    } else {
                        UTerm::Xor(Box::new(a.0), Box::new(b.0))
                    },
                    b.1,
                )
            } else {
                placeholder_for(i, subs)
            },
            Node::Unary(op, e) => if e < i && op == UnaryOp::Not {
                let a = uniform_form(nodes, counts, e as int, limit, subs);
                (UTerm::Not(Box::new(a.0)), a.1)
            } else {
                placeholder_for(i, subs)
            },
            _ => placeholder_for(i, subs),
        }
    }
}

/// The expression of node `i` as a term of a linear combination over the ring of `m`
/// elements, and the nodes that placeholders stand for: the product of a constant
/// and another node is the constant times the uniform form of that node, a constant
/// is its negative times all ones, and every other node is one times its uniform
/// form.
pub open spec fn term_form<T: UnsignedInt>(
    nodes: Seq<Node<T>>,
    counts: Seq<u8>,
    i: int,
    limit: int,
    subs: Seq<int>,
    m: int,
) -> ((int, UTerm), Seq<int>) {
    let whole = uniform_form(nodes, counts, i, limit, subs);
    match nodes[i] {
        Node::Binary(op, l, r) => if op == BinaryOp::Mul {
            match nodes[l as int] {
                Node::Const(c) => {
                    let u = uniform_form(nodes, counts, r as int, limit, subs);
                    ((c.val(), u.0), u.1)
                },
                _ => match nodes[r as int] {
                    Node::Const(c) => {
                        let u = uniform_form(nodes, counts, l as int, limit, subs);
                        ((c.val(), u.0), u.1)
                    },
                    _ => ((1, whole.0), whole.1),
                },
            }
        } else {
            ((1, whole.0), whole.1)
        },
        Node::Const(c) => (((0 - c.val()) % m, UTerm::Ones), subs),
        _ => ((1, whole.0), whole.1),
    }
}

/// The terms `lu` and after them those of the expression of node `i` as a linear
/// combination over the ring of `m` elements, negated where `sign` is set, and the
/// nodes that placeholders stand for: the operands of a sum and of a difference give
/// their terms, the left first, a negation gives its operand in uniform form as one
/// term, and every other node gives its term.
pub open spec fn linear_form<T: UnsignedInt>(
    nodes: Seq<Node<T>>,
    counts: Seq<u8>,
    i: int,
    limit: int,
    sign: bool,
    lu: Seq<(int, UTerm)>,
    subs: Seq<int>,
    m: int,
) -> (Seq<(int, UTerm)>, Seq<int>)
    decreases i,
{
    let t = term_form(nodes, counts, i, limit, subs, m);
    let own = (
        lu.push(
            (
                if sign {
                    (0 - t.0.0) % m
                } else {
                    t.0.0
                },
                t.0.1,
            ),
        ),
        t.1,
    );
    if i < 0 || i >= nodes.len() {
        (lu, subs)
    } else {
        match nodes[i] {
            Node::Binary(op, l, r) => if l < i && r < i && (op == BinaryOp::Add || op
                == BinaryOp::Sub) {
                let a = linear_form(nodes, counts, l as int, limit, sign, lu, subs, m);
                linear_form(
                    nodes,
                    counts,
                    r as int,
                    limit,
                    if op == BinaryOp::Add {
                        sign
                    } else {
                        !sign
                    },
                    a.0,
                    a.1,
                    m,
                )
            } else {
                own
            },
            Node::Unary(op, e) => if e < i && op == UnaryOp::Neg {
                let u = uniform_form(nodes, counts, e as int, limit, subs);
                (
                    lu.push(
                        (
                            if sign {
                                1int
                            } else {
                                m - 1
                            },
                            u.0,
                        ),
                    ),
                    u.1,
                )
            } else {
                own
            },
            _ => own,
        }
    }
}

/// A new placeholder stands for its node, after the others.
pub proof fn lemma_nodes_push(before: Seq<Placeholder>, after: Seq<Placeholder>, i: int)
    requires
        after == before.push(after.last()),
        after.len() == before.len() + 1,
        after.last().node == i,
    ensures
        nodes_of(after) == nodes_of(before).push(i),
{
    assert forall|k: int| 0 <= k < after.len() implies nodes_of(after)[k] == nodes_of(before).push(
        i,
    )[k] by {
        if k < before.len() {
            assert(after[k] == before[k]);
        }
    }
    assert(nodes_of(after) =~= nodes_of(before).push(i));
}

impl<T: UniformNum> Expr<T> {
    /// The expression of node `i` as a uniform expression. A node that is no
    /// variable and no bitwise operation, or that is an operand more than once,
    /// becomes a variable, and joins the placeholders; not so the node `limit`
    /// itself.
    pub fn expr_to_uexpr(&self, i: usize, counts: &Vec<u8>, subs: &mut Vec<Placeholder>, limit: usize) -> (u:
        UExpr)
        requires
            self.wf(),
            i <= limit < self.nodes@.len(),
            i == limit ==> is_uniform_node(self.nodes@[i as int]),
            counts@.len() == self.nodes@.len(),
            placeholders_below(old(subs)@, limit as int),
            well_named(old(subs)@),
        ensures
            (u@, nodes_of(final(subs)@)) == uniform_form(
                self.nodes@,
                counts@,
                i as int,
                limit as int,
                nodes_of(old(subs)@),
            ),
            placeholders_below(final(subs)@, limit as int),
            well_named(final(subs)@),
            begins_with(final(subs)@, old(subs)@),
            is_clean(self.nodes@) ==> forall|full: Seq<Placeholder>, v: spec_fn(Seq<char>) -> int|
                begins_with(full, final(subs)@) && well_named(full) ==> #[trigger] uniform_of(
                    u@,
                    self.nodes@,
                    i as int,
                    full,
                    v,
                    T::modulus(),
                ),
        decreases i,
    {
        let ghost md = T::modulus();
        let ghost nodes = self.nodes@;
        proof {
            assert(node_ok(self.nodes@, i as int));
        }
        if i < limit && counts[i] > 1 {
            let u = new_placeholder(subs, i);
            proof {
                lemma_nodes_push(old(subs)@, subs@, i as int);
                assert forall|full: Seq<Placeholder>, v: spec_fn(Seq<char>) -> int|
                    begins_with(full, subs@) && well_named(full) implies #[trigger] uniform_of(
                    u@,
                    nodes,
                    i as int,
                    full,
                    v,
                    md,
                ) by {
                    lemma_new_placeholder(nodes, i as int, subs@, full, v, md);
                }
            }
            return u;
        }
        match &self.nodes[i] {
            Node::Var(x) => {
                let u = UExpr::Var(x.clone());
                proof {
                    assert(u@ == UTerm::Var(x@));
                    if is_clean(nodes) {
                        assert forall|full: Seq<Placeholder>, v: spec_fn(Seq<char>) -> int|
                            begins_with(full, subs@) && well_named(full) implies #[trigger] uniform_of(
                            u@,
                            nodes,
                            i as int,
                            full,
                            v,
                            md,
                        ) by {
                            lemma_own_variable(nodes, x@, full, v, md);
                        }
                    }
                }
                u
            },
            Node::Binary(BinaryOp::And, l, r) => {
                let a = self.expr_to_uexpr(*l, counts, subs, limit);
                let ghost s1 = subs@;
                let b = self.expr_to_uexpr(*r, counts, subs, limit);
                let u = UExpr::And(Box::new(a), Box::new(b));
                proof {
                    lemma_begins_trans(subs@, s1, old(subs)@);
                    if is_clean(nodes) {
                        assert forall|full: Seq<Placeholder>, v: spec_fn(Seq<char>) -> int|
                            begins_with(full, subs@) && well_named(full) implies #[trigger] uniform_of(
                            u@,
                            nodes,
                            i as int,
                            full,
                            v,
                            md,
                        ) by {
                            lemma_begins_trans(full, subs@, s1);
                            assert(uniform_of(a@, nodes, *l as int, full, v, md));
                            assert(uniform_of(b@, nodes, *r as int, full, v, md));
                        }
                    }
                }
                u
            },
            Node::Binary(BinaryOp::Or, l, r) => {
                let a = self.expr_to_uexpr(*l, counts, subs, limit);
                let ghost s1 = subs@;
                let b = self.expr_to_uexpr(*r, counts, subs, limit);
                let u = UExpr::Or(Box::new(a), Box::new(b));
                proof {
                    lemma_begins_trans(subs@, s1, old(subs)@);
                    if is_clean(nodes) {
                        assert forall|full: Seq<Placeholder>, v: spec_fn(Seq<char>) -> int|
                            begins_with(full, subs@) && well_named(full) implies #[trigger] uniform_of(
                            u@,
                            nodes,
                            i as int,
                            full,
                            v,
                            md,
                        ) by {
                            lemma_begins_trans(full, subs@, s1);
                            assert(uniform_of(a@, nodes, *l as int, full, v, md));
                            assert(uniform_of(b@, nodes, *r as int, full, v, md));
                        }
                    }
                }
                u
            },
            Node::Binary(BinaryOp::Xor, l, r) => {
                let a = self.expr_to_uexpr(*l, counts, subs, limit);
                let ghost s1 = subs@;
                let b = self.expr_to_uexpr(*r, counts, subs, limit);
                let u = UExpr::Xor(Box::new(a), Box::new(b));
                proof {
                    lemma_begins_trans(subs@, s1, old(subs)@);
                    if is_clean(nodes) {
                        assert forall|full: Seq<Placeholder>, v: spec_fn(Seq<char>) -> int|
                            begins_with(full, subs@) && well_named(full) implies #[trigger] uniform_of(
                            u@,
                            nodes,
                            i as int,
                            full,
                            v,
                            md,
                        ) by {
                            lemma_begins_trans(full, subs@, s1);
                            assert(uniform_of(a@, nodes, *l as int, full, v, md));
                            assert(uniform_of(b@, nodes, *r as int, full, v, md));
                        }
                    }
                }
                u
            },
            Node::Unary(UnaryOp::Not, e) => {
                let a = self.expr_to_uexpr(*e, counts, subs, limit);
                let u = UExpr::Not(Box::new(a));
                proof {
                    if is_clean(nodes) {
                        assert forall|full: Seq<Placeholder>, v: spec_fn(Seq<char>) -> int|
                            begins_with(full, subs@) && well_named(full) implies #[trigger] uniform_of(
                            u@,
                            nodes,
                            i as int,
                            full,
                            v,
                            md,
                        ) by {
                            assert(uniform_of(a@, nodes, *e as int, full, v, md));
                        }
                    }
                }
                u
            },
            // Otherwise generate a new variable and add the substitution.
            _ => {
                let u = new_placeholder(subs, i);
                proof {
                    lemma_nodes_push(old(subs)@, subs@, i as int);
                    assert forall|full: Seq<Placeholder>, v: spec_fn(Seq<char>) -> int|
                        begins_with(full, subs@) && well_named(full) implies #[trigger] uniform_of(
                        u@,
                        nodes,
                        i as int,
                        full,
                        v,
                        md,
                    ) by {
                        lemma_new_placeholder(nodes, i as int, subs@, full, v, md);
                    }
                }
                u
            },
        }
    }

    /// The term of a linear combination that the expression of node `i` is: a
    /// constant times a uniform expression where it is such a product, a constant as
    /// its negative times `Ones`, and else one times a uniform expression.
    pub fn parse_term(&self, i: usize, counts: &Vec<u8>, subs: &mut Vec<Placeholder>, limit: usize) -> (t:
        (T, UExpr))
        requires
            self.wf(),
            i <= limit < self.nodes@.len(),
            i == limit ==> is_uniform_node(self.nodes@[i as int]) || self.nodes@[i as int] is Const,
            counts@.len() == self.nodes@.len(),
            placeholders_below(old(subs)@, limit as int),
            well_named(old(subs)@),
        ensures
            ((t.0.val(), t.1@), nodes_of(final(subs)@)) == term_form(
                self.nodes@,
                counts@,
                i as int,
                limit as int,
                nodes_of(old(subs)@),
                T::modulus(),
            ),
            placeholders_below(final(subs)@, limit as int),
            well_named(final(subs)@),
            begins_with(final(subs)@, old(subs)@),
            is_clean(self.nodes@) ==> forall|full: Seq<Placeholder>, v: spec_fn(Seq<char>) -> int|
                begins_with(full, final(subs)@) && well_named(full) ==> #[trigger] term_of(
                    t.0.val(),
                    t.1@,
                    self.nodes@,
                    i as int,
                    full,
                    v,
                    T::modulus(),
                ),
    {
        let ghost md = T::modulus();
        let ghost nodes = self.nodes@;
        proof {
            assert(node_ok(self.nodes@, i as int));
            T::lemma_modulus();
        }
        match &self.nodes[i] {
            Node::Binary(BinaryOp::Mul, l, r) => {
                match &self.nodes[*l] {
                    Node::Const(c) => {
                        let u = self.expr_to_uexpr(*r, counts, subs, limit);
                        proof {
                            c.lemma_val_bound();
                            if is_clean(nodes) {
                                assert forall|full: Seq<Placeholder>, v: spec_fn(Seq<char>) -> int|
                                    begins_with(full, subs@) && well_named(full) implies #[trigger] term_of(
                                    c.val(),
                                    u@,
                                    nodes,
                                    i as int,
                                    full,
                                    v,
                                    md,
                                ) by {
                                    assert(uniform_of(u@, nodes, *r as int, full, v, md));
                                    let x = tree(nodes, *r as int).value(v, md);
                                    lemma_mod_small(c.val(), md);
                                    lemma_cong_mod(c.val() * x, md);
                                    assert(tree(nodes, *l as int) == Term::Const(c.val()));
                                    assert(tree(nodes, *l as int).value(v, md) == c.val() % md);
                                    assert(tree(nodes, i as int) == Term::Binary(
                                        BinaryOp::Mul,
                                        Box::new(tree(nodes, *l as int)),
                                        Box::new(tree(nodes, *r as int)),
                                    ));
                                    assert(tree(nodes, i as int).value(v, md) == (c.val() * x)
                                        % md);
                                }
                            }
                        }
                        return (*c, u);
                    },
                    _ => {},
                }
                match &self.nodes[*r] {
                    Node::Const(c) => {
                        let u = self.expr_to_uexpr(*l, counts, subs, limit);
                        proof {
                            c.lemma_val_bound();
                            if is_clean(nodes) {
                                assert forall|full: Seq<Placeholder>, v: spec_fn(Seq<char>) -> int|
                                    begins_with(full, subs@) && well_named(full) implies #[trigger] term_of(
                                    c.val(),
                                    u@,
                                    nodes,
                                    i as int,
                                    full,
                                    v,
                                    md,
                                ) by {
                                    assert(uniform_of(u@, nodes, *l as int, full, v, md));
                                    let x = tree(nodes, *l as int).value(v, md);
                                    lemma_mod_small(c.val(), md);
                                    lemma_cong_mod(x * c.val(), md);
                                    assert(x * c.val() == c.val() * x) by (nonlinear_arith);
                                    assert(tree(nodes, *r as int) == Term::Const(c.val()));
                                    assert(tree(nodes, *r as int).value(v, md) == c.val() % md);
                                    assert(tree(nodes, i as int) == Term::Binary(
                                        BinaryOp::Mul,
                                        Box::new(tree(nodes, *l as int)),
                                        Box::new(tree(nodes, *r as int)),
                                    ));
                                    assert(tree(nodes, i as int).value(v, md) == (x * c.val())
                                        % md);
                                }
                            }
                        }
                        return (*c, u);
                    },
                    _ => {},
                }
                let one: T = T::one();
                let u = self.expr_to_uexpr(i, counts, subs, limit);
                proof {
                    if is_clean(nodes) {
                        assert forall|full: Seq<Placeholder>, v: spec_fn(Seq<char>) -> int|
                            begins_with(full, subs@) && well_named(full) implies #[trigger] term_of(
                            one.val(),
                            u@,
                            nodes,
                            i as int,
                            full,
                            v,
                            md,
                        ) by {
                            assert(uniform_of(u@, nodes, i as int, full, v, md));
                        }
                    }
                }
                (one, u)
            },
            Node::Const(c) => {
                let f: T = T::zero().sub(*c);
                proof {
                    c.lemma_val_bound();
                    lemma_const_term(c.val(), md);
                    assert(begins_with(subs@, subs@));
                }
                (f, UExpr::Ones)
            },
            _ => {
                let one: T = T::one();
                let u = self.expr_to_uexpr(i, counts, subs, limit);
                proof {
                    if is_clean(nodes) {
                        assert forall|full: Seq<Placeholder>, v: spec_fn(Seq<char>) -> int|
                            begins_with(full, subs@) && well_named(full) implies #[trigger] term_of(
                            one.val(),
                            u@,
                            nodes,
                            i as int,
                            full,
                            v,
                            md,
                        ) by {
                            assert(uniform_of(u@, nodes, i as int, full, v, md));
                        }
                    }
                }
                (one, u)
            },
        }
    }

    /// Puts the terms of the linear combination that the expression of node `i` is
    /// into `lu`, negated where `sign` is set: the operands of sums and differences
    /// give their terms, a negation a term of its own, and every other node one term.
    pub fn expr_to_luexpr(
        &self,
        i: usize,
        counts: &Vec<u8>,
        lu: &mut LUExpr<T>,
        subs: &mut Vec<Placeholder>,
        sign: bool,
        limit: usize,
    )
        requires
            self.wf(),
            i <= limit < self.nodes@.len(),
            i == limit ==> !is_multiplicative(self.nodes@[i as int]),
            counts@.len() == self.nodes@.len(),
            placeholders_below(old(subs)@, limit as int),
            well_named(old(subs)@),
        ensures
            (final(lu)@, nodes_of(final(subs)@)) == linear_form(
                self.nodes@,
                counts@,
                i as int,
                limit as int,
                sign,
                old(lu)@,
                nodes_of(old(subs)@),
                T::modulus(),
            ),
            placeholders_below(final(subs)@, limit as int),
            well_named(final(subs)@),
            begins_with(final(subs)@, old(subs)@),
            is_clean(self.nodes@) ==> forall|full: Seq<Placeholder>, v: spec_fn(Seq<char>) -> int|
                begins_with(full, final(subs)@) && well_named(full) ==> #[trigger] linear_of(
                    final(lu)@,
                    old(lu)@,
                    sign,
                    self.nodes@,
                    i as int,
                    full,
                    v,
                    T::modulus(),
                ),
        decreases i,
    {
        let ghost md = T::modulus();
        let ghost nodes = self.nodes@;
        let ghost lu0 = lu@;
        proof {
            assert(node_ok(self.nodes@, i as int));
            T::lemma_modulus();
        }
        match &self.nodes[i] {
            Node::Binary(BinaryOp::Add, l, r) => {
                self.expr_to_luexpr(*l, counts, lu, subs, sign, limit);
                let ghost s1 = subs@;
                let ghost lu1 = lu@;
                self.expr_to_luexpr(*r, counts, lu, subs, sign, limit);
                proof {
                    lemma_begins_trans(subs@, s1, old(subs)@);
                    if is_clean(nodes) {
                        assert forall|full: Seq<Placeholder>, v: spec_fn(Seq<char>) -> int|
                            begins_with(full, subs@) && well_named(full) implies #[trigger] linear_of(
                            lu@,
                            lu0,
                            sign,
                            nodes,
                            i as int,
                            full,
                            v,
                            md,
                        ) by {
                            lemma_begins_trans(full, subs@, s1);
                            assert(linear_of(lu1, lu0, sign, nodes, *l as int, full, v, md));
                            assert(linear_of(lu@, lu1, sign, nodes, *r as int, full, v, md));
                            let w = extended(nodes, full, v, md);
                            lemma_linear_sum(
                                lu_sum(lu0, w, md),
                                lu_sum(lu1, w, md),
                                lu_sum(lu@, w, md),
                                signum(sign),
                                signum(sign),
                                tree(nodes, *l as int).value(v, md),
                                tree(nodes, *r as int).value(v, md),
                                md,
                            );
                        }
                    }
                }
            },
            Node::Binary(BinaryOp::Sub, l, r) => {
                self.expr_to_luexpr(*l, counts, lu, subs, sign, limit);
                let ghost s1 = subs@;
                let ghost lu1 = lu@;
                self.expr_to_luexpr(*r, counts, lu, subs, !sign, limit);
                proof {
                    lemma_begins_trans(subs@, s1, old(subs)@);
                    if is_clean(nodes) {
                        assert forall|full: Seq<Placeholder>, v: spec_fn(Seq<char>) -> int|
                            begins_with(full, subs@) && well_named(full) implies #[trigger] linear_of(
                            lu@,
                            lu0,
                            sign,
                            nodes,
                            i as int,
                            full,
                            v,
                            md,
                        ) by {
                            lemma_begins_trans(full, subs@, s1);
                            assert(linear_of(lu1, lu0, sign, nodes, *l as int, full, v, md));
                            assert(linear_of(lu@, lu1, !sign, nodes, *r as int, full, v, md));
                            let w = extended(nodes, full, v, md);
                            lemma_linear_sum(
                                lu_sum(lu0, w, md),
                                lu_sum(lu1, w, md),
                                lu_sum(lu@, w, md),
                                signum(sign),
                                signum(!sign),
                                tree(nodes, *l as int).value(v, md),
                                tree(nodes, *r as int).value(v, md),
                                md,
                            );
                        }
                    }
                }
            },
            Node::Unary(UnaryOp::Neg, e) => {
                let f: T = if sign {
                    T::one()
                } else {
                    T::zero().sub(T::one())
                };
                let u = self.expr_to_uexpr(*e, counts, subs, limit);
                lu.0.push((f, u));
                proof {
                    assert(lu@ =~= lu0.push((f.val(), u@)));
                    lemma_cong_add_multiple(0 - 1, 1, md);
                    lemma_mod_small(md - 1, md);
                    assert(f.val() == if sign {
                        1int
                    } else {
                        md - 1
                    });
                    assert((lu@, nodes_of(subs@)) == linear_form(
                        nodes,
                        counts@,
                        i as int,
                        limit as int,
                        sign,
                        lu0,
                        nodes_of(old(subs)@),
                        md,
                    ));
                    if is_clean(nodes) {
                        assert forall|full: Seq<Placeholder>, v: spec_fn(Seq<char>) -> int|
                            begins_with(full, subs@) && well_named(full) implies #[trigger] linear_of(
                            lu@,
                            lu0,
                            sign,
                            nodes,
                            i as int,
                            full,
                            v,
                            md,
                        ) by {
                            assert(uniform_of(u@, nodes, *e as int, full, v, md));
                            let w = extended(nodes, full, v, md);
                            lemma_lu_sum_push(lu0, (f.val(), u@), w, md);
                            lemma_negated(sign, f.val(), tree(nodes, *e as int).value(v, md), md);
                            lemma_cong_ops(
                                lu_sum(lu0, w, md),
                                lu_sum(lu0, w, md),
                                f.val() * u@.eval(w, md),
                                signum(sign) * tree(nodes, i as int).value(v, md),
                                md,
                            );
                        }
                    }
                }
            },
            // Otherwise parse the term from this expression.
            _ => {
                let (f, u) = self.parse_term(i, counts, subs, limit);
                let g: T = if sign {
                    T::zero().sub(f)
                } else {
                    f
                };
                lu.0.push((g, u));
                proof {
                    assert(lu@ =~= lu0.push((g.val(), u@)));
                    assert((lu@, nodes_of(subs@)) == linear_form(
                        nodes,
                        counts@,
                        i as int,
                        limit as int,
                        sign,
                        lu0,
                        nodes_of(old(subs)@),
                        md,
                    ));
                    f.lemma_val_bound();
                    if is_clean(nodes) {
                        assert forall|full: Seq<Placeholder>, v: spec_fn(Seq<char>) -> int|
                            begins_with(full, subs@) && well_named(full) implies #[trigger] linear_of(
                            lu@,
                            lu0,
                            sign,
                            nodes,
                            i as int,
                            full,
                            v,
                            md,
                        ) by {
                            assert(term_of(f.val(), u@, nodes, i as int, full, v, md));
                            let w = extended(nodes, full, v, md);
                            lemma_lu_sum_push(lu0, (g.val(), u@), w, md);
                            lemma_signed_term(
                                sign,
                                f.val(),
                                g.val(),
                                u@.eval(w, md),
                                tree(nodes, i as int).value(v, md),
                                md,
                            );
                            lemma_cong_ops(
                                lu_sum(lu0, w, md),
                                lu_sum(lu0, w, md),
                                g.val() * u@.eval(w, md),
                                signum(sign) * tree(nodes, i as int).value(v, md),
                                md,
                            );
                        }
                    }
                }
            },
        }
    }
}

/// The sign of a term: `-1` where it is negated.
pub open spec fn signum(sign: bool) -> int {
    if sign {
        -1
    } else {
        1
    }
}

/// Whether `c` times the uniform expression `u` has the value of the expression of
/// node `i`, where the placeholders `full` have the values of what they stand for.
pub open spec fn term_of<T: UnsignedInt>(
    c: int,
    u: UTerm,
    nodes: Seq<Node<T>>,
    i: int,
    full: Seq<Placeholder>,
    v: spec_fn(Seq<char>) -> int,
    m: int,
) -> bool {
    cong(c * u.eval(extended(nodes, full, v, m), m), tree(nodes, i).value(v, m), m)
}

/// Whether the linear combination `after` has the value of `before` and of the
/// expression of node `i`, negated where `sign` is set, where the placeholders
/// `full` have the values of what they stand for.
pub open spec fn linear_of<T: UnsignedInt>(
    after: Seq<(int, UTerm)>,
    before: Seq<(int, UTerm)>,
    sign: bool,
    nodes: Seq<Node<T>>,
    i: int,
    full: Seq<Placeholder>,
    v: spec_fn(Seq<char>) -> int,
    m: int,
) -> bool {
    cong(
        lu_sum(after, extended(nodes, full, v, m), m),
        lu_sum(before, extended(nodes, full, v, m), m) + signum(sign) * tree(nodes, i).value(v, m),
        m,
    )
}

/// A constant is its negative times all ones.
pub proof fn lemma_const_term(c: int, m: int)
    requires
        0 <= c < m,
    ensures
        cong(((0 - c) % m) * (m - 1), c % m, m),
{
    let x = (0 - c) % m;
    lemma_cong_mod(0 - c, m);
    lemma_cong_add_multiple(-1, 1, m);
    lemma_cong_ops(x, 0 - c, m - 1, -1, m);
    assert((0 - c) * (-1) == c) by (nonlinear_arith);
    lemma_cong_mod(c, m);
}

/// Two steps of a sum: where `b` is `a` and `s * x`, and `c` is `b` and `t * y`,
/// over the ring, `c` is `a` and `s` times the sum or the difference of `x` and `y`
/// in the ring.
pub proof fn lemma_linear_sum(a: int, b: int, c: int, s: int, t: int, x: int, y: int, m: int)
    requires
        0 < m,
        s == 1 || s == -1,
        t == s || t == -s,
        cong(b, a + s * x, m),
        cong(c, b + t * y, m),
    ensures
        t == s ==> cong(c, a + s * ((x + y) % m), m),
        t == -s ==> cong(c, a + s * ((x - y) % m), m),
{
    lemma_cong_ops(b, a + s * x, t * y, t * y, m);
    if t == s {
        lemma_cong_mod(x + y, m);
        lemma_cong_ops(s, s, (x + y) % m, x + y, m);
        lemma_cong_ops(a, a, s * ((x + y) % m), s * (x + y), m);
        assert(a + s * x + t * y == a + s * (x + y)) by (nonlinear_arith)
            requires
                t == s,
        ;
    }
    if t == -s {
        lemma_cong_mod(x - y, m);
        lemma_cong_ops(s, s, (x - y) % m, x - y, m);
        lemma_cong_ops(a, a, s * ((x - y) % m), s * (x - y), m);
        assert(a + s * x + t * y == a + s * (x - y)) by (nonlinear_arith)
            requires
                t == -s,
        ;
    }
}

/// The negative of a value is the value times minus one, and the negative of that
/// the value itself.
pub proof fn lemma_negated(sign: bool, f: int, x: int, m: int)
    requires
        1 < m,
        f == (if sign {
            1int
        } else {
            (0 - 1int) % m
        }),
    ensures
        cong(f * x, signum(sign) * ((-x) % m), m),
{
    lemma_cong_mod(-x, m);
    lemma_cong_mod(0 - 1int, m);
    lemma_cong_ops(signum(sign), signum(sign), (-x) % m, -x, m);
    if sign {
        lemma_cong_ops(f, 1, x, x, m);
        assert(signum(sign) * (-x) == 1 * x) by (nonlinear_arith)
            requires
                signum(sign) == -1,
        ;
    } else {
        lemma_cong_ops(f, -1, x, x, m);
        assert(signum(sign) * (-x) == (-1) * x) by (nonlinear_arith)
            requires
                signum(sign) == 1,
        ;
    }
}

/// A term with the coefficient `f`, or with its negative `g` where `sign` is set,
/// has the value of the term, or its negative.
pub proof fn lemma_signed_term(sign: bool, f: int, g: int, e: int, x: int, m: int)
    requires
        0 < m,
        cong(f * e, x, m),
        g == (if sign {
            (0 - f) % m
        } else {
            f
        }),
    ensures
        cong(g * e, signum(sign) * x, m),
{
    if sign {
        lemma_cong_mod(0 - f, m);
        lemma_cong_ops(g, 0 - f, e, e, m);
        lemma_cong_ops(-1, -1, f * e, x, m);
        assert((0 - f) * e == (-1) * (f * e)) by (nonlinear_arith);
    } else {
        assert(1 * x == x);
    }
}

/// Whether the node is a product, a quotient, a remainder or a shift.
pub open spec fn is_multiplicative<T>(n: Node<T>) -> bool {
    match n {
        Node::Binary(op, _, _) => op == BinaryOp::Mul || op == BinaryOp::Div || op == BinaryOp::Mod
            || op == BinaryOp::Shl || op == BinaryOp::Shr,
        _ => false,
    }
}

/// Whether the expression of node `i` of `out` has the value of the uniform
/// expression `u`, where the placeholders have the values of the nodes `mapped` of
/// `base`.
pub open spec fn emitted_uniform<T: UnsignedInt>(
    out: Seq<Node<T>>,
    i: int,
    u: UTerm,
    subs: Seq<Placeholder>,
    base: Seq<Node<T>>,
    mapped: Seq<usize>,
    v: spec_fn(Seq<char>) -> int,
    m: int,
) -> bool {
    tree(out, i).value(v, m) == u.eval(with_values(subs, mapped_values(base, mapped, v, m), v), m)
}

/// Whether the expression of node `i` of `out` has the value of the linear
/// combination `e`, where the placeholders have the values of the nodes `mapped` of
/// `base`.
pub open spec fn emitted_linear<T: UnsignedInt>(
    out: Seq<Node<T>>,
    i: int,
    e: Seq<(int, UTerm)>,
    subs: Seq<Placeholder>,
    base: Seq<Node<T>>,
    mapped: Seq<usize>,
    v: spec_fn(Seq<char>) -> int,
    m: int,
) -> bool {
    tree(out, i).value(v, m) == lu_eval(
        e,
        with_values(subs, mapped_values(base, mapped, v, m), v),
        m,
    )
}

/// The expressions of the nodes `mapped` of `out`.
pub open spec fn mapped_trees<T: UnsignedInt>(out: Seq<Node<T>>, mapped: Seq<usize>) -> Seq<Term> {
    Seq::new(mapped.len(), |k: int| tree(out, mapped[k] as int))
}

/// The expression `t` with the expression `trees[k]` in place of each variable that
/// has the name of placeholder `k`.
pub open spec fn filled(t: Term, subs: Seq<Placeholder>, trees: Seq<Term>) -> Term
    decreases t,
{
    match t {
        Term::Const(c) => Term::Const(c),
        Term::Var(n) => if lookup(subs, n, 0) >= 0 {
            trees[lookup(subs, n, 0)]
        } else {
            Term::Var(n)
        },
        Term::Binary(op, l, r) => Term::Binary(
            op,
            Box::new(filled(*l, subs, trees)),
            Box::new(filled(*r, subs, trees)),
        ),
        Term::Unary(op, e) => Term::Unary(op, Box::new(filled(*e, subs, trees))),
    }
}

/// The expressions of nodes stay when nodes are put after them.
pub proof fn lemma_mapped_trees_extends<T: UnsignedInt>(
    b: Seq<Node<T>>,
    a: Seq<Node<T>>,
    mapped: Seq<usize>,
)
    requires
        extends(b, a),
        forall|k: int| 0 <= k < mapped.len() ==> #[trigger] mapped[k] < a.len(),
    ensures
        mapped_trees(b, mapped) == mapped_trees(a, mapped),
{
    assert forall|k: int| 0 <= k < mapped.len() implies mapped_trees(b, mapped)[k] == mapped_trees(
        a,
        mapped,
    )[k] by {
        lemma_extends_tree(b, a, mapped[k] as int);
    }
    assert(mapped_trees(b, mapped) =~= mapped_trees(a, mapped));
}

/// The values of nodes stay when nodes are put after them.
pub proof fn lemma_mapped_values_extends<T: UnsignedInt>(
    b: Seq<Node<T>>,
    a: Seq<Node<T>>,
    mapped: Seq<usize>,
    v: spec_fn(Seq<char>) -> int,
    m: int,
)
    requires
        extends(b, a),
        forall|k: int| 0 <= k < mapped.len() ==> #[trigger] mapped[k] < a.len(),
    ensures
        mapped_values(b, mapped, v, m) == mapped_values(a, mapped, v, m),
{
    assert forall|k: int| 0 <= k < mapped.len() implies tree(b, mapped[k] as int) == tree(
        a,
        mapped[k] as int,
    ) by {
        lemma_extends_tree(b, a, mapped[k] as int);
    }
    assert(mapped_values(b, mapped, v, m) =~= mapped_values(a, mapped, v, m));
}

/// A valuation into the ring, with values of expressions for the placeholders, is a
/// valuation into the ring.
pub proof fn lemma_with_values_in_ring<T: UnsignedInt>(
    subs: Seq<Placeholder>,
    base: Seq<Node<T>>,
    mapped: Seq<usize>,
    v: spec_fn(Seq<char>) -> int,
)
    requires
        in_ring(v, T::modulus()),
        mapped.len() == subs.len(),
    ensures
        in_ring(with_values(subs, mapped_values(base, mapped, v, T::modulus()), v), T::modulus()),
{
    let m = T::modulus();
    T::lemma_modulus();
    let w = with_values(subs, mapped_values(base, mapped, v, m), v);
    assert forall|name: Seq<char>| 0 <= #[trigger] w(name) < m by {
        lemma_lookup_range(subs, name, 0);
        let k = lookup(subs, name, 0);
        if k >= 0 {
            lemma_value_in_ring(tree(base, mapped[k] as int), v, T::bits());
        } else {
            assert(0 <= v(name) < m);
        }
    }
}

/// Puts the nodes of the uniform expression after `out`, with the node `mapped[k]`
/// in place of the variable of placeholder `k`, and gives the index of its node.
pub fn emit_uniform<T: UniformNum>(
    u: &UExpr,
    out: &mut Vec<Node<T>>,
    subs: &Vec<Placeholder>,
    mapped: &Vec<usize>,
) -> (i: usize)
    requires
        nodes_ok(old(out)@),
        mapped@.len() == subs@.len(),
        forall|k: int| 0 <= k < mapped@.len() ==> #[trigger] mapped@[k] < old(out)@.len(),
    ensures
        extends(final(out)@, old(out)@),
        i < final(out)@.len(),
        tree(final(out)@, i as int) == filled(
            uniform_term(u@, T::modulus()),
            subs@,
            mapped_trees(old(out)@, mapped@),
        ),
        forall|v: spec_fn(Seq<char>) -> int| #[trigger]
            emitted_uniform(final(out)@, i as int, u@, subs@, old(out)@, mapped@, v, T::modulus()),
    decreases u,
{
    let ghost start = out@;
    let ghost md = T::modulus();
    proof {
        T::lemma_modulus();
    }
    match u {
        UExpr::Ones => {
            let c: T = T::zero().sub(T::one());
            let i = push_node(out, Node::Const(c));
            proof {
                lemma_mod_small(md - 1, md);
                lemma_cong_add_multiple(0 - 1, 1, md);
                assert(c.val() == md - 1);
                assert(tree(out@, i as int) == Term::Const(c.val()));
            }
            i
        },
        UExpr::Var(x) => {
            match find_placeholder(subs, x.as_str()) {
                Some(k) => {
                    proof {
                        assert(extends(out@, start));
                        assert(mapped_trees(start, mapped@)[k as int] == tree(
                            start,
                            mapped@[k as int] as int,
                        ));
                    }
                    mapped[k]
                },
                None => {
                    let i = push_node(out, Node::Var(x.clone()));
                    proof {
                        assert(tree(out@, i as int) == Term::Var(x@));
                    }
                    i
                },
            }
        },
        UExpr::Not(e) => {
            let c = emit_uniform(e, out, subs, mapped);
            let ghost mid = out@;
            let i = push_node(out, Node::Unary(UnaryOp::Not, c));
            proof {
                lemma_extends_trans(out@, mid, start);
                assert(tree(out@, i as int) == Term::Unary(
                    UnaryOp::Not,
                    Box::new(tree(out@, c as int)),
                ));
                assert(tree(out@, c as int) == tree(mid, c as int));
                assert forall|v: spec_fn(Seq<char>) -> int| #[trigger]
                    emitted_uniform(out@, i as int, u@, subs@, start, mapped@, v, md) by {
                    assert(emitted_uniform(mid, c as int, e@, subs@, start, mapped@, v, md));
                    assert(tree(out@, c as int) == tree(mid, c as int));
                }
            }
            i
        },
        UExpr::And(l, r) => {
            let a = emit_uniform(l, out, subs, mapped);
            let ghost m1 = out@;
            let b = emit_uniform(r, out, subs, mapped);
            let ghost m2 = out@;
            let i = push_node(out, Node::Binary(BinaryOp::And, a, b));
            proof {
                lemma_extends_trans(m2, m1, start);
                lemma_extends_trans(out@, m2, start);
                lemma_extends_tree(m2, m1, a as int);
                assert(tree(out@, i as int) == Term::Binary(
                    BinaryOp::And,
                    Box::new(tree(out@, a as int)),
                    Box::new(tree(out@, b as int)),
                ));
                lemma_mapped_trees_extends(m1, start, mapped@);
                assert(tree(out@, a as int) == tree(m1, a as int));
                assert(tree(out@, b as int) == tree(m2, b as int));
                assert forall|v: spec_fn(Seq<char>) -> int| #[trigger]
                    emitted_uniform(out@, i as int, u@, subs@, start, mapped@, v, md) by {
                    assert(emitted_uniform(m1, a as int, l@, subs@, start, mapped@, v, md));
                    assert(emitted_uniform(m2, b as int, r@, subs@, m1, mapped@, v, md));
                    lemma_mapped_values_extends(m1, start, mapped@, v, md);
                    assert(tree(out@, a as int) == tree(m1, a as int));
                    assert(tree(out@, b as int) == tree(m2, b as int));
                }
            }
            i
        },
        UExpr::Or(l, r) => {
            let a = emit_uniform(l, out, subs, mapped);
            let ghost m1 = out@;
            let b = emit_uniform(r, out, subs, mapped);
            let ghost m2 = out@;
            let i = push_node(out, Node::Binary(BinaryOp::Or, a, b));
            proof {
                lemma_extends_trans(m2, m1, start);
                lemma_extends_trans(out@, m2, start);
                lemma_extends_tree(m2, m1, a as int);
                assert(tree(out@, i as int) == Term::Binary(
                    BinaryOp::Or,
                    Box::new(tree(out@, a as int)),
                    Box::new(tree(out@, b as int)),
                ));
                lemma_mapped_trees_extends(m1, start, mapped@);
                assert(tree(out@, a as int) == tree(m1, a as int));
                assert(tree(out@, b as int) == tree(m2, b as int));
                assert forall|v: spec_fn(Seq<char>) -> int| #[trigger]
                    emitted_uniform(out@, i as int, u@, subs@, start, mapped@, v, md) by {
                    assert(emitted_uniform(m1, a as int, l@, subs@, start, mapped@, v, md));
                    assert(emitted_uniform(m2, b as int, r@, subs@, m1, mapped@, v, md));
                    lemma_mapped_values_extends(m1, start, mapped@, v, md);
                    assert(tree(out@, a as int) == tree(m1, a as int));
                    assert(tree(out@, b as int) == tree(m2, b as int));
                }
            }
            i
        },
        UExpr::Xor(l, r) => {
            let a = emit_uniform(l, out, subs, mapped);
            let ghost m1 = out@;
            let b = emit_uniform(r, out, subs, mapped);
            let ghost m2 = out@;
            let i = push_node(out, Node::Binary(BinaryOp::Xor, a, b));
            proof {
                lemma_extends_trans(m2, m1, start);
                lemma_extends_trans(out@, m2, start);
                lemma_extends_tree(m2, m1, a as int);
                assert(tree(out@, i as int) == Term::Binary(
                    BinaryOp::Xor,
                    Box::new(tree(out@, a as int)),
                    Box::new(tree(out@, b as int)),
                ));
                lemma_mapped_trees_extends(m1, start, mapped@);
                assert(tree(out@, a as int) == tree(m1, a as int));
                assert(tree(out@, b as int) == tree(m2, b as int));
                assert forall|v: spec_fn(Seq<char>) -> int| #[trigger]
                    emitted_uniform(out@, i as int, u@, subs@, start, mapped@, v, md) by {
                    assert(emitted_uniform(m1, a as int, l@, subs@, start, mapped@, v, md));
                    assert(emitted_uniform(m2, b as int, r@, subs@, m1, mapped@, v, md));
                    lemma_mapped_values_extends(m1, start, mapped@, v, md);
                    assert(tree(out@, a as int) == tree(m1, a as int));
                    assert(tree(out@, b as int) == tree(m2, b as int));
                }
            }
            i
        },
    }
}

/// Whether the expression of node `acc` of `out` has the value of the first `k`
/// terms of the linear combination `z`, under the valuation `w`.
pub open spec fn emitted_terms<T: UnsignedInt>(
    out: Seq<Node<T>>,
    acc: int,
    z: Seq<(int, UTerm)>,
    k: int,
    w: spec_fn(Seq<char>) -> int,
    v: spec_fn(Seq<char>) -> int,
    m: int,
) -> bool {
    &&& cong(tree(out, acc).value(v, m), sum(lu_terms(z, w, m), k), m)
    &&& 0 <= tree(out, acc).value(v, m) < m
}

/// The value of one more term: where `t` is the value of the term `c * e` in the
/// ring, and `acc` that of the terms before it, their sum in the ring is the value
/// of all of them.
pub proof fn lemma_emit_step(acc: int, s: int, t: int, c: int, e: int, m: int)
    requires
        0 < m,
        cong(acc, s, m),
        cong(t, c * e, m),
    ensures
        cong((acc + t) % m, s + c * e, m),
        0 <= (acc + t) % m < m,
{
    lemma_cong_ops(acc, s, t, c * e, m);
    lemma_cong_mod(acc + t, m);
}

/// Puts the nodes of the linear combination after `out`, with the node `mapped[k]`
/// in place of the variable of placeholder `k`, and gives the index of its node.
pub fn emit_linear<T: UniformNum>(
    e: &LUExpr<T>,
    out: &mut Vec<Node<T>>,
    subs: &Vec<Placeholder>,
    mapped: &Vec<usize>,
) -> (i: usize)
    requires
        nodes_ok(old(out)@),
        mapped@.len() == subs@.len(),
        forall|k: int| 0 <= k < mapped@.len() ==> #[trigger] mapped@[k] < old(out)@.len(),
    ensures
        extends(final(out)@, old(out)@),
        i < final(out)@.len(),
        tree(final(out)@, i as int) == filled(
            linear_term(e@, T::modulus()),
            subs@,
            mapped_trees(old(out)@, mapped@),
        ),
        forall|v: spec_fn(Seq<char>) -> int|
            in_ring(v, T::modulus()) ==> #[trigger] emitted_linear(
                final(out)@,
                i as int,
                e@,
                subs@,
                old(out)@,
                mapped@,
                v,
                T::modulus(),
            ),
{
    let ghost start = out@;
    let ghost md = T::modulus();
    proof {
        T::lemma_modulus();
    }
    let z = e.without_zeros();
    let n: usize = z.0.len();
    if n == 0 {
        let i = push_node(out, Node::Const(T::zero()));
        proof {
            assert(tree(out@, i as int) == Term::Const(0));
            assert forall|v: spec_fn(Seq<char>) -> int| in_ring(v, md) implies #[trigger] emitted_linear(
                out@,
                i as int,
                e@,
                subs@,
                start,
                mapped@,
                v,
                md,
            ) by {
                let w = with_values(subs@, mapped_values(start, mapped@, v, md), v);
                lemma_lu_sum_nonzero(e@, w, md);
                assert(z@.len() == 0);
                lemma_mod_small(0, md);
            }
        }
        return i;
    }
    let mut acc: usize = 0;
    let mut k: usize = 0;
    while k < n
        invariant
            k <= n,
            n == z.0@.len(),
            n == z@.len(),
            md == T::modulus(),
            md > 1,
            extends(out@, start),
            mapped@.len() == subs@.len(),
            forall|j: int| 0 <= j < mapped@.len() ==> #[trigger] mapped@[j] < start.len(),
            k > 0 ==> acc < out@.len(),
            k > 0 ==> tree(out@, acc as int) == filled(
                sum_term(z@, k as int, md),
                subs@,
                mapped_trees(start, mapped@),
            ),
            k > 0 ==> forall|v: spec_fn(Seq<char>) -> int|
                in_ring(v, md) ==> #[trigger] emitted_terms(
                    out@,
                    acc as int,
                    z@,
                    k as int,
                    with_values(subs@, mapped_values(start, mapped@, v, md), v),
                    v,
                    md,
                ),
        decreases n - k,
    {
        let ghost m0 = out@;
        let ghost acc0 = acc;
        let c: T = z.0[k].0;
        let u = emit_uniform(&z.0[k].1, out, subs, mapped);
        let ghost m1 = out@;
        let ghost ut = z.0@[k as int].1@;
        let mut t: usize = u;
        let scaled: bool = !c.eq(T::one());
        let ghost mut ai: int = 0;
        if scaled {
            let a = push_node(out, Node::Const(c));
            let ghost m11 = out@;
            t = push_node(out, Node::Binary(BinaryOp::Mul, a, u));
            proof {
                ai = a as int;
                assert(tree(m11, a as int) == Term::Const(c.val()));
                assert(tree(out@, a as int) == tree(m11, a as int));
                assert(tree(m11, u as int) == tree(m1, u as int));
                assert(tree(out@, u as int) == tree(m11, u as int));
                assert(tree(out@, t as int) == Term::Binary(
                    BinaryOp::Mul,
                    Box::new(tree(out@, a as int)),
                    Box::new(tree(out@, u as int)),
                ));
                lemma_extends_trans(out@, m11, m1);
            }
        }
        let ghost m2 = out@;
        proof {
            lemma_extends_trans(m1, m0, start);
            lemma_extends_trans(m2, m1, start);
            lemma_extends_trans(m2, m1, m0);
            c.lemma_val_bound();
            assert(z@[k as int] == (c.val(), ut));
        }
        if k > 0 {
            acc = push_node(out, Node::Binary(BinaryOp::Add, acc, t));
            proof {
                assert(tree(out@, acc as int) == Term::Binary(
                    BinaryOp::Add,
                    Box::new(tree(out@, acc0 as int)),
                    Box::new(tree(out@, t as int)),
                ));
            }
        } else {
            acc = t;
        }
        proof {
            lemma_extends_trans(out@, m2, start);
            lemma_mapped_trees_extends(m0, start, mapped@);
            assert(tree(m2, u as int) == tree(m1, u as int));
            assert(tree(out@, t as int) == tree(m2, t as int));
            if scaled {
                assert(tree(m2, ai) == Term::Const(c.val()));
                assert(filled(Term::Const(c.val()), subs@, mapped_trees(start, mapped@))
                    == Term::Const(c.val()));
                assert(tree(m2, t as int) == Term::Binary(
                    BinaryOp::Mul,
                    Box::new(tree(m2, ai)),
                    Box::new(tree(m2, u as int)),
                ));
            }
            assert(tree(m2, t as int) == filled(
                product_term(c.val(), ut, md),
                subs@,
                mapped_trees(start, mapped@),
            ));
            if k > 0 {
                lemma_extends_tree(m2, m0, acc0 as int);
                assert(tree(out@, acc0 as int) == tree(m2, acc0 as int));
            }
            assert forall|v: spec_fn(Seq<char>) -> int| in_ring(v, md) implies #[trigger] emitted_terms(
                out@,
                acc as int,
                z@,
                k + 1,
                with_values(subs@, mapped_values(start, mapped@, v, md), v),
                v,
                md,
            ) by {
                let w = with_values(subs@, mapped_values(start, mapped@, v, md), v);
                let f = lu_terms(z@, w, md);
                T::lemma_modulus();
                lemma_with_values_in_ring::<T>(subs@, start, mapped@, v);
                lemma_mapped_values_extends(m0, start, mapped@, v, md);
                assert(emitted_uniform(m1, u as int, ut, subs@, m0, mapped@, v, md));
                let ue = ut.eval(w, md);
                assert(tree(m1, u as int).value(v, md) == ue);
                crate::pointwise::lemma_eval_in_ring(ut, w, T::bits());
                assert(f(k as int) == c.val() * ue);
                // The value of the term.
                let tv = tree(m2, t as int).value(v, md);
                if scaled {
                    lemma_mod_small(c.val(), md);
                    assert(tree(m2, ai).value(v, md) == c.val() % md);
                    assert(tree(m2, u as int).value(v, md) == ue);
                    assert(tv == binary_value(BinaryOp::Mul, c.val(), ue, md));
                    assert(tv == (c.val() * ue) % md);
                    lemma_cong_mod(c.val() * ue, md);
                } else {
                    assert(tv == ue);
                    assert(c.val() * ue == ue) by (nonlinear_arith)
                        requires
                            c.val() == 1,
                    ;
                }
                assert(cong(tv, c.val() * ue, md));
                assert(0 <= tv < md);
                assert(tree(out@, t as int) == tree(m2, t as int));
                if k > 0 {
                    assert(emitted_terms(m0, acc0 as int, z@, k as int, w, v, md));
                    lemma_extends_tree(m2, m0, acc0 as int);
                    assert(tree(out@, acc0 as int) == tree(m2, acc0 as int));
                    lemma_emit_step(
                        tree(m0, acc0 as int).value(v, md),
                        sum(f, k as int),
                        tv,
                        c.val(),
                        ue,
                        md,
                    );
                } else {
                    assert(sum(f, 0) == 0);
                    assert(sum(f, 1) == sum(f, 0) + f(0));
                }
            }
        }
        k += 1;
    }
    proof {
        assert forall|v: spec_fn(Seq<char>) -> int| in_ring(v, md) implies #[trigger] emitted_linear(
            out@,
            acc as int,
            e@,
            subs@,
            start,
            mapped@,
            v,
            md,
        ) by {
            let w = with_values(subs@, mapped_values(start, mapped@, v, md), v);
            assert(emitted_terms(out@, acc as int, z@, n as int, w, v, md));
            lemma_lu_sum_nonzero(e@, w, md);
            lemma_mod_small(tree(out@, acc as int).value(v, md), md);
        }
    }
    acc
}

/// Whether each node that has an obfuscated form has it among the nodes of `out`,
/// with its own value under every valuation into the ring of `m` elements where the
/// names of the variables are free for the placeholders.
pub open spec fn memo_ok<T: UnsignedInt>(
    memo: Seq<Option<usize>>,
    out: Seq<Node<T>>,
    nodes: Seq<Node<T>>,
    m: int,
) -> bool {
    forall|k: int|
        0 <= k < memo.len() ==> (#[trigger] memo[k] matches Some(j) ==> j < out.len() && (is_clean(
            nodes,
        ) ==> same_value(tree(out, j as int), tree(nodes, k), m)))
}

/// Whether the linear combination has the value of the expression of node `k`, where
/// the placeholders have the values of what they stand for, and no variable of the
/// nodes has a name that begins with an underscore.
pub open spec fn is_linear_form<T: UniformNum>(
    lu: &LUExpr<T>,
    subs: Seq<Placeholder>,
    nodes: Seq<Node<T>>,
    k: int,
) -> bool {
    is_clean(nodes) ==> forall|v: spec_fn(Seq<char>) -> int|
        cong(
            #[trigger] lu_sum(lu@, extended(nodes, subs, v, T::modulus()), T::modulus()),
            tree(nodes, k).value(v, T::modulus()),
            T::modulus(),
        )
}

/// Whether `lu` is the linear combination that node `k` is, with the placeholders
/// `subs` for nodes before it, where `counts` says which nodes are shared; the node
/// is no product, quotient, remainder or shift.
pub open spec fn is_form_of<T: UniformNum>(
    lu: &LUExpr<T>,
    subs: Seq<Placeholder>,
    nodes: Seq<Node<T>>,
    counts: Seq<u8>,
    k: int,
) -> bool {
    &&& 0 <= k < nodes.len()
    &&& !is_multiplicative(nodes[k])
    &&& (lu@, nodes_of(subs)) == linear_form(
        nodes,
        counts,
        k,
        k,
        false,
        Seq::empty(),
        Seq::empty(),
        T::modulus(),
    )
    &&& well_named(subs)
    &&& placeholders_below(subs, k)
    &&& is_linear_form(lu, subs, nodes, k)
}

/// Whether the rewrite of the linear combination that a node up to node `i` is can
/// fail.
pub open spec fn has_failing_part<T: UniformNum>(
    nodes: Seq<Node<T>>,
    counts: Seq<u8>,
    i: int,
    vars: Seq<String>,
    depth: int,
    count: int,
) -> bool {
    exists|k: int, lu: LUExpr<T>, subs: Seq<Placeholder>|
        0 <= k <= i && #[trigger] is_form_of(&lu, subs, nodes, counts, k) && can_fail(
            &lu,
            vars,
            depth,
            count,
        )
}

/// A part up to a node is one up to a later node.
pub proof fn lemma_failing_part<T: UniformNum>(
    nodes: Seq<Node<T>>,
    counts: Seq<u8>,
    i: int,
    j: int,
    vars: Seq<String>,
    depth: int,
    count: int,
)
    requires
        has_failing_part(nodes, counts, i, vars, depth, count),
        i <= j,
    ensures
        has_failing_part(nodes, counts, j, vars, depth, count),
{
    let (k, lu, subs) = choose|k: int, lu: LUExpr<T>, subs: Seq<Placeholder>|
        0 <= k <= i && #[trigger] is_form_of(&lu, subs, nodes, counts, k) && can_fail(
            &lu,
            vars,
            depth,
            count,
        );
    assert(0 <= k <= j && is_form_of(&lu, subs, nodes, counts, k) && can_fail(
        &lu,
        vars,
        depth,
        count,
    ));
}

/// Whether the expression `t` is the combination `x` as an expression, with the
/// expressions `trees` in the places of the placeholders `subs`, where `x` is a
/// rewrite, by a bank of operations as they are drawn, of the linear combination `lu`
/// that node `i` is, with the placeholders `subs` for nodes before it; `counts` says
/// which nodes are shared.
pub open spec fn is_rewritten_form<T: UniformNum>(
    t: Term,
    lu: &LUExpr<T>,
    subs: Seq<Placeholder>,
    x: Seq<(int, UTerm)>,
    trees: Seq<Term>,
    nodes: Seq<Node<T>>,
    counts: Seq<u8>,
    i: int,
    vars: Seq<String>,
    depth: int,
    count: int,
) -> bool {
    &&& is_form_of(lu, subs, nodes, counts, i)
    &&& forall|n: Seq<char>| lu_has_var(x, n) ==> #[trigger] is_known(n, vars, lu@)
    &&& is_drawn_rewrite::<T>(x, lu@, vars, depth, count)
    &&& trees.len() == subs.len()
    &&& t == filled(linear_term(x, T::modulus()), subs, trees)
}

/// Whether the expression `t` is an obfuscated form of node `i`. That of a product, a
/// quotient, a remainder or a shift is the same operation on obfuscated forms of its
/// operands. That of every other node is a rewrite of the linear combination that
/// the node is, as an expression, with obfuscated forms of the nodes that its
/// placeholders stand for in their places.
pub open spec fn is_obfuscation<T: UniformNum>(
    t: Term,
    nodes: Seq<Node<T>>,
    counts: Seq<u8>,
    i: int,
    vars: Seq<String>,
    depth: int,
    count: int,
) -> bool
    decreases i,
{
    if i < 0 || i >= nodes.len() {
        false
    } else if is_multiplicative(nodes[i]) {
        match nodes[i] {
            Node::Binary(op, a, b) => match t {
                Term::Binary(o, l, r) => o == op && a < i && b < i && is_obfuscation(
                    *l,
                    nodes,
                    counts,
                    a as int,
                    vars,
                    depth,
                    count,
                ) && is_obfuscation(*r, nodes, counts, b as int, vars, depth, count),
                _ => false,
            },
            _ => false,
        }
    } else {
        exists|lu: LUExpr<T>, subs: Seq<Placeholder>, x: Seq<(int, UTerm)>, trees: Seq<Term>|
            #[trigger] is_rewritten_form(
                t,
                &lu,
                subs,
                x,
                trees,
                nodes,
                counts,
                i,
                vars,
                depth,
                count,
            ) && forall|k: int|
                0 <= k < subs.len() ==> subs[k].node < i && is_obfuscation(
                    #[trigger] trees[k],
                    nodes,
                    counts,
                    subs[k].node as int,
                    vars,
                    depth,
                    count,
                )
    }
}

/// Whether the form of each node that has one is an obfuscated form of the node,
/// made with the names `vars`, the depth `depth` and the count `count`.
pub open spec fn memo_forms<T: UniformNum>(
    memo: Seq<Option<usize>>,
    out: Seq<Node<T>>,
    nodes: Seq<Node<T>>,
    counts: Seq<u8>,
    vars: Seq<String>,
    depth: int,
    count: int,
) -> bool {
    forall|k: int|
        0 <= k < memo.len() ==> (#[trigger] memo[k] matches Some(j) ==> is_obfuscation(
            tree(out, j as int),
            nodes,
            counts,
            k,
            vars,
            depth,
            count,
        ))
}

/// The obfuscated forms stay when nodes are put after them.
pub proof fn lemma_forms_extend<T: UniformNum>(
    memo: Seq<Option<usize>>,
    b: Seq<Node<T>>,
    a: Seq<Node<T>>,
    nodes: Seq<Node<T>>,
    counts: Seq<u8>,
    vars: Seq<String>,
    depth: int,
    count: int,
)
    requires
        memo_forms(memo, a, nodes, counts, vars, depth, count),
        memo_ok(memo, a, nodes, T::modulus()),
        extends(b, a),
    ensures
        memo_forms(memo, b, nodes, counts, vars, depth, count),
{
    assert forall|k: int| 0 <= k < memo.len() implies (#[trigger] memo[k] matches Some(j)
        ==> is_obfuscation(tree(b, j as int), nodes, counts, k, vars, depth, count)) by {
        if let Some(j) = memo[k] {
            lemma_extends_tree(b, a, j as int);
        }
    }
}

/// Whether each node that had an obfuscated form before has the same form after.
pub open spec fn memo_kept(after: Seq<Option<usize>>, before: Seq<Option<usize>>) -> bool {
    &&& after.len() == before.len()
    &&& forall|k: int|
        0 <= k < before.len() && (#[trigger] before[k]) is Some ==> after[k] == before[k]
}

/// Whether no node up to node `i` has an obfuscated form.
pub open spec fn none_upto(memo: Seq<Option<usize>>, i: int) -> bool {
    forall|k: int| 0 <= k <= i && k < memo.len() ==> (#[trigger] memo[k]) is None
}

/// Forms that are kept, and kept again, are kept.
pub proof fn lemma_memo_kept(
    c: Seq<Option<usize>>,
    b: Seq<Option<usize>>,
    a: Seq<Option<usize>>,
)
    requires
        memo_kept(c, b),
        memo_kept(b, a),
    ensures
        memo_kept(c, a),
{
    assert forall|k: int| 0 <= k < a.len() && (#[trigger] a[k]) is Some implies c[k] == a[k] by {
        assert(b[k] == a[k]);
        assert(b[k] is Some);
    }
}

/// Nodes keep their obfuscated forms when nodes are put after these.
pub proof fn lemma_memo_extends<T: UnsignedInt>(
    memo: Seq<Option<usize>>,
    b: Seq<Node<T>>,
    a: Seq<Node<T>>,
    nodes: Seq<Node<T>>,
    m: int,
)
    requires
        memo_ok(memo, a, nodes, m),
        extends(b, a),
    ensures
        memo_ok(memo, b, nodes, m),
{
    assert forall|k: int| 0 <= k < memo.len() implies (#[trigger] memo[k] matches Some(j) ==> j
        < b.len() && (is_clean(nodes) ==> same_value(tree(b, j as int), tree(nodes, k), m))) by {
        match memo[k] {
            Some(j) => {
                lemma_extends_tree(b, a, j as int);
            },
            None => {},
        }
    }
}

/// An operation on the obfuscated forms of two operands has the value of the
/// operation on the operands.
pub proof fn lemma_same_binary(op: BinaryOp, a: Term, b: Term, l: Term, r: Term, m: int)
    requires
        same_value(a, l, m),
        same_value(b, r, m),
    ensures
        same_value(Term::Binary(op, Box::new(a), Box::new(b)), Term::Binary(op, Box::new(l), Box::new(r)), m),
{
    let x = Term::Binary(op, Box::new(a), Box::new(b));
    let y = Term::Binary(op, Box::new(l), Box::new(r));
    assert forall|v: spec_fn(Seq<char>) -> int| in_ring(v, m) implies #[trigger] x.value(v, m)
        == y.value(v, m) by {
        assert(a.value(v, m) == l.value(v, m));
        assert(b.value(v, m) == r.value(v, m));
    }
}

/// The rewritten linear combination of the expression of node `i`, with the
/// obfuscated forms of the subexpressions in the places of the placeholders, has
/// the value of the expression.
pub proof fn lemma_rewritten<T: UnsignedInt>(
    nodes: Seq<Node<T>>,
    i: int,
    lu: Seq<(int, UTerm)>,
    rewritten: Seq<(int, UTerm)>,
    subs: Seq<Placeholder>,
    base: Seq<Node<T>>,
    mapped: Seq<usize>,
    out: Seq<Node<T>>,
    idx: int,
)
    requires
        well_named(subs),
        mapped.len() == subs.len(),
        agrees(rewritten, lu, T::modulus()),
        forall|full: Seq<Placeholder>, v: spec_fn(Seq<char>) -> int|
            begins_with(full, subs) && well_named(full) ==> #[trigger] linear_of(
                lu,
                Seq::empty(),
                false,
                nodes,
                i,
                full,
                v,
                T::modulus(),
            ),
        forall|k: int|
            0 <= k < subs.len() ==> same_value(
                #[trigger] tree(base, mapped[k] as int),
                tree(nodes, subs[k].node as int),
                T::modulus(),
            ),
        forall|v: spec_fn(Seq<char>) -> int|
            in_ring(v, T::modulus()) ==> #[trigger] emitted_linear(
                out,
                idx,
                rewritten,
                subs,
                base,
                mapped,
                v,
                T::modulus(),
            ),
    ensures
        same_value(tree(out, idx), tree(nodes, i), T::modulus()),
{
    let m = T::modulus();
    T::lemma_modulus();
    assert forall|v: spec_fn(Seq<char>) -> int| in_ring(v, m) implies #[trigger] tree(
        out,
        idx,
    ).value(v, m) == tree(nodes, i).value(v, m) by {
        let w = extended(nodes, subs, v, m);
        let wm = with_values(subs, mapped_values(base, mapped, v, m), v);
        assert forall|k: int| 0 <= k < subs.len() implies mapped_values(base, mapped, v, m)[k]
            == sub_values(nodes, subs, v, m)[k] by {
            assert(same_value(tree(base, mapped[k] as int), tree(nodes, subs[k].node as int), m));
            assert(tree(base, mapped[k] as int).value(v, m) == tree(
                nodes,
                subs[k].node as int,
            ).value(v, m));
        }
        assert(mapped_values(base, mapped, v, m) =~= sub_values(nodes, subs, v, m));
        assert(wm == w);
        lemma_with_values_in_ring::<T>(subs, base, mapped, v);
        assert(emitted_linear(out, idx, rewritten, subs, base, mapped, v, m));
        assert(lu_eval(rewritten, w, m) == lu_eval(lu, w, m));
        assert(begins_with(subs, subs));
        assert(linear_of(lu, Seq::empty(), false, nodes, i, subs, v, m));
        let x = tree(nodes, i).value(v, m);
        lemma_value_in_ring(tree(nodes, i), v, T::bits());
        assert(lu_sum(Seq::<(int, UTerm)>::empty(), w, m) == 0);
        assert(1 * x == x);
        lemma_mod_small(x, m);
    }
}

impl<T: UniformNum> Expr<T> {
    /// Puts the obfuscated form of the expression of node `i` after `out`, and gives
    /// the index of its node; each node is obfuscated once: a node that has an
    /// obfuscated form keeps it, and where node `i` has one, that is given, and
    /// nothing is put after `out`. A product, a quotient, a
    /// remainder or a shift keeps its operator over the obfuscated forms of its
    /// operands. Every other node is taken as a linear combination of uniform
    /// expressions, with placeholders for what is none, and rewritten; the
    /// obfuscated forms of what the placeholders stand for take their places. The
    /// result is `None` where a rewrite fails. The obfuscated form has the value of
    /// the expression under every valuation, where no variable has a name that
    /// begins with an underscore, as the names of the placeholders do. Where the
    /// forms that the nodes have were made with these names, depth and count, the
    /// result is such a form, and its variables are those of the node and the names.
    pub fn obfuscate_expr(
        &self,
        i: usize,
        counts: &Vec<u8>,
        memo: &mut Vec<Option<usize>>,
        out: &mut Vec<Node<T>>,
        vars: &Vec<String>,
        depth: u8,
        count: usize,
    ) -> (r: Option<usize>)
        requires
            self.wf(),
            i < self.nodes@.len(),
            counts@.len() == self.nodes@.len(),
            old(memo)@.len() == self.nodes@.len(),
            nodes_ok(old(out)@),
            memo_ok(old(memo)@, old(out)@, self.nodes@, T::modulus()),
        ensures
            final(memo)@.len() == self.nodes@.len(),
            extends(final(out)@, old(out)@),
            memo_ok(final(memo)@, final(out)@, self.nodes@, T::modulus()),
            memo_forms(
                old(memo)@,
                old(out)@,
                self.nodes@,
                counts@,
                vars@,
                depth as int,
                count as int,
            ) ==> {
                &&& memo_forms(
                    final(memo)@,
                    final(out)@,
                    self.nodes@,
                    counts@,
                    vars@,
                    depth as int,
                    count as int,
                )
                &&& r matches Some(j) ==> has_vars_of(
                    tree(final(out)@, j as int),
                    vars@,
                    tree(self.nodes@, i as int),
                )
                &&& r matches Some(j) ==> is_obfuscation(
                    tree(final(out)@, j as int),
                    self.nodes@,
                    counts@,
                    i as int,
                    vars@,
                    depth as int,
                    count as int,
                )
            },
            memo_kept(final(memo)@, old(memo)@),
            old(memo)@[i as int] matches Some(j) ==> r == Some(j) && final(out)@ == old(out)@
                && final(memo)@ == old(memo)@,
            r matches Some(j) ==> final(memo)@[i as int] == Some(j) && j < final(out)@.len() && (
            is_clean(self.nodes@) ==> same_value(
                tree(final(out)@, j as int),
                tree(self.nodes@, i as int),
                T::modulus(),
            )),
            count == 0 && none_upto(old(memo)@, i as int) ==> r is None && final(memo)@ == old(
                memo,
            )@,
            r is None ==> has_failing_part(
                self.nodes@,
                counts@,
                i as int,
                vars@,
                depth as int,
                count as int,
            ),
        decreases i,
    {
        let ghost start = out@;
        let ghost memo0 = memo@;
        let ghost md = T::modulus();
        let ghost nodes = self.nodes@;
        let ghost formed = memo_forms(
            memo@,
            out@,
            nodes,
            counts@,
            vars@,
            depth as int,
            count as int,
        );
        match memo[i] {
            Some(j) => {
                proof {
                    assert(extends(out@, start));
                    if formed {
                        lemma_obfuscation_known(
                            tree(out@, j as int),
                            nodes,
                            counts@,
                            i as int,
                            vars@,
                            depth as int,
                            count as int,
                        );
                    }
                }
                return Some(j);
            },
            None => {},
        }
        proof {
            assert(node_ok(self.nodes@, i as int));
        }
        let multiplicative: bool = match &self.nodes[i] {
            Node::Binary(op, _, _) => *op == BinaryOp::Mul || *op == BinaryOp::Div || *op
                == BinaryOp::Mod || *op == BinaryOp::Shl || *op == BinaryOp::Shr,
            _ => false,
        };
        let idx: usize;
        if multiplicative {
            let (op, l, r) = match &self.nodes[i] {
                Node::Binary(op, l, r) => (*op, *l, *r),
                _ => {
                    proof {
                        assert(extends(out@, start));
                        assert(!multiplicative);
                    }
                    return None;
                },
            };
            proof {
                assert(none_upto(memo0, i as int) ==> none_upto(memo0, l as int));
            }
            let a = match self.obfuscate_expr(l, counts, memo, out, vars, depth, count) {
                Some(a) => a,
                None => {
                    proof {
                        lemma_failing_part(
                            nodes,
                            counts@,
                            l as int,
                            i as int,
                            vars@,
                            depth as int,
                            count as int,
                        );
                    }
                    return None;
                },
            };
            let ghost m1 = out@;
            let ghost memo1 = memo@;
            let b = match self.obfuscate_expr(r, counts, memo, out, vars, depth, count) {
                Some(b) => b,
                None => {
                    proof {
                        lemma_extends_trans(out@, m1, start);
                        lemma_memo_kept(memo@, memo1, memo0);
                        lemma_failing_part(
                            nodes,
                            counts@,
                            r as int,
                            i as int,
                            vars@,
                            depth as int,
                            count as int,
                        );
                    }
                    return None;
                },
            };
            let ghost m2 = out@;
            proof {
                lemma_memo_kept(memo@, memo1, memo0);
            }
            idx = push_node(out, Node::Binary(op, a, b));
            proof {
                lemma_extends_trans(m2, m1, start);
                lemma_extends_trans(out@, m2, start);
                if formed {
                    lemma_forms_extend(
                        memo@,
                        out@,
                        m2,
                        nodes,
                        counts@,
                        vars@,
                        depth as int,
                        count as int,
                    );
                }
                lemma_memo_extends(memo@, out@, m2, nodes, md);
                lemma_extends_tree(m2, m1, a as int);
                assert(tree(out@, a as int) == tree(m2, a as int));
                assert(tree(out@, b as int) == tree(m2, b as int));
                assert(tree(out@, idx as int) == Term::Binary(
                    op,
                    Box::new(tree(out@, a as int)),
                    Box::new(tree(out@, b as int)),
                ));
                assert(tree(nodes, i as int) == Term::Binary(
                    op,
                    Box::new(tree(nodes, l as int)),
                    Box::new(tree(nodes, r as int)),
                ));
                if is_clean(nodes) {
                    lemma_same_binary(
                        op,
                        tree(out@, a as int),
                        tree(out@, b as int),
                        tree(nodes, l as int),
                        tree(nodes, r as int),
                        md,
                    );
                }
                assert(formed ==> is_obfuscation(
                    tree(out@, idx as int),
                    nodes,
                    counts@,
                    i as int,
                    vars@,
                    depth as int,
                    count as int,
                ));
            }
        } else {
            // The largest subexpression that is a linear combination, and the
            // substitutions in it.
            let mut lu = LUExpr::<T>(Vec::new());
            let mut subs: Vec<Placeholder> = Vec::new();
            proof {
                assert(lu@ =~= Seq::empty());
                assert(nodes_of(subs@) =~= Seq::empty());
            }
            self.expr_to_luexpr(i, counts, &mut lu, &mut subs, false, i);
            proof {
                if is_clean(nodes) {
                    assert forall|v: spec_fn(Seq<char>) -> int|
                        cong(
                            #[trigger] lu_sum(lu@, extended(nodes, subs@, v, md), md),
                            tree(nodes, i as int).value(v, md),
                            md,
                        ) by {
                        assert(begins_with(subs@, subs@));
                        assert(linear_of(
                            lu@,
                            Seq::empty(),
                            false,
                            nodes,
                            i as int,
                            subs@,
                            v,
                            md,
                        ));
                        let w = extended(nodes, subs@, v, md);
                        assert(lu_sum(Seq::<(int, UTerm)>::empty(), w, md) == 0);
                        assert(1 * tree(nodes, i as int).value(v, md) == tree(
                            nodes,
                            i as int,
                        ).value(v, md));
                    }
                }
                assert(is_linear_form(&lu, subs@, nodes, i as int));
                assert(is_form_of(&lu, subs@, nodes, counts@, i as int));
            }
            let rewritten = match rewrite_random(&lu, vars, depth, count) {
                Some(r) => r,
                None => {
                    proof {
                        assert(extends(out@, start));
                        assert(has_failing_part(
                            nodes,
                            counts@,
                            i as int,
                            vars@,
                            depth as int,
                            count as int,
                        ));
                    }
                    return None;
                },
            };
            // Obfuscate the substituted expressions.
            let mut mapped: Vec<usize> = Vec::new();
            let mut k: usize = 0;
            while k < subs.len()
                invariant
                    self.wf(),
                    i < self.nodes@.len(),
                    nodes == self.nodes@,
                    md == T::modulus(),
                    counts@.len() == self.nodes@.len(),
                    memo@.len() == self.nodes@.len(),
                    placeholders_below(subs@, i as int),
                    k <= subs@.len(),
                    mapped@.len() == k,
                    start == old(out)@,
                    extends(out@, start),
                    memo_ok(memo@, out@, nodes, md),
                    formed == memo_forms(
                        memo0,
                        start,
                        nodes,
                        counts@,
                        vars@,
                        depth as int,
                        count as int,
                    ),
                    formed ==> memo_forms(
                        memo@,
                        out@,
                        nodes,
                        counts@,
                        vars@,
                        depth as int,
                        count as int,
                    ),
                    memo_kept(memo@, memo0),
                    memo0 == old(memo)@,
                    memo0[i as int] is None,
                    count > 0,
                    forall|j: int| 0 <= j < k ==> #[trigger] mapped@[j] < out@.len(),
                    formed ==> forall|j: int|
                        0 <= j < k ==> is_obfuscation(
                            tree(out@, #[trigger] mapped@[j] as int),
                            nodes,
                            counts@,
                            subs@[j].node as int,
                            vars@,
                            depth as int,
                            count as int,
                        ),
                    is_clean(nodes) ==> forall|j: int|
                        0 <= j < k ==> same_value(
                            #[trigger] tree(out@, mapped@[j] as int),
                            tree(nodes, subs@[j].node as int),
                            md,
                        ),
                decreases subs@.len() - k,
            {
                let ghost m0 = out@;
                let ghost mapped0 = mapped@;
                let ghost memo1 = memo@;
                proof {
                    assert(subs@[k as int].node < i);
                }
                let j = match self.obfuscate_expr(
                    subs[k].node,
                    counts,
                    memo,
                    out,
                    vars,
                    depth,
                    count,
                ) {
                    Some(j) => j,
                    None => {
                        proof {
                            lemma_extends_trans(out@, m0, start);
                            lemma_memo_kept(memo@, memo1, memo0);
                            lemma_failing_part(
                                nodes,
                                counts@,
                                subs@[k as int].node as int,
                                i as int,
                                vars@,
                                depth as int,
                                count as int,
                            );
                        }
                        return None;
                    },
                };
                mapped.push(j);
                proof {
                    lemma_extends_trans(out@, m0, start);
                    lemma_memo_kept(memo@, memo1, memo0);
                    if formed {
                        assert forall|q: int| 0 <= q < k + 1 implies is_obfuscation(
                            tree(out@, #[trigger] mapped@[q] as int),
                            nodes,
                            counts@,
                            subs@[q].node as int,
                            vars@,
                            depth as int,
                            count as int,
                        ) by {
                            if q < k {
                                assert(mapped@[q] == mapped0[q]);
                                lemma_extends_tree(out@, m0, mapped0[q] as int);
                            }
                        }
                    }
                    if is_clean(nodes) {
                        assert forall|q: int| 0 <= q < k + 1 implies same_value(
                            #[trigger] tree(out@, mapped@[q] as int),
                            tree(nodes, subs@[q].node as int),
                            md,
                        ) by {
                            if q < k {
                                assert(mapped@[q] == mapped0[q]);
                                lemma_extends_tree(out@, m0, mapped0[q] as int);
                                assert(same_value(
                                    tree(m0, mapped0[q] as int),
                                    tree(nodes, subs@[q].node as int),
                                    md,
                                ));
                            }
                        }
                    }
                }
                k += 1;
            }
            let ghost m1 = out@;
            // Put them in the places of the variables.
            idx = emit_linear(&rewritten, out, &subs, &mapped);
            proof {
                lemma_extends_trans(out@, m1, start);
                lemma_memo_extends(memo@, out@, m1, nodes, md);
                let trees = mapped_trees(m1, mapped@);
                if formed {
                    lemma_forms_extend(
                        memo@,
                        out@,
                        m1,
                        nodes,
                        counts@,
                        vars@,
                        depth as int,
                        count as int,
                    );
                    assert forall|q: int| 0 <= q < subs@.len() implies subs@[q].node < i
                        && is_obfuscation(
                        #[trigger] trees[q],
                        nodes,
                        counts@,
                        subs@[q].node as int,
                        vars@,
                        depth as int,
                        count as int,
                    ) by {
                        assert(trees[q] == tree(m1, mapped@[q] as int));
                    }
                }
                assert(is_rewritten_form(
                    tree(out@, idx as int),
                    &lu,
                    subs@,
                    rewritten@,
                    trees,
                    nodes,
                    counts@,
                    i as int,
                    vars@,
                    depth as int,
                    count as int,
                ));
                assert(formed ==> is_obfuscation(
                    tree(out@, idx as int),
                    nodes,
                    counts@,
                    i as int,
                    vars@,
                    depth as int,
                    count as int,
                ));
                if is_clean(nodes) {
                    lemma_rewritten::<T>(
                        nodes,
                        i as int,
                        lu@,
                        rewritten@,
                        subs@,
                        m1,
                        mapped@,
                        out@,
                        idx as int,
                    );
                }
            }
        }
        let ghost memo2 = memo@;
        memo.set(i, Some(idx));
        proof {
            if formed {
                lemma_obfuscation_known(
                    tree(out@, idx as int),
                    nodes,
                    counts@,
                    i as int,
                    vars@,
                    depth as int,
                    count as int,
                );
            }
            assert(memo_kept(memo2, memo0));
            assert(memo0[i as int] is None);
            assert forall|k: int| 0 <= k < memo0.len() && (#[trigger] memo0[k]) is Some implies memo@[k]
                == memo0[k] by {
                assert(memo2[k] == memo0[k]);
            }
        }
        Some(idx)
    }

    /// The obfuscated form of the expression: each part that is a linear combination
    /// of uniform expressions is rewritten as a linear combination of `count` random
    /// uniform expressions, of the depth `depth` at most, over the variables `vars`
    /// and its own. The result is `None` where a rewrite fails, as each does where
    /// `count` is zero. The obfuscated form has the value of the expression under
    /// every valuation, where no variable has a name that begins with an underscore,
    /// as the names of the placeholders do. A product, a quotient, a remainder and a
    /// shift keep their operators; every other node is the rewrite of the linear
    /// combination that it is, with the obfuscated forms of the nodes that its
    /// placeholders stand for in their places. Each variable of the result is one of
    /// the expression or one of `vars`.
    pub fn obfuscated(&self, vars: &Vec<String>, depth: u8, count: usize) -> (r: Option<Expr<T>>)
        requires
            self.wf(),
        ensures
            r matches Some(e) ==> e.wf() && (is_clean(self.nodes@) ==> same_value(
                e@,
                self@,
                T::modulus(),
            )),
            r matches Some(e) ==> is_obfuscation(
                e@,
                self.nodes@,
                counts_of(self.nodes@, self.root as int),
                self.root as int,
                vars@,
                depth as int,
                count as int,
            ),
            r matches Some(e) ==> has_vars_of(e@, vars@, self@),
            r matches Some(e) ==> (is_clean(self.nodes@) && no_reserved(vars@) ==> is_plain(e@)),
            count == 0 ==> r is None,
            r is None ==> has_failing_part(
                self.nodes@,
                counts_of(self.nodes@, self.root as int),
                self.root as int,
                vars@,
                depth as int,
                count as int,
            ),
    {
        let counts = self.use_counts();
        proof {
            assert(counts@ =~= counts_of(self.nodes@, self.root as int));
        }
        let n: usize = self.nodes.len();
        let mut memo: Vec<Option<usize>> = Vec::new();
        let mut k: usize = 0;
        while k < n
            invariant
                k <= n,
                memo@.len() == k,
                forall|j: int| 0 <= j < k ==> (#[trigger] memo@[j]) is None,
            decreases n - k,
        {
            memo.push(None);
            k += 1;
        }
        let mut out: Vec<Node<T>> = Vec::new();
        match self.obfuscate_expr(self.root, &counts, &mut memo, &mut out, vars, depth, count) {
            Some(root) => {
                proof {
                    if is_clean(self.nodes@) && no_reserved(vars@) {
                        lemma_obfuscation_plain(
                            tree(out@, root as int),
                            self.nodes@,
                            counts@,
                            self.root as int,
                            vars@,
                            depth as int,
                            count as int,
                        );
                    }
                }
                Some(Expr { nodes: out, root })
            },
            None => None,
        }
    }
}

/// The width of the ring in bits.
#[derive(Clone, Copy, Debug, PartialEq, Eq, Structural)]
pub enum Bitness {
    U8,
    U16,
    U32,
    U64,
    U128,
}

/// What to obfuscate, and how.
#[derive(Debug)]
pub struct ObfuscationConfig {
    /// The expression to obfuscate.
    pub expr: String,
    /// The integer width.
    pub width: Bitness,
    /// How to print the result.
    pub printer: Printer,
    /// The number of auxiliary variables to use.
    pub aux_vars: usize,
    /// The depth of the rewrite expressions.
    pub rewrite_depth: u8,
    /// The number of rewrite expressions to use.
    pub rewrite_count: usize,
}

impl ObfuscationConfig {
    /// The configuration with no expression, 8 bits, the printer for C, no
    /// auxiliary variables, and 24 rewrite expressions of depth 3.
    pub fn new() -> (c: Self)
        ensures
            c.expr@.len() == 0,
            c.width == Bitness::U8,
            c.printer == Printer::C,
            c.aux_vars == 0,
            c.rewrite_depth == 3,
            c.rewrite_count == 24,
    {
        Self {
            expr: String::new(),
            width: Bitness::U8,
            printer: Printer::C,
            aux_vars: 0,
            rewrite_depth: 3,
            rewrite_count: 24,
        }
    }

    /// Sets the expression to obfuscate.
    pub fn set_expr(&mut self, expr: String)
        ensures
            final(self).expr@ == expr@,
            final(self).width == old(self).width,
            final(self).printer == old(self).printer,
            final(self).aux_vars == old(self).aux_vars,
            final(self).rewrite_depth == old(self).rewrite_depth,
            final(self).rewrite_count == old(self).rewrite_count,
    {
        self.expr = expr;
    }
}

/// A linear combination to rewrite, and the operations to rewrite it with.
#[derive(Debug)]
pub struct ObfLinReq {
    /// The expression to obfuscate.
    pub expr: String,
    /// The operations used for rewriting.
    pub ops: Vec<String>,
    /// The integer width.
    pub bits: Bitness,
    /// Should the solution be randomized.
    pub randomize: bool,
    /// How to print the result.
    pub printer: Printer,
}

impl ObfLinReq {
    /// The request with no expression and no operations, 8 bits, a random solution
    /// and the printer for C.
    pub fn new() -> (r: Self)
        ensures
            r.expr@.len() == 0,
            r.ops@.len() == 0,
            r.bits == Bitness::U8,
            r.randomize,
            r.printer == Printer::C,
    {
        Self {
            expr: String::new(),
            ops: Vec::new(),
            bits: Bitness::U8,
            randomize: true,
            printer: Printer::C,
        }
    }

    /// Sets the expression to rewrite.
    pub fn set_expr(&mut self, expr: String)
        ensures
            final(self).expr@ == expr@,
            final(self).ops@ == old(self).ops@,
            final(self).bits == old(self).bits,
            final(self).randomize == old(self).randomize,
            final(self).printer == old(self).printer,
    {
        self.expr = expr;
    }

    /// Adds an operation to rewrite with.
    pub fn add_op(&mut self, op: String)
        ensures
            final(self).ops@ == old(self).ops@.push(op),
            final(self).expr@ == old(self).expr@,
            final(self).bits == old(self).bits,
            final(self).randomize == old(self).randomize,
            final(self).printer == old(self).printer,
    {
        self.ops.push(op);
    }
}

/// Whether `vars` holds the names `own` and after them the names of `aux` auxiliary
/// variables: `aux` and their numbers, from zero.
pub open spec fn with_auxiliaries(vars: Seq<String>, own: Seq<String>, aux: int) -> bool {
    &&& vars.len() == own.len() + aux
    &&& forall|k: int| 0 <= k < own.len() ==> (#[trigger] vars[k])@ == own[k]@
    &&& forall|k: int|
        own.len() <= k < vars.len() ==> (#[trigger] vars[k])@ == "aux"@ + decimal(k - own.len())
}

/// Whether `e` is an expression that was read as `t`, and `vars` holds the names to
/// draw from: the variables `own` of `t`, sorted, and the auxiliary variables of the
/// configuration.
pub open spec fn is_read_for<T: UniformNum>(
    e: &Expr<T>,
    vars: Seq<String>,
    own: Seq<String>,
    t: Term,
    cfg: &ObfuscationConfig,
) -> bool {
    &&& e.wf()
    &&& is_clean(e.nodes@)
    &&& e@ == t
    &&& sorted_names(own)
    &&& forall|n: Seq<char>| has_name(own, n) <==> t.vars().contains(n)
    &&& with_auxiliaries(vars, own, cfg.aux_vars as int)
}

/// Whether the obfuscation of an expression that was read as `t` can fail: the
/// rewrite of the linear combination that one of its nodes is can.
pub open spec fn obfuscation_fails<T: UniformNum>(t: Term, cfg: &ObfuscationConfig) -> bool {
    exists|e: Expr<T>, vars: Seq<String>, own: Seq<String>| #[trigger]
        is_read_for(&e, vars, own, t, cfg) && has_failing_part(
            e.nodes@,
            counts_of(e.nodes@, e.root as int),
            e.root as int,
            vars,
            cfg.rewrite_depth as int,
            cfg.rewrite_count as int,
        )
}

/// Whether `o` is an obfuscated form of the expression `e` that was read as `t`,
/// with the names `vars` to draw from: the variables `own` of `t`, sorted, and the
/// auxiliary variables of the configuration.
pub open spec fn is_obfuscated_from<T: UniformNum>(
    o: &Expr<T>,
    e: &Expr<T>,
    vars: Seq<String>,
    own: Seq<String>,
    t: Term,
    cfg: &ObfuscationConfig,
) -> bool {
    &&& is_read_for(e, vars, own, t, cfg)
    &&& is_obfuscation(
        o@,
        e.nodes@,
        counts_of(e.nodes@, e.root as int),
        e.root as int,
        vars,
        cfg.rewrite_depth as int,
        cfg.rewrite_count as int,
    )
}

/// Whether the text is a function, in the language of the printer, of an obfuscated
/// form of an expression that was read as `t`: it has the value of `t` under every
/// valuation into the ring of `T`.
pub open spec fn obfuscation_of<T: UniformNum>(
    text: Seq<char>,
    t: Term,
    cfg: &ObfuscationConfig,
) -> bool {
    exists|o: Expr<T>, e: Expr<T>, vars: Seq<String>, own: Seq<String>|
        o.wf() && same_value(o@, t, T::modulus()) && is_function_of(text, &o, cfg.printer)
            && #[trigger] is_obfuscated_from(&o, &e, vars, own, t, cfg)
}

/// What the obfuscation of the expression of a configuration gives over the ring of
/// `T`: the error of the text where it is no expression; an error where there is no
/// variable to obfuscate with, and else where the printer is that for LaTeX; and
/// else an obfuscated function, or the error that a rewrite failed.
pub open spec fn obfuscation_result<T: UniformNum>(
    r: Result<String, String>,
    cfg: &ObfuscationConfig,
) -> bool {
    if !cfg.expr.is_ascii() {
        r matches Err(msg) && msg@ == ExprError::UnrecognizedCharacter.text()
    } else {
        match parse_expr(stripped(cfg.expr@), 0, 0, T::modulus()) {
            Parsed::Failed(x) => r matches Err(msg) && msg@ == x.text(),
            Parsed::Done(t, _) => if t.vars() =~= Set::empty() && cfg.aux_vars == 0 {
                r matches Err(msg) && msg@
                    == "No variables to obfuscate with. Add auxiliary variables."@
            } else if cfg.printer == Printer::Tex {
                r matches Err(msg) && msg@
                    == "Tex printing is not supported for general expressions."@
            } else {
                match r {
                    Ok(text) => obfuscation_of::<T>(text@, t, cfg),
                    Err(msg) => msg@ == "Failed to rewrite uniform expression."@
                        && obfuscation_fails::<T>(t, cfg),
                }
            },
        }
    }
}

/// Obfuscates the expression of the configuration over the ring of `T`, and prints
/// it. It is an error where the text is no expression, where there is no variable to
/// obfuscate with, where the printer is that for LaTeX, and where a rewrite fails.
pub fn obfuscate_impl<T: UniformNum>(cfg: &ObfuscationConfig) -> (r: Result<String, String>)
    ensures
        obfuscation_result::<T>(r, cfg),
{
    let e = match Expr::<T>::from_string(cfg.expr.as_str()) {
        Ok(e) => e,
        Err(msg) => {
            return Err(msg);
        },
    };
    let mut vars = e.vars();
    let ghost own = vars@;
    let mut i: usize = 0;
    while i < cfg.aux_vars
        invariant
            i <= cfg.aux_vars,
            with_auxiliaries(vars@, own, i as int),
        decreases cfg.aux_vars - i,
    {
        let mut name = String::from_str("aux");
        push_decimal(&mut name, i as u128);
        vars.push(name);
        i += 1;
    }
    proof {
        if own.len() > 0 {
            assert(has_name(own, own[0]@));
            assert(e@.vars().contains(own[0]@));
        } else {
            assert forall|n: Seq<char>| !e@.vars().contains(n) by {
                assert(!has_name(own, n));
            }
            assert(e@.vars() =~= Set::empty());
        }
    }
    if vars.len() == 0 {
        return Err(String::from_str("No variables to obfuscate with. Add auxiliary variables."));
    }
    if cfg.printer == Printer::Tex {
        return Err(String::from_str("Tex printing is not supported for general expressions."));
    }
    match e.obfuscated(&vars, cfg.rewrite_depth, cfg.rewrite_count) {
        Some(o) => {
            let text = o.print_as_fn(cfg.printer);
            proof {
                assert(is_function_of(text@, &o, cfg.printer));
                assert(is_obfuscated_from(&o, &e, vars@, own, e@, cfg));
            }
            Ok(text)
        },
        None => {
            proof {
                assert(is_read_for(&e, vars@, own, e@, cfg));
            }
            Err(String::from_str("Failed to rewrite uniform expression."))
        },
    }
}

/// Obfuscates the expression of the configuration over the ring of its width, and
/// prints it.
pub fn obfuscate(cfg: &ObfuscationConfig) -> (r: Result<String, String>)
    ensures
        match cfg.width {
            Bitness::U8 => obfuscation_result::<u8>(r, cfg),
            Bitness::U16 => obfuscation_result::<u16>(r, cfg),
            Bitness::U32 => obfuscation_result::<u32>(r, cfg),
            Bitness::U64 => obfuscation_result::<u64>(r, cfg),
            Bitness::U128 => obfuscation_result::<u128>(r, cfg),
        },
{
    match cfg.width {
        Bitness::U8 => obfuscate_impl::<u8>(cfg),
        Bitness::U16 => obfuscate_impl::<u16>(cfg),
        Bitness::U32 => obfuscate_impl::<u32>(cfg),
        Bitness::U64 => obfuscate_impl::<u64>(cfg),
        Bitness::U128 => obfuscate_impl::<u128>(cfg),
    }
}

/// The linear combination that a text writes over the ring of `T`, white space
/// aside; `None` where it writes none.
pub open spec fn read_linear<T: UniformNum>(s: Seq<char>) -> Option<Seq<(int, UTerm)>> {
    if vstd::utf8::is_ascii_chars(s) {
        parse_linear(stripped(s), 0, false, Seq::empty(), T::modulus())
    } else {
        None
    }
}

/// Whether the text is, in the language of the printer, a linear combination
/// without terms of the coefficient zero that has the value of `e` under every
/// valuation into the ring of `T`.
pub open spec fn rewriting_of<T: UniformNum>(
    text: Seq<char>,
    e: Seq<(int, UTerm)>,
    ops: Seq<Seq<(int, UTerm)>>,
    printer: Printer,
) -> bool {
    exists|x: Seq<(int, UTerm)>|
        is_rewrite(x, e, ops, T::modulus()) && agrees(x, e, T::modulus()) && (forall|i: int|
            0 <= i < x.len() ==> (#[trigger] x[i]).0 != 0) && #[trigger] printer.prints_linear::<T>(
            text,
            x,
        )
}

/// The linear combinations that the texts of the operations write.
pub open spec fn read_operations<T: UniformNum>(ops: Seq<String>) -> Seq<Seq<(int, UTerm)>> {
    Seq::new(ops.len(), |i: int| read_linear::<T>(ops[i]@)->Some_0)
}

/// Whether there is no operation, or the linear combination cannot be rewritten
/// with the operations: their truth table is too large for this machine, or no
/// combination of the operations has its values on the truth table.
pub open spec fn no_rewriting<T: UniformNum>(e: Seq<(int, UTerm)>, ops: Seq<Seq<(int, UTerm)>>) -> bool {
    exists|x: LUExpr<T>, o: Seq<LUExpr<T>>|
        x@ == e && views(o) == ops && #[trigger] none_or_cannot(&x, o)
}

/// Whether there is no operation, or the linear combination cannot be rewritten
/// with the operations.
pub open spec fn none_or_cannot<T: UniformNum>(e: &LUExpr<T>, ops: Seq<LUExpr<T>>) -> bool {
    ops.len() == 0 || cannot_rewrite(e, ops)
}

/// What the rewriting of the expression of a request gives over the ring of `T`: an
/// error where the text of the expression is no linear combination, and else where
/// that of an operation is none; and else the rewritten expression, or the error
/// that the operations cannot be combined to it.
pub open spec fn rewriting_result<T: UniformNum>(r: Result<String, String>, req: &ObfLinReq) -> bool {
    match read_linear::<T>(req.expr@) {
        None => r matches Err(msg) && msg@
            == "Input is not a linear combination of uniform expressions"@,
        Some(e) => if exists|i: int|
            0 <= i < req.ops@.len() && #[trigger] read_linear::<T>(req.ops@[i]@) is None {
            r matches Err(msg) && msg@
                == "Operation is not a linear combination of uniform expressions"@
        } else {
            match r {
                Ok(text) => rewriting_of::<T>(text@, e, read_operations::<T>(req.ops@), req.printer),
                Err(msg) => msg@ == "Operations can't be used to rewrite the input"@
                    && no_rewriting::<T>(e, read_operations::<T>(req.ops@)),
            }
        },
    }
}

/// Rewrites the linear combination of the request with its operations over the ring
/// of `T`, and prints it. It is an error where the text of the expression or of an
/// operation is no linear combination, and where the operations cannot be combined
/// to the expression.
pub fn obfuscate_linear_impl<T: UniformNum>(req: &ObfLinReq) -> (r: Result<String, String>)
    ensures
        rewriting_result::<T>(r, req),
{
    let expr = match LUExpr::<T>::from_string(req.expr.as_str()) {
        Some(e) => e,
        None => {
            return Err(
                String::from_str("Input is not a linear combination of uniform expressions"),
            );
        },
    };
    let mut ops: Vec<LUExpr<T>> = Vec::new();
    let mut i: usize = 0;
    while i < req.ops.len()
        invariant
            i <= req.ops@.len(),
            ops@.len() == i,
            read_linear::<T>(req.expr@) == Some(expr@),
            forall|k: int| 0 <= k < i ==> #[trigger] read_linear::<T>(req.ops@[k]@) is Some,
            forall|k: int| 0 <= k < i ==> #[trigger] read_linear::<T>(req.ops@[k]@) == Some(ops@[k]@),
        decreases req.ops@.len() - i,
    {
        match LUExpr::<T>::from_string(req.ops[i].as_str()) {
            Some(op) => {
                ops.push(op);
            },
            None => {
                proof {
                    assert(read_linear::<T>(req.ops@[i as int]@) is None);
                }
                return Err(
                    String::from_str("Operation is not a linear combination of uniform expressions"),
                );
            },
        }
        i += 1;
    }
    proof {
        assert(views(ops@) =~= read_operations::<T>(req.ops@));
    }
    match rewrite(&expr, ops.as_slice(), req.randomize) {
        Some(e) => {
            let text = req.printer.print_luexpr(&e);
            proof {
                assert(req.printer.prints_linear::<T>(text@, e@));
            }
            Ok(text)
        },
        None => {
            proof {
                assert(none_or_cannot(&expr, ops@));
                assert(no_rewriting::<T>(expr@, views(ops@)));
            }
            Err(String::from_str("Operations can't be used to rewrite the input"))
        },
    }
}

/// Rewrites the linear combination of the request with its operations over the ring
/// of its width, and prints it.
pub fn obfuscate_linear(req: ObfLinReq) -> (r: Result<String, String>)
    ensures
        match req.bits {
            Bitness::U8 => rewriting_result::<u8>(r, &req),
            Bitness::U16 => rewriting_result::<u16>(r, &req),
            Bitness::U32 => rewriting_result::<u32>(r, &req),
            Bitness::U64 => rewriting_result::<u64>(r, &req),
            Bitness::U128 => rewriting_result::<u128>(r, &req),
        },
{
    match req.bits {
        Bitness::U8 => obfuscate_linear_impl::<u8>(&req),
        Bitness::U16 => obfuscate_linear_impl::<u16>(&req),
        Bitness::U32 => obfuscate_linear_impl::<u32>(&req),
        Bitness::U64 => obfuscate_linear_impl::<u64>(&req),
        Bitness::U128 => obfuscate_linear_impl::<u128>(&req),
    }
}

/// Whether `r` is the linear combination that the text writes over the ring of `T`,
/// without the terms of the coefficient zero, in the notation that linear
/// combinations are read in; the empty text where the text writes none.
pub open spec fn normal_form<T: UniformNum>(r: Seq<char>, expr: Seq<char>) -> bool {
    match read_linear::<T>(expr) {
        Some(t) => r == crate::printer::plain_terms(nonzero_terms(t), T::modulus()),
        None => r.len() == 0,
    }
}

/// The linear combination that the text writes, over the ring of `T`, in the
/// notation that linear combinations are read in; the empty text where the text
/// writes none.
pub fn normalize_op_impl<T: UniformNum>(expr: &str) -> (r: String)
    ensures
        normal_form::<T>(r@, expr@),
{
    match LUExpr::<T>::from_string(expr) {
        Some(e) => e.to_string(),
        None => String::new(),
    }
}

/// The linear combination that the text writes, over the ring of the width `bits`,
/// in the notation that linear combinations are read in; the empty text where the
/// text writes none.
pub fn normalize_op(expr: String, bits: Bitness) -> (r: String)
    ensures
        match bits {
            Bitness::U8 => normal_form::<u8>(r@, expr@),
            Bitness::U16 => normal_form::<u16>(r@, expr@),
            Bitness::U32 => normal_form::<u32>(r@, expr@),
            Bitness::U64 => normal_form::<u64>(r@, expr@),
            Bitness::U128 => normal_form::<u128>(r@, expr@),
        },
{
    match bits {
        Bitness::U8 => normalize_op_impl::<u8>(expr.as_str()),
        Bitness::U16 => normalize_op_impl::<u16>(expr.as_str()),
        Bitness::U32 => normalize_op_impl::<u32>(expr.as_str()),
        Bitness::U64 => normalize_op_impl::<u64>(expr.as_str()),
        Bitness::U128 => normalize_op_impl::<u128>(expr.as_str()),
    }
}

} // verus!
