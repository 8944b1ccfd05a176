//! Expressions of arithmetic and bitwise operations, whose subexpressions may be
//! shared.

use vstd::prelude::*;
use crate::numbers::UnsignedInt;
use crate::names::{insert_name, sorted_names, has_name, compare_names, Order};

verus! {

/// A binary operator.
#[derive(Clone, Copy, Debug, PartialEq, Eq, Structural)]
pub enum BinaryOp {
    Add,
    Sub,
    Mul,
    Div,
    Mod,
    And,
    Or,
    Xor,
    Shl,
    Shr,
}

/// A unary operator.
#[derive(Clone, Copy, Debug, PartialEq, Eq, Structural)]
pub enum UnaryOp {
    Neg,
    Not,
}

/// A node of an expression: a constant, a variable, or an operator with the indices
/// of the nodes of its operands.
#[derive(Debug)]
pub enum Node<T> {
    Const(T),
    Var(String),
    Binary(BinaryOp, usize, usize),
    Unary(UnaryOp, usize),
}

/// An expression: the nodes of a directed acyclic graph, each after the nodes of its
/// operands, and the index of the node of the whole expression. A node that is the
/// operand of several nodes is a shared subexpression.
#[derive(Debug)]
pub struct Expr<T> {
    pub nodes: Vec<Node<T>>,
    pub root: usize,
}

/// The mathematical form of an expression: a tree, in which a shared subexpression
/// stands at each place of its use.
pub enum Term {
    Const(int),
    Var(Seq<char>),
    Binary(BinaryOp, Box<Term>, Box<Term>),
    Unary(UnaryOp, Box<Term>),
}

impl Term {
    /// The variables of the expression.
    pub open spec fn vars(self) -> Set<Seq<char>>
        decreases self,
    {
        match self {
            Term::Const(_) => Set::empty(),
            Term::Var(n) => Set::empty().insert(n),
            Term::Binary(_, l, r) => l.vars().union(r.vars()),
            Term::Unary(_, e) => e.vars(),
        }
    }

    /// The expression with `sub` in place of the variable `name`.
    pub open spec fn substitute(self, name: Seq<char>, sub: Term) -> Term
        decreases self,
    {
        match self {
            Term::Const(c) => Term::Const(c),
            Term::Var(n) => if n == name {
                sub
            } else {
                Term::Var(n)
            },
            Term::Binary(op, l, r) => Term::Binary(
                op,
                Box::new(l.substitute(name, sub)),
                Box::new(r.substitute(name, sub)),
            ),
            Term::Unary(op, e) => Term::Unary(op, Box::new(e.substitute(name, sub))),
        }
    }
}

/// Whether the operands of node `i` stand before it.
pub open spec fn node_ok<T>(nodes: Seq<Node<T>>, i: int) -> bool {
    match nodes[i] {
        Node::Binary(_, l, r) => l < i && r < i,
        Node::Unary(_, e) => e < i,
        _ => true,
    }
}

/// Whether the operands of each node stand before it.
pub open spec fn nodes_ok<T>(nodes: Seq<Node<T>>) -> bool {
    forall|i: int| 0 <= i < nodes.len() ==> #[trigger] node_ok(nodes, i)
}

/// The tree of the expression of node `i`.
pub open spec fn tree<T: UnsignedInt>(nodes: Seq<Node<T>>, i: int) -> Term
    decreases i,
{
    if i < 0 || i >= nodes.len() {
        Term::Const(0)
    } else {
        match nodes[i] {
            Node::Const(c) => Term::Const(c.val()),
            Node::Var(n) => Term::Var(n@),
            Node::Binary(op, l, r) => if l < i && r < i {
                Term::Binary(op, Box::new(tree(nodes, l as int)), Box::new(tree(nodes, r as int)))
            } else {
                Term::Const(0)
            },
            Node::Unary(op, e) => if e < i {
                Term::Unary(op, Box::new(tree(nodes, e as int)))
            } else {
                Term::Const(0)
            },
        }
    }
}

/// The tree of a node depends on the nodes up to it only.
pub proof fn lemma_tree_prefix<T: UnsignedInt>(a: Seq<Node<T>>, b: Seq<Node<T>>, i: int)
    requires
        0 <= i < a.len(),
        a.len() <= b.len(),
        forall|k: int| 0 <= k <= i ==> #[trigger] a[k] == b[k],
    ensures
        tree(a, i) == tree(b, i),
    decreases i,
{
    assert(a[i] == b[i]);
    match a[i] {
        Node::Binary(op, l, r) => {
            if l < i && r < i {
                lemma_tree_prefix(a, b, l as int);
                lemma_tree_prefix(a, b, r as int);
            }
        },
        Node::Unary(op, e) => {
            if e < i {
                lemma_tree_prefix(a, b, e as int);
            }
        },
        _ => {},
    }
}

impl<T: UnsignedInt> View for Expr<T> {
    type V = Term;

    open spec fn view(&self) -> Term {
        tree(self.nodes@, self.root as int)
    }
}

impl<T: UnsignedInt> Expr<T> {
    /// Whether the root is a node, and the operands of each node stand before it.
    pub open spec fn wf(&self) -> bool {
        &&& self.root < self.nodes@.len()
        &&& nodes_ok(self.nodes@)
    }

    /// The constant zero.
    pub fn zero() -> (e: Self)
        ensures
            e.wf(),
            e@ == Term::Const(0),
            e.nodes@.len() == 1,
    {
        Self::constant(T::zero())
    }

    /// The constant `c`.
    pub fn constant(c: T) -> (e: Self)
        ensures
            e.wf(),
            e@ == Term::Const(c.val()),
            e.nodes@.len() == 1,
    {
        let mut nodes: Vec<Node<T>> = Vec::new();
        nodes.push(Node::Const(c));
        Expr { nodes, root: 0 }
    }

    /// The variable `name`.
    pub fn var(name: String) -> (e: Self)
        ensures
            e.wf(),
            e@ == Term::Var(name@),
            e.nodes@.len() == 1,
    {
        let mut nodes: Vec<Node<T>> = Vec::new();
        nodes.push(Node::Var(name));
        Expr { nodes, root: 0 }
    }

    /// The number of nodes.
    pub fn node_count(&self) -> (n: usize)
        ensures
            n == self.nodes@.len(),
    {
        self.nodes.len()
    }
}

/// Whether two nodes are the same: the same constant, variables of the same name,
/// or the same operation on the same operands.
pub open spec fn same_node<T>(n: Node<T>, r: Node<T>) -> bool {
    match (n, r) {
        (Node::Const(a), Node::Const(b)) => a == b,
        (Node::Var(a), Node::Var(b)) => a@ == b@,
        (Node::Binary(o, l, r), Node::Binary(o2, l2, r2)) => o == o2 && l == l2 && r == r2,
        (Node::Unary(o, e), Node::Unary(o2, e2)) => o == o2 && e == e2,
        _ => false,
    }
}

/// Whether the node is the variable `var`.
pub open spec fn is_variable<T>(n: Node<T>, var: Seq<char>) -> bool {
    n matches Node::Var(v) && v@ == var
}

/// The number of the nodes before node `j` that are not the variable `var`.
pub open spec fn kept_before<T>(host: Seq<Node<T>>, var: Seq<char>, j: int) -> int
    decreases j,
{
    if j <= 0 {
        0
    } else {
        kept_before(host, var, j - 1) + (if is_variable(host[j - 1], var) {
            0int
        } else {
            1int
        })
    }
}

/// The index that node `j` of `host` has after a substitution for the variable
/// `var` of an expression of `len` nodes with the root `root`: that root for the
/// variable, and for every other node the place after the nodes of that expression
/// and the nodes before it that are not the variable.
pub open spec fn place<T>(host: Seq<Node<T>>, var: Seq<char>, len: int, root: int, j: int) -> int {
    if is_variable(host[j], var) {
        root
    } else {
        len + kept_before(host, var, j)
    }
}

/// Whether the node `n` is the node `h` of `host` after a substitution: the same
/// constant or variable, or the same operation on its operands at their places.
pub open spec fn is_moved<T>(
    n: Node<T>,
    h: Node<T>,
    host: Seq<Node<T>>,
    var: Seq<char>,
    len: int,
    root: int,
) -> bool {
    match h {
        Node::Const(c) => n == Node::<T>::Const(c),
        Node::Var(v) => n matches Node::Var(w) && w@ == v@,
        Node::Binary(op, l, r) => n matches Node::Binary(o, a, b) && o == op && a == place(
            host,
            var,
            len,
            root,
            l as int,
        ) && b == place(host, var, len, root, r as int),
        Node::Unary(op, e) => n matches Node::Unary(o, a) && o == op && a == place(
            host,
            var,
            len,
            root,
            e as int,
        ),
    }
}

/// The nodes that are kept before a node that is kept are fewer than those before a
/// later node.
pub proof fn lemma_kept_bound<T>(host: Seq<Node<T>>, var: Seq<char>, j: int, i: int)
    requires
        0 <= j < i,
        !is_variable(host[j], var),
    ensures
        0 <= kept_before(host, var, j) < kept_before(host, var, i),
    decreases i,
{
    lemma_kept_count(host, var, j);
    if j < i - 1 {
        lemma_kept_bound(host, var, j, i - 1);
    }
}

/// The number of the nodes that are kept is not negative.
pub proof fn lemma_kept_count<T>(host: Seq<Node<T>>, var: Seq<char>, j: int)
    ensures
        0 <= kept_before(host, var, j),
        j >= 0 ==> kept_before(host, var, j) <= j,
    decreases j,
{
    if j > 0 {
        lemma_kept_count(host, var, j - 1);
    }
}

/// A copy of a node.
pub fn copy_node<T: UnsignedInt>(n: &Node<T>) -> (r: Node<T>)
    ensures
        same_node(*n, r),
{
    match n {
        Node::Const(c) => Node::Const(*c),
        Node::Var(v) => Node::Var(v.clone()),
        Node::Binary(op, l, r) => Node::Binary(*op, *l, *r),
        Node::Unary(op, e) => Node::Unary(*op, *e),
    }
}

/// Whether a marked node before index `i` has the variable `name`.
pub open spec fn pending<T: UnsignedInt>(
    nodes: Seq<Node<T>>,
    marked: Seq<bool>,
    i: int,
    name: Seq<char>,
) -> bool {
    exists|j: int| 0 <= j < i && #[trigger] marked[j] && tree(nodes, j).vars().contains(name)
}

impl<T: UnsignedInt> Expr<T> {
    /// The variables of the expression, sorted, each once.
    pub fn vars(&self) -> (names: Vec<String>)
        requires
            self.wf(),
        ensures
            sorted_names(names@),
            forall|n: Seq<char>| has_name(names@, n) <==> self@.vars().contains(n),
    {
        let n: usize = self.nodes.len();
        // The nodes that the root reaches, each visited once.
        let mut marked: Vec<bool> = Vec::new();
        let mut k: usize = 0;
        while k < n
            invariant
                k <= n,
                marked@.len() == k,
                forall|j: int| 0 <= j < k ==> (#[trigger] marked@[j]) == (j == self.root),
            decreases n - k,
        {
            marked.push(k == self.root);
            k += 1;
        }
        let mut names: Vec<String> = Vec::new();
        let mut i: usize = n;
        proof {
            assert forall|nm: Seq<char>|
                self@.vars().contains(nm) <==> (has_name(names@, nm) || pending(
                    self.nodes@,
                    marked@,
                    i as int,
                    nm,
                )) by {
                if self@.vars().contains(nm) {
                    assert(marked@[self.root as int]);
                }
            }
        }
        while i > 0
            invariant
                self.wf(),
                n == self.nodes@.len(),
                marked@.len() == n,
                i <= n,
                sorted_names(names@),
                forall|nm: Seq<char>|
                    self@.vars().contains(nm) <==> (has_name(names@, nm) || pending(
                        self.nodes@,
                        marked@,
                        i as int,
                        nm,
                    )),
            decreases i,
        {
            i -= 1;
            let ghost m0 = marked@;
            let ghost names0 = names@;
            proof {
                assert(node_ok(self.nodes@, i as int));
            }
            if marked[i] {
                match &self.nodes[i] {
                    Node::Const(_) => {},
                    Node::Var(v) => {
                        insert_name(&mut names, v.as_str());
                    },
                    Node::Binary(_, l, r) => {
                        marked.set(*l, true);
                        marked.set(*r, true);
                    },
                    Node::Unary(_, e) => {
                        marked.set(*e, true);
                    },
                }
            }
            proof {
                let t = tree(self.nodes@, i as int);
                assert forall|nm: Seq<char>|
                    self@.vars().contains(nm) <==> (has_name(names@, nm) || pending(
                        self.nodes@,
                        marked@,
                        i as int,
                        nm,
                    )) by {
                    let before = has_name(names0, nm) || pending(self.nodes@, m0, i + 1, nm);
                    let after = has_name(names@, nm) || pending(self.nodes@, marked@, i as int, nm);
                    // what was pending before index i stays so
                    if pending(self.nodes@, m0, i as int, nm) {
                        let j = choose|j: int|
                            0 <= j < i && #[trigger] m0[j] && tree(self.nodes@, j).vars().contains(
                                nm,
                            );
                        assert(marked@[j]);
                    }
                    if pending(self.nodes@, m0, i + 1, nm) && !pending(self.nodes@, m0, i as int, nm) {
                        let j = choose|j: int|
                            0 <= j < i + 1 && #[trigger] m0[j] && tree(
                                self.nodes@,
                                j,
                            ).vars().contains(nm);
                        assert(j == i);
                        match self.nodes@[i as int] {
                            Node::Binary(_, l, r) => {
                                if tree(self.nodes@, l as int).vars().contains(nm) {
                                    assert(marked@[l as int]);
                                } else {
                                    assert(marked@[r as int]);
                                }
                            },
                            Node::Unary(_, e) => {
                                assert(marked@[e as int]);
                            },
                            _ => {},
                        }
                    }
                    if pending(self.nodes@, marked@, i as int, nm) && !pending(
                        self.nodes@,
                        m0,
                        i as int,
                        nm,
                    ) {
                        let j = choose|j: int|
                            0 <= j < i && #[trigger] marked@[j] && tree(
                                self.nodes@,
                                j,
                            ).vars().contains(nm);
                        assert(!m0[j]);
                        assert(m0[i as int]);
                        assert(t.vars().contains(nm));
                    }
                    if has_name(names@, nm) && !has_name(names0, nm) {
                        assert(m0[i as int]);
                        assert(t.vars().contains(nm));
                    }
                    assert(before <==> after);
                }
            }
        }
        proof {
            assert forall|nm: Seq<char>| !pending(self.nodes@, marked@, 0, nm) by {}
        }
        names
    }

    /// Puts the expression `e` in place of the variable `var`. Each place of the
    /// variable shares the nodes of `e`: these stand first, once, and after them
    /// each node that is not the variable, once and in its order, with its operands
    /// at their new places; what was shared is shared.
    pub fn substitute(&mut self, e: &Expr<T>, var: &str)
        requires
            old(self).wf(),
            e.wf(),
        ensures
            final(self).wf(),
            final(self)@ == old(self)@.substitute(var@, e@),
            final(self).nodes@.len() <= old(self).nodes@.len() + e.nodes@.len(),
            final(self).nodes@.len() == e.nodes@.len() + kept_before(
                old(self).nodes@,
                var@,
                old(self).nodes@.len() as int,
            ),
            final(self).root == place(
                old(self).nodes@,
                var@,
                e.nodes@.len() as int,
                e.root as int,
                old(self).root as int,
            ),
            forall|j: int|
                0 <= j < e.nodes@.len() ==> same_node(
                    e.nodes@[j],
                    #[trigger] final(self).nodes@[j],
                ),
            forall|j: int|
                0 <= j < old(self).nodes@.len() && !is_variable(#[trigger] old(self).nodes@[j], var@)
                    ==> is_moved(
                    final(self).nodes@[place(
                        old(self).nodes@,
                        var@,
                        e.nodes@.len() as int,
                        e.root as int,
                        j,
                    )],
                    old(self).nodes@[j],
                    old(self).nodes@,
                    var@,
                    e.nodes@.len() as int,
                    e.root as int,
                ),
    {
        let ghost host = self.nodes@;
        let ghost sub = e@;
        let m: usize = e.nodes.len();
        // The nodes of `e` come first.
        let mut out: Vec<Node<T>> = Vec::new();
        let mut k: usize = 0;
        while k < m
            invariant
                k <= m,
                m == e.nodes@.len(),
                e.wf(),
                out@.len() == k,
                nodes_ok(out@),
                forall|j: int| 0 <= j < k ==> tree(out@, j) == #[trigger] tree(e.nodes@, j),
                forall|j: int| 0 <= j < k ==> same_node(e.nodes@[j], #[trigger] out@[j]),
            decreases m - k,
        {
            let ghost before = out@;
            let node = copy_node(&e.nodes[k]);
            out.push(node);
            proof {
                assert(node_ok(e.nodes@, k as int));
                assert forall|j: int| 0 <= j < out@.len() implies #[trigger] node_ok(out@, j) by {
                    if j < k {
                        assert(node_ok(before, j));
                    }
                }
                assert forall|j: int| 0 <= j < k + 1 implies tree(out@, j) == #[trigger] tree(
                    e.nodes@,
                    j,
                ) by {
                    if j < k {
                        lemma_tree_prefix(before, out@, j);
                    } else {
                        match e.nodes@[k as int] {
                            Node::Binary(_, l, r) => {
                                assert(tree(out@, l as int) == tree(e.nodes@, l as int)) by {
                                    lemma_tree_prefix(before, out@, l as int);
                                }
                                assert(tree(out@, r as int) == tree(e.nodes@, r as int)) by {
                                    lemma_tree_prefix(before, out@, r as int);
                                }
                            },
                            Node::Unary(_, c) => {
                                assert(tree(out@, c as int) == tree(e.nodes@, c as int)) by {
                                    lemma_tree_prefix(before, out@, c as int);
                                }
                            },
                            _ => {},
                        }
                    }
                }
            }
            k += 1;
        }
        // The nodes of the host follow, the variable aside; `map` says where.
        let n: usize = self.nodes.len();
        let mut map: Vec<usize> = Vec::new();
        let mut i: usize = 0;
        while i < n
            invariant
                i <= n,
                n == host.len(),
                host == self.nodes@,
                nodes_ok(host),
                e.wf(),
                m == e.nodes@.len(),
                sub == e@,
                map@.len() == i,
                m <= out@.len() <= m + i,
                out@.len() == m + kept_before(host, var@, i as int),
                forall|j: int| 0 <= j < m ==> same_node(e.nodes@[j], #[trigger] out@[j]),
                forall|j: int|
                    0 <= j < i ==> (#[trigger] map@[j]) == place(
                        host,
                        var@,
                        m as int,
                        e.root as int,
                        j,
                    ),
                forall|j: int|
                    0 <= j < i && !is_variable(#[trigger] host[j], var@) ==> is_moved(
                        out@[place(host, var@, m as int, e.root as int, j)],
                        host[j],
                        host,
                        var@,
                        m as int,
                        e.root as int,
                    ),
                nodes_ok(out@),
                tree(out@, e.root as int) == sub,
                forall|j: int|
                    0 <= j < i ==> (#[trigger] map@[j]) < out@.len() && tree(out@, map@[j] as int)
                        == tree(host, j).substitute(var@, sub),
            decreases n - i,
        {
            let ghost before = out@;
            let ghost map0 = map@;
            proof {
                assert(node_ok(host, i as int));
            }
            match &self.nodes[i] {
                Node::Const(c) => {
                    out.push(Node::Const(*c));
                    map.push(out.len() - 1);
                },
                Node::Var(v) => {
                    if compare_names(v.as_str(), var) == Order::Same {
                        map.push(e.root);
                    } else {
                        out.push(Node::Var(v.clone()));
                        map.push(out.len() - 1);
                    }
                },
                Node::Binary(op, l, r) => {
                    out.push(Node::Binary(*op, map[*l], map[*r]));
                    map.push(out.len() - 1);
                },
                Node::Unary(op, c) => {
                    out.push(Node::Unary(*op, map[*c]));
                    map.push(out.len() - 1);
                },
            }
            proof {
                assert forall|j: int| 0 <= j < out@.len() implies #[trigger] node_ok(out@, j) by {
                    if j < before.len() {
                        assert(node_ok(before, j));
                        assert(out@[j] == before[j]);
                    }
                }
                assert forall|j: int| 0 <= j < m implies same_node(
                    e.nodes@[j],
                    #[trigger] out@[j],
                ) by {
                    assert(out@[j] == before[j]);
                }
                assert forall|j: int|
                    0 <= j < i + 1 && !is_variable(#[trigger] host[j], var@) implies is_moved(
                    out@[place(host, var@, m as int, e.root as int, j)],
                    host[j],
                    host,
                    var@,
                    m as int,
                    e.root as int,
                ) by {
                    if j < i {
                        lemma_kept_bound(host, var@, j, i as int);
                        assert(out@[place(host, var@, m as int, e.root as int, j)]
                            == before[place(host, var@, m as int, e.root as int, j)]);
                    }
                }
                lemma_tree_prefix(before, out@, e.root as int);
                assert forall|j: int| 0 <= j < i + 1 implies (#[trigger] map@[j]) < out@.len()
                    && tree(out@, map@[j] as int) == tree(host, j).substitute(var@, sub) by {
                    if j < i {
                        assert(map@[j] == map0[j]);
                        lemma_tree_prefix(before, out@, map0[j] as int);
                    } else {
                        match host[i as int] {
                            Node::Binary(_, l, r) => {
                                lemma_tree_prefix(before, out@, map0[l as int] as int);
                                lemma_tree_prefix(before, out@, map0[r as int] as int);
                            },
                            Node::Unary(_, c) => {
                                lemma_tree_prefix(before, out@, map0[c as int] as int);
                            },
                            _ => {},
                        }
                    }
                }
            }
            i += 1;
        }
        let root: usize = map[self.root];
        self.nodes = out;
        self.root = root;
    }
}

} // verus!
