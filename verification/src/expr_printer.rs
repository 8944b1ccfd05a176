//! Expressions as functions of their variables, with a name for each shared
//! subexpression.

use vstd::prelude::*;
use vstd::string::StringExecFns;
use crate::numbers::UnsignedInt;
use crate::text::{decimal, push_decimal};
use crate::tex::push_number;
use crate::names::{sorted_names, has_name};
use crate::expr::{Expr, Node, BinaryOp, UnaryOp, node_ok};
use crate::expr_parser::node_precedence;
use crate::printer::{
    Printer, c_type, rust_type, c_type_name, rust_type_name, c_params, rust_params, push_c_params,
    push_rust_params, lemma_join,
};

verus! {

/// How often node `j` is an operand of the node `n`.
pub open spec fn refs<T>(n: Node<T>, j: int) -> int {
    match n {
        Node::Binary(_, l, r) => (if l == j {
            1int
        } else {
            0int
        }) + (if r == j {
            1int
        } else {
            0int
        }),
        Node::Unary(_, e) => if e == j {
            1int
        } else {
            0int
        },
        _ => 0,
    }
}

/// How often node `j` is an operand of the nodes from index `k` on that the root
/// reaches.
pub open spec fn uses_above<T>(nodes: Seq<Node<T>>, root: int, j: int, k: int) -> int
    decreases nodes.len() - j, nodes.len() - k, 0int,
{
    if j < 0 || k >= nodes.len() {
        0
    } else if k <= j {
        uses_above(nodes, root, j, k + 1)
    } else {
        (if reaches(nodes, root, k) {
            refs(nodes[k], j)
        } else {
            0
        }) + uses_above(nodes, root, j, k + 1)
    }
}

/// Whether the root reaches node `q`: it is the root, or an operand of a node that
/// the root reaches.
pub open spec fn reaches<T>(nodes: Seq<Node<T>>, root: int, q: int) -> bool
    decreases nodes.len() - q, nodes.len() + 1, 0int,
{
    if q < 0 || q >= nodes.len() {
        false
    } else {
        q == root || uses_above(nodes, root, q, q + 1) > 0
    }
}

/// Whether node `j` gets a name: it is an operand more than once, and no variable.
pub open spec fn named<T>(nodes: Seq<Node<T>>, root: int, j: int) -> bool {
    0 <= j < nodes.len() && uses_above(nodes, root, j, j + 1) >= 2 && !(nodes[j] is Var)
}

/// The number of the nodes before `j` that get a name.
pub open spec fn rank<T>(nodes: Seq<Node<T>>, root: int, j: int) -> int
    decreases j,
{
    if j <= 0 {
        0
    } else {
        rank(nodes, root, j - 1) + (if named(nodes, root, j - 1) {
            1int
        } else {
            0int
        })
    }
}

/// The name of the shared subexpression with the number `k`.
pub open spec fn var_name(k: int) -> Seq<char> {
    "var"@ + decimal(k)
}

/// The sign of a binary operator.
pub open spec fn binary_sign(op: BinaryOp) -> Seq<char> {
    match op {
        BinaryOp::Add => "+"@,
        BinaryOp::Sub => "-"@,
        BinaryOp::Mul => "*"@,
        BinaryOp::Div => "/"@,
        BinaryOp::Mod => "%"@,
        BinaryOp::And => "&"@,
        BinaryOp::Or => "|"@,
        BinaryOp::Xor => "^"@,
        BinaryOp::Shl => "<<"@,
        BinaryOp::Shr => ">>"@,
    }
}

/// The sign of a unary operator.
pub open spec fn unary_sign(op: UnaryOp, p: Printer) -> Seq<char> {
    match op {
        UnaryOp::Neg => "-"@,
        UnaryOp::Not => if p == Printer::Rust {
            "!"@
        } else {
            "~"@
        },
    }
}

/// The operand `c` of an operator that binds with the strength `outer`: its name
/// where it has one, and else its text, in brackets where its own operator binds
/// less, or no more and it stands on the right.
pub open spec fn operand_text<T: UnsignedInt>(
    nodes: Seq<Node<T>>,
    root: int,
    p: Printer,
    c: int,
    outer: int,
    right: bool,
) -> Seq<char>
    decreases c, 1int,
{
    if c < 0 || c >= nodes.len() {
        Seq::empty()
    } else if named(nodes, root, c) {
        var_name(rank(nodes, root, c))
    } else if node_precedence(nodes[c]) < outer || (right && node_precedence(nodes[c]) == outer) {
        "("@ + node_text(nodes, root, p, c) + ")"@
    } else {
        node_text(nodes, root, p, c)
    }
}

/// The text of node `i`, with the names of the shared subexpressions in their places.
pub open spec fn node_text<T: UnsignedInt>(nodes: Seq<Node<T>>, root: int, p: Printer, i: int) -> Seq<
    char,
>
    decreases i, 0int,
{
    if i < 0 || i >= nodes.len() {
        Seq::empty()
    } else {
        match nodes[i] {
            Node::Const(c) => if p == Printer::Rust {
                "Wrapping("@ + decimal(c.val()) + ")"@
            } else {
                decimal(c.val())
            },
            Node::Var(n) => n@,
            Node::Binary(op, l, r) => if l < i && r < i {
                operand_text(nodes, root, p, l as int, node_precedence(nodes[i]), false) + " "@
                    + binary_sign(op) + " "@ + operand_text(
                    nodes,
                    root,
                    p,
                    r as int,
                    node_precedence(nodes[i]),
                    true,
                )
            } else {
                Seq::empty()
            },
            Node::Unary(op, e) => if e < i {
                unary_sign(op, p) + operand_text(nodes, root, p, e as int, 255, false)
            } else {
                Seq::empty()
            },
        }
    }
}

/// The smaller of a count and two.
pub open spec fn capped(n: int) -> int {
    if n >= 2 {
        2
    } else {
        n
    }
}

impl<T: UnsignedInt> Expr<T> {
    /// For each node, how often it is an operand of a node that the root reaches:
    /// zero, one, or two for more than once.
    pub fn use_counts(&self) -> (counts: Vec<u8>)
        requires
            self.wf(),
        ensures
            counts@.len() == self.nodes@.len(),
            forall|j: int|
                0 <= j < counts@.len() ==> #[trigger] counts@[j] as int == capped(
                    uses_above(self.nodes@, self.root as int, j, j + 1),
                ),
    {
        let n: usize = self.nodes.len();
        let ghost nodes = self.nodes@;
        let ghost root = self.root as int;
        let mut counts: Vec<u8> = Vec::new();
        let mut k: usize = 0;
        while k < n
            invariant
                k <= n,
                counts@.len() == k,
                forall|j: int| 0 <= j < k ==> #[trigger] counts@[j] == 0,
            decreases n - k,
        {
            counts.push(0);
            k += 1;
        }
        let mut q: usize = n;
        while q > 0
            invariant
                self.wf(),
                n == nodes.len(),
                nodes == self.nodes@,
                root == self.root,
                q <= n,
                counts@.len() == n,
                forall|j: int|
                    0 <= j < n ==> #[trigger] counts@[j] as int == capped(
                        uses_above(nodes, root, j, if j + 1 > q { j + 1 } else { q as int }),
                    ),
            decreases q,
        {
            q -= 1;
            let ghost before = counts@;
            proof {
                assert(node_ok(nodes, q as int));
                assert(before[q as int] as int == capped(uses_above(nodes, root, q as int, q + 1)));
            }
            let reached: bool = q == self.root || counts[q] > 0;
            if reached {
                match &self.nodes[q] {
                    Node::Binary(_, l, r) => {
                        if counts[*l] < 2 {
                            let c: u8 = counts[*l] + 1;
                            counts.set(*l, c);
                        }
                        if counts[*r] < 2 {
                            let c: u8 = counts[*r] + 1;
                            counts.set(*r, c);
                        }
                    },
                    Node::Unary(_, e) => {
                        if counts[*e] < 2 {
                            let c: u8 = counts[*e] + 1;
                            counts.set(*e, c);
                        }
                    },
                    _ => {},
                }
            }
            proof {
                assert(reached == reaches(nodes, root, q as int));
                assert forall|j: int| 0 <= j < n implies #[trigger] counts@[j] as int == capped(
                    uses_above(nodes, root, j, if j + 1 > q { j + 1 } else { q as int }),
                ) by {
                    assert(before[j] as int == capped(
                        uses_above(nodes, root, j, if j + 1 > q + 1 { j + 1 } else { q + 1 }),
                    ));
                    if j < q {
                        assert(uses_above(nodes, root, j, q as int) == (if reached {
                            refs(nodes[q as int], j)
                        } else {
                            0
                        }) + uses_above(nodes, root, j, q + 1));
                    }
                }
            }
        }
        counts
    }
}

/// The line that gives the shared subexpression of node `j` its name.
pub open spec fn binding<T: UnsignedInt>(
    nodes: Seq<Node<T>>,
    root: int,
    p: Printer,
    ty: Seq<char>,
    j: int,
) -> Seq<char> {
    let name = var_name(rank(nodes, root, j));
    let text = node_text(nodes, root, p, j);
    match p {
        Printer::C => "\t"@ + ty + " "@ + name + " = "@ + text + ";\n"@,
        Printer::Rust => "\tlet "@ + name + " = "@ + text + ";\n"@,
        _ => name + " = "@ + text + "\n"@,
    }
}

/// The lines that give the shared subexpressions among the nodes before `k` their
/// names, each after those of its operands.
pub open spec fn bindings<T: UnsignedInt>(
    nodes: Seq<Node<T>>,
    root: int,
    p: Printer,
    ty: Seq<char>,
    k: int,
) -> Seq<char>
    decreases k,
{
    if k <= 0 {
        Seq::empty()
    } else if named(nodes, root, k - 1) {
        bindings(nodes, root, p, ty, k - 1) + binding(nodes, root, p, ty, k - 1)
    } else {
        bindings(nodes, root, p, ty, k - 1)
    }
}

/// Whether the name begins with `aux`.
pub open spec fn is_aux(n: Seq<char>) -> bool {
    n.len() >= 3 && n[0] == 'a' && n[1] == 'u' && n[2] == 'x'
}

/// The names of `v` from index `k` on that begin with `aux`, or those that do not.
pub open spec fn pick(v: Seq<String>, k: int, aux: bool) -> Seq<String>
    decreases v.len() - k,
{
    if k < 0 || k >= v.len() {
        Seq::empty()
    } else if is_aux(v[k]@) == aux {
        seq![v[k]] + pick(v, k + 1, aux)
    } else {
        pick(v, k + 1, aux)
    }
}

/// The parameters of the function of an expression: its variables in their order,
/// those that begin with `aux` after the others.
pub open spec fn parameters(v: Seq<String>) -> Seq<String> {
    pick(v, 0, false) + pick(v, 0, true)
}

/// The expression as a function of its variables `vars`, in the language of the
/// printer: the subexpressions that are shared get names, each after those of its
/// operands, and the expression follows.
pub open spec fn function_text<T: UnsignedInt>(e: &Expr<T>, p: Printer, vars: Seq<String>) -> Seq<
    char,
> {
    let nodes = e.nodes@;
    let root = e.root as int;
    let n = nodes.len() as int;
    match p {
        Printer::C => c_type(T::bits()) + " f("@ + c_params(c_type(T::bits()), vars, 0)
            + ") {\n"@ + bindings(nodes, root, p, c_type(T::bits()), n) + "\treturn "@
            + node_text(nodes, root, p, root) + ";\n}"@,
        Printer::Rust => "fn f("@ + rust_params(rust_type(T::bits()), vars, 0) + ") -> "@
            + rust_type(T::bits()) + " {\n"@ + bindings(nodes, root, p, rust_type(T::bits()), n)
            + "\t"@ + node_text(nodes, root, p, root) + "\n}"@,
        _ => bindings(nodes, root, p, Seq::empty(), n) + node_text(nodes, root, p, root),
    }
}

/// Whether the text is the expression as a function of its variables, in the
/// language of the printer: the parameters are the variables of the expression in
/// their order, those that begin with `aux` after the others.
pub open spec fn is_function_of<T: UnsignedInt>(s: Seq<char>, e: &Expr<T>, printer: Printer) -> bool {
    exists|vars: Seq<String>|
        {
            &&& sorted_names(vars)
            &&& forall|n: Seq<char>| has_name(vars, n) <==> e@.vars().contains(n)
            &&& exists|params: Seq<String>|
                {
                    &&& params.len() == parameters(vars).len()
                    &&& forall|k: int|
                        0 <= k < params.len() ==> #[trigger] params[k]@ == parameters(vars)[k]@
                    &&& s == #[trigger] function_text(e, printer, params)
                }
        }
}

/// Whether the name begins with `aux`.
pub fn starts_with_aux(name: &str) -> (b: bool)
    ensures
        b == is_aux(name@),
{
    if name.unicode_len() < 3 {
        return false;
    }
    name.get_char(0) == 'a' && name.get_char(1) == 'u' && name.get_char(2) == 'x'
}

/// The names of the list, those that begin with `aux` after the others.
pub fn order_params(v: &Vec<String>) -> (r: Vec<String>)
    ensures
        r@.len() == parameters(v@).len(),
        forall|k: int| 0 <= k < r@.len() ==> #[trigger] r@[k]@ == parameters(v@)[k]@,
{
    let n: usize = v.len();
    let mut r: Vec<String> = Vec::new();
    let ghost mut model: Seq<String> = Seq::empty();
    let mut k: usize = 0;
    while k < n
        invariant
            k <= n,
            n == v@.len(),
            r@.len() == model.len(),
            forall|j: int| 0 <= j < r@.len() ==> #[trigger] r@[j]@ == model[j]@,
            model + pick(v@, k as int, false) == pick(v@, 0, false),
        decreases n - k,
    {
        if !starts_with_aux(v[k].as_str()) {
            r.push(v[k].clone());
            proof {
                let before = model;
                model = model.push(v@[k as int]);
                assert(model + pick(v@, k + 1, false) =~= before + pick(v@, k as int, false));
            }
        }
        k += 1;
    }
    proof {
        assert(pick(v@, n as int, false) =~= Seq::<String>::empty());
        assert(model =~= pick(v@, 0, false));
    }
    let ghost first = model;
    let mut k: usize = 0;
    while k < n
        invariant
            k <= n,
            n == v@.len(),
            r@.len() == model.len(),
            forall|j: int| 0 <= j < r@.len() ==> #[trigger] r@[j]@ == model[j]@,
            model + pick(v@, k as int, true) == first + pick(v@, 0, true),
        decreases n - k,
    {
        if starts_with_aux(v[k].as_str()) {
            r.push(v[k].clone());
            proof {
                let before = model;
                model = model.push(v@[k as int]);
                assert(model + pick(v@, k + 1, true) =~= before + pick(v@, k as int, true));
            }
        }
        k += 1;
    }
    proof {
        assert(pick(v@, n as int, true) =~= Seq::<String>::empty());
        assert(model =~= first + pick(v@, 0, true));
    }
    r
}

impl<T: UnsignedInt> Expr<T> {
    /// Whether the tables hold, for each node, its use count, and for each node
    /// before `k` the number of the names before it and its text.
    pub open spec fn tables_ok(
        &self,
        counts: Seq<u8>,
        ranks: Seq<usize>,
        texts: Seq<String>,
        p: Printer,
        k: int,
    ) -> bool {
        &&& self.wf()
        &&& 0 <= k <= self.nodes@.len()
        &&& counts.len() == self.nodes@.len()
        &&& forall|j: int|
            0 <= j < counts.len() ==> #[trigger] counts[j] as int == capped(
                uses_above(self.nodes@, self.root as int, j, j + 1),
            )
        &&& ranks.len() == k
        &&& texts.len() == k
        &&& forall|j: int|
            0 <= j < k ==> #[trigger] ranks[j] as int == rank(self.nodes@, self.root as int, j)
        &&& forall|j: int|
            0 <= j < k ==> (#[trigger] texts[j])@ == node_text(
                self.nodes@,
                self.root as int,
                p,
                j,
            )
    }

    /// Whether node `j` gets a name.
    pub fn is_named(&self, counts: &Vec<u8>, j: usize) -> (b: bool)
        requires
            j < self.nodes@.len(),
            counts@.len() == self.nodes@.len(),
            counts@[j as int] as int == capped(
                uses_above(self.nodes@, self.root as int, j as int, j + 1),
            ),
        ensures
            b == named(self.nodes@, self.root as int, j as int),
    {
        let var: bool = match &self.nodes[j] {
            Node::Var(_) => true,
            _ => false,
        };
        counts[j] >= 2 && !var
    }

    /// The text of the operand `c` of an operator that binds with the strength
    /// `outer`.
    pub fn print_simple_rc(
        &self,
        counts: &Vec<u8>,
        ranks: &Vec<usize>,
        texts: &Vec<String>,
        p: Printer,
        c: usize,
        outer: usize,
        right: bool,
    ) -> (s: String)
        requires
            self.tables_ok(counts@, ranks@, texts@, p, texts@.len() as int),
            c < texts@.len(),
        ensures
            s@ == operand_text(self.nodes@, self.root as int, p, c as int, outer as int, right),
    {
        let mut s = String::new();
        proof {
            assert(s@ =~= Seq::<char>::empty());
        }
        if self.is_named(counts, c) {
            s.append("var");
            push_decimal(&mut s, ranks[c] as u128);
            proof {
                assert(s@ =~= var_name(ranks@[c as int] as int));
            }
        } else {
            let prec: usize = self.precedence(c);
            if prec < outer || (right && prec == outer) {
                s.append("(");
                s.append(texts[c].as_str());
                s.append(")");
                proof {
                    assert(s@ =~= "("@ + texts@[c as int]@ + ")"@);
                }
            } else {
                s.append(texts[c].as_str());
                proof {
                    assert(s@ =~= texts@[c as int]@);
                }
            }
        }
        s
    }

    /// The text of node `i`, from the texts of the nodes before it.
    pub fn print_simple_impl(
        &self,
        counts: &Vec<u8>,
        ranks: &Vec<usize>,
        texts: &Vec<String>,
        p: Printer,
        i: usize,
    ) -> (s: String)
        requires
            self.tables_ok(counts@, ranks@, texts@, p, i as int),
            i < self.nodes@.len(),
        ensures
            s@ == node_text(self.nodes@, self.root as int, p, i as int),
    {
        let mut s = String::new();
        let ghost s0 = s@;
        proof {
            assert(s0 =~= Seq::<char>::empty());
            assert(node_ok(self.nodes@, i as int));
        }
        match &self.nodes[i] {
            Node::Const(c) => {
                if p == Printer::Rust {
                    s.append("Wrapping(");
                    push_number(&mut s, *c);
                    s.append(")");
                    proof {
                        assert(s@ =~= "Wrapping("@ + decimal(c.val()) + ")"@);
                    }
                } else {
                    push_number(&mut s, *c);
                    proof {
                        assert(s@ =~= decimal(c.val()));
                    }
                }
            },
            Node::Var(n) => {
                s.append(n.as_str());
                proof {
                    assert(s@ =~= n@);
                }
            },
            Node::Binary(op, l, r) => {
                let prec: usize = self.precedence(i);
                let a = self.print_simple_rc(counts, ranks, texts, p, *l, prec, false);
                let b = self.print_simple_rc(counts, ranks, texts, p, *r, prec, true);
                let sign = match op {
                    BinaryOp::Add => "+",
                    BinaryOp::Sub => "-",
                    BinaryOp::Mul => "*",
                    BinaryOp::Div => "/",
                    BinaryOp::Mod => "%",
                    BinaryOp::And => "&",
                    BinaryOp::Or => "|",
                    BinaryOp::Xor => "^",
                    BinaryOp::Shl => "<<",
                    BinaryOp::Shr => ">>",
                };
                s.append(a.as_str());
                s.append(" ");
                s.append(sign);
                s.append(" ");
                s.append(b.as_str());
                proof {
                    lemma_join(s0, a@, " "@, sign@, " "@, b@, s@);
                    assert(s0 + (a@ + " "@ + sign@ + " "@ + b@) =~= a@ + " "@ + sign@ + " "@ + b@);
                }
            },
            Node::Unary(op, e) => {
                let a = self.print_simple_rc(counts, ranks, texts, p, *e, 255, false);
                let sign = match op {
                    UnaryOp::Neg => "-",
                    UnaryOp::Not => if p == Printer::Rust {
                        "!"
                    } else {
                        "~"
                    },
                };
                s.append(sign);
                s.append(a.as_str());
                proof {
                    assert(s@ =~= sign@ + a@);
                }
            },
        }
        s
    }

    /// The line that gives the shared subexpression of node `j`, with the text
    /// `text`, the name with the number `k`.
    pub fn binding_string(p: Printer, ty: &str, k: usize, text: &str) -> (s: String)
        ensures
            s@ == match p {
                Printer::C => "\t"@ + ty@ + " "@ + var_name(k as int) + " = "@ + text@ + ";\n"@,
                Printer::Rust => "\tlet "@ + var_name(k as int) + " = "@ + text@ + ";\n"@,
                _ => var_name(k as int) + " = "@ + text@ + "\n"@,
            },
    {
        let mut name = String::from_str("var");
        push_decimal(&mut name, k as u128);
        let mut s = String::new();
        proof {
            assert(s@ =~= Seq::<char>::empty());
        }
        match p {
            Printer::C => {
                s.append("\t");
                s.append(ty);
                s.append(" ");
                s.append(name.as_str());
                s.append(" = ");
                s.append(text);
                s.append(";\n");
                proof {
                    assert(s@ =~= "\t"@ + ty@ + " "@ + var_name(k as int) + " = "@ + text@
                        + ";\n"@);
                }
            },
            Printer::Rust => {
                s.append("\tlet ");
                s.append(name.as_str());
                s.append(" = ");
                s.append(text);
                s.append(";\n");
                proof {
                    assert(s@ =~= "\tlet "@ + var_name(k as int) + " = "@ + text@ + ";\n"@);
                }
            },
            _ => {
                s.append(name.as_str());
                s.append(" = ");
                s.append(text);
                s.append("\n");
                proof {
                    assert(s@ =~= var_name(k as int) + " = "@ + text@ + "\n"@);
                }
            },
        }
        s
    }

    /// The expression as a function of its variables, in the language of the
    /// printer. A subexpression that is an operand more than once, and no variable,
    /// gets a name, and stands under that name in the texts of the others.
    pub fn print_as_fn(&self, printer: Printer) -> (s: String)
        requires
            self.wf(),
            printer != Printer::Tex,
        ensures
            is_function_of(s@, self, printer),
    {
        let vars = self.vars();
        let params = order_params(&vars);
        let counts = self.use_counts();
        let n: usize = self.nodes.len();
        let ty: &str = match printer {
            Printer::C => c_type_name::<T>(),
            Printer::Rust => rust_type_name::<T>(),
            _ => "",
        };
        proof {
            if printer != Printer::C && printer != Printer::Rust {
                reveal_strlit("");
                assert(ty@ =~= Seq::<char>::empty());
            }
        }
        let mut ranks: Vec<usize> = Vec::new();
        let mut texts: Vec<String> = Vec::new();
        let mut lines = String::new();
        let mut next: usize = 0;
        let mut i: usize = 0;
        proof {
            assert(lines@ =~= Seq::<char>::empty());
        }
        while i < n
            invariant
                i <= n,
                n == self.nodes@.len(),
                self.tables_ok(counts@, ranks@, texts@, printer, i as int),
                next <= i,
                next as int == rank(self.nodes@, self.root as int, i as int),
                lines@ == bindings(self.nodes@, self.root as int, printer, ty@, i as int),
            decreases n - i,
        {
            let text = self.print_simple_impl(&counts, &ranks, &texts, printer, i);
            ranks.push(next);
            if self.is_named(&counts, i) {
                let line = Self::binding_string(printer, ty, next, text.as_str());
                lines.append(line.as_str());
                next += 1;
            }
            texts.push(text);
            i += 1;
        }
        let mut s = String::new();
        proof {
            assert(s@ =~= Seq::<char>::empty());
        }
        let body = texts[self.root].as_str();
        match printer {
            Printer::C => {
                s.append(ty);
                s.append(" f(");
                push_c_params(&mut s, ty, &params);
                s.append(") {\n");
                s.append(lines.as_str());
                s.append("\treturn ");
                s.append(body);
                s.append(";\n}");
                proof {
                    assert(s@ =~= function_text(self, printer, params@));
                }
            },
            Printer::Rust => {
                s.append("fn f(");
                push_rust_params(&mut s, ty, &params);
                s.append(") -> ");
                s.append(ty);
                s.append(" {\n");
                s.append(lines.as_str());
                s.append("\t");
                s.append(body);
                s.append("\n}");
                proof {
                    assert(s@ =~= function_text(self, printer, params@));
                }
            },
            _ => {
                s.append(lines.as_str());
                s.append(body);
                proof {
                    assert(s@ =~= function_text(self, printer, params@));
                }
            },
        }
        proof {
            assert(function_text(self, printer, params@) == s@);
        }
        s
    }
}

} // verus!
