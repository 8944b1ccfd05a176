//! The grammar of expressions.

use vstd::prelude::*;
use vstd::string::{StrSliceExecFns, StringExecFns, StringExecFnsIsAscii};
use crate::numbers::UnsignedInt;
use crate::text::{is_digit, is_letter, stripped, code_at, ascii_len, strip_whitespace};
use crate::parser::{
    is_code, name_end, digits_end, digits_value, scan_name, int_from_it, lemma_name_end,
    lemma_digits_end,
};
use crate::expr::{Expr, Node, Term, BinaryOp, UnaryOp, tree, nodes_ok, node_ok, lemma_tree_prefix};
use crate::placeholders::{is_clean, lemma_clean_push};

verus! {

/// Why a text is no expression.
#[derive(Clone, Copy, Debug, PartialEq, Eq, Structural)]
pub enum ExprError {
    UnexpectedEnd,
    ClosingBracketMissing,
    UnrecognizedCharacter,
    UnknownOperator,
}

/// What the grammar reads: an expression and the index after it, or an error.
pub enum Parsed {
    Done(Term, int),
    Failed(ExprError),
}

/// The binding strength of the operator with the code `b` between expressions; zero
/// for any other character.
pub open spec fn strength(b: int) -> int {
    if b == 124 {
        1
    } else if b == 94 {
        2
    } else if b == 38 {
        3
    } else if b == 43 || b == 45 {
        5
    } else if b == 42 || b == 47 || b == 37 {
        6
    } else {
        0
    }
}

/// The operator with the code `b`.
pub open spec fn operator(b: int) -> BinaryOp {
    if b == 43 {
        BinaryOp::Add
    } else if b == 45 {
        BinaryOp::Sub
    } else if b == 42 {
        BinaryOp::Mul
    } else if b == 47 {
        BinaryOp::Div
    } else if b == 37 {
        BinaryOp::Mod
    } else if b == 38 {
        BinaryOp::And
    } else if b == 124 {
        BinaryOp::Or
    } else {
        BinaryOp::Xor
    }
}

/// Whether a shift stands at index `pos`: `<<` or `>>`.
pub open spec fn is_shift(s: Seq<char>, pos: int) -> bool {
    0 <= pos && pos + 1 < s.len() && (is_code(s[pos], 60) || is_code(s[pos], 62)) && s[pos + 1]
        == s[pos]
}

/// The binding strength of the operator at index `pos`; zero where none stands
/// there.
pub open spec fn strength_at(s: Seq<char>, pos: int) -> int {
    if is_shift(s, pos) {
        4
    } else {
        strength(s[pos] as u32 as int)
    }
}

/// The operator at index `pos`.
pub open spec fn operator_at(s: Seq<char>, pos: int) -> BinaryOp {
    if is_shift(s, pos) {
        if is_code(s[pos], 60) {
            BinaryOp::Shl
        } else {
            BinaryOp::Shr
        }
    } else {
        operator(s[pos] as u32 as int)
    }
}

/// The number of characters of the operator at index `pos`.
pub open spec fn sign_len(s: Seq<char>, pos: int) -> int {
    if is_shift(s, pos) {
        2
    } else {
        1
    }
}

/// The expression without a binary operator at its top that begins at index `pos`:
/// an expression in brackets, a negation after `~` or `-`, a variable that begins
/// with a letter, or a number.
pub open spec fn parse_primary(s: Seq<char>, pos: int, m: int) -> Parsed
    decreases s.len() - pos, 0int,
{
    if pos < 0 || pos >= s.len() {
        Parsed::Failed(ExprError::UnexpectedEnd)
    } else if is_code(s[pos], 40) {
        match parse_expr(s, pos + 1, 0, m) {
            Parsed::Done(e, p) => if 0 <= p < s.len() && is_code(s[p], 41) {
                Parsed::Done(e, p + 1)
            } else {
                Parsed::Failed(ExprError::ClosingBracketMissing)
            },
            Parsed::Failed(x) => Parsed::Failed(x),
        }
    } else if is_code(s[pos], 126) {
        match parse_expr(s, pos + 1, 15, m) {
            Parsed::Done(e, p) => Parsed::Done(Term::Unary(UnaryOp::Not, Box::new(e)), p),
            Parsed::Failed(x) => Parsed::Failed(x),
        }
    } else if is_code(s[pos], 45) {
        match parse_expr(s, pos + 1, 15, m) {
            Parsed::Done(e, p) => Parsed::Done(Term::Unary(UnaryOp::Neg, Box::new(e)), p),
            Parsed::Failed(x) => Parsed::Failed(x),
        }
    } else if is_letter(s[pos]) {
        let end = name_end(s, pos + 1);
        Parsed::Done(Term::Var(s.subrange(pos, end)), end)
    } else if is_digit(s[pos]) {
        let end = digits_end(s, pos);
        Parsed::Done(Term::Const(digits_value(s, pos, end) % m), end)
    } else {
        Parsed::Failed(ExprError::UnrecognizedCharacter)
    }
}

/// The expression that begins with `e`, which ends before index `pos`, and goes on
/// with the operators that bind more than `pre`, up to a closing bracket or the end
/// of the text.
pub open spec fn parse_rest(s: Seq<char>, e: Term, pos: int, pre: int, m: int) -> Parsed
    decreases s.len() - pos, 2int,
{
    if pos < 0 || pos >= s.len() {
        Parsed::Done(e, pos)
    } else {
        let b = s[pos] as u32 as int;
        let st = strength_at(s, pos);
        if b == 41 {
            Parsed::Done(e, pos)
        } else if st == 0 {
            Parsed::Failed(ExprError::UnknownOperator)
        } else if st <= pre {
            Parsed::Done(e, pos)
        } else {
            match parse_expr(s, pos + sign_len(s, pos), st, m) {
                Parsed::Done(r, p) => if pos < p <= s.len() {
                    parse_rest(
                        s,
                        Term::Binary(operator_at(s, pos), Box::new(e), Box::new(r)),
                        p,
                        pre,
                        m,
                    )
                } else {
                    Parsed::Failed(ExprError::UnexpectedEnd)
                },
                Parsed::Failed(x) => Parsed::Failed(x),
            }
        }
    }
}

/// The expression that begins at index `pos` and has, outside brackets, only
/// operators that bind more than `pre`. The operators are `|`, `^`, `&`, then `<<`
/// and `>>`, then `+` and `-`, then `*`, `/` and `%`, each group binding more than the
/// one before, and each operator as far to the left as it can.
pub open spec fn parse_expr(s: Seq<char>, pos: int, pre: int, m: int) -> Parsed
    decreases s.len() - pos, 1int,
{
    match parse_primary(s, pos, m) {
        Parsed::Done(e, p) => if pos < p <= s.len() {
            parse_rest(s, e, p, pre, m)
        } else {
            Parsed::Failed(ExprError::UnexpectedEnd)
        },
        Parsed::Failed(x) => Parsed::Failed(x),
    }
}

/// What is read ends after where it begins, and within the text.
pub proof fn lemma_parse_expr_advances(s: Seq<char>, pos: int, pre: int, m: int)
    requires
        0 <= pos,
    ensures
        parse_expr(s, pos, pre, m) matches Parsed::Done(e, p) ==> pos < p <= s.len(),
    decreases s.len() - pos, 1int,
{
    lemma_parse_primary_advances(s, pos, m);
    match parse_primary(s, pos, m) {
        Parsed::Done(e, p) => {
            if pos < p <= s.len() {
                lemma_parse_rest_advances(s, e, p, pre, m);
            }
        },
        _ => {},
    }
}

/// What is read ends after where it begins, and within the text.
pub proof fn lemma_parse_primary_advances(s: Seq<char>, pos: int, m: int)
    requires
        0 <= pos,
    ensures
        parse_primary(s, pos, m) matches Parsed::Done(e, p) ==> pos < p <= s.len(),
    decreases s.len() - pos, 0int,
{
    if pos < s.len() {
        if is_code(s[pos], 40) {
            lemma_parse_expr_advances(s, pos + 1, 0, m);
        } else if is_code(s[pos], 126) || is_code(s[pos], 45) {
            lemma_parse_expr_advances(s, pos + 1, 15, m);
        } else if is_letter(s[pos]) {
            lemma_name_end(s, pos + 1);
        } else if is_digit(s[pos]) {
            lemma_digits_end(s, pos + 1);
        }
    }
}

/// What is read ends where it begins or after it, and within the text.
pub proof fn lemma_parse_rest_advances(s: Seq<char>, e: Term, pos: int, pre: int, m: int)
    requires
        0 <= pos <= s.len(),
    ensures
        parse_rest(s, e, pos, pre, m) matches Parsed::Done(r, p) ==> pos <= p <= s.len(),
    decreases s.len() - pos, 2int,
{
    if pos < s.len() {
        let b = s[pos] as u32 as int;
        let st = strength_at(s, pos);
        if b != 41 && st != 0 && st > pre {
            lemma_parse_expr_advances(s, pos + sign_len(s, pos), st, m);
            match parse_expr(s, pos + sign_len(s, pos), st, m) {
                Parsed::Done(r, p) => {
                    if pos < p <= s.len() {
                        lemma_parse_rest_advances(
                            s,
                            Term::Binary(operator_at(s, pos), Box::new(e), Box::new(r)),
                            p,
                            pre,
                            m,
                        );
                    }
                },
                _ => {},
            }
        }
    }
}

/// Whether the nodes `b` are the nodes `a` and more, with their operands before
/// them.
pub open spec fn extends<T>(b: Seq<Node<T>>, a: Seq<Node<T>>) -> bool {
    &&& a.len() <= b.len()
    &&& forall|k: int| 0 <= k < a.len() ==> #[trigger] b[k] == a[k]
    &&& nodes_ok(b)
}

/// What the grammar reads in an executable's result.
pub open spec fn parsed_result<T: UnsignedInt>(
    nodes: Seq<Node<T>>,
    r: Result<(usize, usize), ExprError>,
) -> Parsed {
    match r {
        Ok((i, p)) => Parsed::Done(tree(nodes, i as int), p as int),
        Err(x) => Parsed::Failed(x),
    }
}

/// Puts a node after the nodes, and gives its index.
pub fn push_node<T: UnsignedInt>(nodes: &mut Vec<Node<T>>, node: Node<T>) -> (i: usize)
    requires
        nodes_ok(old(nodes)@),
        match node {
            Node::Binary(_, l, r) => l < old(nodes)@.len() && r < old(nodes)@.len(),
            Node::Unary(_, e) => e < old(nodes)@.len(),
            _ => true,
        },
    ensures
        i == old(nodes)@.len(),
        final(nodes)@ == old(nodes)@.push(node),
        extends(final(nodes)@, old(nodes)@),
        forall|k: int|
            0 <= k < old(nodes)@.len() ==> tree(final(nodes)@, k) == #[trigger] tree(
                old(nodes)@,
                k,
            ),
{
    let ghost before = nodes@;
    nodes.push(node);
    proof {
        assert forall|k: int| 0 <= k < nodes@.len() implies #[trigger] node_ok(nodes@, k) by {
            if k < before.len() {
                assert(node_ok(before, k));
            }
        }
        assert forall|k: int| 0 <= k < before.len() implies tree(nodes@, k) == #[trigger] tree(
            before,
            k,
        ) by {
            lemma_tree_prefix(before, nodes@, k);
        }
    }
    nodes.len() - 1
}

/// The trees of the nodes stay as they are when more nodes follow them.
pub proof fn lemma_extends_tree<T: UnsignedInt>(b: Seq<Node<T>>, a: Seq<Node<T>>, k: int)
    requires
        extends(b, a),
        0 <= k < a.len(),
    ensures
        tree(b, k) == tree(a, k),
{
    lemma_tree_prefix(a, b, k);
}

impl ExprError {
    /// The message of the error.
    pub fn message(self) -> (s: String)
        ensures
            s@ == self.text(),
    {
        match self {
            ExprError::UnexpectedEnd => String::from_str("Unexpected end of input"),
            ExprError::ClosingBracketMissing => String::from_str("Closing bracket missing"),
            ExprError::UnrecognizedCharacter => String::from_str("Unrecognized character"),
            ExprError::UnknownOperator => String::from_str("Unknown operator"),
        }
    }

    /// The message of the error.
    pub open spec fn text(self) -> Seq<char> {
        match self {
            ExprError::UnexpectedEnd => "Unexpected end of input"@,
            ExprError::ClosingBracketMissing => "Closing bracket missing"@,
            ExprError::UnrecognizedCharacter => "Unrecognized character"@,
            ExprError::UnknownOperator => "Unknown operator"@,
        }
    }
}

impl<T: UnsignedInt> Expr<T> {
    /// The binding strength of the operator at the top of node `i`: that of the
    /// operator for a binary operation, 255 for a negation, 256 for a constant or a
    /// variable.
    pub fn precedence(&self, i: usize) -> (p: usize)
        requires
            i < self.nodes@.len(),
        ensures
            p == node_precedence(self.nodes@[i as int]),
    {
        match &self.nodes[i] {
            Node::Binary(op, _, _) => match op {
                BinaryOp::Or => 1,
                BinaryOp::Xor => 2,
                BinaryOp::And => 3,
                BinaryOp::Shl => 4,
                BinaryOp::Shr => 4,
                BinaryOp::Add => 5,
                BinaryOp::Sub => 5,
                BinaryOp::Mul => 6,
                BinaryOp::Div => 6,
                BinaryOp::Mod => 6,
            },
            Node::Unary(_, _) => 255,
            _ => 256,
        }
    }

    /// Reads the expression without a binary operator at its top that begins at
    /// index `pos` of the text, and puts its nodes after `nodes`.
    pub fn parse_primary(s: &str, pos: usize, nodes: &mut Vec<Node<T>>) -> (r: Result<
        (usize, usize),
        ExprError,
    >)
        requires
            s.is_ascii(),
            pos <= s@.len(),
            nodes_ok(old(nodes)@),
        ensures
            extends(final(nodes)@, old(nodes)@),
            is_clean(old(nodes)@) ==> is_clean(final(nodes)@),
            r matches Ok((i, p)) ==> i < final(nodes)@.len(),
            parsed_result(final(nodes)@, r) == parse_primary(s@, pos as int, T::modulus()),
        decreases s@.len() - pos, 0int,
    {
        let n: usize = ascii_len(s);
        if pos >= n {
            return Err(ExprError::UnexpectedEnd);
        }
        let c: u8 = code_at(s, pos);
        if c == 40 {
            match Self::parse(s, pos + 1, 0, nodes) {
                Ok((e, p)) => {
                    proof {
                        lemma_parse_expr_advances(s@, pos + 1, 0, T::modulus());
                    }
                    if p < n && code_at(s, p) == 41 {
                        Ok((e, p + 1))
                    } else {
                        Err(ExprError::ClosingBracketMissing)
                    }
                },
                Err(x) => Err(x),
            }
        } else if c == 126 || c == 45 {
            let ghost before = nodes@;
            match Self::parse(s, pos + 1, 15, nodes) {
                Ok((e, p)) => {
                    let ghost mid = nodes@;
                    let op = if c == 126 {
                        UnaryOp::Not
                    } else {
                        UnaryOp::Neg
                    };
                    let i = push_node(nodes, Node::Unary(op, e));
                    proof {
                        assert(tree(nodes@, e as int) == tree(mid, e as int));
                        lemma_extends_trans(nodes@, mid, before);
                        if is_clean(before) {
                            lemma_clean_push(mid, Node::<T>::Unary(op, e));
                        }
                    }
                    Ok((i, p))
                },
                Err(x) => Err(x),
            }
        } else if (65 <= c && c <= 90) || (97 <= c && c <= 122) {
            let end: usize = scan_name(s, pos + 1);
            let name = s.substring_ascii(pos, end);
            let ghost before = nodes@;
            let var = String::from_str(name);
            proof {
                assert(name@[0] == s@[pos as int]);
                assert('_' as u32 == 95);
                if is_clean(before) {
                    lemma_clean_push(before, Node::<T>::Var(var));
                }
            }
            let i = push_node(nodes, Node::Var(var));
            Ok((i, end))
        } else if 48 <= c && c <= 57 {
            match int_from_it::<T>(s, pos) {
                Some((v, end)) => {
                    proof {
                        if is_clean(nodes@) {
                            lemma_clean_push(nodes@, Node::Const(v));
                        }
                    }
                    let i = push_node(nodes, Node::Const(v));
                    Ok((i, end))
                },
                None => Err(ExprError::UnrecognizedCharacter),
            }
        } else {
            Err(ExprError::UnrecognizedCharacter)
        }
    }

    /// Reads the expression that begins at index `pos` of the text and has, outside
    /// brackets, only operators that bind more than `pre`, and puts its nodes after
    /// `nodes`.
    pub fn parse(s: &str, pos: usize, pre: usize, nodes: &mut Vec<Node<T>>) -> (r: Result<
        (usize, usize),
        ExprError,
    >)
        requires
            s.is_ascii(),
            pos <= s@.len(),
            nodes_ok(old(nodes)@),
        ensures
            extends(final(nodes)@, old(nodes)@),
            is_clean(old(nodes)@) ==> is_clean(final(nodes)@),
            r matches Ok((i, p)) ==> i < final(nodes)@.len(),
            parsed_result(final(nodes)@, r) == parse_expr(s@, pos as int, pre as int, T::modulus()),
        decreases s@.len() - pos, 1int,
    {
        let ghost md = T::modulus();
        let ghost start = nodes@;
        let n: usize = ascii_len(s);
        let ghost goal = parse_expr(s@, pos as int, pre as int, md);
        let (mut e, mut p) = match Self::parse_primary(s, pos, nodes) {
            Ok((e, p)) => (e, p),
            Err(x) => {
                return Err(x);
            },
        };
        proof {
            lemma_parse_primary_advances(s@, pos as int, md);
        }
        loop
            invariant
                s.is_ascii(),
                n == s@.len(),
                pos < p <= n,
                md == T::modulus(),
                start == old(nodes)@,
                extends(nodes@, start),
                is_clean(start) ==> is_clean(nodes@),
                e < nodes@.len(),
                goal == parse_expr(s@, pos as int, pre as int, md),
                goal == parse_rest(s@, tree(nodes@, e as int), p as int, pre as int, md),
            ensures
                extends(nodes@, start),
                is_clean(start) ==> is_clean(nodes@),
                e < nodes@.len(),
                parsed_result::<T>(nodes@, Ok((e, p))) == goal,
            decreases n - p,
        {
            if p >= n {
                break ;
            }
            let c: u8 = code_at(s, p);
            if c == 41 {
                break ;
            }
            let shift: bool = (c == 60 || c == 62) && p + 1 < n && code_at(s, p + 1) == c;
            let strength: usize = if shift {
                4
            } else if c == 124 {
                1
            } else if c == 94 {
                2
            } else if c == 38 {
                3
            } else if c == 43 || c == 45 {
                5
            } else if c == 42 || c == 47 || c == 37 {
                6
            } else {
                return Err(ExprError::UnknownOperator);
            };
            if strength <= pre {
                break ;
            }
            let after: usize = if shift {
                p + 2
            } else {
                p + 1
            };
            proof {
                assert(shift == is_shift(s@, p as int));
            }
            let ghost before = nodes@;
            let (rhs, next) = match Self::parse(s, after, strength, nodes) {
                Ok((rhs, next)) => (rhs, next),
                Err(x) => {
                    proof {
                        lemma_extends_trans(nodes@, before, start);
                    }
                    return Err(x);
                },
            };
            let ghost mid = nodes@;
            proof {
                lemma_parse_expr_advances(s@, after as int, strength as int, md);
                lemma_extends_tree(mid, before, e as int);
            }
            let op = if shift && c == 60 {
                BinaryOp::Shl
            } else if shift {
                BinaryOp::Shr
            } else if c == 43 {
                BinaryOp::Add
            } else if c == 45 {
                BinaryOp::Sub
            } else if c == 42 {
                BinaryOp::Mul
            } else if c == 47 {
                BinaryOp::Div
            } else if c == 37 {
                BinaryOp::Mod
            } else if c == 38 {
                BinaryOp::And
            } else if c == 124 {
                BinaryOp::Or
            } else {
                BinaryOp::Xor
            };
            let i = push_node(nodes, Node::Binary(op, e, rhs));
            proof {
                assert(tree(nodes@, e as int) == tree(mid, e as int));
                assert(tree(nodes@, rhs as int) == tree(mid, rhs as int));
                lemma_extends_trans(mid, before, start);
                lemma_extends_trans(nodes@, mid, start);
                if is_clean(start) {
                    lemma_clean_push(mid, Node::<T>::Binary(op, e, rhs));
                }
            }
            e = i;
            p = next;
        }
        Ok((e, p))
    }

    /// Reads an expression from the beginning of a text, white space aside, up to
    /// its end or a closing bracket without an opening one.
    pub fn from_string(s: &str) -> (r: Result<Expr<T>, String>)
        ensures
            match r {
                Ok(e) => {
                    &&& e.wf()
                    &&& is_clean(e.nodes@)
                    &&& s.is_ascii()
                    &&& parse_expr(stripped(s@), 0, 0, T::modulus()) matches Parsed::Done(t, p)
                    &&& t == e@
                },
                Err(msg) => if !s.is_ascii() {
                    msg@ == ExprError::UnrecognizedCharacter.text()
                } else {
                    parse_expr(stripped(s@), 0, 0, T::modulus()) matches Parsed::Failed(x) && msg@
                        == x.text()
                },
            },
    {
        if !s.is_ascii() {
            return Err(ExprError::UnrecognizedCharacter.message());
        }
        let t = strip_whitespace(s);
        let mut nodes: Vec<Node<T>> = Vec::new();
        match Self::parse(t.as_str(), 0, 0, &mut nodes) {
            Ok((root, _)) => Ok(Expr { nodes, root }),
            Err(x) => Err(x.message()),
        }
    }
}

/// The binding strength of the operator at the top of a node.
pub open spec fn node_precedence<T>(n: Node<T>) -> int {
    match n {
        Node::Binary(op, _, _) => match op {
            BinaryOp::Or => 1,
            BinaryOp::Xor => 2,
            BinaryOp::And => 3,
            BinaryOp::Shl => 4,
            BinaryOp::Shr => 4,
            BinaryOp::Add => 5,
            BinaryOp::Sub => 5,
            BinaryOp::Mul => 6,
            BinaryOp::Div => 6,
            BinaryOp::Mod => 6,
        },
        Node::Unary(_, _) => 255,
        _ => 256,
    }
}

/// Nodes that extend nodes that extend other nodes extend those.
pub proof fn lemma_extends_trans<T>(c: Seq<Node<T>>, b: Seq<Node<T>>, a: Seq<Node<T>>)
    requires
        extends(c, b),
        extends(b, a),
    ensures
        extends(c, a),
{
    assert forall|k: int| 0 <= k < a.len() implies #[trigger] c[k] == a[k] by {
        assert(b[k] == a[k]);
        assert(c[k] == b[k]);
    }
}

} // verus!
