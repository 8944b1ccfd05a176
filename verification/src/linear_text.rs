//! What is written of a linear combination of uniform expressions is read as that
//! linear combination.

use vstd::prelude::*;
use crate::text::{decimal, is_digit, is_letter, is_space, stripped};
use crate::parser::{
    is_code, name_end, uniform_strength, uniform_binary, parse_uniform_primary,
    parse_uniform_rest, parse_uniform, parse_linear, parse_linear_next,
};
use crate::uniform_expr::nonzero_terms;
use crate::numerals::{lemma_number_at, lemma_decimal_digits, lemma_stripped_decimal};
use crate::numerals::lemma_decimal_len;
use crate::modular::lemma_mod_small;
use crate::uniform_expr::UTerm;
use crate::printer::{Printer, joined, plain_term, plain_more, plain_terms};
use crate::numbers::{UnsignedInt, UniformNum};
use crate::uniform_expr::LUExpr;
use crate::numerals::{lemma_stripped_concat, lemma_stripped_same};

verus! {

/// Whether the text is a name: a letter, and letters and digits after it.
pub open spec fn is_name(n: Seq<char>) -> bool {
    &&& n.len() > 0
    &&& is_letter(n[0])
    &&& forall|i: int| 0 <= i < n.len() ==> is_letter(#[trigger] n[i]) || is_digit(n[i])
}

/// Whether the variables of the uniform expression have names.
pub open spec fn is_named(u: UTerm) -> bool
    decreases u,
{
    match u {
        UTerm::Ones => true,
        UTerm::Var(n) => is_name(n),
        UTerm::Not(e) => is_named(*e),
        UTerm::And(l, r) => is_named(*l) && is_named(*r),
        UTerm::Or(l, r) => is_named(*l) && is_named(*r),
        UTerm::Xor(l, r) => is_named(*l) && is_named(*r),
    }
}

/// The uniform expression as text without white space.
pub open spec fn text_of(u: UTerm) -> Seq<char>
    decreases u, 0int,
{
    match u {
        UTerm::Ones => "-1"@,
        UTerm::Var(n) => n,
        UTerm::Not(i) => "~"@ + operand_of(*i),
        UTerm::And(l, r) => operand_of(*l) + "&"@ + operand_of(*r),
        UTerm::Or(l, r) => operand_of(*l) + "|"@ + operand_of(*r),
        UTerm::Xor(l, r) => operand_of(*l) + "^"@ + operand_of(*r),
    }
}

/// The operand of an operator as text without white space: in brackets unless it is
/// a constant, a variable or a negation.
pub open spec fn operand_of(u: UTerm) -> Seq<char>
    decreases u, 1int,
{
    if u.is_unary() {
        text_of(u)
    } else {
        "("@ + text_of(u) + ")"@
    }
}

/// A sign of one character that is no white space, between blanks, is that
/// character without its white space.
pub proof fn lemma_stripped_sign(a: Seq<char>, sign: Seq<char>, b: Seq<char>)
    requires
        sign.len() == 1,
        !is_space(sign[0]),
    ensures
        stripped(joined(a, sign, b)) == stripped(a) + sign + stripped(b),
{
    reveal_strlit(" ");
    let blank = " "@;
    assert(blank.drop_last() =~= Seq::<char>::empty());
    assert(stripped(blank.drop_last()) =~= Seq::<char>::empty());
    assert(is_space(blank.last()));
    assert(stripped(blank) =~= Seq::<char>::empty());
    lemma_stripped_same(sign);
    lemma_stripped_concat(a, blank);
    lemma_stripped_concat(a + blank, sign);
    lemma_stripped_concat(a + blank + sign, blank);
    lemma_stripped_concat(a + blank + sign + blank, b);
    assert(stripped(a) + Seq::<char>::empty() + sign + Seq::<char>::empty() + stripped(b)
        =~= stripped(a) + sign + stripped(b));
}

/// A uniform expression whose variables have names is, without white space, its
/// text without white space, and so is an operand.
pub proof fn lemma_stripped_uniform(u: UTerm)
    requires
        is_named(u),
    ensures
        stripped(Printer::Default.uexpr(u)) == text_of(u),
        stripped(Printer::Default.operand(u)) == operand_of(u),
    decreases u,
{
    reveal_strlit("-1");
    reveal_strlit("~");
    reveal_strlit("(");
    reveal_strlit(")");
    reveal_strlit("&");
    reveal_strlit("|");
    reveal_strlit("^");
    let p = Printer::Default;
    match u {
        UTerm::Ones => {
            let s = "-1"@;
            assert forall|i: int| 0 <= i < s.len() implies !is_space(#[trigger] s[i]) by {}
            lemma_stripped_same(s);
        },
        UTerm::Var(n) => {
            assert forall|i: int| 0 <= i < n.len() implies !is_space(#[trigger] n[i]) by {
                assert(is_letter(n[i]) || is_digit(n[i]));
            }
            lemma_stripped_same(n);
        },
        UTerm::Not(i) => {
            lemma_stripped_uniform(*i);
            lemma_stripped_same("~"@);
            lemma_stripped_concat("~"@, p.operand(*i));
        },
        UTerm::And(l, r) => {
            lemma_stripped_uniform(*l);
            lemma_stripped_uniform(*r);
            lemma_stripped_sign(p.operand(*l), "&"@, p.operand(*r));
        },
        UTerm::Or(l, r) => {
            lemma_stripped_uniform(*l);
            lemma_stripped_uniform(*r);
            lemma_stripped_sign(p.operand(*l), "|"@, p.operand(*r));
        },
        UTerm::Xor(l, r) => {
            lemma_stripped_uniform(*l);
            lemma_stripped_uniform(*r);
            lemma_stripped_sign(p.operand(*l), "^"@, p.operand(*r));
        },
    }
    if !u.is_unary() {
        lemma_stripped_same("("@);
        lemma_stripped_same(")"@);
        lemma_stripped_concat("("@, p.uexpr(u));
        lemma_stripped_concat("("@ + p.uexpr(u), ")"@);
    }
}

/// Whether nothing follows, or a closing bracket, or a sign between terms.
pub open spec fn closes(rest: Seq<char>) -> bool {
    rest.len() == 0 || is_code(rest[0], 41) || is_code(rest[0], 43) || is_code(rest[0], 45)
}

/// Whether nothing follows, or a closing bracket, or a sign between terms, or an
/// operator.
pub open spec fn follows(rest: Seq<char>) -> bool {
    closes(rest) || is_code(rest[0], 38) || is_code(rest[0], 124) || is_code(rest[0], 94)
}

/// A name ends where the first character stands that is no letter and no digit.
pub proof fn lemma_name_stop(s: Seq<char>, from: int, to: int)
    requires
        0 <= from <= to <= s.len(),
        forall|k: int| from <= k < to ==> is_letter(#[trigger] s[k]) || is_digit(s[k]),
        to < s.len() ==> !(is_letter(s[to]) || is_digit(s[to])),
    ensures
        name_end(s, from) == to,
    decreases to - from,
{
    if from < to {
        assert(is_letter(s[from]) || is_digit(s[from]));
        lemma_name_stop(s, from + 1, to);
    }
}

/// A variable is read as it is written.
pub proof fn lemma_read_name(pre: Seq<char>, n: Seq<char>, rest: Seq<char>)
    requires
        is_name(n),
        follows(rest),
    ensures
        parse_uniform_primary(pre + n + rest, pre.len() as int) == Some(
            (UTerm::Var(n), (pre.len() + n.len()) as int),
        ),
{
    let s = pre + n + rest;
    let pos = pre.len() as int;
    let end = pos + n.len();
    assert(s[pos] == n[0]);
    assert forall|k: int| pos + 1 <= k < end implies is_letter(#[trigger] s[k]) || is_digit(
        s[k],
    ) by {
        assert(s[k] == n[k - pos]);
    }
    if end < s.len() {
        assert(s[end] == rest[0]);
    }
    lemma_name_stop(s, pos + 1, end);
    assert(s.subrange(pos, end) =~= n);
}

/// The constant of all ones is read as it is written.
pub proof fn lemma_read_ones(pre: Seq<char>, rest: Seq<char>)
    ensures
        parse_uniform_primary(pre + "-1"@ + rest, pre.len() as int) == Some(
            (UTerm::Ones, (pre.len() + 2) as int),
        ),
{
    reveal_strlit("-1");
    let s = pre + "-1"@ + rest;
    let pos = pre.len() as int;
    assert(s[pos] == "-1"@[0]);
    assert(s[pos + 1] == "-1"@[1]);
}

/// What is read after an operand that something follows which is no operator that
/// binds more than `k`, is the operand.
pub proof fn lemma_rest_stops(s: Seq<char>, e: UTerm, at: int, k: int, rest: Seq<char>)
    requires
        0 <= at <= s.len(),
        at + rest.len() == s.len(),
        rest.len() > 0 ==> s[at] == rest[0],
        closes(rest) || (follows(rest) && k >= 3),
    ensures
        parse_uniform_rest(s, e, at, k) == Some((e, at)),
{
}

/// An operand is read as it is written, and an expression in brackets too.
pub proof fn lemma_read_operand(pre: Seq<char>, e: UTerm, rest: Seq<char>)
    requires
        is_named(e),
        follows(rest),
    ensures
        parse_uniform_primary(pre + operand_of(e) + rest, pre.len() as int) == Some(
            (e, (pre.len() + operand_of(e).len()) as int),
        ),
    decreases e, 1int,
{
    reveal_strlit("~");
    reveal_strlit("(");
    reveal_strlit(")");
    let s = pre + operand_of(e) + rest;
    let pos = pre.len() as int;
    match e {
        UTerm::Ones => {
            reveal_strlit("-1");
            assert(operand_of(e) == "-1"@);
            lemma_read_ones(pre, rest);
        },
        UTerm::Var(n) => {
            assert(operand_of(e) == n);
            lemma_read_name(pre, n, rest);
        },
        UTerm::Not(i) => {
            let t = operand_of(*i);
            assert(s =~= (pre + "~"@) + t + rest);
            assert(s[pos] == "~"@[0]);
            lemma_read_operand(pre + "~"@, *i, rest);
            let end = pos + 1 + t.len();
            lemma_operand_len(*i);
            lemma_rest_stops(s, *i, end, 15, rest);
        },
        _ => {
            let t = text_of(e);
            let inner = ")"@ + rest;
            assert(s =~= (pre + "("@) + t + inner);
            assert(s[pos] == "("@[0]);
            assert(inner[0] == ")"@[0]);
            lemma_read_binary(pre + "("@, e, inner);
            let end = pos + 1 + t.len();
            assert(s[end] == inner[0]);
        },
    }
}

/// The text of an operand has a character.
pub proof fn lemma_operand_len(e: UTerm)
    requires
        is_named(e),
    ensures
        operand_of(e).len() > 0,
        text_of(e).len() > 0,
    decreases e,
{
    reveal_strlit("-1");
    reveal_strlit("~");
    reveal_strlit("(");
    match e {
        UTerm::And(l, r) => {
            lemma_operand_len(*l);
        },
        UTerm::Or(l, r) => {
            lemma_operand_len(*l);
        },
        UTerm::Xor(l, r) => {
            lemma_operand_len(*l);
        },
        _ => {},
    }
}

/// An operand that nothing follows but a closing bracket or a sign between terms is
/// read as it is written, whatever binds it.
pub proof fn lemma_read_right(pre: Seq<char>, e: UTerm, rest: Seq<char>, k: int)
    requires
        is_named(e),
        closes(rest),
    ensures
        parse_uniform(pre + operand_of(e) + rest, pre.len() as int, k) == Some(
            (e, (pre.len() + operand_of(e).len()) as int),
        ),
    decreases e, 2int,
{
    let s = pre + operand_of(e) + rest;
    let end = pre.len() + operand_of(e).len();
    lemma_read_operand(pre, e, rest);
    lemma_operand_len(e);
    lemma_rest_stops(s, e, end as int, k, rest);
}

/// An operation on two operands that nothing follows but a closing bracket or a
/// sign between terms is read as it is written.
pub proof fn lemma_read_binary(pre: Seq<char>, e: UTerm, rest: Seq<char>)
    requires
        is_named(e),
        !e.is_unary(),
        closes(rest),
    ensures
        parse_uniform(pre + text_of(e) + rest, pre.len() as int, 0) == Some(
            (e, (pre.len() + text_of(e).len()) as int),
        ),
    decreases e, 0int,
{
    reveal_strlit("&");
    reveal_strlit("|");
    reveal_strlit("^");
    let s = pre + text_of(e) + rest;
    let pos = pre.len() as int;
    let (l, r, sign) = match e {
        UTerm::And(l, r) => (*l, *r, "&"@),
        UTerm::Or(l, r) => (*l, *r, "|"@),
        UTerm::Xor(l, r) => (*l, *r, "^"@),
        _ => (e, e, "&"@),
    };
    let a = operand_of(l);
    let b = operand_of(r);
    let after = sign + b + rest;
    assert(text_of(e) =~= a + sign + b);
    assert(s =~= pre + a + after);
    assert(after[0] == sign[0]);
    lemma_read_operand(pre, l, after);
    lemma_operand_len(l);
    lemma_operand_len(r);
    let mid = pos + a.len();
    assert(s[mid] == sign[0]);
    let code = s[mid] as u32 as int;
    assert(uniform_strength(code) > 0);
    assert(s =~= (pre + a + sign) + b + rest);
    lemma_read_right(pre + a + sign, r, rest, uniform_strength(code));
    let end = mid + 1 + b.len();
    assert(uniform_binary(code, l, r) == e);
    lemma_rest_stops(s, e, end, 0, rest);
}

/// A uniform expression that nothing follows but a closing bracket or a sign
/// between terms is read as it is written.
pub proof fn lemma_read_uniform(pre: Seq<char>, e: UTerm, rest: Seq<char>)
    requires
        is_named(e),
        closes(rest),
    ensures
        parse_uniform(pre + text_of(e) + rest, pre.len() as int, 0) == Some(
            (e, (pre.len() + text_of(e).len()) as int),
        ),
{
    if e.is_unary() {
        lemma_read_right(pre, e, rest, 0);
    } else {
        lemma_read_binary(pre, e, rest);
    }
}

/// Whether the text of the uniform expression begins with the constant of all ones.
pub open spec fn begins_with_ones(u: UTerm) -> bool {
    match u {
        UTerm::Ones => true,
        UTerm::And(l, _) => *l is Ones,
        UTerm::Or(l, _) => *l is Ones,
        UTerm::Xor(l, _) => *l is Ones,
        _ => false,
    }
}

/// The term `mag * u` as text without white space: the expression alone where
/// `mag` is one.
pub open spec fn compact_term(mag: int, u: UTerm) -> Seq<char> {
    if mag == 1 {
        text_of(u)
    } else {
        decimal(mag) + "*"@ + operand_of(u)
    }
}

/// The terms from index `k` on, each after its sign, as text without white space.
pub open spec fn compact_more(t: Seq<(int, UTerm)>, k: int, m: int) -> Seq<char>
    decreases t.len() - k,
{
    if k < 0 || k >= t.len() {
        Seq::empty()
    } else {
        (if 2 * t[k].0 >= m {
            "-"@
        } else {
            "+"@
        }) + compact_term(Printer::magnitude(t[k].0, m), t[k].1) + compact_more(t, k + 1, m)
    }
}

/// The linear combination with the terms `t` as text without white space.
pub open spec fn compact_terms(t: Seq<(int, UTerm)>, m: int) -> Seq<char> {
    if t.len() == 0 {
        "0"@
    } else {
        (if 2 * t[0].0 >= m {
            "-"@
        } else {
            Seq::empty()
        }) + compact_term(Printer::magnitude(t[0].0, m), t[0].1) + compact_more(t, 1, m)
    }
}

/// Whether term `k` is read as it is written: its coefficient is not zero, its
/// variables have names, and where its coefficient is one or minus one, its text
/// does not begin with the constant of all ones, unless it is the first term with
/// the coefficient minus one, or it is that constant.
pub open spec fn is_readable(t: Seq<(int, UTerm)>, k: int, m: int) -> bool {
    let c = t[k].0;
    let u = t[k].1;
    &&& 0 < c < m
    &&& is_named(u)
    &&& Printer::magnitude(c, m) == 1 && begins_with_ones(u) ==> (k == 0 && 2 * c >= m) || u is Ones
}

/// Whether each term is read as it is written.
pub open spec fn all_readable(t: Seq<(int, UTerm)>, m: int) -> bool {
    forall|k: int| 0 <= k < t.len() ==> #[trigger] is_readable(t, k, m)
}

/// An operand that is not the constant of all ones begins with a letter, the sign of
/// negation or an opening bracket.
pub proof fn lemma_operand_first(l: UTerm)
    requires
        is_named(l),
        !(l is Ones),
    ensures
        operand_of(l).len() > 0,
        !is_digit(operand_of(l)[0]),
        !is_code(operand_of(l)[0], 45),
{
    reveal_strlit("~");
    reveal_strlit("(");
    lemma_operand_len(l);
    match l {
        UTerm::Var(n) => {
            assert(operand_of(l) == n);
            assert(is_letter(n[0]));
        },
        UTerm::Not(i) => {
            assert(operand_of(l) == "~"@ + operand_of(*i));
            assert(operand_of(l)[0] == "~"@[0]);
        },
        _ => {
            assert(operand_of(l) == "("@ + text_of(l) + ")"@);
            assert(operand_of(l)[0] == "("@[0]);
        },
    }
}

/// The text of a uniform expression that does not begin with the constant of all
/// ones begins with a letter, the sign of negation or an opening bracket.
pub proof fn lemma_first_character(u: UTerm)
    requires
        is_named(u),
        !begins_with_ones(u),
    ensures
        text_of(u).len() > 0,
        !is_digit(text_of(u)[0]),
        !is_code(text_of(u)[0], 45),
{
    lemma_operand_len(u);
    match u {
        UTerm::And(l, r) => {
            lemma_operand_first(*l);
            assert(text_of(u) == operand_of(*l) + "&"@ + operand_of(*r));
            assert(text_of(u)[0] == operand_of(*l)[0]);
        },
        UTerm::Or(l, r) => {
            lemma_operand_first(*l);
            assert(text_of(u) == operand_of(*l) + "|"@ + operand_of(*r));
            assert(text_of(u)[0] == operand_of(*l)[0]);
        },
        UTerm::Xor(l, r) => {
            lemma_operand_first(*l);
            assert(text_of(u) == operand_of(*l) + "^"@ + operand_of(*r));
            assert(text_of(u)[0] == operand_of(*l)[0]);
        },
        _ => {
            lemma_operand_first(u);
            assert(operand_of(u) == text_of(u));
        },
    }
}

/// A term with a number before its expression is read as it is written: after a
/// minus sign where `lead` is set.
pub proof fn lemma_read_product(
    pre: Seq<char>,
    lead: bool,
    neg: bool,
    c: int,
    u: UTerm,
    rest: Seq<char>,
    acc: Seq<(int, UTerm)>,
    m: int,
)
    requires
        m > 2,
        0 < c < m,
        is_named(u),
        lead ==> !neg,
        (lead || neg) == (2 * c >= m),
        closes(rest),
        Printer::magnitude(c, m) != 1,
    ensures
        parse_linear(
            pre + lead_text(lead) + compact_term(Printer::magnitude(c, m), u) + rest,
            pre.len() as int,
            neg,
            acc,
            m,
        ) == parse_linear_next(
            pre + lead_text(lead) + compact_term(Printer::magnitude(c, m), u) + rest,
            pre.len() as int,
            (pre.len() + lead_text(lead).len() + compact_term(Printer::magnitude(c, m), u).len()) as int,
            acc.push((c, u)),
            m,
        ),
{
    reveal_strlit("-");
    reveal_strlit("*");
    let mag = Printer::magnitude(c, m);
    let term = compact_term(mag, u);
    let s = pre + lead_text(lead) + term + rest;
    let pos = pre.len() as int;
    let q = pos + lead_text(lead).len();
    let d = decimal(mag);
    let o = operand_of(u);
    lemma_decimal_len(mag);
    lemma_decimal_digits(mag);
    lemma_operand_len(u);
    assert(term =~= d + "*"@ + o);
    assert forall|k: int| q <= k < q + d.len() implies #[trigger] s[k] == d[k - q] by {
        assert(s[k] == term[k - q]);
    }
    let star = q + d.len();
    assert(s[star] == "*"@[0]) by {
        assert(s[star] == term[star - q]);
    }
    lemma_number_at(s, q, mag);
    assert(is_digit(s[q]));
    if lead {
        assert(s[pos] == "-"@[0]);
    }
    let num = (if 2 * c >= m {
        -mag
    } else {
        mag
    }) % m;
    assert(num == c) by {
        if 2 * c >= m {
            crate::modular::lemma_cong_add_multiple(c - m, 1, m);
            lemma_mod_small(c, m);
        } else {
            lemma_mod_small(c, m);
        }
    }
    let before = pre + lead_text(lead) + d + "*"@;
    assert(s =~= before + o + rest);
    lemma_read_right(before, u, rest, 0);
    assert(before.len() == star + 1);
}

/// The minus sign before the first term, where it has one.
pub open spec fn lead_text(lead: bool) -> Seq<char> {
    if lead {
        "-"@
    } else {
        Seq::empty()
    }
}

/// A term of an expression alone is read as it is written: after a minus sign where
/// `lead` is set.
pub proof fn lemma_read_plain(
    pre: Seq<char>,
    lead: bool,
    neg: bool,
    c: int,
    u: UTerm,
    rest: Seq<char>,
    acc: Seq<(int, UTerm)>,
    m: int,
)
    requires
        m > 2,
        0 < c < m,
        is_named(u),
        lead ==> !neg,
        (lead || neg) == (2 * c >= m),
        closes(rest),
        Printer::magnitude(c, m) == 1,
        lead || !begins_with_ones(u),
    ensures
        parse_linear(pre + lead_text(lead) + text_of(u) + rest, pre.len() as int, neg, acc, m)
            == parse_linear_next(
            pre + lead_text(lead) + text_of(u) + rest,
            pre.len() as int,
            (pre.len() + lead_text(lead).len() + text_of(u).len()) as int,
            acc.push((c, u)),
            m,
        ),
{
    reveal_strlit("-");
    reveal_strlit("-1");
    let term = text_of(u);
    let s = pre + lead_text(lead) + term + rest;
    let pos = pre.len() as int;
    let q = pos + lead_text(lead).len();
    lemma_operand_len(u);
    assert(s[q] == term[0]);
    if lead {
        assert(s[pos] == "-"@[0]);
    }
    if begins_with_ones(u) {
        lemma_ones_first(u);
    } else {
        lemma_first_character(u);
    }
    assert(!is_digit(s[q]));
    lemma_read_uniform(pre + lead_text(lead), u, rest);
}

/// The text of a uniform expression that begins with the constant of all ones
/// begins with a minus sign.
pub proof fn lemma_ones_first(u: UTerm)
    requires
        is_named(u),
        begins_with_ones(u),
    ensures
        text_of(u).len() > 0,
        is_code(text_of(u)[0], 45),
{
    reveal_strlit("-1");
    lemma_operand_len(u);
    match u {
        UTerm::And(l, r) => {
            assert(operand_of(*l) == "-1"@);
            assert(text_of(u) == operand_of(*l) + "&"@ + operand_of(*r));
            assert(text_of(u)[0] == "-1"@[0]);
        },
        UTerm::Or(l, r) => {
            assert(operand_of(*l) == "-1"@);
            assert(text_of(u) == operand_of(*l) + "|"@ + operand_of(*r));
            assert(text_of(u)[0] == "-1"@[0]);
        },
        UTerm::Xor(l, r) => {
            assert(operand_of(*l) == "-1"@);
            assert(text_of(u) == operand_of(*l) + "^"@ + operand_of(*r));
            assert(text_of(u)[0] == "-1"@[0]);
        },
        _ => {},
    }
}

/// The constant of all ones, with the coefficient one or minus one, after the sign
/// that is read before it, is read as it is written.
pub proof fn lemma_read_constant(
    pre: Seq<char>,
    neg: bool,
    rest: Seq<char>,
    acc: Seq<(int, UTerm)>,
    m: int,
)
    requires
        m > 2,
        closes(rest),
    ensures
        parse_linear(pre + "-1"@ + rest, pre.len() as int, neg, acc, m) == parse_linear_next(
            pre + "-1"@ + rest,
            pre.len() as int,
            (pre.len() + 2) as int,
            acc.push((if neg {
                m - 1
            } else {
                1int
            }, UTerm::Ones)),
            m,
        ),
{
    reveal_strlit("-1");
    let s = pre + "-1"@ + rest;
    let pos = pre.len() as int;
    assert(s[pos] == "-1"@[0]);
    assert(s[pos + 1] == "-1"@[1]);
    assert(decimal(1) =~= seq!['1']);
    assert forall|k: int| pos + 1 <= k < pos + 1 + decimal(1).len() implies #[trigger] s[k]
        == decimal(1)[k - (pos + 1)] by {}
    if pos + 2 < s.len() {
        assert(s[pos + 2] == rest[0]);
    }
    lemma_number_at(s, pos + 1, 1);
    crate::modular::lemma_cong_add_multiple(-1, 1, m);
    lemma_mod_small(m - 1, m);
    assert((-1int) % m == m - 1);
    crate::modular::lemma_cong_add_multiple(1 - m, 1, m);
    lemma_mod_small(1, m);
    assert((0 - (m - 1)) % m == 1);
    assert((0 - 1int) % m == m - 1);
}

/// A term is read as it is written: after a minus sign where `lead` is set, and
/// after a sign that is read before it, a minus sign where `neg` is set.
pub proof fn lemma_read_term(
    pre: Seq<char>,
    lead: bool,
    neg: bool,
    c: int,
    u: UTerm,
    rest: Seq<char>,
    acc: Seq<(int, UTerm)>,
    m: int,
)
    requires
        m > 2,
        0 < c < m,
        is_named(u),
        lead ==> !neg,
        (lead || neg) == (2 * c >= m),
        closes(rest),
        Printer::magnitude(c, m) == 1 && begins_with_ones(u) ==> lead || u is Ones,
    ensures
        parse_linear(
            pre + lead_text(lead) + compact_term(Printer::magnitude(c, m), u) + rest,
            pre.len() as int,
            neg,
            acc,
            m,
        ) == parse_linear_next(
            pre + lead_text(lead) + compact_term(Printer::magnitude(c, m), u) + rest,
            pre.len() as int,
            (pre.len() + lead_text(lead).len() + compact_term(Printer::magnitude(c, m), u).len()) as int,
            acc.push((c, u)),
            m,
        ),
{
    reveal_strlit("-1");
    let mag = Printer::magnitude(c, m);
    if mag != 1 {
        lemma_read_product(pre, lead, neg, c, u, rest, acc, m);
    } else if lead || !begins_with_ones(u) {
        lemma_read_plain(pre, lead, neg, c, u, rest, acc, m);
    } else {
        assert(pre + lead_text(lead) =~= pre);
        lemma_read_constant(pre, neg, rest, acc, m);
    }
}

/// The terms after the first are empty, or begin with a sign.
pub proof fn lemma_more_closes(t: Seq<(int, UTerm)>, k: int, m: int)
    ensures
        closes(compact_more(t, k, m)),
        compact_more(t, k, m).len() > 0 ==> 0 <= k < t.len() && is_code(
            compact_more(t, k, m)[0],
            if 2 * t[k].0 >= m {
                45int
            } else {
                43int
            },
        ),
{
    reveal_strlit("-");
    reveal_strlit("+");
    if 0 <= k < t.len() {
        let sign = if 2 * t[k].0 >= m {
            "-"@
        } else {
            "+"@
        };
        assert(compact_more(t, k, m)[0] == sign[0]);
    }
}

/// The text of a term has a character.
pub proof fn lemma_term_len(mag: int, u: UTerm)
    requires
        is_named(u),
    ensures
        compact_term(mag, u).len() > 0,
{
    lemma_operand_len(u);
}

/// The terms after the first are read as they are written.
pub proof fn lemma_read_more(
    pre: Seq<char>,
    t: Seq<(int, UTerm)>,
    k: int,
    acc: Seq<(int, UTerm)>,
    m: int,
    from: int,
)
    requires
        m > 2,
        1 <= k <= t.len(),
        all_readable(t, m),
        from < pre.len(),
    ensures
        parse_linear_next(pre + compact_more(t, k, m), from, pre.len() as int, acc, m) == Some(
            acc + t.subrange(k, t.len() as int),
        ),
    decreases t.len() - k,
{
    reveal_strlit("-");
    reveal_strlit("+");
    let s = pre + compact_more(t, k, m);
    let p = pre.len() as int;
    if k >= t.len() {
        assert(s =~= pre);
        assert(acc + t.subrange(k, t.len() as int) =~= acc);
    } else {
        assert(is_readable(t, k, m));
        let c = t[k].0;
        let u = t[k].1;
        let neg = 2 * c >= m;
        let sign = if neg {
            "-"@
        } else {
            "+"@
        };
        let term = compact_term(Printer::magnitude(c, m), u);
        let rest = compact_more(t, k + 1, m);
        assert(compact_more(t, k, m) =~= sign + term + rest);
        assert(s =~= (pre + sign) + lead_text(false) + term + rest);
        assert(s[p] == sign[0]);
        lemma_more_closes(t, k + 1, m);
        lemma_term_len(Printer::magnitude(c, m), u);
        lemma_read_term(pre + sign, false, neg, c, u, rest, acc, m);
        let next = acc.push((c, u));
        lemma_read_more(pre + sign + term, t, k + 1, next, m, p + 1);
        assert(s =~= (pre + sign + term) + rest);
        assert(next + t.subrange(k + 1, t.len() as int) =~= acc + t.subrange(k, t.len() as int));
    }
}

/// The terms whose coefficient is not zero are all the terms, where no coefficient
/// is zero.
pub proof fn lemma_all_nonzero(t: Seq<(int, UTerm)>)
    requires
        forall|k: int| 0 <= k < t.len() ==> (#[trigger] t[k]).0 != 0,
    ensures
        nonzero_terms(t) == t,
    decreases t.len(),
{
    if t.len() > 0 {
        let r = t.drop_last();
        assert forall|k: int| 0 <= k < r.len() implies (#[trigger] r[k]).0 != 0 by {
            assert(r[k] == t[k]);
        }
        lemma_all_nonzero(r);
        assert(r.push(t.last()) =~= t);
    }
}

/// The terms of a linear combination, as they are written without white space, are
/// read as these terms; where there is none, as the term zero.
pub proof fn lemma_read_terms(t: Seq<(int, UTerm)>, m: int)
    requires
        m > 2,
        all_readable(t, m),
    ensures
        parse_linear(compact_terms(t, m), 0, false, Seq::empty(), m) matches Some(r)
            && nonzero_terms(r) == t,
{
    reveal_strlit("0");
    reveal_strlit("-");
    let s = compact_terms(t, m);
    let none = Seq::<(int, UTerm)>::empty();
    if t.len() == 0 {
        assert(decimal(0) =~= s);
        lemma_number_at(s, 0, 0);
        lemma_mod_small(0, m);
        let r = none.push((0int, UTerm::Ones));
        assert(!is_code(s[0], 45));
        assert(parse_linear_next(s, 0, 1, r, m) == Some(r));
        assert(parse_linear(s, 0, false, none, m) == Some(r));
        assert(r.drop_last() =~= none);
        assert(r.last().0 == 0);
        assert(nonzero_terms(none) =~= none);
        assert(nonzero_terms(r) == nonzero_terms(r.drop_last()));
        assert(t =~= none);
    } else {
        assert(is_readable(t, 0, m));
        let c = t[0].0;
        let u = t[0].1;
        let lead = 2 * c >= m;
        let term = compact_term(Printer::magnitude(c, m), u);
        let rest = compact_more(t, 1, m);
        assert(s =~= none_text() + lead_text(lead) + term + rest);
        lemma_more_closes(t, 1, m);
        lemma_term_len(Printer::magnitude(c, m), u);
        lemma_read_term(none_text(), lead, false, c, u, rest, none, m);
        let first = none.push((c, u));
        lemma_read_more(lead_text(lead) + term, t, 1, first, m, 0);
        assert(s =~= (lead_text(lead) + term) + rest);
        assert(first + t.subrange(1, t.len() as int) =~= t);
        assert forall|k: int| 0 <= k < t.len() implies (#[trigger] t[k]).0 != 0 by {
            assert(is_readable(t, k, m));
        }
        lemma_all_nonzero(t);
    }
}

/// The empty text.
pub open spec fn none_text() -> Seq<char> {
    Seq::empty()
}

/// A term whose variables have names is, without white space, its text without
/// white space.
pub proof fn lemma_stripped_term(mag: int, u: UTerm)
    requires
        0 <= mag,
        is_named(u),
    ensures
        stripped(plain_term(mag, u)) == compact_term(mag, u),
{
    reveal_strlit("*");
    lemma_stripped_uniform(u);
    if mag != 1 {
        lemma_stripped_decimal(mag);
        lemma_stripped_same("*"@);
        lemma_stripped_concat(decimal(mag), "*"@);
        lemma_stripped_concat(decimal(mag) + "*"@, Printer::Default.operand(u));
    }
}

/// A sign between blanks is the sign, without its white space.
pub proof fn lemma_stripped_signs()
    ensures
        stripped(" - "@) == "-"@,
        stripped(" + "@) == "+"@,
        stripped("-"@) == "-"@,
{
    reveal_strlit(" - ");
    reveal_strlit(" + ");
    reveal_strlit("-");
    reveal_strlit("+");
    reveal_strlit(" ");
    let none = Seq::<char>::empty();
    assert(stripped(none) =~= none);
    lemma_stripped_sign(none, "-"@, none);
    lemma_stripped_sign(none, "+"@, none);
    assert(joined(none, "-"@, none) =~= " - "@);
    assert(joined(none, "+"@, none) =~= " + "@);
    assert(none + "-"@ + none =~= "-"@);
    assert(none + "+"@ + none =~= "+"@);
    lemma_stripped_same("-"@);
}

/// The terms after the first are, without white space, their text without white
/// space.
pub proof fn lemma_stripped_more(t: Seq<(int, UTerm)>, k: int, m: int)
    requires
        m > 2,
        all_readable(t, m),
        0 <= k,
    ensures
        stripped(plain_more(t, k, m)) == compact_more(t, k, m),
    decreases t.len() - k,
{
    if k >= t.len() {
        assert(stripped(Seq::<char>::empty()) =~= Seq::<char>::empty());
    } else {
        assert(is_readable(t, k, m));
        lemma_stripped_signs();
        lemma_stripped_more(t, k + 1, m);
        let sign = if 2 * t[k].0 >= m {
            " - "@
        } else {
            " + "@
        };
        let mag = Printer::magnitude(t[k].0, m);
        lemma_stripped_term(mag, t[k].1);
        lemma_stripped_concat(sign, plain_term(mag, t[k].1));
        lemma_stripped_concat(sign + plain_term(mag, t[k].1), plain_more(t, k + 1, m));
    }
}

/// A linear combination is, without white space, its text without white space.
pub proof fn lemma_stripped_terms(t: Seq<(int, UTerm)>, m: int)
    requires
        m > 2,
        all_readable(t, m),
    ensures
        stripped(plain_terms(t, m)) == compact_terms(t, m),
{
    reveal_strlit("0");
    if t.len() == 0 {
        let z = "0"@;
        assert forall|i: int| 0 <= i < z.len() implies !is_space(#[trigger] z[i]) by {}
        lemma_stripped_same(z);
    } else {
        assert(is_readable(t, 0, m));
        lemma_stripped_signs();
        lemma_stripped_more(t, 1, m);
        let sign = if 2 * t[0].0 >= m {
            "-"@
        } else {
            Seq::<char>::empty()
        };
        assert(stripped(Seq::<char>::empty()) =~= Seq::<char>::empty());
        let mag = Printer::magnitude(t[0].0, m);
        lemma_stripped_term(mag, t[0].1);
        lemma_stripped_concat(sign, plain_term(mag, t[0].1));
        lemma_stripped_concat(sign + plain_term(mag, t[0].1), plain_more(t, 1, m));
    }
}

/// A linear combination is read as it is written: what `LUExpr::to_string` writes
/// of the terms `t`, each of them readable, `LUExpr::from_string` reads as these
/// terms, and where there is none, as the term zero.
pub proof fn lemma_linear_round_trip(t: Seq<(int, UTerm)>, m: int)
    requires
        m > 2,
        all_readable(t, m),
    ensures
        parse_linear(stripped(plain_terms(t, m)), 0, false, Seq::empty(), m) matches Some(r)
            && nonzero_terms(r) == t,
{
    lemma_stripped_terms(t, m);
    lemma_read_terms(t, m);
}

/// What `LUExpr::to_string` writes of a linear combination over the ring of `T`, a
/// ring of more than two elements, whose terms with a coefficient that is not zero
/// are readable, `LUExpr::from_string` reads as these terms.
pub proof fn lemma_round_trip_of<T: UniformNum>(e: &LUExpr<T>)
    requires
        T::modulus() > 2,
        all_readable(nonzero_terms(e@), T::modulus()),
    ensures
        parse_linear(
            stripped(plain_terms(nonzero_terms(e@), T::modulus())),
            0,
            false,
            Seq::empty(),
            T::modulus(),
        ) matches Some(r) && nonzero_terms(r) == nonzero_terms(e@),
{
    lemma_linear_round_trip(nonzero_terms(e@), T::modulus());
}

} // verus!
