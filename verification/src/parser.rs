//! The grammar of uniform expressions and of their linear combinations.

use vstd::prelude::*;
use vstd::string::{StrSliceExecFns, StringExecFns, StringExecFnsIsAscii};
use crate::numbers::{UnsignedInt, UniformNum};
use crate::text::{is_digit, is_letter, stripped, code_at, ascii_len, strip_whitespace};
use crate::uniform_expr::{UExpr, UTerm, LUExpr};
use crate::modular::{lemma_cong_ops, lemma_cong_mod, lemma_mod_small};

verus! {

/// Whether the character has the code `b`.
pub open spec fn is_code(c: char, b: int) -> bool {
    c as u32 == b
}

/// The index after the letters and digits from index `from` on.
pub open spec fn name_end(s: Seq<char>, from: int) -> int
    decreases s.len() - from,
{
    if 0 <= from < s.len() && (is_letter(s[from]) || is_digit(s[from])) {
        name_end(s, from + 1)
    } else {
        from
    }
}

/// The index after the digits from index `from` on.
pub open spec fn digits_end(s: Seq<char>, from: int) -> int
    decreases s.len() - from,
{
    if 0 <= from < s.len() && is_digit(s[from]) {
        digits_end(s, from + 1)
    } else {
        from
    }
}

/// The number that the digits from index `from` to index `to` write.
pub open spec fn digits_value(s: Seq<char>, from: int, to: int) -> int
    decreases to - from,
{
    if to <= from {
        0
    } else {
        digits_value(s, from, to - 1) * 10 + (s[to - 1] as u32 - 48)
    }
}

/// The number in decimal notation at index `pos`, with or without a sign before it,
/// modulo `m`, and the index after it; `None` where there is no digit.
pub open spec fn parse_int(s: Seq<char>, pos: int, m: int) -> Option<(int, int)> {
    let neg = 0 <= pos < s.len() && is_code(s[pos], 45);
    let start = if neg {
        pos + 1
    } else {
        pos
    };
    if 0 <= start < s.len() && is_digit(s[start]) {
        let end = digits_end(s, start);
        let v = digits_value(s, start, end);
        Some(((if neg {
            -v
        } else {
            v
        }) % m, end))
    } else {
        None
    }
}

/// The binding strength of the operator with the code `b` between uniform
/// expressions; zero for any other character.
pub open spec fn uniform_strength(b: int) -> int {
    if b == 124 {
        1
    } else if b == 94 {
        2
    } else if b == 38 {
        3
    } else {
        0
    }
}

/// The uniform expression `l op r` for the operator with the code `b`.
pub open spec fn uniform_binary(b: int, l: UTerm, r: UTerm) -> UTerm {
    if b == 38 {
        UTerm::And(Box::new(l), Box::new(r))
    } else if b == 124 {
        UTerm::Or(Box::new(l), Box::new(r))
    } else {
        UTerm::Xor(Box::new(l), Box::new(r))
    }
}

/// The uniform expression without a binary operator at its top that begins at index
/// `pos`, and the index after it: an expression in brackets, a negation after `~` or
/// `!`, a variable that begins with a letter, or `-1`.
pub open spec fn parse_uniform_primary(s: Seq<char>, pos: int) -> Option<(UTerm, int)>
    decreases s.len() - pos, 0int,
{
    if pos < 0 || pos >= s.len() {
        None
    } else if is_code(s[pos], 40) {
        match parse_uniform(s, pos + 1, 0) {
            Some((e, p)) => if 0 <= p < s.len() && is_code(s[p], 41) {
                Some((e, p + 1))
            } else {
                None
            },
            None => None,
        }
    } else if is_code(s[pos], 126) || is_code(s[pos], 33) {
        match parse_uniform(s, pos + 1, 15) {
            Some((e, p)) => Some((UTerm::Not(Box::new(e)), p)),
            None => None,
        }
    } else if is_letter(s[pos]) {
        let end = name_end(s, pos + 1);
        Some((UTerm::Var(s.subrange(pos, end)), end))
    } else if is_code(s[pos], 45) {
        if pos + 1 < s.len() && is_code(s[pos + 1], 49) {
            Some((UTerm::Ones, pos + 2))
        } else {
            None
        }
    } else {
        None
    }
}

/// The uniform expression that begins with `e`, which ends before index `pos`, and
/// goes on with the operators that bind more than `pre`, and the index after it.
pub open spec fn parse_uniform_rest(s: Seq<char>, e: UTerm, pos: int, pre: int) -> Option<
    (UTerm, int),
>
    decreases s.len() - pos, 2int,
{
    if pos < 0 || pos >= s.len() {
        Some((e, pos))
    } else {
        let b = s[pos] as u32 as int;
        let strength = uniform_strength(b);
        if strength == 0 || strength <= pre {
            Some((e, pos))
        } else {
            match parse_uniform(s, pos + 1, strength) {
                Some((r, p)) => if pos < p <= s.len() {
                    parse_uniform_rest(s, uniform_binary(b, e, r), p, pre)
                } else {
                    None
                },
                None => None,
            }
        }
    }
}

/// The uniform expression that begins at index `pos` and has, outside brackets, only
/// operators that bind more than `pre`, and the index after it. The operators are
/// `|`, `^` and `&`, each binding more than the one before, and each as far to the
/// left as it can.
pub open spec fn parse_uniform(s: Seq<char>, pos: int, pre: int) -> Option<(UTerm, int)>
    decreases s.len() - pos, 1int,
{
    match parse_uniform_primary(s, pos) {
        Some((e, p)) => if pos < p <= s.len() {
            parse_uniform_rest(s, e, p, pre)
        } else {
            None
        },
        None => None,
    }
}

/// What the grammar of uniform expressions reads in an executable's result.
pub open spec fn uniform_result(r: Option<(UExpr, usize)>) -> Option<(UTerm, int)> {
    match r {
        Some((e, p)) => Some((e@, p as int)),
        None => None,
    }
}

/// What is read ends after where it begins, and within the text.
pub proof fn lemma_parse_uniform_advances(s: Seq<char>, pos: int, pre: int)
    requires
        0 <= pos,
    ensures
        parse_uniform(s, pos, pre) matches Some((e, p)) ==> pos < p <= s.len(),
        parse_uniform_primary(s, pos) matches Some((e, p)) ==> pos < p <= s.len(),
    decreases s.len() - pos, 1int,
{
    lemma_parse_uniform_primary_advances(s, pos);
    match parse_uniform_primary(s, pos) {
        Some((e, p)) => {
            if pos < p <= s.len() {
                lemma_parse_uniform_rest_advances(s, e, p, pre);
            }
        },
        None => {},
    }
}

/// What is read ends after where it begins, and within the text.
pub proof fn lemma_parse_uniform_primary_advances(s: Seq<char>, pos: int)
    requires
        0 <= pos,
    ensures
        parse_uniform_primary(s, pos) matches Some((e, p)) ==> pos < p <= s.len(),
    decreases s.len() - pos, 0int,
{
    if pos < s.len() {
        if is_code(s[pos], 40) {
            lemma_parse_uniform_advances(s, pos + 1, 0);
        } else if is_code(s[pos], 126) || is_code(s[pos], 33) {
            lemma_parse_uniform_advances(s, pos + 1, 15);
        } else if is_letter(s[pos]) {
            lemma_name_end(s, pos + 1);
        }
    }
}

/// What is read ends where it begins or after it, and within the text.
pub proof fn lemma_parse_uniform_rest_advances(s: Seq<char>, e: UTerm, pos: int, pre: int)
    requires
        0 <= pos <= s.len(),
    ensures
        parse_uniform_rest(s, e, pos, pre) matches Some((r, p)) ==> pos <= p <= s.len(),
    decreases s.len() - pos, 2int,
{
    if pos < s.len() {
        let b = s[pos] as u32 as int;
        let strength = uniform_strength(b);
        if !(strength == 0 || strength <= pre) {
            lemma_parse_uniform_advances(s, pos + 1, strength);
            match parse_uniform(s, pos + 1, strength) {
                Some((r, p)) => {
                    if pos < p <= s.len() {
                        lemma_parse_uniform_rest_advances(s, uniform_binary(b, e, r), p, pre);
                    }
                },
                None => {},
            }
        }
    }
}

/// A name ends where it begins or after it, and within the text.
pub proof fn lemma_name_end(s: Seq<char>, from: int)
    requires
        0 <= from <= s.len(),
    ensures
        from <= name_end(s, from) <= s.len(),
    decreases s.len() - from,
{
    if from < s.len() && (is_letter(s[from]) || is_digit(s[from])) {
        lemma_name_end(s, from + 1);
    }
}

/// Digits end where they begin or after it, and within the text.
pub proof fn lemma_digits_end(s: Seq<char>, from: int)
    requires
        0 <= from <= s.len(),
    ensures
        from <= digits_end(s, from) <= s.len(),
    decreases s.len() - from,
{
    if from < s.len() && is_digit(s[from]) {
        lemma_digits_end(s, from + 1);
    }
}

/// The index after the letters and digits from index `from` on.
pub fn scan_name(s: &str, from: usize) -> (end: usize)
    requires
        s.is_ascii(),
        from <= s@.len(),
    ensures
        end == name_end(s@, from as int),
        from <= end <= s@.len(),
{
    let n: usize = ascii_len(s);
    let mut i: usize = from;
    while i < n
        invariant
            from <= i <= n,
            n == s@.len(),
            s.is_ascii(),
            name_end(s@, from as int) == name_end(s@, i as int),
        decreases n - i,
    {
        let b: u8 = code_at(s, i);
        let alnum = (48 <= b && b <= 57) || (65 <= b && b <= 90) || (97 <= b && b <= 122);
        if !alnum {
            return i;
        }
        i += 1;
    }
    i
}

impl UExpr {
    /// Reads the uniform expression without a binary operator at its top that begins
    /// at index `pos` of the text.
    pub fn parse_primary(s: &str, pos: usize) -> (r: Option<(UExpr, usize)>)
        requires
            s.is_ascii(),
            pos <= s@.len(),
        ensures
            uniform_result(r) == parse_uniform_primary(s@, pos as int),
        decreases s@.len() - pos, 0int,
    {
        let n: usize = ascii_len(s);
        if pos >= n {
            return None;
        }
        let c: u8 = code_at(s, pos);
        if c == 40 {
            match Self::parse(s, pos + 1, 0) {
                Some((e, p)) => {
                    proof {
                        lemma_parse_uniform_advances(s@, pos + 1, 0);
                    }
                    if p < n && code_at(s, p) == 41 {
                        Some((e, p + 1))
                    } else {
                        None
                    }
                },
                None => None,
            }
        } else if c == 126 || c == 33 {
            match Self::parse(s, pos + 1, 15) {
                Some((e, p)) => Some((UExpr::Not(Box::new(e)), p)),
                None => None,
            }
        } else if (65 <= c && c <= 90) || (97 <= c && c <= 122) {
            let end: usize = scan_name(s, pos + 1);
            let name = s.substring_ascii(pos, end);
            Some((UExpr::Var(String::from_str(name)), end))
        } else if c == 45 {
            if pos + 1 < n && code_at(s, pos + 1) == 49 {
                Some((UExpr::Ones, pos + 2))
            } else {
                None
            }
        } else {
            None
        }
    }

    /// Reads the uniform expression that begins at index `pos` of the text and has,
    /// outside brackets, only operators that bind more than `pre`.
    pub fn parse(s: &str, pos: usize, pre: usize) -> (r: Option<(UExpr, usize)>)
        requires
            s.is_ascii(),
            pos <= s@.len(),
        ensures
            uniform_result(r) == parse_uniform(s@, pos as int, pre as int),
        decreases s@.len() - pos, 1int,
    {
        let n: usize = ascii_len(s);
        let ghost goal = parse_uniform(s@, pos as int, pre as int);
        let (mut e, mut p) = match Self::parse_primary(s, pos) {
            Some((e, p)) => (e, p),
            None => {
                return None;
            },
        };
        proof {
            lemma_parse_uniform_primary_advances(s@, pos as int);
        }
        loop
            invariant
                s.is_ascii(),
                n == s@.len(),
                pos < p <= n,
                goal == parse_uniform(s@, pos as int, pre as int),
                goal == parse_uniform_rest(s@, e@, p as int, pre as int),
            ensures
                uniform_result(Some((e, p))) == goal,
            decreases n - p,
        {
            if p >= n {
                break ;
            }
            let c: u8 = code_at(s, p);
            let strength: usize = if c == 124 {
                1
            } else if c == 94 {
                2
            } else if c == 38 {
                3
            } else {
                0
            };
            if strength == 0 || strength <= pre {
                break ;
            }
            let (rhs, next) = match Self::parse(s, p + 1, strength) {
                Some((rhs, next)) => (rhs, next),
                None => {
                    return None;
                },
            };
            proof {
                lemma_parse_uniform_advances(s@, p + 1, strength as int);
            }
            e = if c == 38 {
                UExpr::And(Box::new(e), Box::new(rhs))
            } else if c == 124 {
                UExpr::Or(Box::new(e), Box::new(rhs))
            } else {
                UExpr::Xor(Box::new(e), Box::new(rhs))
            };
            p = next;
        }
        Some((e, p))
    }

    /// Reads a uniform expression from the whole of a text, white space aside.
    pub fn from_string(s: &str) -> (r: Option<UExpr>)
        ensures
            match r {
                Some(e) => s.is_ascii() && parse_uniform(stripped(s@), 0, 0) == Some(
                    (e@, stripped(s@).len() as int),
                ),
                None => !s.is_ascii() || !(parse_uniform(stripped(s@), 0, 0) matches Some((e, p))
                    && p == stripped(s@).len()),
            },
    {
        if !s.is_ascii() {
            return None;
        }
        let t = strip_whitespace(s);
        let n: usize = ascii_len(t.as_str());
        match Self::parse(t.as_str(), 0, 0) {
            Some((e, p)) => {
                if p == n {
                    Some(e)
                } else {
                    None
                }
            },
            None => None,
        }
    }
}

/// Whether the text has a digit at index `i`.
pub fn digit_at(s: &str, i: usize) -> (b: bool)
    requires
        s.is_ascii(),
    ensures
        b == (i < s@.len() && is_digit(s@[i as int])),
{
    let n: usize = ascii_len(s);
    if i >= n {
        return false;
    }
    let c: u8 = code_at(s, i);
    48 <= c && c <= 57
}

/// Reads the number in decimal notation at index `pos` of the text, with or without
/// a sign before it, into the ring.
pub fn int_from_it<T: UnsignedInt>(s: &str, pos: usize) -> (r: Option<(T, usize)>)
    requires
        s.is_ascii(),
        pos <= s@.len(),
    ensures
        match r {
            Some((v, p)) => parse_int(s@, pos as int, T::modulus()) == Some((v.val(), p as int)),
            None => parse_int(s@, pos as int, T::modulus()) is None,
        },
{
    let ghost md = T::modulus();
    let n: usize = ascii_len(s);
    if pos >= n {
        return None;
    }
    let neg: bool = code_at(s, pos) == 45;
    let start: usize = if neg {
        pos + 1
    } else {
        pos
    };
    // Is the character a digit?
    if start >= n {
        return None;
    }
    let first: u8 = code_at(s, start);
    if !(48 <= first && first <= 57) {
        return None;
    }
    let ten: T = T::from_u8(10);
    // Read the number.
    let mut v: T = T::zero();
    let mut i: usize = start;
    proof {
        T::lemma_modulus();
        lemma_mod_small(0, md);
    }
    while digit_at(s, i)
        invariant
            start <= i <= n,
            n == s@.len(),
            s.is_ascii(),
            md == T::modulus(),
            md > 1,
            ten.val() == 10int % md,
            digits_end(s@, start as int) == digits_end(s@, i as int),
            v.val() == digits_value(s@, start as int, i as int) % md,
        decreases n - i,
    {
        let b: u8 = code_at(s, i);
        let d: T = T::from_u8(b - 48);
        let next: T = v.mul(ten).add(d);
        proof {
            let old_v = digits_value(s@, start as int, i as int);
            let dv = (b - 48) as int;
            lemma_cong_mod(old_v, md);
            lemma_cong_mod(10, md);
            lemma_cong_ops(v.val(), old_v, ten.val(), 10, md);
            lemma_cong_mod(v.val() * ten.val(), md);
            lemma_cong_mod(dv, md);
            lemma_cong_ops((v.val() * ten.val()) % md, old_v * 10, d.val(), dv, md);
            lemma_cong_mod(((v.val() * ten.val()) % md) + d.val(), md);
            assert(digits_value(s@, start as int, i + 1) == old_v * 10 + dv);
        }
        v = next;
        i += 1;
    }
    proof {
        let value = digits_value(s@, start as int, i as int);
        lemma_cong_mod(value, md);
        lemma_cong_ops(0, 0, v.val(), value, md);
    }
    if neg {
        v = T::zero().sub(v);
    }
    Some((v, i))
}

/// What follows a term of a linear combination at index `p`: the end of the text,
/// or a sign and the terms after it.
pub open spec fn parse_linear_next(
    s: Seq<char>,
    from: int,
    p: int,
    acc: Seq<(int, UTerm)>,
    m: int,
) -> Option<Seq<(int, UTerm)>>
    decreases s.len() - from, 0int,
{
    if !(from < p <= s.len()) {
        None
    } else if p >= s.len() {
        Some(acc)
    } else if is_code(s[p], 43) {
        parse_linear(s, p + 1, false, acc, m)
    } else if is_code(s[p], 45) {
        parse_linear(s, p + 1, true, acc, m)
    } else {
        None
    }
}

/// The linear combination whose first terms are `acc` and whose other terms begin at
/// index `pos`, after a minus sign where `neg` is set. A term is a number, a number
/// times a uniform expression, or a uniform expression, each with or without a minus
/// sign before it; the terms are joined by `+` and `-`, and a term with a minus sign
/// after `-` is added. A number alone stands for the constant, which is its
/// negative times `-1`.
pub open spec fn parse_linear(
    s: Seq<char>,
    pos: int,
    neg: bool,
    acc: Seq<(int, UTerm)>,
    m: int,
) -> Option<Seq<(int, UTerm)>>
    decreases s.len() - pos, 1int,
{
    if pos < 0 {
        None
    } else if pos >= s.len() {
        Some(acc)
    } else {
        let minus = is_code(s[pos], 45);
        let neg2 = neg != minus;
        let after_minus = if minus {
            pos + 1
        } else {
            pos
        };
        if after_minus >= s.len() {
            None
        } else if is_digit(s[after_minus]) {
            let end = digits_end(s, after_minus);
            let v = digits_value(s, after_minus, end);
            let num = (if neg2 {
                -v
            } else {
                v
            }) % m;
            if end < s.len() && is_code(s[end], 42) {
                match parse_uniform(s, end + 1, 0) {
                    Some((e, p)) => parse_linear_next(s, pos, p, acc.push((num, e)), m),
                    None => None,
                }
            } else {
                parse_linear_next(s, pos, end, acc.push(((0 - num) % m, UTerm::Ones)), m)
            }
        } else {
            match parse_uniform(s, after_minus, 0) {
                Some((e, p)) => parse_linear_next(
                    s,
                    pos,
                    p,
                    acc.push((if neg2 {
                        m - 1
                    } else {
                        1
                    }, e)),
                    m,
                ),
                None => None,
            }
        }
    }
}

impl<T: UniformNum> LUExpr<T> {
    /// Reads a linear combination of uniform expressions from the whole of a text,
    /// white space aside.
    pub fn from_string(s: &str) -> (r: Option<Self>)
        ensures
            match r {
                Some(e) => s.is_ascii() && parse_linear(
                    stripped(s@),
                    0,
                    false,
                    Seq::empty(),
                    T::modulus(),
                ) == Some(e@),
                None => !s.is_ascii() || parse_linear(
                    stripped(s@),
                    0,
                    false,
                    Seq::empty(),
                    T::modulus(),
                ) is None,
            },
    {
        if !s.is_ascii() {
            return None;
        }
        let ghost md = T::modulus();
        let text = strip_whitespace(s);
        let t = text.as_str();
        let n: usize = ascii_len(t);
        let ghost goal = parse_linear(t@, 0, false, Seq::empty(), md);
        // This stores the current linear combination.
        let mut v: Vec<(T, UExpr)> = Vec::new();
        let ghost mut acc = LUExpr::<T>(v);
        let mut neg: bool = false;
        let mut pos: usize = 0;
        proof {
            T::lemma_modulus();
            assert(acc@ =~= Seq::empty());
            crate::modular::lemma_cong_add_multiple(-1, 1, md);
            lemma_mod_small(md - 1, md);
        }
        // Loop over the summands.
        loop
            invariant
                s.is_ascii(),
                t.is_ascii(),
                t@ == stripped(s@),
                n == t@.len(),
                pos <= n,
                md == T::modulus(),
                md > 1,
                (0int - 1) % md == md - 1,
                acc.0 == v,
                goal == parse_linear(stripped(s@), 0, false, Seq::empty(), md),
                goal == parse_linear(t@, pos as int, neg, acc@, md),
            decreases n - pos,
        {
            // Are there still characters left?
            if pos >= n {
                return Some(LUExpr(v));
            }
            let minus: bool = code_at(t, pos) == 45;
            if minus {
                neg = !neg;
            }
            let after_minus: usize = if minus {
                pos + 1
            } else {
                pos
            };
            if after_minus >= n {
                return None;
            }
            let c: u8 = code_at(t, after_minus);
            let ghost before = acc@;
            let next: usize;
            // If this is a digit then we expect num*UExpr.
            if 48 <= c && c <= 57 {
                let (mut num, end) = match int_from_it::<T>(t, after_minus) {
                    Some(x) => x,
                    None => {
                        return None;
                    },
                };
                proof {
                    lemma_digits_end(t@, after_minus as int);
                    let value = digits_value(t@, after_minus as int, end as int);
                    lemma_cong_mod(value, md);
                    lemma_cong_ops(0, 0, num.val(), value, md);
                }
                // If the number is negative then negate it.
                if neg {
                    num = T::zero().sub(num);
                }
                if end < n && code_at(t, end) == 42 {
                    let (e, p) = match UExpr::parse(t, end + 1, 0) {
                        Some(x) => x,
                        None => {
                            return None;
                        },
                    };
                    proof {
                        lemma_parse_uniform_advances(t@, end + 1, 0);
                    }
                    let ghost term = (num.val(), e@);
                    v.push((num, e));
                    proof {
                        acc = LUExpr::<T>(v);
                        assert(acc@ =~= before.push(term));
                    }
                    next = p;
                } else {
                    let ghost term = ((0 - num.val()) % md, UTerm::Ones);
                    v.push((T::zero().sub(num), UExpr::Ones));
                    proof {
                        acc = LUExpr::<T>(v);
                        assert(acc@ =~= before.push(term));
                    }
                    next = end;
                }
            } else {
                // We don't have a factor so just parse the UExpr.
                let (e, p) = match UExpr::parse(t, after_minus, 0) {
                    Some(x) => x,
                    None => {
                        return None;
                    },
                };
                proof {
                    lemma_parse_uniform_advances(t@, after_minus as int, 0);
                    lemma_mod_small(1, md);
                }
                let sign: T = if neg {
                    T::zero().sub(T::one())
                } else {
                    T::one()
                };
                let ghost term = (sign.val(), e@);
                v.push((sign, e));
                proof {
                    acc = LUExpr::<T>(v);
                    assert(acc@ =~= before.push(term));
                }
                next = p;
            }
            // If the next character is not a sign then we are done.
            if next >= n {
                return Some(LUExpr(v));
            }
            let d: u8 = code_at(t, next);
            if d == 43 {
                neg = false;
            } else if d == 45 {
                neg = true;
            } else {
                return None;
            }
            pos = next + 1;
        }
    }
}

} // verus!
