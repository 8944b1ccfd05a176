//! The grammar of polynomials.

use vstd::prelude::*;
use vstd::string::{StrSliceExecFns, StringExecFns, StringExecFnsIsAscii};
use crate::numbers::UnsignedInt;
use crate::text::{is_digit, is_space, stripped, code_at, ascii_len, strip_whitespace};
use crate::parser::{
    is_code, digits_end, digits_value, int_from_it, parse_int, digit_at, lemma_digits_end,
};
use crate::polynomial::{Polynomial, trimmed, coeff};
use crate::modular::lemma_mod_small;

verus! {

/// Why a text is no polynomial.
#[derive(Clone, Copy, Debug, PartialEq, Eq, Structural)]
pub enum PolyError {
    NonAscii,
    Stuck,
    Coefficient,
    Exponent,
}

impl PolyError {
    /// The message of the error.
    pub open spec fn text(self) -> Seq<char> {
        match self {
            PolyError::NonAscii => "Non-ascii input."@,
            PolyError::Stuck => "Got stuck while parsing polynomial."@,
            PolyError::Coefficient => "Failed to parse coefficient."@,
            PolyError::Exponent => "Failed to parse exponent."@,
        }
    }

    /// The message of the error.
    pub fn message(self) -> (s: String)
        ensures
            s@ == self.text(),
    {
        match self {
            PolyError::NonAscii => String::from_str("Non-ascii input."),
            PolyError::Stuck => String::from_str("Got stuck while parsing polynomial."),
            PolyError::Coefficient => String::from_str("Failed to parse coefficient."),
            PolyError::Exponent => String::from_str("Failed to parse exponent."),
        }
    }
}

/// Whether the character is the letter of the unknown, small or capital.
pub open spec fn is_unknown(c: char) -> bool {
    c as u32 == 120 || c as u32 == 88
}

/// Whether the text holds the letter of the unknown.
pub open spec fn has_unknown(s: Seq<char>) -> bool {
    exists|i: int| 0 <= i < s.len() && is_unknown(#[trigger] s[i])
}

/// The index after the sign at index `pos`, if there is one.
pub open spec fn after_sign(s: Seq<char>, pos: int) -> int {
    if 0 <= pos < s.len() && (is_code(s[pos], 43) || is_code(s[pos], 45)) {
        pos + 1
    } else {
        pos
    }
}

/// The index after the number at index `pos`, if there is one, and the `*` after it.
pub open spec fn after_factor(s: Seq<char>, pos: int) -> int {
    if 0 <= pos < s.len() && is_digit(s[pos]) {
        let end = digits_end(s, pos);
        if 0 <= end < s.len() && is_code(s[end], 42) {
            end + 1
        } else {
            end
        }
    } else {
        pos
    }
}

/// The coefficient of the term at index `pos`, modulo `m`: the number after the
/// sign, or one where there is none, negated after a minus sign.
pub open spec fn term_coefficient(s: Seq<char>, pos: int, m: int) -> int {
    let after_plus = after_sign(s, pos);
    let c = if 0 <= after_plus < s.len() && is_digit(s[after_plus]) {
        digits_value(s, after_plus, digits_end(s, after_plus)) % m
    } else {
        1int % m
    };
    if 0 <= pos < s.len() && is_code(s[pos], 45) {
        (0 - c) % m
    } else {
        c
    }
}

/// The exponent of the term whose power begins at index `pos`, and the index after
/// the term; `None` where no digit follows a `^`, or the exponent is too large for
/// this machine. A term without the unknown has the exponent zero, the unknown alone
/// the exponent one.
pub open spec fn term_exponent(s: Seq<char>, pos: int) -> Option<(int, int)> {
    if 0 <= pos < s.len() && is_unknown(s[pos]) {
        if pos + 1 < s.len() && is_code(s[pos + 1], 94) {
            if pos + 2 < s.len() && is_digit(s[pos + 2]) {
                let end = digits_end(s, pos + 2);
                let e = digits_value(s, pos + 2, end);
                if e < usize::MAX {
                    Some((e, end))
                } else {
                    None
                }
            } else {
                None
            }
        } else {
            Some((1, pos + 1))
        }
    } else {
        Some((0, pos))
    }
}

/// The coefficients `c` with `v` as the coefficient of `X^e`.
pub open spec fn with_coefficient(c: Seq<int>, e: int, v: int) -> Seq<int> {
    Seq::new(
        if e + 1 > c.len() {
            (e + 1) as nat
        } else {
            c.len()
        },
        |i: int|
            if i == e {
                v
            } else {
                coeff(c, i)
            },
    )
}

/// The coefficients of the polynomial whose terms from index `pos` on are read into
/// `c`: each term is a sign, a number with or without `*` after it, and the unknown
/// with or without `^` and an exponent after it, each of which may be missing, but
/// not all. A later term of the same power takes the place of an earlier one.
pub open spec fn parse_terms(s: Seq<char>, pos: int, c: Seq<int>, m: int) -> Result<
    Seq<int>,
    PolyError,
>
    decreases s.len() - pos,
{
    if pos < 0 || pos >= s.len() {
        Ok(c)
    } else {
        match term_exponent(s, after_factor(s, after_sign(s, pos))) {
            None => Err(PolyError::Exponent),
            Some((e, end)) => if pos < end <= s.len() {
                parse_terms(s, end, with_coefficient(c, e, term_coefficient(s, pos, m)), m)
            } else {
                Err(PolyError::Stuck)
            },
        }
    }
}

/// The index of the first character from index `pos` on that is no white space.
pub open spec fn skip_space(s: Seq<char>, pos: int) -> int
    decreases s.len() - pos,
{
    if 0 <= pos < s.len() && is_space(s[pos]) {
        skip_space(s, pos + 1)
    } else {
        pos
    }
}

/// The coefficients of the polynomial that is a list of numbers, that of the
/// highest power first, with white space between them; `c` holds those that are
/// read before index `pos`.
pub open spec fn parse_list(s: Seq<char>, pos: int, c: Seq<int>, m: int) -> Result<
    Seq<int>,
    PolyError,
>
    decreases s.len() - pos,
{
    let p = skip_space(s, pos);
    if p < 0 || p >= s.len() {
        Ok(c)
    } else {
        match parse_int(s, p, m) {
            Some((v, end)) => if pos <= p < end <= s.len() && (end == s.len() || is_space(
                s[end],
            )) {
                parse_list(s, end, seq![v] + c, m)
            } else {
                Err(PolyError::Coefficient)
            },
            None => Err(PolyError::Coefficient),
        }
    }
}

/// The coefficients of the polynomial that a text writes, without zeros at their
/// end: where the text holds the unknown, as a sum of terms, white space aside, and
/// else as a list of coefficients.
pub open spec fn parse_polynomial(s: Seq<char>, m: int) -> Result<Seq<int>, PolyError> {
    let r = if has_unknown(s) {
        parse_terms(stripped(s), 0, Seq::empty(), m)
    } else {
        parse_list(s, 0, Seq::empty(), m)
    };
    match r {
        Ok(c) => Ok(trimmed(c)),
        Err(e) => Err(e),
    }
}

/// Whether the text holds the letter of the unknown.
pub fn contains_unknown(s: &str) -> (b: bool)
    requires
        s.is_ascii(),
    ensures
        b == has_unknown(s@),
{
    let n: usize = ascii_len(s);
    let mut i: usize = 0;
    while i < n
        invariant
            i <= n,
            n == s@.len(),
            s.is_ascii(),
            forall|k: int| 0 <= k < i ==> !is_unknown(#[trigger] s@[k]),
        decreases n - i,
    {
        let c: u8 = code_at(s, i);
        if c == 120 || c == 88 {
            assert(is_unknown(s@[i as int]));
            return true;
        }
        i += 1;
    }
    false
}

/// The index after the digits from index `from` on.
pub fn scan_digits(s: &str, from: usize) -> (end: usize)
    requires
        s.is_ascii(),
        from <= s@.len(),
    ensures
        end == digits_end(s@, from as int),
        from <= end <= s@.len(),
{
    let n: usize = ascii_len(s);
    let mut i: usize = from;
    while digit_at(s, i)
        invariant
            from <= i <= n,
            n == s@.len(),
            s.is_ascii(),
            digits_end(s@, from as int) == digits_end(s@, i as int),
        decreases n - i,
    {
        i += 1;
    }
    i
}

/// The number that the digits from index `from` to index `to` write, where it is
/// below the largest index of this machine.
pub fn small_number(s: &str, from: usize, to: usize) -> (r: Option<usize>)
    requires
        s.is_ascii(),
        from <= to <= s@.len(),
        forall|k: int| from <= k < to ==> is_digit(#[trigger] s@[k]),
    ensures
        match r {
            Some(v) => v == digits_value(s@, from as int, to as int) && v < usize::MAX,
            None => digits_value(s@, from as int, to as int) >= usize::MAX,
        },
{
    let mut v: usize = 0;
    let mut i: usize = from;
    while i < to
        invariant
            from <= i <= to,
            to <= s@.len(),
            s.is_ascii(),
            forall|k: int| from <= k < to ==> is_digit(#[trigger] s@[k]),
            v == digits_value(s@, from as int, i as int),
        decreases to - i,
    {
        let d: u8 = code_at(s, i) - 48;
        proof {
            assert(is_digit(s@[i as int]));
            assert(digits_value(s@, from as int, i + 1) == v * 10 + d);
        }
        let next = match v.checked_mul(10) {
            Some(x) => x.checked_add(d as usize),
            None => None,
        };
        match next {
            Some(x) => {
                v = x;
            },
            None => {
                proof {
                    lemma_digits_grow(s@, from as int, i + 1, to as int);
                }
                return None;
            },
        }
        i += 1;
    }
    if v == usize::MAX {
        None
    } else {
        Some(v)
    }
}

/// More digits do not write a smaller number.
pub proof fn lemma_digits_grow(s: Seq<char>, from: int, mid: int, to: int)
    requires
        from <= mid <= to <= s.len(),
        forall|k: int| from <= k < to ==> is_digit(#[trigger] s[k]),
    ensures
        digits_value(s, from, mid) <= digits_value(s, from, to),
        0 <= digits_value(s, from, mid),
    decreases to - mid,
{
    lemma_digits_nonneg(s, from, mid);
    if mid < to {
        lemma_digits_grow(s, from, mid, to - 1);
        lemma_digits_nonneg(s, from, to - 1);
        assert(is_digit(s[to - 1]));
    }
}

/// Digits write a natural number.
pub proof fn lemma_digits_nonneg(s: Seq<char>, from: int, to: int)
    requires
        from <= to <= s.len(),
        forall|k: int| from <= k < to ==> is_digit(#[trigger] s[k]),
    ensures
        0 <= digits_value(s, from, to),
    decreases to - from,
{
    if from < to {
        lemma_digits_nonneg(s, from, to - 1);
        assert(is_digit(s[to - 1]));
    }
}

/// The characters before the end of a run of digits are digits.
pub proof fn lemma_digits_run(s: Seq<char>, from: int)
    requires
        0 <= from <= s.len(),
    ensures
        forall|k: int| from <= k < digits_end(s, from) ==> is_digit(#[trigger] s[k]),
    decreases s.len() - from,
{
    if from < s.len() && is_digit(s[from]) {
        lemma_digits_run(s, from + 1);
    }
}

/// Makes `v` the coefficient of `X^e`, after as many zero coefficients as it takes.
pub fn set_coefficient<T: UnsignedInt>(p: &mut Polynomial<T>, e: usize, v: T)
    requires
        e < usize::MAX,
    ensures
        final(p)@ == with_coefficient(old(p)@, e as int, v.val()),
{
    let ghost before = p@;
    while p.coeffs.len() <= e
        invariant
            e < usize::MAX,
            before.len() <= p@.len(),
            p@.len() <= e + 1 || p@.len() == before.len(),
            forall|i: int| 0 <= i < p@.len() ==> #[trigger] p@[i] == coeff(before, i),
        decreases e + 1 - p@.len(),
    {
        let ghost prev = p@;
        p.coeffs.push(T::zero());
        proof {
            assert forall|i: int| 0 <= i < p@.len() implies #[trigger] p@[i] == coeff(before, i) by {
                if i < prev.len() {
                    assert(p@[i] == prev[i]);
                }
            }
        }
    }
    let ghost prev = p@;
    p.coeffs[e] = v;
    proof {
        assert forall|i: int| 0 <= i < p@.len() implies p@[i] == with_coefficient(
            before,
            e as int,
            v.val(),
        )[i] by {
            if i != e {
                assert(p@[i] == prev[i]);
            }
        }
        assert(p@ =~= with_coefficient(before, e as int, v.val()));
    }
}

/// Reads the terms of a polynomial from index `pos` of the text on into `p`.
pub fn read_terms<T: UnsignedInt>(t: &str, p: &mut Polynomial<T>) -> (r: Result<(), PolyError>)
    requires
        t.is_ascii(),
        old(p)@.len() == 0,
    ensures
        match r {
            Ok(()) => parse_terms(t@, 0, Seq::empty(), T::modulus()) == Ok::<
                Seq<int>,
                PolyError,
            >(final(p)@),
            Err(e) => parse_terms(t@, 0, Seq::empty(), T::modulus()) == Err::<Seq<int>, PolyError>(
                e,
            ),
        },
{
    let ghost md = T::modulus();
    let n: usize = ascii_len(t);
    let ghost goal = parse_terms(t@, 0, Seq::empty(), md);
    let mut pos: usize = 0;
    proof {
        T::lemma_modulus();
        assert(p@ =~= Seq::<int>::empty());
    }
    while pos < n
        invariant
            t.is_ascii(),
            n == t@.len(),
            pos <= n,
            md == T::modulus(),
            md > 1,
            goal == parse_terms(t@, 0, Seq::empty(), md),
            goal == parse_terms(t@, pos as int, p@, md),
        decreases n - pos,
    {
        // Parse the sign.
        let first: u8 = code_at(t, pos);
        let minus: bool = first == 45;
        let after_plus: usize = if first == 43 || first == 45 {
            pos + 1
        } else {
            pos
        };
        // Parse the coefficient.
        let mut c: T = T::one();
        let mut after_number: usize = after_plus;
        proof {
            lemma_mod_small(1, md);
        }
        if digit_at(t, after_plus) {
            match int_from_it::<T>(t, after_plus) {
                Some((v, end)) => {
                    c = v;
                    after_number = end;
                },
                None => {},
            }
            proof {
                lemma_digits_end(t@, after_plus as int);
            }
            if after_number < n && code_at(t, after_number) == 42 {
                after_number += 1;
            }
        }
        if minus {
            c = T::zero().sub(c);
        }
        // Parse the exponent.
        let mut e: usize = 0;
        let mut term_end: usize = after_number;
        if after_number < n && (code_at(t, after_number) == 120 || code_at(t, after_number) == 88) {
            e = 1;
            term_end = after_number + 1;
            if term_end < n && code_at(t, term_end) == 94 {
                if !digit_at(t, term_end + 1) {
                    return Err(PolyError::Exponent);
                }
                let end: usize = scan_digits(t, term_end + 1);
                proof {
                    lemma_digits_run(t@, term_end + 1);
                }
                match small_number(t, term_end + 1, end) {
                    Some(v) => {
                        e = v;
                    },
                    None => {
                        return Err(PolyError::Exponent);
                    },
                }
                term_end = end;
            }
        }
        if term_end == pos {
            return Err(PolyError::Stuck);
        }
        proof {
            assert(c.val() == term_coefficient(t@, pos as int, md));
            assert(term_exponent(t@, after_factor(t@, after_sign(t@, pos as int))) == Some(
                (e as int, term_end as int),
            ));
        }
        set_coefficient(p, e, c);
        pos = term_end;
    }
    Ok(())
}

/// Reads the coefficients of a polynomial, that of the highest power first, from the
/// text into `p`.
pub fn read_list<T: UnsignedInt>(s: &str, p: &mut Polynomial<T>) -> (r: Result<(), PolyError>)
    requires
        s.is_ascii(),
        old(p)@.len() == 0,
    ensures
        match r {
            Ok(()) => parse_list(s@, 0, Seq::empty(), T::modulus()) == Ok::<Seq<int>, PolyError>(
                final(p)@,
            ),
            Err(e) => parse_list(s@, 0, Seq::empty(), T::modulus()) == Err::<Seq<int>, PolyError>(
                e,
            ),
        },
{
    let ghost md = T::modulus();
    let n: usize = ascii_len(s);
    let ghost goal = parse_list(s@, 0, Seq::empty(), md);
    let mut pos: usize = 0;
    proof {
        assert(p@ =~= Seq::<int>::empty());
    }
    loop
        invariant
            s.is_ascii(),
            n == s@.len(),
            pos <= n,
            md == T::modulus(),
            goal == parse_list(s@, 0, Seq::empty(), md),
            goal == parse_list(s@, pos as int, p@, md),
        decreases n - pos,
    {
        let mut q: usize = pos;
        while q < n && is_space_code(code_at(s, q))
            invariant
                pos <= q <= n,
                n == s@.len(),
                s.is_ascii(),
                skip_space(s@, pos as int) == skip_space(s@, q as int),
            decreases n - q,
        {
            q += 1;
        }
        if q >= n {
            return Ok(());
        }
        let (v, end) = match int_from_it::<T>(s, q) {
            Some(x) => x,
            None => {
                return Err(PolyError::Coefficient);
            },
        };
        proof {
            lemma_parse_int_advances(s@, q as int, md);
        }
        if !(end == n || is_space_code(code_at(s, end))) {
            return Err(PolyError::Coefficient);
        }
        let ghost before = p@;
        p.coeffs.insert(0, v);
        proof {
            assert(p@ =~= seq![v.val()] + before);
        }
        pos = end;
    }
}

/// Whether the code is that of a white space character.
pub fn is_space_code(b: u8) -> (r: bool)
    ensures
        r == (b == 32 || 9 <= b <= 13),
{
    b == 32 || (9 <= b && b <= 13)
}

/// A number ends after where it begins, and within the text.
pub proof fn lemma_parse_int_advances(s: Seq<char>, pos: int, m: int)
    requires
        0 <= pos,
    ensures
        parse_int(s, pos, m) matches Some((v, end)) ==> pos < end <= s.len(),
{
    if pos < s.len() {
        let start = if is_code(s[pos], 45) {
            pos + 1
        } else {
            pos
        };
        if start < s.len() && is_digit(s[start]) {
            lemma_digits_end(s, start + 1);
        }
    }
}

/// Reads a polynomial from a text: a sum of terms where the text holds the unknown,
/// and else a list of coefficients, that of the highest power first.
pub fn parse_poly<T: UnsignedInt>(poly: &str) -> (r: Result<Polynomial<T>, PolyError>)
    ensures
        match r {
            Ok(p) => poly.is_ascii() && parse_polynomial(poly@, T::modulus()) == Ok::<
                Seq<int>,
                PolyError,
            >(p@),
            Err(e) => if !poly.is_ascii() {
                e == PolyError::NonAscii
            } else {
                parse_polynomial(poly@, T::modulus()) == Err::<Seq<int>, PolyError>(e)
            },
        },
{
    if !poly.is_ascii() {
        return Err(PolyError::NonAscii);
    }
    let mut p = Polynomial::<T>::zero();
    // If the polynomial contains x then it is an actual expression. Otherwise, it
    // is a list of coefficients.
    let r = if contains_unknown(poly) {
        let t = strip_whitespace(poly);
        read_terms(t.as_str(), &mut p)
    } else {
        read_list(poly, &mut p)
    };
    match r {
        Ok(()) => Ok(p.truncated()),
        Err(e) => Err(e),
    }
}

} // verus!
