//! What is written of a polynomial is read as that polynomial.

use vstd::prelude::*;
use crate::text::{decimal, is_digit, is_space, stripped};
use crate::parser::{is_code, parse_int};
use crate::numbers::UnsignedInt;
use crate::polynomial::{Polynomial, trimmed, coeff};
use crate::printer::{plain_power, plain_powers, plain_polynomial, all_zero_below};
use crate::poly_parser::{
    PolyError, is_unknown, has_unknown, after_sign, after_factor, term_coefficient, term_exponent,
    with_coefficient, parse_terms, parse_list, parse_polynomial, skip_space,
};
use crate::numerals::{
    lemma_number_at, lemma_stripped_concat, lemma_stripped_same, lemma_stripped_decimal,
    lemma_decimal_digits,
};
use crate::numerals::lemma_decimal_len;
use crate::modular::lemma_mod_small;

verus! {

/// The terms of a polynomial below `X^k` whose coefficient is not zero, that of the
/// highest power first, with `+` between them, and before them unless `first`.
pub open spec fn compact_powers(c: Seq<int>, k: int, first: bool) -> Seq<char>
    decreases k,
{
    if k <= 0 {
        Seq::empty()
    } else if c[k - 1] == 0 {
        compact_powers(c, k - 1, first)
    } else {
        (if first {
            Seq::empty()
        } else {
            "+"@
        }) + plain_power(k - 1, c[k - 1]) + compact_powers(c, k - 1, false)
    }
}

/// Whether the coefficients are natural numbers below `m`.
pub open spec fn in_range(c: Seq<int>, m: int) -> bool {
    forall|i: int| 0 <= i < c.len() ==> 0 <= #[trigger] c[i] < m
}

/// A term of a polynomial has no white space.
pub proof fn lemma_stripped_power(e: int, v: int)
    requires
        0 <= e,
        0 <= v,
    ensures
        stripped(plain_power(e, v)) == plain_power(e, v),
{
    reveal_strlit("x^");
    lemma_stripped_decimal(v);
    if e != 0 {
        lemma_stripped_decimal(e);
        let x = "x^"@;
        assert forall|i: int| 0 <= i < x.len() implies !is_space(#[trigger] x[i]) by {}
        lemma_stripped_same(x);
        lemma_stripped_concat(decimal(v), x);
        lemma_stripped_concat(decimal(v) + x, decimal(e));
    }
}

/// The sign between two terms, without its white space.
pub proof fn lemma_stripped_plus()
    ensures
        stripped(" + "@) == "+"@,
{
    reveal_strlit(" + ");
    reveal_strlit("+");
    let s = " + "@;
    let a = s.drop_last();
    let b = a.drop_last();
    assert(b.drop_last() =~= Seq::<char>::empty());
    assert(stripped(b.drop_last()) =~= Seq::<char>::empty());
    assert(is_space(b.last()));
    assert(stripped(b) =~= Seq::<char>::empty());
    assert(!is_space(a.last()));
    assert(stripped(a) =~= seq!['+']);
    assert(is_space(s.last()));
    assert(stripped(s) =~= "+"@);
}

/// The terms of a polynomial without their white space.
pub proof fn lemma_stripped_powers(c: Seq<int>, k: int, first: bool)
    requires
        0 <= k <= c.len(),
        forall|i: int| 0 <= i < c.len() ==> 0 <= #[trigger] c[i],
    ensures
        stripped(plain_powers(c, k, first)) == compact_powers(c, k, first),
    decreases k,
{
    if k <= 0 {
    } else if c[k - 1] == 0 {
        lemma_stripped_powers(c, k - 1, first);
    } else {
        lemma_stripped_powers(c, k - 1, false);
        lemma_stripped_power(k - 1, c[k - 1]);
        lemma_stripped_plus();
        let sep = if first {
            Seq::<char>::empty()
        } else {
            " + "@
        };
        let t = plain_power(k - 1, c[k - 1]);
        let rest = plain_powers(c, k - 1, false);
        lemma_stripped_concat(sep, t);
        lemma_stripped_concat(sep + t, rest);
        assert(stripped(Seq::<char>::empty()) =~= Seq::<char>::empty());
    }
}

/// The terms after the first begin with a sign, where there are any.
pub proof fn lemma_powers_begin(c: Seq<int>, k: int)
    requires
        0 <= k <= c.len(),
    ensures
        compact_powers(c, k, false).len() == 0 || is_code(compact_powers(c, k, false)[0], 43),
    decreases k,
{
    reveal_strlit("+");
    if k > 0 {
        if c[k - 1] == 0 {
            lemma_powers_begin(c, k - 1);
        } else {
            assert(compact_powers(c, k, false)[0] == "+"@[0]);
        }
    }
}

/// The terms of a polynomial have the unknown unless all the coefficients from that
/// of `X` on are zero.
pub proof fn lemma_powers_unknown(c: Seq<int>, k: int, first: bool) -> (at: int)
    requires
        0 <= k <= c.len(),
        exists|i: int| 1 <= i < k && c[i] != 0,
    ensures
        0 <= at < plain_powers(c, k, first).len(),
        is_unknown(plain_powers(c, k, first)[at]),
    decreases k,
{
    reveal_strlit("x^");
    let i = choose|i: int| 1 <= i < k && c[i] != 0;
    if c[k - 1] == 0 {
        assert(i < k - 1);
        lemma_powers_unknown(c, k - 1, first)
    } else {
        let sep = if first {
            Seq::<char>::empty()
        } else {
            " + "@
        };
        let at = sep.len() + decimal(c[k - 1]).len();
        assert(plain_power(k - 1, c[k - 1])[decimal(c[k - 1]).len() as int] == "x^"@[0]);
        at as int
    }
}

/// The coefficients without the zeros at their end are the same for coefficients
/// that are the same at each power.
pub proof fn lemma_trimmed_same(a: Seq<int>, b: Seq<int>)
    requires
        forall|i: int| 0 <= i ==> coeff(a, i) == coeff(b, i),
    ensures
        trimmed(a) == trimmed(b),
    decreases a.len() + b.len(),
{
    if a.len() > 0 && a.last() == 0 {
        let r = a.drop_last();
        assert forall|i: int| 0 <= i implies coeff(r, i) == coeff(b, i) by {
            assert(coeff(a, i) == coeff(b, i));
        }
        lemma_trimmed_same(r, b);
    } else if b.len() > 0 && b.last() == 0 {
        let r = b.drop_last();
        assert forall|i: int| 0 <= i implies coeff(a, i) == coeff(r, i) by {
            assert(coeff(a, i) == coeff(b, i));
        }
        lemma_trimmed_same(a, r);
    } else {
        if a.len() > b.len() {
            assert(coeff(a, a.len() - 1) == coeff(b, a.len() - 1));
        }
        if b.len() > a.len() {
            assert(coeff(a, b.len() - 1) == coeff(b, b.len() - 1));
        }
        assert forall|i: int| 0 <= i < a.len() implies a[i] == b[i] by {
            assert(coeff(a, i) == coeff(b, i));
        }
        assert(a =~= b);
    }
}

/// The coefficient of a power after one coefficient is set.
pub proof fn lemma_with_coefficient(c: Seq<int>, e: int, v: int, i: int)
    requires
        0 <= e,
        0 <= i,
    ensures
        coeff(with_coefficient(c, e, v), i) == (if i == e {
            v
        } else {
            coeff(c, i)
        }),
{
}

/// A term as it stands among the terms: after a sign unless it is the first.
pub open spec fn term_text(first: bool, j: int, v: int) -> Seq<char> {
    (if first {
        Seq::<char>::empty()
    } else {
        "+"@
    }) + plain_power(j, v)
}

/// The coefficient of a term is read as it is written.
pub proof fn lemma_read_coefficient(
    pre: Seq<char>,
    first: bool,
    j: int,
    v: int,
    rest: Seq<char>,
    m: int,
) -> (at: int)
    requires
        m > 1,
        0 <= v < m,
        0 <= j,
        j == 0 ==> rest.len() == 0,
    ensures
        at == pre.len() + term_text(first, j, v).len() - (if j == 0 {
            0
        } else {
            2 + decimal(j).len()
        }),
        after_factor(
            pre + term_text(first, j, v) + rest,
            after_sign(pre + term_text(first, j, v) + rest, pre.len() as int),
        ) == at,
        term_coefficient(pre + term_text(first, j, v) + rest, pre.len() as int, m) == v,
{
    reveal_strlit("+");
    reveal_strlit("x^");
    let s = pre + term_text(first, j, v) + rest;
    let pos = pre.len() as int;
    let sep = if first {
        Seq::<char>::empty()
    } else {
        "+"@
    };
    let d = decimal(v);
    lemma_decimal_len(v);
    lemma_decimal_digits(v);
    let after_plus = pos + sep.len();
    let after_number = after_plus + d.len();
    assert(s[after_plus] == d[0]);
    assert(is_digit(d[0]));
    if first {
        assert(!is_code(s[pos], 43) && !is_code(s[pos], 45));
    } else {
        assert(s[pos] == "+"@[0]);
    }
    assert(after_sign(s, pos) == after_plus);
    assert forall|q: int| after_plus <= q < after_plus + d.len() implies #[trigger] s[q] == d[q
        - after_plus] by {}
    if j == 0 {
        assert(after_number == s.len());
    } else {
        assert(s[after_number] == "x^"@[0]);
    }
    lemma_number_at(s, after_plus, v);
    lemma_mod_small(v, m);
    after_number
}

/// The power of a term is read as it is written.
pub proof fn lemma_read_exponent(
    pre: Seq<char>,
    first: bool,
    j: int,
    v: int,
    rest: Seq<char>,
    at: int,
)
    requires
        0 <= v,
        0 <= j < usize::MAX,
        j == 0 ==> rest.len() == 0,
        rest.len() == 0 || is_code(rest[0], 43),
        at == pre.len() + term_text(first, j, v).len() - (if j == 0 {
            0
        } else {
            2 + decimal(j).len()
        }),
    ensures
        term_exponent(pre + term_text(first, j, v) + rest, at) == Some(
            (j, (pre.len() + term_text(first, j, v).len()) as int),
        ),
{
    reveal_strlit("+");
    reveal_strlit("x^");
    let s = pre + term_text(first, j, v) + rest;
    let t = term_text(first, j, v);
    let end = pre.len() + t.len();
    lemma_decimal_len(v);
    if j > 0 {
        let e = decimal(j);
        lemma_decimal_len(j);
        let from = at + 2;
        assert(s[at] == "x^"@[0]);
        assert(s[at + 1] == "x^"@[1]);
        assert forall|q: int| from <= q < from + e.len() implies #[trigger] s[q] == e[q - from] by {
            assert(s[q] == t[q - pre.len()]);
            assert(plain_power(j, v)[q - pre.len() - (t.len() - plain_power(j, v).len())] == e[q
                - from]);
        }
        if from + e.len() < s.len() {
            assert(s[from + e.len()] == rest[0]);
        }
        lemma_number_at(s, from, j);
    } else {
        assert(at == s.len());
    }
}

/// The terms of a polynomial are read as they are written: from the index after
/// `pre` on, the coefficients of the powers below `X^k` that are not zero take
/// their places among the coefficients `acc`.
pub proof fn lemma_read_powers(
    pre: Seq<char>,
    c: Seq<int>,
    k: int,
    first: bool,
    acc: Seq<int>,
    m: int,
)
    requires
        m > 1,
        0 <= k <= c.len(),
        c.len() < usize::MAX,
        in_range(c, m),
    ensures
        parse_terms(pre + compact_powers(c, k, first), pre.len() as int, acc, m) matches Ok(r)
            && (forall|i: int|
            0 <= i ==> coeff(r, i) == (if i < k && c[i] != 0 {
                c[i]
            } else {
                coeff(acc, i)
            })),
    decreases k,
{
    let s = pre + compact_powers(c, k, first);
    let pos = pre.len() as int;
    if k <= 0 {
        assert(s =~= pre);
    } else if c[k - 1] == 0 {
        lemma_read_powers(pre, c, k - 1, first, acc, m);
    } else {
        let j = k - 1;
        let v = c[j];
        let rest = compact_powers(c, j, false);
        let t = term_text(first, j, v);
        assert(compact_powers(c, k, first) =~= t + rest);
        assert(s =~= pre + t + rest);
        lemma_powers_begin(c, j);
        lemma_decimal_len(v);
        let end = pos + t.len();
        let at = lemma_read_coefficient(pre, first, j, v, rest, m);
        lemma_read_exponent(pre, first, j, v, rest, at);
        let next = with_coefficient(acc, j, v);
        lemma_read_powers(pre + t, c, j, false, next, m);
        assert((pre + t) + rest =~= s);
        assert(pos < end <= s.len());
        assert(parse_terms(s, pos, acc, m) == parse_terms(s, end, next, m));
        let r = parse_terms(s, end, next, m)->Ok_0;
        assert forall|i: int| 0 <= i implies coeff(r, i) == (if i < k && c[i] != 0 {
            c[i]
        } else {
            coeff(acc, i)
        }) by {
            lemma_with_coefficient(acc, j, v, i);
        }
    }
}

/// A polynomial is read as it is written: what `Polynomial::to_string` writes of the
/// coefficients `c`, `parse_poly` reads as `c` without the zeros at its end.
pub proof fn lemma_polynomial_round_trip(c: Seq<int>, m: int)
    requires
        m > 1,
        c.len() < usize::MAX,
        in_range(c, m),
    ensures
        parse_polynomial(plain_polynomial(c), m) == Ok::<Seq<int>, PolyError>(trimmed(c)),
{
    let n = c.len() as int;
    let text = plain_polynomial(c);
    if all_zero_below(c, n) {
        // The text is `0`.
        reveal_strlit("0");
        assert(!has_unknown(text));
        lemma_zero_list(text, m);
        assert forall|i: int| 0 <= i implies coeff(seq![0int], i) == coeff(c, i) by {}
        lemma_trimmed_same(seq![0int], c);
    } else if forall|i: int| 1 <= i < n ==> c[i] == 0 {
        // The text is the constant.
        lemma_constant_powers(c, n);
        let v = c[0];
        assert(text == decimal(v));
        lemma_decimal_digits(v);
        assert(!has_unknown(text)) by {
            if has_unknown(text) {
                let i = choose|i: int| 0 <= i < text.len() && is_unknown(#[trigger] text[i]);
                assert(is_digit(text[i]));
            }
        }
        lemma_number_list(text, v, m);
        assert forall|i: int| 0 <= i implies coeff(seq![v], i) == coeff(c, i) by {}
        lemma_trimmed_same(seq![v], c);
    } else {
        let at = lemma_powers_unknown(c, n, true);
        assert(has_unknown(text));
        lemma_stripped_powers(c, n, true);
        lemma_read_powers(Seq::empty(), c, n, true, Seq::empty(), m);
        assert(Seq::<char>::empty() + compact_powers(c, n, true) =~= compact_powers(c, n, true));
        let r = parse_terms(stripped(text), 0, Seq::empty(), m)->Ok_0;
        assert forall|i: int| 0 <= i implies coeff(r, i) == coeff(c, i) by {}
        lemma_trimmed_same(r, c);
    }
}

/// Where all coefficients from that of `X` on are zero, the terms are the constant.
pub proof fn lemma_constant_powers(c: Seq<int>, k: int)
    requires
        1 <= k <= c.len(),
        c[0] != 0,
        forall|i: int| 1 <= i < k ==> c[i] == 0,
    ensures
        plain_powers(c, k, true) == decimal(c[0]),
    decreases k,
{
    if k > 1 {
        lemma_constant_powers(c, k - 1);
    } else {
        assert(plain_powers(c, 0, false) =~= Seq::<char>::empty());
        assert(plain_powers(c, 1, true) =~= decimal(c[0]));
    }
}

/// The text of one natural number below `m` is read as the list of that number.
pub proof fn lemma_number_list(text: Seq<char>, v: int, m: int)
    requires
        m > 1,
        0 <= v < m,
        text == decimal(v),
    ensures
        parse_list(text, 0, Seq::empty(), m) == Ok::<Seq<int>, PolyError>(seq![v]),
{
    lemma_decimal_len(v);
    lemma_decimal_digits(v);
    lemma_number_at(text, 0, v);
    lemma_mod_small(v, m);
    assert(is_digit(text[0]));
    assert(skip_space(text, 0) == 0);
    assert(!is_code(text[0], 45));
    assert(parse_int(text, 0, m) == Some((v, text.len() as int)));
    assert(skip_space(text, text.len() as int) == text.len());
    assert(seq![v] + Seq::<int>::empty() =~= seq![v]);
    assert(parse_list(text, text.len() as int, seq![v], m) == Ok::<Seq<int>, PolyError>(seq![v]));
}

/// The text `0` is read as the list of zero.
pub proof fn lemma_zero_list(text: Seq<char>, m: int)
    requires
        m > 1,
        text == "0"@,
    ensures
        parse_list(text, 0, Seq::empty(), m) == Ok::<Seq<int>, PolyError>(seq![0int]),
{
    reveal_strlit("0");
    assert(decimal(0) =~= text);
    lemma_number_list(text, 0, m);
}

/// What `Polynomial::to_string` writes of a polynomial over the ring of `T`,
/// `parse_poly` reads as that polynomial without the zeros at its end.
pub proof fn lemma_round_trip_of<T: UnsignedInt>(p: &Polynomial<T>)
    requires
        p@.len() < usize::MAX,
    ensures
        parse_polynomial(plain_polynomial(p@), T::modulus()) == Ok::<Seq<int>, PolyError>(
            trimmed(p@),
        ),
{
    T::lemma_modulus();
    p.lemma_bounds();
    lemma_polynomial_round_trip(p@, T::modulus());
}

} // verus!
