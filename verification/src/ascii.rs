//! The texts of polynomials and of linear combinations hold ASCII characters only.

use vstd::prelude::*;
use vstd::utf8::is_ascii_chars;
use crate::text::{decimal, digit_char};
use crate::uniform_expr::{UTerm, nonzero_terms};
use crate::printer::{
    Printer, joined, plain_term, plain_more, plain_terms, plain_power, plain_powers,
    plain_polynomial,
};

verus! {

/// Two texts of ASCII characters, one after the other, are one.
pub proof fn lemma_ascii_join(a: Seq<char>, b: Seq<char>)
    requires
        is_ascii_chars(a),
        is_ascii_chars(b),
    ensures
        is_ascii_chars(a + b),
{
}

/// The decimal notation of a number holds ASCII characters only.
pub proof fn lemma_decimal_ascii(n: int)
    ensures
        is_ascii_chars(decimal(n)),
    decreases n,
{
    if n >= 10 {
        lemma_decimal_ascii(n / 10);
        assert(is_ascii_chars(seq![digit_char(n % 10)]));
        assert(decimal(n) =~= decimal(n / 10) + seq![digit_char(n % 10)]);
        lemma_ascii_join(decimal(n / 10), seq![digit_char(n % 10)]);
    }
}

/// A term of a polynomial holds ASCII characters only.
pub proof fn lemma_plain_power_ascii(e: int, c: int)
    ensures
        is_ascii_chars(plain_power(e, c)),
{
    reveal_strlit("x^");
    lemma_decimal_ascii(c);
    lemma_decimal_ascii(e);
    lemma_ascii_join(decimal(c), "x^"@);
    lemma_ascii_join(decimal(c) + "x^"@, decimal(e));
}

/// The terms of a polynomial hold ASCII characters only.
pub proof fn lemma_plain_powers_ascii(c: Seq<int>, k: int, first: bool)
    ensures
        is_ascii_chars(plain_powers(c, k, first)),
    decreases k,
{
    if k > 0 {
        if c[k - 1] == 0 {
            lemma_plain_powers_ascii(c, k - 1, first);
        } else {
            reveal_strlit(" + ");
            let sign = if first {
                Seq::<char>::empty()
            } else {
                " + "@
            };
            lemma_plain_power_ascii(k - 1, c[k - 1]);
            lemma_plain_powers_ascii(c, k - 1, false);
            lemma_ascii_join(sign, plain_power(k - 1, c[k - 1]));
            lemma_ascii_join(sign + plain_power(k - 1, c[k - 1]), plain_powers(c, k - 1, false));
        }
    }
}

/// A polynomial in the notation that polynomials are read in holds ASCII characters
/// only.
pub proof fn lemma_plain_polynomial_ascii(c: Seq<int>)
    ensures
        is_ascii_chars(plain_polynomial(c)),
{
    reveal_strlit("0");
    lemma_plain_powers_ascii(c, c.len() as int, true);
}

/// Whether the names of the variables of a uniform expression hold ASCII characters
/// only.
pub open spec fn ascii_names(u: UTerm) -> bool
    decreases u,
{
    match u {
        UTerm::Ones => true,
        UTerm::Var(n) => is_ascii_chars(n),
        UTerm::Not(e) => ascii_names(*e),
        UTerm::And(l, r) => ascii_names(*l) && ascii_names(*r),
        UTerm::Or(l, r) => ascii_names(*l) && ascii_names(*r),
        UTerm::Xor(l, r) => ascii_names(*l) && ascii_names(*r),
    }
}

/// Whether the names of the variables of the terms hold ASCII characters only.
pub open spec fn ascii_terms(t: Seq<(int, UTerm)>) -> bool {
    forall|k: int| 0 <= k < t.len() ==> ascii_names(#[trigger] t[k].1)
}

/// Two texts of ASCII characters with a sign of ASCII characters between them hold
/// ASCII characters only.
pub proof fn lemma_joined_ascii(a: Seq<char>, sign: Seq<char>, b: Seq<char>)
    requires
        is_ascii_chars(a),
        is_ascii_chars(sign),
        is_ascii_chars(b),
    ensures
        is_ascii_chars(joined(a, sign, b)),
{
    reveal_strlit(" ");
    lemma_ascii_join(a, " "@);
    lemma_ascii_join(a + " "@, sign);
    lemma_ascii_join(a + " "@ + sign, " "@);
    lemma_ascii_join(a + " "@ + sign + " "@, b);
}

/// A uniform expression whose names hold ASCII characters only is printed with
/// ASCII characters only, in the notation that it is read in.
pub proof fn lemma_uexpr_ascii(u: UTerm)
    requires
        ascii_names(u),
    ensures
        is_ascii_chars(Printer::Default.uexpr(u)),
        is_ascii_chars(Printer::Default.operand(u)),
    decreases u,
{
    let p = Printer::Default;
    reveal_strlit("-1");
    reveal_strlit("~");
    reveal_strlit("&");
    reveal_strlit("|");
    reveal_strlit("^");
    reveal_strlit("(");
    reveal_strlit(")");
    match u {
        UTerm::Ones => {},
        UTerm::Var(n) => {},
        UTerm::Not(e) => {
            lemma_uexpr_ascii(*e);
            lemma_ascii_join("~"@, p.operand(*e));
        },
        UTerm::And(l, r) => {
            lemma_uexpr_ascii(*l);
            lemma_uexpr_ascii(*r);
            lemma_joined_ascii(p.operand(*l), p.and_sign(), p.operand(*r));
        },
        UTerm::Or(l, r) => {
            lemma_uexpr_ascii(*l);
            lemma_uexpr_ascii(*r);
            lemma_joined_ascii(p.operand(*l), p.or_sign(), p.operand(*r));
        },
        UTerm::Xor(l, r) => {
            lemma_uexpr_ascii(*l);
            lemma_uexpr_ascii(*r);
            lemma_joined_ascii(p.operand(*l), p.xor_sign(), p.operand(*r));
        },
    }
    lemma_ascii_join("("@, p.uexpr(u));
    lemma_ascii_join("("@ + p.uexpr(u), ")"@);
}

/// A term of a linear combination whose names hold ASCII characters only is printed
/// with ASCII characters only.
pub proof fn lemma_plain_term_ascii(i: int, u: UTerm)
    requires
        ascii_names(u),
    ensures
        is_ascii_chars(plain_term(i, u)),
{
    reveal_strlit("*");
    lemma_uexpr_ascii(u);
    lemma_decimal_ascii(i);
    lemma_ascii_join(decimal(i), "*"@);
    lemma_ascii_join(decimal(i) + "*"@, Printer::Default.operand(u));
}

/// The terms of a linear combination from index `k` on are printed with ASCII
/// characters only, where their names hold no others.
pub proof fn lemma_plain_more_ascii(t: Seq<(int, UTerm)>, k: int, m: int)
    requires
        ascii_terms(t),
    ensures
        is_ascii_chars(plain_more(t, k, m)),
    decreases t.len() - k,
{
    if 0 <= k < t.len() {
        reveal_strlit(" - ");
        reveal_strlit(" + ");
        let sign = if 2 * t[k].0 >= m {
            " - "@
        } else {
            " + "@
        };
        let term = plain_term(Printer::magnitude(t[k].0, m), t[k].1);
        assert(ascii_names(t[k].1));
        lemma_plain_term_ascii(Printer::magnitude(t[k].0, m), t[k].1);
        lemma_plain_more_ascii(t, k + 1, m);
        lemma_ascii_join(sign, term);
        lemma_ascii_join(sign + term, plain_more(t, k + 1, m));
    }
}

/// A linear combination is printed with ASCII characters only, where its names
/// hold no others.
pub proof fn lemma_plain_terms_ascii(t: Seq<(int, UTerm)>, m: int)
    requires
        ascii_terms(t),
    ensures
        is_ascii_chars(plain_terms(t, m)),
{
    reveal_strlit("0");
    reveal_strlit("-");
    if t.len() > 0 {
        let sign = if 2 * t[0].0 >= m {
            "-"@
        } else {
            Seq::<char>::empty()
        };
        let term = plain_term(Printer::magnitude(t[0].0, m), t[0].1);
        assert(ascii_names(t[0].1));
        lemma_plain_term_ascii(Printer::magnitude(t[0].0, m), t[0].1);
        lemma_plain_more_ascii(t, 1, m);
        lemma_ascii_join(sign, term);
        lemma_ascii_join(sign + term, plain_more(t, 1, m));
    }
}

/// The terms whose coefficient is not zero have names of ASCII characters only where
/// all terms have.
pub proof fn lemma_nonzero_ascii(t: Seq<(int, UTerm)>)
    requires
        ascii_terms(t),
    ensures
        ascii_terms(nonzero_terms(t)),
    decreases t.len(),
{
    if t.len() > 0 {
        assert(ascii_terms(t.drop_last())) by {
            assert forall|k: int| 0 <= k < t.drop_last().len() implies ascii_names(
                #[trigger] t.drop_last()[k].1,
            ) by {
                assert(ascii_names(t[k].1));
            }
        }
        lemma_nonzero_ascii(t.drop_last());
        assert(ascii_names(t[t.len() - 1].1));
    }
}

} // verus!
