//! Numbers in decimal notation, as the grammars read them and the printers write
//! them.

use vstd::prelude::*;
use crate::text::{decimal, digit_char, is_digit, is_space, stripped};
use crate::parser::{digits_end, digits_value};

verus! {

/// The decimal notation of a natural number has a digit.
pub proof fn lemma_decimal_len(n: int)
    ensures
        decimal(n).len() >= 1,
    decreases n,
{
    if n >= 10 {
        lemma_decimal_len(n / 10);
    }
}

/// The character of a digit has the code of the digit after that of zero.
pub proof fn lemma_digit_code(d: int)
    requires
        0 <= d <= 9,
    ensures
        digit_char(d) as u32 == 48 + d,
{
}

/// Two natural numbers with the same decimal notation are the same.
pub proof fn lemma_decimal_injective(a: int, b: int)
    requires
        0 <= a,
        0 <= b,
        decimal(a) == decimal(b),
    ensures
        a == b,
    decreases a,
{
    if a < 10 && b < 10 {
        assert(decimal(a)[0] == digit_char(a));
        assert(decimal(b)[0] == digit_char(b));
        lemma_digit_code(a);
        lemma_digit_code(b);
    } else if a < 10 {
        lemma_decimal_len(b / 10);
        assert(decimal(a).len() == 1);
        assert(decimal(b).len() == decimal(b / 10).len() + 1);
    } else if b < 10 {
        lemma_decimal_len(a / 10);
        assert(decimal(b).len() == 1);
        assert(decimal(a).len() == decimal(a / 10).len() + 1);
    } else {
        let x = decimal(a / 10).push(digit_char(a % 10));
        let y = decimal(b / 10).push(digit_char(b % 10));
        assert(decimal(a) == x);
        assert(decimal(b) == y);
        assert(x.last() == digit_char(a % 10));
        assert(y.last() == digit_char(b % 10));
        assert(x.drop_last() =~= decimal(a / 10));
        assert(y.drop_last() =~= decimal(b / 10));
        lemma_digit_code(a % 10);
        lemma_digit_code(b % 10);
        lemma_decimal_injective(a / 10, b / 10);
    }
}

/// A run of digits ends where the first character stands that is no digit.
pub proof fn lemma_digits_stop(s: Seq<char>, from: int, to: int)
    requires
        0 <= from <= to <= s.len(),
        forall|k: int| from <= k < to ==> is_digit(#[trigger] s[k]),
        to < s.len() ==> !is_digit(s[to]),
    ensures
        digits_end(s, from) == to,
    decreases to - from,
{
    if from < to {
        assert(is_digit(s[from]));
        lemma_digits_stop(s, from + 1, to);
    }
}

/// The decimal notation of a natural number holds digits only.
pub proof fn lemma_decimal_digits(n: int)
    requires
        0 <= n,
    ensures
        forall|i: int| 0 <= i < decimal(n).len() ==> is_digit(#[trigger] decimal(n)[i]),
    decreases n,
{
    if n < 10 {
        lemma_digit_code(n);
    } else {
        lemma_decimal_digits(n / 10);
        lemma_digit_code(n % 10);
        let d = decimal(n / 10);
        assert forall|i: int| 0 <= i < decimal(n).len() implies is_digit(
            #[trigger] decimal(n)[i],
        ) by {
            if i < d.len() {
                assert(decimal(n)[i] == d[i]);
            }
        }
    }
}

/// The number that digits write depends on these digits only.
pub proof fn lemma_digits_value_same(s: Seq<char>, t: Seq<char>, from: int, to: int, at: int)
    requires
        0 <= from <= to <= s.len(),
        0 <= at,
        at + (to - from) <= t.len(),
        forall|k: int| from <= k < to ==> #[trigger] s[k] == t[k - from + at],
    ensures
        digits_value(s, from, to) == digits_value(t, at, at + (to - from)),
    decreases to - from,
{
    if from < to {
        lemma_digits_value_same(s, t, from, to - 1, at);
        assert(s[to - 1] == t[to - 1 - from + at]);
    }
}

/// The digits of the decimal notation of a natural number write that number.
pub proof fn lemma_decimal_value(n: int)
    requires
        0 <= n,
    ensures
        digits_value(decimal(n), 0, decimal(n).len() as int) == n,
    decreases n,
{
    let s = decimal(n);
    if n < 10 {
        lemma_digit_code(n);
        assert(digits_value(s, 0, 0) == 0);
        assert(digits_value(s, 0, 1) == digits_value(s, 0, 0) * 10 + (s[0] as u32 - 48));
    } else {
        let d = decimal(n / 10);
        lemma_decimal_value(n / 10);
        lemma_digit_code(n % 10);
        assert(s.len() == d.len() + 1);
        assert forall|k: int| 0 <= k < d.len() implies #[trigger] s[k] == d[k - 0 + 0] by {}
        lemma_digits_value_same(s, d, 0, d.len() as int, 0);
        assert(s[s.len() - 1] == digit_char(n % 10));
    }
}

/// Where the decimal notation of a natural number stands in a text at index `at`,
/// and no digit after it, the digits from `at` on end after it, and write the
/// number.
pub proof fn lemma_number_at(s: Seq<char>, at: int, n: int)
    requires
        0 <= n,
        0 <= at,
        at + decimal(n).len() <= s.len(),
        forall|k: int| at <= k < at + decimal(n).len() ==> #[trigger] s[k] == decimal(n)[k - at],
        at + decimal(n).len() < s.len() ==> !is_digit(s[at + decimal(n).len()]),
    ensures
        digits_end(s, at) == at + decimal(n).len(),
        digits_value(s, at, at + decimal(n).len()) == n,
        is_digit(s[at]),
{
    let d = decimal(n);
    lemma_decimal_len(n);
    lemma_decimal_digits(n);
    lemma_decimal_value(n);
    assert forall|k: int| at <= k < at + d.len() implies is_digit(#[trigger] s[k]) by {
        assert(s[k] == d[k - at]);
    }
    lemma_digits_stop(s, at, at + d.len());
    assert forall|k: int| at <= k < at + d.len() implies #[trigger] s[k] == d[k - at + 0] by {
        assert(s[k] == d[k - at]);
    }
    lemma_digits_value_same(s, d, at, at + d.len(), 0);
    assert(s[at] == d[0]);
}

/// The text of two texts without white space is the texts without white space, one
/// after the other.
pub proof fn lemma_stripped_concat(a: Seq<char>, b: Seq<char>)
    ensures
        stripped(a + b) == stripped(a) + stripped(b),
    decreases b.len(),
{
    if b.len() == 0 {
        assert(a + b =~= a);
        assert(stripped(a) + stripped(b) =~= stripped(a));
    } else {
        let r = b.drop_last();
        lemma_stripped_concat(a, r);
        assert((a + b).drop_last() =~= a + r);
        assert((a + b).last() == b.last());
        if !is_space(b.last()) {
            assert(stripped(a) + stripped(r).push(b.last()) =~= (stripped(a) + stripped(r)).push(
                b.last(),
            ));
        }
    }
}

/// A text without white space is itself without white space.
pub proof fn lemma_stripped_same(a: Seq<char>)
    requires
        forall|i: int| 0 <= i < a.len() ==> !is_space(#[trigger] a[i]),
    ensures
        stripped(a) == a,
    decreases a.len(),
{
    if a.len() > 0 {
        let r = a.drop_last();
        assert forall|i: int| 0 <= i < r.len() implies !is_space(#[trigger] r[i]) by {
            assert(r[i] == a[i]);
        }
        lemma_stripped_same(r);
        assert(r.push(a.last()) =~= a);
    }
}

/// The decimal notation of a natural number has no white space.
pub proof fn lemma_stripped_decimal(n: int)
    requires
        0 <= n,
    ensures
        stripped(decimal(n)) == decimal(n),
{
    lemma_decimal_digits(n);
    assert forall|i: int| 0 <= i < decimal(n).len() implies !is_space(#[trigger] decimal(n)[i]) by {
        assert(is_digit(decimal(n)[i]));
    }
    lemma_stripped_same(decimal(n));
}

} // verus!
