//! Text: the characters of the inputs, and numbers in decimal notation.

use vstd::prelude::*;
use vstd::string::{StrSliceExecFns, StringExecFns, StringExecFnsIsAscii};
use crate::numbers::UnsignedInt;

verus! {

/// Whether the character is white space: a blank, or one of the five control
/// characters from the tabulator to the carriage return.
pub open spec fn is_space(c: char) -> bool {
    c as u32 == 32 || 9 <= c as u32 <= 13
}

/// Whether the character is a decimal digit.
pub open spec fn is_digit(c: char) -> bool {
    48 <= c as u32 <= 57
}

/// Whether the character is a letter of the alphabet of 26 letters.
pub open spec fn is_letter(c: char) -> bool {
    65 <= c as u32 <= 90 || 97 <= c as u32 <= 122
}

/// The characters without the white space among them.
pub open spec fn stripped(c: Seq<char>) -> Seq<char>
    decreases c.len(),
{
    if c.len() == 0 {
        c
    } else if is_space(c.last()) {
        stripped(c.drop_last())
    } else {
        stripped(c.drop_last()).push(c.last())
    }
}

/// The code of the character at index `i` of an ASCII text.
pub fn code_at(s: &str, i: usize) -> (b: u8)
    requires
        s.is_ascii(),
        i < s@.len(),
    ensures
        b as u32 == s@[i as int] as u32,
        b <= 127,
{
    let b = s.get_ascii(i);
    proof {
        assert(s@[i as int] <= '\u{7f}');
        assert(s@[i as int] as u32 <= 127);
    }
    b
}

/// The number of characters of an ASCII text.
pub fn ascii_len(s: &str) -> (n: usize)
    requires
        s.is_ascii(),
    ensures
        n == s@.len(),
{
    s.unicode_len()
}

/// The ASCII text without its white space.
pub fn strip_whitespace(s: &str) -> (t: String)
    requires
        s.is_ascii(),
    ensures
        t@ == stripped(s@),
        t.is_ascii(),
{
    let n: usize = ascii_len(s);
    let mut t = String::new();
    let mut i: usize = 0;
    proof {
        assert(s@.subrange(0, 0) =~= Seq::<char>::empty());
    }
    while i < n
        invariant
            i <= n,
            n == s@.len(),
            s.is_ascii(),
            t@ == stripped(s@.subrange(0, i as int)),
            t.is_ascii(),
        decreases n - i,
    {
        let b: u8 = code_at(s, i);
        proof {
            let c = s@.subrange(0, i + 1);
            assert(c.drop_last() =~= s@.subrange(0, i as int));
            assert(c.last() == s@[i as int]);
        }
        if !(b == 32 || (9 <= b && b <= 13)) {
            let piece = s.substring_ascii(i, i + 1);
            let ghost before = t@;
            t.append(piece);
            proof {
                assert(piece@ =~= seq![s@[i as int]]);
                assert(t@ =~= before.push(s@[i as int]));
                vstd::utf8::is_ascii_chars_concat(t@, before, piece@);
            }
        }
        i += 1;
    }
    proof {
        assert(s@.subrange(0, n as int) =~= s@);
    }
    t
}

/// The character of a decimal digit.
pub open spec fn digit_char(d: int) -> char {
    if d == 0 {
        '0'
    } else if d == 1 {
        '1'
    } else if d == 2 {
        '2'
    } else if d == 3 {
        '3'
    } else if d == 4 {
        '4'
    } else if d == 5 {
        '5'
    } else if d == 6 {
        '6'
    } else if d == 7 {
        '7'
    } else if d == 8 {
        '8'
    } else {
        '9'
    }
}

/// The decimal notation of a natural number.
pub open spec fn decimal(n: int) -> Seq<char>
    decreases n,
{
    if n < 10 {
        seq![digit_char(n)]
    } else {
        decimal(n / 10).push(digit_char(n % 10))
    }
}

/// The text of a decimal digit.
pub fn digit_text(d: u8) -> (t: &'static str)
    requires
        d < 10,
    ensures
        t@ == seq![digit_char(d as int)],
{
    proof {
        reveal_strlit("0");
        reveal_strlit("1");
        reveal_strlit("2");
        reveal_strlit("3");
        reveal_strlit("4");
        reveal_strlit("5");
        reveal_strlit("6");
        reveal_strlit("7");
        reveal_strlit("8");
        reveal_strlit("9");
    }
    let t = if d == 0 {
        "0"
    } else if d == 1 {
        "1"
    } else if d == 2 {
        "2"
    } else if d == 3 {
        "3"
    } else if d == 4 {
        "4"
    } else if d == 5 {
        "5"
    } else if d == 6 {
        "6"
    } else if d == 7 {
        "7"
    } else if d == 8 {
        "8"
    } else {
        "9"
    };
    assert(t@ =~= seq![digit_char(d as int)]);
    t
}

/// Writes the decimal notation of `v` to the end of the text.
pub fn push_decimal(s: &mut String, v: u128)
    ensures
        final(s)@ == old(s)@ + decimal(v as int),
{
    // The digits, the last first.
    let mut digits: Vec<u8> = Vec::new();
    let mut rest: u128 = v;
    digits.push((rest % 10) as u8);
    rest = rest / 10;
    proof {
        let d = digits@[0];
        assert(tail_digits(digits@, 0) =~= Seq::<char>::empty());
        assert(tail_digits(digits@, 1) =~= seq![digit_char(d as int)]);
        if rest != 0 {
            assert(decimal(v as int) =~= decimal(rest as int) + seq![digit_char(d as int)]);
        }
    }
    while rest > 0
        invariant
            digits@.len() >= 1,
            forall|k: int| 0 <= k < digits@.len() ==> #[trigger] digits@[k] < 10,
            decimal(v as int) == if rest == 0 {
                tail_digits(digits@, digits@.len() as int)
            } else {
                decimal(rest as int) + tail_digits(digits@, digits@.len() as int)
            },
        decreases rest,
    {
        let ghost before = digits@;
        let d: u8 = (rest % 10) as u8;
        digits.push(d);
        proof {
            lemma_tail_digits_push(before, d);
            let next = rest / 10;
            if next == 0 {
                assert(decimal(rest as int) =~= seq![digit_char(d as int)]);
            } else {
                assert(decimal(rest as int) =~= decimal(next as int).push(digit_char(d as int)));
            }
            assert(seq![digit_char(d as int)] + tail_digits(before, before.len() as int)
                =~= tail_digits(digits@, digits@.len() as int));
            assert(decimal(next as int).push(digit_char(d as int)) + tail_digits(
                before,
                before.len() as int,
            ) =~= decimal(next as int) + tail_digits(digits@, digits@.len() as int));
        }
        rest = rest / 10;
    }
    let mut i: usize = digits.len();
    let ghost start = s@;
    while i > 0
        invariant
            i <= digits@.len(),
            forall|k: int| 0 <= k < digits@.len() ==> #[trigger] digits@[k] < 10,
            s@ + tail_digits(digits@, i as int) == start + tail_digits(
                digits@,
                digits@.len() as int,
            ),
        decreases i,
    {
        let ghost before = s@;
        s.append(digit_text(digits[i - 1]));
        proof {
            assert(tail_digits(digits@, i as int) =~= seq![digit_char(digits@[i - 1] as int)]
                + tail_digits(digits@, i - 1));
            assert(s@ + tail_digits(digits@, i - 1) =~= before + tail_digits(digits@, i as int));
        }
        i -= 1;
    }
    proof {
        assert(tail_digits(digits@, 0) =~= Seq::<char>::empty());
        assert(s@ + Seq::<char>::empty() =~= s@);
    }
}

/// The characters of the first `n` of the digits `d`, the last of them first.
pub open spec fn tail_digits(d: Seq<u8>, n: int) -> Seq<char>
    decreases n,
{
    if n <= 0 {
        Seq::empty()
    } else {
        seq![digit_char(d[n - 1] as int)] + tail_digits(d, n - 1)
    }
}

/// A digit more at the end of the digits comes first in their characters.
pub proof fn lemma_tail_digits_push(d: Seq<u8>, x: u8)
    ensures
        tail_digits(d.push(x), d.len() as int + 1) == seq![digit_char(x as int)] + tail_digits(
            d,
            d.len() as int,
        ),
{
    lemma_tail_digits_same(d, d.push(x), d.len() as int);
}

/// The characters of the first `n` digits depend on those digits only.
pub proof fn lemma_tail_digits_same(d: Seq<u8>, e: Seq<u8>, n: int)
    requires
        n <= d.len(),
        n <= e.len(),
        forall|k: int| 0 <= k < n ==> d[k] == e[k],
    ensures
        tail_digits(d, n) == tail_digits(e, n),
    decreases n,
{
    if n > 0 {
        lemma_tail_digits_same(d, e, n - 1);
    }
}

} // verus!
