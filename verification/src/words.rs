//! The lines of a text and the words of a line.

use vstd::prelude::*;
use vstd::string::{StrSliceExecFns, StringExecFns, StringExecFnsIsAscii};
use crate::text::code_at;

verus! {

/// The index of the first line feed from index `from` on, or the end of the text.
pub open spec fn line_end(s: Seq<char>, from: int) -> int
    decreases s.len() - from,
{
    if 0 <= from < s.len() && s[from] as u32 != 10 {
        line_end(s, from + 1)
    } else {
        from
    }
}

/// The lines of the text from index `from` on: what stands between the line feeds,
/// and after the last of them unless that is nothing.
pub open spec fn lines_from(s: Seq<char>, from: int) -> Seq<Seq<char>>
    decreases s.len() + 1 - from,
{
    if from < 0 || from >= s.len() {
        Seq::empty()
    } else {
        let end = line_end(s, from);
        if from <= end <= s.len() {
            seq![s.subrange(from, end)] + lines_from(s, end + 1)
        } else {
            Seq::empty()
        }
    }
}

/// Whether the character parts words: a blank, a tabulator, a line feed, a form feed
/// or a carriage return.
pub open spec fn is_gap(c: char) -> bool {
    c as u32 == 32 || c as u32 == 9 || c as u32 == 10 || c as u32 == 12 || c as u32 == 13
}

/// The index of the first character from index `from` on that parts words, or the
/// end of the text.
pub open spec fn word_end(s: Seq<char>, from: int) -> int
    decreases s.len() - from,
{
    if 0 <= from < s.len() && !is_gap(s[from]) {
        word_end(s, from + 1)
    } else {
        from
    }
}

/// The index of the first character from index `from` on that parts no words, or the
/// end of the text.
pub open spec fn word_start(s: Seq<char>, from: int) -> int
    decreases s.len() - from,
{
    if 0 <= from < s.len() && is_gap(s[from]) {
        word_start(s, from + 1)
    } else {
        from
    }
}

/// The words of the text from index `from` on: what stands between the characters
/// that part words.
pub open spec fn words_from(s: Seq<char>, from: int) -> Seq<Seq<char>>
    decreases s.len() - from,
{
    let start = word_start(s, from);
    if from < 0 || start < from || start >= s.len() {
        Seq::empty()
    } else {
        let end = word_end(s, start);
        if start < end <= s.len() {
            seq![s.subrange(start, end)] + words_from(s, end)
        } else {
            Seq::empty()
        }
    }
}

/// The texts of a list.
pub open spec fn texts(v: Seq<String>) -> Seq<Seq<char>> {
    Seq::new(v.len(), |i: int| v[i]@)
}

/// The code of the character at index `i` of a text; `ascii` says that the text is
/// known to be ASCII, and the code is then found at once.
pub fn code(s: &str, ascii: bool, i: usize) -> (c: u32)
    requires
        ascii ==> s.is_ascii(),
        i < s@.len(),
    ensures
        c == s@[i as int] as u32,
{
    if ascii {
        let b: u8 = code_at(s, i);
        b as u32
    } else {
        s.get_char(i) as u32
    }
}

/// The characters of a text from index `from` up to index `to`.
fn piece(s: &str, ascii: bool, from: usize, to: usize) -> (t: String)
    requires
        ascii ==> s.is_ascii(),
        from <= to <= s@.len(),
    ensures
        t@ == s@.subrange(from as int, to as int),
{
    if ascii {
        String::from_str(s.substring_ascii(from, to))
    } else {
        String::from_str(s.substring_char(from, to))
    }
}

/// Whether the text has a character that parts words at index `i`.
fn is_gap_at(s: &str, ascii: bool, i: usize) -> (b: bool)
    requires
        ascii ==> s.is_ascii(),
        i < s@.len(),
    ensures
        b == is_gap(s@[i as int]),
{
    let c: u32 = code(s, ascii, i);
    c == 32 || c == 9 || c == 10 || c == 12 || c == 13
}

/// The lines of a text.
pub fn split_lines(s: &str) -> (v: Vec<String>)
    ensures
        texts(v@) == lines_from(s@, 0),
{
    let ascii: bool = s.is_ascii();
    let n: usize = s.unicode_len();
    let mut v: Vec<String> = Vec::new();
    let mut from: usize = 0;
    proof {
        assert(texts(v@) =~= Seq::empty());
    }
    let mut done: bool = false;
    while !done && from < n
        invariant
            from <= n,
            n == s@.len(),
            ascii ==> s.is_ascii(),
            !done ==> texts(v@) + lines_from(s@, from as int) == lines_from(s@, 0),
            done ==> texts(v@) == lines_from(s@, 0),
        decreases n - from + (if done { 0int } else { 1int }),
    {
        let mut end: usize = from;
        while end < n && code(s, ascii, end) != 10
            invariant
                from <= end <= n,
                n == s@.len(),
                ascii ==> s.is_ascii(),
                line_end(s@, from as int) == line_end(s@, end as int),
            decreases n - end,
        {
            end += 1;
        }
        let ghost before = texts(v@);
        v.push(piece(s, ascii, from, end));
        proof {
            assert(texts(v@) =~= before.push(s@.subrange(from as int, end as int)));
            assert(texts(v@) + lines_from(s@, end + 1) =~= before + lines_from(s@, from as int));
        }
        if end >= n {
            proof {
                assert(lines_from(s@, end + 1) =~= Seq::empty());
                assert(texts(v@) + Seq::<Seq<char>>::empty() =~= texts(v@));
            }
            done = true;
        } else {
            from = end + 1;
        }
    }
    proof {
        if !done {
            assert(lines_from(s@, from as int) =~= Seq::empty());
            assert(texts(v@) + Seq::<Seq<char>>::empty() =~= texts(v@));
        }
    }
    v
}

/// The words of a text.
pub fn split_words(s: &str) -> (v: Vec<String>)
    ensures
        texts(v@) == words_from(s@, 0),
{
    let ascii: bool = s.is_ascii();
    let n: usize = s.unicode_len();
    let mut v: Vec<String> = Vec::new();
    let mut from: usize = 0;
    proof {
        assert(texts(v@) =~= Seq::empty());
    }
    loop
        invariant
            from <= n,
            n == s@.len(),
            ascii ==> s.is_ascii(),
            texts(v@) + words_from(s@, from as int) == words_from(s@, 0),
        ensures
            texts(v@) == words_from(s@, 0),
        decreases n - from,
    {
        let mut start: usize = from;
        while start < n && is_gap_at(s, ascii, start)
            invariant
                from <= start <= n,
                n == s@.len(),
                ascii ==> s.is_ascii(),
                word_start(s@, from as int) == word_start(s@, start as int),
            decreases n - start,
        {
            start += 1;
        }
        if start >= n {
            proof {
                assert(words_from(s@, from as int) =~= Seq::empty());
                assert(texts(v@) + Seq::<Seq<char>>::empty() =~= texts(v@));
            }
            break ;
        }
        let mut end: usize = start;
        while end < n && !is_gap_at(s, ascii, end)
            invariant
                start <= end <= n,
                n == s@.len(),
                ascii ==> s.is_ascii(),
                word_end(s@, start as int) == word_end(s@, end as int),
            decreases n - end,
        {
            end += 1;
        }
        let ghost before = texts(v@);
        v.push(piece(s, ascii, start, end));
        proof {
            assert(texts(v@) =~= before.push(s@.subrange(start as int, end as int)));
            assert(texts(v@) + words_from(s@, end as int) =~= before + words_from(
                s@,
                from as int,
            ));
        }
        from = end;
    }
    v
}

} // verus!
