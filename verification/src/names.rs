//! The names of variables, their order, and sorted lists of them.

use vstd::prelude::*;
use vstd::string::StringSliceAdditionalSpecFns;
use vstd::utf8::{encode_utf8, encode_utf8_decode_utf8};

verus! {

/// Whether the bytes `a` come before the bytes `b` in a dictionary.
pub open spec fn lex_lt(a: Seq<u8>, b: Seq<u8>) -> bool
    decreases a.len(),
{
    if b.len() == 0 {
        false
    } else if a.len() == 0 {
        true
    } else if a[0] != b[0] {
        a[0] < b[0]
    } else {
        lex_lt(a.drop_first(), b.drop_first())
    }
}

/// Whether the name `a` comes before the name `b`: the order of their encodings as
/// bytes.
pub open spec fn name_lt(a: Seq<char>, b: Seq<char>) -> bool {
    lex_lt(encode_utf8(a), encode_utf8(b))
}

/// No bytes come before themselves.
pub proof fn lemma_lex_irreflexive(a: Seq<u8>)
    ensures
        !lex_lt(a, a),
    decreases a.len(),
{
    if a.len() > 0 {
        lemma_lex_irreflexive(a.drop_first());
    }
}

/// The order of bytes is transitive.
pub proof fn lemma_lex_transitive(a: Seq<u8>, b: Seq<u8>, c: Seq<u8>)
    requires
        lex_lt(a, b),
        lex_lt(b, c),
    ensures
        lex_lt(a, c),
    decreases a.len(),
{
    if a.len() > 0 && a[0] == b[0] && b[0] == c[0] {
        lemma_lex_transitive(a.drop_first(), b.drop_first(), c.drop_first());
    }
}

/// Of two different sequences of bytes, one comes before the other.
pub proof fn lemma_lex_total(a: Seq<u8>, b: Seq<u8>)
    ensures
        a == b || lex_lt(a, b) || lex_lt(b, a),
    decreases a.len(),
{
    if a.len() > 0 && b.len() > 0 && a[0] == b[0] {
        lemma_lex_total(a.drop_first(), b.drop_first());
        if a.drop_first() == b.drop_first() {
            assert forall|i: int| 0 <= i < a.len() implies a[i] == b[i] by {
                if i > 0 {
                    assert(a[i] == a.drop_first()[i - 1]);
                    assert(b[i] == b.drop_first()[i - 1]);
                }
            }
            assert(a.len() == a.drop_first().len() + 1);
            assert(b.len() == b.drop_first().len() + 1);
            assert(a =~= b);
        }
    } else if a.len() == 0 && b.len() == 0 {
        assert(a =~= b);
    }
}

/// No name comes before itself, the order of names is transitive, and of two
/// different names one comes before the other.
pub proof fn lemma_name_order(a: Seq<char>, b: Seq<char>, c: Seq<char>)
    ensures
        !name_lt(a, a),
        name_lt(a, b) && name_lt(b, c) ==> name_lt(a, c),
        a == b || name_lt(a, b) || name_lt(b, a),
{
    lemma_lex_irreflexive(encode_utf8(a));
    if name_lt(a, b) && name_lt(b, c) {
        lemma_lex_transitive(encode_utf8(a), encode_utf8(b), encode_utf8(c));
    }
    lemma_lex_total(encode_utf8(a), encode_utf8(b));
    if encode_utf8(a) == encode_utf8(b) {
        encode_utf8_decode_utf8(a);
        encode_utf8_decode_utf8(b);
    }
}

/// How two names stand to each other.
#[derive(Clone, Copy, PartialEq, Eq, Structural, Debug)]
pub enum Order {
    Before,
    Same,
    After,
}

/// How the name `a` stands to the name `b`.
pub fn compare_names(a: &str, b: &str) -> (o: Order)
    ensures
        o == Order::Before <==> name_lt(a@, b@),
        o == Order::Same <==> a@ == b@,
        o == Order::After <==> name_lt(b@, a@),
{
    let x = a.as_bytes();
    let y = b.as_bytes();
    proof {
        lemma_name_order(a@, b@, a@);
        lemma_name_order(b@, a@, b@);
        if name_lt(a@, b@) && name_lt(b@, a@) {
            lemma_name_order(a@, b@, a@);
        }
        assert(x@.subrange(0, x@.len() as int) =~= x@);
        assert(y@.subrange(0, y@.len() as int) =~= y@);
        assert(x@.subrange(0, 0) =~= y@.subrange(0, 0));
    }
    let mut i: usize = 0;
    while i < x.len() && i < y.len()
        invariant
            i <= x@.len(),
            i <= y@.len(),
            x@ == encode_utf8(a@),
            y@ == encode_utf8(b@),
            a@ == b@ || name_lt(a@, b@) || name_lt(b@, a@),
            !(name_lt(a@, b@) && name_lt(b@, a@)),
            x@.subrange(0, i as int) == y@.subrange(0, i as int),
            lex_lt(x@, y@) == lex_lt(x@.subrange(i as int, x@.len() as int), y@.subrange(i as int, y@.len() as int)),
            lex_lt(y@, x@) == lex_lt(y@.subrange(i as int, y@.len() as int), x@.subrange(i as int, x@.len() as int)),
        decreases x@.len() - i,
    {
        let ghost xs = x@.subrange(i as int, x@.len() as int);
        let ghost ys = y@.subrange(i as int, y@.len() as int);
        assert(xs[0] == x@[i as int] && ys[0] == y@[i as int]);
        if x[i] < y[i] {
            return Order::Before;
        }
        if x[i] > y[i] {
            return Order::After;
        }
        proof {
            assert(xs.drop_first() =~= x@.subrange(i + 1, x@.len() as int));
            assert(ys.drop_first() =~= y@.subrange(i + 1, y@.len() as int));
            assert(x@.subrange(0, i + 1) =~= x@.subrange(0, i as int).push(x@[i as int]));
            assert(y@.subrange(0, i + 1) =~= y@.subrange(0, i as int).push(y@[i as int]));
        }
        i += 1;
    }
    if x.len() < y.len() {
        Order::Before
    } else if x.len() > y.len() {
        Order::After
    } else {
        proof {
            assert(x@ =~= x@.subrange(0, i as int));
            assert(y@ =~= y@.subrange(0, i as int));
            encode_utf8_decode_utf8(a@);
            encode_utf8_decode_utf8(b@);
        }
        Order::Same
    }
}

/// Whether each name of the list comes before the next.
pub open spec fn sorted_names(v: Seq<String>) -> bool {
    forall|i: int, j: int| 0 <= i < j < v.len() ==> name_lt(#[trigger] v[i]@, #[trigger] v[j]@)
}

/// Whether the list holds the name `n`.
pub open spec fn has_name(v: Seq<String>, n: Seq<char>) -> bool {
    exists|i: int| 0 <= i < v.len() && #[trigger] v[i]@ == n
}

/// The names of a list, as a set.
pub open spec fn name_set(v: Seq<String>) -> Set<Seq<char>> {
    Set::new(|n: Seq<char>| has_name(v, n))
}

/// Whether the list holds the name.
pub fn contains_name(v: &Vec<String>, name: &str) -> (b: bool)
    ensures
        b == has_name(v@, name@),
{
    let mut i: usize = 0;
    while i < v.len()
        invariant
            i <= v@.len(),
            forall|k: int| 0 <= k < i ==> #[trigger] v@[k]@ != name@,
        decreases v@.len() - i,
    {
        if compare_names(v[i].as_str(), name) == Order::Same {
            return true;
        }
        i += 1;
    }
    false
}

/// Puts the name into the sorted list, at its place, unless the list holds it.
pub fn insert_name(v: &mut Vec<String>, name: &str)
    requires
        sorted_names(old(v)@),
    ensures
        sorted_names(final(v)@),
        forall|n: Seq<char>| has_name(final(v)@, n) <==> has_name(old(v)@, n) || n == name@,
{
    let mut i: usize = 0;
    let mut found: bool = false;
    while !found && i < v.len()
        invariant
            i <= v@.len(),
            v@ == old(v)@,
            sorted_names(v@),
            forall|k: int| 0 <= k < i ==> name_lt(#[trigger] v@[k]@, name@),
            found ==> i < v@.len() && name_lt(name@, v@[i as int]@),
        decreases v@.len() - i + (if found { 0int } else { 1int }),
    {
        let o = compare_names(v[i].as_str(), name);
        if o == Order::Same {
            proof {
                assert forall|n: Seq<char>| has_name(v@, n) <==> has_name(old(v)@, n) || n
                    == name@ by {
                    if n == name@ {
                        assert(v@[i as int]@ == n);
                    }
                }
            }
            return ;
        }
        if o == Order::After {
            found = true;
        } else {
            i += 1;
        }
    }
    let s = name.to_owned();
    let ghost before = v@;
    assert(before == old(v)@);
    v.insert(i, s);
    proof {
        assert forall|a: int, b: int| 0 <= a < b < v@.len() implies name_lt(
            #[trigger] v@[a]@,
            #[trigger] v@[b]@,
        ) by {
            let a0 = if a < i { a } else { a - 1 };
            let b0 = if b < i { b } else { b - 1 };
            if a == i {
                // the new name comes before the names from i on
                assert(v@[a]@ == name@);
                assert(v@[b] == before[b0]);
                assert(name_lt(name@, before[i as int]@));
                if b0 > i {
                    assert(name_lt(before[i as int]@, before[b0]@));
                    lemma_name_order(name@, before[i as int]@, before[b0]@);
                }
            } else if b == i {
                assert(v@[b]@ == name@);
                assert(v@[a] == before[a0]);
                assert(name_lt(before[a0]@, name@));
            } else {
                assert(v@[a] == before[a0]);
                assert(v@[b] == before[b0]);
                assert(name_lt(before[a0]@, before[b0]@));
            }
        }
        assert forall|n: Seq<char>| has_name(v@, n) <==> has_name(old(v)@, n) || n == name@ by {
            if has_name(v@, n) {
                let k = choose|k: int| 0 <= k < v@.len() && #[trigger] v@[k]@ == n;
                if k < i {
                    assert(before[k]@ == n);
                } else if k > i {
                    assert(before[k - 1]@ == n);
                }
            }
            if has_name(before, n) {
                let k = choose|k: int| 0 <= k < before.len() && #[trigger] before[k]@ == n;
                if k < i {
                    assert(v@[k]@ == n);
                } else {
                    assert(v@[k + 1]@ == n);
                }
            }
            if n == name@ {
                assert(v@[i as int]@ == n);
            }
        }
    }
}

/// A sorted list holds as many names as it is long.
pub proof fn lemma_name_set_len(v: Seq<String>)
    requires
        sorted_names(v),
    ensures
        name_set(v).finite(),
        name_set(v).len() == v.len(),
    decreases v.len(),
{
    if v.len() == 0 {
        assert(name_set(v) =~= Set::<Seq<char>>::empty());
    } else {
        let w = v.drop_last();
        let n = v.last()@;
        assert forall|i: int, j: int| 0 <= i < j < w.len() implies name_lt(
            #[trigger] w[i]@,
            #[trigger] w[j]@,
        ) by {
            assert(w[i] == v[i] && w[j] == v[j]);
        }
        lemma_name_set_len(w);
        if has_name(w, n) {
            let k = choose|k: int| 0 <= k < w.len() && #[trigger] w[k]@ == n;
            assert(w[k] == v[k]);
            assert(name_lt(v[k]@, v[v.len() - 1]@));
            lemma_name_order(n, n, n);
        }
        assert forall|x: Seq<char>| name_set(v).contains(x) <==> name_set(w).insert(n).contains(
            x,
        ) by {
            if has_name(v, x) {
                let k = choose|k: int| 0 <= k < v.len() && #[trigger] v[k]@ == x;
                if k < w.len() {
                    assert(w[k]@ == x);
                }
            }
            if has_name(w, x) {
                let k = choose|k: int| 0 <= k < w.len() && #[trigger] w[k]@ == x;
                assert(v[k]@ == x);
            }
            if x == n {
                assert(v[v.len() - 1]@ == x);
            }
        }
        assert(name_set(v) =~= name_set(w).insert(n));
    }
}

} // verus!
