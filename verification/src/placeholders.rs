//! The variables that stand for subexpressions in a linear combination, and the
//! valuations that give them the values of these subexpressions.

use vstd::prelude::*;
use vstd::string::StringExecFns;
use crate::numbers::UnsignedInt;
use crate::names::{compare_names, Order};
use crate::text::{decimal, push_decimal};
use crate::numerals::lemma_decimal_injective;
use crate::uniform_expr::{UExpr, UTerm};
use crate::expr::{Node, tree};

verus! {

/// A subexpression that a variable stands for in a linear combination: the name of
/// the variable, and the index of the node.
pub struct Placeholder {
    pub name: String,
    pub node: usize,
}

/// The name of the placeholder of the number `k`.
pub open spec fn sub_name(k: int) -> Seq<char> {
    "_sub_"@ + decimal(k)
}

/// Whether the name begins with an underscore, as the names of the placeholders do.
pub open spec fn is_reserved(name: Seq<char>) -> bool {
    name.len() > 0 && name[0] == '_'
}

/// Whether the nodes of the placeholders stand before the node `limit`.
pub open spec fn placeholders_below(subs: Seq<Placeholder>, limit: int) -> bool {
    forall|k: int| 0 <= k < subs.len() ==> (#[trigger] subs[k]).node < limit
}

/// Whether each placeholder has the name of its number.
pub open spec fn well_named(subs: Seq<Placeholder>) -> bool {
    forall|k: int| 0 <= k < subs.len() ==> (#[trigger] subs[k]).name@ == sub_name(k)
}

/// Whether the placeholders `full` begin with the placeholders `subs`.
pub open spec fn begins_with(full: Seq<Placeholder>, subs: Seq<Placeholder>) -> bool {
    &&& subs.len() <= full.len()
    &&& forall|k: int| 0 <= k < subs.len() ==> #[trigger] full[k] == subs[k]
}

/// The number of the first placeholder from the number `k` on that has the name;
/// `-1` where there is none.
pub open spec fn lookup(subs: Seq<Placeholder>, name: Seq<char>, k: int) -> int
    decreases subs.len() - k,
{
    if k < 0 || k >= subs.len() {
        -1
    } else if subs[k].name@ == name {
        k
    } else {
        lookup(subs, name, k + 1)
    }
}

/// The names of two placeholders with different numbers differ, and each begins
/// with an underscore.
pub proof fn lemma_sub_names(a: int, b: int)
    requires
        0 <= a,
        0 <= b,
    ensures
        sub_name(a) == sub_name(b) ==> a == b,
        is_reserved(sub_name(a)),
{
    reveal_strlit("_sub_");
    if sub_name(a) == sub_name(b) {
        assert(sub_name(a).subrange(5, sub_name(a).len() as int) =~= decimal(a));
        assert(sub_name(b).subrange(5, sub_name(b).len() as int) =~= decimal(b));
        lemma_decimal_injective(a, b);
    }
    assert(sub_name(a)[0] == "_sub_"@[0]);
}

/// Among placeholders with the names of their numbers, the first with the name of
/// the number `k` is placeholder `k`.
pub proof fn lemma_lookup_own(subs: Seq<Placeholder>, k: int, from: int)
    requires
        well_named(subs),
        0 <= from <= k < subs.len(),
    ensures
        lookup(subs, sub_name(k), from) == k,
    decreases k - from,
{
    if from < k {
        lemma_sub_names(from, k);
        lemma_lookup_own(subs, k, from + 1);
    }
}

/// Among placeholders with the names of their numbers, none has a name that begins
/// with no underscore.
pub proof fn lemma_lookup_other(subs: Seq<Placeholder>, name: Seq<char>, from: int)
    requires
        well_named(subs),
        !is_reserved(name),
        0 <= from,
    ensures
        lookup(subs, name, from) == -1,
    decreases subs.len() - from,
{
    if from < subs.len() {
        lemma_sub_names(from, from);
        lemma_lookup_other(subs, name, from + 1);
    }
}

/// What `lookup` gives is the number of a placeholder with the name, or `-1`.
pub proof fn lemma_lookup_range(subs: Seq<Placeholder>, name: Seq<char>, from: int)
    requires
        0 <= from,
    ensures
        lookup(subs, name, from) == -1 || (from <= lookup(subs, name, from) < subs.len()
            && subs[lookup(subs, name, from)].name@ == name),
    decreases subs.len() - from,
{
    if from < subs.len() && subs[from].name@ != name {
        lemma_lookup_range(subs, name, from + 1);
    }
}

/// A new placeholder for the node `i`, named `_sub_` and its number.
pub fn new_placeholder(subs: &mut Vec<Placeholder>, i: usize) -> (u: UExpr)
    ensures
        final(subs)@ == old(subs)@.push(final(subs)@.last()),
        final(subs)@.len() == old(subs)@.len() + 1,
        final(subs)@.last().node == i,
        final(subs)@.last().name@ == sub_name(old(subs)@.len() as int),
        u@ == UTerm::Var(sub_name(old(subs)@.len() as int)),
{
    let mut name = String::from_str("_sub_");
    push_decimal(&mut name, subs.len() as u128);
    let u = UExpr::Var(name.clone());
    subs.push(Placeholder { name, node: i });
    u
}

/// The number of the first placeholder with the name, if there is one.
pub fn find_placeholder(subs: &Vec<Placeholder>, name: &str) -> (r: Option<usize>)
    ensures
        match r {
            Some(k) => k < subs@.len() && lookup(subs@, name@, 0) == k,
            None => lookup(subs@, name@, 0) == -1,
        },
{
    let mut k: usize = 0;
    while k < subs.len()
        invariant
            k <= subs@.len(),
            lookup(subs@, name@, 0) == lookup(subs@, name@, k as int),
        decreases subs@.len() - k,
    {
        if compare_names(subs[k].name.as_str(), name) == Order::Same {
            return Some(k);
        }
        k += 1;
    }
    None
}

/// The valuation `v` with the value `values[k]` for the name of placeholder `k`.
pub open spec fn with_values(
    subs: Seq<Placeholder>,
    values: Seq<int>,
    v: spec_fn(Seq<char>) -> int,
) -> spec_fn(Seq<char>) -> int {
    |name: Seq<char>|
        {
            let k = lookup(subs, name, 0);
            if k >= 0 {
                values[k]
            } else {
                v(name)
            }
        }
}

/// The values of the subexpressions that the placeholders stand for, under the
/// valuation `v` in the ring of `m` elements.
pub open spec fn sub_values<T: UnsignedInt>(
    nodes: Seq<Node<T>>,
    subs: Seq<Placeholder>,
    v: spec_fn(Seq<char>) -> int,
    m: int,
) -> Seq<int> {
    Seq::new(subs.len(), |k: int| tree(nodes, subs[k].node as int).value(v, m))
}

/// The values of the nodes `mapped`, under the valuation `v` in the ring of `m`
/// elements.
pub open spec fn mapped_values<T: UnsignedInt>(
    out: Seq<Node<T>>,
    mapped: Seq<usize>,
    v: spec_fn(Seq<char>) -> int,
    m: int,
) -> Seq<int> {
    Seq::new(mapped.len(), |k: int| tree(out, mapped[k] as int).value(v, m))
}

/// The valuation `v` with, for the name of each placeholder, the value of the
/// subexpression that it stands for.
pub open spec fn extended<T: UnsignedInt>(
    nodes: Seq<Node<T>>,
    subs: Seq<Placeholder>,
    v: spec_fn(Seq<char>) -> int,
    m: int,
) -> spec_fn(Seq<char>) -> int {
    with_values(subs, sub_values(nodes, subs, v, m), v)
}

/// Whether no variable among the nodes has a name that begins with an underscore.
pub open spec fn is_clean<T>(nodes: Seq<Node<T>>) -> bool {
    forall|k: int|
        0 <= k < nodes.len() ==> (#[trigger] nodes[k] matches Node::Var(n) ==> !is_reserved(n@))
}

/// Nodes without such a name stay so with one more node that is no variable with
/// such a name.
pub proof fn lemma_clean_push<T>(nodes: Seq<Node<T>>, node: Node<T>)
    requires
        is_clean(nodes),
        node matches Node::Var(n) ==> !is_reserved(n@),
    ensures
        is_clean(nodes.push(node)),
{
    assert forall|k: int| 0 <= k < nodes.push(node).len() implies (#[trigger] nodes.push(node)[k] matches Node::Var(
        n,
    ) ==> !is_reserved(n@)) by {
        if k < nodes.len() {
            assert(nodes.push(node)[k] == nodes[k]);
        }
    }
}

} // verus!
