//! Rewriting a linear combination of uniform expressions as a linear combination of
//! given operations.

use vstd::prelude::*;
use vstd::arithmetic::power2::pow2;
use crate::numbers::{UnsignedInt, UniformNum};
use crate::names::{sorted_names, has_name, name_set};
use crate::uniform_expr::{
    UTerm, LUExpr, Valuation, lu_terms, lu_sum, lu_eval, lu_has_var, nonzero_terms, added,
    lemma_lu_sum_nonzero,
};
use crate::names::{lemma_name_order, lemma_name_set_len};
use crate::matrix::Matrix;
use crate::vector::Vector;
use crate::systems::{cong_seq, lemma_solved_by_cong};
use crate::congruence_solver::{solve_congruences, is_lattice_of};
use crate::lattice::AffineLattice;
use crate::random::random_elements;
use crate::modular::{
    sum, cong, lemma_cong_ops, lemma_cong_mod, lemma_mod_small, lemma_sum_cong, lemma_sum_eq,
};
use crate::pointwise::{agrees, lemma_pointwise_in};

verus! {

/// Whether `v` gives every variable all zeros or all ones, modulo `m`.
pub open spec fn is_boolean(v: spec_fn(Seq<char>) -> int, m: int) -> bool {
    forall|n: Seq<char>| #[trigger] v(n) == 0 || v(n) == m - 1
}

/// The products of the coefficients `x` with the values of the operations.
pub open spec fn combination_terms(
    x: Seq<int>,
    ops: Seq<Seq<(int, UTerm)>>,
    v: spec_fn(Seq<char>) -> int,
    m: int,
) -> spec_fn(int) -> int {
    |j: int| x[j] * lu_sum(ops[j], v, m)
}

/// The value, over the integers, of the combination of the operations with the
/// coefficients `x`.
pub open spec fn combination(
    x: Seq<int>,
    ops: Seq<Seq<(int, UTerm)>>,
    v: spec_fn(Seq<char>) -> int,
    m: int,
) -> int {
    sum(combination_terms(x, ops, v, m), ops.len() as int)
}

/// Whether the combination of the operations with the coefficients `x` has the value
/// of `e` under every valuation that is boolean.
pub open spec fn rewrites(x: Seq<int>, ops: Seq<Seq<(int, UTerm)>>, e: Seq<(int, UTerm)>, m: int) -> bool {
    forall|v: spec_fn(Seq<char>) -> int|
        is_boolean(v, m) ==> cong(#[trigger] combination(x, ops, v, m), lu_sum(e, v, m), m)
}

/// The mathematical forms of a list of linear combinations.
pub open spec fn views<T: UniformNum>(ops: Seq<LUExpr<T>>) -> Seq<Seq<(int, UTerm)>> {
    Seq::new(ops.len(), |j: int| ops[j]@)
}

/// Two valuations that agree on the variables of an expression give it the same
/// value.
pub proof fn lemma_eval_agrees(
    u: UTerm,
    v: spec_fn(Seq<char>) -> int,
    w: spec_fn(Seq<char>) -> int,
    m: int,
)
    requires
        forall|n: Seq<char>| u.vars().contains(n) ==> v(n) == w(n),
    ensures
        u.eval(v, m) == u.eval(w, m),
    decreases u,
{
    match u {
        UTerm::Ones => {},
        UTerm::Var(n) => {
            assert(u.vars().contains(n));
        },
        UTerm::Not(e) => {
            assert forall|n: Seq<char>| e.vars().contains(n) implies v(n) == w(n) by {
                assert(u.vars().contains(n));
            }
            lemma_eval_agrees(*e, v, w, m);
        },
        UTerm::And(l, r) => {
            assert forall|n: Seq<char>| l.vars().contains(n) implies v(n) == w(n) by {
                assert(u.vars().contains(n));
            }
            assert forall|n: Seq<char>| r.vars().contains(n) implies v(n) == w(n) by {
                assert(u.vars().contains(n));
            }
            lemma_eval_agrees(*l, v, w, m);
            lemma_eval_agrees(*r, v, w, m);
        },
        UTerm::Or(l, r) => {
            assert forall|n: Seq<char>| l.vars().contains(n) implies v(n) == w(n) by {
                assert(u.vars().contains(n));
            }
            assert forall|n: Seq<char>| r.vars().contains(n) implies v(n) == w(n) by {
                assert(u.vars().contains(n));
            }
            lemma_eval_agrees(*l, v, w, m);
            lemma_eval_agrees(*r, v, w, m);
        },
        UTerm::Xor(l, r) => {
            assert forall|n: Seq<char>| l.vars().contains(n) implies v(n) == w(n) by {
                assert(u.vars().contains(n));
            }
            assert forall|n: Seq<char>| r.vars().contains(n) implies v(n) == w(n) by {
                assert(u.vars().contains(n));
            }
            lemma_eval_agrees(*l, v, w, m);
            lemma_eval_agrees(*r, v, w, m);
        },
    }
}

/// Two valuations that agree on the variables of a linear combination give it the
/// same value.
pub proof fn lemma_lu_sum_agrees(
    t: Seq<(int, UTerm)>,
    v: spec_fn(Seq<char>) -> int,
    w: spec_fn(Seq<char>) -> int,
    m: int,
)
    requires
        forall|n: Seq<char>| lu_has_var(t, n) ==> v(n) == w(n),
    ensures
        lu_sum(t, v, m) == lu_sum(t, w, m),
{
    let f = lu_terms(t, v, m);
    let g = lu_terms(t, w, m);
    assert forall|i: int| 0 <= i < t.len() implies #[trigger] f(i) == g(i) by {
        assert forall|n: Seq<char>| t[i].1.vars().contains(n) implies v(n) == w(n) by {
            assert(lu_has_var(t, n));
        }
        lemma_eval_agrees(t[i].1, v, w, m);
    }
    lemma_sum_eq(f, g, t.len() as int);
}

/// Two valuations that agree on the variables of the operations give their
/// combinations the same value.
pub proof fn lemma_combination_agrees(
    x: Seq<int>,
    ops: Seq<Seq<(int, UTerm)>>,
    v: spec_fn(Seq<char>) -> int,
    w: spec_fn(Seq<char>) -> int,
    m: int,
)
    requires
        forall|j: int, n: Seq<char>|
            0 <= j < ops.len() && #[trigger] lu_has_var(ops[j], n) ==> v(n) == w(n),
    ensures
        combination(x, ops, v, m) == combination(x, ops, w, m),
{
    let f = combination_terms(x, ops, v, m);
    let g = combination_terms(x, ops, w, m);
    assert forall|j: int| 0 <= j < ops.len() implies #[trigger] f(j) == g(j) by {
        assert forall|n: Seq<char>| lu_has_var(ops[j], n) implies v(n) == w(n) by {}
        lemma_lu_sum_agrees(ops[j], v, w, m);
    }
    lemma_sum_eq(f, g, ops.len() as int);
}

/// Bit `k` of the number `i`.
pub open spec fn bit(i: int, k: nat) -> int
    decreases k,
{
    if k == 0 {
        i % 2
    } else {
        bit(i / 2, (k - 1) as nat)
    }
}

/// The valuation of row `i` of the truth table: the variable at index `k` of `names`
/// has all ones where bit `k` of `i` is set, and every other zero.
pub open spec fn table_row(names: Seq<String>, i: int, m: int) -> spec_fn(Seq<char>) -> int {
    |n: Seq<char>|
        if exists|k: int| 0 <= k < names.len() && #[trigger] names[k]@ == n && bit(i, k as nat) == 1 {
            m - 1
        } else {
            0
        }
}

/// The row of the truth table whose valuation gives the variables from index `from`
/// on, as the variables from index zero on, the values of `v`.
pub open spec fn row_index(v: spec_fn(Seq<char>) -> int, names: Seq<String>, from: int) -> int
    decreases names.len() - from,
{
    if from < 0 || from >= names.len() {
        0
    } else {
        (if v(names[from]@) != 0 {
            1int
        } else {
            0int
        }) + 2 * row_index(v, names, from + 1)
    }
}

/// The row of a valuation lies in the table, and its bits are set where the
/// valuation is not zero.
pub proof fn lemma_row_index(v: spec_fn(Seq<char>) -> int, names: Seq<String>, from: int)
    requires
        0 <= from <= names.len(),
    ensures
        0 <= row_index(v, names, from) < pow2((names.len() - from) as nat),
        forall|t: nat|
            from + t < names.len() ==> #[trigger] bit(row_index(v, names, from), t) == (if v(
                names[from + t]@,
            ) != 0 {
                1int
            } else {
                0int
            }),
    decreases names.len() - from,
{
    if from >= names.len() {
        vstd::arithmetic::power2::lemma2_to64();
    } else {
        lemma_row_index(v, names, from + 1);
        vstd::arithmetic::power2::lemma_pow2_unfold((names.len() - from) as nat);
        let r = row_index(v, names, from);
        let r1 = row_index(v, names, from + 1);
        assert(r / 2 == r1);
        assert forall|t: nat| from + t < names.len() implies #[trigger] bit(r, t) == (if v(
            names[from + t]@,
        ) != 0 {
            1int
        } else {
            0int
        }) by {
            if t > 0 {
                assert(bit(r, t) == bit(r1, (t - 1) as nat));
            }
        }
    }
}

/// The valuation of a row of the truth table is boolean.
pub proof fn lemma_table_row_boolean(names: Seq<String>, i: int, m: int)
    ensures
        is_boolean(table_row(names, i, m), m),
{
}

/// A boolean valuation agrees on the variables of `names` with the valuation of its
/// row of the truth table.
pub proof fn lemma_table_row_agrees(v: spec_fn(Seq<char>) -> int, names: Seq<String>, m: int)
    requires
        is_boolean(v, m),
        sorted_names(names),
        m > 1,
    ensures
        forall|n: Seq<char>|
            has_name(names, n) ==> #[trigger] v(n) == table_row(
                names,
                row_index(v, names, 0),
                m,
            )(n),
{
    let i = row_index(v, names, 0);
    lemma_row_index(v, names, 0);
    assert forall|n: Seq<char>| has_name(names, n) implies #[trigger] v(n) == table_row(
        names,
        i,
        m,
    )(n) by {
        let k = choose|k: int| 0 <= k < names.len() && #[trigger] names[k]@ == n;
        assert(bit(i, k as nat) == (if v(names[k]@) != 0 {
            1int
        } else {
            0int
        }));
        if v(n) != 0 {
            assert(names[k]@ == n && bit(i, k as nat) == 1);
        } else {
            if exists|k2: int|
                0 <= k2 < names.len() && #[trigger] names[k2]@ == n && bit(i, k2 as nat) == 1 {
                let k2 = choose|k2: int|
                    0 <= k2 < names.len() && #[trigger] names[k2]@ == n && bit(i, k2 as nat) == 1;
                lemma_sorted_distinct(names, k, k2);
            }
        }
    }
}

/// Two places of a sorted list with the same name are the same place.
pub proof fn lemma_sorted_distinct(names: Seq<String>, k: int, k2: int)
    requires
        sorted_names(names),
        0 <= k < names.len(),
        0 <= k2 < names.len(),
        names[k]@ == names[k2]@,
    ensures
        k == k2,
{
    lemma_name_order(names[k]@, names[k]@, names[k]@);
    if k < k2 {
        assert(crate::names::name_lt(names[k]@, names[k2]@));
    } else if k2 < k {
        assert(crate::names::name_lt(names[k2]@, names[k]@));
    }
}

/// Whether the expression and the operations have variables of `names` only.
pub open spec fn covers<T: UniformNum>(names: Seq<String>, expr: &LUExpr<T>, ops: Seq<LUExpr<T>>) -> bool {
    &&& forall|n: Seq<char>| lu_has_var(expr@, n) ==> has_name(names, n)
    &&& forall|j: int, n: Seq<char>|
        0 <= j < ops.len() && #[trigger] lu_has_var(ops[j]@, n) ==> has_name(names, n)
}

/// Whether the valuation gives the variables of `names`, in their order, and no
/// others, values.
pub open spec fn valuation_of<T: UnsignedInt>(val: &Valuation<T>, names: Seq<String>) -> bool {
    &&& val.vals@.len() == names.len()
    &&& forall|k: int| 0 <= k < names.len() ==> (#[trigger] val.vals@[k]).0@ == names[k]@
}

/// A copy of a list of names.
pub fn copy_names(names: &Vec<String>) -> (r: Vec<String>)
    ensures
        r@.len() == names@.len(),
        forall|k: int| 0 <= k < names@.len() ==> #[trigger] r@[k]@ == names@[k]@,
{
    let mut r: Vec<String> = Vec::new();
    let mut i: usize = 0;
    while i < names.len()
        invariant
            i <= names@.len(),
            r@.len() == i,
            forall|k: int| 0 <= k < i ==> #[trigger] r@[k]@ == names@[k]@,
        decreases names@.len() - i,
    {
        r.push(names[i].clone());
        i += 1;
    }
    r
}

/// Gives the variables the values of row `i` of the truth table.
pub fn set_table_row<T: UniformNum>(val: &mut Valuation<T>, names: &Vec<String>, i: usize)
    requires
        valuation_of(old(val), names@),
        sorted_names(names@),
        forall|n: Seq<char>| !has_name(names@, n) ==> #[trigger] old(val).lookup(n) == 0,
    ensures
        valuation_of(final(val), names@),
        forall|n: Seq<char>|
            #[trigger] final(val).lookup(n) == table_row(names@, i as int, T::modulus())(n),
{
    let ghost md = T::modulus();
    let mut rest: usize = i;
    let mut j: usize = 0;
    proof {
        T::lemma_modulus();
        crate::modular::lemma_cong_add_multiple(-1, 1, md);
        lemma_mod_small(md - 1, md);
    }
    while j < names.len()
        invariant
            j <= names@.len(),
            md == T::modulus(),
            md > 1,
            (0 - 1) % md == md - 1,
            valuation_of(val, names@),
            sorted_names(names@),
            forall|n: Seq<char>| !has_name(names@, n) ==> #[trigger] val.lookup(n) == 0,
            forall|t: nat| bit(i as int, j as nat + t) == #[trigger] bit(rest as int, t),
            forall|k: int|
                0 <= k < j ==> val.lookup(#[trigger] names@[k]@) == (if bit(i as int, k as nat)
                    == 1 {
                    md - 1
                } else {
                    0
                }),
        decreases names@.len() - j,
    {
        let ghost before = *val;
        assert(val.vals@[j as int].0@ == names@[j as int]@);
        let value: T = if rest % 2 == 0 {
            T::zero()
        } else {
            T::zero().sub(T::one())
        };
        val.set(names[j].as_str(), value);
        proof {
            assert(bit(i as int, j as nat + 0) == bit(rest as int, 0));
            assert forall|k: int| 0 <= k < j + 1 implies val.lookup(#[trigger] names@[k]@) == (
            if bit(i as int, k as nat) == 1 {
                md - 1
            } else {
                0
            }) by {
                if k < j {
                    if names@[k]@ == names@[j as int]@ {
                        lemma_sorted_distinct(names@, k, j as int);
                    }
                    assert(val.lookup(names@[k]@) == before.lookup(names@[k]@));
                }
            }
            assert forall|n: Seq<char>| !has_name(names@, n) implies #[trigger] val.lookup(n)
                == 0 by {
                assert(before.lookup(n) == 0);
                if n == names@[j as int]@ {
                    assert(has_name(names@, n));
                }
            }
            assert forall|t: nat| bit(i as int, (j + 1) as nat + t) == #[trigger] bit(
                (rest / 2) as int,
                t,
            ) by {
                assert(bit(rest as int, t + 1) == bit((rest / 2) as int, t));
                assert(bit(i as int, j as nat + (t + 1)) == bit(rest as int, t + 1));
                assert(j as nat + (t + 1) == (j + 1) as nat + t);
            }
        }
        rest = rest / 2;
        j += 1;
    }
    proof {
        assert forall|n: Seq<char>|
            #[trigger] val.lookup(n) == table_row(names@, i as int, md)(n) by {
            if has_name(names@, n) {
                let k = choose|k: int| 0 <= k < names@.len() && #[trigger] names@[k]@ == n;
                assert(val.lookup(names@[k]@) == (if bit(i as int, k as nat) == 1 {
                    md - 1
                } else {
                    0
                }));
                if bit(i as int, k as nat) != 1 {
                    if exists|k2: int|
                        0 <= k2 < names@.len() && #[trigger] names@[k2]@ == n && bit(
                            i as int,
                            k2 as nat,
                        ) == 1 {
                        let k2 = choose|k2: int|
                            0 <= k2 < names@.len() && #[trigger] names@[k2]@ == n && bit(
                                i as int,
                                k2 as nat,
                            ) == 1;
                        lemma_sorted_distinct(names@, k, k2);
                    }
                }
            }
        }
    }
}

/// The truth table of the operations and of the expression: row `i` holds their
/// values under the valuation of row `i`.
pub fn truth_table<T: UniformNum>(
    expr: &LUExpr<T>,
    ops: &[LUExpr<T>],
    names: &Vec<String>,
    rows: usize,
) -> (res: (Matrix<T>, Vector<T>))
    requires
        sorted_names(names@),
        covers(names@, expr, ops@),
        rows > 0,
        ops@.len() > 0,
        rows * ops@.len() <= usize::MAX,
    ensures
        res.0.wf(),
        res.0.rows == rows,
        res.0.cols == ops@.len(),
        res.1@.len() == rows,
        forall|i: int, j: int|
            res.0.has(i, j) ==> #[trigger] res.0.val_at(i, j) == lu_eval(
                ops@[j]@,
                table_row(names@, i, T::modulus()),
                T::modulus(),
            ),
        forall|i: int|
            0 <= i < rows ==> #[trigger] res.1.val_at(i) == lu_eval(
                expr@,
                table_row(names@, i, T::modulus()),
                T::modulus(),
            ),
{
    let ghost md = T::modulus();
    let cols: usize = ops.len();
    let mut val = Valuation::<T>::zero(copy_names(names));
    let mut a = Matrix::<T>::zero(rows, cols);
    let mut b = Vector::<T>::zero(rows);
    let mut i: usize = 0;
    while i < rows
        invariant
            i <= rows,
            cols == ops@.len(),
            md == T::modulus(),
            sorted_names(names@),
            covers(names@, expr, ops@),
            valuation_of(&val, names@),
            forall|n: Seq<char>| !has_name(names@, n) ==> #[trigger] val.lookup(n) == 0,
            a.wf(),
            a.rows == rows,
            a.cols == cols,
            b@.len() == rows,
            forall|r: int, j: int|
                a.has(r, j) && r < i ==> #[trigger] a.val_at(r, j) == lu_eval(
                    ops@[j]@,
                    table_row(names@, r, md),
                    md,
                ),
            forall|r: int|
                0 <= r < i ==> #[trigger] b.val_at(r) == lu_eval(
                    expr@,
                    table_row(names@, r, md),
                    md,
                ),
        decreases rows - i,
    {
        set_table_row(&mut val, names, i);
        let ghost w = table_row(names@, i as int, md);
        proof {
            assert forall|n: Seq<char>| !has_name(names@, n) implies #[trigger] val.lookup(n)
                == 0 by {
                assert(val.lookup(n) == w(n));
            }
            assert forall|n: Seq<char>| has_name(names@, n) implies val.has(n) by {
                let k = choose|k: int| 0 <= k < names@.len() && #[trigger] names@[k]@ == n;
                assert(val.vals@[k].0@ == n);
            }
        }
        let mut j: usize = 0;
        while j < cols
            invariant
                i < rows,
                j <= cols,
                cols == ops@.len(),
                md == T::modulus(),
                w == table_row(names@, i as int, md),
                covers(names@, expr, ops@),
                forall|n: Seq<char>| has_name(names@, n) ==> val.has(n),
                forall|n: Seq<char>| #[trigger] val.lookup(n) == w(n),
                a.wf(),
                a.rows == rows,
                a.cols == cols,
                forall|r: int, c: int|
                    a.has(r, c) && (r < i || (r == i && c < j)) ==> #[trigger] a.val_at(r, c)
                        == lu_eval(ops@[c]@, table_row(names@, r, md), md),
            decreases cols - j,
        {
            proof {
                assert forall|n: Seq<char>| lu_has_var(ops@[j as int]@, n) implies val.has(n) by {
                    assert(has_name(names@, n));
                }
                assert forall|n: Seq<char>| lu_has_var(ops@[j as int]@, n) implies val.assignment()(
                    n,
                ) == w(n) by {
                    assert(val.lookup(n) == w(n));
                }
                lemma_lu_sum_agrees(ops@[j as int]@, val.assignment(), w, md);
            }
            let e: T = ops[j].eval(&val);
            let ghost prev = a;
            a.set(i, j, e);
            proof {
                assert forall|r: int, c: int|
                    a.has(r, c) && (r < i || (r == i && c < j + 1)) implies #[trigger] a.val_at(
                    r,
                    c,
                ) == lu_eval(ops@[c]@, table_row(names@, r, md), md) by {
                    if r != i || c != j {
                        assert(a.at(r, c) == prev.at(r, c));
                        assert(prev.val_at(r, c) == lu_eval(
                            ops@[c]@,
                            table_row(names@, r, md),
                            md,
                        ));
                    }
                }
            }
            j += 1;
        }
        proof {
            assert forall|n: Seq<char>| lu_has_var(expr@, n) implies val.has(n) by {
                assert(has_name(names@, n));
            }
            assert forall|n: Seq<char>| lu_has_var(expr@, n) implies val.assignment()(n) == w(
                n,
            ) by {
                assert(val.lookup(n) == w(n));
            }
            lemma_lu_sum_agrees(expr@, val.assignment(), w, md);
        }
        let e: T = expr.eval(&val);
        let ghost prev = b;
        b.set(i, e);
        proof {
            assert forall|r: int| 0 <= r < i + 1 implies #[trigger] b.val_at(r) == lu_eval(
                expr@,
                table_row(names@, r, md),
                md,
            ) by {
                if r != i {
                    assert(b@[r] == prev@[r]);
                    assert(prev.val_at(r) == lu_eval(expr@, table_row(names@, r, md), md));
                }
            }
        }
        i += 1;
    }
    (a, b)
}

/// The terms of `nonzero_terms` have coefficients that are not zero, and are terms
/// of the linear combination.
pub proof fn lemma_nonzero_terms(t: Seq<(int, UTerm)>)
    ensures
        forall|i: int| 0 <= i < nonzero_terms(t).len() ==> (#[trigger] nonzero_terms(t)[i]).0 != 0,
        forall|n: Seq<char>| lu_has_var(nonzero_terms(t), n) ==> lu_has_var(t, n),
    decreases t.len(),
{
    if t.len() > 0 {
        let r = t.drop_last();
        lemma_nonzero_terms(r);
        let z = nonzero_terms(t);
        assert forall|n: Seq<char>| lu_has_var(z, n) implies lu_has_var(t, n) by {
            let k = choose|k: int| 0 <= k < z.len() && (#[trigger] z[k]).1.vars().contains(n);
            if k < nonzero_terms(r).len() {
                assert(nonzero_terms(r)[k].1.vars().contains(n));
                assert(lu_has_var(r, n));
                let k2 = choose|k2: int| 0 <= k2 < r.len() && (#[trigger] r[k2]).1.vars().contains(n);
                assert(t[k2].1.vars().contains(n));
            } else {
                assert(t[t.len() - 1].1.vars().contains(n));
            }
        }
    }
}

/// The terms that are gathered from the operations before operation `j` and from
/// the first `k` terms of operation `j`, each term times the coefficient of its
/// operation: each uniform expression stands once, where it came first, with the sum
/// of its coefficients over the ring of `m` elements.
pub open spec fn gathered(
    x: Seq<int>,
    ops: Seq<Seq<(int, UTerm)>>,
    j: int,
    k: int,
    m: int,
) -> Seq<(int, UTerm)>
    decreases j, k,
{
    if 0 <= j < ops.len() && 0 < k <= ops[j].len() {
        added(gathered(x, ops, j, k - 1, m), (x[j] * ops[j][k - 1].0) % m, ops[j][k - 1].1, m)
    } else if 0 < j <= ops.len() {
        gathered(x, ops, j - 1, ops[j - 1].len() as int, m)
    } else {
        Seq::empty()
    }
}

/// The combination of the operations with the coefficients `x` as a linear
/// combination: each uniform expression of the operations once, in the order in
/// which they come first, with the sum of its coefficients times those of its
/// operations, and without the terms whose coefficient is zero.
pub open spec fn combined(x: Seq<int>, ops: Seq<Seq<(int, UTerm)>>, m: int) -> Seq<(int, UTerm)> {
    nonzero_terms(gathered(x, ops, ops.len() as int, 0, m))
}

/// The linear combination `x_1 * o_1 + ... + x_n * o_n` of the operations: each
/// uniform expression once, in the order in which the operations bring them, and none
/// with the coefficient zero.
pub fn combine<T: UniformNum>(x: &Vector<T>, ops: &[LUExpr<T>]) -> (r: LUExpr<T>)
    requires
        x@.len() == ops@.len(),
    ensures
        r@ == combined(x.vals(), views(ops@), T::modulus()),
        forall|v: spec_fn(Seq<char>) -> int|
            cong(
                #[trigger] lu_sum(r@, v, T::modulus()),
                combination(x.vals(), views(ops@), v, T::modulus()),
                T::modulus(),
            ),
        forall|n: Seq<char>|
            lu_has_var(r@, n) ==> exists|j: int|
                0 <= j < ops@.len() && #[trigger] lu_has_var(ops@[j]@, n),
        forall|i: int| 0 <= i < r@.len() ==> (#[trigger] r@[i]).0 != 0,
{
    let ghost md = T::modulus();
    let ghost xs = x.vals();
    let ghost os = views(ops@);
    let mut acc = LUExpr::<T>(Vec::new());
    let mut j: usize = 0;
    proof {
        T::lemma_modulus();
        assert(acc@ =~= Seq::empty());
    }
    while j < ops.len()
        invariant
            j <= ops@.len(),
            x@.len() == ops@.len(),
            md == T::modulus(),
            md > 0,
            xs == x.vals(),
            os == views(ops@),
            acc@ == gathered(xs, os, j as int, 0, md),
            forall|v: spec_fn(Seq<char>) -> int|
                cong(
                    #[trigger] lu_sum(acc@, v, md),
                    sum(combination_terms(xs, os, v, md), j as int),
                    md,
                ),
            forall|n: Seq<char>|
                lu_has_var(acc@, n) ==> exists|j2: int|
                    0 <= j2 < ops@.len() && #[trigger] lu_has_var(ops@[j2]@, n),
        decreases ops@.len() - j,
    {
        let c: T = *x.entry(j);
        let mut k: usize = 0;
        while k < ops[j].0.len()
            invariant
                j < ops@.len(),
                x@.len() == ops@.len(),
                k <= ops@[j as int].0@.len(),
                md == T::modulus(),
                md > 0,
                xs == x.vals(),
                os == views(ops@),
                c == x@[j as int],
                acc@ == gathered(xs, os, j as int, k as int, md),
                forall|v: spec_fn(Seq<char>) -> int|
                    cong(
                        #[trigger] lu_sum(acc@, v, md),
                        sum(combination_terms(xs, os, v, md), j as int) + xs[j as int] * sum(
                            lu_terms(os[j as int], v, md),
                            k as int,
                        ),
                        md,
                    ),
                forall|n: Seq<char>|
                    lu_has_var(acc@, n) ==> exists|j2: int|
                        0 <= j2 < ops@.len() && #[trigger] lu_has_var(ops@[j2]@, n),
            decreases ops@[j as int].0@.len() - k,
        {
            let ghost before = acc@;
            let d: T = ops[j].0[k].0;
            let cd: T = c.mul(d);
            acc.add_term(cd, &ops[j].0[k].1);
            proof {
                let u = ops@[j as int].0@[k as int].1@;
                assert(os[j as int][k as int] == (d.val(), u));
                assert(xs[j as int] == c.val());
                assert(os[j as int].len() == ops@[j as int].0@.len());
                assert(acc@ == gathered(xs, os, j as int, k + 1, md));
                assert forall|v: spec_fn(Seq<char>) -> int|
                    cong(
                        #[trigger] lu_sum(acc@, v, md),
                        sum(combination_terms(xs, os, v, md), j as int) + xs[j as int] * sum(
                            lu_terms(os[j as int], v, md),
                            k + 1,
                        ),
                        md,
                    ) by {
                    let base = sum(combination_terms(xs, os, v, md), j as int);
                    let part = sum(lu_terms(os[j as int], v, md), k as int);
                    let ev = u.eval(v, md);
                    assert(cong(lu_sum(before, v, md), base + xs[j as int] * part, md));
                    assert(cong(lu_sum(acc@, v, md), lu_sum(before, v, md) + cd.val() * ev, md));
                    lemma_cong_mod(c.val() * d.val(), md);
                    lemma_cong_ops(cd.val(), c.val() * d.val(), ev, ev, md);
                    lemma_cong_ops(
                        lu_sum(before, v, md),
                        base + xs[j as int] * part,
                        cd.val() * ev,
                        (c.val() * d.val()) * ev,
                        md,
                    );
                    assert(lu_terms(os[j as int], v, md)(k as int) == d.val() * ev);
                    assert(xs[j as int] == c.val());
                    assert(base + xs[j as int] * part + (c.val() * d.val()) * ev == base
                        + xs[j as int] * (part + d.val() * ev)) by (nonlinear_arith)
                        requires
                            xs[j as int] == c.val(),
                    ;
                }
                assert forall|n: Seq<char>| lu_has_var(acc@, n) implies exists|j2: int|
                    0 <= j2 < ops@.len() && #[trigger] lu_has_var(ops@[j2]@, n) by {
                    if !lu_has_var(before, n) {
                        assert(u.vars().contains(n));
                        assert(ops@[j as int]@[k as int].1.vars().contains(n));
                        assert(lu_has_var(ops@[j as int]@, n));
                    }
                }
            }
            k += 1;
        }
        proof {
            assert forall|v: spec_fn(Seq<char>) -> int|
                cong(
                    #[trigger] lu_sum(acc@, v, md),
                    sum(combination_terms(xs, os, v, md), j + 1),
                    md,
                ) by {
                assert(cong(
                    lu_sum(acc@, v, md),
                    sum(combination_terms(xs, os, v, md), j as int) + xs[j as int] * sum(
                        lu_terms(os[j as int], v, md),
                        ops@[j as int].0@.len() as int,
                    ),
                    md,
                ));
                assert(os[j as int].len() == ops@[j as int].0@.len());
            }
            assert(os[j as int].len() == ops@[j as int].0@.len());
            assert(acc@ == gathered(xs, os, j + 1, 0, md));
        }
        j += 1;
    }
    let r = acc.without_zeros();
    proof {
        lemma_nonzero_terms(acc@);
        assert forall|n: Seq<char>| lu_has_var(r@, n) implies exists|j: int|
            0 <= j < ops@.len() && #[trigger] lu_has_var(ops@[j]@, n) by {
            assert(lu_has_var(acc@, n));
        }
        assert forall|v: spec_fn(Seq<char>) -> int|
            cong(#[trigger] lu_sum(r@, v, md), combination(xs, os, v, md), md) by {
            lemma_lu_sum_nonzero(acc@, v, md);
            assert(cong(
                lu_sum(acc@, v, md),
                sum(combination_terms(xs, os, v, md), ops@.len() as int),
                md,
            ));
        }
    }
    r
}

/// The variables of the expression and of the operations.
pub open spec fn all_vars<T: UniformNum>(expr: &LUExpr<T>, ops: Seq<LUExpr<T>>) -> Set<Seq<char>> {
    Set::new(
        |n: Seq<char>|
            lu_has_var(expr@, n) || exists|j: int|
                0 <= j < ops.len() && #[trigger] lu_has_var(ops[j]@, n),
    )
}

/// Whether the truth table of `nv` variables, or the square matrices of its
/// dimensions, cannot be indexed on this machine.
pub open spec fn too_large(nv: nat, cols: nat) -> bool {
    pow2(nv) * pow2(nv) > usize::MAX || cols * cols > usize::MAX
}

/// The variables of the expression and of the operations, sorted, each once.
pub fn collect_vars<T: UniformNum>(expr: &LUExpr<T>, ops: &[LUExpr<T>]) -> (names: Vec<String>)
    ensures
        sorted_names(names@),
        forall|n: Seq<char>| has_name(names@, n) <==> all_vars(expr, ops@).contains(n),
{
    let mut names: Vec<String> = Vec::new();
    expr.vars_impl(&mut names);
    let mut j: usize = 0;
    while j < ops.len()
        invariant
            j <= ops@.len(),
            sorted_names(names@),
            forall|n: Seq<char>|
                has_name(names@, n) <==> lu_has_var(expr@, n) || exists|j2: int|
                    0 <= j2 < j && #[trigger] lu_has_var(ops@[j2]@, n),
        decreases ops@.len() - j,
    {
        let ghost before = names@;
        ops[j].vars_impl(&mut names);
        proof {
            assert forall|n: Seq<char>|
                has_name(names@, n) <==> lu_has_var(expr@, n) || exists|j2: int|
                    0 <= j2 < j + 1 && #[trigger] lu_has_var(ops@[j2]@, n) by {
                if has_name(before, n) && !lu_has_var(expr@, n) {
                    let j2 = choose|j2: int| 0 <= j2 < j && #[trigger] lu_has_var(ops@[j2]@, n);
                    assert(0 <= j2 < j + 1 && lu_has_var(ops@[j2]@, n));
                }
                if exists|j2: int| 0 <= j2 < j + 1 && #[trigger] lu_has_var(ops@[j2]@, n) {
                    let j2 = choose|j2: int| 0 <= j2 < j + 1 && #[trigger] lu_has_var(ops@[j2]@, n);
                    if j2 < j {
                        assert(has_name(before, n));
                    }
                }
                if lu_has_var(ops@[j as int]@, n) {
                    assert(0 <= j < j + 1 && lu_has_var(ops@[j as int]@, n));
                }
            }
        }
        j += 1;
    }
    names
}

/// The number of rows of the truth table of `nv` variables, where the table and the
/// square matrices of its dimensions can be indexed.
pub fn table_size(nv: usize, cols: usize) -> (r: Option<usize>)
    ensures
        match r {
            Some(rows) => {
                &&& rows == pow2(nv as nat)
                &&& rows * rows <= usize::MAX
                &&& cols * cols <= usize::MAX
                &&& rows * cols <= usize::MAX
            },
            None => too_large(nv as nat, cols as nat),
        },
{
    let mut rows: usize = 1;
    let mut k: usize = 0;
    proof {
        vstd::arithmetic::power2::lemma2_to64();
    }
    while k < nv
        invariant
            k <= nv,
            rows == pow2(k as nat),
        decreases nv - k,
    {
        proof {
            vstd::arithmetic::power2::lemma_pow2_unfold((k + 1) as nat);
        }
        match rows.checked_mul(2) {
            Some(next) => {
                rows = next;
            },
            None => {
                proof {
                    if k + 1 < nv {
                        vstd::arithmetic::power2::lemma_pow2_strictly_increases(
                            (k + 1) as nat,
                            nv as nat,
                        );
                    }
                    vstd::arithmetic::power2::lemma_pow2_pos(nv as nat);
                    assert(pow2(nv as nat) * pow2(nv as nat) >= pow2(nv as nat))
                        by (nonlinear_arith)
                        requires
                            pow2(nv as nat) >= 1,
                    ;
                }
                return None;
            },
        }
        k += 1;
    }
    if rows.checked_mul(rows).is_none() {
        return None;
    }
    if cols.checked_mul(cols).is_none() {
        return None;
    }
    proof {
        assert(rows * cols <= usize::MAX) by (nonlinear_arith)
            requires
                rows * rows <= usize::MAX,
                cols * cols <= usize::MAX,
                rows >= 0,
                cols >= 0,
        ;
    }
    Some(rows)
}

/// The sum of a row of the truth table with the numbers `x` is, over the ring, the
/// combination of the operations with the coefficients `x` under the valuation of
/// the row.
pub proof fn lemma_row_is_combination<T: UniformNum>(
    a: &Matrix<T>,
    ops: Seq<LUExpr<T>>,
    names: Seq<String>,
    x: Seq<int>,
    i: int,
)
    requires
        a.cols == ops.len(),
        forall|j: int|
            0 <= j < a.cols ==> #[trigger] a.val_at(i, j) == lu_eval(
                ops[j]@,
                table_row(names, i, T::modulus()),
                T::modulus(),
            ),
    ensures
        cong(
            a.apply_at(x, i),
            combination(x, views(ops), table_row(names, i, T::modulus()), T::modulus()),
            T::modulus(),
        ),
{
    let md = T::modulus();
    T::lemma_modulus();
    let w = table_row(names, i, md);
    let f = a.apply_terms(x, i);
    let g = combination_terms(x, views(ops), w, md);
    assert forall|j: int| 0 <= j < a.cols implies cong(#[trigger] f(j), g(j), md) by {
        assert(a.val_at(i, j) == lu_eval(ops[j]@, w, md));
        lemma_cong_mod(lu_sum(ops[j]@, w, md), md);
        lemma_cong_ops(a.val_at(i, j), lu_sum(ops[j]@, w, md), x[j], x[j], md);
        assert(lu_sum(ops[j]@, w, md) * x[j] == x[j] * lu_sum(ops[j]@, w, md))
            by (nonlinear_arith);
        assert(views(ops)[j] == ops[j]@);
    }
    lemma_sum_cong(f, g, a.cols as int, md);
}

/// The numbers `x` solve the system of the truth table where the combination of
/// the operations with the coefficients `x` rewrites the expression, and only there.
pub proof fn lemma_table_solved<T: UniformNum>(
    a: &Matrix<T>,
    b: &Vector<T>,
    expr: &LUExpr<T>,
    ops: Seq<LUExpr<T>>,
    names: Seq<String>,
    x: Seq<int>,
)
    requires
        sorted_names(names),
        covers(names, expr, ops),
        a.rows == pow2(names.len()),
        a.cols == ops.len(),
        b@.len() == a.rows,
        x.len() == a.cols,
        forall|i: int, j: int|
            a.has(i, j) ==> #[trigger] a.val_at(i, j) == lu_eval(
                ops[j]@,
                table_row(names, i, T::modulus()),
                T::modulus(),
            ),
        forall|i: int|
            0 <= i < a.rows ==> #[trigger] b.val_at(i) == lu_eval(
                expr@,
                table_row(names, i, T::modulus()),
                T::modulus(),
            ),
    ensures
        a.solved_by(x, b.vals()) <==> rewrites(x, views(ops), expr@, T::modulus()),
{
    let md = T::modulus();
    T::lemma_modulus();
    let os = views(ops);
    assert forall|i: int| 0 <= i < a.rows implies cong(
        #[trigger] a.apply_at(x, i),
        combination(x, os, table_row(names, i, md), md),
        md,
    ) && cong(b.vals()[i], lu_sum(expr@, table_row(names, i, md), md), md) by {
        assert forall|j: int| 0 <= j < a.cols implies #[trigger] a.val_at(i, j) == lu_eval(
            ops[j]@,
            table_row(names, i, md),
            md,
        ) by {
            assert(a.has(i, j));
        }
        lemma_row_is_combination(a, ops, names, x, i);
        assert(b.val_at(i) == lu_eval(expr@, table_row(names, i, md), md));
        lemma_cong_mod(lu_sum(expr@, table_row(names, i, md), md), md);
    }
    if a.solved_by(x, b.vals()) {
        assert forall|v: spec_fn(Seq<char>) -> int| is_boolean(v, md) implies cong(
            #[trigger] combination(x, os, v, md),
            lu_sum(expr@, v, md),
            md,
        ) by {
            let i = row_index(v, names, 0);
            let w = table_row(names, i, md);
            lemma_row_index(v, names, 0);
            lemma_table_row_agrees(v, names, md);
            assert forall|j: int, n: Seq<char>|
                0 <= j < os.len() && #[trigger] lu_has_var(os[j], n) implies v(n) == w(n) by {
                assert(os[j] == ops[j]@);
                assert(lu_has_var(ops[j]@, n));
                assert(has_name(names, n));
            }
            lemma_combination_agrees(x, os, v, w, md);
            assert forall|n: Seq<char>| lu_has_var(expr@, n) implies v(n) == w(n) by {
                assert(has_name(names, n));
            }
            lemma_lu_sum_agrees(expr@, v, w, md);
            assert(cong(a.apply_at(x, i), b.vals()[i], md));
        }
    }
    if rewrites(x, os, expr@, md) {
        assert forall|i: int| 0 <= i < a.rows implies cong(
            #[trigger] a.apply_at(x, i),
            b.vals()[i],
            md,
        ) by {
            let w = table_row(names, i, md);
            lemma_table_row_boolean(names, i, md);
            assert(cong(combination(x, os, w, md), lu_sum(expr@, w, md), md));
        }
    }
}

/// Whether `r` is a combination of the operations that has the value of `e` under
/// every valuation that is boolean: the combination with coefficients that solve
/// the system of the truth table.
pub open spec fn is_rewrite(
    r: Seq<(int, UTerm)>,
    e: Seq<(int, UTerm)>,
    ops: Seq<Seq<(int, UTerm)>>,
    m: int,
) -> bool {
    exists|x: Seq<int>| x.len() == ops.len() && #[trigger] rewrites(x, ops, e, m) && r == combined(x, ops, m)
}

/// Whether `a` and `b` are the truth table of the operations and of the expression
/// over the variables `names`: row `i` holds their values under the valuation of row
/// `i`.
pub open spec fn is_table<T: UniformNum>(
    a: &Matrix<T>,
    b: &Vector<T>,
    expr: &LUExpr<T>,
    ops: Seq<LUExpr<T>>,
    names: Seq<String>,
) -> bool {
    &&& a.wf()
    &&& a.rows == pow2(names.len())
    &&& a.cols == ops.len()
    &&& b@.len() == a.rows
    &&& forall|i: int, j: int|
        a.has(i, j) ==> #[trigger] a.val_at(i, j) == lu_eval(
            ops[j]@,
            table_row(names, i, T::modulus()),
            T::modulus(),
        )
    &&& forall|i: int|
        0 <= i < a.rows ==> #[trigger] b.val_at(i) == lu_eval(
            expr@,
            table_row(names, i, T::modulus()),
            T::modulus(),
        )
}

/// The first `n` of the coefficients, with zero for each that is missing.
pub open spec fn padded<T: UnsignedInt>(coeffs: Seq<T>, n: int) -> Seq<int> {
    Seq::new(
        n as nat,
        |j: int|
            if j < coeffs.len() {
                coeffs[j].val()
            } else {
                0
            },
    )
}

/// Whether `x` is, over the ring, the point with the coefficients `coeffs` of the
/// lattice `l` of the solutions of the truth table `a` and `b` of the operations and
/// of the expression, over their variables `names`, sorted.
pub open spec fn is_point_of_table<T: UniformNum>(
    x: Seq<int>,
    expr: &LUExpr<T>,
    ops: Seq<LUExpr<T>>,
    coeffs: Seq<T>,
    names: Seq<String>,
    a: &Matrix<T>,
    b: &Vector<T>,
    l: &AffineLattice<T>,
) -> bool {
    &&& sorted_names(names)
    &&& forall|n: Seq<char>| has_name(names, n) <==> all_vars(expr, ops).contains(n)
    &&& is_table(a, b, expr, ops, names)
    &&& is_lattice_of(l, a, b)
    &&& l.offset@.len() > 0
    &&& forall|k: int| 0 <= k < x.len() ==> 0 <= #[trigger] x[k] < T::modulus()
    &&& cong_seq(x, l.point(padded(coeffs, l.basis@.len() as int)), T::modulus())
}

/// Whether `r` is the combination of the operations at the point with the
/// coefficients `coeffs` of the lattice of the solutions of their truth table: at its
/// offset where there is no coefficient.
pub open spec fn is_rewrite_with<T: UniformNum>(
    r: Seq<(int, UTerm)>,
    expr: &LUExpr<T>,
    ops: Seq<LUExpr<T>>,
    coeffs: Seq<T>,
) -> bool {
    exists|x: Seq<int>, names: Seq<String>, a: Matrix<T>, b: Vector<T>, l: AffineLattice<T>|
        #[trigger] is_point_of_table(x, expr, ops, coeffs, names, &a, &b, &l) && r == combined(
            x,
            views(ops),
            T::modulus(),
        )
}

/// Whether the linear combination `r` has the value of `e` under every valuation
/// that is boolean.
pub open spec fn agrees_on_booleans(r: Seq<(int, UTerm)>, e: Seq<(int, UTerm)>, m: int) -> bool {
    forall|v: spec_fn(Seq<char>) -> int|
        is_boolean(v, m) ==> #[trigger] lu_eval(r, v, m) == lu_eval(e, v, m)
}

/// Rewrites `expr` as a linear combination of the operations `ops`: solves for the
/// coefficients of the operations on the truth table, picks among the solutions the
/// point of their lattice with the coefficients `coeffs`, as far as they go, and
/// collects the terms. The result has the value of `expr` under every valuation,
/// since it has it under those of all zeros and all ones. The result is `None`
/// where there are no operations, where the truth table is too large for this
/// machine, and where no combination of the operations has the values of `expr` on
/// the truth table.
pub fn rewrite_with<T: UniformNum>(expr: &LUExpr<T>, ops: &[LUExpr<T>], coeffs: &Vec<T>) -> (res:
    Option<LUExpr<T>>)
    ensures
        match res {
            Some(r) => {
                &&& ops@.len() > 0
                &&& is_rewrite_with(r@, expr, ops@, coeffs@)
                &&& is_rewrite(r@, expr@, views(ops@), T::modulus())
                &&& agrees_on_booleans(r@, expr@, T::modulus())
                &&& agrees(r@, expr@, T::modulus())
                &&& forall|i: int| 0 <= i < r@.len() ==> (#[trigger] r@[i]).0 != 0
                &&& forall|n: Seq<char>|
                    lu_has_var(r@, n) ==> exists|j: int|
                        0 <= j < ops@.len() && #[trigger] lu_has_var(ops@[j]@, n)
            },
            None => {
                ||| ops@.len() == 0
                ||| too_large(all_vars(expr, ops@).len(), ops@.len())
                ||| forall|x: Seq<int>|
                    x.len() == ops@.len() ==> !#[trigger] rewrites(
                        x,
                        views(ops@),
                        expr@,
                        T::modulus(),
                    )
            },
        },
{
    let ghost md = T::modulus();
    if ops.len() == 0 {
        return None;
    }
    let names = collect_vars(expr, ops);
    proof {
        lemma_name_set_len(names@);
        assert(name_set(names@) =~= all_vars(expr, ops@));
        T::lemma_modulus();
    }
    let rows: usize = match table_size(names.len(), ops.len()) {
        Some(rows) => rows,
        None => {
            return None;
        },
    };
    proof {
        vstd::arithmetic::power2::lemma_pow2_pos(names@.len());
        assert(covers(names@, expr, ops@));
    }
    let (a, b) = truth_table(expr, ops, &names, rows);
    let ghost a0 = a;
    let l = solve_congruences(a, &b);
    if l.is_empty() {
        proof {
            assert forall|x: Seq<int>| x.len() == ops@.len() implies !#[trigger] rewrites(
                x,
                views(ops@),
                expr@,
                md,
            ) by {
                lemma_table_solved(&a0, &b, expr, ops@, names@, x);
                assert(!a0.solved_by(x, b.vals()));
            }
        }
        return None;
    }
    // Sample a point of the lattice.
    let mut cs: Vec<T> = Vec::new();
    let mut j: usize = 0;
    while j < l.basis.len()
        invariant
            j <= l.basis@.len(),
            cs@.len() == j,
            forall|k: int|
                0 <= k < j ==> (#[trigger] cs@[k]).val() == if k < coeffs@.len() {
                    coeffs@[k].val()
                } else {
                    0
                },
        decreases l.basis@.len() - j,
    {
        if j < coeffs.len() {
            cs.push(coeffs[j]);
        } else {
            cs.push(T::zero());
        }
        j += 1;
    }
    let x = l.sample(&cs);
    let r = combine(&x, ops);
    proof {
        let p = l.point(Seq::new(cs@.len(), |j: int| cs@[j].val()));
        assert(a0.solved_by(p, b.vals()));
        assert(cong_seq(p, x.vals(), md));
        assert(cong_seq(b.vals(), b.vals(), md));
        lemma_solved_by_cong(&a0, p, b.vals(), x.vals(), b.vals());
        lemma_table_solved(&a0, &b, expr, ops@, names@, x.vals());
        assert(rewrites(x.vals(), views(ops@), expr@, md));
        assert(is_rewrite(r@, expr@, views(ops@), md));
        assert(Seq::new(cs@.len(), |j: int| cs@[j].val()) =~= padded(
            coeffs@,
            l.basis@.len() as int,
        ));
        assert forall|k: int| 0 <= k < x.vals().len() implies 0 <= #[trigger] x.vals()[k] < md by {
            x@[k].lemma_val_bound();
        }
        assert(is_table(&a0, &b, expr, ops@, names@));
        assert(is_point_of_table(x.vals(), expr, ops@, coeffs@, names@, &a0, &b, &l));
        assert forall|v: spec_fn(Seq<char>) -> int| is_boolean(v, md) implies #[trigger] lu_eval(
            r@,
            v,
            md,
        ) == lu_eval(expr@, v, md) by {
            assert(cong(lu_sum(r@, v, md), combination(x.vals(), views(ops@), v, md), md));
            assert(cong(combination(x.vals(), views(ops@), v, md), lu_sum(expr@, v, md), md));
        }
        lemma_pointwise_in::<T>(r@, expr@);
    }
    Some(r)
}

/// Rewrites `expr` as a linear combination of the operations `ops`, with random
/// coefficients for the vectors that span the solutions where `randomize` is set,
/// and else at the offset of the lattice of the solutions.
/// The result is `None` where there are no operations, where the truth table is too
/// large for this machine, and where no combination of the operations has the values
/// of `expr` on the truth table.
pub fn rewrite<T: UniformNum>(expr: &LUExpr<T>, ops: &[LUExpr<T>], randomize: bool) -> (res: Option<
    LUExpr<T>,
>)
    ensures
        match res {
            Some(r) => {
                &&& ops@.len() > 0
                &&& exists|coeffs: Seq<T>|
                    (randomize || coeffs.len() == 0) && #[trigger] is_rewrite_with(
                        r@,
                        expr,
                        ops@,
                        coeffs,
                    )
                &&& is_rewrite(r@, expr@, views(ops@), T::modulus())
                &&& agrees_on_booleans(r@, expr@, T::modulus())
                &&& agrees(r@, expr@, T::modulus())
                &&& forall|i: int| 0 <= i < r@.len() ==> (#[trigger] r@[i]).0 != 0
                &&& forall|n: Seq<char>|
                    lu_has_var(r@, n) ==> exists|j: int|
                        0 <= j < ops@.len() && #[trigger] lu_has_var(ops@[j]@, n)
            },
            None => {
                ||| ops@.len() == 0
                ||| too_large(all_vars(expr, ops@).len(), ops@.len())
                ||| forall|x: Seq<int>|
                    x.len() == ops@.len() ==> !#[trigger] rewrites(
                        x,
                        views(ops@),
                        expr@,
                        T::modulus(),
                    )
            },
        },
{
    let coeffs: Vec<T> = if randomize {
        random_elements::<T>(ops.len())
    } else {
        Vec::new()
    };
    rewrite_with(expr, ops, &coeffs)
}

} // verus!
