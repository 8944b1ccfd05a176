//! The solution of a system of linear congruences, step by step, in LaTeX notation.

use vstd::prelude::*;
use vstd::string::{StrSliceExecFns, StringExecFns, StringExecFnsIsAscii};
use crate::numbers::UnsignedInt;
use crate::text::{decimal, push_decimal, is_digit};
use crate::modular::{lemma_mod_small, lemma_cong_ops, lemma_cong_mod};
use crate::numerals::lemma_digits_stop;
use crate::tex::{push_number, tex_vector, tex_matrix, tex_lattice};
use crate::parser::{is_code, digits_end, digits_value};
use crate::words::{split_lines, split_words, texts, lines_from, words_from, code};
use crate::matrix::Matrix;
use crate::vector::Vector;
use crate::lattice::AffineLattice;
use crate::systems::is_equivalent_form;
use crate::congruence_solver::{
    diagonalize, solve_scalar_congruence, is_solution_lattice, is_unsolvable, lemma_no_solution,
    lemma_solution_lattice, is_solution_set, has_no_solution, scalar_solution,
};
use crate::diagonal::{solve_diagonal, is_diagonal_solution, diagonal_solution};
use crate::grids::is_diagonalization;
use crate::obfuscate::Bitness;
use crate::printer::{lemma_join, lemma_join2};

verus! {

/// The intermediate results of the solution of a system of linear congruences, each
/// in LaTeX notation.
pub struct SolveTrace {
    /// The diagonalization of the matrix.
    pub diag: String,
    /// The resulting diagonal system.
    pub scalar_system: String,
    /// Linear congruences and solutions.
    pub linear_solutions: String,
    /// Vector form of the solution.
    pub vector_solution: String,
    /// The final solution.
    pub final_solution: String,
}

impl SolveTrace {
    /// The diagonalization of the matrix.
    pub fn diag(&self) -> (s: String)
        ensures
            s@ == self.diag@,
    {
        self.diag.clone()
    }

    /// The resulting diagonal system.
    pub fn scalar_system(&self) -> (s: String)
        ensures
            s@ == self.scalar_system@,
    {
        self.scalar_system.clone()
    }

    /// Linear congruences and solutions.
    pub fn linear_solutions(&self) -> (s: String)
        ensures
            s@ == self.linear_solutions@,
    {
        self.linear_solutions.clone()
    }

    /// Vector form of the solution.
    pub fn vector_solution(&self) -> (s: String)
        ensures
            s@ == self.vector_solution@,
    {
        self.vector_solution.clone()
    }

    /// The final solution.
    pub fn final_solution(&self) -> (s: String)
        ensures
            s@ == self.final_solution@,
    {
        self.final_solution.clone()
    }
}

/// A text over a brace with a label under it.
pub open spec fn underbraced(inner: Seq<char>, label: Seq<char>) -> Seq<char> {
    "\\underbrace{"@ + inner + "}_{"@ + label + "}"@
}

/// A text in bold letters.
pub open spec fn bolded(inner: Seq<char>) -> Seq<char> {
    "\\mathbf{"@ + inner + "}"@
}

/// A text over a brace with a label under it.
pub fn underbrace(inner: &str, label: &str) -> (s: String)
    ensures
        s@ == underbraced(inner@, label@),
{
    let mut s = String::from_str("\\underbrace{");
    s.append(inner);
    s.append("}_{");
    s.append(label);
    s.append("}");
    s
}

/// A text in bold letters.
pub fn bold(inner: &str) -> (s: String)
    ensures
        s@ == bolded(inner@),
{
    let mut s = String::from_str("\\mathbf{");
    s.append(inner);
    s.append("}");
    s
}

/// A text over a brace with a label in bold letters under it.
pub fn labelled(inner: &str, label: &str) -> (s: String)
    ensures
        s@ == underbraced(inner@, bolded(label@)),
{
    let b = bold(label);
    underbrace(inner, b.as_str())
}

/// The message that the entry of row `r` and column `c`, both counted from zero, is
/// no number.
pub fn entry_error(r: usize, c: usize) -> (s: String)
    ensures
        s@ == "Failed to parse entry ("@ + decimal(r + 1) + ", "@ + decimal(c + 1) + ")."@,
{
    let mut s = String::from_str("Failed to parse entry (");
    push_decimal(&mut s, r as u128 + 1);
    s.append(", ");
    push_decimal(&mut s, c as u128 + 1);
    s.append(").");
    s
}

/// The index of the first entry of `b` from index `from` on that is not zero.
pub fn first_nonzero<T: UnsignedInt>(b: &Vector<T>, from: usize) -> (r: Option<usize>)
    ensures
        match r {
            Some(i) => from <= i < b@.len() && b.val_at(i as int) != 0 && forall|k: int|
                from <= k < i ==> b.val_at(k) == 0,
            None => forall|k: int| from <= k < b@.len() ==> b.val_at(k) == 0,
        },
{
    let mut i: usize = from;
    while i < b.entries.len()
        invariant
            from <= i,
            forall|k: int| from <= k < i && k < b@.len() ==> b.val_at(k) == 0,
        decreases b@.len() - i,
    {
        if !b.entries[i].eq(T::zero()) {
            return Some(i);
        }
        i += 1;
    }
    None
}

/// The entry at index `i` of the first vector of the basis that is not zero there,
/// with the number of the vector, counted from one; zero and zero where there is
/// none.
pub fn find_generator<T: UnsignedInt>(l: &AffineLattice<T>, i: usize) -> (r: (T, usize))
    requires
        l.wf(),
        i < l.offset@.len(),
    ensures
        r.1 == generator_number(l, i as int, 0),
        r.0.val() == generator_value(l, i as int),
{
    let mut j: usize = 0;
    while j < l.basis.len()
        invariant
            l.wf(),
            i < l.offset@.len(),
            j <= l.basis@.len(),
            generator_number(l, i as int, 0) == generator_number(l, i as int, j as int),
        decreases l.basis@.len() - j,
    {
        assert(l.basis@[j as int]@.len() == l.offset@.len());
        let e: T = *l.basis[j].entry(i);
        if !e.eq(T::zero()) {
            return (e, j + 1);
        }
        j += 1;
    }
    (T::zero(), 0)
}

/// What the trace of a solution speaks of: the diagonal matrix `d`, the matrices `s`
/// and `t` with `d = s * a * t`, the right-hand sides `bp = s * b`, the solutions
/// `pre` of the diagonal system, and the solutions `l` of the system.
pub struct Steps<T> {
    pub d: Matrix<T>,
    pub s: Matrix<T>,
    pub t: Matrix<T>,
    pub bp: Vector<T>,
    pub pre: AffineLattice<T>,
    pub l: AffineLattice<T>,
}

/// The diagonalization `D = S A T`, each matrix over its name.
pub open spec fn diag_text<T: UnsignedInt>(w: &Steps<T>, a: &Matrix<T>) -> Seq<char> {
    underbraced(tex_matrix(&w.d), bolded("D"@)) + "="@ + underbraced(
        tex_matrix(&w.s),
        bolded("S"@),
    ) + underbraced(tex_matrix(a), bolded("A"@)) + underbraced(tex_matrix(&w.t), bolded("T"@))
}

/// The diagonal system `D x' = S b`, with its right-hand sides.
pub open spec fn system_text<T: UnsignedInt>(w: &Steps<T>, b: &Vector<T>) -> Seq<char> {
    underbraced(tex_matrix(&w.d), bolded("D"@)) + "\\mathbf{x'}="@ + underbraced(
        tex_matrix(&w.s),
        bolded("S"@),
    ) + underbraced(tex_vector(b.vals(), T::modulus()), bolded("b"@)) + "="@ + tex_vector(
        w.bp.vals(),
        T::modulus(),
    )
}

/// The row `i`, counted from zero, that has no unknown and a right-hand side `v`
/// that is not zero.
pub open spec fn row_failure_text(i: int, v: int) -> Seq<char> {
    "\\text{Row "@ + decimal(i + 1) + ": } 0="@ + decimal(v) + "\\implies \\text{No solution}"@
}

/// The solutions of the diagonal system in vector form.
pub open spec fn vector_text<T: UnsignedInt>(w: &Steps<T>) -> Seq<char> {
    "\\mathbf{x'}="@ + braced_lattice(&w.pre)
}

/// A lattice in LaTeX notation, in brackets where it has a basis.
pub open spec fn braced_lattice<T: UnsignedInt>(l: &AffineLattice<T>) -> Seq<char> {
    if l.basis@.len() == 0 {
        tex_lattice(l)
    } else {
        "\\left("@ + tex_lattice(l) + "\\right)"@
    }
}

/// The solutions of the system as the product of `T` with those of the diagonal
/// system.
pub open spec fn final_text<T: UnsignedInt>(w: &Steps<T>) -> Seq<char> {
    "\\mathbf{x}="@ + underbraced(tex_matrix(&w.t), bolded("T"@)) + underbraced(
        braced_lattice(&w.pre),
        bolded("x'"@),
    ) + "="@ + tex_lattice(&w.l)
}

/// Whether the steps are those of the solution of the system `a * x = b`: the
/// diagonalization of `a`, and the product of `s` with `b`.
pub open spec fn steps_of<T: UnsignedInt>(w: &Steps<T>, a: &Matrix<T>, b: &Vector<T>) -> bool {
    &&& is_diagonalization(&w.d, &w.s, &w.t, a)
    &&& is_equivalent_form(&w.d, &w.s, a, &w.t)
    &&& w.d.is_diagonal()
    &&& w.s.is_image(b, &w.bp)
}

/// The number, counted from one, of the first vector of the basis from index `j` on
/// that is not zero at index `i`; zero where there is none.
pub open spec fn generator_number<T: UnsignedInt>(l: &AffineLattice<T>, i: int, j: int) -> int
    decreases l.basis@.len() - j,
{
    if j < 0 || j >= l.basis@.len() {
        0
    } else if l.basis@[j].val_at(i) != 0 {
        j + 1
    } else {
        generator_number(l, i, j + 1)
    }
}

/// The entry at index `i` of the first vector of the basis that is not zero there;
/// zero where there is none.
pub open spec fn generator_value<T: UnsignedInt>(l: &AffineLattice<T>, i: int) -> int {
    let j = generator_number(l, i, 0);
    if j == 0 {
        0
    } else {
        l.basis@[j - 1].val_at(i)
    }
}

/// The congruence of row `i` of the diagonal system with its solutions, or the free
/// unknown `i` where the system has no such row.
pub open spec fn step_text<T: UnsignedInt>(w: &Steps<T>, i: int) -> Seq<char> {
    let j = generator_number(&w.pre, i, 0);
    if i < w.d.rows {
        decimal(w.d.val_at(i, i)) + "x'_{"@ + decimal(i + 1) + "}&="@ + decimal(w.bp.val_at(i))
            + " &\\implies "@ + ("x'_{"@ + decimal(i + 1) + "}&="@ + decimal(
            w.pre.offset.val_at(i),
        ) + (if generator_value(&w.pre, i) == 0 {
            "\\\\"@
        } else {
            "+"@ + decimal(generator_value(&w.pre, i)) + "a_{"@ + decimal(j) + "}\\\\"@
        }))
    } else {
        "&&x'_{"@ + decimal(i + 1) + "}&=a_{"@ + decimal(j) + "}\\\\"@
    }
}

/// The steps of the unknowns from `i` on.
pub open spec fn steps_text<T: UnsignedInt>(w: &Steps<T>, i: int) -> Seq<char>
    decreases w.d.cols - i,
{
    if i < 0 || i >= w.d.cols {
        Seq::empty()
    } else {
        step_text(w, i) + steps_text(w, i + 1)
    }
}

/// Whether the trace ends at a row without unknown whose right-hand side is not
/// zero: the system has no solution.
pub open spec fn ends_at_row<T: UnsignedInt>(
    tr: &SolveTrace,
    w: &Steps<T>,
    a: &Matrix<T>,
    b: &Vector<T>,
) -> bool {
    &&& exists|i: int|
        a.cols <= i < a.rows && w.bp.val_at(i) != 0 && (forall|k: int|
            a.cols <= k < i ==> w.bp.val_at(k) == 0) && tr.linear_solutions@
            == #[trigger] row_failure_text(i, w.bp.val_at(i))
    &&& is_unsolvable(a, b)
    &&& tr.vector_solution@.len() == 0
    &&& tr.final_solution@.len() == 0
}

/// Whether the trace ends at a congruence without solution: the system has no
/// solution.
pub open spec fn ends_at_congruence<T: UnsignedInt>(
    tr: &SolveTrace,
    w: &Steps<T>,
    a: &Matrix<T>,
    b: &Vector<T>,
) -> bool {
    &&& exists|sols: Seq<(int, int)>| #[trigger] fails_after(tr.linear_solutions@, &w.d, &w.bp, sols)
    &&& is_unsolvable(&w.d, &w.bp)
    &&& is_unsolvable(a, b)
    &&& tr.vector_solution@.len() == 0
    &&& tr.final_solution@.len() == 0
}

/// Whether the trace ends with the solutions of the system.
pub open spec fn ends_solved<T: UnsignedInt>(
    tr: &SolveTrace,
    w: &Steps<T>,
    a: &Matrix<T>,
    b: &Vector<T>,
) -> bool {
    &&& diagonal_solution(&w.d, &w.bp) is Some
    &&& is_diagonal_solution(&w.pre, &w.d, &w.bp)
    &&& a.cols > 0 ==> is_solution_lattice(&w.pre, &w.d, &w.bp)
    &&& w.l.is_image_of(&w.t, &w.pre)
    &&& a.cols > 0 ==> is_solution_lattice(&w.l, a, b)
    &&& tr.linear_solutions@ == "\\begin{align}"@ + steps_text(w, 0) + "\\end{align}"@
    &&& tr.vector_solution@ == vector_text(w)
    &&& tr.final_solution@ == final_text(w)
}

/// Whether the trace is that of the solution of the system `a * x = b` with the
/// steps `w`: the diagonalization and the diagonal system, and then the first row
/// without unknown whose right-hand side is not zero, or the congruences of the
/// diagonal up to the first without solution, or all of them with their solutions,
/// the solutions in vector form, and the solutions of the system.
pub open spec fn trace_of<T: UnsignedInt>(
    tr: &SolveTrace,
    w: &Steps<T>,
    a: &Matrix<T>,
    b: &Vector<T>,
) -> bool {
    &&& steps_of(w, a, b)
    &&& tr.diag@ == diag_text(w, a)
    &&& tr.scalar_system@ == system_text(w, b)
    &&& (ends_at_row(tr, w, a, b) || ends_at_congruence(tr, w, a, b) || ends_solved(tr, w, a, b))
}

/// The congruence of row `i` of the diagonal system, up to the sign of implication.
pub fn congruence_text<T: UnsignedInt>(d: &Matrix<T>, bp: &Vector<T>, i: usize) -> (s: String)
    requires
        d.wf(),
        i < d.rows,
        i < d.cols,
        bp@.len() == d.rows,
    ensures
        s@ == decimal(d.val_at(i as int, i as int)) + "x'_{"@ + decimal(i + 1) + "}&="@ + decimal(
            bp.val_at(i as int),
        ) + " &\\implies "@,
{
    let mut s = String::new();
    let ghost s0 = s@;
    push_number(&mut s, *d.entry(i, i));
    s.append("x'_{");
    push_decimal(&mut s, i as u128 + 1);
    s.append("}&=");
    push_number(&mut s, *bp.entry(i));
    s.append(" &\\implies ");
    proof {
        assert(s0 =~= Seq::<char>::empty());
        assert(s@ =~= decimal(d.val_at(i as int, i as int)) + "x'_{"@ + decimal(i + 1) + "}&="@
            + decimal(bp.val_at(i as int)) + " &\\implies "@);
    }
    s
}

/// The solutions of the congruence of the unknown `i`: the solution `x`, and the
/// multiples of `kern`, with the parameter of the number `j`, where `kern` is not
/// zero.
pub fn solution_text<T: UnsignedInt>(i: usize, x: T, kern: T, j: usize) -> (s: String)
    ensures
        s@ == "x'_{"@ + decimal(i + 1) + "}&="@ + decimal(x.val()) + (if kern.val() == 0 {
            "\\\\"@
        } else {
            "+"@ + decimal(kern.val()) + "a_{"@ + decimal(j as int) + "}\\\\"@
        }),
{
    let mut s = String::from_str("x'_{");
    push_decimal(&mut s, i as u128 + 1);
    s.append("}&=");
    push_number(&mut s, x);
    if kern.eq(T::zero()) {
        s.append("\\\\");
    } else {
        let ghost s1 = s@;
        s.append("+");
        push_number(&mut s, kern);
        s.append("a_{");
        push_decimal(&mut s, j as u128);
        s.append("}\\\\");
        proof {
            lemma_join(
                s1,
                "+"@,
                decimal(kern.val()),
                "a_{"@,
                decimal(j as int),
                "}\\\\"@,
                s@,
            );
        }
    }
    s
}

/// The free unknown `i`, with the parameter of the number `j`.
pub fn free_text(i: usize, j: usize) -> (s: String)
    ensures
        s@ == "&&x'_{"@ + decimal(i + 1) + "}&=a_{"@ + decimal(j as int) + "}\\\\"@,
{
    let mut s = String::from_str("&&x'_{");
    push_decimal(&mut s, i as u128 + 1);
    s.append("}&=a_{");
    push_decimal(&mut s, j as u128);
    s.append("}\\\\");
    s
}

/// The number of the parameter of the next kernel after the first `i` solutions:
/// one more than the number of kernels among them that are not zero.
pub open spec fn parameter_number(sols: Seq<(int, int)>, i: int) -> int
    decreases i,
{
    if i <= 0 {
        1
    } else {
        parameter_number(sols, i - 1) + (if sols[i - 1].1 != 0 {
            1int
        } else {
            0int
        })
    }
}

/// The congruence of row `i` of the diagonal system with the solutions `sols[i]`: a
/// solution, and the kernel that generates the others from it.
pub open spec fn solved_text<T: UnsignedInt>(
    d: &Matrix<T>,
    bp: &Vector<T>,
    sols: Seq<(int, int)>,
    i: int,
) -> Seq<char> {
    decimal(d.val_at(i, i)) + "x'_{"@ + decimal(i + 1) + "}&="@ + decimal(bp.val_at(i))
        + " &\\implies "@ + ("x'_{"@ + decimal(i + 1) + "}&="@ + decimal(sols[i].0) + (if sols[i].1
        == 0 {
        "\\\\"@
    } else {
        "+"@ + decimal(sols[i].1) + "a_{"@ + decimal(parameter_number(sols, i)) + "}\\\\"@
    }))
}

/// The first `i` congruences of the diagonal system with their solutions.
pub open spec fn solved_texts<T: UnsignedInt>(
    d: &Matrix<T>,
    bp: &Vector<T>,
    sols: Seq<(int, int)>,
    i: int,
) -> Seq<char>
    decreases i,
{
    if i <= 0 {
        Seq::empty()
    } else {
        solved_texts(d, bp, sols, i - 1) + solved_text(d, bp, sols, i - 1)
    }
}

/// Whether `sols` holds, for each of the first congruences of the diagonal system,
/// a solution below the modulus and a kernel below the modulus that generates its
/// other solutions.
pub open spec fn are_solutions<T: UnsignedInt>(
    d: &Matrix<T>,
    bp: &Vector<T>,
    sols: Seq<(int, int)>,
) -> bool {
    &&& sols.len() <= d.rows && sols.len() <= d.cols
    &&& forall|i: int|
        0 <= i < sols.len() ==> {
            &&& 0 <= (#[trigger] sols[i]).0 < T::modulus()
            &&& 0 <= sols[i].1 < T::modulus()
            &&& is_solution_set::<T>(d.val_at(i, i), bp.val_at(i), sols[i].0, sols[i].1)
            &&& scalar_solution(d.val_at(i, i), bp.val_at(i), T::modulus()) == Some(sols[i])
        }
}

/// Whether `text` holds the congruences of the diagonal system, those before the
/// first without solution with the solutions `sols`, and that one with the word
/// that it has none.
pub open spec fn fails_after<T: UnsignedInt>(
    text: Seq<char>,
    d: &Matrix<T>,
    bp: &Vector<T>,
    sols: Seq<(int, int)>,
) -> bool {
    let k = sols.len() as int;
    &&& are_solutions(d, bp, sols)
    &&& k < d.rows && k < d.cols
    &&& has_no_solution::<T>(d.val_at(k, k), bp.val_at(k))
    &&& scalar_solution(d.val_at(k, k), bp.val_at(k), T::modulus()) is None
    &&& text == "\\begin{align}"@ + solved_texts(d, bp, sols, k) + (decimal(d.val_at(k, k))
        + "x'_{"@ + decimal(k + 1) + "}&="@ + decimal(bp.val_at(k)) + " &\\implies "@)
        + "\\text{No solution!}&\\end{align}"@
}

/// Whether `text` holds all the congruences of the diagonal system with the
/// solutions `sols`.
pub open spec fn all_solved<T: UnsignedInt>(
    text: Seq<char>,
    d: &Matrix<T>,
    bp: &Vector<T>,
    sols: Seq<(int, int)>,
) -> bool {
    &&& are_solutions(d, bp, sols)
    &&& sols.len() == d.rows || sols.len() == d.cols
    &&& text == "\\begin{align}"@ + solved_texts(d, bp, sols, sols.len() as int)
        + "\\end{align}"@
}

/// Whether `text` holds the congruences of the diagonal system with the solutions
/// `sols`, up to the first without solution or, where each has one, all of them.
pub open spec fn solved_or_fails<T: UnsignedInt>(
    text: Seq<char>,
    d: &Matrix<T>,
    bp: &Vector<T>,
    sols: Seq<(int, int)>,
) -> bool {
    fails_after(text, d, bp, sols) || all_solved(text, d, bp, sols)
}

/// The texts of the solved congruences depend on their own solutions only.
pub proof fn lemma_solved_texts_push<T: UnsignedInt>(
    d: &Matrix<T>,
    bp: &Vector<T>,
    sols: Seq<(int, int)>,
    next: (int, int),
    i: int,
)
    requires
        0 <= i <= sols.len(),
    ensures
        parameter_number(sols.push(next), i) == parameter_number(sols, i),
        solved_texts(d, bp, sols.push(next), i) == solved_texts(d, bp, sols, i),
    decreases i,
{
    if i > 0 {
        lemma_solved_texts_push(d, bp, sols, next, i - 1);
        assert(sols.push(next)[i - 1] == sols[i - 1]);
    }
}

/// The parameters of the first `i` solutions number at most `i`.
pub proof fn lemma_parameter_number(sols: Seq<(int, int)>, i: int)
    requires
        0 <= i,
    ensures
        1 <= parameter_number(sols, i) <= i + 1,
    decreases i,
{
    if i > 0 {
        lemma_parameter_number(sols, i - 1);
    }
}

/// A diagonal system whose congruences all have solutions, and whose rows without
/// unknown have the right-hand side zero, has a solution.
pub proof fn lemma_all_solved<T: UnsignedInt>(
    d: &Matrix<T>,
    bp: &Vector<T>,
    sols: Seq<(int, int)>,
)
    requires
        d.wf(),
        d.is_diagonal(),
        bp@.len() == d.rows,
        are_solutions(d, bp, sols),
        sols.len() == d.rows || sols.len() == d.cols,
        forall|r: int| d.cols <= r < d.rows ==> bp.val_at(r) == 0,
    ensures
        !is_unsolvable(d, bp),
{
    let y = Seq::new(
        d.cols as nat,
        |i: int|
            if i < sols.len() {
                sols[i].0
            } else {
                0
            },
    );
    assert forall|r: int| 0 <= r < d.rows implies crate::modular::cong(
        #[trigger] d.apply_at(y, r),
        bp.vals()[r],
        T::modulus(),
    ) by {
        crate::diagonal::lemma_apply_diagonal(d, y, r);
        if r < d.cols {
            assert(r < sols.len());
            assert(is_solution_set::<T>(d.val_at(r, r), bp.val_at(r), sols[r].0, sols[r].1));
        }
    }
    assert(d.solved_by(y, bp.vals()));
}

/// The congruences of the diagonal system with their solutions, up to the first
/// without solution; where each has one, all of them.
pub fn failing_steps<T: UnsignedInt>(d: &Matrix<T>, bp: &Vector<T>) -> (s: String)
    requires
        d.wf(),
        bp@.len() == d.rows,
    ensures
        exists|sols: Seq<(int, int)>| solved_or_fails(s@, d, bp, sols),
{
    let mut s = String::from_str("\\begin{align}");
    let n: usize = d.min_dim();
    let total: usize = d.entries.len();
    proof {
        assert(n < usize::MAX) by (nonlinear_arith)
            requires
                d.rows * d.cols == total,
                total <= usize::MAX,
                n == d.rows || n == d.cols,
                n <= d.rows,
                n <= d.cols,
                usize::MAX >= 4,
        ;
    }
    let ghost mut sols: Seq<(int, int)> = Seq::empty();
    // Variable index for basis.
    let mut j: usize = 1;
    let mut i: usize = 0;
    while i < n
        invariant
            d.wf(),
            bp@.len() == d.rows,
            i <= n,
            n <= d.rows,
            n <= d.cols,
            n < usize::MAX,
            sols.len() == i,
            are_solutions(d, bp, sols),
            j == parameter_number(sols, i as int),
            s@ == "\\begin{align}"@ + solved_texts(d, bp, sols, i as int),
        decreases n - i,
    {
        let ghost before = s@;
        let head = congruence_text(d, bp, i);
        s.append(head.as_str());
        match solve_scalar_congruence(*d.entry(i, i), *bp.entry(i)) {
            // If there is no solution, then the whole system does not have a
            // solution.
            None => {
                let ghost mid = s@;
                s.append("\\text{No solution!}&\\end{align}");
                proof {
                    assert(s@ =~= "\\begin{align}"@ + solved_texts(d, bp, sols, i as int) + head@
                        + "\\text{No solution!}&\\end{align}"@);
                    assert(fails_after(s@, d, bp, sols));
                    assert(solved_or_fails(s@, d, bp, sols));
                }
                return s;
            },
            Some((x, kern)) => {
                let line = solution_text(i, x, kern, j);
                s.append(line.as_str());
                proof {
                    let next = (x.val(), kern.val());
                    let more = sols.push(next);
                    x.lemma_val_bound();
                    kern.lemma_val_bound();
                    lemma_parameter_number(sols, i as int);
                    lemma_solved_texts_push(d, bp, sols, next, i as int);
                    assert(more[i as int] == next);
                    assert(head@ + line@ =~= solved_text(d, bp, more, i as int));
                    assert(s@ =~= "\\begin{align}"@ + solved_texts(d, bp, more, i + 1)) by {
                        lemma_join2(before, head@, line@, s@);
                    }
                    assert forall|k: int| 0 <= k < more.len() implies {
                        &&& 0 <= (#[trigger] more[k]).0 < T::modulus()
                        &&& 0 <= more[k].1 < T::modulus()
                        &&& is_solution_set::<T>(
                            d.val_at(k, k),
                            bp.val_at(k),
                            more[k].0,
                            more[k].1,
                        )
                    } by {
                        if k < i {
                            assert(more[k] == sols[k]);
                        }
                    }
                    sols = more;
                }
                if !kern.eq(T::zero()) {
                    j += 1;
                }
            },
        }
        i += 1;
    }
    s.append("\\end{align}");
    proof {
        assert(all_solved(s@, d, bp, sols));
        assert(solved_or_fails(s@, d, bp, sols));
    }
    s
}

/// The congruences of the diagonal system with their solutions, and the free
/// unknowns, from the solutions `pre` of the system.
pub fn solved_steps<T: UnsignedInt>(w: &Steps<T>) -> (s: String)
    requires
        w.d.wf(),
        w.bp@.len() == w.d.rows,
        w.pre.wf(),
        w.pre.offset@.len() == w.d.cols,
    ensures
        s@ == "\\begin{align}"@ + steps_text(w, 0) + "\\end{align}"@,
{
    let mut s = String::from_str("\\begin{align}");
    let ghost head = s@;
    let n: usize = w.d.cols;
    let mut i: usize = 0;
    while i < n
        invariant
            w.d.wf(),
            w.bp@.len() == w.d.rows,
            w.pre.wf(),
            w.pre.offset@.len() == w.d.cols,
            n == w.d.cols,
            i <= n,
            s@ + steps_text(w, i as int) == head + steps_text(w, 0),
        decreases n - i,
    {
        let ghost before = s@;
        let (kern, j) = find_generator(&w.pre, i);
        if i < w.d.rows {
            let a = congruence_text(&w.d, &w.bp, i);
            let b = solution_text(i, *w.pre.offset.entry(i), kern, j);
            s.append(a.as_str());
            s.append(b.as_str());
            proof {
                lemma_join2(before, a@, b@, s@);
                assert(a@ + b@ =~= step_text(w, i as int));
            }
        } else {
            let a = free_text(i, j);
            s.append(a.as_str());
        }
        proof {
            assert(s@ + steps_text(w, i + 1) =~= before + steps_text(w, i as int));
        }
        i += 1;
    }
    let ghost body = s@;
    s.append("\\end{align}");
    proof {
        assert(steps_text(w, n as int) =~= Seq::<char>::empty());
        assert(body =~= body + steps_text(w, n as int));
    }
    s
}

/// The trace of the solution of the system `a * x = b` over the ring.
pub fn trace<T: UnsignedInt>(a: Matrix<T>, b: &Vector<T>) -> (tr: SolveTrace)
    requires
        a.wf(),
        a.rows == b@.len(),
        a.rows * a.rows <= usize::MAX,
        a.cols * a.cols <= usize::MAX,
    ensures
        exists|w: Steps<T>| trace_of(&tr, &w, &a, b),
{
    let a_tex = a.to_tex();
    let ghost a0 = a;
    let mut d = a;
    let (s, t) = diagonalize(&mut d);
    let d_tex = d.to_tex();
    let s_tex = s.to_tex();
    let t_tex = t.to_tex();
    let ld = labelled(d_tex.as_str(), "D");
    let ls = labelled(s_tex.as_str(), "S");
    let la = labelled(a_tex.as_str(), "A");
    let lt = labelled(t_tex.as_str(), "T");
    let mut diag = String::new();
    diag.append(ld.as_str());
    diag.append("=");
    diag.append(ls.as_str());
    diag.append(la.as_str());
    diag.append(lt.as_str());
    // Transform the vector b.
    let bp = s.mul_vec(b);
    let b_tex = b.to_tex();
    let lb = labelled(b_tex.as_str(), "b");
    let bp_tex = bp.to_tex();
    let mut scalar_system = String::new();
    scalar_system.append(ld.as_str());
    scalar_system.append("\\mathbf{x'}=");
    scalar_system.append(ls.as_str());
    scalar_system.append(lb.as_str());
    scalar_system.append("=");
    scalar_system.append(bp_tex.as_str());
    let min_dim: usize = d.min_dim();
    match first_nonzero(&bp, min_dim) {
        Some(i) => {
            let mut linear_solutions = String::from_str("\\text{Row ");
            push_decimal(&mut linear_solutions, i as u128 + 1);
            linear_solutions.append(": } 0=");
            push_number(&mut linear_solutions, *bp.entry(i));
            linear_solutions.append("\\implies \\text{No solution}");
            let tr = SolveTrace {
                diag,
                scalar_system,
                linear_solutions,
                vector_solution: String::new(),
                final_solution: String::new(),
            };
            let none = AffineLattice::<T>::empty();
            let ghost w = Steps { d, s, t, bp, pre: none, l: none };
            proof {
                assert(diag@ =~= diag_text(&w, &a0));
                assert(scalar_system@ =~= system_text(&w, b));
                lemma_row_unsolvable(&d, &bp, i as int);
                lemma_no_solution(&a0, b, &d, &s, &t, &bp);
                assert(tr.linear_solutions@ == row_failure_text(i as int, bp.val_at(i as int)));
                assert(ends_at_row(&tr, &w, &a0, b));
                assert(trace_of(&tr, &w, &a0, b));
            }
            return tr;
        },
        None => {},
    }
    let pre = solve_diagonal(&d, &bp);
    if pre.is_empty() && d.cols > 0 {
        let linear_solutions = failing_steps(&d, &bp);
        let tr = SolveTrace {
            diag,
            scalar_system,
            linear_solutions,
            vector_solution: String::new(),
            final_solution: String::new(),
        };
        let ghost w = Steps { d, s, t, bp, pre, l: pre };
        proof {
            assert(diag@ =~= diag_text(&w, &a0));
            assert(scalar_system@ =~= system_text(&w, b));
            lemma_no_solution(&a0, b, &d, &s, &t, &bp);
            let sols = choose|sols: Seq<(int, int)>|
                solved_or_fails(tr.linear_solutions@, &d, &bp, sols);
            if all_solved(tr.linear_solutions@, &d, &bp, sols) {
                lemma_all_solved(&d, &bp, sols);
            }
            assert(fails_after(tr.linear_solutions@, &w.d, &w.bp, sols));
            assert(ends_at_congruence(&tr, &w, &a0, b));
            assert(trace_of(&tr, &w, &a0, b));
        }
        return tr;
    }
    let l = pre.transformed(&t);
    let ghost w = Steps { d, s, t, bp, pre, l };
    let steps = Steps { d, s, t, bp, pre, l };
    let linear_solutions = solved_steps(&steps);
    let x_old = steps.pre.to_tex_brace();
    let mut vector_solution = String::from_str("\\mathbf{x'}=");
    vector_solution.append(x_old.as_str());
    let lx = labelled(x_old.as_str(), "x'");
    let l_tex = steps.l.to_tex();
    let mut final_solution = String::from_str("\\mathbf{x}=");
    final_solution.append(lt.as_str());
    final_solution.append(lx.as_str());
    final_solution.append("=");
    final_solution.append(l_tex.as_str());
    let tr = SolveTrace { diag, scalar_system, linear_solutions, vector_solution, final_solution };
    proof {
        assert(w == steps);
        assert(diag@ =~= diag_text(&w, &a0));
        assert(scalar_system@ =~= system_text(&w, b));
        assert(tr.final_solution@ =~= final_text(&w));
        if a0.cols > 0 {
            lemma_solution_lattice(&a0, b, &w.d, &w.s, &w.t, &w.bp, &w.pre, &w.l);
        }
        assert(ends_solved(&tr, &w, &a0, b));
        assert(trace_of(&tr, &w, &a0, b));
    }
    tr
}

/// A diagonal system with a row without unknown whose right-hand side is not zero
/// has no solution.
pub proof fn lemma_row_unsolvable<T: UnsignedInt>(d: &Matrix<T>, bp: &Vector<T>, i: int)
    requires
        d.is_diagonal(),
        bp@.len() == d.rows,
        d.cols <= i < d.rows,
        bp.val_at(i) != 0,
    ensures
        is_unsolvable(d, bp),
{
    T::lemma_modulus();
    assert forall|y: Seq<int>| !d.solved_by(y, bp.vals()) by {
        if d.solved_by(y, bp.vals()) {
            crate::diagonal::lemma_apply_diagonal(d, y, i);
            assert(crate::modular::cong(d.apply_at(y, i), bp.vals()[i], T::modulus()));
            bp@[i].lemma_val_bound();
            crate::modular::lemma_mod_small(bp.val_at(i), T::modulus());
            crate::modular::lemma_mod_small(0, T::modulus());
            assert(false);
        }
    }
}

/// The number that a word writes: digits from its first character to its last,
/// with or without a plus sign before them; `None` where the word is not of this
/// form.
pub open spec fn entry_value(word: Seq<char>) -> Option<int> {
    let start = if word.len() > 0 && is_code(word[0], 43) {
        1int
    } else {
        0int
    };
    if start < word.len() && digits_end(word, start) == word.len() {
        Some(digits_value(word, start, word.len() as int))
    } else {
        None
    }
}

/// Whether a word writes a number.
pub open spec fn writes_number(word: Seq<char>) -> bool {
    entry_value(word) is Some
}

/// The number that a word writes, reduced in the ring of `T`.
pub open spec fn number<T: UnsignedInt>(word: Seq<char>) -> int {
    entry_value(word)->Some_0 % T::modulus()
}

/// The number that a word writes, reduced in the ring of `T`; `None` where it
/// writes none.
pub fn parse_entry<T: UnsignedInt>(word: &str) -> (r: Option<T>)
    ensures
        r is Some <==> writes_number(word@),
        r matches Some(v) ==> v.val() == number::<T>(word@),
{
    let ghost md = T::modulus();
    let ascii: bool = word.is_ascii();
    let n: usize = word.unicode_len();
    let start: usize = if n > 0 && code(word, ascii, 0) == 43 {
        1
    } else {
        0
    };
    if start >= n {
        return None;
    }
    let ten: T = T::from_u8(10);
    let mut acc: T = T::zero();
    let mut i: usize = start;
    proof {
        T::lemma_modulus();
        lemma_mod_small(0, md);
    }
    while i < n
        invariant
            start <= i <= n,
            start <= 1,
            start == (if word@.len() > 0 && is_code(word@[0], 43) {
                1int
            } else {
                0int
            }),
            n == word@.len(),
            ascii ==> word.is_ascii(),
            md == T::modulus(),
            md > 1,
            ten.val() == 10int % md,
            forall|k: int| start <= k < i ==> is_digit(#[trigger] word@[k]),
            acc.val() == digits_value(word@, start as int, i as int) % md,
        decreases n - i,
    {
        let c: u32 = code(word, ascii, i);
        if c < 48 || c > 57 {
            proof {
                lemma_digits_stop(word@, start as int, i as int);
            }
            return None;
        }
        let d: T = T::from_u8((c - 48) as u8);
        let next: T = acc.mul(ten).add(d);
        proof {
            let before = digits_value(word@, start as int, i as int);
            let dv = (c - 48) as int;
            lemma_cong_mod(before, md);
            lemma_cong_mod(10, md);
            lemma_cong_ops(acc.val(), before, ten.val(), 10, md);
            lemma_cong_mod(acc.val() * ten.val(), md);
            lemma_cong_mod(dv, md);
            lemma_cong_ops((acc.val() * ten.val()) % md, before * 10, d.val(), dv, md);
            lemma_cong_mod(((acc.val() * ten.val()) % md) + d.val(), md);
            assert(digits_value(word@, start as int, i + 1) == before * 10 + dv);
        }
        acc = next;
        i += 1;
    }
    proof {
        lemma_digits_stop(word@, start as int, n as int);
    }
    Some(acc)
}

/// The entries that `a` and `b` write, row by row, those of `b` as one more column.
pub open spec fn entries_of(a: &Matrix<String>, b: &Vector<String>) -> Seq<Seq<Seq<char>>> {
    Seq::new(
        a.rows as nat,
        |i: int|
            Seq::new(
                a.cols as nat + 1,
                |j: int|
                    if j < a.cols {
                        a.at(i, j)@
                    } else {
                        b@[i]@
                    },
            ),
    )
}

/// The number of columns of the matrix that a table of entries writes: one less than
/// the first row has entries.
pub open spec fn columns(t: Seq<Seq<Seq<char>>>) -> int {
    t[0].len() - 1
}

/// Whether every row of the table has as many entries as the first.
pub open spec fn is_even(t: Seq<Seq<Seq<char>>>) -> bool {
    forall|i: int| 0 <= i < t.len() ==> (#[trigger] t[i]).len() == t[0].len()
}

/// Whether every entry of the matrix before the entry of row `r` and column `c`,
/// row by row, writes a number.
pub open spec fn numbers_before(t: Seq<Seq<Seq<char>>>, r: int, c: int) -> bool {
    forall|i: int, j: int|
        0 <= i < t.len() && 0 <= j < columns(t) && (i < r || (i == r && j < c))
            ==> writes_number(#[trigger] t[i][j])
}

/// Whether every right-hand side of a row before row `r` writes a number.
pub open spec fn sides_before(t: Seq<Seq<Seq<char>>>, r: int) -> bool {
    forall|i: int| 0 <= i < r && i < t.len() ==> writes_number(#[trigger] t[i][columns(t)])
}

/// Whether `m` and `v` hold the numbers that the entries of the table write.
pub open spec fn reads<T: UnsignedInt>(
    t: Seq<Seq<Seq<char>>>,
    m: &Matrix<T>,
    v: &Vector<T>,
) -> bool {
    &&& m.wf() && m.rows == t.len() && m.cols == columns(t) && v@.len() == t.len()
    &&& numbers_before(t, t.len() as int, 0)
    &&& sides_before(t, t.len() as int)
    &&& forall|i: int, j: int| m.has(i, j) ==> #[trigger] m.val_at(i, j) == number::<T>(t[i][j])
    &&& forall|i: int| 0 <= i < v@.len() ==> #[trigger] v.val_at(i) == number::<T>(t[i][columns(t)])
}

/// Whether the entry of row `r` and column `c` is the first that writes no number,
/// where the entries of the matrix come first, row by row, and the right-hand sides
/// after them.
pub open spec fn first_failure(t: Seq<Seq<Seq<char>>>, r: int, c: int) -> bool {
    &&& 0 <= r < t.len() && 0 <= c <= columns(t)
    &&& !writes_number(t[r][c])
    &&& if c < columns(t) {
        numbers_before(t, r, c)
    } else {
        numbers_before(t, t.len() as int, 0) && sides_before(t, r)
    }
}

/// Whether every entry of `a` before the entry of row `r` and column `c`, row by
/// row, writes a number.
pub open spec fn entries_before(a: &Matrix<String>, r: int, c: int) -> bool {
    forall|i: int, j: int|
        a.has(i, j) && (i < r || (i == r && j < c)) ==> writes_number(
            (#[trigger] a.at(i, j))@,
        )
}

/// The matrix of the numbers that the entries of `a` write, or the place of the
/// first entry, row by row, that writes none.
pub fn read_matrix<T: UnsignedInt>(a: &Matrix<String>) -> (r: Result<Matrix<T>, (usize, usize)>)
    requires
        a.wf(),
    ensures
        match r {
            Ok(m) => {
                &&& m.wf() && m.same_dims(a)
                &&& entries_before(a, a.rows as int, 0)
                &&& forall|i: int, j: int|
                    m.has(i, j) ==> #[trigger] m.val_at(i, j) == number::<T>(a.at(i, j)@)
            },
            Err((i, j)) => a.has(i as int, j as int) && !writes_number(
                a.at(i as int, j as int)@,
            ) && entries_before(a, i as int, j as int),
        },
{
    let zero: T = T::zero();
    let total: usize = a.entries.len();
    assert(a.rows * a.cols == total);
    let mut m = Matrix::<T>::uniform(a.rows, a.cols, zero);
    let mut i: usize = 0;
    while i < a.rows
        invariant
            a.wf(),
            m.wf(),
            m.same_dims(a),
            i <= a.rows,
            entries_before(a, i as int, 0),
            forall|r: int, c: int|
                m.has(r, c) && r < i ==> #[trigger] m.val_at(r, c) == number::<T>(a.at(r, c)@),
        decreases a.rows - i,
    {
        let mut j: usize = 0;
        while j < a.cols
            invariant
                a.wf(),
                m.wf(),
                m.same_dims(a),
                i < a.rows,
                j <= a.cols,
                entries_before(a, i as int, j as int),
                forall|r: int, c: int|
                    m.has(r, c) && (r < i || (r == i && c < j)) ==> #[trigger] m.val_at(r, c)
                        == number::<T>(a.at(r, c)@),
            decreases a.cols - j,
        {
            match parse_entry::<T>(a.entry(i, j).as_str()) {
                Some(v) => {
                    let ghost prev = m;
                    m.set(i, j, v);
                    proof {
                        assert forall|r: int, c: int|
                            m.has(r, c) && (r < i || (r == i && c < j + 1)) implies #[trigger] m.val_at(
                            r,
                            c,
                        ) == number::<T>(a.at(r, c)@) by {
                            if r != i || c != j {
                                assert(m.at(r, c) == prev.at(r, c));
                                assert(prev.val_at(r, c) == number::<T>(a.at(r, c)@));
                            }
                        }
                    }
                },
                None => {
                    return Err((i, j));
                },
            }
            j += 1;
        }
        i += 1;
    }
    Ok(m)
}

/// The vector of the numbers that the entries of `b` write, or the index of the
/// first entry that writes none.
pub fn read_vector<T: UnsignedInt>(b: &Vector<String>) -> (r: Result<Vector<T>, usize>)
    ensures
        match r {
            Ok(v) => {
                &&& v@.len() == b@.len()
                &&& forall|k: int| 0 <= k < b@.len() ==> writes_number(#[trigger] b@[k]@)
                &&& forall|k: int| 0 <= k < v@.len() ==> #[trigger] v.val_at(k) == number::<T>(b@[k]@)
            },
            Err(i) => {
                &&& i < b@.len() && !writes_number(b@[i as int]@)
                &&& forall|k: int| 0 <= k < i ==> writes_number(#[trigger] b@[k]@)
            },
        },
{
    let mut v = Vector::<T>::zero(b.entries.len());
    let mut i: usize = 0;
    while i < b.entries.len()
        invariant
            i <= b@.len(),
            v@.len() == b@.len(),
            forall|k: int| 0 <= k < i ==> writes_number(#[trigger] b@[k]@),
            forall|k: int| 0 <= k < i ==> #[trigger] v.val_at(k) == number::<T>(b@[k]@),
        decreases b@.len() - i,
    {
        match parse_entry::<T>(b.entries[i].as_str()) {
            Some(x) => {
                let ghost prev = v;
                v.set(i, x);
                proof {
                    assert forall|k: int| 0 <= k < i + 1 implies #[trigger] v.val_at(k) == number::<T>(
                        b@[k]@,
                    ) by {
                        if k < i {
                            assert(v@[k] == prev@[k]);
                            assert(prev.val_at(k) == number::<T>(b@[k]@));
                        }
                    }
                }
            },
            None => {
                return Err(i);
            },
        }
        i += 1;
    }
    Ok(v)
}

/// Whether `tr` is the trace of the solution of the system that the table writes.
pub open spec fn traces<T: UnsignedInt>(tr: &SolveTrace, t: Seq<Seq<Seq<char>>>) -> bool {
    exists|m: Matrix<T>, v: Vector<T>, w: Steps<T>|
        reads(t, &m, &v) && #[trigger] trace_of(tr, &w, &m, &v)
}

/// Whether `e` is the message on the first entry of the table that writes no number.
pub open spec fn reports_failure(e: Seq<char>, t: Seq<Seq<Seq<char>>>) -> bool {
    exists|r: int, c: int| #[trigger]
        first_failure(t, r, c) && e == "Failed to parse entry ("@ + decimal(r + 1) + ", "@
            + decimal(c + 1) + ")."@
}

/// Whether `r` is what the solution of the system that the table writes gives over
/// the ring of `T`: its trace, or the message on the first entry that writes no
/// number.
pub open spec fn solves_table<T: UnsignedInt>(
    r: Result<SolveTrace, String>,
    t: Seq<Seq<Seq<char>>>,
) -> bool {
    match r {
        Ok(tr) => traces::<T>(&tr, t),
        Err(e) => reports_failure(e@, t),
    }
}

/// Reads the entries of the matrix and of the vector of the right-hand sides, and
/// gives the trace of the solution of their system over the ring of `T`. It is an
/// error, with its place, where an entry writes no number.
pub fn solve_congruences_impl<T: UnsignedInt>(a: &Matrix<String>, b: &Vector<String>) -> (r: Result<
    SolveTrace,
    String,
>)
    requires
        a.wf(),
        a.rows == b@.len(),
        a.rows > 0,
        a.rows * a.rows <= usize::MAX,
        a.cols * a.cols <= usize::MAX,
    ensures
        solves_table::<T>(r, entries_of(a, b)),
{
    let ghost t = entries_of(a, b);
    let m = match read_matrix::<T>(a) {
        Ok(m) => m,
        Err((i, j)) => {
            proof {
                assert(t[i as int][j as int] == a.at(i as int, j as int)@);
                assert forall|r: int, c: int|
                    0 <= r < t.len() && 0 <= c < columns(t) && (r < i || (r == i && c < j))
                    implies writes_number(#[trigger] t[r][c]) by {
                    assert(a.has(r, c));
                    assert(t[r][c] == a.at(r, c)@);
                }
                assert(first_failure(t, i as int, j as int));
            }
            return Err(entry_error(i, j));
        },
    };
    proof {
        assert forall|r: int, c: int|
            0 <= r < t.len() && 0 <= c < columns(t) implies writes_number(
            #[trigger] t[r][c],
        ) by {
            assert(a.has(r, c));
            assert(t[r][c] == a.at(r, c)@);
        }
    }
    let v = match read_vector::<T>(b) {
        Ok(v) => v,
        Err(i) => {
            assert(t[i as int][a.cols as int] == b@[i as int]@);
            assert forall|k: int| 0 <= k < i implies writes_number(
                #[trigger] t[k][columns(t)],
            ) by {
                assert(t[k][a.cols as int] == b@[k]@);
            }
            assert(first_failure(t, i as int, a.cols as int));
            return Err(entry_error(i, a.cols));
        },
    };
    let ghost gm = m;
    let tr = trace(m, &v);
    proof {
        let w = choose|w: Steps<T>| trace_of(&tr, &w, &gm, &v);
        assert(trace_of(&tr, &w, &gm, &v));
        assert forall|k: int| 0 <= k < t.len() implies writes_number(
            #[trigger] t[k][columns(t)],
        ) by {
            assert(t[k][a.cols as int] == b@[k]@);
        }
        assert forall|i: int, j: int| gm.has(i, j) implies #[trigger] gm.val_at(i, j) == number::<T>(
            t[i][j],
        ) by {
            assert(t[i][j] == a.at(i, j)@);
        }
        assert forall|i: int| 0 <= i < v@.len() implies #[trigger] v.val_at(i) == number::<T>(
            t[i][columns(t)],
        ) by {
            assert(t[i][a.cols as int] == b@[i]@);
        }
        assert(reads(t, &gm, &v));
    }
    Ok(tr)
}

/// The words of each line of a text.
pub open spec fn table(s: Seq<char>) -> Seq<Seq<Seq<char>>> {
    Seq::new(lines_from(s, 0).len(), |i: int| words_from(lines_from(s, 0)[i], 0))
}

/// Whether row `i` is the first of the table that has another number of entries
/// than the first row.
pub open spec fn first_uneven(t: Seq<Seq<Seq<char>>>, i: int) -> bool {
    &&& 0 <= i < t.len() && t[i].len() != t[0].len()
    &&& forall|k: int| 0 <= k < i ==> (#[trigger] t[k]).len() == t[0].len()
}

/// Whether a system of this many rows and columns is too large for this machine.
pub open spec fn too_many(rows: int, cols: int) -> bool {
    rows * rows > usize::MAX || cols * cols > usize::MAX
}

/// What the solution of the system that a table writes gives over the ring of the
/// width `bit`.
pub open spec fn solves_text(r: Result<SolveTrace, String>, t: Seq<Seq<Seq<char>>>, bit: Bitness) -> bool {
    if t.len() == 0 || t[0].len() <= 1 {
        r matches Err(e) && e@ == "Empty matrix."@
    } else if too_many(t.len() as int, columns(t)) {
        r matches Err(e) && e@ == "The matrix is too large."@
    } else if !is_even(t) {
        r matches Err(e) && (exists|i: int| #[trigger]
            first_uneven(t, i) && e@ == "Row "@ + decimal(i + 1)
                + " has a different number of entries than the first row."@)
    } else {
        match bit {
            Bitness::U8 => solves_table::<u8>(r, t),
            Bitness::U16 => solves_table::<u16>(r, t),
            Bitness::U32 => solves_table::<u32>(r, t),
            Bitness::U64 => solves_table::<u64>(r, t),
            Bitness::U128 => solves_table::<u128>(r, t),
        }
    }
}

/// The trace of the solution of the system that a text writes, over the ring of the
/// width `bit`: each line of the text is a row of the matrix, with its right-hand
/// side as the last entry, and the entries have white space between them. It is an
/// error where the text has no line or the first line fewer than two entries, where
/// a line has another number of entries than the first, where an entry writes no
/// number, and where the system is too large for this machine. An entry is reduced
/// in the ring.
pub fn solve_congruences(matrix_str: String, bit: Bitness) -> (r: Result<SolveTrace, String>)
    ensures
        solves_text(r, table(matrix_str@), bit),
{
    let ghost t = table(matrix_str@);
    let lines = split_lines(matrix_str.as_str());
    // The number of rows is the number of lines.
    let rows: usize = lines.len();
    assert(texts(lines@).len() == rows);
    if rows == 0 {
        return Err(String::from_str("Empty matrix."));
    }
    // The number of columns is one less than the number of entries of the first line.
    let first = split_words(lines[0].as_str());
    assert(texts(lines@)[0] == lines@[0]@);
    assert(texts(first@).len() == first@.len());
    if first.len() <= 1 {
        return Err(String::from_str("Empty matrix."));
    }
    let cols: usize = first.len() - 1;
    if rows.checked_mul(rows).is_none() || cols.checked_mul(cols).is_none() {
        return Err(String::from_str("The matrix is too large."));
    }
    let mut entries: Vec<String> = Vec::new();
    let mut sides: Vec<String> = Vec::new();
    let mut i: usize = 0;
    while i < rows
        invariant
            i <= rows,
            rows == lines@.len(),
            t == table(matrix_str@),
            texts(lines@) == lines_from(matrix_str@, 0),
            t.len() == rows,
            t[0].len() == cols + 1,
            rows * rows <= usize::MAX,
            cols * cols <= usize::MAX,
            1 <= cols < usize::MAX,
            entries@.len() == i * cols,
            sides@.len() == i,
            forall|k: int| 0 <= k < i ==> (#[trigger] t[k]).len() == cols + 1,
            forall|k: int, j: int|
                0 <= k < i && 0 <= j < cols ==> (#[trigger] entries@[k * cols + j])@ == t[k][j],
            forall|k: int| 0 <= k < i ==> (#[trigger] sides@[k])@ == t[k][cols as int],
        decreases rows - i,
    {
        let words = split_words(lines[i].as_str());
        proof {
            assert(texts(lines@)[i as int] == lines@[i as int]@);
            assert(texts(words@).len() == words@.len());
            assert(t[i as int] == texts(words@));
        }
        // Has this row as many entries as the first?
        if words.len() != cols + 1 {
            let mut msg = String::from_str("Row ");
            push_decimal(&mut msg, i as u128 + 1);
            msg.append(" has a different number of entries than the first row.");
            proof {
                assert(first_uneven(t, i as int));
                assert(!is_even(t));
                assert(!too_many(t.len() as int, columns(t)));
                assert(msg@ == "Row "@ + decimal(i + 1)
                    + " has a different number of entries than the first row."@);
            }
            return Err(msg);
        }
        let ghost before = entries@;
        let mut j: usize = 0;
        proof {
            assert(i * cols + cols <= usize::MAX) by (nonlinear_arith)
                requires
                    0 <= i < rows,
                    rows * rows <= usize::MAX,
                    cols * cols <= usize::MAX,
                    0 <= cols,
            ;
        }
        while j < cols
            invariant
                j <= cols,
                i < rows,
                words@.len() == cols + 1,
                entries@.len() == i * cols + j,
                i * cols + cols <= usize::MAX,
                before.len() == i * cols,
                forall|k: int| 0 <= k < before.len() ==> entries@[k] == before[k],
                forall|c: int| 0 <= c < j ==> (#[trigger] entries@[i * cols + c])@ == words@[c]@,
            decreases cols - j,
        {
            let ghost prev = entries@;
            entries.push(words[j].clone());
            proof {
                assert(entries@[i * cols + j]@ == words@[j as int]@);
                assert forall|c: int| 0 <= c < j + 1 implies (#[trigger] entries@[i * cols + c])@
                    == words@[c]@ by {
                    if c < j {
                        assert(entries@[i * cols + c] == prev[i * cols + c]);
                    }
                }
            }
            j += 1;
        }
        let ghost sides_before = sides@;
        sides.push(words[cols].clone());
        proof {
            assert((i + 1) * cols == i * cols + cols) by (nonlinear_arith);
            assert forall|k: int, c: int| 0 <= k < i + 1 && 0 <= c < cols implies (
            #[trigger] entries@[k * cols + c])@ == t[k][c] by {
                if k < i {
                    assert(k * cols + c < i * cols) by (nonlinear_arith)
                        requires
                            0 <= k < i,
                            0 <= c < cols,
                    ;
                    assert(entries@[k * cols + c] == before[k * cols + c]);
                } else {
                    assert(texts(words@)[c] == words@[c]@);
                }
            }
            assert forall|k: int| 0 <= k < i + 1 implies (#[trigger] sides@[k])@ == t[k][cols as int] by {
                if k < i {
                    assert(sides@[k] == sides_before[k]);
                } else {
                    assert(texts(words@)[cols as int] == words@[cols as int]@);
                }
            }
        }
        i += 1;
    }
    let a = Matrix::<String> { rows, cols, entries };
    let b = Vector::<String> { entries: sides };
    proof {
        assert(a.wf());
        assert forall|r: int, c: int| a.has(r, c) implies a.at(r, c)@ == t[r][c] by {
            crate::matrix::lemma_flat_index(r, c, rows as int, cols as int);
        }
        assert forall|k: int| 0 <= k < t.len() implies #[trigger] entries_of(&a, &b)[k] =~= t[k] by {
            assert forall|c: int| 0 <= c < cols + 1 implies entries_of(&a, &b)[k][c] == t[k][c] by {
                if c < cols {
                    assert(a.has(k, c));
                }
            }
        }
        assert(entries_of(&a, &b) =~= t);
        assert(is_even(t));
        assert(!too_many(t.len() as int, columns(t)));
    }
    match bit {
        Bitness::U8 => solve_congruences_impl::<u8>(&a, &b),
        Bitness::U16 => solve_congruences_impl::<u16>(&a, &b),
        Bitness::U32 => solve_congruences_impl::<u32>(&a, &b),
        Bitness::U64 => solve_congruences_impl::<u64>(&a, &b),
        Bitness::U128 => solve_congruences_impl::<u128>(&a, &b),
    }
}

} // verus!
