//! Vectors, matrices and lattices in LaTeX notation.

use vstd::prelude::*;
use vstd::string::StringExecFns;
use crate::numbers::UnsignedInt;
use crate::text::{decimal, push_decimal};
use crate::vector::Vector;
use crate::matrix::Matrix;
use crate::lattice::AffineLattice;

verus! {

/// The decimal notation of the representative `v` of a ring element modulo `m`, as a
/// negative number where its highest bit is set.
pub open spec fn signed_decimal(v: int, m: int) -> Seq<char> {
    if 2 * v >= m {
        "-"@ + decimal(m - v)
    } else {
        decimal(v)
    }
}

/// Writes the decimal notation of the representative of `x` to the end of the text.
pub fn push_number<T: UnsignedInt>(s: &mut String, x: T)
    ensures
        final(s)@ == old(s)@ + decimal(x.val()),
{
    push_decimal(s, x.to_u128());
}

/// Writes the ring element to the end of the text, as a negative number where its
/// highest bit is set.
pub fn push_signed<T: UnsignedInt>(s: &mut String, x: T)
    ensures
        final(s)@ == old(s)@ + signed_decimal(x.val(), T::modulus()),
{
    proof {
        T::lemma_modulus();
        x.lemma_val_bound();
    }
    if x.print_negative() {
        let ghost before = s@;
        s.append("-");
        let y: T = T::zero().sub(x);
        proof {
            crate::modular::lemma_cong_add_multiple(-x.val(), 1, T::modulus());
            crate::modular::lemma_mod_small(T::modulus() - x.val(), T::modulus());
        }
        push_number(s, y);
        assert(s@ =~= before + ("-"@ + decimal(T::modulus() - x.val())));
    } else {
        push_number(s, x);
    }
}

/// The entries of a vector from index `n` on, each followed by the end of its line.
pub open spec fn tex_entries(v: Seq<int>, n: int, m: int) -> Seq<char>
    decreases v.len() - n,
{
    if n < 0 || n >= v.len() {
        Seq::empty()
    } else {
        signed_decimal(v[n], m) + "\\\\"@ + tex_entries(v, n + 1, m)
    }
}

/// A vector in LaTeX notation: a column of its entries.
pub open spec fn tex_vector(v: Seq<int>, m: int) -> Seq<char> {
    "\\left[\\begin{array}{}"@ + tex_entries(v, 0, m) + "\\end{array}\\right]"@
}

impl<T: UnsignedInt> Vector<T> {
    /// The vector in LaTeX notation.
    pub fn to_tex(&self) -> (s: String)
        ensures
            s@ == tex_vector(self.vals(), T::modulus()),
    {
        let ghost md = T::modulus();
        let ghost v = self.vals();
        let mut s = String::from_str("\\left[\\begin{array}{}");
        let ghost head = s@;
        let n: usize = self.entries.len();
        let mut i: usize = 0;
        while i < n
            invariant
                i <= n,
                n == v.len(),
                v == self.vals(),
                md == T::modulus(),
                s@ + tex_entries(v, i as int, md) == head + tex_entries(v, 0, md),
            decreases n - i,
        {
            let ghost before = s@;
            push_signed(&mut s, self.entries[i]);
            s.append("\\\\");
            proof {
                assert(v[i as int] == self.entries@[i as int].val());
                assert(s@ + tex_entries(v, i + 1, md) =~= before + tex_entries(v, i as int, md));
            }
            i += 1;
        }
        let ghost body = s@;
        s.append("\\end{array}\\right]");
        proof {
            assert(tex_entries(v, n as int, md) =~= Seq::<char>::empty());
            assert(body =~= body + tex_entries(v, n as int, md));
        }
        s
    }
}

/// The entries of row `r` of a matrix from column `c` on, with ` & ` between them.
pub open spec fn tex_row<T: UnsignedInt>(a: &Matrix<T>, r: int, c: int) -> Seq<char>
    decreases a.cols - c,
{
    if c < 0 || c >= a.cols {
        Seq::empty()
    } else if c + 1 == a.cols {
        signed_decimal(a.val_at(r, c), T::modulus())
    } else {
        signed_decimal(a.val_at(r, c), T::modulus()) + " & "@ + tex_row(a, r, c + 1)
    }
}

/// The rows of a matrix from row `r` on, each followed by the end of its line.
pub open spec fn tex_rows<T: UnsignedInt>(a: &Matrix<T>, r: int) -> Seq<char>
    decreases a.rows - r,
{
    if r < 0 || r >= a.rows {
        Seq::empty()
    } else {
        tex_row(a, r, 0) + "\\\\"@ + tex_rows(a, r + 1)
    }
}

/// A matrix in LaTeX notation.
pub open spec fn tex_matrix<T: UnsignedInt>(a: &Matrix<T>) -> Seq<char> {
    "\\left[\\begin{array}{}"@ + tex_rows(a, 0) + "\\end{array}\\right]"@
}

impl<T: UnsignedInt> Matrix<T> {
    /// The matrix in LaTeX notation.
    pub fn to_tex(&self) -> (s: String)
        requires
            self.wf(),
        ensures
            s@ == tex_matrix(self),
    {
        let mut s = String::from_str("\\left[\\begin{array}{}");
        let ghost head = s@;
        let mut r: usize = 0;
        while r < self.rows
            invariant
                self.wf(),
                r <= self.rows,
                s@ + tex_rows(self, r as int) == head + tex_rows(self, 0),
            decreases self.rows - r,
        {
            let ghost before = s@;
            let mut c: usize = 0;
            while c < self.cols
                invariant
                    self.wf(),
                    r < self.rows,
                    c <= self.cols,
                    s@ + tex_row(self, r as int, c as int) == before + tex_row(self, r as int, 0),
                decreases self.cols - c,
            {
                let ghost inner = s@;
                push_signed(&mut s, *self.entry(r, c));
                if c + 1 < self.cols {
                    s.append(" & ");
                }
                proof {
                    assert(s@ + tex_row(self, r as int, c + 1) =~= inner + tex_row(
                        self,
                        r as int,
                        c as int,
                    ));
                }
                c += 1;
            }
            let ghost row_end = s@;
            s.append("\\\\");
            proof {
                assert(tex_row(self, r as int, self.cols as int) =~= Seq::<char>::empty());
                assert(row_end =~= before + tex_row(self, r as int, 0));
                assert(s@ + tex_rows(self, r + 1) =~= before + tex_rows(self, r as int));
            }
            r += 1;
        }
        let ghost body = s@;
        s.append("\\end{array}\\right]");
        proof {
            assert(tex_rows(self, self.rows as int) =~= Seq::<char>::empty());
            assert(body =~= body + tex_rows(self, self.rows as int));
        }
        s
    }
}

/// The vectors of a basis from index `j` on, each after `+a_` and its number.
pub open spec fn tex_basis<T: UnsignedInt>(l: &AffineLattice<T>, j: int) -> Seq<char>
    decreases l.basis@.len() - j,
{
    if j < 0 || j >= l.basis@.len() {
        Seq::empty()
    } else {
        "+a_"@ + decimal(j + 1) + tex_vector(l.basis@[j].vals(), T::modulus()) + tex_basis(
            l,
            j + 1,
        )
    }
}

/// A lattice in LaTeX notation: the offset plus the multiples of the vectors of the
/// basis.
pub open spec fn tex_lattice<T: UnsignedInt>(l: &AffineLattice<T>) -> Seq<char> {
    tex_vector(l.offset.vals(), T::modulus()) + tex_basis(l, 0)
}

impl<T: UnsignedInt> AffineLattice<T> {
    /// The lattice in LaTeX notation.
    pub fn to_tex(&self) -> (s: String)
        ensures
            s@ == tex_lattice(self),
    {
        let mut s = self.offset.to_tex();
        let ghost head = s@;
        let n: usize = self.basis.len();
        let mut j: usize = 0;
        while j < n
            invariant
                j <= n,
                n == self.basis@.len(),
                s@ + tex_basis(self, j as int) == head + tex_basis(self, 0),
            decreases n - j,
        {
            let ghost before = s@;
            s.append("+a_");
            push_decimal(&mut s, (j + 1) as u128);
            let t = self.basis[j].to_tex();
            s.append(t.as_str());
            proof {
                assert(s@ + tex_basis(self, j + 1) =~= before + tex_basis(self, j as int));
            }
            j += 1;
        }
        proof {
            assert(tex_basis(self, n as int) =~= Seq::<char>::empty());
            assert(s@ =~= s@ + tex_basis(self, n as int));
        }
        s
    }

    /// The lattice in LaTeX notation, in brackets where it has a basis.
    pub fn to_tex_brace(&self) -> (s: String)
        ensures
            s@ == if self.basis@.len() == 0 {
                tex_lattice(self)
            } else {
                "\\left("@ + tex_lattice(self) + "\\right)"@
            },
    {
        if self.basis.len() == 0 {
            self.to_tex()
        } else {
            let mut s = String::from_str("\\left(");
            let t = self.to_tex();
            s.append(t.as_str());
            s.append("\\right)");
            s
        }
    }
}

} // verus!
