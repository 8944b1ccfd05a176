//! Expressions and polynomials as text.

use vstd::prelude::*;
use vstd::string::StringExecFns;
use crate::numbers::{UnsignedInt, UniformNum};
use crate::text::{decimal, push_decimal};
use crate::tex::push_number;
use crate::uniform_expr::{UExpr, UTerm, LUExpr, nonzero_terms};
use crate::polynomial::Polynomial;
use crate::zero_ideal::bit_width;
use crate::ascii::{
    ascii_terms, lemma_nonzero_ascii, lemma_plain_terms_ascii, lemma_plain_polynomial_ascii,
};

verus! {

/// How an expression is printed.
#[derive(Clone, Copy, Debug, PartialEq, Eq, Structural)]
pub enum Printer {
    /// The notation that the expressions are read in.
    Default,
    /// A function of C.
    C,
    /// A function of Rust.
    Rust,
    /// An expression of LaTeX.
    Tex,
}

/// Five texts written one after another to the end of a text are their
/// concatenation written to its end.
pub proof fn lemma_join(
    s: Seq<char>,
    a: Seq<char>,
    b: Seq<char>,
    c: Seq<char>,
    d: Seq<char>,
    e: Seq<char>,
    r: Seq<char>,
)
    requires
        r == ((((s + a) + b) + c) + d) + e,
    ensures
        r == s + (a + b + c + d + e),
{
    assert(r =~= s + (a + b + c + d + e));
}

/// Two texts with a sign between them, and a blank on each side of the sign.
pub open spec fn joined(a: Seq<char>, sign: Seq<char>, b: Seq<char>) -> Seq<char> {
    a + " "@ + sign + " "@ + b
}

impl Printer {
    /// The sign of the conjunction.
    pub open spec fn and_sign(self) -> Seq<char> {
        if self == Printer::Tex {
            "\\land"@
        } else {
            "&"@
        }
    }

    /// The sign of the disjunction.
    pub open spec fn or_sign(self) -> Seq<char> {
        if self == Printer::Tex {
            "\\lor"@
        } else {
            "|"@
        }
    }

    /// The sign of the exclusive disjunction.
    pub open spec fn xor_sign(self) -> Seq<char> {
        if self == Printer::Tex {
            "\\oplus"@
        } else {
            "^"@
        }
    }

    /// The operand of an operator: in brackets unless it is a constant, a variable
    /// or a negation.
    pub open spec fn operand(self, e: UTerm) -> Seq<char>
        decreases e, 1int,
    {
        if e.is_unary() {
            self.uexpr(e)
        } else {
            "("@ + self.uexpr(e) + ")"@
        }
    }

    /// The uniform expression as text.
    pub open spec fn uexpr(self, e: UTerm) -> Seq<char>
        decreases e, 0int,
    {
        match e {
            UTerm::Ones => "-1"@,
            UTerm::Var(n) => n,
            UTerm::Not(i) => match self {
                Printer::Tex => "\\overline{"@ + self.uexpr(*i) + "}"@,
                Printer::Rust => "!"@ + self.operand(*i),
                _ => "~"@ + self.operand(*i),
            },
            UTerm::And(l, r) => joined(self.operand(*l), self.and_sign(), self.operand(*r)),
            UTerm::Or(l, r) => joined(self.operand(*l), self.or_sign(), self.operand(*r)),
            UTerm::Xor(l, r) => joined(self.operand(*l), self.xor_sign(), self.operand(*r)),
        }
    }

    /// Writes the operand of an operator to the end of the text.
    pub fn push_operand(self, s: &mut String, e: &UExpr)
        ensures
            final(s)@ == old(s)@ + self.operand(e@),
        decreases e, 3int,
    {
        if e.is_unary() {
            self.push_uexpr(s, e);
        } else {
            let ghost before = s@;
            s.append("(");
            self.push_uexpr(s, e);
            s.append(")");
            assert(s@ =~= before + ("("@ + self.uexpr(e@) + ")"@));
        }
    }

    /// Writes a binary operation to the end of the text.
    pub fn push_binary(self, s: &mut String, e: &UExpr)
        requires
            e@ is And || e@ is Or || e@ is Xor,
        ensures
            final(s)@ == old(s)@ + self.uexpr(e@),
        decreases e, 1int,
    {
        let tex: bool = self == Printer::Tex;
        match e {
            UExpr::And(l, r) => {
                let sign = if tex {
                    "\\land"
                } else {
                    "&"
                };
                let ghost s0 = s@;
                self.push_operand(s, l);
                s.append(" ");
                s.append(sign);
                s.append(" ");
                self.push_operand(s, r);
                proof {
                    lemma_join(s0, self.operand(l@), " "@, sign@, " "@, self.operand(r@), s@);
                }
            },
            UExpr::Or(l, r) => {
                let sign = if tex {
                    "\\lor"
                } else {
                    "|"
                };
                let ghost s0 = s@;
                self.push_operand(s, l);
                s.append(" ");
                s.append(sign);
                s.append(" ");
                self.push_operand(s, r);
                proof {
                    lemma_join(s0, self.operand(l@), " "@, sign@, " "@, self.operand(r@), s@);
                }
            },
            UExpr::Xor(l, r) => {
                let sign = if tex {
                    "\\oplus"
                } else {
                    "^"
                };
                let ghost s0 = s@;
                self.push_operand(s, l);
                s.append(" ");
                s.append(sign);
                s.append(" ");
                self.push_operand(s, r);
                proof {
                    lemma_join(s0, self.operand(l@), " "@, sign@, " "@, self.operand(r@), s@);
                }
            },
            _ => {},
        }
    }

    /// Writes a negation to the end of the text.
    pub(crate) fn push_not(self, s: &mut String, i: &UExpr, Ghost(e): Ghost<UTerm>)
        requires
            e == UTerm::Not(Box::new(i@)),
        ensures
            final(s)@ == old(s)@ + self.uexpr(e),
        decreases i, 4int,
    {
        let ghost before = s@;
        match self {
            Printer::Tex => {
                s.append("\\overline{");
                self.push_uexpr(s, i);
                s.append("}");
                assert(s@ =~= before + ("\\overline{"@ + self.uexpr(i@) + "}"@));
            },
            Printer::Rust => {
                s.append("!");
                self.push_operand(s, i);
                assert(s@ =~= before + ("!"@ + self.operand(i@)));
            },
            _ => {
                s.append("~");
                self.push_operand(s, i);
                assert(s@ =~= before + ("~"@ + self.operand(i@)));
            },
        }
    }

    /// Writes the uniform expression to the end of the text.
    pub fn push_uexpr(self, s: &mut String, e: &UExpr)
        ensures
            final(s)@ == old(s)@ + self.uexpr(e@),
        decreases e, 2int,
    {
        match e {
            UExpr::Ones => {
                s.append("-1");
            },
            UExpr::Var(c) => {
                s.append(c.as_str());
            },
            UExpr::Not(i) => {
                self.push_not(s, i, Ghost(e@));
            },
            _ => {
                self.push_binary(s, e);
            },
        }
    }

    /// The uniform expression as text.
    pub fn print_uexpr(self, e: &UExpr) -> (s: String)
        ensures
            s@ == self.uexpr(e@),
    {
        let mut s = String::new();
        self.push_uexpr(&mut s, e);
        assert(s@ =~= self.uexpr(e@));
        s
    }
}

impl UExpr {
    /// The expression in the notation that it is read in.
    pub fn to_string(&self) -> (s: String)
        ensures
            s@ == Printer::Default.uexpr(self@),
    {
        Printer::Default.print_uexpr(self)
    }
}

/// Three texts written one after another to the end of a text are their
/// concatenation written to its end.
pub proof fn lemma_join3(s: Seq<char>, a: Seq<char>, b: Seq<char>, c: Seq<char>, r: Seq<char>)
    requires
        r == ((s + a) + b) + c,
    ensures
        r == s + (a + b + c),
{
    assert(r =~= s + (a + b + c));
}

/// Two texts written one after another to the end of a text are their concatenation
/// written to its end.
pub proof fn lemma_join2(s: Seq<char>, a: Seq<char>, b: Seq<char>, r: Seq<char>)
    requires
        r == (s + a) + b,
    ensures
        r == s + (a + b),
{
    assert(r =~= s + (a + b));
}

/// The name of the unsigned integers of `bits` bits in C.
pub open spec fn c_type(bits: nat) -> Seq<char> {
    if bits == 8 {
        "uint8_t"@
    } else if bits == 16 {
        "uint16_t"@
    } else if bits == 32 {
        "uint32_t"@
    } else if bits == 64 {
        "uint64_t"@
    } else {
        "uint128_t"@
    }
}

/// The name of the wrapping unsigned integers of `bits` bits in Rust.
pub open spec fn rust_type(bits: nat) -> Seq<char> {
    if bits == 8 {
        "Wrapping<u8>"@
    } else if bits == 16 {
        "Wrapping<u16>"@
    } else if bits == 32 {
        "Wrapping<u32>"@
    } else if bits == 64 {
        "Wrapping<u64>"@
    } else {
        "Wrapping<u128>"@
    }
}

/// The suffix of the literals of the unsigned integers of `bits` bits in Rust.
pub open spec fn rust_suffix(bits: nat) -> Seq<char> {
    if bits == 8 {
        "u8"@
    } else if bits == 16 {
        "u16"@
    } else if bits == 32 {
        "u32"@
    } else if bits == 64 {
        "u64"@
    } else {
        "u128"@
    }
}

/// The name of the unsigned integers of the width of `T` in C.
pub fn c_type_name<T: UnsignedInt>() -> (t: &'static str)
    ensures
        t@ == c_type(T::bits()),
{
    let n: usize = bit_width::<T>();
    if n == 8 {
        "uint8_t"
    } else if n == 16 {
        "uint16_t"
    } else if n == 32 {
        "uint32_t"
    } else if n == 64 {
        "uint64_t"
    } else {
        "uint128_t"
    }
}

/// The name of the wrapping unsigned integers of the width of `T` in Rust.
pub fn rust_type_name<T: UnsignedInt>() -> (t: &'static str)
    ensures
        t@ == rust_type(T::bits()),
{
    let n: usize = bit_width::<T>();
    if n == 8 {
        "Wrapping<u8>"
    } else if n == 16 {
        "Wrapping<u16>"
    } else if n == 32 {
        "Wrapping<u32>"
    } else if n == 64 {
        "Wrapping<u64>"
    } else {
        "Wrapping<u128>"
    }
}

/// The suffix of the literals of the unsigned integers of the width of `T` in Rust.
pub fn rust_suffix_name<T: UnsignedInt>() -> (t: &'static str)
    ensures
        t@ == rust_suffix(T::bits()),
{
    let n: usize = bit_width::<T>();
    if n == 8 {
        "u8"
    } else if n == 16 {
        "u16"
    } else if n == 32 {
        "u32"
    } else if n == 64 {
        "u64"
    } else {
        "u128"
    }
}

impl Printer {
    /// The sign of the multiplication of a coefficient with its expression.
    pub open spec fn times_sign(self) -> Seq<char> {
        if self == Printer::Tex {
            "\\cdot "@
        } else {
            "*"@
        }
    }

    /// The term `i * e` as text, for the coefficient `i` as a natural number: the
    /// expression alone where `i` is one.
    pub open spec fn term(self, i: int, e: UTerm, suffix: Seq<char>) -> Seq<char> {
        if i == 1 {
            self.operand(e)
        } else if self == Printer::Rust {
            "Wrapping("@ + decimal(i) + suffix + ")*"@ + self.operand(e)
        } else {
            decimal(i) + self.times_sign() + self.operand(e)
        }
    }

    /// The absolute value of the coefficient `i` modulo `m`, as it is displayed.
    pub open spec fn magnitude(i: int, m: int) -> int {
        if 2 * i >= m {
            m - i
        } else {
            i
        }
    }

    /// The terms from index `k` on, each after its sign.
    pub open spec fn more_terms(self, t: Seq<(int, UTerm)>, k: int, m: int, suffix: Seq<char>) -> Seq<
        char,
    >
        decreases t.len() - k,
    {
        if k < 0 || k >= t.len() {
            Seq::empty()
        } else {
            (if 2 * t[k].0 >= m {
                " - "@
            } else {
                " + "@
            }) + self.term(Self::magnitude(t[k].0, m), t[k].1, suffix) + self.more_terms(
                t,
                k + 1,
                m,
                suffix,
            )
        }
    }

    /// The linear combination with the terms `t`, none of them with the coefficient
    /// zero, as text: `0` where there is no term.
    pub open spec fn terms(self, t: Seq<(int, UTerm)>, m: int, suffix: Seq<char>) -> Seq<char> {
        if t.len() == 0 {
            "0"@
        } else {
            (if 2 * t[0].0 >= m {
                "-"@
            } else {
                Seq::empty()
            }) + self.term(Self::magnitude(t[0].0, m), t[0].1, suffix) + self.more_terms(
                t,
                1,
                m,
                suffix,
            )
        }
    }

    /// Writes the term `i * e` to the end of the text, for the absolute value `i` of
    /// its coefficient.
    pub fn push_term<T: UniformNum>(self, s: &mut String, i: T, e: &UExpr, suffix: &str)
        ensures
            final(s)@ == old(s)@ + self.term(i.val(), e@, suffix@),
    {
        let ghost s0 = s@;
        if i.eq(T::one()) {
            self.push_operand(s, e);
        } else if self == Printer::Rust {
            s.append("Wrapping(");
            push_number(s, i);
            s.append(suffix);
            s.append(")*");
            self.push_operand(s, e);
            proof {
                lemma_join(
                    s0,
                    "Wrapping("@,
                    decimal(i.val()),
                    suffix@,
                    ")*"@,
                    self.operand(e@),
                    s@,
                );
            }
        } else {
            push_number(s, i);
            if self == Printer::Tex {
                s.append("\\cdot ");
            } else {
                s.append("*");
            }
            self.push_operand(s, e);
            proof {
                lemma_join3(s0, decimal(i.val()), self.times_sign(), self.operand(e@), s@);
            }
        }
    }

    /// Writes the linear combination, without its terms with the coefficient zero,
    /// to the end of the text.
    pub fn print_luexpr_impl<T: UniformNum>(self, s: &mut String, e: &LUExpr<T>, suffix: &str)
        ensures
            final(s)@ == old(s)@ + self.terms(nonzero_terms(e@), T::modulus(), suffix@),
    {
        let ghost md = T::modulus();
        let ghost s0 = s@;
        let z = e.without_zeros();
        let ghost t = z@;
        let n: usize = z.0.len();
        if n == 0 {
            s.append("0");
            return ;
        }
        proof {
            T::lemma_modulus();
            z.0@[0].0.lemma_val_bound();
        }
        let first: T = z.0[0].0;
        if first.print_negative() {
            s.append("-");
            self.push_term(s, T::zero().sub(first), &z.0[0].1, suffix);
            proof {
                crate::modular::lemma_cong_add_multiple(-first.val(), 1, md);
                crate::modular::lemma_mod_small(md - first.val(), md);
            }
        } else {
            self.push_term(s, first, &z.0[0].1, suffix);
        }
        let ghost head = s@;
        proof {
            assert(t[0] == (first.val(), z.0@[0].1@));
            let sign = if 2 * t[0].0 >= md {
                "-"@
            } else {
                Seq::<char>::empty()
            };
            lemma_join2(s0, sign, self.term(Self::magnitude(t[0].0, md), t[0].1, suffix@), head);
        }
        let mut k: usize = 1;
        while k < n
            invariant
                1 <= k <= n,
                n == t.len(),
                t == z@,
                md == T::modulus(),
                md > 1,
                s@ + self.more_terms(t, k as int, md, suffix@) == head + self.more_terms(
                    t,
                    1,
                    md,
                    suffix@,
                ),
            decreases n - k,
        {
            let ghost before = s@;
            let c: T = z.0[k].0;
            proof {
                c.lemma_val_bound();
                assert(t[k as int] == (c.val(), z.0@[k as int].1@));
            }
            if c.print_negative() {
                s.append(" - ");
                self.push_term(s, T::zero().sub(c), &z.0[k].1, suffix);
                proof {
                    crate::modular::lemma_cong_add_multiple(-c.val(), 1, md);
                    crate::modular::lemma_mod_small(md - c.val(), md);
                }
            } else {
                s.append(" + ");
                self.push_term(s, c, &z.0[k].1, suffix);
            }
            proof {
                let sign = if 2 * t[k as int].0 >= md {
                    " - "@
                } else {
                    " + "@
                };
                let body = self.term(Self::magnitude(t[k as int].0, md), t[k as int].1, suffix@);
                lemma_join2(before, sign, body, s@);
                assert(s@ + self.more_terms(t, k + 1, md, suffix@) =~= before + self.more_terms(
                    t,
                    k as int,
                    md,
                    suffix@,
                ));
            }
            k += 1;
        }
        proof {
            assert(self.more_terms(t, n as int, md, suffix@) =~= Seq::<char>::empty());
            assert(s@ =~= s@ + self.more_terms(t, n as int, md, suffix@));
            let sign = if 2 * t[0].0 >= md {
                "-"@
            } else {
                Seq::<char>::empty()
            };
            lemma_join2(
                s0,
                sign + self.term(Self::magnitude(t[0].0, md), t[0].1, suffix@),
                self.more_terms(t, 1, md, suffix@),
                s@,
            );
        }
    }
}

/// The parameters of a function of C: each variable from index `k` on after the name
/// of its type, with commas between them.
pub open spec fn c_params(ty: Seq<char>, vars: Seq<String>, k: int) -> Seq<char>
    decreases vars.len() - k,
{
    if k < 0 || k >= vars.len() {
        Seq::empty()
    } else if k + 1 == vars.len() {
        ty + " "@ + vars[k]@
    } else {
        ty + " "@ + vars[k]@ + ", "@ + c_params(ty, vars, k + 1)
    }
}

/// The parameters of a function of Rust: each variable from index `k` on before the
/// name of its type, with commas between them.
pub open spec fn rust_params(ty: Seq<char>, vars: Seq<String>, k: int) -> Seq<char>
    decreases vars.len() - k,
{
    if k < 0 || k >= vars.len() {
        Seq::empty()
    } else if k + 1 == vars.len() {
        vars[k]@ + ": "@ + ty
    } else {
        vars[k]@ + ": "@ + ty + ", "@ + rust_params(ty, vars, k + 1)
    }
}

/// Writes the parameters of a function of C to the end of the text.
pub fn push_c_params(s: &mut String, ty: &str, vars: &Vec<String>)
    ensures
        final(s)@ == old(s)@ + c_params(ty@, vars@, 0),
{
    let ghost s0 = s@;
    let n: usize = vars.len();
    let mut k: usize = 0;
    while k < n
        invariant
            k <= n,
            n == vars@.len(),
            s@ + c_params(ty@, vars@, k as int) == s0 + c_params(ty@, vars@, 0),
        decreases n - k,
    {
        let ghost before = s@;
        s.append(ty);
        s.append(" ");
        s.append(vars[k].as_str());
        if k + 1 < n {
            s.append(", ");
        }
        proof {
            assert(s@ + c_params(ty@, vars@, k + 1) =~= before + c_params(ty@, vars@, k as int));
        }
        k += 1;
    }
    proof {
        assert(c_params(ty@, vars@, n as int) =~= Seq::<char>::empty());
        assert(s@ =~= s@ + c_params(ty@, vars@, n as int));
    }
}

/// Writes the parameters of a function of Rust to the end of the text.
pub fn push_rust_params(s: &mut String, ty: &str, vars: &Vec<String>)
    ensures
        final(s)@ == old(s)@ + rust_params(ty@, vars@, 0),
{
    let ghost s0 = s@;
    let n: usize = vars.len();
    let mut k: usize = 0;
    while k < n
        invariant
            k <= n,
            n == vars@.len(),
            s@ + rust_params(ty@, vars@, k as int) == s0 + rust_params(ty@, vars@, 0),
        decreases n - k,
    {
        let ghost before = s@;
        s.append(vars[k].as_str());
        s.append(": ");
        s.append(ty);
        if k + 1 < n {
            s.append(", ");
        }
        proof {
            assert(s@ + rust_params(ty@, vars@, k + 1) =~= before + rust_params(
                ty@,
                vars@,
                k as int,
            ));
        }
        k += 1;
    }
    proof {
        assert(rust_params(ty@, vars@, n as int) =~= Seq::<char>::empty());
        assert(s@ =~= s@ + rust_params(ty@, vars@, n as int));
    }
}

impl Printer {
    /// The linear combination as a function of its variables `vars`, in the language
    /// of the printer; as an expression for LaTeX.
    pub open spec fn luexpr<T: UniformNum>(self, e: Seq<(int, UTerm)>, vars: Seq<String>) -> Seq<
        char,
    > {
        match self {
            Printer::Tex => self.terms(nonzero_terms(e), T::modulus(), Seq::empty()),
            Printer::Rust => "fn f("@ + rust_params(rust_type(T::bits()), vars, 0) + ") -> "@
                + rust_type(T::bits()) + " {\n\t"@ + self.terms(
                nonzero_terms(e),
                T::modulus(),
                rust_suffix(T::bits()),
            ) + "\n}"@,
            _ => c_type(T::bits()) + " f("@ + c_params(c_type(T::bits()), vars, 0)
                + ") {\n\treturn "@ + self.terms(nonzero_terms(e), T::modulus(), Seq::empty())
                + ";\n}"@,
        }
    }

    /// Whether the text is the linear combination as a function of its variables in
    /// their order, in the language of the printer.
    pub open spec fn prints_linear<T: UniformNum>(self, s: Seq<char>, e: Seq<(int, UTerm)>) -> bool {
        exists|vars: Seq<String>|
            {
                &&& crate::names::sorted_names(vars)
                &&& forall|n: Seq<char>|
                    crate::names::has_name(vars, n) <==> crate::uniform_expr::lu_has_var(e, n)
                &&& s == #[trigger] self.luexpr::<T>(e, vars)
            }
    }

    /// The linear combination as a function of its variables, in the language of the
    /// printer; as an expression for LaTeX.
    pub fn print_luexpr<T: UniformNum>(self, e: &LUExpr<T>) -> (s: String)
        ensures
            self.prints_linear::<T>(s@, e@),
    {
        let vars = e.vars();
        let mut s = String::new();
        let ghost s0 = s@;
        match self {
            Printer::Tex => {
                let empty = String::new();
                self.print_luexpr_impl(&mut s, e, empty.as_str());
                assert(s@ =~= self.luexpr::<T>(e@, vars@));
            },
            Printer::Rust => {
                let ty = rust_type_name::<T>();
                s.append("fn f(");
                push_rust_params(&mut s, ty, &vars);
                s.append(") -> ");
                s.append(ty);
                s.append(" {\n\t");
                let ghost s1 = s@;
                self.print_luexpr_impl(&mut s, e, rust_suffix_name::<T>());
                s.append("\n}");
                assert(s@ =~= self.luexpr::<T>(e@, vars@));
            },
            _ => {
                let ty = c_type_name::<T>();
                s.append(ty);
                s.append(" f(");
                push_c_params(&mut s, ty, &vars);
                s.append(") {\n\treturn ");
                let empty = String::new();
                self.print_luexpr_impl(&mut s, e, empty.as_str());
                s.append(";\n}");
                assert(s@ =~= self.luexpr::<T>(e@, vars@));
            },
        }
        assert(s@ == self.luexpr::<T>(e@, vars@));
        s
    }
}

/// The term `i * e` in the notation that linear combinations are read in, for the
/// coefficient `i` as a natural number: the expression alone where `i` is one.
pub open spec fn plain_term(i: int, e: UTerm) -> Seq<char> {
    if i == 1 {
        Printer::Default.uexpr(e)
    } else {
        decimal(i) + "*"@ + Printer::Default.operand(e)
    }
}

/// The terms from index `k` on, each after its sign, in the notation that linear
/// combinations are read in.
pub open spec fn plain_more(t: Seq<(int, UTerm)>, k: int, m: int) -> Seq<char>
    decreases t.len() - k,
{
    if k < 0 || k >= t.len() {
        Seq::empty()
    } else {
        (if 2 * t[k].0 >= m {
            " - "@
        } else {
            " + "@
        }) + plain_term(Printer::magnitude(t[k].0, m), t[k].1) + plain_more(t, k + 1, m)
    }
}

/// The linear combination with the terms `t`, none of them with the coefficient
/// zero, in the notation that linear combinations are read in.
pub open spec fn plain_terms(t: Seq<(int, UTerm)>, m: int) -> Seq<char> {
    if t.len() == 0 {
        "0"@
    } else {
        (if 2 * t[0].0 >= m {
            "-"@
        } else {
            Seq::empty()
        }) + plain_term(Printer::magnitude(t[0].0, m), t[0].1) + plain_more(t, 1, m)
    }
}

/// Writes a term to the end of the text, in the notation that linear combinations are
/// read in.
pub fn push_plain_term<T: UniformNum>(s: &mut String, i: T, e: &UExpr)
    ensures
        final(s)@ == old(s)@ + plain_term(i.val(), e@),
{
    let ghost s0 = s@;
    if i.eq(T::one()) {
        Printer::Default.push_uexpr(s, e);
    } else {
        push_number(s, i);
        s.append("*");
        Printer::Default.push_operand(s, e);
        proof {
            lemma_join3(s0, decimal(i.val()), "*"@, Printer::Default.operand(e@), s@);
        }
    }
}

impl<T: UniformNum> LUExpr<T> {
    /// The linear combination in the notation that it is read in, without its terms
    /// with the coefficient zero.
    pub fn to_string(&self) -> (s: String)
        ensures
            s@ == plain_terms(nonzero_terms(self@), T::modulus()),
            ascii_terms(self@) ==> s.is_ascii(),
    {
        let ghost md = T::modulus();
        let mut s = String::new();
        let ghost s0 = s@;
        let z = self.without_zeros();
        let ghost t = z@;
        let n: usize = z.0.len();
        proof {
            if ascii_terms(self@) {
                lemma_nonzero_ascii(self@);
                lemma_plain_terms_ascii(t, md);
            }
        }
        if n == 0 {
            s.append("0");
            assert(s@ =~= "0"@);
            return s;
        }
        proof {
            T::lemma_modulus();
            z.0@[0].0.lemma_val_bound();
        }
        let first: T = z.0[0].0;
        if first.print_negative() {
            s.append("-");
            push_plain_term(&mut s, T::zero().sub(first), &z.0[0].1);
            proof {
                crate::modular::lemma_cong_add_multiple(-first.val(), 1, md);
                crate::modular::lemma_mod_small(md - first.val(), md);
            }
        } else {
            push_plain_term(&mut s, first, &z.0[0].1);
        }
        let ghost head = s@;
        proof {
            assert(t[0] == (first.val(), z.0@[0].1@));
            let sign = if 2 * t[0].0 >= md {
                "-"@
            } else {
                Seq::<char>::empty()
            };
            lemma_join2(s0, sign, plain_term(Printer::magnitude(t[0].0, md), t[0].1), head);
        }
        let mut k: usize = 1;
        while k < n
            invariant
                1 <= k <= n,
                n == t.len(),
                t == z@,
                md == T::modulus(),
                md > 1,
                ascii_terms(self@) ==> vstd::utf8::is_ascii_chars(plain_terms(t, md)),
                s@ + plain_more(t, k as int, md) == head + plain_more(t, 1, md),
            decreases n - k,
        {
            let ghost before = s@;
            let c: T = z.0[k].0;
            proof {
                c.lemma_val_bound();
                assert(t[k as int] == (c.val(), z.0@[k as int].1@));
            }
            if c.print_negative() {
                s.append(" - ");
                push_plain_term(&mut s, T::zero().sub(c), &z.0[k].1);
                proof {
                    crate::modular::lemma_cong_add_multiple(-c.val(), 1, md);
                    crate::modular::lemma_mod_small(md - c.val(), md);
                }
            } else {
                s.append(" + ");
                push_plain_term(&mut s, c, &z.0[k].1);
            }
            proof {
                let sign = if 2 * t[k as int].0 >= md {
                    " - "@
                } else {
                    " + "@
                };
                let body = plain_term(Printer::magnitude(t[k as int].0, md), t[k as int].1);
                lemma_join2(before, sign, body, s@);
                assert(s@ + plain_more(t, k + 1, md) =~= before + plain_more(t, k as int, md));
            }
            k += 1;
        }
        proof {
            assert(plain_more(t, n as int, md) =~= Seq::<char>::empty());
            assert(s@ =~= s@ + plain_more(t, n as int, md));
            assert(s0 =~= Seq::<char>::empty());
            assert(s@ =~= plain_terms(t, md));
        }
        s
    }
}

/// The term `c * X^e` of a polynomial in LaTeX notation.
pub open spec fn tex_term(e: int, c: int) -> Seq<char> {
    if e == 0 {
        decimal(c)
    } else {
        (if c != 1 {
            decimal(c)
        } else {
            Seq::empty()
        }) + "X"@ + (if e != 1 {
            "^{"@ + decimal(e) + "}"@
        } else {
            Seq::empty()
        })
    }
}

/// The terms of a polynomial below `X^k` whose coefficient is not zero, that of the
/// highest power first, with `+` between them, and before them unless `first`.
pub open spec fn tex_terms(c: Seq<int>, k: int, first: bool) -> Seq<char>
    decreases k,
{
    if k <= 0 {
        Seq::empty()
    } else if c[k - 1] == 0 {
        tex_terms(c, k - 1, first)
    } else {
        (if first {
            Seq::empty()
        } else {
            "+"@
        }) + tex_term(k - 1, c[k - 1]) + tex_terms(c, k - 1, false)
    }
}

/// Whether the coefficients below `X^k` are zero.
pub open spec fn all_zero_below(c: Seq<int>, k: int) -> bool {
    forall|i: int| 0 <= i < k ==> #[trigger] c[i] == 0
}

/// A polynomial in LaTeX notation: `0` where it has no coefficient that is not zero.
pub open spec fn tex_polynomial(c: Seq<int>) -> Seq<char> {
    if all_zero_below(c, c.len() as int) {
        "0"@
    } else {
        tex_terms(c, c.len() as int, true)
    }
}

/// The term `c * X^e` of a polynomial in the notation that polynomials are read in.
pub open spec fn plain_power(e: int, c: int) -> Seq<char> {
    if e == 0 {
        decimal(c)
    } else {
        decimal(c) + "x^"@ + decimal(e)
    }
}

/// The terms of a polynomial below `X^k` whose coefficient is not zero, that of the
/// highest power first, with ` + ` between them, and before them unless `first`.
pub open spec fn plain_powers(c: Seq<int>, k: int, first: bool) -> Seq<char>
    decreases k,
{
    if k <= 0 {
        Seq::empty()
    } else if c[k - 1] == 0 {
        plain_powers(c, k - 1, first)
    } else {
        (if first {
            Seq::empty()
        } else {
            " + "@
        }) + plain_power(k - 1, c[k - 1]) + plain_powers(c, k - 1, false)
    }
}

/// A polynomial in the notation that polynomials are read in: `0` where it has no
/// coefficient that is not zero.
pub open spec fn plain_polynomial(c: Seq<int>) -> Seq<char> {
    if all_zero_below(c, c.len() as int) {
        "0"@
    } else {
        plain_powers(c, c.len() as int, true)
    }
}

/// Writes a term of a polynomial in LaTeX notation to the end of the text.
pub fn push_tex_term<T: UnsignedInt>(s: &mut String, e: usize, c: T)
    ensures
        final(s)@ == old(s)@ + tex_term(e as int, c.val()),
{
    let ghost s0 = s@;
    if e == 0 {
        push_number(s, c);
    } else {
        if !c.eq(T::one()) {
            push_number(s, c);
        }
        let ghost s1 = s@;
        s.append("X");
        let ghost s2 = s@;
        if e != 1 {
            s.append("^{");
            push_decimal(s, e as u128);
            s.append("}");
            proof {
                lemma_join3(s2, "^{"@, decimal(e as int), "}"@, s@);
            }
        }
        proof {
            let a = if c.val() != 1 {
                decimal(c.val())
            } else {
                Seq::<char>::empty()
            };
            let b = if e != 1 {
                "^{"@ + decimal(e as int) + "}"@
            } else {
                Seq::<char>::empty()
            };
            assert(s1 =~= s0 + a);
            assert(s@ =~= s2 + b);
            lemma_join3(s0, a, "X"@, b, s@);
        }
    }
}

/// Writes a term of a polynomial in the notation that polynomials are read in to
/// the end of the text.
pub fn push_plain_power<T: UnsignedInt>(s: &mut String, e: usize, c: T)
    ensures
        final(s)@ == old(s)@ + plain_power(e as int, c.val()),
{
    let ghost s0 = s@;
    if e == 0 {
        push_number(s, c);
    } else {
        push_number(s, c);
        s.append("x^");
        push_decimal(s, e as u128);
        proof {
            lemma_join3(s0, decimal(c.val()), "x^"@, decimal(e as int), s@);
        }
    }
}

impl<T: UnsignedInt> Polynomial<T> {
    /// The polynomial in LaTeX notation.
    pub fn to_tex(&self) -> (s: String)
        ensures
            s@ == tex_polynomial(self@),
    {
        let ghost c = self@;
        let mut s = String::new();
        let mut first: bool = true;
        let mut k: usize = self.coeffs.len();
        proof {
            assert(s@ =~= Seq::<char>::empty());
        }
        while k > 0
            invariant
                k <= c.len(),
                c == self@,
                first ==> s@ == Seq::<char>::empty(),
                first <==> forall|i: int| k <= i < c.len() ==> #[trigger] c[i] == 0,
                s@ + tex_terms(c, k as int, first) == tex_terms(c, c.len() as int, true),
            decreases k,
        {
            let x: T = self.coeffs[k - 1];
            if !x.eq(T::zero()) {
                let ghost before = s@;
                if !first {
                    s.append("+");
                }
                let ghost mid = s@;
                push_tex_term(&mut s, k - 1, x);
                proof {
                    let sign = if first {
                        Seq::<char>::empty()
                    } else {
                        "+"@
                    };
                    assert(mid =~= before + sign);
                    lemma_join2(before, sign, tex_term(k - 1, c[k - 1]), s@);
                    assert(s@ + tex_terms(c, k - 1, false) =~= before + tex_terms(
                        c,
                        k as int,
                        first,
                    ));
                    assert(c[k - 1] != 0);
                }
                first = false;
            }
            k -= 1;
        }
        if first {
            s.append("0");
            proof {
                assert(s@ =~= "0"@);
            }
        } else {
            proof {
                assert(tex_terms(c, 0, false) =~= Seq::<char>::empty());
                assert(s@ =~= s@ + tex_terms(c, 0, false));
                let i = choose|i: int| 0 <= i < c.len() && #[trigger] c[i] != 0;
                assert(c[i] != 0);
            }
        }
        s
    }

    /// The polynomial in the notation that polynomials are read in.
    pub fn to_string(&self) -> (s: String)
        ensures
            s@ == plain_polynomial(self@),
            s.is_ascii(),
    {
        let ghost c = self@;
        let mut s = String::new();
        let mut first: bool = true;
        let mut k: usize = self.coeffs.len();
        proof {
            assert(s@ =~= Seq::<char>::empty());
        }
        while k > 0
            invariant
                k <= c.len(),
                c == self@,
                first ==> s@ == Seq::<char>::empty(),
                first <==> forall|i: int| k <= i < c.len() ==> #[trigger] c[i] == 0,
                s@ + plain_powers(c, k as int, first) == plain_powers(c, c.len() as int, true),
            decreases k,
        {
            let x: T = self.coeffs[k - 1];
            if !x.eq(T::zero()) {
                let ghost before = s@;
                if !first {
                    s.append(" + ");
                }
                let ghost mid = s@;
                push_plain_power(&mut s, k - 1, x);
                proof {
                    let sign = if first {
                        Seq::<char>::empty()
                    } else {
                        " + "@
                    };
                    assert(mid =~= before + sign);
                    lemma_join2(before, sign, plain_power(k - 1, c[k - 1]), s@);
                    assert(s@ + plain_powers(c, k - 1, false) =~= before + plain_powers(
                        c,
                        k as int,
                        first,
                    ));
                    assert(c[k - 1] != 0);
                }
                first = false;
            }
            k -= 1;
        }
        if first {
            s.append("0");
            proof {
                assert(s@ =~= "0"@);
            }
        } else {
            proof {
                assert(plain_powers(c, 0, false) =~= Seq::<char>::empty());
                assert(s@ =~= s@ + plain_powers(c, 0, false));
                let i = choose|i: int| 0 <= i < c.len() && #[trigger] c[i] != 0;
                assert(c[i] != 0);
            }
        }
        proof {
            lemma_plain_polynomial_ascii(c);
        }
        s
    }
}

} // verus!
