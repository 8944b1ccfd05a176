//! Mixed boolean-arithmetic rewriting over the rings of integers modulo a power of two,
//! with the linear algebra and the polynomial arithmetic it rests on.

pub mod numbers;
pub mod bits;
pub mod rings;
pub mod small_rings;
pub mod modular;
pub mod names;
pub mod text;
pub mod words;
pub mod vector;
pub mod matrix;
pub mod products;
pub mod systems;
pub mod grids;
pub mod elimination;
pub mod lattice;
pub mod tex;
pub mod diagonal;
pub mod uniform_expr;
pub mod random;
pub mod rewrite;
pub mod pointwise;
pub mod polynomial;
pub mod zero_ideal;
pub mod ideal_laws;
pub mod reduction;
pub mod canonical;
pub mod perm_poly;
pub mod printer;
pub mod ascii;
pub mod parser;
pub mod expr;
pub mod semantics;
pub mod expr_parser;
pub mod conversion;
pub mod expr_printer;
pub mod poly_parser;
pub mod numerals;
pub mod poly_text;
pub mod linear_text;
pub mod placeholders;
pub mod obfuscate;
pub mod known_vars;
pub mod linear_congruences;
pub mod congruence_solver;
pub mod lattice_laws;
