use mba::congruence_solver::{
    diagonalize, solve_congruences, solve_scalar_congruence, solve_scalar_congruence_mod,
};
use mba::expr::{BinaryOp, Expr, Node};
use mba::matrix::Matrix;
use mba::obfuscate::{bool_expr_with, var_with};
use mba::perm_poly::{is_perm_poly, permutation_from};
use mba::polynomial::Polynomial;
use mba::rewrite::{combine, rewrite};
use mba::uniform_expr::{LUExpr, UExpr};
use mba::vector::Vector;
use mba::zero_ideal::ZeroIdeal;

fn linear(s: &str) -> LUExpr<u8> {
    LUExpr::<u8>::from_string(s).expect("a linear combination")
}

fn names(v: &[&str]) -> Vec<String> {
    v.iter().map(|s| s.to_string()).collect()
}

#[test]
fn a_congruence_has_the_solution_of_its_division_chain() {
    // 256 = 42 * 6 + 4, 6 = 4 + 2, 4 = 2 * 2: the cofactor of 2 is 43, the next 128
    assert_eq!(solve_scalar_congruence(6u8, 4u8), Some((86, 128)));
    assert_eq!(solve_scalar_congruence(2u8, 2u8), Some((1, 128)));
    assert_eq!(solve_scalar_congruence(252u8, 0u8), Some((0, 64)));
    assert_eq!(solve_scalar_congruence(252u8, 2u8), None);
}

#[test]
fn a_division_chain_with_a_given_second_number() {
    assert_eq!(solve_scalar_congruence_mod(5u8, 64u8, 1u8), Some((64, 251)));
    assert_eq!(solve_scalar_congruence_mod(3u8, 0u8, 7u8), Some((0, 253)));
    assert_eq!(solve_scalar_congruence_mod(1u8, 5u8, 7u8), None);
}

#[test]
fn the_diagonalization_takes_the_smallest_entries_as_pivots() {
    let a = Matrix::<u8>::from_array([[2, 4], [6, 8]]);
    let mut d = a.copy();
    let (s, t) = diagonalize(&mut d);
    assert!(d.equals(&Matrix::<u8>::from_array([[2, 0], [0, 252]])));
    assert!(s.equals(&Matrix::<u8>::from_array([[1, 0], [253, 1]])));
    assert!(t.equals(&Matrix::<u8>::from_array([[1, 254], [0, 1]])));
}

#[test]
fn the_diagonalization_brings_a_smaller_entry_to_the_diagonal() {
    // the smallest entry of the first column stands in the second row
    let a = Matrix::<u8>::from_array([[6, 8], [2, 4]]);
    let mut d = a.copy();
    let (s, t) = diagonalize(&mut d);
    assert!(d.equals(&Matrix::<u8>::from_array([[2, 0], [0, 252]])));
    assert!(s.equals(&Matrix::<u8>::from_array([[0, 1], [1, 253]])));
    assert!(t.equals(&Matrix::<u8>::from_array([[1, 254], [0, 1]])));
}

#[test]
fn the_lattice_of_a_system_is_assembled_from_the_diagonal_system() {
    let a = Matrix::<u8>::from_array([[2, 4], [6, 8]]);
    let b = Vector::<u8>::from_slice(&[2, 6]);
    let l = solve_congruences(a, &b);
    assert_eq!(l.offset.entries().to_vec(), vec![1u8, 0]);
    assert_eq!(l.basis.len(), 2);
    assert_eq!(l.basis[0].entries().to_vec(), vec![128u8, 0]);
    assert_eq!(l.basis[1].entries().to_vec(), vec![128u8, 64]);
}

#[test]
fn an_unknown_without_a_congruence_is_free() {
    let a = Matrix::<u8>::from_array([[1, 0, 0]]);
    let b = Vector::<u8>::from_slice(&[5]);
    let l = solve_congruences(a, &b);
    assert_eq!(l.offset.entries().to_vec(), vec![5u8, 0, 0]);
    assert_eq!(l.basis.len(), 2);
    assert_eq!(l.basis[0].entries().to_vec(), vec![0u8, 1, 0]);
    assert_eq!(l.basis[1].entries().to_vec(), vec![0u8, 0, 1]);
}

#[test]
fn a_combination_gathers_the_terms_of_the_operations_in_their_order() {
    let ops = vec![linear("x^y"), linear("x&y + 2*(x^y)"), linear("x&y")];
    let r = combine(&Vector::<u8>::from_slice(&[1, 2, 3]), &ops);
    assert_eq!(r.to_string(), "5*(x ^ y) + 5*(x & y)");
    // a coefficient that sums to zero leaves no term
    let ops = vec![linear("x"), linear("x"), linear("y")];
    let r = combine(&Vector::<u8>::from_slice(&[1, 255, 7]), &ops);
    assert_eq!(r.0.len(), 1);
    assert_eq!(r.to_string(), "7*y");
}

#[test]
fn a_rewrite_combines_the_offset_of_the_system_of_the_boolean_valuations() {
    let e = linear("x + y");
    let ops: Vec<LUExpr<u8>> =
        ["x^y", "x|y", "x&y", "~x", "~y", "-1"].iter().map(|s| linear(s)).collect();
    let r = rewrite(&e, &ops, false).expect("a combination of the operations");
    // a row for each valuation of x and y by nothing or all ones, x first
    let m = 255u8;
    let a = Matrix::<u8>::from_array([
        [0, 0, 0, m, m, m],
        [m, m, 0, 0, m, m],
        [m, m, 0, m, 0, m],
        [0, m, m, 0, 0, m],
    ]);
    let b = Vector::<u8>::from_slice(&[0, 255, 255, 254]);
    let l = solve_congruences(a, &b);
    assert!(!l.is_empty());
    let expected = combine(&l.offset, &ops);
    assert_eq!(r.to_string(), expected.to_string());
}

#[test]
fn the_drawn_number_picks_the_variable_and_the_form() {
    let vars = names(&["a", "b", "c"]);
    assert_eq!(var_with(0, &vars), UExpr::Var("a".to_string()));
    assert_eq!(var_with(4, &vars), UExpr::Var("b".to_string()));
    for depth in 1u8..4 {
        assert!(matches!(bool_expr_with(5, &vars, depth), UExpr::Var(_)));
        assert!(matches!(bool_expr_with(6, &vars, depth), UExpr::Not(_)));
        assert!(matches!(bool_expr_with(7, &vars, depth), UExpr::And(_, _)));
        assert!(matches!(bool_expr_with(8, &vars, depth), UExpr::Or(_, _)));
        assert!(matches!(bool_expr_with(9, &vars, depth), UExpr::Xor(_, _)));
    }
    for choice in 0usize..10 {
        assert!(matches!(bool_expr_with(choice, &vars, 0), UExpr::Var(_)));
    }
    // the operands of a form of depth one are variables
    match bool_expr_with(2, &vars, 1) {
        UExpr::And(l, r) => {
            assert!(matches!(*l, UExpr::Var(_)));
            assert!(matches!(*r, UExpr::Var(_)));
        },
        _ => panic!("a conjunction"),
    }
}

#[test]
fn the_coefficients_are_corrected_at_the_given_places() {
    let zi = ZeroIdeal::<u8>::init();
    // the coefficient of X is even, and both sums are odd
    let coeffs: Vec<u8> = vec![7, 2, 1, 1, 0, 0, 0, 0, 0, 0, 0];
    let p = permutation_from(coeffs, 2, 2, &zi);
    let q = Polynomial::<u8>::from_coeffs(&[7, 3, 1, 1, 1, 1]);
    assert!(is_perm_poly(&q));
    for x in 0u16..256 {
        assert_eq!(p.eval(x as u8), q.eval(x as u8));
    }
    assert_eq!(p.coeffs, q.simplified(&zi).coeffs);
    // coefficients of a permutation stay
    let coeffs: Vec<u8> = vec![0, 1, 0, 0, 0, 0, 0, 0, 0, 0, 0];
    let p = permutation_from(coeffs, 1, 1, &zi);
    assert!(p.is_id());
}

#[test]
fn a_product_keeps_its_operator_over_obfuscated_operands() {
    let e = Expr::<u8>::from_string("(x + y) * (x - y)").expect("an expression");
    let vars = names(&["x", "y"]);
    let o = e.obfuscated(&vars, 3, 24).expect("an obfuscated expression");
    match &o.nodes[o.root] {
        Node::Binary(BinaryOp::Mul, l, r) => {
            assert!(*l < o.root && *r < o.root);
        },
        n => panic!("a product, not {:?}", n),
    }
    let e = Expr::<u8>::from_string("(x + y) >> 2").expect("an expression");
    let o = e.obfuscated(&vars, 3, 24).expect("an obfuscated expression");
    assert!(matches!(&o.nodes[o.root], Node::Binary(BinaryOp::Shr, _, _)));
}

#[test]
fn the_texts_hold_ascii_characters_only() {
    assert!(Polynomial::<u8>::from_coeffs(&[1, 0, 200, 3]).to_string().is_ascii());
    assert!(Polynomial::<u8>::zero().to_string().is_ascii());
    assert!(linear("3*(x&~y) - 2*(x^y) - 7").to_string().is_ascii());
    assert_eq!(Polynomial::<u8>::from_coeffs(&[1, 0, 200, 3]).to_string(), "3x^3 + 200x^2 + 1");
}

#[test]
fn a_substitution_puts_the_nodes_of_the_expression_first() {
    let mut host = Expr::<u8>::from_string("x * x + y * x").expect("an expression");
    let sub = Expr::<u8>::from_string("a + 1").expect("an expression");
    let variables = host.nodes.iter().filter(|n| matches!(n, Node::Var(v) if v == "x")).count();
    let before = host.nodes.len();
    let root_before = host.root;
    host.substitute(&sub, "x");
    // each node that is not the variable stands once after the nodes of the expression
    assert_eq!(host.nodes.len(), sub.nodes.len() + before - variables);
    for (n, s) in host.nodes.iter().zip(sub.nodes.iter()) {
        assert_eq!(format!("{:?}", n), format!("{:?}", s));
    }
    // the root was the last node, and is
    assert_eq!(root_before, before - 1);
    assert_eq!(host.root, host.nodes.len() - 1);
    // each place of the variable is the root of the expression
    let shared = host
        .nodes
        .iter()
        .skip(sub.nodes.len())
        .map(|n| match n {
            Node::Binary(_, l, r) => (*l == sub.root) as usize + (*r == sub.root) as usize,
            Node::Unary(_, e) => (*e == sub.root) as usize,
            _ => 0,
        })
        .sum::<usize>();
    assert_eq!(shared, 3);
}

#[test]
fn an_obfuscated_expression_has_known_variables_and_no_placeholder() {
    let vars = names(&["aux0", "x", "y"]);
    for text in ["x * y + x * y + 3", "(x ^ y) * (x + 2 * y) - ~x", "x / (y | 1) + x % 7"] {
        let e = Expr::<u8>::from_string(text).expect("an expression");
        let o = e.obfuscated(&vars, 3, 24).expect("an obfuscated expression");
        for n in o.vars() {
            assert!(vars.contains(&n), "{} in {}", n, text);
            assert!(!n.starts_with('_'));
        }
    }
}
