use mba::numbers::{UniformNum, UnsignedInt};
use mba::parser::int_from_it;
use mba::rewrite::{rewrite, rewrite_with};
use mba::uniform_expr::{LUExpr, UExpr, Valuation};

fn parse(s: &str) -> LUExpr<u8> {
    LUExpr::<u8>::from_string(s).expect("a linear combination")
}

fn names(v: &[&str]) -> Vec<String> {
    v.iter().map(|s| s.to_string()).collect()
}

fn valuation(vars: &[&str], values: &[u8]) -> Valuation<u8> {
    let mut val = Valuation::<u8>::zero(names(vars));
    for (n, v) in vars.iter().zip(values.iter()) {
        val.set(n, *v);
    }
    val
}

fn standard_bank() -> Vec<LUExpr<u8>> {
    ["x^y", "x|y", "x&y", "~x", "~y", "-1"].iter().map(|s| parse(s)).collect()
}

#[test]
fn uniform_expression_evaluates_bitwise() {
    let e = UExpr::from_string("(x & ~y) ^ (x | y)").unwrap();
    let val = valuation(&["x", "y"], &[0b1100_1010, 0b1010_0110]);
    let x = 0b1100_1010u8;
    let y = 0b1010_0110u8;
    assert_eq!(e.eval(&val), (x & !y) ^ (x | y));
    assert_eq!(UExpr::Ones.eval(&val), 255);
}

#[test]
fn uniform_expression_variables_are_sorted_and_unique() {
    let e = UExpr::from_string("(zeta & b) | (b ^ a) | zeta").unwrap();
    assert_eq!(e.vars(), names(&["a", "b", "zeta"]));
}

#[test]
fn uniform_expression_renames_a_variable() {
    let mut e = UExpr::from_string("x & (y | x)").unwrap();
    e.rename_var("x", "w");
    assert_eq!(e, UExpr::from_string("w & (y | w)").unwrap());
}

#[test]
fn uniform_expression_parser_binds_and_before_xor_before_or() {
    let e = UExpr::from_string("a | b ^ c & d").unwrap();
    let expected = UExpr::or(
        UExpr::var("a".to_string()),
        UExpr::xor(
            UExpr::var("b".to_string()),
            UExpr::and(UExpr::var("c".to_string()), UExpr::var("d".to_string())),
        ),
    );
    assert_eq!(e, expected);
    // operators of one strength bind to the left
    let e = UExpr::from_string("a & b & c").unwrap();
    let expected = UExpr::and(
        UExpr::and(UExpr::var("a".to_string()), UExpr::var("b".to_string())),
        UExpr::var("c".to_string()),
    );
    assert_eq!(e, expected);
}

#[test]
fn uniform_expression_parser_rejects_what_is_none() {
    assert_eq!(UExpr::from_string(""), None);
    assert_eq!(UExpr::from_string("x &"), None);
    assert_eq!(UExpr::from_string("(x"), None);
    assert_eq!(UExpr::from_string("x y )"), None);
    assert_eq!(UExpr::from_string("-2"), None);
    assert_eq!(UExpr::from_string("x + y"), None);
    assert_eq!(UExpr::from_string("\u{e9}"), None);
    assert_eq!(UExpr::from_string("-1"), Some(UExpr::Ones));
    assert_eq!(UExpr::from_string(" ! x "), Some(UExpr::not(UExpr::var("x".to_string()))));
}

#[test]
fn uniform_expression_is_unary() {
    assert!(UExpr::Ones.is_unary());
    assert!(UExpr::var("x".to_string()).is_unary());
    assert!(UExpr::not(UExpr::var("x".to_string())).is_unary());
    assert!(!UExpr::from_string("x&y").unwrap().is_unary());
}

#[test]
fn integer_parser_reduces_modulo_the_ring() {
    assert_eq!(int_from_it::<u8>("256", 0), Some((0, 3)));
    assert_eq!(int_from_it::<u8>("-1", 0), Some((255, 2)));
    assert_eq!(int_from_it::<u8>("12ab", 0), Some((12, 2)));
    assert_eq!(int_from_it::<u8>("x12", 1), Some((12, 3)));
    assert_eq!(int_from_it::<u8>("ab", 0), None);
    assert_eq!(int_from_it::<u8>("-", 0), None);
    assert_eq!(int_from_it::<u8>("", 0), None);
    assert_eq!(int_from_it::<u16>("70000", 0), Some((4464, 5)));
    assert_eq!(
        int_from_it::<u128>("340282366920938463463374607431768211456", 0),
        Some((0, 39))
    );
}

#[test]
fn linear_combination_parser_reads_terms() {
    let e = parse("2*(x&y) - 3*z + w - 5");
    assert_eq!(e.0.len(), 4);
    assert_eq!(e.0[0].0, 2);
    assert_eq!(e.0[0].1, UExpr::from_string("x&y").unwrap());
    assert_eq!(e.0[1].0, 253);
    assert_eq!(e.0[1].1, UExpr::var("z".to_string()));
    assert_eq!(e.0[2].0, 1);
    assert_eq!(e.0[3].0, 5);
    assert_eq!(e.0[3].1, UExpr::Ones);
    assert!(LUExpr::<u8>::from_string("2*").is_none());
    assert!(LUExpr::<u8>::from_string("x ? y").is_none());
    assert_eq!(parse("").0.len(), 0);
}

#[test]
fn linear_combination_constant_is_its_negative_times_ones() {
    let c = LUExpr::<u8>::constant(7);
    let val = valuation(&[], &[]);
    assert_eq!(c.0[0].0, 249);
    assert_eq!(c.eval(&val), 7);
    let v = LUExpr::<u8>::var("x".to_string());
    assert_eq!(v.eval(&valuation(&["x"], &[9])), 9);
}

#[test]
fn linear_combination_evaluates_as_a_sum_of_products() {
    let e = parse("3*(x&y) - 2*~x + 200");
    let val = valuation(&["x", "y"], &[0xf0, 0x3c]);
    let expected = 3u8
        .wrapping_mul(0xf0 & 0x3c)
        .wrapping_sub(2u8.wrapping_mul(!0xf0u8))
        .wrapping_add(200);
    assert_eq!(e.eval(&val), expected);
}

#[test]
fn linear_combination_round_trips_through_its_text() {
    for text in [
        "x + y",
        "2*(x & y) - 3*z",
        "-x + 5*-1",
        "~(x | y) - 2*(x ^ y) + 7*~x",
        "100*(a & (b | ~c))",
    ] {
        let e = parse(text);
        let printed = e.to_string();
        let again = parse(&printed);
        assert_eq!(again.0.len(), e.0.len(), "{}", printed);
        for (l, r) in again.0.iter().zip(e.0.iter()) {
            assert_eq!(l.0, r.0, "{}", printed);
            assert_eq!(l.1, r.1, "{}", printed);
        }
        assert_eq!(again.to_string(), printed);
    }
    assert_eq!(parse("2*(x&y) - 3").to_string(), "2*(x & y) + 3*-1");
    assert_eq!(parse("0*x").to_string(), "0");
    assert_eq!(parse("200*x").to_string(), "-56*x");
}

#[test]
fn rewriter_identity() {
    let e = parse("x + y");
    let ops = standard_bank();
    let r = rewrite(&e, &ops, false).expect("x + y is a combination of the standard bank");
    assert!(!r.0.is_empty());
    for (x, y) in [(0u8, 0u8), (0, 255), (255, 0), (255, 255)] {
        let val = valuation(&["x", "y"], &[x, y]);
        assert_eq!(r.eval(&val), e.eval(&val));
    }
    for (c, _) in r.0.iter() {
        assert_ne!(*c, 0);
    }
}

#[test]
fn rewriter_agrees_on_every_valuation() {
    // what agrees on the boolean valuations agrees on all of them
    let e = parse("x + y");
    let ops = standard_bank();
    let r = rewrite(&e, &ops, true).expect("x + y is a combination of the standard bank");
    for x in 0u16..256 {
        for y in 0u16..256 {
            let val = valuation(&["x", "y"], &[x as u8, y as u8]);
            assert_eq!(r.eval(&val), (x as u8).wrapping_add(y as u8));
        }
    }
}

#[test]
fn rewriter_with_given_coefficients() {
    let e = parse("x - y");
    let ops = standard_bank();
    for coeffs in [vec![], vec![1u8, 2, 3], vec![255, 254, 253, 252, 251, 250]] {
        let r = rewrite_with(&e, &ops, &coeffs).expect("a combination of the standard bank");
        for (x, y) in [(0u8, 0u8), (0, 255), (255, 0), (255, 255), (13, 200), (77, 3)] {
            let val = valuation(&["x", "y"], &[x, y]);
            assert_eq!(r.eval(&val), x.wrapping_sub(y));
        }
    }
}

#[test]
fn rewriter_fails_where_the_operations_do_not_span() {
    let e = parse("x + y");
    let ops: Vec<LUExpr<u8>> = vec![parse("x&y")];
    assert!(rewrite(&e, &ops, false).is_none());
    assert!(rewrite(&e, &[], false).is_none());
    // 2*r = x has no solution for odd x
    let e = parse("x");
    let ops: Vec<LUExpr<u8>> = vec![parse("2*x")];
    assert!(rewrite(&e, &ops, false).is_none());
}

#[test]
fn rewriter_over_wider_rings() {
    let e = LUExpr::<u64>::from_string("x + 2*y - 3").unwrap();
    let ops: Vec<LUExpr<u64>> = ["x^y", "x|y", "x&y", "~x", "~y", "-1"]
        .iter()
        .map(|s| LUExpr::<u64>::from_string(s).unwrap())
        .collect();
    let r = rewrite(&e, &ops, true).unwrap();
    let mut val = Valuation::<u64>::zero(names(&["x", "y"]));
    for (x, y) in [(0u64, 0u64), (1, 2), (u64::MAX, 12345), (0xdead_beef, 0xfeed_face_cafe)] {
        val.set("x", x);
        val.set("y", y);
        assert_eq!(r.eval(&val), x.wrapping_add(y.wrapping_mul(2)).wrapping_sub(3));
    }
    assert_eq!(<u64 as UniformNum>::not(0), u64::MAX);
    assert_eq!(<u64 as UnsignedInt>::from_u8(7), 7);
}
