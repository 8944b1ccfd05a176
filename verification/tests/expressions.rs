use mba::expr::{BinaryOp, Expr, Node, UnaryOp};
use mba::expr_parser::ExprError;
use mba::obfuscate::{
    normalize_op, obfuscate, obfuscate_linear, random_bool_expr, rewrite_random, Bitness,
    ObfLinReq, ObfuscationConfig,
};
use mba::placeholders::{find_placeholder, new_placeholder, Placeholder};
use mba::printer::Printer;
use mba::uniform_expr::{LUExpr, UExpr, Valuation};

fn parse(s: &str) -> Expr<u8> {
    Expr::<u8>::from_string(s).expect("an expression")
}

/// The value of node `i` where the variables have the values of `vars`.
fn eval(e: &Expr<u8>, i: usize, vars: &[(&str, u8)]) -> u8 {
    let mut values: Vec<u8> = Vec::new();
    for n in e.nodes.iter().take(i + 1) {
        let v = match n {
            Node::Const(c) => *c,
            Node::Var(name) => vars.iter().find(|(n, _)| n == name).map(|(_, v)| *v).unwrap_or(0),
            Node::Unary(UnaryOp::Neg, c) => 0u8.wrapping_sub(values[*c]),
            Node::Unary(UnaryOp::Not, c) => !values[*c],
            Node::Binary(op, l, r) => {
                let (l, r) = (values[*l], values[*r]);
                match op {
                    BinaryOp::Add => l.wrapping_add(r),
                    BinaryOp::Sub => l.wrapping_sub(r),
                    BinaryOp::Mul => l.wrapping_mul(r),
                    BinaryOp::Div => if r == 0 { 0 } else { l / r },
                    BinaryOp::Mod => if r == 0 { 0 } else { l % r },
                    BinaryOp::And => l & r,
                    BinaryOp::Or => l | r,
                    BinaryOp::Xor => l ^ r,
                    BinaryOp::Shl => if r >= 8 { 0 } else { l << r },
                    BinaryOp::Shr => if r >= 8 { 0 } else { l >> r },
                }
            },
        };
        values.push(v);
    }
    values[i]
}

fn value(e: &Expr<u8>, vars: &[(&str, u8)]) -> u8 {
    eval(e, e.root, vars)
}

#[test]
fn expression_parser_precedence() {
    let e = parse("a | b ^ c & d + e * f");
    let vars = [("a", 1u8), ("b", 2), ("c", 7), ("d", 9), ("e", 3), ("f", 5)];
    assert_eq!(value(&e, &vars), 1 | (2 ^ (7 & (9 + 3 * 5))));
    let e = parse("10 - 4 - 3");
    assert_eq!(value(&e, &[]), 3);
    let e = parse("10 - (4 - 3)");
    assert_eq!(value(&e, &[]), 9);
    let e = parse("-x * 2");
    assert_eq!(value(&e, &[("x", 5)]), 246);
    let e = parse("~x + 1");
    assert_eq!(value(&e, &[("x", 5)]), 251);
    let e = parse("17 / 5 % 2 + 300");
    assert_eq!(value(&e, &[]), 1 + 44);
    let e = parse("(x)");
    assert_eq!(value(&e, &[("x", 5)]), 5);
}

#[test]
fn expression_parser_stops_at_a_closing_bracket() {
    let e = parse("x + 1) * 2");
    assert_eq!(value(&e, &[("x", 5)]), 6);
}

#[test]
fn expression_parser_errors() {
    assert_eq!(Expr::<u8>::from_string("").err(), Some("Unexpected end of input".to_string()));
    assert_eq!(Expr::<u8>::from_string("x +").err(), Some("Unexpected end of input".to_string()));
    assert_eq!(Expr::<u8>::from_string("(x + 1").err(), Some("Closing bracket missing".to_string()));
    assert_eq!(Expr::<u8>::from_string("?").err(), Some("Unrecognized character".to_string()));
    assert_eq!(Expr::<u8>::from_string("x ? y").err(), Some("Unknown operator".to_string()));
    assert_eq!(Expr::<u8>::from_string("x = 2").err(), Some("Unknown operator".to_string()));
    assert_eq!(Expr::<u8>::from_string("\u{e9}").err(), Some("Unrecognized character".to_string()));
    assert_eq!(ExprError::UnknownOperator.message(), "Unknown operator");
}

#[test]
fn expression_variables_are_sorted_and_unique() {
    let e = parse("z + (b * a) - z & b");
    assert_eq!(e.vars(), vec!["a".to_string(), "b".to_string(), "z".to_string()]);
    assert_eq!(Expr::<u8>::zero().vars(), Vec::<String>::new());
}

#[test]
fn substitution_shares_the_nodes_of_the_expression() {
    let mut host = parse("x * x + y * x");
    let sub = parse("a + 1");
    let before = host.node_count();
    host.substitute(&sub, "x");
    // the number of nodes is that of the two expressions at most
    assert!(host.node_count() <= before + sub.node_count());
    assert_eq!(host.vars(), vec!["a".to_string(), "y".to_string()]);
    for (a, y) in [(0u8, 0u8), (3, 4), (255, 17)] {
        let x = a.wrapping_add(1);
        let expected = x.wrapping_mul(x).wrapping_add(y.wrapping_mul(x));
        assert_eq!(value(&host, &[("a", a), ("y", y)]), expected);
    }
    // a variable that does not occur
    let mut host = parse("y + 1");
    host.substitute(&sub, "x");
    assert_eq!(value(&host, &[("y", 4)]), 5);
    // the whole expression
    let mut host = parse("x");
    host.substitute(&sub, "x");
    assert_eq!(value(&host, &[("a", 4)]), 5);
}

#[test]
fn expression_as_a_function() {
    let e = parse("x + y * 2");
    assert_eq!(e.print_as_fn(Printer::Default), "x + y * 2");
    assert_eq!(
        e.print_as_fn(Printer::C),
        "uint8_t f(uint8_t x, uint8_t y) {\n\treturn x + y * 2;\n}"
    );
    assert_eq!(
        e.print_as_fn(Printer::Rust),
        "fn f(x: Wrapping<u8>, y: Wrapping<u8>) -> Wrapping<u8> {\n\tx + y * Wrapping(2)\n}"
    );
    let e = parse("(x + y) * ~(a - (b - c)) & -z");
    assert_eq!(e.print_as_fn(Printer::Default), "(x + y) * ~(a - (b - c)) & -z");
    assert_eq!(parse("a - b - c").print_as_fn(Printer::Default), "a - b - c");
    let e = Expr::<u32>::from_string("aux1 + x + aux0").unwrap();
    assert_eq!(
        e.print_as_fn(Printer::C),
        "uint32_t f(uint32_t x, uint32_t aux0, uint32_t aux1) {\n\treturn aux1 + x + aux0;\n}"
    );
    assert_eq!(Expr::<u8>::zero().print_as_fn(Printer::C), "uint8_t f() {\n\treturn 0;\n}");
}

#[test]
fn shared_subexpressions_get_names() {
    let mut host = parse("x * x + y");
    host.substitute(&parse("a + 1"), "x");
    assert_eq!(host.print_as_fn(Printer::Default), "var0 = a + 1\nvar0 * var0 + y");
    assert_eq!(
        host.print_as_fn(Printer::C),
        "uint8_t f(uint8_t a, uint8_t y) {\n\tuint8_t var0 = a + 1;\n\treturn var0 * var0 + y;\n}"
    );
    assert_eq!(
        host.print_as_fn(Printer::Rust),
        "fn f(a: Wrapping<u8>, y: Wrapping<u8>) -> Wrapping<u8> {\n\tlet var0 = a + Wrapping(1);\n\tvar0 * var0 + y\n}"
    );
    // a shared variable gets no name
    let mut host = parse("x * x");
    host.substitute(&parse("a"), "x");
    assert_eq!(host.print_as_fn(Printer::Default), "a * a");
    // names in the order of the nodes
    let mut host = parse("p & p | q ^ q");
    host.substitute(&parse("a + 1"), "p");
    host.substitute(&parse("b * 2"), "q");
    let text = host.print_as_fn(Printer::Default);
    assert_eq!(text, "var0 = b * 2\nvar1 = a + 1\nvar1 & var1 | var0 ^ var0");
}

#[test]
fn uniform_expressions_as_expressions() {
    let u = UExpr::from_string("~(x & y) ^ -1").unwrap();
    let e = u.to_expr::<u8>();
    assert_eq!(e.print_as_fn(Printer::Default), "~(x & y) ^ 255");
    let l = LUExpr::<u8>::from_string("x + 3*(x&y) - 2*z + 0*w").unwrap();
    let e = l.to_expr();
    assert_eq!(e.print_as_fn(Printer::Default), "x + 3 * (x & y) + 254 * z");
    for (x, y, z) in [(1u8, 2u8, 3u8), (255, 128, 77)] {
        let mut val = Valuation::<u8>::zero(vec!["w".into(), "x".into(), "y".into(), "z".into()]);
        val.set("x", x);
        val.set("y", y);
        val.set("z", z);
        assert_eq!(value(&e, &[("x", x), ("y", y), ("z", z)]), l.eval(&val));
    }
    assert_eq!(LUExpr::<u8>(vec![]).to_expr().print_as_fn(Printer::Default), "0");
}

#[test]
fn uniform_expression_printers() {
    let u = UExpr::from_string("~(x & y) ^ (-1 | ~z)").unwrap();
    assert_eq!(u.to_string(), "~(x & y) ^ (-1 | ~z)");
    assert_eq!(Printer::Default.print_uexpr(&u), "~(x & y) ^ (-1 | ~z)");
    assert_eq!(Printer::C.print_uexpr(&u), "~(x & y) ^ (-1 | ~z)");
    assert_eq!(Printer::Rust.print_uexpr(&u), "!(x & y) ^ (-1 | !z)");
    assert_eq!(
        Printer::Tex.print_uexpr(&u),
        "\\overline{x \\land y} \\oplus (-1 \\lor \\overline{z})"
    );
}

#[test]
fn linear_combination_printers() {
    let l = LUExpr::<u8>::from_string("x - 3*(x&y) + 0*z + 2*~w").unwrap();
    assert_eq!(l.to_string(), "x - 3*(x & y) + 2*~w");
    assert_eq!(
        Printer::C.print_luexpr(&l),
        "uint8_t f(uint8_t w, uint8_t x, uint8_t y, uint8_t z) {\n\treturn x - 3*(x & y) + 2*~w;\n}"
    );
    assert_eq!(
        Printer::Rust.print_luexpr(&l),
        "fn f(w: Wrapping<u8>, x: Wrapping<u8>, y: Wrapping<u8>, z: Wrapping<u8>) -> Wrapping<u8> {\n\tx - Wrapping(3u8)*(x & y) + Wrapping(2u8)*!w\n}"
    );
    assert_eq!(Printer::Tex.print_luexpr(&l), "x - 3\\cdot (x \\land y) + 2\\cdot \\overline{w}");
    let l = LUExpr::<u16>::from_string("-(x|y)").unwrap();
    assert_eq!(Printer::Default.print_luexpr(&l), "uint16_t f(uint16_t x, uint16_t y) {\n\treturn -(x | y);\n}");
    assert_eq!(Printer::Tex.print_luexpr(&LUExpr::<u8>(vec![])), "0");
}

#[test]
fn normalized_operations() {
    assert_eq!(normalize_op("x+y".to_string(), Bitness::U8), "x + y");
    assert_eq!(normalize_op(" 2 * ( x&y )- 3 ".to_string(), Bitness::U8), "2*(x & y) + 3*-1");
    assert_eq!(normalize_op("255*x".to_string(), Bitness::U8), "-x");
    assert_eq!(normalize_op("255*x".to_string(), Bitness::U16), "255*x");
    assert_eq!(normalize_op("x +* y".to_string(), Bitness::U32), "");
    assert_eq!(normalize_op("".to_string(), Bitness::U64), "0");
}

#[test]
fn random_uniform_expressions_use_the_variables() {
    let vars = vec!["a".to_string(), "b".to_string()];
    for depth in 0u8..5 {
        for _ in 0..20 {
            let u = random_bool_expr(&vars, depth);
            for v in u.vars() {
                assert!(vars.contains(&v));
            }
            assert!(!u.to_string().contains("-1"));
        }
    }
    assert!(random_bool_expr(&vars, 0).is_unary());
}

#[test]
fn random_rewrite_agrees() {
    let e = LUExpr::<u8>::from_string("x + 2*y - 7").unwrap();
    let vars = vec!["x".to_string(), "y".to_string(), "aux0".to_string()];
    let r = rewrite_random(&e, &vars, 3, 24).expect("a rewrite");
    for (x, y, a) in [(0u8, 0u8, 0u8), (1, 2, 3), (255, 254, 253), (17, 99, 200)] {
        let mut val = Valuation::<u8>::zero(vars.clone());
        val.set("x", x);
        val.set("y", y);
        val.set("aux0", a);
        assert_eq!(r.eval(&val), x.wrapping_add(y.wrapping_mul(2)).wrapping_sub(7));
    }
    assert!(rewrite_random(&LUExpr::<u8>::constant(3), &vec![], 3, 24).is_none());
}

#[test]
fn obfuscation_keeps_the_values() {
    for text in [
        "x + y",
        "x * y + (x & y) - 3",
        "(x ^ y) * (x + 2 * y) - ~x",
        "x / (y | 1) + x % 7",
        "-(x + y) * -x",
        "17",
    ] {
        let e = parse(text);
        let vars = vec!["x".to_string(), "y".to_string(), "aux0".to_string()];
        let o = e.obfuscated(&vars, 3, 24).expect("an obfuscated expression");
        for (x, y, a) in [(0u8, 0u8, 0u8), (1, 2, 3), (255, 254, 253), (17, 99, 200), (128, 64, 1)] {
            let at = [("x", x), ("y", y), ("aux0", a)];
            assert_eq!(value(&o, &at), value(&e, &at), "{}", text);
        }
    }
}

#[test]
fn obfuscation_from_a_configuration() {
    let mut cfg = ObfuscationConfig::new();
    assert_eq!(cfg.rewrite_count, 24);
    assert_eq!(cfg.rewrite_depth, 3);
    cfg.set_expr("x + y * 3".to_string());
    let text = obfuscate(&cfg).expect("an obfuscated function");
    assert!(text.starts_with("uint8_t f(uint8_t x, uint8_t y) {\n"));
    assert!(text.ends_with(";\n}"));
    cfg.width = Bitness::U64;
    cfg.printer = Printer::Rust;
    cfg.aux_vars = 2;
    let text = obfuscate(&cfg).expect("an obfuscated function");
    // The parameters are the variables that the random rewrite has left in the
    // expression, in the order x, y, aux0, aux1.
    let head = text.lines().next().expect("a first line");
    assert!(head.starts_with("fn f("));
    assert!(head.ends_with(") -> Wrapping<u64> {"));
    let params = &head["fn f(".len()..head.len() - ") -> Wrapping<u64> {".len()];
    let all = ["x: Wrapping<u64>", "y: Wrapping<u64>", "aux0: Wrapping<u64>", "aux1: Wrapping<u64>"];
    let mut next = 0;
    for p in params.split(", ").filter(|p| !p.is_empty()) {
        let at = all.iter().position(|a| *a == p).expect("a known parameter");
        assert!(at >= next, "{}", head);
        next = at + 1;
    }
    cfg.set_expr("1 + 2".to_string());
    cfg.aux_vars = 0;
    assert_eq!(
        obfuscate(&cfg),
        Err("No variables to obfuscate with. Add auxiliary variables.".to_string())
    );
    cfg.set_expr("1 +".to_string());
    assert_eq!(obfuscate(&cfg), Err("Unexpected end of input".to_string()));
    cfg.set_expr("x".to_string());
    cfg.printer = Printer::Tex;
    assert_eq!(
        obfuscate(&cfg),
        Err("Tex printing is not supported for general expressions.".to_string())
    );
}

fn request(expr: &str, ops: &[&str]) -> ObfLinReq {
    let mut req = ObfLinReq::new();
    req.set_expr(expr.to_string());
    for op in ops {
        req.add_op(op.to_string());
    }
    req.printer = Printer::Tex;
    req.randomize = false;
    req
}

#[test]
fn linear_obfuscation_from_a_request() {
    assert!(ObfLinReq::new().randomize);
    let req = request("x + y", &["x^y", "x|y", "x&y", "~x", "~y", "-1"]);
    assert_eq!(req.ops.len(), 6);
    let text = obfuscate_linear(req).expect("a rewritten expression");
    let r = LUExpr::<u8>::from_string("x + y").unwrap();
    assert!(!text.is_empty());
    assert_ne!(text, r.to_string());
    assert_eq!(
        obfuscate_linear(request("x + y", &["x&y"])),
        Err("Operations can't be used to rewrite the input".to_string())
    );
    assert_eq!(
        obfuscate_linear(request("x * y", &["x&y"])),
        Err("Input is not a linear combination of uniform expressions".to_string())
    );
    assert_eq!(
        obfuscate_linear(request("x + y", &["x&y", "x*y"])),
        Err("Operation is not a linear combination of uniform expressions".to_string())
    );
}

#[test]
fn placeholders_are_named_by_their_numbers() {
    let mut subs: Vec<Placeholder> = Vec::new();
    for k in 0..12usize {
        let u = new_placeholder(&mut subs, 100 + k);
        assert_eq!(u, UExpr::Var(format!("_sub_{}", k)));
        assert_eq!(subs.len(), k + 1);
        assert_eq!(subs[k].node, 100 + k);
        assert_eq!(subs[k].name, format!("_sub_{}", k));
    }
    assert_eq!(find_placeholder(&subs, "_sub_0"), Some(0));
    assert_eq!(find_placeholder(&subs, "_sub_1"), Some(1));
    assert_eq!(find_placeholder(&subs, "_sub_11"), Some(11));
    assert_eq!(find_placeholder(&subs, "_sub_12"), None);
    assert_eq!(find_placeholder(&subs, "_sub_"), None);
    assert_eq!(find_placeholder(&subs, "x"), None);
    assert_eq!(find_placeholder(&Vec::new(), "_sub_0"), None);
}

#[test]
fn a_name_of_an_expression_begins_with_a_letter() {
    assert!(Expr::<u8>::from_string("_sub_0 + 1").is_err());
    assert!(Expr::<u8>::from_string("_x").is_err());
    assert!(Expr::<u8>::from_string("x_1").is_err());
    assert!(Expr::<u8>::from_string("x1 + Sub0").is_ok());
}

#[test]
fn a_linear_combination_is_read_as_it_is_written() {
    let x = || UExpr::Var("x".to_string());
    let y = || UExpr::Var("y1".to_string());
    let and = |l: UExpr, r: UExpr| UExpr::And(Box::new(l), Box::new(r));
    let or = |l: UExpr, r: UExpr| UExpr::Or(Box::new(l), Box::new(r));
    let xor = |l: UExpr, r: UExpr| UExpr::Xor(Box::new(l), Box::new(r));
    let not = |e: UExpr| UExpr::Not(Box::new(e));
    let cases: Vec<Vec<(u8, UExpr)>> = vec![
        vec![(1, x())],
        vec![(255, x())],
        vec![(1, UExpr::Ones)],
        vec![(255, UExpr::Ones)],
        vec![(255, and(UExpr::Ones, x()))],
        vec![(3, and(UExpr::Ones, x())), (1, UExpr::Ones)],
        vec![(2, or(x(), not(y()))), (128, xor(not(not(x())), and(y(), x()))), (127, y())],
        vec![(1, and(or(x(), y()), xor(x(), UExpr::Ones))), (200, not(and(x(), y())))],
        vec![(1, x()), (3, UExpr::Ones), (253, UExpr::Ones)],
        vec![(1, x()), (255, UExpr::Ones), (1, UExpr::Ones), (255, y())],
    ];
    for terms in cases {
        let e = LUExpr::<u8>(terms);
        let text = e.to_string();
        let read = LUExpr::<u8>::from_string(&text).expect(&text);
        assert_eq!(read.0, e.0, "{}", text);
    }
    let e = LUExpr::<u8>(vec![(0, x()), (2, x()), (0, y())]);
    assert_eq!(LUExpr::<u8>::from_string(&e.to_string()).unwrap().0, vec![(2, x())]);
    let zero = LUExpr::<u8>(vec![]);
    assert_eq!(zero.to_string(), "0");
    assert_eq!(LUExpr::<u8>::from_string("0").unwrap().0, vec![(0, UExpr::Ones)]);
}

#[test]
fn a_term_with_a_minus_sign_after_a_minus_sign_is_added() {
    let x = UExpr::Var("x".to_string());
    let e = LUExpr::<u8>(vec![(1, x.copy()), (255, UExpr::Ones)]);
    assert_eq!(e.to_string(), "x - -1");
    let read = LUExpr::<u8>::from_string("x - -1").unwrap();
    assert_eq!(read.0, vec![(1, x.copy()), (255, UExpr::Ones)]);
    let read = LUExpr::<u8>::from_string("x + -1").unwrap();
    assert_eq!(read.0, vec![(1, x.copy()), (1, UExpr::Ones)]);
    let read = LUExpr::<u8>::from_string("x - -3*y").unwrap();
    assert_eq!(read.0, vec![(1, x.copy()), (3, UExpr::Var("y".to_string()))]);
    let read = LUExpr::<u8>::from_string("x - -y").unwrap();
    assert_eq!(read.0, vec![(1, x.copy()), (1, UExpr::Var("y".to_string()))]);
    let read = LUExpr::<u8>::from_string("x - -5").unwrap();
    assert_eq!(read.0, vec![(1, x.copy()), (251, UExpr::Ones)]);
    // The first term is read with both signs.
    let e = LUExpr::<u8>(vec![(255, UExpr::Ones), (1, x.copy())]);
    assert_eq!(e.to_string(), "--1 + x");
    let read = LUExpr::<u8>::from_string("--1 + x").unwrap();
    assert_eq!(read.0, vec![(255, UExpr::Ones), (1, x.copy())]);
    // A term that begins with the constant is taken for a number.
    let e = LUExpr::<u8>(vec![(1, UExpr::And(Box::new(UExpr::Ones), Box::new(x.copy())))]);
    assert_eq!(e.to_string(), "-1 & x");
    assert!(LUExpr::<u8>::from_string("-1 & x").is_none());
}

#[test]
fn shifts_bind_more_than_bitwise_operators_and_less_than_sums() {
    let e = parse("x << 2 + 1");
    assert_eq!(value(&e, &[("x", 3)]), 3 << 3);
    let e = parse("x >> 1 & 3");
    assert_eq!(value(&e, &[("x", 0b1110)]), (0b1110 >> 1) & 3);
    let e = parse("64 >> 2 >> 1");
    assert_eq!(value(&e, &[]), 8);
    let e = parse("1 << 2 << 3");
    assert_eq!(value(&e, &[]), 32);
    let e = parse("(x << y) * 3");
    assert_eq!(value(&e, &[("x", 5), ("y", 4)]), 80u8.wrapping_mul(3));
    match &e.nodes[e.root] {
        Node::Binary(BinaryOp::Mul, l, _) => {
            assert!(matches!(e.nodes[*l], Node::Binary(BinaryOp::Shl, _, _)));
        },
        n => panic!("{:?}", n),
    }
    assert_eq!(parse("a >> b").print_as_fn(Printer::Default), "a >> b");
    assert_eq!(parse("a<<b|c").print_as_fn(Printer::Default), "a << b | c");
}

#[test]
fn half_a_shift_is_no_operator() {
    assert_eq!(Expr::<u8>::from_string("x < 2").err(), Some("Unknown operator".to_string()));
    assert_eq!(Expr::<u8>::from_string("x > 2").err(), Some("Unknown operator".to_string()));
    assert_eq!(Expr::<u8>::from_string("x <> 2").err(), Some("Unknown operator".to_string()));
    assert_eq!(Expr::<u8>::from_string("x <").err(), Some("Unknown operator".to_string()));
    assert_eq!(Expr::<u8>::from_string("x <<").err(), Some("Unexpected end of input".to_string()));
    assert_eq!(Expr::<u8>::from_string("x <<< 1").err(), Some("Unrecognized character".to_string()));
}

#[test]
fn nothing_is_rewritten_without_operations_or_variables() {
    let e = LUExpr::<u8>::from_string("x + y").unwrap();
    let vars = vec!["x".to_string(), "y".to_string()];
    assert!(rewrite_random(&e, &vars, 3, 0).is_none());
    let c = LUExpr::<u8>::from_string("5").unwrap();
    assert!(rewrite_random(&c, &Vec::new(), 3, 24).is_none());
    assert!(rewrite_random(&c, &vars, 3, 24).is_some());
    assert!(parse("x + y").obfuscated(&vars, 3, 0).is_none());
    assert!(parse("5").obfuscated(&Vec::new(), 3, 24).is_none());
}

#[test]
fn a_rewritten_combination_has_known_variables_and_no_zero_term() {
    let e = LUExpr::<u8>::from_string("x + 2*(x&y)").unwrap();
    let vars = vec!["aux0".to_string(), "x".to_string()];
    for _ in 0..10 {
        let r = rewrite_random(&e, &vars, 3, 24).expect("a rewritten combination");
        for (c, _) in r.0.iter() {
            assert_ne!(*c, 0);
        }
        for n in r.vars() {
            assert!(n == "aux0" || n == "x" || n == "y", "{}", n);
        }
    }
}

#[test]
fn a_node_with_an_obfuscated_form_keeps_it() {
    let e = parse("(x + y) * (x + y)");
    let vars = vec!["x".to_string(), "y".to_string()];
    let counts = e.use_counts();
    let mut memo: Vec<Option<usize>> = vec![None; e.nodes.len()];
    let mut out: Vec<Node<u8>> = Vec::new();
    let first = e.obfuscate_expr(0, &counts, &mut memo, &mut out, &vars, 3, 24).expect("a form");
    assert_eq!(memo[0], Some(first));
    let len = out.len();
    let kept = memo.clone();
    // The second time the form is found, and nothing is put after the nodes.
    let again = e.obfuscate_expr(0, &counts, &mut memo, &mut out, &vars, 3, 24);
    assert_eq!(again, Some(first));
    assert_eq!(out.len(), len);
    assert_eq!(memo, kept);
    // Without operations a node with a form still has it.
    let again = e.obfuscate_expr(0, &counts, &mut memo, &mut out, &vars, 3, 0);
    assert_eq!(again, Some(first));
    let root = e.obfuscate_expr(e.root, &counts, &mut memo, &mut out, &vars, 3, 24).expect("a form");
    assert_eq!(memo[e.root], Some(root));
    assert_eq!(memo[0], Some(first));
    let o = Expr { nodes: out, root };
    for (x, y) in [(0u8, 0u8), (3, 4), (200, 100), (255, 255)] {
        let at = [("x", x), ("y", y)];
        assert_eq!(value(&o, &at), value(&e, &at));
    }
}
