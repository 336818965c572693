use jeff::ast::{
    BinOp, Domain, Effect, ExprKind, Item, Kind, Mode, PatternKind, RedKind, StmtKind, TypeArg,
    TypeKind,
};
use jeff::lexer::lex;
use jeff::parser::Parser;
use jeff::syntax::parse;

#[test]
fn parse_triangular() {
    let p = parse("total fn triangular(n: nat) -> nat: sum i in 0..=n: i\n", 0).unwrap();
    assert_eq!(p.items.len(), 1);
    let Item::Fn(f) = &p.items[0] else {
        panic!("expected fn")
    };
    assert_eq!(f.name, "triangular");
    assert_eq!(f.mode, Mode::Total);
    assert_eq!(f.params.len(), 1);
    let body = &f.body.stmts[0];
    let StmtKind::Expr(e) = &body.kind else {
        panic!("expected expr body")
    };
    assert!(matches!(e.kind, ExprKind::Reduction { .. }));
}

#[test]
fn parse_faulhaber_i_squared() {
    let p = parse("total fn s2(n: nat) -> nat: sum i in 0..=n: i*i\n", 0).unwrap();
    let Item::Fn(f) = &p.items[0] else {
        panic!()
    };
    let StmtKind::Expr(e) = &f.body.stmts[0].kind else {
        panic!()
    };
    let ExprKind::Reduction { body, .. } = &e.kind else {
        panic!()
    };
    assert!(matches!(body.kind, ExprKind::Bin(BinOp::Mul, _, _)));
}

#[test]
fn parse_secret_branch_program() {
    let p = parse(
        "total fn count_pairs(n: nat) -> nat: count (i, j) in {0 <= i <= j <= n}: 1\n",
        0,
    )
    .unwrap();
    let Item::Fn(f) = &p.items[0] else {
        panic!()
    };
    let StmtKind::Expr(e) = &f.body.stmts[0].kind else {
        panic!()
    };
    let ExprKind::Reduction { kind, domain, .. } = &e.kind else {
        panic!()
    };
    assert_eq!(*kind, RedKind::Count);
    assert!(matches!(domain, Domain::ConstraintSet(_)));
}

#[test]
fn parse_match_and_data() {
    let src = "data Tree:\n    Leaf(int)\n    Node(Tree, Tree)\n\ntotal fn s(t: Tree) -> int:\n    match t:\n        Leaf(x) => x\n        Node(l, r) => s(l) + s(r)\n";
    let p = parse(src, 0).unwrap();
    assert_eq!(p.items.len(), 2);
    assert!(matches!(p.items[0], Item::Data(_)));
}

#[test]
fn parse_collects_errors_without_panic() {
    // Missing closing paren: diagnostics, not a panic.
    let r = parse("total fn f(n: nat -> nat: 0\n", 0);
    assert!(r.is_err());
}

#[test]
fn parse_module_and_imports() {
    let src = "module examples.numerics\nimport core.fold (faulhaber)\n\ntotal fn p(n: nat) -> nat: sum i in 0..=n: i\n";
    let p = parse(src, 0).unwrap();
    assert_eq!(p.module.unwrap().parts, vec!["examples", "numerics"]);
    assert_eq!(p.imports.len(), 1);
    assert_eq!(p.imports[0].names, vec!["faulhaber"]);
}

#[test]
fn stray_dedent_at_top_level_ends_in_errors() {
    // An indented line after a non-item: the parser must still stop.
    let r = parse("x\n  y\n", 0);
    assert!(r.is_err());
}

#[test]
fn bad_constructor_line_ends_in_errors() {
    let r = parse("data T:\n    )\n", 0);
    assert!(r.is_err());
}

#[test]
fn assignment_and_lvalues() {
    let src = "fn f(a: Vec[u8, 4]):\n    var i: u8 = 0\n    a[i] = 1\n    (i) += 2\n";
    let p = parse(src, 0).unwrap();
    let Item::Fn(f) = &p.items[0] else { panic!() };
    assert_eq!(f.body.stmts.len(), 3);
    assert!(matches!(f.body.stmts[1].kind, StmtKind::Assign { .. }));
    assert!(matches!(f.body.stmts[2].kind, StmtKind::Assign { .. }));
    // a call is not an l-value
    assert!(parse("fn g():\n    h() = 1\n", 0).is_err());
}

#[test]
fn precedence_and_ranges() {
    let toks = lex("1 + 2 * 3 ** 2\n", 0).unwrap();
    let mut parser = Parser::new(toks, 0);
    let e = parser.parse_expr();
    let ExprKind::Bin(BinOp::Add, _, rhs) = &e.kind else { panic!() };
    let ExprKind::Bin(BinOp::Mul, _, pow) = &rhs.kind else { panic!() };
    assert!(matches!(pow.kind, ExprKind::Bin(BinOp::Pow, _, _)));
    let toks = lex("0..n\n", 0).unwrap();
    let e = Parser::new(toks, 0).parse_expr();
    assert!(matches!(e.kind, ExprKind::Range { inclusive: false, .. }));
}

#[test]
fn nat_succ_patterns_and_types() {
    let src = "total fn f(n: nat, k: secret[u32], m: mod[7]) -> nat:\n    match n:\n        0 => 0\n        m + 1 => m\n";
    let p = parse(src, 0).unwrap();
    let Item::Fn(f) = &p.items[0] else { panic!() };
    assert!(matches!(f.params[1].ty.kind, TypeKind::Secret(_)));
    let StmtKind::Expr(e) = &f.body.stmts[0].kind else { panic!() };
    let ExprKind::Match { arms, .. } = &e.kind else { panic!() };
    assert!(matches!(arms[1].pat.kind, PatternKind::NatSucc(_, 1)));
}

#[test]
fn parse_generics_and_effect_row() {
    let p = parse("fn f[T, n: nat](x: T) -> T / {IO, Div}: x\n", 2).unwrap();
    assert_eq!(p.span.file, 2);
    let Item::Fn(f) = &p.items[0] else {
        panic!("expected fn")
    };
    assert_eq!(f.mode, Mode::General);
    assert_eq!(f.generics.len(), 2);
    assert_eq!(f.generics[0].name, "T");
    assert_eq!(f.generics[0].kind, Kind::Type);
    assert_eq!(f.generics[1].name, "n");
    assert_eq!(f.generics[1].kind, Kind::Nat);
    assert_eq!(f.effect.labels, vec![Effect::IO, Effect::Div]);
    assert!(f.effect.span.is_some());
}

#[test]
fn parse_without_effect_row_has_none() {
    let p = parse("fn g(x: i32) -> i32: x\n", 0).unwrap();
    let Item::Fn(f) = &p.items[0] else {
        panic!("expected fn")
    };
    assert!(f.generics.is_empty());
    assert!(f.effect.labels.is_empty());
    assert!(f.effect.span.is_none());
}

#[test]
fn parse_unknown_effect_label_is_an_error() {
    assert!(parse("fn g(x: i32) -> i32 / {Foo}: x\n", 0).is_err());
}

#[test]
fn parse_bad_generic_kind_is_an_error() {
    assert!(parse("fn g[T: int](x: T) -> T: x\n", 0).is_err());
}

#[test]
fn parse_dotted_module_name() {
    let p = parse("module core.fold\nfn g(x: i32) -> i32: x\n", 0).unwrap();
    let m = p.module.expect("module name");
    assert_eq!(m.parts, vec!["core".to_string(), "fold".to_string()]);
}

#[test]
fn parse_type_alias_head() {
    let p = parse("type Pair[T] = Vec[T, 2]\n", 0).unwrap();
    let Item::TypeAlias(t) = &p.items[0] else {
        panic!("expected type alias")
    };
    assert_eq!(t.name, "Pair");
    assert_eq!(t.generics.len(), 1);
    let TypeKind::App(name, args) = &t.target.kind else {
        panic!("expected an applied type")
    };
    assert_eq!(name, "Vec");
    assert!(matches!(args[0], TypeArg::Ty(_)));
    assert!(matches!(args[1], TypeArg::Term(_)));
}

#[test]
fn parse_stray_token_is_not_an_item() {
    assert!(parse(") \n", 0).is_err());
}

#[test]
fn stray_top_level_indentation_is_an_error() {
    let toks = lex("  x\n", 0).unwrap();
    let r = Parser::new(toks, 0).parse_program();
    let ds = r.unwrap_err();
    assert!(ds.iter().any(|d| d.code == jeff::span::DiagCode::Parse));
}

#[test]
fn precedence_and_associativity_of_minus_star_pow() {
    let toks = lex("a - b - c * d ** e ** f\n", 0).unwrap();
    let e = Parser::new(toks, 0).parse_expr();
    let ExprKind::Bin(BinOp::Sub, l, r) = &e.kind else { panic!("top is -") };
    assert!(matches!(l.kind, ExprKind::Bin(BinOp::Sub, _, _)));
    let ExprKind::Bin(BinOp::Mul, _, p) = &r.kind else { panic!("right is *") };
    let ExprKind::Bin(BinOp::Pow, _, q) = &p.kind else { panic!("** under *") };
    assert!(matches!(q.kind, ExprKind::Bin(BinOp::Pow, _, _)));
}

#[test]
fn binary_literal_is_a_bitvector() {
    let p = parse("fn f() -> int: 0b101\n", 0).unwrap();
    let Item::Fn(f) = &p.items[0] else { panic!() };
    let StmtKind::Expr(e) = &f.body.stmts[0].kind else { panic!() };
    assert!(matches!(&e.kind, ExprKind::Lit(jeff::ast::Lit::Bv(d)) if d == "101"));
}

#[test]
fn missing_expression_is_an_error() {
    let ds = parse("fn f() -> int: )\n", 0).unwrap_err();
    assert!(ds.iter().any(|d| d.code == jeff::span::DiagCode::Parse));
}

#[test]
fn module_line_alone_parses() {
    let p = parse("module m\n", 0).unwrap();
    assert_eq!(p.module.unwrap().parts, vec!["m".to_string()]);
    assert!(p.imports.is_empty() && p.items.is_empty());
}

#[test]
fn one_line_functions_with_atom_bodies_parse() {
    let p = parse("total fn a(): x\n\nfn b(): 0b101\nfn c(): \"s\"\n", 0).unwrap();
    assert_eq!(p.items.len(), 3);
    let Item::Fn(f) = &p.items[1] else { panic!() };
    assert_eq!(f.name, "b");
    assert!(f.params.is_empty());
    let StmtKind::Expr(e) = &f.body.stmts[0].kind else { panic!() };
    assert!(matches!(&e.kind, ExprKind::Lit(jeff::ast::Lit::Bv(d)) if d == "101"));
    let Item::Fn(g) = &p.items[0] else { panic!() };
    assert_eq!(g.mode, Mode::Total);
    assert!(matches!(&g.body.stmts[0].kind, StmtKind::Expr(e) if matches!(&e.kind, ExprKind::Var(v) if v == "x")));
}

#[test]
fn non_lvalue_assignment_target_is_a_parse_error() {
    let ds = parse("fn f():\n    1 = 2\n", 0).unwrap_err();
    assert!(ds.iter().any(|d| d.code == jeff::span::DiagCode::Parse));
}

#[test]
fn one_line_function_with_parameters_parses() {
    let p = parse("fn f(a: u32, b: Foo,) -> u32: a\n", 0).unwrap();
    let Item::Fn(f) = &p.items[0] else { panic!() };
    assert_eq!(f.params.len(), 2);
    assert_eq!(f.params[1].name, "b");
    assert!(f.ret.is_some());
}

#[test]
fn one_line_function_with_an_operator_chain_parses() {
    let p = parse("fn mix(a: u32, b: u32) -> u32: a + b * 2 ** c\n", 0).unwrap();
    let Item::Fn(f) = &p.items[0] else { panic!() };
    let StmtKind::Expr(e) = &f.body.stmts[0].kind else { panic!() };
    let ExprKind::Bin(BinOp::Add, l, r) = &e.kind else { panic!("top is +") };
    assert!(matches!(&l.kind, ExprKind::Var(v) if v == "a"));
    assert!(matches!(&r.kind, ExprKind::Bin(BinOp::Mul, _, _)));
}

#[test]
fn function_with_an_indented_chain_body_parses() {
    let p = parse("fn mix(a: u32, b: u32) -> u32:\n    a + b\n\nfn one() -> u32: 1\n", 0).unwrap();
    assert_eq!(p.items.len(), 2);
    let Item::Fn(f) = &p.items[0] else { panic!() };
    assert_eq!(f.body.stmts.len(), 1);
    let StmtKind::Expr(e) = &f.body.stmts[0].kind else { panic!() };
    assert!(matches!(&e.kind, ExprKind::Bin(BinOp::Add, _, _)));
}

#[test]
fn attributed_function_with_secret_types_parses() {
    let src = "@constant_time\nfn mix(a: secret[u32], b: secret[u32]) -> secret[u32]:\n    a + b\n";
    let p = parse(src, 0).unwrap();
    let Item::Fn(f) = &p.items[0] else { panic!() };
    assert_eq!(f.attrs.len(), 1);
    assert_eq!(f.attrs[0].name, "constant_time");
    assert_eq!(f.params.len(), 2);
}
