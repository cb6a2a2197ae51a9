//! The trees that token sequences parse to.
use crowc::ast::{
    BinOp, ExprKind, PatArgs, Pattern, Program, Stmt, TypeExpr, UnOp, VariantPayloadExpr,
};
use crowc::lexer::lex;
use crowc::parser::parse;

fn parse_src(src: &str) -> Result<Program, String> {
    parse(lex(src).expect("lex error in test"))
}

fn parse_err(src: &str) -> String {
    parse_src(src).expect_err("expected parse error")
}

#[test]
fn full_program_parses() {
    let p = parse_src(
        r#"
struct Point { x: int, y: int, }
struct Empty { }
fn dist(a: Point, b: [float], f: fn(int): bool): int { return 0; }
fn main() {
let p = Point { x: 1, y: 2 };
let e = Empty { };
let xs = [1, 2, 3,];
let f = fn(x: int): int { return x; };
for (let i = 0; i < 3; i = i + 1) { continue; }
for (;;) { break; }
while (p.x < 3) { p.x = p.x + 1; }
if (true) { } else if (false) { } else { }
xs[0] = f(xs[1]) + -p.y * 2;
return;
}
"#,
    )
    .unwrap();
    assert_eq!(p.structs.len(), 2);
    assert_eq!(p.funcs.len(), 2);
    assert_eq!(p.structs[0].fields.len(), 2);
    assert_eq!(p.funcs[0].params.len(), 3);
}

#[test]
fn precedence_shapes() {
    let p = parse_src("fn main() { let a = 1 + 2 * 3; let b = (1 + 2) * 3; }").unwrap();
    // a = Add(1, Mul(2, 3))
    let Stmt::Let { init, .. } = &p.funcs[0].body.stmts[0] else { panic!() };
    let ExprKind::Binary(BinOp::Add, _, rhs) = &init.kind else { panic!() };
    assert!(matches!(rhs.kind, ExprKind::Binary(BinOp::Mul, _, _)));
    // b = Mul(Add(1, 2), 3)
    let Stmt::Let { init, .. } = &p.funcs[0].body.stmts[1] else { panic!() };
    assert!(matches!(init.kind, ExprKind::Binary(BinOp::Mul, _, _)));
}

#[test]
fn bitwise_precedence_shapes() {
    let first_init = |src: &str| {
        let mut p = parse_src(&format!("fn main() {{ let a = {src}; }}")).unwrap();
        let Stmt::Let { init, .. } = p.funcs.remove(0).body.stmts.remove(0) else {
            panic!()
        };
        init
    };
    // Bitwise binds tighter than comparison: (x & 1) == 0.
    let e = first_init("x & 1 == 0");
    let ExprKind::Binary(BinOp::Eq, lhs, _) = &e.kind else { panic!() };
    assert!(matches!(lhs.kind, ExprKind::Binary(BinOp::BitAnd, _, _)));
    // | < ^ < & : a | (b ^ (c & d)).
    let e = first_init("a | b ^ c & d");
    let ExprKind::Binary(BinOp::BitOr, _, rhs) = &e.kind else { panic!() };
    let ExprKind::Binary(BinOp::BitXor, _, rhs) = &rhs.kind else { panic!() };
    assert!(matches!(rhs.kind, ExprKind::Binary(BinOp::BitAnd, _, _)));
    // Shifts bind tighter than & and looser than +: a & (b << (c + 1)).
    let e = first_init("a & b << c + 1");
    let ExprKind::Binary(BinOp::BitAnd, _, rhs) = &e.kind else { panic!() };
    let ExprKind::Binary(BinOp::Shl, _, rhs) = &rhs.kind else { panic!() };
    assert!(matches!(rhs.kind, ExprKind::Binary(BinOp::Add, _, _)));
    // `~` is unary and nests: ~(~x) parses.
    let e = first_init("~~x");
    let ExprKind::Unary(UnOp::BitNot, inner) = &e.kind else { panic!() };
    assert!(matches!(inner.kind, ExprKind::Unary(UnOp::BitNot, _)));
}

#[test]
fn parser_compound_assignment() {
    let p = parse_src("fn main() { x += 1; a[i] <<= 2; p.f &= 3; }").unwrap();
    let ops: Vec<Option<BinOp>> = p.funcs[0]
        .body
        .stmts
        .iter()
        .map(|s| match s {
            Stmt::Assign { op, .. } => *op,
            _ => panic!("expected assignment"),
        })
        .collect();
    assert_eq!(ops, vec![Some(BinOp::Add), Some(BinOp::Shl), Some(BinOp::BitAnd)]);
    assert!(parse_err("fn main() { 1 += 2; }").contains("invalid assignment target"));
    assert!(parse_err("fn main() { f() += 2; }").contains("invalid assignment target"));
}

#[test]
fn parser_if_expressions() {
    let p = parse_src("fn main() { let x = if c { 1 } else if d { 2 } else { 3 }; }")
        .unwrap();
    let Stmt::Let { init, .. } = &p.funcs[0].body.stmts[0] else { panic!() };
    let ExprKind::If { els, .. } = &init.kind else { panic!() };
    assert!(matches!(els.kind, ExprKind::If { .. }));
    // Branches are single expressions; else is mandatory.
    assert!(parse_err("fn main() { let x = if c { 1 }; }").contains("expected 'else'"));
    assert!(parse_err("fn main() { let x = if c { let y = 1; } else { 2 }; }")
        .contains("expected an expression"));
    // Works nested in argument position and in conditions.
    parse_src("fn main() { f(if c { 1 } else { 2 }); }").unwrap();
    parse_src("fn main() { if (if c { true } else { false }) { } }").unwrap();
}

#[test]
fn parser_tail_expressions() {
    // A trailing bare expression desugars to `return` when the function
    // returns a value...
    let p = parse_src("fn f(x: int): int { x + 1 }  fn main() { }").unwrap();
    assert!(matches!(p.funcs[0].body.stmts[0], Stmt::Return { value: Some(_), .. }));
    // ...after any number of ordinary statements...
    let p = parse_src("fn f(x: int): int { let y = x; y }  fn main() { }").unwrap();
    assert_eq!(p.funcs[0].body.stmts.len(), 2);
    assert!(matches!(p.funcs[0].body.stmts[1], Stmt::Return { .. }));
    // ...and stays a plain expression statement in a unit function.
    let p = parse_src("fn main() { println(1) }").unwrap();
    assert!(matches!(p.funcs[0].body.stmts[0], Stmt::Expr(_)));
    // Lambdas get the same rule.
    let p = parse_src("fn main() { let f = fn(x: int): int { x * 2 }; }").unwrap();
    let Stmt::Let { init, .. } = &p.funcs[0].body.stmts[0] else { panic!() };
    let ExprKind::Lambda(lam) = &init.kind else { panic!() };
    assert!(matches!(lam.body.stmts[0], Stmt::Return { .. }));
    // A parenthesized if-expression can be the tail.
    parse_src("fn f(x: int): int { (if x > 0 { 1 } else { 0 }) }  fn main() { }").unwrap();
    // Only the final statement may omit ';'; assignments always need it.
    assert!(parse_err("fn f(): int { 1 2 }").contains("expected ';'"));
    assert!(parse_err("fn main() { x = 1 }").contains("expected ';'"));
}

#[test]
fn generic_declarations() {
    let p = parse_src(
        r#"
struct Pair<T> { a: T, b: T }
struct Two<K, V> { k: K, v: V }
fn id<T>(x: T): T { return x; }
fn main() {
let a: Pair<int> = x;
let b: Pair<Pair<int>> = x;
let c: Two<string, [Pair<int>]> = x;
let d: fn(Pair<int>): int = x;
}
"#,
    )
    .unwrap();
    assert_eq!(p.structs[0].type_params, vec!["T"]);
    assert_eq!(p.structs[1].type_params, vec!["K", "V"]);
    assert_eq!(p.funcs[0].type_params, vec!["T"]);
    assert!(p.funcs[1].type_params.is_empty());
    // Nested closing angle brackets lex as two '>' tokens.
    let Stmt::Let { ann: Some(TypeExpr::Named(name, args, _)), .. } =
        &p.funcs[1].body.stmts[1]
    else {
        panic!()
    };
    assert_eq!(name, "Pair");
    assert!(matches!(&args[0], TypeExpr::Named(n, a, _) if n == "Pair" && a.len() == 1));
    assert!(parse_err("fn f<>() { }").contains("expected identifier"));
    assert!(parse_err("fn f<T() { }").contains("expected '>'"));
    assert!(parse_err("fn main() { let x: Pair<int = y; }").contains("expected '>'"));
}

#[test]
fn enum_declarations() {
    let p = parse_src(
        r#"
enum Color { Red, Green, Blue }
enum Shape<T> { Circle(float), Box(T), Rect { w: float, h: float }, Empty, }
fn main() { }
"#,
    )
    .unwrap();
    assert_eq!(p.enums.len(), 2);
    assert_eq!(p.enums[0].variants.len(), 3);
    assert!(p.enums[0]
        .variants
        .iter()
        .all(|(_, t)| matches!(t, VariantPayloadExpr::Bare)));
    assert_eq!(p.enums[1].type_params, vec!["T"]);
    assert!(matches!(p.enums[1].variants[0].1, VariantPayloadExpr::Single(_)));
    assert!(matches!(&p.enums[1].variants[2].1,
        VariantPayloadExpr::Fields(fs) if fs.len() == 2));
    assert!(matches!(p.enums[1].variants[3].1, VariantPayloadExpr::Bare));
    assert!(parse_err("enum E { A(int, int) } fn main() { }").contains("expected ')'"));
    assert!(parse_err("enum E { A: int } fn main() { }").contains("expected '}'"));
}

#[test]
fn match_forms() {
    // Statement position: arms are blocks, comma after a block optional.
    let p = parse_src(
        "fn main() { match x { E.A(v) => { f(v); } E.B => { }, _ => { } } }",
    )
    .unwrap();
    let Stmt::Match { arms, .. } = &p.funcs[0].body.stmts[0] else { panic!() };
    assert_eq!(arms.len(), 3);
    assert!(matches!(&arms[0].0,
        Pattern::Variant { args: PatArgs::Single(b), .. } if b.name == "v"));
    assert!(matches!(&arms[1].0, Pattern::Variant { args: PatArgs::Bare, .. }));
    assert!(matches!(&arms[2].0, Pattern::Wildcard { .. }));
    // Field patterns: `field: name` binds, a lone `field` is shorthand.
    let p = parse_src(
        "fn main() { match x { E.R { w: a, h } => { } _ => { } } }",
    )
    .unwrap();
    let Stmt::Match { arms, .. } = &p.funcs[0].body.stmts[0] else { panic!() };
    let Pattern::Variant { args: PatArgs::Fields(fs), .. } = &arms[0].0 else { panic!() };
    assert_eq!((fs[0].0.as_str(), fs[0].1.name.as_str()), ("w", "a"));
    assert_eq!((fs[1].0.as_str(), fs[1].1.name.as_str()), ("h", "h"));
    // Qualified variant struct literals parse in expression position...
    let p = parse_src("fn main() { let e = E.R { w: 1.0, h: 2.0 }; }").unwrap();
    let Stmt::Let { init, .. } = &p.funcs[0].body.stmts[0] else { panic!() };
    assert!(matches!(&init.kind, ExprKind::VariantStructLit { fields, .. }
        if fields.len() == 2));
    // ...but not unparenthesized in a condition (same rule as struct
    // literals): `E.R {` there reads the `{` as the body.
    assert!(parse_src("fn main() { if x == E.R { w: 1.0 } { } }").is_err());
    parse_src("fn main() { if (x == E.R { w: 1.0 }) { } }").unwrap();
    // Expression position: arms are comma-separated expressions.
    let p = parse_src(
        "fn main() { let x = match n { 0 => a, -1 => b, b'c' => c, true => d, _ => e, }; }",
    )
    .unwrap();
    let Stmt::Let { init, .. } = &p.funcs[0].body.stmts[0] else { panic!() };
    let ExprKind::Match { arms, .. } = &init.kind else { panic!() };
    assert_eq!(arms.len(), 5);
    assert!(matches!(&arms[1].0, Pattern::IntLit { neg: true, digits: 1, .. }));
    assert!(matches!(&arms[2].0, Pattern::ByteLit { value: b'c', .. }));
    assert!(matches!(&arms[3].0, Pattern::BoolLit { value: true, .. }));
    // Works nested in calls and conditions; scrutinee takes no parens.
    parse_src("fn main() { f(match x { _ => 1 }); }").unwrap();
    parse_src("fn main() { if (match x { _ => true }) { } }").unwrap();
    // A statement starting with `match` is the match statement, so a
    // tail match-expression needs parens (same rule as `if`).
    let p = parse_src("fn f(): int { (match x { _ => 1 }) }  fn main() { }").unwrap();
    assert!(matches!(p.funcs[0].body.stmts[0], Stmt::Return { .. }));
    assert!(parse_err("fn f(): int { match x { _ => 1 } }  fn main() { }")
        .contains("expected '{'"));
    // Pattern errors.
    assert!(parse_err("fn main() { match x { A => { } } }").contains("expected '.'"));
    assert!(parse_err("fn main() { match x { 1.5 => { } } }").contains("expected a pattern"));
    assert!(parse_err("fn main() { match x { -x => { } } }")
        .contains("expected an integer literal after '-'"));
    assert!(parse_err("fn main() { match x { E.A(1) => { } } }")
        .contains("expected identifier"));
    assert!(parse_err("fn main() { let y = match x { 1 => 2 3 => 4 }; }")
        .contains("expected '}'"));
}

#[test]
fn impl_blocks() {
    let p = parse_src(
        r#"
struct P { x: int }
impl P {
fn mk(v: int): P { P { x: v } }
fn get(self): int { self.x }
}
impl Pair<T> { fn first(self): T { self.a } }
fn main() { }
"#,
    )
    .unwrap();
    // Methods flatten into the function list as `Type.name`; a `self`
    // receiver becomes a synthesized first parameter of the impl type.
    assert_eq!(p.funcs[0].name, "P.mk");
    assert!(p.funcs[0].is_method && !p.methods[0].has_self);
    assert_eq!(p.funcs[1].name, "P.get");
    assert_eq!(p.funcs[1].params[0].0, "self");
    assert!(matches!(&p.funcs[1].params[0].1, TypeExpr::Named(n, a, _)
        if n == "P" && a.is_empty()));
    assert!(p.methods[1].has_self);
    // The impl's type parameters are prepended to the method's own.
    assert_eq!(p.funcs[2].type_params, vec!["T"]);
    assert_eq!(p.methods[2].impl_type_params, 1);
    assert!(matches!(&p.funcs[2].params[0].1, TypeExpr::Named(n, a, _)
        if n == "Pair" && a.len() == 1));
    // `self` is a keyword: usable in expressions, not as a binder.
    assert!(parse_err("impl P { let x = 1; } fn main() { }")
        .contains("expected 'fn' inside an impl block"));
    assert!(parse_err("impl P { fn f(self: P) { } } fn main() { }")
        .contains("'self' takes no type annotation"));
    assert!(parse_err("impl P { fn f(a: int, self) { } } fn main() { }")
        .contains("'self' must be the first parameter"));
    assert!(parse_err("fn f(self) { } fn main() { }").contains("expected identifier"));
    assert!(parse_err("fn main() { let self = 1; }").contains("expected identifier"));
    assert!(parse_err("impl P { fn f(self) }").contains("expected"));
}

#[test]
fn struct_literal_heuristic() {
    // `Ident {` is a struct literal when followed by `}` or `ident:`.
    let p = parse_src("fn main() { let p = P { x: 1 }; }").unwrap();
    let Stmt::Let { init, .. } = &p.funcs[0].body.stmts[0] else { panic!() };
    assert!(matches!(init.kind, ExprKind::StructLit { .. }));
    // ...but an expression statement followed by a block is not.
    let p = parse_src("fn main() { x; { let y = 1; } }").unwrap();
    assert!(matches!(p.funcs[0].body.stmts[1], Stmt::Block(_)));
}

#[test]
fn parser_parenless_conditions() {
    // if/while conditions need no parens; `ident {` starts the body.
    let p = parse_src("fn main() { if x {} while x { y = 1; } }").unwrap();
    assert!(matches!(p.funcs[0].body.stmts[0], Stmt::If { .. }));
    assert!(matches!(p.funcs[0].body.stmts[1], Stmt::While { .. }));
    parse_src("fn main() { if a == 1 {} else if b {} else {} }").unwrap();
    // Parens still work as plain grouping.
    parse_src("fn main() { if (a && b) {} while (x) {} }").unwrap();
    // A struct literal in a condition needs parens...
    parse_src("fn main() { if (p == Point { x: 1 }) {} }").unwrap();
    // ...and the restriction lifts inside brackets and argument lists.
    parse_src("fn main() { if f(Point { x: 1 }) {} }").unwrap();
    parse_src("fn main() { while xs[Point { x: 1 }.x] {} }").unwrap();
    // Unparenthesized, `Point {` is read as condition + body.
    assert!(parse_src("fn main() { if p == Point { x: 1 } {} }").is_err());
}

#[test]
fn cast_precedence() {
    // `as` binds tighter than `*` and looser than unary `-`.
    let p = parse_src("fn main() { let a = x as u8 * 2; let b = -x as i8; }").unwrap();
    let Stmt::Let { init, .. } = &p.funcs[0].body.stmts[0] else { panic!() };
    let ExprKind::Binary(BinOp::Mul, lhs, _) = &init.kind else { panic!() };
    assert!(matches!(lhs.kind, ExprKind::Cast(..)));
    let Stmt::Let { init, .. } = &p.funcs[0].body.stmts[1] else { panic!() };
    let ExprKind::Cast(inner, _) = &init.kind else { panic!() };
    assert!(matches!(inner.kind, ExprKind::Unary(..)));
}

#[test]
fn postfix_chains() {
    let p = parse_src("fn main() { let v = a.b[0].c(1)(2); }").unwrap();
    let Stmt::Let { init, .. } = &p.funcs[0].body.stmts[0] else { panic!() };
    // Outermost is the trailing call.
    assert!(matches!(init.kind, ExprKind::Call { .. }));
}

#[test]
fn depth_limit() {
    let deep = |n: usize| format!("fn main() {{ let x = {}1{}; }}", "(".repeat(n), ")".repeat(n));
    assert!(parse_err(&deep(100_000)).contains("nested too deeply"));
    assert!(parse_src(&deep(80)).is_ok());
    let unary = format!("fn main() {{ let b = {}true; }}", "!".repeat(100_000));
    assert!(parse_err(&unary).contains("nested too deeply"));
    let blocks = format!("fn main() {{ {} {} }}", "{".repeat(100_000), "}".repeat(100_000));
    assert!(parse_err(&blocks).contains("nested too deeply"));
    let ty = format!("fn main() {{ let x: {}int{} = y; }}", "[".repeat(100_000), "]".repeat(100_000));
    assert!(parse_err(&ty).contains("nested too deeply"));
    // The depth counter unwinds correctly: deep-but-legal nesting in one
    // statement doesn't eat budget from the next.
    let two = format!(
        "fn main() {{ let x = {p}1{q}; let y = {p}2{q}; }}",
        p = "(".repeat(80),
        q = ")".repeat(80)
    );
    assert!(parse_src(&two).is_ok());
}

#[test]
fn parser_errors() {
    assert!(parse_err("fn main() { let x = 1 }").contains("expected ';'"));
    assert!(parse_err("fn main() { 1 = 2; }").contains("invalid assignment target"));
    assert!(parse_err("fn main() { let x = ; }").contains("expected an expression"));
    assert!(parse_err("fn main() { let x: = 1; }").contains("expected a type"));
    assert!(parse_err("fn main() {").contains("expected '}'"));
    assert!(parse_err("let x = 1;")
        .contains("expected 'fn', 'struct', 'enum', or 'impl' at top level"));
    assert!(parse_err("fn () {}").contains("expected identifier"));
    assert!(parse_err("fn main( {}").contains("expected identifier"));
    assert!(parse_err("struct P { x int }").contains("expected ':'"));
    assert!(parse_err("fn main() { let x = (1; }").contains("expected ')'"));
}

#[test]
fn a_binder_is_changed_in_place() {
    let binder = |name: &str| crowc::ast::PatBinder {
        name: name.to_string(),
        local: 0,
        ty: crowc::types::Type::Bool,
    };
    let mut one = crowc::ast::PatArgs::Single(binder("x"));
    one.binder_mut(0).local = 5;
    match one {
        crowc::ast::PatArgs::Single(b) => assert_eq!((b.name.as_str(), b.local), ("x", 5)),
        _ => unreachable!(),
    }
    let mut two = crowc::ast::PatArgs::Fields(vec![
        ("a".to_string(), binder("x"), 0),
        ("b".to_string(), binder("y"), 1),
    ]);
    two.binder_mut(1).local = 7;
    match two {
        crowc::ast::PatArgs::Fields(fs) => {
            let got: Vec<_> = fs.iter().map(|f| (f.1.name.as_str(), f.1.local, f.2)).collect();
            assert_eq!(got, vec![("x", 0, 0), ("y", 7, 1)]);
        }
        _ => unreachable!(),
    }
}
