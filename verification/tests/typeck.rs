//! What the checker infers, resolves and rejects.
use crowc::ast::{ExprKind, Program, Stmt};
use crowc::lexer::lex;
use crowc::parser::parse;
use crowc::typeck::{check, Checked};
use crowc::types::{IntKind, Type};

fn check_src(src: &str) -> Result<(Program, Checked), String> {
    let toks = lex(src).expect("lex error in test");
    let mut program = parse(toks).expect("parse error in test");
    let checked = check(&mut program)?;
    Ok((program, checked))
}

fn err(src: &str) -> String {
    check_src(src).map(|_| ()).expect_err("expected a type error")
}

fn int_ty() -> Type {
    Type::int_type()
}

fn expect_compile_error(src: &str, needle: &str) {
    let m = match lex(src) {
        Err(m) => m,
        Ok(toks) => match parse(toks) {
            Err(m) => m,
            Ok(mut program) => match check(&mut program) {
                Err(m) => m,
                Ok(_) => panic!("expected compile error containing '{needle}' for:\n{src}"),
            },
        },
    };
    assert!(m.contains(needle), "expected '{needle}' in compile error, got: {m}");
}

/// Wrap a snippet in `fn main() { ... }`.
fn err_in_main(body: &str) -> String {
    err(&format!("fn main() {{ {body} }}"))
}

#[test]
fn local_inference() {
    let (_, checked) = check_src(
        r#"fn main() {
            let a = 1;
            let b = 1.5;
            let c = true;
            let d = "s";
            let e = [1, 2];
            let f = fn(x: int): int { return x; };
            let g: [string] = [];
        }"#,
    )
    .unwrap();
    let main_locals = &checked.func_locals[0];
    assert_eq!(main_locals[0], int_ty());
    assert_eq!(main_locals[1], Type::Float);
    assert_eq!(main_locals[2], Type::Bool);
    assert_eq!(main_locals[3], Type::Str);
    assert_eq!(main_locals[4], Type::Array(Box::new(int_ty())));
    assert_eq!(main_locals[5], Type::Fn(vec![int_ty()], Box::new(int_ty())));
    assert_eq!(main_locals[6], Type::Array(Box::new(Type::Str)));
}

#[test]
fn sized_int_inference() {
    let (_, checked) = check_src(
        r#"fn main() {
            let a: u8 = 255;
            let b: i8 = -128;
            let c: i64 = 1;
            let d: int = c;
            let e: u64 = 18446744073709551615;
            let f = a as u32;
            let g: [u16] = [1, 2];
        }"#,
    )
    .unwrap();
    let locals = &checked.func_locals[0];
    assert_eq!(locals[0], Type::Int(IntKind::U8));
    assert_eq!(locals[1], Type::Int(IntKind::I8));
    assert_eq!(locals[2], int_ty()); // i64 is an alias of int
    assert_eq!(locals[3], int_ty());
    assert_eq!(locals[4], Type::Int(IntKind::U64));
    assert_eq!(locals[5], Type::Int(IntKind::U32));
    assert_eq!(locals[6], Type::Array(Box::new(Type::Int(IntKind::U16))));
}

#[test]
fn sized_int_errors() {
    assert!(err_in_main("let x: u8 = 256;").contains("out of range for u8"));
    assert!(err_in_main("let x: i8 = -129;").contains("out of range for i8"));
    assert!(err_in_main("let x = 18446744073709551615;").contains("out of range for int"));
    assert!(err_in_main("let a: u8 = 1; let b: u16 = 2; let c = a + b;")
        .contains("arithmetic on mixed types u8 and u16"));
    assert!(err_in_main("let a: u8 = 1; let b = -a;").contains("needs a signed int"));
    assert!(err_in_main("let s = \"x\" as int;").contains("cannot cast string to int"));
    assert!(err_in_main("let x = 1 as string;").contains("cast target must be a numeric"));
    assert!(err_in_main("let x = 300 as u8;").contains("out of range for u8"));
    assert!(err("struct u8 { x: int } fn main() { }").contains("shadows a primitive type"));
    assert!(err("struct i64 { x: int } fn main() { }").contains("shadows a primitive type"));
}

#[test]
fn capture_analysis() {
    let (program, _) = check_src(
        r#"fn main() {
            let a = 1;
            let s = "x";
            let f = fn(): int { assert(s == "x"); return a; };
            f();
        }"#,
    )
    .unwrap();
    let Stmt::Let { init, .. } = &program.funcs[0].body.stmts[2] else { panic!() };
    let ExprKind::Lambda(lam) = &init.kind else { panic!() };
    assert_eq!(lam.captures.len(), 2);
    assert_eq!(lam.captures[0].name, "s");
    assert_eq!(lam.captures[1].name, "a");
    assert_eq!(lam.captures[1].ty, int_ty());
}

#[test]
fn name_errors() {
    assert!(err_in_main("let x: Foo = 1;").contains("unknown type 'Foo'"));
    assert!(err_in_main("println(x);").contains("unknown variable 'x'"));
    assert!(err_in_main("foo();").contains("unknown function 'foo'"));
    assert!(err_in_main("let p = P { x: 1 };").contains("unknown struct 'P'"));
    assert!(err("struct P { x: int } fn main() { let p = P { x: 1 }; println(p.y); }")
        .contains("no field or method 'y'"));
    assert!(err("struct P { x: int } fn main() { let p = P { y: 1 }; }")
        .contains("no field 'y'"));
}

#[test]
fn duplicate_errors() {
    assert!(err("struct P { x: int } struct P { y: int } fn main() { }")
        .contains("duplicate struct"));
    assert!(err("fn f() { } fn f() { } fn main() { }").contains("duplicate function"));
    assert!(err("struct P { x: int, x: int } fn main() { }").contains("duplicate field"));
    assert!(err("struct P { x: int } fn main() { let p = P { x: 1, x: 2 }; }")
        .contains("duplicate field"));
    assert!(err("struct int { x: int } fn main() { }").contains("shadows a primitive type"));
}

#[test]
fn struct_literal_errors() {
    assert!(err("struct P { x: int, y: int } fn main() { let p = P { x: 1 }; }")
        .contains("missing field 'y'"));
}

#[test]
fn call_errors() {
    let src = "fn f(a: int, b: int): int { return a; } fn main() { f(1); }";
    assert!(err(src).contains("expects 2 argument(s), got 1"));
    let src = "fn f(a: int): int { return a; } fn main() { f(true); }";
    assert!(err(src).contains("type mismatch"));
    assert!(err_in_main("let x = 1; x();").contains("cannot call a value of type int"));
}

#[test]
fn type_mismatch_errors() {
    assert!(err_in_main("let x: int = 1; let y: bool = x;").contains("type mismatch"));
    assert!(err_in_main("if (1) { }").contains("condition must be 'bool'"));
    assert!(err_in_main("while (\"x\") { }").contains("condition must be 'bool'"));
    assert!(err_in_main("let x = 1 + \"s\";").contains("arithmetic on mixed types"));
    assert!(err_in_main("let x = 1 + 1.5;").contains("arithmetic on mixed types"));
    assert!(err_in_main("let x = true + false;").contains("invalid operand type"));
    assert!(err_in_main("let x = 1.5 % 2.0;").contains("invalid operand type"));
    assert!(err_in_main("let x = 1 == \"s\";").contains("cannot compare"));
    assert!(err_in_main("let x = \"nil\";  x = 1;").contains("type mismatch"));
    assert!(err_in_main("let x = \"a\" < \"b\";")
        .contains("comparison needs two ints or two floats"));
    assert!(err_in_main("let x = 1 && true;").contains("logical operator needs bool"));
    assert!(err_in_main("let x = -true;").contains("operator '-' needs a signed int or float"));
    assert!(err_in_main("let x = !1;").contains("operator '!' needs bool"));
}

#[test]
fn assignment_errors() {
    assert!(err("fn f() { } fn main() { f = f; }").contains("cannot assign to function"));
    assert!(err_in_main("let n = 1; let f = fn() { n = 2; }; f();")
        .contains("capture by value"));
    assert!(err_in_main("let x = 1; x = \"s\";").contains("type mismatch"));
}

#[test]
fn return_errors() {
    assert!(err("fn f(): int { let x = 1; } fn main() { }")
        .contains("must return a value on all paths"));
    assert!(err("fn f(): int { if (true) { return 1; } } fn main() { }")
        .contains("must return a value on all paths"));
    assert!(err("fn f() { return 1; } fn main() { }")
        .contains("does not return a value"));
    assert!(err("fn f(): int { return; } fn main() { }")
        .contains("must return a value of type int"));
    assert!(err("fn f(): int { return true; } fn main() { }").contains("type mismatch"));
    assert!(err_in_main("let f = fn(): int { let x = 1; };")
        .contains("lambda must return a value on all paths"));
    // Both branches returning satisfies the path check.
    check_src("fn f(): int { if (true) { return 1; } else { return 2; } } fn main() { }")
        .unwrap();
}

#[test]
fn loop_errors() {
    assert!(err_in_main("break;").contains("outside of a loop"));
    assert!(err_in_main("continue;").contains("outside of a loop"));
    assert!(err_in_main("let f = fn() { break; }; f();").contains("outside of a loop"));
}

#[test]
fn inference_errors() {
    assert!(err_in_main("let x = [];").contains("cannot infer the type of an empty array"));
    assert!(err("fn f() { } fn main() { let x = f(); }").contains("initializer has no value"));
}

#[test]
fn builtin_errors() {
    assert!(err("struct P { x: int } fn main() { println(P { x: 1 }); }")
        .contains("cannot print a value of type P"));
    assert!(err_in_main("println(1, 2);").contains("expects 1 argument(s)"));
    assert!(err_in_main("let x = 1.len();").contains("type int has no method 'len'"));
    assert!(err_in_main("1.push(2);").contains("type int has no method 'push'"));
    assert!(err_in_main("let x = 1.pop();").contains("type int has no method 'pop'"));
    assert!(err_in_main("let xs = [1]; xs.push(\"s\");").contains("type mismatch"));
    assert!(err_in_main("let x = true.to_string();")
        .contains("type bool has no method 'to_string'"));
    assert!(err_in_main("let xs = [1]; xs.push(1, 2);")
        .contains("method 'push' expects 1 argument(s), got 2"));
    assert!(err_in_main("let xs = [1]; let n = xs.len(1);")
        .contains("method 'len' expects 0 argument(s), got 1"));
    assert!(err_in_main("assert(1);").contains("type mismatch"));
    assert!(err_in_main("let p = println;").contains("can only be called"));
    assert!(err_in_main("let xs = [1]; let s = xs.len;")
        .contains("builtin method 'len' can only be called"));
    // Retired free-function forms point at the method spelling.
    assert!(err_in_main("let xs = [1]; let n = len(xs);")
        .contains("'len' is now a method: write x.len()"));
    assert!(err_in_main("let s = itos(1);").contains("write i.to_string()"));
    assert!(err_in_main("let i = ftoi(1.5);").contains("write f as int"));
    assert!(err_in_main("let f = len;").contains("'len' is now a method"));
}

#[test]
fn index_and_field_errors() {
    assert!(err_in_main("let x = 1; println(x[0]);").contains("cannot index a value of type"));
    assert!(err_in_main("let xs = [1]; println(xs[true]);")
        .contains("array index must be int"));
    assert!(err_in_main("let x = 1; println(x.y);").contains("type int has no method 'y'"));
    assert!(err_in_main("let s = \"x\"; println(s.len);")
        .contains("builtin method 'len' can only be called"));
}

#[test]
fn main_signature_errors() {
    assert!(err("fn not_main() { }").contains("no 'main' function defined"));
    assert!(err("fn main(x: int) { }").contains("'main' must take no parameters"));
    assert!(err("fn main(): int { return 1; }").contains("'main' must take no parameters"));
}

#[test]
fn generic_inference_and_instantiation() {
    let (program, _) = check_src(
        r#"struct Pair<T> { a: T, b: T }
           fn id<T>(x: T): T { return x; }
           fn firsts<T, U>(xs: [T], ys: [U]): T { return xs[0]; }
           fn main() {
               let a = id(1);
               let b = id("s");
               let c = firsts([1.5], ["x"]);
               let p = Pair { a: 1, b: 2 };
               let q: Pair<string> = Pair { a: "x", b: "y" };
           }"#,
    )
    .unwrap();
    let get_inst = |stmt: &Stmt| -> Vec<Type> {
        let Stmt::Let { init, .. } = stmt else { panic!() };
        let ExprKind::Call { inst, .. } = &init.kind else { panic!() };
        inst.clone()
    };
    let stmts = &program.funcs[2].body.stmts;
    assert_eq!(get_inst(&stmts[0]), vec![int_ty()]);
    assert_eq!(get_inst(&stmts[1]), vec![Type::Str]);
    assert_eq!(get_inst(&stmts[2]), vec![Type::Float, Type::Str]);
    let Stmt::Let { init, .. } = &stmts[3] else { panic!() };
    assert_eq!(init.ty, Type::Struct(0, vec![int_ty()]));
    let Stmt::Let { init, .. } = &stmts[4] else { panic!() };
    assert_eq!(init.ty, Type::Struct(0, vec![Type::Str]));
}

#[test]
fn generic_errors() {
    // Operations that are semantically type-directed are rejected on
    // opaque type parameters.
    assert!(err("fn f<T>(x: T): bool { return x == x; } fn main() { f(1); }")
        .contains("cannot compare values of generic type T"));
    assert!(err("fn f<T>(x: T): T { return x + x; } fn main() { f(1); }")
        .contains("invalid operand type T"));
    assert!(err("fn f<T>(x: T): bool { return x < x; } fn main() { f(1); }")
        .contains("comparison needs two ints or two floats"));
    assert!(err("fn f<T>(x: T) { println(x); } fn main() { f(1); }")
        .contains("cannot print a value of type T"));
    assert!(err("fn f<T>(x: T): int { return x as int; } fn main() { f(1); }")
        .contains("cannot cast T to int"));
    assert!(err("fn f<T>(x: T) { let y: T = 1; } fn main() { f(1); }")
        .contains("type mismatch: expected T, found int"));
    // Inference failures.
    assert!(err("fn f<T>(): [T] { return []; } fn main() { f(); }")
        .contains("cannot infer type parameter 'T' of 'f'"));
    assert!(err("fn f<T>(a: T, b: T) { } fn main() { f(1, \"s\"); }")
        .contains("type mismatch"));
    // Generic functions are not first-class values.
    assert!(err("fn f<T>(x: T): T { return x; } fn main() { let g = f; }")
        .contains("can only be called directly"));
    // Type argument arity and scoping.
    assert!(err("struct P<T> { v: T } fn main() { let p: P<int, int> = P { v: 1 }; }")
        .contains("expects 1 type argument(s), got 2"));
    assert!(err("struct P<T> { v: T } fn main() { let p: P = P { v: 1 }; }")
        .contains("expects 1 type argument(s), got 0"));
    assert!(err("struct P { v: int } fn main() { let p: P<int> = P { v: 1 }; }")
        .contains("expects 0 type argument(s), got 1"));
    assert!(err("fn main() { let x: int<bool> = 1; }")
        .contains("takes no type arguments"));
    assert!(err("fn f<T, T>(x: T) { } fn main() { }")
        .contains("duplicate type parameter"));
    assert!(err("fn f<u8>(x: u8) { } fn main() { }")
        .contains("shadows a primitive type"));
    assert!(err("fn f(x: T) { } fn main() { }").contains("unknown type 'T'"));
    assert!(err("fn main<T>() { }").contains("'main' cannot be generic"));
    // Instantiations are distinct types.
    assert!(err(
        "struct P<T> { v: T } \
         fn main() { let a = P { v: 1 }; let u: u8 = 2; let b = P { v: u }; a = b; }"
    )
    .contains("type mismatch: expected P<int>, found P<u8>"));
}

#[test]
fn bitwise_and_shift_rules() {
    check_src(
        r#"fn main() {
            let a = 6 & 3 | 8 ^ 1;
            let b = 1 << 4 >> 2;
            let c = ~a;
            let d: u8 = 0;
            let e = d & 15;          // literal adopts u8
            let f = ~d;              // ~ keeps the operand type
            let g: u8 = ~1;          // context flows through ~
            d <<= 2;
        }"#,
    )
    .unwrap();
    assert!(err_in_main("let a: u8 = 1; let b: u16 = 2; let c = a & b;")
        .contains("arithmetic on mixed types u8 and u16"));
    assert!(err_in_main("let x = 1.5 & 2.0;").contains("operator '&' needs integer"));
    assert!(err_in_main("let x = true | false;").contains("operator '|' needs integer"));
    assert!(err_in_main("let x = 1.5 << 2.0;").contains("operator '<<' needs integer"));
    assert!(err_in_main("let x = \"a\" ^ \"b\";").contains("operator '^' needs integer"));
    assert!(err_in_main("let x = ~true;").contains("operator '~' needs an integer"));
    assert!(err_in_main("let x = ~1.5;").contains("operator '~' needs an integer"));
    assert!(err("fn f<T>(x: T): T { return x & x; } fn main() { f(1); }")
        .contains("operator '&' needs integer"));
}

#[test]
fn byte_literals_are_u8() {
    let (_, checked) = check_src(
        r#"fn main() {
            let a = b'a';
            let s = "xy";
            let eq = s[0] == b'x';
            let d = s[1] - b'0';
        }"#,
    )
    .unwrap();
    assert_eq!(checked.func_locals[0][0], Type::Int(IntKind::U8));
    assert_eq!(checked.func_locals[0][3], Type::Int(IntKind::U8));
    // Exactly u8: no context adoption.
    assert!(err_in_main("let x: int = b'a';").contains("type mismatch"));
    assert!(err_in_main("let x = 1 + b'a';").contains("arithmetic on mixed types"));
}

#[test]
fn string_indexing_rules() {
    let (_, checked) =
        check_src("fn main() { let s = \"abc\"; let b = s[1]; }").unwrap();
    assert_eq!(checked.func_locals[0][1], Type::Int(IntKind::U8));
    assert!(err_in_main("let s = \"abc\"; s[0] = b'x';").contains("strings are immutable"));
    assert!(err_in_main("let s = \"abc\"; s[0] += 1;").contains("strings are immutable"));
    assert!(err_in_main("let s = \"abc\"; let b = s[true];")
        .contains("array index must be int"));
}

#[test]
fn compound_assignment_rules() {
    check_src(
        r#"struct P { n: int, s: string }
           fn main() {
               let x = 1;
               x += 2; x -= 1; x *= 3; x /= 2; x %= 2;
               x &= 7; x |= 1; x ^= 2; x <<= 1; x >>= 1;
               let f = 1.5; f += 0.5; f /= 2.0;
               let s = "a"; s += "b";
               let p = P { n: 0, s: "" };
               p.n += 1; p.s += "!";
               let xs = [1, 2]; xs[0] += 10;
           }"#,
    )
    .unwrap();
    assert!(err_in_main("let x = 1; x += 1.5;").contains("type mismatch"));
    assert!(err_in_main("let s = \"a\"; s -= \"b\";")
        .contains("invalid operand type string for arithmetic"));
    assert!(err_in_main("let f = 1.5; f %= 2.0;")
        .contains("invalid operand type float for arithmetic"));
    assert!(err_in_main("let f = 1.5; f &= 2.0;").contains("operator '&' needs integer"));
    assert!(err_in_main("let b = true; b += true;").contains("invalid operand type"));
    assert!(err_in_main("let n = 1; let f = fn() { n += 2; }; f();")
        .contains("capture by value"));
}

#[test]
fn if_expression_rules() {
    let (_, checked) = check_src(
        r#"struct P { v: int }
           fn main() {
               let a = if true { 1 } else { 2 };
               let b = if false { "x" } else if true { "y" } else { "z" };
               let c = if true { P { v: 1 } } else { P { v: 2 } };
               let e: u8 = if true { 1 } else { 255 };  // literals adopt context
           }"#,
    )
    .unwrap();
    let locals = &checked.func_locals[0];
    assert_eq!(locals[0], int_ty());
    assert_eq!(locals[1], Type::Str);
    assert_eq!(locals[2], Type::Struct(0, vec![]));
    assert_eq!(locals[3], Type::Int(IntKind::U8));
    assert!(err_in_main("let x = if 1 { 2 } else { 3 };")
        .contains("condition must be 'bool'"));
    assert!(err_in_main("let x = if true { 1 } else { \"s\" };")
        .contains("branches have different types"));
    assert!(err("fn f() { } fn main() { let x = if true { f() } else { f() }; }")
        .contains("branches must produce a value"));
}

#[test]
fn stob_btos_rules() {
    let (_, checked) = check_src(
        r#"fn main() {
            let bs = "abc".to_bytes();
            let s = bs.to_string();
        }"#,
    )
    .unwrap();
    assert_eq!(checked.func_locals[0][0], Type::Array(Box::new(Type::Int(IntKind::U8))));
    assert_eq!(checked.func_locals[0][1], Type::Str);
    assert!(err_in_main("let x = 1.to_bytes();")
        .contains("type int has no method 'to_bytes'"));
    assert!(err_in_main("let x = \"s\".to_string();")
        .contains("type string has no method 'to_string'"));
    assert!(err_in_main("let is = [1]; let x = is.to_string();")
        .contains("to_string() needs a [u8]"));
    // A receiver is checked without context, so a literal receiver needs
    // an annotation to become a [u8].
    assert!(err_in_main("let s = [104, 105].to_string();")
        .contains("to_string() needs a [u8]"));
    check_src("fn main() { let bs: [u8] = [104, 105]; let s = bs.to_string(); }").unwrap();
}

#[test]
fn tail_expression_typing() {
    // Tail expressions are checked exactly like `return`.
    check_src("fn f(x: int): int { x + 1 }  fn main() { }").unwrap();
    assert!(err("fn f(): int { \"s\" }  fn main() { }").contains("type mismatch"));
    assert!(err("fn f(): int { 1; }  fn main() { }")
        .contains("must return a value on all paths"));
    assert!(err_in_main("let f = fn(): int { true };").contains("type mismatch"));
}

#[test]
fn stoi_stof_rules() {
    check_src(
        r#"fn main() {
            let i = "42".to_int();
            let f = "1.5".to_float();
            let sum = i + 1;
            let prod = f * 2.0;
        }"#,
    )
    .unwrap();
    assert!(err_in_main("let x = 1.to_int();").contains("type int has no method 'to_int'"));
    assert!(err_in_main("let x = true.to_float();")
        .contains("type bool has no method 'to_float'"));
    assert!(err_in_main("let x = \"1\".to_int(\"2\");")
        .contains("method 'to_int' expects 0 argument(s), got 1"));
}

#[test]
fn method_resolution_and_binding() {
    let (program, _) = check_src(
        r#"struct P { x: int }
           impl P {
               fn get(self): int { self.x }
               fn mk(v: int): P { P { x: v } }
           }
           struct Pair<T> { a: T, b: T }
           impl Pair<T> { fn first(self): T { self.a } }
           fn main() {
               let p = P.mk(1);
               let a = p.get();
               let f = p.get;
               let q = Pair { a: 1, b: 2 };
               let g = q.first;
           }"#,
    )
    .unwrap();
    // funcs: P.get = 0, P.mk = 1, Pair.first = 2, main = 3.
    let stmts = &program.funcs[3].body.stmts;
    // An associated call is a plain direct call.
    let Stmt::Let { init, .. } = &stmts[0] else { panic!() };
    let ExprKind::Call { direct, args, .. } = &init.kind else { panic!() };
    assert_eq!((*direct, args.len()), (Some(1), 1));
    // A method call is a direct call with the receiver prepended.
    let Stmt::Let { init, .. } = &stmts[1] else { panic!() };
    let ExprKind::Call { direct, args, .. } = &init.kind else { panic!() };
    assert_eq!((*direct, args.len()), (Some(0), 1));
    assert_eq!(init.ty, int_ty());
    // `p.get` binds the receiver: a zero-argument fn value.
    let Stmt::Let { init, .. } = &stmts[2] else { panic!() };
    assert!(matches!(&init.kind, ExprKind::BoundMethod { fid: 0, .. }));
    assert_eq!(init.ty, Type::Fn(vec![], Box::new(int_ty())));
    // Binding a generic method records the receiver's type arguments.
    let Stmt::Let { init, .. } = &stmts[4] else { panic!() };
    let ExprKind::BoundMethod { inst, .. } = &init.kind else { panic!() };
    assert_eq!(inst, &vec![int_ty()]);
    assert_eq!(init.ty, Type::Fn(vec![], Box::new(int_ty())));
}

#[test]
fn user_names_shadow_builtins() {
    // A user *method* named like a builtin method wins on its own type
    // (here: a user `unwrap` on a struct is unrelated to Option's).
    check_src(
        "struct W { v: int } impl W { fn unwrap(self): int { self.v } } \
         fn main() { assert(W { v: 3 }.unwrap() == 3); }",
    )
    .unwrap();
    // A user function named like a *free* builtin wins.
    check_src(
        "fn assert(x: int): int { return x; } fn main() { println(assert(3)); }",
    )
    .unwrap();
    // A local shadows a top-level function inside its scope.
    check_src("fn f(): int { return 1; } fn main() { let f = 2; assert(f == 2); }").unwrap();
}

#[test]
fn struct_field_limit() {
    let fields: String = (0..65).map(|i| format!("f{i}: int, ")).collect();
    let src = format!("struct Big {{ {fields} }} fn main() {{ }}");
    assert!(err(&src).contains("more than 64 fields"));
    let fields: String = (0..64).map(|i| format!("f{i}: int, ")).collect();
    let src = format!("struct Big {{ {fields} }} fn main() {{ }}");
    check_src(&src).unwrap();
}

#[test]
fn local_limit() {
    let make = |n: usize| {
        let decls: String = (0..n).map(|i| format!("let x{i} = 0; ")).collect();
        format!("fn main() {{ {decls} }}")
    };
    assert!(err(&make(4097)).contains("too many locals"));
    check_src(&make(4096)).unwrap();
}

#[test]
fn lambda_capture_limit() {
    let make = |n: usize| {
        let decls: String = (0..n).map(|i| format!("let v{i} = {i}; ")).collect();
        let sum: Vec<String> = (0..n).map(|i| format!("v{i}")).collect();
        format!(
            "fn main() {{ {decls} let f = fn(): int {{ return {}; }}; assert(f() > 0); }}",
            sum.join(" + ")
        )
    };
    assert!(err(&make(64)).contains("captures too many variables"));
    check_src(&make(63)).unwrap();
}
#[test]
fn sized_integer_compile_errors() {
    expect_compile_error("fn main() { let x: u8 = 256; }", "out of range for u8");
    expect_compile_error("fn main() { let x: i8 = -129; }", "out of range for i8");
    expect_compile_error("fn main() { let x = 18446744073709551615; }", "out of range for int");
    expect_compile_error(
        "fn main() { let a: u8 = 1; let b: u16 = 2; let c = a + b; }",
        "arithmetic on mixed types u8 and u16",
    );
    expect_compile_error(
        "fn main() { let a: i32 = 1; let b: int = 2; let c = a + b; }",
        "arithmetic on mixed types i32 and int",
    );
    expect_compile_error(
        "fn main() { let a: u32 = 1; let b: i32 = 2; if (a < b) { } }",
        "comparison needs two ints or two floats",
    );
    expect_compile_error("fn main() { let a: u8 = 1; let b = -a; }", "needs a signed int");
    expect_compile_error("fn main() { let s = \"x\" as int; }", "cannot cast string to int");
    expect_compile_error("fn main() { let x = 1 as string; }", "cast target must be a numeric type");
    expect_compile_error("fn main() { let x = 300 as u8; }", "out of range for u8");
    expect_compile_error(
        "fn main() { let xs = [1]; let i: u8 = 0; println(xs[i]); }",
        "array index must be int",
    );
}

#[test]
fn generic_compile_errors() {
    expect_compile_error(
        r#"
fn f<T>(x: T): bool { return x == x; }
fn main() { assert(f(1)); }
"#,
        "cannot compare values of generic type T",
    );
    expect_compile_error(
        r#"
fn f<T>(): [T] { return []; }
fn main() { f(); }
"#,
        "cannot infer type parameter 'T'",
    );
    expect_compile_error(
        r#"
fn f<T>(x: T): T { return x; }
fn main() { let g = f; }
"#,
        "can only be called directly",
    );
    expect_compile_error(
        r#"
fn f<T>(x: T) { println(x); }
fn main() { f(1); }
"#,
        "cannot print a value of type T",
    );
    expect_compile_error(
        r#"
fn f<T>(x: T): T { return x + x; }
fn main() { f(1); }
"#,
        "invalid operand type T",
    );
    expect_compile_error(
        r#"
struct Pair<T> { a: T, b: T }
fn main() { let p = Pair { a: 1, b: "s" }; }
"#,
        "type mismatch",
    );
    expect_compile_error(
        r#"
struct Pair<T> { a: T, b: T }
fn main() { let p: Pair<int, int> = Pair { a: 1, b: 2 }; }
"#,
        "expects 1 type argument(s), got 2",
    );
    expect_compile_error(
        r#"
fn main<T>() { }
"#,
        "'main' cannot be generic",
    );
}

#[test]
fn nil_is_gone() {
    // `nil` is no longer part of the language; it is just an unbound name.
    expect_compile_error(
        "struct P { v: int } fn main() { let p: P = nil; }",
        "unknown variable 'nil'",
    );
    expect_compile_error(
        "fn main() { let s: string = nil; }",
        "unknown variable 'nil'",
    );
}

#[test]
fn enum_inline_field_errors() {
    expect_compile_error(
        "enum E { R { w: int } } fn main() { let e = E.R { w: 1, h: 2 }; }",
        "variant 'R' has no field 'h'",
    );
    expect_compile_error(
        "enum E { R { w: int, h: int } } fn main() { let e = E.R { w: 1 }; }",
        "missing field 'h'",
    );
    expect_compile_error(
        "enum E { R { w: int } } fn main() { let e = E.R { w: 1, w: 2 }; }",
        "duplicate field 'w'",
    );
    expect_compile_error(
        "enum E { R { w: int } } fn main() { let e = E.R(1); }",
        "has named fields; construct it as",
    );
    expect_compile_error(
        "enum E { R { w: int } } fn main() { let e = E.R; }",
        "has named fields; construct it as",
    );
    expect_compile_error(
        "enum E { A(int) } fn main() { let e = E.A { v: 1 }; }",
        "wraps a value; construct it as",
    );
    expect_compile_error(
        "enum E { A } fn main() { let e = E.A { v: 1 }; }",
        "is bare; write",
    );
    expect_compile_error(
        "enum E { R { w: int } } fn main() { match (E.R { w: 1 }) { E.R(x) => { } } }",
        "has named fields; match it with",
    );
    expect_compile_error(
        "enum E { R { w: int, h: int } } fn main() { match (E.R { w: 1, h: 2 }) { E.R { w: a } => { } } }",
        "missing field 'h'",
    );
    expect_compile_error(
        "enum E { R { w: int } } fn main() { match (E.R { w: 1 }) { E.R { q: a } => { } } }",
        "variant 'R' has no field 'q'",
    );
    expect_compile_error(
        "enum E { R { w: int, w: int } } fn main() { }",
        "duplicate field 'w' in variant 'R'",
    );
    expect_compile_error("enum E { R { } } fn main() { }", "empty field list");
    expect_compile_error(
        "fn main() { let e = Nope.R { w: 1 }; }",
        "unknown enum 'Nope'",
    );
    // == stays banned: field variants are not bare.
    expect_compile_error(
        "enum E { R { w: int }, B } fn main() { assert(E.B == E.B); }",
        "'==' is not available on enum 'E'",
    );
}

#[test]
fn enum_compile_errors() {
    // Exhaustiveness.
    expect_compile_error(
        "enum E { A, B } fn main() { match E.A { E.A => { } } }",
        "missing variant(s) B",
    );
    expect_compile_error(
        "fn main() { match 1 { 0 => { } } }",
        "needs a final '_' arm",
    );
    expect_compile_error(
        "fn main() { match true { true => { } } }",
        "must cover both 'true' and 'false'",
    );
    expect_compile_error(
        "enum E { A, B } fn main() { match E.A { _ => { } E.A => { } } }",
        "unreachable pattern after '_'",
    );
    expect_compile_error(
        "enum E { A, B } fn main() { match E.A { E.A => { } E.B => { } _ => { } } }",
        "unreachable pattern",
    );
    expect_compile_error(
        "enum E { A, B } fn main() { match E.A { E.A => { } E.A => { } E.B => { } } }",
        "duplicate pattern",
    );
    // Patterns must fit the scrutinee.
    expect_compile_error(
        "enum E { A, B } fn main() { match E.A { 1 => { } _ => { } } }",
        "pattern does not match the scrutinee type E",
    );
    expect_compile_error(
        "enum E { A } enum F { X } fn main() { match E.A { F.X => { } } }",
        "pattern does not match the scrutinee type E",
    );
    expect_compile_error(
        "enum E { A } fn main() { match E.A { E.Y => { } } }",
        "enum 'E' has no variant 'Y'",
    );
    expect_compile_error(
        "fn main() { match \"s\" { _ => { } } }",
        "cannot match on a value of type string",
    );
    expect_compile_error(
        "fn f<T>(x: T) { match x { _ => { } } } fn main() { f(1); }",
        "cannot match on a value of generic type T",
    );
    expect_compile_error(
        "fn main() { let u: u8 = 1; match u { 300 => { } _ => { } } }",
        "out of range for u8",
    );
    // Binder arity.
    expect_compile_error(
        "enum E { A(int) } fn main() { match E.A(1) { E.A => { } } }",
        "wraps a value; bind it",
    );
    expect_compile_error(
        "enum E { A } fn main() { match E.A { E.A(x) => { } } }",
        "bare and has no value to bind",
    );
    // Construction arity.
    expect_compile_error(
        "enum E { A } fn main() { let e = E.A(); }",
        "variant 'A' is bare",
    );
    expect_compile_error(
        "enum E { A(int) } fn main() { let e = E.A; }",
        "wraps a value; construct it as",
    );
    expect_compile_error(
        "enum E { A(int) } fn main() { let e = E.A(1, 2); }",
        "wraps exactly one value, got 2",
    );
    expect_compile_error(
        "enum E { A(int) } fn main() { let e = E.A(\"s\"); }",
        "type mismatch",
    );
    // Equality is only for bare-only enums.
    expect_compile_error(
        "enum E { A(int), B } fn main() { assert(E.B == E.B); }",
        "'==' is not available on enum 'E'",
    );
    // Inference limits.
    expect_compile_error(
        "fn main() { let o = Option.None; }",
        "cannot infer type parameter 'T' of enum 'Option'",
    );
    // Variants are qualified; a bare name is not in scope.
    expect_compile_error(
        "fn main() { let o: Option<int> = Some(5); }",
        "unknown function 'Some'",
    );
    // Declarations.
    expect_compile_error("enum E { } fn main() { }", "has no variants");
    expect_compile_error(
        "enum E { A, A } fn main() { }",
        "duplicate variant 'A'",
    );
    expect_compile_error(
        "enum E { A } enum E { B } fn main() { }",
        "duplicate enum 'E'",
    );
    expect_compile_error(
        "struct E { x: int } enum E { A } fn main() { }",
        "same name as a struct",
    );
    expect_compile_error("enum u8 { A } fn main() { }", "shadows a primitive type");
    // Match expressions need one common arm type and a value.
    expect_compile_error(
        "fn main() { let x = match 1 { 0 => 1, _ => \"s\" }; }",
        "match arms have different types",
    );
    expect_compile_error(
        "fn f() { } fn main() { let x = match 1 { 0 => f(), _ => f() }; }",
        "match arms must produce a value",
    );
}

#[test]
fn members_that_enums_and_integers_lack() {
    expect_compile_error(
        "enum E { A(int) } fn main() { let e = E.A(1); println(e.value); }",
        "enum 'E' has no method 'value'",
    );
    // A local shadows an enum's name; the enum is out of reach there.
    expect_compile_error(
        "enum E { A } fn main() { let E = 1; let e = E.A; }",
        "type int has no method 'A'",
    );
}

#[test]
fn unwrap_is_a_method() {
    expect_compile_error(
        "fn main() { let x = unwrap(1); }",
        "'unwrap' is now a method: write opt.unwrap()",
    );
    expect_compile_error(
        "enum Option { Something } fn main() { let x = unwrap(Option.Something); }",
        "'unwrap' is now a method: write opt.unwrap()",
    );
}
