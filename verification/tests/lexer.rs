//! The tokens of source texts.
use crowc::ast::BinOp;
use crowc::lexer::{lex, Tok};

fn toks(src: &str) -> Vec<Tok> {
    lex(src).unwrap().into_iter().map(|t| t.tok).collect()
}

#[test]
fn keywords_and_identifiers() {
    assert_eq!(
        toks("fn struct let if else while for return break continue true false nil as foo _bar x9"),
        vec![
            Tok::Fn, Tok::Struct, Tok::Let, Tok::If, Tok::Else, Tok::While, Tok::For,
            Tok::Return, Tok::Break, Tok::Continue, Tok::True, Tok::False, Tok::Nil,
            Tok::As, Tok::Ident("foo".into()), Tok::Ident("_bar".into()),
            Tok::Ident("x9".into()), Tok::Eof,
        ]
    );
}

#[test]
fn numbers() {
    assert_eq!(toks("0 42 1.5 0.25"), vec![
        Tok::Int(0), Tok::Int(42), Tok::Float("1.5".into()), Tok::Float("0.25".into()), Tok::Eof,
    ]);
    // A dot not followed by a digit is not part of the number.
    assert_eq!(toks("1.x"), vec![Tok::Int(1), Tok::Dot, Tok::Ident("x".into()), Tok::Eof]);
    assert_eq!(toks("18446744073709551615"), vec![Tok::Int(u64::MAX), Tok::Eof]);
}

#[test]
fn operators() {
    assert_eq!(toks("+ - * / % = == != < <= > >= ! && ||"), vec![
        Tok::Plus, Tok::Minus, Tok::Star, Tok::Slash, Tok::Percent, Tok::Assign,
        Tok::Eq, Tok::Ne, Tok::Lt, Tok::Le, Tok::Gt, Tok::Ge, Tok::Not,
        Tok::AndAnd, Tok::OrOr, Tok::Eof,
    ]);
    assert_eq!(toks("& | ^ ~ << >>"), vec![
        Tok::Amp, Tok::Pipe, Tok::Caret, Tok::Tilde, Tok::Shl, Tok::Shr, Tok::Eof,
    ]);
    assert_eq!(toks("+= -= *= /= %= &= |= ^= <<= >>="), vec![
        Tok::OpAssign(BinOp::Add), Tok::OpAssign(BinOp::Sub), Tok::OpAssign(BinOp::Mul),
        Tok::OpAssign(BinOp::Div), Tok::OpAssign(BinOp::Rem), Tok::OpAssign(BinOp::BitAnd),
        Tok::OpAssign(BinOp::BitOr), Tok::OpAssign(BinOp::BitXor),
        Tok::OpAssign(BinOp::Shl), Tok::OpAssign(BinOp::Shr), Tok::Eof,
    ]);
    // Maximal munch: `&&` beats `&`, `<<` beats `<`, `>>=` beats `>>`.
    assert_eq!(toks("a&&b"), vec![
        Tok::Ident("a".into()), Tok::AndAnd, Tok::Ident("b".into()), Tok::Eof,
    ]);
    assert_eq!(toks("a<<b"), vec![
        Tok::Ident("a".into()), Tok::Shl, Tok::Ident("b".into()), Tok::Eof,
    ]);
}

#[test]
fn byte_literals() {
    assert_eq!(toks("b'a' b'Z' b'0' b' '"), vec![
        Tok::Byte(b'a'), Tok::Byte(b'Z'), Tok::Byte(b'0'), Tok::Byte(b' '), Tok::Eof,
    ]);
    assert_eq!(toks(r"b'\n' b'\t' b'\r' b'\\' b'\'' b'\0' b'\x00' b'\x7F' b'\xff'"), vec![
        Tok::Byte(b'\n'), Tok::Byte(b'\t'), Tok::Byte(b'\r'), Tok::Byte(b'\\'),
        Tok::Byte(b'\''), Tok::Byte(0), Tok::Byte(0x00), Tok::Byte(0x7f), Tok::Byte(0xff),
        Tok::Eof,
    ]);
    // Identifiers that merely start with 'b' are untouched.
    assert_eq!(toks("bar b"), vec![
        Tok::Ident("bar".into()), Tok::Ident("b".into()), Tok::Eof,
    ]);
    assert!(lex("b''").unwrap_err().contains("empty byte literal"));
    assert!(lex("b'ab'").unwrap_err().contains("exactly one character"));
    assert!(lex("b'é'").unwrap_err().contains("printable ASCII"));
    assert!(lex(r"b'\q'").unwrap_err().contains("invalid escape"));
    assert!(lex(r"b'\x1'").unwrap_err().contains("2 hex digits"));
    assert!(lex("b'a").unwrap_err().contains("exactly one character"));
    assert!(lex("b'").unwrap_err().contains("unterminated byte literal"));
}

#[test]
fn punctuation() {
    assert_eq!(toks("(){}[],;:."), vec![
        Tok::LParen, Tok::RParen, Tok::LBrace, Tok::RBrace, Tok::LBracket,
        Tok::RBracket, Tok::Comma, Tok::Semi, Tok::Colon, Tok::Dot, Tok::Eof,
    ]);
}

#[test]
fn string_escapes() {
    assert_eq!(toks(r#""a\nb\tc\\d\"e\r\0""#), vec![
        Tok::Str("a\nb\tc\\d\"e\r\0".into()), Tok::Eof,
    ]);
    assert_eq!(toks("\"héllo\""), vec![Tok::Str("héllo".into()), Tok::Eof]);
    assert_eq!(toks("\"\""), vec![Tok::Str("".into()), Tok::Eof]);
}

#[test]
fn multiline_strings() {
    assert_eq!(toks("\"a\nb\""), vec![Tok::Str("a\nb".into()), Tok::Eof]);
    // Line counting stays correct after an embedded newline.
    let ts = lex("\"a\nb\" x").unwrap();
    assert_eq!((ts[1].line, ts[1].col), (2, 4)); // x
}

#[test]
fn unicode_escapes() {
    assert_eq!(toks(r#""\u{48}\u{e9}\u{1F600}""#), vec![
        Tok::Str("Hé😀".into()), Tok::Eof,
    ]);
    assert!(lex(r#""\u48""#).unwrap_err().contains("expected '{' after \\u"));
    assert!(lex(r#""\u{}""#).unwrap_err().contains("1 to 6 hex digits"));
    assert!(lex(r#""\u{1234567}""#).unwrap_err().contains("1 to 6 hex digits"));
    assert!(lex(r#""\u{12x}""#).unwrap_err().contains("expected '}'"));
    assert!(lex(r#""\u{D800}""#).unwrap_err().contains("not a valid Unicode scalar"));
}

#[test]
fn comments() {
    assert_eq!(toks("1 // two\n3"), vec![Tok::Int(1), Tok::Int(3), Tok::Eof]);
    assert_eq!(toks("1 /* x */ 2"), vec![Tok::Int(1), Tok::Int(2), Tok::Eof]);
    assert_eq!(toks("1 /* a /* nested */ b */ 2"), vec![Tok::Int(1), Tok::Int(2), Tok::Eof]);
}

#[test]
fn positions() {
    let ts = lex("let x\n  = 1;").unwrap();
    assert_eq!((ts[0].line, ts[0].col), (1, 1)); // let
    assert_eq!((ts[1].line, ts[1].col), (1, 5)); // x
    assert_eq!((ts[2].line, ts[2].col), (2, 3)); // =
}

#[test]
fn lexer_errors() {
    assert!(lex("\"abc").unwrap_err().contains("unterminated string"));
    assert!(lex("\"\\q\"").unwrap_err().contains("invalid escape"));
    assert!(lex("/* nope").unwrap_err().contains("unterminated block comment"));
    assert!(lex("let # = 1").unwrap_err().contains("unexpected character '#'"));
    assert!(lex("18446744073709551616").unwrap_err().contains("out of range"));
    assert!(lex("#").unwrap_err().contains("unexpected character"));
}

#[test]
fn a_newline_parts_two_texts() {
    let first = "let s = \"a\nb\" // to here";
    let second = "x == 1.5";
    let whole = lex(&format!("{first}\n{second}")).unwrap();
    let mut apart = lex(first).unwrap();
    let end = apart.pop().unwrap();
    assert_eq!(end.tok, Tok::Eof);
    let behind = lex(second).unwrap();
    assert_eq!(whole.len(), apart.len() + behind.len());
    for (t, u) in whole.iter().zip(apart.iter()) {
        assert_eq!((&t.tok, t.line, t.col), (&u.tok, u.line, u.col));
    }
    for (t, u) in whole[apart.len()..].iter().zip(behind.iter()) {
        assert_eq!((&t.tok, t.line, t.col), (&u.tok, u.line + end.line, u.col));
    }
}

#[test]
fn a_string_has_the_line_where_it_ends() {
    let ts = lex("x \"a\nb\nc\" y").unwrap();
    assert_eq!((ts[0].line, ts[0].col), (1, 1));
    assert_eq!((ts[1].line, ts[1].col), (3, 3));
    assert_eq!((ts[2].line, ts[2].col), (3, 4));
}
