//! Lexer for Crow source text.
use vstd::prelude::*;
use vstd::utf8::{encode_utf8, is_scalar};

use crate::ast::BinOp;
use crate::text::{cat2, cat3, cat5, dec, dec_text, owned, str_eq};

verus! {

/// `char::from_u32` gives the character with the code point `v` exactly when
/// `v` is a Unicode scalar value.
pub assume_specification [char::from_u32](v: u32) -> (r: Option<char>)
    ensures
        r == (if is_scalar(v) {
            Some(v as char)
        } else {
            None
        }),
;

#[derive(Debug, Clone, PartialEq)]
pub enum Tok {
    // Literals and identifiers
    /// Integer literals are unsigned digits; a leading `-` is a separate
    /// token. The checker decides the type (and range-checks) in context.
    Int(u64),
    /// `b'X'` byte literal; always typed `u8`.
    Byte(u8),
    /// A float literal, by its digits.
    Float(String),
    Str(String),
    Ident(String),
    // Keywords
    Fn,
    Struct,
    Enum,
    Impl,
    SelfKw,
    Match,
    Let,
    If,
    Else,
    While,
    For,
    Return,
    Break,
    Continue,
    True,
    False,
    Nil,
    As,
    // Punctuation
    LParen,
    RParen,
    LBrace,
    RBrace,
    LBracket,
    RBracket,
    Comma,
    Semi,
    Colon,
    Dot,
    FatArrow,
    // Operators
    Plus,
    Minus,
    Star,
    Slash,
    Percent,
    Assign,
    Eq,
    Ne,
    Lt,
    Le,
    Gt,
    Ge,
    Not,
    AndAnd,
    OrOr,
    Amp,
    Pipe,
    Caret,
    Tilde,
    Shl,
    Shr,
    /// Compound assignment (`+=`, `<<=`, ...), carrying the operator.
    OpAssign(BinOp),
    Eof,
}

/// A token as a mathematical value: its text where it carries one, and
/// itself where it does not.
#[verifier::ext_equal]
pub enum TokView {
    Float(Seq<char>),
    Str(Seq<char>),
    Ident(Seq<char>),
    Plain(Tok),
}

impl Tok {
    pub open spec fn view(&self) -> TokView {
        match self {
            Tok::Float(s) => TokView::Float(s@),
            Tok::Str(s) => TokView::Str(s@),
            Tok::Ident(s) => TokView::Ident(s@),
            t => TokView::Plain(*t),
        }
    }
}

impl TokView {
    /// The token as it stands in diagnostics.
    #[verifier::opaque]
    pub open spec fn text(self) -> Seq<char> {
        match self {
            TokView::Float(s) => "float literal "@ + s,
            TokView::Str(_) => "string literal"@,
            TokView::Ident(name) => "identifier '"@ + name + "'"@,
            TokView::Plain(t) => match t {
                Tok::Int(v) => "integer literal "@ + dec_text(v as nat),
                Tok::Byte(v) => "byte literal "@ + dec_text(v as nat),
                Tok::OpAssign(op) => "'"@ + op.symbol() + "='"@,
                Tok::Fn => "'fn'"@,
                Tok::Struct => "'struct'"@,
                Tok::Enum => "'enum'"@,
                Tok::Impl => "'impl'"@,
                Tok::SelfKw => "'self'"@,
                Tok::Match => "'match'"@,
                Tok::Let => "'let'"@,
                Tok::If => "'if'"@,
                Tok::Else => "'else'"@,
                Tok::While => "'while'"@,
                Tok::For => "'for'"@,
                Tok::Return => "'return'"@,
                Tok::Break => "'break'"@,
                Tok::Continue => "'continue'"@,
                Tok::True => "'true'"@,
                Tok::False => "'false'"@,
                Tok::Nil => "'nil'"@,
                Tok::As => "'as'"@,
                Tok::LParen => "'('"@,
                Tok::RParen => "')'"@,
                Tok::LBrace => "'{'"@,
                Tok::RBrace => "'}'"@,
                Tok::LBracket => "'['"@,
                Tok::RBracket => "']'"@,
                Tok::Comma => "','"@,
                Tok::Semi => "';'"@,
                Tok::Colon => "':'"@,
                Tok::Dot => "'.'"@,
                Tok::FatArrow => "'=>'"@,
                Tok::Plus => "'+'"@,
                Tok::Minus => "'-'"@,
                Tok::Star => "'*'"@,
                Tok::Slash => "'/'"@,
                Tok::Percent => "'%'"@,
                Tok::Assign => "'='"@,
                Tok::Eq => "'=='"@,
                Tok::Ne => "'!='"@,
                Tok::Lt => "'<'"@,
                Tok::Le => "'<='"@,
                Tok::Gt => "'>'"@,
                Tok::Ge => "'>='"@,
                Tok::Not => "'!'"@,
                Tok::AndAnd => "'&&'"@,
                Tok::OrOr => "'||'"@,
                Tok::Amp => "'&'"@,
                Tok::Pipe => "'|'"@,
                Tok::Caret => "'^'"@,
                Tok::Tilde => "'~'"@,
                Tok::Shl => "'<<'"@,
                Tok::Shr => "'>>'"@,
                _ => "end of file"@,
            },
        }
    }
}

impl Tok {
    /// The token's text in diagnostics.
    pub fn to_string(&self) -> (r: String)
        ensures
            r@ == self@.text(),
    {
        reveal(TokView::text);
        let s = match self {
            Tok::Int(v) => return cat2("integer literal ", dec(*v).as_str()),
            Tok::Byte(v) => return cat2("byte literal ", dec(*v as u64).as_str()),
            Tok::Float(s) => return cat2("float literal ", s.as_str()),
            Tok::Str(_) => "string literal",
            Tok::Ident(name) => return cat3("identifier '", name.as_str(), "'"),
            Tok::OpAssign(op) => return cat3("'", op.sym(), "='"),
            Tok::Fn => "'fn'",
            Tok::Struct => "'struct'",
            Tok::Enum => "'enum'",
            Tok::Impl => "'impl'",
            Tok::SelfKw => "'self'",
            Tok::Match => "'match'",
            Tok::Let => "'let'",
            Tok::If => "'if'",
            Tok::Else => "'else'",
            Tok::While => "'while'",
            Tok::For => "'for'",
            Tok::Return => "'return'",
            Tok::Break => "'break'",
            Tok::Continue => "'continue'",
            Tok::True => "'true'",
            Tok::False => "'false'",
            Tok::Nil => "'nil'",
            Tok::As => "'as'",
            Tok::LParen => "'('",
            Tok::RParen => "')'",
            Tok::LBrace => "'{'",
            Tok::RBrace => "'}'",
            Tok::LBracket => "'['",
            Tok::RBracket => "']'",
            Tok::Comma => "','",
            Tok::Semi => "';'",
            Tok::Colon => "':'",
            Tok::Dot => "'.'",
            Tok::FatArrow => "'=>'",
            Tok::Plus => "'+'",
            Tok::Minus => "'-'",
            Tok::Star => "'*'",
            Tok::Slash => "'/'",
            Tok::Percent => "'%'",
            Tok::Assign => "'='",
            Tok::Eq => "'=='",
            Tok::Ne => "'!='",
            Tok::Lt => "'<'",
            Tok::Le => "'<='",
            Tok::Gt => "'>'",
            Tok::Ge => "'>='",
            Tok::Not => "'!'",
            Tok::AndAnd => "'&&'",
            Tok::OrOr => "'||'",
            Tok::Amp => "'&'",
            Tok::Pipe => "'|'",
            Tok::Caret => "'^'",
            Tok::Tilde => "'~'",
            Tok::Shl => "'<<'",
            Tok::Shr => "'>>'",
            Tok::Eof => "end of file",
        };
        owned(s)
    }
}

#[derive(Debug, Clone)]
pub struct Token {
    pub tok: Tok,
    pub line: u32,
    pub col: u32,
}

#[verifier::ext_equal]
pub struct TokenView {
    pub tok: TokView,
    pub line: u32,
    pub col: u32,
}

impl Token {
    pub open spec fn view(&self) -> TokenView {
        TokenView { tok: self.tok@, line: self.line, col: self.col }
    }
}

pub open spec fn tokens_view(ts: Seq<Token>) -> Seq<TokenView> {
    Seq::new(ts.len(), |i: int| ts[i]@)
}

// -- Positions and characters -----------------------------------------------

/// A place in the source: the index of the next character, its line, and its
/// column in bytes, both counted from 1.
#[verifier::ext_equal]
pub struct Pos {
    pub i: int,
    pub line: int,
    pub col: int,
}

/// The number of bytes of a character's UTF-8 encoding.
pub open spec fn utf8_width(c: char) -> int {
    if (c as u32) < 0x80 {
        1
    } else if (c as u32) < 0x800 {
        2
    } else if (c as u32) < 0x1_0000 {
        3
    } else {
        4
    }
}

impl Pos {
    /// The place `n` one-byte characters further on the same line.
    pub open spec fn ahead(self, n: int) -> Pos {
        Pos { i: self.i + n, line: self.line, col: self.col + n }
    }

    /// The place after one character.
    pub open spec fn past(self, c: char) -> Pos {
        if c == '\n' {
            Pos { i: self.i + 1, line: self.line + 1, col: 1 }
        } else {
            Pos { i: self.i + 1, line: self.line, col: self.col + utf8_width(c) }
        }
    }
}

/// The character at `i`, or NUL past the end.
pub open spec fn at(s: Seq<char>, i: int) -> char {
    if 0 <= i < s.len() {
        s[i]
    } else {
        '\0'
    }
}

pub open spec fn is_digit(c: char) -> bool {
    '0' as u32 <= c as u32 <= '9' as u32
}

pub open spec fn is_hex(c: char) -> bool {
    is_digit(c) || 'a' as u32 <= c as u32 <= 'f' as u32 || 'A' as u32 <= c as u32 <= 'F' as u32
}

pub open spec fn is_word_start(c: char) -> bool {
    'a' as u32 <= c as u32 <= 'z' as u32 || 'A' as u32 <= c as u32 <= 'Z' as u32 || c == '_'
}

pub open spec fn is_word(c: char) -> bool {
    is_word_start(c) || is_digit(c)
}

/// A class of characters that a scan runs over.
#[derive(Clone, Copy, PartialEq, Eq, Structural)]
pub enum Class {
    Digit,
    Hex,
    Word,
    NotNewline,
}

pub open spec fn in_class(c: char, k: Class) -> bool {
    match k {
        Class::Digit => is_digit(c),
        Class::Hex => is_hex(c),
        Class::Word => is_word(c),
        Class::NotNewline => c != '\n',
    }
}

/// The end of the longest run of characters of a class from `i`.
pub open spec fn run_end(s: Seq<char>, i: int, k: Class) -> int
    decreases s.len() - i,
{
    if 0 <= i < s.len() && in_class(s[i], k) {
        run_end(s, i + 1, k)
    } else {
        i
    }
}

proof fn lemma_run_end(s: Seq<char>, i: int, k: Class)
    requires
        0 <= i,
    ensures
        i <= run_end(s, i, k),
        i <= s.len() ==> run_end(s, i, k) <= s.len(),
        i < s.len() && in_class(s[i], k) ==> i < run_end(s, i, k),
        forall|j: int| i <= j < run_end(s, i, k) ==> in_class(s[j], k),
    decreases s.len() - i,
{
    if i < s.len() && in_class(s[i], k) {
        lemma_run_end(s, i + 1, k);
    }
}

/// The value of a hexadecimal (or decimal) digit.
pub open spec fn hex_value(c: char) -> nat {
    if is_digit(c) {
        (c as u32 - '0' as u32) as nat
    } else if 'a' as u32 <= c as u32 {
        (c as u32 - 'a' as u32 + 10) as nat
    } else {
        (c as u32 - 'A' as u32 + 10) as nat
    }
}

/// The number that the digits from `i` to `j` write in a base.
pub open spec fn digits_value(s: Seq<char>, i: int, j: int, base: nat) -> nat
    decreases j - i,
{
    if j <= i {
        0
    } else {
        digits_value(s, i, j - 1, base) * base + hex_value(s[j - 1])
    }
}

// -- The language of tokens -------------------------------------------------

/// What stands at a place of the source.
#[verifier::ext_equal]
pub enum StepView {
    /// White space or a comment, and the place after it.
    Skip(Pos),
    /// A token, and the place after it.
    Token(TokView, Pos),
    /// A message, and the place it is about.
    Fail(Seq<char>, Pos),
}

/// The place after a block comment of nesting `depth`; `Err` at the end of
/// the source when it is not closed.
pub open spec fn block_comment(s: Seq<char>, p: Pos, depth: nat) -> Result<Pos, Pos>
    decreases s.len() - p.i,
{
    if p.i >= s.len() || p.i < 0 {
        Err(p)
    } else if at(s, p.i) == '*' && at(s, p.i + 1) == '/' {
        if depth <= 1 {
            Ok(p.ahead(2))
        } else {
            block_comment(s, p.ahead(2), (depth - 1) as nat)
        }
    } else if at(s, p.i) == '/' && at(s, p.i + 1) == '*' {
        block_comment(s, p.ahead(2), depth + 1)
    } else {
        block_comment(s, p.past(s[p.i]), depth)
    }
}

proof fn lemma_block_comment(s: Seq<char>, p: Pos, depth: nat)
    requires
        0 <= p.i,
    ensures
        block_comment(s, p, depth) matches Ok(q) ==> p.i < q.i <= s.len(),
    decreases s.len() - p.i,
{
    if p.i >= s.len() {
    } else if at(s, p.i) == '*' && at(s, p.i + 1) == '/' {
        if depth > 1 {
            lemma_block_comment(s, p.ahead(2), (depth - 1) as nat);
        }
    } else if at(s, p.i) == '/' && at(s, p.i + 1) == '*' {
        lemma_block_comment(s, p.ahead(2), depth + 1);
    } else {
        lemma_block_comment(s, p.past(s[p.i]), depth);
    }
}

/// The character of a one-letter escape, other than the quotes.
pub open spec fn simple_escape(c: char) -> Option<char> {
    if c == 'n' {
        Some('\n')
    } else if c == 't' {
        Some('\t')
    } else if c == 'r' {
        Some('\r')
    } else if c == '\\' {
        Some('\\')
    } else if c == '0' {
        Some('\0')
    } else {
        None
    }
}

/// The character of a `\u{...}` escape whose `u` stands at `p`, and the place
/// after it.
pub open spec fn unicode_escape(s: Seq<char>, p: Pos) -> Result<(char, Pos), (Seq<char>, Pos)> {
    if at(s, p.i + 1) != '{' {
        Err(("expected '{' after \\u"@, p.ahead(1)))
    } else {
        let e = run_end(s, p.i + 2, Class::Hex);
        let q = p.ahead(e - p.i);
        let digits = s.subrange(p.i + 2, e);
        if at(s, e) != '}' {
            Err(("expected '}' after \\u{"@ + digits, q))
        } else if digits.len() == 0 || digits.len() > 6 {
            Err(("\\u escape needs 1 to 6 hex digits"@, q))
        } else {
            let v = digits_value(s, p.i + 2, e, 16) as u32;
            if is_scalar(v) {
                Ok((v as char, q.ahead(1)))
            } else {
                Err(("\\u{"@ + digits + "} is not a valid Unicode scalar"@, q))
            }
        }
    }
}

/// The escape whose letter stands at `p`, inside a string literal.
pub open spec fn string_escape(s: Seq<char>, p: Pos) -> Result<(char, Pos), (Seq<char>, Pos)> {
    if p.i < s.len() && at(s, p.i) == '"' {
        Ok(('"', p.ahead(1)))
    } else if p.i < s.len() && simple_escape(at(s, p.i)) is Some {
        Ok((simple_escape(at(s, p.i))->0, p.ahead(1)))
    } else if p.i < s.len() && at(s, p.i) == 'u' {
        unicode_escape(s, p)
    } else {
        Err(("invalid escape sequence"@, p))
    }
}

pub proof fn lemma_string_escape(s: Seq<char>, p: Pos)
    requires
        0 <= p.i,
    ensures
        string_escape(s, p) matches Ok((_, q)) ==> p.i < q.i <= s.len(),
{
    lemma_run_end(s, p.i + 2, Class::Hex);
}

/// The rest of a string literal, after the opening quote or any of its
/// characters. Strings may span lines; the newline is kept.
pub open spec fn string_rest(s: Seq<char>, p: Pos, acc: Seq<char>) -> Result<
    (Seq<char>, Pos),
    (Seq<char>, Pos),
>
    decreases s.len() - p.i,
{
    if p.i >= s.len() || p.i < 0 {
        Err(("unterminated string literal"@, p))
    } else if s[p.i] == '"' {
        Ok((acc, p.ahead(1)))
    } else if s[p.i] == '\\' {
        match string_escape(s, p.ahead(1)) {
            Ok((c, q)) => {
                proof {
                    lemma_string_escape(s, p.ahead(1));
                }
                string_rest(s, q, acc.push(c))
            },
            Err(e) => Err(e),
        }
    } else {
        string_rest(s, p.past(s[p.i]), acc.push(s[p.i]))
    }
}

proof fn lemma_string_rest(s: Seq<char>, p: Pos, acc: Seq<char>)
    requires
        0 <= p.i,
    ensures
        string_rest(s, p, acc) matches Ok((_, q)) ==> p.i < q.i <= s.len(),
    decreases s.len() - p.i,
{
    if p.i >= s.len() || s[p.i] == '"' {
    } else if s[p.i] == '\\' {
        lemma_string_escape(s, p.ahead(1));
        match string_escape(s, p.ahead(1)) {
            Ok((c, q)) => lemma_string_rest(s, q, acc.push(c)),
            Err(_) => {},
        }
    } else {
        lemma_string_rest(s, p.past(s[p.i]), acc.push(s[p.i]));
    }
}

/// The value between the quotes of a byte literal whose opening quote stands
/// just before `p`, and the place of the closing quote.
pub open spec fn byte_value(s: Seq<char>, p: Pos) -> Result<(u8, Pos), (Seq<char>, Pos)> {
    if p.i >= s.len() {
        Err(("unterminated byte literal"@, p))
    } else if s[p.i] == '\'' {
        Err(("empty byte literal"@, p))
    } else if s[p.i] == '\\' {
        let q = p.ahead(1);
        if q.i < s.len() && at(s, q.i) == '\'' {
            Ok((39u8, q.ahead(1)))
        } else if q.i < s.len() && simple_escape(at(s, q.i)) is Some {
            Ok((simple_escape(at(s, q.i))->0 as u8, q.ahead(1)))
        } else if q.i < s.len() && at(s, q.i) == 'x' {
            if is_hex(at(s, q.i + 1)) && is_hex(at(s, q.i + 2)) {
                Ok(
                    (
                        (hex_value(at(s, q.i + 1)) * 16 + hex_value(at(s, q.i + 2))) as u8,
                        q.ahead(3),
                    ),
                )
            } else {
                Err(("\\x escape needs exactly 2 hex digits"@, q))
            }
        } else {
            Err(("invalid escape sequence in byte literal"@, q))
        }
    } else if 0x20 <= s[p.i] as u32 <= 0x7e {
        Ok((s[p.i] as u8, p.ahead(1)))
    } else {
        Err(
            (
                "byte literal must be a printable ASCII character; use \\xNN for other byte values"@,
                p,
            ),
        )
    }
}

pub open spec fn byte_literal(s: Seq<char>, p: Pos) -> StepView {
    match byte_value(s, p.ahead(2)) {
        Err((m, q)) => StepView::Fail(m, q),
        Ok((v, q)) => if at(s, q.i) != '\'' {
            StepView::Fail("byte literal must contain exactly one character"@, q)
        } else {
            StepView::Token(TokView::Plain(Tok::Byte(v)), q.ahead(1))
        },
    }
}

pub open spec fn number(s: Seq<char>, p: Pos) -> StepView {
    let e = run_end(s, p.i, Class::Digit);
    if at(s, e) == '.' && is_digit(at(s, e + 1)) {
        let f = run_end(s, e + 1, Class::Digit);
        StepView::Token(TokView::Float(s.subrange(p.i, f)), p.ahead(f - p.i))
    } else if digits_value(s, p.i, e, 10) <= u64::MAX {
        StepView::Token(
            TokView::Plain(Tok::Int(digits_value(s, p.i, e, 10) as u64)),
            p.ahead(e - p.i),
        )
    } else {
        StepView::Fail(
            "integer literal '"@ + s.subrange(p.i, e) + "' out of range"@,
            p.ahead(e - p.i),
        )
    }
}

/// The keyword or identifier that a word is.
pub open spec fn word_token(w: Seq<char>) -> TokView {
    if w == "fn"@ {
        TokView::Plain(Tok::Fn)
    } else if w == "struct"@ {
        TokView::Plain(Tok::Struct)
    } else if w == "enum"@ {
        TokView::Plain(Tok::Enum)
    } else if w == "impl"@ {
        TokView::Plain(Tok::Impl)
    } else if w == "self"@ {
        TokView::Plain(Tok::SelfKw)
    } else if w == "match"@ {
        TokView::Plain(Tok::Match)
    } else if w == "let"@ {
        TokView::Plain(Tok::Let)
    } else if w == "if"@ {
        TokView::Plain(Tok::If)
    } else if w == "else"@ {
        TokView::Plain(Tok::Else)
    } else if w == "while"@ {
        TokView::Plain(Tok::While)
    } else if w == "for"@ {
        TokView::Plain(Tok::For)
    } else if w == "return"@ {
        TokView::Plain(Tok::Return)
    } else if w == "break"@ {
        TokView::Plain(Tok::Break)
    } else if w == "continue"@ {
        TokView::Plain(Tok::Continue)
    } else if w == "true"@ {
        TokView::Plain(Tok::True)
    } else if w == "false"@ {
        TokView::Plain(Tok::False)
    } else if w == "nil"@ {
        TokView::Plain(Tok::Nil)
    } else if w == "as"@ {
        TokView::Plain(Tok::As)
    } else {
        TokView::Ident(w)
    }
}

/// The punctuation or operator token at `i` and its length: the longest one
/// that the next characters spell.
pub open spec fn operator(s: Seq<char>, i: int) -> Option<(Tok, int)> {
    let c = at(s, i);
    let d = at(s, i + 1);
    let e = at(s, i + 2);
    if c == '(' {
        Some((Tok::LParen, 1))
    } else if c == ')' {
        Some((Tok::RParen, 1))
    } else if c == '{' {
        Some((Tok::LBrace, 1))
    } else if c == '}' {
        Some((Tok::RBrace, 1))
    } else if c == '[' {
        Some((Tok::LBracket, 1))
    } else if c == ']' {
        Some((Tok::RBracket, 1))
    } else if c == ',' {
        Some((Tok::Comma, 1))
    } else if c == ';' {
        Some((Tok::Semi, 1))
    } else if c == ':' {
        Some((Tok::Colon, 1))
    } else if c == '.' {
        Some((Tok::Dot, 1))
    } else if c == '+' {
        if d == '=' {
            Some((Tok::OpAssign(BinOp::Add), 2))
        } else {
            Some((Tok::Plus, 1))
        }
    } else if c == '-' {
        if d == '=' {
            Some((Tok::OpAssign(BinOp::Sub), 2))
        } else {
            Some((Tok::Minus, 1))
        }
    } else if c == '*' {
        if d == '=' {
            Some((Tok::OpAssign(BinOp::Mul), 2))
        } else {
            Some((Tok::Star, 1))
        }
    } else if c == '/' {
        if d == '=' {
            Some((Tok::OpAssign(BinOp::Div), 2))
        } else {
            Some((Tok::Slash, 1))
        }
    } else if c == '%' {
        if d == '=' {
            Some((Tok::OpAssign(BinOp::Rem), 2))
        } else {
            Some((Tok::Percent, 1))
        }
    } else if c == '=' {
        if d == '=' {
            Some((Tok::Eq, 2))
        } else if d == '>' {
            Some((Tok::FatArrow, 2))
        } else {
            Some((Tok::Assign, 1))
        }
    } else if c == '!' {
        if d == '=' {
            Some((Tok::Ne, 2))
        } else {
            Some((Tok::Not, 1))
        }
    } else if c == '<' {
        if d == '<' && e == '=' {
            Some((Tok::OpAssign(BinOp::Shl), 3))
        } else if d == '<' {
            Some((Tok::Shl, 2))
        } else if d == '=' {
            Some((Tok::Le, 2))
        } else {
            Some((Tok::Lt, 1))
        }
    } else if c == '>' {
        if d == '>' && e == '=' {
            Some((Tok::OpAssign(BinOp::Shr), 3))
        } else if d == '>' {
            Some((Tok::Shr, 2))
        } else if d == '=' {
            Some((Tok::Ge, 2))
        } else {
            Some((Tok::Gt, 1))
        }
    } else if c == '&' {
        if d == '&' {
            Some((Tok::AndAnd, 2))
        } else if d == '=' {
            Some((Tok::OpAssign(BinOp::BitAnd), 2))
        } else {
            Some((Tok::Amp, 1))
        }
    } else if c == '|' {
        if d == '|' {
            Some((Tok::OrOr, 2))
        } else if d == '=' {
            Some((Tok::OpAssign(BinOp::BitOr), 2))
        } else {
            Some((Tok::Pipe, 1))
        }
    } else if c == '^' {
        if d == '=' {
            Some((Tok::OpAssign(BinOp::BitXor), 2))
        } else {
            Some((Tok::Caret, 1))
        }
    } else if c == '~' {
        Some((Tok::Tilde, 1))
    } else {
        None
    }
}

/// What stands at a place that is not the end of the source.
pub open spec fn step(s: Seq<char>, p: Pos) -> StepView {
    let c = at(s, p.i);
    let d = at(s, p.i + 1);
    if c == '\n' || c == ' ' || c == '\t' || c == '\r' {
        StepView::Skip(p.past(c))
    } else if c == '/' && d == '/' {
        StepView::Skip(line_comment(s, p))
    } else if c == '/' && d == '*' {
        match block_comment(s, p.ahead(2), 1) {
            Ok(q) => StepView::Skip(q),
            Err(q) => StepView::Fail("unterminated block comment"@, q),
        }
    } else if is_digit(c) {
        number(s, p)
    } else if c == 'b' && d == '\'' {
        byte_literal(s, p)
    } else if is_word_start(c) {
        let e = run_end(s, p.i, Class::Word);
        StepView::Token(word_token(s.subrange(p.i, e)), p.ahead(e - p.i))
    } else if c == '"' {
        match string_rest(s, p.ahead(1), Seq::empty()) {
            Ok((text, q)) => StepView::Token(TokView::Str(text), q),
            Err((m, q)) => StepView::Fail(m, q),
        }
    } else {
        match operator(s, p.i) {
            Some((t, n)) => StepView::Token(TokView::Plain(t), p.ahead(n)),
            None => StepView::Fail("unexpected character '"@ + seq![c] + "'"@, p),
        }
    }
}

/// The end of the line from `p`, which is where a line comment ends.
pub open spec fn line_comment(s: Seq<char>, p: Pos) -> Pos
    decreases s.len() - p.i,
{
    if 0 <= p.i < s.len() && s[p.i] != '\n' {
        line_comment(s, p.past(s[p.i]))
    } else {
        p
    }
}

proof fn lemma_line_comment(s: Seq<char>, p: Pos)
    requires
        0 <= p.i <= s.len(),
    ensures
        p.i <= line_comment(s, p).i <= s.len(),
        p.i < s.len() && s[p.i] != '\n' ==> p.i < line_comment(s, p).i,
    decreases s.len() - p.i,
{
    if p.i < s.len() && s[p.i] != '\n' {
        lemma_line_comment(s, p.past(s[p.i]));
    }
}

/// A step that does not fail moves ahead and stays within the source.
pub proof fn lemma_step_moves(s: Seq<char>, p: Pos)
    requires
        0 <= p.i < s.len(),
    ensures
        step(s, p) matches StepView::Skip(q) ==> p.i < q.i <= s.len(),
        step(s, p) matches StepView::Token(_, q) ==> p.i < q.i <= s.len(),
{
    let c = at(s, p.i);
    let d = at(s, p.i + 1);
    if c == '/' && d == '/' {
        lemma_line_comment(s, p);
    } else if c == '/' && d == '*' {
        lemma_block_comment(s, p.ahead(2), 1);
    } else if is_digit(c) {
        lemma_run_end(s, p.i, Class::Digit);
        let e = run_end(s, p.i, Class::Digit);
        lemma_run_end(s, e + 1, Class::Digit);
    } else if c == 'b' && d == '\'' {
    } else if is_word_start(c) {
        lemma_run_end(s, p.i, Class::Word);
    } else if c == '"' {
        lemma_string_rest(s, p.ahead(1), Seq::empty());
    }
}

/// The tokens of the source from a place on, after those already found.
pub open spec fn lex_from(s: Seq<char>, p: Pos, acc: Seq<TokenView>) -> Result<
    Seq<TokenView>,
    Seq<char>,
>
    decreases s.len() - p.i,
{
    if p.i >= s.len() || p.i < 0 {
        Ok(acc.push(token_at(TokView::Plain(Tok::Eof), p, p)))
    } else {
        match step(s, p) {
            StepView::Skip(q) => {
                proof {
                    lemma_step_moves(s, p);
                }
                lex_from(s, q, acc)
            },
            StepView::Token(t, q) => {
                proof {
                    lemma_step_moves(s, p);
                }
                lex_from(s, q, acc.push(token_at(t, p, q)))
            },
            StepView::Fail(m, q) => Err(error_text(m, q)),
        }
    }
}

/// The token that stands from `p` to `q`: its line is the one where it ends (a
/// string may span lines), and its column the one where it begins.
pub open spec fn token_at(t: TokView, p: Pos, q: Pos) -> TokenView {
    TokenView { tok: t, line: q.line as u32, col: p.col as u32 }
}

/// A message with its place in front: `line:col: message`.
pub open spec fn error_text(m: Seq<char>, p: Pos) -> Seq<char> {
    dec_text(p.line as nat) + ":"@ + dec_text(p.col as nat) + ": "@ + m
}

/// The tokens of a source text, ending in `Eof`, or the first error in it.
pub open spec fn lex_spec(s: Seq<char>) -> Result<Seq<TokenView>, Seq<char>> {
    lex_from(s, Pos { i: 0, line: 1, col: 1 }, Seq::empty())
}

/// Does only the last of these tokens mark the end?
pub open spec fn ends_once(ts: Seq<TokenView>) -> bool {
    &&& ts.len() > 0
    &&& ts.last().tok == TokView::Plain(Tok::Eof)
    &&& forall|i: int| 0 <= i < ts.len() - 1 ==> (#[trigger] ts[i]).tok != TokView::Plain(Tok::Eof)
}

proof fn lemma_step_is_no_end(s: Seq<char>, p: Pos)
    ensures
        step(s, p) matches StepView::Token(t, _) ==> t != TokView::Plain(Tok::Eof),
{
}

proof fn lemma_lex_from_ends_once(s: Seq<char>, p: Pos, acc: Seq<TokenView>)
    requires
        0 <= p.i,
        forall|i: int| 0 <= i < acc.len() ==> (#[trigger] acc[i]).tok != TokView::Plain(Tok::Eof),
    ensures
        lex_from(s, p, acc) matches Ok(ts) ==> ends_once(ts),
    decreases s.len() - p.i,
{
    if p.i < s.len() {
        lemma_step_moves(s, p);
        lemma_step_is_no_end(s, p);
        match step(s, p) {
            StepView::Skip(q) => lemma_lex_from_ends_once(s, q, acc),
            StepView::Token(t, q) => lemma_lex_from_ends_once(s, q, acc.push(token_at(t, p, q))),
            StepView::Fail(_, _) => {},
        }
    }
}

/// The tokens of a source text end in `Eof`, and it stands nowhere else.
pub proof fn law_lex_ends_once(s: Seq<char>)
    ensures
        lex_spec(s) matches Ok(ts) ==> ends_once(ts),
{
    lemma_lex_from_ends_once(s, Pos { i: 0, line: 1, col: 1 }, Seq::empty());
}

/// Is this spelled like an identifier?
pub open spec fn is_name(w: Seq<char>) -> bool {
    w.len() > 0 && is_word_start(w[0]) && forall|i: int| 0 <= i < w.len() ==> is_word(#[trigger] w[i])
}

/// Are all names among the tokens spelled like identifiers?
pub open spec fn names_spelled(ts: Seq<TokenView>) -> bool {
    forall|i: int| 0 <= i < ts.len() ==> ((#[trigger] ts[i]).tok matches TokView::Ident(w) ==> is_name(w))
}

proof fn lemma_step_name(s: Seq<char>, p: Pos)
    requires
        0 <= p.i < s.len(),
    ensures
        step(s, p) matches StepView::Token(TokView::Ident(w), _) ==> is_name(w),
{
    let c = at(s, p.i);
    if is_word_start(c) {
        lemma_run_end(s, p.i, Class::Word);
        let e = run_end(s, p.i, Class::Word);
        let w = s.subrange(p.i, e);
        assert forall|i: int| 0 <= i < w.len() implies is_word(#[trigger] w[i]) by {
            assert(in_class(s[p.i + i], Class::Word));
        }
    }
}

proof fn lemma_lex_from_names(s: Seq<char>, p: Pos, acc: Seq<TokenView>)
    requires
        0 <= p.i,
        names_spelled(acc),
    ensures
        lex_from(s, p, acc) matches Ok(ts) ==> names_spelled(ts),
    decreases s.len() - p.i,
{
    if p.i < s.len() {
        lemma_step_moves(s, p);
        lemma_step_name(s, p);
        match step(s, p) {
            StepView::Skip(q) => lemma_lex_from_names(s, q, acc),
            StepView::Token(t, q) => lemma_lex_from_names(s, q, acc.push(token_at(t, p, q))),
            StepView::Fail(_, _) => {},
        }
    }
}

/// Identifiers are made of letters, digits and underscores, and start with no
/// digit.
pub proof fn law_lex_names(s: Seq<char>)
    ensures
        lex_spec(s) matches Ok(ts) ==> names_spelled(ts),
{
    lemma_lex_from_names(s, Pos { i: 0, line: 1, col: 1 }, Seq::empty());
}

// -- The lexer --------------------------------------------------------------

/// A place in the source during a scan.
#[derive(Clone, Copy)]
struct Cursor {
    i: usize,
    line: u32,
    col: u32,
}

/// The longest source that the lexer takes, in bytes: lines and columns are
/// 32-bit numbers that count from 1.
pub const MAX_SOURCE: usize = 0xffff_fffe;

/// The number of bytes of a text's UTF-8 encoding.
pub open spec fn width(s: Seq<char>) -> nat
    decreases s.len(),
{
    if s.len() == 0 {
        0
    } else {
        width(s.drop_last()) + utf8_width(s.last()) as nat
    }
}

/// The width of a text is the length of its encoding.
pub proof fn law_width(s: Seq<char>)
    ensures
        width(s) == encode_utf8(s).len(),
    decreases s.len(),
{
    if s.len() > 0 {
        law_width(s.drop_last());
        lemma_encode_push(s.drop_last(), s.last());
        assert(s =~= s.drop_last().push(s.last()));
    }
}

proof fn lemma_encode_push(s: Seq<char>, c: char)
    ensures
        encode_utf8(s.push(c)).len() == encode_utf8(s).len() + utf8_width(c),
    decreases s.len(),
{
    reveal_with_fuel(encode_utf8, 2);
    let t = s.push(c);
    if s.len() > 0 {
        assert(t.drop_first() =~= s.drop_first().push(c));
        assert(t[0] == s[0]);
        lemma_encode_push(s.drop_first(), c);
    } else {
        assert(t.drop_first() =~= Seq::<char>::empty());
        assert(t[0] == c);
    }
}

proof fn lemma_width_take(s: Seq<char>, i: int, k: int)
    requires
        0 <= i,
        0 <= k,
        i + k <= s.len(),
    ensures
        width(s.take(i)) + k <= width(s.take(i + k)),
        k == 1 ==> width(s.take(i + 1)) == width(s.take(i)) + utf8_width(s[i]),
    decreases k,
{
    if k > 0 {
        lemma_width_take(s, i, k - 1);
        assert(s.take(i + k).drop_last() =~= s.take(i + k - 1));
        assert(s.take(i + k).last() == s[i + k - 1]);
    }
}

/// A text has no more characters than bytes, and the first ones no more bytes
/// than all.
proof fn lemma_width_whole(s: Seq<char>, i: int)
    requires
        0 <= i <= s.len(),
    ensures
        s.len() <= width(s),
        width(s.take(i)) <= width(s),
        width(s.take(0)) == 0,
{
    lemma_width_take(s, 0, s.len() as int);
    lemma_width_take(s, i, s.len() - i);
    assert(s.take(s.len() as int) =~= s);
}

impl Cursor {
    spec fn view(&self) -> Pos {
        Pos { i: self.i as int, line: self.line as int, col: self.col as int }
    }

    spec fn fits(self, s: Seq<char>) -> bool {
        &&& width(s) <= MAX_SOURCE
        &&& s.len() <= MAX_SOURCE
        &&& self.i <= s.len()
        &&& 1 <= self.line <= self.i + 1
        &&& 1 <= self.col <= width(s.take(self.i as int)) + 1
    }

    /// The cursor `k` one-byte characters further.
    fn ahead(self, k: usize, Ghost(s): Ghost<Seq<char>>) -> (r: Cursor)
        requires
            self.fits(s),
            self.i + k <= s.len(),
        ensures
            r@ == self@.ahead(k as int),
            r.fits(s),
    {
        proof {
            lemma_width_take(s, self.i as int, k as int);
            lemma_width_whole(s, self.i + k);
        }
        Cursor { i: self.i + k, line: self.line, col: self.col + k as u32 }
    }

    /// The cursor past one character.
    fn past(self, c: char, Ghost(s): Ghost<Seq<char>>) -> (r: Cursor)
        requires
            self.fits(s),
            self.i < s.len(),
            c == s[self.i as int],
        ensures
            r@ == self@.past(c),
            r.fits(s),
    {
        proof {
            lemma_width_take(s, self.i as int, 1);
            lemma_width_whole(s, self.i + 1);
        }
        if c == '\n' {
            Cursor { i: self.i + 1, line: self.line + 1, col: 1 }
        } else {
            Cursor { i: self.i + 1, line: self.line, col: self.col + utf8_len(c) }
        }
    }
}

/// The number of bytes of a character's UTF-8 encoding.
pub fn utf8_len(c: char) -> (r: u32)
    ensures
        r == utf8_width(c),
{
    let v: u32 = c as u32;
    if v < 0x80 {
        1
    } else if v < 0x800 {
        2
    } else if v < 0x1_0000 {
        3
    } else {
        4
    }
}

fn char_at(s: &Vec<char>, i: usize) -> (c: char)
    ensures
        c == at(s@, i as int),
{
    if i < s.len() {
        s[i]
    } else {
        '\0'
    }
}

fn digit_char(c: char) -> (r: bool)
    ensures
        r == is_digit(c),
{
    let v: u32 = c as u32;
    '0' as u32 <= v && v <= '9' as u32
}

fn hex_char(c: char) -> (r: bool)
    ensures
        r == is_hex(c),
{
    let v: u32 = c as u32;
    digit_char(c) || ('a' as u32 <= v && v <= 'f' as u32) || ('A' as u32 <= v && v <= 'F' as u32)
}

fn word_start_char(c: char) -> (r: bool)
    ensures
        r == is_word_start(c),
{
    let v: u32 = c as u32;
    ('a' as u32 <= v && v <= 'z' as u32) || ('A' as u32 <= v && v <= 'Z' as u32) || c == '_'
}

fn class_char(c: char, k: Class) -> (r: bool)
    ensures
        r == in_class(c, k),
{
    match k {
        Class::Digit => digit_char(c),
        Class::Hex => hex_char(c),
        Class::Word => word_start_char(c) || digit_char(c),
        Class::NotNewline => c != '\n',
    }
}

fn scan_run(s: &Vec<char>, from: usize, k: Class) -> (e: usize)
    requires
        from <= s.len(),
    ensures
        e == run_end(s@, from as int, k),
        from <= e <= s.len(),
        forall|j: int| from <= j < e ==> in_class(s@[j], k),
{
    let mut i: usize = from;
    while i < s.len() && class_char(s[i], k)
        invariant
            from <= i <= s.len(),
            run_end(s@, from as int, k) == run_end(s@, i as int, k),
            forall|j: int| from <= j < i ==> in_class(s@[j], k),
        decreases s.len() - i,
    {
        i += 1;
    }
    i
}

/// The text between two places.
fn slice_text(s: &Vec<char>, from: usize, to: usize) -> (r: String)
    requires
        from <= to <= s.len(),
    ensures
        r@ == s@.subrange(from as int, to as int),
{
    let mut out = String::new();
    let mut i: usize = from;
    while i < to
        invariant
            from <= i <= to <= s.len(),
            out@ == s@.subrange(from as int, i as int),
        decreases to - i,
    {
        out.push(s[i]);
        assert(s@.subrange(from as int, i as int).push(s@[i as int]) =~= s@.subrange(
            from as int,
            i + 1,
        ));
        i += 1;
    }
    out
}

fn hex_digit(c: char) -> (r: u32)
    requires
        is_hex(c),
    ensures
        r == hex_value(c),
        r < 16,
        is_digit(c) ==> r < 10,
{
    let v: u32 = c as u32;
    if digit_char(c) {
        v - '0' as u32
    } else if 'a' as u32 <= v {
        v - 'a' as u32 + 10
    } else {
        v - 'A' as u32 + 10
    }
}

/// The decimal number between two places, when it fits in 64 bits.
fn decimal(s: &Vec<char>, from: usize, to: usize) -> (r: Option<u64>)
    requires
        from <= to <= s.len(),
        forall|j: int| from <= j < to ==> is_digit(s@[j]),
    ensures
        r == (if digits_value(s@, from as int, to as int, 10) <= u64::MAX {
            Some(digits_value(s@, from as int, to as int, 10) as u64)
        } else {
            None
        }),
{
    let mut acc: Option<u64> = Some(0);
    let mut i: usize = from;
    while i < to
        invariant
            from <= i <= to <= s.len(),
            forall|j: int| from <= j < to ==> is_digit(s@[j]),
            acc == (if digits_value(s@, from as int, i as int, 10) <= u64::MAX {
                Some(digits_value(s@, from as int, i as int, 10) as u64)
            } else {
                None
            }),
        decreases to - i,
    {
        let d: u64 = hex_digit(s[i]) as u64;
        acc = match acc {
            Some(v) => {
                if v > 0x1999_9999_9999_9999 || v * 10 > 0xffff_ffff_ffff_ffff - d {
                    None
                } else {
                    Some(v * 10 + d)
                }
            },
            None => None,
        };
        i += 1;
    }
    acc
}

/// The hexadecimal number of at most six digits between two places.
fn hexadecimal(s: &Vec<char>, from: usize, to: usize) -> (r: u32)
    requires
        from <= to <= s.len(),
        to - from <= 6,
        forall|j: int| from <= j < to ==> is_hex(s@[j]),
    ensures
        r == digits_value(s@, from as int, to as int, 16),
{
    let mut acc: u32 = 0;
    let mut i: usize = from;
    let mut bound: u32 = 1;
    while i < to
        invariant
            from <= i <= to <= s.len(),
            to - from <= 6,
            forall|j: int| from <= j < to ==> is_hex(s@[j]),
            acc == digits_value(s@, from as int, i as int, 16),
            acc < bound,
            i - from == 0 ==> bound == 1,
            i - from == 1 ==> bound == 0x10,
            i - from == 2 ==> bound == 0x100,
            i - from == 3 ==> bound == 0x1000,
            i - from == 4 ==> bound == 0x1_0000,
            i - from == 5 ==> bound == 0x10_0000,
            i - from == 6 ==> bound == 0x100_0000,
        decreases to - i,
    {
        acc = acc * 16 + hex_digit(s[i]);
        bound = bound * 16;
        i += 1;
    }
    acc
}

enum Step {
    Skip(Cursor),
    Token(Tok, Cursor),
    Fail(String, Cursor),
}

impl Step {
    spec fn view(&self) -> StepView {
        match self {
            Step::Skip(q) => StepView::Skip(q@),
            Step::Token(t, q) => StepView::Token(t@, q@),
            Step::Fail(m, q) => StepView::Fail(m@, q@),
        }
    }

    spec fn fits(self, s: Seq<char>) -> bool {
        match self {
            Step::Skip(q) => q.fits(s),
            Step::Token(_, q) => q.fits(s),
            Step::Fail(_, q) => q.fits(s),
        }
    }
}

fn skip_line(s: &Vec<char>, p: Cursor) -> (q: Cursor)
    requires
        p.fits(s@),
    ensures
        q@ == line_comment(s@, p@),
        q.fits(s@),
{
    let mut q = p;
    while q.i < s.len() && s[q.i] != '\n'
        invariant
            q.fits(s@),
            line_comment(s@, p@) == line_comment(s@, q@),
        decreases s.len() - q.i,
    {
        q = q.past(s[q.i], Ghost(s@));
    }
    q
}

fn skip_block(s: &Vec<char>, p: Cursor) -> (r: Result<Cursor, Cursor>)
    requires
        p.fits(s@),
    ensures
        match r {
            Ok(q) => block_comment(s@, p@, 1) == Ok::<Pos, Pos>(q@) && q.fits(s@),
            Err(q) => block_comment(s@, p@, 1) == Err::<Pos, Pos>(q@) && q.fits(s@),
        },
{
    let mut q = p;
    let mut depth: usize = 1;
    while q.i < s.len()
        invariant
            q.fits(s@),
            1 <= depth <= q.i + 1,
            block_comment(s@, p@, 1) == block_comment(s@, q@, depth as nat),
        decreases s.len() - q.i,
    {
        let c = s[q.i];
        let d = char_at(s, q.i + 1);
        if c == '*' && d == '/' {
            q = q.ahead(2, Ghost(s@));
            if depth == 1 {
                return Ok(q);
            }
            depth = depth - 1;
        } else if c == '/' && d == '*' {
            q = q.ahead(2, Ghost(s@));
            depth = depth + 1;
        } else {
            q = q.past(c, Ghost(s@));
        }
    }
    Err(q)
}

fn escape_char(c: char) -> (r: Option<char>)
    ensures
        r == simple_escape(c),
{
    if c == 'n' {
        Some('\n')
    } else if c == 't' {
        Some('\t')
    } else if c == 'r' {
        Some('\r')
    } else if c == '\\' {
        Some('\\')
    } else if c == '0' {
        Some('\0')
    } else {
        None
    }
}

spec fn scanned(r: Result<(char, Cursor), (String, Cursor)>) -> Result<(char, Pos), (Seq<char>, Pos)> {
    match r {
        Ok((c, q)) => Ok((c, q@)),
        Err((m, q)) => Err((m@, q@)),
    }
}

spec fn scanned_fits<T, E>(r: Result<(T, Cursor), (E, Cursor)>, s: Seq<char>) -> bool {
    match r {
        Ok((_, q)) => q.fits(s),
        Err((_, q)) => q.fits(s),
    }
}

fn scan_unicode(s: &Vec<char>, p: Cursor) -> (r: Result<(char, Cursor), (String, Cursor)>)
    requires
        p.fits(s@),
        p.i < s.len(),
    ensures
        scanned(r) == unicode_escape(s@, p@),
        scanned_fits(r, s@),
{
    if char_at(s, p.i + 1) != '{' {
        return Err((owned("expected '{' after \\u"), p.ahead(1, Ghost(s@))));
    }
    let start: usize = p.i + 2;
    let e = scan_run(s, start, Class::Hex);
    let q = p.ahead(e - p.i, Ghost(s@));
    let digits = slice_text(s, start, e);
    if char_at(s, e) != '}' {
        return Err((cat2("expected '}' after \\u{", digits.as_str()), q));
    }
    if e - start == 0 || e - start > 6 {
        return Err((owned("\\u escape needs 1 to 6 hex digits"), q));
    }
    let v: u32 = hexadecimal(s, start, e);
    match char::from_u32(v) {
        Some(c) => Ok((c, q.ahead(1, Ghost(s@)))),
        None => Err((cat3("\\u{", digits.as_str(), "} is not a valid Unicode scalar"), q)),
    }
}

fn scan_escape(s: &Vec<char>, p: Cursor) -> (r: Result<(char, Cursor), (String, Cursor)>)
    requires
        p.fits(s@),
    ensures
        scanned(r) == string_escape(s@, p@),
        scanned_fits(r, s@),
{
    if p.i < s.len() {
        let c = s[p.i];
        if c == '"' {
            return Ok(('"', p.ahead(1, Ghost(s@))));
        }
        if let Some(x) = escape_char(c) {
            return Ok((x, p.ahead(1, Ghost(s@))));
        }
        if c == 'u' {
            return scan_unicode(s, p);
        }
    }
    Err((owned("invalid escape sequence"), p))
}

fn scan_string(s: &Vec<char>, p: Cursor) -> (r: Step)
    requires
        p.fits(s@),
        p.i < s.len(),
    ensures
        r@ == (match string_rest(s@, p@.ahead(1), Seq::empty()) {
            Ok((text, q)) => StepView::Token(TokView::Str(text), q),
            Err((m, q)) => StepView::Fail(m, q),
        }),
        r.fits(s@),
{
    let mut q = p.ahead(1, Ghost(s@));
    let mut out = String::new();
    while q.i < s.len()
        invariant
            q.fits(s@),
            string_rest(s@, p@.ahead(1), Seq::empty()) == string_rest(s@, q@, out@),
        decreases s.len() - q.i,
    {
        let c = s[q.i];
        if c == '"' {
            return Step::Token(Tok::Str(out), q.ahead(1, Ghost(s@)));
        } else if c == '\\' {
            let q1 = q.ahead(1, Ghost(s@));
            proof {
                lemma_string_escape(s@, q1@);
            }
            match scan_escape(s, q1) {
                Ok((x, q2)) => {
                    out.push(x);
                    q = q2;
                },
                Err((m, q2)) => return Step::Fail(m, q2),
            }
        } else {
            out.push(c);
            q = q.past(c, Ghost(s@));
        }
    }
    Step::Fail(owned("unterminated string literal"), q)
}

spec fn scanned_byte(r: Result<(u8, Cursor), (String, Cursor)>) -> Result<(u8, Pos), (Seq<char>, Pos)> {
    match r {
        Ok((c, q)) => Ok((c, q@)),
        Err((m, q)) => Err((m@, q@)),
    }
}

fn scan_byte_value(s: &Vec<char>, p: Cursor) -> (r: Result<(u8, Cursor), (String, Cursor)>)
    requires
        p.fits(s@),
    ensures
        scanned_byte(r) == byte_value(s@, p@),
        scanned_fits(r, s@),
{
    if p.i >= s.len() {
        return Err((owned("unterminated byte literal"), p));
    }
    let c = s[p.i];
    if c == '\'' {
        return Err((owned("empty byte literal"), p));
    }
    if c == '\\' {
        let q = p.ahead(1, Ghost(s@));
        if q.i < s.len() {
            let d = s[q.i];
            if d == '\'' {
                return Ok((39u8, q.ahead(1, Ghost(s@))));
            }
            if let Some(x) = escape_char(d) {
                return Ok((x as u8, q.ahead(1, Ghost(s@))));
            }
            if d == 'x' {
                let h = char_at(s, q.i + 1);
                let l = char_at(s, q.i + 2);
                if hex_char(h) && hex_char(l) {
                    let v: u32 = hex_digit(h) * 16 + hex_digit(l);
                    return Ok((v as u8, q.ahead(3, Ghost(s@))));
                }
                return Err((owned("\\x escape needs exactly 2 hex digits"), q));
            }
        }
        return Err((owned("invalid escape sequence in byte literal"), q));
    }
    let v: u32 = c as u32;
    if 0x20 <= v && v <= 0x7e {
        Ok((c as u8, p.ahead(1, Ghost(s@))))
    } else {
        Err(
            (
                owned(
                    "byte literal must be a printable ASCII character; use \\xNN for other byte values",
                ),
                p,
            ),
        )
    }
}

fn scan_byte(s: &Vec<char>, p: Cursor) -> (r: Step)
    requires
        p.fits(s@),
        p.i + 2 <= s.len(),
    ensures
        r@ == byte_literal(s@, p@),
        r.fits(s@),
{
    match scan_byte_value(s, p.ahead(2, Ghost(s@))) {
        Err((m, q)) => Step::Fail(m, q),
        Ok((v, q)) => {
            if char_at(s, q.i) != '\'' {
                Step::Fail(owned("byte literal must contain exactly one character"), q)
            } else {
                Step::Token(Tok::Byte(v), q.ahead(1, Ghost(s@)))
            }
        },
    }
}

fn scan_number(s: &Vec<char>, p: Cursor) -> (r: Step)
    requires
        p.fits(s@),
    ensures
        r@ == number(s@, p@),
        r.fits(s@),
{
    let e = scan_run(s, p.i, Class::Digit);
    if char_at(s, e) == '.' && digit_char(char_at(s, e + 1)) {
        let f = scan_run(s, e + 1, Class::Digit);
        return Step::Token(
            Tok::Float(slice_text(s, p.i, f)),
            p.ahead(f - p.i, Ghost(s@)),
        );
    }
    let q = p.ahead(e - p.i, Ghost(s@));
    match decimal(s, p.i, e) {
        Some(v) => Step::Token(Tok::Int(v), q),
        None => Step::Fail(
            cat3("integer literal '", slice_text(s, p.i, e).as_str(), "' out of range"),
            q,
        ),
    }
}

fn classify_word(w: String) -> (t: Tok)
    ensures
        t@ == word_token(w@),
{
    let s = w.as_str();
    if str_eq(s, "fn") {
        Tok::Fn
    } else if str_eq(s, "struct") {
        Tok::Struct
    } else if str_eq(s, "enum") {
        Tok::Enum
    } else if str_eq(s, "impl") {
        Tok::Impl
    } else if str_eq(s, "self") {
        Tok::SelfKw
    } else if str_eq(s, "match") {
        Tok::Match
    } else if str_eq(s, "let") {
        Tok::Let
    } else if str_eq(s, "if") {
        Tok::If
    } else if str_eq(s, "else") {
        Tok::Else
    } else if str_eq(s, "while") {
        Tok::While
    } else if str_eq(s, "for") {
        Tok::For
    } else if str_eq(s, "return") {
        Tok::Return
    } else if str_eq(s, "break") {
        Tok::Break
    } else if str_eq(s, "continue") {
        Tok::Continue
    } else if str_eq(s, "true") {
        Tok::True
    } else if str_eq(s, "false") {
        Tok::False
    } else if str_eq(s, "nil") {
        Tok::Nil
    } else if str_eq(s, "as") {
        Tok::As
    } else {
        Tok::Ident(w)
    }
}

fn classify_operator(s: &Vec<char>, i: usize) -> (r: Option<(Tok, usize)>)
    requires
        i < s.len(),
        s.len() <= MAX_SOURCE,
    ensures
        match r {
            Some((t, n)) => operator(s@, i as int) == Some((t, n as int)) && t@ == TokView::Plain(t)
                && i + n <= s.len(),
            None => operator(s@, i as int) is None,
        },
{
    let c = s[i];
    let d = char_at(s, i + 1);
    let e = char_at(s, i + 2);
    if c == '(' {
        Some((Tok::LParen, 1))
    } else if c == ')' {
        Some((Tok::RParen, 1))
    } else if c == '{' {
        Some((Tok::LBrace, 1))
    } else if c == '}' {
        Some((Tok::RBrace, 1))
    } else if c == '[' {
        Some((Tok::LBracket, 1))
    } else if c == ']' {
        Some((Tok::RBracket, 1))
    } else if c == ',' {
        Some((Tok::Comma, 1))
    } else if c == ';' {
        Some((Tok::Semi, 1))
    } else if c == ':' {
        Some((Tok::Colon, 1))
    } else if c == '.' {
        Some((Tok::Dot, 1))
    } else if c == '+' {
        if d == '=' {
            Some((Tok::OpAssign(BinOp::Add), 2))
        } else {
            Some((Tok::Plus, 1))
        }
    } else if c == '-' {
        if d == '=' {
            Some((Tok::OpAssign(BinOp::Sub), 2))
        } else {
            Some((Tok::Minus, 1))
        }
    } else if c == '*' {
        if d == '=' {
            Some((Tok::OpAssign(BinOp::Mul), 2))
        } else {
            Some((Tok::Star, 1))
        }
    } else if c == '/' {
        if d == '=' {
            Some((Tok::OpAssign(BinOp::Div), 2))
        } else {
            Some((Tok::Slash, 1))
        }
    } else if c == '%' {
        if d == '=' {
            Some((Tok::OpAssign(BinOp::Rem), 2))
        } else {
            Some((Tok::Percent, 1))
        }
    } else if c == '=' {
        if d == '=' {
            Some((Tok::Eq, 2))
        } else if d == '>' {
            Some((Tok::FatArrow, 2))
        } else {
            Some((Tok::Assign, 1))
        }
    } else if c == '!' {
        if d == '=' {
            Some((Tok::Ne, 2))
        } else {
            Some((Tok::Not, 1))
        }
    } else if c == '<' {
        if d == '<' && e == '=' {
            Some((Tok::OpAssign(BinOp::Shl), 3))
        } else if d == '<' {
            Some((Tok::Shl, 2))
        } else if d == '=' {
            Some((Tok::Le, 2))
        } else {
            Some((Tok::Lt, 1))
        }
    } else if c == '>' {
        if d == '>' && e == '=' {
            Some((Tok::OpAssign(BinOp::Shr), 3))
        } else if d == '>' {
            // `>>` lexes as a shift; the parser splits it back into two `>`
            // when it closes nested type arguments (`Pair<Pair<int>>`).
            Some((Tok::Shr, 2))
        } else if d == '=' {
            Some((Tok::Ge, 2))
        } else {
            Some((Tok::Gt, 1))
        }
    } else if c == '&' {
        if d == '&' {
            Some((Tok::AndAnd, 2))
        } else if d == '=' {
            Some((Tok::OpAssign(BinOp::BitAnd), 2))
        } else {
            Some((Tok::Amp, 1))
        }
    } else if c == '|' {
        if d == '|' {
            Some((Tok::OrOr, 2))
        } else if d == '=' {
            Some((Tok::OpAssign(BinOp::BitOr), 2))
        } else {
            Some((Tok::Pipe, 1))
        }
    } else if c == '^' {
        if d == '=' {
            Some((Tok::OpAssign(BinOp::BitXor), 2))
        } else {
            Some((Tok::Caret, 1))
        }
    } else if c == '~' {
        Some((Tok::Tilde, 1))
    } else {
        None
    }
}

fn scan(s: &Vec<char>, p: Cursor) -> (r: Step)
    requires
        p.fits(s@),
        p.i < s.len(),
    ensures
        r@ == step(s@, p@),
        r.fits(s@),
{
    let c = s[p.i];
    let d = char_at(s, p.i + 1);
    if c == '\n' || c == ' ' || c == '\t' || c == '\r' {
        Step::Skip(p.past(c, Ghost(s@)))
    } else if c == '/' && d == '/' {
        Step::Skip(skip_line(s, p))
    } else if c == '/' && d == '*' {
        match skip_block(s, p.ahead(2, Ghost(s@))) {
            Ok(q) => Step::Skip(q),
            Err(q) => Step::Fail(owned("unterminated block comment"), q),
        }
    } else if digit_char(c) {
        scan_number(s, p)
    } else if c == 'b' && d == '\'' {
        scan_byte(s, p)
    } else if word_start_char(c) {
        let e = scan_run(s, p.i, Class::Word);
        let word = slice_text(s, p.i, e);
        Step::Token(classify_word(word), p.ahead(e - p.i, Ghost(s@)))
    } else if c == '"' {
        scan_string(s, p)
    } else {
        match classify_operator(s, p.i) {
            Some((t, n)) => Step::Token(t, p.ahead(n, Ghost(s@))),
            None => {
                let mut shown = String::new();
                shown.push(c);
                assert(shown@ =~= seq![c]);
                Step::Fail(cat3("unexpected character '", shown.as_str(), "'"), p)
            },
        }
    }
}

/// The characters of a source text, in order.
pub fn chars_of(src: &str) -> (r: Vec<char>)
    ensures
        r@ == src@,
{
    let mut out: Vec<char> = Vec::new();
    for c in iter: src.chars()
        invariant
            iter.seq() == src@,
            out@ == src@.take(iter.index() as int),
    {
        out.push(c);
        assert(out@ =~= src@.take(iter.index() as int + 1));
    }
    assert(out@ =~= src@);
    out
}

/// Split a source text into tokens. The last one is always `Eof`. Lines and
/// columns count from 1; a column counts bytes.
pub fn lex(src: &str) -> (r: Result<Vec<Token>, String>)
    requires
        width(src@) <= MAX_SOURCE,
    ensures
        match r {
            Ok(ts) => lex_spec(src@) == Ok::<Seq<TokenView>, Seq<char>>(tokens_view(ts@)),
            Err(e) => lex_spec(src@) == Err::<Seq<TokenView>, Seq<char>>(e@),
        },
{
    let s = chars_of(src);
    let mut toks: Vec<Token> = Vec::new();
    let mut p = Cursor { i: 0, line: 1, col: 1 };
    proof {
        lemma_width_whole(s@, 0);
    }
    assert(tokens_view(toks@) =~= Seq::empty());
    while p.i < s.len()
        invariant
            s@ == src@,
            p.fits(s@),
            lex_spec(s@) == lex_from(s@, p@, tokens_view(toks@)),
        decreases s.len() - p.i,
    {
        proof {
            lemma_step_moves(s@, p@);
        }
        match scan(&s, p) {
            Step::Skip(q) => {
                p = q;
            },
            Step::Token(t, q) => {
                let ghost before = toks@;
                let token = Token { tok: t, line: q.line, col: p.col };
                toks.push(token);
                assert(tokens_view(toks@) =~= tokens_view(before).push(token_at(t@, p@, q@)));
                p = q;
            },
            Step::Fail(m, q) => {
                return Err(
                    cat5(dec(q.line as u64).as_str(), ":", dec(q.col as u64).as_str(), ": ", m.as_str()),
                );
            },
        }
    }
    let ghost before = toks@;
    toks.push(Token { tok: Tok::Eof, line: p.line, col: p.col });
    assert(tokens_view(toks@) =~= tokens_view(before).push(
        token_at(TokView::Plain(Tok::Eof), p@, p@),
    ));
    Ok(toks)
}

} // verus!
