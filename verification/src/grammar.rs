//! The grammar of Crow: what a sequence of tokens parses to, or which error
//! it is answered with.
//!
//! Each function here takes the tokens with the place reached in them, the
//! nesting depth, and (for expressions) whether `Name {` may begin a literal,
//! and gives a syntax tree with the place after it, or an error message.
//! Lists go on only from a place further ahead, so every function is defined
//! by recursion on the depth and the tokens that are left.
use vstd::prelude::*;

use crate::ast::{
    BinOp, BlockView, EnumDefView, ExprKindView, ExprView, FuncDefView, LambdaDefView,
    MethodDefView, PatArgsView, PatBinderView, PatternView, PayloadExprView, ProgramView, StmtView,
    StructDefView, TypeExprView, UnOp,
};
use crate::lexer::{is_name, is_word, names_spelled, Tok, TokView, TokenView};
use crate::text::dec_text;
use crate::types::TypeView;

verus! {

/// Deepest allowed nesting of expressions, statements, and types. Counts
/// genuine nesting only (left-associative operator chains parse iteratively),
/// so real programs never come close; the limit turns pathological input into
/// a clean error.
pub const MAX_DEPTH: u32 = 200;

/// Tokens and the place reached in them.
#[verifier::ext_equal]
pub struct Cur {
    pub toks: Seq<TokenView>,
    pub pos: int,
}

pub open spec fn plain(t: Tok) -> TokView {
    TokView::Plain(t)
}

impl Cur {
    pub open spec fn peek(self) -> TokView {
        self.toks[self.pos].tok
    }

    /// The token after the next one (the last token, where there is none).
    pub open spec fn peek2(self) -> TokView {
        if self.pos + 1 < self.toks.len() {
            self.toks[self.pos + 1].tok
        } else {
            self.toks[self.toks.len() - 1].tok
        }
    }

    pub open spec fn line(self) -> u32 {
        self.toks[self.pos].line
    }

    pub open spec fn at(self, t: Tok) -> bool {
        self.peek() == plain(t)
    }

    /// The place after the next token; the last token is never passed.
    pub open spec fn bump(self) -> Cur {
        if self.pos < self.toks.len() - 1 {
            Cur { toks: self.toks, pos: self.pos + 1 }
        } else {
            self
        }
    }

    /// `line:col: message, found token`.
    #[verifier::opaque]
    pub open spec fn error(self, msg: Seq<char>) -> Seq<char> {
        let t = self.toks[self.pos];
        dec_text(t.line as nat) + ":"@ + dec_text(t.col as nat) + ": "@ + msg + ", found "@
            + t.tok.text()
    }

    /// Is `next` a place in the same tokens further ahead?
    pub open spec fn before(self, next: Cur) -> bool {
        next.toks.len() == self.toks.len() && self.pos < next.pos <= next.toks.len()
    }

    /// How many tokens are left.
    pub open spec fn left(self) -> int {
        self.toks.len() - self.pos
    }

    pub open spec fn expect(self, t: Tok) -> Result<Cur, Seq<char>> {
        if self.at(t) {
            Ok(self.bump())
        } else {
            Err(self.error("expected "@ + plain(t).text()))
        }
    }

    /// Consume the `>` that closes a type-argument list. A `>>` token (lexed
    /// as a shift) is split in place: its first `>` is consumed here and a
    /// plain `>` remains for the enclosing list (`Pair<Pair<int>>`).
    pub open spec fn expect_gt(self) -> Result<Cur, Seq<char>> {
        if self.at(Tok::Gt) {
            Ok(self.bump())
        } else if self.at(Tok::Shr) {
            let t = self.toks[self.pos];
            Ok(
                Cur {
                    toks: self.toks.update(
                        self.pos,
                        TokenView {
                            tok: plain(Tok::Gt),
                            line: t.line,
                            col: if t.col < u32::MAX {
                                (t.col + 1) as u32
                            } else {
                                t.col
                            },
                        },
                    ),
                    pos: self.pos,
                },
            )
        } else {
            Err(self.error("expected '>'"@))
        }
    }

    pub open spec fn ident(self) -> Result<(Seq<char>, Cur), Seq<char>> {
        match name_of(self.peek()) {
            Some(name) => Ok((name, self.bump())),
            None => Err(self.error("expected identifier"@)),
        }
    }

    /// After `Name`, does a `{` begin a literal? It does when it looks like
    /// `{}` or `{ name :`.
    pub open spec fn literal_ahead(self) -> bool {
        self.peek2() == plain(Tok::RBrace) || (name_of(self.peek2()) is Some && self.pos + 2
            < self.toks.len() && self.toks[self.pos + 2].tok == plain(Tok::Colon))
    }

    #[verifier::opaque]
    pub open spec fn too_deep(self) -> Seq<char> {
        dec_text(self.line() as nat) + ": program is nested too deeply"@
    }
}

/// The name that a token spells. `nil` is an ordinary name: the language has
/// no null value.
pub open spec fn name_of(t: TokView) -> Option<Seq<char>> {
    match t {
        TokView::Ident(name) => Some(name),
        TokView::Plain(t) => if t is Nil {
            Some("nil"@)
        } else {
            None
        },
        _ => None,
    }
}

/// The answer where a list would go on without having moved; no list does.
pub open spec fn stuck() -> Seq<char> {
    "no progress"@
}

// -- Types ------------------------------------------------------------------

pub open spec fn type_expr(c: Cur, d: int) -> Result<(TypeExprView, Cur), Seq<char>>
    decreases 201 - d, 0int, 0int,
{
    if d + 1 > MAX_DEPTH {
        Err(c.too_deep())
    } else {
        type_inner(c, d + 1)
    }
}

pub open spec fn type_inner(c: Cur, d: int) -> Result<(TypeExprView, Cur), Seq<char>>
    decreases 201 - d, 2int, 0int,
{
    let line = c.line();
    if name_of(c.peek()) is Some {
        let name = name_of(c.peek())->0;
        let c1 = c.bump();
        if c1.at(Tok::Lt) {
            match type_args(c1.bump(), d, Seq::empty()) {
                Err(e) => Err(e),
                Ok((args, c2)) => match c2.expect_gt() {
                    Err(e) => Err(e),
                    Ok(c3) => Ok((TypeExprView::Named(name, args, line), c3)),
                },
            }
        } else {
            Ok((TypeExprView::Named(name, Seq::empty(), line), c1))
        }
    } else if c.at(Tok::LBracket) {
        match type_expr(c.bump(), d) {
            Err(e) => Err(e),
            Ok((elem, c1)) => match c1.expect(Tok::RBracket) {
                Err(e) => Err(e),
                Ok(c2) => Ok((TypeExprView::Array(Box::new(elem)), c2)),
            },
        }
    } else if c.at(Tok::Fn) {
        match c.bump().expect(Tok::LParen) {
            Err(e) => Err(e),
            Ok(c1) => match fn_type_params(c1, d, Seq::empty()) {
                Err(e) => Err(e),
                Ok((params, c2)) => match c2.expect(Tok::RParen) {
                    Err(e) => Err(e),
                    Ok(c3) => match ret_type(c3, d) {
                        Err(e) => Err(e),
                        Ok((ret, c4)) => Ok(
                            (
                                TypeExprView::Fn(
                                    params,
                                    match ret {
                                        Some(r) => Some(Box::new(r)),
                                        None => None,
                                    },
                                    line,
                                ),
                                c4,
                            ),
                        ),
                    },
                },
            },
        }
    } else {
        Err(c.error("expected a type"@))
    }
}

/// Types separated by commas.
pub open spec fn type_args(c: Cur, d: int, acc: Seq<TypeExprView>) -> Result<
    (Seq<TypeExprView>, Cur),
    Seq<char>,
>
    decreases 201 - d, 1int, c.left(),
{
    match type_expr(c, d) {
        Err(e) => Err(e),
        Ok((t, c1)) => if c1.at(Tok::Comma) {
            if c.before(c1.bump()) {
                type_args(c1.bump(), d, acc.push(t))
            } else {
                Err(stuck())
            }
        } else {
            Ok((acc.push(t), c1))
        },
    }
}

/// Types separated by commas up to `)`; a trailing comma is allowed.
pub open spec fn fn_type_params(c: Cur, d: int, acc: Seq<TypeExprView>) -> Result<
    (Seq<TypeExprView>, Cur),
    Seq<char>,
>
    decreases 201 - d, 1int, c.left(),
{
    if c.at(Tok::RParen) {
        Ok((acc, c))
    } else {
        match type_expr(c, d) {
            Err(e) => Err(e),
            Ok((t, c1)) => if c1.at(Tok::Comma) {
                if c.before(c1.bump()) {
                    fn_type_params(c1.bump(), d, acc.push(t))
                } else {
                    Err(stuck())
                }
            } else {
                Ok((acc.push(t), c1))
            },
        }
    }
}

/// An optional `: type`.
pub open spec fn ret_type(c: Cur, d: int) -> Result<(Option<TypeExprView>, Cur), Seq<char>>
    decreases 201 - d, 1int, 0int,
{
    if c.at(Tok::Colon) {
        match type_expr(c.bump(), d) {
            Err(e) => Err(e),
            Ok((t, c1)) => Ok((Some(t), c1)),
        }
    } else {
        Ok((None, c))
    }
}

/// `name: type` pairs separated by commas up to `close`; a trailing comma is
/// allowed. Where `ban_self` is set, a `self` is answered with an error of
/// its own.
pub open spec fn typed_names(
    c: Cur,
    d: int,
    close: Tok,
    ban_self: bool,
    acc: Seq<(Seq<char>, TypeExprView)>,
) -> Result<(Seq<(Seq<char>, TypeExprView)>, Cur), Seq<char>>
    decreases c.left(),
{
    if c.at(close) {
        Ok((acc, c))
    } else if ban_self && c.at(Tok::SelfKw) {
        Err(c.error("'self' must be the first parameter"@))
    } else {
        match c.ident() {
            Err(e) => Err(e),
            Ok((name, c1)) => match c1.expect(Tok::Colon) {
                Err(e) => Err(e),
                Ok(c2) => match type_expr(c2, d) {
                    Err(e) => Err(e),
                    Ok((t, c3)) => if c3.at(Tok::Comma) {
                        if c.before(c3.bump()) {
                            typed_names(c3.bump(), d, close, ban_self, acc.push((name, t)))
                        } else {
                            Err(stuck())
                        }
                    } else {
                        Ok((acc.push((name, t)), c3))
                    },
                },
            },
        }
    }
}

/// `( name: type, ... )`.
pub open spec fn params(c: Cur, d: int) -> Result<(Seq<(Seq<char>, TypeExprView)>, Cur), Seq<char>> {
    match c.expect(Tok::LParen) {
        Err(e) => Err(e),
        Ok(c1) => match typed_names(c1, d, Tok::RParen, false, Seq::empty()) {
            Err(e) => Err(e),
            Ok((ps, c2)) => match c2.expect(Tok::RParen) {
                Err(e) => Err(e),
                Ok(c3) => Ok((ps, c3)),
            },
        },
    }
}

// -- Patterns ---------------------------------------------------------------

pub open spec fn binder(name: Seq<char>) -> PatBinderView {
    PatBinderView { name, local: 0, ty: TypeView::Unknown }
}

/// `field: name` bindings up to `}`; a lone `field` binds a local of the same
/// name.
pub open spec fn field_binders(c: Cur, acc: Seq<(Seq<char>, PatBinderView, u32)>) -> Result<
    (Seq<(Seq<char>, PatBinderView, u32)>, Cur),
    Seq<char>,
>
    decreases c.left(),
{
    if c.at(Tok::RBrace) {
        Ok((acc, c))
    } else {
        match c.ident() {
            Err(e) => Err(e),
            Ok((fname, c1)) => match (if c1.at(Tok::Colon) {
                c1.bump().ident()
            } else {
                Ok((fname, c1))
            }) {
                Err(e) => Err(e),
                Ok((bname, c2)) => {
                    let acc2 = acc.push((fname, binder(bname), 0u32));
                    if c2.at(Tok::Comma) {
                        if c.before(c2.bump()) {
                            field_binders(c2.bump(), acc2)
                        } else {
                            Err(stuck())
                        }
                    } else {
                        Ok((acc2, c2))
                    }
                },
            },
        }
    }
}

/// The payload part of a variant pattern.
#[verifier::opaque]
pub open spec fn pattern_args(c: Cur) -> Result<(PatArgsView, Cur), Seq<char>> {
    if c.at(Tok::LParen) {
        match c.bump().ident() {
            Err(e) => Err(e),
            Ok((bname, c1)) => match c1.expect(Tok::RParen) {
                Err(e) => Err(e),
                Ok(c2) => Ok((PatArgsView::Single(binder(bname)), c2)),
            },
        }
    } else if c.at(Tok::LBrace) {
        match field_binders(c.bump(), Seq::empty()) {
            Err(e) => Err(e),
            Ok((fields, c1)) => match c1.expect(Tok::RBrace) {
                Err(e) => Err(e),
                Ok(c2) => Ok((PatArgsView::Fields(fields), c2)),
            },
        }
    } else {
        Ok((PatArgsView::Bare, c))
    }
}

/// One-constructor-deep match pattern: `Enum.Variant` with an optional
/// payload, a literal, or `_`.
#[verifier::opaque]
pub open spec fn pattern(c: Cur) -> Result<(PatternView, Cur), Seq<char>> {
    let line = c.line();
    match c.peek() {
        TokView::Plain(Tok::Int(digits)) => Ok(
            (PatternView::IntLit { neg: false, digits, value: 0, line }, c.bump()),
        ),
        TokView::Plain(Tok::Byte(value)) => Ok((PatternView::ByteLit { value, line }, c.bump())),
        TokView::Plain(Tok::True) => Ok((PatternView::BoolLit { value: true, line }, c.bump())),
        TokView::Plain(Tok::False) => Ok((PatternView::BoolLit { value: false, line }, c.bump())),
        TokView::Plain(Tok::Minus) => match c.bump().peek() {
            TokView::Plain(Tok::Int(digits)) => Ok(
                (PatternView::IntLit { neg: true, digits, value: 0, line }, c.bump().bump()),
            ),
            _ => Err(c.bump().error("expected an integer literal after '-' in a pattern"@)),
        },
        t => match name_of(t) {
            None => Err(c.error("expected a pattern"@)),
            Some(name) => if name == "_"@ {
                Ok((PatternView::Wildcard { line }, c.bump()))
            } else {
                match c.bump().expect(Tok::Dot) {
                    Err(e) => Err(e),
                    Ok(c1) => match c1.ident() {
                        Err(e) => Err(e),
                        Ok((variant, c2)) => match pattern_args(c2) {
                            Err(e) => Err(e),
                            Ok((args, c3)) => Ok(
                                (
                                    PatternView::Variant {
                                        enum_name: name,
                                        variant,
                                        args,
                                        tag: 0,
                                        line,
                                    },
                                    c3,
                                ),
                            ),
                        },
                    },
                }
            },
        },
    }
}

// -- Statements -------------------------------------------------------------

/// `{ statement ... }`.
pub open spec fn block(c: Cur, d: int) -> Result<(BlockView, Cur), Seq<char>>
    decreases 201 - d, 9int, 0int,
{
    match c.expect(Tok::LBrace) {
        Err(e) => Err(e),
        Ok(c1) => match block_stmts(c1, d, Seq::empty()) {
            Err(e) => Err(e),
            Ok((stmts, c2)) => Ok((BlockView { stmts }, c2)),
        },
    }
}

/// Statements up to and with the `}` that closes a block.
pub open spec fn block_stmts(c: Cur, d: int, acc: Seq<StmtView>) -> Result<
    (Seq<StmtView>, Cur),
    Seq<char>,
>
    decreases 201 - d, 8int, c.left(),
{
    if c.at(Tok::RBrace) {
        Ok((acc, c.bump()))
    } else if c.at(Tok::Eof) {
        Err(c.error("expected '}'"@))
    } else {
        match stmt(c, d) {
            Err(e) => Err(e),
            Ok((s, c1)) => if c.before(c1) {
                block_stmts(c1, d, acc.push(s))
            } else {
                Err(stuck())
            },
        }
    }
}

/// A function or lambda body: a block whose *final* statement may be a bare
/// expression with no `;`. When the function returns a value it stands for
/// `return expr;`; for a unit function it is an ordinary expression
/// statement. A statement starting with `if` or `match` is always the
/// statement form; parenthesize a tail expression.
pub open spec fn fn_body(c: Cur, d: int, has_ret: bool) -> Result<(BlockView, Cur), Seq<char>>
    decreases 201 - d, 8int, 0int,
{
    match c.expect(Tok::LBrace) {
        Err(e) => Err(e),
        Ok(c1) => match body_stmts(c1, d, has_ret, Seq::empty()) {
            Err(e) => Err(e),
            Ok((stmts, c2)) => Ok((BlockView { stmts }, c2)),
        },
    }
}

/// Does the token begin a statement that is not an expression or assignment?
pub open spec fn starts_stmt(t: TokView) -> bool {
    t == plain(Tok::Let) || t == plain(Tok::If) || t == plain(Tok::Match) || t == plain(Tok::While)
        || t == plain(Tok::For) || t == plain(Tok::Return) || t == plain(Tok::Break) || t == plain(
        Tok::Continue,
    ) || t == plain(Tok::LBrace)
}

pub open spec fn body_stmts(c: Cur, d: int, has_ret: bool, acc: Seq<StmtView>) -> Result<
    (Seq<StmtView>, Cur),
    Seq<char>,
>
    decreases 201 - d, 7int, c.left(),
{
    if c.at(Tok::RBrace) {
        Ok((acc, c.bump()))
    } else if c.at(Tok::Eof) {
        Err(c.error("expected '}'"@))
    } else if starts_stmt(c.peek()) {
        match stmt(c, d) {
            Err(e) => Err(e),
            Ok((s, c1)) => if c.before(c1) {
                body_stmts(c1, d, has_ret, acc.push(s))
            } else {
                Err(stuck())
            },
        }
    } else if d + 1 > MAX_DEPTH {
        Err(c.too_deep())
    } else {
        match simple_stmt(c, d + 1, false) {
            Err(e) => Err(e),
            Ok((s, c1)) => if s is Expr && c1.at(Tok::RBrace) {
                Ok(
                    (
                        acc.push(
                            if has_ret {
                                StmtView::Return { value: Some(s->Expr_0), line: c.line() }
                            } else {
                                s
                            },
                        ),
                        c1.bump(),
                    ),
                )
            } else {
                match c1.expect(Tok::Semi) {
                    Err(e) => Err(e),
                    Ok(c2) => if c.before(c2) {
                        body_stmts(c2, d, has_ret, acc.push(s))
                    } else {
                        Err(stuck())
                    },
                }
            },
        }
    }
}

pub open spec fn stmt(c: Cur, d: int) -> Result<(StmtView, Cur), Seq<char>>
    decreases 201 - d, 0int, 0int,
{
    if d + 1 > MAX_DEPTH {
        Err(c.too_deep())
    } else {
        stmt_inner(c, d + 1)
    }
}

pub open spec fn stmt_inner(c: Cur, d: int) -> Result<(StmtView, Cur), Seq<char>>
    decreases 201 - d, 13int, 0int,
{
    let line = c.line();
    if c.at(Tok::Let) {
        match let_stmt(c, d, false) {
            Err(e) => Err(e),
            Ok((s, c1)) => match c1.expect(Tok::Semi) {
                Err(e) => Err(e),
                Ok(c2) => Ok((s, c2)),
            },
        }
    } else if c.at(Tok::If) {
        if_stmt(c, d)
    } else if c.at(Tok::Match) {
        match_stmt(c, d)
    } else if c.at(Tok::While) {
        while_stmt(c, d)
    } else if c.at(Tok::For) {
        for_stmt(c, d)
    } else if c.at(Tok::Return) {
        return_stmt(c, d)
    } else if c.at(Tok::Break) {
        match c.bump().expect(Tok::Semi) {
            Err(e) => Err(e),
            Ok(c1) => Ok((StmtView::Break(line), c1)),
        }
    } else if c.at(Tok::Continue) {
        match c.bump().expect(Tok::Semi) {
            Err(e) => Err(e),
            Ok(c1) => Ok((StmtView::Continue(line), c1)),
        }
    } else if c.at(Tok::LBrace) {
        match block(c, d) {
            Err(e) => Err(e),
            Ok((b, c1)) => Ok((StmtView::Block(b), c1)),
        }
    } else {
        match simple_stmt(c, d, false) {
            Err(e) => Err(e),
            Ok((s, c1)) => match c1.expect(Tok::Semi) {
                Err(e) => Err(e),
                Ok(c2) => Ok((s, c2)),
            },
        }
    }
}

/// `while cond { ... }`.
pub open spec fn while_stmt(c: Cur, d: int) -> Result<(StmtView, Cur), Seq<char>>
    decreases 201 - d, 12int, 0int,
{
    match expr(c.bump(), d, true) {
        Err(e) => Err(e),
        Ok((cond, c1)) => match block(c1, d) {
            Err(e) => Err(e),
            Ok((body, c2)) => Ok((StmtView::While { cond, body }, c2)),
        },
    }
}

/// `return;` or `return value;`.
pub open spec fn return_stmt(c: Cur, d: int) -> Result<(StmtView, Cur), Seq<char>>
    decreases 201 - d, 12int, 0int,
{
    let line = c.line();
    if c.bump().at(Tok::Semi) {
        Ok((StmtView::Return { value: None, line }, c.bump().bump()))
    } else {
        match expr(c.bump(), d, false) {
            Err(e) => Err(e),
            Ok((v, c1)) => match c1.expect(Tok::Semi) {
                Err(e) => Err(e),
                Ok(c2) => Ok((StmtView::Return { value: Some(v), line }, c2)),
            },
        }
    }
}

/// `let name: type = value` (no trailing `;`).
pub open spec fn let_stmt(c: Cur, d: int, ns: bool) -> Result<(StmtView, Cur), Seq<char>>
    decreases 201 - d, 10int, 0int,
{
    let line = c.line();
    match c.expect(Tok::Let) {
        Err(e) => Err(e),
        Ok(c1) => match c1.ident() {
            Err(e) => Err(e),
            Ok((name, c2)) => match ret_type(c2, d) {
                Err(e) => Err(e),
                Ok((ann, c3)) => match c3.expect(Tok::Assign) {
                    Err(e) => Err(e),
                    Ok(c4) => match expr(c4, d, ns) {
                        Err(e) => Err(e),
                        Ok((init, c5)) => Ok(
                            (
                                StmtView::Let {
                                    name,
                                    ann,
                                    init,
                                    line,
                                    local: 0,
                                    ty: TypeView::Unknown,
                                },
                                c5,
                            ),
                        ),
                    },
                },
            },
        },
    }
}

/// Can the expression stand on the left of an assignment?
pub open spec fn assignable(e: ExprView) -> bool {
    e.kind is Var || e.kind is Field || e.kind is Index
}

/// Expression statement or (compound) assignment (no trailing `;`).
pub open spec fn simple_stmt(c: Cur, d: int, ns: bool) -> Result<(StmtView, Cur), Seq<char>>
    decreases 201 - d, 10int, 0int,
{
    let line = c.line();
    match expr(c, d, ns) {
        Err(e) => Err(e),
        Ok((target, c1)) => match assign_op(c1.peek()) {
            None => Ok((StmtView::Expr(target), c1)),
            Some(op) => if !assignable(target) {
                Err(dec_text(line as nat) + ": invalid assignment target"@)
            } else {
                match expr(c1.bump(), d, ns) {
                    Err(e) => Err(e),
                    Ok((value, c2)) => Ok((StmtView::Assign { target, op, value, line }, c2)),
                }
            },
        },
    }
}

/// The operator of an assignment token: `None` inside for plain `=`.
pub open spec fn assign_op(t: TokView) -> Option<Option<BinOp>> {
    match t {
        TokView::Plain(Tok::Assign) => Some(None),
        TokView::Plain(Tok::OpAssign(op)) => Some(Some(op)),
        _ => None,
    }
}

pub open spec fn if_stmt(c: Cur, d: int) -> Result<(StmtView, Cur), Seq<char>>
    decreases 201 - d, 11int, c.left(),
{
    match c.expect(Tok::If) {
        Err(e) => Err(e),
        Ok(c1) => match expr(c1, d, true) {
            Err(e) => Err(e),
            Ok((cond, c2)) => match block(c2, d) {
                Err(e) => Err(e),
                Ok((then, c3)) => if !c3.at(Tok::Else) {
                    Ok((StmtView::If { cond, then, els: None }, c3))
                } else if c3.bump().at(Tok::If) {
                    if !c.before(c3.bump()) {
                        Err(stuck())
                    } else {
                        match if_stmt(c3.bump(), d) {
                            Err(e) => Err(e),
                            Ok((s, c4)) => Ok(
                                (
                                    StmtView::If {
                                        cond,
                                        then,
                                        els: Some(BlockView { stmts: seq![s] }),
                                    },
                                    c4,
                                ),
                            ),
                        }
                    }
                } else {
                    match block(c3.bump(), d) {
                        Err(e) => Err(e),
                        Ok((b, c4)) => Ok((StmtView::If { cond, then, els: Some(b) }, c4)),
                    }
                },
            },
        },
    }
}

/// `match expr { pat => { ... }, ... }` in statement position. Arms are
/// blocks; the comma after a block is optional.
pub open spec fn match_stmt(c: Cur, d: int) -> Result<(StmtView, Cur), Seq<char>>
    decreases 201 - d, 11int, 0int,
{
    let line = c.line();
    match c.expect(Tok::Match) {
        Err(e) => Err(e),
        Ok(c1) => match expr(c1, d, true) {
            Err(e) => Err(e),
            Ok((scrutinee, c2)) => match c2.expect(Tok::LBrace) {
                Err(e) => Err(e),
                Ok(c3) => match stmt_arms(c3, d, Seq::empty()) {
                    Err(e) => Err(e),
                    Ok((arms, c4)) => match c4.expect(Tok::RBrace) {
                        Err(e) => Err(e),
                        Ok(c5) => Ok((StmtView::Match { scrutinee, arms, line }, c5)),
                    },
                },
            },
        },
    }
}

pub open spec fn stmt_arms(c: Cur, d: int, acc: Seq<(PatternView, BlockView)>) -> Result<
    (Seq<(PatternView, BlockView)>, Cur),
    Seq<char>,
>
    decreases 201 - d, 10int, c.left(),
{
    if c.at(Tok::RBrace) {
        Ok((acc, c))
    } else {
        match pattern(c) {
            Err(e) => Err(e),
            Ok((pat, c1)) => match c1.expect(Tok::FatArrow) {
                Err(e) => Err(e),
                Ok(c2) => match block(c2, d) {
                    Err(e) => Err(e),
                    Ok((body, c3)) => {
                        let c4 = if c3.at(Tok::Comma) {
                            c3.bump()
                        } else {
                            c3
                        };
                        if c.before(c4) {
                            stmt_arms(c4, d, acc.push((pat, body)))
                        } else {
                            Err(stuck())
                        }
                    },
                },
            },
        }
    }
}

/// The first part of a `for` header, with its `;`.
pub open spec fn for_init(c: Cur, d: int) -> Result<(Option<Box<StmtView>>, Cur), Seq<char>>
    decreases 201 - d, 11int, 0int,
{
    if c.at(Tok::Semi) {
        Ok((None, c.bump()))
    } else {
        match (if c.at(Tok::Let) {
            let_stmt(c, d, false)
        } else {
            simple_stmt(c, d, false)
        }) {
            Err(e) => Err(e),
            Ok((s, c1)) => match c1.expect(Tok::Semi) {
                Err(e) => Err(e),
                Ok(c2) => Ok((Some(Box::new(s)), c2)),
            },
        }
    }
}

/// The condition of a `for` header, with its `;`.
pub open spec fn for_cond(c: Cur, d: int) -> Result<(Option<ExprView>, Cur), Seq<char>>
    decreases 201 - d, 11int, 0int,
{
    if c.at(Tok::Semi) {
        Ok((None, c.bump()))
    } else {
        match expr(c, d, false) {
            Err(e) => Err(e),
            Ok((x, c1)) => match c1.expect(Tok::Semi) {
                Err(e) => Err(e),
                Ok(c2) => Ok((Some(x), c2)),
            },
        }
    }
}

/// The last part of a `for` header, with its `)`.
pub open spec fn for_step(c: Cur, d: int) -> Result<(Option<Box<StmtView>>, Cur), Seq<char>>
    decreases 201 - d, 11int, 0int,
{
    if c.at(Tok::RParen) {
        Ok((None, c.bump()))
    } else {
        match simple_stmt(c, d, false) {
            Err(e) => Err(e),
            Ok((s, c1)) => match c1.expect(Tok::RParen) {
                Err(e) => Err(e),
                Ok(c2) => Ok((Some(Box::new(s)), c2)),
            },
        }
    }
}

pub open spec fn for_stmt(c: Cur, d: int) -> Result<(StmtView, Cur), Seq<char>>
    decreases 201 - d, 12int, 0int,
{
    match c.expect(Tok::For) {
        Err(e) => Err(e),
        Ok(c1) => match c1.expect(Tok::LParen) {
            Err(e) => Err(e),
            Ok(c2) => match for_init(c2, d) {
                Err(e) => Err(e),
                Ok((init, c3)) => match for_cond(c3, d) {
                    Err(e) => Err(e),
                    Ok((cond, c4)) => match for_step(c4, d) {
                        Err(e) => Err(e),
                        Ok((step, c5)) => match block(c5, d) {
                            Err(e) => Err(e),
                            Ok((body, c6)) => Ok((StmtView::For { init, cond, step, body }, c6)),
                        },
                    },
                },
            },
        },
    }
}

// -- Expressions ------------------------------------------------------------

/// An expression; `ns` bars literals that begin with `Name {`, as in the
/// condition of `if`, where the `{` starts the body.
pub open spec fn expr(c: Cur, d: int, ns: bool) -> Result<(ExprView, Cur), Seq<char>>
    decreases 201 - d, 0int, 0int,
{
    if d + 1 > MAX_DEPTH {
        Err(c.too_deep())
    } else {
        binary(c, d + 1, ns, 0)
    }
}

/// The binary operators, from the loosest level to the tightest. Bitwise
/// operators bind tighter than comparisons, so `x & 1 == 0` means
/// `(x & 1) == 0`.
pub open spec fn operator_at(level: int, t: TokView) -> Option<BinOp> {
    match t {
        TokView::Plain(t) => match t {
            Tok::OrOr => if level == 0 {
                Some(BinOp::Or)
            } else {
                None
            },
            Tok::AndAnd => if level == 1 {
                Some(BinOp::And)
            } else {
                None
            },
            Tok::Eq => if level == 2 {
                Some(BinOp::Eq)
            } else {
                None
            },
            Tok::Ne => if level == 2 {
                Some(BinOp::Ne)
            } else {
                None
            },
            Tok::Lt => if level == 3 {
                Some(BinOp::Lt)
            } else {
                None
            },
            Tok::Le => if level == 3 {
                Some(BinOp::Le)
            } else {
                None
            },
            Tok::Gt => if level == 3 {
                Some(BinOp::Gt)
            } else {
                None
            },
            Tok::Ge => if level == 3 {
                Some(BinOp::Ge)
            } else {
                None
            },
            Tok::Pipe => if level == 4 {
                Some(BinOp::BitOr)
            } else {
                None
            },
            Tok::Caret => if level == 5 {
                Some(BinOp::BitXor)
            } else {
                None
            },
            Tok::Amp => if level == 6 {
                Some(BinOp::BitAnd)
            } else {
                None
            },
            Tok::Shl => if level == 7 {
                Some(BinOp::Shl)
            } else {
                None
            },
            Tok::Shr => if level == 7 {
                Some(BinOp::Shr)
            } else {
                None
            },
            Tok::Plus => if level == 8 {
                Some(BinOp::Add)
            } else {
                None
            },
            Tok::Minus => if level == 8 {
                Some(BinOp::Sub)
            } else {
                None
            },
            Tok::Star => if level == 9 {
                Some(BinOp::Mul)
            } else {
                None
            },
            Tok::Slash => if level == 9 {
                Some(BinOp::Div)
            } else {
                None
            },
            Tok::Percent => if level == 9 {
                Some(BinOp::Rem)
            } else {
                None
            },
            _ => None,
        },
        _ => None,
    }
}

/// Operands of the next tighter level, joined by operators of this level from
/// left to right.
pub open spec fn binary(c: Cur, d: int, ns: bool, level: int) -> Result<(ExprView, Cur), Seq<char>>
    decreases
            201 - d,
            if 0 <= level < 10 {
                40 - 2 * level
            } else {
                20
            },
            0int,
{
    if level < 0 || level >= 10 {
        cast(c, d, ns)
    } else {
        match binary(c, d, ns, level + 1) {
            Err(e) => Err(e),
            Ok((lhs, c1)) => binary_rest(c1, d, ns, level, lhs),
        }
    }
}

pub open spec fn binary_rest(c: Cur, d: int, ns: bool, level: int, lhs: ExprView) -> Result<
    (ExprView, Cur),
    Seq<char>,
>
    decreases 201 - d, 39 - 2 * level, c.left(),
{
    if level < 0 || level >= 10 {
        Ok((lhs, c))
    } else {
        match operator_at(level, c.peek()) {
            None => Ok((lhs, c)),
            Some(op) => match binary(c.bump(), d, ns, level + 1) {
                Err(e) => Err(e),
                Ok((rhs, c1)) => if c.before(c1) {
                    binary_rest(
                        c1,
                        d,
                        ns,
                        level,
                        ExprView::fresh(
                            ExprKindView::Binary(op, Box::new(lhs), Box::new(rhs)),
                            c.line(),
                        ),
                    )
                } else {
                    Err(stuck())
                },
            },
        }
    }
}

/// `expr as Type`, binding looser than unary so `-x as u8` casts `-x`.
pub open spec fn cast(c: Cur, d: int, ns: bool) -> Result<(ExprView, Cur), Seq<char>>
    decreases 201 - d, 19int, 0int,
{
    match unary(c, d, ns) {
        Err(e) => Err(e),
        Ok((x, c1)) => cast_rest(c1, d, x),
    }
}

pub open spec fn cast_rest(c: Cur, d: int, x: ExprView) -> Result<(ExprView, Cur), Seq<char>>
    decreases 201 - d, 18int, c.left(),
{
    if c.at(Tok::As) {
        match type_expr(c.bump(), d) {
            Err(e) => Err(e),
            Ok((t, c1)) => if c.before(c1) {
                cast_rest(
                    c1,
                    d,
                    ExprView::fresh(ExprKindView::Cast(Box::new(x), t), c.line()),
                )
            } else {
                Err(stuck())
            },
        }
    } else {
        Ok((x, c))
    }
}

pub open spec fn unary(c: Cur, d: int, ns: bool) -> Result<(ExprView, Cur), Seq<char>>
    decreases 201 - d, 0int, 0int,
{
    if d + 1 > MAX_DEPTH {
        Err(c.too_deep())
    } else {
        unary_inner(c, d + 1, ns)
    }
}

pub open spec fn unary_op(t: TokView) -> Option<UnOp> {
    match t {
        TokView::Plain(Tok::Minus) => Some(UnOp::Neg),
        TokView::Plain(Tok::Not) => Some(UnOp::Not),
        TokView::Plain(Tok::Tilde) => Some(UnOp::BitNot),
        _ => None,
    }
}

pub open spec fn unary_inner(c: Cur, d: int, ns: bool) -> Result<(ExprView, Cur), Seq<char>>
    decreases 201 - d, 17int, 0int,
{
    match unary_op(c.peek()) {
        Some(op) => match unary(c.bump(), d, ns) {
            Err(e) => Err(e),
            Ok((x, c1)) => Ok(
                (ExprView::fresh(ExprKindView::Unary(op, Box::new(x)), c.line()), c1),
            ),
        },
        None => postfix(c, d, ns),
    }
}

pub open spec fn postfix(c: Cur, d: int, ns: bool) -> Result<(ExprView, Cur), Seq<char>>
    decreases 201 - d, 16int, 0int,
{
    match primary(c, d, ns) {
        Err(e) => Err(e),
        Ok((x, c1)) => postfix_rest(c1, d, ns, x),
    }
}

/// Calls, member accesses and indexing after an expression. `Name.Variant {
/// field: value, ... }` is a literal, like a struct literal.
pub open spec fn postfix_rest(c: Cur, d: int, ns: bool, x: ExprView) -> Result<
    (ExprView, Cur),
    Seq<char>,
>
    decreases 201 - d, 15int, c.left(),
{
    let line = c.line();
    if c.at(Tok::LParen) {
        match expr_list(c.bump(), d, Tok::RParen, Seq::empty()) {
            Err(e) => Err(e),
            Ok((args, c1)) => match c1.expect(Tok::RParen) {
                Err(e) => Err(e),
                Ok(c2) => if c.before(c2) {
                    postfix_rest(
                        c2,
                        d,
                        ns,
                        ExprView::fresh(
                            ExprKindView::Call {
                                callee: Box::new(x),
                                args,
                                direct: None,
                                inst: Seq::empty(),
                            },
                            line,
                        ),
                    )
                } else {
                    Err(stuck())
                },
            },
        }
    } else if c.at(Tok::Dot) {
        match c.bump().ident() {
            Err(e) => Err(e),
            Ok((name, c1)) => match member(c1, d, ns, x, name, line) {
                Err(e) => Err(e),
                Ok((y, c2)) => if c.before(c2) {
                    postfix_rest(c2, d, ns, y)
                } else {
                    Err(stuck())
                },
            },
        }
    } else if c.at(Tok::LBracket) {
        match expr(c.bump(), d, false) {
            Err(e) => Err(e),
            Ok((idx, c1)) => match c1.expect(Tok::RBracket) {
                Err(e) => Err(e),
                Ok(c2) => if c.before(c2) {
                    postfix_rest(
                        c2,
                        d,
                        ns,
                        ExprView::fresh(ExprKindView::Index(Box::new(x), Box::new(idx)), line),
                    )
                } else {
                    Err(stuck())
                },
            },
        }
    } else {
        Ok((x, c))
    }
}

/// What `x.name` begins: a member access, or a variant literal.
pub open spec fn member(
    c: Cur,
    d: int,
    ns: bool,
    x: ExprView,
    name: Seq<char>,
    line: u32,
) -> Result<(ExprView, Cur), Seq<char>>
    decreases 201 - d, 6int, 0int,
{
    if x.kind is Var && c.at(Tok::LBrace) && !ns && c.literal_ahead() {
        match inits(c.bump(), d, ns, Seq::empty()) {
            Err(e) => Err(e),
            Ok((fields, c1)) => match c1.expect(Tok::RBrace) {
                Err(e) => Err(e),
                Ok(c2) => Ok(
                    (
                        ExprView::fresh(
                            ExprKindView::VariantStructLit {
                                enum_name: x.kind->Var_name,
                                variant: name,
                                fields,
                            },
                            line,
                        ),
                        c2,
                    ),
                ),
            },
        }
    } else {
        Ok(
            (
                ExprView::fresh(
                    ExprKindView::Field { obj: Box::new(x), name, index: 0 },
                    line,
                ),
                c,
            ),
        )
    }
}

/// Expressions separated by commas up to `close`; a trailing comma is
/// allowed.
pub open spec fn expr_list(c: Cur, d: int, close: Tok, acc: Seq<ExprView>) -> Result<
    (Seq<ExprView>, Cur),
    Seq<char>,
>
    decreases 201 - d, 5int, c.left(),
{
    if c.at(close) {
        Ok((acc, c))
    } else {
        match expr(c, d, false) {
            Err(e) => Err(e),
            Ok((x, c1)) => if c1.at(Tok::Comma) {
                if c.before(c1.bump()) {
                    expr_list(c1.bump(), d, close, acc.push(x))
                } else {
                    Err(stuck())
                }
            } else {
                Ok((acc.push(x), c1))
            },
        }
    }
}

/// `field: value` pairs separated by commas up to `}`.
pub open spec fn inits(c: Cur, d: int, ns: bool, acc: Seq<(Seq<char>, ExprView, u32)>) -> Result<
    (Seq<(Seq<char>, ExprView, u32)>, Cur),
    Seq<char>,
>
    decreases 201 - d, 5int, c.left(),
{
    if c.at(Tok::RBrace) {
        Ok((acc, c))
    } else {
        match c.ident() {
            Err(e) => Err(e),
            Ok((fname, c1)) => match c1.expect(Tok::Colon) {
                Err(e) => Err(e),
                Ok(c2) => match expr(c2, d, ns) {
                    Err(e) => Err(e),
                    Ok((x, c3)) => if c3.at(Tok::Comma) {
                        if c.before(c3.bump()) {
                            inits(c3.bump(), d, ns, acc.push((fname, x, 0u32)))
                        } else {
                            Err(stuck())
                        }
                    } else {
                        Ok((acc.push((fname, x, 0u32)), c3))
                    },
                },
            },
        }
    }
}

/// `{ field: value, ... }` after a struct's name.
pub open spec fn struct_lit(c: Cur, d: int, ns: bool, name: Seq<char>, line: u32) -> Result<
    (ExprView, Cur),
    Seq<char>,
>
    decreases 201 - d, 6int, 0int,
{
    match c.expect(Tok::LBrace) {
        Err(e) => Err(e),
        Ok(c1) => match inits(c1, d, ns, Seq::empty()) {
            Err(e) => Err(e),
            Ok((fields, c2)) => match c2.expect(Tok::RBrace) {
                Err(e) => Err(e),
                Ok(c3) => Ok(
                    (
                        ExprView::fresh(
                            ExprKindView::StructLit { name, fields, struct_id: 0 },
                            line,
                        ),
                        c3,
                    ),
                ),
            },
        },
    }
}

/// `fn(params): type { ... }` in expression position, after the `fn`.
pub open spec fn lambda(c: Cur, d: int, line: u32) -> Result<(ExprView, Cur), Seq<char>>
    decreases 201 - d, 13int, 0int,
{
    match params(c, d) {
        Err(e) => Err(e),
        Ok((ps, c1)) => match ret_type(c1, d) {
            Err(e) => Err(e),
            Ok((ret, c2)) => match fn_body(c2, d, ret is Some) {
                Err(e) => Err(e),
                Ok((body, c3)) => Ok(
                    (
                        ExprView::fresh(
                            ExprKindView::Lambda(
                                Box::new(
                                    LambdaDefView {
                                        params: ps,
                                        ret,
                                        body,
                                        line,
                                        id: 0,
                                        num_locals: 0,
                                        captures: Seq::empty(),
                                    },
                                ),
                            ),
                            line,
                        ),
                        c3,
                    ),
                ),
            },
        },
    }
}

/// The literal that a single token is.
pub open spec fn literal_of(t: TokView) -> Option<ExprKindView> {
    match t {
        TokView::Plain(Tok::Int(v)) => Some(ExprKindView::Int(v)),
        TokView::Plain(Tok::Byte(v)) => Some(ExprKindView::Byte(v)),
        TokView::Float(s) => Some(ExprKindView::Float(s)),
        TokView::Str(s) => Some(ExprKindView::Str(s)),
        TokView::Plain(Tok::True) => Some(ExprKindView::Bool(true)),
        TokView::Plain(Tok::False) => Some(ExprKindView::Bool(false)),
        // `self` is an ordinary local inside a method; the checker rejects it
        // anywhere else (no such variable is in scope).
        TokView::Plain(Tok::SelfKw) => Some(ExprKindView::Var { name: "self"@, res: None }),
        _ => None,
    }
}

pub open spec fn primary(c: Cur, d: int, ns: bool) -> Result<(ExprView, Cur), Seq<char>>
    decreases 201 - d, 14int, 0int,
{
    let line = c.line();
    match literal_of(c.peek()) {
        Some(k) => Ok((ExprView::fresh(k, line), c.bump())),
        None => match name_of(c.peek()) {
            Some(name) => {
                let c1 = c.bump();
                if c1.at(Tok::LBrace) && !ns && c1.literal_ahead() {
                    struct_lit(c1, d, ns, name, line)
                } else {
                    Ok((ExprView::fresh(ExprKindView::Var { name, res: None }, line), c1))
                }
            },
            None => if c.at(Tok::If) {
                if_expr(c, d)
            } else if c.at(Tok::Match) {
                match_expr(c, d)
            } else if c.at(Tok::LParen) {
                match expr(c.bump(), d, false) {
                    Err(e) => Err(e),
                    Ok((x, c1)) => match c1.expect(Tok::RParen) {
                        Err(e) => Err(e),
                        Ok(c2) => Ok((x, c2)),
                    },
                }
            } else if c.at(Tok::LBracket) {
                match expr_list(c.bump(), d, Tok::RBracket, Seq::empty()) {
                    Err(e) => Err(e),
                    Ok((elems, c1)) => match c1.expect(Tok::RBracket) {
                        Err(e) => Err(e),
                        Ok(c2) => Ok((ExprView::fresh(ExprKindView::ArrayLit(elems), line), c2)),
                    },
                }
            } else if c.at(Tok::Fn) {
                lambda(c.bump(), d, line)
            } else {
                Err(c.error("expected an expression"@))
            },
        },
    }
}

/// `if cond { expr } else { expr }` in expression position. Each branch is a
/// single expression and `else` is mandatory; `else if` chains recurse.
pub open spec fn if_expr(c: Cur, d: int) -> Result<(ExprView, Cur), Seq<char>>
    decreases 201 - d, 0int, 0int,
{
    if d + 1 > MAX_DEPTH {
        Err(c.too_deep())
    } else {
        if_expr_inner(c, d + 1)
    }
}

/// `{ expr }`.
pub open spec fn branch(c: Cur, d: int) -> Result<(ExprView, Cur), Seq<char>>
    decreases 201 - d, 1int, 0int,
{
    match c.expect(Tok::LBrace) {
        Err(e) => Err(e),
        Ok(c1) => match expr(c1, d, false) {
            Err(e) => Err(e),
            Ok((x, c2)) => match c2.expect(Tok::RBrace) {
                Err(e) => Err(e),
                Ok(c3) => Ok((x, c3)),
            },
        },
    }
}

pub open spec fn if_expr_inner(c: Cur, d: int) -> Result<(ExprView, Cur), Seq<char>>
    decreases 201 - d, 13int, 0int,
{
    let line = c.line();
    match c.expect(Tok::If) {
        Err(e) => Err(e),
        Ok(c1) => match expr(c1, d, true) {
            Err(e) => Err(e),
            Ok((cond, c2)) => match branch(c2, d) {
                Err(e) => Err(e),
                Ok((then, c3)) => match c3.expect(Tok::Else) {
                    Err(e) => Err(e),
                    Ok(c4) => match (if c4.at(Tok::If) {
                        if_expr(c4, d)
                    } else {
                        branch(c4, d)
                    }) {
                        Err(e) => Err(e),
                        Ok((els, c5)) => Ok(
                            (
                                ExprView::fresh(
                                    ExprKindView::If {
                                        cond: Box::new(cond),
                                        then: Box::new(then),
                                        els: Box::new(els),
                                    },
                                    line,
                                ),
                                c5,
                            ),
                        ),
                    },
                },
            },
        },
    }
}

/// `match expr { pat => expr, ... }` in expression position.
pub open spec fn match_expr(c: Cur, d: int) -> Result<(ExprView, Cur), Seq<char>>
    decreases 201 - d, 0int, 0int,
{
    if d + 1 > MAX_DEPTH {
        Err(c.too_deep())
    } else {
        match_expr_inner(c, d + 1)
    }
}

pub open spec fn match_expr_inner(c: Cur, d: int) -> Result<(ExprView, Cur), Seq<char>>
    decreases 201 - d, 13int, 0int,
{
    let line = c.line();
    match c.expect(Tok::Match) {
        Err(e) => Err(e),
        Ok(c1) => match expr(c1, d, true) {
            Err(e) => Err(e),
            Ok((scrutinee, c2)) => match c2.expect(Tok::LBrace) {
                Err(e) => Err(e),
                Ok(c3) => match expr_arms(c3, d, Seq::empty()) {
                    Err(e) => Err(e),
                    Ok((arms, c4)) => match c4.expect(Tok::RBrace) {
                        Err(e) => Err(e),
                        Ok(c5) => Ok(
                            (
                                ExprView::fresh(
                                    ExprKindView::Match { scrutinee: Box::new(scrutinee), arms },
                                    line,
                                ),
                                c5,
                            ),
                        ),
                    },
                },
            },
        },
    }
}

pub open spec fn expr_arms(c: Cur, d: int, acc: Seq<(PatternView, ExprView)>) -> Result<
    (Seq<(PatternView, ExprView)>, Cur),
    Seq<char>,
>
    decreases 201 - d, 6int, c.left(),
{
    if c.at(Tok::RBrace) {
        Ok((acc, c))
    } else {
        match pattern(c) {
            Err(e) => Err(e),
            Ok((pat, c1)) => match c1.expect(Tok::FatArrow) {
                Err(e) => Err(e),
                Ok(c2) => match expr(c2, d, false) {
                    Err(e) => Err(e),
                    Ok((body, c3)) => if c3.at(Tok::Comma) {
                        if c.before(c3.bump()) {
                            expr_arms(c3.bump(), d, acc.push((pat, body)))
                        } else {
                            Err(stuck())
                        }
                    } else {
                        Ok((acc.push((pat, body)), c3))
                    },
                },
            },
        }
    }
}

// -- Declarations -----------------------------------------------------------

/// Names separated by commas.
pub open spec fn names(c: Cur, acc: Seq<Seq<char>>) -> Result<(Seq<Seq<char>>, Cur), Seq<char>>
    decreases c.left(),
{
    match c.ident() {
        Err(e) => Err(e),
        Ok((name, c1)) => if c1.at(Tok::Comma) {
            if c.before(c1.bump()) {
                names(c1.bump(), acc.push(name))
            } else {
                Err(stuck())
            }
        } else {
            Ok((acc.push(name), c1))
        },
    }
}

/// Optional `<T, U, ...>` type parameter list on a declaration.
#[verifier::opaque]
pub open spec fn type_params(c: Cur) -> Result<(Seq<Seq<char>>, Cur), Seq<char>> {
    if c.at(Tok::Lt) {
        match names(c.bump(), Seq::empty()) {
            Err(e) => Err(e),
            Ok((ps, c1)) => match c1.expect_gt() {
                Err(e) => Err(e),
                Ok(c2) => Ok((ps, c2)),
            },
        }
    } else {
        Ok((Seq::empty(), c))
    }
}

#[verifier::opaque]
pub open spec fn struct_def(c: Cur) -> Result<(StructDefView, Cur), Seq<char>> {
    let line = c.line();
    match c.expect(Tok::Struct) {
        Err(e) => Err(e),
        Ok(c1) => match c1.ident() {
            Err(e) => Err(e),
            Ok((name, c2)) => match type_params(c2) {
                Err(e) => Err(e),
                Ok((tps, c3)) => match c3.expect(Tok::LBrace) {
                    Err(e) => Err(e),
                    Ok(c4) => match typed_names(c4, 0, Tok::RBrace, false, Seq::empty()) {
                        Err(e) => Err(e),
                        Ok((fields, c5)) => match c5.expect(Tok::RBrace) {
                            Err(e) => Err(e),
                            Ok(c6) => Ok(
                                (StructDefView { name, type_params: tps, fields, line }, c6),
                            ),
                        },
                    },
                },
            },
        },
    }
}

/// The payload of a declared variant: bare, `(type)`, or named fields.
#[verifier::opaque]
pub open spec fn payload(c: Cur) -> Result<(PayloadExprView, Cur), Seq<char>> {
    if c.at(Tok::LParen) {
        match type_expr(c.bump(), 0) {
            Err(e) => Err(e),
            Ok((t, c1)) => match c1.expect(Tok::RParen) {
                Err(e) => Err(e),
                Ok(c2) => Ok((PayloadExprView::Single(t), c2)),
            },
        }
    } else if c.at(Tok::LBrace) {
        match typed_names(c.bump(), 0, Tok::RBrace, false, Seq::empty()) {
            Err(e) => Err(e),
            Ok((fields, c1)) => match c1.expect(Tok::RBrace) {
                Err(e) => Err(e),
                Ok(c2) => Ok((PayloadExprView::Fields(fields), c2)),
            },
        }
    } else {
        Ok((PayloadExprView::Bare, c))
    }
}

pub open spec fn variants(c: Cur, acc: Seq<(Seq<char>, PayloadExprView)>) -> Result<
    (Seq<(Seq<char>, PayloadExprView)>, Cur),
    Seq<char>,
>
    decreases c.left(),
{
    if c.at(Tok::RBrace) {
        Ok((acc, c))
    } else {
        match c.ident() {
            Err(e) => Err(e),
            Ok((vname, c1)) => match payload(c1) {
                Err(e) => Err(e),
                Ok((p, c2)) => if c2.at(Tok::Comma) {
                    if c.before(c2.bump()) {
                        variants(c2.bump(), acc.push((vname, p)))
                    } else {
                        Err(stuck())
                    }
                } else {
                    Ok((acc.push((vname, p)), c2))
                },
            },
        }
    }
}

/// `enum Name<T,...> { Bare, Wrapping(type), Record { f: type, ... } }`.
#[verifier::opaque]
pub open spec fn enum_def(c: Cur) -> Result<(EnumDefView, Cur), Seq<char>> {
    let line = c.line();
    match c.expect(Tok::Enum) {
        Err(e) => Err(e),
        Ok(c1) => match c1.ident() {
            Err(e) => Err(e),
            Ok((name, c2)) => match type_params(c2) {
                Err(e) => Err(e),
                Ok((tps, c3)) => match c3.expect(Tok::LBrace) {
                    Err(e) => Err(e),
                    Ok(c4) => match variants(c4, Seq::empty()) {
                        Err(e) => Err(e),
                        Ok((vs, c5)) => match c5.expect(Tok::RBrace) {
                            Err(e) => Err(e),
                            Ok(c6) => Ok(
                                (EnumDefView { name, type_params: tps, variants: vs, line }, c6),
                            ),
                        },
                    },
                },
            },
        },
    }
}

#[verifier::opaque]
pub open spec fn func_def(c: Cur) -> Result<(FuncDefView, Cur), Seq<char>> {
    let line = c.line();
    match c.expect(Tok::Fn) {
        Err(e) => Err(e),
        Ok(c1) => match c1.ident() {
            Err(e) => Err(e),
            Ok((name, c2)) => match type_params(c2) {
                Err(e) => Err(e),
                Ok((tps, c3)) => match params(c3, 0) {
                    Err(e) => Err(e),
                    Ok((ps, c4)) => match ret_type(c4, 0) {
                        Err(e) => Err(e),
                        Ok((ret, c5)) => match fn_body(c5, 0, ret is Some) {
                            Err(e) => Err(e),
                            Ok((body, c6)) => Ok(
                                (
                                    FuncDefView {
                                        name,
                                        type_params: tps,
                                        params: ps,
                                        ret,
                                        body,
                                        line,
                                        num_locals: 0,
                                        is_method: false,
                                    },
                                    c6,
                                ),
                            ),
                        },
                    },
                },
            },
        },
    }
}

/// Parameter list of an impl-block function: an optional leading bare `self`,
/// then ordinary `name: type` parameters. Says whether the receiver was
/// present.
#[verifier::opaque]
pub open spec fn method_params(c: Cur) -> Result<
    (bool, Seq<(Seq<char>, TypeExprView)>, Cur),
    Seq<char>,
> {
    match c.expect(Tok::LParen) {
        Err(e) => Err(e),
        Ok(c1) => {
            let has_self = c1.at(Tok::SelfKw);
            match receiver(c1) {
                Err(e) => Err(e),
                Ok(c2) => match typed_names(c2, 0, Tok::RParen, true, Seq::empty()) {
                    Err(e) => Err(e),
                    Ok((ps, c3)) => match c3.expect(Tok::RParen) {
                        Err(e) => Err(e),
                        Ok(c4) => Ok((has_self, ps, c4)),
                    },
                },
            }
        },
    }
}

/// The optional `self` at the head of a parameter list, with its comma.
pub open spec fn receiver(c: Cur) -> Result<Cur, Seq<char>> {
    if c.at(Tok::SelfKw) {
        if c.bump().at(Tok::Colon) {
            Err(c.bump().error("'self' takes no type annotation"@))
        } else if c.bump().at(Tok::RParen) {
            Ok(c.bump())
        } else {
            c.bump().expect(Tok::Comma)
        }
    } else {
        Ok(c)
    }
}

/// The type of a method's receiver: the impl's type at its own parameters.
pub open spec fn self_type(
    target: Seq<char>,
    impl_params: Seq<Seq<char>>,
    line: u32,
) -> TypeExprView {
    TypeExprView::Named(
        target,
        Seq::new(
            impl_params.len(),
            |i: int| TypeExprView::Named(impl_params[i], Seq::empty(), line),
        ),
        line,
    )
}

/// The functions of an impl block up to and with its `}`. Each flattens into
/// the top-level function list as `Type.name`, with the impl's type
/// parameters in front of its own, and with a `self` receiver as a first
/// parameter of the impl type.
pub open spec fn impl_items(
    c: Cur,
    target: Seq<char>,
    impl_params: Seq<Seq<char>>,
    impl_line: u32,
    funcs: Seq<FuncDefView>,
    methods: Seq<MethodDefView>,
) -> Result<(Seq<FuncDefView>, Seq<MethodDefView>, Cur), Seq<char>>
    decreases c.left(),
{
    if c.at(Tok::RBrace) {
        Ok((funcs, methods, c.bump()))
    } else if c.at(Tok::Eof) {
        Err(c.error("expected '}'"@))
    } else if !c.at(Tok::Fn) {
        Err(c.error("expected 'fn' inside an impl block"@))
    } else {
        match impl_fn(c, target, impl_params, impl_line, funcs.len() as u32) {
            Err(e) => Err(e),
            Ok((f, m, c1)) => if c.before(c1) {
                impl_items(
                    c1,
                    target,
                    impl_params,
                    impl_line,
                    funcs.push(f),
                    methods.push(m),
                )
            } else {
                Err(stuck())
            },
        }
    }
}

/// One function of an impl block, at index `id` of the function list.
#[verifier::opaque]
pub open spec fn impl_fn(
    c: Cur,
    target: Seq<char>,
    impl_params: Seq<Seq<char>>,
    impl_line: u32,
    id: u32,
) -> Result<(FuncDefView, MethodDefView, Cur), Seq<char>> {
    let line = c.line();
    match c.bump().ident() {
        Err(e) => Err(e),
        Ok((name, c1)) => match type_params(c1) {
            Err(e) => Err(e),
            Ok((own, c2)) => match method_params(c2) {
                Err(e) => Err(e),
                Ok((has_self, ps, c3)) => match ret_type(c3, 0) {
                    Err(e) => Err(e),
                    Ok((ret, c4)) => match fn_body(c4, 0, ret is Some) {
                        Err(e) => Err(e),
                        Ok((body, c5)) => Ok(
                            (
                                FuncDefView {
                                    name: target + "."@ + name,
                                    type_params: impl_params + own,
                                    params: if has_self {
                                        seq![("self"@, self_type(target, impl_params, impl_line))]
                                            + ps
                                    } else {
                                        ps
                                    },
                                    ret,
                                    body,
                                    line,
                                    num_locals: 0,
                                    is_method: true,
                                },
                                MethodDefView {
                                    target_name: target,
                                    name,
                                    func: id,
                                    has_self,
                                    impl_type_params: impl_params.len() as u32,
                                    line,
                                },
                                c5,
                            ),
                        ),
                    },
                },
            },
        },
    }
}

/// `impl Type<T, ...> { fn ... }`, added to the functions and methods so far.
#[verifier::opaque]
pub open spec fn impl_block(c: Cur, funcs: Seq<FuncDefView>, methods: Seq<MethodDefView>) -> Result<
    (Seq<FuncDefView>, Seq<MethodDefView>, Cur),
    Seq<char>,
> {
    match c.expect(Tok::Impl) {
        Err(e) => Err(e),
        Ok(c1) => match c1.ident() {
            Err(e) => Err(e),
            Ok((target, c2)) => match type_params(c2) {
                Err(e) => Err(e),
                Ok((impl_params, c3)) => match c3.expect(Tok::LBrace) {
                    Err(e) => Err(e),
                    Ok(c4) => impl_items(c4, target, impl_params, c1.line(), funcs, methods),
                },
            },
        },
    }
}

/// The declarations from a place on, added to those so far.
pub open spec fn items(c: Cur, p: ProgramView) -> Result<ProgramView, Seq<char>>
    decreases c.left(),
{
    if c.at(Tok::Eof) {
        Ok(p)
    } else if c.at(Tok::Struct) {
        match struct_def(c) {
            Err(e) => Err(e),
            Ok((s, c1)) => if c.before(c1) {
                items(c1, ProgramView { structs: p.structs.push(s), ..p })
            } else {
                Err(stuck())
            },
        }
    } else if c.at(Tok::Enum) {
        match enum_def(c) {
            Err(e) => Err(e),
            Ok((s, c1)) => if c.before(c1) {
                items(c1, ProgramView { enums: p.enums.push(s), ..p })
            } else {
                Err(stuck())
            },
        }
    } else if c.at(Tok::Fn) {
        match func_def(c) {
            Err(e) => Err(e),
            Ok((f, c1)) => if c.before(c1) {
                items(c1, ProgramView { funcs: p.funcs.push(f), ..p })
            } else {
                Err(stuck())
            },
        }
    } else if c.at(Tok::Impl) {
        match impl_block(c, p.funcs, p.methods) {
            Err(e) => Err(e),
            Ok((funcs, methods, c1)) => if c.before(c1) {
                items(c1, ProgramView { funcs, methods, ..p })
            } else {
                Err(stuck())
            },
        }
    } else {
        Err(c.error("expected 'fn', 'struct', 'enum', or 'impl' at top level"@))
    }
}

/// The program that a sequence of tokens spells.
pub open spec fn parse_spec(toks: Seq<TokenView>) -> Result<ProgramView, Seq<char>> {
    items(
        Cur { toks, pos: 0 },
        ProgramView {
            structs: Seq::empty(),
            enums: Seq::empty(),
            funcs: Seq::empty(),
            methods: Seq::empty(),
        },
    )
}

proof fn lemma_method_name(
    c: Cur,
    target: Seq<char>,
    impl_params: Seq<Seq<char>>,
    impl_line: u32,
    id: u32,
)
    requires
        impl_fn(c, target, impl_params, impl_line, id) is Ok,
    ensures
        impl_fn(c, target, impl_params, impl_line, id)->Ok_0.0.name == target + "."@
            + c.bump().ident()->Ok_0.0,
{
    reveal(impl_fn);
}

proof fn lemma_func_name(c: Cur)
    requires
        func_def(c) is Ok,
    ensures
        c.expect(Tok::Fn) is Ok,
        c.expect(Tok::Fn)->Ok_0.ident() is Ok,
        func_def(c)->Ok_0.0.name == c.expect(Tok::Fn)->Ok_0.ident()->Ok_0.0,
{
    reveal(func_def);
}

/// A method is a function with a name that no identifier can spell, so it is
/// never taken for a function of the program's own.
pub proof fn law_method_name_is_apart(
    c: Cur,
    target: Seq<char>,
    impl_params: Seq<Seq<char>>,
    impl_line: u32,
    id: u32,
    other: Cur,
)
    requires
        impl_fn(c, target, impl_params, impl_line, id) is Ok,
        func_def(other) is Ok,
        0 <= other.pos < other.toks.len(),
        names_spelled(other.toks),
    ensures
        !is_name(impl_fn(c, target, impl_params, impl_line, id)->Ok_0.0.name),
        is_name(func_def(other)->Ok_0.0.name),
        impl_fn(c, target, impl_params, impl_line, id)->Ok_0.0.name != func_def(
            other,
        )->Ok_0.0.name,
{
    let m = impl_fn(c, target, impl_params, impl_line, id)->Ok_0.0.name;
    lemma_method_name(c, target, impl_params, impl_line, id);
    lemma_func_name(other);
    assert(!is_name(m)) by {
        reveal_strlit(".");
        assert(m[target.len() as int] == '.');
        assert(!is_word('.'));
    }
    let c1 = other.expect(Tok::Fn)->Ok_0;
    assert(is_name(func_def(other)->Ok_0.0.name)) by {
        reveal_strlit("nil");
        let w = "nil"@;
        assert forall|i: int| 0 <= i < w.len() implies is_word(#[trigger] w[i]) by {
            assert(i == 0 || i == 1 || i == 2);
        }
        assert(c1.toks == other.toks);
        let t = c1.toks[c1.pos];
    }
}

} // verus!
