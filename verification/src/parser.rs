//! Recursive-descent parser: it gives exactly what the grammar says.
use vstd::prelude::*;

use crate::ast::{
    binders_view, expr_arms_view, exprs_view, func_defs_view, inits_view, method_defs_view,
    opt_type_expr_view, params_view, payloads_view, stmt_arms_view, stmts_view, type_exprs_view,
    BinOp, Block, BlockView, EnumDef, EnumDefView, Expr, ExprKind, ExprView, FuncDef, FuncDefView,
    LambdaDef, MethodDef, MethodDefView, PatArgs, PatArgsView, PatBinder, PatBinderView, Pattern,
    PatternView, PayloadExprView, Program, ProgramView, Stmt, StmtView, StructDef, StructDefView,
    TypeExpr, TypeExprView, UnOp, VariantPayloadExpr,
};
use crate::grammar;
use crate::grammar::{plain, Cur, MAX_DEPTH};
use crate::lexer::{tokens_view, Tok, Token};
use crate::text::{cat2, cat3, cat7, clone_names, dec, names_view, owned, str_eq};
use crate::types::Type;

verus! {

/// Parse the tokens of a source text, which end in `Eof`.
pub fn parse(tokens: Vec<Token>) -> (r: Result<Program, String>)
    requires
        tokens@.len() > 0,
        tokens@[tokens@.len() - 1].tok@ == plain(Tok::Eof),
    ensures
        match r {
            Ok(p) => grammar::parse_spec(tokens_view(tokens@)) == Ok::<ProgramView, Seq<char>>(p@),
            Err(e) => grammar::parse_spec(tokens_view(tokens@)) == Err::<ProgramView, Seq<char>>(
                e@,
            ),
        },
{
    let mut p = Parser { toks: tokens, pos: 0, depth: 0, no_struct: false };
    p.program()
}

struct Parser {
    toks: Vec<Token>,
    pos: usize,
    depth: u32,
    /// True while parsing an if/while condition: `Name {` is then never a
    /// literal, so the `{` starts the body. Cleared inside any bracketing
    /// construct (parens, brackets, argument lists, blocks).
    no_struct: bool,
}

// -- Results as values ------------------------------------------------------

/// A result and the parser after it are what the grammar gives.
spec fn agrees<V>(
    r: Result<V, Seq<char>>,
    want: Result<(V, Cur), Seq<char>>,
    before: Parser,
    after: Parser,
) -> bool {
    match r {
        Ok(v) => want == Ok::<(V, Cur), Seq<char>>((v, after@)) && after.follows(before),
        Err(m) => want == Err::<(V, Cur), Seq<char>>(m),
    }
}

spec fn expr_r(r: Result<Expr, String>) -> Result<ExprView, Seq<char>> {
    match r {
        Ok(x) => Ok(x@),
        Err(m) => Err(m@),
    }
}

spec fn stmt_r(r: Result<Stmt, String>) -> Result<StmtView, Seq<char>> {
    match r {
        Ok(x) => Ok(x@),
        Err(m) => Err(m@),
    }
}

spec fn block_r(r: Result<Block, String>) -> Result<BlockView, Seq<char>> {
    match r {
        Ok(x) => Ok(x@),
        Err(m) => Err(m@),
    }
}

spec fn stmts_r(r: Result<Vec<Stmt>, String>) -> Result<Seq<StmtView>, Seq<char>> {
    match r {
        Ok(x) => Ok(stmts_view(x@)),
        Err(m) => Err(m@),
    }
}

spec fn exprs_r(r: Result<Vec<Expr>, String>) -> Result<Seq<ExprView>, Seq<char>> {
    match r {
        Ok(x) => Ok(exprs_view(x@)),
        Err(m) => Err(m@),
    }
}

spec fn inits_r(r: Result<Vec<(String, Expr, u32)>, String>) -> Result<
    Seq<(Seq<char>, ExprView, u32)>,
    Seq<char>,
> {
    match r {
        Ok(x) => Ok(inits_view(x@)),
        Err(m) => Err(m@),
    }
}

spec fn type_r(r: Result<TypeExpr, String>) -> Result<TypeExprView, Seq<char>> {
    match r {
        Ok(x) => Ok(x@),
        Err(m) => Err(m@),
    }
}

spec fn types_r(r: Result<Vec<TypeExpr>, String>) -> Result<Seq<TypeExprView>, Seq<char>> {
    match r {
        Ok(x) => Ok(type_exprs_view(x@)),
        Err(m) => Err(m@),
    }
}

spec fn opt_type_r(r: Result<Option<TypeExpr>, String>) -> Result<
    Option<TypeExprView>,
    Seq<char>,
> {
    match r {
        Ok(x) => Ok(opt_type_expr_view(x)),
        Err(m) => Err(m@),
    }
}

spec fn params_r(r: Result<Vec<(String, TypeExpr)>, String>) -> Result<
    Seq<(Seq<char>, TypeExprView)>,
    Seq<char>,
> {
    match r {
        Ok(x) => Ok(params_view(x@)),
        Err(m) => Err(m@),
    }
}

spec fn text_r(r: Result<String, String>) -> Result<Seq<char>, Seq<char>> {
    match r {
        Ok(x) => Ok(x@),
        Err(m) => Err(m@),
    }
}

spec fn names_r(r: Result<Vec<String>, String>) -> Result<Seq<Seq<char>>, Seq<char>> {
    match r {
        Ok(x) => Ok(names_view(x@)),
        Err(m) => Err(m@),
    }
}

spec fn pattern_r(r: Result<Pattern, String>) -> Result<PatternView, Seq<char>> {
    match r {
        Ok(x) => Ok(x@),
        Err(m) => Err(m@),
    }
}

spec fn pat_args_r(r: Result<PatArgs, String>) -> Result<PatArgsView, Seq<char>> {
    match r {
        Ok(x) => Ok(x@),
        Err(m) => Err(m@),
    }
}

spec fn binders_r(r: Result<Vec<(String, PatBinder, u32)>, String>) -> Result<
    Seq<(Seq<char>, PatBinderView, u32)>,
    Seq<char>,
> {
    match r {
        Ok(x) => Ok(binders_view(x@)),
        Err(m) => Err(m@),
    }
}

spec fn stmt_arms_r(r: Result<Vec<(Pattern, Block)>, String>) -> Result<
    Seq<(PatternView, BlockView)>,
    Seq<char>,
> {
    match r {
        Ok(x) => Ok(stmt_arms_view(x@)),
        Err(m) => Err(m@),
    }
}

spec fn expr_arms_r(r: Result<Vec<(Pattern, Expr)>, String>) -> Result<
    Seq<(PatternView, ExprView)>,
    Seq<char>,
> {
    match r {
        Ok(x) => Ok(expr_arms_view(x@)),
        Err(m) => Err(m@),
    }
}

spec fn opt_stmt_view(s: Option<Box<Stmt>>) -> Option<Box<StmtView>> {
    match s {
        Some(s) => Some(Box::new(s@)),
        None => None,
    }
}

spec fn opt_stmt_r(r: Result<Option<Box<Stmt>>, String>) -> Result<
    Option<Box<StmtView>>,
    Seq<char>,
> {
    match r {
        Ok(x) => Ok(opt_stmt_view(x)),
        Err(m) => Err(m@),
    }
}

spec fn opt_expr_r(r: Result<Option<Expr>, String>) -> Result<Option<ExprView>, Seq<char>> {
    match r {
        Ok(Some(x)) => Ok(Some(x@)),
        Ok(None) => Ok(None),
        Err(m) => Err(m@),
    }
}

spec fn struct_r(r: Result<StructDef, String>) -> Result<StructDefView, Seq<char>> {
    match r {
        Ok(x) => Ok(x@),
        Err(m) => Err(m@),
    }
}

spec fn enum_r(r: Result<EnumDef, String>) -> Result<EnumDefView, Seq<char>> {
    match r {
        Ok(x) => Ok(x@),
        Err(m) => Err(m@),
    }
}

spec fn payload_r(r: Result<VariantPayloadExpr, String>) -> Result<PayloadExprView, Seq<char>> {
    match r {
        Ok(x) => Ok(x@),
        Err(m) => Err(m@),
    }
}

spec fn payloads_r(r: Result<Vec<(String, VariantPayloadExpr)>, String>) -> Result<
    Seq<(Seq<char>, PayloadExprView)>,
    Seq<char>,
> {
    match r {
        Ok(x) => Ok(payloads_view(x@)),
        Err(m) => Err(m@),
    }
}

spec fn func_r(r: Result<FuncDef, String>) -> Result<FuncDefView, Seq<char>> {
    match r {
        Ok(x) => Ok(x@),
        Err(m) => Err(m@),
    }
}

/// A step that gives nothing but a new place.
spec fn moves(
    r: Result<(), String>,
    want: Result<Cur, Seq<char>>,
    before: Parser,
    after: Parser,
) -> bool {
    match r {
        Ok(()) => want == Ok::<Cur, Seq<char>>(after@) && after.follows(before),
        Err(m) => want == Err::<Cur, Seq<char>>(m@),
    }
}

// -- Tokens -----------------------------------------------------------------

/// Is `a` the token `b`, which carries no text?
fn same_plain(a: &Tok, b: &Tok) -> (r: bool)
    requires
        b@ == plain(*b),
    ensures
        r == (a@ == plain(*b)),
{
    match (a, b) {
        (Tok::Int(x), Tok::Int(y)) => *x == *y,
        (Tok::Byte(x), Tok::Byte(y)) => *x == *y,
        (Tok::OpAssign(x), Tok::OpAssign(y)) => *x == *y,
        (Tok::Fn, Tok::Fn) => true,
        (Tok::Struct, Tok::Struct) => true,
        (Tok::Enum, Tok::Enum) => true,
        (Tok::Impl, Tok::Impl) => true,
        (Tok::SelfKw, Tok::SelfKw) => true,
        (Tok::Match, Tok::Match) => true,
        (Tok::Let, Tok::Let) => true,
        (Tok::If, Tok::If) => true,
        (Tok::Else, Tok::Else) => true,
        (Tok::While, Tok::While) => true,
        (Tok::For, Tok::For) => true,
        (Tok::Return, Tok::Return) => true,
        (Tok::Break, Tok::Break) => true,
        (Tok::Continue, Tok::Continue) => true,
        (Tok::True, Tok::True) => true,
        (Tok::False, Tok::False) => true,
        (Tok::Nil, Tok::Nil) => true,
        (Tok::As, Tok::As) => true,
        (Tok::LParen, Tok::LParen) => true,
        (Tok::RParen, Tok::RParen) => true,
        (Tok::LBrace, Tok::LBrace) => true,
        (Tok::RBrace, Tok::RBrace) => true,
        (Tok::LBracket, Tok::LBracket) => true,
        (Tok::RBracket, Tok::RBracket) => true,
        (Tok::Comma, Tok::Comma) => true,
        (Tok::Semi, Tok::Semi) => true,
        (Tok::Colon, Tok::Colon) => true,
        (Tok::Dot, Tok::Dot) => true,
        (Tok::FatArrow, Tok::FatArrow) => true,
        (Tok::Plus, Tok::Plus) => true,
        (Tok::Minus, Tok::Minus) => true,
        (Tok::Star, Tok::Star) => true,
        (Tok::Slash, Tok::Slash) => true,
        (Tok::Percent, Tok::Percent) => true,
        (Tok::Assign, Tok::Assign) => true,
        (Tok::Eq, Tok::Eq) => true,
        (Tok::Ne, Tok::Ne) => true,
        (Tok::Lt, Tok::Lt) => true,
        (Tok::Le, Tok::Le) => true,
        (Tok::Gt, Tok::Gt) => true,
        (Tok::Ge, Tok::Ge) => true,
        (Tok::Not, Tok::Not) => true,
        (Tok::AndAnd, Tok::AndAnd) => true,
        (Tok::OrOr, Tok::OrOr) => true,
        (Tok::Amp, Tok::Amp) => true,
        (Tok::Pipe, Tok::Pipe) => true,
        (Tok::Caret, Tok::Caret) => true,
        (Tok::Tilde, Tok::Tilde) => true,
        (Tok::Shl, Tok::Shl) => true,
        (Tok::Shr, Tok::Shr) => true,
        (Tok::Eof, Tok::Eof) => true,
        _ => false,
    }
}

/// The name that a token spells.
fn token_name(t: &Tok) -> (r: Option<String>)
    ensures
        match r {
            Some(s) => grammar::name_of(t@) == Some(s@),
            None => grammar::name_of(t@) is None,
        },
{
    match t {
        Tok::Ident(name) => Some(name.clone()),
        Tok::Nil => Some(owned("nil")),
        _ => None,
    }
}

fn binary_op(level: u8, t: &Tok) -> (r: Option<BinOp>)
    ensures
        r == grammar::operator_at(level as int, t@),
{
    let (op, at): (BinOp, u8) = match t {
        Tok::OrOr => (BinOp::Or, 0),
        Tok::AndAnd => (BinOp::And, 1),
        Tok::Eq => (BinOp::Eq, 2),
        Tok::Ne => (BinOp::Ne, 2),
        Tok::Lt => (BinOp::Lt, 3),
        Tok::Le => (BinOp::Le, 3),
        Tok::Gt => (BinOp::Gt, 3),
        Tok::Ge => (BinOp::Ge, 3),
        Tok::Pipe => (BinOp::BitOr, 4),
        Tok::Caret => (BinOp::BitXor, 5),
        Tok::Amp => (BinOp::BitAnd, 6),
        Tok::Shl => (BinOp::Shl, 7),
        Tok::Shr => (BinOp::Shr, 7),
        Tok::Plus => (BinOp::Add, 8),
        Tok::Minus => (BinOp::Sub, 8),
        Tok::Star => (BinOp::Mul, 9),
        Tok::Slash => (BinOp::Div, 9),
        Tok::Percent => (BinOp::Rem, 9),
        _ => return None,
    };
    if at == level {
        Some(op)
    } else {
        None
    }
}

fn prefix_op(t: &Tok) -> (r: Option<UnOp>)
    ensures
        r == grammar::unary_op(t@),
{
    match t {
        Tok::Minus => Some(UnOp::Neg),
        Tok::Not => Some(UnOp::Not),
        Tok::Tilde => Some(UnOp::BitNot),
        _ => None,
    }
}

fn assignment_op(t: &Tok) -> (r: Option<Option<BinOp>>)
    ensures
        r == grammar::assign_op(t@),
{
    match t {
        Tok::Assign => Some(None),
        Tok::OpAssign(op) => Some(Some(*op)),
        _ => None,
    }
}

fn literal(t: &Tok) -> (r: Option<ExprKind>)
    ensures
        match r {
            Some(k) => grammar::literal_of(t@) == Some(k@),
            None => grammar::literal_of(t@) is None,
        },
{
    match t {
        Tok::Int(v) => Some(ExprKind::Int(*v)),
        Tok::Byte(v) => Some(ExprKind::Byte(*v)),
        Tok::Float(s) => Some(ExprKind::Float(s.clone())),
        Tok::Str(s) => Some(ExprKind::Str(s.clone())),
        Tok::True => Some(ExprKind::Bool(true)),
        Tok::False => Some(ExprKind::Bool(false)),
        Tok::SelfKw => Some(ExprKind::Var { name: owned("self"), res: None }),
        _ => None,
    }
}

impl Parser {
    spec fn view(&self) -> Cur {
        Cur { toks: tokens_view(self.toks@), pos: self.pos as int }
    }

    spec fn wf(self) -> bool {
        &&& self.pos < self.toks@.len()
        &&& self.toks@[self.toks@.len() - 1].tok@ == plain(Tok::Eof)
        &&& self.depth <= MAX_DEPTH
    }

    /// The parser further ahead in the same tokens, at the same depth.
    spec fn follows(self, before: Parser) -> bool {
        &&& self.wf()
        &&& self.toks@.len() == before.toks@.len()
        &&& before.pos <= self.pos
        &&& self.depth == before.depth
        &&& self.no_struct == before.no_struct
    }

    fn peek(&self) -> (r: &Tok)
        requires
            self.wf(),
        ensures
            r@ == self@.peek(),
    {
        &self.toks[self.pos].tok
    }

    fn peek2(&self) -> (r: &Tok)
        requires
            self.wf(),
        ensures
            r@ == self@.peek2(),
    {
        if self.pos < self.toks.len() - 1 {
            &self.toks[self.pos + 1].tok
        } else {
            &self.toks[self.toks.len() - 1].tok
        }
    }

    fn line(&self) -> (r: u32)
        requires
            self.wf(),
        ensures
            r == self@.line(),
    {
        self.toks[self.pos].line
    }

    /// Is the next token `t`, which carries no text?
    fn at(&self, t: Tok) -> (r: bool)
        requires
            self.wf(),
            t@ == plain(t),
        ensures
            r == self@.at(t),
            r && !(t is Eof) ==> self.pos < self.toks@.len() - 1,
    {
        same_plain(&self.toks[self.pos].tok, &t)
    }

    fn next(&mut self)
        requires
            old(self).wf(),
        ensures
            final(self)@ == old(self)@.bump(),
            final(self).follows(*old(self)),
            old(self)@.peek() != plain(Tok::Eof) ==> old(self).pos < final(self).pos,
    {
        if self.pos < self.toks.len() - 1 {
            self.pos = self.pos + 1;
        }
    }

    fn err(&self, msg: &str) -> (r: String)
        requires
            self.wf(),
        ensures
            r@ == self@.error(msg@),
    {
        reveal(Cur::error);
        let t = &self.toks[self.pos];
        cat7(
            dec(t.line as u64).as_str(),
            ":",
            dec(t.col as u64).as_str(),
            ": ",
            msg,
            ", found ",
            t.tok.to_string().as_str(),
        )
    }

    fn too_deep(&self) -> (r: String)
        requires
            self.wf(),
        ensures
            r@ == self@.too_deep(),
    {
        reveal(Cur::too_deep);
        cat2(dec(self.line() as u64).as_str(), ": program is nested too deeply")
    }

    fn eat(&mut self, t: Tok) -> (r: bool)
        requires
            old(self).wf(),
            t@ == plain(t),
            !(t is Eof),
        ensures
            r == old(self)@.at(t),
            final(self)@ == (if r {
                old(self)@.bump()
            } else {
                old(self)@
            }),
            final(self).follows(*old(self)),
            r ==> old(self).pos < final(self).pos,
    {
        if self.at(t) {
            self.next();
            true
        } else {
            false
        }
    }

    fn expect(&mut self, t: Tok) -> (r: Result<(), String>)
        requires
            old(self).wf(),
            t@ == plain(t),
            !(t is Eof),
        ensures
            moves(r, old(self)@.expect(t), *old(self), *final(self)),
            r is Ok ==> old(self).pos < final(self).pos,
    {
        if same_plain(&self.toks[self.pos].tok, &t) {
            self.next();
            Ok(())
        } else {
            let msg = cat2("expected ", t.to_string().as_str());
            Err(self.err(msg.as_str()))
        }
    }

    fn expect_gt(&mut self) -> (r: Result<(), String>)
        requires
            old(self).wf(),
        ensures
            moves(r, old(self)@.expect_gt(), *old(self), *final(self)),
    {
        if self.at(Tok::Gt) {
            self.next();
            Ok(())
        } else if self.at(Tok::Shr) {
            let line: u32 = self.toks[self.pos].line;
            let col: u32 = self.toks[self.pos].col;
            let col2: u32 = if col < u32::MAX {
                col + 1
            } else {
                col
            };
            let pos = self.pos;
            self.toks.set(pos, Token { tok: Tok::Gt, line, col: col2 });
            assert(self@.toks =~= old(self)@.expect_gt()->Ok_0.toks);
            Ok(())
        } else {
            Err(self.err("expected '>'"))
        }
    }

    fn ident(&mut self) -> (r: Result<String, String>)
        requires
            old(self).wf(),
        ensures
            agrees(text_r(r), old(self)@.ident(), *old(self), *final(self)),
            r is Ok ==> old(self).pos < final(self).pos,
    {
        match token_name(self.peek()) {
            Some(name) => {
                self.next();
                Ok(name)
            },
            None => Err(self.err("expected identifier")),
        }
    }

    fn literal_ahead(&self) -> (r: bool)
        requires
            self.wf(),
        ensures
            r == self@.literal_ahead(),
    {
        let t = self.peek2();
        if same_plain(t, &Tok::RBrace) {
            true
        } else {
            match token_name(t) {
                Some(_) => {
                    self.toks.len() - self.pos > 2 && same_plain(
                        &self.toks[self.pos + 2].tok,
                        &Tok::Colon,
                    )
                },
                None => false,
            }
        }
    }

    fn type_expr(&mut self) -> (r: Result<TypeExpr, String>)
        requires
            old(self).wf(),
        ensures
            agrees(type_r(r), grammar::type_expr(old(self)@, old(self).depth as int), *old(self), *final(self)),
            r is Ok ==> old(self).pos < final(self).pos,
        decreases 201 - old(self).depth, 0int, 0int,
    {
        if self.depth + 1 > MAX_DEPTH {
            return Err(self.too_deep());
        }
        self.depth = self.depth + 1;
        match self.type_expr_inner() {
            Ok(t) => {
                self.depth = self.depth - 1;
                Ok(t)
            },
            Err(e) => Err(e),
        }
    }

    fn type_expr_inner(&mut self) -> (r: Result<TypeExpr, String>)
        requires
            old(self).wf(),
        ensures
            agrees(type_r(r), grammar::type_inner(old(self)@, old(self).depth as int), *old(self), *final(self)),
            r is Ok ==> old(self).pos < final(self).pos,
        decreases 201 - old(self).depth, 2int, 0int,
    {
        let line: u32 = self.line();
        if let Some(name) = token_name(self.peek()) {
            self.next();
            if self.eat(Tok::Lt) {
                let args = match self.type_args() {
                    Ok(a) => a,
                    Err(e) => return Err(e),
                };
                match self.expect_gt() {
                    Ok(()) => Ok(TypeExpr::Named(name, args, line)),
                    Err(e) => Err(e),
                }
            } else {
                let args: Vec<TypeExpr> = Vec::new();
                assert(type_exprs_view(args@) =~= Seq::empty());
                Ok(TypeExpr::Named(name, args, line))
            }
        } else if self.at(Tok::LBracket) {
            self.next();
            let elem = match self.type_expr() {
                Ok(t) => t,
                Err(e) => return Err(e),
            };
            match self.expect(Tok::RBracket) {
                Ok(()) => Ok(TypeExpr::Array(Box::new(elem))),
                Err(e) => Err(e),
            }
        } else if self.at(Tok::Fn) {
            self.next();
            match self.expect(Tok::LParen) {
                Ok(()) => {},
                Err(e) => return Err(e),
            }
            let params = match self.fn_type_params() {
                Ok(a) => a,
                Err(e) => return Err(e),
            };
            match self.expect(Tok::RParen) {
                Ok(()) => {},
                Err(e) => return Err(e),
            }
            match self.ret_type() {
                Ok(Some(r)) => Ok(TypeExpr::Fn(params, Some(Box::new(r)), line)),
                Ok(None) => Ok(TypeExpr::Fn(params, None, line)),
                Err(e) => Err(e),
            }
        } else {
            Err(self.err("expected a type"))
        }
    }

    fn type_args(&mut self) -> (r: Result<Vec<TypeExpr>, String>)
        requires
            old(self).wf(),
        ensures
            agrees(types_r(r), grammar::type_args(old(self)@, old(self).depth as int, Seq::empty()), *old(self), *final(self)),
        decreases 201 - old(self).depth, 1int, 0int,
    {
        let mut args: Vec<TypeExpr> = Vec::new();
        assert(type_exprs_view(args@) =~= Seq::empty());
        loop
            invariant
                self.follows(*old(self)),
                old(self).wf(),
                grammar::type_args(old(self)@, old(self).depth as int, Seq::empty())
                    == grammar::type_args(self@, old(self).depth as int, type_exprs_view(args@)),
            decreases self.toks@.len() - self.pos,
        {
            let ghost before = args@;
            match self.type_expr() {
                Ok(t) => {
                    args.push(t);
                    assert(type_exprs_view(args@) =~= type_exprs_view(before).push(t@));
                },
                Err(e) => return Err(e),
            }
            if !self.eat(Tok::Comma) {
                return Ok(args);
            }
        }
    }

    fn fn_type_params(&mut self) -> (r: Result<Vec<TypeExpr>, String>)
        requires
            old(self).wf(),
        ensures
            agrees(types_r(r), grammar::fn_type_params(old(self)@, old(self).depth as int, Seq::empty()), *old(self), *final(self)),
        decreases 201 - old(self).depth, 1int, 0int,
    {
        let mut args: Vec<TypeExpr> = Vec::new();
        assert(type_exprs_view(args@) =~= Seq::empty());
        while !self.at(Tok::RParen)
            invariant
                self.follows(*old(self)),
                old(self).wf(),
                grammar::fn_type_params(old(self)@, old(self).depth as int, Seq::empty())
                    == grammar::fn_type_params(self@, old(self).depth as int, type_exprs_view(args@)),
            decreases self.toks@.len() - self.pos,
        {
            let ghost before = args@;
            match self.type_expr() {
                Ok(t) => {
                    args.push(t);
                    assert(type_exprs_view(args@) =~= type_exprs_view(before).push(t@));
                },
                Err(e) => return Err(e),
            }
            if !self.eat(Tok::Comma) {
                return Ok(args);
            }
        }
        Ok(args)
    }

    fn ret_type(&mut self) -> (r: Result<Option<TypeExpr>, String>)
        requires
            old(self).wf(),
        ensures
            agrees(opt_type_r(r), grammar::ret_type(old(self)@, old(self).depth as int), *old(self), *final(self)),
        decreases 201 - old(self).depth, 1int, 0int,
    {
        if self.eat(Tok::Colon) {
            match self.type_expr() {
                Ok(t) => Ok(Some(t)),
                Err(e) => Err(e),
            }
        } else {
            Ok(None)
        }
    }

    fn typed_names(&mut self, close: Tok, ban_self: bool) -> (r: Result<Vec<(String, TypeExpr)>, String>)
        requires
            old(self).wf(),
            close@ == plain(close),
        ensures
            agrees(
                params_r(r),
                grammar::typed_names(old(self)@, old(self).depth as int, close, ban_self, Seq::empty()),
                *old(self),
                *final(self),
            ),
        decreases 201 - old(self).depth, 3int, 0int,
    {
        let mut out: Vec<(String, TypeExpr)> = Vec::new();
        assert(params_view(out@) =~= Seq::empty());
        while !same_plain(&self.toks[self.pos].tok, &close)
            invariant
                self.follows(*old(self)),
                old(self).wf(),
                close@ == plain(close),
                grammar::typed_names(old(self)@, old(self).depth as int, close, ban_self, Seq::empty())
                    == grammar::typed_names(
                    self@,
                    old(self).depth as int,
                    close,
                    ban_self,
                    params_view(out@),
                ),
            decreases self.toks@.len() - self.pos,
        {
            let ghost before = out@;
            if ban_self && self.at(Tok::SelfKw) {
                return Err(self.err("'self' must be the first parameter"));
            }
            let name = match self.ident() {
                Ok(n) => n,
                Err(e) => return Err(e),
            };
            match self.expect(Tok::Colon) {
                Ok(()) => {},
                Err(e) => return Err(e),
            }
            let ty = match self.type_expr() {
                Ok(t) => t,
                Err(e) => return Err(e),
            };
            let ghost pair = (name@, ty@);
            out.push((name, ty));
            assert(params_view(out@) =~= params_view(before).push(pair));
            if !self.eat(Tok::Comma) {
                return Ok(out);
            }
        }
        Ok(out)
    }

    fn params(&mut self) -> (r: Result<Vec<(String, TypeExpr)>, String>)
        requires
            old(self).wf(),
        ensures
            agrees(params_r(r), grammar::params(old(self)@, old(self).depth as int), *old(self), *final(self)),
        decreases 201 - old(self).depth, 4int, 0int,
    {
        match self.expect(Tok::LParen) {
            Ok(()) => {},
            Err(e) => return Err(e),
        }
        let ps = match self.typed_names(Tok::RParen, false) {
            Ok(p) => p,
            Err(e) => return Err(e),
        };
        match self.expect(Tok::RParen) {
            Ok(()) => Ok(ps),
            Err(e) => Err(e),
        }
    }

    fn field_binders(&mut self) -> (r: Result<Vec<(String, PatBinder, u32)>, String>)
        requires
            old(self).wf(),
        ensures
            agrees(binders_r(r), grammar::field_binders(old(self)@, Seq::empty()), *old(self), *final(self)),
    {
        let mut out: Vec<(String, PatBinder, u32)> = Vec::new();
        assert(binders_view(out@) =~= Seq::empty());
        while !self.at(Tok::RBrace)
            invariant
                self.follows(*old(self)),
                grammar::field_binders(old(self)@, Seq::empty()) == grammar::field_binders(
                    self@,
                    binders_view(out@),
                ),
            decreases self.toks@.len() - self.pos,
        {
            let ghost before = out@;
            let fname = match self.ident() {
                Ok(x) => x,
                Err(e) => return Err(e),
            };
            let bname = if self.eat(Tok::Colon) {
                match self.ident() {
                    Ok(x) => x,
                    Err(e) => return Err(e),
                }
            } else {
                fname.clone()
            };
            let ghost item = (fname@, grammar::binder(bname@), 0u32);
            out.push((fname, PatBinder { name: bname, local: 0, ty: Type::Unknown }, 0));
            assert(binders_view(out@) =~= binders_view(before).push(item));
            if !self.eat(Tok::Comma) {
                return Ok(out);
            }
        }
        Ok(out)
    }

    fn pattern_args(&mut self) -> (r: Result<PatArgs, String>)
        requires
            old(self).wf(),
        ensures
            agrees(pat_args_r(r), grammar::pattern_args(old(self)@), *old(self), *final(self)),
    {
        reveal(grammar::pattern_args);
        if self.eat(Tok::LParen) {
            let name = match self.ident() {
                Ok(x) => x,
                Err(e) => return Err(e),
            };
            match self.expect(Tok::RParen) {
                Ok(()) => Ok(PatArgs::Single(PatBinder { name, local: 0, ty: Type::Unknown })),
                Err(e) => Err(e),
            }
        } else if self.eat(Tok::LBrace) {
            let fields = match self.field_binders() {
                Ok(x) => x,
                Err(e) => return Err(e),
            };
            match self.expect(Tok::RBrace) {
                Ok(()) => Ok(PatArgs::Fields(fields)),
                Err(e) => Err(e),
            }
        } else {
            Ok(PatArgs::Bare)
        }
    }

    fn pattern(&mut self) -> (r: Result<Pattern, String>)
        requires
            old(self).wf(),
        ensures
            agrees(pattern_r(r), grammar::pattern(old(self)@), *old(self), *final(self)),
            r is Ok ==> old(self).pos < final(self).pos,
    {
        reveal(grammar::pattern);
        let line: u32 = self.line();
        match self.peek() {
            Tok::Int(digits) => {
                let digits: u64 = *digits;
                self.next();
                Ok(Pattern::IntLit { neg: false, digits, value: 0, line })
            },
            Tok::Byte(value) => {
                let value: u8 = *value;
                self.next();
                Ok(Pattern::ByteLit { value, line })
            },
            Tok::True => {
                self.next();
                Ok(Pattern::BoolLit { value: true, line })
            },
            Tok::False => {
                self.next();
                Ok(Pattern::BoolLit { value: false, line })
            },
            Tok::Minus => {
                self.next();
                match self.peek() {
                    Tok::Int(digits) => {
                        let digits: u64 = *digits;
                        self.next();
                        Ok(Pattern::IntLit { neg: true, digits, value: 0, line })
                    },
                    _ => Err(self.err("expected an integer literal after '-' in a pattern")),
                }
            },
            t => match token_name(t) {
                None => Err(self.err("expected a pattern")),
                Some(name) => {
                    self.next();
                    if str_eq(name.as_str(), "_") {
                        return Ok(Pattern::Wildcard { line });
                    }
                    match self.expect(Tok::Dot) {
                        Ok(()) => {},
                        Err(e) => return Err(e),
                    }
                    let variant = match self.ident() {
                        Ok(x) => x,
                        Err(e) => return Err(e),
                    };
                    match self.pattern_args() {
                        Ok(args) => Ok(
                            Pattern::Variant { enum_name: name, variant, args, tag: 0, line },
                        ),
                        Err(e) => Err(e),
                    }
                },
            },
        }
    }

    // -- Statements ---------------------------------------------------------

    fn block(&mut self) -> (r: Result<Block, String>)
        requires
            old(self).wf(),
        ensures
            agrees(block_r(r), grammar::block(old(self)@, old(self).depth as int), *old(self), *final(self)),
            r is Ok ==> old(self).pos < final(self).pos,
        decreases 201 - old(self).depth, 9int, 0int,
    {
        match self.expect(Tok::LBrace) {
            Ok(()) => {},
            Err(e) => return Err(e),
        }
        let saved = self.no_struct;
        self.no_struct = false;
        match self.block_stmts() {
            Ok(stmts) => {
                self.no_struct = saved;
                Ok(Block { stmts })
            },
            Err(e) => Err(e),
        }
    }

    fn block_stmts(&mut self) -> (r: Result<Vec<Stmt>, String>)
        requires
            old(self).wf(),
            !old(self).no_struct,
        ensures
            agrees(stmts_r(r), grammar::block_stmts(old(self)@, old(self).depth as int, Seq::empty()), *old(self), *final(self)),
        decreases 201 - old(self).depth, 8int, 0int,
    {
        let mut stmts: Vec<Stmt> = Vec::new();
        assert(stmts_view(stmts@) =~= Seq::empty());
        while !self.at(Tok::RBrace)
            invariant
                self.follows(*old(self)),
                old(self).wf(),
                !old(self).no_struct,
                grammar::block_stmts(old(self)@, old(self).depth as int, Seq::empty())
                    == grammar::block_stmts(self@, old(self).depth as int, stmts_view(stmts@)),
            decreases self.toks@.len() - self.pos,
        {
            let ghost before = stmts@;
            if self.at(Tok::Eof) {
                return Err(self.err("expected '}'"));
            }
            match self.stmt() {
                Ok(s) => {
                    stmts.push(s);
                    assert(stmts_view(stmts@) =~= stmts_view(before).push(s@));
                },
                Err(e) => return Err(e),
            }
        }
        self.next();
        Ok(stmts)
    }

    fn fn_body(&mut self, has_ret: bool) -> (r: Result<Block, String>)
        requires
            old(self).wf(),
        ensures
            agrees(block_r(r), grammar::fn_body(old(self)@, old(self).depth as int, has_ret), *old(self), *final(self)),
            r is Ok ==> old(self).pos < final(self).pos,
        decreases 201 - old(self).depth, 8int, 0int,
    {
        match self.expect(Tok::LBrace) {
            Ok(()) => {},
            Err(e) => return Err(e),
        }
        let saved = self.no_struct;
        self.no_struct = false;
        match self.body_stmts(has_ret) {
            Ok(stmts) => {
                self.no_struct = saved;
                Ok(Block { stmts })
            },
            Err(e) => Err(e),
        }
    }

    /// Does the next token begin a statement that is not an expression or an
    /// assignment?
    fn at_stmt(&self) -> (r: bool)
        requires
            self.wf(),
        ensures
            r == grammar::starts_stmt(self@.peek()),
    {
        matches!(
            self.peek(),
            Tok::Let | Tok::If | Tok::Match | Tok::While | Tok::For | Tok::Return | Tok::Break
                | Tok::Continue | Tok::LBrace
        )
    }

    fn body_stmts(&mut self, has_ret: bool) -> (r: Result<Vec<Stmt>, String>)
        requires
            old(self).wf(),
            !old(self).no_struct,
        ensures
            agrees(stmts_r(r), grammar::body_stmts(old(self)@, old(self).depth as int, has_ret, Seq::empty()), *old(self), *final(self)),
        decreases 201 - old(self).depth, 7int, 0int,
    {
        let mut stmts: Vec<Stmt> = Vec::new();
        assert(stmts_view(stmts@) =~= Seq::empty());
        while !self.at(Tok::RBrace)
            invariant
                self.follows(*old(self)),
                old(self).wf(),
                !old(self).no_struct,
                grammar::body_stmts(old(self)@, old(self).depth as int, has_ret, Seq::empty())
                    == grammar::body_stmts(self@, old(self).depth as int, has_ret, stmts_view(stmts@)),
            decreases self.toks@.len() - self.pos,
        {
            let ghost before = stmts@;
            if self.at(Tok::Eof) {
                return Err(self.err("expected '}'"));
            }
            if self.at_stmt() {
                match self.stmt() {
                    Ok(s) => {
                        stmts.push(s);
                        assert(stmts_view(stmts@) =~= stmts_view(before).push(s@));
                    },
                    Err(e) => return Err(e),
                }
            } else {
                if self.depth + 1 > MAX_DEPTH {
                    return Err(self.too_deep());
                }
                let line: u32 = self.line();
                self.depth = self.depth + 1;
                let s = match self.simple_stmt() {
                    Ok(s) => s,
                    Err(e) => return Err(e),
                };
                self.depth = self.depth - 1;
                if matches!(s, Stmt::Expr(_)) && self.at(Tok::RBrace) {
                    self.next();
                    let tail = if has_ret {
                        match s {
                            Stmt::Expr(e) => Stmt::Return { value: Some(e), line },
                            other => other,
                        }
                    } else {
                        s
                    };
                    let ghost shown = tail@;
                    stmts.push(tail);
                    assert(stmts_view(stmts@) =~= stmts_view(before).push(shown));
                    return Ok(stmts);
                }
                match self.expect(Tok::Semi) {
                    Ok(()) => {},
                    Err(e) => return Err(e),
                }
                stmts.push(s);
                assert(stmts_view(stmts@) =~= stmts_view(before).push(s@));
            }
        }
        self.next();
        Ok(stmts)
    }

    fn stmt(&mut self) -> (r: Result<Stmt, String>)
        requires
            old(self).wf(),
            !old(self).no_struct,
        ensures
            agrees(stmt_r(r), grammar::stmt(old(self)@, old(self).depth as int), *old(self), *final(self)),
            r is Ok ==> old(self).pos < final(self).pos,
        decreases 201 - old(self).depth, 0int, 0int,
    {
        if self.depth + 1 > MAX_DEPTH {
            return Err(self.too_deep());
        }
        self.depth = self.depth + 1;
        match self.stmt_inner() {
            Ok(x) => {
                self.depth = self.depth - 1;
                Ok(x)
            },
            Err(e) => Err(e),
        }
    }

    fn cond(&mut self) -> (r: Result<Expr, String>)
        requires
            old(self).wf(),
        ensures
            agrees(expr_r(r), grammar::expr(old(self)@, old(self).depth as int, true), *old(self), *final(self)),
        decreases 201 - old(self).depth, 1int, 0int,
    {
        let saved = self.no_struct;
        self.no_struct = true;
        match self.expr() {
            Ok(x) => {
                self.no_struct = saved;
                Ok(x)
            },
            Err(e) => Err(e),
        }
    }

    fn unrestricted(&mut self) -> (r: Result<Expr, String>)
        requires
            old(self).wf(),
        ensures
            agrees(expr_r(r), grammar::expr(old(self)@, old(self).depth as int, false), *old(self), *final(self)),
        decreases 201 - old(self).depth, 1int, 0int,
    {
        let saved = self.no_struct;
        self.no_struct = false;
        match self.expr() {
            Ok(x) => {
                self.no_struct = saved;
                Ok(x)
            },
            Err(e) => Err(e),
        }
    }

    fn stmt_inner(&mut self) -> (r: Result<Stmt, String>)
        requires
            old(self).wf(),
            !old(self).no_struct,
        ensures
            agrees(stmt_r(r), grammar::stmt_inner(old(self)@, old(self).depth as int), *old(self), *final(self)),
            r is Ok ==> old(self).pos < final(self).pos,
        decreases 201 - old(self).depth, 13int, 0int,
    {
        let line: u32 = self.line();
        if self.at(Tok::Let) {
            let s = match self.let_stmt() {
                Ok(s) => s,
                Err(e) => return Err(e),
            };
            match self.expect(Tok::Semi) {
                Ok(()) => Ok(s),
                Err(e) => Err(e),
            }
        } else if self.at(Tok::If) {
            self.if_stmt()
        } else if self.at(Tok::Match) {
            self.match_stmt()
        } else if self.at(Tok::While) {
            self.while_stmt()
        } else if self.at(Tok::For) {
            self.for_stmt()
        } else if self.at(Tok::Return) {
            self.return_stmt()
        } else if self.at(Tok::Break) {
            self.next();
            match self.expect(Tok::Semi) {
                Ok(()) => Ok(Stmt::Break(line)),
                Err(e) => Err(e),
            }
        } else if self.at(Tok::Continue) {
            self.next();
            match self.expect(Tok::Semi) {
                Ok(()) => Ok(Stmt::Continue(line)),
                Err(e) => Err(e),
            }
        } else if self.at(Tok::LBrace) {
            match self.block() {
                Ok(b) => Ok(Stmt::Block(b)),
                Err(e) => Err(e),
            }
        } else {
            let s = match self.simple_stmt() {
                Ok(s) => s,
                Err(e) => return Err(e),
            };
            match self.expect(Tok::Semi) {
                Ok(()) => Ok(s),
                Err(e) => Err(e),
            }
        }
    }

    fn let_stmt(&mut self) -> (r: Result<Stmt, String>)
        requires
            old(self).wf(),
        ensures
            agrees(stmt_r(r), grammar::let_stmt(old(self)@, old(self).depth as int, old(self).no_struct), *old(self), *final(self)),
            r is Ok ==> old(self).pos < final(self).pos,
        decreases 201 - old(self).depth, 10int, 0int,
    {
        let line: u32 = self.line();
        match self.expect(Tok::Let) {
            Ok(()) => {},
            Err(e) => return Err(e),
        }
        let name = match self.ident() {
            Ok(x) => x,
            Err(e) => return Err(e),
        };
        let ann = match self.ret_type() {
            Ok(x) => x,
            Err(e) => return Err(e),
        };
        match self.expect(Tok::Assign) {
            Ok(()) => {},
            Err(e) => return Err(e),
        }
        match self.expr() {
            Ok(init) => Ok(Stmt::Let { name, ann, init, line, local: 0, ty: Type::Unknown }),
            Err(e) => Err(e),
        }
    }

    fn simple_stmt(&mut self) -> (r: Result<Stmt, String>)
        requires
            old(self).wf(),
        ensures
            agrees(stmt_r(r), grammar::simple_stmt(old(self)@, old(self).depth as int, old(self).no_struct), *old(self), *final(self)),
        decreases 201 - old(self).depth, 10int, 0int,
    {
        let line: u32 = self.line();
        let target = match self.expr() {
            Ok(x) => x,
            Err(e) => return Err(e),
        };
        match assignment_op(self.peek()) {
            None => Ok(Stmt::Expr(target)),
            Some(op) => {
                self.next();
                match target.kind {
                    ExprKind::Var { .. } | ExprKind::Field { .. } | ExprKind::Index(..) => {},
                    _ => return Err(cat2(dec(line as u64).as_str(), ": invalid assignment target")),
                }
                match self.expr() {
                    Ok(value) => Ok(Stmt::Assign { target, op, value, line }),
                    Err(e) => Err(e),
                }
            },
        }
    }

    fn if_stmt(&mut self) -> (r: Result<Stmt, String>)
        requires
            old(self).wf(),
            !old(self).no_struct,
        ensures
            agrees(stmt_r(r), grammar::if_stmt(old(self)@, old(self).depth as int), *old(self), *final(self)),
            r is Ok ==> old(self).pos < final(self).pos,
        decreases 201 - old(self).depth, 11int, old(self)@.left(),
    {
        match self.expect(Tok::If) {
            Ok(()) => {},
            Err(e) => return Err(e),
        }
        let cond = match self.cond() {
            Ok(x) => x,
            Err(e) => return Err(e),
        };
        let then = match self.block() {
            Ok(x) => x,
            Err(e) => return Err(e),
        };
        if !self.eat(Tok::Else) {
            return Ok(Stmt::If { cond, then, els: None });
        }
        if self.at(Tok::If) {
            match self.if_stmt() {
                Ok(s) => {
                    let mut stmts: Vec<Stmt> = Vec::new();
                    stmts.push(s);
                    assert(stmts_view(stmts@) =~= seq![s@]);
                    let els = Block { stmts };
                    assert(els@ == BlockView { stmts: seq![s@] });
                    Ok(Stmt::If { cond, then, els: Some(els) })
                },
                Err(e) => Err(e),
            }
        } else {
            match self.block() {
                Ok(b) => Ok(Stmt::If { cond, then, els: Some(b) }),
                Err(e) => Err(e),
            }
        }
    }

    fn match_stmt(&mut self) -> (r: Result<Stmt, String>)
        requires
            old(self).wf(),
            !old(self).no_struct,
        ensures
            agrees(stmt_r(r), grammar::match_stmt(old(self)@, old(self).depth as int), *old(self), *final(self)),
            r is Ok ==> old(self).pos < final(self).pos,
        decreases 201 - old(self).depth, 11int, 0int,
    {
        let line: u32 = self.line();
        match self.expect(Tok::Match) {
            Ok(()) => {},
            Err(e) => return Err(e),
        }
        let scrutinee = match self.cond() {
            Ok(x) => x,
            Err(e) => return Err(e),
        };
        match self.expect(Tok::LBrace) {
            Ok(()) => {},
            Err(e) => return Err(e),
        }
        let arms = match self.stmt_arms() {
            Ok(x) => x,
            Err(e) => return Err(e),
        };
        match self.expect(Tok::RBrace) {
            Ok(()) => Ok(Stmt::Match { scrutinee, arms, line }),
            Err(e) => Err(e),
        }
    }

    fn stmt_arms(&mut self) -> (r: Result<Vec<(Pattern, Block)>, String>)
        requires
            old(self).wf(),
            !old(self).no_struct,
        ensures
            agrees(stmt_arms_r(r), grammar::stmt_arms(old(self)@, old(self).depth as int, Seq::empty()), *old(self), *final(self)),
        decreases 201 - old(self).depth, 10int, 0int,
    {
        let mut arms: Vec<(Pattern, Block)> = Vec::new();
        assert(stmt_arms_view(arms@) =~= Seq::empty());
        while !self.at(Tok::RBrace)
            invariant
                self.follows(*old(self)),
                old(self).wf(),
                !old(self).no_struct,
                grammar::stmt_arms(old(self)@, old(self).depth as int, Seq::empty())
                    == grammar::stmt_arms(self@, old(self).depth as int, stmt_arms_view(arms@)),
            decreases self.toks@.len() - self.pos,
        {
            let ghost before = arms@;
            let pat = match self.pattern() {
                Ok(x) => x,
                Err(e) => return Err(e),
            };
            match self.expect(Tok::FatArrow) {
                Ok(()) => {},
                Err(e) => return Err(e),
            }
            let body = match self.block() {
                Ok(x) => x,
                Err(e) => return Err(e),
            };
            let ghost arm = (pat@, body@);
            arms.push((pat, body));
            assert(stmt_arms_view(arms@) =~= stmt_arms_view(before).push(arm));
            self.eat(Tok::Comma);
        }
        Ok(arms)
    }

    fn while_stmt(&mut self) -> (r: Result<Stmt, String>)
        requires
            old(self).wf(),
            !old(self).no_struct,
        ensures
            agrees(stmt_r(r), grammar::while_stmt(old(self)@, old(self).depth as int), *old(self), *final(self)),
            r is Ok ==> old(self).pos < final(self).pos,
        decreases 201 - old(self).depth, 12int, 0int,
    {
        self.next();
        let cond = match self.cond() {
            Ok(x) => x,
            Err(e) => return Err(e),
        };
        match self.block() {
            Ok(body) => Ok(Stmt::While { cond, body }),
            Err(e) => Err(e),
        }
    }

    fn return_stmt(&mut self) -> (r: Result<Stmt, String>)
        requires
            old(self).wf(),
            !old(self).no_struct,
        ensures
            agrees(stmt_r(r), grammar::return_stmt(old(self)@, old(self).depth as int), *old(self), *final(self)),
            r is Ok ==> old(self).pos < final(self).pos,
        decreases 201 - old(self).depth, 12int, 0int,
    {
        let line: u32 = self.line();
        self.next();
        if self.eat(Tok::Semi) {
            return Ok(Stmt::Return { value: None, line });
        }
        let v = match self.expr() {
            Ok(x) => x,
            Err(e) => return Err(e),
        };
        match self.expect(Tok::Semi) {
            Ok(()) => Ok(Stmt::Return { value: Some(v), line }),
            Err(e) => Err(e),
        }
    }

    fn for_init(&mut self) -> (r: Result<Option<Box<Stmt>>, String>)
        requires
            old(self).wf(),
            !old(self).no_struct,
        ensures
            agrees(opt_stmt_r(r), grammar::for_init(old(self)@, old(self).depth as int), *old(self), *final(self)),
        decreases 201 - old(self).depth, 11int, 0int,
    {
        if self.eat(Tok::Semi) {
            return Ok(None);
        }
        let s = if self.at(Tok::Let) {
            match self.let_stmt() {
                Ok(s) => s,
                Err(e) => return Err(e),
            }
        } else {
            match self.simple_stmt() {
                Ok(s) => s,
                Err(e) => return Err(e),
            }
        };
        match self.expect(Tok::Semi) {
            Ok(()) => Ok(Some(Box::new(s))),
            Err(e) => Err(e),
        }
    }

    fn for_cond(&mut self) -> (r: Result<Option<Expr>, String>)
        requires
            old(self).wf(),
            !old(self).no_struct,
        ensures
            agrees(opt_expr_r(r), grammar::for_cond(old(self)@, old(self).depth as int), *old(self), *final(self)),
        decreases 201 - old(self).depth, 11int, 0int,
    {
        if self.eat(Tok::Semi) {
            return Ok(None);
        }
        let x = match self.expr() {
            Ok(x) => x,
            Err(e) => return Err(e),
        };
        match self.expect(Tok::Semi) {
            Ok(()) => Ok(Some(x)),
            Err(e) => Err(e),
        }
    }

    fn for_step(&mut self) -> (r: Result<Option<Box<Stmt>>, String>)
        requires
            old(self).wf(),
            !old(self).no_struct,
        ensures
            agrees(opt_stmt_r(r), grammar::for_step(old(self)@, old(self).depth as int), *old(self), *final(self)),
        decreases 201 - old(self).depth, 11int, 0int,
    {
        if self.eat(Tok::RParen) {
            return Ok(None);
        }
        let s = match self.simple_stmt() {
            Ok(x) => x,
            Err(e) => return Err(e),
        };
        match self.expect(Tok::RParen) {
            Ok(()) => Ok(Some(Box::new(s))),
            Err(e) => Err(e),
        }
    }

    fn for_stmt(&mut self) -> (r: Result<Stmt, String>)
        requires
            old(self).wf(),
            !old(self).no_struct,
        ensures
            agrees(stmt_r(r), grammar::for_stmt(old(self)@, old(self).depth as int), *old(self), *final(self)),
            r is Ok ==> old(self).pos < final(self).pos,
        decreases 201 - old(self).depth, 12int, 0int,
    {
        match self.expect(Tok::For) {
            Ok(()) => {},
            Err(e) => return Err(e),
        }
        match self.expect(Tok::LParen) {
            Ok(()) => {},
            Err(e) => return Err(e),
        }
        let init = match self.for_init() {
            Ok(x) => x,
            Err(e) => return Err(e),
        };
        let cond = match self.for_cond() {
            Ok(x) => x,
            Err(e) => return Err(e),
        };
        let step = match self.for_step() {
            Ok(x) => x,
            Err(e) => return Err(e),
        };
        match self.block() {
            Ok(body) => Ok(Stmt::For { init, cond, step, body }),
            Err(e) => Err(e),
        }
    }

    // -- Expressions --------------------------------------------------------

    fn expr(&mut self) -> (r: Result<Expr, String>)
        requires
            old(self).wf(),
        ensures
            agrees(expr_r(r), grammar::expr(old(self)@, old(self).depth as int, old(self).no_struct), *old(self), *final(self)),
        decreases 201 - old(self).depth, 0int, 0int,
    {
        if self.depth + 1 > MAX_DEPTH {
            return Err(self.too_deep());
        }
        self.depth = self.depth + 1;
        match self.binary_expr(0) {
            Ok(x) => {
                self.depth = self.depth - 1;
                Ok(x)
            },
            Err(e) => Err(e),
        }
    }

    /// Operands joined by the binary operators of one precedence level.
    fn binary_expr(&mut self, level: u8) -> (r: Result<Expr, String>)
        requires
            old(self).wf(),
            level <= 10,
        ensures
            agrees(
                expr_r(r),
                grammar::binary(old(self)@, old(self).depth as int, old(self).no_struct, level as int),
                *old(self),
                *final(self),
            ),
        decreases 201 - old(self).depth, 40 - 2 * level, 0int,
    {
        if level >= 10 {
            return self.cast_expr();
        }
        let mut lhs = match self.binary_expr(level + 1) {
            Ok(x) => x,
            Err(e) => return Err(e),
        };
        loop
            invariant
                self.follows(*old(self)),
                old(self).wf(),
                level < 10,
                grammar::binary(old(self)@, old(self).depth as int, old(self).no_struct, level as int)
                    == grammar::binary_rest(
                    self@,
                    old(self).depth as int,
                    old(self).no_struct,
                    level as int,
                    lhs@,
                ),
            decreases self.toks@.len() - self.pos,
        {
            match binary_op(level, self.peek()) {
                None => return Ok(lhs),
                Some(op) => {
                    let line: u32 = self.line();
                    self.next();
                    let rhs = match self.binary_expr(level + 1) {
                        Ok(x) => x,
                        Err(e) => return Err(e),
                    };
                    lhs = Expr::new(ExprKind::Binary(op, Box::new(lhs), Box::new(rhs)), line);
                },
            }
        }
    }

    fn cast_expr(&mut self) -> (r: Result<Expr, String>)
        requires
            old(self).wf(),
        ensures
            agrees(expr_r(r), grammar::cast(old(self)@, old(self).depth as int, old(self).no_struct), *old(self), *final(self)),
        decreases 201 - old(self).depth, 19int, 0int,
    {
        let mut x = match self.unary_expr() {
            Ok(x) => x,
            Err(e) => return Err(e),
        };
        while self.at(Tok::As)
            invariant
                self.follows(*old(self)),
                old(self).wf(),
                grammar::cast(old(self)@, old(self).depth as int, old(self).no_struct)
                    == grammar::cast_rest(self@, old(self).depth as int, x@),
            decreases self.toks@.len() - self.pos,
        {
            let line: u32 = self.line();
            self.next();
            let ty = match self.type_expr() {
                Ok(t) => t,
                Err(e) => return Err(e),
            };
            x = Expr::new(ExprKind::Cast(Box::new(x), ty), line);
        }
        Ok(x)
    }

    fn unary_expr(&mut self) -> (r: Result<Expr, String>)
        requires
            old(self).wf(),
        ensures
            agrees(expr_r(r), grammar::unary(old(self)@, old(self).depth as int, old(self).no_struct), *old(self), *final(self)),
        decreases 201 - old(self).depth, 0int, 0int,
    {
        if self.depth + 1 > MAX_DEPTH {
            return Err(self.too_deep());
        }
        self.depth = self.depth + 1;
        match self.unary_expr_inner() {
            Ok(x) => {
                self.depth = self.depth - 1;
                Ok(x)
            },
            Err(e) => Err(e),
        }
    }

    fn unary_expr_inner(&mut self) -> (r: Result<Expr, String>)
        requires
            old(self).wf(),
        ensures
            agrees(expr_r(r), grammar::unary_inner(old(self)@, old(self).depth as int, old(self).no_struct), *old(self), *final(self)),
        decreases 201 - old(self).depth, 17int, 0int,
    {
        let line: u32 = self.line();
        match prefix_op(self.peek()) {
            Some(op) => {
                self.next();
                match self.unary_expr() {
                    Ok(x) => Ok(Expr::new(ExprKind::Unary(op, Box::new(x)), line)),
                    Err(e) => Err(e),
                }
            },
            None => self.postfix_expr(),
        }
    }

    fn postfix_expr(&mut self) -> (r: Result<Expr, String>)
        requires
            old(self).wf(),
        ensures
            agrees(expr_r(r), grammar::postfix(old(self)@, old(self).depth as int, old(self).no_struct), *old(self), *final(self)),
        decreases 201 - old(self).depth, 16int, 0int,
    {
        let mut x = match self.primary_expr() {
            Ok(x) => x,
            Err(e) => return Err(e),
        };
        loop
            invariant
                self.follows(*old(self)),
                old(self).wf(),
                grammar::postfix(old(self)@, old(self).depth as int, old(self).no_struct)
                    == grammar::postfix_rest(
                    self@,
                    old(self).depth as int,
                    old(self).no_struct,
                    x@,
                ),
            decreases self.toks@.len() - self.pos,
        {
            let line: u32 = self.line();
            if self.at(Tok::LParen) {
                self.next();
                let args = match self.expr_list(Tok::RParen) {
                    Ok(a) => a,
                    Err(e) => return Err(e),
                };
                match self.expect(Tok::RParen) {
                    Ok(()) => {},
                    Err(e) => return Err(e),
                }
                let inst: Vec<Type> = Vec::new();
                assert(crate::types::types_view(inst@) =~= Seq::empty());
                x = Expr::new(
                    ExprKind::Call { callee: Box::new(x), args, direct: None, inst },
                    line,
                );
            } else if self.at(Tok::Dot) {
                self.next();
                let name = match self.ident() {
                    Ok(n) => n,
                    Err(e) => return Err(e),
                };
                x = match self.member(x, name, line) {
                    Ok(y) => y,
                    Err(e) => return Err(e),
                };
            } else if self.at(Tok::LBracket) {
                self.next();
                let idx = match self.unrestricted() {
                    Ok(i) => i,
                    Err(e) => return Err(e),
                };
                match self.expect(Tok::RBracket) {
                    Ok(()) => {},
                    Err(e) => return Err(e),
                }
                x = Expr::new(ExprKind::Index(Box::new(x), Box::new(idx)), line);
            } else {
                return Ok(x);
            }
        }
    }

    /// The member access or variant literal that `x.name` begins.
    fn member(&mut self, x: Expr, name: String, line: u32) -> (r: Result<Expr, String>)
        requires
            old(self).wf(),
        ensures
            agrees(
                expr_r(r),
                grammar::member(old(self)@, old(self).depth as int, old(self).no_struct, x@, name@, line),
                *old(self),
                *final(self),
            ),
        decreases 201 - old(self).depth, 6int, 0int,
    {
        if self.at(Tok::LBrace) && !self.no_struct && self.literal_ahead() {
            if let ExprKind::Var { name: base, .. } = &x.kind {
                let base = base.clone();
                self.next();
                let fields = match self.inits() {
                    Ok(f) => f,
                    Err(e) => return Err(e),
                };
                return match self.expect(Tok::RBrace) {
                    Ok(()) => Ok(
                        Expr::new(
                            ExprKind::VariantStructLit { enum_name: base, variant: name, fields },
                            line,
                        ),
                    ),
                    Err(e) => Err(e),
                };
            }
        }
        Ok(Expr::new(ExprKind::Field { obj: Box::new(x), name, index: 0 }, line))
    }

    fn expr_list(&mut self, close: Tok) -> (r: Result<Vec<Expr>, String>)
        requires
            old(self).wf(),
            close@ == plain(close),
        ensures
            agrees(
                exprs_r(r),
                grammar::expr_list(old(self)@, old(self).depth as int, close, Seq::empty()),
                *old(self),
                *final(self),
            ),
        decreases 201 - old(self).depth, 5int, 0int,
    {
        let mut out: Vec<Expr> = Vec::new();
        assert(exprs_view(out@) =~= Seq::empty());
        while !same_plain(&self.toks[self.pos].tok, &close)
            invariant
                self.follows(*old(self)),
                old(self).wf(),
                close@ == plain(close),
                grammar::expr_list(old(self)@, old(self).depth as int, close, Seq::empty())
                    == grammar::expr_list(self@, old(self).depth as int, close, exprs_view(out@)),
            decreases self.toks@.len() - self.pos,
        {
            let ghost before = out@;
            match self.unrestricted() {
                Ok(x) => {
                    out.push(x);
                    assert(exprs_view(out@) =~= exprs_view(before).push(x@));
                },
                Err(e) => return Err(e),
            }
            if !self.eat(Tok::Comma) {
                return Ok(out);
            }
        }
        Ok(out)
    }

    fn inits(&mut self) -> (r: Result<Vec<(String, Expr, u32)>, String>)
        requires
            old(self).wf(),
        ensures
            agrees(inits_r(r), grammar::inits(old(self)@, old(self).depth as int, old(self).no_struct, Seq::empty()), *old(self), *final(self)),
        decreases 201 - old(self).depth, 5int, 0int,
    {
        let mut out: Vec<(String, Expr, u32)> = Vec::new();
        assert(inits_view(out@) =~= Seq::empty());
        while !self.at(Tok::RBrace)
            invariant
                self.follows(*old(self)),
                old(self).wf(),
                grammar::inits(old(self)@, old(self).depth as int, old(self).no_struct, Seq::empty())
                    == grammar::inits(
                    self@,
                    old(self).depth as int,
                    old(self).no_struct,
                    inits_view(out@),
                ),
            decreases self.toks@.len() - self.pos,
        {
            let ghost before = out@;
            let fname = match self.ident() {
                Ok(n) => n,
                Err(e) => return Err(e),
            };
            match self.expect(Tok::Colon) {
                Ok(()) => {},
                Err(e) => return Err(e),
            }
            let value = match self.expr() {
                Ok(x) => x,
                Err(e) => return Err(e),
            };
            let ghost item = (fname@, value@, 0u32);
            out.push((fname, value, 0));
            assert(inits_view(out@) =~= inits_view(before).push(item));
            if !self.eat(Tok::Comma) {
                return Ok(out);
            }
        }
        Ok(out)
    }

    fn struct_lit(&mut self, name: String, line: u32) -> (r: Result<Expr, String>)
        requires
            old(self).wf(),
        ensures
            agrees(expr_r(r), grammar::struct_lit(old(self)@, old(self).depth as int, old(self).no_struct, name@, line), *old(self), *final(self)),
        decreases 201 - old(self).depth, 6int, 0int,
    {
        match self.expect(Tok::LBrace) {
            Ok(()) => {},
            Err(e) => return Err(e),
        }
        let fields = match self.inits() {
            Ok(x) => x,
            Err(e) => return Err(e),
        };
        match self.expect(Tok::RBrace) {
            Ok(()) => Ok(Expr::new(ExprKind::StructLit { name, fields, struct_id: 0 }, line)),
            Err(e) => Err(e),
        }
    }

    fn lambda(&mut self, line: u32) -> (r: Result<Expr, String>)
        requires
            old(self).wf(),
        ensures
            agrees(expr_r(r), grammar::lambda(old(self)@, old(self).depth as int, line), *old(self), *final(self)),
        decreases 201 - old(self).depth, 13int, 0int,
    {
        let params = match self.params() {
            Ok(x) => x,
            Err(e) => return Err(e),
        };
        let ret = match self.ret_type() {
            Ok(x) => x,
            Err(e) => return Err(e),
        };
        match self.fn_body(ret.is_some()) {
            Ok(body) => {
                let captures: Vec<crate::ast::Capture> = Vec::new();
                assert(crate::ast::captures_view(captures@) =~= Seq::empty());
                Ok(
                    Expr::new(
                        ExprKind::Lambda(
                            Box::new(
                                LambdaDef {
                                    params,
                                    ret,
                                    body,
                                    line,
                                    id: 0,
                                    num_locals: 0,
                                    captures,
                                },
                            ),
                        ),
                        line,
                    ),
                )
            },
            Err(e) => Err(e),
        }
    }

    fn primary_expr(&mut self) -> (r: Result<Expr, String>)
        requires
            old(self).wf(),
        ensures
            agrees(expr_r(r), grammar::primary(old(self)@, old(self).depth as int, old(self).no_struct), *old(self), *final(self)),
        decreases 201 - old(self).depth, 14int, 0int,
    {
        let line: u32 = self.line();
        if let Some(kind) = literal(self.peek()) {
            self.next();
            return Ok(Expr::new(kind, line));
        }
        if let Some(name) = token_name(self.peek()) {
            self.next();
            if self.at(Tok::LBrace) && !self.no_struct && self.literal_ahead() {
                return self.struct_lit(name, line);
            }
            return Ok(Expr::new(ExprKind::Var { name, res: None }, line));
        }
        if self.at(Tok::If) {
            self.if_expr()
        } else if self.at(Tok::Match) {
            self.match_expr()
        } else if self.at(Tok::LParen) {
            self.next();
            let x = match self.unrestricted() {
                Ok(x) => x,
                Err(e) => return Err(e),
            };
            match self.expect(Tok::RParen) {
                Ok(()) => Ok(x),
                Err(e) => Err(e),
            }
        } else if self.at(Tok::LBracket) {
            self.next();
            let elems = match self.expr_list(Tok::RBracket) {
                Ok(x) => x,
                Err(e) => return Err(e),
            };
            match self.expect(Tok::RBracket) {
                Ok(()) => Ok(Expr::new(ExprKind::ArrayLit(elems), line)),
                Err(e) => Err(e),
            }
        } else if self.at(Tok::Fn) {
            self.next();
            self.lambda(line)
        } else {
            Err(self.err("expected an expression"))
        }
    }

    fn if_expr(&mut self) -> (r: Result<Expr, String>)
        requires
            old(self).wf(),
        ensures
            agrees(expr_r(r), grammar::if_expr(old(self)@, old(self).depth as int), *old(self), *final(self)),
        decreases 201 - old(self).depth, 0int, 0int,
    {
        if self.depth + 1 > MAX_DEPTH {
            return Err(self.too_deep());
        }
        self.depth = self.depth + 1;
        match self.if_expr_inner() {
            Ok(x) => {
                self.depth = self.depth - 1;
                Ok(x)
            },
            Err(e) => Err(e),
        }
    }

    fn branch(&mut self) -> (r: Result<Expr, String>)
        requires
            old(self).wf(),
        ensures
            agrees(expr_r(r), grammar::branch(old(self)@, old(self).depth as int), *old(self), *final(self)),
        decreases 201 - old(self).depth, 2int, 0int,
    {
        match self.expect(Tok::LBrace) {
            Ok(()) => {},
            Err(e) => return Err(e),
        }
        let x = match self.unrestricted() {
            Ok(x) => x,
            Err(e) => return Err(e),
        };
        match self.expect(Tok::RBrace) {
            Ok(()) => Ok(x),
            Err(e) => Err(e),
        }
    }

    fn if_expr_inner(&mut self) -> (r: Result<Expr, String>)
        requires
            old(self).wf(),
        ensures
            agrees(expr_r(r), grammar::if_expr_inner(old(self)@, old(self).depth as int), *old(self), *final(self)),
        decreases 201 - old(self).depth, 13int, 0int,
    {
        let line: u32 = self.line();
        match self.expect(Tok::If) {
            Ok(()) => {},
            Err(e) => return Err(e),
        }
        let cond = match self.cond() {
            Ok(x) => x,
            Err(e) => return Err(e),
        };
        let then = match self.branch() {
            Ok(x) => x,
            Err(e) => return Err(e),
        };
        match self.expect(Tok::Else) {
            Ok(()) => {},
            Err(e) => return Err(e),
        }
        let els = if self.at(Tok::If) {
            match self.if_expr() {
                Ok(x) => x,
                Err(e) => return Err(e),
            }
        } else {
            match self.branch() {
                Ok(x) => x,
                Err(e) => return Err(e),
            }
        };
        Ok(
            Expr::new(
                ExprKind::If { cond: Box::new(cond), then: Box::new(then), els: Box::new(els) },
                line,
            ),
        )
    }

    fn match_expr(&mut self) -> (r: Result<Expr, String>)
        requires
            old(self).wf(),
        ensures
            agrees(expr_r(r), grammar::match_expr(old(self)@, old(self).depth as int), *old(self), *final(self)),
        decreases 201 - old(self).depth, 0int, 0int,
    {
        if self.depth + 1 > MAX_DEPTH {
            return Err(self.too_deep());
        }
        self.depth = self.depth + 1;
        match self.match_expr_inner() {
            Ok(x) => {
                self.depth = self.depth - 1;
                Ok(x)
            },
            Err(e) => Err(e),
        }
    }

    fn match_expr_inner(&mut self) -> (r: Result<Expr, String>)
        requires
            old(self).wf(),
        ensures
            agrees(expr_r(r), grammar::match_expr_inner(old(self)@, old(self).depth as int), *old(self), *final(self)),
        decreases 201 - old(self).depth, 13int, 0int,
    {
        let line: u32 = self.line();
        match self.expect(Tok::Match) {
            Ok(()) => {},
            Err(e) => return Err(e),
        }
        let scrutinee = match self.cond() {
            Ok(x) => x,
            Err(e) => return Err(e),
        };
        match self.expect(Tok::LBrace) {
            Ok(()) => {},
            Err(e) => return Err(e),
        }
        let arms = match self.expr_arms() {
            Ok(x) => x,
            Err(e) => return Err(e),
        };
        match self.expect(Tok::RBrace) {
            Ok(()) => Ok(
                Expr::new(ExprKind::Match { scrutinee: Box::new(scrutinee), arms }, line),
            ),
            Err(e) => Err(e),
        }
    }

    fn expr_arms(&mut self) -> (r: Result<Vec<(Pattern, Expr)>, String>)
        requires
            old(self).wf(),
        ensures
            agrees(expr_arms_r(r), grammar::expr_arms(old(self)@, old(self).depth as int, Seq::empty()), *old(self), *final(self)),
        decreases 201 - old(self).depth, 6int, 0int,
    {
        let mut arms: Vec<(Pattern, Expr)> = Vec::new();
        assert(expr_arms_view(arms@) =~= Seq::empty());
        while !self.at(Tok::RBrace)
            invariant
                self.follows(*old(self)),
                old(self).wf(),
                grammar::expr_arms(old(self)@, old(self).depth as int, Seq::empty())
                    == grammar::expr_arms(self@, old(self).depth as int, expr_arms_view(arms@)),
            decreases self.toks@.len() - self.pos,
        {
            let ghost before = arms@;
            let pat = match self.pattern() {
                Ok(x) => x,
                Err(e) => return Err(e),
            };
            match self.expect(Tok::FatArrow) {
                Ok(()) => {},
                Err(e) => return Err(e),
            }
            let body = match self.unrestricted() {
                Ok(x) => x,
                Err(e) => return Err(e),
            };
            let ghost arm = (pat@, body@);
            arms.push((pat, body));
            assert(expr_arms_view(arms@) =~= expr_arms_view(before).push(arm));
            if !self.eat(Tok::Comma) {
                return Ok(arms);
            }
        }
        Ok(arms)
    }

    // -- Declarations -------------------------------------------------------

    fn type_params(&mut self) -> (r: Result<Vec<String>, String>)
        requires
            old(self).wf(),
        ensures
            agrees(names_r(r), grammar::type_params(old(self)@), *old(self), *final(self)),
    {
        reveal(grammar::type_params);
        let mut out: Vec<String> = Vec::new();
        assert(names_view(out@) =~= Seq::empty());
        if !self.eat(Tok::Lt) {
            return Ok(out);
        }
        let ghost start = self@;
        loop
            invariant_except_break
                self.follows(*old(self)),
                old(self)@.at(Tok::Lt),
                start == old(self)@.bump(),
                grammar::names(start, Seq::empty()) == grammar::names(self@, names_view(out@)),
            ensures
                self.follows(*old(self)),
                grammar::names(start, Seq::empty()) == Ok::<(Seq<Seq<char>>, Cur), Seq<char>>(
                    (names_view(out@), self@),
                ),
            decreases self.toks@.len() - self.pos,
        {
            let ghost before = out@;
            reveal(grammar::type_params);
            match self.ident() {
                Ok(name) => {
                    out.push(name);
                    assert(names_view(out@) =~= names_view(before).push(name@));
                },
                Err(e) => return Err(e),
            }
            if !self.eat(Tok::Comma) {
                break ;
            }
        }
        match self.expect_gt() {
            Ok(()) => Ok(out),
            Err(e) => Err(e),
        }
    }

    fn struct_def(&mut self) -> (r: Result<StructDef, String>)
        requires
            old(self).wf(),
            old(self).depth == 0,
        ensures
            agrees(struct_r(r), grammar::struct_def(old(self)@), *old(self), *final(self)),
            r is Ok ==> old(self).pos < final(self).pos,
    {
        reveal(grammar::struct_def);
        let line: u32 = self.line();
        match self.expect(Tok::Struct) {
            Ok(()) => {},
            Err(e) => return Err(e),
        }
        let name = match self.ident() {
            Ok(x) => x,
            Err(e) => return Err(e),
        };
        let type_params = match self.type_params() {
            Ok(x) => x,
            Err(e) => return Err(e),
        };
        match self.expect(Tok::LBrace) {
            Ok(()) => {},
            Err(e) => return Err(e),
        }
        let fields = match self.typed_names(Tok::RBrace, false) {
            Ok(x) => x,
            Err(e) => return Err(e),
        };
        match self.expect(Tok::RBrace) {
            Ok(()) => Ok(StructDef { name, type_params, fields, line }),
            Err(e) => Err(e),
        }
    }

    fn payload(&mut self) -> (r: Result<VariantPayloadExpr, String>)
        requires
            old(self).wf(),
            old(self).depth == 0,
        ensures
            agrees(payload_r(r), grammar::payload(old(self)@), *old(self), *final(self)),
    {
        reveal(grammar::payload);
        if self.eat(Tok::LParen) {
            let ty = match self.type_expr() {
                Ok(t) => t,
                Err(e) => return Err(e),
            };
            match self.expect(Tok::RParen) {
                Ok(()) => Ok(VariantPayloadExpr::Single(ty)),
                Err(e) => Err(e),
            }
        } else if self.eat(Tok::LBrace) {
            let fields = match self.typed_names(Tok::RBrace, false) {
                Ok(f) => f,
                Err(e) => return Err(e),
            };
            match self.expect(Tok::RBrace) {
                Ok(()) => Ok(VariantPayloadExpr::Fields(fields)),
                Err(e) => Err(e),
            }
        } else {
            Ok(VariantPayloadExpr::Bare)
        }
    }

    fn variants(&mut self) -> (r: Result<Vec<(String, VariantPayloadExpr)>, String>)
        requires
            old(self).wf(),
            old(self).depth == 0,
        ensures
            agrees(payloads_r(r), grammar::variants(old(self)@, Seq::empty()), *old(self), *final(self)),
    {
        let mut out: Vec<(String, VariantPayloadExpr)> = Vec::new();
        assert(payloads_view(out@) =~= Seq::empty());
        while !self.at(Tok::RBrace)
            invariant
                self.follows(*old(self)),
                old(self).depth == 0,
                grammar::variants(old(self)@, Seq::empty()) == grammar::variants(
                    self@,
                    payloads_view(out@),
                ),
            decreases self.toks@.len() - self.pos,
        {
            let ghost before = out@;
            let vname = match self.ident() {
                Ok(n) => n,
                Err(e) => return Err(e),
            };
            let p = match self.payload() {
                Ok(x) => x,
                Err(e) => return Err(e),
            };
            let ghost item = (vname@, p@);
            out.push((vname, p));
            assert(payloads_view(out@) =~= payloads_view(before).push(item));
            if !self.eat(Tok::Comma) {
                return Ok(out);
            }
        }
        Ok(out)
    }

    fn enum_def(&mut self) -> (r: Result<EnumDef, String>)
        requires
            old(self).wf(),
            old(self).depth == 0,
        ensures
            agrees(enum_r(r), grammar::enum_def(old(self)@), *old(self), *final(self)),
            r is Ok ==> old(self).pos < final(self).pos,
    {
        reveal(grammar::enum_def);
        let line: u32 = self.line();
        match self.expect(Tok::Enum) {
            Ok(()) => {},
            Err(e) => return Err(e),
        }
        let name = match self.ident() {
            Ok(x) => x,
            Err(e) => return Err(e),
        };
        let type_params = match self.type_params() {
            Ok(x) => x,
            Err(e) => return Err(e),
        };
        match self.expect(Tok::LBrace) {
            Ok(()) => {},
            Err(e) => return Err(e),
        }
        let variants = match self.variants() {
            Ok(x) => x,
            Err(e) => return Err(e),
        };
        match self.expect(Tok::RBrace) {
            Ok(()) => Ok(EnumDef { name, type_params, variants, line }),
            Err(e) => Err(e),
        }
    }

    fn func_def(&mut self) -> (r: Result<FuncDef, String>)
        requires
            old(self).wf(),
            old(self).depth == 0,
        ensures
            agrees(func_r(r), grammar::func_def(old(self)@), *old(self), *final(self)),
            r is Ok ==> old(self).pos < final(self).pos,
    {
        reveal(grammar::func_def);
        let line: u32 = self.line();
        match self.expect(Tok::Fn) {
            Ok(()) => {},
            Err(e) => return Err(e),
        }
        let name = match self.ident() {
            Ok(x) => x,
            Err(e) => return Err(e),
        };
        let type_params = match self.type_params() {
            Ok(x) => x,
            Err(e) => return Err(e),
        };
        let params = match self.params() {
            Ok(x) => x,
            Err(e) => return Err(e),
        };
        let ret = match self.ret_type() {
            Ok(x) => x,
            Err(e) => return Err(e),
        };
        match self.fn_body(ret.is_some()) {
            Ok(body) => Ok(
                FuncDef {
                    name,
                    type_params,
                    params,
                    ret,
                    body,
                    line,
                    num_locals: 0,
                    is_method: false,
                },
            ),
            Err(e) => Err(e),
        }
    }

    fn receiver(&mut self) -> (r: Result<(), String>)
        requires
            old(self).wf(),
        ensures
            moves(r, grammar::receiver(old(self)@), *old(self), *final(self)),
    {
        if self.eat(Tok::SelfKw) {
            if self.at(Tok::Colon) {
                Err(self.err("'self' takes no type annotation"))
            } else if self.at(Tok::RParen) {
                Ok(())
            } else {
                self.expect(Tok::Comma)
            }
        } else {
            Ok(())
        }
    }

    fn method_params(&mut self) -> (r: Result<(bool, Vec<(String, TypeExpr)>), String>)
        requires
            old(self).wf(),
            old(self).depth == 0,
        ensures
            match r {
                Ok((has_self, ps)) => grammar::method_params(old(self)@) == Ok::<
                    (bool, Seq<(Seq<char>, TypeExprView)>, Cur),
                    Seq<char>,
                >((has_self, params_view(ps@), final(self)@)) && final(self).follows(*old(self)),
                Err(m) => grammar::method_params(old(self)@) == Err::<
                    (bool, Seq<(Seq<char>, TypeExprView)>, Cur),
                    Seq<char>,
                >(m@),
            },
    {
        reveal(grammar::method_params);
        match self.expect(Tok::LParen) {
            Ok(()) => {},
            Err(e) => return Err(e),
        }
        let has_self = self.at(Tok::SelfKw);
        match self.receiver() {
            Ok(()) => {},
            Err(e) => return Err(e),
        }
        let ps = match self.typed_names(Tok::RParen, true) {
            Ok(x) => x,
            Err(e) => return Err(e),
        };
        match self.expect(Tok::RParen) {
            Ok(()) => Ok((has_self, ps)),
            Err(e) => Err(e),
        }
    }

    fn impl_fn(
        &mut self,
        target: &String,
        impl_params: &Vec<String>,
        impl_line: u32,
        id: u32,
    ) -> (r: Result<(FuncDef, MethodDef), String>)
        requires
            old(self).wf(),
            old(self).depth == 0,
        ensures
            match r {
                Ok((f, m)) => grammar::impl_fn(
                    old(self)@,
                    target@,
                    names_view(impl_params@),
                    impl_line,
                    id,
                ) == Ok::<(FuncDefView, MethodDefView, Cur), Seq<char>>((f@, m@, final(self)@))
                    && final(self).follows(*old(self)),
                Err(e) => grammar::impl_fn(
                    old(self)@,
                    target@,
                    names_view(impl_params@),
                    impl_line,
                    id,
                ) == Err::<(FuncDefView, MethodDefView, Cur), Seq<char>>(e@),
            },
            r is Ok ==> old(self).pos < final(self).pos,
    {
        reveal(grammar::impl_fn);
        let line: u32 = self.line();
        self.next();
        let name = match self.ident() {
            Ok(x) => x,
            Err(e) => return Err(e),
        };
        let own = match self.type_params() {
            Ok(x) => x,
            Err(e) => return Err(e),
        };
        let (has_self, ps) = match self.method_params() {
            Ok(x) => x,
            Err(e) => return Err(e),
        };
        let ret = match self.ret_type() {
            Ok(x) => x,
            Err(e) => return Err(e),
        };
        let body = match self.fn_body(ret.is_some()) {
            Ok(b) => b,
            Err(e) => return Err(e),
        };
        let type_params = chain_names(impl_params, &own);
        let params = if has_self {
            with_receiver(target, impl_params, impl_line, ps)
        } else {
            ps
        };
        let m = MethodDef {
            target_name: target.clone(),
            name: name.clone(),
            func: id,
            has_self,
            impl_type_params: impl_params.len() as u32,
            line,
        };
        let f = FuncDef {
            name: cat3(target.as_str(), ".", name.as_str()),
            type_params,
            params,
            ret,
            body,
            line,
            num_locals: 0,
            is_method: true,
        };
        Ok((f, m))
    }

    fn impl_block(&mut self, funcs: &mut Vec<FuncDef>, methods: &mut Vec<MethodDef>) -> (r: Result<
        (),
        String,
    >)
        requires
            old(self).wf(),
            old(self).depth == 0,
        ensures
            match r {
                Ok(()) => grammar::impl_block(
                    old(self)@,
                    func_defs_view(old(funcs)@),
                    method_defs_view(old(methods)@),
                ) == Ok::<(Seq<FuncDefView>, Seq<MethodDefView>, Cur), Seq<char>>(
                    (
                        func_defs_view(final(funcs)@),
                        method_defs_view(final(methods)@),
                        final(self)@,
                    ),
                ) && final(self).follows(*old(self)),
                Err(e) => grammar::impl_block(
                    old(self)@,
                    func_defs_view(old(funcs)@),
                    method_defs_view(old(methods)@),
                ) == Err::<(Seq<FuncDefView>, Seq<MethodDefView>, Cur), Seq<char>>(e@),
            },
            r is Ok ==> old(self).pos < final(self).pos,
    {
        reveal(grammar::impl_block);
        match self.expect(Tok::Impl) {
            Ok(()) => {},
            Err(e) => return Err(e),
        }
        let impl_line: u32 = self.line();
        let target = match self.ident() {
            Ok(x) => x,
            Err(e) => return Err(e),
        };
        let impl_params = match self.type_params() {
            Ok(x) => x,
            Err(e) => return Err(e),
        };
        match self.expect(Tok::LBrace) {
            Ok(()) => {},
            Err(e) => return Err(e),
        }
        let ghost start = self@;
        let ghost fs0 = func_defs_view(funcs@);
        let ghost ms0 = method_defs_view(methods@);
        let ghost tps = names_view(impl_params@);
        while !self.at(Tok::RBrace)
            invariant
                self.follows(*old(self)),
                old(self).depth == 0,
                old(self).pos < self.pos,
                tps == names_view(impl_params@),
                fs0 == func_defs_view(old(funcs)@),
                ms0 == method_defs_view(old(methods)@),
                grammar::impl_block(old(self)@, fs0, ms0) == grammar::impl_items(
                    start,
                    target@,
                    tps,
                    impl_line,
                    fs0,
                    ms0,
                ),
                grammar::impl_items(start, target@, tps, impl_line, fs0, ms0)
                    == grammar::impl_items(
                    self@,
                    target@,
                    tps,
                    impl_line,
                    func_defs_view(funcs@),
                    method_defs_view(methods@),
                ),
            decreases self.toks@.len() - self.pos,
        {
            if self.at(Tok::Eof) {
                return Err(self.err("expected '}'"));
            }
            if !self.at(Tok::Fn) {
                return Err(self.err("expected 'fn' inside an impl block"));
            }
            let id: u32 = funcs.len() as u32;
            let ghost fs = funcs@;
            let ghost ms = methods@;
            match self.impl_fn(&target, &impl_params, impl_line, id) {
                Ok((f, m)) => {
                    funcs.push(f);
                    methods.push(m);
                    assert(func_defs_view(funcs@) =~= func_defs_view(fs).push(f@));
                    assert(method_defs_view(methods@) =~= method_defs_view(ms).push(m@));
                },
                Err(e) => return Err(e),
            }
        }
        self.next();
        Ok(())
    }

    fn program(&mut self) -> (r: Result<Program, String>)
        requires
            old(self).wf(),
            old(self).depth == 0,
            old(self).pos == 0,
        ensures
            match r {
                Ok(p) => grammar::parse_spec(old(self)@.toks) == Ok::<ProgramView, Seq<char>>(p@),
                Err(e) => grammar::parse_spec(old(self)@.toks) == Err::<ProgramView, Seq<char>>(e@),
            },
    {
        let mut p = Program {
            structs: Vec::new(),
            enums: Vec::new(),
            funcs: Vec::new(),
            methods: Vec::new(),
        };
        assert(p@ =~= ProgramView {
            structs: Seq::empty(),
            enums: Seq::empty(),
            funcs: Seq::empty(),
            methods: Seq::empty(),
        });
        while !self.at(Tok::Eof)
            invariant
                self.follows(*old(self)),
                old(self).depth == 0,
                grammar::parse_spec(old(self)@.toks) == grammar::items(self@, p@),
            decreases self.toks@.len() - self.pos,
        {
            let ghost before = p@;
            if self.at(Tok::Struct) {
                match self.struct_def() {
                    Ok(s) => {
                        p.structs.push(s);
                        assert(p@ =~= ProgramView { structs: before.structs.push(s@), ..before });
                    },
                    Err(e) => return Err(e),
                }
            } else if self.at(Tok::Enum) {
                match self.enum_def() {
                    Ok(s) => {
                        p.enums.push(s);
                        assert(p@ =~= ProgramView { enums: before.enums.push(s@), ..before });
                    },
                    Err(e) => return Err(e),
                }
            } else if self.at(Tok::Fn) {
                match self.func_def() {
                    Ok(f) => {
                        p.funcs.push(f);
                        assert(p@ =~= ProgramView { funcs: before.funcs.push(f@), ..before });
                    },
                    Err(e) => return Err(e),
                }
            } else if self.at(Tok::Impl) {
                match self.impl_block(&mut p.funcs, &mut p.methods) {
                    Ok(()) => {},
                    Err(e) => return Err(e),
                }
            } else {
                return Err(self.err("expected 'fn', 'struct', 'enum', or 'impl' at top level"));
            }
        }
        Ok(p)
    }
}

/// One list of names after another.
fn chain_names(a: &Vec<String>, b: &Vec<String>) -> (r: Vec<String>)
    ensures
        names_view(r@) == names_view(a@) + names_view(b@),
{
    let mut out = clone_names(a);
    let mut i: usize = 0;
    while i < b.len()
        invariant
            i <= b.len(),
            names_view(out@) == names_view(a@) + names_view(b@).take(i as int),
        decreases b.len() - i,
    {
        let ghost before = out@;
        out.push(b[i].clone());
        assert(names_view(out@) =~= names_view(before).push(b@[i as int]@));
        assert(names_view(b@).take(i + 1) =~= names_view(b@).take(i as int).push(b@[i as int]@));
        i += 1;
    }
    assert(names_view(b@).take(i as int) =~= names_view(b@));
    out
}

/// Parameters with the `self` receiver in front. The receiver is an ordinary
/// first parameter of the impl type, so the checker resolves it like any
/// other.
fn with_receiver(
    target: &String,
    impl_params: &Vec<String>,
    impl_line: u32,
    ps: Vec<(String, TypeExpr)>,
) -> (r: Vec<(String, TypeExpr)>)
    ensures
        params_view(r@) == seq![
            ("self"@, grammar::self_type(target@, names_view(impl_params@), impl_line)),
        ] + params_view(ps@),
{
    let mut targs: Vec<TypeExpr> = Vec::new();
    let mut i: usize = 0;
    while i < impl_params.len()
        invariant
            i <= impl_params.len(),
            targs@.len() == i,
            forall|j: int|
                0 <= j < i ==> (#[trigger] targs@[j])@ == TypeExprView::Named(
                    impl_params@[j]@,
                    Seq::empty(),
                    impl_line,
                ),
        decreases impl_params.len() - i,
    {
        let none: Vec<TypeExpr> = Vec::new();
        assert(type_exprs_view(none@) =~= Seq::empty());
        targs.push(TypeExpr::Named(impl_params[i].clone(), none, impl_line));
        i += 1;
    }
    let ty = TypeExpr::Named(target.clone(), targs, impl_line);
    assert(type_exprs_view(targs@) =~= Seq::new(
        names_view(impl_params@).len(),
        |j: int| TypeExprView::Named(names_view(impl_params@)[j], Seq::empty(), impl_line),
    ));
    let ghost given = ps@;
    let mut out = ps;
    out.insert(0, (owned("self"), ty));
    assert(params_view(out@) =~= seq![
        ("self"@, grammar::self_type(target@, names_view(impl_params@), impl_line)),
    ] + params_view(given));
    out
}

} // verus!
