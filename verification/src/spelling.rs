//! Trees written as tokens, and read back: what the parser makes of a tree's
//! tokens is the tree.
use vstd::prelude::*;

use crate::ast::{
    BinOp, BlockView, ExprKindView, ExprView, FuncDefView, ProgramView, StmtView, TypeExprView,
    UnOp,
};
use crate::grammar::{
    assign_op, assignable, binary, block, block_stmts, body_stmts, branch, cast_rest, expr,
    expr_list, fn_body, for_cond, for_init, for_step, for_stmt, func_def, if_expr, if_expr_inner,
    if_stmt, items, let_stmt, operator_at, params, parse_spec, plain, postfix, postfix_rest,
    primary, ret_type, return_stmt, simple_stmt, starts_stmt, stmt, stmt_inner, type_expr,
    type_inner, type_params, typed_names, unary, unary_inner, unary_op, while_stmt, Cur, MAX_DEPTH,
};
use crate::lexer::{Tok, TokView, TokenView};
use crate::precedence::{
    ahead, ends_operand, is_operator, joined, leaf, lemma_leaf, lemma_looser, lemma_member,
    lemma_no_operator, lemma_pair, listed, operand, reads, Row,
};
use crate::types::TypeView;

verus! {

// -- Tokens in a row --------------------------------------------------------

/// The token `i` places ahead.
pub open spec fn tok_at(c: Cur, i: int) -> TokenView {
    c.toks[c.pos + i]
}

/// Are these the next tokens, all on one line, with another one behind them?
pub open spec fn spelled(c: Cur, w: Seq<TokView>, line: u32) -> bool {
    &&& 0 <= c.pos
    &&& c.pos + w.len() < c.toks.len()
    &&& forall|i: int|
        0 <= i < w.len() ==> (#[trigger] tok_at(c, i)).tok == w[i] && tok_at(c, i).line == line
}

proof fn lemma_split(c: Cur, a: Seq<TokView>, b: Seq<TokView>, line: u32)
    requires
        spelled(c, a + b, line),
    ensures
        spelled(c, a, line),
        spelled(ahead(c, a.len() as int), b, line),
        ahead(ahead(c, a.len() as int), b.len() as int) == ahead(c, (a + b).len() as int),
{
    let w = a + b;
    assert forall|i: int| 0 <= i < a.len() implies (#[trigger] tok_at(c, i)).tok == a[i] && tok_at(
        c,
        i,
    ).line == line by {
        assert(w[i] == a[i]);
    }
    let c1 = ahead(c, a.len() as int);
    assert forall|i: int| 0 <= i < b.len() implies (#[trigger] tok_at(c1, i)).tok == b[i] && tok_at(
        c1,
        i,
    ).line == line by {
        assert(tok_at(c1, i) == tok_at(c, a.len() + i));
        assert(w[a.len() + i] == b[i]);
    }
}

/// The first token, and what follows it.
proof fn lemma_next(c: Cur, t: TokView, b: Seq<TokView>, line: u32)
    requires
        spelled(c, seq![t] + b, line),
    ensures
        c.peek() == t,
        c.line() == line,
        c.bump() == ahead(c, 1),
        spelled(ahead(c, 1), b, line),
        c.toks[c.pos].tok == t && c.toks[c.pos].line == line,
        ahead(ahead(c, 1), b.len() as int) == ahead(c, 1 + b.len() as int),
{
    lemma_split(c, seq![t], b, line);
    assert(tok_at(c, 0) == c.toks[c.pos]);
}

/// A single token.
proof fn lemma_one(c: Cur, t: TokView, line: u32)
    requires
        spelled(c, seq![t], line),
    ensures
        c.peek() == t,
        c.line() == line,
        c.bump() == ahead(c, 1),
        c.toks[c.pos].tok == t && c.toks[c.pos].line == line,
{
    assert(tok_at(c, 0) == c.toks[c.pos]);
}

// -- Expressions as tokens --------------------------------------------------

pub open spec fn prefix_token(op: UnOp) -> Tok {
    match op {
        UnOp::Neg => Tok::Minus,
        UnOp::Not => Tok::Not,
        UnOp::BitNot => Tok::Tilde,
    }
}

pub open spec fn operator_token(op: BinOp) -> (Tok, Row) {
    match op {
        BinOp::Or => (Tok::OrOr, Row::Or),
        BinOp::And => (Tok::AndAnd, Row::And),
        BinOp::Eq => (Tok::Eq, Row::Equality),
        BinOp::Ne => (Tok::Ne, Row::Equality),
        BinOp::Lt => (Tok::Lt, Row::Comparison),
        BinOp::Le => (Tok::Le, Row::Comparison),
        BinOp::Gt => (Tok::Gt, Row::Comparison),
        BinOp::Ge => (Tok::Ge, Row::Comparison),
        BinOp::BitOr => (Tok::Pipe, Row::BitOr),
        BinOp::BitXor => (Tok::Caret, Row::BitXor),
        BinOp::BitAnd => (Tok::Amp, Row::BitAnd),
        BinOp::Shl => (Tok::Shl, Row::Shift),
        BinOp::Shr => (Tok::Shr, Row::Shift),
        BinOp::Add => (Tok::Plus, Row::Sum),
        BinOp::Sub => (Tok::Minus, Row::Sum),
        BinOp::Mul => (Tok::Star, Row::Product),
        BinOp::Div => (Tok::Slash, Row::Product),
        BinOp::Rem => (Tok::Percent, Row::Product),
    }
}

/// The tokens of an expression, with its operands in parentheses and a comma
/// behind each element or argument.
pub open spec fn expr_tokens(e: ExprView) -> Seq<TokView>
    decreases e, 1nat, 0nat,
{
    match e.kind {
        ExprKindView::Int(v) => seq![plain(Tok::Int(v))],
        ExprKindView::Byte(v) => seq![plain(Tok::Byte(v))],
        ExprKindView::Float(t) => seq![TokView::Float(t)],
        ExprKindView::Bool(b) => seq![
            plain(
                if b {
                    Tok::True
                } else {
                    Tok::False
                },
            ),
        ],
        ExprKindView::Str(t) => seq![TokView::Str(t)],
        ExprKindView::Var { name, .. } => seq![TokView::Ident(name)],
        ExprKindView::Unary(op, a) => seq![plain(prefix_token(op))] + held(*a),
        ExprKindView::Binary(op, a, b) => held(*a) + (seq![plain(operator_token(op).0)] + held(*b)),
        ExprKindView::Cast(a, te) => held(*a) + (seq![plain(Tok::As)] + type_tokens(te)),
        ExprKindView::Field { obj, name, .. } => held(*obj) + (seq![plain(Tok::Dot)] + seq![
            TokView::Ident(name),
        ]),
        ExprKindView::Index(a, b) => held(*a) + (seq![plain(Tok::LBracket)] + (expr_tokens(*b)
            + seq![plain(Tok::RBracket)])),
        ExprKindView::Call { callee, args, .. } => held(*callee) + (seq![plain(Tok::LParen)] + (
        list_tokens(args, 0) + seq![plain(Tok::RParen)])),
        ExprKindView::ArrayLit(es) => seq![plain(Tok::LBracket)] + (list_tokens(es, 0) + seq![
            plain(Tok::RBracket),
        ]),
        ExprKindView::If { cond, then, els } => seq![plain(Tok::If)] + (held(*cond) + (
        branch_tokens(*then) + (seq![plain(Tok::Else)] + branch_tokens(*els)))),
        _ => Seq::empty(),
    }
}

/// An expression in parentheses.
pub open spec fn held(e: ExprView) -> Seq<TokView>
    decreases e, 2nat, 0nat,
{
    seq![plain(Tok::LParen)] + (expr_tokens(e) + seq![plain(Tok::RParen)])
}

/// An expression in braces.
pub open spec fn branch_tokens(e: ExprView) -> Seq<TokView>
    decreases e, 2nat, 0nat,
{
    seq![plain(Tok::LBrace)] + (expr_tokens(e) + seq![plain(Tok::RBrace)])
}

pub open spec fn list_tokens(es: Seq<ExprView>, i: nat) -> Seq<TokView>
    decreases es, 0nat, es.len() - i,
{
    if i >= es.len() {
        Seq::empty()
    } else {
        expr_tokens(es[i as int]) + (seq![plain(Tok::Comma)] + list_tokens(es, i + 1))
    }
}

/// The tokens of a type that is a name.
pub open spec fn type_tokens(te: TypeExprView) -> Seq<TokView> {
    match te {
        TypeExprView::Named(name, _, _) => seq![TokView::Ident(name)],
        _ => Seq::empty(),
    }
}

pub open spec fn plain_type(te: TypeExprView, line: u32) -> bool {
    te matches TypeExprView::Named(name, args, l) && args.len() == 0 && l == line
}

/// Is this a tree as the parser makes them on one line, of these kinds, and not
/// nested too deeply to be read at depth `d`?
pub open spec fn readable(e: ExprView, d: int, line: u32) -> bool
    decreases e, 1nat, 0nat,
{
    &&& e.line == line && e.ty is Unknown
    &&& d + 3 <= MAX_DEPTH
    &&& match e.kind {
        ExprKindView::Int(_) => true,
        ExprKindView::Byte(_) => true,
        ExprKindView::Float(_) => true,
        ExprKindView::Bool(_) => true,
        ExprKindView::Str(_) => true,
        ExprKindView::Var { res, .. } => res is None,
        ExprKindView::Unary(_, a) => readable(*a, d + 3, line),
        ExprKindView::Binary(_, a, b) => readable(*a, d + 2, line) && readable(*b, d + 2, line),
        ExprKindView::Cast(a, te) => readable(*a, d + 2, line) && plain_type(te, line),
        ExprKindView::Field { obj, index, .. } => readable(*obj, d + 2, line) && index == 0,
        ExprKindView::Index(a, b) => readable(*a, d + 2, line) && readable(*b, d + 2, line),
        ExprKindView::Call { callee, args, direct, inst } => {
            &&& readable(*callee, d + 2, line)
            &&& all_readable(args, d + 2, line)
            &&& direct is None
            &&& inst == Seq::<TypeView>::empty()
        },
        ExprKindView::ArrayLit(es) => all_readable(es, d + 2, line),
        ExprKindView::If { cond, then, els } => {
            &&& readable(*cond, d + 5, line)
            &&& readable(*then, d + 3, line)
            &&& readable(*els, d + 3, line)
        },
        _ => false,
    }
}

pub open spec fn all_readable(es: Seq<ExprView>, d: int, line: u32) -> bool
    decreases es, 0nat, 0nat,
{
    forall|i: int| 0 <= i < es.len() ==> readable(#[trigger] es[i], d, line)
}

/// Does the token continue no expression?
pub open spec fn stops(t: TokView) -> bool {
    ends_operand(t) && !is_operator(t)
}

// -- Reading them back ------------------------------------------------------

/// An expression in parentheses is read as an operand.
proof fn read_held(e: ExprView, c: Cur, d: int, ns: bool, line: u32)
    requires
        readable(e, d, line),
        spelled(c, held(e), line),
    ensures
        primary(c, d, ns) == Ok::<(ExprView, Cur), Seq<char>>((e, ahead(c, held(e).len() as int))),
    decreases e, 2nat, 0nat,
{
    let w = expr_tokens(e);
    let n = w.len() as int;
    lemma_next(c, plain(Tok::LParen), w + seq![plain(Tok::RParen)], line);
    let c1 = ahead(c, 1);
    lemma_split(c1, w, seq![plain(Tok::RParen)], line);
    let c2 = ahead(c1, n);
    lemma_one(c2, plain(Tok::RParen), line);
    assert(tok_at(c1, n) == c2.toks[c2.pos]);
    lemma_closers();
    read_expr(e, c1, d, false, line);
    assert(c2.expect(Tok::RParen) == Ok::<Cur, Seq<char>>(ahead(c2, 1)));
    assert(ahead(c2, 1) == ahead(c, held(e).len() as int));
}

proof fn lemma_closers()
    ensures
        stops(plain(Tok::RParen)),
        stops(plain(Tok::RBracket)),
        stops(plain(Tok::RBrace)),
        stops(plain(Tok::Comma)),
        stops(plain(Tok::Semi)),
        stops(plain(Tok::Assign)),
        forall|op: BinOp| stops(#[trigger] plain(Tok::OpAssign(op))),
{
}

/// An operand that is followed by no call, member or index is what stands at the
/// postfix level too, and an expression where nothing continues it.
proof fn lemma_up(c: Cur, d: int, ns: bool, x: ExprView, c1: Cur)
    requires
        postfix(c, d + 2, ns) == Ok::<(ExprView, Cur), Seq<char>>((x, c1)),
        unary_op(c.peek()) is None,
        d + 2 <= MAX_DEPTH,
        stops(c1.peek()),
    ensures
        expr(c, d, ns) == Ok::<(ExprView, Cur), Seq<char>>((x, c1)),
{
    assert(unary_inner(c, d + 2, ns) == Ok::<(ExprView, Cur), Seq<char>>((x, c1)));
    assert(unary(c, d + 1, ns) == Ok::<(ExprView, Cur), Seq<char>>((x, c1)));
    lemma_whole(c, d, ns, x, c1);
}

proof fn lemma_whole(c: Cur, d: int, ns: bool, x: ExprView, c1: Cur)
    requires
        unary(c, d + 1, ns) == Ok::<(ExprView, Cur), Seq<char>>((x, c1)),
        d + 2 <= MAX_DEPTH,
        stops(c1.peek()),
    ensures
        expr(c, d, ns) == Ok::<(ExprView, Cur), Seq<char>>((x, c1)),
{
    assert(cast_rest(c1, d + 1, x) == Ok::<(ExprView, Cur), Seq<char>>((x, c1)));
    assert(binary(c, d + 1, ns, 10) == Ok::<(ExprView, Cur), Seq<char>>((x, c1)));
    lemma_no_operator(c1.peek());
    lemma_looser(c, d + 1, ns, 10, 0, x, c1);
}

/// The elements or arguments from `i` on, up to what closes them.
proof fn read_list(
    es: Seq<ExprView>,
    i: nat,
    c: Cur,
    d: int,
    close: Tok,
    acc: Seq<ExprView>,
    line: u32,
)
    requires
        all_readable(es, d, line),
        i <= es.len(),
        acc == es.take(i as int),
        close is RParen || close is RBracket,
        spelled(c, list_tokens(es, i) + seq![plain(close)], line),
    ensures
        expr_list(c, d, close, acc) == Ok::<(Seq<ExprView>, Cur), Seq<char>>(
            (es, ahead(c, list_tokens(es, i).len() as int)),
        ),
    decreases es, 0nat, es.len() - i,
{
    lemma_closers();
    if i >= es.len() {
        assert(list_tokens(es, i) + seq![plain(close)] =~= seq![plain(close)]);
        lemma_one(c, plain(close), line);
        assert(acc =~= es);
        assert(ahead(c, 0) == c);
    } else {
        let e = es[i as int];
        let w = expr_tokens(e);
        let rest = list_tokens(es, i + 1);
        let tail = seq![plain(Tok::Comma)] + (rest + seq![plain(close)]);
        assert(list_tokens(es, i) + seq![plain(close)] =~= w + tail);
        lemma_split(c, w, tail, line);
        let c1 = ahead(c, w.len() as int);
        lemma_next(c1, plain(Tok::Comma), rest + seq![plain(close)], line);
        assert(tok_at(c, w.len() as int) == c1.toks[c1.pos]);
        read_expr(e, c, d, false, line);
        lemma_starts(e, d, c, line);
        let c2 = ahead(c1, 1);
        assert(acc.push(e) =~= es.take(i as int + 1));
        read_list(es, i + 1, c2, d, close, acc.push(e), line);
        assert(ahead(c2, rest.len() as int) == ahead(c, list_tokens(es, i).len() as int));
        assert(!c.at(close));
        assert(c.before(c2));
    }
}

/// What an expression begins with closes nothing.
proof fn lemma_starts(e: ExprView, d: int, c: Cur, line: u32)
    requires
        readable(e, d, line),
        spelled(c, expr_tokens(e), line),
    ensures
        expr_tokens(e).len() > 0,
        expr_starts(c.peek()),
        c.at(Tok::If) == (e.kind is If),
{
    let w = expr_tokens(e);
    match e.kind {
        ExprKindView::Binary(_, a, _) => assert(held(*a)[0] == plain(Tok::LParen)),
        ExprKindView::Cast(a, _) => assert(held(*a)[0] == plain(Tok::LParen)),
        ExprKindView::Field { obj, .. } => assert(held(*obj)[0] == plain(Tok::LParen)),
        ExprKindView::Index(a, _) => assert(held(*a)[0] == plain(Tok::LParen)),
        ExprKindView::Call { callee, .. } => assert(held(*callee)[0] == plain(Tok::LParen)),
        _ => {},
    }
    assert(w.len() > 0);
    assert(tok_at(c, 0) == c.toks[c.pos]);
    assert(c.peek() == w[0]);
}

/// May the token begin an expression?
pub open spec fn expr_starts(t: TokView) -> bool {
    &&& t != plain(Tok::RParen) && t != plain(Tok::RBracket) && t != plain(Tok::RBrace)
    &&& t != plain(Tok::Semi) && t != plain(Tok::Eof) && t != plain(Tok::Else) && t != plain(
        Tok::Let,
    )
    &&& t != plain(Tok::Match) && t != plain(Tok::While) && t != plain(Tok::For) && t != plain(
        Tok::Return,
    )
    &&& t != plain(Tok::Break) && t != plain(Tok::Continue) && t != plain(Tok::LBrace)
}

proof fn read_branch(e: ExprView, c: Cur, d: int, line: u32)
    requires
        readable(e, d, line),
        spelled(c, branch_tokens(e), line),
    ensures
        branch(c, d) == Ok::<(ExprView, Cur), Seq<char>>(
            (e, ahead(c, branch_tokens(e).len() as int)),
        ),
    decreases e, 2nat, 0nat,
{
    let w = expr_tokens(e);
    let n = w.len() as int;
    lemma_next(c, plain(Tok::LBrace), w + seq![plain(Tok::RBrace)], line);
    let c1 = ahead(c, 1);
    lemma_split(c1, w, seq![plain(Tok::RBrace)], line);
    let c2 = ahead(c1, n);
    lemma_one(c2, plain(Tok::RBrace), line);
    assert(tok_at(c1, n) == c2.toks[c2.pos]);
    lemma_closers();
    read_expr(e, c1, d, false, line);
    assert(ahead(c2, 1) == ahead(c, branch_tokens(e).len() as int));
}

/// A tree's tokens are read as the tree, up to a token that continues no
/// expression.
pub proof fn read_expr(e: ExprView, c: Cur, d: int, ns: bool, line: u32)
    requires
        readable(e, d, line),
        spelled(c, expr_tokens(e), line),
        stops(tok_at(c, expr_tokens(e).len() as int).tok),
    ensures
        expr(c, d, ns) == Ok::<(ExprView, Cur), Seq<char>>(
            (e, ahead(c, expr_tokens(e).len() as int)),
        ),
    decreases e, 1nat, 0nat,
{
    let w = expr_tokens(e);
    let end = ahead(c, w.len() as int);
    assert(end.peek() == tok_at(c, w.len() as int).tok);
    match e.kind {
        ExprKindView::Unary(op, a) => read_unary(e, c, d, ns, line),
        ExprKindView::Binary(op, a, b) => read_binary(e, c, d, ns, line),
        ExprKindView::Cast(a, te) => read_cast(e, c, d, ns, line),
        ExprKindView::Field { .. } => read_field(e, c, d, ns, line),
        ExprKindView::Index(_, _) => read_index(e, c, d, ns, line),
        ExprKindView::Call { .. } => read_call(e, c, d, ns, line),
        ExprKindView::ArrayLit(_) => read_array(e, c, d, ns, line),
        ExprKindView::If { .. } => read_if(e, c, d, ns, line),
        _ => {
            lemma_one(c, w[0], line);
            assert(operand(w[0]) == Some(e.kind));
            assert(leaf(c.toks[c.pos]) == e);
            assert(ahead(c, 1) == end);
            lemma_leaf(c, d + 1, ns);
            lemma_whole(c, d, ns, e, end);
        },
    }
}

proof fn read_unary(e: ExprView, c: Cur, d: int, ns: bool, line: u32)
    requires
        e.kind is Unary,
        readable(e, d, line),
        spelled(c, expr_tokens(e), line),
        stops(tok_at(c, expr_tokens(e).len() as int).tok),
    ensures
        expr(c, d, ns) == Ok::<(ExprView, Cur), Seq<char>>(
            (e, ahead(c, expr_tokens(e).len() as int)),
        ),
    decreases e, 0nat, 0nat,
{
    let (op, a) = (e.kind->Unary_0, *e.kind->Unary_1);
    let end = ahead(c, expr_tokens(e).len() as int);
    assert(end.peek() == tok_at(c, expr_tokens(e).len() as int).tok);
    lemma_next(c, plain(prefix_token(op)), held(a), line);
    let c1 = ahead(c, 1);
    assert(tok_at(c1, 0) == c1.toks[c1.pos]);
    read_held(a, c1, d + 3, ns, line);
    assert(postfix_rest(end, d + 3, ns, a) == Ok::<(ExprView, Cur), Seq<char>>((a, end)));
    assert(postfix(c1, d + 3, ns) == Ok::<(ExprView, Cur), Seq<char>>((a, end)));
    assert(unary_op(c1.peek()) is None && unary_op(c.peek()) == Some(op));
    assert(unary_inner(c1, d + 3, ns) == Ok::<(ExprView, Cur), Seq<char>>((a, end)));
    assert(unary(c1, d + 2, ns) == Ok::<(ExprView, Cur), Seq<char>>((a, end)));
    assert(unary_inner(c, d + 2, ns) == Ok::<(ExprView, Cur), Seq<char>>((e, end)));
    assert(unary(c, d + 1, ns) == Ok::<(ExprView, Cur), Seq<char>>((e, end)));
    lemma_whole(c, d, ns, e, end);
}

/// An operand in parentheses, before a token that neither calls, selects nor
/// indexes.
proof fn read_part(a: ExprView, c: Cur, d: int, ns: bool, line: u32)
    requires
        readable(a, d + 2, line),
        d + 2 <= MAX_DEPTH,
        spelled(c, held(a), line),
        ({
            let t = tok_at(c, held(a).len() as int).tok;
            t != plain(Tok::LParen) && t != plain(Tok::Dot) && t != plain(Tok::LBracket)
        }),
    ensures
        unary(c, d + 1, ns) == Ok::<(ExprView, Cur), Seq<char>>(
            (a, ahead(c, held(a).len() as int)),
        ),
    decreases a, 3nat, 0nat,
{
    let end = ahead(c, held(a).len() as int);
    assert(end.peek() == tok_at(c, held(a).len() as int).tok);
    assert(tok_at(c, 0) == c.toks[c.pos]);
    read_held(a, c, d + 2, ns, line);
    assert(postfix_rest(end, d + 2, ns, a) == Ok::<(ExprView, Cur), Seq<char>>((a, end)));
    assert(postfix(c, d + 2, ns) == Ok::<(ExprView, Cur), Seq<char>>((a, end)));
    assert(unary_op(c.peek()) is None);
    assert(unary_inner(c, d + 2, ns) == Ok::<(ExprView, Cur), Seq<char>>((a, end)));
}

/// An operand in parentheses before a token that ends it.
proof fn read_operand(a: ExprView, c: Cur, d: int, ns: bool, line: u32)
    requires
        readable(a, d + 2, line),
        d + 2 <= MAX_DEPTH,
        spelled(c, held(a), line),
        ends_operand(tok_at(c, held(a).len() as int).tok),
    ensures
        reads(c, d + 1, ns, a, ahead(c, held(a).len() as int)),
    decreases a, 4nat, 0nat,
{
    let end = ahead(c, held(a).len() as int);
    assert(end.peek() == tok_at(c, held(a).len() as int).tok);
    read_part(a, c, d, ns, line);
    assert(cast_rest(end, d + 1, a) == Ok::<(ExprView, Cur), Seq<char>>((a, end)));
}

proof fn read_binary(e: ExprView, c: Cur, d: int, ns: bool, line: u32)
    requires
        e.kind is Binary,
        readable(e, d, line),
        spelled(c, expr_tokens(e), line),
        stops(tok_at(c, expr_tokens(e).len() as int).tok),
    ensures
        expr(c, d, ns) == Ok::<(ExprView, Cur), Seq<char>>(
            (e, ahead(c, expr_tokens(e).len() as int)),
        ),
    decreases e, 0nat, 0nat,
{
    let (op, a, b) = (e.kind->Binary_0, *e.kind->Binary_1, *e.kind->Binary_2);
    let (t, row) = operator_token(op);
    let end = ahead(c, expr_tokens(e).len() as int);
    assert(end.peek() == tok_at(c, expr_tokens(e).len() as int).tok);
    lemma_split(c, held(a), seq![plain(t)] + held(b), line);
    let c1 = ahead(c, held(a).len() as int);
    lemma_next(c1, plain(t), held(b), line);
    let c2 = ahead(c1, 1);
    assert(tok_at(c, held(a).len() as int) == c1.toks[c1.pos]);
    assert(tok_at(c2, held(b).len() as int) == end.toks[end.pos]);
    assert(listed(t, op, row));
    read_operand(a, c, d, ns, line);
    read_operand(b, c2, d, ns, line);
    assert(e == joined(op, line, a, b));
    lemma_pair(c, d, ns, (t, op, row), a, c1, b, end);
}

proof fn read_cast(e: ExprView, c: Cur, d: int, ns: bool, line: u32)
    requires
        e.kind is Cast,
        readable(e, d, line),
        spelled(c, expr_tokens(e), line),
        stops(tok_at(c, expr_tokens(e).len() as int).tok),
    ensures
        expr(c, d, ns) == Ok::<(ExprView, Cur), Seq<char>>(
            (e, ahead(c, expr_tokens(e).len() as int)),
        ),
    decreases e, 0nat, 0nat,
{
    let (a, te) = (*e.kind->Cast_0, e.kind->Cast_1);
    let end = ahead(c, expr_tokens(e).len() as int);
    assert(end.peek() == tok_at(c, expr_tokens(e).len() as int).tok);
    lemma_split(c, held(a), seq![plain(Tok::As)] + type_tokens(te), line);
    let c1 = ahead(c, held(a).len() as int);
    lemma_next(c1, plain(Tok::As), type_tokens(te), line);
    let c2 = ahead(c1, 1);
    assert(tok_at(c, held(a).len() as int) == c1.toks[c1.pos]);
    read_part(a, c, d, ns, line);
    assert(tok_at(c2, 1) == end.toks[end.pos]);
    assert(listed(Tok::Lt, BinOp::Lt, Row::Comparison));
    read_type(te, c2, d + 1, line);
    assert(cast_rest(end, d + 1, e) == Ok::<(ExprView, Cur), Seq<char>>((e, end)));
    assert(cast_rest(c1, d + 1, a) == Ok::<(ExprView, Cur), Seq<char>>((e, end)));
    assert(binary(c, d + 1, ns, 10) == Ok::<(ExprView, Cur), Seq<char>>((e, end)));
    lemma_no_operator(end.peek());
    lemma_looser(c, d + 1, ns, 10, 0, e, end);
}

proof fn read_type(te: TypeExprView, c: Cur, d: int, line: u32)
    requires
        plain_type(te, line),
        d + 1 <= MAX_DEPTH,
        spelled(c, type_tokens(te), line),
        tok_at(c, 1).tok != plain(Tok::Lt),
    ensures
        type_expr(c, d) == Ok::<(TypeExprView, Cur), Seq<char>>((te, ahead(c, 1))),
{
    let name = te->Named_0;
    lemma_one(c, TokView::Ident(name), line);
    let c1 = ahead(c, 1);
    assert(tok_at(c, 1) == c1.toks[c1.pos]);
    assert(te == TypeExprView::Named(name, Seq::empty(), line)) by {
        assert(te->Named_1 =~= Seq::<TypeExprView>::empty());
    }
    assert(type_inner(c, d + 1) == Ok::<(TypeExprView, Cur), Seq<char>>((te, c1)));
}

proof fn read_field(e: ExprView, c: Cur, d: int, ns: bool, line: u32)
    requires
        e.kind is Field,
        readable(e, d, line),
        spelled(c, expr_tokens(e), line),
        stops(tok_at(c, expr_tokens(e).len() as int).tok),
    ensures
        expr(c, d, ns) == Ok::<(ExprView, Cur), Seq<char>>(
            (e, ahead(c, expr_tokens(e).len() as int)),
        ),
    decreases e, 0nat, 0nat,
{
    let (a, name) = (*e.kind->Field_obj, e.kind->Field_name);
    let end = ahead(c, expr_tokens(e).len() as int);
    assert(end.peek() == tok_at(c, expr_tokens(e).len() as int).tok);
    lemma_split(c, held(a), seq![plain(Tok::Dot)] + seq![TokView::Ident(name)], line);
    let c1 = ahead(c, held(a).len() as int);
    lemma_next(c1, plain(Tok::Dot), seq![TokView::Ident(name)], line);
    let c2 = ahead(c1, 1);
    lemma_one(c2, TokView::Ident(name), line);
    assert(tok_at(c, 0) == c.toks[c.pos]);
    read_held(a, c, d + 2, ns, line);
    assert(ahead(c1, 1) == c2 && ahead(c1, 2) == end);
    lemma_member(c1, d + 2, ns, a);
    assert(postfix(c, d + 2, ns) == Ok::<(ExprView, Cur), Seq<char>>((e, end)));
    lemma_up(c, d, ns, e, end);
}

proof fn read_index(e: ExprView, c: Cur, d: int, ns: bool, line: u32)
    requires
        e.kind is Index,
        readable(e, d, line),
        spelled(c, expr_tokens(e), line),
        stops(tok_at(c, expr_tokens(e).len() as int).tok),
    ensures
        expr(c, d, ns) == Ok::<(ExprView, Cur), Seq<char>>(
            (e, ahead(c, expr_tokens(e).len() as int)),
        ),
    decreases e, 0nat, 0nat,
{
    let (a, b) = (*e.kind->Index_0, *e.kind->Index_1);
    let w = expr_tokens(b);
    let end = ahead(c, expr_tokens(e).len() as int);
    assert(end.peek() == tok_at(c, expr_tokens(e).len() as int).tok);
    let tail = w + seq![plain(Tok::RBracket)];
    lemma_split(c, held(a), seq![plain(Tok::LBracket)] + tail, line);
    let c1 = ahead(c, held(a).len() as int);
    lemma_next(c1, plain(Tok::LBracket), tail, line);
    let c2 = ahead(c1, 1);
    lemma_split(c2, w, seq![plain(Tok::RBracket)], line);
    let c3 = ahead(c2, w.len() as int);
    lemma_one(c3, plain(Tok::RBracket), line);
    assert(tok_at(c2, w.len() as int) == c3.toks[c3.pos]);
    assert(tok_at(c, 0) == c.toks[c.pos]);
    lemma_closers();
    read_held(a, c, d + 2, ns, line);
    read_expr(b, c2, d + 2, false, line);
    assert(ahead(c3, 1) == end);
    assert(c3.expect(Tok::RBracket) == Ok::<Cur, Seq<char>>(end));
    assert(postfix_rest(end, d + 2, ns, e) == Ok::<(ExprView, Cur), Seq<char>>((e, end)));
    assert(postfix_rest(c1, d + 2, ns, a) == Ok::<(ExprView, Cur), Seq<char>>((e, end)));
    assert(postfix(c, d + 2, ns) == Ok::<(ExprView, Cur), Seq<char>>((e, end)));
    lemma_up(c, d, ns, e, end);
}

proof fn read_call(e: ExprView, c: Cur, d: int, ns: bool, line: u32)
    requires
        e.kind is Call,
        readable(e, d, line),
        spelled(c, expr_tokens(e), line),
        stops(tok_at(c, expr_tokens(e).len() as int).tok),
    ensures
        expr(c, d, ns) == Ok::<(ExprView, Cur), Seq<char>>(
            (e, ahead(c, expr_tokens(e).len() as int)),
        ),
    decreases e, 0nat, 0nat,
{
    let (a, args) = (*e.kind->Call_callee, e.kind->Call_args);
    let w = list_tokens(args, 0);
    let end = ahead(c, expr_tokens(e).len() as int);
    assert(end.peek() == tok_at(c, expr_tokens(e).len() as int).tok);
    let tail = w + seq![plain(Tok::RParen)];
    lemma_split(c, held(a), seq![plain(Tok::LParen)] + tail, line);
    let c1 = ahead(c, held(a).len() as int);
    lemma_next(c1, plain(Tok::LParen), tail, line);
    let c2 = ahead(c1, 1);
    lemma_split(c2, w, seq![plain(Tok::RParen)], line);
    let c3 = ahead(c2, w.len() as int);
    lemma_one(c3, plain(Tok::RParen), line);
    assert(tok_at(c, 0) == c.toks[c.pos]);
    read_held(a, c, d + 2, ns, line);
    assert(args.take(0) =~= Seq::empty());
    read_list(args, 0, c2, d + 2, Tok::RParen, Seq::empty(), line);
    assert(ahead(c3, 1) == end);
    assert(c3.expect(Tok::RParen) == Ok::<Cur, Seq<char>>(end));
    assert(postfix_rest(end, d + 2, ns, e) == Ok::<(ExprView, Cur), Seq<char>>((e, end)));
    assert(postfix_rest(c1, d + 2, ns, a) == Ok::<(ExprView, Cur), Seq<char>>((e, end)));
    assert(postfix(c, d + 2, ns) == Ok::<(ExprView, Cur), Seq<char>>((e, end)));
    lemma_up(c, d, ns, e, end);
}

proof fn read_array(e: ExprView, c: Cur, d: int, ns: bool, line: u32)
    requires
        e.kind is ArrayLit,
        readable(e, d, line),
        spelled(c, expr_tokens(e), line),
        stops(tok_at(c, expr_tokens(e).len() as int).tok),
    ensures
        expr(c, d, ns) == Ok::<(ExprView, Cur), Seq<char>>(
            (e, ahead(c, expr_tokens(e).len() as int)),
        ),
    decreases e, 0nat, 0nat,
{
    let es = e.kind->ArrayLit_0;
    let w = list_tokens(es, 0);
    let end = ahead(c, expr_tokens(e).len() as int);
    assert(end.peek() == tok_at(c, expr_tokens(e).len() as int).tok);
    lemma_next(c, plain(Tok::LBracket), w + seq![plain(Tok::RBracket)], line);
    let c1 = ahead(c, 1);
    lemma_split(c1, w, seq![plain(Tok::RBracket)], line);
    let c2 = ahead(c1, w.len() as int);
    lemma_one(c2, plain(Tok::RBracket), line);
    assert(es.take(0) =~= Seq::empty());
    read_list(es, 0, c1, d + 2, Tok::RBracket, Seq::empty(), line);
    assert(ahead(c2, 1) == end);
    assert(c2.expect(Tok::RBracket) == Ok::<Cur, Seq<char>>(end));
    assert(primary(c, d + 2, ns) == Ok::<(ExprView, Cur), Seq<char>>((e, end)));
    assert(postfix_rest(end, d + 2, ns, e) == Ok::<(ExprView, Cur), Seq<char>>((e, end)));
    assert(postfix(c, d + 2, ns) == Ok::<(ExprView, Cur), Seq<char>>((e, end)));
    lemma_up(c, d, ns, e, end);
}

/// An expression in parentheses is read where a `{` follows it, too.
proof fn read_condition(a: ExprView, c: Cur, d: int, line: u32)
    requires
        readable(a, d + 2, line),
        d + 2 <= MAX_DEPTH,
        spelled(c, held(a), line),
        tok_at(c, held(a).len() as int).tok == plain(Tok::LBrace),
    ensures
        expr(c, d, true) == Ok::<(ExprView, Cur), Seq<char>>(
            (a, ahead(c, held(a).len() as int)),
        ),
    decreases a, 4nat, 0nat,
{
    let end = ahead(c, held(a).len() as int);
    assert(end.peek() == tok_at(c, held(a).len() as int).tok);
    read_part(a, c, d, true, line);
    assert(cast_rest(end, d + 1, a) == Ok::<(ExprView, Cur), Seq<char>>((a, end)));
    assert(binary(c, d + 1, true, 10) == Ok::<(ExprView, Cur), Seq<char>>((a, end)));
    assert(forall|l: int| #[trigger] operator_at(l, end.peek()) is None);
    lemma_looser(c, d + 1, true, 10, 0, a, end);
}

proof fn read_if(e: ExprView, c: Cur, d: int, ns: bool, line: u32)
    requires
        e.kind is If,
        readable(e, d, line),
        spelled(c, expr_tokens(e), line),
        stops(tok_at(c, expr_tokens(e).len() as int).tok),
    ensures
        expr(c, d, ns) == Ok::<(ExprView, Cur), Seq<char>>(
            (e, ahead(c, expr_tokens(e).len() as int)),
        ),
    decreases e, 0nat, 0nat,
{
    let (a, x, y) = (*e.kind->If_cond, *e.kind->If_then, *e.kind->If_els);
    let end = ahead(c, expr_tokens(e).len() as int);
    assert(end.peek() == tok_at(c, expr_tokens(e).len() as int).tok);
    let w3 = seq![plain(Tok::Else)] + branch_tokens(y);
    let w2 = branch_tokens(x) + w3;
    lemma_next(c, plain(Tok::If), held(a) + w2, line);
    let c1 = ahead(c, 1);
    lemma_split(c1, held(a), w2, line);
    let c2 = ahead(c1, held(a).len() as int);
    lemma_split(c2, branch_tokens(x), w3, line);
    let c3 = ahead(c2, branch_tokens(x).len() as int);
    lemma_next(c3, plain(Tok::Else), branch_tokens(y), line);
    let c4 = ahead(c3, 1);
    assert(tok_at(c2, 0) == c2.toks[c2.pos] && w2[0] == plain(Tok::LBrace));
    assert(tok_at(c1, held(a).len() as int) == c2.toks[c2.pos]);
    assert(tok_at(c4, 0) == c4.toks[c4.pos] && branch_tokens(y)[0] == plain(Tok::LBrace));
    read_condition(a, c1, d + 3, line);
    read_branch(x, c2, d + 3, line);
    read_branch(y, c4, d + 3, line);
    assert(c3.expect(Tok::Else) == Ok::<Cur, Seq<char>>(c4));
    assert(ahead(c4, branch_tokens(y).len() as int) == end);
    assert(if_expr_inner(c, d + 3) == Ok::<(ExprView, Cur), Seq<char>>((e, end)));
    assert(if_expr(c, d + 2) == Ok::<(ExprView, Cur), Seq<char>>((e, end)));
    assert(primary(c, d + 2, ns) == Ok::<(ExprView, Cur), Seq<char>>((e, end)));
    assert(postfix_rest(end, d + 2, ns, e) == Ok::<(ExprView, Cur), Seq<char>>((e, end)));
    assert(postfix(c, d + 2, ns) == Ok::<(ExprView, Cur), Seq<char>>((e, end)));
    lemma_up(c, d, ns, e, end);
}

// -- Statements as tokens ---------------------------------------------------

/// The tokens of a declared type, with its colon.
pub open spec fn ann_tokens(ann: Option<TypeExprView>) -> Seq<TokView> {
    match ann {
        Some(te) => seq![plain(Tok::Colon)] + type_tokens(te),
        None => Seq::empty(),
    }
}

/// The token of an assignment.
pub open spec fn assign_token(op: Option<BinOp>) -> TokView {
    match op {
        Some(op) => plain(Tok::OpAssign(op)),
        None => plain(Tok::Assign),
    }
}

/// A declaration, an assignment or an expression, without a semicolon.
pub open spec fn simple_tokens(s: StmtView) -> Seq<TokView> {
    match s {
        StmtView::Let { name, ann, init, .. } => seq![plain(Tok::Let)] + (seq![TokView::Ident(name)]
            + (ann_tokens(ann) + (seq![plain(Tok::Assign)] + expr_tokens(init)))),
        StmtView::Assign { target, op, value, .. } => expr_tokens(target) + (seq![assign_token(op)]
            + expr_tokens(value)),
        StmtView::Expr(e) => expr_tokens(e),
        _ => Seq::empty(),
    }
}

pub open spec fn opt_simple_tokens(s: Option<Box<StmtView>>) -> Seq<TokView> {
    match s {
        Some(s) => simple_tokens(*s),
        None => Seq::empty(),
    }
}

pub open spec fn opt_expr_tokens(e: Option<ExprView>) -> Seq<TokView> {
    match e {
        Some(e) => expr_tokens(e),
        None => Seq::empty(),
    }
}

/// The tokens of a statement, with its condition in parentheses.
pub open spec fn stmt_tokens(s: StmtView) -> Seq<TokView>
    decreases s, 1nat, 0nat,
{
    match s {
        StmtView::Let { .. } => simple_tokens(s) + seq![plain(Tok::Semi)],
        StmtView::Assign { .. } => simple_tokens(s) + seq![plain(Tok::Semi)],
        StmtView::Expr(_) => simple_tokens(s) + seq![plain(Tok::Semi)],
        StmtView::If { cond, then, els } => seq![plain(Tok::If)] + (held(cond) + (block_tokens(then)
            + match els {
            Some(b) => seq![plain(Tok::Else)] + block_tokens(b),
            None => Seq::empty(),
        })),
        StmtView::While { cond, body } => seq![plain(Tok::While)] + (held(cond) + block_tokens(
            body,
        )),
        StmtView::For { init, cond, step, body } => seq![plain(Tok::For)] + (seq![
            plain(Tok::LParen),
        ] + (opt_simple_tokens(init) + (seq![plain(Tok::Semi)] + (opt_expr_tokens(cond) + (seq![
            plain(Tok::Semi),
        ] + (opt_simple_tokens(step) + (seq![plain(Tok::RParen)] + block_tokens(body)))))))),
        StmtView::Return { value, .. } => seq![plain(Tok::Return)] + (opt_expr_tokens(value) + seq![
            plain(Tok::Semi),
        ]),
        StmtView::Break(_) => seq![plain(Tok::Break)] + seq![plain(Tok::Semi)],
        StmtView::Continue(_) => seq![plain(Tok::Continue)] + seq![plain(Tok::Semi)],
        StmtView::Block(b) => block_tokens(b),
        _ => Seq::empty(),
    }
}

pub open spec fn block_tokens(b: BlockView) -> Seq<TokView>
    decreases b, 2nat, 0nat,
{
    seq![plain(Tok::LBrace)] + stmts_tokens(b.stmts, 0)
}

/// The statements from `i` on, and the brace that closes them.
pub open spec fn stmts_tokens(ss: Seq<StmtView>, i: nat) -> Seq<TokView>
    decreases ss, 0nat, ss.len() - i,
{
    if i >= ss.len() {
        seq![plain(Tok::RBrace)]
    } else {
        stmt_tokens(ss[i as int]) + stmts_tokens(ss, i + 1)
    }
}

pub open spec fn simple_readable(s: StmtView, d: int, line: u32) -> bool {
    match s {
        StmtView::Let { name, ann, init, line: l, local, ty } => {
            &&& l == line && local == 0 && ty is Unknown
            &&& ann matches Some(te) ==> plain_type(te, line)
            &&& readable(init, d, line)
        },
        StmtView::Assign { target, op, value, line: l } => {
            &&& l == line
            &&& target.kind is Var || target.kind is Field || target.kind is Index
            &&& readable(target, d, line)
            &&& readable(value, d, line)
        },
        StmtView::Expr(e) => readable(e, d, line) && !(e.kind is If),
        _ => false,
    }
}

/// Is this a statement as the parser makes them on one line, of these kinds,
/// and not nested too deeply to be read at depth `d`?
pub open spec fn stmt_readable(s: StmtView, d: int, line: u32) -> bool
    decreases s, 1nat, 0nat,
{
    &&& d + 1 <= MAX_DEPTH
    &&& match s {
        StmtView::Let { .. } => simple_readable(s, d + 1, line),
        StmtView::Assign { .. } => simple_readable(s, d + 1, line),
        StmtView::Expr(_) => simple_readable(s, d + 1, line),
        StmtView::If { cond, then, els } => {
            &&& readable(cond, d + 3, line)
            &&& block_readable(then, d + 1, line)
            &&& els matches Some(b) ==> block_readable(b, d + 1, line)
        },
        StmtView::While { cond, body } => readable(cond, d + 3, line) && block_readable(
            body,
            d + 1,
            line,
        ),
        StmtView::For { init, cond, step, body } => {
            &&& init matches Some(i) ==> simple_readable(*i, d + 1, line)
            &&& cond matches Some(e) ==> readable(e, d + 1, line)
            &&& step matches Some(i) ==> simple_readable(*i, d + 1, line) && !(*i is Let)
            &&& block_readable(body, d + 1, line)
        },
        StmtView::Return { value, line: l } => l == line && (value matches Some(e) ==> readable(
            e,
            d + 1,
            line,
        )),
        StmtView::Break(l) => l == line,
        StmtView::Continue(l) => l == line,
        StmtView::Block(b) => block_readable(b, d + 1, line),
        _ => false,
    }
}

pub open spec fn block_readable(b: BlockView, d: int, line: u32) -> bool
    decreases b, 2nat, 0nat,
{
    forall|i: int| 0 <= i < b.stmts.len() ==> stmt_readable(#[trigger] b.stmts[i], d, line)
}

// -- Reading statements back ------------------------------------------------

proof fn read_ann(ann: Option<TypeExprView>, c: Cur, d: int, line: u32)
    requires
        ann matches Some(te) ==> plain_type(te, line),
        d + 1 <= MAX_DEPTH,
        spelled(c, ann_tokens(ann), line),
        tok_at(c, ann_tokens(ann).len() as int).tok == plain(Tok::Assign) || tok_at(
            c,
            ann_tokens(ann).len() as int,
        ).tok == plain(Tok::LBrace),
    ensures
        ret_type(c, d) == Ok::<(Option<TypeExprView>, Cur), Seq<char>>(
            (ann, ahead(c, ann_tokens(ann).len() as int)),
        ),
{
    match ann {
        Some(te) => {
            lemma_next(c, plain(Tok::Colon), type_tokens(te), line);
            let c1 = ahead(c, 1);
            assert(tok_at(c1, 1) == tok_at(c, 2));
            read_type(te, c1, d, line);
            assert(ahead(c1, 1) == ahead(c, 2));
        },
        None => {
            assert(tok_at(c, 0) == c.toks[c.pos]);
            assert(ahead(c, 0) == c);
        },
    }
}

proof fn read_let(s: StmtView, c: Cur, d: int, line: u32)
    requires
        s is Let,
        simple_readable(s, d, line),
        spelled(c, simple_tokens(s), line),
        stops(tok_at(c, simple_tokens(s).len() as int).tok),
    ensures
        let_stmt(c, d, false) == Ok::<(StmtView, Cur), Seq<char>>(
            (s, ahead(c, simple_tokens(s).len() as int)),
        ),
        c.at(Tok::Let),
{
    let (name, ann, init) = (s->Let_name, s->Let_ann, s->Let_init);
    let end = ahead(c, simple_tokens(s).len() as int);
    assert(tok_at(c, simple_tokens(s).len() as int) == end.toks[end.pos]);
    let w4 = seq![plain(Tok::Assign)] + expr_tokens(init);
    let w3 = ann_tokens(ann) + w4;
    lemma_next(c, plain(Tok::Let), seq![TokView::Ident(name)] + w3, line);
    let c1 = ahead(c, 1);
    lemma_next(c1, TokView::Ident(name), w3, line);
    let c2 = ahead(c1, 1);
    lemma_split(c2, ann_tokens(ann), w4, line);
    let c3 = ahead(c2, ann_tokens(ann).len() as int);
    lemma_next(c3, plain(Tok::Assign), expr_tokens(init), line);
    let c4 = ahead(c3, 1);
    assert(tok_at(c2, ann_tokens(ann).len() as int) == c3.toks[c3.pos]);
    assert(tok_at(c4, expr_tokens(init).len() as int) == end.toks[end.pos]);
    read_ann(ann, c2, d, line);
    read_expr(init, c4, d, false, line);
    assert(c.expect(Tok::Let) == Ok::<Cur, Seq<char>>(c1));
    assert(c1.ident() == Ok::<(Seq<char>, Cur), Seq<char>>((name, c2)));
    assert(c3.expect(Tok::Assign) == Ok::<Cur, Seq<char>>(c4));
}

/// What an assignment is read as, from what its two sides are read as.
proof fn lemma_assigned(s: StmtView, c: Cur, d: int, c1: Cur, end: Cur)
    requires
        s is Assign,
        s->Assign_line == c.line(),
        assignable(s->Assign_target),
        expr(c, d, false) == Ok::<(ExprView, Cur), Seq<char>>((s->Assign_target, c1)),
        c1.peek() == assign_token(s->Assign_op),
        expr(c1.bump(), d, false) == Ok::<(ExprView, Cur), Seq<char>>((s->Assign_value, end)),
    ensures
        simple_stmt(c, d, false) == Ok::<(StmtView, Cur), Seq<char>>((s, end)),
{
}

#[verifier::rlimit(40)]
proof fn read_assign(s: StmtView, c: Cur, d: int, line: u32)
    requires
        s is Assign,
        simple_readable(s, d, line),
        spelled(c, simple_tokens(s), line),
        stops(tok_at(c, simple_tokens(s).len() as int).tok),
    ensures
        simple_stmt(c, d, false) == Ok::<(StmtView, Cur), Seq<char>>(
            (s, ahead(c, simple_tokens(s).len() as int)),
        ),
        expr_starts(c.peek()) && !c.at(Tok::If),
{
    let (target, op, value) = (s->Assign_target, s->Assign_op, s->Assign_value);
    let end = ahead(c, simple_tokens(s).len() as int);
    assert(tok_at(c, simple_tokens(s).len() as int) == end.toks[end.pos]);
    lemma_closers();
    let w1 = seq![assign_token(op)] + expr_tokens(value);
    lemma_split(c, expr_tokens(target), w1, line);
    let c1 = ahead(c, expr_tokens(target).len() as int);
    lemma_next(c1, assign_token(op), expr_tokens(value), line);
    let c2 = ahead(c1, 1);
    assert(tok_at(c, expr_tokens(target).len() as int) == c1.toks[c1.pos]);
    assert(tok_at(c2, expr_tokens(value).len() as int) == end.toks[end.pos]);
    lemma_starts(target, d, c, line);
    read_expr(target, c, d, false, line);
    read_expr(value, c2, d, false, line);
    assert(tok_at(c, 0) == c.toks[c.pos]);
    lemma_assigned(s, c, d, c1, end);
}

/// What a declaration, an assignment or an expression is read as, up to a `;` or
/// a `)`.
proof fn read_simple(s: StmtView, c: Cur, d: int, line: u32)
    requires
        simple_readable(s, d, line),
        spelled(c, simple_tokens(s), line),
        tok_at(c, simple_tokens(s).len() as int).tok == plain(Tok::Semi) || tok_at(
            c,
            simple_tokens(s).len() as int,
        ).tok == plain(Tok::RParen),
    ensures
        (if s is Let {
            let_stmt(c, d, false)
        } else {
            simple_stmt(c, d, false)
        }) == Ok::<(StmtView, Cur), Seq<char>>((s, ahead(c, simple_tokens(s).len() as int))),
        c.at(Tok::Let) == (s is Let),
        simple_tokens(s).len() > 0,
        s is Let || expr_starts(c.peek()) && !c.at(Tok::If),
{
    lemma_closers();
    let end = ahead(c, simple_tokens(s).len() as int);
    assert(tok_at(c, simple_tokens(s).len() as int) == end.toks[end.pos]);
    match s {
        StmtView::Let { .. } => read_let(s, c, d, line),
        StmtView::Assign { .. } => read_assign(s, c, d, line),
        StmtView::Expr(e) => {
            lemma_starts(e, d, c, line);
            read_expr(e, c, d, false, line);
            assert(assign_op(end.peek()) is None);
            assert(simple_stmt(c, d, false) == Ok::<(StmtView, Cur), Seq<char>>((s, end)));
        },
        _ => {},
    }
}

/// What a statement begins with.
pub open spec fn stmt_starts(t: TokView) -> bool {
    t != plain(Tok::RBrace) && t != plain(Tok::Eof) && t != plain(Tok::Else)
}

/// A statement's tokens are read as the statement, where no `else` follows.
pub proof fn read_stmt(s: StmtView, c: Cur, d: int, line: u32)
    requires
        stmt_readable(s, d, line),
        spelled(c, stmt_tokens(s), line),
        tok_at(c, stmt_tokens(s).len() as int).tok != plain(Tok::Else),
    ensures
        stmt(c, d) == Ok::<(StmtView, Cur), Seq<char>>(
            (s, ahead(c, stmt_tokens(s).len() as int)),
        ),
        stmt_tokens(s).len() > 0,
        stmt_starts(c.peek()),
    decreases s, 1nat, 0nat,
{
    let end = ahead(c, stmt_tokens(s).len() as int);
    assert(tok_at(c, stmt_tokens(s).len() as int) == end.toks[end.pos]);
    match s {
        StmtView::Let { .. } => read_ended(s, c, d, line),
        StmtView::Assign { .. } => read_ended(s, c, d, line),
        StmtView::Expr(_) => read_ended(s, c, d, line),
        StmtView::If { .. } => read_if_stmt(s, c, d, line),
        StmtView::While { cond, body } => {
            lemma_next(c, plain(Tok::While), held(cond) + block_tokens(body), line);
            let c1 = ahead(c, 1);
            read_guarded(cond, body, c1, d + 1, line, Seq::empty());
            assert(while_stmt(c, d + 1) == Ok::<(StmtView, Cur), Seq<char>>((s, end)));
            assert(stmt_inner(c, d + 1) == Ok::<(StmtView, Cur), Seq<char>>((s, end)));
        },
        StmtView::For { .. } => read_for(s, c, d, line),
        StmtView::Return { value, .. } => {
            let w = opt_expr_tokens(value);
            lemma_next(c, plain(Tok::Return), w + seq![plain(Tok::Semi)], line);
            let c1 = ahead(c, 1);
            lemma_split(c1, w, seq![plain(Tok::Semi)], line);
            let c2 = ahead(c1, w.len() as int);
            lemma_one(c2, plain(Tok::Semi), line);
            lemma_closers();
            assert(tok_at(c1, w.len() as int) == c2.toks[c2.pos]);
            assert(ahead(c2, 1) == end);
            if let Some(e) = value {
                lemma_starts(e, d + 1, c1, line);
                read_expr(e, c1, d + 1, false, line);
                assert(c2.expect(Tok::Semi) == Ok::<Cur, Seq<char>>(end));
            } else {
                assert(c1 == c2);
            }
            assert(return_stmt(c, d + 1) == Ok::<(StmtView, Cur), Seq<char>>((s, end)));
            assert(stmt_inner(c, d + 1) == Ok::<(StmtView, Cur), Seq<char>>((s, end)));
        },
        StmtView::Break(_) => {
            lemma_next(c, plain(Tok::Break), seq![plain(Tok::Semi)], line);
            lemma_one(ahead(c, 1), plain(Tok::Semi), line);
            assert(stmt_inner(c, d + 1) == Ok::<(StmtView, Cur), Seq<char>>((s, end)));
        },
        StmtView::Continue(_) => {
            lemma_next(c, plain(Tok::Continue), seq![plain(Tok::Semi)], line);
            lemma_one(ahead(c, 1), plain(Tok::Semi), line);
            assert(stmt_inner(c, d + 1) == Ok::<(StmtView, Cur), Seq<char>>((s, end)));
        },
        StmtView::Block(b) => {
            lemma_next(c, plain(Tok::LBrace), stmts_tokens(b.stmts, 0), line);
            read_block(b, c, d + 1, line);
            assert(stmt_inner(c, d + 1) == Ok::<(StmtView, Cur), Seq<char>>((s, end)));
        },
        _ => {},
    }
}

/// A declaration, an assignment or an expression, with its semicolon.
proof fn read_ended(s: StmtView, c: Cur, d: int, line: u32)
    requires
        s is Let || s is Assign || s is Expr,
        stmt_readable(s, d, line),
        spelled(c, stmt_tokens(s), line),
    ensures
        stmt(c, d) == Ok::<(StmtView, Cur), Seq<char>>(
            (s, ahead(c, stmt_tokens(s).len() as int)),
        ),
        stmt_tokens(s).len() > 0,
        stmt_starts(c.peek()),
{
    let w = simple_tokens(s);
    let end = ahead(c, stmt_tokens(s).len() as int);
    lemma_split(c, w, seq![plain(Tok::Semi)], line);
    let c1 = ahead(c, w.len() as int);
    lemma_one(c1, plain(Tok::Semi), line);
    assert(tok_at(c, w.len() as int) == c1.toks[c1.pos]);
    read_simple(s, c, d + 1, line);
    assert(ahead(c1, 1) == end);
    assert(c1.expect(Tok::Semi) == Ok::<Cur, Seq<char>>(end));
    assert(stmt_inner(c, d + 1) == Ok::<(StmtView, Cur), Seq<char>>((s, end)));
}

/// A condition in parentheses and the block behind it.
proof fn read_guarded(
    cond: ExprView,
    body: BlockView,
    c: Cur,
    d: int,
    line: u32,
    rest: Seq<TokView>,
)
    requires
        readable(cond, d + 2, line),
        block_readable(body, d, line),
        spelled(c, held(cond) + (block_tokens(body) + rest), line) || rest.len() == 0 && spelled(
            c,
            held(cond) + block_tokens(body),
            line,
        ),
    ensures
        expr(c, d, true) == Ok::<(ExprView, Cur), Seq<char>>(
            (cond, ahead(c, held(cond).len() as int)),
        ),
        block(ahead(c, held(cond).len() as int), d) == Ok::<(BlockView, Cur), Seq<char>>(
            (body, ahead(c, (held(cond).len() + block_tokens(body).len()) as int)),
        ),
        spelled(ahead(c, (held(cond).len() + block_tokens(body).len()) as int), rest, line),
    decreases body, 3nat, 0nat,
{
    let w = block_tokens(body);
    if !spelled(c, held(cond) + (w + rest), line) {
        assert(w + rest =~= w);
    }
    lemma_split(c, held(cond), w + rest, line);
    let c1 = ahead(c, held(cond).len() as int);
    lemma_split(c1, w, rest, line);
    assert(tok_at(c1, 0) == c1.toks[c1.pos] && w[0] == plain(Tok::LBrace));
    assert(tok_at(c, held(cond).len() as int) == c1.toks[c1.pos]);
    read_condition(cond, c, d, line);
    read_block(body, c1, d, line);
    assert(ahead(c1, w.len() as int) == ahead(c, (held(cond).len() + w.len()) as int));
}

/// A block's tokens are read as the block.
pub proof fn read_block(b: BlockView, c: Cur, d: int, line: u32)
    requires
        block_readable(b, d, line),
        spelled(c, block_tokens(b), line),
    ensures
        block(c, d) == Ok::<(BlockView, Cur), Seq<char>>(
            (b, ahead(c, block_tokens(b).len() as int)),
        ),
    decreases b, 2nat, 0nat,
{
    let ss = b.stmts;
    lemma_next(c, plain(Tok::LBrace), stmts_tokens(ss, 0), line);
    let c1 = ahead(c, 1);
    assert(ss.take(0) =~= Seq::empty());
    read_stmts(ss, 0, c1, d, Seq::empty(), line);
    assert(c.expect(Tok::LBrace) == Ok::<Cur, Seq<char>>(c1));
    assert(BlockView { stmts: ss } == b);
}

/// What follows a statement in a block is no `else`.
proof fn lemma_follows(ss: Seq<StmtView>, i: nat, d: int, c: Cur, line: u32)
    requires
        i <= ss.len(),
        forall|k: int| 0 <= k < ss.len() ==> stmt_readable(#[trigger] ss[k], d, line),
        spelled(c, stmts_tokens(ss, i), line),
    ensures
        c.peek() != plain(Tok::Else),
{
    assert(tok_at(c, 0) == c.toks[c.pos]);
    if i < ss.len() {
        let s = ss[i as int];
        let rest = stmts_tokens(ss, i + 1);
        lemma_split(c, stmt_tokens(s), rest, line);
        assert(stmt_readable(s, d, line));
        match s {
            StmtView::Let { .. } => lemma_simple_starts(s, d, c, line),
            StmtView::Assign { .. } => lemma_simple_starts(s, d, c, line),
            StmtView::Expr(_) => lemma_simple_starts(s, d, c, line),
            StmtView::Block(b) => {
                assert(block_tokens(b)[0] == plain(Tok::LBrace));
            },
            _ => {},
        }
        assert(stmt_tokens(s).len() > 0);
        assert(c.peek() == stmt_tokens(s)[0]);
    }
}

proof fn lemma_simple_starts(s: StmtView, d: int, c: Cur, line: u32)
    requires
        s is Let || s is Assign || s is Expr,
        stmt_readable(s, d, line),
        spelled(c, stmt_tokens(s), line),
    ensures
        stmt_tokens(s).len() > 0,
        stmt_tokens(s)[0] != plain(Tok::Else),
{
    read_ended(s, c, d, line);
    assert(tok_at(c, 0) == c.toks[c.pos]);
}

proof fn read_stmts(ss: Seq<StmtView>, i: nat, c: Cur, d: int, acc: Seq<StmtView>, line: u32)
    requires
        i <= ss.len(),
        forall|k: int| 0 <= k < ss.len() ==> stmt_readable(#[trigger] ss[k], d, line),
        acc == ss.take(i as int),
        spelled(c, stmts_tokens(ss, i), line),
    ensures
        block_stmts(c, d, acc) == Ok::<(Seq<StmtView>, Cur), Seq<char>>(
            (ss, ahead(c, stmts_tokens(ss, i).len() as int)),
        ),
    decreases ss, 0nat, ss.len() - i,
{
    let end = ahead(c, stmts_tokens(ss, i).len() as int);
    if i >= ss.len() {
        lemma_one(c, plain(Tok::RBrace), line);
        assert(acc =~= ss);
    } else {
        let s = ss[i as int];
        let (w, rest) = (stmt_tokens(s), stmts_tokens(ss, i + 1));
        lemma_split(c, w, rest, line);
        let c1 = ahead(c, w.len() as int);
        lemma_follows(ss, i + 1, d, c1, line);
        assert(tok_at(c, w.len() as int) == c1.toks[c1.pos]);
        read_stmt(s, c, d, line);
        assert(acc.push(s) =~= ss.take(i as int + 1));
        read_stmts(ss, i + 1, c1, d, acc.push(s), line);
        assert(ahead(c1, rest.len() as int) == end);
        assert(c.before(c1));
    }
}

proof fn read_if_stmt(s: StmtView, c: Cur, d: int, line: u32)
    requires
        s is If,
        stmt_readable(s, d, line),
        spelled(c, stmt_tokens(s), line),
        tok_at(c, stmt_tokens(s).len() as int).tok != plain(Tok::Else),
    ensures
        stmt(c, d) == Ok::<(StmtView, Cur), Seq<char>>(
            (s, ahead(c, stmt_tokens(s).len() as int)),
        ),
        stmt_tokens(s).len() > 0,
        stmt_starts(c.peek()),
    decreases s, 0nat, 0nat,
{
    let (cond, t, els) = (s->If_cond, s->If_then, s->If_els);
    let end = ahead(c, stmt_tokens(s).len() as int);
    assert(tok_at(c, stmt_tokens(s).len() as int) == end.toks[end.pos]);
    let rest: Seq<TokView> = match els {
        Some(b) => seq![plain(Tok::Else)] + block_tokens(b),
        None => Seq::empty(),
    };
    lemma_next(c, plain(Tok::If), held(cond) + (block_tokens(t) + rest), line);
    let c1 = ahead(c, 1);
    read_guarded(cond, t, c1, d + 1, line, rest);
    let c3 = ahead(c1, (held(cond).len() + block_tokens(t).len()) as int);
    assert(c.expect(Tok::If) == Ok::<Cur, Seq<char>>(c1));
    match els {
        Some(b) => {
            lemma_next(c3, plain(Tok::Else), block_tokens(b), line);
            let c4 = ahead(c3, 1);
            assert(tok_at(c4, 0) == c4.toks[c4.pos] && block_tokens(b)[0] == plain(Tok::LBrace));
            read_block(b, c4, d + 1, line);
            assert(ahead(c4, block_tokens(b).len() as int) == end);
        },
        None => {
            assert(c3 == end);
        },
    }
    assert(if_stmt(c, d + 1) == Ok::<(StmtView, Cur), Seq<char>>((s, end)));
    assert(stmt_inner(c, d + 1) == Ok::<(StmtView, Cur), Seq<char>>((s, end)));
}

/// What a loop is read as, from what its parts are read as.
#[verifier::rlimit(100)]
proof fn lemma_for(s: StmtView, c: Cur, d: int, c4: Cur, c6: Cur, c8: Cur, end: Cur)
    requires
        s is For,
        c.at(Tok::For),
        c.bump().at(Tok::LParen),
        for_init(c.bump().bump(), d) == Ok::<(Option<Box<StmtView>>, Cur), Seq<char>>(
            (s->For_init, c4),
        ),
        for_cond(c4, d) == Ok::<(Option<ExprView>, Cur), Seq<char>>((s->For_cond, c6)),
        for_step(c6, d) == Ok::<(Option<Box<StmtView>>, Cur), Seq<char>>((s->For_step, c8)),
        block(c8, d) == Ok::<(BlockView, Cur), Seq<char>>((s->For_body, end)),
    ensures
        for_stmt(c, d) == Ok::<(StmtView, Cur), Seq<char>>((s, end)),
{
    let c1 = c.bump();
    assert(c.expect(Tok::For) == Ok::<Cur, Seq<char>>(c1));
    assert(c1.expect(Tok::LParen) == Ok::<Cur, Seq<char>>(c1.bump()));
    assert(s == StmtView::For {
        init: s->For_init,
        cond: s->For_cond,
        step: s->For_step,
        body: s->For_body,
    });
}

#[verifier::rlimit(100)]
proof fn read_for(s: StmtView, c: Cur, d: int, line: u32)
    requires
        s is For,
        stmt_readable(s, d, line),
        spelled(c, stmt_tokens(s), line),
    ensures
        stmt(c, d) == Ok::<(StmtView, Cur), Seq<char>>(
            (s, ahead(c, stmt_tokens(s).len() as int)),
        ),
        stmt_tokens(s).len() > 0,
        stmt_starts(c.peek()),
    decreases s, 0nat, 0nat,
{
    let (init, cond, step, body) = (s->For_init, s->For_cond, s->For_step, s->For_body);
    let end = ahead(c, stmt_tokens(s).len() as int);
    let (wi, wc, ws) = (opt_simple_tokens(init), opt_expr_tokens(cond), opt_simple_tokens(step));
    let w4 = seq![plain(Tok::RParen)] + block_tokens(body);
    let w3 = seq![plain(Tok::Semi)] + (ws + w4);
    let w2 = seq![plain(Tok::Semi)] + (wc + w3);
    lemma_next(c, plain(Tok::For), seq![plain(Tok::LParen)] + (wi + w2), line);
    let c1 = ahead(c, 1);
    lemma_next(c1, plain(Tok::LParen), wi + w2, line);
    let c2 = ahead(c1, 1);
    lemma_split(c2, wi, w2, line);
    let c3 = ahead(c2, wi.len() as int);
    lemma_next(c3, plain(Tok::Semi), wc + w3, line);
    let c4 = ahead(c3, 1);
    lemma_split(c4, wc, w3, line);
    let c5 = ahead(c4, wc.len() as int);
    lemma_next(c5, plain(Tok::Semi), ws + w4, line);
    let c6 = ahead(c5, 1);
    lemma_split(c6, ws, w4, line);
    let c7 = ahead(c6, ws.len() as int);
    lemma_next(c7, plain(Tok::RParen), block_tokens(body), line);
    let c8 = ahead(c7, 1);
    read_header(init, cond, step, c2, d + 1, line, c4, c6, c8);
    read_block(body, c8, d + 1, line);
    assert(ahead(c8, block_tokens(body).len() as int) == end);
    lemma_for(s, c, d + 1, c4, c6, c8, end);
    assert(stmt_inner(c, d + 1) == Ok::<(StmtView, Cur), Seq<char>>((s, end)));
}

/// The three parts of a `for` header.
proof fn read_header(
    init: Option<Box<StmtView>>,
    cond: Option<ExprView>,
    step: Option<Box<StmtView>>,
    c: Cur,
    d: int,
    line: u32,
    ci: Cur,
    cc: Cur,
    cs: Cur,
)
    requires
        init matches Some(i) ==> simple_readable(*i, d, line),
        cond matches Some(e) ==> readable(e, d, line),
        step matches Some(i) ==> simple_readable(*i, d, line) && !(*i is Let),
        spelled(c, opt_simple_tokens(init), line),
        tok_at(c, opt_simple_tokens(init).len() as int).tok == plain(Tok::Semi),
        ci == ahead(c, opt_simple_tokens(init).len() as int + 1),
        spelled(ci, opt_expr_tokens(cond), line),
        tok_at(ci, opt_expr_tokens(cond).len() as int).tok == plain(Tok::Semi),
        cc == ahead(ci, opt_expr_tokens(cond).len() as int + 1),
        spelled(cc, opt_simple_tokens(step), line),
        tok_at(cc, opt_simple_tokens(step).len() as int).tok == plain(Tok::RParen),
        cs == ahead(cc, opt_simple_tokens(step).len() as int + 1),
        cs.pos < cs.toks.len(),
    ensures
        for_init(c, d) == Ok::<(Option<Box<StmtView>>, Cur), Seq<char>>((init, ci)),
        for_cond(ci, d) == Ok::<(Option<ExprView>, Cur), Seq<char>>((cond, cc)),
        for_step(cc, d) == Ok::<(Option<Box<StmtView>>, Cur), Seq<char>>((step, cs)),
{
    lemma_closers();
    let c1 = ahead(c, opt_simple_tokens(init).len() as int);
    assert(tok_at(c, opt_simple_tokens(init).len() as int) == c1.toks[c1.pos]);
    assert(c1.bump() == ci);
    match init {
        Some(s) => {
            read_simple(*s, c, d, line);
        },
        None => assert(c1 == c),
    }
    let c2 = ahead(ci, opt_expr_tokens(cond).len() as int);
    assert(tok_at(ci, opt_expr_tokens(cond).len() as int) == c2.toks[c2.pos]);
    assert(c2.bump() == cc);
    match cond {
        Some(e) => {
            lemma_starts(e, d, ci, line);
            read_expr(e, ci, d, false, line);
        },
        None => assert(c2 == ci),
    }
    let c3 = ahead(cc, opt_simple_tokens(step).len() as int);
    assert(tok_at(cc, opt_simple_tokens(step).len() as int) == c3.toks[c3.pos]);
    assert(c3.bump() == cs);
    match step {
        Some(s) => {
            read_simple(*s, cc, d, line);
        },
        None => assert(c3 == cc),
    }
}

// -- Functions and programs -------------------------------------------------

/// The parameters from `i` on, each with a comma behind it.
pub open spec fn params_tokens(ps: Seq<(Seq<char>, TypeExprView)>, i: nat) -> Seq<TokView>
    decreases ps.len() - i,
{
    if i >= ps.len() {
        Seq::empty()
    } else {
        seq![TokView::Ident(ps[i as int].0)] + (seq![plain(Tok::Colon)] + (type_tokens(
            ps[i as int].1,
        ) + (seq![plain(Tok::Comma)] + params_tokens(ps, i + 1))))
    }
}

/// The tokens of a function.
pub open spec fn func_tokens(f: FuncDefView) -> Seq<TokView> {
    seq![plain(Tok::Fn)] + (seq![TokView::Ident(f.name)] + (seq![plain(Tok::LParen)] + (
    params_tokens(f.params, 0) + (seq![plain(Tok::RParen)] + (ann_tokens(f.ret) + block_tokens(
        f.body,
    ))))))
}

/// Is this a function as the parser makes them on one line, without type
/// parameters, of these kinds of statements?
pub open spec fn func_readable(f: FuncDefView, line: u32) -> bool {
    &&& f.line == line && f.num_locals == 0 && !f.is_method && f.type_params.len() == 0
    &&& forall|i: int| 0 <= i < f.params.len() ==> plain_type(#[trigger] f.params[i].1, line)
    &&& f.ret matches Some(te) ==> plain_type(te, line)
    &&& block_readable(f.body, 0, line)
}

proof fn read_params(
    ps: Seq<(Seq<char>, TypeExprView)>,
    i: nat,
    c: Cur,
    acc: Seq<(Seq<char>, TypeExprView)>,
    line: u32,
)
    requires
        i <= ps.len(),
        forall|k: int| 0 <= k < ps.len() ==> plain_type(#[trigger] ps[k].1, line),
        acc == ps.take(i as int),
        spelled(c, params_tokens(ps, i), line),
        tok_at(c, params_tokens(ps, i).len() as int).tok == plain(Tok::RParen),
    ensures
        typed_names(c, 0, Tok::RParen, false, acc) == Ok::<
            (Seq<(Seq<char>, TypeExprView)>, Cur),
            Seq<char>,
        >((ps, ahead(c, params_tokens(ps, i).len() as int))),
    decreases ps.len() - i,
{
    let end = ahead(c, params_tokens(ps, i).len() as int);
    assert(tok_at(c, params_tokens(ps, i).len() as int) == end.toks[end.pos]);
    if i >= ps.len() {
        assert(acc =~= ps);
        assert(end == c);
    } else {
        let (name, te) = ps[i as int];
        let rest = params_tokens(ps, i + 1);
        let w3 = seq![plain(Tok::Comma)] + rest;
        let w2 = type_tokens(te) + w3;
        lemma_next(c, TokView::Ident(name), seq![plain(Tok::Colon)] + w2, line);
        let c1 = ahead(c, 1);
        lemma_next(c1, plain(Tok::Colon), w2, line);
        let c2 = ahead(c1, 1);
        lemma_split(c2, type_tokens(te), w3, line);
        let c3 = ahead(c2, 1);
        assert(type_tokens(te).len() == 1);
        lemma_next(c3, plain(Tok::Comma), rest, line);
        let c4 = ahead(c3, 1);
        assert(tok_at(c2, 1) == c3.toks[c3.pos]);
        read_type(te, c2, 0, line);
        assert(tok_at(c4, rest.len() as int) == end.toks[end.pos]);
        assert(acc.push((name, te)) =~= ps.take(i as int + 1));
        read_params(ps, i + 1, c4, acc.push((name, te)), line);
        assert(ahead(c4, rest.len() as int) == end);
        assert(c.before(c4));
        assert(c.ident() == Ok::<(Seq<char>, Cur), Seq<char>>((name, c1)));
        assert(c1.expect(Tok::Colon) == Ok::<Cur, Seq<char>>(c2));
    }
}

/// The statements of a body, each ended by its semicolon or brace.
proof fn read_body(
    ss: Seq<StmtView>,
    i: nat,
    c: Cur,
    has_ret: bool,
    acc: Seq<StmtView>,
    line: u32,
)
    requires
        i <= ss.len(),
        forall|k: int| 0 <= k < ss.len() ==> stmt_readable(#[trigger] ss[k], 0, line),
        acc == ss.take(i as int),
        spelled(c, stmts_tokens(ss, i), line),
    ensures
        body_stmts(c, 0, has_ret, acc) == Ok::<(Seq<StmtView>, Cur), Seq<char>>(
            (ss, ahead(c, stmts_tokens(ss, i).len() as int)),
        ),
    decreases ss.len() - i,
{
    let end = ahead(c, stmts_tokens(ss, i).len() as int);
    if i >= ss.len() {
        lemma_one(c, plain(Tok::RBrace), line);
        assert(acc =~= ss);
    } else {
        let s = ss[i as int];
        let (w, rest) = (stmt_tokens(s), stmts_tokens(ss, i + 1));
        lemma_split(c, w, rest, line);
        let c1 = ahead(c, w.len() as int);
        lemma_follows(ss, i + 1, 0, c1, line);
        assert(tok_at(c, w.len() as int) == c1.toks[c1.pos]);
        read_stmt(s, c, 0, line);
        assert(acc.push(s) =~= ss.take(i as int + 1));
        read_body(ss, i + 1, c1, has_ret, acc.push(s), line);
        assert(ahead(c1, rest.len() as int) == end);
        assert(c.before(c1));
        if !starts_stmt(c.peek()) {
            assert(stmt_inner(c, 1) == Ok::<(StmtView, Cur), Seq<char>>((s, c1)));
            let (x, c2) = simple_stmt(c, 1, false)->Ok_0;
            assert(simple_stmt(c, 1, false) is Ok && x == s);
            assert(c2.expect(Tok::Semi) == Ok::<Cur, Seq<char>>(c1));
        }
    }
}

/// A function's tokens are read as the function.
pub proof fn read_func(f: FuncDefView, c: Cur, line: u32)
    requires
        func_readable(f, line),
        spelled(c, func_tokens(f), line),
    ensures
        func_def(c) == Ok::<(FuncDefView, Cur), Seq<char>>(
            (f, ahead(c, func_tokens(f).len() as int)),
        ),
{
    let end = ahead(c, func_tokens(f).len() as int);
    let wb = block_tokens(f.body);
    let w5 = ann_tokens(f.ret) + wb;
    let w4 = seq![plain(Tok::RParen)] + w5;
    let w3 = params_tokens(f.params, 0) + w4;
    let w2 = seq![plain(Tok::LParen)] + w3;
    lemma_next(c, plain(Tok::Fn), seq![TokView::Ident(f.name)] + w2, line);
    let c1 = ahead(c, 1);
    lemma_next(c1, TokView::Ident(f.name), w2, line);
    let c2 = ahead(c1, 1);
    lemma_next(c2, plain(Tok::LParen), w3, line);
    let c3 = ahead(c2, 1);
    lemma_split(c3, params_tokens(f.params, 0), w4, line);
    let c4 = ahead(c3, params_tokens(f.params, 0).len() as int);
    lemma_next(c4, plain(Tok::RParen), w5, line);
    let c5 = ahead(c4, 1);
    lemma_split(c5, ann_tokens(f.ret), wb, line);
    let c6 = ahead(c5, ann_tokens(f.ret).len() as int);
    lemma_next(c6, plain(Tok::LBrace), stmts_tokens(f.body.stmts, 0), line);
    let c7 = ahead(c6, 1);
    assert(tok_at(c3, params_tokens(f.params, 0).len() as int) == c4.toks[c4.pos]);
    assert(tok_at(c5, ann_tokens(f.ret).len() as int) == c6.toks[c6.pos]);
    assert(f.params.take(0) =~= Seq::empty());
    assert(f.body.stmts.take(0) =~= Seq::empty());
    read_params(f.params, 0, c3, Seq::empty(), line);
    read_ann(f.ret, c5, 0, line);
    read_body(f.body.stmts, 0, c7, f.ret is Some, Seq::empty(), line);
    assert(type_params(c2) == Ok::<(Seq<Seq<char>>, Cur), Seq<char>>((Seq::empty(), c2))) by {
        reveal(type_params);
    }
    assert(f.type_params =~= Seq::<Seq<char>>::empty());
    assert(c.expect(Tok::Fn) == Ok::<Cur, Seq<char>>(c1));
    assert(c1.ident() == Ok::<(Seq<char>, Cur), Seq<char>>((f.name, c2)));
    assert(params(c2, 0) == Ok::<(Seq<(Seq<char>, TypeExprView)>, Cur), Seq<char>>((f.params, c5)));
    assert(ahead(c7, stmts_tokens(f.body.stmts, 0).len() as int) == end);
    assert(BlockView { stmts: f.body.stmts } == f.body);
    assert(fn_body(c6, 0, f.ret is Some) == Ok::<(BlockView, Cur), Seq<char>>((f.body, end)));
    reveal(func_def);
}

/// The tokens of functions from `i` on.
pub open spec fn funcs_tokens(fs: Seq<FuncDefView>, i: nat) -> Seq<TokView>
    decreases fs.len() - i,
{
    if i >= fs.len() {
        seq![]
    } else {
        func_tokens(fs[i as int]) + funcs_tokens(fs, i + 1)
    }
}

proof fn read_items(fs: Seq<FuncDefView>, i: nat, c: Cur, p: ProgramView, line: u32)
    requires
        i <= fs.len(),
        forall|k: int| 0 <= k < fs.len() ==> func_readable(#[trigger] fs[k], line),
        p.funcs == fs.take(i as int),
        spelled(c, funcs_tokens(fs, i), line),
        tok_at(c, funcs_tokens(fs, i).len() as int).tok == plain(Tok::Eof),
    ensures
        items(c, p) == Ok::<ProgramView, Seq<char>>(ProgramView { funcs: fs, ..p }),
    decreases fs.len() - i,
{
    let end = ahead(c, funcs_tokens(fs, i).len() as int);
    assert(tok_at(c, funcs_tokens(fs, i).len() as int) == end.toks[end.pos]);
    if i >= fs.len() {
        assert(p.funcs =~= fs);
        assert(end == c);
    } else {
        let f = fs[i as int];
        let rest = funcs_tokens(fs, i + 1);
        lemma_split(c, func_tokens(f), rest, line);
        let c1 = ahead(c, func_tokens(f).len() as int);
        assert(tok_at(c, 0) == c.toks[c.pos] && func_tokens(f)[0] == plain(Tok::Fn));
        assert(func_tokens(f).len() > 0);
        assert(tok_at(c1, rest.len() as int) == end.toks[end.pos]);
        read_func(f, c, line);
        assert(p.funcs.push(f) =~= fs.take(i as int + 1));
        let q = ProgramView { funcs: p.funcs.push(f), ..p };
        read_items(fs, i + 1, c1, q, line);
        assert(c.before(c1));
    }
}

/// The tokens of functions, written on one line, are parsed as these functions:
/// the parser drops, adds and reorders nothing.
pub proof fn law_functions_are_read(toks: Seq<TokenView>, fs: Seq<FuncDefView>, line: u32)
    requires
        forall|k: int| 0 <= k < fs.len() ==> func_readable(#[trigger] fs[k], line),
        toks.len() == funcs_tokens(fs, 0).len() + 1,
        forall|i: int|
            0 <= i < toks.len() - 1 ==> (#[trigger] toks[i]).tok == funcs_tokens(fs, 0)[i]
                && toks[i].line == line,
        toks.last().tok == plain(Tok::Eof),
    ensures
        parse_spec(toks) matches Ok(p) && p.funcs == fs && p.structs.len() == 0 && p.enums.len()
            == 0 && p.methods.len() == 0,
{
    let c = Cur { toks, pos: 0 };
    assert forall|i: int| 0 <= i < funcs_tokens(fs, 0).len() implies (#[trigger] tok_at(c, i)).tok
        == funcs_tokens(fs, 0)[i] && tok_at(c, i).line == line by {
        assert(tok_at(c, i) == toks[i]);
    }
    assert(fs.take(0) =~= Seq::empty());
    let p = ProgramView {
        structs: Seq::empty(),
        enums: Seq::empty(),
        funcs: Seq::empty(),
        methods: Seq::empty(),
    };
    read_items(fs, 0, c, p, line);
}

} // verus!
