//! How tightly operators bind: the documented table, row by row, and what
//! sequences of tokens parse to by it.
use vstd::prelude::*;

use crate::ast::{BinOp, ExprKindView, ExprView, TypeExprView, UnOp};
use crate::grammar::{
    binary, binary_rest, cast, cast_rest, expr, member, operator_at, plain, postfix, postfix_rest,
    primary, type_expr, type_inner, unary, unary_inner, unary_op, Cur, MAX_DEPTH,
};
use crate::lexer::{Tok, TokView, TokenView};

verus! {

/// A binary operator's row in the table of precedences.
#[derive(PartialEq, Eq, Structural)]
pub enum Row {
    Or,
    And,
    Equality,
    Comparison,
    BitOr,
    BitXor,
    BitAnd,
    Shift,
    Sum,
    Product,
}

/// The rows from the loosest to the tightest.
pub open spec fn rows() -> Seq<Row> {
    seq![
        Row::Or,
        Row::And,
        Row::Equality,
        Row::Comparison,
        Row::BitOr,
        Row::BitXor,
        Row::BitAnd,
        Row::Shift,
        Row::Sum,
        Row::Product,
    ]
}

/// The operators, with the tokens that write them and their rows.
pub open spec fn listed(t: Tok, op: BinOp, row: Row) -> bool {
    match row {
        Row::Or => t is OrOr && op is Or,
        Row::And => t is AndAnd && op is And,
        Row::Equality => (t is Eq && op is Eq) || (t is Ne && op is Ne),
        Row::Comparison => {
            ||| t is Lt && op is Lt
            ||| t is Le && op is Le
            ||| t is Gt && op is Gt
            ||| t is Ge && op is Ge
        },
        Row::BitOr => t is Pipe && op is BitOr,
        Row::BitXor => t is Caret && op is BitXor,
        Row::BitAnd => t is Amp && op is BitAnd,
        Row::Shift => (t is Shl && op is Shl) || (t is Shr && op is Shr),
        Row::Sum => (t is Plus && op is Add) || (t is Minus && op is Sub),
        Row::Product => {
            ||| t is Star && op is Mul
            ||| t is Slash && op is Div
            ||| t is Percent && op is Rem
        },
    }
}

/// Does row `a` bind tighter than row `b`?
pub open spec fn tighter(a: Row, b: Row) -> bool {
    exists|i: int, j: int|
        0 <= i < j < rows().len() && #[trigger] rows()[i] == b && #[trigger] rows()[j] == a
}

/// Is the token an operator of the table?
pub open spec fn is_operator(t: TokView) -> bool {
    exists|k: Tok, op: BinOp, row: Row| t == plain(k) && #[trigger] listed(k, op, row)
}

/// Does the token end an operand: does it neither call, select, index nor cast,
/// nor begin the fields of a literal?
pub open spec fn ends_operand(t: TokView) -> bool {
    t != plain(Tok::LParen) && t != plain(Tok::Dot) && t != plain(Tok::LBracket) && t != plain(
        Tok::As,
    ) && t != plain(Tok::LBrace)
}

/// What a token is on its own as an operand: a literal or a name.
pub open spec fn operand(t: TokView) -> Option<ExprKindView> {
    match t {
        TokView::Plain(Tok::Int(v)) => Some(ExprKindView::Int(v)),
        TokView::Plain(Tok::Byte(v)) => Some(ExprKindView::Byte(v)),
        TokView::Plain(Tok::True) => Some(ExprKindView::Bool(true)),
        TokView::Plain(Tok::False) => Some(ExprKindView::Bool(false)),
        TokView::Float(s) => Some(ExprKindView::Float(s)),
        TokView::Str(s) => Some(ExprKindView::Str(s)),
        TokView::Ident(name) => Some(ExprKindView::Var { name, res: None }),
        _ => None,
    }
}

/// The tree of an operand token.
pub open spec fn leaf(t: TokenView) -> ExprView {
    ExprView::fresh(operand(t.tok)->0, t.line)
}

/// The tree of an operator between two operands, on the operator's line.
pub open spec fn joined(op: BinOp, line: u32, a: ExprView, b: ExprView) -> ExprView {
    ExprView::fresh(ExprKindView::Binary(op, Box::new(a), Box::new(b)), line)
}

/// The place `n` tokens ahead.
pub open spec fn ahead(c: Cur, n: int) -> Cur {
    Cur { toks: c.toks, pos: c.pos + n }
}

// -- The table and the levels -----------------------------------------------

spec fn level_of(row: Row) -> int {
    match row {
        Row::Or => 0,
        Row::And => 1,
        Row::Equality => 2,
        Row::Comparison => 3,
        Row::BitOr => 4,
        Row::BitXor => 5,
        Row::BitAnd => 6,
        Row::Shift => 7,
        Row::Sum => 8,
        Row::Product => 9,
    }
}

proof fn lemma_rows(row: Row)
    ensures
        0 <= level_of(row) < 10,
        rows()[level_of(row)] == row,
        forall|i: int| 0 <= i < 10 && #[trigger] rows()[i] == row ==> i == level_of(row),
{
}

proof fn lemma_tighter(a: Row, b: Row)
    ensures
        tighter(a, b) == (level_of(a) > level_of(b)),
{
    lemma_rows(a);
    lemma_rows(b);
    if level_of(a) > level_of(b) {
        assert(rows()[level_of(b)] == b && rows()[level_of(a)] == a);
    }
}

proof fn lemma_operator(t: Tok, op: BinOp, row: Row)
    requires
        listed(t, op, row),
    ensures
        operator_at(level_of(row), plain(t)) == Some(op),
        forall|l: int| l != level_of(row) ==> #[trigger] operator_at(l, plain(t)) is None,
        ends_operand(plain(t)),
{
}

pub proof fn lemma_no_operator(t: TokView)
    requires
        !is_operator(t),
    ensures
        forall|l: int| #[trigger] operator_at(l, t) is None,
{
    assert forall|l: int| #[trigger] operator_at(l, t) is None by {
        if let Some(op) = operator_at(l, t) {
            if let TokView::Plain(k) = t {
                let row = match k {
                    Tok::OrOr => Row::Or,
                    Tok::AndAnd => Row::And,
                    Tok::Eq | Tok::Ne => Row::Equality,
                    Tok::Lt | Tok::Le | Tok::Gt | Tok::Ge => Row::Comparison,
                    Tok::Pipe => Row::BitOr,
                    Tok::Caret => Row::BitXor,
                    Tok::Amp => Row::BitAnd,
                    Tok::Shl | Tok::Shr => Row::Shift,
                    Tok::Plus | Tok::Minus => Row::Sum,
                    _ => Row::Product,
                };
                assert(listed(k, op, row));
            }
        }
    }
}

// -- Operands between operators ---------------------------------------------

/// Going to looser levels adds nothing where no operator of theirs follows.
pub proof fn lemma_looser(c: Cur, d: int, ns: bool, from: int, to: int, x: ExprView, c1: Cur)
    requires
        0 <= to <= from <= 10,
        binary(c, d, ns, from) == Ok::<(ExprView, Cur), Seq<char>>((x, c1)),
        forall|l: int| to <= l < from ==> #[trigger] operator_at(l, c1.peek()) is None,
    ensures
        binary(c, d, ns, to) == Ok::<(ExprView, Cur), Seq<char>>((x, c1)),
    decreases from - to,
{
    if to < from {
        let l = from - 1;
        assert(operator_at(l, c1.peek()) is None);
        assert(binary_rest(c1, d, ns, l, x) == Ok::<(ExprView, Cur), Seq<char>>((x, c1)));
        assert(binary(c, d, ns, l) == Ok::<(ExprView, Cur), Seq<char>>((x, c1)));
        lemma_looser(c, d, ns, l, to, x, c1);
    }
}

/// An operand and what follows it.
pub open spec fn reads(c: Cur, d: int, ns: bool, x: ExprView, c1: Cur) -> bool {
    cast(c, d, ns) == Ok::<(ExprView, Cur), Seq<char>>((x, c1)) && c.before(c1) && 0 <= c.pos
        && c1.pos < c1.toks.len()
}

/// `a p b`, up to a token whose operator is not as tight as `p`.
proof fn lemma_two(
    c: Cur,
    d: int,
    ns: bool,
    level: int,
    a: ExprView,
    c1: Cur,
    op: BinOp,
    b: ExprView,
    c2: Cur,
)
    requires
        0 <= level < 10,
        reads(c, d, ns, a, c1),
        operator_at(level, c1.peek()) == Some(op),
        forall|l: int| l != level ==> #[trigger] operator_at(l, c1.peek()) is None,
        reads(c1.bump(), d, ns, b, c2),
        forall|l: int| level <= l ==> #[trigger] operator_at(l, c2.peek()) is None,
    ensures
        binary(c, d, ns, level) == Ok::<(ExprView, Cur), Seq<char>>(
            (joined(op, c1.line(), a, b), c2),
        ),
{
    reveal_with_fuel(binary_rest, 3);
    assert(binary(c, d, ns, 10) == Ok::<(ExprView, Cur), Seq<char>>((a, c1)));
    lemma_looser(c, d, ns, 10, level + 1, a, c1);
    assert(binary(c1.bump(), d, ns, 10) == Ok::<(ExprView, Cur), Seq<char>>((b, c2)));
    lemma_looser(c1.bump(), d, ns, 10, level + 1, b, c2);
    assert(operator_at(level, c2.peek()) is None);
    let y = joined(op, c1.line(), a, b);
    assert(binary_rest(c2, d, ns, level, y) == Ok::<(ExprView, Cur), Seq<char>>((y, c2)));
    assert(binary_rest(c1, d, ns, level, a) == Ok::<(ExprView, Cur), Seq<char>>((y, c2)));
}

/// `a p b`, of operands that are read as such, up to a token that is no operator.
pub proof fn lemma_pair(
    c: Cur,
    d: int,
    ns: bool,
    p: (Tok, BinOp, Row),
    a: ExprView,
    c1: Cur,
    b: ExprView,
    c2: Cur,
)
    requires
        listed(p.0, p.1, p.2),
        d + 1 <= MAX_DEPTH,
        reads(c, d + 1, ns, a, c1),
        c1.peek() == plain(p.0),
        reads(c1.bump(), d + 1, ns, b, c2),
        !is_operator(c2.peek()),
    ensures
        expr(c, d, ns) == Ok::<(ExprView, Cur), Seq<char>>((joined(p.1, c1.line(), a, b), c2)),
{
    lemma_operator(p.0, p.1, p.2);
    lemma_no_operator(c2.peek());
    lemma_rows(p.2);
    let y = joined(p.1, c1.line(), a, b);
    lemma_two(c, d + 1, ns, level_of(p.2), a, c1, p.1, b, c2);
    lemma_looser(c, d + 1, ns, level_of(p.2), 0, y, c2);
}

/// `a p b q c`, of operands that are read as such, up to a token that is no
/// operator.
proof fn lemma_three(
    c: Cur,
    d: int,
    ns: bool,
    p: (Tok, BinOp, Row),
    q: (Tok, BinOp, Row),
    a: ExprView,
    c1: Cur,
    b: ExprView,
    c2: Cur,
    x: ExprView,
    c3: Cur,
)
    requires
        listed(p.0, p.1, p.2),
        listed(q.0, q.1, q.2),
        reads(c, d, ns, a, c1),
        c1.peek() == plain(p.0),
        reads(c1.bump(), d, ns, b, c2),
        c2.peek() == plain(q.0),
        reads(c2.bump(), d, ns, x, c3),
        !is_operator(c3.peek()),
    ensures
        binary(c, d, ns, 0) == Ok::<(ExprView, Cur), Seq<char>>(
            (
                if tighter(q.2, p.2) {
                    joined(p.1, c1.line(), a, joined(q.1, c2.line(), b, x))
                } else {
                    joined(q.1, c2.line(), joined(p.1, c1.line(), a, b), x)
                },
                c3,
            ),
        ),
{
    lemma_operator(p.0, p.1, p.2);
    lemma_operator(q.0, q.1, q.2);
    lemma_no_operator(c3.peek());
    lemma_rows(p.2);
    lemma_rows(q.2);
    lemma_tighter(q.2, p.2);
    let (lp, lq) = (level_of(p.2), level_of(q.2));
    let pab = joined(p.1, c1.line(), a, b);
    let qbx = joined(q.1, c2.line(), b, x);
    assert(operator_at(lp, c1.peek()) == Some(p.1));
    assert(operator_at(lq, c2.peek()) == Some(q.1));
    assert(operator_at(lp, c3.peek()) is None && operator_at(lq, c3.peek()) is None);
    if lq > lp {
        let y = joined(p.1, c1.line(), a, qbx);
        assert(binary(c, d, ns, 10) == Ok::<(ExprView, Cur), Seq<char>>((a, c1)));
        lemma_looser(c, d, ns, 10, lp + 1, a, c1);
        lemma_two(c1.bump(), d, ns, lq, b, c2, q.1, x, c3);
        lemma_looser(c1.bump(), d, ns, lq, lp + 1, qbx, c3);
        assert(binary_rest(c3, d, ns, lp, y) == Ok::<(ExprView, Cur), Seq<char>>((y, c3)));
        assert(binary_rest(c1, d, ns, lp, a) == Ok::<(ExprView, Cur), Seq<char>>((y, c3)));
        lemma_looser(c, d, ns, lp, 0, y, c3);
    } else {
        let y = joined(q.1, c2.line(), pab, x);
        assert(binary(c2.bump(), d, ns, 10) == Ok::<(ExprView, Cur), Seq<char>>((x, c3)));
        lemma_looser(c2.bump(), d, ns, 10, lq + 1, x, c3);
        assert(binary_rest(c3, d, ns, lq, y) == Ok::<(ExprView, Cur), Seq<char>>((y, c3)));
        assert(binary_rest(c2, d, ns, lq, pab) == Ok::<(ExprView, Cur), Seq<char>>((y, c3)));
        if lq == lp {
            assert(binary(c, d, ns, 10) == Ok::<(ExprView, Cur), Seq<char>>((a, c1)));
            lemma_looser(c, d, ns, 10, lp + 1, a, c1);
            assert(binary(c1.bump(), d, ns, 10) == Ok::<(ExprView, Cur), Seq<char>>((b, c2)));
            lemma_looser(c1.bump(), d, ns, 10, lp + 1, b, c2);
            assert(binary_rest(c1, d, ns, lp, a) == Ok::<(ExprView, Cur), Seq<char>>((y, c3)));
        } else {
            lemma_two(c, d, ns, lp, a, c1, p.1, b, c2);
            lemma_looser(c, d, ns, lp, lq + 1, pab, c2);
        }
        lemma_looser(c, d, ns, lq, 0, y, c3);
    }
}

// -- Operands ---------------------------------------------------------------

/// A token that stands for itself is an operand where the next one ends it.
pub proof fn lemma_leaf(c: Cur, d: int, ns: bool)
    requires
        operand(c.peek()) is Some,
        0 <= c.pos < c.toks.len() - 1,
        ends_operand(ahead(c, 1).peek()),
        d + 1 <= MAX_DEPTH,
    ensures
        postfix(c, d + 1, ns) == Ok::<(ExprView, Cur), Seq<char>>(
            (leaf(c.toks[c.pos]), ahead(c, 1)),
        ),
        unary(c, d, ns) == Ok::<(ExprView, Cur), Seq<char>>((leaf(c.toks[c.pos]), ahead(c, 1))),
        reads(c, d, ns, leaf(c.toks[c.pos]), ahead(c, 1)),
{
    let x = leaf(c.toks[c.pos]);
    let c1 = ahead(c, 1);
    assert(c.bump() == c1);
    assert(primary(c, d + 1, ns) == Ok::<(ExprView, Cur), Seq<char>>((x, c1)));
    assert(postfix_rest(c1, d + 1, ns, x) == Ok::<(ExprView, Cur), Seq<char>>((x, c1)));
    assert(postfix(c, d + 1, ns) == Ok::<(ExprView, Cur), Seq<char>>((x, c1)));
    assert(unary_op(c.peek()) is None);
    assert(unary_inner(c, d + 1, ns) == Ok::<(ExprView, Cur), Seq<char>>((x, c1)));
    assert(cast_rest(c1, d, x) == Ok::<(ExprView, Cur), Seq<char>>((x, c1)));
}

/// Is a single operand followed by an operator of the table at `c`?
pub open spec fn applied_to(c: Cur, t: Tok, op: BinOp, row: Row) -> bool {
    operand(c.peek()) is Some && ahead(c, 1).peek() == plain(t) && listed(t, op, row)
}

/// Does an operand stand last at `c`, before a token that neither continues it
/// nor is an operator?
pub open spec fn ends_with(c: Cur) -> bool {
    operand(c.peek()) is Some && ends_operand(ahead(c, 1).peek()) && !is_operator(
        ahead(c, 1).peek(),
    )
}

/// The operand tokens `a`, `b` and `c` with operators `p` and `q` between them
/// are `p(a, q(b, c))` where `q` is in a tighter row of the table than `p`, and
/// `q(p(a, b), c)` otherwise. Operators of one row are taken from left to right.
pub proof fn law_precedence(
    c: Cur,
    d: int,
    ns: bool,
    p: (Tok, BinOp, Row),
    q: (Tok, BinOp, Row),
)
    requires
        0 <= c.pos,
        c.pos + 6 < c.toks.len(),
        d + 2 <= MAX_DEPTH,
        applied_to(c, p.0, p.1, p.2),
        applied_to(ahead(c, 2), q.0, q.1, q.2),
        ends_with(ahead(c, 4)),
    ensures
        ({
            let (a, b, x) = (
                leaf(c.toks[c.pos]),
                leaf(c.toks[c.pos + 2]),
                leaf(c.toks[c.pos + 4]),
            );
            let (lp, lq) = (c.toks[c.pos + 1].line, c.toks[c.pos + 3].line);
            expr(c, d, ns) == Ok::<(ExprView, Cur), Seq<char>>(
                (
                    if tighter(q.2, p.2) {
                        joined(p.1, lp, a, joined(q.1, lq, b, x))
                    } else {
                        joined(q.1, lq, joined(p.1, lp, a, b), x)
                    },
                    ahead(c, 5),
                ),
            )
        }),
{
    lemma_operator(p.0, p.1, p.2);
    lemma_operator(q.0, q.1, q.2);
    let (c1, c2, c3) = (ahead(c, 1), ahead(c, 3), ahead(c, 5));
    assert(c1.bump() == ahead(c, 2) && c2.bump() == ahead(c, 4));
    assert(ahead(ahead(c, 2), 1) == c2 && ahead(ahead(c, 4), 1) == c3);
    lemma_leaf(c, d + 1, ns);
    lemma_leaf(ahead(c, 2), d + 1, ns);
    lemma_leaf(ahead(c, 4), d + 1, ns);
    lemma_three(
        c,
        d + 1,
        ns,
        p,
        q,
        leaf(c.toks[c.pos]),
        c1,
        leaf(c.toks[c.pos + 2]),
        c2,
        leaf(c.toks[c.pos + 4]),
        c3,
    );
}

/// One operator between two operand tokens is the operation that it writes.
pub proof fn law_operator_is_read(c: Cur, d: int, ns: bool, p: (Tok, BinOp, Row))
    requires
        0 <= c.pos,
        c.pos + 4 < c.toks.len(),
        d + 2 <= MAX_DEPTH,
        applied_to(c, p.0, p.1, p.2),
        ends_with(ahead(c, 2)),
    ensures
        expr(c, d, ns) == Ok::<(ExprView, Cur), Seq<char>>(
            (
                joined(
                    p.1,
                    c.toks[c.pos + 1].line,
                    leaf(c.toks[c.pos]),
                    leaf(c.toks[c.pos + 2]),
                ),
                ahead(c, 3),
            ),
        ),
{
    lemma_operator(p.0, p.1, p.2);
    lemma_rows(p.2);
    let (c1, c2) = (ahead(c, 1), ahead(c, 3));
    assert(c1.bump() == ahead(c, 2) && ahead(ahead(c, 2), 1) == c2);
    lemma_no_operator(c2.peek());
    lemma_leaf(c, d + 1, ns);
    lemma_leaf(ahead(c, 2), d + 1, ns);
    let (a, b, l) = (leaf(c.toks[c.pos]), leaf(c.toks[c.pos + 2]), level_of(p.2));
    assert(operator_at(l, c1.peek()) == Some(p.1));
    lemma_two(c, d + 1, ns, l, a, c1, p.1, b, c2);
    lemma_looser(c, d + 1, ns, l, 0, joined(p.1, c1.line(), a, b), c2);
}

/// The three rows at the end of the table, as it names them: `*`, `/` and `%`
/// are in one row, and bind tighter than `+` and `-`, which are in one row too.
pub proof fn law_products_before_sums(a: Tok, x: BinOp, r: Row, b: Tok, y: BinOp, s: Row)
    requires
        a is Star || a is Slash || a is Percent,
        b is Plus || b is Minus,
        listed(a, x, r),
        listed(b, y, s),
    ensures
        r is Product,
        s is Sum,
        tighter(r, s),
        !tighter(r, r),
        !tighter(s, s),
{
    lemma_tighter(r, s);
    lemma_tighter(r, r);
    lemma_tighter(s, s);
}

// -- Prefixes, casts and what follows an operand ------------------------------

/// The prefix operators.
pub open spec fn prefix(t: Tok, op: UnOp) -> bool {
    (t is Minus && op is Neg) || (t is Not && op is Not) || (t is Tilde && op is BitNot)
}

/// The tree of a prefix operator before an operand.
pub open spec fn prefixed(op: UnOp, line: u32, a: ExprView) -> ExprView {
    ExprView::fresh(ExprKindView::Unary(op, Box::new(a)), line)
}

/// The tree of an operand cast to a type that a name alone says.
pub open spec fn cast_to(t: TokenView, line: u32, a: ExprView) -> ExprView {
    ExprView::fresh(
        ExprKindView::Cast(
            Box::new(a),
            TypeExprView::Named(t.tok->Ident_0, Seq::empty(), t.line),
        ),
        line,
    )
}

/// `u a` is an operand, up to a token that ends it; so is `u a as T`.
proof fn lemma_prefixed(c: Cur, d: int, ns: bool, t: Tok, u: UnOp)
    requires
        prefix(t, u),
        c.peek() == plain(t),
        operand(ahead(c, 1).peek()) is Some,
        0 <= c.pos < c.toks.len() - 3,
        d + 2 <= MAX_DEPTH,
        ends_operand(ahead(c, 2).peek()) || ahead(c, 2).peek() == plain(Tok::As),
    ensures
        unary(c, d, ns) == Ok::<(ExprView, Cur), Seq<char>>(
            (prefixed(u, c.line(), leaf(c.toks[c.pos + 1])), ahead(c, 2)),
        ),
{
    let c1 = ahead(c, 1);
    let c2 = ahead(c, 2);
    let x = leaf(c.toks[c.pos + 1]);
    assert(c.bump() == c1 && c1.bump() == c2);
    assert(unary_op(c.peek()) == Some(u));
    assert(primary(c1, d + 2, ns) == Ok::<(ExprView, Cur), Seq<char>>((x, c2)));
    assert(postfix_rest(c2, d + 2, ns, x) == Ok::<(ExprView, Cur), Seq<char>>((x, c2)));
    assert(unary_op(c1.peek()) is None);
    assert(unary_inner(c1, d + 2, ns) == Ok::<(ExprView, Cur), Seq<char>>((x, c2)));
    assert(unary(c1, d + 1, ns) == Ok::<(ExprView, Cur), Seq<char>>((x, c2)));
}

/// `as T` after what a prefix applies to.
proof fn lemma_cast(c: Cur, d: int, x: ExprView)
    requires
        c.at(Tok::As),
        ahead(c, 1).peek() is Ident,
        0 <= c.pos < c.toks.len() - 3,
        d + 1 <= MAX_DEPTH,
        ends_operand(ahead(c, 2).peek()),
        ahead(c, 2).peek() != plain(Tok::Lt),
    ensures
        cast_rest(c, d, x) == Ok::<(ExprView, Cur), Seq<char>>(
            (cast_to(c.toks[c.pos + 1], c.line(), x), ahead(c, 2)),
        ),
{
    let c1 = ahead(c, 1);
    let c2 = ahead(c, 2);
    assert(c.bump() == c1 && c1.bump() == c2);
    let t = TypeExprView::Named(c1.peek()->Ident_0, Seq::empty(), c1.line());
    assert(type_inner(c1, d + 1) == Ok::<(TypeExprView, Cur), Seq<char>>((t, c2)));
    assert(type_expr(c1, d) == Ok::<(TypeExprView, Cur), Seq<char>>((t, c2)));
    let y = cast_to(c.toks[c.pos + 1], c.line(), x);
    assert(cast_rest(c2, d, y) == Ok::<(ExprView, Cur), Seq<char>>((y, c2)));
}

/// A prefix binds tighter than every operator of the table: `u a p v b` is
/// `p(u(a), v(b))`.
pub proof fn law_prefix_before_operators(
    c: Cur,
    d: int,
    ns: bool,
    u: (Tok, UnOp),
    p: (Tok, BinOp, Row),
    v: (Tok, UnOp),
)
    requires
        0 <= c.pos,
        c.pos + 6 < c.toks.len(),
        d + 3 <= MAX_DEPTH,
        prefix(u.0, u.1),
        prefix(v.0, v.1),
        c.peek() == plain(u.0),
        applied_to(ahead(c, 1), p.0, p.1, p.2),
        ahead(c, 3).peek() == plain(v.0),
        ends_with(ahead(c, 4)),
    ensures
        expr(c, d, ns) == Ok::<(ExprView, Cur), Seq<char>>(
            (
                joined(
                    p.1,
                    c.toks[c.pos + 2].line,
                    prefixed(u.1, c.line(), leaf(c.toks[c.pos + 1])),
                    prefixed(v.1, c.toks[c.pos + 3].line, leaf(c.toks[c.pos + 4])),
                ),
                ahead(c, 5),
            ),
        ),
{
    lemma_operator(p.0, p.1, p.2);
    lemma_rows(p.2);
    let (c1, c2, c3) = (ahead(c, 2), ahead(c, 3), ahead(c, 5));
    assert(ahead(ahead(c, 1), 1) == c1 && c1.bump() == c2 && ahead(ahead(c, 4), 1) == c3);
    assert(ahead(c2, 1) == ahead(c, 4) && ahead(c2, 2) == c3);
    lemma_no_operator(c3.peek());
    lemma_prefixed(c, d + 1, ns, u.0, u.1);
    lemma_prefixed(c2, d + 1, ns, v.0, v.1);
    let a = prefixed(u.1, c.line(), leaf(c.toks[c.pos + 1]));
    let b = prefixed(v.1, c2.line(), leaf(c.toks[c.pos + 4]));
    assert(cast_rest(c1, d + 1, a) == Ok::<(ExprView, Cur), Seq<char>>((a, c1)));
    assert(cast_rest(c3, d + 1, b) == Ok::<(ExprView, Cur), Seq<char>>((b, c3)));
    let l = level_of(p.2);
    assert(operator_at(l, c1.peek()) == Some(p.1));
    lemma_two(c, d + 1, ns, l, a, c1, p.1, b, c3);
    lemma_looser(c, d + 1, ns, l, 0, joined(p.1, c1.line(), a, b), c3);
}

/// `as` binds looser than a prefix and tighter than every operator of the table:
/// `u a as T p b as S` is `p(u(a) as T, b as S)`. (A `<` behind a type begins its
/// arguments.)
pub proof fn law_casts_between(
    c: Cur,
    d: int,
    ns: bool,
    u: (Tok, UnOp),
    p: (Tok, BinOp, Row),
)
    requires
        0 <= c.pos,
        c.pos + 9 < c.toks.len(),
        d + 3 <= MAX_DEPTH,
        prefix(u.0, u.1),
        listed(p.0, p.1, p.2),
        !(p.0 is Lt),
        c.peek() == plain(u.0),
        operand(ahead(c, 1).peek()) is Some,
        ahead(c, 2).at(Tok::As),
        ahead(c, 3).peek() is Ident,
        ahead(c, 4).at(p.0),
        operand(ahead(c, 5).peek()) is Some,
        ahead(c, 6).at(Tok::As),
        ahead(c, 7).peek() is Ident,
        ends_operand(ahead(c, 8).peek()),
        !is_operator(ahead(c, 8).peek()),
    ensures
        expr(c, d, ns) == Ok::<(ExprView, Cur), Seq<char>>(
            (
                joined(
                    p.1,
                    c.toks[c.pos + 4].line,
                    cast_to(
                        c.toks[c.pos + 3],
                        c.toks[c.pos + 2].line,
                        prefixed(u.1, c.line(), leaf(c.toks[c.pos + 1])),
                    ),
                    cast_to(
                        c.toks[c.pos + 7],
                        c.toks[c.pos + 6].line,
                        leaf(c.toks[c.pos + 5]),
                    ),
                ),
                ahead(c, 8),
            ),
        ),
{
    lemma_operator(p.0, p.1, p.2);
    lemma_rows(p.2);
    let (c1, c2, c3) = (ahead(c, 4), ahead(c, 5), ahead(c, 8));
    assert(c1.bump() == c2);
    assert(ahead(ahead(c, 2), 1) == ahead(c, 3) && ahead(ahead(c, 2), 2) == c1);
    assert(ahead(ahead(c, 6), 1) == ahead(c, 7) && ahead(ahead(c, 6), 2) == c3);
    assert(listed(Tok::Lt, BinOp::Lt, Row::Comparison));
    assert(c3.peek() != plain(Tok::Lt));
    lemma_no_operator(c3.peek());
    let x = prefixed(u.1, c.line(), leaf(c.toks[c.pos + 1]));
    lemma_prefixed(c, d + 1, ns, u.0, u.1);
    lemma_cast(ahead(c, 2), d + 1, x);
    let y = leaf(c.toks[c.pos + 5]);
    let c6 = ahead(c, 6);
    assert(c2.bump() == c6);
    assert(primary(c2, d + 2, ns) == Ok::<(ExprView, Cur), Seq<char>>((y, c6)));
    assert(postfix_rest(c6, d + 2, ns, y) == Ok::<(ExprView, Cur), Seq<char>>((y, c6)));
    assert(unary_op(c2.peek()) is None);
    assert(unary_inner(c2, d + 2, ns) == Ok::<(ExprView, Cur), Seq<char>>((y, c6)));
    assert(unary(c2, d + 1, ns) == Ok::<(ExprView, Cur), Seq<char>>((y, c6)));
    lemma_cast(c6, d + 1, y);
    let a = cast_to(c.toks[c.pos + 3], c.toks[c.pos + 2].line, x);
    let b = cast_to(c.toks[c.pos + 7], c.toks[c.pos + 6].line, y);
    let l = level_of(p.2);
    assert(operator_at(l, c1.peek()) == Some(p.1));
    lemma_two(c, d + 1, ns, l, a, c1, p.1, b, c3);
    lemma_looser(c, d + 1, ns, l, 0, joined(p.1, c1.line(), a, b), c3);
}

/// `a.f` is read after the operand `a`, up to a token that ends it.
pub proof fn lemma_member(c: Cur, d: int, ns: bool, x: ExprView)
    requires
        0 <= c.pos,
        c.pos + 2 < c.toks.len(),
        c.at(Tok::Dot),
        ahead(c, 1).peek() is Ident,
        ends_operand(ahead(c, 2).peek()),
    ensures
        postfix_rest(c, d, ns, x) == Ok::<(ExprView, Cur), Seq<char>>(
            (
                ExprView::fresh(
                    ExprKindView::Field {
                        obj: Box::new(x),
                        name: ahead(c, 1).peek()->Ident_0,
                        index: 0,
                    },
                    c.line(),
                ),
                ahead(c, 2),
            ),
        ),
{
    let (c1, c2) = (ahead(c, 1), ahead(c, 2));
    assert(c.bump() == c1 && c1.bump() == c2);
    let name = c1.peek()->Ident_0;
    let f = ExprView::fresh(
        ExprKindView::Field { obj: Box::new(x), name, index: 0 },
        c.line(),
    );
    assert(c1.ident() == Ok::<(Seq<char>, Cur), Seq<char>>((name, c2)));
    assert(member(c2, d, ns, x, name, c.line()) == Ok::<(ExprView, Cur), Seq<char>>((f, c2)));
    assert(postfix_rest(c2, d, ns, f) == Ok::<(ExprView, Cur), Seq<char>>((f, c2)));
}

/// A member access binds tighter than a prefix: `u a.f` is `u(a.f)`.
pub proof fn law_members_before_prefix(c: Cur, d: int, ns: bool, u: (Tok, UnOp))
    requires
        0 <= c.pos,
        c.pos + 5 < c.toks.len(),
        d + 3 <= MAX_DEPTH,
        prefix(u.0, u.1),
        c.peek() == plain(u.0),
        operand(ahead(c, 1).peek()) is Some,
        ahead(c, 2).at(Tok::Dot),
        ahead(c, 3).peek() is Ident,
        ends_operand(ahead(c, 4).peek()),
        !is_operator(ahead(c, 4).peek()),
    ensures
        expr(c, d, ns) == Ok::<(ExprView, Cur), Seq<char>>(
            (
                prefixed(
                    u.1,
                    c.line(),
                    ExprView::fresh(
                        ExprKindView::Field {
                            obj: Box::new(leaf(c.toks[c.pos + 1])),
                            name: ahead(c, 3).peek()->Ident_0,
                            index: 0,
                        },
                        c.toks[c.pos + 2].line,
                    ),
                ),
                ahead(c, 4),
            ),
        ),
{
    let (c1, c2, c3, c4) = (ahead(c, 1), ahead(c, 2), ahead(c, 3), ahead(c, 4));
    assert(c.bump() == c1 && c1.bump() == c2 && c2.bump() == c3 && c3.bump() == c4);
    let x = leaf(c.toks[c.pos + 1]);
    let f = ExprView::fresh(
        ExprKindView::Field { obj: Box::new(x), name: c3.peek()->Ident_0, index: 0 },
        c2.line(),
    );
    let y = prefixed(u.1, c.line(), f);
    lemma_no_operator(c4.peek());
    assert(primary(c1, d + 3, ns) == Ok::<(ExprView, Cur), Seq<char>>((x, c2)));
    assert(ahead(c2, 1) == c3 && ahead(c2, 2) == c4);
    lemma_member(c2, d + 3, ns, x);
    assert(unary_op(c1.peek()) is None && unary_op(c.peek()) == Some(u.1));
    assert(unary_inner(c1, d + 3, ns) == Ok::<(ExprView, Cur), Seq<char>>((f, c4)));
    assert(unary(c1, d + 2, ns) == Ok::<(ExprView, Cur), Seq<char>>((f, c4)));
    assert(unary_inner(c, d + 2, ns) == Ok::<(ExprView, Cur), Seq<char>>((y, c4)));
    assert(unary(c, d + 1, ns) == Ok::<(ExprView, Cur), Seq<char>>((y, c4)));
    assert(cast_rest(c4, d + 1, y) == Ok::<(ExprView, Cur), Seq<char>>((y, c4)));
    assert(binary(c, d + 1, ns, 10) == Ok::<(ExprView, Cur), Seq<char>>((y, c4)));
    lemma_looser(c, d + 1, ns, 10, 0, y, c4);
}

} // verus!
