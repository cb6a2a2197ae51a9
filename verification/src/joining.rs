//! That a text is lexed line by line: what stands before a newline is lexed as
//! if it stood alone, and so is what stands behind it.
use vstd::prelude::*;

use crate::lexer::{
    at, block_comment, byte_literal, digits_value, in_class, lemma_step_moves, lemma_string_escape,
    lex_from, lex_spec, line_comment, number, operator, run_end, step, string_escape, string_rest,
    token_at, Class, Pos, StepView, Tok, TokView, TokenView,
};

verus! {

/// Two texts with a newline between them.
pub open spec fn joined(a: Seq<char>, b: Seq<char>) -> Seq<char> {
    a.push('\n') + b
}

// -- The first text ---------------------------------------------------------

proof fn lemma_at(a: Seq<char>, b: Seq<char>, j: int)
    requires
        0 <= j <= a.len(),
    ensures
        j < a.len() ==> at(joined(a, b), j) == at(a, j),
        j == a.len() ==> at(joined(a, b), j) == '\n' && at(a, j) == '\0',
        joined(a, b).len() == a.len() + 1 + b.len(),
{
}

proof fn lemma_run(a: Seq<char>, b: Seq<char>, i: int, k: Class)
    requires
        0 <= i <= a.len(),
        !(k is NotNewline),
    ensures
        run_end(joined(a, b), i, k) == run_end(a, i, k),
        i <= run_end(a, i, k) <= a.len(),
    decreases a.len() - i,
{
    let s = joined(a, b);
    if i < a.len() {
        assert(s[i] == a[i]);
        if in_class(a[i], k) {
            lemma_run(a, b, i + 1, k);
        }
    } else {
        assert(s[i] == '\n');
    }
}

proof fn lemma_digits(a: Seq<char>, b: Seq<char>, i: int, j: int, base: nat)
    requires
        0 <= i,
        j <= a.len(),
    ensures
        digits_value(joined(a, b), i, j, base) == digits_value(a, i, j, base),
    decreases j - i,
{
    if j > i {
        assert(joined(a, b)[j - 1] == a[j - 1]);
        lemma_digits(a, b, i, j - 1, base);
    }
}

proof fn lemma_line_comment_alone(a: Seq<char>, b: Seq<char>, p: Pos)
    requires
        0 <= p.i <= a.len(),
    ensures
        line_comment(joined(a, b), p) == line_comment(a, p),
    decreases a.len() - p.i,
{
    if p.i < a.len() {
        assert(joined(a, b)[p.i] == a[p.i]);
        if a[p.i] != '\n' {
            lemma_line_comment_alone(a, b, p.past(a[p.i]));
        }
    } else {
        assert(joined(a, b)[p.i] == '\n');
    }
}

proof fn lemma_block_comment_alone(a: Seq<char>, b: Seq<char>, p: Pos, depth: nat)
    requires
        0 <= p.i,
        block_comment(a, p, depth) is Ok,
    ensures
        block_comment(joined(a, b), p, depth) == block_comment(a, p, depth),
    decreases a.len() - p.i,
{
    lemma_at(a, b, p.i);
    lemma_at(a, b, p.i + 1);
    assert(joined(a, b)[p.i] == a[p.i]);
    if at(a, p.i) == '*' && at(a, p.i + 1) == '/' {
        if depth > 1 {
            lemma_block_comment_alone(a, b, p.ahead(2), (depth - 1) as nat);
        }
    } else if at(a, p.i) == '/' && at(a, p.i + 1) == '*' {
        lemma_block_comment_alone(a, b, p.ahead(2), depth + 1);
    } else {
        lemma_block_comment_alone(a, b, p.past(a[p.i]), depth);
    }
}

proof fn lemma_escape_alone(a: Seq<char>, b: Seq<char>, p: Pos)
    requires
        0 <= p.i,
        string_escape(a, p) is Ok,
    ensures
        string_escape(joined(a, b), p) == string_escape(a, p),
{
    lemma_at(a, b, p.i);
    if at(a, p.i) == 'u' {
        lemma_at(a, b, p.i + 1);
        lemma_run(a, b, p.i + 2, Class::Hex);
        let e = run_end(a, p.i + 2, Class::Hex);
        lemma_at(a, b, e);
        lemma_digits(a, b, p.i + 2, e, 16);
        assert(joined(a, b).subrange(p.i + 2, e) =~= a.subrange(p.i + 2, e));
    }
}

proof fn lemma_string_alone(a: Seq<char>, b: Seq<char>, p: Pos, acc: Seq<char>)
    requires
        0 <= p.i,
        string_rest(a, p, acc) is Ok,
    ensures
        string_rest(joined(a, b), p, acc) == string_rest(a, p, acc),
    decreases a.len() - p.i,
{
    assert(joined(a, b)[p.i] == a[p.i]);
    if a[p.i] == '"' {
    } else if a[p.i] == '\\' {
        lemma_escape_alone(a, b, p.ahead(1));
        lemma_string_escape(a, p.ahead(1));
        lemma_string_escape(joined(a, b), p.ahead(1));
        let (c, q) = string_escape(a, p.ahead(1))->Ok_0;
        lemma_string_alone(a, b, q, acc.push(c));
    } else {
        lemma_string_alone(a, b, p.past(a[p.i]), acc.push(a[p.i]));
    }
}

proof fn lemma_byte_alone(a: Seq<char>, b: Seq<char>, p: Pos)
    requires
        0 <= p.i,
        byte_literal(a, p) is Token,
    ensures
        byte_literal(joined(a, b), p) == byte_literal(a, p),
{
    assert(joined(a, b)[p.i + 2] == a[p.i + 2]);
    lemma_at(a, b, p.i + 2);
    lemma_at(a, b, p.i + 3);
    if p.i + 4 <= a.len() {
        lemma_at(a, b, p.i + 4);
    }
    if p.i + 5 <= a.len() {
        lemma_at(a, b, p.i + 5);
    }
    if p.i + 6 <= a.len() {
        lemma_at(a, b, p.i + 6);
    }
}

proof fn lemma_number_alone(a: Seq<char>, b: Seq<char>, p: Pos)
    requires
        0 <= p.i <= a.len(),
    ensures
        number(joined(a, b), p) == number(a, p),
{
    lemma_run(a, b, p.i, Class::Digit);
    let e = run_end(a, p.i, Class::Digit);
    lemma_at(a, b, e);
    assert(joined(a, b).subrange(p.i, e) =~= a.subrange(p.i, e));
    lemma_digits(a, b, p.i, e, 10);
    if e < a.len() {
        lemma_at(a, b, e + 1);
        lemma_run(a, b, e + 1, Class::Digit);
        let f = run_end(a, e + 1, Class::Digit);
        assert(joined(a, b).subrange(p.i, f) =~= a.subrange(p.i, f));
    }
}

/// A step before the newline is the same as without what follows.
proof fn lemma_step_alone(a: Seq<char>, b: Seq<char>, p: Pos)
    requires
        0 <= p.i < a.len(),
        !(step(a, p) is Fail),
    ensures
        step(joined(a, b), p) == step(a, p),
{
    let s = joined(a, b);
    let c = at(a, p.i);
    let d = at(a, p.i + 1);
    lemma_at(a, b, p.i);
    lemma_at(a, b, p.i + 1);
    if c == '\n' || c == ' ' || c == '\t' || c == '\r' {
    } else if c == '/' && d == '/' {
        lemma_line_comment_alone(a, b, p);
    } else if c == '/' && d == '*' {
        lemma_block_comment_alone(a, b, p.ahead(2), 1);
    } else if crate::lexer::is_digit(c) {
        lemma_number_alone(a, b, p);
    } else if c == 'b' && d == '\'' {
        lemma_byte_alone(a, b, p);
    } else if crate::lexer::is_word_start(c) {
        lemma_run(a, b, p.i, Class::Word);
        let e = run_end(a, p.i, Class::Word);
        assert(s.subrange(p.i, e) =~= a.subrange(p.i, e));
    } else if c == '"' {
        lemma_string_alone(a, b, p.ahead(1), Seq::empty());
    } else {
        if p.i + 2 <= a.len() {
            lemma_at(a, b, p.i + 2);
        }
        assert(operator(s, p.i) == operator(a, p.i));
    }
}

/// Where lexing from a place ends.
pub open spec fn end_of(s: Seq<char>, p: Pos) -> Pos
    decreases s.len() - p.i,
{
    if p.i >= s.len() || p.i < 0 {
        p
    } else {
        match step(s, p) {
            StepView::Skip(q) => {
                proof {
                    lemma_step_moves(s, p);
                }
                end_of(s, q)
            },
            StepView::Token(_, q) => {
                proof {
                    lemma_step_moves(s, p);
                }
                end_of(s, q)
            },
            StepView::Fail(_, _) => p,
        }
    }
}

proof fn lemma_first(a: Seq<char>, b: Seq<char>, p: Pos, acc: Seq<TokenView>)
    requires
        0 <= p.i <= a.len(),
        lex_from(a, p, acc) is Ok,
    ensures
        ({
            let e = end_of(a, p);
            let ts = lex_from(a, p, acc)->Ok_0;
            &&& e.i == a.len()
            &&& ts.len() > 0
            &&& ts.last() == token_at(TokView::Plain(Tok::Eof), e, e)
            &&& lex_from(joined(a, b), p, acc) == lex_from(
                joined(a, b),
                Pos { i: a.len() as int + 1, line: e.line + 1, col: 1 },
                ts.drop_last(),
            )
        }),
    decreases a.len() - p.i,
{
    let s = joined(a, b);
    lemma_at(a, b, p.i);
    if p.i < a.len() {
        lemma_step_alone(a, b, p);
        lemma_step_moves(a, p);
        lemma_step_moves(s, p);
        match step(a, p) {
            StepView::Skip(q) => lemma_first(a, b, q, acc),
            StepView::Token(t, q) => lemma_first(a, b, q, acc.push(token_at(t, p, q))),
            StepView::Fail(_, _) => {},
        }
    } else {
        let ts = lex_from(a, p, acc)->Ok_0;
        assert(ts.drop_last() =~= acc);
        assert(step(s, p) == StepView::Skip(p.past('\n')));
    }
}

// -- The second text --------------------------------------------------------

/// The place in a text that stands behind `n` characters.
spec fn moved(p: Pos, n: int) -> Pos {
    Pos { i: p.i + n, line: p.line, col: p.col }
}

spec fn moved_step(r: StepView, n: int) -> StepView {
    match r {
        StepView::Skip(q) => StepView::Skip(moved(q, n)),
        StepView::Token(t, q) => StepView::Token(t, moved(q, n)),
        StepView::Fail(m, q) => StepView::Fail(m, moved(q, n)),
    }
}

proof fn lemma_at_moved(f: Seq<char>, b: Seq<char>, i: int)
    requires
        0 <= i,
    ensures
        at(f + b, i + f.len()) == at(b, i),
        i < b.len() ==> (f + b)[i + f.len()] == b[i],
{
}

proof fn lemma_run_moved(f: Seq<char>, b: Seq<char>, i: int, k: Class)
    requires
        0 <= i,
    ensures
        run_end(f + b, i + f.len(), k) == run_end(b, i, k) + f.len(),
        i <= run_end(b, i, k),
        i <= b.len() ==> run_end(b, i, k) <= b.len(),
        run_end(b, i, k) > i ==> run_end(b, i, k) <= b.len(),
    decreases b.len() - i,
{
    if i < b.len() {
        assert((f + b)[i + f.len()] == b[i]);
        if in_class(b[i], k) {
            lemma_run_moved(f, b, i + 1, k);
        }
    }
}

proof fn lemma_digits_moved(f: Seq<char>, b: Seq<char>, i: int, j: int, base: nat)
    requires
        0 <= i,
        j <= b.len(),
    ensures
        digits_value(f + b, i + f.len(), j + f.len(), base) == digits_value(b, i, j, base),
    decreases j - i,
{
    if j > i {
        assert((f + b)[j - 1 + f.len()] == b[j - 1]);
        lemma_digits_moved(f, b, i, j - 1, base);
    }
}

proof fn lemma_part_moved(f: Seq<char>, b: Seq<char>, i: int, j: int)
    requires
        0 <= i <= j <= b.len(),
    ensures
        (f + b).subrange(i + f.len(), j + f.len()) == b.subrange(i, j),
{
    assert((f + b).subrange(i + f.len(), j + f.len()) =~= b.subrange(i, j));
}

proof fn lemma_line_comment_moved(f: Seq<char>, b: Seq<char>, p: Pos)
    requires
        0 <= p.i,
    ensures
        line_comment(f + b, moved(p, f.len() as int)) == moved(
            line_comment(b, p),
            f.len() as int,
        ),
    decreases b.len() - p.i,
{
    if p.i < b.len() {
        assert((f + b)[p.i + f.len()] == b[p.i]);
        if b[p.i] != '\n' {
            lemma_line_comment_moved(f, b, p.past(b[p.i]));
        }
    }
}

proof fn lemma_block_comment_moved(f: Seq<char>, b: Seq<char>, p: Pos, depth: nat)
    requires
        0 <= p.i,
    ensures
        block_comment(f + b, moved(p, f.len() as int), depth) == (match block_comment(b, p, depth) {
            Ok(q) => Ok(moved(q, f.len() as int)),
            Err(q) => Err(moved(q, f.len() as int)),
        }),
    decreases b.len() - p.i,
{
    if p.i < b.len() {
        lemma_at_moved(f, b, p.i);
        lemma_at_moved(f, b, p.i + 1);
        if at(b, p.i) == '*' && at(b, p.i + 1) == '/' {
            if depth > 1 {
                lemma_block_comment_moved(f, b, p.ahead(2), (depth - 1) as nat);
            }
        } else if at(b, p.i) == '/' && at(b, p.i + 1) == '*' {
            lemma_block_comment_moved(f, b, p.ahead(2), depth + 1);
        } else {
            lemma_block_comment_moved(f, b, p.past(b[p.i]), depth);
        }
    }
}

proof fn lemma_escape_moved(f: Seq<char>, b: Seq<char>, p: Pos)
    requires
        0 <= p.i,
    ensures
        string_escape(f + b, moved(p, f.len() as int)) == (match string_escape(b, p) {
            Ok((c, q)) => Ok((c, moved(q, f.len() as int))),
            Err((m, q)) => Err((m, moved(q, f.len() as int))),
        }),
{
    lemma_at_moved(f, b, p.i);
    if p.i < b.len() && at(b, p.i) == 'u' {
        lemma_at_moved(f, b, p.i + 1);
        if at(b, p.i + 1) == '{' {
            lemma_run_moved(f, b, p.i + 2, Class::Hex);
            let e = run_end(b, p.i + 2, Class::Hex);
            lemma_at_moved(f, b, e);
            lemma_digits_moved(f, b, p.i + 2, e, 16);
            lemma_part_moved(f, b, p.i + 2, e);
        }
    }
}

proof fn lemma_string_moved(f: Seq<char>, b: Seq<char>, p: Pos, acc: Seq<char>)
    requires
        0 <= p.i,
    ensures
        string_rest(f + b, moved(p, f.len() as int), acc) == (match string_rest(b, p, acc) {
            Ok((t, q)) => Ok((t, moved(q, f.len() as int))),
            Err((m, q)) => Err((m, moved(q, f.len() as int))),
        }),
    decreases b.len() - p.i,
{
    if p.i < b.len() {
        lemma_at_moved(f, b, p.i);
        if b[p.i] == '"' {
        } else if b[p.i] == '\\' {
            lemma_escape_moved(f, b, p.ahead(1));
            lemma_string_escape(b, p.ahead(1));
            lemma_string_escape(f + b, moved(p.ahead(1), f.len() as int));
            if let Ok((c, q)) = string_escape(b, p.ahead(1)) {
                lemma_string_moved(f, b, q, acc.push(c));
            }
        } else {
            lemma_string_moved(f, b, p.past(b[p.i]), acc.push(b[p.i]));
        }
    }
}

proof fn lemma_byte_moved(f: Seq<char>, b: Seq<char>, p: Pos)
    requires
        0 <= p.i,
    ensures
        byte_literal(f + b, moved(p, f.len() as int)) == moved_step(
            byte_literal(b, p),
            f.len() as int,
        ),
{
    lemma_at_moved(f, b, p.i + 2);
    lemma_at_moved(f, b, p.i + 3);
    lemma_at_moved(f, b, p.i + 4);
    lemma_at_moved(f, b, p.i + 5);
    lemma_at_moved(f, b, p.i + 6);
}

proof fn lemma_number_moved(f: Seq<char>, b: Seq<char>, p: Pos)
    requires
        0 <= p.i < b.len(),
    ensures
        number(f + b, moved(p, f.len() as int)) == moved_step(number(b, p), f.len() as int),
{
    lemma_run_moved(f, b, p.i, Class::Digit);
    let e = run_end(b, p.i, Class::Digit);
    lemma_at_moved(f, b, e);
    lemma_at_moved(f, b, e + 1);
    lemma_part_moved(f, b, p.i, e);
    lemma_digits_moved(f, b, p.i, e, 10);
    if at(b, e) == '.' && crate::lexer::is_digit(at(b, e + 1)) {
        lemma_run_moved(f, b, e + 1, Class::Digit);
        lemma_part_moved(f, b, p.i, run_end(b, e + 1, Class::Digit));
    }
}

proof fn lemma_step_moved(f: Seq<char>, b: Seq<char>, p: Pos)
    requires
        0 <= p.i < b.len(),
    ensures
        step(f + b, moved(p, f.len() as int)) == moved_step(step(b, p), f.len() as int),
{
    let n = f.len() as int;
    let c = at(b, p.i);
    let d = at(b, p.i + 1);
    lemma_at_moved(f, b, p.i);
    lemma_at_moved(f, b, p.i + 1);
    lemma_at_moved(f, b, p.i + 2);
    if c == '\n' || c == ' ' || c == '\t' || c == '\r' {
    } else if c == '/' && d == '/' {
        lemma_line_comment_moved(f, b, p);
    } else if c == '/' && d == '*' {
        lemma_block_comment_moved(f, b, p.ahead(2), 1);
    } else if crate::lexer::is_digit(c) {
        lemma_number_moved(f, b, p);
    } else if c == 'b' && d == '\'' {
        lemma_byte_moved(f, b, p);
    } else if crate::lexer::is_word_start(c) {
        lemma_run_moved(f, b, p.i, Class::Word);
        lemma_part_moved(f, b, p.i, run_end(b, p.i, Class::Word));
    } else if c == '"' {
        lemma_string_moved(f, b, p.ahead(1), Seq::empty());
    } else {
        assert(operator(f + b, p.i + n) == operator(b, p.i));
    }
}

proof fn lemma_second(f: Seq<char>, b: Seq<char>, p: Pos, acc: Seq<TokenView>)
    requires
        0 <= p.i <= b.len(),
    ensures
        lex_from(f + b, moved(p, f.len() as int), acc) == lex_from(b, p, acc),
    decreases b.len() - p.i,
{
    if p.i < b.len() {
        lemma_step_moved(f, b, p);
        lemma_step_moves(b, p);
        lemma_step_moves(f + b, moved(p, f.len() as int));
        match step(b, p) {
            StepView::Skip(q) => lemma_second(f, b, q, acc),
            StepView::Token(t, q) => lemma_second(f, b, q, acc.push(token_at(t, p, q))),
            StepView::Fail(_, _) => {},
        }
    }
}

// -- Both -------------------------------------------------------------------

/// Where the lexing of a text ends, which is where its `Eof` stands.
pub open spec fn text_end(a: Seq<char>) -> Pos {
    end_of(a, Pos { i: 0, line: 1, col: 1 })
}

/// If a text can be lexed, then the tokens of it, a newline and another text
/// are its own tokens but `Eof`, followed by those of the other text, whose
/// lines are counted on; and an error is one in the other text.
pub proof fn law_lex_joined(a: Seq<char>, b: Seq<char>)
    requires
        lex_spec(a) is Ok,
    ensures
        ({
            let ts = lex_spec(a)->Ok_0;
            &&& ts.len() > 0
            &&& ts.last() == token_at(TokView::Plain(Tok::Eof), text_end(a), text_end(a))
            &&& lex_spec(joined(a, b)) == lex_from(
                b,
                Pos { i: 0, line: text_end(a).line + 1, col: 1 },
                ts.drop_last(),
            )
        }),
{
    let first = Pos { i: 0, line: 1, col: 1 };
    lemma_first(a, b, first, Seq::empty());
    let ts = lex_spec(a)->Ok_0;
    let p = Pos { i: 0, line: text_end(a).line + 1, col: 1 };
    lemma_second(a.push('\n'), b, p, ts.drop_last());
}

// -- Lines ------------------------------------------------------------------

/// The same place, some lines further down.
pub open spec fn raised(p: Pos, d: int) -> Pos {
    Pos { line: p.line + d, ..p }
}

pub open spec fn raised_step(s: StepView, d: int) -> StepView {
    match s {
        StepView::Skip(q) => StepView::Skip(raised(q, d)),
        StepView::Token(t, q) => StepView::Token(t, raised(q, d)),
        StepView::Fail(m, q) => StepView::Fail(m, raised(q, d)),
    }
}

/// No more lines begin between two places than there are characters.
pub open spec fn downward(q: Pos, p: Pos) -> bool {
    p.line <= q.line <= p.line + (q.i - p.i) && p.i <= q.i
}

proof fn lemma_line_comment_raised(b: Seq<char>, p: Pos, d: int)
    requires
        0 <= p.i,
    ensures
        line_comment(b, raised(p, d)) == raised(line_comment(b, p), d),
        downward(line_comment(b, p), p),
    decreases b.len() - p.i,
{
    if p.i < b.len() && b[p.i] != '\n' {
        lemma_line_comment_raised(b, p.past(b[p.i]), d);
    }
}

proof fn lemma_block_comment_raised(b: Seq<char>, p: Pos, depth: nat, d: int)
    requires
        0 <= p.i,
    ensures
        block_comment(b, raised(p, d), depth) == (match block_comment(b, p, depth) {
            Ok(q) => Ok(raised(q, d)),
            Err(q) => Err(raised(q, d)),
        }),
        block_comment(b, p, depth) matches Ok(q) ==> downward(q, p),
    decreases b.len() - p.i,
{
    if p.i < b.len() {
        if at(b, p.i) == '*' && at(b, p.i + 1) == '/' {
            if depth > 1 {
                lemma_block_comment_raised(b, p.ahead(2), (depth - 1) as nat, d);
            }
        } else if at(b, p.i) == '/' && at(b, p.i + 1) == '*' {
            lemma_block_comment_raised(b, p.ahead(2), depth + 1, d);
        } else {
            lemma_block_comment_raised(b, p.past(b[p.i]), depth, d);
        }
    }
}

proof fn lemma_escape_raised(b: Seq<char>, p: Pos, d: int)
    requires
        0 <= p.i,
    ensures
        string_escape(b, raised(p, d)) == (match string_escape(b, p) {
            Ok((c, q)) => Ok((c, raised(q, d))),
            Err((m, q)) => Err((m, raised(q, d))),
        }),
        string_escape(b, p) matches Ok((_, q)) ==> downward(q, p),
{
    lemma_run_moved(Seq::empty(), b, p.i + 2, Class::Hex);
}

proof fn lemma_string_raised(b: Seq<char>, p: Pos, acc: Seq<char>, d: int)
    requires
        0 <= p.i,
    ensures
        string_rest(b, raised(p, d), acc) == (match string_rest(b, p, acc) {
            Ok((t, q)) => Ok((t, raised(q, d))),
            Err((m, q)) => Err((m, raised(q, d))),
        }),
        string_rest(b, p, acc) matches Ok((_, q)) ==> downward(q, p),
    decreases b.len() - p.i,
{
    if p.i < b.len() {
        if b[p.i] == '"' {
        } else if b[p.i] == '\\' {
            lemma_escape_raised(b, p.ahead(1), d);
            lemma_string_escape(b, p.ahead(1));
            lemma_string_escape(b, raised(p.ahead(1), d));
            if let Ok((c, q)) = string_escape(b, p.ahead(1)) {
                lemma_string_raised(b, q, acc.push(c), d);
            }
        } else {
            lemma_string_raised(b, p.past(b[p.i]), acc.push(b[p.i]), d);
        }
    }
}

proof fn lemma_step_raised(b: Seq<char>, p: Pos, d: int)
    requires
        0 <= p.i < b.len(),
    ensures
        step(b, raised(p, d)) == raised_step(step(b, p), d),
        step(b, p) matches StepView::Skip(q) ==> downward(q, p),
        step(b, p) matches StepView::Token(_, q) ==> downward(q, p),
{
    let c = at(b, p.i);
    let e = at(b, p.i + 1);
    lemma_step_moves(b, p);
    if c == '\n' || c == ' ' || c == '\t' || c == '\r' {
    } else if c == '/' && e == '/' {
        lemma_line_comment_raised(b, p, d);
    } else if c == '/' && e == '*' {
        lemma_block_comment_raised(b, p.ahead(2), 1, d);
    } else if c == '"' {
        lemma_string_raised(b, p.ahead(1), Seq::empty(), d);
    }
}

/// Is this the same token, some lines further down?
pub open spec fn lower_down(u: TokenView, t: TokenView, d: int) -> bool {
    u.tok == t.tok && u.col == t.col && u.line == t.line + d
}

proof fn lemma_lex_raised(
    b: Seq<char>,
    p: Pos,
    d: int,
    acc: Seq<TokenView>,
    more: Seq<TokenView>,
)
    requires
        0 <= p.i <= b.len(),
        0 <= p.line,
        0 <= d,
        p.line + d + (b.len() - p.i) <= u32::MAX,
    ensures
        lex_from(b, raised(p, d), more) is Ok <==> lex_from(b, p, acc) is Ok,
        lex_from(b, p, acc) matches Ok(ts) ==> {
            let us = lex_from(b, raised(p, d), more)->Ok_0;
            &&& acc.len() <= ts.len()
            &&& us.len() - more.len() == ts.len() - acc.len()
            &&& us.take(more.len() as int) == more
            &&& ts.take(acc.len() as int) == acc
            &&& forall|k: int|
                acc.len() <= k < ts.len() ==> lower_down(
                    us[k - acc.len() + more.len()],
                    #[trigger] ts[k],
                    d,
                )
        },
    decreases b.len() - p.i,
{
    if p.i < b.len() {
        lemma_step_raised(b, p, d);
        lemma_step_moves(b, p);
        match step(b, p) {
            StepView::Skip(q) => {
                lemma_lex_raised(b, q, d, acc, more);
            },
            StepView::Token(t, q) => {
                let a1 = acc.push(token_at(t, p, q));
                let m1 = more.push(token_at(t, raised(p, d), raised(q, d)));
                lemma_lex_raised(b, q, d, a1, m1);
                if let Ok(ts) = lex_from(b, p, acc) {
                    let us = lex_from(b, raised(p, d), more)->Ok_0;
                    assert(us.take(more.len() as int) =~= more) by {
                        assert forall|k: int| 0 <= k < more.len() implies us[k] == more[k] by {
                            assert(us.take(m1.len() as int)[k] == m1[k]);
                        }
                    }
                    assert(ts.take(acc.len() as int) =~= acc) by {
                        assert forall|k: int| 0 <= k < acc.len() implies ts[k] == acc[k] by {
                            assert(ts.take(a1.len() as int)[k] == a1[k]);
                        }
                    }
                    assert forall|k: int| acc.len() <= k < ts.len() implies lower_down(
                        us[k - acc.len() + more.len()],
                        #[trigger] ts[k],
                        d,
                    ) by {
                        if k == acc.len() {
                            assert(ts.take(a1.len() as int)[k] == a1[k]);
                            assert(us.take(m1.len() as int)[more.len() as int] == m1[more.len()
                                as int]);
                        } else {
                            assert(lower_down(us[k - a1.len() + m1.len()], ts[k], d));
                        }
                    }
                }
            },
            StepView::Fail(_, _) => {},
        }
    } else {
        let ts = lex_from(b, p, acc)->Ok_0;
        let us = lex_from(b, raised(p, d), more)->Ok_0;
        assert(ts.take(acc.len() as int) =~= acc);
        assert(us.take(more.len() as int) =~= more);
    }
}

/// If a text can be lexed, then its tokens but `Eof`, followed by those of
/// another text with their lines counted on, are the tokens of both with a
/// newline between; and these can be lexed exactly if the other text can.
pub proof fn law_tokens_joined(a: Seq<char>, b: Seq<char>)
    requires
        lex_spec(a) is Ok,
        0 <= text_end(a).line,
        text_end(a).line + 1 + b.len() <= u32::MAX,
    ensures
        lex_spec(joined(a, b)) is Ok <==> lex_spec(b) is Ok,
        lex_spec(b) matches Ok(ts) ==> {
            let first = lex_spec(a)->Ok_0.drop_last();
            let all = lex_spec(joined(a, b))->Ok_0;
            &&& all.len() == first.len() + ts.len()
            &&& all.take(first.len() as int) == first
            &&& forall|k: int|
                0 <= k < ts.len() ==> lower_down(
                    all[first.len() + k],
                    #[trigger] ts[k],
                    text_end(a).line,
                )
        },
{
    law_lex_joined(a, b);
    let first = lex_spec(a)->Ok_0.drop_last();
    let p = Pos { i: 0, line: 1, col: 1 };
    lemma_lex_raised(b, p, text_end(a).line, Seq::empty(), first);
    if let Ok(ts) = lex_spec(b) {
        let all = lex_spec(joined(a, b))->Ok_0;
        assert forall|k: int| 0 <= k < ts.len() implies lower_down(
            all[first.len() + k],
            #[trigger] ts[k],
            text_end(a).line,
        ) by {
            assert(k - Seq::<TokenView>::empty().len() + first.len() == first.len() + k);
        }
    }
}

} // verus!
