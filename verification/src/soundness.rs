//! That the checker, the lowering and the language agree: a function over
//! integers and truth values that the checker accepts has code, and this code
//! does what the function says.
use vstd::prelude::*;

use crate::ast::{
    BlockView, ExprKindView, ExprView, FuncDefView, LambdaDefView, PatternView, StmtView, VarRes,
};
use crate::concrete::{
    law_instance_of_concrete_is_itself, within_arms, within_block, within_block_arms, within_expr,
    within_exprs, within_kind, within_pattern, within_stmt, within_stmts, within_type, within_types,
};
use crate::scalars::{
    agree, covering, fits_type, holds_values, is_scalar, kind_of, lemma_scalar_type, scalar_args,
    scalar_choices, scalar_expr, typed, types_of, words, Calls, Names,
};
use crate::execute::{
    arms_jump_inside, called, exec_stmts, is_simple, jump_inside, jumps_inside, law_always_returns,
    law_function, law_statements_have_code, lemma_prologue_flow, params, returned, scalar_arms,
    scalar_effect, scalar_stmt, scalar_stmts, Exec,
};
use crate::lower::{
    compile_body, compile_work, gen_block, gen_stmts, prologue, GenView, InstKeyView, LowEnv,
    Source,
};
use crate::machine::{decode, leads, word, Around, End};
use crate::memory::{World, STACK_LIMIT};
use crate::matching::{apart, is_key, law_match_is_exhaustive, lemma_scalar_patterns, takes};
use crate::meaning::{lemma_word, runnable};
use crate::mono::instance_of;
use crate::rules::{
    arith_type, binary_type, check_args, check_args_from, check_assign, check_binary, check_block,
    check_builtin, check_call, check_call_sig, check_cast, check_cond, check_expr, check_expr_arms,
    check_for, check_func, check_if, check_if_stmt, check_let, check_match, check_name_call,
    check_opt_cond, check_opt_stmt, check_return, check_stmt, check_stmt_arms, check_stmt_match,
    check_stmts, check_target, check_unary, check_while, comparison_type, equality_type, fresh_ctx,
    left_expected, logical_type, right_expected, unary_type, value_of, with_loop, SideView,
};
use crate::types::{IntKind, TypeView};
use crate::typing::{
    always_returns, any_returns, bits_of, builtin_named, check_arith_op, check_patterns, declare,
    declare_binders, declare_params, expr_patterns, find_var, leave_scope, literal_kind, own_var,
    resolve_in, resolve_var, stmt_patterns, BodyView, EnvView, FuncSigView, MAX_LOCALS,
};
use crate::walk::{
    lambdas_in, lambdas_in_arms, lambdas_in_block, lambdas_in_block_arms, lambdas_in_list,
    lambdas_in_stmt, lambdas_in_stmts,
};

verus! {

// -- Plain code -------------------------------------------------------------

pub open spec fn plain_exprs(es: Seq<ExprView>) -> bool
    decreases es, 1nat,
{
    forall|i: int| 0 <= i < es.len() ==> plain_expr(#[trigger] es[i])
}

pub open spec fn plain_choices(arms: Seq<(PatternView, ExprView)>) -> bool
    decreases arms, 1nat,
{
    forall|i: int| 0 <= i < arms.len() ==> plain_expr((#[trigger] arms[i]).1)
}

/// Is this source made of literals, names, operators, casts, conditionals,
/// matches and calls of names only?
pub open spec fn plain_expr(e: ExprView) -> bool
    decreases e, 0nat,
{
    match e.kind {
        ExprKindView::Int(_) => true,
        ExprKindView::Byte(_) => true,
        ExprKindView::Bool(_) => true,
        ExprKindView::Var { .. } => true,
        ExprKindView::Unary(_, a) => plain_expr(*a),
        ExprKindView::Cast(a, _) => plain_expr(*a),
        ExprKindView::Binary(_, a, b) => plain_expr(*a) && plain_expr(*b),
        ExprKindView::If { cond, then, els } => plain_expr(*cond) && plain_expr(*then)
            && plain_expr(*els),
        ExprKindView::Call { callee, args, direct, .. } => callee.kind is Var && direct is None
            && plain_exprs(args),
        ExprKindView::Match { scrutinee, arms } => plain_expr(*scrutinee) && plain_choices(arms),
        _ => false,
    }
}

pub open spec fn all_scalar_exprs(es: Seq<ExprView>) -> bool
    decreases es, 1nat,
{
    forall|i: int| 0 <= i < es.len() ==> all_scalar(#[trigger] es[i])
}

pub open spec fn all_scalar_choices(arms: Seq<(PatternView, ExprView)>) -> bool
    decreases arms, 1nat,
{
    forall|i: int| 0 <= i < arms.len() ==> all_scalar((#[trigger] arms[i]).1)
}

/// Has every part of the expression an integer type or `bool`, and are all its
/// calls those of functions?
pub open spec fn all_scalar(e: ExprView) -> bool
    decreases e, 0nat,
{
    is_scalar(e.ty) && match e.kind {
        ExprKindView::Unary(_, a) => all_scalar(*a),
        ExprKindView::Cast(a, _) => all_scalar(*a),
        ExprKindView::Binary(_, a, b) => all_scalar(*a) && all_scalar(*b),
        ExprKindView::If { cond, then, els } => all_scalar(*cond) && all_scalar(*then)
            && all_scalar(*els),
        ExprKindView::Call { args, direct, .. } => direct is Some && all_scalar_exprs(args),
        ExprKindView::Match { scrutinee, arms } => all_scalar(*scrutinee) && all_scalar_choices(
            arms,
        ),
        _ => true,
    }
}

/// Is this, without a value of its own, made of such expressions?
pub open spec fn all_scalar_effect(e: ExprView) -> bool {
    e.ty is Unit && match e.kind {
        ExprKindView::Call { args, direct, .. } => direct is Some && all_scalar_exprs(args),
        ExprKindView::Builtin(_, args) => all_scalar_exprs(args),
        _ => false,
    }
}

pub open spec fn plain_stmts(ss: Seq<StmtView>) -> bool
    decreases ss, 1nat,
{
    forall|i: int| 0 <= i < ss.len() ==> plain_stmt(#[trigger] ss[i])
}

pub open spec fn plain_arms(arms: Seq<(PatternView, BlockView)>) -> bool
    decreases arms, 2nat,
{
    forall|i: int| 0 <= i < arms.len() ==> plain_stmts((#[trigger] arms[i]).1.stmts)
}

/// Is this source a statement over plain expressions that assigns to nothing
/// but variables?
pub open spec fn plain_stmt(s: StmtView) -> bool
    decreases s, 0nat,
{
    match s {
        StmtView::Let { init, .. } => plain_expr(init),
        StmtView::Assign { target, value, .. } => target.kind is Var && plain_expr(value),
        StmtView::Expr(e) => plain_expr(e),
        StmtView::If { cond, then, els } => plain_expr(cond) && plain_stmts(then.stmts)
            && match els {
            Some(b) => plain_stmts(b.stmts),
            None => true,
        },
        StmtView::While { cond, body } => plain_expr(cond) && plain_stmts(body.stmts),
        StmtView::For { init, cond, step, body } => {
            &&& match init {
                Some(i) => is_simple(*i) && plain_stmt(*i),
                None => true,
            }
            &&& match cond {
                Some(c) => plain_expr(c),
                None => true,
            }
            &&& match step {
                Some(t) => is_simple(*t) && plain_stmt(*t),
                None => true,
            }
            &&& plain_stmts(body.stmts)
        },
        StmtView::Return { value, .. } => match value {
            Some(v) => plain_expr(v),
            None => true,
        },
        StmtView::Break(_) => true,
        StmtView::Continue(_) => true,
        StmtView::Block(b) => plain_stmts(b.stmts),
        StmtView::Match { scrutinee, arms, .. } => plain_expr(scrutinee) && plain_arms(arms),
    }
}

pub open spec fn all_scalar_stmts(ss: Seq<StmtView>) -> bool
    decreases ss, 1nat,
{
    forall|i: int| 0 <= i < ss.len() ==> all_scalar_stmt(#[trigger] ss[i])
}

pub open spec fn all_scalar_arms(arms: Seq<(PatternView, BlockView)>) -> bool
    decreases arms, 2nat,
{
    forall|i: int| 0 <= i < arms.len() ==> all_scalar_stmts((#[trigger] arms[i]).1.stmts)
}

/// Have all expressions of the statement integer types or `bool`?
pub open spec fn all_scalar_stmt(s: StmtView) -> bool
    decreases s, 0nat,
{
    match s {
        StmtView::Let { init, .. } => all_scalar(init),
        StmtView::Assign { target, value, .. } => all_scalar(target) && all_scalar(value),
        StmtView::Expr(e) => all_scalar(e) || all_scalar_effect(e),
        StmtView::If { cond, then, els } => all_scalar(cond) && all_scalar_stmts(then.stmts)
            && match els {
            Some(b) => all_scalar_stmts(b.stmts),
            None => true,
        },
        StmtView::While { cond, body } => all_scalar(cond) && all_scalar_stmts(body.stmts),
        StmtView::For { init, cond, step, body } => {
            &&& match init {
                Some(i) => all_scalar_stmt(*i),
                None => true,
            }
            &&& match cond {
                Some(c) => all_scalar(c),
                None => true,
            }
            &&& match step {
                Some(t) => all_scalar_stmt(*t),
                None => true,
            }
            &&& all_scalar_stmts(body.stmts)
        },
        StmtView::Return { value, .. } => match value {
            Some(v) => all_scalar(v),
            None => true,
        },
        StmtView::Block(b) => all_scalar_stmts(b.stmts),
        StmtView::Match { scrutinee, arms, .. } => all_scalar(scrutinee) && all_scalar_arms(arms),
        _ => true,
    }
}

// -- Expressions ------------------------------------------------------------

/// What code that is checked in an environment may refer to. Which symbols its
/// functions have is not known yet.
pub open spec fn names_in(env: EnvView, locals: Seq<TypeView>, ret: TypeView) -> Names {
    Names {
        locals,
        ret,
        ids: Seq::new(env.funcs.len(), |i: int| Some(0usize)),
        sigs: env.funcs,
    }
}

/// Has the program no generic functions?
pub open spec fn monomorphic(env: EnvView) -> bool {
    forall|i: int| 0 <= i < env.funcs.len() ==> (#[trigger] env.funcs[i]).type_params.len() == 0
}

/// A top-level function being checked: every variable in scope is a local of
/// its type.
pub open spec fn in_order(st: BodyView) -> bool {
    &&& st.cur.captures is None
    &&& st.cur.locals.len() <= MAX_LOCALS
    &&& forall|i: int|
        0 <= i < st.cur.vars.len() ==> (#[trigger] st.cur.vars[i]).1 < st.cur.locals.len()
            && st.cur.locals[st.cur.vars[i].1 as int] == st.cur.vars[i].2
}

#[verifier::opaque]
spec fn checks(env: EnvView, st: BodyView, e: ExprView, expected: Option<TypeView>) -> Result<
    (ExprView, BodyView),
    Seq<char>,
> {
    check_expr(env, st, e, expected)
}

proof fn lemma_find_var(vars: Seq<(Seq<char>, u32, TypeView)>, name: Seq<char>, n: nat)
    requires
        n <= vars.len(),
    ensures
        find_var(vars, name, n) matches Some(i) ==> i < n,
    decreases n,
{
    if n > 0 {
        lemma_find_var(vars, name, (n - 1) as nat);
    }
}

/// A name in a top-level function is one of its locals, or a function.
proof fn lemma_name(env: EnvView, st: BodyView, name: Seq<char>, line: u32)
    requires
        in_order(st),
        value_of(env, st, name, line) is Ok,
    ensures
        ({
            let (res, ty, st1) = value_of(env, st, name, line)->Ok_0;
            &&& st1 == st
            &&& match res {
                VarRes::Local(i) => i < st.cur.locals.len() && st.cur.locals[i as int] == ty,
                _ => ty is Fn,
            }
        }),
{
    reveal(value_of);
    reveal(resolve_var);
    reveal(own_var);
    lemma_find_var(st.cur.vars, name, st.cur.vars.len());
    assert(resolve_in(st.cur, st.outer, name).0 == st.cur);
    assert(resolve_in(st.cur, st.outer, name).1 == st.outer);
    if let Some(i) = find_var(st.cur.vars, name, st.cur.vars.len()) {
        let v = st.cur.vars[i as int];
    }
}

/// A literal that its kind holds is what its bits decode to.
proof fn lemma_literal_bits(v: int, k: IntKind)
    requires
        k.holds(v),
    ensures
        decode(k, bits_of(v)) == v,
{
}

proof fn lemma_unary_checked(
    env: EnvView,
    st: BodyView,
    e: ExprView,
    expected: Option<TypeView>,
)
    requires
        e.kind is Unary,
        checks(env, st, e, expected) is Ok,
    ensures
        ({
            let op = e.kind->Unary_0;
            let sub = *e.kind->Unary_1;
            let (x, st1) = checks(env, st, e, expected)->Ok_0;
            if op is Neg && sub.kind is Int {
                let v = -(sub.kind->Int_0 as int);
                &&& st1 == st
                &&& x.ty is Int && kind_of(x.ty).holds(v)
                &&& x.kind == ExprKindView::Int(bits_of(v))
            } else {
                let want = if op is BitNot {
                    expected
                } else {
                    None
                };
                let y = checks(env, st, sub, want)->Ok_0.0;
                &&& checks(env, st, sub, want) == Ok::<(ExprView, BodyView), Seq<char>>((y, st1))
                &&& x.kind == ExprKindView::Unary(op, Box::new(y))
                &&& unary_type(env, op, y.ty, e.line) == Ok::<TypeView, Seq<char>>(x.ty)
            }
        }),
{
    reveal(checks);
    reveal(literal_kind);
    assert(check_expr(env, st, e, expected) == check_unary(
        env,
        st,
        e.kind->Unary_0,
        *e.kind->Unary_1,
        e.line,
        expected,
    ));
}

proof fn lemma_binary_checked(
    env: EnvView,
    st: BodyView,
    e: ExprView,
    expected: Option<TypeView>,
)
    requires
        e.kind is Binary,
        checks(env, st, e, expected) is Ok,
    ensures
        ({
            let op = e.kind->Binary_0;
            let (x, st2) = checks(env, st, e, expected)->Ok_0;
            let a = checks(env, st, *e.kind->Binary_1, left_expected(op, expected));
            let (l, st1) = a->Ok_0;
            let b = checks(env, st1, *e.kind->Binary_2, Some(right_expected(op, l.ty)));
            let r = b->Ok_0.0;
            &&& a is Ok
            &&& b == Ok::<(ExprView, BodyView), Seq<char>>((r, st2))
            &&& x.kind == ExprKindView::Binary(op, Box::new(l), Box::new(r))
            &&& binary_type(env, op, l.ty, r.ty, e.line) == Ok::<TypeView, Seq<char>>(x.ty)
        }),
{
    reveal(checks);
    assert(check_expr(env, st, e, expected) == check_binary(env, st, e, expected));
}

proof fn lemma_if_checked(env: EnvView, st: BodyView, e: ExprView, expected: Option<TypeView>)
    requires
        e.kind is If,
        checks(env, st, e, expected) is Ok,
    ensures
        ({
            let (x, st3) = checks(env, st, e, expected)->Ok_0;
            let a = checks(env, st, *e.kind->If_cond, Some(TypeView::Bool));
            let (c, st1) = a->Ok_0;
            let b = checks(env, st1, *e.kind->If_then, expected);
            let (t, st2) = b->Ok_0;
            let d = checks(env, st2, *e.kind->If_els, Some(t.ty));
            let f = d->Ok_0.0;
            &&& a is Ok
            &&& b is Ok
            &&& d == Ok::<(ExprView, BodyView), Seq<char>>((f, st3))
            &&& x.kind == (ExprKindView::If {
                cond: Box::new(c),
                then: Box::new(t),
                els: Box::new(f),
            })
            &&& c.ty is Bool
            &&& t.ty == x.ty
            &&& f.ty == x.ty
        }),
{
    reveal(checks);
    assert(check_expr(env, st, e, expected) == check_if(env, st, e, expected));
    assert(check_cond(env, st, *e.kind->If_cond) is Ok);
}

proof fn lemma_cast_checked(env: EnvView, st: BodyView, e: ExprView, expected: Option<TypeView>)
    requires
        e.kind is Cast,
        checks(env, st, e, expected) is Ok,
    ensures
        ({
            let (x, st1) = checks(env, st, e, expected)->Ok_0;
            exists|want: Option<TypeView>|
                {
                    let a = #[trigger] checks(env, st, *e.kind->Cast_0, want);
                    let y = a->Ok_0.0;
                    &&& a == Ok::<(ExprView, BodyView), Seq<char>>((y, st1))
                    &&& x.kind == ExprKindView::Cast(Box::new(y), e.kind->Cast_1)
                    &&& y.ty is Int || y.ty is Float
                    &&& x.ty is Int || x.ty is Float
                }
        }),
{
    reveal(checks);
    let sub = *e.kind->Cast_0;
    let te = e.kind->Cast_1;
    assert(check_expr(env, st, e, expected) == check_cast(env, st, sub, te, e.line));
    let target = crate::typing::resolve_type(env, te)->Ok_0;
    let want = if crate::rules::is_literal(sub) {
        Some(target)
    } else {
        None
    };
    assert(checks(env, st, sub, want) is Ok);
}

/// What the checker makes of a plain expression is well typed, and it
/// declares nothing.
proof fn lemma_expr_sound(
    env: EnvView,
    st: BodyView,
    e: ExprView,
    expected: Option<TypeView>,
)
    requires
        plain_expr(e),
        in_order(st),
        monomorphic(env),
        checks(env, st, e, expected) is Ok,
        all_scalar(checks(env, st, e, expected)->Ok_0.0),
    ensures
        checks(env, st, e, expected)->Ok_0.1 == st,
        scalar_expr(checks(env, st, e, expected)->Ok_0.0, names_in(env, st.cur.locals, st.cur.ret)),
    decreases e, 1int,
{
    let (x, st1) = checks(env, st, e, expected)->Ok_0;
    match e.kind {
        ExprKindView::Int(d) => {
            reveal(checks);
            reveal(literal_kind);
            lemma_literal_bits(d as int, kind_of(x.ty));
        },
        ExprKindView::Byte(_) => {
            reveal(checks);
        },
        ExprKindView::Bool(_) => {
            reveal(checks);
        },
        ExprKindView::Var { name, .. } => {
            reveal(checks);
            lemma_name(env, st, name, e.line);
        },
        ExprKindView::Unary(op, sub) => {
            lemma_unary_checked(env, st, e, expected);
            if op is Neg && sub.kind is Int {
                lemma_literal_bits(-(sub.kind->Int_0 as int), kind_of(x.ty));
            } else {
                let want = if op is BitNot {
                    expected
                } else {
                    None
                };
                lemma_expr_sound(env, st, *sub, want);
                reveal(unary_type);
            }
        },
        ExprKindView::Binary(op, a, b) => {
            lemma_binary_checked(env, st, e, expected);
            let l = checks(env, st, *a, left_expected(op, expected))->Ok_0.0;
            lemma_expr_sound(env, st, *a, left_expected(op, expected));
            lemma_expr_sound(env, st, *b, Some(right_expected(op, l.ty)));
            reveal(binary_type);
            reveal(logical_type);
            reveal(equality_type);
            reveal(comparison_type);
            reveal(arith_type);
            reveal(check_arith_op);
        },
        ExprKindView::If { cond, then, els } => {
            lemma_if_checked(env, st, e, expected);
            lemma_expr_sound(env, st, *cond, Some(TypeView::Bool));
            let t = checks(env, st, *then, expected)->Ok_0.0;
            lemma_expr_sound(env, st, *then, expected);
            lemma_expr_sound(env, st, *els, Some(t.ty));
        },
        ExprKindView::Cast(sub, te) => {
            lemma_cast_checked(env, st, e, expected);
            let want = choose|want: Option<TypeView>|
                {
                    let a = #[trigger] checks(env, st, *sub, want);
                    let y = a->Ok_0.0;
                    &&& a == Ok::<(ExprView, BodyView), Seq<char>>((y, st1))
                    &&& x.kind == ExprKindView::Cast(Box::new(y), te)
                    &&& y.ty is Int || y.ty is Float
                    &&& x.ty is Int || x.ty is Float
                };
            lemma_expr_sound(env, st, *sub, want);
        },
        ExprKindView::Call { .. } => {
            lemma_call_sound(env, st, e, expected);
        },
        ExprKindView::Match { .. } => {
            lemma_choice_sound(env, st, e, expected);
        },
        _ => {},
    }
}

#[verifier::opaque]
spec fn checks_choices(
    env: EnvView,
    st: BodyView,
    arms: Seq<(PatternView, ExprView)>,
    pats: Seq<PatternView>,
    i: nat,
    expected: Option<TypeView>,
    rty: Option<TypeView>,
    acc: Seq<(PatternView, ExprView)>,
) -> Result<(Seq<(PatternView, ExprView)>, Option<TypeView>, BodyView), Seq<char>> {
    check_expr_arms(env, st, arms, pats, i, expected, rty, acc)
}

/// What the value of an arm is expected to be.
spec fn wanted(expected: Option<TypeView>, rty: Option<TypeView>) -> Option<TypeView> {
    if rty is Some {
        rty
    } else {
        expected
    }
}

/// A pattern that is no variant binds nothing.
proof fn lemma_checks_choices(
    env: EnvView,
    st: BodyView,
    arms: Seq<(PatternView, ExprView)>,
    pats: Seq<PatternView>,
    i: nat,
    expected: Option<TypeView>,
    rty: Option<TypeView>,
    acc: Seq<(PatternView, ExprView)>,
)
    requires
        i < arms.len() ==> !(pats[i as int] is Variant),
        checks_choices(env, st, arms, pats, i, expected, rty, acc) is Ok,
    ensures
        i >= arms.len() ==> checks_choices(env, st, arms, pats, i, expected, rty, acc)->Ok_0 == (
            acc,
            rty,
            st,
        ),
        i < arms.len() ==> ({
            let a = checks(env, st, arms[i as int].1, wanted(expected, rty));
            let (x, st1) = a->Ok_0;
            &&& a is Ok
            &&& rty is Some ==> rty == Some(x.ty)
            &&& checks_choices(env, st, arms, pats, i, expected, rty, acc) == checks_choices(
                env,
                leave_scope(st1, st.cur.vars.len()),
                arms,
                pats,
                i + 1,
                expected,
                Some(x.ty),
                acc.push((pats[i as int], x)),
            )
        }),
{
    reveal(checks_choices);
    reveal(checks);
    reveal(declare_binders);
}

/// What was checked stays, and all values have the type of the first.
proof fn lemma_choices_grow(
    env: EnvView,
    st: BodyView,
    arms: Seq<(PatternView, ExprView)>,
    pats: Seq<PatternView>,
    i: nat,
    expected: Option<TypeView>,
    rty: Option<TypeView>,
    acc: Seq<(PatternView, ExprView)>,
)
    requires
        i <= arms.len(),
        forall|k: int| 0 <= k < arms.len() ==> !(#[trigger] pats[k] is Variant),
        checks_choices(env, st, arms, pats, i, expected, rty, acc) is Ok,
    ensures
        ({
            let (out, ty, _) = checks_choices(env, st, arms, pats, i, expected, rty, acc)->Ok_0;
            &&& out.len() == acc.len() + (arms.len() - i)
            &&& rty is Some ==> ty == rty
            &&& forall|k: int| 0 <= k < acc.len() ==> #[trigger] out[k] == acc[k]
            &&& forall|k: int|
                acc.len() <= k < out.len() ==> (#[trigger] out[k]).0 == pats[k - acc.len() + i]
                    && Some(out[k].1.ty) == ty
        }),
    decreases arms.len() - i,
{
    lemma_checks_choices(env, st, arms, pats, i, expected, rty, acc);
    if i < arms.len() {
        let (x, st1) = checks(env, st, arms[i as int].1, wanted(expected, rty))->Ok_0;
        let longer = acc.push((pats[i as int], x));
        let st2 = leave_scope(st1, st.cur.vars.len());
        lemma_choices_grow(env, st2, arms, pats, i + 1, expected, Some(x.ty), longer);
        let out = checks_choices(env, st, arms, pats, i, expected, rty, acc)->Ok_0.0;
        assert(out[acc.len() as int] == longer[acc.len() as int]);
        assert forall|k: int| 0 <= k < acc.len() implies #[trigger] out[k] == acc[k] by {
            assert(out[k] == longer[k]);
        }
    }
}

proof fn lemma_choices_sound(
    env: EnvView,
    st: BodyView,
    arms: Seq<(PatternView, ExprView)>,
    pats: Seq<PatternView>,
    i: nat,
    expected: Option<TypeView>,
    rty: Option<TypeView>,
    acc: Seq<(PatternView, ExprView)>,
)
    requires
        i <= arms.len(),
        plain_choices(arms),
        in_order(st),
        monomorphic(env),
        forall|k: int| 0 <= k < arms.len() ==> !(#[trigger] pats[k] is Variant),
        checks_choices(env, st, arms, pats, i, expected, rty, acc) is Ok,
        all_scalar_choices(
            checks_choices(env, st, arms, pats, i, expected, rty, acc)->Ok_0.0,
        ),
    ensures
        ({
            let (out, _, st1) = checks_choices(env, st, arms, pats, i, expected, rty, acc)->Ok_0;
            &&& st1 == st
            &&& forall|k: int|
                acc.len() <= k < out.len() ==> scalar_expr(
                    (#[trigger] out[k]).1,
                    names_in(env, st.cur.locals, st.cur.ret),
                )
        }),
    decreases arms, arms.len() - i,
{
    lemma_checks_choices(env, st, arms, pats, i, expected, rty, acc);
    lemma_choices_grow(env, st, arms, pats, i, expected, rty, acc);
    if i < arms.len() {
        let want = wanted(expected, rty);
        let (x, st1) = checks(env, st, arms[i as int].1, want)->Ok_0;
        let longer = acc.push((pats[i as int], x));
        let st2 = leave_scope(st1, st.cur.vars.len());
        lemma_choices_grow(env, st2, arms, pats, i + 1, expected, Some(x.ty), longer);
        let out = checks_choices(env, st2, arms, pats, i + 1, expected, Some(x.ty), longer)->Ok_0.0;
        assert(out[acc.len() as int] == longer[acc.len() as int]);
        assert(all_scalar(out[acc.len() as int].1));
        lemma_expr_sound(env, st, arms[i as int].1, want);
        lemma_choices_sound(env, st2, arms, pats, i + 1, expected, Some(x.ty), longer);
    }
}

proof fn lemma_choice_checked(env: EnvView, st: BodyView, e: ExprView, expected: Option<TypeView>)
    requires
        e.kind is Match,
        checks(env, st, e, expected) is Ok,
    ensures
        ({
            let arms = e.kind->Match_arms;
            let (x, st2) = checks(env, st, e, expected)->Ok_0;
            let a = checks(env, st, *e.kind->Match_scrutinee, None);
            let (v, st1) = a->Ok_0;
            let p = check_patterns(env, v.ty, expr_patterns(arms), e.line);
            let r = checks_choices(env, st1, arms, p->Ok_0, 0, expected, None, Seq::empty());
            let xs = r->Ok_0.0;
            &&& a is Ok
            &&& p is Ok
            &&& r is Ok
            &&& r->Ok_0 == (xs, Some(x.ty), st2)
            &&& x.kind == (ExprKindView::Match { scrutinee: Box::new(v), arms: xs })
            &&& !(x.ty is Unit)
        }),
{
    reveal(checks);
    reveal(checks_choices);
    assert(check_expr(env, st, e, expected) == check_match(env, st, e, expected));
}

/// A match has an arm for every value, and all arms give one type.
proof fn lemma_choice_sound(env: EnvView, st: BodyView, e: ExprView, expected: Option<TypeView>)
    requires
        e.kind is Match,
        plain_expr(e),
        in_order(st),
        monomorphic(env),
        checks(env, st, e, expected) is Ok,
        all_scalar(checks(env, st, e, expected)->Ok_0.0),
    ensures
        checks(env, st, e, expected)->Ok_0.1 == st,
        scalar_expr(checks(env, st, e, expected)->Ok_0.0, names_in(env, st.cur.locals, st.cur.ret)),
    decreases e, 0int,
{
    let arms = e.kind->Match_arms;
    lemma_choice_checked(env, st, e, expected);
    let x = checks(env, st, e, expected)->Ok_0.0;
    let (v, st1) = checks(env, st, *e.kind->Match_scrutinee, None)->Ok_0;
    let want = expr_patterns(arms);
    let pats = check_patterns(env, v.ty, want, e.line)->Ok_0;
    let none = Seq::<(PatternView, ExprView)>::empty();
    let xs = checks_choices(env, st1, arms, pats, 0, expected, None, none)->Ok_0.0;
    assert(plain_choices(arms));
    assert(all_scalar(v) && all_scalar_choices(xs));
    lemma_expr_sound(env, st, *e.kind->Match_scrutinee, None);
    let names = names_in(env, st.cur.locals, st.cur.ret);
    lemma_scalar_type(v, names);
    lemma_no_empty_match(env, v.ty, want, e.line);
    lemma_covering(env, v.ty, want, e.line);
    lemma_choices_grow(env, st, arms, pats, 0, expected, None, none);
    lemma_choices_sound(env, st, arms, pats, 0, expected, None, none);
    assert(expr_patterns(xs) =~= pats);
    assert(scalar_choices(xs, x.ty, names));
}

#[verifier::opaque]
spec fn checks_args(
    env: EnvView,
    st: BodyView,
    params: Seq<TypeView>,
    args: Seq<ExprView>,
    i: nat,
    acc: Seq<ExprView>,
) -> Result<(Seq<ExprView>, BodyView), Seq<char>> {
    check_args_from(env, st, params, 0, args, i, acc)
}

proof fn lemma_checks_args(
    env: EnvView,
    st: BodyView,
    params: Seq<TypeView>,
    args: Seq<ExprView>,
    i: nat,
    acc: Seq<ExprView>,
)
    requires
        checks_args(env, st, params, args, i, acc) is Ok,
    ensures
        i >= args.len() ==> checks_args(env, st, params, args, i, acc)->Ok_0 == (acc, st),
        i < args.len() ==> ({
            let a = checks(env, st, args[i as int], Some(params[i as int]));
            let (x, st1) = a->Ok_0;
            &&& a is Ok
            &&& x.ty == params[i as int]
            &&& checks_args(env, st, params, args, i, acc) == checks_args(
                env,
                st1,
                params,
                args,
                i + 1,
                acc.push(x),
            )
        }),
{
    reveal(checks);
    reveal(checks_args);
}

/// What was checked stays.
proof fn lemma_args_grow(
    env: EnvView,
    st: BodyView,
    params: Seq<TypeView>,
    args: Seq<ExprView>,
    i: nat,
    acc: Seq<ExprView>,
)
    requires
        i <= args.len(),
        checks_args(env, st, params, args, i, acc) is Ok,
    ensures
        ({
            let out = checks_args(env, st, params, args, i, acc)->Ok_0.0;
            &&& out.len() == acc.len() + (args.len() - i)
            &&& forall|k: int| 0 <= k < acc.len() ==> #[trigger] out[k] == acc[k]
        }),
    decreases args.len() - i,
{
    lemma_checks_args(env, st, params, args, i, acc);
    if i < args.len() {
        let (x, st1) = checks(env, st, args[i as int], Some(params[i as int]))->Ok_0;
        let longer = acc.push(x);
        lemma_args_grow(env, st1, params, args, i + 1, longer);
        let out = checks_args(env, st, params, args, i, acc)->Ok_0.0;
        assert forall|k: int| 0 <= k < acc.len() implies #[trigger] out[k] == acc[k] by {
            assert(out[k] == longer[k]);
        }
    }
}

/// Arguments are well typed, and of the parameters' types.
proof fn lemma_args_sound(
    env: EnvView,
    st: BodyView,
    params: Seq<TypeView>,
    args: Seq<ExprView>,
    i: nat,
    acc: Seq<ExprView>,
)
    requires
        plain_exprs(args),
        in_order(st),
        monomorphic(env),
        acc.len() == i <= args.len() == params.len(),
        checks_args(env, st, params, args, i, acc) is Ok,
        all_scalar_exprs(checks_args(env, st, params, args, i, acc)->Ok_0.0),
        forall|k: int|
            0 <= k < i ==> scalar_expr(
                #[trigger] acc[k],
                names_in(env, st.cur.locals, st.cur.ret),
            ),
        forall|k: int| 0 <= k < i ==> (#[trigger] acc[k]).ty == params[k],
    ensures
        ({
            let (out, st1) = checks_args(env, st, params, args, i, acc)->Ok_0;
            &&& st1 == st
            &&& scalar_args(out, names_in(env, st.cur.locals, st.cur.ret))
            &&& types_of(out) == params
        }),
    decreases args, args.len() - i,
{
    lemma_checks_args(env, st, params, args, i, acc);
    lemma_args_grow(env, st, params, args, i, acc);
    let out = checks_args(env, st, params, args, i, acc)->Ok_0.0;
    if i < args.len() {
        let want = Some(params[i as int]);
        let (x, st1) = checks(env, st, args[i as int], want)->Ok_0;
        let longer = acc.push(x);
        lemma_args_grow(env, st1, params, args, i + 1, longer);
        assert(out[i as int] == longer[i as int]);
        assert(all_scalar(out[i as int]));
        lemma_expr_sound(env, st, args[i as int], want);
        lemma_args_sound(env, st, params, args, i + 1, longer);
    } else {
        assert(types_of(out) =~= params);
    }
}

proof fn lemma_call_checked(
    env: EnvView,
    st: BodyView,
    e: ExprView,
    expected: Option<TypeView>,
)
    requires
        e.kind is Call,
        plain_expr(e),
        in_order(st),
        monomorphic(env),
        checks(env, st, e, expected) is Ok,
        checks(env, st, e, expected)->Ok_0.0.kind is Call,
        checks(env, st, e, expected)->Ok_0.0.kind->Call_direct is Some,
    ensures
        ({
            let (x, st1) = checks(env, st, e, expected)->Ok_0;
            let f = x.kind->Call_direct->0;
            let sig = env.funcs[f as int];
            let a = checks_args(env, st, sig.params, e.kind->Call_args, 0, Seq::empty());
            let callee = *x.kind->Call_callee;
            &&& x.kind is Call
            &&& x.kind->Call_direct is Some
            &&& x.kind->Call_inst.len() == 0
            &&& f < env.funcs.len()
            &&& sig.params.len() == e.kind->Call_args.len()
            &&& a == Ok::<(Seq<ExprView>, BodyView), Seq<char>>((x.kind->Call_args, st1))
            &&& x.ty == sig.ret
            &&& callee.kind is Var
            &&& callee.ty == TypeView::Fn(sig.params, Box::new(sig.ret))
        }),
{
    reveal(checks);
    reveal(checks_args);
    reveal(resolve_var);
    reveal(own_var);
    let callee = *e.kind->Call_callee;
    let args = e.kind->Call_args;
    let name = callee.kind->Var_name;
    lemma_find_var(st.cur.vars, name, st.cur.vars.len());
    assert(check_expr(env, st, e, expected) == check_call(env, st, e, expected));
    assert(check_call(env, st, e, expected) == check_name_call(
        env,
        st,
        callee,
        name,
        args,
        None,
        e.kind->Call_inst,
        e.line,
        expected,
    ));
    assert(resolve_in(st.cur, st.outer, name).0 == st.cur);
    assert(resolve_in(st.cur, st.outer, name).1 == st.outer);
    let (st1, r) = resolve_var(st, name);
    assert(st1 == st);
    match r {
        Some((res, ty)) => {
            assert(checks(env, st, e, expected)->Ok_0.0.kind->Call_direct is None);
        },
        None => match env.func_id(name) {
            Some(fid) => {
                let f = fid as u32;
                assert(check_call_sig(env, st, name, f, None, args, expected, e.line) is Ok);
                let sig = env.funcs[f as int];
                assert(check_args(env, st, name, sig.params, None, args, e.line)
                    == check_args_from(env, st, sig.params, 0, args, 0, Seq::empty()));
            },
            None => {
                assert(checks(env, st, e, expected)->Ok_0.0.kind is Builtin);
            },
        },
    }
}

/// A call of a name that is neither a variable nor a function is one of a
/// builtin.
proof fn lemma_builtin_checked(
    env: EnvView,
    st: BodyView,
    e: ExprView,
    expected: Option<TypeView>,
)
    requires
        e.kind is Call,
        plain_expr(e),
        in_order(st),
        checks(env, st, e, expected) is Ok,
        !(checks(env, st, e, expected)->Ok_0.0.kind is Call),
    ensures
        ({
            let (x, st1) = checks(env, st, e, expected)->Ok_0;
            let b = x.kind->Builtin_0;
            let args = e.kind->Call_args;
            let want = if b is Assert {
                Some(TypeView::Bool)
            } else {
                None
            };
            &&& x.kind is Builtin
            &&& x.ty is Unit
            &&& b is GcCollect || b is Assert || b is Print || b is Println
            &&& b is GcCollect ==> x.kind->Builtin_1.len() == 0 && st1 == st
            &&& !(b is GcCollect) ==> args.len() == 1 && x.kind->Builtin_1.len() == 1 && checks(
                env,
                st,
                args[0],
                want,
            ) == Ok::<(ExprView, BodyView), Seq<char>>((x.kind->Builtin_1[0], st1))
            &&& b is Assert ==> x.kind->Builtin_1[0].ty is Bool
        }),
{
    reveal(checks);
    reveal(resolve_var);
    reveal(own_var);
    reveal(builtin_named);
    let callee = *e.kind->Call_callee;
    let args = e.kind->Call_args;
    let name = callee.kind->Var_name;
    lemma_find_var(st.cur.vars, name, st.cur.vars.len());
    assert(check_expr(env, st, e, expected) == check_call(env, st, e, expected));
    assert(check_call(env, st, e, expected) == check_name_call(
        env,
        st,
        callee,
        name,
        args,
        None,
        e.kind->Call_inst,
        e.line,
        expected,
    ));
    assert(resolve_in(st.cur, st.outer, name).0 == st.cur);
    assert(resolve_in(st.cur, st.outer, name).1 == st.outer);
    let (st1, r) = resolve_var(st, name);
    assert(st1 == st);
    match r {
        Some((res, ty)) => {
            assert(checks(env, st, e, expected)->Ok_0.0.kind is Call);
        },
        None => match env.func_id(name) {
            Some(fid) => {
                assert(checks(env, st, e, expected)->Ok_0.0.kind is Call);
            },
            None => {
                let b = builtin_named(name)->0;
                assert(builtin_named(name) is Some);
                assert(check_expr(env, st, e, expected) == check_builtin(env, st, b, args, e.line));
            },
        },
    }
}

/// A statement without a value is well typed.
proof fn lemma_effect_sound(env: EnvView, st: BodyView, e: ExprView)
    requires
        plain_expr(e),
        in_order(st),
        monomorphic(env),
        checks(env, st, e, None) is Ok,
        all_scalar_effect(checks(env, st, e, None)->Ok_0.0),
        !all_scalar(checks(env, st, e, None)->Ok_0.0),
    ensures
        checks(env, st, e, None)->Ok_0.1 == st,
        scalar_effect(
            checks(env, st, e, None)->Ok_0.0,
            names_in(env, st.cur.locals, st.cur.ret),
        ),
{
    let x = checks(env, st, e, None)->Ok_0.0;
    assert(e.kind is Call) by {
        lemma_only_calls(env, st, e);
    }
    if x.kind is Call {
        lemma_call_checked(env, st, e, None);
        let sig = env.funcs[x.kind->Call_direct->0 as int];
        lemma_args_sound(env, st, sig.params, e.kind->Call_args, 0, Seq::empty());
    } else {
        lemma_builtin_checked(env, st, e, None);
        assert(plain_exprs(e.kind->Call_args));
        let b = x.kind->Builtin_0;
        if !(b is GcCollect) {
            let want = if b is Assert {
                Some(TypeView::Bool)
            } else {
                None
            };
            assert(all_scalar(x.kind->Builtin_1[0]));
            lemma_expr_sound(env, st, e.kind->Call_args[0], want);
        }
    }
}

/// Of plain expressions, only calls can do without a value.
proof fn lemma_only_calls(env: EnvView, st: BodyView, e: ExprView)
    requires
        plain_expr(e),
        checks(env, st, e, None) is Ok,
        all_scalar_effect(checks(env, st, e, None)->Ok_0.0),
    ensures
        e.kind is Call,
{
    match e.kind {
        ExprKindView::Unary(..) => lemma_unary_checked(env, st, e, None),
        ExprKindView::Binary(..) => lemma_binary_checked(env, st, e, None),
        ExprKindView::If { .. } => lemma_if_checked(env, st, e, None),
        ExprKindView::Cast(..) => lemma_cast_checked(env, st, e, None),
        ExprKindView::Match { .. } => lemma_choice_checked(env, st, e, None),
        _ => {
            reveal(checks);
        },
    }
}

/// A call has arguments of the parameters' types, and the result's type.
proof fn lemma_call_sound(
    env: EnvView,
    st: BodyView,
    e: ExprView,
    expected: Option<TypeView>,
)
    requires
        e.kind is Call,
        plain_expr(e),
        in_order(st),
        monomorphic(env),
        checks(env, st, e, expected) is Ok,
        all_scalar(checks(env, st, e, expected)->Ok_0.0),
    ensures
        checks(env, st, e, expected)->Ok_0.1 == st,
        scalar_expr(checks(env, st, e, expected)->Ok_0.0, names_in(env, st.cur.locals, st.cur.ret)),
    decreases e, 0int,
{
    if !(checks(env, st, e, expected)->Ok_0.0.kind is Call) {
        lemma_builtin_checked(env, st, e, expected);
    }
    lemma_call_checked(env, st, e, expected);
    let x = checks(env, st, e, expected)->Ok_0.0;
    let sig = env.funcs[x.kind->Call_direct->0 as int];
    assert(all_scalar_exprs(x.kind->Call_args));
    lemma_args_sound(env, st, sig.params, e.kind->Call_args, 0, Seq::empty());
}

/// What the checker makes of a plain expression in a top-level function is
/// well typed, if its types are integers and `bool`: operands have the types
/// that their operators take, names stand for locals of their types, and
/// literals are in range.
pub proof fn law_checked_expression(
    env: EnvView,
    st: BodyView,
    e: ExprView,
    expected: Option<TypeView>,
)
    requires
        plain_expr(e),
        in_order(st),
        monomorphic(env),
        check_expr(env, st, e, expected) is Ok,
        all_scalar(check_expr(env, st, e, expected)->Ok_0.0),
    ensures
        check_expr(env, st, e, expected)->Ok_0.1 == st,
        scalar_expr(
            check_expr(env, st, e, expected)->Ok_0.0,
            names_in(env, st.cur.locals, st.cur.ret),
        ),
{
    reveal(checks);
    lemma_expr_sound(env, st, e, expected);
}

// -- Statements -------------------------------------------------------------

/// Are the locals of `a` the first ones of `b`?
pub open spec fn extends(b: Seq<TypeView>, a: Seq<TypeView>) -> bool {
    a.len() <= b.len() && forall|i: int| 0 <= i < a.len() ==> #[trigger] b[i] == a[i]
}

/// Has `b` all names of `a`?
pub open spec fn wider(b: Names, a: Names) -> bool {
    &&& extends(b.locals, a.locals)
    &&& b.ret == a.ret
    &&& forall|f: u32, ps: Seq<TypeView>, r: TypeView| #[trigger]
        a.has(f, ps, r) ==> b.has(f, ps, r)
}

/// More names do no harm.
proof fn lemma_more_exprs(es: Seq<ExprView>, a: Names, b: Names)
    requires
        scalar_args(es, a),
        wider(b, a),
    ensures
        scalar_args(es, b),
    decreases es, 1int,
{
    assert forall|i: int| 0 <= i < es.len() implies scalar_expr(#[trigger] es[i], b) by {
        lemma_more_expr(es[i], a, b);
    }
}

proof fn lemma_more_expr(e: ExprView, a: Names, b: Names)
    requires
        scalar_expr(e, a),
        wider(b, a),
    ensures
        scalar_expr(e, b),
    decreases e, 0int,
{
    match e.kind {
        ExprKindView::Var { res, .. } => {
            if let Some(VarRes::Local(i)) = res {
                assert(b[i as int] == a[i as int]);
            }
        },
        ExprKindView::Unary(_, x) => lemma_more_expr(*x, a, b),
        ExprKindView::Cast(x, _) => lemma_more_expr(*x, a, b),
        ExprKindView::Binary(_, x, y) => {
            lemma_more_expr(*x, a, b);
            lemma_more_expr(*y, a, b);
        },
        ExprKindView::If { cond, then, els } => {
            lemma_more_expr(*cond, a, b);
            lemma_more_expr(*then, a, b);
            lemma_more_expr(*els, a, b);
        },
        ExprKindView::Call { args, direct, .. } => {
            lemma_more_exprs(args, a, b);
            assert(a.has(direct->0, types_of(args), e.ty));
        },
        ExprKindView::Match { scrutinee, arms } => {
            lemma_more_expr(*scrutinee, a, b);
            assert(scalar_choices(arms, e.ty, a));
            assert forall|i: int| 0 <= i < arms.len() implies scalar_expr(
                (#[trigger] arms[i]).1,
                b,
            ) && arms[i].1.ty == e.ty by {
                lemma_more_expr(arms[i].1, a, b);
            }
            assert(scalar_choices(arms, e.ty, b));
        },
        _ => {},
    }
}

proof fn lemma_more_stmt(s: StmtView, a: Names, b: Names)
    requires
        scalar_stmt(s, a),
        wider(b, a),
    ensures
        scalar_stmt(s, b),
    decreases s, 0int,
{
    match s {
        StmtView::Let { init, local, .. } => {
            lemma_more_expr(init, a, b);
            assert(b[local as int] == a[local as int]);
        },
        StmtView::Assign { target, value, .. } => {
            lemma_more_expr(value, a, b);
            if let ExprKindView::Var { res, .. } = target.kind {
                if let Some(VarRes::Local(i)) = res {
                    assert(b[i as int] == a[i as int]);
                }
            }
        },
        StmtView::Expr(e) => {
            if scalar_effect(e, a) {
                match e.kind {
                    ExprKindView::Call { args, direct, .. } => {
                        lemma_more_exprs(args, a, b);
                        assert(a.has(direct->0, types_of(args), e.ty));
                    },
                    ExprKindView::Builtin(_, args) => {
                        if args.len() > 0 {
                            lemma_more_expr(args[0], a, b);
                        }
                    },
                    _ => {},
                }
                assert(scalar_effect(e, b));
            } else {
                lemma_more_expr(e, a, b);
            }
        },
        StmtView::If { cond, then, els } => {
            lemma_more_expr(cond, a, b);
            lemma_more_stmts(then.stmts, a, b);
            if let Some(x) = els {
                lemma_more_stmts(x.stmts, a, b);
            }
        },
        StmtView::While { cond, body } => {
            lemma_more_expr(cond, a, b);
            lemma_more_stmts(body.stmts, a, b);
        },
        StmtView::For { init, cond, step, body } => {
            if let Some(i) = init {
                lemma_more_stmt(*i, a, b);
            }
            if let Some(c) = cond {
                lemma_more_expr(c, a, b);
            }
            if let Some(t) = step {
                lemma_more_stmt(*t, a, b);
            }
            lemma_more_stmts(body.stmts, a, b);
        },
        StmtView::Return { value, .. } => {
            if let Some(v) = value {
                lemma_more_expr(v, a, b);
            }
        },
        StmtView::Block(x) => lemma_more_stmts(x.stmts, a, b),
        StmtView::Match { scrutinee, arms, .. } => {
            lemma_more_expr(scrutinee, a, b);
            lemma_more_arms(arms, a, b);
        },
        _ => {},
    }
}

proof fn lemma_more_arms(
    arms: Seq<(PatternView, BlockView)>,
    a: Names,
    b: Names,
)
    requires
        scalar_arms(arms, a),
        wider(b, a),
    ensures
        scalar_arms(arms, b),
    decreases arms, 2int,
{
    assert forall|i: int| 0 <= i < arms.len() implies scalar_stmts(
        (#[trigger] arms[i]).1.stmts,
        b,
    ) by {
        lemma_more_stmts(arms[i].1.stmts, a, b);
    }
}

pub proof fn lemma_more_stmts(ss: Seq<StmtView>, a: Names, b: Names)
    requires
        scalar_stmts(ss, a),
        wider(b, a),
    ensures
        scalar_stmts(ss, b),
    decreases ss, 1int,
{
    assert forall|i: int| 0 <= i < ss.len() implies scalar_stmt(#[trigger] ss[i], b) by {
        lemma_more_stmt(ss[i], a, b);
    }
}

#[verifier::opaque]
spec fn checks_stmt(env: EnvView, st: BodyView, s: StmtView) -> Result<
    (StmtView, BodyView),
    Seq<char>,
> {
    check_stmt(env, st, s)
}

#[verifier::opaque]
spec fn checks_block(env: EnvView, st: BodyView, b: BlockView) -> Result<
    (BlockView, BodyView),
    Seq<char>,
> {
    check_block(env, st, b)
}

#[verifier::opaque]
spec fn checks_stmts(
    env: EnvView,
    st: BodyView,
    ss: Seq<StmtView>,
    i: nat,
    acc: Seq<StmtView>,
) -> Result<(Seq<StmtView>, BodyView), Seq<char>> {
    check_stmts(env, st, ss, i, acc)
}

proof fn lemma_checks_stmts(
    env: EnvView,
    st: BodyView,
    ss: Seq<StmtView>,
    i: nat,
    acc: Seq<StmtView>,
)
    ensures
        checks_stmts(env, st, ss, i, acc) == (if i >= ss.len() {
            Ok((acc, st))
        } else {
            match checks_stmt(env, st, ss[i as int]) {
                Err(m) => Err(m),
                Ok((s, st1)) => checks_stmts(env, st1, ss, i + 1, acc.push(s)),
            }
        }),
{
    reveal(checks_stmt);
    reveal(checks_stmts);
}

proof fn lemma_checks_block(env: EnvView, st: BodyView, b: BlockView)
    requires
        checks_block(env, st, b) is Ok,
    ensures
        ({
            let a = checks_stmts(env, st, b.stmts, 0, Seq::empty());
            let (stmts, st1) = a->Ok_0;
            &&& a is Ok
            &&& checks_block(env, st, b)->Ok_0 == (
                BlockView { stmts },
                leave_scope(st1, st.cur.vars.len()),
            )
        }),
{
    reveal(checks_block);
    reveal(checks_stmts);
}

/// What a statement leaves is in order, and what the checker makes of it is
/// well typed.
spec fn sound(env: EnvView, st: BodyView, x: StmtView, st1: BodyView) -> bool {
    &&& in_order(st1)
    &&& extends(st1.cur.locals, st.cur.locals)
    &&& st1.in_loop == st.in_loop
    &&& st1.cur.ret == st.cur.ret
    &&& scalar_stmt(x, names_in(env, st1.cur.locals, st1.cur.ret))
    &&& jump_inside(x, st.in_loop)
}

proof fn lemma_let_sound(env: EnvView, st: BodyView, s: StmtView)
    requires
        s is Let,
        plain_stmt(s),
        in_order(st),
        monomorphic(env),
        checks_stmt(env, st, s) is Ok,
        all_scalar_stmt(checks_stmt(env, st, s)->Ok_0.0),
    ensures
        sound(env, st, checks_stmt(env, st, s)->Ok_0.0, checks_stmt(env, st, s)->Ok_0.1),
        checks_stmt(env, st, s)->Ok_0.0 is Let,
{
    reveal(checks_stmt);
    reveal(checks);
    reveal(declare);
    if let StmtView::Let { name, ann, init, line, .. } = s {
        assert(check_stmt(env, st, s) == check_let(env, st, name, ann, init, line));
        let want = match ann {
            None => None::<TypeView>,
            Some(te) => Some(crate::typing::resolve_type(env, te)->Ok_0),
        };
        let (x, st1) = checks_stmt(env, st, s)->Ok_0;
        let v = check_expr(env, st, init, want)->Ok_0.0;
        assert(x->Let_init == v);
        lemma_expr_sound(env, st, init, want);
        lemma_more_expr(
            v,
            names_in(env, st.cur.locals, st.cur.ret),
            names_in(env, st1.cur.locals, st1.cur.ret),
        );
    }
}

proof fn lemma_assign_sound(env: EnvView, st: BodyView, s: StmtView)
    requires
        s is Assign,
        plain_stmt(s),
        in_order(st),
        monomorphic(env),
        checks_stmt(env, st, s) is Ok,
        all_scalar_stmt(checks_stmt(env, st, s)->Ok_0.0),
    ensures
        sound(env, st, checks_stmt(env, st, s)->Ok_0.0, checks_stmt(env, st, s)->Ok_0.1),
        checks_stmt(env, st, s)->Ok_0.0 is Assign,
{
    reveal(checks_stmt);
    reveal(checks);
    reveal(check_target);
    reveal(check_arith_op);
    if let StmtView::Assign { target, op, value, line } = s {
        assert(check_stmt(env, st, s) == check_assign(env, st, s));
        let (x, st1) = checks_stmt(env, st, s)->Ok_0;
        let t = check_expr(env, st, target, None)->Ok_0.0;
        assert(x->Assign_target == t);
        lemma_expr_sound(env, st, target, None);
        let v = check_expr(env, st, value, Some(t.ty))->Ok_0.0;
        assert(x->Assign_value == v);
        lemma_expr_sound(env, st, value, Some(t.ty));
    }
}

proof fn lemma_simple_sound(env: EnvView, st: BodyView, s: StmtView)
    requires
        is_simple(s),
        plain_stmt(s),
        in_order(st),
        monomorphic(env),
        checks_stmt(env, st, s) is Ok,
        all_scalar_stmt(checks_stmt(env, st, s)->Ok_0.0),
    ensures
        sound(env, st, checks_stmt(env, st, s)->Ok_0.0, checks_stmt(env, st, s)->Ok_0.1),
        is_simple(checks_stmt(env, st, s)->Ok_0.0),
{
    match s {
        StmtView::Let { .. } => lemma_let_sound(env, st, s),
        StmtView::Assign { .. } => lemma_assign_sound(env, st, s),
        StmtView::Expr(e) => {
            reveal(checks_stmt);
            reveal(checks);
            assert(check_stmt(env, st, s) is Ok);
            if all_scalar(checks(env, st, e, None)->Ok_0.0) {
                lemma_expr_sound(env, st, e, None);
            } else {
                lemma_effect_sound(env, st, e);
            }
        },
        _ => {},
    }
}

proof fn lemma_block_sound(env: EnvView, st: BodyView, b: BlockView)
    requires
        plain_stmts(b.stmts),
        in_order(st),
        monomorphic(env),
        checks_block(env, st, b) is Ok,
        all_scalar_stmts(checks_block(env, st, b)->Ok_0.0.stmts),
    ensures
        ({
            let (x, st1) = checks_block(env, st, b)->Ok_0;
            &&& in_order(st1)
            &&& extends(st1.cur.locals, st.cur.locals)
            &&& st1.in_loop == st.in_loop
            &&& st1.cur.ret == st.cur.ret
            &&& scalar_stmts(x.stmts, names_in(env, st1.cur.locals, st1.cur.ret))
            &&& jumps_inside(x.stmts, st.in_loop)
        }),
    decreases b, 1int,
{
    lemma_checks_block(env, st, b);
    lemma_stmts_sound(env, st, b.stmts, 0, Seq::empty());
}

proof fn lemma_stmts_sound(
    env: EnvView,
    st: BodyView,
    ss: Seq<StmtView>,
    i: nat,
    acc: Seq<StmtView>,
)
    requires
        plain_stmts(ss),
        in_order(st),
        monomorphic(env),
        checks_stmts(env, st, ss, i, acc) is Ok,
        all_scalar_stmts(checks_stmts(env, st, ss, i, acc)->Ok_0.0),
    ensures
        ({
            let (out, st1) = checks_stmts(env, st, ss, i, acc)->Ok_0;
            &&& in_order(st1)
            &&& extends(st1.cur.locals, st.cur.locals)
            &&& st1.in_loop == st.in_loop
            &&& st1.cur.ret == st.cur.ret
            &&& acc.len() <= out.len()
            &&& forall|k: int| 0 <= k < acc.len() ==> #[trigger] out[k] == acc[k]
            &&& forall|k: int|
                acc.len() <= k < out.len() ==> scalar_stmt(
                    #[trigger] out[k],
                    names_in(env, st1.cur.locals, st1.cur.ret),
                )
                    && jump_inside(out[k], st.in_loop)
        }),
    decreases ss, ss.len() - i,
{
    lemma_checks_stmts(env, st, ss, i, acc);
    if i < ss.len() {
        let s = ss[i as int];
        let (x, st1) = checks_stmt(env, st, s)->Ok_0;
        let longer = acc.push(x);
        lemma_checks_grow(env, st1, ss, i + 1, longer);
        let (out, st2) = checks_stmts(env, st1, ss, i + 1, longer)->Ok_0;
        assert(out[acc.len() as int] == longer[acc.len() as int]);
        lemma_stmt_sound(env, st, s);
        lemma_stmts_sound(env, st1, ss, i + 1, longer);
        lemma_more_stmt(
            x,
            names_in(env, st1.cur.locals, st1.cur.ret),
            names_in(env, st2.cur.locals, st2.cur.ret),
        );
        assert forall|k: int| 0 <= k < acc.len() implies #[trigger] out[k] == acc[k] by {
            assert(out[k] == longer[k]);
        }
    }
}

/// What was checked stays.
proof fn lemma_checks_grow(
    env: EnvView,
    st: BodyView,
    ss: Seq<StmtView>,
    i: nat,
    acc: Seq<StmtView>,
)
    requires
        checks_stmts(env, st, ss, i, acc) is Ok,
    ensures
        acc.len() <= checks_stmts(env, st, ss, i, acc)->Ok_0.0.len(),
        forall|k: int|
            0 <= k < acc.len() ==> #[trigger] checks_stmts(env, st, ss, i, acc)->Ok_0.0[k]
                == acc[k],
    decreases ss.len() - i,
{
    lemma_checks_stmts(env, st, ss, i, acc);
    if i < ss.len() {
        let (x, st1) = checks_stmt(env, st, ss[i as int])->Ok_0;
        let longer = acc.push(x);
        lemma_checks_grow(env, st1, ss, i + 1, longer);
        let out = checks_stmts(env, st, ss, i, acc)->Ok_0.0;
        assert forall|k: int| 0 <= k < acc.len() implies #[trigger] out[k] == acc[k] by {
            assert(out[k] == longer[k]);
        }
    }
}

proof fn lemma_if_sound(env: EnvView, st: BodyView, s: StmtView)
    requires
        s is If,
        plain_stmt(s),
        in_order(st),
        monomorphic(env),
        checks_stmt(env, st, s) is Ok,
        all_scalar_stmt(checks_stmt(env, st, s)->Ok_0.0),
    ensures
        sound(env, st, checks_stmt(env, st, s)->Ok_0.0, checks_stmt(env, st, s)->Ok_0.1),
    decreases s, 0int,
{
    if let StmtView::If { cond, then, els } = s {
        let (x, st3) = checks_stmt(env, st, s)->Ok_0;
        let (c, st1) = checks(env, st, cond, Some(TypeView::Bool))->Ok_0;
        let (t, st2) = checks_block(env, st1, then)->Ok_0;
        assert(checks(env, st, cond, Some(TypeView::Bool)) is Ok && c.ty is Bool && checks_block(
            env,
            st1,
            then,
        ) is Ok && match els {
            None => x == (StmtView::If { cond: c, then: t, els: None }) && st3 == st2,
            Some(b) => {
                let f = checks_block(env, st2, b)->Ok_0.0;
                checks_block(env, st2, b) == Ok::<(BlockView, BodyView), Seq<char>>((f, st3)) && x
                    == (StmtView::If { cond: c, then: t, els: Some(f) })
            },
        }) by {
            reveal(checks);
            reveal(checks_stmt);
            reveal(checks_block);
            assert(check_stmt(env, st, s) == check_if_stmt(env, st, s));
            assert(check_cond(env, st, cond) is Ok);
        }
        lemma_expr_sound(env, st, cond, Some(TypeView::Bool));
        lemma_block_sound(env, st, then);
        match els {
            None => {
                lemma_more_expr(
                    c,
                    names_in(env, st.cur.locals, st.cur.ret),
                    names_in(env, st2.cur.locals, st2.cur.ret),
                );
            },
            Some(b) => {
                lemma_block_sound(env, st2, b);
                assert(extends(st3.cur.locals, st.cur.locals));
                lemma_more_expr(
                    c,
                    names_in(env, st.cur.locals, st.cur.ret),
                    names_in(env, st3.cur.locals, st3.cur.ret),
                );
                lemma_more_stmts(
                    t.stmts,
                    names_in(env, st2.cur.locals, st2.cur.ret),
                    names_in(env, st3.cur.locals, st3.cur.ret),
                );
            },
        }
    }
}

proof fn lemma_while_sound(env: EnvView, st: BodyView, s: StmtView)
    requires
        s is While,
        plain_stmt(s),
        in_order(st),
        monomorphic(env),
        checks_stmt(env, st, s) is Ok,
        all_scalar_stmt(checks_stmt(env, st, s)->Ok_0.0),
    ensures
        sound(env, st, checks_stmt(env, st, s)->Ok_0.0, checks_stmt(env, st, s)->Ok_0.1),
    decreases s, 0int,
{
    if let StmtView::While { cond, body } = s {
        let (x, st3) = checks_stmt(env, st, s)->Ok_0;
        let (c, st1) = checks(env, st, cond, Some(TypeView::Bool))->Ok_0;
        let inside = with_loop(st1, true);
        let (b, st2) = checks_block(env, inside, body)->Ok_0;
        assert(checks(env, st, cond, Some(TypeView::Bool)) is Ok && c.ty is Bool && checks_block(
            env,
            inside,
            body,
        ) is Ok && x == (StmtView::While { cond: c, body: b }) && st3 == with_loop(
            st2,
            st.in_loop,
        )) by {
            reveal(checks);
            reveal(checks_stmt);
            reveal(checks_block);
            assert(check_stmt(env, st, s) == check_while(env, st, s));
            assert(check_cond(env, st, cond) is Ok);
        }
        lemma_expr_sound(env, st, cond, Some(TypeView::Bool));
        lemma_block_sound(env, inside, body);
        lemma_more_expr(
            c,
            names_in(env, st.cur.locals, st.cur.ret),
            names_in(env, st2.cur.locals, st2.cur.ret),
        );
    }
}

proof fn lemma_for_sound(env: EnvView, st: BodyView, s: StmtView)
    requires
        s is For,
        plain_stmt(s),
        in_order(st),
        monomorphic(env),
        checks_stmt(env, st, s) is Ok,
        all_scalar_stmt(checks_stmt(env, st, s)->Ok_0.0),
    ensures
        sound(env, st, checks_stmt(env, st, s)->Ok_0.0, checks_stmt(env, st, s)->Ok_0.1),
    decreases s, 0int,
{
    if let StmtView::For { init, cond, step, body } = s {
        let (x, end) = checks_stmt(env, st, s)->Ok_0;
        let (i, st1) = opt_checks(env, st, init)->Ok_0;
        let (c, st2) = opt_cond(env, st1, cond)->Ok_0;
        let (t, st3) = opt_checks(env, st2, step)->Ok_0;
        let inside = with_loop(st3, true);
        let (b, st4) = checks_block(env, inside, body)->Ok_0;
        assert(opt_checks(env, st, init) is Ok && opt_cond(env, st1, cond) is Ok && opt_checks(
            env,
            st2,
            step,
        ) is Ok && checks_block(env, inside, body) is Ok && x == (StmtView::For {
            init: i,
            cond: c,
            step: t,
            body: b,
        }) && end == leave_scope(with_loop(st4, st.in_loop), st.cur.vars.len())) by {
            reveal(checks);
            reveal(checks_stmt);
            reveal(checks_block);
            assert(check_stmt(env, st, s) == check_for(env, st, s));
            assert(check_opt_stmt(env, st, init) == opt_checks(env, st, init));
            assert(check_opt_cond(env, st1, cond) == opt_cond(env, st1, cond)) by {
                if let Some(e) = cond {
                    assert(check_cond(env, st1, e) == check_cond(env, st1, e));
                }
            }
            assert(check_opt_stmt(env, st2, step) == opt_checks(env, st2, step));
        }
        if let Some(a) = init {
            lemma_simple_sound(env, st, *a);
        }
        if let Some(e) = cond {
            lemma_expr_sound(env, st1, e, Some(TypeView::Bool));
        }
        if let Some(a) = step {
            lemma_simple_sound(env, st2, *a);
        }
        lemma_block_sound(env, inside, body);
        let all = st4.cur.locals;
        assert(extends(all, st1.cur.locals) && extends(all, st3.cur.locals) && extends(
            all,
            st.cur.locals,
        ));
        if let Some(a) = init {
            lemma_more_stmt(
                *i->0,
                names_in(env, st1.cur.locals, st1.cur.ret),
                names_in(env, all, st.cur.ret),
            );
        }
        if let Some(e) = cond {
            lemma_more_expr(
                c->0,
                names_in(env, st1.cur.locals, st1.cur.ret),
                names_in(env, all, st.cur.ret),
            );
        }
        if let Some(a) = step {
            lemma_more_stmt(
                *t->0,
                names_in(env, st3.cur.locals, st3.cur.ret),
                names_in(env, all, st.cur.ret),
            );
        }
    }
}

spec fn opt_checks(env: EnvView, st: BodyView, s: Option<Box<StmtView>>) -> Result<
    (Option<Box<StmtView>>, BodyView),
    Seq<char>,
> {
    match s {
        None => Ok((None, st)),
        Some(s) => match checks_stmt(env, st, *s) {
            Err(m) => Err(m),
            Ok((x, st1)) => Ok((Some(Box::new(x)), st1)),
        },
    }
}

spec fn opt_cond(env: EnvView, st: BodyView, c: Option<ExprView>) -> Result<
    (Option<ExprView>, BodyView),
    Seq<char>,
> {
    match c {
        None => Ok((None, st)),
        Some(c) => match checks(env, st, c, Some(TypeView::Bool)) {
            Err(m) => Err(m),
            Ok((x, st1)) => if x.ty is Bool {
                Ok((Some(x), st1))
            } else {
                Err(check_cond(env, st, c)->Err_0)
            },
        },
    }
}

proof fn lemma_stmt_sound(env: EnvView, st: BodyView, s: StmtView)
    requires
        plain_stmt(s),
        in_order(st),
        monomorphic(env),
        checks_stmt(env, st, s) is Ok,
        all_scalar_stmt(checks_stmt(env, st, s)->Ok_0.0),
    ensures
        sound(env, st, checks_stmt(env, st, s)->Ok_0.0, checks_stmt(env, st, s)->Ok_0.1),
    decreases s, 1int,
{
    match s {
        StmtView::Let { .. } => lemma_let_sound(env, st, s),
        StmtView::Assign { .. } => lemma_assign_sound(env, st, s),
        StmtView::Expr(_) => lemma_simple_sound(env, st, s),
        StmtView::If { .. } => lemma_if_sound(env, st, s),
        StmtView::While { .. } => lemma_while_sound(env, st, s),
        StmtView::For { .. } => lemma_for_sound(env, st, s),
        StmtView::Return { value, line } => {
            reveal(checks);
            reveal(checks_stmt);
            assert(check_stmt(env, st, s) == check_return(env, st, value, line));
            if let Some(v) = value {
                lemma_expr_sound(env, st, v, Some(st.cur.ret));
            }
        },
        StmtView::Break(_) => {
            reveal(checks_stmt);
        },
        StmtView::Continue(_) => {
            reveal(checks_stmt);
        },
        StmtView::Block(b) => {
            assert(checks_block(env, st, b) is Ok && checks_stmt(env, st, s)->Ok_0 == (
                StmtView::Block(checks_block(env, st, b)->Ok_0.0),
                checks_block(env, st, b)->Ok_0.1,
            )) by {
                reveal(checks_stmt);
                reveal(checks_block);
            }
            lemma_block_sound(env, st, b);
        },
        StmtView::Match { .. } => lemma_match_sound(env, st, s),
    }
}

#[verifier::opaque]
spec fn checks_arms(
    env: EnvView,
    st: BodyView,
    arms: Seq<(PatternView, BlockView)>,
    pats: Seq<PatternView>,
    i: nat,
    acc: Seq<(PatternView, BlockView)>,
) -> Result<(Seq<(PatternView, BlockView)>, BodyView), Seq<char>> {
    check_stmt_arms(env, st, arms, pats, i, acc)
}

/// A pattern that is no variant binds nothing.
proof fn lemma_checks_arms(
    env: EnvView,
    st: BodyView,
    arms: Seq<(PatternView, BlockView)>,
    pats: Seq<PatternView>,
    i: nat,
    acc: Seq<(PatternView, BlockView)>,
)
    requires
        i < arms.len() ==> !(pats[i as int] is Variant),
    ensures
        checks_arms(env, st, arms, pats, i, acc) == (if i >= arms.len() {
            Ok((acc, st))
        } else {
            match checks_block(env, st, arms[i as int].1) {
                Err(m) => Err(m),
                Ok((b, st2)) => checks_arms(
                    env,
                    leave_scope(st2, st.cur.vars.len()),
                    arms,
                    pats,
                    i + 1,
                    acc.push((pats[i as int], b)),
                ),
            }
        }),
{
    reveal(checks_arms);
    reveal(checks_block);
    reveal(declare_binders);
}

/// What was checked stays.
proof fn lemma_arms_grow(
    env: EnvView,
    st: BodyView,
    arms: Seq<(PatternView, BlockView)>,
    pats: Seq<PatternView>,
    i: nat,
    acc: Seq<(PatternView, BlockView)>,
)
    requires
        i <= arms.len(),
        forall|k: int| 0 <= k < arms.len() ==> !(#[trigger] pats[k] is Variant),
        checks_arms(env, st, arms, pats, i, acc) is Ok,
    ensures
        ({
            let out = checks_arms(env, st, arms, pats, i, acc)->Ok_0.0;
            &&& out.len() == acc.len() + (arms.len() - i)
            &&& forall|k: int| 0 <= k < acc.len() ==> #[trigger] out[k] == acc[k]
            &&& forall|k: int|
                acc.len() <= k < out.len() ==> (#[trigger] out[k]).0 == pats[k - acc.len() + i]
        }),
    decreases arms.len() - i,
{
    lemma_checks_arms(env, st, arms, pats, i, acc);
    if i < arms.len() {
        let (b, st2) = checks_block(env, st, arms[i as int].1)->Ok_0;
        let longer = acc.push((pats[i as int], b));
        let st3 = leave_scope(st2, st.cur.vars.len());
        lemma_arms_grow(env, st3, arms, pats, i + 1, longer);
        let out = checks_arms(env, st, arms, pats, i, acc)->Ok_0.0;
        assert(out[acc.len() as int] == longer[acc.len() as int]);
        assert forall|k: int| 0 <= k < acc.len() implies #[trigger] out[k] == acc[k] by {
            assert(out[k] == longer[k]);
        }
    }
}

proof fn lemma_arms_sound(
    env: EnvView,
    st: BodyView,
    arms: Seq<(PatternView, BlockView)>,
    pats: Seq<PatternView>,
    i: nat,
    acc: Seq<(PatternView, BlockView)>,
)
    requires
        i <= arms.len(),
        plain_arms(arms),
        in_order(st),
        monomorphic(env),
        forall|k: int| 0 <= k < arms.len() ==> !(#[trigger] pats[k] is Variant),
        checks_arms(env, st, arms, pats, i, acc) is Ok,
        all_scalar_arms(checks_arms(env, st, arms, pats, i, acc)->Ok_0.0),
    ensures
        ({
            let (out, st1) = checks_arms(env, st, arms, pats, i, acc)->Ok_0;
            &&& in_order(st1)
            &&& extends(st1.cur.locals, st.cur.locals)
            &&& st1.in_loop == st.in_loop
            &&& st1.cur.ret == st.cur.ret
            &&& forall|k: int|
                acc.len() <= k < out.len() ==> scalar_stmts(
                    (#[trigger] out[k]).1.stmts,
                    names_in(env, st1.cur.locals, st1.cur.ret),
                ) && jumps_inside(out[k].1.stmts, st.in_loop)
        }),
    decreases arms, arms.len() - i,
{
    lemma_checks_arms(env, st, arms, pats, i, acc);
    lemma_arms_grow(env, st, arms, pats, i, acc);
    if i < arms.len() {
        let (b, st2) = checks_block(env, st, arms[i as int].1)->Ok_0;
        let longer = acc.push((pats[i as int], b));
        let st3 = leave_scope(st2, st.cur.vars.len());
        lemma_arms_grow(env, st3, arms, pats, i + 1, longer);
        let (out, st1) = checks_arms(env, st3, arms, pats, i + 1, longer)->Ok_0;
        assert(out[acc.len() as int] == longer[acc.len() as int]);
        assert(all_scalar_stmts(out[acc.len() as int].1.stmts));
        lemma_block_sound(env, st, arms[i as int].1);
        assert(in_order(st3));
        lemma_arms_sound(env, st3, arms, pats, i + 1, longer);
        lemma_more_stmts(
            b.stmts,
            names_in(env, st2.cur.locals, st2.cur.ret),
            names_in(env, st1.cur.locals, st1.cur.ret),
        );
    }
}

/// What the checker accepts as the patterns on an integer or a truth value
/// covers all values.
proof fn lemma_covering(env: EnvView, t: TypeView, pats: Seq<PatternView>, line: u32)
    requires
        is_scalar(t),
        pats.len() > 0,
        check_patterns(env, t, pats, line) is Ok,
    ensures
        covering(check_patterns(env, t, pats, line)->Ok_0, t),
        check_patterns(env, t, pats, line)->Ok_0.len() == pats.len(),
{
    let out = check_patterns(env, t, pats, line)->Ok_0;
    lemma_scalar_patterns(env, t, pats, line);
    assert(apart(out)) by {
        lemma_word(0);
        let x: int = 0;
        assert(fits_type(t, 0));
        lemma_value_key(env, t, 0);
        law_match_is_exhaustive(env, t, pats, line, word(0));
    }
    assert forall|x: int| #[trigger] fits_type(t, x) implies exists|i: int|
        0 <= i < out.len() && takes(#[trigger] out[i], word(x)) by {
        lemma_value_key(env, t, x);
        law_match_is_exhaustive(env, t, pats, line, word(x));
    }
}

proof fn lemma_value_key(env: EnvView, t: TypeView, x: int)
    requires
        fits_type(t, x),
    ensures
        is_key(env, t, word(x)),
{
    lemma_word(x);
    if t is Int {
        assert(bits_of(x) == word(x));
    }
}

proof fn lemma_checks_match(env: EnvView, st: BodyView, s: StmtView)
    requires
        s is Match,
        checks_stmt(env, st, s) is Ok,
    ensures
        ({
            let (scrutinee, arms, line) = (s->Match_scrutinee, s->Match_arms, s->Match_line);
            let a = checks(env, st, scrutinee, None);
            let (v, st1) = a->Ok_0;
            let p = check_patterns(env, v.ty, stmt_patterns(arms), line);
            let r = checks_arms(env, st1, arms, p->Ok_0, 0, Seq::empty());
            let (xs, st2) = r->Ok_0;
            &&& a is Ok
            &&& p is Ok
            &&& r is Ok
            &&& checks_stmt(env, st, s)->Ok_0 == (
                StmtView::Match { scrutinee: v, arms: xs, line },
                st2,
            )
        }),
{
    reveal(checks);
    reveal(checks_stmt);
    reveal(checks_arms);
    assert(check_stmt(env, st, s) == check_stmt_match(env, st, s));
}

proof fn lemma_match_sound(env: EnvView, st: BodyView, s: StmtView)
    requires
        s is Match,
        plain_stmt(s),
        in_order(st),
        monomorphic(env),
        checks_stmt(env, st, s) is Ok,
        all_scalar_stmt(checks_stmt(env, st, s)->Ok_0.0),
    ensures
        sound(env, st, checks_stmt(env, st, s)->Ok_0.0, checks_stmt(env, st, s)->Ok_0.1),
    decreases s, 0int,
{
    let (scrutinee, arms, line) = (s->Match_scrutinee, s->Match_arms, s->Match_line);
    lemma_checks_match(env, st, s);
    let (v, st1) = checks(env, st, scrutinee, None)->Ok_0;
    let want = stmt_patterns(arms);
    let pats = check_patterns(env, v.ty, want, line)->Ok_0;
    let none = Seq::<(PatternView, BlockView)>::empty();
    let (xs, st2) = checks_arms(env, st1, arms, pats, 0, none)->Ok_0;
    assert(plain_expr(scrutinee) && plain_arms(arms));
    assert(all_scalar(v) && all_scalar_arms(xs));
    lemma_expr_sound(env, st, scrutinee, None);
    lemma_scalar_type(v, names_in(env, st.cur.locals, st.cur.ret));
    lemma_no_empty_match(env, v.ty, want, line);
    lemma_covering(env, v.ty, want, line);
    lemma_arms_grow(env, st, arms, pats, 0, none);
    lemma_arms_sound(env, st, arms, pats, 0, none);
    assert(stmt_patterns(xs) =~= pats);
    lemma_more_expr(
        v,
        names_in(env, st.cur.locals, st.cur.ret),
        names_in(env, st2.cur.locals, st2.cur.ret),
    );
    assert(scalar_arms(xs, names_in(env, st2.cur.locals, st2.cur.ret)));
    assert(arms_jump_inside(xs, st.in_loop));
}

/// A match on an integer or a truth value has an arm.
proof fn lemma_no_empty_match(env: EnvView, t: TypeView, pats: Seq<PatternView>, line: u32)
    requires
        is_scalar(t),
        check_patterns(env, t, pats, line) is Ok,
    ensures
        pats.len() > 0,
{
    reveal(check_patterns);
}

// -- Functions --------------------------------------------------------------

proof fn lemma_params(
    st: BodyView,
    ps: Seq<(Seq<char>, crate::ast::TypeExprView)>,
    tys: Seq<TypeView>,
    line: u32,
    i: nat,
)
    requires
        in_order(st),
        i <= ps.len() == tys.len(),
        st.cur.locals == tys.take(i as int),
        declare_params(st, ps, tys, line, i) is Ok,
    ensures
        ({
            let st1 = declare_params(st, ps, tys, line, i)->Ok_0;
            &&& in_order(st1)
            &&& st1.cur.locals == tys
            &&& st1.in_loop == st.in_loop
            &&& st1.cur.ret == st.cur.ret
        }),
    decreases ps.len() - i,
{
    if i < ps.len() {
        let st1 = declare(st, ps[i as int].0, tys[i as int], line)->Ok_0.1;
        assert(in_order(st1) && st1.cur.locals == st.cur.locals.push(tys[i as int]) && st1.in_loop
            == st.in_loop && st1.cur.ret == st.cur.ret) by {
            reveal(declare);
        }
        assert(tys.take(i as int + 1) =~= tys.take(i as int).push(tys[i as int]));
        lemma_params(st1, ps, tys, line, i + 1);
    } else {
        assert(tys.take(i as int) =~= tys);
    }
}

/// The locals of the function that was checked last.
pub open spec fn locals_of(side: SideView) -> Seq<TypeView> {
    side.func_locals.last()
}

/// What the checker makes of a plain function whose types are integers and
/// `bool` is well typed: its parameters are its first locals, it jumps only
/// inside loops, and it returns on all paths if it returns a value.
pub proof fn law_checked_function(env: EnvView, side: SideView, f: FuncDefView, sig: FuncSigView)
    requires
        monomorphic(env),
        plain_stmts(f.body.stmts),
        f.params.len() == sig.params.len(),
        check_func(env, side, f, sig) is Ok,
        all_scalar_stmts(check_func(env, side, f, sig)->Ok_0.0.body.stmts),
    ensures
        ({
            let (x, side1) = check_func(env, side, f, sig)->Ok_0;
            let ss = x.body.stmts;
            &&& scalar_stmts(ss, names_in(env, locals_of(side1), sig.ret))
            &&& extends(locals_of(side1), sig.params)
            &&& jumps_inside(ss, false)
            &&& sig.ret is Unit || any_returns(ss)
        }),
{
    reveal(check_func);
    reveal(checks_block);
    let scope = EnvView { type_params: f.type_params, ..env };
    let begin = BodyView {
        cur: fresh_ctx(None, sig.ret),
        outer: Seq::empty(),
        in_loop: false,
        lambda_locals: side.lambda_locals,
        lambda_sigs: side.lambda_sigs,
    };
    assert(sig.params.take(0) =~= Seq::empty());
    lemma_params(begin, f.params, sig.params, f.line, 0);
    let st = declare_params(begin, f.params, sig.params, f.line, 0)->Ok_0;
    let (body, st1) = check_block(scope, st, f.body)->Ok_0;
    lemma_block_sound(scope, st, f.body);
    assert(always_returns(body) == any_returns(body.stmts));
}

/// Has every function of the program a symbol?
pub open spec fn has_symbols(low: LowEnv, env: EnvView) -> bool {
    low.func_ids.len() == env.funcs.len() && forall|i: int|
        0 <= i < env.funcs.len() ==> #[trigger] low.func_ids[i] is Some
}

/// What a body may refer to, with the symbols that functions have.
pub open spec fn names_with(
    low: LowEnv,
    env: EnvView,
    locals: Seq<TypeView>,
    ret: TypeView,
) -> Names {
    Names { locals, ret, ids: low.func_ids, sigs: env.funcs }
}

/// The function as the lowering takes it.
pub open spec fn source_of(
    func: usize,
    f: FuncDefView,
    sig: FuncSigView,
    side: SideView,
) -> Source {
    Source {
        func,
        locals: locals_of(side),
        nparams: f.params.len(),
        body: f.body,
        ret: sig.ret,
        line: f.line,
    }
}

/// A plain function whose types are integers and `bool` has code once the
/// checker accepts it.
pub proof fn law_checked_function_has_code(
    env: EnvView,
    side: SideView,
    f: FuncDefView,
    sig: FuncSigView,
    low: LowEnv,
    g: GenView,
    func: usize,
)
    requires
        monomorphic(env),
        plain_stmts(f.body.stmts),
        f.params.len() == sig.params.len(),
        check_func(env, side, f, sig) is Ok,
        all_scalar_stmts(check_func(env, side, f, sig)->Ok_0.0.body.stmts),
        !low.lambda,
        has_symbols(low, env),
        low.locals == locals_of(check_func(env, side, f, sig)->Ok_0.1).len(),
        func < g.funcs.len(),
        g.funcs[func as int].sig.params.len() == f.params.len(),
    ensures
        ({
            let (x, side1) = check_func(env, side, f, sig)->Ok_0;
            compile_body(low, g, source_of(func, x, sig, side1)) is Ok
        }),
{
    law_checked_function(env, side, f, sig);
    let (x, side1) = check_func(env, side, f, sig)->Ok_0;
    assert(x.params == f.params) by {
        reveal(check_func);
    }
    let src = source_of(func, x, sig, side1);
    let st = prologue(low, g, src);
    let names = names_with(low, env, locals_of(side1), sig.ret);
    lemma_prologue_flow(low, g, src);
    lemma_more_stmts(x.body.stmts, names_in(env, locals_of(side1), sig.ret), names);
    law_statements_have_code(low, st, x.body.stmts, names);
    reveal(compile_body);
    assert(gen_block(low, st, x.body) == gen_stmts(low, st, x.body.stmts, 0));
}

/// From the source to the machine: a plain function over integers and `bool`
/// that the checker accepts, called with arguments of its parameters' types,
/// where calls come to what they give in the language and the stack is not
/// exhausted, returns the value that its checked body returns and panics where
/// it panics, and never runs off its end or out of a loop that is not there.
pub proof fn law_checked_function_runs(
    env: EnvView,
    side: SideView,
    f: FuncDefView,
    sig: FuncSigView,
    low: LowEnv,
    g: GenView,
    func: usize,
    args: Seq<int>,
    world: World,
    around: Around,
    calls: Calls,
    fuel: nat,
)
    requires
        monomorphic(env),
        plain_stmts(f.body.stmts),
        f.params.len() == sig.params.len() <= usize::MAX,
        check_func(env, side, f, sig) is Ok,
        all_scalar_stmts(check_func(env, side, f, sig)->Ok_0.0.body.stmts),
        !low.lambda,
        has_symbols(low, env),
        low.locals == locals_of(check_func(env, side, f, sig)->Ok_0.1).len(),
        func < g.funcs.len(),
        g.funcs[func as int].sig.params.len() == f.params.len(),
        args.len() == sig.params.len(),
        forall|i: int|
            0 <= i < args.len() && is_scalar(#[trigger] sig.params[i]) ==> fits_type(
                sig.params[i],
                args[i],
            ),
        around.sp >= STACK_LIMIT,
        typed(calls, names_with(low, env, Seq::empty(), sig.ret)),
        agree(around.calls, calls, names_with(low, env, Seq::empty(), sig.ret)),
        ({
            let (x, side1) = check_func(env, side, f, sig)->Ok_0;
            runnable(
                compile_body(low, g, source_of(func, x, sig, side1))->Ok_0.bodies.last().ops,
            )
        }),
    ensures
        ({
            let (x, side1) = check_func(env, side, f, sig)->Ok_0;
            let ops = compile_body(
                low,
                g,
                source_of(func, x, sig, side1),
            )->Ok_0.bodies.last().ops;
            let m = called(words(args), world, around);
            match exec_stmts(x.body.stmts, 0, params(args, world, calls), fuel) {
                Exec::Return(v, w) => leads(ops, m, End::Return(returned(v), w)),
                Exec::Panic(rt, line, w) => leads(ops, m, End::Panic(rt, line, w)),
                Exec::Next(v) => sig.ret is Unit && leads(ops, m, End::Return(None, v.world)),
                Exec::Unfinished => true,
                _ => false,
            }
        }),
{
    law_checked_function(env, side, f, sig);
    law_checked_function_has_code(env, side, f, sig, low, g, func);
    let (x, side1) = check_func(env, side, f, sig)->Ok_0;
    assert(x.params == f.params) by {
        reveal(check_func);
    }
    let src = source_of(func, x, sig, side1);
    let locals = locals_of(side1);
    assert forall|i: int| 0 <= i < args.len() && is_scalar(#[trigger] src.locals[i]) implies
        fits_type(src.locals[i], args[i]) by {
        assert(locals[i] == sig.params[i]);
    }
    let names = names_with(low, env, locals, sig.ret);
    let vars = params(args, world, calls);
    lemma_more_stmts(x.body.stmts, names_in(env, locals, sig.ret), names);
    law_function(low, g, src, names, args, world, around, calls, fuel);
    if any_returns(x.body.stmts) {
        assert(holds_values(vars, names)) by {
            assert forall|i: int| 0 <= i < names.len() && is_scalar(#[trigger] names[i]) implies
                fits_type(names[i], vars[i]) by {
                if i < args.len() {
                    assert(locals[i] == sig.params[i]);
                }
            }
        }
        law_always_returns(x.body.stmts, names, vars, fuel);
    }
}

// -- In the unit ------------------------------------------------------------

proof fn lemma_plain_expr(e: ExprView, locals: Names)
    requires
        scalar_expr(e, locals),
    ensures
        within_expr(e, 0),
        lambdas_in(e) == Seq::<LambdaDefView>::empty(),
    decreases e, 0int,
{
    lemma_scalar_type(e, locals);
    match e.kind {
        ExprKindView::Unary(_, a) => lemma_plain_expr(*a, locals),
        ExprKindView::Cast(a, _) => lemma_plain_expr(*a, locals),
        ExprKindView::Binary(_, a, b) => {
            lemma_plain_expr(*a, locals);
            lemma_plain_expr(*b, locals);
            assert(lambdas_in(e) =~= Seq::empty());
        },
        ExprKindView::If { cond, then, els } => {
            lemma_plain_expr(*cond, locals);
            lemma_plain_expr(*then, locals);
            lemma_plain_expr(*els, locals);
            assert(lambdas_in(e) =~= Seq::empty());
        },
        ExprKindView::Call { callee, args, .. } => {
            assert(scalar_args(args, locals));
            lemma_plain_args(args, locals);
            lemma_no_arg_lambdas(args, 0, locals);
            assert(within_types(types_of(args), 0)) by {
                assert forall|i: int| 0 <= i < args.len() implies within_type(
                    #[trigger] types_of(args)[i],
                    0,
                ) by {
                    assert(scalar_expr(args[i], locals));
                    lemma_scalar_type(args[i], locals);
                }
            }
            assert(within_type(e.ty, 0));
            assert(within_type(TypeView::Fn(types_of(args), Box::new(e.ty)), 0));
            assert(within_kind(callee.kind, 0));
            assert(within_expr(*callee, 0));
            assert(lambdas_in(*callee) =~= Seq::empty());
            assert(lambdas_in(e) =~= Seq::empty());
        },
        ExprKindView::Match { scrutinee, arms } => {
            lemma_plain_expr(*scrutinee, locals);
            assert(scalar_choices(arms, e.ty, locals));
            assert forall|i: int| 0 <= i < arms.len() implies within_pattern(
                (#[trigger] arms[i]).0,
                0,
            ) && within_expr(arms[i].1, 0) by {
                assert(expr_patterns(arms)[i] == arms[i].0);
                lemma_plain_expr(arms[i].1, locals);
            }
            assert(within_arms(arms, 0));
            lemma_no_choice_lambdas(arms, 0, e.ty, locals);
            assert(lambdas_in(e) =~= Seq::empty());
        },
        _ => {},
    }
    assert(within_kind(e.kind, 0));
}

proof fn lemma_no_choice_lambdas(
    arms: Seq<(PatternView, ExprView)>,
    i: nat,
    t: TypeView,
    locals: Names,
)
    requires
        scalar_choices(arms, t, locals),
    ensures
        lambdas_in_arms(arms, i) == Seq::<LambdaDefView>::empty(),
    decreases arms, arms.len() - i,
{
    if i < arms.len() {
        assert(scalar_expr(arms[i as int].1, locals));
        lemma_plain_expr(arms[i as int].1, locals);
        lemma_no_choice_lambdas(arms, i + 1, t, locals);
        assert(lambdas_in_arms(arms, i) =~= Seq::empty());
    }
}

proof fn lemma_plain_effect(e: ExprView, locals: Names)
    requires
        scalar_effect(e, locals),
    ensures
        within_expr(e, 0),
        lambdas_in(e) == Seq::<LambdaDefView>::empty(),
{
    match e.kind {
        ExprKindView::Call { callee, args, .. } => {
            lemma_plain_args(args, locals);
            lemma_no_arg_lambdas(args, 0, locals);
            assert(within_types(types_of(args), 0)) by {
                assert forall|i: int| 0 <= i < args.len() implies within_type(
                    #[trigger] types_of(args)[i],
                    0,
                ) by {
                    assert(scalar_expr(args[i], locals));
                    lemma_scalar_type(args[i], locals);
                }
            }
            assert(within_type(e.ty, 0));
            assert(within_type(TypeView::Fn(types_of(args), Box::new(e.ty)), 0));
            assert(within_kind(callee.kind, 0));
            assert(within_expr(*callee, 0));
            assert(lambdas_in(*callee) =~= Seq::empty());
            assert(lambdas_in(e) =~= Seq::empty());
        },
        ExprKindView::Builtin(_, args) => {
            assert forall|i: int| 0 <= i < args.len() implies scalar_expr(
                #[trigger] args[i],
                locals,
            ) by {}
            assert(scalar_args(args, locals));
            lemma_plain_args(args, locals);
            lemma_no_arg_lambdas(args, 0, locals);
        },
        _ => {},
    }
    assert(within_kind(e.kind, 0));
}

proof fn lemma_plain_args(es: Seq<ExprView>, locals: Names)
    requires
        scalar_args(es, locals),
    ensures
        within_exprs(es, 0),
    decreases es, 1int,
{
    assert forall|i: int| 0 <= i < es.len() implies within_expr(#[trigger] es[i], 0) by {
        lemma_plain_expr(es[i], locals);
    }
}

proof fn lemma_no_arg_lambdas(es: Seq<ExprView>, i: nat, locals: Names)
    requires
        scalar_args(es, locals),
    ensures
        lambdas_in_list(es, i) == Seq::<LambdaDefView>::empty(),
    decreases es, es.len() - i,
{
    if i < es.len() {
        lemma_plain_expr(es[i as int], locals);
        lemma_no_arg_lambdas(es, i + 1, locals);
        assert(lambdas_in_list(es, i) =~= Seq::empty());
    }
}

proof fn lemma_plain_stmt(s: StmtView, locals: Names)
    requires
        scalar_stmt(s, locals),
    ensures
        within_stmt(s, 0),
        lambdas_in_stmt(s) == Seq::<LambdaDefView>::empty(),
    decreases s, 0int,
{
    match s {
        StmtView::Let { init, .. } => {
            lemma_plain_expr(init, locals);
            lemma_scalar_type(init, locals);
        },
        StmtView::Assign { target, value, .. } => {
            lemma_plain_expr(value, locals);
            lemma_scalar_type(value, locals);
            assert(within_kind(target.kind, 0));
            assert(within_expr(target, 0));
            assert(lambdas_in(target) =~= Seq::empty());
            assert(lambdas_in_stmt(s) =~= Seq::empty());
        },
        StmtView::Expr(e) => {
            if scalar_effect(e, locals) {
                lemma_plain_effect(e, locals);
            } else {
                lemma_plain_expr(e, locals);
            }
        },
        StmtView::If { cond, then, els } => {
            lemma_plain_expr(cond, locals);
            lemma_plain_block(then, locals);
            if let Some(b) = els {
                lemma_plain_block(b, locals);
            }
            assert(lambdas_in_stmt(s) =~= Seq::empty());
        },
        StmtView::While { cond, body } => {
            lemma_plain_expr(cond, locals);
            lemma_plain_block(body, locals);
            assert(lambdas_in_stmt(s) =~= Seq::empty());
        },
        StmtView::For { init, cond, step, body } => {
            if let Some(i) = init {
                lemma_plain_stmt(*i, locals);
            }
            if let Some(c) = cond {
                lemma_plain_expr(c, locals);
            }
            if let Some(t) = step {
                lemma_plain_stmt(*t, locals);
            }
            lemma_plain_block(body, locals);
            assert(lambdas_in_stmt(s) =~= Seq::empty());
        },
        StmtView::Return { value, .. } => {
            if let Some(v) = value {
                lemma_plain_expr(v, locals);
            }
        },
        StmtView::Block(b) => lemma_plain_block(b, locals),
        StmtView::Match { scrutinee, arms, .. } => {
            lemma_plain_expr(scrutinee, locals);
            assert(scalar_arms(arms, locals));
            assert forall|i: int| 0 <= i < arms.len() implies within_pattern(
                (#[trigger] arms[i]).0,
                0,
            ) && within_block(arms[i].1, 0) by {
                assert(stmt_patterns(arms)[i] == arms[i].0);
                lemma_plain_block(arms[i].1, locals);
            }
            assert(within_block_arms(arms, 0));
            lemma_no_arm_lambdas(arms, 0, locals);
            assert(lambdas_in_stmt(s) =~= Seq::empty());
        },
        _ => {},
    }
}

proof fn lemma_no_arm_lambdas(
    arms: Seq<(PatternView, BlockView)>,
    i: nat,
    locals: Names,
)
    requires
        scalar_arms(arms, locals),
    ensures
        lambdas_in_block_arms(arms, i) == Seq::<LambdaDefView>::empty(),
    decreases arms, arms.len() - i,
{
    if i < arms.len() {
        lemma_plain_block(arms[i as int].1, locals);
        lemma_no_arm_lambdas(arms, i + 1, locals);
        assert(lambdas_in_block_arms(arms, i) =~= Seq::empty());
    }
}

proof fn lemma_plain_block(b: BlockView, locals: Names)
    requires
        scalar_stmts(b.stmts, locals),
    ensures
        within_block(b, 0),
        lambdas_in_block(b) == Seq::<LambdaDefView>::empty(),
    decreases b, 1int,
{
    assert forall|i: int| 0 <= i < b.stmts.len() implies within_stmt(#[trigger] b.stmts[i], 0) by {
        lemma_plain_stmt(b.stmts[i], locals);
    }
    assert(within_stmts(b.stmts, 0));
    lemma_no_lambdas(b.stmts, 0, locals);
}

proof fn lemma_no_lambdas(ss: Seq<StmtView>, i: nat, locals: Names)
    requires
        scalar_stmts(ss, locals),
    ensures
        lambdas_in_stmts(ss, i) == Seq::<LambdaDefView>::empty(),
    decreases ss, ss.len() - i,
{
    if i < ss.len() {
        lemma_plain_stmt(ss[i as int], locals);
        lemma_no_lambdas(ss, i + 1, locals);
        assert(lambdas_in_stmts(ss, i) =~= Seq::empty());
    }
}

/// A scheduled function over integers and truth values is lowered just as the
/// checker left it: its body joins the unit, and nothing else does.
pub proof fn law_scheduled_function_is_lowered(
    env: LowEnv,
    g: GenView,
    w: InstKeyView,
    names: Names,
)
    requires
        w.fid < env.program.funcs.len(),
        w.fid < env.checked.funcs.len(),
        w.fid < env.checked.func_locals.len(),
        ({
            let f = env.program.funcs[w.fid as int];
            let sig = env.checked.funcs[w.fid as int];
            let locals = env.checked.func_locals[w.fid as int];
            &&& scalar_stmts(f.body.stmts, names)
            &&& names.locals == locals
            &&& within_types(locals, 0)
            &&& within_types(sig.params, 0)
            &&& within_type(sig.ret, 0)
        }),
    ensures
        ({
            let f = env.program.funcs[w.fid as int];
            let locals = env.checked.func_locals[w.fid as int];
            let src = Source {
                func: w.func,
                locals,
                nparams: f.params.len(),
                body: f.body,
                ret: env.checked.funcs[w.fid as int].ret,
                line: f.line,
            };
            let low = LowEnv { lams: Seq::empty(), locals: locals.len(), lambda: false, ..env };
            match compile_body(low, g, src) {
                Ok(g1) => compile_work(env, g, w) == Ok::<GenView, Seq<char>>(g1),
                Err(_) => compile_work(env, g, w) is Err,
            }
        }),
{
    reveal(compile_work);
    let f = env.program.funcs[w.fid as int];
    let locals = env.checked.func_locals[w.fid as int];
    lemma_plain_block(f.body, names);
    law_instance_of_concrete_is_itself(w.fid, f, env.checked, w.shapes);
    let inst = instance_of(w.fid, f, env.checked, w.shapes);
    assert(inst.def.body == f.body);
}

} // verus!
