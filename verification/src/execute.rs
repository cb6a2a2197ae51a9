//! What statements over integers and truth values do, and that the code they
//! are lowered to does just that.
use vstd::prelude::*;

use crate::ast::{BinOp, BlockView, Builtin, ExprKindView, ExprView, PatternView, StmtView, VarRes};
use crate::scalars::{
    after, agree, answer, answers, arm_head, arm_other, at_line, computes, covering, eval,
    eval_args, fit_all, fits_type, framed, gives, goes_on, holds_values, holds_words, is_scalar,
    kind_of, law_eval_keeps_types, law_expression, law_expression_has_code, lemma_args,
    lemma_args_keep_types, lemma_arith_goes_on, lemma_arm_test, lemma_begins, lemma_blocks,
    lemma_branch, lemma_code, lemma_goes_on_more, lemma_grows, lemma_hand_on, lemma_list_code,
    lemma_list_grows, lemma_list_has_code, lemma_put_args_grows, lemma_scalar_type, same_flow,
    scalar_args, scalar_expr, suits, typed, types_of, words, Calls, Eval, Names, Vars,
};
use crate::ir::{Op, Rt};
use crate::lower::{
    arith, bind_pattern, builtin_value, callee_of, check_overflow, checked_arith, compile_body,
    divide, divide_signed, empty_fn, enter_loop, epilogue, flow_to, gen_assign_local, gen_block,
    gen_block_arms, gen_builtin, gen_call, gen_expr, gen_for, gen_for_cond, gen_if_stmt, gen_list,
    gen_opt_stmt, gen_return, gen_scalar, gen_stmt, gen_stmt_match, gen_stmts, gen_while,
    home_params, int_arith, join_at, leave_loop, next, pattern_const, print_fn, prologue, put,
    put_args, shift, stack_guard, start, test_arm, with_gen, with_terminated, GenView, LowEnv,
    LowView, Source,
};
use crate::machine::{
    leads, operate, printed, run, runtime, start_from, step, truth, word, Around, End, Machine,
};
use crate::memory::{World, STACK_LIMIT};
use crate::meaning::{
    begins, kept, law_int_arith, law_operate_in_range, law_word_round_trip, lemma_leads_here,
    lemma_leads_on, lemma_leads_step, lemma_start, lemma_step_then, lemma_word, ready, runnable,
};
use crate::types::TypeView;
use crate::matching::{apart, pattern_key, takes};
use crate::text::dec_int_text;
use crate::typing::{
    all_arms_return, always_returns, any_returns, is_arith, stmt_patterns, stmt_returns,
};
use crate::walk::calls_in_block;

verus! {

// -- The language -----------------------------------------------------------

/// How a statement ends, with the variables and the world that it leaves; or that it is not
/// finished after so many turns of its loops.
pub enum Exec {
    Next(Vars),
    Break(Vars),
    Continue(Vars),
    Return(Option<int>, World),
    Panic(Rt, u32, World),
    Unfinished,
}

/// A statement that passes control on: what may begin or step a loop.
pub open spec fn is_simple(s: StmtView) -> bool {
    s is Let || s is Assign || s is Expr
}

pub open spec fn scalar_stmts(ss: Seq<StmtView>, locals: Names) -> bool
    decreases ss, 1nat,
{
    forall|i: int| 0 <= i < ss.len() ==> scalar_stmt(#[trigger] ss[i], locals)
}

pub open spec fn scalar_arms(arms: Seq<(PatternView, BlockView)>, locals: Names) -> bool
    decreases arms, 2nat,
{
    forall|i: int| 0 <= i < arms.len() ==> scalar_stmts((#[trigger] arms[i]).1.stmts, locals)
}

/// Is this a statement over local integers and truth values, with the types
/// that the checker gives, and nothing on the heap?
pub open spec fn scalar_stmt(s: StmtView, locals: Names) -> bool
    decreases s, 0nat,
{
    match s {
        StmtView::Let { init, local, ty, .. } => scalar_expr(init, locals) && local < locals.len()
            && locals[local as int] == init.ty && ty == init.ty,
        StmtView::Assign { target, op, value, .. } => match target.kind {
            ExprKindView::Var { res, .. } => match res {
                Some(VarRes::Local(i)) => {
                    &&& i < locals.len()
                    &&& locals[i as int] == target.ty
                    &&& scalar_expr(value, locals)
                    &&& value.ty == target.ty
                    &&& match op {
                        Some(op) => target.ty is Int && is_arith(op),
                        None => true,
                    }
                },
                _ => false,
            },
            _ => false,
        },
        StmtView::Expr(e) => scalar_expr(e, locals) || scalar_effect(e, locals),
        StmtView::If { cond, then, els } => {
            &&& scalar_expr(cond, locals)
            &&& cond.ty is Bool
            &&& scalar_stmts(then.stmts, locals)
            &&& match els {
                Some(b) => scalar_stmts(b.stmts, locals),
                None => true,
            }
        },
        StmtView::While { cond, body } => scalar_expr(cond, locals) && cond.ty is Bool
            && scalar_stmts(body.stmts, locals),
        StmtView::For { init, cond, step, body } => {
            &&& match init {
                Some(i) => is_simple(*i) && scalar_stmt(*i, locals),
                None => true,
            }
            &&& match cond {
                Some(c) => scalar_expr(c, locals) && c.ty is Bool,
                None => true,
            }
            &&& match step {
                Some(t) => is_simple(*t) && scalar_stmt(*t, locals),
                None => true,
            }
            &&& scalar_stmts(body.stmts, locals)
        },
        StmtView::Return { value, .. } => match value {
            Some(v) => scalar_expr(v, locals) && v.ty == locals.ret,
            None => locals.ret is Unit,
        },
        StmtView::Break(_) => true,
        StmtView::Continue(_) => true,
        StmtView::Block(b) => scalar_stmts(b.stmts, locals),
        StmtView::Match { scrutinee, arms, .. } => scalar_expr(scrutinee, locals) && covering(
            stmt_patterns(arms),
            scrutinee.ty,
        ) && scalar_arms(arms, locals),
    }
}

/// Is this an expression without a value: the call of a function that gives
/// none, a print, an assertion or a collection?
pub open spec fn scalar_effect(e: ExprView, locals: Names) -> bool {
    e.ty is Unit && match e.kind {
        ExprKindView::Call { callee, args, direct, inst } => {
            &&& callee.kind is Var
            &&& callee.ty == TypeView::Fn(types_of(args), Box::new(e.ty))
            &&& inst.len() == 0
            &&& direct is Some
            &&& locals.has(direct->0, types_of(args), e.ty)
            &&& scalar_args(args, locals)
        },
        ExprKindView::Builtin(b, args) => match b {
            Builtin::GcCollect => args.len() == 0,
            Builtin::Assert => args.len() == 1 && scalar_expr(args[0], locals) && args[0].ty is Bool,
            Builtin::Print => args.len() == 1 && scalar_expr(args[0], locals),
            Builtin::Println => args.len() == 1 && scalar_expr(args[0], locals),
            _ => false,
        },
        _ => false,
    }
}

/// What is printed of a value.
pub open spec fn shown(t: TypeView, x: int) -> Seq<char> {
    if t is Bool {
        if x != 0 {
            "true"@
        } else {
            "false"@
        }
    } else {
        dec_int_text(x)
    }
}

/// What evaluating leaves, the value aside.
pub open spec fn dropped(vars: Vars, ev: Eval) -> Exec {
    match ev {
        Eval::Value(_, w) => Exec::Next(vars.at(w)),
        Eval::Nothing(w) => Exec::Next(vars.at(w)),
        Eval::Panic(rt, line, w) => Exec::Panic(rt, line, w),
        Eval::Unfinished => Exec::Unfinished,
    }
}

/// What an expression does as a statement.
pub open spec fn effect(e: ExprView, vars: Vars) -> Exec {
    match e.kind {
        ExprKindView::Builtin(b, args) => if b is GcCollect {
            Exec::Next(vars)
        } else {
            match eval(args[0], vars) {
                Eval::Value(x, w) => match b {
                    Builtin::Assert => if x == 0 {
                        Exec::Panic(Rt::AssertFail, e.line, w)
                    } else {
                        Exec::Next(vars.at(w))
                    },
                    Builtin::Print => Exec::Next(vars.at(w.print(shown(args[0].ty, x)))),
                    _ => Exec::Next(
                        vars.at(w.print(shown(args[0].ty, x)).print("\n"@)),
                    ),
                },
                other => dropped(vars, other),
            }
        },
        _ => dropped(vars, eval(e, vars)),
    }
}

/// The variables after an assignment of what was evaluated.
pub open spec fn assigned(vars: Vars, i: int, ev: Eval) -> Exec {
    match ev {
        Eval::Unfinished => Exec::Unfinished,
        Eval::Nothing(_) => Exec::Unfinished,
        Eval::Panic(rt, line, w) => Exec::Panic(rt, line, w),
        Eval::Value(x, w) => Exec::Next(vars.at(w).insert(i, x)),
    }
}

/// What a statement does; its loops make at most `fuel` turns each.
pub open spec fn exec_stmt(s: StmtView, vars: Vars, fuel: nat) -> Exec
    decreases fuel, s, 2int,
{
    match s {
        StmtView::Let { init, local, .. } => assigned(vars, local as int, eval(init, vars)),
        StmtView::Assign { target, op, value, line } => match target.kind {
            ExprKindView::Var { res, .. } => match res {
                Some(VarRes::Local(i)) => match op {
                    None => assigned(vars, i as int, eval(value, vars)),
                    Some(op) => match eval(value, vars) {
                        Eval::Unfinished => Exec::Unfinished,
                        Eval::Nothing(_) => Exec::Unfinished,
                        Eval::Panic(rt, line, w) => Exec::Panic(rt, line, w),
                        Eval::Value(y, w) => assigned(
                            vars,
                            i as int,
                            at_line(
                                operate(op, kind_of(target.ty), vars[i as int], y)->0,
                                line,
                                w,
                            ),
                        ),
                    },
                },
                _ => arbitrary(),
            },
            _ => arbitrary(),
        },
        StmtView::Expr(e) => effect(e, vars),
        StmtView::If { cond, then, els } => match eval(cond, vars) {
            Eval::Unfinished => Exec::Unfinished,
            Eval::Nothing(_) => Exec::Unfinished,
            Eval::Panic(rt, line, w) => Exec::Panic(rt, line, w),
            Eval::Value(x, w) => if x != 0 {
                exec_stmts(then.stmts, 0, vars.at(w), fuel)
            } else {
                match els {
                    Some(b) => exec_stmts(b.stmts, 0, vars.at(w), fuel),
                    None => Exec::Next(vars.at(w)),
                }
            },
        },
        StmtView::While { .. } => exec_loop(s, vars, fuel),
        StmtView::For { init, .. } => match init {
            None => exec_loop(s, vars, fuel),
            Some(i) => match exec_stmt(*i, vars, fuel) {
                Exec::Next(v) => exec_loop(s, v, fuel),
                other => other,
            },
        },
        StmtView::Return { value, .. } => match value {
            None => Exec::Return(None, vars.world),
            Some(v) => match eval(v, vars) {
                Eval::Unfinished => Exec::Unfinished,
                Eval::Nothing(_) => Exec::Unfinished,
                Eval::Panic(rt, line, w) => Exec::Panic(rt, line, w),
                Eval::Value(x, w) => Exec::Return(Some(x), w),
            },
        },
        StmtView::Break(_) => Exec::Break(vars),
        StmtView::Continue(_) => Exec::Continue(vars),
        StmtView::Block(b) => exec_stmts(b.stmts, 0, vars, fuel),
        StmtView::Match { scrutinee, arms, .. } => match eval(scrutinee, vars) {
            Eval::Unfinished => Exec::Unfinished,
            Eval::Nothing(_) => Exec::Unfinished,
            Eval::Panic(rt, line, w) => Exec::Panic(rt, line, w),
            Eval::Value(x, w) => exec_arms(arms, 0, word(x), vars.at(w), fuel),
        },
    }
}

/// The first arm from index `i` on that takes the value. The arms of a match
/// leave no value out.
pub open spec fn exec_arms(
    arms: Seq<(PatternView, BlockView)>,
    i: nat,
    key: u64,
    vars: Vars,
    fuel: nat,
) -> Exec
    decreases fuel, arms, arms.len() - i,
{
    if i >= arms.len() {
        Exec::Unfinished
    } else if takes(arms[i as int].0, key) {
        exec_stmts(arms[i as int].1.stmts, 0, vars, fuel)
    } else {
        exec_arms(arms, i + 1, key, vars, fuel)
    }
}

/// The statements from index `i` on, one after the other.
pub open spec fn exec_stmts(ss: Seq<StmtView>, i: nat, vars: Vars, fuel: nat) -> Exec
    decreases fuel, ss, ss.len() - i,
{
    if i >= ss.len() {
        Exec::Next(vars)
    } else {
        match exec_stmt(ss[i as int], vars, fuel) {
            Exec::Next(v) => exec_stmts(ss, i + 1, v, fuel),
            other => other,
        }
    }
}

pub open spec fn loop_cond(s: StmtView) -> Option<ExprView> {
    match s {
        StmtView::While { cond, .. } => Some(cond),
        StmtView::For { cond, .. } => cond,
        _ => None,
    }
}

/// A loop whose beginning has run: as long as the condition holds, the body
/// and then the step.
pub open spec fn exec_loop(s: StmtView, vars: Vars, fuel: nat) -> Exec
    decreases fuel, s, 1int,
{
    if fuel == 0 {
        Exec::Unfinished
    } else {
        let goes = match loop_cond(s) {
            None => Eval::Value(1, vars.world),
            Some(c) => eval(c, vars),
        };
        match goes {
            Eval::Unfinished => Exec::Unfinished,
            Eval::Nothing(_) => Exec::Unfinished,
            Eval::Panic(rt, line, w) => Exec::Panic(rt, line, w),
            Eval::Value(x, w) => if x == 0 {
                Exec::Next(vars.at(w))
            } else {
                let turn = match s {
                    StmtView::While { body, .. } => exec_stmts(body.stmts, 0, vars.at(w), fuel),
                    StmtView::For { body, .. } => exec_stmts(body.stmts, 0, vars.at(w), fuel),
                    _ => arbitrary(),
                };
                match turn {
                    Exec::Break(v) => Exec::Next(v),
                    Exec::Next(v) => exec_again(s, v, fuel),
                    Exec::Continue(v) => exec_again(s, v, fuel),
                    other => other,
                }
            },
        }
    }
}

/// The step of a loop, and its next turn.
pub open spec fn exec_again(s: StmtView, vars: Vars, fuel: nat) -> Exec
    decreases fuel, s, 0int,
{
    if fuel == 0 {
        Exec::Unfinished
    } else {
        match s {
            StmtView::For { step, .. } => match step {
                None => exec_loop(s, vars, (fuel - 1) as nat),
                Some(t) => match exec_stmt(*t, vars, fuel) {
                    Exec::Next(v) => exec_loop(s, v, (fuel - 1) as nat),
                    other => other,
                },
            },
            _ => exec_loop(s, vars, (fuel - 1) as nat),
        }
    }
}

// -- The pieces of the code -------------------------------------------------

#[verifier::opaque]
spec fn value(env: LowEnv, st: LowView, e: ExprView) -> Result<(LowView, usize), Seq<char>> {
    gen_scalar(env, st, e)
}

#[verifier::opaque]
spec fn code(env: LowEnv, st: LowView, s: StmtView) -> Result<LowView, Seq<char>> {
    gen_stmt(env, st, s)
}

#[verifier::opaque]
spec fn codes(env: LowEnv, st: LowView, ss: Seq<StmtView>, i: nat) -> Result<LowView, Seq<char>> {
    gen_stmts(env, st, ss, i)
}

spec fn opt_code(env: LowEnv, st: LowView, s: Option<Box<StmtView>>) -> Result<LowView, Seq<char>> {
    match s {
        None => Ok(st),
        Some(s) => code(env, st, *s),
    }
}

/// The test of a `for` loop.
spec fn for_test(env: LowEnv, st: LowView, cond: Option<ExprView>, body: usize, exit: usize) -> Result<
    LowView,
    Seq<char>,
> {
    match cond {
        None => Ok(put(st, Op::Jump(body))),
        Some(c) => match value(env, st, c) {
            Err(m) => Err(m),
            Ok((s1, v)) => Ok(put(s1, Op::Brif(v, body, exit))),
        },
    }
}

/// What stands between a condition and what it guards.
spec fn if_head(s1: LowView, c: usize) -> LowView {
    let s2 = put(s1, Op::Block);
    let s3 = put(s2, Op::Block);
    let s4 = put(s3, Op::Block);
    start(put(s4, Op::Brif(c, next(s1), next(s2))), next(s1))
}

spec fn if_merge(s1: LowView) -> usize {
    next(put(put(s1, Op::Block), Op::Block))
}

spec fn if_middle(s6: LowView, s1: LowView) -> LowView {
    start(flow_to(s6, if_merge(s1)), next(put(s1, Op::Block)))
}

spec fn while_head(st: LowView) -> LowView {
    let s3 = put(put(put(st, Op::Block), Op::Block), Op::Block);
    put(put(s3, Op::Jump(next(st))), Op::SwitchTo(next(st)))
}

spec fn while_body(st: LowView) -> usize {
    next(put(st, Op::Block))
}

spec fn while_exit(st: LowView) -> usize {
    next(put(put(st, Op::Block), Op::Block))
}

spec fn while_inner(st: LowView, s5: LowView, c: usize) -> LowView {
    enter_loop(
        put(put(s5, Op::Brif(c, while_body(st), while_exit(st))), Op::SwitchTo(while_body(st))),
        while_exit(st),
        next(st),
    )
}

spec fn for_head(s0: LowView) -> LowView {
    let s4 = put(put(put(put(s0, Op::Block), Op::Block), Op::Block), Op::Block);
    put(put(s4, Op::Jump(next(s0))), Op::SwitchTo(next(s0)))
}

spec fn for_body(s0: LowView) -> usize {
    next(put(s0, Op::Block))
}

spec fn for_step(s0: LowView) -> usize {
    next(put(put(s0, Op::Block), Op::Block))
}

spec fn for_exit(s0: LowView) -> usize {
    next(put(put(put(s0, Op::Block), Op::Block), Op::Block))
}

spec fn for_inner(s0: LowView, s6: LowView) -> LowView {
    enter_loop(put(s6, Op::SwitchTo(for_body(s0))), for_exit(s0), for_step(s0))
}

spec fn for_step_head(s0: LowView, s7: LowView) -> LowView {
    start(flow_to(leave_loop(s7), for_step(s0)), for_step(s0))
}

/// The states that the code of a conditional passes through: behind the
/// condition, with its value, and behind each branch.
spec fn if_parts(env: LowEnv, st: LowView, s: StmtView) -> (LowView, usize, LowView, LowView) {
    let (s1, c) = value(env, st, s->If_cond)->Ok_0;
    let s6 = codes(env, if_head(s1, c), s->If_then.stmts, 0)->Ok_0;
    let s7 = if_middle(s6, s1);
    let s8 = match s->If_els {
        None => s7,
        Some(b) => codes(env, s7, b.stmts, 0)->Ok_0,
    };
    (s1, c, s6, s8)
}

/// The states of a `while` loop: behind the condition, with its value, and
/// behind the body.
spec fn while_parts(env: LowEnv, st: LowView, s: StmtView) -> (LowView, usize, LowView) {
    let (s5, c) = value(env, while_head(st), s->While_cond)->Ok_0;
    let s7 = codes(env, while_inner(st, s5, c), s->While_body.stmts, 0)->Ok_0;
    (s5, c, s7)
}

/// The states of a `for` loop: behind its beginning, the test, the body and
/// the step.
spec fn for_parts(env: LowEnv, st: LowView, s: StmtView) -> (LowView, LowView, LowView, LowView) {
    let s0 = opt_code(env, st, s->For_init)->Ok_0;
    let s6 = for_test(env, for_head(s0), s->For_cond, for_body(s0), for_exit(s0))->Ok_0;
    let s7 = codes(env, for_inner(s0, s6), s->For_body.stmts, 0)->Ok_0;
    let s8 = opt_code(env, for_step_head(s0, s7), s->For_step)->Ok_0;
    (s0, s6, s7, s8)
}

proof fn lemma_codes(env: LowEnv, st: LowView, ss: Seq<StmtView>, i: nat)
    ensures
        codes(env, st, ss, i) == (if i >= ss.len() || st.f.terminated {
            Ok(st)
        } else {
            match code(env, st, ss[i as int]) {
                Err(m) => Err(m),
                Ok(s) => codes(env, s, ss, i + 1),
            }
        }),
{
    reveal(code);
    reveal(codes);
}

proof fn lemma_let(env: LowEnv, st: LowView, s: StmtView)
    requires
        s is Let,
        code(env, st, s) is Ok,
    ensures
        value(env, st, s->Let_init) is Ok,
        code(env, st, s)->Ok_0 == put(
            value(env, st, s->Let_init)->Ok_0.0,
            Op::DefVar(s->local as usize, value(env, st, s->Let_init)->Ok_0.1),
        ),
{
    reveal(code);
    reveal(value);
}

/// The local that an assignment assigns.
spec fn assigned_local(s: StmtView) -> u32 {
    s->Assign_target.kind->Var_res->0->Local_0
}

proof fn lemma_assign(env: LowEnv, st: LowView, s: StmtView, locals: Names)
    requires
        s is Assign,
        scalar_stmt(s, locals),
        code(env, st, s) is Ok,
    ensures
        ({
            let i = assigned_local(s) as usize;
            match s->Assign_op {
                None => {
                    &&& value(env, st, s->Assign_value) is Ok
                    &&& code(env, st, s)->Ok_0 == put(
                        value(env, st, s->Assign_value)->Ok_0.0,
                        Op::DefVar(i, value(env, st, s->Assign_value)->Ok_0.1),
                    )
                },
                Some(op) => {
                    let rhs = value(env, put(st, Op::UseVar(i)), s->Assign_value);
                    let (s1, r) = rhs->Ok_0;
                    let sum = arith(s1, op, s->Assign_target.ty, next(st), r, s->Assign_line);
                    &&& rhs is Ok
                    &&& sum is Ok
                    &&& code(env, st, s)->Ok_0 == put(sum->Ok_0.0, Op::DefVar(i, sum->Ok_0.1))
                },
            }
        }),
{
    reveal(code);
    reveal(value);
    assert(gen_stmt(env, st, s) == gen_assign_local(env, st, s, assigned_local(s)));
}

/// An expression statement has the code of its expression.
proof fn lemma_expr_stmt(env: LowEnv, st: LowView, e: ExprView, locals: Names)
    requires
        scalar_expr(e, locals),
        suits(locals, env),
    ensures
        value(env, st, e) is Ok,
        code(env, st, StmtView::Expr(e)) == Ok::<LowView, Seq<char>>(value(env, st, e)->Ok_0.0),
{
    reveal(code);
    reveal(value);
    law_expression_has_code(env, st, e, locals);
    assert(gen_expr(env, st, e) is Ok);
}

/// The code of an expression without a value.
spec fn effect_code(env: LowEnv, st: LowView, e: ExprView) -> Result<LowView, Seq<char>> {
    match e.kind {
        ExprKindView::Call { args, direct, .. } => match gen_list(env, st, args, 0, Seq::empty()) {
            Err(m) => Err(m),
            Ok((s1, vs)) => Ok(
                put(put_args(s1, vs, 0), Op::Call(env.func_ids[direct->0 as int]->0)),
            ),
        },
        ExprKindView::Builtin(b, args) => if b is GcCollect {
            Ok(put(put(put(st, Op::Iconst(1)), Op::Arg(next(st))), Op::CallRt(Rt::GcCollect)))
        } else {
            match value(env, st, args[0]) {
                Err(m) => Err(m),
                Ok((s1, v)) => Ok(
                    if b is Assert {
                        put(s1, Op::PanicUnless(v, Rt::AssertFail, e.line))
                    } else {
                        let s2 = put(put(s1, Op::Arg(v)), Op::CallRt(print_fn(args[0].ty)));
                        if b is Print {
                            s2
                        } else {
                            put(s2, Op::CallRt(Rt::PrintNewline))
                        }
                    },
                ),
            }
        },
        _ => Err(Seq::empty()),
    }
}

proof fn lemma_effect(env: LowEnv, st: LowView, e: ExprView, locals: Names)
    requires
        scalar_effect(e, locals),
        suits(locals, env),
    ensures
        code(env, st, StmtView::Expr(e)) == effect_code(env, st, e),
        effect_code(env, st, e) is Ok,
{
    reveal(code);
    reveal(value);
    match e.kind {
        ExprKindView::Call { args, .. } => {
            reveal(callee_of);
            assert(gen_expr(env, st, e) == gen_call(env, st, e));
            lemma_list_has_code(env, st, args, 0, Seq::empty(), locals);
            let (s1, vs) = gen_list(env, st, args, 0, Seq::empty())->Ok_0;
            assert(with_gen(s1, s1.g) == s1);
        },
        ExprKindView::Builtin(b, args) => {
            assert(gen_expr(env, st, e) == gen_builtin(env, st, b, args, e.line));
            if !(b is GcCollect) {
                law_expression_has_code(env, st, args[0], locals);
                reveal(builtin_value);
            }
        },
        _ => {},
    }
}

proof fn lemma_effect_grows(env: LowEnv, st: LowView, e: ExprView, locals: Names)
    requires
        scalar_effect(e, locals),
        suits(locals, env),
        effect_code(env, st, e) is Ok,
    ensures
        st.f.ops.len() < effect_code(env, st, e)->Ok_0.f.ops.len(),
        same_flow(effect_code(env, st, e)->Ok_0, st),
{
    match e.kind {
        ExprKindView::Call { args, .. } => {
            let (s1, vs) = gen_list(env, st, args, 0, Seq::empty())->Ok_0;
            lemma_list_grows(env, st, args, 0, Seq::empty(), locals);
            lemma_put_args_grows(s1, vs, 0);
        },
        ExprKindView::Builtin(b, args) => {
            if !(b is GcCollect) {
                lemma_value_grows(env, st, args[0], locals);
            }
        },
        _ => {},
    }
}

proof fn lemma_effect_code(env: LowEnv, st: LowView, e: ExprView, locals: Names)
    requires
        scalar_effect(e, locals),
        suits(locals, env),
        effect_code(env, st, e) is Ok,
        effect_code(env, st, e)->Ok_0.f.ops.len() <= usize::MAX,
    ensures
        goes_on(effect_code(env, st, e)->Ok_0, st),
{
    let end = effect_code(env, st, e)->Ok_0;
    match e.kind {
        ExprKindView::Call { args, direct, .. } => {
            let (s1, vs) = gen_list(env, st, args, 0, Seq::empty())->Ok_0;
            lemma_list_grows(env, st, args, 0, Seq::empty(), locals);
            lemma_put_args_grows(s1, vs, 0);
            lemma_list_code(env, st, args, 0, Seq::empty(), locals);
            let s2 = put_args(s1, vs, 0);
            assert(goes_on(end, s1)) by {
                assert forall|i: int| 0 <= i < s1.f.ops.len() implies #[trigger] end.f.ops[i]
                    == s1.f.ops[i] by {
                    assert(end.f.ops[i] == s2.f.ops[i]);
                }
                assert forall|i: int|
                    s1.f.ops.len() <= i < end.f.ops.len() implies match #[trigger] end.f.ops[i] {
                    Op::SwitchTo(b) => b >= s1.f.ops.len(),
                    _ => true,
                } by {
                    if i < s2.f.ops.len() {
                        assert(end.f.ops[i] == s2.f.ops[i]);
                    }
                }
            }
            lemma_goes_on_more(st, s1, end);
        },
        ExprKindView::Builtin(b, args) => {
            if !(b is GcCollect) {
                let s1 = value(env, st, args[0])->Ok_0.0;
                lemma_value_grows(env, st, args[0], locals);
                lemma_value_code(env, st, args[0], locals);
                lemma_goes_on_more(st, s1, end);
            }
        },
        _ => {},
    }
}

/// What the runtime prints of the word of a value is what is shown of it.
proof fn lemma_printed(t: TypeView, x: int)
    requires
        fits_type(t, x),
    ensures
        printed(print_fn(t), seq![word(x)]) == Some(shown(t, x)),
{
    lemma_word(x);
    if t is Int {
        law_word_round_trip(kind_of(t), x);
    }
}

proof fn lemma_if_parts(env: LowEnv, st: LowView, s: StmtView)
    requires
        s is If,
        code(env, st, s) is Ok,
    ensures
        value(env, st, s->If_cond) is Ok,
        ({
            let (s1, c, s6, s8) = if_parts(env, st, s);
            &&& codes(env, if_head(s1, c), s->If_then.stmts, 0) is Ok
            &&& s->If_els matches Some(b) ==> codes(env, if_middle(s6, s1), b.stmts, 0) is Ok
            &&& code(env, st, s)->Ok_0 == join_at(
                flow_to(s8, if_merge(s1)),
                if_merge(s1),
                s6.f.terminated && s8.f.terminated,
            )
        }),
{
    reveal(code);
    reveal(codes);
    reveal(value);
    assert(gen_stmt(env, st, s) == gen_if_stmt(env, st, s));
    let (s1, c, s6, s8) = if_parts(env, st, s);
    assert(gen_block(env, if_head(s1, c), s->If_then) == gen_stmts(
        env,
        if_head(s1, c),
        s->If_then.stmts,
        0,
    ));
    if let Some(b) = s->If_els {
        let s7 = if_middle(s6, s1);
        assert(gen_block(env, s7, b) == gen_stmts(env, s7, b.stmts, 0));
    }
}

proof fn lemma_while_parts(env: LowEnv, st: LowView, s: StmtView)
    requires
        s is While,
        code(env, st, s) is Ok,
    ensures
        value(env, while_head(st), s->While_cond) is Ok,
        ({
            let (s5, c, s7) = while_parts(env, st, s);
            &&& codes(env, while_inner(st, s5, c), s->While_body.stmts, 0) is Ok
            &&& code(env, st, s)->Ok_0 == start(
                flow_to(leave_loop(s7), next(st)),
                while_exit(st),
            )
        }),
{
    reveal(code);
    reveal(codes);
    reveal(value);
    assert(gen_stmt(env, st, s) == gen_while(env, st, s));
    let (s5, c, s7) = while_parts(env, st, s);
    assert(gen_block(env, while_inner(st, s5, c), s->While_body) == gen_stmts(
        env,
        while_inner(st, s5, c),
        s->While_body.stmts,
        0,
    ));
}

proof fn lemma_for_parts(env: LowEnv, st: LowView, s: StmtView)
    requires
        s is For,
        code(env, st, s) is Ok,
    ensures
        opt_code(env, st, s->For_init) is Ok,
        ({
            let (s0, s6, s7, s8) = for_parts(env, st, s);
            &&& for_test(env, for_head(s0), s->For_cond, for_body(s0), for_exit(s0)) is Ok
            &&& codes(env, for_inner(s0, s6), s->For_body.stmts, 0) is Ok
            &&& opt_code(env, for_step_head(s0, s7), s->For_step) is Ok
            &&& code(env, st, s)->Ok_0 == start(
                put(s8, Op::Jump(next(s0))),
                for_exit(s0),
            )
        }),
{
    reveal(code);
    reveal(codes);
    reveal(value);
    assert(gen_stmt(env, st, s) == gen_for(env, st, s));
    assert(gen_opt_stmt(env, st, s->For_init) == opt_code(env, st, s->For_init));
    let (s0, s6, s7, s8) = for_parts(env, st, s);
    assert(gen_for_cond(env, for_head(s0), s->For_cond, for_body(s0), for_exit(s0)) == for_test(
        env,
        for_head(s0),
        s->For_cond,
        for_body(s0),
        for_exit(s0),
    ));
    assert(gen_block(env, for_inner(s0, s6), s->For_body) == gen_stmts(
        env,
        for_inner(s0, s6),
        s->For_body.stmts,
        0,
    ));
    assert(gen_opt_stmt(env, for_step_head(s0, s7), s->For_step) == opt_code(
        env,
        for_step_head(s0, s7),
        s->For_step,
    ));
}

proof fn lemma_return(env: LowEnv, st: LowView, s: StmtView)
    requires
        s is Return,
        code(env, st, s) is Ok,
    ensures
        match s->Return_value {
            None => code(env, st, s)->Ok_0 == with_terminated(put(st, Op::Return), true),
            Some(v) => {
                &&& value(env, st, v) is Ok
                &&& code(env, st, s)->Ok_0 == with_terminated(
                    put(value(env, st, v)->Ok_0.0, Op::ReturnValue(value(env, st, v)->Ok_0.1)),
                    true,
                )
            },
        },
{
    reveal(code);
    reveal(value);
    assert(gen_stmt(env, st, s) == gen_return(env, st, s->Return_value));
}

proof fn lemma_jumps(env: LowEnv, st: LowView, s: StmtView)
    requires
        s is Break || s is Continue,
        code(env, st, s) is Ok,
    ensures
        st.f.loops.len() > 0,
        code(env, st, s)->Ok_0 == with_terminated(
            put(
                st,
                Op::Jump(
                    if s is Break {
                        st.f.loops.last().0
                    } else {
                        st.f.loops.last().1
                    },
                ),
            ),
            true,
        ),
{
    reveal(code);
}

proof fn lemma_nested(env: LowEnv, st: LowView, s: StmtView)
    requires
        s is Block,
    ensures
        code(env, st, s) == codes(env, st, s->Block_0.stmts, 0),
{
    reveal(code);
    reveal(codes);
    assert(gen_stmt(env, st, s) == gen_block(env, st, s->Block_0));
}

#[verifier::opaque]
spec fn arm_codes(
    env: LowEnv,
    st: LowView,
    arms: Seq<(PatternView, BlockView)>,
    i: nat,
    ty: TypeView,
    key: usize,
    merge: usize,
    left: bool,
    line: u32,
) -> Result<(LowView, bool), Seq<char>> {
    gen_block_arms(env, st, arms, i, ty, key, key, merge, left, line)
}

/// Where the body of an arm starts.
spec fn arm_start(st: LowView, arms: Seq<(PatternView, BlockView)>, i: nat, key: usize) -> LowView {
    if i + 1 == arms.len() {
        with_terminated(st, false)
    } else {
        arm_head(st, key, arms[i as int].0)
    }
}

/// The state behind the body of an arm, and the state of the next arm.
spec fn arm_body(
    env: LowEnv,
    st: LowView,
    arms: Seq<(PatternView, BlockView)>,
    i: nat,
    key: usize,
) -> LowView {
    codes(env, arm_start(st, arms, i, key), arms[i as int].1.stmts, 0)->Ok_0
}

spec fn arm_next(
    env: LowEnv,
    st: LowView,
    arms: Seq<(PatternView, BlockView)>,
    i: nat,
    key: usize,
    merge: usize,
) -> LowView {
    put(
        flow_to(arm_body(env, st, arms, i, key), merge),
        Op::SwitchTo(arm_other(st, key, arms[i as int].0)),
    )
}

proof fn lemma_arm_codes(
    env: LowEnv,
    st: LowView,
    arms: Seq<(PatternView, BlockView)>,
    i: nat,
    ty: TypeView,
    key: usize,
    merge: usize,
    left: bool,
    line: u32,
)
    requires
        i < arms.len(),
        !(arms[i as int].0 is Variant),
        arm_codes(env, st, arms, i, ty, key, merge, left, line) is Ok,
    ensures
        codes(env, arm_start(st, arms, i, key), arms[i as int].1.stmts, 0) is Ok,
        ({
            let s3 = arm_body(env, st, arms, i, key);
            let all = left && s3.f.terminated;
            if i + 1 == arms.len() {
                arm_codes(env, st, arms, i, ty, key, merge, left, line) == Ok::<
                    (LowView, bool),
                    Seq<char>,
                >((flow_to(s3, merge), all))
            } else {
                pattern_const(arms[i as int].0) is Some && arm_codes(
                    env,
                    st,
                    arms,
                    i,
                    ty,
                    key,
                    merge,
                    left,
                    line,
                ) == arm_codes(
                    env,
                    arm_next(env, st, arms, i, key, merge),
                    arms,
                    i + 1,
                    ty,
                    key,
                    merge,
                    all,
                    line,
                )
            }
        }),
{
    reveal(arm_codes);
    reveal(codes);
    reveal(test_arm);
    reveal(bind_pattern);
    let b = arms[i as int].1;
    let start = arm_start(st, arms, i, key);
    assert(gen_block(env, start, b) == gen_stmts(env, start, b.stmts, 0));
    let p = arms[i as int].0;
    if i + 1 < arms.len() {
        assert(pattern_const(p) is Some);
        let (s1, other) = test_arm(st, key, pattern_const(p)->0);
        assert(with_terminated(s1, false) == start);
        assert(other == arm_other(st, key, p));
    }
}

/// The states of a match: behind the scrutinee, with its value, before the
/// first arm, and behind the last one, with whether control left in all.
spec fn match_parts(env: LowEnv, st: LowView, s: StmtView) -> (LowView, usize, LowView, bool) {
    let (s1, v) = value(env, st, s->Match_scrutinee)->Ok_0;
    let (s3, left) = arm_codes(
        env,
        put(s1, Op::Block),
        s->Match_arms,
        0,
        s->Match_scrutinee.ty,
        v,
        next(s1),
        true,
        s->Match_line,
    )->Ok_0;
    (s1, v, s3, left)
}

proof fn lemma_match_parts(env: LowEnv, st: LowView, s: StmtView)
    requires
        s is Match,
        !(s->Match_scrutinee.ty is Enum),
        code(env, st, s) is Ok,
    ensures
        value(env, st, s->Match_scrutinee) is Ok,
        ({
            let (s1, v, s3, left) = match_parts(env, st, s);
            &&& arm_codes(
                env,
                put(s1, Op::Block),
                s->Match_arms,
                0,
                s->Match_scrutinee.ty,
                v,
                next(s1),
                true,
                s->Match_line,
            ) is Ok
            &&& code(env, st, s)->Ok_0 == join_at(s3, next(s1), left)
        }),
{
    reveal(code);
    reveal(value);
    reveal(arm_codes);
    assert(gen_stmt(env, st, s) == gen_stmt_match(env, st, s));
}

// -- The shape of the code --------------------------------------------------

proof fn lemma_value_grows(env: LowEnv, st: LowView, e: ExprView, locals: Names)
    requires
        scalar_expr(e, locals),
        suits(locals, env),
        value(env, st, e) is Ok,
    ensures
        st.f.ops.len() <= value(env, st, e)->Ok_0.0.f.ops.len(),
        same_flow(value(env, st, e)->Ok_0.0, st),
{
    reveal(value);
    lemma_grows(env, st, e, locals);
}

proof fn lemma_value_code(env: LowEnv, st: LowView, e: ExprView, locals: Names)
    requires
        scalar_expr(e, locals),
        suits(locals, env),
        value(env, st, e) is Ok,
        value(env, st, e)->Ok_0.0.f.ops.len() <= usize::MAX,
    ensures
        goes_on(value(env, st, e)->Ok_0.0, st),
        value(env, st, e)->Ok_0.1 < value(env, st, e)->Ok_0.0.f.ops.len(),
{
    reveal(value);
    lemma_code(env, st, e, locals);
}

proof fn lemma_arith_grows(st: LowView, op: BinOp, t: TypeView, l: usize, r: usize, line: u32)
    requires
        t is Int,
        arith(st, op, t, l, r, line) is Ok,
    ensures
        st.f.ops.len() <= arith(st, op, t, l, r, line)->Ok_0.0.f.ops.len(),
        same_flow(arith(st, op, t, l, r, line)->Ok_0.0, st),
        arith(st, op, t, l, r, line) == int_arith(st, op, kind_of(t), l, r, line),
{
    reveal(arith);
    reveal(int_arith);
    reveal(checked_arith);
    reveal(check_overflow);
    reveal(divide);
    reveal(divide_signed);
    reveal(shift);
}

/// Code only grows, and the loops around stay the same.
proof fn lemma_stmt_grows(env: LowEnv, st: LowView, s: StmtView, locals: Names)
    requires
        scalar_stmt(s, locals),
        suits(locals, env),
        code(env, st, s) is Ok,
    ensures
        st.f.ops.len() <= code(env, st, s)->Ok_0.f.ops.len(),
        code(env, st, s)->Ok_0.f.loops == st.f.loops,
        code(env, st, s)->Ok_0.g == st.g,
        is_simple(s) ==> code(env, st, s)->Ok_0.f.terminated == st.f.terminated,
    decreases s, 1int,
{
    match s {
        StmtView::Let { init, .. } => {
            lemma_let(env, st, s);
            lemma_value_grows(env, st, init, locals);
        },
        StmtView::Assign { target, op, value, line } => {
            lemma_assign(env, st, s, locals);
            match op {
                None => {
                    lemma_value_grows(env, st, value, locals);
                },
                Some(op) => {
                    let s0 = put(st, Op::UseVar(assigned_local(s) as usize));
                    lemma_value_grows(env, s0, value, locals);
                    let (s1, r) = self::value(env, s0, value)->Ok_0;
                    lemma_arith_grows(s1, op, target.ty, next(st), r, line);
                },
            }
        },
        StmtView::Expr(e) => {
            if scalar_effect(e, locals) {
                lemma_effect(env, st, e, locals);
                lemma_effect_grows(env, st, e, locals);
            } else {
                lemma_expr_stmt(env, st, e, locals);
                lemma_value_grows(env, st, e, locals);
            }
        },
        StmtView::If { cond, then, els } => {
            lemma_if_parts(env, st, s);
            let (s1, c, s6, s8) = if_parts(env, st, s);
            lemma_value_grows(env, st, cond, locals);
            lemma_stmts_grows(env, if_head(s1, c), then.stmts, 0, locals);
            if let Some(b) = els {
                lemma_stmts_grows(env, if_middle(s6, s1), b.stmts, 0, locals);
            }
        },
        StmtView::While { cond, body } => {
            lemma_while_parts(env, st, s);
            let (s5, c, s7) = while_parts(env, st, s);
            lemma_value_grows(env, while_head(st), cond, locals);
            lemma_stmts_grows(env, while_inner(st, s5, c), body.stmts, 0, locals);
            assert(s7.f.loops.drop_last() =~= st.f.loops);
        },
        StmtView::For { .. } => {
            lemma_for_grows(env, st, s, locals);
        },
        StmtView::Return { value, .. } => {
            lemma_return(env, st, s);
            if let Some(v) = value {
                lemma_value_grows(env, st, v, locals);
            }
        },
        StmtView::Break(_) => {
            lemma_jumps(env, st, s);
        },
        StmtView::Continue(_) => {
            lemma_jumps(env, st, s);
        },
        StmtView::Block(b) => {
            lemma_nested(env, st, s);
            lemma_stmts_grows(env, st, b.stmts, 0, locals);
        },
        StmtView::Match { scrutinee, arms, line } => {
            lemma_scalar_type(scrutinee, locals);
            lemma_match_parts(env, st, s);
            let (s1, v, s3, left) = match_parts(env, st, s);
            lemma_value_grows(env, st, scrutinee, locals);
            lemma_patterns(arms);
            lemma_arms_grow(
                env,
                put(s1, Op::Block),
                arms,
                0,
                scrutinee.ty,
                v,
                next(s1),
                true,
                line,
                locals,
            );
        },
    }
}

proof fn lemma_patterns(arms: Seq<(PatternView, BlockView)>)
    ensures
        stmt_patterns(arms).len() == arms.len(),
        forall|i: int| 0 <= i < arms.len() ==> #[trigger] stmt_patterns(arms)[i] == arms[i].0,
{
}

proof fn lemma_arms_grow(
    env: LowEnv,
    st: LowView,
    arms: Seq<(PatternView, BlockView)>,
    i: nat,
    ty: TypeView,
    key: usize,
    merge: usize,
    left: bool,
    line: u32,
    locals: Names,
)
    requires
        i < arms.len(),
        scalar_arms(arms, locals),
        forall|k: int| 0 <= k < arms.len() ==> !(#[trigger] stmt_patterns(arms)[k] is Variant),
        suits(locals, env),
        arm_codes(env, st, arms, i, ty, key, merge, left, line) is Ok,
    ensures
        ({
            let end = arm_codes(env, st, arms, i, ty, key, merge, left, line)->Ok_0.0;
            &&& st.f.ops.len() <= end.f.ops.len()
            &&& end.f.loops == st.f.loops
            &&& end.g == st.g
            &&& arm_body(env, st, arms, i, key).f.loops == st.f.loops
            &&& arm_body(env, st, arms, i, key).f.ops.len() <= end.f.ops.len()
        }),
    decreases arms, arms.len() - i,
{
    assert(stmt_patterns(arms)[i as int] == arms[i as int].0);
    lemma_arm_codes(env, st, arms, i, ty, key, merge, left, line);
    let start = arm_start(st, arms, i, key);
    let s3 = arm_body(env, st, arms, i, key);
    lemma_stmts_grows(env, start, arms[i as int].1.stmts, 0, locals);
    if i + 1 < arms.len() {
        lemma_arms_grow(
            env,
            arm_next(env, st, arms, i, key, merge),
            arms,
            i + 1,
            ty,
            key,
            merge,
            left && s3.f.terminated,
            line,
            locals,
        );
    }
}

proof fn lemma_for_grows(env: LowEnv, st: LowView, s: StmtView, locals: Names)
    requires
        s is For,
        scalar_stmt(s, locals),
        suits(locals, env),
        code(env, st, s) is Ok,
    ensures
        ({
            let (s0, s6, s7, s8) = for_parts(env, st, s);
            let end = code(env, st, s)->Ok_0;
            &&& st.f.ops.len() <= s0.f.ops.len()
            &&& s0.f.ops.len() + 7 <= s6.f.ops.len()
            &&& s6.f.ops.len() + 1 <= s7.f.ops.len() < s8.f.ops.len()
            &&& s8.f.ops.len() + 2 == end.f.ops.len()
            &&& s0.f.loops == st.f.loops
            &&& s0.f.terminated == st.f.terminated
            &&& same_flow(s6, s0)
            &&& s7.f.loops == s6.f.loops.push((for_exit(s0), for_step(s0)))
            &&& s8.f.loops == st.f.loops
            &&& end.f.loops == st.f.loops
            &&& end.g == st.g
        }),
    decreases s, 0int,
{
    if let StmtView::For { init, cond, step, body } = s {
        lemma_for_parts(env, st, s);
        let (s0, s6, s7, s8) = for_parts(env, st, s);
        if let Some(i) = init {
            lemma_stmt_grows(env, st, *i, locals);
        }
        if let Some(c) = cond {
            lemma_value_grows(env, for_head(s0), c, locals);
        }
        lemma_stmts_grows(env, for_inner(s0, s6), body.stmts, 0, locals);
        assert(s7.f.loops.drop_last() =~= st.f.loops);
        if let Some(t) = step {
            lemma_stmt_grows(env, for_step_head(s0, s7), *t, locals);
        }
    }
}

proof fn lemma_stmts_grows(
    env: LowEnv,
    st: LowView,
    ss: Seq<StmtView>,
    i: nat,
    locals: Names,
)
    requires
        scalar_stmts(ss, locals),
        suits(locals, env),
        codes(env, st, ss, i) is Ok,
    ensures
        st.f.ops.len() <= codes(env, st, ss, i)->Ok_0.f.ops.len(),
        codes(env, st, ss, i)->Ok_0.f.loops == st.f.loops,
        codes(env, st, ss, i)->Ok_0.g == st.g,
    decreases ss, ss.len() - i,
{
    lemma_codes(env, st, ss, i);
    if i < ss.len() && !st.f.terminated {
        lemma_stmt_grows(env, st, ss[i as int], locals);
        lemma_stmts_grows(env, code(env, st, ss[i as int])->Ok_0, ss, i + 1, locals);
    }
}

proof fn lemma_put_on(a: LowView, s: LowView, op: Op)
    requires
        goes_on(s, a),
        op matches Op::SwitchTo(b) ==> b >= a.f.ops.len(),
    ensures
        goes_on(put(s, op), a),
{
    let e = put(s, op);
    assert forall|i: int| 0 <= i < a.f.ops.len() implies #[trigger] e.f.ops[i] == a.f.ops[i] by {
        assert(e.f.ops[i] == s.f.ops[i]);
    }
    assert forall|i: int| a.f.ops.len() <= i < e.f.ops.len() implies match #[trigger] e.f.ops[i] {
        Op::SwitchTo(b) => b >= a.f.ops.len(),
        _ => true,
    } by {
        if i < s.f.ops.len() {
            assert(e.f.ops[i] == s.f.ops[i]);
        }
    }
}

proof fn lemma_flow_on(a: LowView, s: LowView, b: usize)
    requires
        goes_on(s, a),
    ensures
        goes_on(flow_to(s, b), a),
{
    lemma_put_on(a, s, Op::Jump(b));
}

proof fn lemma_start_on(a: LowView, s: LowView, b: usize)
    requires
        goes_on(s, a),
        b >= a.f.ops.len(),
    ensures
        goes_on(start(s, b), a),
{
    lemma_put_on(a, s, Op::SwitchTo(b));
}

/// The heads of conditionals and loops go on from what was written.
proof fn lemma_heads(st: LowView, c: usize)
    requires
        st.f.ops.len() + 8 <= usize::MAX,
    ensures
        goes_on(if_head(st, c), st),
        goes_on(while_head(st), st),
        goes_on(for_head(st), st),
        if_head(st, c).f.ops.len() == st.f.ops.len() + 5,
        while_head(st).f.ops.len() == st.f.ops.len() + 5,
        for_head(st).f.ops.len() == st.f.ops.len() + 6,
        if_merge(st) == st.f.ops.len() + 2,
        while_body(st) == st.f.ops.len() + 1,
        while_exit(st) == st.f.ops.len() + 2,
        for_body(st) == st.f.ops.len() + 1,
        for_step(st) == st.f.ops.len() + 2,
        for_exit(st) == st.f.ops.len() + 3,
{
}

proof fn lemma_if_code(env: LowEnv, st: LowView, s: StmtView, locals: Names)
    requires
        s is If,
        scalar_stmt(s, locals),
        suits(locals, env),
        code(env, st, s) is Ok,
        code(env, st, s)->Ok_0.f.ops.len() <= usize::MAX,
    ensures
        goes_on(code(env, st, s)->Ok_0, st),
        ({
            let (s1, c, s6, s8) = if_parts(env, st, s);
            let end = code(env, st, s)->Ok_0;
            &&& c < s1.f.ops.len()
            &&& s1.f.ops.len() + 8 <= usize::MAX
            &&& same_flow(s1, st)
            &&& goes_on(s1, st)
            &&& goes_on(if_head(s1, c), s1)
            &&& goes_on(s6, if_head(s1, c))
            &&& goes_on(if_middle(s6, s1), s1)
            &&& goes_on(s8, if_middle(s6, s1))
            &&& goes_on(end, s1)
            &&& s6.f.loops == st.f.loops
            &&& same_ops(end, s8)
            &&& same_ops(if_middle(s6, s1), s6)
        }),
    decreases s, 0int,
{
    if let StmtView::If { cond, then, els } = s {
        lemma_if_parts(env, st, s);
        let (s1, c, s6, s8) = if_parts(env, st, s);
        let head = if_head(s1, c);
        let mid = if_middle(s6, s1);
        lemma_value_grows(env, st, cond, locals);
        lemma_stmts_grows(env, head, then.stmts, 0, locals);
        if let Some(b) = els {
            lemma_stmts_grows(env, mid, b.stmts, 0, locals);
        }
        lemma_value_code(env, st, cond, locals);
        lemma_heads(s1, c);
        lemma_stmts_code(env, head, then.stmts, 0, locals);
        lemma_goes_on_more(s1, head, s6);
        lemma_flow_on(s1, s6, if_merge(s1));
        lemma_start_on(s1, flow_to(s6, if_merge(s1)), next(put(s1, Op::Block)));
        if let Some(b) = els {
            lemma_stmts_code(env, mid, b.stmts, 0, locals);
        }
        lemma_goes_on_more(s1, mid, s8);
        let f = flow_to(s8, if_merge(s1));
        lemma_flow_on(s1, s8, if_merge(s1));
        lemma_put_on(s1, f, Op::SwitchTo(if_merge(s1)));
        lemma_put_on(s1, put(f, Op::SwitchTo(if_merge(s1))), Op::Trap);
        lemma_goes_on_more(st, s1, code(env, st, s)->Ok_0);
    }
}

/// Does the code of `a` begin with that of `b`?
pub open spec fn same_ops(a: LowView, b: LowView) -> bool {
    b.f.ops.len() <= a.f.ops.len() && forall|i: int|
        0 <= i < b.f.ops.len() ==> #[trigger] a.f.ops[i] == b.f.ops[i]
}

proof fn lemma_while_code(env: LowEnv, st: LowView, s: StmtView, locals: Names)
    requires
        s is While,
        scalar_stmt(s, locals),
        suits(locals, env),
        code(env, st, s) is Ok,
        code(env, st, s)->Ok_0.f.ops.len() <= usize::MAX,
    ensures
        goes_on(code(env, st, s)->Ok_0, st),
        ({
            let (s5, c, s7) = while_parts(env, st, s);
            let end = code(env, st, s)->Ok_0;
            &&& c < s5.f.ops.len()
            &&& st.f.ops.len() + 8 <= usize::MAX
            &&& same_flow(s5, st)
            &&& goes_on(while_head(st), st)
            &&& goes_on(s5, while_head(st))
            &&& goes_on(s7, while_inner(st, s5, c))
            &&& same_ops(end, s7)
        }),
    decreases s, 0int,
{
    if let StmtView::While { cond, body } = s {
        lemma_while_parts(env, st, s);
        let (s5, c, s7) = while_parts(env, st, s);
        let head = while_head(st);
        let inner = while_inner(st, s5, c);
        lemma_value_grows(env, head, cond, locals);
        lemma_stmts_grows(env, inner, body.stmts, 0, locals);
        lemma_heads(st, c);
        lemma_value_code(env, head, cond, locals);
        lemma_goes_on_more(st, head, s5);
        let b = put(s5, Op::Brif(c, while_body(st), while_exit(st)));
        lemma_put_on(st, s5, Op::Brif(c, while_body(st), while_exit(st)));
        lemma_put_on(st, b, Op::SwitchTo(while_body(st)));
        assert(goes_on(inner, st));
        lemma_stmts_code(env, inner, body.stmts, 0, locals);
        lemma_goes_on_more(st, inner, s7);
        assert(goes_on(leave_loop(s7), st));
        lemma_flow_on(st, leave_loop(s7), next(st));
        lemma_start_on(st, flow_to(leave_loop(s7), next(st)), while_exit(st));
    }
}

proof fn lemma_for_code(env: LowEnv, st: LowView, s: StmtView, locals: Names)
    requires
        s is For,
        scalar_stmt(s, locals),
        suits(locals, env),
        code(env, st, s) is Ok,
        code(env, st, s)->Ok_0.f.ops.len() <= usize::MAX,
    ensures
        goes_on(code(env, st, s)->Ok_0, st),
        ({
            let (s0, s6, s7, s8) = for_parts(env, st, s);
            let end = code(env, st, s)->Ok_0;
            &&& s0.f.ops.len() + 8 <= usize::MAX
            &&& goes_on(s0, st)
            &&& goes_on(s6, for_head(s0))
            &&& goes_on(s7, for_inner(s0, s6))
            &&& goes_on(s8, for_step_head(s0, s7))
            &&& same_ops(end, s8)
            &&& same_ops(for_step_head(s0, s7), s7)
            &&& match s->For_cond {
                None => true,
                Some(c) => {
                    let (s1, v) = value(env, for_head(s0), c)->Ok_0;
                    value(env, for_head(s0), c) is Ok && goes_on(s1, for_head(s0)) && v
                        < s1.f.ops.len()
                },
            }
        }),
    decreases s, 0int,
{
    if let StmtView::For { init, cond, step, body } = s {
        lemma_for_grows(env, st, s, locals);
        lemma_for_parts(env, st, s);
        let (s0, s6, s7, s8) = for_parts(env, st, s);
        let head = for_head(s0);
        let inner = for_inner(s0, s6);
        let again = for_step_head(s0, s7);
        let end = code(env, st, s)->Ok_0;
        lemma_heads(s0, 0);
        if let Some(i) = init {
            lemma_stmt_code(env, st, *i, locals);
        }
        match cond {
            None => {
                lemma_put_on(head, head, Op::Jump(for_body(s0)));
            },
            Some(c) => {
                let (s1, v) = value(env, head, c)->Ok_0;
                lemma_value_grows(env, head, c, locals);
                lemma_value_code(env, head, c, locals);
                lemma_put_on(head, s1, Op::Brif(v, for_body(s0), for_exit(s0)));
            },
        }
        lemma_goes_on_more(s0, head, s6);
        lemma_put_on(s0, s6, Op::SwitchTo(for_body(s0)));
        assert(goes_on(inner, s0));
        lemma_stmts_code(env, inner, body.stmts, 0, locals);
        lemma_goes_on_more(s0, inner, s7);
        assert(goes_on(leave_loop(s7), s0));
        lemma_flow_on(s0, leave_loop(s7), for_step(s0));
        lemma_start_on(s0, flow_to(leave_loop(s7), for_step(s0)), for_step(s0));
        assert(goes_on(again, s0));
        if let Some(t) = step {
            lemma_stmt_code(env, again, *t, locals);
        }
        lemma_goes_on_more(s0, again, s8);
        lemma_put_on(s0, s8, Op::Jump(next(s0)));
        lemma_start_on(s0, put(s8, Op::Jump(next(s0))), for_exit(s0));
        lemma_goes_on_more(st, s0, end);
    }
}

/// The code of a statement goes on from what was written.
proof fn lemma_stmt_code(env: LowEnv, st: LowView, s: StmtView, locals: Names)
    requires
        scalar_stmt(s, locals),
        suits(locals, env),
        code(env, st, s) is Ok,
        code(env, st, s)->Ok_0.f.ops.len() <= usize::MAX,
    ensures
        goes_on(code(env, st, s)->Ok_0, st),
    decreases s, 1int,
{
    match s {
        StmtView::Let { init, local, .. } => {
            lemma_let(env, st, s);
            let (s1, v) = value(env, st, init)->Ok_0;
            lemma_value_code(env, st, init, locals);
            lemma_put_on(st, s1, Op::DefVar(local as usize, v));
        },
        StmtView::Assign { target, op, value, line } => {
            lemma_assign(env, st, s, locals);
            let i = assigned_local(s) as usize;
            match op {
                None => {
                    let (s1, v) = self::value(env, st, value)->Ok_0;
                    lemma_value_code(env, st, value, locals);
                    lemma_put_on(st, s1, Op::DefVar(i, v));
                },
                Some(op) => {
                    let s0 = put(st, Op::UseVar(i));
                    lemma_put_on(st, st, Op::UseVar(i));
                    lemma_value_grows(env, s0, value, locals);
                    let (s1, r) = self::value(env, s0, value)->Ok_0;
                    lemma_arith_grows(s1, op, target.ty, next(st), r, line);
                    let (s2, v) = arith(s1, op, target.ty, next(st), r, line)->Ok_0;
                    lemma_value_code(env, s0, value, locals);
                    lemma_arith_goes_on(s1, op, kind_of(target.ty), next(st), r, line);
                    lemma_goes_on_more(st, s0, s1);
                    lemma_goes_on_more(st, s1, s2);
                    lemma_put_on(st, s2, Op::DefVar(i, v));
                },
            }
        },
        StmtView::Expr(e) => {
            if scalar_effect(e, locals) {
                lemma_effect(env, st, e, locals);
                lemma_effect_code(env, st, e, locals);
            } else {
                lemma_expr_stmt(env, st, e, locals);
                lemma_value_code(env, st, e, locals);
            }
        },
        StmtView::If { .. } => {
            lemma_if_code(env, st, s, locals);
        },
        StmtView::While { .. } => {
            lemma_while_code(env, st, s, locals);
        },
        StmtView::For { .. } => {
            lemma_for_code(env, st, s, locals);
        },
        StmtView::Return { value, .. } => {
            lemma_return(env, st, s);
            match value {
                None => {
                    lemma_put_on(st, st, Op::Return);
                },
                Some(e) => {
                    let (s1, v) = self::value(env, st, e)->Ok_0;
                    lemma_value_code(env, st, e, locals);
                    lemma_put_on(st, s1, Op::ReturnValue(v));
                },
            }
        },
        StmtView::Break(_) => {
            lemma_jumps(env, st, s);
            lemma_put_on(st, st, Op::Jump(st.f.loops.last().0));
        },
        StmtView::Continue(_) => {
            lemma_jumps(env, st, s);
            lemma_put_on(st, st, Op::Jump(st.f.loops.last().1));
        },
        StmtView::Block(b) => {
            lemma_nested(env, st, s);
            lemma_stmts_code(env, st, b.stmts, 0, locals);
        },
        StmtView::Match { .. } => {
            lemma_match_code(env, st, s, locals);
        },
    }
}

proof fn lemma_arms_code(
    env: LowEnv,
    st: LowView,
    arms: Seq<(PatternView, BlockView)>,
    i: nat,
    ty: TypeView,
    key: usize,
    merge: usize,
    left: bool,
    line: u32,
    locals: Names,
)
    requires
        i < arms.len(),
        scalar_arms(arms, locals),
        forall|k: int| 0 <= k < arms.len() ==> !(#[trigger] stmt_patterns(arms)[k] is Variant),
        suits(locals, env),
        arm_codes(env, st, arms, i, ty, key, merge, left, line) is Ok,
        arm_codes(env, st, arms, i, ty, key, merge, left, line)->Ok_0.0.f.ops.len() <= usize::MAX,
    ensures
        ({
            let end = arm_codes(env, st, arms, i, ty, key, merge, left, line)->Ok_0.0;
            &&& goes_on(end, st)
            &&& goes_on(arm_body(env, st, arms, i, key), arm_start(st, arms, i, key))
            &&& goes_on(arm_start(st, arms, i, key), st)
            &&& same_ops(end, arm_body(env, st, arms, i, key))
            &&& i + 1 < arms.len() ==> same_ops(end, arm_next(env, st, arms, i, key, merge))
                && goes_on(arm_next(env, st, arms, i, key, merge), st) && st.f.ops.len() + 5
                <= usize::MAX
        }),
    decreases arms, arms.len() - i,
{
    assert(stmt_patterns(arms)[i as int] == arms[i as int].0);
    lemma_arm_codes(env, st, arms, i, ty, key, merge, left, line);
    lemma_arms_grow(env, st, arms, i, ty, key, merge, left, line, locals);
    let start = arm_start(st, arms, i, key);
    let s3 = arm_body(env, st, arms, i, key);
    let end = arm_codes(env, st, arms, i, ty, key, merge, left, line)->Ok_0.0;
    lemma_stmts_grows(env, start, arms[i as int].1.stmts, 0, locals);
    lemma_stmts_code(env, start, arms[i as int].1.stmts, 0, locals);
    assert(goes_on(start, st));
    lemma_goes_on_more(st, start, s3);
    lemma_flow_on(st, s3, merge);
    if i + 1 < arms.len() {
        let other = arm_other(st, key, arms[i as int].0);
        let nx = arm_next(env, st, arms, i, key, merge);
        lemma_put_on(st, flow_to(s3, merge), Op::SwitchTo(other));
        let all = left && s3.f.terminated;
        lemma_arms_grow(env, nx, arms, i + 1, ty, key, merge, all, line, locals);
        lemma_arms_code(env, nx, arms, i + 1, ty, key, merge, all, line, locals);
        lemma_goes_on_more(st, nx, end);
        assert forall|k: int| 0 <= k < s3.f.ops.len() implies #[trigger] end.f.ops[k]
            == s3.f.ops[k] by {
            assert(nx.f.ops[k] == s3.f.ops[k]);
            assert(end.f.ops[k] == nx.f.ops[k]);
        }
    }
}

proof fn lemma_match_code(env: LowEnv, st: LowView, s: StmtView, locals: Names)
    requires
        s is Match,
        scalar_stmt(s, locals),
        suits(locals, env),
        code(env, st, s) is Ok,
        code(env, st, s)->Ok_0.f.ops.len() <= usize::MAX,
    ensures
        goes_on(code(env, st, s)->Ok_0, st),
        ({
            let (s1, v, s3, left) = match_parts(env, st, s);
            let end = code(env, st, s)->Ok_0;
            &&& v < s1.f.ops.len()
            &&& s1.f.ops.len() + 1 <= usize::MAX
            &&& same_flow(s1, st)
            &&& goes_on(s1, st)
            &&& goes_on(s3, put(s1, Op::Block))
            &&& same_ops(end, s3)
        }),
    decreases s, 0int,
{
    if let StmtView::Match { scrutinee, arms, line } = s {
        lemma_scalar_type(scrutinee, locals);
        lemma_match_parts(env, st, s);
        let (s1, v, s3, left) = match_parts(env, st, s);
        let s2 = put(s1, Op::Block);
        let end = code(env, st, s)->Ok_0;
        lemma_value_grows(env, st, scrutinee, locals);
        lemma_patterns(arms);
        lemma_arms_grow(env, s2, arms, 0, scrutinee.ty, v, next(s1), true, line, locals);
        lemma_value_code(env, st, scrutinee, locals);
        lemma_arms_code(env, s2, arms, 0, scrutinee.ty, v, next(s1), true, line, locals);
        lemma_put_on(s1, s1, Op::Block);
        lemma_goes_on_more(s1, s2, s3);
        lemma_put_on(s1, s3, Op::SwitchTo(next(s1)));
        lemma_put_on(s1, put(s3, Op::SwitchTo(next(s1))), Op::Trap);
        lemma_goes_on_more(st, s1, end);
    }
}

proof fn lemma_stmts_code(
    env: LowEnv,
    st: LowView,
    ss: Seq<StmtView>,
    i: nat,
    locals: Names,
)
    requires
        scalar_stmts(ss, locals),
        suits(locals, env),
        codes(env, st, ss, i) is Ok,
        codes(env, st, ss, i)->Ok_0.f.ops.len() <= usize::MAX,
    ensures
        goes_on(codes(env, st, ss, i)->Ok_0, st),
    decreases ss, ss.len() - i,
{
    lemma_codes(env, st, ss, i);
    if i < ss.len() && !st.f.terminated {
        let s1 = code(env, st, ss[i as int])->Ok_0;
        lemma_stmts_grows(env, s1, ss, i + 1, locals);
        lemma_stmt_code(env, st, ss[i as int], locals);
        lemma_stmts_code(env, s1, ss, i + 1, locals);
        lemma_goes_on_more(st, s1, codes(env, st, ss, i)->Ok_0);
    }
}

// -- What the code does -----------------------------------------------------

/// Is the machine about to jump to the block?
pub open spec fn at_jump(ops: Seq<Op>, m: Machine, b: usize) -> bool {
    0 <= m.at < ops.len() && ops[m.at] == Op::Jump(b)
}

/// Does the machine hold these variables, all of them values of their types?
pub open spec fn holds(m: Machine, vars: Vars, locals: Names) -> bool {
    holds_words(m, vars, locals) && holds_values(vars, locals)
}

pub open spec fn returned(v: Option<int>) -> Option<u64> {
    match v {
        Some(x) => Some(word(x)),
        None => None,
    }
}

/// The machine, about to run the code that `end` adds to `st`, ends as the
/// statement does: behind that code, at a jump out of or to the next turn of
/// the loop around, returning or panicking.
pub open spec fn performs(
    ops: Seq<Op>,
    m: Machine,
    st: LowView,
    end: LowView,
    locals: Names,
    x: Exec,
) -> bool {
    match x {
        Exec::Unfinished => true,
        Exec::Panic(rt, line, w) => leads(ops, m, End::Panic(rt, line, w)),
        Exec::Return(v, w) => leads(ops, m, End::Return(returned(v), w)),
        Exec::Next(vars) => !end.f.terminated && exists|m2: Machine| #[trigger]
            leads(ops, m, End::At(m2)) && m2.at == end.f.ops.len() && holds(m2, vars, locals),
        Exec::Break(vars) => st.f.loops.len() > 0 && exists|m2: Machine| #[trigger]
            leads(ops, m, End::At(m2)) && at_jump(ops, m2, st.f.loops.last().0) && holds(
                m2,
                vars,
                locals,
            ),
        Exec::Continue(vars) => st.f.loops.len() > 0 && exists|m2: Machine| #[trigger]
            leads(ops, m, End::At(m2)) && at_jump(ops, m2, st.f.loops.last().1) && holds(
                m2,
                vars,
                locals,
            ),
    }
}

/// A part has run; the rest goes on from there.
proof fn lemma_performs_on(
    ops: Seq<Op>,
    m: Machine,
    m1: Machine,
    st: LowView,
    mid: LowView,
    end: LowView,
    locals: Names,
    x: Exec,
)
    requires
        leads(ops, m, End::At(m1)),
        mid.f.loops == st.f.loops,
        performs(ops, m1, mid, end, locals, x),
    ensures
        performs(ops, m, st, end, locals, x),
{
    match x {
        Exec::Unfinished => {},
        Exec::Panic(rt, line, w) => {
            lemma_leads_on(ops, m, m1, End::Panic(rt, line, w));
        },
        Exec::Return(v, w) => {
            lemma_leads_on(ops, m, m1, End::Return(returned(v), w));
        },
        Exec::Next(vars) => {
            let m2 = choose|m2: Machine| #[trigger]
                leads(ops, m1, End::At(m2)) && m2.at == end.f.ops.len() && holds(m2, vars, locals);
            lemma_leads_on(ops, m, m1, End::At(m2));
        },
        Exec::Break(vars) => {
            let m2 = choose|m2: Machine| #[trigger]
                leads(ops, m1, End::At(m2)) && at_jump(ops, m2, mid.f.loops.last().0) && holds(
                    m2,
                    vars,
                    locals,
                );
            lemma_leads_on(ops, m, m1, End::At(m2));
        },
        Exec::Continue(vars) => {
            let m2 = choose|m2: Machine| #[trigger]
                leads(ops, m1, End::At(m2)) && at_jump(ops, m2, mid.f.loops.last().1) && holds(
                    m2,
                    vars,
                    locals,
                );
            lemma_leads_on(ops, m, m1, End::At(m2));
        },
    }
}

/// Where a statement that ended otherwise than by passing control on ends does
/// not depend on the code behind it.
proof fn lemma_performs_away(
    ops: Seq<Op>,
    m: Machine,
    st: LowView,
    mid: LowView,
    end: LowView,
    locals: Names,
    x: Exec,
)
    requires
        !(x is Next),
        performs(ops, m, st, mid, locals, x),
    ensures
        performs(ops, m, st, end, locals, x),
{
}

/// A machine that has jumped.
proof fn lemma_jump(ops: Seq<Op>, m: Machine, b: usize, j: int)
    requires
        at_jump(ops, m, b),
        start_from(ops, b, 0) == Some(j),
        0 <= j < ops.len(),
        ops[j] == Op::SwitchTo(b),
    ensures
        leads(ops, m, End::At(Machine { at: j + 1, ..m })),
{
    let m1 = Machine { at: j, ..m };
    let m2 = Machine { at: j + 1, ..m };
    assert(step(ops, m) == Some(End::At(m1)));
    assert(step(ops, m1) == Some(End::At(m2)));
    lemma_leads_step(ops, m1, End::At(m2));
    lemma_step_then(ops, m, m1, End::At(m2));
}

/// The value of an expression, and the machine that it leaves.
proof fn lemma_value(
    ops: Seq<Op>,
    m: Machine,
    env: LowEnv,
    st: LowView,
    e: ExprView,
    locals: Names,
    vars: Vars,
) -> (m1: Machine)
    requires
        scalar_expr(e, locals),
        suits(locals, env),
        value(env, st, e) is Ok,
        begins(ops, value(env, st, e)->Ok_0.0),
        runnable(ops),
        ready(ops, m, st),
        holds(m, vars, locals),
    ensures
        match eval(e, vars) {
            Eval::Unfinished => true,
            Eval::Nothing(_) => false,
            Eval::Panic(rt, line, w) => leads(ops, m, End::Panic(rt, line, w)),
            Eval::Value(x, w) => {
                let (s1, v) = value(env, st, e)->Ok_0;
                &&& leads(ops, m, End::At(m1))
                &&& m1.at == s1.f.ops.len()
                &&& m1.vals[v as int] == word(x)
                &&& framed(m1, m, st.f.ops.len() as int)
                &&& holds(m1, vars.at(w), locals)
                &&& fits_type(e.ty, x)
            },
        },
{
    reveal(value);
    law_expression(ops, m, env, st, e, locals, vars);
    law_eval_keeps_types(e, locals, vars);
    match eval(e, vars) {
        Eval::Value(x, w) => {
            let (s1, v) = gen_scalar(env, st, e)->Ok_0;
            let m1 = after(ops, m, st, s1, v, x, w);
            assert(computes(ops, m, st, s1, v, Eval::Value(x, w)));
            m1
        },
        _ => m,
    }
}

/// A truth value decides a branch.
proof fn lemma_decides(x: int)
    requires
        x == 0 || x == 1,
    ensures
        (word(x) != 0) == (x != 0),
{
    lemma_word(x);
}

/// Storing a value in its local.
proof fn lemma_def(
    ops: Seq<Op>,
    m: Machine,
    s1: LowView,
    i: u32,
    v: usize,
    x: int,
    locals: Names,
    vars: Vars,
)
    requires
        begins(ops, put(s1, Op::DefVar(i as usize, v))),
        m.at == s1.f.ops.len(),
        m.vals[v as int] == word(x),
        holds(m, vars, locals),
        i < locals.len(),
        fits_type(locals[i as int], x),
        !s1.f.terminated,
    ensures
        performs(
            ops,
            m,
            s1,
            put(s1, Op::DefVar(i as usize, v)),
            locals,
            Exec::Next(vars.insert(i as int, x)),
        ),
{
    let end = put(s1, Op::DefVar(i as usize, v));
    let n = s1.f.ops.len() as int;
    assert(ops[n] == end.f.ops[n]);
    let m2 = Machine { at: n + 1, vars: m.vars.insert(i as int, word(x)), ..m };
    assert(step(ops, m) == Some(End::At(m2)));
    lemma_leads_step(ops, m, End::At(m2));
    assert(holds(m2, vars.insert(i as int, x), locals));
}

proof fn lemma_assign_done(
    ops: Seq<Op>,
    m: Machine,
    env: LowEnv,
    st: LowView,
    s: StmtView,
    locals: Names,
    vars: Vars,
    fuel: nat,
)
    requires
        s is Assign,
        scalar_stmt(s, locals),
        suits(locals, env),
        code(env, st, s) is Ok,
        begins(ops, code(env, st, s)->Ok_0),
        runnable(ops),
        ready(ops, m, st),
        !st.f.terminated,
        holds(m, vars, locals),
    ensures
        performs(ops, m, st, code(env, st, s)->Ok_0, locals, exec_stmt(s, vars, fuel)),
{
    if let StmtView::Assign { target, op, value, line } = s {
        lemma_assign(env, st, s, locals);
        let i = assigned_local(s);
        let end = code(env, st, s)->Ok_0;
        assert(end.f.ops.len() <= usize::MAX);
        match op {
            None => {
                let (s1, v) = self::value(env, st, value)->Ok_0;
                lemma_value_grows(env, st, value, locals);
                lemma_begins(ops, end, s1);
                let m1 = lemma_value(ops, m, env, st, value, locals, vars);
                if let Eval::Value(x, w) = eval(value, vars) {
                    lemma_def(ops, m1, s1, i, v, x, locals, vars.at(w));
                    lemma_performs_on(ops, m, m1, st, s1, end, locals, exec_stmt(s, vars, fuel));
                }
            },
            Some(op) => {
                let n = st.f.ops.len() as int;
                let k = kind_of(target.ty);
                let s0 = put(st, Op::UseVar(i as usize));
                lemma_value_grows(env, s0, value, locals);
                let (s1, r) = self::value(env, s0, value)->Ok_0;
                lemma_arith_grows(s1, op, target.ty, next(st), r, line);
                let (s2, v) = arith(s1, op, target.ty, next(st), r, line)->Ok_0;
                lemma_value_code(env, s0, value, locals);
                lemma_arith_goes_on(s1, op, k, next(st), r, line);
                lemma_begins(ops, end, s2);
                lemma_begins(ops, s2, s1);
                assert(ops[n] == Op::UseVar(i as usize)) by {
                    assert(s1.f.ops[n] == s0.f.ops[n]);
                    assert(ops[n] == s1.f.ops[n]);
                }
                assert(is_scalar(locals[i as int]));
                let a = vars[i as int];
                let m0 = Machine { at: n + 1, vals: m.vals.insert(n, word(a)), ..m };
                assert(step(ops, m) == Some(End::At(m0)));
                lemma_leads_step(ops, m, End::At(m0));
                assert(holds(m0, vars, locals));
                let m1 = lemma_value(ops, m0, env, s0, value, locals, vars);
                match eval(value, vars) {
                    Eval::Panic(rt, line, w) => {
                        lemma_leads_on(ops, m, m0, End::Panic(rt, line, w));
                    },
                    Eval::Value(b, w) => {
                        lemma_leads_on(ops, m, m0, End::At(m1));
                        assert(m1.vals[n] == word(a));
                        law_int_arith(ops, m1, s1, op, k, next(st), r, line, a, b);
                        law_operate_in_range(op, k, a, b);
                        let out = operate(op, k, a, b)->0;
                        match out {
                            crate::machine::Outcome::Panic(rt) => {
                                lemma_leads_on(ops, m, m1, End::Panic(rt, line, w));
                            },
                            crate::machine::Outcome::Value(x) => {
                                let m2 = choose|m2: Machine| #[trigger]
                                    leads(ops, m1, End::At(m2)) && m2.at == s2.f.ops.len()
                                        && m2.vals[v as int] == word(x) && kept(
                                        m2,
                                        m1,
                                        s1.f.ops.len() as int,
                                    );
                                lemma_leads_on(ops, m, m1, End::At(m2));
                                assert(holds(m2, vars.at(w), locals));
                                lemma_def(ops, m2, s2, i, v, x, locals, vars.at(w));
                                lemma_performs_on(
                                    ops,
                                    m,
                                    m2,
                                    st,
                                    s2,
                                    end,
                                    locals,
                                    exec_stmt(s, vars, fuel),
                                );
                            },
                        }
                    },
                    _ => {},
                }
            },
        }
    }
}

/// The conditional: only the branch that is taken runs.
#[verifier::rlimit(40)]
proof fn lemma_if_done(
    ops: Seq<Op>,
    m: Machine,
    env: LowEnv,
    st: LowView,
    s: StmtView,
    locals: Names,
    vars: Vars,
    fuel: nat,
)
    requires
        s is If,
        scalar_stmt(s, locals),
        suits(locals, env),
        code(env, st, s) is Ok,
        begins(ops, code(env, st, s)->Ok_0),
        runnable(ops),
        !st.f.terminated,
        holds(m, vars, locals),
        ready(ops, m, st),
    ensures
        performs(ops, m, st, code(env, st, s)->Ok_0, locals, exec_stmt(s, vars, fuel)),
    decreases fuel, s, 2int,
{
    if let StmtView::If { cond, then, els } = s {
        let end = code(env, st, s)->Ok_0;
        assert(end.f.ops.len() <= usize::MAX);
        lemma_if_code(env, st, s, locals);
        lemma_if_parts(env, st, s);
        let (s1, c, s6, s8) = if_parts(env, st, s);
        let head = if_head(s1, c);
        let mid = if_middle(s6, s1);
        lemma_heads(s1, c);
        lemma_begins(ops, end, s8);
        lemma_begins(ops, s8, mid);
        lemma_begins(ops, mid, s6);
        lemma_begins(ops, s6, head);
        lemma_begins(ops, head, s1);
        let p = s1.f.ops.len() as int;
        let q = s6.f.ops.len() as int;
        let r = mid.f.ops.len() - 1;
        let w = s8.f.ops.len() as int;
        let j = flow_to(s8, if_merge(s1)).f.ops.len() as int;
        let (yes, no, merge) = (p as usize, (p + 1) as usize, (p + 2) as usize);
        assert(ops[p] == head.f.ops[p] && ops[p + 1] == head.f.ops[p + 1] && ops[p + 2]
            == head.f.ops[p + 2] && ops[p + 3] == head.f.ops[p + 3] && ops[p + 4]
            == head.f.ops[p + 4]);
        assert(ops[p + 3] == Op::Brif(c, yes, no) && ops[p + 4] == Op::SwitchTo(yes));
        assert(ops[r] == mid.f.ops[r] && ops[r] == Op::SwitchTo(no));
        assert(!s6.f.terminated ==> r == q + 1 && mid.f.ops[q] == Op::Jump(merge) && ops[q]
            == mid.f.ops[q]);
        assert(s6.f.terminated ==> r == q);
        assert(ops[j] == end.f.ops[j] && ops[j] == Op::SwitchTo(merge));
        assert(!s8.f.terminated ==> j == w + 1 && end.f.ops[w] == Op::Jump(merge) && ops[w]
            == end.f.ops[w]);
        assert(s8.f.terminated ==> j == w);
        assert forall|i: int| p + 5 <= i < q implies (match #[trigger] ops[i] {
            Op::SwitchTo(b) => b >= p + 5,
            _ => true,
        }) by {
            assert(ops[i] == s6.f.ops[i]);
        }
        assert forall|i: int| r < i < w implies (match #[trigger] ops[i] {
            Op::SwitchTo(b) => b > r,
            _ => true,
        }) by {
            assert(ops[i] == s8.f.ops[i]);
        }
        lemma_start(ops, yes, p + 4);
        lemma_start(ops, no, r);
        lemma_start(ops, merge, j);
        let m1 = lemma_value(ops, m, env, st, cond, locals, vars);
        if let Eval::Value(a, w1) = eval(cond, vars) {
            let x = exec_stmt(s, vars, fuel);
            let vars = vars.at(w1);
            lemma_decides(a);
            let m2 = Machine { at: p + 3, ..m1 };
            lemma_blocks(ops, m1, 3);
            lemma_leads_on(ops, m, m1, End::At(m2));
            if a != 0 {
                let m3 = Machine { at: p + 5, ..m1 };
                lemma_branch(ops, m2, c, yes, no, p + 4);
                lemma_leads_on(ops, m, m2, End::At(m3));
                assert(holds(m3, vars, locals));
                lemma_stmts_done(ops, m3, env, head, then.stmts, 0, locals, vars, fuel);
                if let Exec::Next(v) = x {
                    let m4 = choose|m4: Machine| #[trigger]
                        leads(ops, m3, End::At(m4)) && m4.at == s6.f.ops.len() && holds(
                            m4,
                            v,
                            locals,
                        );
                    lemma_jump(ops, m4, merge, j);
                    let m5 = Machine { at: j + 1, ..m4 };
                    lemma_leads_on(ops, m3, m4, End::At(m5));
                    assert(holds(m5, v, locals));
                } else {
                    lemma_performs_away(ops, m3, head, s6, end, locals, x);
                }
                lemma_performs_on(ops, m, m3, st, head, end, locals, x);
            } else {
                let m3 = Machine { at: r + 1, ..m1 };
                lemma_branch(ops, m2, c, yes, no, r);
                lemma_leads_on(ops, m, m2, End::At(m3));
                assert(holds(m3, vars, locals));
                match els {
                    Some(b) => {
                        lemma_stmts_done(ops, m3, env, mid, b.stmts, 0, locals, vars, fuel);
                    },
                    None => {
                        lemma_leads_here(ops, m3);
                        assert(performs(ops, m3, mid, s8, locals, x));
                    },
                }
                if let Exec::Next(v) = x {
                    let m4 = choose|m4: Machine| #[trigger]
                        leads(ops, m3, End::At(m4)) && m4.at == s8.f.ops.len() && holds(
                            m4,
                            v,
                            locals,
                        );
                    lemma_jump(ops, m4, merge, j);
                    let m5 = Machine { at: j + 1, ..m4 };
                    lemma_leads_on(ops, m3, m4, End::At(m5));
                    assert(holds(m5, v, locals));
                } else {
                    lemma_performs_away(ops, m3, mid, s8, end, locals, x);
                }
                lemma_performs_on(ops, m, m3, st, mid, end, locals, x);
            }
        }
    }
}

/// The turns of a `while` loop.
#[verifier::rlimit(40)]
proof fn lemma_while_done(
    ops: Seq<Op>,
    m: Machine,
    env: LowEnv,
    st: LowView,
    s: StmtView,
    locals: Names,
    vars: Vars,
    fuel: nat,
)
    requires
        s is While,
        scalar_stmt(s, locals),
        suits(locals, env),
        code(env, st, s) is Ok,
        begins(ops, code(env, st, s)->Ok_0),
        runnable(ops),
        !st.f.terminated,
        holds(m, vars, locals),
        m.at == while_head(st).f.ops.len(),
    ensures
        performs(ops, m, st, code(env, st, s)->Ok_0, locals, exec_loop(s, vars, fuel)),
    decreases fuel, s, 1int,
{
    if let StmtView::While { cond, body } = s {
        let end = code(env, st, s)->Ok_0;
        assert(end.f.ops.len() <= usize::MAX);
        lemma_while_code(env, st, s, locals);
        lemma_while_parts(env, st, s);
        let (s5, c, s7) = while_parts(env, st, s);
        let head = while_head(st);
        let inner = while_inner(st, s5, c);
        lemma_heads(st, c);
        lemma_begins(ops, end, s7);
        lemma_begins(ops, s7, inner);
        lemma_begins(ops, inner, s5);
        lemma_begins(ops, s5, head);
        let n = st.f.ops.len() as int;
        let p = s5.f.ops.len() as int;
        let q = s7.f.ops.len() as int;
        let j = end.f.ops.len() - 1;
        let (header, into, exit) = (n as usize, (n + 1) as usize, (n + 2) as usize);
        assert(ops[n] == head.f.ops[n] && ops[n + 1] == head.f.ops[n + 1] && ops[n + 2]
            == head.f.ops[n + 2] && ops[n + 3] == head.f.ops[n + 3] && ops[n + 4]
            == head.f.ops[n + 4]);
        assert(ops[n + 4] == Op::SwitchTo(header));
        assert(ops[p] == inner.f.ops[p] && ops[p + 1] == inner.f.ops[p + 1]);
        assert(ops[p] == Op::Brif(c, into, exit) && ops[p + 1] == Op::SwitchTo(into));
        assert(ops[j] == end.f.ops[j] && ops[j] == Op::SwitchTo(exit));
        assert(!s7.f.terminated ==> j == q + 1 && end.f.ops[q] == Op::Jump(header) && ops[q]
            == end.f.ops[q]);
        assert(s7.f.terminated ==> j == q);
        assert forall|i: int| n + 5 <= i < p implies (match #[trigger] ops[i] {
            Op::SwitchTo(b) => b >= n + 5,
            _ => true,
        }) by {
            assert(ops[i] == s5.f.ops[i]);
        }
        assert forall|i: int| p + 2 <= i < q implies (match #[trigger] ops[i] {
            Op::SwitchTo(b) => b >= p + 2,
            _ => true,
        }) by {
            assert(ops[i] == s7.f.ops[i]);
        }
        lemma_start(ops, header, n + 4);
        lemma_start(ops, into, p + 1);
        lemma_start(ops, exit, j);
        if fuel > 0 {
            let m1 = lemma_value(ops, m, env, head, cond, locals, vars);
            if let Eval::Value(a, w1) = eval(cond, vars) {
                let vars = vars.at(w1);
                lemma_decides(a);
                if a == 0 {
                    let m2 = Machine { at: j + 1, ..m1 };
                    lemma_branch(ops, m1, c, into, exit, j);
                    lemma_leads_on(ops, m, m1, End::At(m2));
                    assert(holds(m2, vars, locals));
                } else {
                    let m2 = Machine { at: p + 2, ..m1 };
                    lemma_branch(ops, m1, c, into, exit, p + 1);
                    lemma_leads_on(ops, m, m1, End::At(m2));
                    assert(holds(m2, vars, locals));
                    assert(inner.f.loops.last() == (exit, header));
                    lemma_stmts_done(ops, m2, env, inner, body.stmts, 0, locals, vars, fuel);
                    let turn = exec_stmts(body.stmts, 0, vars, fuel);
                    match turn {
                        Exec::Break(v) => {
                            let m3 = choose|m3: Machine| #[trigger]
                                leads(ops, m2, End::At(m3)) && at_jump(ops, m3, exit) && holds(
                                    m3,
                                    v,
                                    locals,
                                );
                            lemma_jump(ops, m3, exit, j);
                            let m4 = Machine { at: j + 1, ..m3 };
                            lemma_leads_on(ops, m, m2, End::At(m3));
                            lemma_leads_on(ops, m, m3, End::At(m4));
                            assert(holds(m4, v, locals));
                        },
                        Exec::Next(v) => {
                            let m3 = choose|m3: Machine| #[trigger]
                                leads(ops, m2, End::At(m3)) && m3.at == q && holds(m3, v, locals);
                            assert(at_jump(ops, m3, header));
                            lemma_leads_on(ops, m, m2, End::At(m3));
                            lemma_while_again(ops, m, m3, env, st, s, locals, v, fuel);
                        },
                        Exec::Continue(v) => {
                            let m3 = choose|m3: Machine| #[trigger]
                                leads(ops, m2, End::At(m3)) && at_jump(ops, m3, header) && holds(
                                    m3,
                                    v,
                                    locals,
                                );
                            lemma_leads_on(ops, m, m2, End::At(m3));
                            lemma_while_again(ops, m, m3, env, st, s, locals, v, fuel);
                        },
                        Exec::Panic(rt, line, w) => {
                            lemma_leads_on(ops, m, m2, End::Panic(rt, line, w));
                        },
                        Exec::Return(v, w) => {
                            lemma_leads_on(ops, m, m2, End::Return(returned(v), w));
                        },
                        Exec::Unfinished => {},
                    }
                }
            }
        }
    }
}

/// On to the next turn.
proof fn lemma_while_again(
    ops: Seq<Op>,
    m: Machine,
    m3: Machine,
    env: LowEnv,
    st: LowView,
    s: StmtView,
    locals: Names,
    vars: Vars,
    fuel: nat,
)
    requires
        s is While,
        fuel > 0,
        scalar_stmt(s, locals),
        suits(locals, env),
        code(env, st, s) is Ok,
        begins(ops, code(env, st, s)->Ok_0),
        runnable(ops),
        !st.f.terminated,
        leads(ops, m, End::At(m3)),
        at_jump(ops, m3, next(st)),
        holds(m3, vars, locals),
        start_from(ops, next(st), 0) == Some(st.f.ops.len() as int + 4),
        st.f.ops.len() + 4 < ops.len(),
        ops[st.f.ops.len() as int + 4] == Op::SwitchTo(next(st)),
    ensures
        performs(ops, m, st, code(env, st, s)->Ok_0, locals, exec_again(s, vars, fuel)),
    decreases fuel, s, 0int,
{
    let n = st.f.ops.len() as int;
    let m4 = Machine { at: n + 5, ..m3 };
    lemma_jump(ops, m3, next(st), n + 4);
    lemma_leads_on(ops, m, m3, End::At(m4));
    assert(holds(m4, vars, locals));
    lemma_while_done(ops, m4, env, st, s, locals, vars, (fuel - 1) as nat);
    lemma_performs_on(
        ops,
        m,
        m4,
        st,
        st,
        code(env, st, s)->Ok_0,
        locals,
        exec_again(s, vars, fuel),
    );
}

/// The places of a `for` loop, and where its blocks start.
proof fn lemma_for_places(
    ops: Seq<Op>,
    env: LowEnv,
    st: LowView,
    s: StmtView,
    locals: Names,
)
    requires
        s is For,
        scalar_stmt(s, locals),
        suits(locals, env),
        code(env, st, s) is Ok,
        begins(ops, code(env, st, s)->Ok_0),
        runnable(ops),
    ensures
        ({
            let (s0, s6, s7, s8) = for_parts(env, st, s);
            let end = code(env, st, s)->Ok_0;
            let n = s0.f.ops.len() as int;
            let p = s6.f.ops.len() - 1;
            let q = s7.f.ops.len() as int;
            let r = for_step_head(s0, s7).f.ops.len() - 1;
            let w = s8.f.ops.len() as int;
            let (header, into, again, exit) = (
                n as usize,
                (n + 1) as usize,
                (n + 2) as usize,
                (n + 3) as usize,
            );
            &&& n + 4 <= usize::MAX
            &&& header == next(s0) && into == for_body(s0) && again == for_step(s0) && exit
                == for_exit(s0)
            &&& w + 2 == end.f.ops.len() <= ops.len()
            &&& n + 6 <= p < q <= r < w
            &&& ops[n] == Op::Block && ops[n + 1] == Op::Block && ops[n + 2] == Op::Block
                && ops[n + 3] == Op::Block
            &&& ops[n + 4] == Op::Jump(header)
            &&& ops[n + 5] == Op::SwitchTo(header) && start_from(ops, header, 0) == Some(n + 5)
            &&& ops[p + 1] == Op::SwitchTo(into) && start_from(ops, into, 0) == Some(p + 1)
            &&& ops[r] == Op::SwitchTo(again) && start_from(ops, again, 0) == Some(r)
            &&& ops[w + 1] == Op::SwitchTo(exit) && start_from(ops, exit, 0) == Some(w + 1)
            &&& !s7.f.terminated ==> r == q + 1 && ops[q] == Op::Jump(again)
            &&& ops[w] == Op::Jump(header)
            &&& ops[p] == s6.f.ops[p]
            &&& begins(ops, s0)
            &&& begins(ops, for_head(s0))
            &&& begins(ops, s6)
            &&& begins(ops, s7)
            &&& begins(ops, s8)
            &&& for_head(s0).f.ops.len() == n + 6
            &&& for_inner(s0, s6).f.ops.len() == p + 2
        }),
{
    let end = code(env, st, s)->Ok_0;
    assert(end.f.ops.len() <= usize::MAX);
    lemma_for_code(env, st, s, locals);
    lemma_for_grows(env, st, s, locals);
    lemma_for_parts(env, st, s);
    let (s0, s6, s7, s8) = for_parts(env, st, s);
    let head = for_head(s0);
    let inner = for_inner(s0, s6);
    let back = for_step_head(s0, s7);
    lemma_heads(s0, 0);
    lemma_begins(ops, end, s8);
    lemma_begins(ops, s8, back);
    lemma_begins(ops, back, s7);
    lemma_begins(ops, s7, inner);
    lemma_begins(ops, inner, s6);
    lemma_begins(ops, s6, head);
    lemma_begins(ops, head, s0);
    let n = s0.f.ops.len() as int;
    let p = s6.f.ops.len() - 1;
    let q = s7.f.ops.len() as int;
    let r = back.f.ops.len() - 1;
    let w = s8.f.ops.len() as int;
    assert(ops[n] == head.f.ops[n] && ops[n + 1] == head.f.ops[n + 1] && ops[n + 2]
        == head.f.ops[n + 2] && ops[n + 3] == head.f.ops[n + 3] && ops[n + 4] == head.f.ops[n + 4]
        && ops[n + 5] == head.f.ops[n + 5]);
    assert(ops[p + 1] == inner.f.ops[p + 1]);
    assert(ops[r] == back.f.ops[r]);
    assert(!s7.f.terminated ==> ops[q] == back.f.ops[q]);
    assert(ops[w] == end.f.ops[w] && ops[w + 1] == end.f.ops[w + 1]);
    assert(!(ops[p] is SwitchTo)) by {
        assert(ops[p] == s6.f.ops[p]);
    }
    assert forall|i: int| n + 6 <= i < p implies (match #[trigger] ops[i] {
        Op::SwitchTo(b) => b >= n + 6,
        _ => true,
    }) by {
        assert(ops[i] == s6.f.ops[i]);
    }
    assert forall|i: int| p + 2 <= i < q implies (match #[trigger] ops[i] {
        Op::SwitchTo(b) => b >= p + 2,
        _ => true,
    }) by {
        assert(ops[i] == s7.f.ops[i]);
    }
    assert forall|i: int| r < i < w implies (match #[trigger] ops[i] {
        Op::SwitchTo(b) => b > r,
        _ => true,
    }) by {
        assert(ops[i] == s8.f.ops[i]);
    }
    lemma_start(ops, n as usize, n + 5);
    lemma_start(ops, (n + 1) as usize, p + 1);
    lemma_start(ops, (n + 2) as usize, r);
    lemma_start(ops, (n + 3) as usize, w + 1);
}

/// The test of a `for` loop: into the body, or out of the loop.
proof fn lemma_for_test(
    ops: Seq<Op>,
    m: Machine,
    env: LowEnv,
    st: LowView,
    s: StmtView,
    locals: Names,
    vars: Vars,
    fuel: nat,
) -> (m2: Machine)
    requires
        s is For,
        scalar_stmt(s, locals),
        suits(locals, env),
        code(env, st, s) is Ok,
        begins(ops, code(env, st, s)->Ok_0),
        runnable(ops),
        !st.f.terminated,
        holds(m, vars, locals),
        m.at == for_head(for_parts(env, st, s).0).f.ops.len(),
    ensures
        ({
            let (s0, s6, s7, s8) = for_parts(env, st, s);
            let goes = match s->For_cond {
                None => Eval::Value(1, vars.world),
                Some(c) => eval(c, vars),
            };
            match goes {
                Eval::Unfinished => true,
                Eval::Nothing(_) => false,
                Eval::Panic(rt, line, w) => leads(ops, m, End::Panic(rt, line, w)),
                Eval::Value(x, w) => {
                    &&& leads(ops, m, End::At(m2))
                    &&& holds(m2, vars.at(w), locals)
                    &&& m2.at == (if x == 0 {
                        s8.f.ops.len() as int + 2
                    } else {
                        s6.f.ops.len() as int + 1
                    })
                },
            }
        }),
{
    lemma_for_parts(env, st, s);
    lemma_for_places(ops, env, st, s, locals);
    let (s0, s6, s7, s8) = for_parts(env, st, s);
    let p = s6.f.ops.len() - 1;
    let w = s8.f.ops.len() as int;
    let head = for_head(s0);
    match s->For_cond {
        None => {
            assert(ops[p] == Op::Jump(for_body(s0)));
            assert(p == m.at);
            lemma_jump(ops, m, for_body(s0), p + 1);
            let m2 = Machine { at: p + 2, ..m };
            assert(holds(m2, vars, locals));
            assert(vars.at(vars.world) == vars);
            m2
        },
        Some(c) => {
            let (s1, v) = value(env, head, c)->Ok_0;
            assert(s6.f.ops[p] == Op::Brif(v, for_body(s0), for_exit(s0)));
            lemma_begins(ops, s6, s1);
            let m1 = lemma_value(ops, m, env, head, c, locals, vars);
            match eval(c, vars) {
                Eval::Value(x, w1) => {
                    lemma_decides(x);
                    let j = if x == 0 {
                        w + 1
                    } else {
                        p + 1
                    };
                    let m2 = Machine { at: j + 1, ..m1 };
                    lemma_branch(ops, m1, v, for_body(s0), for_exit(s0), j);
                    lemma_leads_on(ops, m, m1, End::At(m2));
                    assert(holds(m2, vars.at(w1), locals));
                    m2
                },
                _ => m,
            }
        },
    }
}

/// The turns of a `for` loop.
#[verifier::rlimit(40)]
proof fn lemma_for_done(
    ops: Seq<Op>,
    m: Machine,
    env: LowEnv,
    st: LowView,
    s: StmtView,
    locals: Names,
    vars: Vars,
    fuel: nat,
)
    requires
        s is For,
        scalar_stmt(s, locals),
        suits(locals, env),
        code(env, st, s) is Ok,
        begins(ops, code(env, st, s)->Ok_0),
        runnable(ops),
        !st.f.terminated,
        holds(m, vars, locals),
        m.at == for_head(for_parts(env, st, s).0).f.ops.len(),
    ensures
        performs(ops, m, st, code(env, st, s)->Ok_0, locals, exec_loop(s, vars, fuel)),
    decreases fuel, s, 2int,
{
    lemma_for_grows(env, st, s, locals);
    lemma_for_parts(env, st, s);
    lemma_for_places(ops, env, st, s, locals);
    let (s0, s6, s7, s8) = for_parts(env, st, s);
    let end = code(env, st, s)->Ok_0;
    let inner = for_inner(s0, s6);
    let q = s7.f.ops.len() as int;
    let w = s8.f.ops.len() as int;
    let body = s->For_body;
    if fuel > 0 {
        let m2 = lemma_for_test(ops, m, env, st, s, locals, vars, fuel);
        let goes = match s->For_cond {
            None => Eval::Value(1, vars.world),
            Some(c) => eval(c, vars),
        };
        if let Eval::Value(x, w1) = goes {
            let vars = vars.at(w1);
            if x != 0 {
                assert(inner.f.loops.last() == (for_exit(s0), for_step(s0)));
                lemma_stmts_done(ops, m2, env, inner, body.stmts, 0, locals, vars, fuel);
                match exec_stmts(body.stmts, 0, vars, fuel) {
                    Exec::Break(v) => {
                        let m3 = choose|m3: Machine| #[trigger]
                            leads(ops, m2, End::At(m3)) && at_jump(ops, m3, for_exit(s0))
                                && holds(m3, v, locals);
                        lemma_jump(ops, m3, for_exit(s0), w + 1);
                        let m4 = Machine { at: w + 2, ..m3 };
                        lemma_leads_on(ops, m, m2, End::At(m3));
                        lemma_leads_on(ops, m, m3, End::At(m4));
                        assert(holds(m4, v, locals));
                    },
                    Exec::Next(v) => {
                        let m3 = choose|m3: Machine| #[trigger]
                            leads(ops, m2, End::At(m3)) && m3.at == q && holds(m3, v, locals);
                        assert(at_jump(ops, m3, for_step(s0)));
                        lemma_leads_on(ops, m, m2, End::At(m3));
                        lemma_for_again(ops, m, m3, env, st, s, locals, v, fuel);
                    },
                    Exec::Continue(v) => {
                        let m3 = choose|m3: Machine| #[trigger]
                            leads(ops, m2, End::At(m3)) && at_jump(ops, m3, for_step(s0))
                                && holds(m3, v, locals);
                        lemma_leads_on(ops, m, m2, End::At(m3));
                        lemma_for_again(ops, m, m3, env, st, s, locals, v, fuel);
                    },
                    Exec::Panic(rt, line, w) => {
                        lemma_leads_on(ops, m, m2, End::Panic(rt, line, w));
                    },
                    Exec::Return(v, w) => {
                        lemma_leads_on(ops, m, m2, End::Return(returned(v), w));
                    },
                    Exec::Unfinished => {},
                }
            }
        }
    }
}

/// The step, and on to the next turn.
#[verifier::rlimit(40)]
proof fn lemma_for_again(
    ops: Seq<Op>,
    m: Machine,
    m3: Machine,
    env: LowEnv,
    st: LowView,
    s: StmtView,
    locals: Names,
    vars: Vars,
    fuel: nat,
)
    requires
        s is For,
        fuel > 0,
        scalar_stmt(s, locals),
        suits(locals, env),
        code(env, st, s) is Ok,
        begins(ops, code(env, st, s)->Ok_0),
        runnable(ops),
        !st.f.terminated,
        leads(ops, m, End::At(m3)),
        at_jump(ops, m3, for_step(for_parts(env, st, s).0)),
        holds(m3, vars, locals),
    ensures
        performs(ops, m, st, code(env, st, s)->Ok_0, locals, exec_again(s, vars, fuel)),
    decreases fuel, s, 1int,
{
    lemma_for_grows(env, st, s, locals);
    lemma_for_parts(env, st, s);
    lemma_for_places(ops, env, st, s, locals);
    let (s0, s6, s7, s8) = for_parts(env, st, s);
    let end = code(env, st, s)->Ok_0;
    let back = for_step_head(s0, s7);
    let n = s0.f.ops.len() as int;
    let r = back.f.ops.len() - 1;
    let w = s8.f.ops.len() as int;
    let x = exec_again(s, vars, fuel);
    let m4 = Machine { at: r + 1, ..m3 };
    lemma_jump(ops, m3, for_step(s0), r);
    lemma_leads_on(ops, m, m3, End::At(m4));
    assert(holds(m4, vars, locals));
    match s->For_step {
        None => {
            lemma_for_turn(ops, m, m4, env, st, s, locals, vars, fuel);
        },
        Some(t) => {
            assert(back.f.loops =~= st.f.loops);
            lemma_stmt_done(ops, m4, env, back, *t, locals, vars, fuel);
            match exec_stmt(*t, vars, fuel) {
                Exec::Next(v) => {
                    let m5 = choose|m5: Machine| #[trigger]
                        leads(ops, m4, End::At(m5)) && m5.at == w && holds(m5, v, locals);
                    lemma_leads_on(ops, m, m4, End::At(m5));
                    lemma_for_turn(ops, m, m5, env, st, s, locals, v, fuel);
                },
                other => {
                    lemma_performs_away(ops, m4, back, s8, end, locals, other);
                    lemma_performs_on(ops, m, m4, st, back, end, locals, other);
                },
            }
        },
    }
}

/// Back to the test behind the step.
proof fn lemma_for_turn(
    ops: Seq<Op>,
    m: Machine,
    m5: Machine,
    env: LowEnv,
    st: LowView,
    s: StmtView,
    locals: Names,
    vars: Vars,
    fuel: nat,
)
    requires
        s is For,
        fuel > 0,
        scalar_stmt(s, locals),
        suits(locals, env),
        code(env, st, s) is Ok,
        begins(ops, code(env, st, s)->Ok_0),
        runnable(ops),
        !st.f.terminated,
        leads(ops, m, End::At(m5)),
        m5.at == for_parts(env, st, s).3.f.ops.len(),
        holds(m5, vars, locals),
    ensures
        performs(
            ops,
            m,
            st,
            code(env, st, s)->Ok_0,
            locals,
            exec_loop(s, vars, (fuel - 1) as nat),
        ),
    decreases fuel, s, 0int,
{
    lemma_for_places(ops, env, st, s, locals);
    let (s0, s6, s7, s8) = for_parts(env, st, s);
    let end = code(env, st, s)->Ok_0;
    let n = s0.f.ops.len() as int;
    let less = (fuel - 1) as nat;
    let m6 = Machine { at: n + 6, ..m5 };
    lemma_jump(ops, m5, next(s0), n + 5);
    lemma_leads_on(ops, m, m5, End::At(m6));
    assert(holds(m6, vars, locals));
    lemma_for_done(ops, m6, env, st, s, locals, vars, less);
    lemma_performs_on(ops, m, m6, st, st, end, locals, exec_loop(s, vars, less));
}

/// The beginning of a `for` loop, and then its turns.
#[verifier::rlimit(60)]
proof fn lemma_for_begin(
    ops: Seq<Op>,
    m: Machine,
    env: LowEnv,
    st: LowView,
    s: StmtView,
    locals: Names,
    vars: Vars,
    fuel: nat,
)
    requires
        s is For,
        scalar_stmt(s, locals),
        suits(locals, env),
        code(env, st, s) is Ok,
        begins(ops, code(env, st, s)->Ok_0),
        runnable(ops),
        !st.f.terminated,
        holds(m, vars, locals),
        ready(ops, m, st),
    ensures
        performs(ops, m, st, code(env, st, s)->Ok_0, locals, exec_stmt(s, vars, fuel)),
    decreases fuel, s, 3int,
{
    lemma_for_grows(env, st, s, locals);
    lemma_for_parts(env, st, s);
    lemma_for_places(ops, env, st, s, locals);
    let (s0, s6, s7, s8) = for_parts(env, st, s);
    let end = code(env, st, s)->Ok_0;
    let n = s0.f.ops.len() as int;
    let (begun, m0, v) = match s->For_init {
        None => {
            lemma_leads_here(ops, m);
            (true, m, vars)
        },
        Some(i) => {
            lemma_stmt_done(ops, m, env, st, *i, locals, vars, fuel);
            match exec_stmt(*i, vars, fuel) {
                Exec::Next(v) => {
                    let m0 = choose|m0: Machine| #[trigger]
                        leads(ops, m, End::At(m0)) && m0.at == n && holds(m0, v, locals);
                    (true, m0, v)
                },
                other => {
                    lemma_performs_away(ops, m, st, s0, end, locals, other);
                    (false, m, vars)
                },
            }
        },
    };
    if begun {
        lemma_blocks(ops, m0, 4);
        let m1 = Machine { at: n + 4, ..m0 };
        let m2 = Machine { at: n + 6, ..m0 };
        lemma_leads_on(ops, m, m0, End::At(m1));
        lemma_jump(ops, m1, next(s0), n + 5);
        lemma_leads_on(ops, m, m1, End::At(m2));
        assert(holds(m2, v, locals));
        lemma_for_done(ops, m2, env, st, s, locals, v, fuel);
        lemma_performs_on(ops, m, m2, st, st, end, locals, exec_loop(s, v, fuel));
    }
}

proof fn lemma_while_begin(
    ops: Seq<Op>,
    m: Machine,
    env: LowEnv,
    st: LowView,
    s: StmtView,
    locals: Names,
    vars: Vars,
    fuel: nat,
)
    requires
        s is While,
        scalar_stmt(s, locals),
        suits(locals, env),
        code(env, st, s) is Ok,
        begins(ops, code(env, st, s)->Ok_0),
        runnable(ops),
        !st.f.terminated,
        holds(m, vars, locals),
        ready(ops, m, st),
    ensures
        performs(ops, m, st, code(env, st, s)->Ok_0, locals, exec_stmt(s, vars, fuel)),
    decreases fuel, s, 2int,
{
    let end = code(env, st, s)->Ok_0;
    assert(end.f.ops.len() <= usize::MAX);
    lemma_while_code(env, st, s, locals);
    let (s5, c, s7) = while_parts(env, st, s);
    let head = while_head(st);
    lemma_heads(st, c);
    lemma_begins(ops, end, s7);
    lemma_begins(ops, s7, while_inner(st, s5, c));
    lemma_begins(ops, while_inner(st, s5, c), s5);
    lemma_begins(ops, s5, head);
    let n = st.f.ops.len() as int;
    assert(ops[n] == head.f.ops[n] && ops[n + 1] == head.f.ops[n + 1] && ops[n + 2]
        == head.f.ops[n + 2] && ops[n + 3] == head.f.ops[n + 3] && ops[n + 4]
        == head.f.ops[n + 4]);
    lemma_start(ops, next(st), n + 4);
    lemma_blocks(ops, m, 3);
    let m1 = Machine { at: n + 3, ..m };
    let m2 = Machine { at: n + 5, ..m };
    lemma_jump(ops, m1, next(st), n + 4);
    lemma_leads_on(ops, m, m1, End::At(m2));
    assert(holds(m2, vars, locals));
    lemma_while_done(ops, m2, env, st, s, locals, vars, fuel);
    lemma_performs_on(ops, m, m2, st, st, end, locals, exec_loop(s, vars, fuel));
}

proof fn lemma_stmt_done(
    ops: Seq<Op>,
    m: Machine,
    env: LowEnv,
    st: LowView,
    s: StmtView,
    locals: Names,
    vars: Vars,
    fuel: nat,
)
    requires
        scalar_stmt(s, locals),
        suits(locals, env),
        code(env, st, s) is Ok,
        begins(ops, code(env, st, s)->Ok_0),
        runnable(ops),
        !st.f.terminated,
        holds(m, vars, locals),
        ready(ops, m, st),
    ensures
        performs(ops, m, st, code(env, st, s)->Ok_0, locals, exec_stmt(s, vars, fuel)),
    decreases fuel, s, 4int,
{
    let end = code(env, st, s)->Ok_0;
    let n = st.f.ops.len() as int;
    let x = exec_stmt(s, vars, fuel);
    match s {
        StmtView::Let { init, local, .. } => {
            lemma_let(env, st, s);
            let (s1, v) = value(env, st, init)->Ok_0;
            lemma_value_grows(env, st, init, locals);
            lemma_begins(ops, end, s1);
            let m1 = lemma_value(ops, m, env, st, init, locals, vars);
            if let Eval::Value(y, w) = eval(init, vars) {
                lemma_def(ops, m1, s1, local, v, y, locals, vars.at(w));
                lemma_performs_on(ops, m, m1, st, s1, end, locals, x);
            }
        },
        StmtView::Assign { .. } => {
            lemma_assign_done(ops, m, env, st, s, locals, vars, fuel);
        },
        StmtView::Expr(e) => {
            lemma_effect_done(ops, m, env, st, e, locals, vars);
        },
        StmtView::If { .. } => {
            lemma_if_done(ops, m, env, st, s, locals, vars, fuel);
        },
        StmtView::While { .. } => {
            lemma_while_begin(ops, m, env, st, s, locals, vars, fuel);
        },
        StmtView::For { .. } => {
            lemma_for_begin(ops, m, env, st, s, locals, vars, fuel);
        },
        StmtView::Return { value, .. } => {
            lemma_return(env, st, s);
            match value {
                None => {
                    assert(ops[n] == end.f.ops[n]);
                    lemma_leads_step(ops, m, End::Return(None, m.world));
                },
                Some(e) => {
                    let (s1, v) = self::value(env, st, e)->Ok_0;
                    lemma_begins(ops, end, s1);
                    let m1 = lemma_value(ops, m, env, st, e, locals, vars);
                    if let Eval::Value(y, w) = eval(e, vars) {
                        let p = s1.f.ops.len() as int;
                        assert(ops[p] == end.f.ops[p]);
                        lemma_leads_step(ops, m1, End::Return(Some(word(y)), w));
                        lemma_leads_on(ops, m, m1, End::Return(Some(word(y)), w));
                    }
                },
            }
        },
        StmtView::Break(_) => {
            lemma_jumps(env, st, s);
            assert(ops[n] == end.f.ops[n]);
            lemma_leads_here(ops, m);
        },
        StmtView::Continue(_) => {
            lemma_jumps(env, st, s);
            assert(ops[n] == end.f.ops[n]);
            lemma_leads_here(ops, m);
        },
        StmtView::Block(b) => {
            lemma_nested(env, st, s);
            lemma_stmts_done(ops, m, env, st, b.stmts, 0, locals, vars, fuel);
        },
        StmtView::Match { .. } => {
            lemma_match_done(ops, m, env, st, s, locals, vars, fuel);
        },
    }
}

/// An expression as a statement.
proof fn lemma_effect_done(
    ops: Seq<Op>,
    m: Machine,
    env: LowEnv,
    st: LowView,
    e: ExprView,
    locals: Names,
    vars: Vars,
)
    requires
        scalar_stmt(StmtView::Expr(e), locals),
        suits(locals, env),
        code(env, st, StmtView::Expr(e)) is Ok,
        begins(ops, code(env, st, StmtView::Expr(e))->Ok_0),
        runnable(ops),
        !st.f.terminated,
        holds(m, vars, locals),
        ready(ops, m, st),
    ensures
        performs(ops, m, st, code(env, st, StmtView::Expr(e))->Ok_0, locals, effect(e, vars)),
{
    let end = code(env, st, StmtView::Expr(e))->Ok_0;
    if scalar_effect(e, locals) {
        lemma_effect(env, st, e, locals);
        lemma_effect_grows(env, st, e, locals);
        match e.kind {
            ExprKindView::Call { .. } => {
                lemma_procedure(ops, m, env, st, e, locals, vars);
            },
            ExprKindView::Builtin(b, args) => {
                if b is GcCollect {
                    reveal(runtime);
                    let n = st.f.ops.len() as int;
                    assert(ops[n] == end.f.ops[n] && ops[n + 1] == end.f.ops[n + 1] && ops[n + 2]
                        == end.f.ops[n + 2]);
                    let m1 = Machine { at: n + 1, vals: m.vals.insert(n, word(1)), ..m };
                    let m2 = Machine { at: n + 2, args: m.args.push(m1.vals[n]), ..m1 };
                    let m3 = Machine { at: n + 3, args: Seq::empty(), ..m2 };
                    assert(step(ops, m) == Some(End::At(m1)));
                    assert(step(ops, m1) == Some(End::At(m2)));
                    assert(step(ops, m2) == Some(End::At(m3)));
                    lemma_leads_step(ops, m2, End::At(m3));
                    lemma_step_then(ops, m1, m2, End::At(m3));
                    lemma_step_then(ops, m, m1, End::At(m3));
                    assert(holds(m3, vars, locals));
                } else {
                    lemma_builtin_done(ops, m, env, st, e, locals, vars);
                }
            },
            _ => {},
        }
    } else {
        lemma_expr_stmt(env, st, e, locals);
        lemma_value_grows(env, st, e, locals);
        let m1 = lemma_value(ops, m, env, st, e, locals, vars);
    }
}

proof fn lemma_builtin_done(
    ops: Seq<Op>,
    m: Machine,
    env: LowEnv,
    st: LowView,
    e: ExprView,
    locals: Names,
    vars: Vars,
)
    requires
        e.kind is Builtin,
        !(e.kind->Builtin_0 is GcCollect),
        scalar_effect(e, locals),
        suits(locals, env),
        effect_code(env, st, e) is Ok,
        begins(ops, effect_code(env, st, e)->Ok_0),
        runnable(ops),
        !st.f.terminated,
        holds(m, vars, locals),
        ready(ops, m, st),
    ensures
        performs(ops, m, st, effect_code(env, st, e)->Ok_0, locals, effect(e, vars)),
{
    let (b, args) = (e.kind->Builtin_0, e.kind->Builtin_1);
    let end = effect_code(env, st, e)->Ok_0;
    let (s1, v) = value(env, st, args[0])->Ok_0;
    lemma_effect_grows(env, st, e, locals);
    lemma_value_grows(env, st, args[0], locals);
    lemma_begins(ops, end, s1);
    let m1 = lemma_value(ops, m, env, st, args[0], locals, vars);
    if let Eval::Value(x, w) = eval(args[0], vars) {
        let p = s1.f.ops.len() as int;
        let after_it = effect(e, vars);
        assert(ops[p] == end.f.ops[p]);
        if b is Assert {
            lemma_decides(x);
            if x == 0 {
                lemma_leads_step(ops, m1, End::Panic(Rt::AssertFail, e.line, w));
                lemma_leads_on(ops, m, m1, End::Panic(Rt::AssertFail, e.line, w));
            } else {
                let m2 = Machine { at: p + 1, ..m1 };
                lemma_leads_step(ops, m1, End::At(m2));
                lemma_leads_on(ops, m, m1, End::At(m2));
                assert(holds(m2, vars.at(w), locals));
            }
        } else {
            let t = args[0].ty;
            lemma_printed(t, x);
            reveal(runtime);
            assert(ops[p + 1] == end.f.ops[p + 1]);
            let m2 = Machine { at: p + 1, args: m1.args.push(word(x)), ..m1 };
            assert(m2.args =~= seq![word(x)]);
            let w1 = w.print(shown(t, x));
            let m3 = Machine { at: p + 2, args: Seq::empty(), world: w1, ..m1 };
            assert(step(ops, m1) == Some(End::At(m2)));
            assert(step(ops, m2) == Some(End::At(m3)));
            lemma_leads_step(ops, m2, End::At(m3));
            lemma_step_then(ops, m1, m2, End::At(m3));
            lemma_leads_on(ops, m, m1, End::At(m3));
            assert(holds(m3, vars.at(w1), locals));
            if !(b is Print) {
                assert(ops[p + 2] == end.f.ops[p + 2]);
                let w2 = w1.print("\n"@);
                let m4 = Machine { at: p + 3, args: Seq::empty(), world: w2, ..m3 };
                assert(step(ops, m3) == Some(End::At(m4)));
                lemma_leads_step(ops, m3, End::At(m4));
                lemma_leads_on(ops, m, m3, End::At(m4));
                assert(holds(m4, vars.at(w2), locals));
            }
        }
    }
}

/// The call of a function that gives no value.
proof fn lemma_procedure(
    ops: Seq<Op>,
    m: Machine,
    env: LowEnv,
    st: LowView,
    e: ExprView,
    locals: Names,
    vars: Vars,
)
    requires
        e.kind is Call,
        scalar_effect(e, locals),
        suits(locals, env),
        effect_code(env, st, e) is Ok,
        begins(ops, effect_code(env, st, e)->Ok_0),
        runnable(ops),
        !st.f.terminated,
        holds(m, vars, locals),
        ready(ops, m, st),
    ensures
        performs(ops, m, st, effect_code(env, st, e)->Ok_0, locals, effect(e, vars)),
{
    let args = e.kind->Call_args;
    let f = e.kind->Call_direct->0;
    let end = effect_code(env, st, e)->Ok_0;
    let (s1, vs) = gen_list(env, st, args, 0, Seq::empty())->Ok_0;
    let s2 = put_args(s1, vs, 0);
    let n = st.f.ops.len() as int;
    lemma_list_grows(env, st, args, 0, Seq::empty(), locals);
    lemma_put_args_grows(s1, vs, 0);
    lemma_list_code(env, st, args, 0, Seq::empty(), locals);
    lemma_begins(ops, end, s2);
    lemma_begins(ops, s2, s1);
    lemma_args(ops, m, env, st, args, 0, Seq::empty(), locals, vars, Seq::empty());
    lemma_args_keep_types(args, 0, locals, vars, Seq::empty());
    match eval_args(args, 0, vars, Seq::empty()) {
        Err(ev) => {},
        Ok((xs, w)) => {
            let m1 = choose|m1: Machine| #[trigger]
                leads(ops, m, End::At(m1)) && m1.at == s1.f.ops.len() && m1.world == w && framed(
                    m1,
                    m,
                    n,
                ) && forall|k: int|
                    0 <= k < vs.len() ==> m1.vals[#[trigger] vs[k] as int] == word(xs[k]);
            lemma_hand_on(ops, m1, s1, vs, 0);
            let all = m1.args + Seq::new(vs.len(), |k: int| m1.vals[vs[k + 0] as int]);
            assert(all =~= words(xs));
            let m2 = Machine { at: s2.f.ops.len() as int, args: words(xs), ..m1 };
            assert(leads(ops, m1, End::At(m2)));
            lemma_leads_on(ops, m, m1, End::At(m2));
            let at = s2.f.ops.len() as int;
            assert(ops[at] == end.f.ops[at]);
            let ev = answer(vars.calls, f, xs, w);
            assert(answers((m.around.calls)(locals.ids[f as int]->0, words(xs), w), ev));
            assert(gives(ev, locals.sigs[f as int].ret));
            match ev {
                Eval::Panic(rt, line, w2) => {
                    lemma_leads_step(ops, m2, End::Panic(rt, line, w2));
                    lemma_leads_on(ops, m, m2, End::Panic(rt, line, w2));
                },
                Eval::Nothing(w2) => {
                    let m3 = Machine { at: at + 1, args: Seq::empty(), world: w2, ..m2 };
                    assert(step(ops, m2) == Some(End::At(m3)));
                    lemma_leads_step(ops, m2, End::At(m3));
                    lemma_leads_on(ops, m, m2, End::At(m3));
                    assert(holds(m3, vars.at(w2), locals));
                },
                _ => {},
            }
        },
    }
}

/// The arms from index `i` on, none before having taken the value.
#[verifier::rlimit(40)]
proof fn lemma_arms_done(
    ops: Seq<Op>,
    m: Machine,
    env: LowEnv,
    st: LowView,
    arms: Seq<(PatternView, BlockView)>,
    i: nat,
    ty: TypeView,
    key: usize,
    merge: usize,
    left: bool,
    line: u32,
    end: LowView,
    j: int,
    locals: Names,
    vars: Vars,
    x: u64,
    fuel: nat,
)
    requires
        i < arms.len(),
        scalar_arms(arms, locals),
        apart(stmt_patterns(arms)),
        forall|k: int| 0 <= k < arms.len() ==> !(#[trigger] stmt_patterns(arms)[k] is Variant),
        exists|k: int| i <= k < arms.len() && takes(#[trigger] stmt_patterns(arms)[k], x),
        suits(locals, env),
        arm_codes(env, st, arms, i, ty, key, merge, left, line) is Ok,
        begins(ops, arm_codes(env, st, arms, i, ty, key, merge, left, line)->Ok_0.0),
        runnable(ops),
        ready(ops, m, st),
        key < st.f.ops.len(),
        m.vals[key as int] == x,
        holds(m, vars, locals),
        0 <= j < ops.len(),
        ops[j] == Op::SwitchTo(merge),
        start_from(ops, merge, 0) == Some(j),
        !arm_codes(env, st, arms, i, ty, key, merge, left, line)->Ok_0.1 ==> !end.f.terminated
            && end.f.ops.len() == j + 1,
    ensures
        performs(ops, m, st, end, locals, exec_arms(arms, i, x, vars, fuel)),
    decreases fuel, arms, arms.len() - i,
{
    let p = arms[i as int].0;
    let b = arms[i as int].1;
    assert(stmt_patterns(arms)[i as int] == p);
    let all = arm_codes(env, st, arms, i, ty, key, merge, left, line)->Ok_0.0;
    assert(all.f.ops.len() <= usize::MAX);
    lemma_arm_codes(env, st, arms, i, ty, key, merge, left, line);
    lemma_arms_grow(env, st, arms, i, ty, key, merge, left, line, locals);
    lemma_arms_code(env, st, arms, i, ty, key, merge, left, line, locals);
    let start = arm_start(st, arms, i, key);
    let s3 = arm_body(env, st, arms, i, key);
    let last = i + 1 == arms.len();
    lemma_begins(ops, all, s3);
    lemma_begins(ops, s3, start);
    let q = s3.f.ops.len() as int;
    let nx = arm_next(env, st, arms, i, key, merge);
    let y = exec_arms(arms, i, x, vars, fuel);
    // Where the body starts, if this arm takes the value.
    let hit = takes(p, x);
    let m1 = if last {
        assert(hit) by {
            let k = choose|k: int| i <= k < arms.len() && takes(#[trigger] stmt_patterns(arms)[k], x);
            assert(k == i);
        }
        lemma_leads_here(ops, m);
        m
    } else {
        lemma_begins(ops, all, nx);
        let r = nx.f.ops.len() - 1;
        assert(ops[r] == nx.f.ops[r]);
        assert(nx.f.ops[r] == Op::SwitchTo(arm_other(st, key, p)));
        assert forall|k: int| st.f.ops.len() + 5 <= k < r implies #[trigger] ops[k]
            != Op::SwitchTo(arm_other(st, key, p)) by {
            assert(ops[k] == nx.f.ops[k]);
            if k < q {
                assert(nx.f.ops[k] == s3.f.ops[k]);
            }
        }
        lemma_arm_test(ops, m, st, key, p, x, r);
        choose|m2: Machine| #[trigger]
            leads(ops, m, End::At(m2)) && kept(m2, m, st.f.ops.len() as int) && m2.at == (if takes(
                p,
                x,
            ) {
                st.f.ops.len() as int + 5
            } else {
                r + 1
            })
    };
    assert(holds(m1, vars, locals));
    if hit {
        lemma_stmts_done(ops, m1, env, start, b.stmts, 0, locals, vars, fuel);
        if let Exec::Next(v) = y {
            let m2 = choose|m2: Machine| #[trigger]
                leads(ops, m1, End::At(m2)) && m2.at == q && holds(m2, v, locals);
            assert(ops[q] == Op::Jump(merge)) by {
                if last {
                    assert(ops[q] == all.f.ops[q]);
                } else {
                    assert(ops[q] == nx.f.ops[q]);
                }
            }
            lemma_left(env, st, arms, i, ty, key, merge, left, line);
            lemma_jump(ops, m2, merge, j);
            let m3 = Machine { at: j + 1, ..m2 };
            lemma_leads_on(ops, m1, m2, End::At(m3));
            assert(holds(m3, v, locals));
        } else {
            lemma_performs_away(ops, m1, start, s3, end, locals, y);
        }
        lemma_performs_on(ops, m, m1, st, start, end, locals, y);
    } else {
        assert(exists|k: int| i + 1 <= k < arms.len() && takes(#[trigger] stmt_patterns(arms)[k], x))
            by {
            let k = choose|k: int| i <= k < arms.len() && takes(#[trigger] stmt_patterns(arms)[k], x);
            assert(k != i);
        }
        lemma_arms_done(
            ops,
            m1,
            env,
            nx,
            arms,
            i + 1,
            ty,
            key,
            merge,
            left && s3.f.terminated,
            line,
            end,
            j,
            locals,
            vars,
            x,
            fuel,
        );
        lemma_performs_on(ops, m, m1, st, nx, end, locals, y);
    }
}

/// Where control does not leave an arm, it does not leave in all.
proof fn lemma_left(
    env: LowEnv,
    st: LowView,
    arms: Seq<(PatternView, BlockView)>,
    i: nat,
    ty: TypeView,
    key: usize,
    merge: usize,
    left: bool,
    line: u32,
)
    requires
        i < arms.len(),
        forall|k: int| 0 <= k < arms.len() ==> !(#[trigger] stmt_patterns(arms)[k] is Variant),
        arm_codes(env, st, arms, i, ty, key, merge, left, line) is Ok,
        !left || !arm_body(env, st, arms, i, key).f.terminated,
    ensures
        !arm_codes(env, st, arms, i, ty, key, merge, left, line)->Ok_0.1,
    decreases arms.len() - i,
{
    assert(stmt_patterns(arms)[i as int] == arms[i as int].0);
    lemma_arm_codes(env, st, arms, i, ty, key, merge, left, line);
    if i + 1 < arms.len() {
        let s3 = arm_body(env, st, arms, i, key);
        lemma_left(
            env,
            arm_next(env, st, arms, i, key, merge),
            arms,
            i + 1,
            ty,
            key,
            merge,
            left && s3.f.terminated,
            line,
        );
    }
}

/// The match: the first arm that takes the value, and only it, runs.
proof fn lemma_match_done(
    ops: Seq<Op>,
    m: Machine,
    env: LowEnv,
    st: LowView,
    s: StmtView,
    locals: Names,
    vars: Vars,
    fuel: nat,
)
    requires
        s is Match,
        scalar_stmt(s, locals),
        suits(locals, env),
        code(env, st, s) is Ok,
        begins(ops, code(env, st, s)->Ok_0),
        runnable(ops),
        !st.f.terminated,
        holds(m, vars, locals),
        ready(ops, m, st),
    ensures
        performs(ops, m, st, code(env, st, s)->Ok_0, locals, exec_stmt(s, vars, fuel)),
    decreases fuel, s, 2int,
{
    if let StmtView::Match { scrutinee, arms, line } = s {
        let end = code(env, st, s)->Ok_0;
        assert(end.f.ops.len() <= usize::MAX);
        lemma_scalar_type(scrutinee, locals);
        lemma_match_code(env, st, s, locals);
        lemma_match_parts(env, st, s);
        lemma_patterns(arms);
        let (s1, v, s3, left) = match_parts(env, st, s);
        let s2 = put(s1, Op::Block);
        let merge = next(s1);
        lemma_begins(ops, end, s3);
        lemma_begins(ops, s3, s2);
        lemma_begins(ops, s2, s1);
        let n = s1.f.ops.len() as int;
        let j = s3.f.ops.len() as int;
        assert(ops[n] == s2.f.ops[n]);
        assert(ops[j] == end.f.ops[j] && ops[j] == Op::SwitchTo(merge));
        assert forall|k: int| merge < k < j implies #[trigger] ops[k] != Op::SwitchTo(merge) by {
            assert(ops[k] == s3.f.ops[k]);
        }
        lemma_start(ops, merge, j);
        let m1 = lemma_value(ops, m, env, st, scrutinee, locals, vars);
        if let Eval::Value(a, w1) = eval(scrutinee, vars) {
            let whole = exec_stmt(s, vars, fuel);
            let vars = vars.at(w1);
            lemma_blocks(ops, m1, 1);
            let m2 = Machine { at: n + 1, ..m1 };
            lemma_leads_on(ops, m, m1, End::At(m2));
            assert(holds(m2, vars, locals));
            assert(fits_type(scrutinee.ty, a));
            let x = word(a);
            let k = choose|k: int|
                0 <= k < arms.len() && takes(#[trigger] stmt_patterns(arms)[k], x);
            lemma_arms_done(
                ops,
                m2,
                env,
                s2,
                arms,
                0,
                scrutinee.ty,
                v,
                merge,
                true,
                line,
                end,
                j,
                locals,
                vars,
                x,
                fuel,
            );
            lemma_performs_on(ops, m, m2, st, s2, end, locals, whole);
        }
    }
}

proof fn lemma_stmts_done(
    ops: Seq<Op>,
    m: Machine,
    env: LowEnv,
    st: LowView,
    ss: Seq<StmtView>,
    i: nat,
    locals: Names,
    vars: Vars,
    fuel: nat,
)
    requires
        scalar_stmts(ss, locals),
        suits(locals, env),
        codes(env, st, ss, i) is Ok,
        begins(ops, codes(env, st, ss, i)->Ok_0),
        runnable(ops),
        ready(ops, m, st),
        !st.f.terminated,
        holds(m, vars, locals),
    ensures
        performs(
            ops,
            m,
            st,
            codes(env, st, ss, i)->Ok_0,
            locals,
            exec_stmts(ss, i, vars, fuel),
        ),
    decreases fuel, ss, ss.len() - i,
{
    lemma_codes(env, st, ss, i);
    let end = codes(env, st, ss, i)->Ok_0;
    assert(end.f.ops.len() <= usize::MAX);
    if i >= ss.len() {
        lemma_leads_here(ops, m);
    } else {
        let s = ss[i as int];
        let s1 = code(env, st, s)->Ok_0;
        lemma_stmt_grows(env, st, s, locals);
        lemma_stmts_code(env, s1, ss, i + 1, locals);
        lemma_begins(ops, end, s1);
        lemma_stmt_done(ops, m, env, st, s, locals, vars, fuel);
        match exec_stmt(s, vars, fuel) {
            Exec::Next(v) => {
                let m1 = choose|m1: Machine| #[trigger]
                    leads(ops, m, End::At(m1)) && m1.at == s1.f.ops.len() && holds(m1, v, locals);
                lemma_stmts_done(ops, m1, env, s1, ss, i + 1, locals, v, fuel);
                lemma_performs_on(
                    ops,
                    m,
                    m1,
                    st,
                    s1,
                    end,
                    locals,
                    exec_stmts(ss, i + 1, v, fuel),
                );
            },
            other => {
                lemma_performs_away(ops, m, st, s1, end, locals, other);
            },
        }
    }
}

/// The code of a statement over integers and truth values does what the
/// statement does: it leaves the same variables and passes control to the same
/// place, or returns the same value, or panics with the same cause and line.
pub proof fn law_statement(
    ops: Seq<Op>,
    m: Machine,
    env: LowEnv,
    st: LowView,
    s: StmtView,
    locals: Names,
    vars: Vars,
    fuel: nat,
)
    requires
        scalar_stmt(s, locals),
        suits(locals, env),
        gen_stmt(env, st, s) is Ok,
        begins(ops, gen_stmt(env, st, s)->Ok_0),
        runnable(ops),
        ready(ops, m, st),
        !st.f.terminated,
        holds(m, vars, locals),
    ensures
        performs(ops, m, st, gen_stmt(env, st, s)->Ok_0, locals, exec_stmt(s, vars, fuel)),
{
    reveal(code);
    lemma_stmt_done(ops, m, env, st, s, locals, vars, fuel);
}

// -- Code for every statement -----------------------------------------------

pub open spec fn jumps_inside(ss: Seq<StmtView>, in_loop: bool) -> bool
    decreases ss, 1nat,
{
    forall|i: int| 0 <= i < ss.len() ==> jump_inside(#[trigger] ss[i], in_loop)
}

/// Does the statement break or continue only where a loop is around it?
pub open spec fn jump_inside(s: StmtView, in_loop: bool) -> bool
    decreases s, 0nat,
{
    match s {
        StmtView::If { then, els, .. } => jumps_inside(then.stmts, in_loop) && match els {
            Some(b) => jumps_inside(b.stmts, in_loop),
            None => true,
        },
        StmtView::While { body, .. } => jumps_inside(body.stmts, true),
        StmtView::For { body, .. } => jumps_inside(body.stmts, true),
        StmtView::Break(_) => in_loop,
        StmtView::Continue(_) => in_loop,
        StmtView::Block(b) => jumps_inside(b.stmts, in_loop),
        StmtView::Match { arms, .. } => arms_jump_inside(arms, in_loop),
        _ => true,
    }
}

pub open spec fn arms_jump_inside(arms: Seq<(PatternView, BlockView)>, in_loop: bool) -> bool
    decreases arms, 2nat,
{
    forall|i: int| 0 <= i < arms.len() ==> jumps_inside((#[trigger] arms[i]).1.stmts, in_loop)
}

proof fn lemma_has_value(env: LowEnv, st: LowView, e: ExprView, locals: Names)
    requires
        scalar_expr(e, locals),
        suits(locals, env),
    ensures
        value(env, st, e) is Ok,
{
    reveal(value);
    law_expression_has_code(env, st, e, locals);
}

/// Every statement over integers and truth values has code.
pub proof fn law_statement_has_code(env: LowEnv, st: LowView, s: StmtView, locals: Names)
    requires
        scalar_stmt(s, locals),
        suits(locals, env),
        jump_inside(s, st.f.loops.len() > 0),
    ensures
        gen_stmt(env, st, s) is Ok,
{
    reveal(code);
    lemma_has_code(env, st, s, locals);
}

proof fn lemma_has_code(env: LowEnv, st: LowView, s: StmtView, locals: Names)
    requires
        scalar_stmt(s, locals),
        suits(locals, env),
        jump_inside(s, st.f.loops.len() > 0),
    ensures
        code(env, st, s) is Ok,
    decreases s, 1int,
{
    match s {
        StmtView::Let { init, .. } => {
            lemma_has_value(env, st, init, locals);
            reveal(code);
            reveal(value);
        },
        StmtView::Assign { .. } => {
            lemma_assign_has_code(env, st, s, locals);
        },
        StmtView::Expr(e) => {
            if scalar_effect(e, locals) {
                lemma_effect(env, st, e, locals);
            } else {
                lemma_expr_stmt(env, st, e, locals);
            }
        },
        StmtView::If { .. } => {
            lemma_if_has_code(env, st, s, locals);
        },
        StmtView::While { .. } => {
            lemma_while_has_code(env, st, s, locals);
        },
        StmtView::For { .. } => {
            lemma_for_has_code(env, st, s, locals);
        },
        StmtView::Return { value, .. } => {
            if let Some(e) = value {
                lemma_has_value(env, st, e, locals);
            }
            reveal(code);
            reveal(self::value);
            assert(gen_stmt(env, st, s) == gen_return(env, st, value));
        },
        StmtView::Break(_) => {
            reveal(code);
        },
        StmtView::Continue(_) => {
            reveal(code);
        },
        StmtView::Block(b) => {
            lemma_nested(env, st, s);
            lemma_have_codes(env, st, b.stmts, 0, locals);
        },
        StmtView::Match { .. } => {
            lemma_match_has_code(env, st, s, locals);
        },
    }
}

proof fn lemma_match_has_code(env: LowEnv, st: LowView, s: StmtView, locals: Names)
    requires
        s is Match,
        scalar_stmt(s, locals),
        suits(locals, env),
        jump_inside(s, st.f.loops.len() > 0),
    ensures
        code(env, st, s) is Ok,
    decreases s, 0int,
{
    if let StmtView::Match { scrutinee, arms, line } = s {
        lemma_scalar_type(scrutinee, locals);
        lemma_has_value(env, st, scrutinee, locals);
        lemma_value_grows(env, st, scrutinee, locals);
        let (s1, v) = value(env, st, scrutinee)->Ok_0;
        lemma_patterns(arms);
        lemma_arms_have_code(
            env,
            put(s1, Op::Block),
            arms,
            0,
            scrutinee.ty,
            v,
            next(s1),
            true,
            line,
            locals,
        );
        reveal(code);
        reveal(value);
        reveal(arm_codes);
        assert(gen_stmt(env, st, s) == gen_stmt_match(env, st, s));
    }
}

proof fn lemma_arms_have_code(
    env: LowEnv,
    st: LowView,
    arms: Seq<(PatternView, BlockView)>,
    i: nat,
    ty: TypeView,
    key: usize,
    merge: usize,
    left: bool,
    line: u32,
    locals: Names,
)
    requires
        i < arms.len(),
        scalar_arms(arms, locals),
        apart(stmt_patterns(arms)),
        forall|k: int| 0 <= k < arms.len() ==> !(#[trigger] stmt_patterns(arms)[k] is Variant),
        suits(locals, env),
        arms_jump_inside(arms, st.f.loops.len() > 0),
    ensures
        arm_codes(env, st, arms, i, ty, key, merge, left, line) is Ok,
    decreases arms, arms.len() - i,
{
    let p = arms[i as int].0;
    let b = arms[i as int].1;
    assert(stmt_patterns(arms)[i as int] == p);
    let start = arm_start(st, arms, i, key);
    lemma_have_codes(env, start, b.stmts, 0, locals);
    lemma_stmts_grows(env, start, b.stmts, 0, locals);
    let s3 = arm_body(env, st, arms, i, key);
    if i + 1 < arms.len() {
        assert(stmt_patterns(arms)[i as int + 1] == arms[i as int + 1].0);
        assert(pattern_key(p) is Some);
        lemma_arms_have_code(
            env,
            arm_next(env, st, arms, i, key, merge),
            arms,
            i + 1,
            ty,
            key,
            merge,
            left && s3.f.terminated,
            line,
            locals,
        );
    }
    reveal(arm_codes);
    reveal(codes);
    reveal(test_arm);
    reveal(bind_pattern);
    assert(gen_block(env, start, b) == gen_stmts(env, start, b.stmts, 0));
    if i + 1 < arms.len() {
        assert(pattern_const(p) is Some);
        let (s1, other) = test_arm(st, key, pattern_const(p)->0);
        assert(with_terminated(s1, false) == start);
        assert(other == arm_other(st, key, p));
    }
}

/// So do statements one after the other.
pub proof fn law_statements_have_code(
    env: LowEnv,
    st: LowView,
    ss: Seq<StmtView>,
    locals: Names,
)
    requires
        scalar_stmts(ss, locals),
        suits(locals, env),
        jumps_inside(ss, st.f.loops.len() > 0),
    ensures
        gen_stmts(env, st, ss, 0) is Ok,
{
    reveal(codes);
    lemma_have_codes(env, st, ss, 0, locals);
}

proof fn lemma_have_codes(
    env: LowEnv,
    st: LowView,
    ss: Seq<StmtView>,
    i: nat,
    locals: Names,
)
    requires
        scalar_stmts(ss, locals),
        suits(locals, env),
        jumps_inside(ss, st.f.loops.len() > 0),
    ensures
        codes(env, st, ss, i) is Ok,
    decreases ss, ss.len() - i,
{
    lemma_codes(env, st, ss, i);
    if i < ss.len() && !st.f.terminated {
        lemma_has_code(env, st, ss[i as int], locals);
        lemma_stmt_grows(env, st, ss[i as int], locals);
        lemma_have_codes(env, code(env, st, ss[i as int])->Ok_0, ss, i + 1, locals);
    }
}

proof fn lemma_assign_has_code(env: LowEnv, st: LowView, s: StmtView, locals: Names)
    requires
        s is Assign,
        scalar_stmt(s, locals),
        suits(locals, env),
    ensures
        code(env, st, s) is Ok,
{
    let i = assigned_local(s);
    let e = s->Assign_value;
    lemma_has_value(env, st, e, locals);
    let s0 = put(st, Op::UseVar(i as usize));
    lemma_has_value(env, s0, e, locals);
    let (s1, r) = value(env, s0, e)->Ok_0;
    if let Some(op) = s->Assign_op {
        assert(arith(s1, op, s->Assign_target.ty, next(st), r, s->Assign_line) is Ok) by {
            reveal(arith);
            reveal(int_arith);
        }
    }
    reveal(code);
    reveal(value);
    assert(gen_stmt(env, st, s) == gen_assign_local(env, st, s, i));
}

proof fn lemma_if_has_code(env: LowEnv, st: LowView, s: StmtView, locals: Names)
    requires
        s is If,
        scalar_stmt(s, locals),
        suits(locals, env),
        jump_inside(s, st.f.loops.len() > 0),
    ensures
        code(env, st, s) is Ok,
    decreases s, 0int,
{
    if let StmtView::If { cond, then, els } = s {
        lemma_has_value(env, st, cond, locals);
        lemma_value_grows(env, st, cond, locals);
        let (s1, c) = value(env, st, cond)->Ok_0;
        let head = if_head(s1, c);
        lemma_have_codes(env, head, then.stmts, 0, locals);
        lemma_stmts_grows(env, head, then.stmts, 0, locals);
        let s6 = codes(env, head, then.stmts, 0)->Ok_0;
        let mid = if_middle(s6, s1);
        if let Some(b) = els {
            lemma_have_codes(env, mid, b.stmts, 0, locals);
        }
        reveal(code);
        reveal(codes);
        reveal(value);
        assert(gen_stmt(env, st, s) == gen_if_stmt(env, st, s));
        assert(gen_block(env, head, then) == gen_stmts(env, head, then.stmts, 0));
        if let Some(b) = els {
            assert(gen_block(env, mid, b) == gen_stmts(env, mid, b.stmts, 0));
        }
    }
}

proof fn lemma_while_has_code(env: LowEnv, st: LowView, s: StmtView, locals: Names)
    requires
        s is While,
        scalar_stmt(s, locals),
        suits(locals, env),
        jump_inside(s, st.f.loops.len() > 0),
    ensures
        code(env, st, s) is Ok,
    decreases s, 0int,
{
    if let StmtView::While { cond, body } = s {
        let head = while_head(st);
        lemma_has_value(env, head, cond, locals);
        let (s5, c) = value(env, head, cond)->Ok_0;
        let inner = while_inner(st, s5, c);
        lemma_have_codes(env, inner, body.stmts, 0, locals);
        reveal(code);
        reveal(codes);
        reveal(value);
        assert(gen_stmt(env, st, s) == gen_while(env, st, s));
        assert(gen_block(env, inner, body) == gen_stmts(env, inner, body.stmts, 0));
    }
}

proof fn lemma_for_has_code(env: LowEnv, st: LowView, s: StmtView, locals: Names)
    requires
        s is For,
        scalar_stmt(s, locals),
        suits(locals, env),
        jump_inside(s, st.f.loops.len() > 0),
    ensures
        code(env, st, s) is Ok,
    decreases s, 0int,
{
    if let StmtView::For { init, cond, step, body } = s {
        if let Some(i) = init {
            lemma_has_code(env, st, *i, locals);
        }
        let s0 = opt_code(env, st, init)->Ok_0;
        let head = for_head(s0);
        if let Some(c) = cond {
            lemma_has_value(env, head, c, locals);
        }
        let s6 = for_test(env, head, cond, for_body(s0), for_exit(s0))->Ok_0;
        let inner = for_inner(s0, s6);
        lemma_have_codes(env, inner, body.stmts, 0, locals);
        let s7 = codes(env, inner, body.stmts, 0)->Ok_0;
        let back = for_step_head(s0, s7);
        if let Some(t) = step {
            lemma_has_code(env, back, *t, locals);
        }
        reveal(code);
        reveal(codes);
        reveal(value);
        assert(gen_stmt(env, st, s) == gen_for(env, st, s));
        assert(gen_opt_stmt(env, st, init) == opt_code(env, st, init));
        assert(gen_for_cond(env, head, cond, for_body(s0), for_exit(s0)) == for_test(
            env,
            head,
            cond,
            for_body(s0),
            for_exit(s0),
        ));
        assert(gen_block(env, inner, body) == gen_stmts(env, inner, body.stmts, 0));
        assert(gen_opt_stmt(env, back, step) == opt_code(env, back, step));
    }
}

// -- Returning --------------------------------------------------------------

/// A body that returns on all paths, as the checker has it, never runs off its
/// end.
pub proof fn law_always_returns(
    ss: Seq<StmtView>,
    locals: Names,
    vars: Vars,
    fuel: nat,
)
    requires
        scalar_stmts(ss, locals),
        holds_values(vars, locals),
        any_returns(ss),
    ensures
        !(exec_stmts(ss, 0, vars, fuel) is Next),
    decreases ss, 1int, 0int,
{
    let k = choose|k: int| 0 <= k < ss.len() && stmt_returns(#[trigger] ss[k]);
    lemma_returns_from(ss, k, 0, locals, vars, fuel);
}

proof fn lemma_returns_from(
    ss: Seq<StmtView>,
    k: int,
    i: nat,
    locals: Names,
    vars: Vars,
    fuel: nat,
)
    requires
        scalar_stmts(ss, locals),
        holds_values(vars, locals),
        0 <= i <= k < ss.len(),
        stmt_returns(ss[k]),
    ensures
        !(exec_stmts(ss, i, vars, fuel) is Next),
    decreases ss, 0int, k - i,
{
    if i == k {
        lemma_stmt_returns(ss[k], locals, vars, fuel);
    } else {
        law_statement_keeps_types(ss[i as int], locals, vars, fuel);
        if let Exec::Next(v) = exec_stmt(ss[i as int], vars, fuel) {
            lemma_returns_from(ss, k, i + 1, locals, v, fuel);
        }
    }
}

proof fn lemma_stmt_returns(
    s: StmtView,
    locals: Names,
    vars: Vars,
    fuel: nat,
)
    requires
        scalar_stmt(s, locals),
        holds_values(vars, locals),
        stmt_returns(s),
    ensures
        !(exec_stmt(s, vars, fuel) is Next),
    decreases s, 0int, 0int,
{
    match s {
        StmtView::If { then, els, .. } => {
            if let Some(b) = els {
                assert(any_returns(then.stmts));
                assert(any_returns(b.stmts));
                if let Eval::Value(_, w) = eval(s->If_cond, vars) {
                    law_always_returns(then.stmts, locals, vars.at(w), fuel);
                    law_always_returns(b.stmts, locals, vars.at(w), fuel);
                }
            }
        },
        StmtView::Block(b) => {
            assert(any_returns(b.stmts));
            law_always_returns(b.stmts, locals, vars, fuel);
        },
        StmtView::Match { scrutinee, arms, .. } => {
            law_eval_keeps_types(scrutinee, locals, vars);
            if let Eval::Value(a, w) = eval(scrutinee, vars) {
                lemma_patterns(arms);
                let x = word(a);
                let k = choose|k: int|
                    0 <= k < arms.len() && takes(#[trigger] stmt_patterns(arms)[k], x);
                lemma_arms_return(arms, 0, k, locals, vars.at(w), x, fuel);
            }
        },
        _ => {},
    }
}

proof fn lemma_arms_return(
    arms: Seq<(PatternView, BlockView)>,
    i: nat,
    k: int,
    locals: Names,
    vars: Vars,
    x: u64,
    fuel: nat,
)
    requires
        scalar_arms(arms, locals),
        holds_values(vars, locals),
        all_arms_return(arms),
        i <= k < arms.len(),
        takes(arms[k].0, x),
    ensures
        !(exec_arms(arms, i, x, vars, fuel) is Next),
    decreases arms, 0int, k - i,
{
    if takes(arms[i as int].0, x) {
        assert(always_returns(arms[i as int].1));
        law_always_returns(arms[i as int].1.stmts, locals, vars, fuel);
    } else {
        lemma_arms_return(arms, i + 1, k, locals, vars, x, fuel);
    }
}

// -- Types ------------------------------------------------------------------

/// Are the variables that a statement leaves, and what it returns, values of
/// their types?
pub open spec fn leaves_values(x: Exec, locals: Names) -> bool {
    match x {
        Exec::Next(v) => holds_values(v, locals),
        Exec::Break(v) => holds_values(v, locals),
        Exec::Continue(v) => holds_values(v, locals),
        Exec::Return(v, w) => match v {
            Some(x) => fits_type(locals.ret, x),
            None => locals.ret is Unit,
        },
        _ => true,
    }
}

/// A statement leaves nothing but values of their types in the variables, and
/// returns nothing but values of the result's type.
pub proof fn law_statement_keeps_types(
    s: StmtView,
    locals: Names,
    vars: Vars,
    fuel: nat,
)
    requires
        scalar_stmt(s, locals),
        holds_values(vars, locals),
    ensures
        leaves_values(exec_stmt(s, vars, fuel), locals),
    decreases fuel, s, 3int,
{
    match s {
        StmtView::Let { init, .. } => law_eval_keeps_types(init, locals, vars),
        StmtView::Assign { target, op, value, .. } => {
            law_eval_keeps_types(value, locals, vars);
            if let Some(op) = op {
                let i = assigned_local(s);
                assert(is_scalar(locals[i as int]));
                if let Eval::Value(y, _) = eval(value, vars) {
                    law_operate_in_range(op, kind_of(target.ty), vars[i as int], y);
                }
            }
        },
        StmtView::Expr(_) => {},
        StmtView::If { cond, then, els } => {
            if let Eval::Value(_, w) = eval(cond, vars) {
                lemma_keep_types(then.stmts, 0, locals, vars.at(w), fuel);
                if let Some(b) = els {
                    lemma_keep_types(b.stmts, 0, locals, vars.at(w), fuel);
                }
            }
        },
        StmtView::While { .. } => lemma_loop_keeps_types(s, locals, vars, fuel),
        StmtView::For { init, .. } => match init {
            None => lemma_loop_keeps_types(s, locals, vars, fuel),
            Some(i) => {
                law_statement_keeps_types(*i, locals, vars, fuel);
                if let Exec::Next(v) = exec_stmt(*i, vars, fuel) {
                    lemma_loop_keeps_types(s, locals, v, fuel);
                }
            },
        },
        StmtView::Return { value, .. } => {
            if let Some(v) = value {
                law_eval_keeps_types(v, locals, vars);
            }
        },
        StmtView::Block(b) => lemma_keep_types(b.stmts, 0, locals, vars, fuel),
        StmtView::Match { scrutinee, arms, .. } => {
            law_eval_keeps_types(scrutinee, locals, vars);
            if let Eval::Value(a, w) = eval(scrutinee, vars) {
                lemma_patterns(arms);
                let x = word(a);
                let k = choose|k: int|
                    0 <= k < arms.len() && takes(#[trigger] stmt_patterns(arms)[k], x);
                lemma_arms_keep_types(arms, 0, k, locals, vars.at(w), x, fuel);
            }
        },
        _ => {},
    }
}

pub proof fn lemma_keep_types(
    ss: Seq<StmtView>,
    i: nat,
    locals: Names,
    vars: Vars,
    fuel: nat,
)
    requires
        scalar_stmts(ss, locals),
        holds_values(vars, locals),
    ensures
        leaves_values(exec_stmts(ss, i, vars, fuel), locals),
    decreases fuel, ss, ss.len() - i,
{
    if i < ss.len() {
        law_statement_keeps_types(ss[i as int], locals, vars, fuel);
        if let Exec::Next(v) = exec_stmt(ss[i as int], vars, fuel) {
            lemma_keep_types(ss, i + 1, locals, v, fuel);
        }
    }
}

proof fn lemma_arms_keep_types(
    arms: Seq<(PatternView, BlockView)>,
    i: nat,
    k: int,
    locals: Names,
    vars: Vars,
    x: u64,
    fuel: nat,
)
    requires
        scalar_arms(arms, locals),
        holds_values(vars, locals),
        i <= k < arms.len(),
        takes(arms[k].0, x),
    ensures
        leaves_values(exec_arms(arms, i, x, vars, fuel), locals),
    decreases fuel, arms, arms.len() - i,
{
    if takes(arms[i as int].0, x) {
        lemma_keep_types(arms[i as int].1.stmts, 0, locals, vars, fuel);
    } else {
        lemma_arms_keep_types(arms, i + 1, k, locals, vars, x, fuel);
    }
}

proof fn lemma_loop_keeps_types(
    s: StmtView,
    locals: Names,
    vars: Vars,
    fuel: nat,
)
    requires
        s is While || s is For,
        scalar_stmt(s, locals),
        holds_values(vars, locals),
    ensures
        leaves_values(exec_loop(s, vars, fuel), locals),
    decreases fuel, s, 2int,
{
    if fuel > 0 {
        let body = match s {
            StmtView::While { body, .. } => body,
            StmtView::For { body, .. } => body,
            _ => arbitrary(),
        };
        let goes = match loop_cond(s) {
            None => Eval::Value(1, vars.world),
            Some(c) => eval(c, vars),
        };
        if let Eval::Value(_, w) = goes {
            let vars = vars.at(w);
            lemma_keep_types(body.stmts, 0, locals, vars, fuel);
            match exec_stmts(body.stmts, 0, vars, fuel) {
                Exec::Next(v) => lemma_again_keeps_types(s, locals, v, fuel),
                Exec::Continue(v) => lemma_again_keeps_types(s, locals, v, fuel),
                _ => {},
            }
        }
    }
}

proof fn lemma_again_keeps_types(
    s: StmtView,
    locals: Names,
    vars: Vars,
    fuel: nat,
)
    requires
        s is While || s is For,
        scalar_stmt(s, locals),
        holds_values(vars, locals),
    ensures
        leaves_values(exec_again(s, vars, fuel), locals),
    decreases fuel, s, 1int,
{
    if fuel > 0 {
        let less = (fuel - 1) as nat;
        match s {
            StmtView::For { step, .. } => match step {
                None => lemma_loop_keeps_types(s, locals, vars, less),
                Some(t) => {
                    law_statement_keeps_types(*t, locals, vars, fuel);
                    if let Exec::Next(v) = exec_stmt(*t, vars, fuel) {
                        lemma_loop_keeps_types(s, locals, v, less);
                    }
                },
            },
            _ => lemma_loop_keeps_types(s, locals, vars, less),
        }
    }
}

// -- Turns ------------------------------------------------------------------

/// What a statement does does not depend on how many turns it may make, once
/// they suffice.
pub proof fn law_enough_turns(s: StmtView, vars: Vars, fuel: nat, more: nat)
    requires
        exec_stmt(s, vars, fuel) !is Unfinished,
        fuel <= more,
    ensures
        exec_stmt(s, vars, more) == exec_stmt(s, vars, fuel),
    decreases fuel, s, 3int,
{
    match s {
        StmtView::If { cond, then, els } => {
            if let Eval::Value(x, w) = eval(cond, vars) {
                if x != 0 {
                    lemma_enough(then.stmts, 0, vars.at(w), fuel, more);
                } else if let Some(b) = els {
                    lemma_enough(b.stmts, 0, vars.at(w), fuel, more);
                }
            }
        },
        StmtView::While { .. } => {
            lemma_enough_loop(s, vars, fuel, more);
        },
        StmtView::For { init, .. } => {
            match init {
                None => {
                    lemma_enough_loop(s, vars, fuel, more);
                },
                Some(i) => {
                    law_enough_turns(*i, vars, fuel, more);
                    if let Exec::Next(v) = exec_stmt(*i, vars, fuel) {
                        lemma_enough_loop(s, v, fuel, more);
                    }
                },
            }
        },
        StmtView::Block(b) => {
            lemma_enough(b.stmts, 0, vars, fuel, more);
        },
        StmtView::Match { scrutinee, arms, .. } => {
            if let Eval::Value(a, w) = eval(scrutinee, vars) {
                lemma_enough_arms(arms, 0, vars.at(w), word(a), fuel, more);
            }
        },
        _ => {},
    }
}

proof fn lemma_enough_arms(
    arms: Seq<(PatternView, BlockView)>,
    i: nat,
    vars: Vars,
    x: u64,
    fuel: nat,
    more: nat,
)
    requires
        exec_arms(arms, i, x, vars, fuel) !is Unfinished,
        fuel <= more,
    ensures
        exec_arms(arms, i, x, vars, more) == exec_arms(arms, i, x, vars, fuel),
    decreases fuel, arms, arms.len() - i,
{
    if i < arms.len() {
        if takes(arms[i as int].0, x) {
            lemma_enough(arms[i as int].1.stmts, 0, vars, fuel, more);
        } else {
            lemma_enough_arms(arms, i + 1, vars, x, fuel, more);
        }
    }
}

proof fn lemma_enough(ss: Seq<StmtView>, i: nat, vars: Vars, fuel: nat, more: nat)
    requires
        exec_stmts(ss, i, vars, fuel) !is Unfinished,
        fuel <= more,
    ensures
        exec_stmts(ss, i, vars, more) == exec_stmts(ss, i, vars, fuel),
    decreases fuel, ss, ss.len() - i,
{
    if i < ss.len() {
        law_enough_turns(ss[i as int], vars, fuel, more);
        if let Exec::Next(v) = exec_stmt(ss[i as int], vars, fuel) {
            lemma_enough(ss, i + 1, v, fuel, more);
        }
    }
}

proof fn lemma_enough_loop(s: StmtView, vars: Vars, fuel: nat, more: nat)
    requires
        s is While || s is For,
        exec_loop(s, vars, fuel) !is Unfinished,
        fuel <= more,
    ensures
        exec_loop(s, vars, more) == exec_loop(s, vars, fuel),
    decreases fuel, s, 2int,
{
    let goes = match loop_cond(s) {
        None => Eval::Value(1, vars.world),
        Some(c) => eval(c, vars),
    };
    if let Eval::Value(x, w) = goes {
        let vars = vars.at(w);
        if x != 0 {
            let body = match s {
                StmtView::While { body, .. } => body,
                StmtView::For { body, .. } => body,
                _ => arbitrary(),
            };
            lemma_enough(body.stmts, 0, vars, fuel, more);
            match exec_stmts(body.stmts, 0, vars, fuel) {
                Exec::Next(v) => lemma_enough_again(s, v, fuel, more),
                Exec::Continue(v) => lemma_enough_again(s, v, fuel, more),
                _ => {},
            }
        }
    }
}

proof fn lemma_enough_again(s: StmtView, vars: Vars, fuel: nat, more: nat)
    requires
        s is While || s is For,
        exec_again(s, vars, fuel) !is Unfinished,
        fuel <= more,
    ensures
        exec_again(s, vars, more) == exec_again(s, vars, fuel),
    decreases fuel, s, 1int,
{
    let (a, b) = ((fuel - 1) as nat, (more - 1) as nat);
    match s {
        StmtView::For { step, .. } => match step {
            None => lemma_enough_loop(s, vars, a, b),
            Some(t) => {
                law_enough_turns(*t, vars, fuel, more);
                if let Exec::Next(v) = exec_stmt(*t, vars, fuel) {
                    lemma_enough_loop(s, v, a, b);
                }
            },
        },
        _ => lemma_enough_loop(s, vars, a, b),
    }
}

// -- Functions --------------------------------------------------------------

/// The machine that begins a function: nothing has run, the arguments are
/// there, and the variables are zero.
pub open spec fn called(args: Seq<u64>, world: World, around: Around) -> Machine {
    Machine {
        at: 0,
        vals: Map::new(
            |i: int| true,
            |i: int|
                if -args.len() <= i < 0 {
                    args[-1 - i]
                } else {
                    0
                },
        ),
        vars: Map::new(|i: int| true, |i: int| 0u64),
        args: Seq::empty(),
        world,
        around,
    }
}

/// The variables that a function begins with.
pub open spec fn params(args: Seq<int>, world: World, calls: Calls) -> Vars {
    Vars {
        vals: Map::new(
            |i: int| true,
            |i: int|
                if 0 <= i < args.len() {
                    args[i]
                } else {
                    0
                },
        ),
        world,
        calls,
    }
}

/// Arguments of the parameters' types begin a function with values of its
/// locals' types.
pub proof fn lemma_params_fit(
    args: Seq<int>,
    world: World,
    calls: Calls,
    names: Names,
    ts: Seq<TypeView>,
)
    requires
        fit_all(ts, args),
        ts.len() <= names.len(),
        forall|i: int| 0 <= i < ts.len() ==> #[trigger] names.locals[i] == ts[i],
        typed(calls, names),
    ensures
        holds_values(params(args, world, calls), names),
{
    let vars = params(args, world, calls);
    assert forall|i: int| 0 <= i < names.len() && is_scalar(#[trigger] names[i]) implies fits_type(
        names[i],
        vars[i],
    ) by {
        if i < args.len() {
            assert(names.locals[i] == ts[i]);
            assert(fits_type(ts[i], args[i]));
        }
    }
}

pub proof fn lemma_home_grows(st: LowView, n: nat, i: nat)
    ensures
        same_ops(home_params(st, n, 0, i), st),
        same_flow(home_params(st, n, 0, i), st),
    decreases n - i,
{
    if i < n {
        let s1 = put(put(st, Op::Param(i as usize)), Op::DefVar(i as usize, next(st)));
        lemma_home_grows(s1, n, i + 1);
        let end = home_params(st, n, 0, i);
        assert forall|k: int| 0 <= k < st.f.ops.len() implies #[trigger] end.f.ops[k]
            == st.f.ops[k] by {
            assert(end.f.ops[k] == s1.f.ops[k]);
        }
    }
}

/// The parameters move into their variables.
proof fn lemma_home(ops: Seq<Op>, m: Machine, st: LowView, args: Seq<int>, i: nat) -> (r: Machine)
    requires
        begins(ops, home_params(st, args.len(), 0, i)),
        ops.len() <= usize::MAX,
        i <= args.len() <= usize::MAX,
        m.at == st.f.ops.len(),
        forall|k: int| 0 <= k < args.len() ==> m.vals[-1 - k] == word(#[trigger] args[k]),
        forall|k: int| #[trigger]
            m.vars[k] == (if 0 <= k < i {
                word(args[k])
            } else {
                0
            }),
    ensures
        leads(ops, m, End::At(r)),
        r.at == home_params(st, args.len(), 0, i).f.ops.len(),
        r.args == m.args,
        r.world == m.world,
        r.around == m.around,
        forall|k: int| #[trigger]
            r.vars[k] == (if 0 <= k < args.len() {
                word(args[k])
            } else {
                0
            }),
    decreases args.len() - i,
{
    if i < args.len() {
        let end = home_params(st, args.len(), 0, i);
        let n = st.f.ops.len() as int;
        let s1 = put(put(st, Op::Param(i as usize)), Op::DefVar(i as usize, next(st)));
        lemma_home_grows(s1, args.len(), i + 1);
        assert(ops[n] == end.f.ops[n] && end.f.ops[n] == s1.f.ops[n]);
        assert(ops[n + 1] == end.f.ops[n + 1] && end.f.ops[n + 1] == s1.f.ops[n + 1]);
        let x = word(args[i as int]);
        assert(m.vals[-1 - i as int] == x);
        let m1 = Machine { at: n + 1, vals: m.vals.insert(n, x), ..m };
        let m2 = Machine { at: n + 2, vars: m.vars.insert(i as int, x), ..m1 };
        assert(step(ops, m) == Some(End::At(m1)));
        assert(step(ops, m1) == Some(End::At(m2)));
        lemma_leads_step(ops, m1, End::At(m2));
        lemma_step_then(ops, m, m1, End::At(m2));
        assert forall|k: int| 0 <= k < args.len() implies m2.vals[-1 - k] == word(
            #[trigger] args[k],
        ) by {
            assert(m.vals[-1 - k] == word(args[k]));
        }
        let r = lemma_home(ops, m2, s1, args, i + 1);
        lemma_leads_on(ops, m, m2, End::At(r));
        r
    } else {
        lemma_leads_here(ops, m);
        m
    }
}

/// The guard passes as long as the stack pointer is not below the limit, and
/// panics when it is.
pub proof fn lemma_guard(ops: Seq<Op>, m: Machine, st: LowView, line: u32) -> (r: Machine)
    requires
        begins(ops, stack_guard(st, line)),
        ops.len() <= usize::MAX,
        m.at == st.f.ops.len(),
    ensures
        m.around.sp < STACK_LIMIT ==> leads(ops, m, End::Panic(Rt::PanicStack, line, m.world)),
        m.around.sp >= STACK_LIMIT ==> leads(ops, m, End::At(r)),
        r.at == stack_guard(st, line).f.ops.len(),
        r.vars == m.vars,
        r.args == m.args,
        r.world == m.world,
        r.around == m.around,
{
    reveal(stack_guard);
    let n = st.f.ops.len() as int;
    let end = stack_guard(st, line);
    let (sp, limit) = (m.around.sp, STACK_LIMIT);
    assert(ops[n] == end.f.ops[n] && ops[n + 1] == end.f.ops[n + 1] && ops[n + 2] == end.f.ops[n
        + 2] && ops[n + 3] == end.f.ops[n + 3] && ops[n + 4] == end.f.ops[n + 4]);
    let m1 = Machine { at: n + 1, vals: m.vals.insert(n, 0), ..m };
    let m2 = Machine { at: n + 2, vals: m1.vals.insert(n + 1, limit), ..m };
    let m3 = Machine { at: n + 3, vals: m2.vals.insert(n + 2, sp), ..m };
    let m4 = Machine { at: n + 4, vals: m3.vals.insert(n + 3, truth(sp < limit)), ..m };
    let m5 = Machine { at: n + 5, ..m4 };
    assert(step(ops, m) == Some(End::At(m1)));
    assert(step(ops, m1) == Some(End::At(m2)));
    assert(step(ops, m2) == Some(End::At(m3)));
    assert(step(ops, m3) == Some(End::At(m4)));
    let e = if sp < limit {
        End::Panic(Rt::PanicStack, line, m.world)
    } else {
        End::At(m5)
    };
    assert(step(ops, m4) == Some(e));
    lemma_leads_step(ops, m4, e);
    lemma_step_then(ops, m3, m4, e);
    lemma_step_then(ops, m2, m3, e);
    lemma_step_then(ops, m1, m2, e);
    lemma_step_then(ops, m, m1, e);
    m5
}

pub proof fn lemma_guard_grows(st: LowView, line: u32)
    ensures
        same_ops(stack_guard(st, line), st),
        same_flow(stack_guard(st, line), st),
{
    reveal(stack_guard);
}

/// The beginning of a function: the parameters move into their variables, and
/// the guard passes, if there is one.
proof fn lemma_prologue(
    ops: Seq<Op>,
    env: LowEnv,
    g: GenView,
    src: Source,
    args: Seq<int>,
    world: World,
    around: Around,
) -> (r: Machine)
    requires
        !env.lambda,
        begins(ops, prologue(env, g, src)),
        ops.len() <= usize::MAX,
        args.len() == src.nparams <= usize::MAX,
    ensures
        around.sp >= STACK_LIMIT || !calls_in_block(src.body) ==> leads(
            ops,
            called(words(args), world, around),
            End::At(r),
        ),
        around.sp < STACK_LIMIT && calls_in_block(src.body) ==> leads(
            ops,
            called(words(args), world, around),
            End::Panic(Rt::PanicStack, src.line, world),
        ),
        r.at == prologue(env, g, src).f.ops.len(),
        r.args.len() == 0,
        r.world == world,
        r.around == around,
        forall|k: int| #[trigger]
            r.vars[k] == (if 0 <= k < args.len() {
                word(args[k])
            } else {
                0
            }),
{
    reveal(prologue);
    let s0 = LowView { g, f: empty_fn() };
    let s1 = home_params(s0, args.len(), 0, 0);
    let m = called(words(args), world, around);
    assert forall|k: int| 0 <= k < args.len() implies m.vals[-1 - k] == word(#[trigger] args[k]) by {
        assert(words(args)[k] == word(args[k]));
    }
    if calls_in_block(src.body) {
        lemma_guard_grows(s1, src.line);
        lemma_begins(ops, prologue(env, g, src), s1);
        let m1 = lemma_home(ops, m, s0, args, 0);
        let m2 = lemma_guard(ops, m1, s1, src.line);
        if around.sp < STACK_LIMIT {
            lemma_leads_on(ops, m, m1, End::Panic(Rt::PanicStack, src.line, world));
        } else {
            lemma_leads_on(ops, m, m1, End::At(m2));
        }
        m2
    } else {
        lemma_home(ops, m, s0, args, 0)
    }
}

pub proof fn lemma_prologue_flow(env: LowEnv, g: GenView, src: Source)
    requires
        !env.lambda,
    ensures
        prologue(env, g, src).f.loops.len() == 0,
        !prologue(env, g, src).f.terminated,
        prologue(env, g, src).g == g,
{
    reveal(prologue);
    let s0 = LowView { g, f: empty_fn() };
    lemma_home_grows(s0, src.nparams, 0);
    lemma_guard_grows(home_params(s0, src.nparams, 0, 0), src.line);
}

/// The code of a function over integers and truth values joins the unit, and
/// nothing else does.
pub proof fn lemma_body_joins(env: LowEnv, g: GenView, src: Source, names: Names)
    requires
        !env.lambda,
        suits(names, env),
        scalar_stmts(src.body.stmts, names),
        compile_body(env, g, src) is Ok,
    ensures
        ({
            let g1 = compile_body(env, g, src)->Ok_0;
            &&& g1.bodies.len() == g.bodies.len() + 1
            &&& g1.bodies == g.bodies.push(g1.bodies.last())
            &&& g1.bodies.last().func == src.func
            &&& g1.funcs == g.funcs
            &&& g1.work == g.work
        }),
{
    reveal(compile_body);
    reveal(codes);
    let st = prologue(env, g, src);
    assert(gen_block(env, st, src.body) == codes(env, st, src.body.stmts, 0));
    lemma_prologue_flow(env, g, src);
    lemma_stmts_grows(env, st, src.body.stmts, 0, names);
}

/// A function that calls others panics first when the stack is exhausted.
pub proof fn law_stack_overflow_panics(
    env: LowEnv,
    g: GenView,
    src: Source,
    names: Names,
    args: Seq<int>,
    world: World,
    around: Around,
)
    requires
        !env.lambda,
        suits(names, env),
        scalar_stmts(src.body.stmts, names),
        calls_in_block(src.body),
        compile_body(env, g, src) is Ok,
        runnable(compile_body(env, g, src)->Ok_0.bodies.last().ops),
        args.len() == src.nparams <= usize::MAX,
        around.sp < STACK_LIMIT,
    ensures
        leads(
            compile_body(env, g, src)->Ok_0.bodies.last().ops,
            called(words(args), world, around),
            End::Panic(Rt::PanicStack, src.line, world),
        ),
{
    reveal(compile_body);
    reveal(codes);
    let ops = compile_body(env, g, src)->Ok_0.bodies.last().ops;
    let st = prologue(env, g, src);
    assert(gen_block(env, st, src.body) == codes(env, st, src.body.stmts, 0));
    let s = codes(env, st, src.body.stmts, 0)->Ok_0;
    let end = epilogue(s, src.ret);
    assert(same_ops(end, s));
    lemma_prologue_flow(env, g, src);
    lemma_stmts_grows(env, st, src.body.stmts, 0, names);
    lemma_stmts_code(env, st, src.body.stmts, 0, names);
    lemma_begins(ops, end, s);
    lemma_begins(ops, s, st);
    let _m = lemma_prologue(ops, env, g, src, args, world, around);
}

/// A compiled function over integers and truth values does what its body does:
/// called with arguments of its parameters' types, where calls come to what
/// they give in the language and the stack is not exhausted, it returns what
/// the body returns and panics as it does; and it is never left by a jump.
pub proof fn law_function(
    env: LowEnv,
    g: GenView,
    src: Source,
    names: Names,
    args: Seq<int>,
    world: World,
    around: Around,
    calls: Calls,
    fuel: nat,
)
    requires
        !env.lambda,
        names.locals == src.locals,
        suits(names, env),
        scalar_stmts(src.body.stmts, names),
        compile_body(env, g, src) is Ok,
        runnable(compile_body(env, g, src)->Ok_0.bodies.last().ops),
        args.len() == src.nparams <= usize::MAX,
        forall|i: int|
            0 <= i < args.len() && is_scalar(#[trigger] src.locals[i]) ==> fits_type(
                src.locals[i],
                args[i],
            ),
        around.sp >= STACK_LIMIT,
        typed(calls, names),
        agree(around.calls, calls, names),
    ensures
        ({
            let ops = compile_body(env, g, src)->Ok_0.bodies.last().ops;
            let m = called(words(args), world, around);
            match exec_stmts(src.body.stmts, 0, params(args, world, calls), fuel) {
                Exec::Return(v, w) => leads(ops, m, End::Return(returned(v), w)),
                Exec::Panic(rt, line, w) => leads(ops, m, End::Panic(rt, line, w)),
                Exec::Next(v) => src.ret is Unit ==> leads(ops, m, End::Return(None, v.world)),
                Exec::Unfinished => true,
                _ => false,
            }
        }),
{
    reveal(compile_body);
    reveal(codes);
    let ops = compile_body(env, g, src)->Ok_0.bodies.last().ops;
    let vars = params(args, world, calls);
    let st = prologue(env, g, src);
    assert(gen_block(env, st, src.body) == codes(env, st, src.body.stmts, 0));
    let s = codes(env, st, src.body.stmts, 0)->Ok_0;
    let end = epilogue(s, src.ret);
    assert(ops == end.f.ops);
    assert(same_ops(end, s));
    assert(begins(ops, end));
    lemma_prologue_flow(env, g, src);
    lemma_stmts_grows(env, st, src.body.stmts, 0, names);
    lemma_stmts_code(env, st, src.body.stmts, 0, names);
    lemma_begins(ops, end, s);
    lemma_begins(ops, s, st);
    let m = called(words(args), world, around);
    let m1 = lemma_prologue(ops, env, g, src, args, world, around);
    assert(holds(m1, vars, names)) by {
        assert forall|i: int| 0 <= i < names.len() && is_scalar(#[trigger] names[i]) implies
            m1.vars[i] == word(vars[i]) && fits_type(names[i], vars[i]) by {
            lemma_word(0);
        }
    }
    lemma_stmts_done(ops, m1, env, st, src.body.stmts, 0, names, vars, fuel);
    match exec_stmts(src.body.stmts, 0, vars, fuel) {
        Exec::Return(v, w) => lemma_leads_on(ops, m, m1, End::Return(returned(v), w)),
        Exec::Panic(rt, line, w) => lemma_leads_on(ops, m, m1, End::Panic(rt, line, w)),
        Exec::Next(v) => {
            if src.ret is Unit {
                let m2 = choose|m2: Machine| #[trigger]
                    leads(ops, m1, End::At(m2)) && m2.at == s.f.ops.len() && holds(m2, v, names);
                let n = s.f.ops.len() as int;
                assert(ops[n] == end.f.ops[n]);
                lemma_leads_step(ops, m2, End::Return(None, v.world));
                lemma_leads_on(ops, m1, m2, End::Return(None, v.world));
                lemma_leads_on(ops, m, m1, End::Return(None, v.world));
            }
        },
        _ => {},
    }
}

/// A machine comes to one end: once it has returned or panicked, there is no
/// other.
pub proof fn law_one_end(ops: Seq<Op>, m: Machine, a: End, b: End)
    requires
        !(a is At),
        !(b is At),
        leads(ops, m, a),
        leads(ops, m, b),
    ensures
        a == b,
{
    let n = choose|n: nat| #[trigger] run(ops, m, n) == Some(a);
    let k = choose|k: nat| #[trigger] run(ops, m, k) == Some(b);
    if n <= k {
        lemma_stays_ended(ops, m, n, k, a);
    } else {
        lemma_stays_ended(ops, m, k, n, b);
    }
}

proof fn lemma_stays_ended(ops: Seq<Op>, m: Machine, n: nat, k: nat, e: End)
    requires
        n <= k,
        !(e is At),
        run(ops, m, n) == Some(e),
    ensures
        run(ops, m, k) == Some(e),
    decreases n,
{
    if let Some(End::At(m1)) = step(ops, m) {
        lemma_stays_ended(ops, m1, (n - 1) as nat, (k - 1) as nat, e);
    }
}

} // verus!
