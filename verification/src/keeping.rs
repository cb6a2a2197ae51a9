//! What checking leaves as it was: whether a loop is around, the contexts
//! around, and the variables in scope; locals, captures and lambdas are only
//! added, and names go on referring to what has their types.
use vstd::prelude::*;

use crate::ast::{
    BlockView, Builtin, CaptureView, ExprKindView, ExprView, LambdaDefView, PatArgsView,
    PatternView, StmtView, TypeExprView, UnOp, VarRes,
};
use crate::rules::{
    call_seed, captures_of, check_against, check_args, check_args_from, check_array, check_assign,
    check_binary, check_block, check_builtin, check_builtin_method, check_call, check_call_sig,
    check_cast, check_cond, check_elems, check_expr, check_expr_arms, check_field, check_for,
    check_if, check_if_stmt, check_index, check_inits, check_lambda, check_let, check_match,
    check_member_call, check_name_call, check_opt_cond, check_opt_stmt, check_return, check_stmt,
    check_stmt_arms, check_stmt_match, check_stmts, check_struct_lit, check_target, check_type_call,
    check_unary, check_variant_call, check_variant_fields, check_while, direct_call, enter_lambda,
    enum_seed, exit_lambda, field_after_obj, has_variant, indirect_call, infer_args_from,
    infer_call, int_t, is_literal, key_of, left_expected, match_value, names_type, right_expected,
    struct_seed, typed, value_of, with_loop,
};
use crate::text::{lemma_position_from, position};
use crate::types::{field_names, variant_names, TypeView, VariantPayloadView};
use crate::typing::{
    builtin_method, builtin_named, capture_names, check_patterns, declare, declare_binders,
    declare_fields, declare_params, expr_patterns, find_var, leave_scope, ln, none_seen, own_var,
    require_assignable, resolve_in, resolve_params, resolve_ret, resolve_type, resolve_var,
    stmt_patterns, subst_partial, BodyView, CtxView, EnvView, FuncSigView, MAX_LOCALS,
};

verus! {

/// Are the first elements of the longer list those of the shorter one?
pub open spec fn starts_with<T>(b: Seq<T>, a: Seq<T>) -> bool {
    a.len() <= b.len() && forall|i: int| 0 <= i < a.len() ==> #[trigger] b[i] == a[i]
}

/// Has a context captured what it had, and perhaps more?
pub open spec fn captures_more(b: CtxView, a: CtxView) -> bool {
    b.captures is Some == a.captures is Some && starts_with(captures_of(b), captures_of(a))
}

/// The same context, but for what it has captured since.
pub open spec fn same_context(b: CtxView, a: CtxView) -> bool {
    b.vars == a.vars && b.locals == a.locals && b.ret == a.ret && captures_more(b, a)
}

// -- Names and what they refer to -------------------------------------------

/// Is this a variable of the type, among these locals and captures?
pub open spec fn finds(
    locals: Seq<TypeView>,
    captures: Seq<CaptureView>,
    res: VarRes,
    ty: TypeView,
) -> bool {
    match res {
        VarRes::Local(i) => i < locals.len() && locals[i as int] == ty,
        VarRes::Captured(i) => i < captures.len() && captures[i as int].ty == ty,
        VarRes::Func(_) => false,
    }
}

/// Are the variables in scope locals of their types?
pub open spec fn sound_vars(c: CtxView) -> bool {
    &&& c.locals.len() <= MAX_LOCALS
    &&& forall|i: int|
        0 <= i < c.vars.len() ==> (#[trigger] c.vars[i]).1 < c.locals.len()
            && c.locals[c.vars[i].1 as int] == c.vars[i].2
}

/// Is what a context captured there, with its type, in the context around?
pub open spec fn sound_captures(c: CtxView, around: CtxView) -> bool {
    forall|k: int|
        0 <= k < captures_of(c).len() ==> finds(
            around.locals,
            captures_of(around),
            (#[trigger] captures_of(c)[k]).src,
            captures_of(c)[k].ty,
        )
}

pub open spec fn sound_contexts(cur: CtxView, outer: Seq<CtxView>) -> bool
    decreases outer.len(),
{
    &&& sound_vars(cur)
    &&& if outer.len() == 0 {
        captures_of(cur).len() == 0
    } else {
        sound_captures(cur, outer.last()) && sound_contexts(outer.last(), outer.drop_last())
    }
}

/// Do all names in scope refer to what has their types?
#[verifier::opaque]
pub open spec fn sound(st: BodyView) -> bool {
    sound_contexts(st.cur, st.outer) && st.lambda_locals.len() == st.lambda_sigs.len()
}

/// Do the numbers of captures and lambdas fit their indices?
#[verifier::opaque]
pub open spec fn small(st: BodyView) -> bool {
    &&& st.lambda_sigs.len() <= u32::MAX
    &&& captures_of(st.cur).len() <= u32::MAX
    &&& forall|i: int|
        0 <= i < st.outer.len() ==> captures_of(#[trigger] st.outer[i]).len() <= u32::MAX
}

/// Is what was there still there: the loop around, the contexts around, and the
/// variables and locals of this one?
#[verifier::opaque]
pub open spec fn keeps(b: BodyView, a: BodyView) -> bool {
    &&& b.in_loop == a.in_loop
    &&& b.outer.len() == a.outer.len()
    &&& forall|i: int| 0 <= i < a.outer.len() ==> same_context(#[trigger] b.outer[i], a.outer[i])
    &&& b.cur.ret == a.cur.ret
    &&& starts_with(b.cur.vars, a.cur.vars)
    &&& starts_with(b.cur.locals, a.cur.locals)
    &&& captures_more(b.cur, a.cur)
    &&& starts_with(b.lambda_sigs, a.lambda_sigs)
    &&& sound(a) && small(b) ==> sound(b) && starts_with(b.lambda_locals, a.lambda_locals)
}

proof fn lemma_small(b: BodyView, a: BodyView)
    requires
        small(b),
        b.outer.len() == a.outer.len(),
        forall|i: int| 0 <= i < a.outer.len() ==> same_context(#[trigger] b.outer[i], a.outer[i]),
        captures_more(b.cur, a.cur),
        starts_with(b.lambda_sigs, a.lambda_sigs),
    ensures
        small(a),
{
    reveal(small);
    assert forall|i: int| 0 <= i < a.outer.len() implies captures_of(#[trigger] a.outer[i]).len()
        <= u32::MAX by {
        assert(same_context(b.outer[i], a.outer[i]));
    }
}

/// Is what was there still there, in the same function or lambda, but for the
/// variables in scope?
#[verifier::opaque]
pub open spec fn reaches(b: BodyView, a: BodyView) -> bool {
    &&& b.outer.len() == a.outer.len()
    &&& forall|i: int| 0 <= i < a.outer.len() ==> same_context(#[trigger] b.outer[i], a.outer[i])
    &&& b.cur.ret == a.cur.ret
    &&& starts_with(b.cur.locals, a.cur.locals)
    &&& captures_more(b.cur, a.cur)
    &&& starts_with(b.lambda_sigs, a.lambda_sigs)
    &&& sound(a) && small(b) ==> sound(b) && starts_with(b.lambda_locals, a.lambda_locals)
}

/// What goes on to hold.
pub proof fn lemma_reached(b: BodyView, a: BodyView)
    requires
        reaches(b, a),
    ensures
        small(b) ==> small(a),
        sound(a) && small(b) ==> sound(b) && starts_with(b.lambda_locals, a.lambda_locals),
{
    reveal(reaches);
    if small(b) {
        lemma_small(b, a);
    }
}

proof fn lemma_reaches_on(a: BodyView, b: BodyView, c: BodyView)
    requires
        reaches(b, a),
        reaches(c, b),
    ensures
        reaches(c, a),
{
    reveal(reaches);
    assert forall|i: int| 0 <= i < a.outer.len() implies same_context(
        #[trigger] c.outer[i],
        a.outer[i],
    ) by {
        assert(same_context(b.outer[i], a.outer[i]) && same_context(c.outer[i], b.outer[i]));
        lemma_starts(captures_of(a.outer[i]), captures_of(b.outer[i]), captures_of(c.outer[i]));
    }
    lemma_starts(a.cur.locals, b.cur.locals, c.cur.locals);
    lemma_starts(captures_of(a.cur), captures_of(b.cur), captures_of(c.cur));
    lemma_starts(a.lambda_sigs, b.lambda_sigs, c.lambda_sigs);
    if sound(a) && small(c) {
        lemma_small(c, b);
        lemma_starts(a.lambda_locals, b.lambda_locals, c.lambda_locals);
    }
}

proof fn lemma_reaches_out(b: BodyView, mark: nat)
    ensures
        reaches(leave_scope(b, mark), b),
{
    reveal(reaches);
    let c = leave_scope(b, mark);
    assert(captures_of(c.cur) == captures_of(b.cur) && c.outer == b.outer);
    if sound(b) && small(c) {
        reveal(sound);
        assert forall|i: int| 0 <= i < c.cur.vars.len() implies (#[trigger] c.cur.vars[i]).1
            < c.cur.locals.len() && c.cur.locals[c.cur.vars[i].1 as int] == c.cur.vars[i].2 by {
            assert(c.cur.vars[i] == b.cur.vars[i]);
        }
        assert(sound_contexts(b.cur, b.outer));
        assert(sound_contexts(c.cur, c.outer));
    }
}

pub proof fn lemma_reaches()
    ensures
        forall|a: BodyView, b: BodyView| #[trigger] keeps(b, a) ==> reaches(b, a),
        forall|a: BodyView| #[trigger] reaches(a, a),
        forall|a: BodyView, b: BodyView, c: BodyView| #[trigger]
            reaches(c, b) && #[trigger] reaches(b, a) ==> reaches(c, a),
        forall|b: BodyView, mark: nat| reaches(#[trigger] leave_scope(b, mark), b),
        forall|b: BodyView, l: bool| reaches(#[trigger] with_loop(b, l), b),
{
    assert forall|a: BodyView, b: BodyView| #[trigger] keeps(b, a) implies reaches(b, a) by {
        reveal(keeps);
        reveal(reaches);
    }
    assert forall|a: BodyView| #[trigger] reaches(a, a) by {
        reveal(reaches);
    }
    assert forall|a: BodyView, b: BodyView, c: BodyView| #[trigger]
        reaches(c, b) && #[trigger] reaches(b, a) implies reaches(c, a) by {
        lemma_reaches_on(a, b, c);
    }
    assert forall|b: BodyView, mark: nat| reaches(#[trigger] leave_scope(b, mark), b) by {
        lemma_reaches_out(b, mark);
    }
    assert forall|b: BodyView, l: bool| reaches(#[trigger] with_loop(b, l), b) by {
        reveal(reaches);
        reveal(sound);
    }
}

/// What is kept by the first step and by the second is kept by both.
proof fn lemma_keeps_on(a: BodyView, b: BodyView, c: BodyView)
    requires
        keeps(b, a),
        keeps(c, b),
    ensures
        keeps(c, a),
{
    reveal(keeps);
    assert forall|i: int| 0 <= i < a.outer.len() implies same_context(
        #[trigger] c.outer[i],
        a.outer[i],
    ) by {
        assert(same_context(b.outer[i], a.outer[i]) && same_context(c.outer[i], b.outer[i]));
        lemma_starts(captures_of(a.outer[i]), captures_of(b.outer[i]), captures_of(c.outer[i]));
    }
    lemma_starts(a.cur.vars, b.cur.vars, c.cur.vars);
    lemma_starts(a.cur.locals, b.cur.locals, c.cur.locals);
    lemma_starts(captures_of(a.cur), captures_of(b.cur), captures_of(c.cur));
    lemma_starts(a.lambda_sigs, b.lambda_sigs, c.lambda_sigs);
    if sound(a) && small(c) {
        lemma_small(c, b);
        lemma_starts(a.lambda_locals, b.lambda_locals, c.lambda_locals);
    }
}

proof fn lemma_starts<T>(a: Seq<T>, b: Seq<T>, c: Seq<T>)
    requires
        starts_with(b, a),
        starts_with(c, b),
    ensures
        starts_with(c, a),
{
    assert forall|i: int| 0 <= i < a.len() implies #[trigger] c[i] == a[i] by {
        assert(b[i] == a[i]);
    }
}

/// A scope is left.
proof fn lemma_scope_left(a: BodyView, b: BodyView)
    requires
        keeps(b, a),
    ensures
        keeps(leave_scope(b, a.cur.vars.len()), a),
{
    reveal(keeps);
    let c = leave_scope(b, a.cur.vars.len());
    assert forall|i: int| 0 <= i < a.cur.vars.len() implies #[trigger] c.cur.vars[i]
        == a.cur.vars[i] by {
        assert(b.cur.vars[i] == a.cur.vars[i]);
    }
    if sound(a) && small(c) {
        assert(captures_of(c.cur) == captures_of(b.cur) && c.outer == b.outer);
        assert(small(b)) by {
            reveal(small);
            assert forall|i: int| 0 <= i < b.outer.len() implies captures_of(
                #[trigger] b.outer[i],
            ).len() <= u32::MAX by {
                assert(c.outer[i] == b.outer[i]);
            }
        }
        reveal(sound);
        assert forall|i: int| 0 <= i < c.cur.vars.len() implies (#[trigger] c.cur.vars[i]).1
            < c.cur.locals.len() && c.cur.locals[c.cur.vars[i].1 as int] == c.cur.vars[i].2 by {
            assert(c.cur.vars[i] == b.cur.vars[i]);
        }
        assert(sound_contexts(b.cur, b.outer));
        assert(captures_of(c.cur) == captures_of(b.cur));
        assert(sound_contexts(c.cur, c.outer));
    }
}

/// A loop is left.
proof fn lemma_loop_left(a: BodyView, b: BodyView, l: bool)
    requires
        keeps(b, with_loop(a, true)),
        l == a.in_loop,
    ensures
        keeps(with_loop(b, l), a),
{
    reveal(keeps);
    let (c, d) = (with_loop(b, l), with_loop(a, true));
    assert forall|i: int| 0 <= i < a.outer.len() implies same_context(
        #[trigger] c.outer[i],
        a.outer[i],
    ) by {
        assert(same_context(b.outer[i], d.outer[i]));
    }
    reveal(small);
    reveal(sound);
}

pub proof fn lemma_keeps()
    ensures
        forall|a: BodyView| #[trigger] keeps(a, a),
        forall|a: BodyView, b: BodyView, c: BodyView| #[trigger]
            keeps(c, b) && #[trigger] keeps(b, a) ==> keeps(c, a),
        forall|a: BodyView, b: BodyView|
            keeps(b, a) ==> keeps(#[trigger] leave_scope(b, a.cur.vars.len()), a),
        forall|a: BodyView, b: BodyView, l: bool| #[trigger]
            keeps(b, with_loop(a, true)) && l == a.in_loop ==> keeps(#[trigger] with_loop(b, l), a),
        forall|a: BodyView, b: BodyView| #[trigger] keeps(b, a) ==> b.in_loop == a.in_loop,
{
    assert forall|a: BodyView| #[trigger] keeps(a, a) by {
        reveal(keeps);
    }
    assert forall|a: BodyView, b: BodyView, c: BodyView| #[trigger] keeps(c, b) && #[trigger] keeps(
        b,
        a,
    ) implies keeps(c, a) by {
        lemma_keeps_on(a, b, c);
    }
    assert forall|a: BodyView, b: BodyView| keeps(b, a) implies keeps(
        #[trigger] leave_scope(b, a.cur.vars.len()),
        a,
    ) by {
        lemma_scope_left(a, b);
    }
    assert forall|a: BodyView, b: BodyView, l: bool| #[trigger]
        keeps(b, with_loop(a, true)) && l == a.in_loop implies keeps(
        #[trigger] with_loop(b, l),
        a,
    ) by {
        lemma_loop_left(a, b, l);
    }
    assert forall|a: BodyView, b: BodyView| #[trigger] keeps(b, a) implies b.in_loop == a.in_loop by {
        reveal(keeps);
    }
}

// -- Names and declarations -------------------------------------------------

proof fn lemma_resolve_keeps(c: CtxView, outer: Seq<CtxView>, name: Seq<char>)
    ensures
        ({
            let (c1, outer1, _) = resolve_in(c, outer, name);
            &&& same_context(c1, c)
            &&& outer1.len() == outer.len()
            &&& forall|i: int|
                0 <= i < outer.len() ==> same_context(#[trigger] outer1[i], outer[i])
        }),
    decreases outer.len(),
{
    if outer.len() > 0 {
        lemma_resolve_keeps(outer.last(), outer.drop_last(), name);
        let (c1, outer1, _) = resolve_in(c, outer, name);
        let (oc, rest, _) = resolve_in(outer.last(), outer.drop_last(), name);
        assert forall|i: int| 0 <= i < outer.len() implies same_context(
            #[trigger] outer1[i],
            outer[i],
        ) by {
            if i < outer.len() - 1 {
                assert(same_context(rest[i], outer.drop_last()[i]));
            }
        }
    }
}

/// More locals and captures hold what the fewer held.
proof fn lemma_finds_more(b: CtxView, a: CtxView, res: VarRes, ty: TypeView)
    requires
        b.locals == a.locals,
        starts_with(captures_of(b), captures_of(a)),
        finds(a.locals, captures_of(a), res, ty),
    ensures
        finds(b.locals, captures_of(b), res, ty),
{
}

proof fn lemma_find_var(vars: Seq<(Seq<char>, u32, TypeView)>, name: Seq<char>, n: nat)
    ensures
        find_var(vars, name, n) matches Some(i) ==> i < n,
    decreases n,
{
    if n > 0 {
        lemma_find_var(vars, name, (n - 1) as nat);
    }
}

/// A name that is resolved refers to what has its type, and so do all others
/// afterwards.
proof fn lemma_resolve_sound(c: CtxView, outer: Seq<CtxView>, name: Seq<char>)
    requires
        sound_contexts(c, outer),
        ({
            let (c1, outer1, _) = resolve_in(c, outer, name);
            &&& captures_of(c1).len() <= u32::MAX
            &&& forall|i: int|
                0 <= i < outer1.len() ==> captures_of(#[trigger] outer1[i]).len() <= u32::MAX
        }),
    ensures
        ({
            let (c1, outer1, r) = resolve_in(c, outer, name);
            &&& sound_contexts(c1, outer1)
            &&& r matches Some((res, ty)) ==> finds(c1.locals, captures_of(c1), res, ty)
        }),
    decreases outer.len(),
{
    let (c1, outer1, r) = resolve_in(c, outer, name);
    if own_var(c, name) is Some {
        reveal(own_var);
        lemma_find_var(c.vars, name, c.vars.len());
        if find_var(c.vars, name, c.vars.len()) is None {
            lemma_position_from(capture_names(captures_of(c)), name, 0);
        }
    } else if c.captures is Some && outer.len() > 0 {
        let (oc, rest, r2) = resolve_in(outer.last(), outer.drop_last(), name);
        lemma_resolve_keeps(outer.last(), outer.drop_last(), name);
        assert(outer1 == rest.push(oc));
        assert(captures_of(outer1[rest.len() as int]).len() <= u32::MAX);
        assert forall|i: int| 0 <= i < rest.len() implies captures_of(#[trigger] rest[i]).len()
            <= u32::MAX by {
            assert(outer1[i] == rest[i]);
        }
        lemma_resolve_sound(outer.last(), outer.drop_last(), name);
        assert(outer1.drop_last() =~= rest);
        assert forall|k: int| 0 <= k < captures_of(c1).len() implies finds(
            oc.locals,
            captures_of(oc),
            (#[trigger] captures_of(c1)[k]).src,
            captures_of(c1)[k].ty,
        ) by {
            if k < captures_of(c).len() {
                assert(captures_of(c1)[k] == captures_of(c)[k]);
                lemma_finds_more(oc, outer.last(), captures_of(c)[k].src, captures_of(c)[k].ty);
            }
        }
    }
}

pub proof fn keep_resolve_var(st: BodyView, name: Seq<char>)
    ensures
        keeps(resolve_var(st, name).0, st),
        sound(st) && small(resolve_var(st, name).0) ==> (resolve_var(st, name).1 matches Some(
            (res, ty),
        ) ==> finds(st.cur.locals, captures_of(resolve_var(st, name).0.cur), res, ty)),
{
    reveal(resolve_var);
    reveal(keeps);
    lemma_resolve_keeps(st.cur, st.outer, name);
    if sound(st) && small(resolve_var(st, name).0) {
        reveal(sound);
        reveal(small);
        let st1 = resolve_var(st, name).0;
        let (c1, outer1, _) = resolve_in(st.cur, st.outer, name);
        assert(st1.cur == c1 && st1.outer == outer1);
        assert forall|i: int| 0 <= i < outer1.len() implies captures_of(#[trigger] outer1[i]).len()
            <= u32::MAX by {
            assert(st1.outer[i] == outer1[i]);
        }
        lemma_resolve_sound(st.cur, st.outer, name);
    }
}

pub proof fn keep_value_of(env: EnvView, st: BodyView, name: Seq<char>, line: u32)
    ensures
        value_of(env, st, name, line) matches Ok(r) ==> keeps(r.2, st),
{
    reveal(value_of);
    keep_resolve_var(st, name);
}

pub proof fn keep_names_type(env: EnvView, st: BodyView, e: ExprView)
    ensures
        keeps(names_type(env, st, e).1, st),
{
    reveal(names_type);
    lemma_keeps();
    if let ExprKindView::Var { name, .. } = e.kind {
        keep_resolve_var(st, name);
    }
}

pub proof fn keep_declare(st: BodyView, name: Seq<char>, ty: TypeView, line: u32)
    ensures
        declare(st, name, ty, line) matches Ok(r) ==> keeps(r.1, st),
{
    reveal(declare);
    reveal(keeps);
    if let Ok((_, st1)) = declare(st, name, ty, line) {
        if sound(st) && small(st1) {
            reveal(sound);
            assert forall|i: int| 0 <= i < st1.cur.vars.len() implies (#[trigger] st1.cur.vars[i]).1
                < st1.cur.locals.len() && st1.cur.locals[st1.cur.vars[i].1 as int]
                == st1.cur.vars[i].2 by {
                if i < st.cur.vars.len() {
                    assert(st1.cur.vars[i] == st.cur.vars[i]);
                }
            }
            assert(captures_of(st1.cur) == captures_of(st.cur));
            assert(sound_contexts(st1.cur, st1.outer));
        }
    }
}

pub proof fn lemma_fields_keep(
    st: BodyView,
    fs: Seq<(Seq<char>, crate::ast::PatBinderView, u32)>,
    line: u32,
    i: nat,
    acc: Seq<(Seq<char>, crate::ast::PatBinderView, u32)>,
)
    ensures
        declare_fields(st, fs, line, i, acc) matches Ok(r) ==> keeps(r.1, st),
    decreases fs.len() - i,
{
    lemma_keeps();
    if i < fs.len() {
        let (fname, b, index) = fs[i as int];
        keep_declare(st, b.name, b.ty, line);
        if let Ok((local, st1)) = declare(st, b.name, b.ty, line) {
            let more = acc.push((fname, crate::ast::PatBinderView { local, ..b }, index));
            lemma_fields_keep(st1, fs, line, i + 1, more);
        }
    }
}

pub proof fn keep_declare_binders(st: BodyView, p: PatternView)
    ensures
        declare_binders(st, p) matches Ok(r) ==> keeps(r.1, st),
{
    reveal(declare_binders);
    lemma_keeps();
    if let PatternView::Variant { args, line, .. } = p {
        match args {
            PatArgsView::Single(b) => keep_declare(st, b.name, b.ty, line),
            PatArgsView::Fields(fs) => lemma_fields_keep(st, fs, line, 0, Seq::empty()),
            PatArgsView::Bare => {},
        }
    }
}

pub proof fn lemma_params_keep(
    st: BodyView,
    ps: Seq<(Seq<char>, TypeExprView)>,
    tys: Seq<TypeView>,
    line: u32,
    i: nat,
)
    ensures
        declare_params(st, ps, tys, line, i) matches Ok(r) ==> keeps(r, st),
    decreases ps.len() - i,
{
    lemma_keeps();
    if i < ps.len() && i < tys.len() {
        keep_declare(st, ps[i as int].0, tys[i as int], line);
        if let Ok((_, st1)) = declare(st, ps[i as int].0, tys[i as int], line) {
            lemma_params_keep(st1, ps, tys, line, i + 1);
        }
    }
}

// -- The rules --------------------------------------------------------------

/// A lambda is checked in a context of its own, which is left again.
pub proof fn keep_check_lambda(env: EnvView, st: BodyView, lam: LambdaDefView, line: u32)
    ensures
        check_lambda(env, st, lam, line) matches Ok(r) ==> keeps(r.1, st),
    decreases lam, 10int,
{
    lemma_keeps();
    if let Ok(params) = resolve_params(env, lam.params, 0, Seq::empty()) {
        if let Ok(ret) = resolve_ret(env, lam.ret) {
            let id = st.lambda_sigs.len();
            let inside = enter_lambda(st, params, ret);
            lemma_params_keep(inside, lam.params, params, lam.line, 0);
            if let Ok(st1) = declare_params(inside, lam.params, params, lam.line, 0) {
                keep_check_block(env, st1, lam.body);
                if let Ok((_, st2)) = check_block(env, st1, lam.body) {
                    if captures_of(st2.cur).len() <= 63 {
                        lemma_lambda_left(st, st2, params, ret, id);
                    }
                }
            }
        }
    }
}

pub proof fn lemma_lambda_left(
    st: BodyView,
    st2: BodyView,
    params: Seq<TypeView>,
    ret: TypeView,
    id: nat,
)
    requires
        keeps(st2, enter_lambda(st, params, ret)),
        captures_of(st2.cur).len() <= 63,
        id == st.lambda_sigs.len(),
    ensures
        keeps(exit_lambda(st2, id, st.in_loop), st),
{
    reveal(keeps);
    reveal(enter_lambda);
    reveal(exit_lambda);
    let inside = enter_lambda(st, params, ret);
    assert(same_context(st2.outer[st.outer.len() as int], inside.outer[st.outer.len() as int]));
    let after = exit_lambda(st2, id, st.in_loop);
    assert forall|i: int| 0 <= i < st.outer.len() implies same_context(
        #[trigger] after.outer[i],
        st.outer[i],
    ) by {
        assert(same_context(st2.outer[i], inside.outer[i]));
    }
    assert forall|i: int| 0 <= i < st.lambda_sigs.len() implies #[trigger] after.lambda_sigs[i]
        == st.lambda_sigs[i] by {
        assert(st2.lambda_sigs[i] == inside.lambda_sigs[i]);
    }
    if sound(st) && small(after) {
        reveal(sound);
        assert(small(st2)) by {
            reveal(small);
            assert forall|i: int| 0 <= i < st2.outer.len() implies captures_of(
                #[trigger] st2.outer[i],
            ).len() <= u32::MAX by {
                if i < after.outer.len() {
                    assert(after.outer[i] == st2.outer[i]);
                }
            }
        }
        assert(inside.outer.drop_last() =~= st.outer);
        assert(sound_contexts(inside.cur, inside.outer));
        assert(sound(inside));
        assert(starts_with(st2.lambda_locals, inside.lambda_locals));
        assert forall|i: int| 0 <= i < st.lambda_locals.len() implies #[trigger]
            after.lambda_locals[i] == st.lambda_locals[i] by {
            assert(st2.lambda_locals[i] == inside.lambda_locals[i]);
        }
    }
}

pub proof fn keep_infer_call(
    env: EnvView,
    st: BodyView,
    what: Seq<char>,
    sig: FuncSigView,
    recv: Option<ExprView>,
    args: Seq<ExprView>,
    expected: Option<TypeView>,
    line: u32,
)
    ensures
        infer_call(env, st, what, sig, recv, args, expected, line) matches Ok(r) ==> keeps(r.2, st),
    decreases args, args.len() + 1,
{
    let seed = call_seed(sig.ret, expected, sig.type_params.len());
    match recv {
        None => keep_infer_args_from(env, st, sig.params, 0, args, 0, seed, Seq::empty()),
        Some(r) => {
            if let Ok(s) = match_value(env, sig.params[0], seed, r) {
                keep_infer_args_from(env, st, sig.params, 1, args, 0, s, seq![r]);
            }
        },
    }
}

pub proof fn keep_check_expr(
    env: EnvView,
    st: BodyView,
    e: ExprView,
    expected: Option<TypeView>,
)
    ensures
        check_expr(env, st, e, expected) matches Ok(r) ==> keeps(r.1, st),
    decreases e, 9int,
{
    lemma_keeps();
    let line = e.line;
    match e.kind {
        ExprKindView::Var { name, .. } => {
            keep_value_of(env, st, name, line);
        },
        ExprKindView::Unary(op, sub) => {
            keep_check_unary(env, st, op, *sub, line, expected);
        },
        ExprKindView::Binary(_, _, _) => {
            keep_check_binary(env, st, e, expected);
        },
        ExprKindView::If { .. } => {
            keep_check_if(env, st, e, expected);
        },
        ExprKindView::Call { .. } => {
            keep_check_call(env, st, e, expected);
        },
        ExprKindView::VariantStructLit { enum_name, variant, fields } => {
            if let Some(eid) = env.enum_id( enum_name, ) {
                keep_check_variant_fields( env, st, eid, enum_name, variant, fields, line, expected, );
            }
        },
        ExprKindView::Match { .. } => {
            keep_check_match(env, st, e, expected);
        },
        ExprKindView::Field { obj, name, index } => {
            keep_check_field( env, st, *obj, name, index, line, expected, );
        },
        ExprKindView::Index(_, _) => {
            keep_check_index(env, st, e);
        },
        ExprKindView::Cast(sub, te) => {
            keep_check_cast(env, st, *sub, te, line);
        },
        ExprKindView::ArrayLit(elems) => {
            keep_check_array(env, st, elems, line, expected);
        },
        ExprKindView::StructLit { name, fields, .. } => {
            keep_check_struct_lit( env, st, name, fields, line, expected, );
        },
        ExprKindView::Lambda(lam) => {
            keep_check_lambda(env, st, *lam, line);
        },
        _ => {},
    }
}

pub proof fn keep_check_unary(
    env: EnvView,
    st: BodyView,
    op: UnOp,
    sub: ExprView,
    line: u32,
    expected: Option<TypeView>,
)
    ensures
        check_unary(env, st, op, sub, line, expected) matches Ok(r) ==> keeps(r.1, st),
    decreases sub, 10int,
{
    lemma_keeps();
    if !(op is Neg && sub.kind is Int) {
        let want = if op is BitNot {
            expected
        } else {
            None
        };
        keep_check_expr(env, st, sub, want);
    }
}

pub proof fn keep_check_binary(
    env: EnvView,
    st: BodyView,
    e: ExprView,
    expected: Option<TypeView>,
)
    ensures
        check_binary(env, st, e, expected) matches Ok(r) ==> keeps(r.1, st),
    decreases e, 8int,
{
    lemma_keeps();
    let op = e.kind->Binary_0;
    let lhs = *e.kind->Binary_1;
    let rhs = *e.kind->Binary_2;
    if !(!(e.kind is Binary)) {
        keep_check_expr(env, st, lhs, left_expected(op, expected));
        if let Ok((l, st1)) = check_expr(env, st, lhs, left_expected(op, expected)) {
            keep_check_expr(env, st1, rhs, Some(right_expected(op, l.ty)));
        }
    }
}

pub proof fn keep_check_cond(
    env: EnvView,
    st: BodyView,
    cond: ExprView,
)
    ensures
        check_cond(env, st, cond) matches Ok(r) ==> keeps(r.1, st),
    decreases cond, 10int,
{
    lemma_keeps();
    keep_check_expr(env, st, cond, Some(TypeView::Bool));
}

pub proof fn keep_check_if(
    env: EnvView,
    st: BodyView,
    e: ExprView,
    expected: Option<TypeView>,
)
    ensures
        check_if(env, st, e, expected) matches Ok(r) ==> keeps(r.1, st),
    decreases e, 8int,
{
    lemma_keeps();
    let cond = *e.kind->If_cond;
    let then = *e.kind->If_then;
    let els = *e.kind->If_els;
    if !(!(e.kind is If)) {
        keep_check_cond(env, st, cond);
        if let Ok((c, st1)) = check_cond(env, st, cond) {
            keep_check_expr(env, st1, then, expected);
            if let Ok((t, st2)) = check_expr(env, st1, then, expected) {
                keep_check_expr(env, st2, els, Some(t.ty));
            }
        }
    }
}

pub proof fn keep_check_index(
    env: EnvView,
    st: BodyView,
    e: ExprView,
)
    ensures
        check_index(env, st, e) matches Ok(r) ==> keeps(r.1, st),
    decreases e, 8int,
{
    lemma_keeps();
    let obj = *e.kind->Index_0;
    let idx = *e.kind->Index_1;
    if !(!(e.kind is Index)) {
        keep_check_expr(env, st, obj, None);
        if let Ok((o, st1)) = check_expr(env, st, obj, None) {
            keep_check_expr(env, st1, idx, Some(int_t()));
        }
    }
}

pub proof fn keep_check_cast(
    env: EnvView,
    st: BodyView,
    sub: ExprView,
    te: TypeExprView,
    line: u32,
)
    ensures
        check_cast(env, st, sub, te, line) matches Ok(r) ==> keeps(r.1, st),
    decreases sub, 10int,
{
    lemma_keeps();
    if let Ok(target) = resolve_type(env, te) {
        if !(!(target is Int || target is Float)) {
            let want = if is_literal(sub) {
                Some(target)
            } else {
                None
            };
            keep_check_expr(env, st, sub, want);
        }
    }
}

pub proof fn keep_check_array(
    env: EnvView,
    st: BodyView,
    elems: Seq<ExprView>,
    line: u32,
    expected: Option<TypeView>,
)
    ensures
        check_array(env, st, elems, line, expected) matches Ok(r) ==> keeps(r.1, st),
    decreases elems, elems.len() + 1,
{
    lemma_keeps();
    let want = match expected {
        Some(TypeView::Array(elem)) => Some(*elem),
        _ => None,
    };
    keep_check_elems(env, st, elems, 0, want, Seq::empty());
}

pub proof fn keep_check_elems(
    env: EnvView,
    st: BodyView,
    elems: Seq<ExprView>,
    i: nat,
    want: Option<TypeView>,
    acc: Seq<ExprView>,
)
    ensures
        check_elems(env, st, elems, i, want, acc) matches Ok(r) ==> keeps(r.2, st),
    decreases elems, elems.len() - i,
{
    lemma_keeps();
    if !(i >= elems.len()) {
        keep_check_expr(env, st, elems[i as int], want);
        if let Ok((x, st1)) = check_expr(env, st, elems[i as int], want) {
            match want {
                None => {
                    keep_check_elems(env, st1, elems, i + 1, Some(x.ty), acc.push(x));
                },
                Some(t) => {
                    if let Ok(_) = require_assignable(env, t, x.ty, elems[i as int].line) {
                        keep_check_elems(env, st1, elems, i + 1, want, acc.push(x));
                    }
                },
            }
        }
    }
}

pub proof fn keep_check_against(
    env: EnvView,
    st: BodyView,
    decl: TypeView,
    solved: Seq<Option<TypeView>>,
    value: ExprView,
)
    ensures
        check_against(env, st, decl, solved, value) matches Ok(r) ==> keeps(r.2, st),
    decreases value, 10int,
{
    lemma_keeps();
    let want = subst_partial(decl, solved);
    let expected = if want.generic() {
        None
    } else {
        Some(want)
    };
    keep_check_expr(env, st, value, expected);
}

pub proof fn keep_check_inits(
    env: EnvView,
    st: BodyView,
    decl: Seq<(Seq<char>, TypeView)>,
    fields: Seq<(Seq<char>, ExprView, u32)>,
    what: Seq<char>,
    owner: Seq<char>,
    i: nat,
    seen: Seq<bool>,
    solved: Seq<Option<TypeView>>,
    acc: Seq<(Seq<char>, ExprView, u32)>,
)
    ensures
        check_inits(env, st, decl, fields, what, owner, i, seen, solved, acc) matches Ok(r) ==> keeps(r.3, st),
    decreases fields, fields.len() - i,
{
    lemma_keeps();
    if !(i >= fields.len()) {
        let fname = fields[i as int].0;
        let value = fields[i as int].1;
        if let Some(j) = position(field_names(decl), fname) {
            if !(seen[j as int]) {
                keep_check_against(env, st, decl[j as int].1, solved, value);
                if let Ok((x, s, st1)) = check_against(env, st, decl[j as int].1, solved, value) {
                    keep_check_inits( env, st1, decl, fields, what, owner, i + 1, seen.update(j as int, true), s, acc.push((fname, x, j as u32)), );
                }
            }
        }
    }
}

pub proof fn keep_check_struct_lit(
    env: EnvView,
    st: BodyView,
    name: Seq<char>,
    fields: Seq<(Seq<char>, ExprView, u32)>,
    line: u32,
    expected: Option<TypeView>,
)
    ensures
        check_struct_lit(env, st, name, fields, line, expected) matches Ok(r) ==> keeps(r.1, st),
    decreases fields, fields.len() + 1,
{
    lemma_keeps();
    if let Some(sid) = env.struct_id(name) {
        let info = env.structs[sid as int];
        keep_check_inits( env, st, info.fields, fields, ": struct '"@, name, 0, none_seen(info.fields.len()), struct_seed(expected, sid, info.type_params.len()), Seq::empty(), );
    }
}

pub proof fn keep_check_variant_call(
    env: EnvView,
    st: BodyView,
    eid: nat,
    enum_name: Seq<char>,
    variant: Seq<char>,
    args: Seq<ExprView>,
    line: u32,
    expected: Option<TypeView>,
)
    ensures
        check_variant_call(env, st, eid, enum_name, variant, args, line, expected) matches Ok(r) ==> keeps(r.1, st),
    decreases args, args.len() + 1,
{
    lemma_keeps();
    let info = env.enums[eid as int];
    if let Some(tag) = position(variant_names(info.variants), variant) {
        if let VariantPayloadView::Single(pty) = info.variants[tag as int].1 {
            if !(args.len() != 1) {
                keep_check_against( env, st, pty, enum_seed(expected, eid, info.type_params.len()), args[0], );
            }
        }
    }
}

pub proof fn keep_check_variant_fields(
    env: EnvView,
    st: BodyView,
    eid: nat,
    enum_name: Seq<char>,
    variant: Seq<char>,
    fields: Seq<(Seq<char>, ExprView, u32)>,
    line: u32,
    expected: Option<TypeView>,
)
    ensures
        check_variant_fields(env, st, eid, enum_name, variant, fields, line, expected) matches Ok(r) ==> keeps(r.1, st),
    decreases fields, fields.len() + 1,
{
    lemma_keeps();
    let info = env.enums[eid as int];
    if let Some(tag) = position(variant_names(info.variants), variant) {
        if let VariantPayloadView::Fields(decl) = info.variants[tag as int].1 {
            keep_check_inits( env, st, decl, fields, ": variant '"@, variant, 0, none_seen(decl.len()), enum_seed(expected, eid, info.type_params.len()), Seq::empty(), );
        }
    }
}

pub proof fn keep_check_field(
    env: EnvView,
    st: BodyView,
    obj: ExprView,
    name: Seq<char>,
    index: u32,
    line: u32,
    expected: Option<TypeView>,
)
    ensures
        check_field(env, st, obj, name, index, line, expected) matches Ok(r) ==> keeps(r.1, st),
    decreases obj, 12int,
{
    lemma_keeps();
    let (target, st1) = names_type(env, st, obj);
    keep_names_type(env, st, obj);
    if let None = target {
        keep_check_expr(env, st1, obj, None);
    }
}

pub proof fn keep_check_args_from(
    env: EnvView,
    st: BodyView,
    params: Seq<TypeView>,
    off: nat,
    args: Seq<ExprView>,
    i: nat,
    acc: Seq<ExprView>,
)
    ensures
        check_args_from(env, st, params, off, args, i, acc) matches Ok(r) ==> keeps(r.1, st),
    decreases args, args.len() - i,
{
    lemma_keeps();
    if !(i >= args.len()) {
        keep_check_expr(env, st, args[i as int], Some(params[(off + i) as int]));
        if let Ok((x, st1)) = check_expr(env, st, args[i as int], Some(params[(off + i) as int])) {
            if let Ok(_) = require_assignable(env, params[(off + i) as int], x.ty, x.line) {
                keep_check_args_from(env, st1, params, off, args, i + 1, acc.push(x));
            }
        }
    }
}

pub proof fn keep_check_args(
    env: EnvView,
    st: BodyView,
    what: Seq<char>,
    params: Seq<TypeView>,
    recv: Option<ExprView>,
    args: Seq<ExprView>,
    line: u32,
)
    ensures
        check_args(env, st, what, params, recv, args, line) matches Ok(r) ==> keeps(r.1, st),
    decreases args, args.len() + 1,
{
    lemma_keeps();
    match recv {
        None => {
            if !(params.len() != args.len()) {
                keep_check_args_from(env, st, params, 0, args, 0, Seq::empty());
            }
        },
        Some(r) => {
            if !(params.len() != args.len() + 1) {
                if let Ok(_) = require_assignable(env, params[0], r.ty, r.line) {
                    keep_check_args_from(env, st, params, 1, args, 0, seq![r]);
                }
            }
        },
    }
}

pub proof fn keep_infer_args_from(
    env: EnvView,
    st: BodyView,
    params: Seq<TypeView>,
    off: nat,
    args: Seq<ExprView>,
    i: nat,
    solved: Seq<Option<TypeView>>,
    acc: Seq<ExprView>,
)
    ensures
        infer_args_from(env, st, params, off, args, i, solved, acc) matches Ok(r) ==> keeps(r.2, st),
    decreases args, args.len() - i,
{
    lemma_keeps();
    if !(i >= args.len()) {
        keep_check_against(env, st, params[(off + i) as int], solved, args[i as int]);
        if let Ok((x, s, st1)) = check_against(env, st, params[(off + i) as int], solved, args[i as int]) {
            keep_infer_args_from( env, st1, params, off, args, i + 1, s, acc.push(x), );
        }
    }
}

pub proof fn keep_check_call_sig(
    env: EnvView,
    st: BodyView,
    what: Seq<char>,
    fid: u32,
    recv: Option<ExprView>,
    args: Seq<ExprView>,
    expected: Option<TypeView>,
    line: u32,
)
    ensures
        check_call_sig(env, st, what, fid, recv, args, expected, line) matches Ok(r) ==> keeps(r.4, st),
    decreases args, args.len() + 2,
{
    lemma_keeps();
    if !(fid >= env.funcs.len()) {
        let sig = env.funcs[fid as int];
        let skip: nat = if recv is Some {
            1
        } else {
            0
        };
        if !(sig.params.len() != args.len() + skip) {
            if sig.type_params.len() == 0 {
                keep_check_args(env, st, what, sig.params, recv, args, line);
            } else {
                keep_infer_call(env, st, what, sig, recv, args, expected, line);
            }
        }
    }
}

pub proof fn keep_direct_call(
    env: EnvView,
    st: BodyView,
    what: Seq<char>,
    fid: u32,
    callee: ExprKindView,
    callee_line: u32,
    recv: Option<ExprView>,
    args: Seq<ExprView>,
    expected: Option<TypeView>,
    line: u32,
)
    ensures
        direct_call(env, st, what, fid, callee, callee_line, recv, args, expected, line) matches Ok(r) ==> keeps(r.1, st),
    decreases args, args.len() + 3,
{
    lemma_keeps();
    keep_check_call_sig(env, st, what, fid, recv, args, expected, line);
}

pub proof fn keep_indirect_call(
    env: EnvView,
    st: BodyView,
    callee: ExprView,
    args: Seq<ExprView>,
    direct: Option<u32>,
    inst: Seq<TypeView>,
    line: u32,
)
    ensures
        indirect_call(env, st, callee, args, direct, inst, line) matches Ok(r) ==> keeps(r.1, st),
    decreases args, args.len() + 2,
{
    lemma_keeps();
    if let TypeView::Fn(params, ret) = callee.ty {
        keep_check_args( env, st, "function value"@, params, None, args, line, );
    }
}

pub proof fn keep_check_builtin(
    env: EnvView,
    st: BodyView,
    b: Builtin,
    args: Seq<ExprView>,
    line: u32,
)
    ensures
        check_builtin(env, st, b, args, line) matches Ok(r) ==> keeps(r.1, st),
    decreases args, 10int,
{
    lemma_keeps();
    let want: nat = if b is GcCollect {
        0
    } else {
        1
    };
    if !(args.len() != want) {
        if !(b is GcCollect) {
            let expected = if b is Assert {
                Some(TypeView::Bool)
            } else {
                None
            };
            keep_check_expr(env, st, args[0], expected);
        }
    }
}

pub proof fn keep_check_builtin_method(
    env: EnvView,
    st: BodyView,
    b: Builtin,
    recv: ExprView,
    args: Seq<ExprView>,
    line: u32,
)
    ensures
        check_builtin_method(env, st, b, recv, args, line) matches Ok(r) ==> keeps(r.1, st),
    decreases args, 10int,
{
    lemma_keeps();
    let want: nat = if b is Push {
        1
    } else {
        0
    };
    if !(args.len() != want) {
        if b is Push {
            if let TypeView::Array(elem) = recv.ty {
                keep_check_expr(env, st, args[0], Some(*elem));
            }
        }
    }
}

pub proof fn keep_check_type_call(
    env: EnvView,
    st: BodyView,
    callee: ExprView,
    tname: Seq<char>,
    mname: Seq<char>,
    args: Seq<ExprView>,
    line: u32,
    expected: Option<TypeView>,
)
    ensures
        check_type_call(env, st, callee, tname, mname, args, line, expected) matches Ok(r) ==> keeps(r.1, st),
    decreases args, args.len() + 12,
{
    lemma_keeps();
    if env.enum_id(tname) is Some && has_variant(env, env.enum_id(tname)->0, mname) {
        keep_check_variant_call( env, st, env.enum_id(tname)->0, tname, mname, args, line, expected, );
    } else {
        let key = key_of(env, tname);
        if let Some((fid, has_self)) = env.method(key, mname) {
            if !(has_self) {
                keep_direct_call( env, st, tname + "."@ + mname, fid, callee.kind, callee.line, None, args, expected, line, );
            }
        }
    }
}

pub proof fn keep_check_name_call(
    env: EnvView,
    st: BodyView,
    callee: ExprView,
    name: Seq<char>,
    args: Seq<ExprView>,
    direct: Option<u32>,
    inst: Seq<TypeView>,
    line: u32,
    expected: Option<TypeView>,
)
    ensures
        check_name_call(env, st, callee, name, args, direct, inst, line, expected) matches Ok(r) ==> keeps(r.1, st),
    decreases args, args.len() + 11,
{
    lemma_keeps();
    let (st1, r) = resolve_var(st, name);
    keep_resolve_var(st, name);
    match r {
        Some((res, ty)) => {
            keep_indirect_call( env, st1, typed(ExprKindView::Var { name, res: Some(res) }, callee.line, ty), args, direct, inst, line, );
        },
        None => {
            match env.func_id(name) {
                Some(fid) => {
                    keep_direct_call( env, st1, name, fid as u32, callee.kind, callee.line, None, args, expected, line, );
                },
                None => {
                    if let Some(b) = builtin_named(name) {
                        keep_check_builtin(env, st1, b, args, line);
                    }
                },
            }
        },
    }
}

pub proof fn keep_check_member_call(
    env: EnvView,
    st: BodyView,
    callee: ExprView,
    obj: ExprView,
    mname: Seq<char>,
    index: u32,
    args: Seq<ExprView>,
    direct: Option<u32>,
    inst: Seq<TypeView>,
    line: u32,
    expected: Option<TypeView>,
)
    ensures
        check_member_call(env, st, callee, obj, mname, index, args, direct, inst, line, expected) matches Ok(r) ==> keeps(r.1, st),
    decreases args, args.len() + 11,
{
    lemma_keeps();
    match env.lookup_method(obj.ty, mname) {
        Some((fid, has_self)) => {
            if !(!has_self) {
                keep_direct_call( env, st, mname, fid, ExprKindView::Var { name: mname, res: None }, callee.line, Some(obj), args, expected, line, );
            }
        },
        None => {
            match builtin_method(obj.ty, mname, env.option_enum) {
                Some(b) => {
                    keep_check_builtin_method(env, st, b, obj, args, line);
                },
                None => {
                    if let Ok(f) = field_after_obj(env, obj, mname, index, callee.line) {
                        keep_indirect_call(env, st, f, args, direct, inst, line);
                    }
                },
            }
        },
    }
}

pub proof fn keep_check_call(
    env: EnvView,
    st: BodyView,
    e: ExprView,
    expected: Option<TypeView>,
)
    ensures
        check_call(env, st, e, expected) matches Ok(r) ==> keeps(r.1, st),
    decreases e, 8int,
{
    lemma_keeps();
    let line = e.line;
    let callee = *e.kind->Call_callee;
    let args = e.kind->Call_args;
    let direct = e.kind->Call_direct;
    let inst = e.kind->Call_inst;
    if !(!(e.kind is Call)) {
        match callee.kind {
            ExprKindView::Field { obj, name, index } => {
                let (target, st1) = names_type(env, st, *obj);
                keep_names_type(env, st, *obj);
                match target {
                    Some(tname) => {
                        keep_check_type_call( env, st1, callee, tname, name, args, line, expected, );
                    },
                    None => {
                        keep_check_expr(env, st1, *obj, None);
                        if let Ok((o, st2)) = check_expr(env, st1, *obj, None) {
                            keep_check_member_call( env, st2, callee, o, name, index, args, direct, inst, line, expected, );
                        }
                    },
                }
            },
            ExprKindView::Var { name, .. } => {
                keep_check_name_call( env, st, callee, name, args, direct, inst, line, expected, );
            },
            _ => {
                keep_check_expr(env, st, callee, None);
                if let Ok((f, st1)) = check_expr(env, st, callee, None) {
                    keep_indirect_call(env, st1, f, args, direct, inst, line);
                }
            },
        }
    }
}

pub proof fn keep_check_expr_arms(
    env: EnvView,
    st: BodyView,
    arms: Seq<(PatternView, ExprView)>,
    pats: Seq<PatternView>,
    i: nat,
    expected: Option<TypeView>,
    rty: Option<TypeView>,
    acc: Seq<(PatternView, ExprView)>,
)
    ensures
        check_expr_arms(env, st, arms, pats, i, expected, rty, acc) matches Ok(r) ==> keeps(r.2, st),
    decreases arms, arms.len() - i,
{
    lemma_keeps();
    if !(i >= arms.len()) {
        let mark = st.cur.vars.len();
        let body = arms[i as int].1;
        keep_declare_binders(st, pats[i as int]);
        if let Ok((p, st1)) = declare_binders(st, pats[i as int]) {
            let want = if rty is Some {
                rty
            } else {
                expected
            };
            keep_check_expr(env, st1, body, want);
            if let Ok((x, st2)) = check_expr(env, st1, body, want) {
                if !(rty is Some && rty != Some(x.ty)) {
                    keep_check_expr_arms( env, leave_scope(st2, mark), arms, pats, i + 1, expected, Some(x.ty), acc.push((p, x)), );
                }
            }
        }
    }
}

pub proof fn keep_check_match(
    env: EnvView,
    st: BodyView,
    e: ExprView,
    expected: Option<TypeView>,
)
    ensures
        check_match(env, st, e, expected) matches Ok(r) ==> keeps(r.1, st),
    decreases e, 8int,
{
    lemma_keeps();
    let line = e.line;
    let scrutinee = *e.kind->Match_scrutinee;
    let arms = e.kind->Match_arms;
    if !(!(e.kind is Match)) {
        keep_check_expr(env, st, scrutinee, None);
        if let Ok((s, st1)) = check_expr(env, st, scrutinee, None) {
            if let Ok(pats) = check_patterns(env, s.ty, expr_patterns(arms), line) {
                keep_check_expr_arms( env, st1, arms, pats, 0, expected, None, Seq::empty(), );
            }
        }
    }
}

pub proof fn keep_check_block(
    env: EnvView,
    st: BodyView,
    b: BlockView,
)
    ensures
        check_block(env, st, b) matches Ok(r) ==> keeps(r.1, st),
    decreases b, 1int,
{
    lemma_keeps();
    keep_check_stmts(env, st, b.stmts, 0, Seq::empty());
}

pub proof fn keep_check_stmts(
    env: EnvView,
    st: BodyView,
    ss: Seq<StmtView>,
    i: nat,
    acc: Seq<StmtView>,
)
    ensures
        check_stmts(env, st, ss, i, acc) matches Ok(r) ==> keeps(r.1, st),
    decreases ss, ss.len() - i,
{
    lemma_keeps();
    if !(i >= ss.len()) {
        keep_check_stmt(env, st, ss[i as int]);
        if let Ok((s, st1)) = check_stmt(env, st, ss[i as int]) {
            keep_check_stmts(env, st1, ss, i + 1, acc.push(s));
        }
    }
}

pub proof fn keep_check_let(
    env: EnvView,
    st: BodyView,
    name: Seq<char>,
    ann: Option<TypeExprView>,
    init: ExprView,
    line: u32,
)
    ensures
        check_let(env, st, name, ann, init, line) matches Ok(r) ==> keeps(r.1, st),
    decreases init, 10int,
{
    lemma_keeps();
    if let Ok(want) = (match ann { None => Ok(None::<TypeView>), Some(te) => match resolve_type(env, te) { Err(m) => Err(m), Ok(t) => Ok(Some(t)), }, }) {
        keep_check_expr(env, st, init, want);
        if let Ok((x, st1)) = check_expr(env, st, init, want) {
            if let Ok(ty) = (match want { Some(t) => match require_assignable(env, t, x.ty, line) { Err(m) => Err(m), Ok(_) => Ok(t), }, None => if x.ty is Unit { Err(ln(line) + ": initializer has no value"@) } else { Ok(x.ty) }, }) {
                keep_declare(st1, name, ty, line);
            }
        }
    }
}

pub proof fn keep_check_assign(
    env: EnvView,
    st: BodyView,
    s: StmtView,
)
    ensures
        check_assign(env, st, s) matches Ok(r) ==> keeps(r.1, st),
    decreases s, 10int,
{
    lemma_keeps();
    let target = s->Assign_target;
    let value = s->Assign_value;
    let line = s->Assign_line;
    if !(!(s is Assign)) {
        keep_check_expr(env, st, target, None);
        if let Ok((t, st1)) = check_expr(env, st, target, None) {
            if let Ok(_) = check_target(t, line) {
                keep_check_expr(env, st1, value, Some(t.ty));
            }
        }
    }
}

pub proof fn keep_check_return(
    env: EnvView,
    st: BodyView,
    value: Option<ExprView>,
    line: u32,
)
    ensures
        check_return(env, st, value, line) matches Ok(r) ==> keeps(r.1, st),
    decreases value, 10int,
{
    lemma_keeps();
    let ret = st.cur.ret;
    if let Some(v) = value {
        if !(ret is Unit) {
            keep_check_expr(env, st, v, Some(ret));
        }
    }
}

pub proof fn keep_check_opt_stmt(
    env: EnvView,
    st: BodyView,
    s: Option<Box<StmtView>>,
)
    ensures
        check_opt_stmt(env, st, s) matches Ok(r) ==> keeps(r.1, st),
    decreases s, 10int,
{
    lemma_keeps();
    if let Some(s) = s {
        keep_check_stmt(env, st, *s);
    }
}

pub proof fn keep_check_opt_cond(
    env: EnvView,
    st: BodyView,
    c: Option<ExprView>,
)
    ensures
        check_opt_cond(env, st, c) matches Ok(r) ==> keeps(r.1, st),
    decreases c, 10int,
{
    lemma_keeps();
    if let Some(c) = c {
        keep_check_cond(env, st, c);
    }
}

pub proof fn keep_check_while(
    env: EnvView,
    st: BodyView,
    s: StmtView,
)
    ensures
        check_while(env, st, s) matches Ok(r) ==> keeps(r.1, st),
    decreases s, 10int,
{
    lemma_keeps();
    if !(!(s is While)) {
        keep_check_cond(env, st, s->While_cond);
        if let Ok((c, st1)) = check_cond(env, st, s->While_cond) {
            keep_check_block(env, with_loop(st1, true), s->While_body);
        }
    }
}

pub proof fn keep_check_for(
    env: EnvView,
    st: BodyView,
    s: StmtView,
)
    ensures
        check_for(env, st, s) matches Ok(r) ==> keeps(r.1, st),
    decreases s, 10int,
{
    lemma_keeps();
    let init = s->For_init;
    let cond = s->For_cond;
    let step = s->For_step;
    let body = s->For_body;
    if !(!(s is For)) {
        keep_check_opt_stmt(env, st, init);
        if let Ok((i, st1)) = check_opt_stmt(env, st, init) {
            keep_check_opt_cond(env, st1, cond);
            if let Ok((c, st2)) = check_opt_cond(env, st1, cond) {
                keep_check_opt_stmt(env, st2, step);
                if let Ok((s, st3)) = check_opt_stmt(env, st2, step) {
                    keep_check_block(env, with_loop(st3, true), body);
                }
            }
        }
    }
}

pub proof fn keep_check_stmt_arms(
    env: EnvView,
    st: BodyView,
    arms: Seq<(PatternView, BlockView)>,
    pats: Seq<PatternView>,
    i: nat,
    acc: Seq<(PatternView, BlockView)>,
)
    ensures
        check_stmt_arms(env, st, arms, pats, i, acc) matches Ok(r) ==> keeps(r.1, st),
    decreases arms, arms.len() - i,
{
    lemma_keeps();
    if !(i >= arms.len()) {
        let mark = st.cur.vars.len();
        keep_declare_binders(st, pats[i as int]);
        if let Ok((p, st1)) = declare_binders(st, pats[i as int]) {
            keep_check_block(env, st1, arms[i as int].1);
            if let Ok((b, st2)) = check_block(env, st1, arms[i as int].1) {
                keep_check_stmt_arms( env, leave_scope(st2, mark), arms, pats, i + 1, acc.push((p, b)), );
            }
        }
    }
}

pub proof fn keep_check_stmt_match(
    env: EnvView,
    st: BodyView,
    s: StmtView,
)
    ensures
        check_stmt_match(env, st, s) matches Ok(r) ==> keeps(r.1, st),
    decreases s, 10int,
{
    lemma_keeps();
    let scrutinee = s->Match_scrutinee;
    let arms = s->Match_arms;
    let line = s->Match_line;
    if !(!(s is Match)) {
        keep_check_expr(env, st, scrutinee, None);
        if let Ok((s, st1)) = check_expr(env, st, scrutinee, None) {
            if let Ok(pats) = check_patterns(env, s.ty, stmt_patterns(arms), line) {
                keep_check_stmt_arms(env, st1, arms, pats, 0, Seq::empty());
            }
        }
    }
}

pub proof fn keep_check_if_stmt(
    env: EnvView,
    st: BodyView,
    s: StmtView,
)
    ensures
        check_if_stmt(env, st, s) matches Ok(r) ==> keeps(r.1, st),
    decreases s, 10int,
{
    lemma_keeps();
    let cond = s->If_cond;
    let then = s->If_then;
    let els = s->If_els;
    if !(!(s is If)) {
        keep_check_cond(env, st, cond);
        if let Ok((c, st1)) = check_cond(env, st, cond) {
            keep_check_block(env, st1, then);
            if let Ok((t, st2)) = check_block(env, st1, then) {
                if let Some(b) = els {
                    keep_check_block(env, st2, b);
                }
            }
        }
    }
}

pub proof fn keep_check_stmt(
    env: EnvView,
    st: BodyView,
    s: StmtView,
)
    ensures
        check_stmt(env, st, s) matches Ok(r) ==> keeps(r.1, st),
    decreases s, 11int,
{
    lemma_keeps();
    match s {
        StmtView::Let { name, ann, init, line, .. } => {
            keep_check_let(env, st, name, ann, init, line);
        },
        StmtView::Assign { .. } => {
            keep_check_assign(env, st, s);
        },
        StmtView::Expr(e) => {
            keep_check_expr(env, st, e, None);
        },
        StmtView::If { .. } => {
            keep_check_if_stmt(env, st, s);
        },
        StmtView::While { .. } => {
            keep_check_while(env, st, s);
        },
        StmtView::For { .. } => {
            keep_check_for(env, st, s);
        },
        StmtView::Return { value, line } => {
            keep_check_return(env, st, value, line);
        },
        StmtView::Block(b) => {
            keep_check_block(env, st, b);
        },
        StmtView::Match { .. } => {
            keep_check_stmt_match(env, st, s);
        },
        _ => {},
    }
}

/// A statement leaves as they were whether a loop is around, the contexts
/// around, and the variables in scope before it; and locals are only added.
/// `break` and `continue` are accepted in loops, and nowhere else.
pub proof fn law_statement_keeps(env: EnvView, st: BodyView, s: StmtView)
    ensures
        check_stmt(env, st, s) matches Ok((_, st1)) ==> {
            &&& st1.in_loop == st.in_loop
            &&& st1.outer.len() == st.outer.len()
            &&& forall|i: int|
                0 <= i < st.outer.len() ==> same_context(#[trigger] st1.outer[i], st.outer[i])
            &&& st1.cur.ret == st.cur.ret
            &&& starts_with(st1.cur.vars, st.cur.vars)
            &&& starts_with(st1.cur.locals, st.cur.locals)
        },
        s is Break || s is Continue ==> check_stmt(env, st, s) is Ok == st.in_loop,
{
    reveal(keeps);
    keep_check_stmt(env, st, s);
}

/// A block leaves no variable in scope that was not there before it.
pub proof fn law_block_leaves_scope(env: EnvView, st: BodyView, b: BlockView)
    ensures
        check_block(env, st, b) matches Ok((_, st1)) ==> st1.cur.vars == st.cur.vars,
{
    reveal(keeps);
    keep_check_stmts(env, st, b.stmts, 0, Seq::empty());
    if let Ok((_, st1)) = check_stmts(env, st, b.stmts, 0, Seq::empty()) {
        assert(leave_scope(st1, st.cur.vars.len()).cur.vars =~= st.cur.vars);
    }
}

} // verus!
