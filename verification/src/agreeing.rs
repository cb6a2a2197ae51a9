//! That the checker accepts only what is well typed: the type of each part of an
//! accepted tree is the one that its place asks for.
use vstd::prelude::*;

use crate::ast::{
    BinOp, BlockView, Builtin, ExprKindView, ExprView, FuncDefView, LambdaDefView, PatArgsView,
    PatBinderView, PatternView, ProgramView, StmtView, TypeExprView, UnOp, VarRes, VariantArgsView,
};
use crate::checking::keeps_solved;
use crate::concrete::{
    lemma_enums_keep, lemma_methods_keep, lemma_structs_keep, lemma_variants_keep,
};
use crate::judging::{
    all_judged, arms_judged, binary_rule, binder_rule, block_arms_judged, block_judged,
    function_rule, given, gives_field, gives_fields, inits_judged, inside, is_place, judged,
    lambda_judged, name_rule, pattern_rule, payload_judged, stand_for, stands_for, stmt_judged,
    stmts_judged, takes_operands, types_of, Scope,
};
use crate::keeping::{
    finds, keep_check_against, keep_check_args_from, keep_check_block, keep_check_builtin,
    keep_check_cond, keep_check_elems, keep_check_expr, keep_check_expr_arms, keep_check_inits,
    keep_check_member_call, keep_check_opt_cond, keep_check_opt_stmt, keep_check_stmt,
    keep_check_stmt_arms, keep_check_stmts, keep_check_type_call, keep_declare,
    keep_declare_binders, keep_direct_call, keep_indirect_call, keep_infer_args_from,
    keep_names_type, keep_resolve_var, keeps, lemma_fields_keep, lemma_keeps, lemma_lambda_left,
    lemma_params_keep, lemma_reached, lemma_reaches, reaches, small, sound, sound_captures,
    sound_contexts, starts_with,
};
use crate::machine::decode;
use crate::rules::{
    add_prelude, arith_type, binary_type, bound_method, call_seed, captures_of, check_against,
    check_args, check_args_from, check_array, check_assign, check_binary, check_block,
    check_builtin, check_builtin_method, check_call, check_call_sig, check_cast, check_cond,
    check_elems, check_expr, check_expr_arms, check_field, check_for, check_func, check_funcs,
    check_if, check_if_stmt, check_index, check_inits, check_lambda, check_let, check_match,
    check_member_call, check_name_call, check_opt_cond, check_opt_stmt, check_return, check_spec,
    check_stmt, check_stmt_arms, check_stmt_match, check_stmts, check_struct_lit, check_target,
    check_type_call, check_unary, check_variant_bare, check_variant_call, check_variant_fields,
    check_while, collect, collect_enums, collect_funcs, collect_methods, collect_structs,
    comparison_type, direct_call, empty_env, enter_lambda, enum_seed, equality_type, exit_lambda,
    field_after_obj, fresh_ctx, func_sig, has_variant, indirect_call, infer_args_from, infer_call,
    int_t, is_literal, key_of, left_expected, logical_type, make_variant, match_value, member_value,
    names_type, resolve_enums, resolve_structs, right_expected, struct_seed, typed, unary_type,
    value_of, with_loop, SideView,
};
use crate::text::{lemma_position_from, position};
use crate::types::{
    field_names, variant_names, EnumInfoView, IntKind, StructInfoView, TypeView, VariantPayloadView,
};
use crate::typing::{
    always_returns, bits_of, bool_patterns, builtin_method, builtin_named, builtin_result,
    check_arith_op, check_patterns, declare, declare_binders, declare_fields, declare_params,
    enum_names, enum_patterns, expr_patterns, first_false, func_names, int_patterns, leave_scope,
    literal_kind, none_seen, partial_args, pattern_fields, pattern_payload, resolve_params,
    resolve_ret, resolve_type, resolve_var, solution, stmt_patterns, struct_names, subst_partial,
    unify, unify_all, unsolved, variant_pattern, BodyView, EnvView, FuncSigView, MAX_LOCALS,
};

verus! {

// -- Solved types -----------------------------------------------------------

/// Is `actual` what the declared type stands for, with what is solved so far?
spec fn stands(decl: TypeView, actual: TypeView, s: Seq<Option<TypeView>>) -> bool
    decreases decl, 1nat,
{
    match decl {
        TypeView::Param(i) => i < s.len() && s[i as int] == Some(actual),
        TypeView::Array(a) => match actual {
            TypeView::Array(b) => stands(*a, *b, s),
            _ => false,
        },
        TypeView::Struct(i, ax) => match actual {
            TypeView::Struct(j, bx) => i == j && all_stand(ax, bx, s),
            _ => false,
        },
        TypeView::Enum(i, ax) => match actual {
            TypeView::Enum(j, bx) => i == j && all_stand(ax, bx, s),
            _ => false,
        },
        TypeView::Fn(ap, ar) => match actual {
            TypeView::Fn(bp, br) => ap.len() == bp.len() && all_stand(ap, bp, s) && stands(
                *ar,
                *br,
                s,
            ),
            _ => false,
        },
        _ => decl == actual,
    }
}

spec fn all_stand(ax: Seq<TypeView>, bx: Seq<TypeView>, s: Seq<Option<TypeView>>) -> bool
    decreases ax, 0nat,
{
    forall|i: int| 0 <= i < ax.len() && i < bx.len() ==> stands(#[trigger] ax[i], bx[i], s)
}

proof fn lemma_still_stands(
    decl: TypeView,
    actual: TypeView,
    a: Seq<Option<TypeView>>,
    b: Seq<Option<TypeView>>,
)
    requires
        stands(decl, actual, a),
        keeps_solved(b, a),
    ensures
        stands(decl, actual, b),
    decreases decl, 1nat,
{
    match decl {
        TypeView::Param(i) => {
            assert(b[i as int] == a[i as int]);
        },
        TypeView::Array(x) => {
            if let TypeView::Array(y) = actual {
                lemma_still_stands(*x, *y, a, b);
            }
        },
        TypeView::Struct(_, ax) => {
            if let TypeView::Struct(_, bx) = actual {
                lemma_all_still_stand(ax, bx, a, b);
            }
        },
        TypeView::Enum(_, ax) => {
            if let TypeView::Enum(_, bx) = actual {
                lemma_all_still_stand(ax, bx, a, b);
            }
        },
        TypeView::Fn(ap, ar) => {
            if let TypeView::Fn(bp, br) = actual {
                lemma_all_still_stand(ap, bp, a, b);
                lemma_still_stands(*ar, *br, a, b);
            }
        },
        _ => {},
    }
}

proof fn lemma_all_still_stand(
    ax: Seq<TypeView>,
    bx: Seq<TypeView>,
    a: Seq<Option<TypeView>>,
    b: Seq<Option<TypeView>>,
)
    requires
        all_stand(ax, bx, a),
        keeps_solved(b, a),
    ensures
        all_stand(ax, bx, b),
    decreases ax, 0nat,
{
    assert forall|i: int| 0 <= i < ax.len() && i < bx.len() implies stands(
        #[trigger] ax[i],
        bx[i],
        b,
    ) by {
        lemma_still_stands(ax[i], bx[i], a, b);
    }
}

/// What unification matched stands for what it was matched with.
proof fn lemma_unified(decl: TypeView, actual: TypeView, s: Seq<Option<TypeView>>)
    ensures
        ({
            let (ok, s1) = unify(decl, actual, s);
            keeps_solved(s1, s) && (ok ==> stands(decl, actual, s1))
        }),
    decreases decl, 1nat,
{
    match decl {
        TypeView::Array(a) => {
            if let TypeView::Array(b) = actual {
                lemma_unified(*a, *b, s);
            }
        },
        TypeView::Param(_) => {},
        TypeView::Struct(_, ax) => {
            if let TypeView::Struct(_, bx) = actual {
                lemma_all_unified(ax, bx, 0, s);
                let (ok, s1) = unify_all(ax, bx, 0, s);
                assert(ok ==> all_stand(ax, bx, s1));
            }
        },
        TypeView::Enum(_, ax) => {
            if let TypeView::Enum(_, bx) = actual {
                lemma_all_unified(ax, bx, 0, s);
                let (ok, s1) = unify_all(ax, bx, 0, s);
                assert(ok ==> all_stand(ax, bx, s1));
            }
        },
        TypeView::Fn(ap, ar) => {
            if let TypeView::Fn(bp, br) = actual {
                lemma_all_unified(ap, bp, 0, s);
                let (ok, s1) = unify_all(ap, bp, 0, s);
                if ap.len() == bp.len() && ok {
                    lemma_unified(*ar, *br, s1);
                    let s2 = unify(*ar, *br, s1).1;
                    assert forall|i: int| 0 <= i < s.len() && s[i] is Some implies #[trigger] s2[i]
                        == s[i] by {
                        assert(s1[i] == s[i]);
                    }
                    if unify(*ar, *br, s1).0 {
                        assert(all_stand(ap, bp, s1));
                        lemma_all_still_stand(ap, bp, s1, s2);
                    }
                }
            }
        },
        _ => {},
    }
}

proof fn lemma_all_unified(
    ax: Seq<TypeView>,
    bx: Seq<TypeView>,
    i: nat,
    s: Seq<Option<TypeView>>,
)
    ensures
        ({
            let (ok, s1) = unify_all(ax, bx, i, s);
            &&& keeps_solved(s1, s)
            &&& ok ==> forall|k: int|
                i <= k < ax.len() && k < bx.len() ==> stands(#[trigger] ax[k], bx[k], s1)
        }),
    decreases ax, 0nat, ax.len() - i,
{
    if i < ax.len() && i < bx.len() {
        lemma_unified(ax[i as int], bx[i as int], s);
        let (ok, s1) = unify(ax[i as int], bx[i as int], s);
        if ok {
            lemma_all_unified(ax, bx, i + 1, s1);
            let (ok2, s2) = unify_all(ax, bx, i + 1, s1);
            assert forall|k: int| 0 <= k < s.len() && s[k] is Some implies #[trigger] s2[k]
                == s[k] by {
                assert(s1[k] == s[k]);
            }
            if ok2 {
                lemma_still_stands(ax[i as int], bx[i as int], s1, s2);
            }
        }
    }
}

/// A declared type that is solved stands for what it is then.
proof fn lemma_solved(decl: TypeView, s: Seq<Option<TypeView>>)
    requires
        !subst_partial(decl, s).generic(),
        s.len() <= u32::MAX,
    ensures
        stands(decl, subst_partial(decl, s), s),
    decreases decl, 1nat,
{
    let args = partial_args(s);
    match decl {
        TypeView::Param(i) => {
            if i < s.len() && s[i as int] is None {
                assert(args[i as int] == TypeView::Param(i));
            }
        },
        TypeView::Array(a) => lemma_solved(*a, s),
        TypeView::Struct(_, ax) => lemma_all_solved(ax, s),
        TypeView::Enum(_, ax) => lemma_all_solved(ax, s),
        TypeView::Fn(ap, ar) => {
            lemma_all_solved(ap, s);
            lemma_solved(*ar, s);
        },
        _ => {},
    }
}

proof fn lemma_all_solved(ax: Seq<TypeView>, s: Seq<Option<TypeView>>)
    requires
        !TypeView::any_mentions(TypeView::subst_all(ax, partial_args(s)), 0, 0x1_0000_0000),
        s.len() <= u32::MAX,
    ensures
        all_stand(ax, TypeView::subst_all(ax, partial_args(s)), s),
    decreases ax, 0nat,
{
    let bx = TypeView::subst_all(ax, partial_args(s));
    assert forall|i: int| 0 <= i < ax.len() && i < bx.len() implies stands(
        #[trigger] ax[i],
        bx[i],
        s,
    ) by {
        assert(!bx[i].mentions(0, 0x1_0000_0000));
        lemma_solved(ax[i], s);
    }
}

/// Once all is solved, the solution says what types stand for.
proof fn lemma_solution(decl: TypeView, actual: TypeView, s: Seq<Option<TypeView>>)
    requires
        stands(decl, actual, s),
    ensures
        stands_for(decl, actual, solution(s)),
    decreases decl, 1nat,
{
    match decl {
        TypeView::Array(a) => {
            if let TypeView::Array(b) = actual {
                lemma_solution(*a, *b, s);
            }
        },
        TypeView::Struct(_, ax) => {
            if let TypeView::Struct(_, bx) = actual {
                lemma_solutions(ax, bx, s);
            }
        },
        TypeView::Enum(_, ax) => {
            if let TypeView::Enum(_, bx) = actual {
                lemma_solutions(ax, bx, s);
            }
        },
        TypeView::Fn(ap, ar) => {
            if let TypeView::Fn(bp, br) = actual {
                lemma_solutions(ap, bp, s);
                lemma_solution(*ar, *br, s);
            }
        },
        _ => {},
    }
}

proof fn lemma_solutions(ax: Seq<TypeView>, bx: Seq<TypeView>, s: Seq<Option<TypeView>>)
    requires
        all_stand(ax, bx, s),
    ensures
        stand_for(ax, bx, solution(s)),
    decreases ax, 0nat,
{
    assert forall|i: int| 0 <= i < ax.len() && i < bx.len() implies stands_for(
        #[trigger] ax[i],
        bx[i],
        solution(s),
    ) by {
        lemma_solution(ax[i], bx[i], s);
    }
}

/// A value that matches its declared type has the type that it stands for.
proof fn lemma_matched(
    env: EnvView,
    decl: TypeView,
    solved: Seq<Option<TypeView>>,
    value: ExprView,
)
    requires
        solved.len() <= u32::MAX,
    ensures
        match_value(env, decl, solved, value) matches Ok(s) ==> keeps_solved(s, solved) && stands(
            decl,
            value.ty,
            s,
        ),
{
    reveal(match_value);
    lemma_unified(decl, value.ty, solved);
    if !subst_partial(decl, solved).generic() {
        lemma_solved(decl, solved);
    }
}

// -- Scopes and states ------------------------------------------------------

/// Do the tables fit their indices?
pub open spec fn table_sizes(env: EnvView) -> bool {
    &&& env.structs.len() <= u32::MAX
    &&& env.enums.len() <= u32::MAX
    &&& env.funcs.len() <= u32::MAX
    &&& forall|i: int| 0 <= i < env.structs.len() ==> struct_sizes(#[trigger] env.structs[i])
    &&& forall|i: int| 0 <= i < env.enums.len() ==> enum_sizes(#[trigger] env.enums[i])
    &&& forall|i: int|
        0 <= i < env.funcs.len() ==> (#[trigger] env.funcs[i]).type_params.len() <= u32::MAX
}

pub open spec fn struct_sizes(s: StructInfoView) -> bool {
    s.fields.len() <= u32::MAX && s.type_params.len() <= u32::MAX
}

pub open spec fn enum_sizes(e: EnumInfoView) -> bool {
    &&& e.variants.len() <= u32::MAX
    &&& e.type_params.len() <= u32::MAX
    &&& forall|i: int|
        0 <= i < e.variants.len() ==> ((#[trigger] e.variants[i]).1 matches
            VariantPayloadView::Fields(fs) ==> fs.len() <= u32::MAX)
}

/// Does the scope hold what was there when checking came from `st` to `end`?
#[verifier::opaque]
spec fn fits(sc: Scope, env: EnvView, st: BodyView, end: BodyView) -> bool {
    &&& sc.env == env
    &&& table_sizes(env)
    &&& starts_with(sc.locals, end.cur.locals)
    &&& starts_with(sc.captures, captures_of(end.cur))
    &&& sc.ret == end.cur.ret
    &&& sound(st)
    &&& small(end)
    &&& reaches(end, st)
    &&& end.lambda_sigs.len() <= sc.lambda_sigs.len()
    &&& end.lambda_sigs.len() <= sc.lambda_locals.len()
    &&& forall|j: int|
        st.lambda_sigs.len() <= j < end.lambda_sigs.len() ==> #[trigger] sc.lambda_locals[j]
            == end.lambda_locals[j]
    &&& forall|j: int|
        st.lambda_sigs.len() <= j < end.lambda_sigs.len() ==> #[trigger] sc.lambda_sigs[j]
            == end.lambda_sigs[j]
}

/// A scope that holds what was there for a whole holds it for its parts.
proof fn lemma_part(sc: Scope, env: EnvView, a: BodyView, b: BodyView, c: BodyView, d: BodyView)
    requires
        fits(sc, env, a, d),
        reaches(b, a),
        reaches(c, b),
        reaches(d, c),
    ensures
        fits(sc, env, b, c),
{
    reveal(fits);
    lemma_reaches();
    assert(reaches(d, b) && reaches(c, a));
    lemma_reached(d, c);
    lemma_reached(d, b);
    lemma_reached(d, a);
    assert(small(c) && small(b));
    lemma_reached(c, b);
    lemma_reached(b, a);
    assert(sound(b) && sound(c));
    reveal(reaches);
    reveal(sound);
    assert forall|i: int| 0 <= i < c.cur.locals.len() implies #[trigger] sc.locals[i]
        == c.cur.locals[i] by {
        assert(d.cur.locals[i] == c.cur.locals[i]);
    }
    assert forall|i: int| 0 <= i < captures_of(c.cur).len() implies #[trigger] sc.captures[i]
        == captures_of(c.cur)[i] by {
        assert(captures_of(d.cur)[i] == captures_of(c.cur)[i]);
    }
    assert forall|j: int| b.lambda_sigs.len() <= j < c.lambda_sigs.len() implies #[trigger]
        sc.lambda_locals[j] == c.lambda_locals[j] by {
        assert(d.lambda_locals[j] == c.lambda_locals[j]);
    }
    assert forall|j: int| b.lambda_sigs.len() <= j < c.lambda_sigs.len() implies #[trigger]
        sc.lambda_sigs[j] == c.lambda_sigs[j] by {
        assert(d.lambda_sigs[j] == c.lambda_sigs[j]);
    }
}

/// The first of two steps.
proof fn lemma_first(sc: Scope, env: EnvView, a: BodyView, b: BodyView, d: BodyView)
    requires
        fits(sc, env, a, d),
        reaches(b, a),
        reaches(d, b),
    ensures
        fits(sc, env, a, b),
{
    lemma_reaches();
    lemma_part(sc, env, a, a, b, d);
}

/// The second of two steps.
proof fn lemma_rest(sc: Scope, env: EnvView, a: BodyView, b: BodyView, d: BodyView)
    requires
        fits(sc, env, a, d),
        reaches(b, a),
        reaches(d, b),
    ensures
        fits(sc, env, b, d),
{
    lemma_reaches();
    lemma_part(sc, env, a, b, d, d);
}

// -- Expressions ------------------------------------------------------------

proof fn judge_var(env: EnvView, st: BodyView, name: Seq<char>, line: u32, sc: Scope)
    requires
        value_of(env, st, name, line) is Ok,
        fits(sc, env, st, value_of(env, st, name, line)->Ok_0.2),
    ensures
        ({
            let (res, ty, _) = value_of(env, st, name, line)->Ok_0;
            name_rule(sc, name, Some(res), ty)
        }),
{
    lemma_reaches();
    reveal(value_of);
    reveal(fits);
    keep_resolve_var(st, name);
    let (st1, r) = resolve_var(st, name);
    reveal(reaches);
    match r {
        Some((res, ty)) => {
            lemma_found(sc, st, st1, name, res, ty);
        },
        None => {
            lemma_position_from(func_names(env.funcs), name, 0);
        },
    }
}

/// A variable of the checker's state is one of the scope.
proof fn lemma_found(
    sc: Scope,
    st: BodyView,
    st1: BodyView,
    name: Seq<char>,
    res: VarRes,
    ty: TypeView,
)
    requires
        starts_with(st1.cur.locals, st.cur.locals),
        starts_with(sc.locals, st1.cur.locals),
        starts_with(sc.captures, captures_of(st1.cur)),
        finds(st.cur.locals, captures_of(st1.cur), res, ty),
    ensures
        finds(sc.locals, sc.captures, res, ty),
        name_rule(sc, name, Some(res), ty),
{
    match res {
        VarRes::Local(i) => {
            assert(st1.cur.locals[i as int] == st.cur.locals[i as int]);
            assert(sc.locals[i as int] == st1.cur.locals[i as int]);
        },
        VarRes::Captured(i) => {
            assert(sc.captures[i as int] == captures_of(st1.cur)[i as int]);
        },
        VarRes::Func(_) => {},
    }
}

/// The bits of a value that a kind holds stand for it.
proof fn lemma_literal_bits(v: int, expected: Option<TypeView>, line: u32)
    requires
        -0xffff_ffff_ffff_ffff <= v <= 0xffff_ffff_ffff_ffff,
    ensures
        literal_kind(v, expected, line) matches Ok(k) ==> k.holds(decode(k, bits_of(v))),
{
    reveal(literal_kind);
}

proof fn judge_expr(
    env: EnvView,
    st: BodyView,
    e: ExprView,
    expected: Option<TypeView>,
    sc: Scope,
)
    requires
        check_expr(env, st, e, expected) is Ok,
        fits(sc, env, st, check_expr(env, st, e, expected)->Ok_0.1),
    ensures
        judged(sc, check_expr(env, st, e, expected)->Ok_0.0),
    decreases e, 9int,
{
    lemma_reaches();
    let line = e.line;
    match e.kind {
        ExprKindView::Int(digits) => {
            lemma_literal_bits(digits as int, expected, line);
        },
        ExprKindView::Var { name, .. } => {
            judge_var(env, st, name, line, sc);
        },
        ExprKindView::Unary(op, sub) => {
            judge_unary(env, st, op, *sub, line, expected, sc);
        },
        ExprKindView::Binary(_, _, _) => {
            judge_binary(env, st, e, expected, sc);
        },
        ExprKindView::If { .. } => {
            judge_if(env, st, e, expected, sc);
        },
        ExprKindView::Call { .. } => {
            judge_call(env, st, e, expected, sc);
        },
        ExprKindView::VariantStructLit { enum_name, variant, fields } => {
            let eid = env.enum_id(enum_name)->0;
            lemma_position_from(enum_names(env.enums), enum_name, 0);
            judge_variant_fields(env, st, eid, enum_name, variant, fields, line, expected, sc);
        },
        ExprKindView::Match { .. } => {
            judge_match(env, st, e, expected, sc);
        },
        ExprKindView::Field { obj, name, index } => {
            judge_field(env, st, *obj, name, index, line, expected, sc);
        },
        ExprKindView::Index(_, _) => {
            judge_index(env, st, e, sc);
        },
        ExprKindView::Cast(sub, te) => {
            judge_cast(env, st, *sub, te, line, sc);
        },
        ExprKindView::ArrayLit(elems) => {
            judge_array(env, st, elems, line, expected, sc);
        },
        ExprKindView::StructLit { name, fields, .. } => {
            judge_struct_lit(env, st, name, fields, line, expected, sc);
        },
        ExprKindView::Lambda(lam) => {
            judge_lambda(env, st, *lam, line, sc);
        },
        _ => {},
    }
}

proof fn judge_unary(
    env: EnvView,
    st: BodyView,
    op: UnOp,
    sub: ExprView,
    line: u32,
    expected: Option<TypeView>,
    sc: Scope,
)
    requires
        check_unary(env, st, op, sub, line, expected) is Ok,
        fits(sc, env, st, check_unary(env, st, op, sub, line, expected)->Ok_0.1),
    ensures
        judged(sc, check_unary(env, st, op, sub, line, expected)->Ok_0.0),
    decreases sub, 10int,
{
    lemma_reaches();
    if op is Neg && sub.kind is Int {
        lemma_literal_bits(-(sub.kind->Int_0 as int), expected, line);
    } else {
        let want = if op is BitNot {
            expected
        } else {
            None
        };
        judge_expr(env, st, sub, want, sc);
        reveal(unary_type);
    }
}

proof fn lemma_binary_type(env: EnvView, op: BinOp, l: TypeView, r: TypeView, line: u32)
    ensures
        binary_type(env, op, l, r, line) matches Ok(ty) ==> binary_rule(env, op, l, r, ty),
{
    reveal(binary_type);
    reveal(logical_type);
    reveal(equality_type);
    reveal(comparison_type);
    reveal(arith_type);
    reveal(check_arith_op);
}

proof fn judge_binary(
    env: EnvView,
    st: BodyView,
    e: ExprView,
    expected: Option<TypeView>,
    sc: Scope,
)
    requires
        check_binary(env, st, e, expected) is Ok,
        fits(sc, env, st, check_binary(env, st, e, expected)->Ok_0.1),
    ensures
        judged(sc, check_binary(env, st, e, expected)->Ok_0.0),
    decreases e, 8int,
{
    lemma_reaches();
    let op = e.kind->Binary_0;
    let lhs = *e.kind->Binary_1;
    let rhs = *e.kind->Binary_2;
    let (l, st1) = check_expr(env, st, lhs, left_expected(op, expected))->Ok_0;
    let want = Some(right_expected(op, l.ty));
    let (r, st2) = check_expr(env, st1, rhs, want)->Ok_0;
    keep_check_expr(env, st, lhs, left_expected(op, expected));
    keep_check_expr(env, st1, rhs, want);
    lemma_first(sc, env, st, st1, st2);
    lemma_rest(sc, env, st, st1, st2);
    judge_expr(env, st, lhs, left_expected(op, expected), sc);
    judge_expr(env, st1, rhs, want, sc);
    lemma_binary_type(env, op, l.ty, r.ty, e.line);
    reveal(fits);
}

proof fn judge_cond(env: EnvView, st: BodyView, cond: ExprView, sc: Scope)
    requires
        check_cond(env, st, cond) is Ok,
        fits(sc, env, st, check_cond(env, st, cond)->Ok_0.1),
    ensures
        judged(sc, check_cond(env, st, cond)->Ok_0.0),
        check_cond(env, st, cond)->Ok_0.0.ty is Bool,
    decreases cond, 10int,
{
    lemma_reaches();
    judge_expr(env, st, cond, Some(TypeView::Bool), sc);
}

proof fn judge_if(
    env: EnvView,
    st: BodyView,
    e: ExprView,
    expected: Option<TypeView>,
    sc: Scope,
)
    requires
        check_if(env, st, e, expected) is Ok,
        fits(sc, env, st, check_if(env, st, e, expected)->Ok_0.1),
    ensures
        judged(sc, check_if(env, st, e, expected)->Ok_0.0),
    decreases e, 8int,
{
    lemma_reaches();
    let cond = *e.kind->If_cond;
    let then = *e.kind->If_then;
    let els = *e.kind->If_els;
    let (c, st1) = check_cond(env, st, cond)->Ok_0;
    let (t, st2) = check_expr(env, st1, then, expected)->Ok_0;
    let (f, st3) = check_expr(env, st2, els, Some(t.ty))->Ok_0;
    keep_check_cond(env, st, cond);
    keep_check_expr(env, st1, then, expected);
    keep_check_expr(env, st2, els, Some(t.ty));
    lemma_part(sc, env, st, st, st1, st3);
    lemma_part(sc, env, st, st1, st2, st3);
    lemma_part(sc, env, st, st2, st3, st3);
    judge_cond(env, st, cond, sc);
    judge_expr(env, st1, then, expected, sc);
    judge_expr(env, st2, els, Some(t.ty), sc);
}

proof fn judge_index(env: EnvView, st: BodyView, e: ExprView, sc: Scope)
    requires
        check_index(env, st, e) is Ok,
        fits(sc, env, st, check_index(env, st, e)->Ok_0.1),
    ensures
        judged(sc, check_index(env, st, e)->Ok_0.0),
    decreases e, 8int,
{
    lemma_reaches();
    let obj = *e.kind->Index_0;
    let idx = *e.kind->Index_1;
    let (o, st1) = check_expr(env, st, obj, None)->Ok_0;
    let (i, st2) = check_expr(env, st1, idx, Some(int_t()))->Ok_0;
    keep_check_expr(env, st, obj, None);
    keep_check_expr(env, st1, idx, Some(int_t()));
    lemma_first(sc, env, st, st1, st2);
    lemma_rest(sc, env, st, st1, st2);
    judge_expr(env, st, obj, None, sc);
    judge_expr(env, st1, idx, Some(int_t()), sc);
}

proof fn judge_cast(
    env: EnvView,
    st: BodyView,
    sub: ExprView,
    te: TypeExprView,
    line: u32,
    sc: Scope,
)
    requires
        check_cast(env, st, sub, te, line) is Ok,
        fits(sc, env, st, check_cast(env, st, sub, te, line)->Ok_0.1),
    ensures
        judged(sc, check_cast(env, st, sub, te, line)->Ok_0.0),
    decreases sub, 10int,
{
    lemma_reaches();
    let target = resolve_type(env, te)->Ok_0;
    let want = if is_literal(sub) {
        Some(target)
    } else {
        None
    };
    judge_expr(env, st, sub, want, sc);
    reveal(fits);
}

proof fn judge_array(
    env: EnvView,
    st: BodyView,
    elems: Seq<ExprView>,
    line: u32,
    expected: Option<TypeView>,
    sc: Scope,
)
    requires
        check_array(env, st, elems, line, expected) is Ok,
        fits(sc, env, st, check_array(env, st, elems, line, expected)->Ok_0.1),
    ensures
        judged(sc, check_array(env, st, elems, line, expected)->Ok_0.0),
    decreases elems, elems.len() + 1,
{
    lemma_reaches();
    let want = match expected {
        Some(TypeView::Array(elem)) => Some(*elem),
        _ => None,
    };
    judge_elems(env, st, elems, 0, want, Seq::empty(), sc);
}

/// All elements of an array have one type: the expected one, or the first's.
proof fn judge_elems(
    env: EnvView,
    st: BodyView,
    elems: Seq<ExprView>,
    i: nat,
    want: Option<TypeView>,
    acc: Seq<ExprView>,
    sc: Scope,
)
    requires
        check_elems(env, st, elems, i, want, acc) is Ok,
        fits(sc, env, st, check_elems(env, st, elems, i, want, acc)->Ok_0.2),
        all_judged(sc, acc),
        match want {
            Some(t) => forall|k: int| 0 <= k < acc.len() ==> (#[trigger] acc[k]).ty == t,
            None => acc.len() == 0,
        },
    ensures
        ({
            let (es, ty, _) = check_elems(env, st, elems, i, want, acc)->Ok_0;
            &&& all_judged(sc, es)
            &&& ty matches Some(t) ==> forall|k: int| 0 <= k < es.len() ==> (#[trigger] es[k]).ty == t
        }),
    decreases elems, elems.len() - i,
{
    lemma_reaches();
    if i < elems.len() {
        let (x, st1) = check_expr(env, st, elems[i as int], want)->Ok_0;
        let more = acc.push(x);
        let next = match want {
            None => Some(x.ty),
            Some(t) => Some(t),
        };
        let end = check_elems(env, st1, elems, i + 1, next, more)->Ok_0.2;
        keep_check_expr(env, st, elems[i as int], want);
        keep_check_elems(env, st1, elems, i + 1, next, more);
        lemma_first(sc, env, st, st1, end);
        lemma_rest(sc, env, st, st1, end);
        judge_expr(env, st, elems[i as int], want, sc);
        assert(all_judged(sc, more));
        judge_elems(env, st1, elems, i + 1, next, more, sc);
    }
}

// -- Values against declarations --------------------------------------------

proof fn judge_against(
    env: EnvView,
    st: BodyView,
    decl: TypeView,
    solved: Seq<Option<TypeView>>,
    value: ExprView,
    sc: Scope,
)
    requires
        check_against(env, st, decl, solved, value) is Ok,
        fits(sc, env, st, check_against(env, st, decl, solved, value)->Ok_0.2),
        solved.len() <= u32::MAX,
    ensures
        ({
            let (x, s, _) = check_against(env, st, decl, solved, value)->Ok_0;
            &&& judged(sc, x)
            &&& keeps_solved(s, solved)
            &&& stands(decl, x.ty, s)
        }),
    decreases value, 10int,
{
    lemma_reaches();
    let want = subst_partial(decl, solved);
    let expected = if want.generic() {
        None
    } else {
        Some(want)
    };
    let (x, _) = check_expr(env, st, value, expected)->Ok_0;
    judge_expr(env, st, value, expected, sc);
    lemma_matched(env, decl, solved, x);
}

/// What has been read of a literal's fields: each by its index and name, with a
/// value of the declared type, and none twice.
spec fn read_fields(
    decl: Seq<(Seq<char>, TypeView)>,
    acc: Seq<(Seq<char>, ExprView, u32)>,
    seen: Seq<bool>,
    s: Seq<Option<TypeView>>,
) -> bool {
    &&& seen.len() == decl.len()
    &&& forall|i: int| 0 <= i < acc.len() ==> read_field(decl, seen, s, #[trigger] acc[i])
    &&& forall|i: int, k: int|
        0 <= i < k < acc.len() ==> (#[trigger] acc[i]).2 != (#[trigger] acc[k]).2
    &&& forall|j: int| 0 <= j < seen.len() && #[trigger] seen[j] ==> given(acc, j)
}

spec fn read_field(
    decl: Seq<(Seq<char>, TypeView)>,
    seen: Seq<bool>,
    s: Seq<Option<TypeView>>,
    f: (Seq<char>, ExprView, u32),
) -> bool {
    f.2 < decl.len() && seen[f.2 as int] && decl[f.2 as int].0 == f.0 && stands(
        decl[f.2 as int].1,
        f.1.ty,
        s,
    )
}

proof fn lemma_read_more(
    decl: Seq<(Seq<char>, TypeView)>,
    acc: Seq<(Seq<char>, ExprView, u32)>,
    seen: Seq<bool>,
    a: Seq<Option<TypeView>>,
    b: Seq<Option<TypeView>>,
    name: Seq<char>,
    x: ExprView,
    j: nat,
)
    requires
        read_fields(decl, acc, seen, a),
        keeps_solved(b, a),
        j < decl.len() <= u32::MAX,
        !seen[j as int],
        decl[j as int].0 == name,
        stands(decl[j as int].1, x.ty, b),
    ensures
        read_fields(decl, acc.push((name, x, j as u32)), seen.update(j as int, true), b),
{
    let more = acc.push((name, x, j as u32));
    let seen1 = seen.update(j as int, true);
    assert forall|i: int| 0 <= i < more.len() implies read_field(
        decl,
        seen1,
        b,
        #[trigger] more[i],
    ) by {
        if i < acc.len() {
            assert(read_field(decl, seen, a, acc[i]));
            lemma_still_stands(decl[acc[i].2 as int].1, acc[i].1.ty, a, b);
        }
    }
    assert forall|i: int, k: int| 0 <= i < k < more.len() implies (#[trigger] more[i]).2 != (
    #[trigger] more[k]).2 by {
        assert(read_field(decl, seen, a, acc[i]));
        if k < acc.len() {
            assert(acc[i].2 != acc[k].2);
        }
    }
    assert forall|i: int| 0 <= i < seen1.len() && #[trigger] seen1[i] implies given(more, i) by {
        if i == j {
            assert(more[acc.len() as int].2 == i);
        } else {
            assert(seen[i]);
            let k = choose|k: int| 0 <= k < acc.len() && (#[trigger] acc[k]).2 == i;
            assert(more[k].2 == i);
        }
    }
}

proof fn judge_inits(
    env: EnvView,
    st: BodyView,
    decl: Seq<(Seq<char>, TypeView)>,
    fields: Seq<(Seq<char>, ExprView, u32)>,
    what: Seq<char>,
    owner: Seq<char>,
    i: nat,
    seen: Seq<bool>,
    solved: Seq<Option<TypeView>>,
    acc: Seq<(Seq<char>, ExprView, u32)>,
    sc: Scope,
)
    requires
        check_inits(env, st, decl, fields, what, owner, i, seen, solved, acc) is Ok,
        fits(
            sc,
            env,
            st,
            check_inits(env, st, decl, fields, what, owner, i, seen, solved, acc)->Ok_0.3,
        ),
        solved.len() <= u32::MAX,
        decl.len() <= u32::MAX,
        inits_judged(sc, acc),
        read_fields(decl, acc, seen, solved),
    ensures
        ({
            let (fs, seen1, s, _) = check_inits(
                env,
                st,
                decl,
                fields,
                what,
                owner,
                i,
                seen,
                solved,
                acc,
            )->Ok_0;
            &&& inits_judged(sc, fs)
            &&& read_fields(decl, fs, seen1, s)
            &&& s.len() == solved.len()
        }),
    decreases fields, fields.len() - i,
{
    lemma_reaches();
    if i < fields.len() {
        let fname = fields[i as int].0;
        let value = fields[i as int].1;
        lemma_position_from(field_names(decl), fname, 0);
        let j = position(field_names(decl), fname)->0;
        let (x, s, st1) = check_against(env, st, decl[j as int].1, solved, value)->Ok_0;
        let more = acc.push((fname, x, j as u32));
        let seen1 = seen.update(j as int, true);
        let end = check_inits(env, st1, decl, fields, what, owner, i + 1, seen1, s, more)->Ok_0.3;
        keep_check_against(env, st, decl[j as int].1, solved, value);
        keep_check_inits(env, st1, decl, fields, what, owner, i + 1, seen1, s, more);
        lemma_first(sc, env, st, st1, end);
        lemma_rest(sc, env, st, st1, end);
        judge_against(env, st, decl[j as int].1, solved, value, sc);
        assert(inits_judged(sc, more));
        assert(field_names(decl)[j as int] == decl[j as int].0);
        lemma_read_more(decl, acc, seen, solved, s, fname, x, j);
        judge_inits(env, st1, decl, fields, what, owner, i + 1, seen1, s, more, sc);
    }
}

proof fn lemma_first_false(seen: Seq<bool>, i: nat)
    ensures
        first_false(seen, i) is None ==> forall|j: int| i <= j < seen.len() ==> #[trigger] seen[j],
    decreases seen.len() - i,
{
    if i < seen.len() {
        lemma_first_false(seen, i + 1);
    }
}

/// Fields that were all read are those that are declared.
proof fn lemma_gives_fields(
    decl: Seq<(Seq<char>, TypeView)>,
    fs: Seq<(Seq<char>, ExprView, u32)>,
    seen: Seq<bool>,
    s: Seq<Option<TypeView>>,
)
    requires
        read_fields(decl, fs, seen, s),
        first_false(seen, 0) is None,
    ensures
        gives_fields(decl, solution(s), fs),
{
    lemma_first_false(seen, 0);
    assert forall|i: int| 0 <= i < fs.len() implies gives_field(
        decl,
        solution(s),
        #[trigger] fs[i],
    ) by {
        assert(read_field(decl, seen, s, fs[i]));
        lemma_solution(decl[fs[i].2 as int].1, fs[i].1.ty, s);
    }
    assert forall|j: int| 0 <= j < decl.len() implies #[trigger] given(fs, j) by {
        assert(seen[j]);
    }
}

proof fn lemma_seed_len(expected: Option<TypeView>, id: nat, n: nat)
    ensures
        struct_seed(expected, id, n).len() == n,
        enum_seed(expected, id, n).len() == n,
{
    reveal(struct_seed);
    reveal(enum_seed);
}

proof fn judge_struct_lit(
    env: EnvView,
    st: BodyView,
    name: Seq<char>,
    fields: Seq<(Seq<char>, ExprView, u32)>,
    line: u32,
    expected: Option<TypeView>,
    sc: Scope,
)
    requires
        check_struct_lit(env, st, name, fields, line, expected) is Ok,
        fits(sc, env, st, check_struct_lit(env, st, name, fields, line, expected)->Ok_0.1),
    ensures
        judged(sc, check_struct_lit(env, st, name, fields, line, expected)->Ok_0.0),
    decreases fields, fields.len() + 1,
{
    lemma_reaches();
    lemma_position_from(struct_names(env.structs), name, 0);
    let sid = env.struct_id(name)->0;
    let info = env.structs[sid as int];
    assert(table_sizes(env) && sc.env == env) by {
        reveal(fits);
    }
    assert(struct_sizes(info));
    let seed = struct_seed(expected, sid, info.type_params.len());
    let seen0 = none_seen(info.fields.len());
    lemma_seed_len(expected, sid, info.type_params.len());
    let r = check_inits(
        env,
        st,
        info.fields,
        fields,
        ": struct '"@,
        name,
        0,
        seen0,
        seed,
        Seq::empty(),
    );
    judge_inits(
        env,
        st,
        info.fields,
        fields,
        ": struct '"@,
        name,
        0,
        seen0,
        seed,
        Seq::empty(),
        sc,
    );
    let (fs, seen, solved, _) = r->Ok_0;
    lemma_gives_fields(info.fields, fs, seen, solved);
}

proof fn judge_variant_fields(
    env: EnvView,
    st: BodyView,
    eid: nat,
    enum_name: Seq<char>,
    variant: Seq<char>,
    fields: Seq<(Seq<char>, ExprView, u32)>,
    line: u32,
    expected: Option<TypeView>,
    sc: Scope,
)
    requires
        eid < env.enums.len(),
        check_variant_fields(env, st, eid, enum_name, variant, fields, line, expected) is Ok,
        fits(
            sc,
            env,
            st,
            check_variant_fields(
                env,
                st,
                eid,
                enum_name,
                variant,
                fields,
                line,
                expected,
            )->Ok_0.1,
        ),
    ensures
        judged(
            sc,
            check_variant_fields(
                env,
                st,
                eid,
                enum_name,
                variant,
                fields,
                line,
                expected,
            )->Ok_0.0,
        ),
    decreases fields, fields.len() + 1,
{
    lemma_reaches();
    reveal(make_variant);
    let info = env.enums[eid as int];
    assert(table_sizes(env) && sc.env == env) by {
        reveal(fits);
    }
    assert(enum_sizes(info));
    lemma_position_from(variant_names(info.variants), variant, 0);
    let tag = position(variant_names(info.variants), variant)->0;
    let payload = info.variants[tag as int].1;
    let decl = payload->Fields_0;
    let seed = enum_seed(expected, eid, info.type_params.len());
    let seen0 = none_seen(decl.len());
    lemma_seed_len(expected, eid, info.type_params.len());
    let r = check_inits(
        env,
        st,
        decl,
        fields,
        ": variant '"@,
        variant,
        0,
        seen0,
        seed,
        Seq::empty(),
    );
    judge_inits(
        env,
        st,
        decl,
        fields,
        ": variant '"@,
        variant,
        0,
        seen0,
        seed,
        Seq::empty(),
        sc,
    );
    let (fs, seen, solved, _) = r->Ok_0;
    lemma_gives_fields(decl, fs, seen, solved);
    assert(payload_judged(sc, VariantArgsView::Fields(fs)));
}

proof fn judge_variant_call(
    env: EnvView,
    st: BodyView,
    eid: nat,
    enum_name: Seq<char>,
    variant: Seq<char>,
    args: Seq<ExprView>,
    line: u32,
    expected: Option<TypeView>,
    sc: Scope,
)
    requires
        eid < env.enums.len(),
        check_variant_call(env, st, eid, enum_name, variant, args, line, expected) is Ok,
        fits(
            sc,
            env,
            st,
            check_variant_call(env, st, eid, enum_name, variant, args, line, expected)->Ok_0.1,
        ),
    ensures
        judged(
            sc,
            check_variant_call(env, st, eid, enum_name, variant, args, line, expected)->Ok_0.0,
        ),
    decreases args, args.len() + 1,
{
    lemma_reaches();
    reveal(make_variant);
    let info = env.enums[eid as int];
    assert(table_sizes(env) && sc.env == env) by {
        reveal(fits);
    }
    assert(enum_sizes(info));
    lemma_position_from(variant_names(info.variants), variant, 0);
    let tag = position(variant_names(info.variants), variant)->0;
    let pty = info.variants[tag as int].1->Single_0;
    let seed = enum_seed(expected, eid, info.type_params.len());
    lemma_seed_len(expected, eid, info.type_params.len());
    judge_against(env, st, pty, seed, args[0], sc);
    let (x, solved, _) = check_against(env, st, pty, seed, args[0])->Ok_0;
    lemma_solution(pty, x.ty, solved);
    assert(payload_judged(sc, VariantArgsView::Single(Box::new(x))));
}

/// A member of a checked object that is no call: a method with its receiver, or
/// a field.
proof fn lemma_member_value(
    env: EnvView,
    obj: ExprView,
    name: Seq<char>,
    index: u32,
    line: u32,
    sc: Scope,
)
    requires
        judged(sc, obj),
        sc.env == env,
        table_sizes(env),
    ensures
        member_value(env, obj, name, index, line) matches Ok(x) ==> judged(sc, x),
{
    reveal(member_value);
    lemma_field_after(env, obj, name, index, line, sc);
    if let Some((fid, _)) = env.lookup_method(obj.ty, name) {
        reveal(bound_method);
        if let Ok(x) = bound_method(env, obj, name, fid, line) {
            let sig = env.funcs[fid as int];
            lemma_unified(sig.params[0], obj.ty, unsolved(sig.type_params.len()));
            let s = unify(sig.params[0], obj.ty, unsolved(sig.type_params.len())).1;
            lemma_solution(sig.params[0], obj.ty, s);
            assert(judged(sc, x));
        }
    }
}

proof fn lemma_field_after(
    env: EnvView,
    obj: ExprView,
    name: Seq<char>,
    index: u32,
    line: u32,
    sc: Scope,
)
    requires
        judged(sc, obj),
        sc.env == env,
        table_sizes(env),
    ensures
        field_after_obj(env, obj, name, index, line) matches Ok(x) ==> judged(sc, x),
{
    reveal(field_after_obj);
    if let TypeView::Struct(sid, _) = obj.ty {
        if sid < env.structs.len() {
            assert(struct_sizes(env.structs[sid as int]));
            let fields = env.structs[sid as int].fields;
            lemma_position_from(field_names(fields), name, 0);
            if let Some(i) = position(field_names(fields), name) {
                assert(field_names(fields)[i as int] == fields[i as int].0);
            }
        }
    }
}

proof fn judge_field(
    env: EnvView,
    st: BodyView,
    obj: ExprView,
    name: Seq<char>,
    index: u32,
    line: u32,
    expected: Option<TypeView>,
    sc: Scope,
)
    requires
        check_field(env, st, obj, name, index, line, expected) is Ok,
        fits(sc, env, st, check_field(env, st, obj, name, index, line, expected)->Ok_0.1),
    ensures
        judged(sc, check_field(env, st, obj, name, index, line, expected)->Ok_0.0),
    decreases obj, 12int,
{
    lemma_reaches();
    assert(table_sizes(env) && sc.env == env) by {
        reveal(fits);
    }
    keep_names_type(env, st, obj);
    let (target, st1) = names_type(env, st, obj);
    match target {
        Some(tname) => {
            lemma_position_from(enum_names(env.enums), tname, 0);
            let eid = env.enum_id(tname)->0;
            let info = env.enums[eid as int];
            assert(enum_sizes(info));
            lemma_position_from(variant_names(info.variants), name, 0);
            lemma_seed_len(expected, eid, info.type_params.len());
            reveal(check_variant_bare);
            reveal(make_variant);
            assert(payload_judged(sc, VariantArgsView::Bare));
        },
        None => {
            let (o, st2) = check_expr(env, st1, obj, None)->Ok_0;
            keep_check_expr(env, st1, obj, None);
            lemma_rest(sc, env, st, st1, st2);
            judge_expr(env, st1, obj, None, sc);
            lemma_member_value(env, o, name, index, line, sc);
        },
    }
}

// -- Calls ------------------------------------------------------------------

proof fn judge_args_from(
    env: EnvView,
    st: BodyView,
    params: Seq<TypeView>,
    off: nat,
    args: Seq<ExprView>,
    i: nat,
    acc: Seq<ExprView>,
    sc: Scope,
)
    requires
        check_args_from(env, st, params, off, args, i, acc) is Ok,
        fits(sc, env, st, check_args_from(env, st, params, off, args, i, acc)->Ok_0.1),
        all_judged(sc, acc),
        i <= args.len(),
        acc.len() == off + i,
        params.len() == off + args.len(),
        forall|k: int| 0 <= k < acc.len() ==> (#[trigger] acc[k]).ty == params[k],
    ensures
        ({
            let xs = check_args_from(env, st, params, off, args, i, acc)->Ok_0.0;
            all_judged(sc, xs) && types_of(xs) == params
        }),
    decreases args, args.len() - i,
{
    lemma_reaches();
    if i < args.len() {
        let p = params[(off + i) as int];
        let (x, st1) = check_expr(env, st, args[i as int], Some(p))->Ok_0;
        let more = acc.push(x);
        let end = check_args_from(env, st1, params, off, args, i + 1, more)->Ok_0.1;
        keep_check_expr(env, st, args[i as int], Some(p));
        keep_check_args_from(env, st1, params, off, args, i + 1, more);
        lemma_first(sc, env, st, st1, end);
        lemma_rest(sc, env, st, st1, end);
        judge_expr(env, st, args[i as int], Some(p), sc);
        assert(all_judged(sc, more));
        judge_args_from(env, st1, params, off, args, i + 1, more, sc);
    } else {
        assert(types_of(acc) =~= params);
    }
}

proof fn judge_args(
    env: EnvView,
    st: BodyView,
    what: Seq<char>,
    params: Seq<TypeView>,
    recv: Option<ExprView>,
    args: Seq<ExprView>,
    line: u32,
    sc: Scope,
)
    requires
        check_args(env, st, what, params, recv, args, line) is Ok,
        fits(sc, env, st, check_args(env, st, what, params, recv, args, line)->Ok_0.1),
        recv matches Some(r) ==> judged(sc, r),
    ensures
        ({
            let xs = check_args(env, st, what, params, recv, args, line)->Ok_0.0;
            all_judged(sc, xs) && types_of(xs) == params
        }),
    decreases args, args.len() + 1,
{
    lemma_reaches();
    match recv {
        None => judge_args_from(env, st, params, 0, args, 0, Seq::empty(), sc),
        Some(r) => {
            assert(all_judged(sc, seq![r]));
            judge_args_from(env, st, params, 1, args, 0, seq![r], sc);
        },
    }
}

proof fn judge_infer_args_from(
    env: EnvView,
    st: BodyView,
    params: Seq<TypeView>,
    off: nat,
    args: Seq<ExprView>,
    i: nat,
    solved: Seq<Option<TypeView>>,
    acc: Seq<ExprView>,
    sc: Scope,
)
    requires
        infer_args_from(env, st, params, off, args, i, solved, acc) is Ok,
        fits(sc, env, st, infer_args_from(env, st, params, off, args, i, solved, acc)->Ok_0.2),
        all_judged(sc, acc),
        i <= args.len(),
        acc.len() == off + i,
        params.len() == off + args.len(),
        solved.len() <= u32::MAX,
        forall|k: int| 0 <= k < acc.len() ==> stands(params[k], (#[trigger] acc[k]).ty, solved),
    ensures
        ({
            let (xs, s, _) = infer_args_from(env, st, params, off, args, i, solved, acc)->Ok_0;
            &&& all_judged(sc, xs)
            &&& s.len() == solved.len()
            &&& xs.len() == params.len()
            &&& forall|k: int| 0 <= k < xs.len() ==> stands(params[k], (#[trigger] xs[k]).ty, s)
        }),
    decreases args, args.len() - i,
{
    lemma_reaches();
    if i < args.len() {
        let p = params[(off + i) as int];
        let (x, s, st1) = check_against(env, st, p, solved, args[i as int])->Ok_0;
        let more = acc.push(x);
        let end = infer_args_from(env, st1, params, off, args, i + 1, s, more)->Ok_0.2;
        keep_check_against(env, st, p, solved, args[i as int]);
        keep_infer_args_from(env, st1, params, off, args, i + 1, s, more);
        lemma_first(sc, env, st, st1, end);
        lemma_rest(sc, env, st, st1, end);
        judge_against(env, st, p, solved, args[i as int], sc);
        assert(all_judged(sc, more));
        assert forall|k: int| 0 <= k < more.len() implies stands(
            params[k],
            (#[trigger] more[k]).ty,
            s,
        ) by {
            if k < acc.len() {
                assert(more[k] == acc[k]);
                lemma_still_stands(params[k], acc[k].ty, solved, s);
            }
        }
        judge_infer_args_from(env, st1, params, off, args, i + 1, s, more, sc);
    }
}

proof fn judge_infer_call(
    env: EnvView,
    st: BodyView,
    what: Seq<char>,
    sig: FuncSigView,
    recv: Option<ExprView>,
    args: Seq<ExprView>,
    expected: Option<TypeView>,
    line: u32,
    sc: Scope,
)
    requires
        infer_call(env, st, what, sig, recv, args, expected, line) is Ok,
        fits(sc, env, st, infer_call(env, st, what, sig, recv, args, expected, line)->Ok_0.2),
        recv matches Some(r) ==> judged(sc, r),
        sig.params.len() == args.len() + if recv is Some {
            1int
        } else {
            0int
        },
        sig.type_params.len() <= u32::MAX,
    ensures
        ({
            let (xs, targs, _) = infer_call(
                env,
                st,
                what,
                sig,
                recv,
                args,
                expected,
                line,
            )->Ok_0;
            &&& all_judged(sc, xs)
            &&& targs.len() == sig.type_params.len()
            &&& xs.len() == sig.params.len()
            &&& forall|k: int|
                0 <= k < xs.len() ==> stands_for(sig.params[k], (#[trigger] xs[k]).ty, targs)
        }),
    decreases args, args.len() + 1,
{
    lemma_reaches();
    let n = sig.type_params.len();
    let seed = call_seed(sig.ret, expected, n);
    assert(seed.len() == n) by {
        reveal(call_seed);
        if let Some(exp) = expected {
            lemma_unified(sig.ret, exp, unsolved(n));
        }
    }
    let (xs, s, _) = (match recv {
        None => infer_args_from(env, st, sig.params, 0, args, 0, seed, Seq::empty()),
        Some(r) => infer_args_from(
            env,
            st,
            sig.params,
            1,
            args,
            0,
            match_value(env, sig.params[0], seed, r)->Ok_0,
            seq![r],
        ),
    })->Ok_0;
    match recv {
        None => {
            judge_infer_args_from(env, st, sig.params, 0, args, 0, seed, Seq::empty(), sc);
        },
        Some(r) => {
            lemma_matched(env, sig.params[0], seed, r);
            let s0 = match_value(env, sig.params[0], seed, r)->Ok_0;
            assert(all_judged(sc, seq![r]));
            judge_infer_args_from(env, st, sig.params, 1, args, 0, s0, seq![r], sc);
        },
    }
    assert forall|k: int| 0 <= k < xs.len() implies stands_for(
        sig.params[k],
        (#[trigger] xs[k]).ty,
        solution(s),
    ) by {
        lemma_solution(sig.params[k], xs[k].ty, s);
    }
}

proof fn judge_call_sig(
    env: EnvView,
    st: BodyView,
    what: Seq<char>,
    fid: u32,
    recv: Option<ExprView>,
    args: Seq<ExprView>,
    expected: Option<TypeView>,
    line: u32,
    sc: Scope,
)
    requires
        check_call_sig(env, st, what, fid, recv, args, expected, line) is Ok,
        fits(sc, env, st, check_call_sig(env, st, what, fid, recv, args, expected, line)->Ok_0.4),
        recv matches Some(r) ==> judged(sc, r),
    ensures
        ({
            let (_, targs, rty, xs, _) = check_call_sig(
                env,
                st,
                what,
                fid,
                recv,
                args,
                expected,
                line,
            )->Ok_0;
            all_judged(sc, xs) && function_rule(env, Some(fid), targs, types_of(xs), rty)
        }),
    decreases args, args.len() + 2,
{
    lemma_reaches();
    let sig = env.funcs[fid as int];
    assert(sig.type_params.len() <= u32::MAX) by {
        reveal(fits);
    }
    if sig.type_params.len() == 0 {
        judge_args(env, st, what, sig.params, recv, args, line, sc);
    } else {
        judge_infer_call(env, st, what, sig, recv, args, expected, line, sc);
    }
}

proof fn judge_direct_call(
    env: EnvView,
    st: BodyView,
    what: Seq<char>,
    fid: u32,
    callee: ExprKindView,
    callee_line: u32,
    recv: Option<ExprView>,
    args: Seq<ExprView>,
    expected: Option<TypeView>,
    line: u32,
    sc: Scope,
)
    requires
        direct_call(env, st, what, fid, callee, callee_line, recv, args, expected, line) is Ok,
        fits(
            sc,
            env,
            st,
            direct_call(
                env,
                st,
                what,
                fid,
                callee,
                callee_line,
                recv,
                args,
                expected,
                line,
            )->Ok_0.1,
        ),
        recv matches Some(r) ==> judged(sc, r),
    ensures
        judged(
            sc,
            direct_call(
                env,
                st,
                what,
                fid,
                callee,
                callee_line,
                recv,
                args,
                expected,
                line,
            )->Ok_0.0,
        ),
    decreases args, args.len() + 3,
{
    lemma_reaches();
    judge_call_sig(env, st, what, fid, recv, args, expected, line, sc);
    reveal(fits);
}

proof fn judge_indirect_call(
    env: EnvView,
    st: BodyView,
    callee: ExprView,
    args: Seq<ExprView>,
    direct: Option<u32>,
    inst: Seq<TypeView>,
    line: u32,
    sc: Scope,
)
    requires
        indirect_call(env, st, callee, args, direct, inst, line) is Ok,
        fits(sc, env, st, indirect_call(env, st, callee, args, direct, inst, line)->Ok_0.1),
        judged(sc, callee),
    ensures
        judged(sc, indirect_call(env, st, callee, args, direct, inst, line)->Ok_0.0),
    decreases args, args.len() + 2,
{
    lemma_reaches();
    if let TypeView::Fn(params, _) = callee.ty {
        judge_args(env, st, "function value"@, params, None, args, line, sc);
    }
}

proof fn judge_builtin(
    env: EnvView,
    st: BodyView,
    b: Builtin,
    name: Seq<char>,
    args: Seq<ExprView>,
    line: u32,
    sc: Scope,
)
    requires
        builtin_named(name) == Some(b),
        check_builtin(env, st, b, args, line) is Ok,
        fits(sc, env, st, check_builtin(env, st, b, args, line)->Ok_0.1),
    ensures
        judged(sc, check_builtin(env, st, b, args, line)->Ok_0.0),
    decreases args, 10int,
{
    lemma_reaches();
    reveal(builtin_named);
    if b is GcCollect {
        assert(all_judged(sc, Seq::empty()));
    } else {
        let expected = if b is Assert {
            Some(TypeView::Bool)
        } else {
            None
        };
        let (x, _) = check_expr(env, st, args[0], expected)->Ok_0;
        judge_expr(env, st, args[0], expected, sc);
        assert(all_judged(sc, seq![x]));
        assert(types_of(seq![x]) =~= seq![x.ty]);
    }
}

proof fn judge_builtin_method(
    env: EnvView,
    st: BodyView,
    b: Builtin,
    name: Seq<char>,
    recv: ExprView,
    args: Seq<ExprView>,
    line: u32,
    sc: Scope,
)
    requires
        builtin_method(recv.ty, name, env.option_enum) == Some(b),
        check_builtin_method(env, st, b, recv, args, line) is Ok,
        fits(sc, env, st, check_builtin_method(env, st, b, recv, args, line)->Ok_0.1),
        judged(sc, recv),
    ensures
        judged(sc, check_builtin_method(env, st, b, recv, args, line)->Ok_0.0),
    decreases args, 10int,
{
    lemma_reaches();
    reveal(builtin_method);
    reveal(builtin_result);
    assert(sc.env == env) by {
        reveal(fits);
    }
    if b is Push {
        if let TypeView::Array(elem) = recv.ty {
            let (x, _) = check_expr(env, st, args[0], Some(*elem))->Ok_0;
            judge_expr(env, st, args[0], Some(*elem), sc);
            assert(all_judged(sc, seq![recv, x]));
            assert(types_of(seq![recv, x]) =~= seq![recv.ty, x.ty]);
        }
    } else {
        assert(all_judged(sc, seq![recv]));
        assert(types_of(seq![recv]) =~= seq![recv.ty]);
    }
}

proof fn judge_type_call(
    env: EnvView,
    st: BodyView,
    callee: ExprView,
    tname: Seq<char>,
    mname: Seq<char>,
    args: Seq<ExprView>,
    line: u32,
    expected: Option<TypeView>,
    sc: Scope,
)
    requires
        check_type_call(env, st, callee, tname, mname, args, line, expected) is Ok,
        fits(
            sc,
            env,
            st,
            check_type_call(env, st, callee, tname, mname, args, line, expected)->Ok_0.1,
        ),
    ensures
        judged(
            sc,
            check_type_call(env, st, callee, tname, mname, args, line, expected)->Ok_0.0,
        ),
    decreases args, args.len() + 12,
{
    lemma_reaches();
    if env.enum_id(tname) is Some && has_variant(env, env.enum_id(tname)->0, mname) {
        lemma_position_from(enum_names(env.enums), tname, 0);
        judge_variant_call(env, st, env.enum_id(tname)->0, tname, mname, args, line, expected, sc);
    } else {
        let (fid, _) = env.method(key_of(env, tname), mname)->0;
        judge_direct_call(
            env,
            st,
            tname + "."@ + mname,
            fid,
            callee.kind,
            callee.line,
            None,
            args,
            expected,
            line,
            sc,
        );
    }
}

proof fn judge_name_call(
    env: EnvView,
    st: BodyView,
    callee: ExprView,
    name: Seq<char>,
    args: Seq<ExprView>,
    direct: Option<u32>,
    inst: Seq<TypeView>,
    line: u32,
    expected: Option<TypeView>,
    sc: Scope,
)
    requires
        check_name_call(env, st, callee, name, args, direct, inst, line, expected) is Ok,
        fits(
            sc,
            env,
            st,
            check_name_call(env, st, callee, name, args, direct, inst, line, expected)->Ok_0.1,
        ),
    ensures
        judged(
            sc,
            check_name_call(env, st, callee, name, args, direct, inst, line, expected)->Ok_0.0,
        ),
    decreases args, args.len() + 11,
{
    lemma_reaches();
    let end = check_name_call(env, st, callee, name, args, direct, inst, line, expected)->Ok_0.1;
    keep_resolve_var(st, name);
    let (st1, r) = resolve_var(st, name);
    match r {
        Some((res, ty)) => {
            let f = typed(ExprKindView::Var { name, res: Some(res) }, callee.line, ty);
            keep_indirect_call(env, st1, f, args, direct, inst, line);
            lemma_first(sc, env, st, st1, end);
            lemma_rest(sc, env, st, st1, end);
            assert(judged(sc, f)) by {
                reveal(fits);
                reveal(reaches);
                lemma_found(sc, st, st1, name, res, ty);
            }
            judge_indirect_call(env, st1, f, args, direct, inst, line, sc);
        },
        None => match env.func_id(name) {
            Some(fid) => {
                keep_direct_call(
                    env,
                    st1,
                    name,
                    fid as u32,
                    callee.kind,
                    callee.line,
                    None,
                    args,
                    expected,
                    line,
                );
                lemma_rest(sc, env, st, st1, end);
                judge_direct_call(
                    env,
                    st1,
                    name,
                    fid as u32,
                    callee.kind,
                    callee.line,
                    None,
                    args,
                    expected,
                    line,
                    sc,
                );
            },
            None => {
                let b = builtin_named(name)->0;
                keep_check_builtin(env, st1, b, args, line);
                lemma_rest(sc, env, st, st1, end);
                judge_builtin(env, st1, b, name, args, line, sc);
            },
        },
    }
}

proof fn judge_member_call(
    env: EnvView,
    st: BodyView,
    callee: ExprView,
    obj: ExprView,
    mname: Seq<char>,
    index: u32,
    args: Seq<ExprView>,
    direct: Option<u32>,
    inst: Seq<TypeView>,
    line: u32,
    expected: Option<TypeView>,
    sc: Scope,
)
    requires
        check_member_call(
            env,
            st,
            callee,
            obj,
            mname,
            index,
            args,
            direct,
            inst,
            line,
            expected,
        ) is Ok,
        fits(
            sc,
            env,
            st,
            check_member_call(
                env,
                st,
                callee,
                obj,
                mname,
                index,
                args,
                direct,
                inst,
                line,
                expected,
            )->Ok_0.1,
        ),
        judged(sc, obj),
    ensures
        judged(
            sc,
            check_member_call(
                env,
                st,
                callee,
                obj,
                mname,
                index,
                args,
                direct,
                inst,
                line,
                expected,
            )->Ok_0.0,
        ),
    decreases args, args.len() + 11,
{
    lemma_reaches();
    match env.lookup_method(obj.ty, mname) {
        Some((fid, _)) => {
            judge_direct_call(
                env,
                st,
                mname,
                fid,
                ExprKindView::Var { name: mname, res: None },
                callee.line,
                Some(obj),
                args,
                expected,
                line,
                sc,
            );
        },
        None => match builtin_method(obj.ty, mname, env.option_enum) {
            Some(b) => judge_builtin_method(env, st, b, mname, obj, args, line, sc),
            None => {
                assert(table_sizes(env) && sc.env == env) by {
                    reveal(fits);
                }
                lemma_field_after(env, obj, mname, index, callee.line, sc);
                let f = field_after_obj(env, obj, mname, index, callee.line)->Ok_0;
                judge_indirect_call(env, st, f, args, direct, inst, line, sc);
            },
        },
    }
}

proof fn judge_call(
    env: EnvView,
    st: BodyView,
    e: ExprView,
    expected: Option<TypeView>,
    sc: Scope,
)
    requires
        check_call(env, st, e, expected) is Ok,
        fits(sc, env, st, check_call(env, st, e, expected)->Ok_0.1),
    ensures
        judged(sc, check_call(env, st, e, expected)->Ok_0.0),
    decreases e, 8int,
{
    lemma_reaches();
    let line = e.line;
    let callee = *e.kind->Call_callee;
    let args = e.kind->Call_args;
    let direct = e.kind->Call_direct;
    let inst = e.kind->Call_inst;
    let end = check_call(env, st, e, expected)->Ok_0.1;
    match callee.kind {
        ExprKindView::Field { obj, name, index } => {
            keep_names_type(env, st, *obj);
            let (target, st1) = names_type(env, st, *obj);
            match target {
                Some(tname) => {
                    keep_check_type_call(env, st1, callee, tname, name, args, line, expected);
                    lemma_rest(sc, env, st, st1, end);
                    judge_type_call(env, st1, callee, tname, name, args, line, expected, sc);
                },
                None => {
                    let (o, st2) = check_expr(env, st1, *obj, None)->Ok_0;
                    keep_check_expr(env, st1, *obj, None);
                    keep_check_member_call(
                        env,
                        st2,
                        callee,
                        o,
                        name,
                        index,
                        args,
                        direct,
                        inst,
                        line,
                        expected,
                    );
                    lemma_part(sc, env, st, st1, st2, end);
                    lemma_part(sc, env, st, st2, end, end);
                    judge_expr(env, st1, *obj, None, sc);
                    judge_member_call(
                        env,
                        st2,
                        callee,
                        o,
                        name,
                        index,
                        args,
                        direct,
                        inst,
                        line,
                        expected,
                        sc,
                    );
                },
            }
        },
        ExprKindView::Var { name, .. } => {
            judge_name_call(env, st, callee, name, args, direct, inst, line, expected, sc);
        },
        _ => {
            let (f, st1) = check_expr(env, st, callee, None)->Ok_0;
            keep_check_expr(env, st, callee, None);
            keep_indirect_call(env, st1, f, args, direct, inst, line);
            lemma_first(sc, env, st, st1, end);
            lemma_rest(sc, env, st, st1, end);
            judge_expr(env, st, callee, None, sc);
            judge_indirect_call(env, st1, f, args, direct, inst, line, sc);
        },
    }
}

// -- Patterns ---------------------------------------------------------------

/// A pattern on a value of the type, before its binders are declared.
spec fn pattern_types(env: EnvView, t: TypeView, p: PatternView) -> bool {
    match p {
        PatternView::Variant { enum_name, variant, args, tag, .. } => {
            t matches TypeView::Enum(id, targs) && id < env.enums.len() && env.enums[id as int].name
                == enum_name && tag < env.enums[id as int].variants.len()
                && env.enums[id as int].variants[tag as int].0 == variant && payload_types(
                env.enums[id as int].variants[tag as int].1,
                targs,
                args,
            )
        },
        PatternView::IntLit { value, .. } => t matches TypeView::Int(k) && k.holds(decode(k, value)),
        PatternView::ByteLit { .. } => t == TypeView::Int(IntKind::U8),
        PatternView::BoolLit { .. } => t is Bool,
        PatternView::Wildcard { .. } => true,
    }
}

spec fn payload_types(decl: VariantPayloadView, targs: Seq<TypeView>, args: PatArgsView) -> bool {
    match (decl, args) {
        (VariantPayloadView::Bare, PatArgsView::Bare) => true,
        (VariantPayloadView::Single(ty), PatArgsView::Single(b)) => b.ty == ty.subst(targs),
        (VariantPayloadView::Fields(decl), PatArgsView::Fields(fs)) => forall|i: int|
            0 <= i < fs.len() ==> binder_types(decl, targs, #[trigger] fs[i]),
        _ => false,
    }
}

spec fn binder_types(
    decl: Seq<(Seq<char>, TypeView)>,
    targs: Seq<TypeView>,
    f: (Seq<char>, PatBinderView, u32),
) -> bool {
    f.2 < decl.len() && f.0 == decl[f.2 as int].0 && f.1.ty == decl[f.2 as int].1.subst(targs)
}

proof fn lemma_pattern_fields(
    decl: Seq<(Seq<char>, TypeView)>,
    targs: Seq<TypeView>,
    fields: Seq<(Seq<char>, PatBinderView, u32)>,
    variant: Seq<char>,
    line: u32,
    i: nat,
    seen: Seq<bool>,
    acc: Seq<(Seq<char>, PatBinderView, u32)>,
)
    requires
        decl.len() <= u32::MAX,
        forall|k: int| 0 <= k < acc.len() ==> binder_types(decl, targs, #[trigger] acc[k]),
    ensures
        pattern_fields(decl, targs, fields, variant, line, i, seen, acc) matches Ok((fs, _)) ==>
            forall|k: int| 0 <= k < fs.len() ==> binder_types(decl, targs, #[trigger] fs[k]),
    decreases fields.len() - i,
{
    if i < fields.len() {
        let (fname, b, _) = fields[i as int];
        lemma_position_from(field_names(decl), fname, 0);
        if let Some(j) = position(field_names(decl), fname) {
            assert(field_names(decl)[j as int] == decl[j as int].0);
            let f = (fname, PatBinderView { ty: decl[j as int].1.subst(targs), ..b }, j as u32);
            assert(binder_types(decl, targs, f));
            lemma_pattern_fields(
                decl,
                targs,
                fields,
                variant,
                line,
                i + 1,
                seen.update(j as int, true),
                acc.push(f),
            );
        }
    }
}

proof fn lemma_variant_pattern(
    env: EnvView,
    eid: u32,
    targs: Seq<TypeView>,
    p: PatternView,
    seen: Seq<bool>,
)
    requires
        eid < env.enums.len(),
        enum_sizes(env.enums[eid as int]),
    ensures
        variant_pattern(env, eid, targs, p, seen) matches Ok((q, _)) ==> pattern_types(
            env,
            TypeView::Enum(eid, targs),
            q,
        ),
{
    reveal(variant_pattern);
    reveal(pattern_payload);
    let info = env.enums[eid as int];
    if let PatternView::Variant { variant, args, line, .. } = p {
        lemma_position_from(enum_names(env.enums), p->Variant_enum_name, 0);
        lemma_position_from(variant_names(info.variants), variant, 0);
        if let Some(i) = position(variant_names(info.variants), variant) {
            assert(variant_names(info.variants)[i as int] == info.variants[i as int].0);
            if let VariantPayloadView::Fields(decl) = info.variants[i as int].1 {
                if let PatArgsView::Fields(fields) = args {
                    lemma_pattern_fields(
                        decl,
                        targs,
                        fields,
                        variant,
                        line,
                        0,
                        none_seen(decl.len()),
                        Seq::empty(),
                    );
                }
            }
        }
    }
}

proof fn lemma_enum_patterns(
    env: EnvView,
    eid: u32,
    targs: Seq<TypeView>,
    pats: Seq<PatternView>,
    i: nat,
    seen: Seq<bool>,
    wild: Option<u32>,
    acc: Seq<PatternView>,
)
    requires
        eid < env.enums.len(),
        enum_sizes(env.enums[eid as int]),
        acc.len() == i <= pats.len(),
        forall|k: int|
            0 <= k < acc.len() ==> pattern_types(
                env,
                TypeView::Enum(eid, targs),
                #[trigger] acc[k],
            ),
    ensures
        enum_patterns(env, eid, targs, pats, i, seen, wild, acc) matches Ok((ps, _, _)) ==> {
            &&& ps.len() == pats.len()
            &&& forall|k: int|
                0 <= k < ps.len() ==> pattern_types(
                    env,
                    TypeView::Enum(eid, targs),
                    #[trigger] ps[k],
                )
        },
    decreases pats.len() - i,
{
    if i < pats.len() {
        let p = pats[i as int];
        match p {
            PatternView::Variant { .. } => {
                lemma_variant_pattern(env, eid, targs, p, seen);
                if let Ok((q, tag)) = variant_pattern(env, eid, targs, p, seen) {
                    lemma_enum_patterns(
                        env,
                        eid,
                        targs,
                        pats,
                        i + 1,
                        seen.update(tag as int, true),
                        wild,
                        acc.push(q),
                    );
                }
            },
            PatternView::Wildcard { line } => {
                lemma_enum_patterns(env, eid, targs, pats, i + 1, seen, Some(line), acc.push(p));
            },
            _ => {},
        }
    }
}

proof fn lemma_bits(k: IntKind, v: int)
    requires
        k.holds(v),
    ensures
        k.holds(decode(k, bits_of(v))),
{
}

proof fn lemma_int_patterns(
    env: EnvView,
    k: IntKind,
    pats: Seq<PatternView>,
    i: nat,
    seen: Seq<u64>,
    wild: Option<u32>,
    acc: Seq<PatternView>,
)
    requires
        acc.len() == i <= pats.len(),
        forall|j: int|
            0 <= j < acc.len() ==> pattern_types(env, TypeView::Int(k), #[trigger] acc[j]),
    ensures
        int_patterns(env, k, pats, i, seen, wild, acc) matches Ok((ps, _, _)) ==> {
            &&& ps.len() == pats.len()
            &&& forall|j: int|
                0 <= j < ps.len() ==> pattern_types(env, TypeView::Int(k), #[trigger] ps[j])
        },
    decreases pats.len() - i,
{
    if i < pats.len() {
        let p = pats[i as int];
        match p {
            PatternView::IntLit { neg, digits, line, .. } => {
                let v = if neg {
                    -(digits as int)
                } else {
                    digits as int
                };
                if k.holds(v) {
                    lemma_bits(k, v);
                    let q = PatternView::IntLit { neg, digits, value: bits_of(v), line };
                    lemma_int_patterns(
                        env,
                        k,
                        pats,
                        i + 1,
                        seen.push(bits_of(v)),
                        wild,
                        acc.push(q),
                    );
                }
            },
            PatternView::ByteLit { value, .. } => {
                if k is U8 {
                    lemma_int_patterns(
                        env,
                        k,
                        pats,
                        i + 1,
                        seen.push(value as u64),
                        wild,
                        acc.push(p),
                    );
                }
            },
            PatternView::Wildcard { line } => {
                lemma_int_patterns(env, k, pats, i + 1, seen, Some(line), acc.push(p));
            },
            _ => {},
        }
    }
}

proof fn lemma_bool_patterns(
    env: EnvView,
    pats: Seq<PatternView>,
    i: nat,
    t: bool,
    f: bool,
    wild: Option<u32>,
)
    ensures
        bool_patterns(env, pats, i, t, f, wild) is Ok ==> forall|j: int|
            i <= j < pats.len() ==> pattern_types(env, TypeView::Bool, #[trigger] pats[j]),
    decreases pats.len() - i,
{
    if i < pats.len() {
        match pats[i as int] {
            PatternView::BoolLit { value, .. } => {
                if value {
                    lemma_bool_patterns(env, pats, i + 1, true, f, wild);
                } else {
                    lemma_bool_patterns(env, pats, i + 1, t, true, wild);
                }
            },
            PatternView::Wildcard { line } => {
                lemma_bool_patterns(env, pats, i + 1, t, f, Some(line));
            },
            _ => {},
        }
    }
}

proof fn lemma_patterns(env: EnvView, t: TypeView, pats: Seq<PatternView>, line: u32)
    requires
        table_sizes(env),
    ensures
        check_patterns(env, t, pats, line) matches Ok(ps) ==> {
            &&& ps.len() == pats.len()
            &&& forall|i: int| 0 <= i < ps.len() ==> pattern_types(env, t, #[trigger] ps[i])
        },
{
    reveal(check_patterns);
    match t {
        TypeView::Enum(eid, targs) => {
            if eid < env.enums.len() {
                let info = env.enums[eid as int];
                assert(enum_sizes(info));
                lemma_enum_patterns(
                    env,
                    eid,
                    targs,
                    pats,
                    0,
                    none_seen(info.variants.len()),
                    None,
                    Seq::empty(),
                );
            }
        },
        TypeView::Int(k) => {
            lemma_int_patterns(env, k, pats, 0, Seq::empty(), None, Seq::empty());
        },
        TypeView::Bool => {
            lemma_bool_patterns(env, pats, 0, false, false, None);
        },
        _ => {},
    }
}

proof fn lemma_declared_fields(
    st: BodyView,
    fs: Seq<(Seq<char>, PatBinderView, u32)>,
    line: u32,
    i: nat,
    acc: Seq<(Seq<char>, PatBinderView, u32)>,
    decl: Seq<(Seq<char>, TypeView)>,
    targs: Seq<TypeView>,
    sc: Scope,
)
    requires
        declare_fields(st, fs, line, i, acc) is Ok,
        starts_with(sc.locals, declare_fields(st, fs, line, i, acc)->Ok_0.1.cur.locals),
        forall|k: int| 0 <= k < fs.len() ==> binder_types(decl, targs, #[trigger] fs[k]),
        forall|k: int| 0 <= k < acc.len() ==> declared_field(sc, decl, targs, #[trigger] acc[k]),
    ensures
        ({
            let gs = declare_fields(st, fs, line, i, acc)->Ok_0.0;
            forall|k: int| 0 <= k < gs.len() ==> declared_field(sc, decl, targs, #[trigger] gs[k])
        }),
    decreases fs.len() - i,
{
    if i < fs.len() {
        let (fname, b, index) = fs[i as int];
        let (local, st1) = declare(st, b.name, b.ty, line)->Ok_0;
        let f = (fname, PatBinderView { local, ..b }, index);
        assert(binder_types(decl, targs, fs[i as int]));
        let end = declare_fields(st1, fs, line, i + 1, acc.push(f))->Ok_0.1;
        lemma_fields_keep(st1, fs, line, i + 1, acc.push(f));
        assert(declared_field(sc, decl, targs, f)) by {
            reveal(declare);
            reveal(keeps);
            assert(end.cur.locals[local as int] == st1.cur.locals[local as int]);
        }
        lemma_declared_fields(st1, fs, line, i + 1, acc.push(f), decl, targs, sc);
    }
}

spec fn declared_field(
    sc: Scope,
    decl: Seq<(Seq<char>, TypeView)>,
    targs: Seq<TypeView>,
    f: (Seq<char>, PatBinderView, u32),
) -> bool {
    f.2 < decl.len() && f.0 == decl[f.2 as int].0 && binder_rule(
        sc,
        f.1,
        decl[f.2 as int].1,
        targs,
    )
}

/// The binders of a pattern are declared with the types that the pattern gives
/// them.
proof fn lemma_binders(env: EnvView, st: BodyView, t: TypeView, p: PatternView, sc: Scope)
    requires
        declare_binders(st, p) is Ok,
        pattern_types(env, t, p),
        sc.env == env,
        starts_with(sc.locals, declare_binders(st, p)->Ok_0.1.cur.locals),
    ensures
        pattern_rule(sc, t, declare_binders(st, p)->Ok_0.0),
{
    reveal(declare_binders);
    let (q, st1) = declare_binders(st, p)->Ok_0;
    if let PatternView::Variant { args, tag, line, .. } = p {
        let targs = t->Enum_1;
        match args {
            PatArgsView::Bare => {},
            PatArgsView::Single(b) => {
                let (local, st2) = declare(st, b.name, b.ty, line)->Ok_0;
                reveal(declare);
                assert(sc.locals[local as int] == st1.cur.locals[local as int]);
            },
            PatArgsView::Fields(fs) => {
                let decl = env.enums[t->Enum_0 as int].variants[tag as int].1->Fields_0;
                lemma_declared_fields(st, fs, line, 0, Seq::empty(), decl, targs, sc);
                let gs = declare_fields(st, fs, line, 0, Seq::empty())->Ok_0.0;
                assert(q->Variant_args == PatArgsView::Fields(gs));
                assert forall|i: int| 0 <= i < gs.len() implies (#[trigger] gs[i]).2 < decl.len()
                    && gs[i].0 == decl[gs[i].2 as int].0 && binder_rule(
                    sc,
                    gs[i].1,
                    decl[gs[i].2 as int].1,
                    targs,
                ) by {
                    assert(declared_field(sc, decl, targs, gs[i]));
                }
            },
        }
    }
}

// -- Match and lambda -------------------------------------------------------

proof fn judge_expr_arms(
    env: EnvView,
    st: BodyView,
    arms: Seq<(PatternView, ExprView)>,
    pats: Seq<PatternView>,
    i: nat,
    expected: Option<TypeView>,
    rty: Option<TypeView>,
    acc: Seq<(PatternView, ExprView)>,
    t: TypeView,
    sc: Scope,
)
    requires
        check_expr_arms(env, st, arms, pats, i, expected, rty, acc) is Ok,
        fits(sc, env, st, check_expr_arms(env, st, arms, pats, i, expected, rty, acc)->Ok_0.2),
        pats.len() == arms.len(),
        forall|k: int| 0 <= k < pats.len() ==> pattern_types(env, t, #[trigger] pats[k]),
        match rty {
            Some(ty) => arms_judged(sc, t, ty, acc),
            None => acc.len() == 0,
        },
    ensures
        ({
            let (xs, ty, _) = check_expr_arms(env, st, arms, pats, i, expected, rty, acc)->Ok_0;
            ty matches Some(ty) ==> arms_judged(sc, t, ty, xs)
        }),
    decreases arms, arms.len() - i,
{
    lemma_reaches();
    if i < arms.len() {
        let mark = st.cur.vars.len();
        let body = arms[i as int].1;
        let (p, st1) = declare_binders(st, pats[i as int])->Ok_0;
        let want = if rty is Some {
            rty
        } else {
            expected
        };
        let (x, st2) = check_expr(env, st1, body, want)->Ok_0;
        let st3 = leave_scope(st2, mark);
        let more = acc.push((p, x));
        let end = check_expr_arms(
            env,
            st3,
            arms,
            pats,
            i + 1,
            expected,
            Some(x.ty),
            more,
        )->Ok_0.2;
        keep_declare_binders(st, pats[i as int]);
        keep_check_expr(env, st1, body, want);
        keep_check_expr_arms(env, st3, arms, pats, i + 1, expected, Some(x.ty), more);
        assert(reaches(st3, st2));
        assert(reaches(end, st2) && reaches(end, st1));
        lemma_part(sc, env, st, st, st1, end);
        lemma_part(sc, env, st, st1, st2, end);
        assert(reaches(st3, st));
        lemma_part(sc, env, st, st3, end, end);
        judge_expr(env, st1, body, want, sc);
        assert(pattern_types(env, t, pats[i as int]));
        assert(sc.env == env && starts_with(sc.locals, st1.cur.locals)) by {
            reveal(fits);
        }
        lemma_binders(env, st, t, pats[i as int], sc);
        assert(arms_judged(sc, t, x.ty, more));
        judge_expr_arms(env, st3, arms, pats, i + 1, expected, Some(x.ty), more, t, sc);
    }
}

proof fn judge_match(
    env: EnvView,
    st: BodyView,
    e: ExprView,
    expected: Option<TypeView>,
    sc: Scope,
)
    requires
        check_match(env, st, e, expected) is Ok,
        fits(sc, env, st, check_match(env, st, e, expected)->Ok_0.1),
    ensures
        judged(sc, check_match(env, st, e, expected)->Ok_0.0),
    decreases e, 8int,
{
    lemma_reaches();
    let scrutinee = *e.kind->Match_scrutinee;
    let arms = e.kind->Match_arms;
    let end = check_match(env, st, e, expected)->Ok_0.1;
    let (s, st1) = check_expr(env, st, scrutinee, None)->Ok_0;
    let pats = check_patterns(env, s.ty, expr_patterns(arms), e.line)->Ok_0;
    keep_check_expr(env, st, scrutinee, None);
    keep_check_expr_arms(env, st1, arms, pats, 0, expected, None, Seq::empty());
    lemma_first(sc, env, st, st1, end);
    lemma_rest(sc, env, st, st1, end);
    judge_expr(env, st, scrutinee, None, sc);
    assert(table_sizes(env)) by {
        reveal(fits);
    }
    lemma_patterns(env, s.ty, expr_patterns(arms), e.line);
    judge_expr_arms(env, st1, arms, pats, 0, expected, None, Seq::empty(), s.ty, sc);
}

proof fn lemma_resolved_len(
    env: EnvView,
    ps: Seq<(Seq<char>, TypeExprView)>,
    i: nat,
    acc: Seq<TypeView>,
)
    requires
        acc.len() == i <= ps.len(),
    ensures
        resolve_params(env, ps, i, acc) matches Ok(ts) ==> ts.len() == ps.len(),
    decreases ps.len() - i,
{
    if i < ps.len() {
        if let Ok(t) = resolve_type(env, ps[i as int].1) {
            lemma_resolved_len(env, ps, i + 1, acc.push(t));
        }
    }
}

/// The parameters are the first locals.
proof fn lemma_declared_params(
    st: BodyView,
    ps: Seq<(Seq<char>, TypeExprView)>,
    tys: Seq<TypeView>,
    line: u32,
    i: nat,
)
    requires
        tys.len() == ps.len(),
        i <= tys.len(),
        st.cur.locals == tys.take(i as int),
    ensures
        declare_params(st, ps, tys, line, i) matches Ok(st1) ==> st1.cur.locals == tys,
    decreases ps.len() - i,
{
    if i < ps.len() {
        if let Ok((_, st1)) = declare(st, ps[i as int].0, tys[i as int], line) {
            reveal(declare);
            assert(st1.cur.locals =~= tys.take(i as int + 1));
            lemma_declared_params(st1, ps, tys, line, i + 1);
        }
    } else {
        assert(tys.take(i as int) =~= tys);
    }
}

proof fn judge_lambda(env: EnvView, st: BodyView, lam: LambdaDefView, line: u32, sc: Scope)
    requires
        check_lambda(env, st, lam, line) is Ok,
        fits(sc, env, st, check_lambda(env, st, lam, line)->Ok_0.1),
    ensures
        judged(sc, check_lambda(env, st, lam, line)->Ok_0.0),
    decreases lam, 10int,
{
    lemma_reaches();
    let params = resolve_params(env, lam.params, 0, Seq::empty())->Ok_0;
    let ret = resolve_ret(env, lam.ret)->Ok_0;
    let id = st.lambda_sigs.len();
    let within = enter_lambda(st, params, ret);
    let st1 = declare_params(within, lam.params, params, lam.line, 0)->Ok_0;
    let (body, st2) = check_block(env, st1, lam.body)->Ok_0;
    let (x, end) = check_lambda(env, st, lam, line)->Ok_0;
    let out = *x.kind->Lambda_0;
    lemma_params_keep(within, lam.params, params, lam.line, 0);
    keep_check_block(env, st1, lam.body);
    lemma_resolved_len(env, lam.params, 0, Seq::empty());
    assert(within.cur.locals =~= params.take(0)) by {
        reveal(enter_lambda);
    }
    lemma_declared_params(within, lam.params, params, lam.line, 0);
    lemma_keeps();
    lemma_within_lambda(env, st, params, ret, within, st1, st2, end, out, sc);
    judge_block(env, st1, lam.body, inside(sc, out, ret));
    assert(lambda_judged(sc, out, x.ty));
}

/// The scope inside a lambda holds what its body was checked with.
proof fn lemma_within_lambda(
    env: EnvView,
    st: BodyView,
    params: Seq<TypeView>,
    ret: TypeView,
    within: BodyView,
    st1: BodyView,
    st2: BodyView,
    end: BodyView,
    out: LambdaDefView,
    sc: Scope,
)
    requires
        fits(sc, env, st, end),
        within == enter_lambda(st, params, ret),
        keeps(st1, within),
        keeps(st2, st1),
        st1.cur.locals == params,
        captures_of(st2.cur).len() <= 63,
        end == exit_lambda(st2, st.lambda_sigs.len(), st.in_loop),
        out.id == st.lambda_sigs.len() as u32,
        out.num_locals == st2.cur.locals.len() as u32,
        out.captures == captures_of(st2.cur),
    ensures
        out.id == st.lambda_sigs.len(),
        out.id < sc.lambda_locals.len(),
        out.id < sc.lambda_sigs.len(),
        sc.lambda_sigs[out.id as int] == (params, ret),
        sc.lambda_locals[out.id as int] == st2.cur.locals,
        sc.lambda_locals[out.id as int].len() == out.num_locals,
        starts_with(st2.cur.locals, params),
        forall|k: int|
            0 <= k < out.captures.len() ==> finds(
                sc.locals,
                sc.captures,
                (#[trigger] out.captures[k]).src,
                out.captures[k].ty,
            ),
        fits(inside(sc, out, ret), env, st1, st2),
        sc.env == env,
{
    lemma_keeps();
    lemma_reaches();
    assert(keeps(st2, within));
    lemma_lambda_left(st, st2, params, ret, st.lambda_sigs.len());
    reveal(fits);
    reveal(enter_lambda);
    reveal(exit_lambda);
    let id = st.lambda_sigs.len() as int;
    assert(st2.outer.len() == st.outer.len() + 1) by {
        reveal(keeps);
    }
    assert(small(st2)) by {
        reveal(small);
        assert forall|i: int| 0 <= i < st2.outer.len() implies captures_of(
            #[trigger] st2.outer[i],
        ).len() <= u32::MAX by {
            if i < end.outer.len() {
                assert(end.outer[i] == st2.outer[i]);
            }
        }
    }
    assert(sound(within)) by {
        reveal(sound);
        assert(within.outer.drop_last() =~= st.outer);
        assert(sound_contexts(within.cur, within.outer));
    }
    lemma_reached(st2, within);
    lemma_reached(st2, st1);
    lemma_reached(st1, within);
    assert(sound(st2) && sound(st1));
    assert(starts_with(st2.lambda_sigs, within.lambda_sigs) && starts_with(
        st1.lambda_sigs,
        within.lambda_sigs,
    ) && st2.cur.ret == ret && starts_with(st2.cur.locals, st1.cur.locals)) by {
        reveal(keeps);
    }
    assert(within.lambda_sigs[id] == (params, ret));
    assert(st2.lambda_sigs[id] == within.lambda_sigs[id]);
    assert(id < end.lambda_sigs.len());
    assert(id <= u32::MAX) by {
        reveal(small);
    }
    assert(sc.lambda_sigs[id] == end.lambda_sigs[id]);
    assert(st2.lambda_locals.len() == st2.lambda_sigs.len() && sound_contexts(
        st2.cur,
        st2.outer,
    )) by {
        reveal(sound);
    }
    assert(sc.lambda_locals[id] == end.lambda_locals[id]);
    assert(end.lambda_locals[id] == st2.cur.locals);
    assert(st2.cur.locals.len() <= MAX_LOCALS);
    assert(sound_captures(st2.cur, end.cur));
    assert forall|k: int| 0 <= k < out.captures.len() implies finds(
        sc.locals,
        sc.captures,
        (#[trigger] out.captures[k]).src,
        out.captures[k].ty,
    ) by {
        let c = captures_of(st2.cur)[k];
        assert(finds(end.cur.locals, captures_of(end.cur), c.src, c.ty));
        match c.src {
            VarRes::Local(i) => {
                assert(sc.locals[i as int] == end.cur.locals[i as int]);
            },
            VarRes::Captured(i) => {
                assert(sc.captures[i as int] == captures_of(end.cur)[i as int]);
            },
            VarRes::Func(_) => {},
        }
    }
    assert forall|j: int| st1.lambda_sigs.len() <= j < st2.lambda_sigs.len() implies #[trigger]
        sc.lambda_locals[j] == st2.lambda_locals[j] by {
        assert(sc.lambda_locals[j] == end.lambda_locals[j]);
        assert(end.lambda_locals[j] == st2.lambda_locals[j]);
    }
    assert forall|j: int| st1.lambda_sigs.len() <= j < st2.lambda_sigs.len() implies #[trigger]
        sc.lambda_sigs[j] == st2.lambda_sigs[j] by {
        assert(sc.lambda_sigs[j] == end.lambda_sigs[j]);
    }
}

// -- Statements -------------------------------------------------------------

proof fn judge_block(env: EnvView, st: BodyView, b: BlockView, sc: Scope)
    requires
        check_block(env, st, b) is Ok,
        fits(sc, env, st, check_block(env, st, b)->Ok_0.1),
    ensures
        block_judged(sc, check_block(env, st, b)->Ok_0.0),
    decreases b, 1int,
{
    lemma_reaches();
    let (_, st1) = check_stmts(env, st, b.stmts, 0, Seq::empty())->Ok_0;
    let end = leave_scope(st1, st.cur.vars.len());
    keep_check_stmts(env, st, b.stmts, 0, Seq::empty());
    assert(reaches(end, st1));
    lemma_part(sc, env, st, st, st1, end);
    judge_stmts(env, st, b.stmts, 0, Seq::empty(), sc);
}

proof fn judge_stmts(
    env: EnvView,
    st: BodyView,
    ss: Seq<StmtView>,
    i: nat,
    acc: Seq<StmtView>,
    sc: Scope,
)
    requires
        check_stmts(env, st, ss, i, acc) is Ok,
        fits(sc, env, st, check_stmts(env, st, ss, i, acc)->Ok_0.1),
        stmts_judged(sc, acc),
    ensures
        stmts_judged(sc, check_stmts(env, st, ss, i, acc)->Ok_0.0),
    decreases ss, ss.len() - i,
{
    lemma_reaches();
    if i < ss.len() {
        let (s, st1) = check_stmt(env, st, ss[i as int])->Ok_0;
        let more = acc.push(s);
        let end = check_stmts(env, st1, ss, i + 1, more)->Ok_0.1;
        keep_check_stmt(env, st, ss[i as int]);
        keep_check_stmts(env, st1, ss, i + 1, more);
        lemma_first(sc, env, st, st1, end);
        lemma_rest(sc, env, st, st1, end);
        judge_stmt(env, st, ss[i as int], sc);
        assert(stmts_judged(sc, more));
        judge_stmts(env, st1, ss, i + 1, more, sc);
    }
}

proof fn judge_let(
    env: EnvView,
    st: BodyView,
    name: Seq<char>,
    ann: Option<TypeExprView>,
    init: ExprView,
    line: u32,
    sc: Scope,
)
    requires
        check_let(env, st, name, ann, init, line) is Ok,
        fits(sc, env, st, check_let(env, st, name, ann, init, line)->Ok_0.1),
    ensures
        stmt_judged(sc, check_let(env, st, name, ann, init, line)->Ok_0.0),
    decreases init, 10int,
{
    lemma_reaches();
    let want = match ann {
        None => None,
        Some(te) => Some(resolve_type(env, te)->Ok_0),
    };
    let (x, st1) = check_expr(env, st, init, want)->Ok_0;
    let (local, st2) = declare(st1, name, x.ty, line)->Ok_0;
    keep_check_expr(env, st, init, want);
    keep_declare(st1, name, x.ty, line);
    lemma_first(sc, env, st, st1, st2);
    judge_expr(env, st, init, want, sc);
    reveal(fits);
    reveal(declare);
    assert(sc.locals[local as int] == st2.cur.locals[local as int]);
}

proof fn judge_assign(env: EnvView, st: BodyView, s: StmtView, sc: Scope)
    requires
        check_assign(env, st, s) is Ok,
        fits(sc, env, st, check_assign(env, st, s)->Ok_0.1),
    ensures
        stmt_judged(sc, check_assign(env, st, s)->Ok_0.0),
    decreases s, 10int,
{
    lemma_reaches();
    let target = s->Assign_target;
    let value = s->Assign_value;
    let line = s->Assign_line;
    let (t, st1) = check_expr(env, st, target, None)->Ok_0;
    let (v, st2) = check_expr(env, st1, value, Some(t.ty))->Ok_0;
    keep_check_expr(env, st, target, None);
    keep_check_expr(env, st1, value, Some(t.ty));
    lemma_first(sc, env, st, st1, st2);
    lemma_rest(sc, env, st, st1, st2);
    judge_expr(env, st, target, None, sc);
    judge_expr(env, st1, value, Some(t.ty), sc);
    assert(is_place(t)) by {
        reveal(check_target);
    }
    assert(s->Assign_op matches Some(op) ==> takes_operands(op, t.ty)) by {
        reveal(check_arith_op);
    }
}

proof fn judge_return(
    env: EnvView,
    st: BodyView,
    value: Option<ExprView>,
    line: u32,
    sc: Scope,
)
    requires
        check_return(env, st, value, line) is Ok,
        fits(sc, env, st, check_return(env, st, value, line)->Ok_0.1),
    ensures
        stmt_judged(sc, check_return(env, st, value, line)->Ok_0.0),
    decreases value, 10int,
{
    lemma_reaches();
    assert(sc.ret == st.cur.ret) by {
        reveal(fits);
        reveal(reaches);
    }
    if let Some(v) = value {
        judge_expr(env, st, v, Some(st.cur.ret), sc);
    }
}

proof fn judge_opt_stmt(env: EnvView, st: BodyView, s: Option<Box<StmtView>>, sc: Scope)
    requires
        check_opt_stmt(env, st, s) is Ok,
        fits(sc, env, st, check_opt_stmt(env, st, s)->Ok_0.1),
    ensures
        check_opt_stmt(env, st, s)->Ok_0.0 matches Some(x) ==> stmt_judged(sc, *x),
    decreases s, 10int,
{
    lemma_reaches();
    if let Some(s) = s {
        judge_stmt(env, st, *s, sc);
    }
}

proof fn judge_opt_cond(env: EnvView, st: BodyView, c: Option<ExprView>, sc: Scope)
    requires
        check_opt_cond(env, st, c) is Ok,
        fits(sc, env, st, check_opt_cond(env, st, c)->Ok_0.1),
    ensures
        check_opt_cond(env, st, c)->Ok_0.0 matches Some(x) ==> judged(sc, x) && x.ty is Bool,
    decreases c, 10int,
{
    lemma_reaches();
    if let Some(c) = c {
        judge_cond(env, st, c, sc);
    }
}

proof fn judge_while(env: EnvView, st: BodyView, s: StmtView, sc: Scope)
    requires
        check_while(env, st, s) is Ok,
        fits(sc, env, st, check_while(env, st, s)->Ok_0.1),
    ensures
        stmt_judged(sc, check_while(env, st, s)->Ok_0.0),
    decreases s, 10int,
{
    lemma_reaches();
    let (_, st1) = check_cond(env, st, s->While_cond)->Ok_0;
    let st2 = with_loop(st1, true);
    let (_, st3) = check_block(env, st2, s->While_body)->Ok_0;
    let end = with_loop(st3, st.in_loop);
    keep_check_cond(env, st, s->While_cond);
    keep_check_block(env, st2, s->While_body);
    assert(reaches(st2, st1) && reaches(end, st3));
    assert(reaches(end, st2) && reaches(end, st1) && reaches(st2, st));
    lemma_part(sc, env, st, st, st1, end);
    lemma_part(sc, env, st, st2, st3, end);
    judge_cond(env, st, s->While_cond, sc);
    judge_block(env, st2, s->While_body, sc);
}

proof fn judge_for(env: EnvView, st: BodyView, s: StmtView, sc: Scope)
    requires
        check_for(env, st, s) is Ok,
        fits(sc, env, st, check_for(env, st, s)->Ok_0.1),
    ensures
        stmt_judged(sc, check_for(env, st, s)->Ok_0.0),
    decreases s, 10int,
{
    lemma_reaches();
    let init = s->For_init;
    let cond = s->For_cond;
    let step = s->For_step;
    let body = s->For_body;
    let end = check_for(env, st, s)->Ok_0.1;
    let (_, st1) = check_opt_stmt(env, st, init)->Ok_0;
    let (_, st2) = check_opt_cond(env, st1, cond)->Ok_0;
    let (_, st3) = check_opt_stmt(env, st2, step)->Ok_0;
    let st4 = with_loop(st3, true);
    let (_, st5) = check_block(env, st4, body)->Ok_0;
    let st6 = with_loop(st5, st.in_loop);
    keep_check_opt_stmt(env, st, init);
    keep_check_opt_cond(env, st1, cond);
    keep_check_opt_stmt(env, st2, step);
    keep_check_block(env, st4, body);
    assert(end == leave_scope(st6, st.cur.vars.len()));
    assert(reaches(st4, st3) && reaches(st6, st5) && reaches(end, st6));
    assert(reaches(end, st5));
    assert(reaches(end, st4));
    assert(reaches(end, st3));
    assert(reaches(end, st2));
    assert(reaches(end, st1));
    assert(reaches(st2, st));
    assert(reaches(st3, st));
    assert(reaches(st4, st));
    lemma_part(sc, env, st, st, st1, end);
    lemma_part(sc, env, st, st1, st2, end);
    lemma_part(sc, env, st, st2, st3, end);
    lemma_part(sc, env, st, st4, st5, end);
    judge_opt_stmt(env, st, init, sc);
    judge_opt_cond(env, st1, cond, sc);
    judge_opt_stmt(env, st2, step, sc);
    judge_block(env, st4, body, sc);
}

proof fn judge_stmt_arms(
    env: EnvView,
    st: BodyView,
    arms: Seq<(PatternView, BlockView)>,
    pats: Seq<PatternView>,
    i: nat,
    acc: Seq<(PatternView, BlockView)>,
    t: TypeView,
    sc: Scope,
)
    requires
        check_stmt_arms(env, st, arms, pats, i, acc) is Ok,
        fits(sc, env, st, check_stmt_arms(env, st, arms, pats, i, acc)->Ok_0.1),
        pats.len() == arms.len(),
        forall|k: int| 0 <= k < pats.len() ==> pattern_types(env, t, #[trigger] pats[k]),
        block_arms_judged(sc, t, acc),
    ensures
        block_arms_judged(sc, t, check_stmt_arms(env, st, arms, pats, i, acc)->Ok_0.0),
    decreases arms, arms.len() - i,
{
    lemma_reaches();
    if i < arms.len() {
        let mark = st.cur.vars.len();
        let (p, st1) = declare_binders(st, pats[i as int])->Ok_0;
        let (b, st2) = check_block(env, st1, arms[i as int].1)->Ok_0;
        let st3 = leave_scope(st2, mark);
        let more = acc.push((p, b));
        let end = check_stmt_arms(env, st3, arms, pats, i + 1, more)->Ok_0.1;
        keep_declare_binders(st, pats[i as int]);
        keep_check_block(env, st1, arms[i as int].1);
        keep_check_stmt_arms(env, st3, arms, pats, i + 1, more);
        assert(reaches(st3, st2));
        assert(reaches(end, st2) && reaches(end, st1));
        lemma_part(sc, env, st, st, st1, end);
        lemma_part(sc, env, st, st1, st2, end);
        assert(reaches(st3, st));
        lemma_part(sc, env, st, st3, end, end);
        judge_block(env, st1, arms[i as int].1, sc);
        assert(pattern_types(env, t, pats[i as int]));
        assert(sc.env == env && starts_with(sc.locals, st1.cur.locals)) by {
            reveal(fits);
        }
        lemma_binders(env, st, t, pats[i as int], sc);
        assert(block_arms_judged(sc, t, more));
        judge_stmt_arms(env, st3, arms, pats, i + 1, more, t, sc);
    }
}

proof fn judge_stmt_match(env: EnvView, st: BodyView, s: StmtView, sc: Scope)
    requires
        check_stmt_match(env, st, s) is Ok,
        fits(sc, env, st, check_stmt_match(env, st, s)->Ok_0.1),
    ensures
        stmt_judged(sc, check_stmt_match(env, st, s)->Ok_0.0),
    decreases s, 10int,
{
    lemma_reaches();
    let scrutinee = s->Match_scrutinee;
    let arms = s->Match_arms;
    let line = s->Match_line;
    let end = check_stmt_match(env, st, s)->Ok_0.1;
    let (x, st1) = check_expr(env, st, scrutinee, None)->Ok_0;
    let pats = check_patterns(env, x.ty, stmt_patterns(arms), line)->Ok_0;
    keep_check_expr(env, st, scrutinee, None);
    keep_check_stmt_arms(env, st1, arms, pats, 0, Seq::empty());
    lemma_first(sc, env, st, st1, end);
    lemma_rest(sc, env, st, st1, end);
    judge_expr(env, st, scrutinee, None, sc);
    assert(table_sizes(env)) by {
        reveal(fits);
    }
    lemma_patterns(env, x.ty, stmt_patterns(arms), line);
    judge_stmt_arms(env, st1, arms, pats, 0, Seq::empty(), x.ty, sc);
}

proof fn judge_if_stmt(env: EnvView, st: BodyView, s: StmtView, sc: Scope)
    requires
        check_if_stmt(env, st, s) is Ok,
        fits(sc, env, st, check_if_stmt(env, st, s)->Ok_0.1),
    ensures
        stmt_judged(sc, check_if_stmt(env, st, s)->Ok_0.0),
    decreases s, 10int,
{
    lemma_reaches();
    let cond = s->If_cond;
    let then = s->If_then;
    let els = s->If_els;
    let (_, st1) = check_cond(env, st, cond)->Ok_0;
    let (_, st2) = check_block(env, st1, then)->Ok_0;
    keep_check_cond(env, st, cond);
    keep_check_block(env, st1, then);
    match els {
        None => {
            lemma_first(sc, env, st, st1, st2);
            lemma_rest(sc, env, st, st1, st2);
        },
        Some(b) => {
            let (_, st3) = check_block(env, st2, b)->Ok_0;
            keep_check_block(env, st2, b);
            lemma_part(sc, env, st, st, st1, st3);
            lemma_part(sc, env, st, st1, st2, st3);
            lemma_part(sc, env, st, st2, st3, st3);
            judge_block(env, st2, b, sc);
        },
    }
    judge_cond(env, st, cond, sc);
    judge_block(env, st1, then, sc);
}

proof fn judge_stmt(env: EnvView, st: BodyView, s: StmtView, sc: Scope)
    requires
        check_stmt(env, st, s) is Ok,
        fits(sc, env, st, check_stmt(env, st, s)->Ok_0.1),
    ensures
        stmt_judged(sc, check_stmt(env, st, s)->Ok_0.0),
    decreases s, 11int,
{
    lemma_reaches();
    match s {
        StmtView::Let { name, ann, init, line, .. } => {
            judge_let(env, st, name, ann, init, line, sc);
        },
        StmtView::Assign { .. } => judge_assign(env, st, s, sc),
        StmtView::Expr(e) => judge_expr(env, st, e, None, sc),
        StmtView::If { .. } => judge_if_stmt(env, st, s, sc),
        StmtView::While { .. } => judge_while(env, st, s, sc),
        StmtView::For { .. } => judge_for(env, st, s, sc),
        StmtView::Return { value, line } => judge_return(env, st, value, line, sc),
        StmtView::Break(_) => {},
        StmtView::Continue(_) => {},
        StmtView::Block(b) => judge_block(env, st, b, sc),
        StmtView::Match { .. } => judge_stmt_match(env, st, s, sc),
    }
}

// -- Programs ---------------------------------------------------------------

/// The scope of the body of function `f`.
pub open spec fn scope_of(
    env: EnvView,
    side: SideView,
    type_params: Seq<Seq<char>>,
    f: int,
) -> Scope {
    Scope {
        env: EnvView { type_params, ..env },
        locals: side.func_locals[f],
        captures: Seq::empty(),
        ret: env.funcs[f].ret,
        lambda_locals: side.lambda_locals,
        lambda_sigs: side.lambda_sigs,
    }
}

/// A function is well typed: its body is, among its locals, the first of which
/// are its parameters, and it returns what it declares on all paths.
pub open spec fn func_judged(env: EnvView, side: SideView, def: FuncDefView, f: int) -> bool {
    &&& f < side.func_locals.len()
    &&& starts_with(side.func_locals[f], env.funcs[f].params)
    &&& side.func_locals[f].len() == def.num_locals
    &&& !(env.funcs[f].ret is Unit) ==> always_returns(def.body)
    &&& block_judged(scope_of(env, side, def.type_params, f), def.body)
}

/// Are there tables for as many functions as were checked, and have those of the
/// lambdas equal lengths?
spec fn sides_match(side: SideView, n: nat) -> bool {
    side.func_locals.len() == n && side.lambda_locals.len() == side.lambda_sigs.len()
}

spec fn sides_grow(b: SideView, a: SideView) -> bool {
    &&& starts_with(b.func_locals, a.func_locals)
    &&& starts_with(b.lambda_locals, a.lambda_locals)
    &&& starts_with(b.lambda_sigs, a.lambda_sigs)
}

spec fn body_start(side: SideView, ret: TypeView) -> BodyView {
    BodyView {
        cur: fresh_ctx(None, ret),
        outer: Seq::empty(),
        in_loop: false,
        lambda_locals: side.lambda_locals,
        lambda_sigs: side.lambda_sigs,
    }
}

/// Checking a function adds to the tables.
proof fn lemma_func_grows(env: EnvView, side: SideView, f: FuncDefView, sig: FuncSigView, n: nat)
    requires
        check_func(env, side, f, sig) is Ok,
        sides_match(side, n),
        check_func(env, side, f, sig)->Ok_0.1.lambda_sigs.len() <= u32::MAX,
    ensures
        ({
            let side1 = check_func(env, side, f, sig)->Ok_0.1;
            sides_match(side1, n + 1) && sides_grow(side1, side)
        }),
{
    reveal(check_func);
    let env1 = EnvView { type_params: f.type_params, ..env };
    let start = body_start(side, sig.ret);
    let st = declare_params(start, f.params, sig.params, f.line, 0)->Ok_0;
    let st1 = check_block(env1, st, f.body)->Ok_0.1;
    lemma_params_keep(start, f.params, sig.params, f.line, 0);
    keep_check_block(env1, st, f.body);
    lemma_keeps();
    lemma_reaches();
    assert(reaches(st1, start));
    lemma_start_sound(side, sig.ret, n);
    assert(small(st1)) by {
        reveal(small);
        reveal(keeps);
    }
    lemma_reached(st1, start);
    reveal(sound);
    reveal(keeps);
}

proof fn lemma_start_sound(side: SideView, ret: TypeView, n: nat)
    requires
        sides_match(side, n),
    ensures
        sound(body_start(side, ret)),
{
    reveal(sound);
    let c = fresh_ctx(None, ret);
    assert(sound_contexts(c, Seq::empty()));
}

proof fn lemma_funcs_grow(
    env: EnvView,
    defs: Seq<FuncDefView>,
    i: nat,
    side: SideView,
    acc: Seq<FuncDefView>,
)
    requires
        check_funcs(env, defs, i, side, acc) is Ok,
        sides_match(side, i),
        check_funcs(env, defs, i, side, acc)->Ok_0.1.lambda_sigs.len() <= u32::MAX,
    ensures
        sides_grow(check_funcs(env, defs, i, side, acc)->Ok_0.1, side),
        starts_with(check_funcs(env, defs, i, side, acc)->Ok_0.0, acc),
        side.lambda_sigs.len() <= u32::MAX,
    decreases defs.len() - i,
{
    if i < defs.len() {
        let (f, side1) = check_func(env, side, defs[i as int], env.funcs[i as int])->Ok_0;
        lemma_lambdas_grow(env, defs, i + 1, side1, acc.push(f));
        lemma_func_grows(env, side, defs[i as int], env.funcs[i as int], i);
        lemma_funcs_grow(env, defs, i + 1, side1, acc.push(f));
        let (fs, end) = check_funcs(env, defs, i + 1, side1, acc.push(f))->Ok_0;
        assert forall|k: int| 0 <= k < acc.len() implies #[trigger] fs[k] == acc[k] by {
            assert(fs[k] == acc.push(f)[k]);
        }
        lemma_sides_on(side, side1, end);
    }
}

/// Lambdas are only added.
proof fn lemma_lambdas_grow(
    env: EnvView,
    defs: Seq<FuncDefView>,
    i: nat,
    side: SideView,
    acc: Seq<FuncDefView>,
)
    requires
        check_funcs(env, defs, i, side, acc) is Ok,
    ensures
        side.lambda_sigs.len() <= check_funcs(env, defs, i, side, acc)->Ok_0.1.lambda_sigs.len(),
    decreases defs.len() - i,
{
    if i < defs.len() {
        let (f, side1) = check_func(env, side, defs[i as int], env.funcs[i as int])->Ok_0;
        reveal(check_func);
        let def = defs[i as int];
        let sig = env.funcs[i as int];
        let env1 = EnvView { type_params: def.type_params, ..env };
        let start = body_start(side, sig.ret);
        let st = declare_params(start, def.params, sig.params, def.line, 0)->Ok_0;
        lemma_params_keep(start, def.params, sig.params, def.line, 0);
        keep_check_block(env1, st, def.body);
        reveal(keeps);
        lemma_lambdas_grow(env, defs, i + 1, side1, acc.push(f));
    }
}

proof fn lemma_sides_on(a: SideView, b: SideView, c: SideView)
    requires
        sides_grow(b, a),
        sides_grow(c, b),
    ensures
        sides_grow(c, a),
{
    assert forall|i: int| 0 <= i < a.func_locals.len() implies #[trigger] c.func_locals[i]
        == a.func_locals[i] by {
        assert(b.func_locals[i] == a.func_locals[i]);
    }
    assert forall|i: int| 0 <= i < a.lambda_locals.len() implies #[trigger] c.lambda_locals[i]
        == a.lambda_locals[i] by {
        assert(b.lambda_locals[i] == a.lambda_locals[i]);
    }
    assert forall|i: int| 0 <= i < a.lambda_sigs.len() implies #[trigger] c.lambda_sigs[i]
        == a.lambda_sigs[i] by {
        assert(b.lambda_sigs[i] == a.lambda_sigs[i]);
    }
}

/// A function that was checked is well typed by the tables at the end.
proof fn judge_func(
    env: EnvView,
    side: SideView,
    def: FuncDefView,
    f: nat,
    end: SideView,
)
    requires
        f < env.funcs.len(),
        def.params.len() == env.funcs[f as int].params.len(),
        check_func(env, side, def, env.funcs[f as int]) is Ok,
        sides_match(side, f),
        sides_grow(end, check_func(env, side, def, env.funcs[f as int])->Ok_0.1),
        end.lambda_sigs.len() <= u32::MAX,
        table_sizes(env),
    ensures
        func_judged(env, end, check_func(env, side, def, env.funcs[f as int])->Ok_0.0, f as int),
{
    lemma_reaches();
    let sig = env.funcs[f as int];
    lemma_func_grows(env, side, def, sig, f);
    reveal(check_func);
    let env1 = EnvView { type_params: def.type_params, ..env };
    let start = body_start(side, sig.ret);
    let st = declare_params(start, def.params, sig.params, def.line, 0)->Ok_0;
    let (body, st1) = check_block(env1, st, def.body)->Ok_0;
    let (out, side1) = check_func(env, side, def, sig)->Ok_0;
    let sc = scope_of(env, end, def.type_params, f as int);
    lemma_params_keep(start, def.params, sig.params, def.line, 0);
    keep_check_block(env1, st, def.body);
    assert(start.cur.locals =~= sig.params.take(0));
    lemma_declared_params(start, def.params, sig.params, def.line, 0);
    lemma_keeps();
    lemma_reaches();
    assert(reaches(st1, start) && reaches(st, start) && reaches(st1, st));
    lemma_start_sound(side, sig.ret, f);
    assert(starts_with(st1.cur.locals, sig.params) && st1.outer.len() == 0 && captures_of(
        st1.cur,
    ).len() == 0 && st1.cur.ret == sig.ret) by {
        reveal(keeps);
    }
    assert(small(st1)) by {
        reveal(small);
    }
    lemma_reached(st1, start);
    lemma_reached(st1, st);
    lemma_reached(st, start);
    assert(st1.cur.locals.len() <= MAX_LOCALS) by {
        reveal(sound);
    }
    assert(end.func_locals[f as int] == side1.func_locals[f as int]);
    assert(side1.func_locals[f as int] == st1.cur.locals);
    assert(fits(sc, env1, st, st1)) by {
        reveal(fits);
        assert(table_sizes(env1));
        reveal(sound);
        assert forall|j: int| st.lambda_sigs.len() <= j < st1.lambda_sigs.len() implies #[trigger]
            sc.lambda_locals[j] == st1.lambda_locals[j] by {
            assert(end.lambda_locals[j] == side1.lambda_locals[j]);
        }
        assert forall|j: int| st.lambda_sigs.len() <= j < st1.lambda_sigs.len() implies #[trigger]
            sc.lambda_sigs[j] == st1.lambda_sigs[j] by {
            assert(end.lambda_sigs[j] == side1.lambda_sigs[j]);
        }
    }
    judge_block(env1, st, def.body, sc);
}

proof fn judge_funcs(
    env: EnvView,
    defs: Seq<FuncDefView>,
    i: nat,
    side: SideView,
    acc: Seq<FuncDefView>,
)
    requires
        check_funcs(env, defs, i, side, acc) is Ok,
        sides_match(side, i),
        acc.len() == i <= defs.len(),
        defs.len() == env.funcs.len(),
        forall|f: int|
            0 <= f < defs.len() ==> (#[trigger] defs[f]).params.len() == env.funcs[f].params.len(),
        check_funcs(env, defs, i, side, acc)->Ok_0.1.lambda_sigs.len() <= u32::MAX,
        table_sizes(env),
    ensures
        ({
            let (fs, end) = check_funcs(env, defs, i, side, acc)->Ok_0;
            &&& fs.len() == defs.len()
            &&& forall|f: int|
                i <= f < fs.len() ==> func_judged(env, end, #[trigger] fs[f], f)
        }),
    decreases defs.len() - i,
{
    lemma_reaches();
    if i < defs.len() {
        let (f, side1) = check_func(env, side, defs[i as int], env.funcs[i as int])->Ok_0;
        let more = acc.push(f);
        let (fs, end) = check_funcs(env, defs, i + 1, side1, more)->Ok_0;
        lemma_lambdas_grow(env, defs, i + 1, side1, more);
        lemma_func_grows(env, side, defs[i as int], env.funcs[i as int], i);
        lemma_funcs_grow(env, defs, i + 1, side1, more);
        judge_func(env, side, defs[i as int], i, end);
        judge_funcs(env, defs, i + 1, side1, more);
        assert(fs[i as int] == more[i as int]);
    }
}

/// The tables of a program hold a signature for each of its functions.
proof fn lemma_sigs_match(env: EnvView, defs: Seq<FuncDefView>, i: nat)
    requires
        env.funcs.len() == i <= defs.len(),
        forall|f: int|
            0 <= f < i ==> (#[trigger] defs[f]).params.len() == env.funcs[f].params.len(),
    ensures
        collect_funcs(env, defs, i) matches Ok(env1) ==> {
            &&& env1.funcs.len() == defs.len()
            &&& forall|f: int|
                0 <= f < defs.len() ==> (#[trigger] defs[f]).params.len()
                    == env1.funcs[f].params.len()
        },
    decreases defs.len() - i,
{
    if i < defs.len() {
        if let Ok(sig) = func_sig(env, defs[i as int]) {
            reveal(func_sig);
            lemma_resolved_len(
                EnvView { type_params: defs[i as int].type_params, ..env },
                defs[i as int].params,
                0,
                Seq::empty(),
            );
            lemma_sigs_match(EnvView { funcs: env.funcs.push(sig), ..env }, defs, i + 1);
        }
    }
}

/// What the checker accepts is well typed: in every function, the type of each
/// part of a tree is the one that its place asks for. All elements of an array
/// have its element type, operands and conditions the types that operators and
/// statements take, fields and arguments those that are declared, at the type
/// arguments of the literal or call, and names those of what they refer to.
pub proof fn law_accepted_is_well_typed(source: ProgramView)
    requires
        check_spec(source) is Ok,
        table_sizes(collect(source)->Ok_0),
        check_spec(source)->Ok_0.1.lambda_sigs.len() <= u32::MAX,
    ensures
        ({
            let env = collect(source)->Ok_0;
            let (program, checked) = check_spec(source)->Ok_0;
            let side = SideView {
                func_locals: checked.func_locals,
                lambda_locals: checked.lambda_locals,
                lambda_sigs: checked.lambda_sigs,
            };
            &&& checked.structs == env.structs && checked.enums == env.enums && checked.funcs
                == env.funcs
            &&& program.funcs.len() == env.funcs.len()
            &&& forall|f: int|
                0 <= f < program.funcs.len() ==> func_judged(
                    env,
                    side,
                    #[trigger] program.funcs[f],
                    f,
                )
        }),
{
    let env = collect(source)->Ok_0;
    let none = SideView {
        func_locals: Seq::empty(),
        lambda_locals: Seq::empty(),
        lambda_sigs: Seq::empty(),
    };
    lemma_collected_sigs(source);
    judge_funcs(env, source.funcs, 0, none, Seq::empty());
}

proof fn lemma_collected_sigs(source: ProgramView)
    requires
        collect(source) is Ok,
    ensures
        ({
            let env = collect(source)->Ok_0;
            &&& env.funcs.len() == source.funcs.len()
            &&& forall|f: int|
                0 <= f < source.funcs.len() ==> (#[trigger] source.funcs[f]).params.len()
                    == env.funcs[f].params.len()
        }),
{
    reveal(collect);
    let e1 = collect_structs(empty_env(), source.structs, 0)->Ok_0;
    let e2 = collect_enums(e1, source.enums, 0)->Ok_0;
    let e3 = resolve_structs(add_prelude(e2), source.structs, 0)->Ok_0;
    let e4 = resolve_enums(e3, source.enums, 0)->Ok_0;
    let e5 = collect_methods(e4, source.methods, 0)->Ok_0;
    lemma_structs_keep(empty_env(), source.structs, 0);
    lemma_enums_keep(e1, source.enums, 0);
    assert(add_prelude(e2).funcs == e2.funcs) by {
        reveal(add_prelude);
    }
    crate::concrete::lemma_fields_keep(add_prelude(e2), source.structs, 0);
    lemma_variants_keep(e3, source.enums, 0);
    lemma_methods_keep(e4, source.methods, 0);
    lemma_sigs_match(e5, source.funcs, 0);
}

} // verus!
