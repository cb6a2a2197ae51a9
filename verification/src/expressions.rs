//! That the code of an expression computes what the expression means.
use vstd::prelude::*;

use crate::ast::{BinOp, Builtin, ExprKindView, ExprView};
use crate::computing::{
    after, computes, holds, keeps, law_variable, lemma_applied, lemma_before, lemma_calm_placed,
    lemma_collect, lemma_constant, lemma_float_constant, lemma_keeps_on, lemma_leaves, lemma_lift,
    lemma_part, lemma_place_binary, lemma_place_builtin, lemma_place_cast, lemma_place_field,
    lemma_place_index, lemma_place_unary, lemma_scalar_calm, lemma_then, lemma_then_rooted,
    lemma_value, placed, reached, scalar_code, within,
};
use crate::building::{law_array, law_bound_method, law_lambda, law_struct, law_variant};
use crate::casting::law_cast;
use crate::choosing::law_match;
use crate::handing::law_call;
use crate::evaluate::{
    applied, cast_value, eval, eval_binary, eval_builtin, eval_if, eval_index, eval_one, lift,
    pair_of, worth, Eval, Setting, Vars,
};
use crate::ir::{IrType, Op};
use crate::lower::{
    abi, array_push, binary_values, builtin_value, cast, field_value, gen_binary, gen_builtin,
    gen_expr, gen_if, gen_index, gen_scalar, index_value, next, place, put, rooted, unary_value,
    LowEnv, LowView,
};
use crate::machine::{modulus, start_from, step, word, End, Machine};
use crate::meaning::{lemma_leads_on, lemma_leads_step, lemma_start, lemma_step_then, lemma_word};
use crate::memory::{beyond, pushed, read};
use crate::objects::{
    built, combined, element_of, fields_of, found, is_value, kind_of, law_built, law_element,
    law_field, law_operator, law_push, Reply,
};
use crate::types::TypeView;
use crate::writing::{
    calm, lemma_calm, write_array_push, write_binary_values, write_builtin_value, write_cast,
    write_field_value, write_index_value, write_rooted, write_unary_value,
};

verus! {

/// An expression whose value is read: its code computes what it means.
pub proof fn law_scalar(ops: Seq<Op>, m: Machine, st: LowView, e: ExprView, vars: Vars)
    requires
        placed(ops, m, st, vars),
        scalar_code(vars.env(), st, e) is Ok,
        within(ops, scalar_code(vars.env(), st, e)->Ok_0.0, vars.around),
    ensures
        calm(scalar_code(vars.env(), st, e)->Ok_0.0, st),
        st.f.ops.len() <= scalar_code(vars.env(), st, e)->Ok_0.0.f.ops.len(),
        computes(
            ops,
            m,
            st,
            scalar_code(vars.env(), st, e)->Ok_0.0,
            Some(scalar_code(vars.env(), st, e)->Ok_0.1),
            worth(eval(e, vars)),
            vars.around,
        ),
    decreases e, 10int,
{
    let env = vars.env();
    lemma_scalar_calm(env, st, e);
    reveal(scalar_code);
    let (s0, v0) = gen_expr(env, st, e)->Ok_0;
    let (s, v) = gen_scalar(env, st, e)->Ok_0;
    assert(calm(s, s0)) by {
        lemma_calm();
        assert(calm(s0, s0));
    }
    lemma_part(ops, s, s0, vars.around);
    lemma_part(ops, s, st, vars.around);
    law_expression(ops, m, st, e, vars);
}

/// The code of an expression computes what the expression means: it gives its
/// value, if it has one, leaves the variables and the world that it leaves, and
/// panics exactly where the expression does, with the same cause and line.
pub proof fn law_expression(ops: Seq<Op>, m: Machine, st: LowView, e: ExprView, vars: Vars)
    requires
        placed(ops, m, st, vars),
        gen_expr(vars.env(), st, e) is Ok,
        within(ops, gen_expr(vars.env(), st, e)->Ok_0.0, vars.around),
    ensures
        computes(
            ops,
            m,
            st,
            gen_expr(vars.env(), st, e)->Ok_0.0,
            gen_expr(vars.env(), st, e)->Ok_0.1,
            eval(e, vars),
            vars.around,
        ),
    decreases e, 9int,
{
    match e.kind {
        ExprKindView::Int(_) => lemma_constant(ops, m, st, e, vars),
        ExprKindView::Byte(_) => lemma_constant(ops, m, st, e, vars),
        ExprKindView::Float(_) => lemma_float_constant(ops, m, st, e, vars),
        ExprKindView::Bool(_) => lemma_constant(ops, m, st, e, vars),
        ExprKindView::Str(_) => lemma_constant(ops, m, st, e, vars),
        ExprKindView::Var { res, .. } => {
            reveal(eval);
            law_variable(ops, m, st, res, e.ty, e.line, vars);
        },
        ExprKindView::Unary(_, _) => law_one(ops, m, st, e, vars),
        ExprKindView::Cast(_, _) => law_one(ops, m, st, e, vars),
        ExprKindView::Field { .. } => law_one(ops, m, st, e, vars),
        ExprKindView::Binary(_, _, _) => law_binary(ops, m, st, e, vars),
        ExprKindView::If { .. } => law_if(ops, m, st, e, vars),
        ExprKindView::Call { .. } => law_call(ops, m, st, e, vars),
        ExprKindView::Builtin(_, _) => law_builtin(ops, m, st, e, vars),
        ExprKindView::Index(_, _) => law_index(ops, m, st, e, vars),
        ExprKindView::ArrayLit(_) => law_array(ops, m, st, e, vars),
        ExprKindView::StructLit { .. } => law_struct(ops, m, st, e, vars),
        ExprKindView::VariantLit { .. } => law_variant(ops, m, st, e, vars),
        ExprKindView::Match { .. } => law_match(ops, m, st, e, vars),
        ExprKindView::Lambda(_) => law_lambda(ops, m, st, e, vars),
        ExprKindView::BoundMethod { .. } => law_bound_method(ops, m, st, e, vars),
        _ => {
            reveal(eval);
        },
    }
}

// -- Unfolding --------------------------------------------------------------

proof fn lemma_eq_binary(e: ExprView, vars: Vars)
    requires
        e.kind is Binary,
        !(e.kind->Binary_0 is And || e.kind->Binary_0 is Or),
    ensures
        eval_binary(e, vars) == (match pair_of(*e.kind->Binary_1, *e.kind->Binary_2, vars) {
            Ok((a, b, vars2)) => if e.kind->Binary_1.ty == e.kind->Binary_2.ty {
                lift(
                    vars2,
                    combined(e.kind->Binary_0, e.kind->Binary_1.ty, a, b, e.line, vars2.world),
                )
            } else {
                Eval::Unfinished
            },
            Err(ev) => ev,
        }),
{
    reveal(eval);
}

proof fn lemma_eq_index(e: ExprView, vars: Vars)
    requires
        e.kind is Index,
    ensures
        eval_index(e, vars) == (match pair_of(*e.kind->Index_0, *e.kind->Index_1, vars) {
            Ok((a, b, vars2)) => lift(
                vars2,
                element_of(
                    e.kind->Index_0.ty,
                    e.ty,
                    a,
                    kind_of(e.kind->Index_1.ty),
                    b,
                    e.line,
                    vars2.world,
                ),
            ),
            Err(ev) => ev,
        }),
{
    reveal(eval);
}

proof fn lemma_eq_push(e: ExprView, args: Seq<ExprView>, vars: Vars)
    requires
        e.kind == ExprKindView::Builtin(Builtin::Push, args),
        args.len() >= 2,
        args[0].ty is Array,
    ensures
        eval_builtin(e, vars) == (match pair_of(args[0], args[1], vars) {
            Ok((a, c, vars2)) => {
                let ty = *args[0].ty->Array_0;
                if !is_value(ty) || !(0 <= a < modulus()) {
                    Eval::Unfinished
                } else {
                    match pushed(vars2.world, a, word(c), ty.storage() as nat) {
                        Some(w) => Eval::Nothing(vars2.at(w)),
                        None => Eval::Unfinished,
                    }
                }
            },
            Err(ev) => ev,
        }),
{
    reveal(eval);
}

proof fn lemma_eq_builtin(e: ExprView, args: Seq<ExprView>, vars: Vars)
    requires
        e.kind is Builtin,
        e.kind->Builtin_1 == args,
        !(e.kind->Builtin_0 is Push || e.kind->Builtin_0 is GcCollect),
        args.len() >= 1,
    ensures
        eval_builtin(e, vars) == (match worth(eval(args[0], vars)) {
            Eval::Value(x, vars1) => lift(
                vars1,
                built(
                    e.kind->Builtin_0,
                    args[0].ty,
                    vars.env().checked,
                    x,
                    e.line,
                    vars1.world,
                ),
            ),
            other => other,
        }),
{
    reveal(eval);
}

proof fn lemma_eq_if(e: ExprView, vars: Vars)
    requires
        e.kind is If,
    ensures
        eval_if(e, vars) == (match worth(eval(*e.kind->If_cond, vars)) {
            Eval::Value(x, vars1) => if x == 1 {
                worth(eval(*e.kind->If_then, vars1))
            } else if x == 0 {
                worth(eval(*e.kind->If_els, vars1))
            } else {
                Eval::Unfinished
            },
            other => other,
        }),
{
    reveal(eval);
}

proof fn lemma_eq_logical(e: ExprView, vars: Vars)
    requires
        e.kind is Binary,
        e.kind->Binary_0 is And || e.kind->Binary_0 is Or,
    ensures
        eval_binary(e, vars) == (match worth(eval(*e.kind->Binary_1, vars)) {
            Eval::Value(x, vars1) => if x != 0 && x != 1 {
                Eval::Unfinished
            } else if (x == 0) == (e.kind->Binary_0 is And) {
                Eval::Value(x, vars1)
            } else {
                worth(eval(*e.kind->Binary_2, vars1))
            },
            other => other,
        }),
{
    reveal(eval);
}

proof fn lemma_eq_unary(e: ExprView, vars: Vars)
    requires
        e.kind is Unary,
    ensures
        eval_one(e, vars) == (match worth(eval(*e.kind->Unary_1, vars)) {
            Eval::Value(x, vars1) => lift(vars1, one_value(e, x, vars1, vars.env())),
            other => other,
        }),
{
    reveal(eval);
}

proof fn lemma_eq_cast(e: ExprView, vars: Vars)
    requires
        e.kind is Cast,
    ensures
        eval_one(e, vars) == (match worth(eval(*e.kind->Cast_0, vars)) {
            Eval::Value(x, vars1) => lift(vars1, one_value(e, x, vars1, vars.env())),
            other => other,
        }),
{
    reveal(eval);
}

proof fn lemma_eq_field(e: ExprView, vars: Vars)
    requires
        e.kind is Field,
    ensures
        eval_one(e, vars) == (match worth(eval(*e.kind->Field_obj, vars)) {
            Eval::Value(x, vars1) => lift(vars1, one_value(e, x, vars1, vars.env())),
            other => other,
        }),
{
    reveal(eval);
}

proof fn lemma_eq_one(e: ExprView, vars: Vars)
    requires
        e.kind is Unary || e.kind is Cast || e.kind is Field,
    ensures
        eval_one(e, vars) == (match worth(eval(operand(e), vars)) {
            Eval::Value(x, vars1) => lift(vars1, one_value(e, x, vars1, vars.env())),
            other => other,
        }),
{
    if e.kind is Unary {
        lemma_eq_unary(e, vars);
    } else if e.kind is Cast {
        lemma_eq_cast(e, vars);
    } else {
        lemma_eq_field(e, vars);
    }
}

/// What a value becomes.
pub open spec fn one_value(e: ExprView, x: int, vars: Vars, env: LowEnv) -> Reply {
    match e.kind {
        ExprKindView::Unary(op, sub) => applied(op, sub.ty, x, e.line, vars.world),
        ExprKindView::Cast(sub, _) => cast_value(sub.ty, e.ty, x, e.line, vars.world),
        ExprKindView::Field { obj, index, .. } => found(
            read(
                vars.world,
                e.ty,
                beyond(x, place(fields_of(env.checked, obj.ty), index) as int),
            ),
            vars.world,
        ),
        _ => Reply::Unfinished,
    }
}

// -- One operand ------------------------------------------------------------

pub open spec fn operand(e: ExprView) -> ExprView {
    match e.kind {
        ExprKindView::Unary(_, sub) => *sub,
        ExprKindView::Cast(sub, _) => *sub,
        ExprKindView::Field { obj, .. } => *obj,
        _ => e,
    }
}

/// The code on an evaluated operand.
pub open spec fn one_code(env: LowEnv, st: LowView, e: ExprView, v: usize) -> Result<
    (LowView, usize),
    Seq<char>,
> {
    match e.kind {
        ExprKindView::Unary(op, sub) => unary_value(st, op, sub.ty, v, e.line),
        ExprKindView::Cast(sub, _) => cast(st, sub.ty, e.ty, v, e.line),
        ExprKindView::Field { obj, index, .. } => field_value(
            env,
            st,
            obj.ty,
            index,
            e.ty,
            v,
            e.line,
        ),
        _ => Err(Seq::empty()),
    }
}

proof fn law_one(ops: Seq<Op>, m: Machine, st: LowView, e: ExprView, vars: Vars)
    requires
        e.kind is Unary || e.kind is Cast || e.kind is Field,
        placed(ops, m, st, vars),
        gen_expr(vars.env(), st, e) is Ok,
        within(ops, gen_expr(vars.env(), st, e)->Ok_0.0, vars.around),
    ensures
        computes(
            ops,
            m,
            st,
            gen_expr(vars.env(), st, e)->Ok_0.0,
            gen_expr(vars.env(), st, e)->Ok_0.1,
            eval(e, vars),
            vars.around,
        ),
    decreases e, 8int,
{
    let env = vars.env();
    let (s, v) = gen_expr(env, st, e)->Ok_0;
    assert(scalar_code(env, st, operand(e)) == gen_scalar(env, st, operand(e))) by {
        reveal(scalar_code);
    }
    let (s1, x) = gen_scalar(env, st, operand(e))->Ok_0;
    assert(one_code(env, s1, e, x) == Ok::<(LowView, usize), Seq<char>>((s, v->0)));
    assert(v == Some(v->0));
    assert(eval(e, vars) == eval_one(e, vars)) by {
        reveal(eval);
    }
    lemma_one(ops, m, st, e, operand(e), s1, x, s, v->0, vars);
}

#[verifier::rlimit(30)]
proof fn lemma_one(
    ops: Seq<Op>,
    m: Machine,
    st: LowView,
    e: ExprView,
    sub: ExprView,
    s1: LowView,
    x: usize,
    s: LowView,
    v: usize,
    vars: Vars,
)
    requires
        e.kind is Unary || e.kind is Cast || e.kind is Field,
        sub == operand(e),
        placed(ops, m, st, vars),
        scalar_code(vars.env(), st, sub) == Ok::<(LowView, usize), Seq<char>>((s1, x)),
        one_code(vars.env(), s1, e, x) == Ok::<(LowView, usize), Seq<char>>((s, v)),
        within(ops, s, vars.around),
    ensures
        computes(ops, m, st, s, Some(v), eval_one(e, vars), vars.around),
    decreases e, 7int,
{
    let env = vars.env();
    let around = vars.around;
    match e.kind {
        ExprKindView::Unary(op, _) => {
            write_unary_value(s1, op, sub.ty, x, e.line);
            lemma_place_unary(s1, op, sub.ty, x, e.line);
        },
        ExprKindView::Cast(_, _) => {
            write_cast(s1, sub.ty, e.ty, x, e.line);
            lemma_place_cast(s1, sub.ty, e.ty, x, e.line);
        },
        ExprKindView::Field { index, .. } => {
            write_field_value(env, s1, sub.ty, index, e.ty, x, e.line);
            lemma_place_field(env, s1, sub.ty, index, e.ty, x, e.line);
        },
        _ => {},
    }
    lemma_part(ops, s, s1, around);
    assert(decreases_to!(e => sub));
    law_scalar(ops, m, st, sub, vars);
    lemma_eq_one(e, vars);
    match worth(eval(sub, vars)) {
        Eval::Value(a, vars1) => {
            let m1 = after(ops, m, st, s1, x, a, vars1, around);
            assert(reached(ops, m, st, s1, m1, vars1, around));
            let r = one_value(e, a, vars1, env);
            match e.kind {
                ExprKindView::Unary(op, _) => {
                    lemma_applied(ops, m1, s1, op, sub.ty, x, e.line, a);
                },
                ExprKindView::Cast(_, _) => {
                    law_cast(ops, m1, s1, sub.ty, e.ty, x, e.line, a);
                },
                ExprKindView::Field { index, .. } => {
                    law_field(ops, m1, env, s1, sub.ty, index, e.ty, x, e.line, a);
                },
                _ => {},
            }
            lemma_lift(ops, m1, s1, s, v, r, vars1);
            lemma_then(ops, m, m1, st, s1, s, Some(v), lift(vars1, r), around);
        },
        ev => lemma_stops(ops, m, st, s1, Some(x), ev, around, st, s, Some(v)),
    }
}

// -- Two operands -----------------------------------------------------------

/// What has no value goes on nowhere.
pub proof fn lemma_stops(
    ops: Seq<Op>,
    m: Machine,
    st: LowView,
    end: LowView,
    v: Option<usize>,
    ev: Eval,
    around: Setting,
    st2: LowView,
    end2: LowView,
    v2: Option<usize>,
)
    requires
        ev is Panic || ev is Unfinished,
        computes(ops, m, st, end, v, ev, around),
    ensures
        computes(ops, m, st2, end2, v2, ev, around),
{
}

/// The machine holds both values behind their code.
pub open spec fn both(
    ops: Seq<Op>,
    m: Machine,
    st: LowView,
    s2: LowView,
    x: usize,
    y: usize,
    a: int,
    b: int,
    vars2: Vars,
    around: Setting,
    m2: Machine,
) -> bool {
    &&& reached(ops, m, st, s2, m2, vars2, around)
    &&& m2.vals[x as int] == word(a)
    &&& m2.vals[y as int] == word(b)
}

#[verifier::rlimit(30)]
pub proof fn lemma_pair(
    ops: Seq<Op>,
    m: Machine,
    st: LowView,
    l: ExprView,
    r: ExprView,
    s1: LowView,
    x: usize,
    s2: LowView,
    y: usize,
    vars: Vars,
    whole: ExprView,
)
    requires
        decreases_to!(whole => l),
        decreases_to!(whole => r),
        placed(ops, m, st, vars),
        scalar_code(vars.env(), st, l) == Ok::<(LowView, usize), Seq<char>>((s1, x)),
        scalar_code(vars.env(), s1, r) == Ok::<(LowView, usize), Seq<char>>((s2, y)),
        within(ops, s2, vars.around),
    ensures
        calm(s2, st),
        st.f.ops.len() <= s2.f.ops.len(),
        match pair_of(l, r, vars) {
            Ok((a, b, vars2)) => x < s2.f.ops.len() && y < s2.f.ops.len() && exists|m2: Machine|
                #[trigger] both(ops, m, st, s2, x, y, a, b, vars2, vars.around, m2),
            Err(ev) => computes(ops, m, st, s2, Some(y), ev, vars.around),
        },
        pair_of(l, r, vars) matches Err(ev) ==> ev is Panic || ev is Unfinished,
    decreases whole, 6int,
{
    let env = vars.env();
    let around = vars.around;
    lemma_scalar_calm(env, s1, r);
    lemma_part(ops, s2, s1, around);
    law_scalar(ops, m, st, l, vars);
    assert(calm(s2, st)) by {
        lemma_calm();
    }
    match worth(eval(l, vars)) {
        Eval::Value(a, vars1) => {
            let m1 = after(ops, m, st, s1, x, a, vars1, around);
            assert(reached(ops, m, st, s1, m1, vars1, around));
            lemma_calm_placed(ops, m, st, vars, m1, s1, vars1);
            law_scalar(ops, m1, s1, r, vars1);
            match worth(eval(r, vars1)) {
                Eval::Value(b, vars2) => {
                    let m2 = after(ops, m1, s1, s2, y, b, vars2, around);
                    assert(reached(ops, m1, s1, s2, m2, vars2, around));
                    assert(m2.vals[x as int] == m1.vals[x as int]);
                    lemma_leads_on(ops, m, m1, End::At(m2));
                    lemma_keeps_on(m, m1, m2, st.f.ops.len() as int, s1.f.ops.len() as int);
                    let p = pair_of(l, r, vars);
                    assert(p == Ok::<(int, int, Vars), Eval>((a, b, vars2)));
                    assert(both(
                        ops,
                        m,
                        st,
                        s2,
                        x,
                        y,
                        p->Ok_0.0,
                        p->Ok_0.1,
                        p->Ok_0.2,
                        around,
                        m2,
                    ));
                },
                ev => {
                    lemma_then(ops, m, m1, st, s1, s2, Some(y), ev, around);
                },
            }
        },
        ev => {
            lemma_stops(ops, m, st, s1, Some(x), ev, around, st, s2, Some(y));
        },
    }
}

proof fn law_binary(ops: Seq<Op>, m: Machine, st: LowView, e: ExprView, vars: Vars)
    requires
        e.kind is Binary,
        placed(ops, m, st, vars),
        gen_expr(vars.env(), st, e) is Ok,
        within(ops, gen_expr(vars.env(), st, e)->Ok_0.0, vars.around),
    ensures
        computes(
            ops,
            m,
            st,
            gen_expr(vars.env(), st, e)->Ok_0.0,
            gen_expr(vars.env(), st, e)->Ok_0.1,
            eval(e, vars),
            vars.around,
        ),
    decreases e, 8int,
{
    let env = vars.env();
    let op = e.kind->Binary_0;
    let l = *e.kind->Binary_1;
    let r = *e.kind->Binary_2;
    let (s, v) = gen_binary(env, st, e)->Ok_0;
    let (s1, x) = gen_scalar(env, st, l)->Ok_0;
    assert(eval(e, vars) == eval_binary(e, vars)) by {
        reveal(eval);
    }
    assert(scalar_code(env, st, l) == gen_scalar(env, st, l)) by {
        reveal(scalar_code);
    }
    if op is And || op is Or {
        let s4 = logical_start(s1, op, x);
        let (s5, y) = gen_scalar(env, s4, r)->Ok_0;
        assert(scalar_code(env, s4, r) == gen_scalar(env, s4, r)) by {
            reveal(scalar_code);
        }
        lemma_logical(ops, m, st, e, s1, x, s5, y, vars);
        assert(s == logical_end(s5, s1, y));
        assert(v == next(put(put(s5, Op::JumpWith(next(put(s1, Op::Block)), y)), Op::SwitchTo(next(put(s1, Op::Block))))));
    } else {
        let (s2, y) = gen_scalar(env, s1, r)->Ok_0;
        assert(scalar_code(env, s1, r) == gen_scalar(env, s1, r)) by {
            reveal(scalar_code);
        }
        lemma_binary(ops, m, st, e, s1, x, s2, y, s, v, vars);
    }
}

#[verifier::rlimit(30)]
proof fn lemma_binary(
    ops: Seq<Op>,
    m: Machine,
    st: LowView,
    e: ExprView,
    s1: LowView,
    x: usize,
    s2: LowView,
    y: usize,
    s: LowView,
    v: usize,
    vars: Vars,
)
    requires
        e.kind is Binary,
        !(e.kind->Binary_0 is And || e.kind->Binary_0 is Or),
        placed(ops, m, st, vars),
        scalar_code(vars.env(), st, *e.kind->Binary_1) == Ok::<(LowView, usize), Seq<char>>(
            (s1, x),
        ),
        scalar_code(vars.env(), s1, *e.kind->Binary_2) == Ok::<(LowView, usize), Seq<char>>(
            (s2, y),
        ),
        binary_values(
            s2,
            e.kind->Binary_0,
            e.kind->Binary_1.ty,
            e.kind->Binary_2.ty,
            x,
            y,
            e.line,
        ) == Ok::<(LowView, usize), Seq<char>>((s, v)),
        within(ops, s, vars.around),
    ensures
        computes(ops, m, st, s, Some(v), eval_binary(e, vars), vars.around),
    decreases e, 7int,
{
    let around = vars.around;
    let op = e.kind->Binary_0;
    let l = *e.kind->Binary_1;
    let r = *e.kind->Binary_2;
    write_binary_values(s2, op, l.ty, r.ty, x, y, e.line);
    lemma_place_binary(s2, op, l.ty, x, y, e.line);
    lemma_part(ops, s, s2, around);
    assert(decreases_to!(e => l) && decreases_to!(e => r));
    lemma_pair(ops, m, st, l, r, s1, x, s2, y, vars, e);
    lemma_eq_binary(e, vars);
    match pair_of(l, r, vars) {
        Err(ev) => lemma_stops(ops, m, st, s2, Some(y), ev, around, st, s, Some(v)),
        Ok((a, b, vars2)) => {
            if l.ty == r.ty {
                let m2 = choose|m2: Machine| #[trigger]
                    both(ops, m, st, s2, x, y, a, b, vars2, around, m2);
                law_operator(ops, m2, s2, op, l.ty, x, y, e.line, a, b);
                let reply = combined(op, l.ty, a, b, e.line, vars2.world);
                lemma_lift(ops, m2, s2, s, v, reply, vars2);
                lemma_then(ops, m, m2, st, s2, s, Some(v), lift(vars2, reply), around);
            }
        },
    }
}

proof fn law_index(ops: Seq<Op>, m: Machine, st: LowView, e: ExprView, vars: Vars)
    requires
        e.kind is Index,
        placed(ops, m, st, vars),
        gen_expr(vars.env(), st, e) is Ok,
        within(ops, gen_expr(vars.env(), st, e)->Ok_0.0, vars.around),
    ensures
        computes(
            ops,
            m,
            st,
            gen_expr(vars.env(), st, e)->Ok_0.0,
            gen_expr(vars.env(), st, e)->Ok_0.1,
            eval(e, vars),
            vars.around,
        ),
    decreases e, 8int,
{
    let env = vars.env();
    let l = *e.kind->Index_0;
    let r = *e.kind->Index_1;
    let (s, v) = gen_index(env, st, e)->Ok_0;
    let (s1, x) = gen_scalar(env, st, l)->Ok_0;
    let (s2, y) = gen_scalar(env, s1, r)->Ok_0;
    assert(eval(e, vars) == eval_index(e, vars)) by {
        reveal(eval);
    }
    assert(scalar_code(env, st, l) == gen_scalar(env, st, l) && scalar_code(env, s1, r)
        == gen_scalar(env, s1, r)) by {
        reveal(scalar_code);
    }
    lemma_index(ops, m, st, e, s1, x, s2, y, s, v, vars);
}

#[verifier::rlimit(30)]
proof fn lemma_index(
    ops: Seq<Op>,
    m: Machine,
    st: LowView,
    e: ExprView,
    s1: LowView,
    x: usize,
    s2: LowView,
    y: usize,
    s: LowView,
    v: usize,
    vars: Vars,
)
    requires
        e.kind is Index,
        placed(ops, m, st, vars),
        scalar_code(vars.env(), st, *e.kind->Index_0) == Ok::<(LowView, usize), Seq<char>>((s1, x)),
        scalar_code(vars.env(), s1, *e.kind->Index_1) == Ok::<(LowView, usize), Seq<char>>((s2, y)),
        index_value(s2, e.kind->Index_0.ty, e.ty, x, y, e.line) == Ok::<
            (LowView, usize),
            Seq<char>,
        >((s, v)),
        within(ops, s, vars.around),
    ensures
        computes(ops, m, st, s, Some(v), eval_index(e, vars), vars.around),
    decreases e, 7int,
{
    let around = vars.around;
    let l = *e.kind->Index_0;
    let r = *e.kind->Index_1;
    write_index_value(s2, l.ty, e.ty, x, y, e.line);
    lemma_place_index(s2, l.ty, e.ty, x, y, e.line);
    lemma_part(ops, s, s2, around);
    assert(decreases_to!(e => l) && decreases_to!(e => r));
    lemma_pair(ops, m, st, l, r, s1, x, s2, y, vars, e);
    lemma_eq_index(e, vars);
    match pair_of(l, r, vars) {
        Err(ev) => lemma_stops(ops, m, st, s2, Some(y), ev, around, st, s, Some(v)),
        Ok((a, b, vars2)) => {
            let m2 = choose|m2: Machine| #[trigger]
                both(ops, m, st, s2, x, y, a, b, vars2, around, m2);
            let k = kind_of(r.ty);
            law_element(ops, m2, s2, l.ty, e.ty, x, y, e.line, a, k, b);
            let reply = element_of(l.ty, e.ty, a, k, b, e.line, vars2.world);
            lemma_lift(ops, m2, s2, s, v, reply, vars2);
            lemma_then(ops, m, m2, st, s2, s, Some(v), lift(vars2, reply), around);
        },
    }
}

// -- Builtins ---------------------------------------------------------------

proof fn law_builtin(ops: Seq<Op>, m: Machine, st: LowView, e: ExprView, vars: Vars)
    requires
        e.kind is Builtin,
        placed(ops, m, st, vars),
        gen_expr(vars.env(), st, e) is Ok,
        within(ops, gen_expr(vars.env(), st, e)->Ok_0.0, vars.around),
    ensures
        computes(
            ops,
            m,
            st,
            gen_expr(vars.env(), st, e)->Ok_0.0,
            gen_expr(vars.env(), st, e)->Ok_0.1,
            eval(e, vars),
            vars.around,
        ),
    decreases e, 8int,
{
    let env = vars.env();
    let b = e.kind->Builtin_0;
    let args = e.kind->Builtin_1;
    let (s, v) = gen_builtin(env, st, b, args, e.line)->Ok_0;
    assert(eval(e, vars) == eval_builtin(e, vars)) by {
        reveal(eval);
    }
    if b is GcCollect {
        lemma_collect(ops, m, st, vars);
    } else {
        let (s1, x) = gen_scalar(env, st, args[0])->Ok_0;
        assert(scalar_code(env, st, args[0]) == gen_scalar(env, st, args[0])) by {
            reveal(scalar_code);
        }
        if b is Push {
            let (s2, y) = gen_scalar(env, s1, args[1])->Ok_0;
            assert(scalar_code(env, s1, args[1]) == gen_scalar(env, s1, args[1])) by {
                reveal(scalar_code);
            }
            lemma_push(ops, m, st, e, args, s1, x, s2, y, s, vars);
        } else {
            lemma_builtin(ops, m, st, e, args, s1, x, s, v, vars);
        }
    }
}

#[verifier::rlimit(30)]
proof fn lemma_push(
    ops: Seq<Op>,
    m: Machine,
    st: LowView,
    e: ExprView,
    args: Seq<ExprView>,
    s1: LowView,
    x: usize,
    s2: LowView,
    y: usize,
    s: LowView,
    vars: Vars,
)
    requires
        e.kind == ExprKindView::Builtin(Builtin::Push, args),
        args.len() >= 2,
        args[0].ty is Array,
        placed(ops, m, st, vars),
        scalar_code(vars.env(), st, args[0]) == Ok::<(LowView, usize), Seq<char>>((s1, x)),
        scalar_code(vars.env(), s1, args[1]) == Ok::<(LowView, usize), Seq<char>>((s2, y)),
        s == array_push(s2, *args[0].ty->Array_0, x, y),
        within(ops, s, vars.around),
    ensures
        computes(ops, m, st, s, None, eval_builtin(e, vars), vars.around),
    decreases e, 7int,
{
    let around = vars.around;
    let ty = *args[0].ty->Array_0;
    write_array_push(s2, ty, x, y);
    lemma_part(ops, s, s2, around);
    assert(decreases_to!(e => args[0]) && decreases_to!(e => args[1]));
    lemma_pair(ops, m, st, args[0], args[1], s1, x, s2, y, vars, e);
    lemma_eq_push(e, args, vars);
    match pair_of(args[0], args[1], vars) {
        Err(ev) => lemma_stops(ops, m, st, s2, Some(y), ev, around, st, s, None),
        Ok((a, c, vars2)) => {
            if is_value(ty) && 0 <= a < modulus() {
                let m2 = choose|m2: Machine| #[trigger]
                    both(ops, m, st, s2, x, y, a, c, vars2, around, m2);
                law_push(ops, m2, s2, ty, x, y, a, c);
                if let Some(w) = pushed(vars2.world, a, word(c), ty.storage() as nat) {
                    lemma_leaves(ops, m2, s2, s, w, vars2, None);
                    lemma_then(ops, m, m2, st, s2, s, None, Eval::Nothing(vars2.at(w)), around);
                }
            }
        },
    }
}

#[verifier::rlimit(30)]
proof fn lemma_builtin(
    ops: Seq<Op>,
    m: Machine,
    st: LowView,
    e: ExprView,
    args: Seq<ExprView>,
    s1: LowView,
    x: usize,
    s: LowView,
    v: Option<usize>,
    vars: Vars,
)
    requires
        e.kind is Builtin,
        e.kind->Builtin_1 == args,
        !(e.kind->Builtin_0 is Push || e.kind->Builtin_0 is GcCollect),
        args.len() >= 1,
        placed(ops, m, st, vars),
        scalar_code(vars.env(), st, args[0]) == Ok::<(LowView, usize), Seq<char>>((s1, x)),
        builtin_value(vars.env(), s1, e.kind->Builtin_0, args[0].ty, x, e.line) == Ok::<
            (LowView, Option<usize>),
            Seq<char>,
        >((s, v)),
        within(ops, s, vars.around),
    ensures
        computes(ops, m, st, s, v, eval_builtin(e, vars), vars.around),
    decreases e, 7int,
{
    let env = vars.env();
    let around = vars.around;
    let b = e.kind->Builtin_0;
    write_builtin_value(env, s1, b, args[0].ty, x, e.line);
    lemma_place_builtin(env, s1, b, args[0].ty, x, e.line);
    lemma_part(ops, s, s1, around);
    assert(decreases_to!(e => args[0]));
    law_scalar(ops, m, st, args[0], vars);
    lemma_eq_builtin(e, args, vars);
    match worth(eval(args[0], vars)) {
        Eval::Value(a, vars1) => {
            let m1 = after(ops, m, st, s1, x, a, vars1, around);
            assert(reached(ops, m, st, s1, m1, vars1, around));
            law_built(ops, m1, env, s1, b, args[0].ty, x, e.line, a);
            let r = built(b, args[0].ty, env.checked, a, e.line, vars1.world);
            lemma_lift(ops, m1, s1, s, v->0, r, vars1);
            if v is Some {
                assert(v == Some(v->0));
            }
            lemma_then(ops, m, m1, st, s1, s, v, lift(vars1, r), around);
        },
        ev => lemma_stops(ops, m, st, s1, Some(x), ev, around, st, s, v),
    }
}

// -- Branches ---------------------------------------------------------------

/// Behind the left side of a logical operator, up to the right one.
pub open spec fn logical_start(s1: LowView, op: BinOp, l: usize) -> LowView {
    let rest = next(s1);
    let s2 = put(s1, Op::Block);
    let merge = next(s2);
    let s3 = put(s2, Op::BlockOf(IrType::I64));
    let s4 = put(
        s3,
        if op is And {
            Op::BrifElseWith(l, rest, merge, l)
        } else {
            Op::BrifWith(l, merge, l, rest)
        },
    );
    put(s4, Op::SwitchTo(rest))
}

/// Behind the right side.
pub open spec fn logical_end(s5: LowView, s1: LowView, r: usize) -> LowView {
    let merge = next(put(s1, Op::Block));
    put(put(put(s5, Op::JumpWith(merge, r)), Op::SwitchTo(merge)), Op::BlockParam(merge))
}

/// A branch has run; its value goes on at the merge block.
pub proof fn lemma_merge(
    ops: Seq<Op>,
    m: Machine,
    from: LowView,
    to: LowView,
    x: usize,
    ev: Eval,
    merge: usize,
    w: int,
    base: LowView,
    end: LowView,
    around: Setting,
)
    requires
        ev !is Nothing,
        computes(ops, m, from, to, Some(x), ev, around),
        base.f.ops.len() <= from.f.ops.len(),
        base.f.ops.len() <= merge,
        to.f.ops.len() < ops.len(),
        ops[to.f.ops.len() as int] == Op::JumpWith(merge, x),
        start_from(ops, merge, 0) == Some(w + 1),
        base.f.ops.len() <= w,
        w + 2 < ops.len() <= usize::MAX,
        ops[w + 1] == Op::SwitchTo(merge),
        ops[w + 2] == Op::BlockParam(merge),
        end.f.ops.len() == w + 3,
    ensures
        computes(ops, m, base, end, Some((w + 2) as usize), ev, around),
{
    if let Eval::Value(b, vars) = ev {
        let m7 = after(ops, m, from, to, x, b, vars, around);
        let m8 = Machine { at: w + 1, vals: m7.vals.insert(merge as int, word(b)), ..m7 };
        let m9 = Machine { at: w + 2, ..m8 };
        let m10 = Machine { at: w + 3, vals: m8.vals.insert(w + 2, word(b)), ..m7 };
        assert(step(ops, m7) == Some(End::At(m8)));
        assert(step(ops, m8) == Some(End::At(m9)));
        assert(step(ops, m9) == Some(End::At(m10)));
        lemma_leads_step(ops, m9, End::At(m10));
        lemma_step_then(ops, m8, m9, End::At(m10));
        lemma_step_then(ops, m7, m8, End::At(m10));
        lemma_leads_on(ops, m, m7, End::At(m10));
        let p = base.f.ops.len() as int;
        assert(keeps(m10, m, p)) by {
            assert forall|i: int| 0 <= i < p implies #[trigger] m10.vals[i] == m.vals[i] by {
                assert(m7.vals[i] == m.vals[i]);
            }
        }
        assert(holds(m10, vars));
        lemma_value(ops, m, base, end, (w + 2) as usize, b, vars, around, m10);
    }
}

/// Logical operators: the right side runs only where the left one does not
/// decide.
#[verifier::rlimit(50)]
proof fn lemma_logical(
    ops: Seq<Op>,
    m: Machine,
    st: LowView,
    e: ExprView,
    s1: LowView,
    x: usize,
    s5: LowView,
    y: usize,
    vars: Vars,
)
    requires
        e.kind is Binary,
        e.kind->Binary_0 is And || e.kind->Binary_0 is Or,
        placed(ops, m, st, vars),
        scalar_code(vars.env(), st, *e.kind->Binary_1) == Ok::<(LowView, usize), Seq<char>>(
            (s1, x),
        ),
        scalar_code(
            vars.env(),
            logical_start(s1, e.kind->Binary_0, x),
            *e.kind->Binary_2,
        ) == Ok::<(LowView, usize), Seq<char>>((s5, y)),
        within(ops, logical_end(s5, s1, y), vars.around),
    ensures
        computes(
            ops,
            m,
            st,
            logical_end(s5, s1, y),
            Some((s5.f.ops.len() + 2) as usize),
            eval_binary(e, vars),
            vars.around,
        ),
    decreases e, 7int,
{
    let env = vars.env();
    let around = vars.around;
    let op = e.kind->Binary_0;
    let l = *e.kind->Binary_1;
    let r = *e.kind->Binary_2;
    let s4 = logical_start(s1, op, x);
    let s = logical_end(s5, s1, y);
    lemma_eq_logical(e, vars);
    assert(decreases_to!(e => l) && decreases_to!(e => r));
    lemma_scalar_calm(env, st, l);
    lemma_scalar_calm(env, s4, r);
    lemma_before(ops, s, s5, around);
    lemma_part(ops, s5, s4, around);
    lemma_before(ops, s4, s1, around);
    law_scalar(ops, m, st, l, vars);
    let p = s1.f.ops.len() as int;
    let q = s5.f.ops.len() as int;
    let v = (q + 2) as usize;
    let (rest, merge) = (p as usize, (p + 1) as usize);
    assert(ops[p] == s4.f.ops[p] && ops[p + 1] == s4.f.ops[p + 1] && ops[p + 2] == s4.f.ops[p + 2]
        && ops[p + 3] == s4.f.ops[p + 3]);
    assert(ops[q] == s.f.ops[q] && ops[q + 1] == s.f.ops[q + 1] && ops[q + 2] == s.f.ops[q + 2]);
    assert(ops[q] == Op::JumpWith(merge, y));
    assert(ops[q + 1] == Op::SwitchTo(merge));
    assert(ops[q + 2] == Op::BlockParam(merge));
    lemma_start(ops, rest, p + 3);
    assert forall|i: int| merge < i < q + 1 implies #[trigger] ops[i] != Op::SwitchTo(merge) by {
        if p + 4 <= i < q {
            assert(ops[i] == s5.f.ops[i]);
        }
    }
    lemma_start(ops, merge, q + 1);
    if let Eval::Value(a, vars1) = worth(eval(l, vars)) {
        let m1 = after(ops, m, st, s1, x, a, vars1, around);
        if a == 0 || a == 1 {
            lemma_word(a);
            let m2 = Machine { at: p + 1, ..m1 };
            let m3 = Machine { at: p + 2, ..m1 };
            assert(step(ops, m1) == Some(End::At(m2)));
            assert(step(ops, m2) == Some(End::At(m3)));
            lemma_leads_step(ops, m2, End::At(m3));
            lemma_step_then(ops, m1, m2, End::At(m3));
            if (a == 0) == (op is And) {
                let m4 = Machine { at: q + 1, vals: m1.vals.insert(p + 1, word(a)), ..m1 };
                let m5 = Machine { at: q + 2, ..m4 };
                let m6 = Machine { at: q + 3, vals: m4.vals.insert(q + 2, word(a)), ..m1 };
                assert(step(ops, m3) == Some(End::At(m4)));
                assert(step(ops, m4) == Some(End::At(m5)));
                assert(step(ops, m5) == Some(End::At(m6)));
                lemma_leads_step(ops, m5, End::At(m6));
                lemma_step_then(ops, m4, m5, End::At(m6));
                lemma_step_then(ops, m3, m4, End::At(m6));
                lemma_leads_on(ops, m1, m3, End::At(m6));
                assert(keeps(m6, m1, p));
                assert(holds(m6, vars1));
                lemma_value(ops, m1, s1, s, v, a, vars1, around, m6);
            } else {
                let m4 = Machine { at: p + 3, ..m1 };
                let m5 = Machine { at: p + 4, ..m1 };
                assert(step(ops, m3) == Some(End::At(m4)));
                assert(step(ops, m4) == Some(End::At(m5)));
                lemma_leads_step(ops, m4, End::At(m5));
                lemma_step_then(ops, m3, m4, End::At(m5));
                lemma_leads_on(ops, m1, m3, End::At(m5));
                assert(holds(m5, vars1));
                assert(calm(s4, st)) by {
                    lemma_calm();
                }
                lemma_calm_placed(ops, m, st, vars, m5, s4, vars1);
                law_scalar(ops, m5, s4, r, vars1);
                lemma_merge(ops, m5, s4, s5, y, worth(eval(r, vars1)), merge, q, s1, s, around);
                lemma_then(ops, m1, m5, s1, s1, s, Some(v), worth(eval(r, vars1)), around);
            }
            let ev1 = if (a == 0) == (op is And) {
                Eval::Value(a, vars1)
            } else {
                worth(eval(r, vars1))
            };
            lemma_then(ops, m, m1, st, s1, s, Some(v), ev1, around);
        }
    } else {
        lemma_stops(ops, m, st, s1, Some(x), worth(eval(l, vars)), around, st, s, Some(v));
    }
}

pub open spec fn if_start(s1: LowView, ty: TypeView, c: usize) -> LowView {
    let yes = next(s1);
    let s2 = put(s1, Op::Block);
    let no = next(s2);
    let s3 = put(s2, Op::Block);
    let s4 = put(s3, Op::BlockOf(abi(ty)));
    put(put(s4, Op::Brif(c, yes, no)), Op::SwitchTo(yes))
}

pub open spec fn if_else(s6: LowView, s1: LowView, t: usize) -> LowView {
    let no = next(put(s1, Op::Block));
    let merge = next(put(put(s1, Op::Block), Op::Block));
    put(put(s6, Op::JumpWith(merge, t)), Op::SwitchTo(no))
}

/// Behind both branches, before the root.
pub open spec fn if_end(s8: LowView, s1: LowView, f: usize) -> LowView {
    let merge = next(put(put(s1, Op::Block), Op::Block));
    put(put(put(s8, Op::JumpWith(merge, f)), Op::SwitchTo(merge)), Op::BlockParam(merge))
}

proof fn law_if(ops: Seq<Op>, m: Machine, st: LowView, e: ExprView, vars: Vars)
    requires
        e.kind is If,
        placed(ops, m, st, vars),
        gen_expr(vars.env(), st, e) is Ok,
        within(ops, gen_expr(vars.env(), st, e)->Ok_0.0, vars.around),
    ensures
        computes(
            ops,
            m,
            st,
            gen_expr(vars.env(), st, e)->Ok_0.0,
            gen_expr(vars.env(), st, e)->Ok_0.1,
            eval(e, vars),
            vars.around,
        ),
    decreases e, 8int,
{
    let env = vars.env();
    let cond = *e.kind->If_cond;
    let then = *e.kind->If_then;
    let els = *e.kind->If_els;
    let (s, v) = gen_if(env, st, e)->Ok_0;
    let (s1, c) = gen_scalar(env, st, cond)->Ok_0;
    let s5 = if_start(s1, e.ty, c);
    let (s6, t) = gen_scalar(env, s5, then)->Ok_0;
    let s7 = if_else(s6, s1, t);
    let (s8, f) = gen_scalar(env, s7, els)->Ok_0;
    let end = if_end(s8, s1, f);
    assert(eval(e, vars) == eval_if(e, vars)) by {
        reveal(eval);
    }
    assert(scalar_code(env, st, cond) == gen_scalar(env, st, cond) && scalar_code(env, s5, then)
        == gen_scalar(env, s5, then) && scalar_code(env, s7, els) == gen_scalar(env, s7, els)) by {
        reveal(scalar_code);
    }
    assert(s == rooted(end, e.ty, v));
    assert(calm(s, end)) by {
        write_rooted(end, e.ty, v);
    }
    lemma_part(ops, s, end, vars.around);
    lemma_conditional(ops, m, st, e, s1, c, s6, t, s8, f, vars);
    assert(v == (s8.f.ops.len() + 2) as usize);
    lemma_then_rooted(ops, m, st, end, e.ty, v, eval(e, vars), vars.around);
}

/// The conditional: only the branch that is taken runs.
#[verifier::rlimit(60)]
proof fn lemma_conditional(
    ops: Seq<Op>,
    m: Machine,
    st: LowView,
    e: ExprView,
    s1: LowView,
    c: usize,
    s6: LowView,
    t: usize,
    s8: LowView,
    f: usize,
    vars: Vars,
)
    requires
        e.kind is If,
        placed(ops, m, st, vars),
        scalar_code(vars.env(), st, *e.kind->If_cond) == Ok::<(LowView, usize), Seq<char>>((s1, c)),
        scalar_code(vars.env(), if_start(s1, e.ty, c), *e.kind->If_then) == Ok::<
            (LowView, usize),
            Seq<char>,
        >((s6, t)),
        scalar_code(vars.env(), if_else(s6, s1, t), *e.kind->If_els) == Ok::<
            (LowView, usize),
            Seq<char>,
        >((s8, f)),
        within(ops, if_end(s8, s1, f), vars.around),
    ensures
        computes(
            ops,
            m,
            st,
            if_end(s8, s1, f),
            Some((s8.f.ops.len() + 2) as usize),
            eval_if(e, vars),
            vars.around,
        ),
    decreases e, 7int,
{
    let env = vars.env();
    let around = vars.around;
    let cond = *e.kind->If_cond;
    let then = *e.kind->If_then;
    let els = *e.kind->If_els;
    let s5 = if_start(s1, e.ty, c);
    let s7 = if_else(s6, s1, t);
    let s = if_end(s8, s1, f);
    lemma_eq_if(e, vars);
    assert(decreases_to!(e => cond) && decreases_to!(e => then) && decreases_to!(e => els));
    lemma_scalar_calm(env, st, cond);
    lemma_scalar_calm(env, s5, then);
    lemma_scalar_calm(env, s7, els);
    assert(s.f.ops.len() <= usize::MAX);
    lemma_before(ops, s, s8, around);
    lemma_part(ops, s8, s7, around);
    lemma_before(ops, s7, s6, around);
    lemma_part(ops, s6, s5, around);
    lemma_before(ops, s5, s1, around);
    assert(calm(s5, st)) by {
        lemma_calm();
    }
    assert(calm(s7, st)) by {
        lemma_calm();
        assert(calm(s6, st));
    }
    law_scalar(ops, m, st, cond, vars);
    let p = s1.f.ops.len() as int;
    let q = s6.f.ops.len() as int;
    let w = s8.f.ops.len() as int;
    let v = (w + 2) as usize;
    let (yes, no, merge) = (p as usize, (p + 1) as usize, (p + 2) as usize);
    assert(ops[p] == s5.f.ops[p] && ops[p + 1] == s5.f.ops[p + 1] && ops[p + 2] == s5.f.ops[p + 2]
        && ops[p + 3] == s5.f.ops[p + 3] && ops[p + 4] == s5.f.ops[p + 4]);
    assert(ops[p + 3] == Op::Brif(c, yes, no) && ops[p + 4] == Op::SwitchTo(yes));
    assert(ops[q] == s7.f.ops[q] && ops[q + 1] == s7.f.ops[q + 1]);
    assert(ops[q] == Op::JumpWith(merge, t) && ops[q + 1] == Op::SwitchTo(no));
    assert(ops[w] == s.f.ops[w] && ops[w + 1] == s.f.ops[w + 1] && ops[w + 2] == s.f.ops[w + 2]);
    assert(ops[w] == Op::JumpWith(merge, f) && ops[w + 1] == Op::SwitchTo(merge) && ops[w + 2]
        == Op::BlockParam(merge));
    assert forall|i: int| p + 5 <= i < q implies (match #[trigger] ops[i] {
        Op::SwitchTo(b) => b >= p + 5,
        _ => true,
    }) by {
        assert(ops[i] == s6.f.ops[i]);
    }
    assert forall|i: int| q + 2 <= i < w implies (match #[trigger] ops[i] {
        Op::SwitchTo(b) => b >= q + 2,
        _ => true,
    }) by {
        assert(ops[i] == s8.f.ops[i]);
    }
    lemma_start(ops, yes, p + 4);
    lemma_start(ops, no, q + 1);
    lemma_start(ops, merge, w + 1);
    if let Eval::Value(a, vars1) = worth(eval(cond, vars)) {
        let m1 = after(ops, m, st, s1, c, a, vars1, around);
        if a == 0 || a == 1 {
            lemma_word(a);
            let m2 = Machine { at: p + 1, ..m1 };
            let m3 = Machine { at: p + 2, ..m1 };
            let m4 = Machine { at: p + 3, ..m1 };
            assert(step(ops, m1) == Some(End::At(m2)));
            assert(step(ops, m2) == Some(End::At(m3)));
            assert(step(ops, m3) == Some(End::At(m4)));
            lemma_leads_step(ops, m3, End::At(m4));
            lemma_step_then(ops, m2, m3, End::At(m4));
            lemma_step_then(ops, m1, m2, End::At(m4));
            // The branch that is taken: where it starts, its code and its jump.
            let (go, from, to, x, ev) = if a == 1 {
                (p + 4, s5, s6, t, worth(eval(then, vars1)))
            } else {
                (q + 1, s7, s8, f, worth(eval(els, vars1)))
            };
            let m5 = Machine { at: go, ..m1 };
            let m6 = Machine { at: go + 1, ..m1 };
            assert(step(ops, m4) == Some(End::At(m5)));
            assert(step(ops, m5) == Some(End::At(m6)));
            lemma_leads_step(ops, m5, End::At(m6));
            lemma_step_then(ops, m4, m5, End::At(m6));
            lemma_leads_on(ops, m1, m4, End::At(m6));
            assert(holds(m6, vars1));
            lemma_calm_placed(ops, m, st, vars, m6, from, vars1);
            if a == 1 {
                law_scalar(ops, m6, s5, then, vars1);
            } else {
                law_scalar(ops, m6, s7, els, vars1);
            }
            lemma_merge(ops, m6, from, to, x, ev, merge, w, s1, s, around);
            lemma_then(ops, m1, m6, s1, s1, s, Some(v), ev, around);
            lemma_then(ops, m, m1, st, s1, s, Some(v), ev, around);
        }
    } else {
        lemma_stops(ops, m, st, s1, Some(c), worth(eval(cond, vars)), around, st, s, Some(v));
    }
}

} // verus!
