//! What the checker owes: an expression or a statement whose parts are accepted
//! is accepted itself exactly if the rules give it a type.
use vstd::prelude::*;

use crate::ast::{BinOp, ExprKindView, ExprView, StmtView};
use crate::judging::{
    binary_rule, index_rule, int_type, is_number, is_place, takes_operands, unary_rule,
};
use crate::rules::{
    arith_type, binary_type, check_args, check_args_from, check_array, check_assign, check_binary,
    check_block, check_call, check_call_sig, check_cast, check_elems, check_expr, check_if,
    check_if_stmt, check_index, check_let, check_name_call, check_return, check_stmt, check_target,
    check_while, comparison_type, equality_type, is_literal, left_expected, logical_type,
    right_expected, unary_type, with_loop,
};
use crate::types::{IntKind, TypeView};
use crate::typing::{
    check_arith_op, declare, literal_kind, resolve_type, resolve_var, BodyView, EnvView, MAX_LOCALS,
};

verus! {

pub open spec fn accepted(
    r: Result<(ExprView, BodyView), Seq<char>>,
    kind: ExprKindView,
    ty: TypeView,
    end: BodyView,
) -> bool {
    r matches Ok((x, st)) && x.kind == kind && x.ty == ty && st == end
}

/// The kind that an integer literal takes: the expected one, or `int`.
pub open spec fn literal_type(expected: Option<TypeView>) -> IntKind {
    match expected {
        Some(TypeView::Int(k)) => k,
        _ => IntKind::I64,
    }
}

/// An integer literal is accepted exactly if the kind it takes holds it; with a
/// minus before it, exactly if the kind holds its opposite.
pub proof fn law_literal(env: EnvView, st: BodyView, e: ExprView, expected: Option<TypeView>)
    requires
        e.kind is Int || (e.kind matches ExprKindView::Unary(op, a) && op is Neg && a.kind is Int),
    ensures
        ({
            let k = literal_type(expected);
            let v = if e.kind is Int {
                e.kind->Int_0 as int
            } else {
                -(e.kind->Unary_1.kind->Int_0 as int)
            };
            &&& check_expr(env, st, e, expected) is Ok == k.holds(v)
            &&& check_expr(env, st, e, expected) matches Ok((x, st1)) ==> x.kind is Int && x.ty
                == TypeView::Int(k) && st1 == st
        }),
{
    reveal(literal_kind);
}

/// A prefix operator is accepted exactly on operands of the types that it takes.
pub proof fn law_unary_accepted(
    env: EnvView,
    st: BodyView,
    e: ExprView,
    expected: Option<TypeView>,
    x: ExprView,
    st1: BodyView,
)
    requires
        e.kind is Unary,
        !(e.kind->Unary_0 is Neg && e.kind->Unary_1.kind is Int),
        check_expr(
            env,
            st,
            *e.kind->Unary_1,
            if e.kind->Unary_0 is BitNot {
                expected
            } else {
                None
            },
        ) == Ok::<(ExprView, BodyView), Seq<char>>((x, st1)),
    ensures
        ({
            let op = e.kind->Unary_0;
            let r = check_expr(env, st, e, expected);
            &&& r is Ok == exists|ty: TypeView| unary_rule(op, x.ty, ty)
            &&& forall|ty: TypeView| #[trigger]
                unary_rule(op, x.ty, ty) ==> accepted(
                    r,
                    ExprKindView::Unary(op, Box::new(x)),
                    ty,
                    st1,
                )
        }),
{
    reveal(unary_type);
    let op = e.kind->Unary_0;
    if let Ok(ty) = unary_type(env, op, x.ty, e.line) {
        assert(unary_rule(op, x.ty, ty));
    }
}

proof fn lemma_binary_type(env: EnvView, op: BinOp, l: TypeView, r: TypeView, line: u32)
    ensures
        binary_type(env, op, l, r, line) matches Ok(ty) ==> binary_rule(env, op, l, r, ty),
        forall|ty: TypeView| #[trigger]
            binary_rule(env, op, l, r, ty) ==> binary_type(env, op, l, r, line) == Ok::<
                TypeView,
                Seq<char>,
            >(ty),
{
    reveal(binary_type);
    reveal(logical_type);
    reveal(equality_type);
    reveal(comparison_type);
    reveal(arith_type);
    reveal(check_arith_op);
}

/// A binary operator is accepted exactly on operands of types that it takes
/// together.
pub proof fn law_binary_accepted(
    env: EnvView,
    st: BodyView,
    e: ExprView,
    expected: Option<TypeView>,
    l: ExprView,
    st1: BodyView,
    r: ExprView,
    st2: BodyView,
)
    requires
        e.kind is Binary,
        check_expr(
            env,
            st,
            *e.kind->Binary_1,
            left_expected(e.kind->Binary_0, expected),
        ) == Ok::<(ExprView, BodyView), Seq<char>>((l, st1)),
        check_expr(
            env,
            st1,
            *e.kind->Binary_2,
            Some(right_expected(e.kind->Binary_0, l.ty)),
        ) == Ok::<(ExprView, BodyView), Seq<char>>((r, st2)),
    ensures
        ({
            let op = e.kind->Binary_0;
            let c = check_expr(env, st, e, expected);
            &&& c is Ok == exists|ty: TypeView| binary_rule(env, op, l.ty, r.ty, ty)
            &&& forall|ty: TypeView| #[trigger]
                binary_rule(env, op, l.ty, r.ty, ty) ==> accepted(
                    c,
                    ExprKindView::Binary(op, Box::new(l), Box::new(r)),
                    ty,
                    st2,
                )
        }),
{
    let op = e.kind->Binary_0;
    lemma_binary_type(env, op, l.ty, r.ty, e.line);
    if let Ok(ty) = binary_type(env, op, l.ty, r.ty, e.line) {
        assert(binary_rule(env, op, l.ty, r.ty, ty));
    }
    assert(check_expr(env, st, e, expected) == check_binary(env, st, e, expected));
}

/// A conditional is accepted exactly if its condition is a truth value and its
/// branches give values of one type.
pub proof fn law_if_accepted(
    env: EnvView,
    st: BodyView,
    e: ExprView,
    expected: Option<TypeView>,
    c: ExprView,
    st1: BodyView,
    t: ExprView,
    st2: BodyView,
    f: ExprView,
    st3: BodyView,
)
    requires
        e.kind is If,
        check_expr(env, st, *e.kind->If_cond, Some(TypeView::Bool)) == Ok::<
            (ExprView, BodyView),
            Seq<char>,
        >((c, st1)),
        check_expr(env, st1, *e.kind->If_then, expected) == Ok::<
            (ExprView, BodyView),
            Seq<char>,
        >((t, st2)),
        check_expr(env, st2, *e.kind->If_els, Some(t.ty)) == Ok::<
            (ExprView, BodyView),
            Seq<char>,
        >((f, st3)),
    ensures
        ({
            let r = check_expr(env, st, e, expected);
            let ok = c.ty is Bool && t.ty == f.ty && !(t.ty is Unit);
            &&& r is Ok == ok
            &&& ok ==> accepted(
                r,
                ExprKindView::If { cond: Box::new(c), then: Box::new(t), els: Box::new(f) },
                t.ty,
                st3,
            )
        }),
{
    assert(check_expr(env, st, e, expected) == check_if(env, st, e, expected));
}

/// Strings and arrays are indexed by integers, and nothing else is.
pub proof fn law_index_accepted(
    env: EnvView,
    st: BodyView,
    e: ExprView,
    expected: Option<TypeView>,
    o: ExprView,
    st1: BodyView,
    i: ExprView,
    st2: BodyView,
)
    requires
        e.kind is Index,
        check_expr(env, st, *e.kind->Index_0, None) == Ok::<(ExprView, BodyView), Seq<char>>(
            (o, st1),
        ),
        check_expr(env, st1, *e.kind->Index_1, Some(int_type())) == Ok::<
            (ExprView, BodyView),
            Seq<char>,
        >((i, st2)),
    ensures
        ({
            let r = check_expr(env, st, e, expected);
            &&& r is Ok == exists|ty: TypeView| index_rule(o.ty, i.ty, ty)
            &&& forall|ty: TypeView| #[trigger]
                index_rule(o.ty, i.ty, ty) ==> accepted(
                    r,
                    ExprKindView::Index(Box::new(o), Box::new(i)),
                    ty,
                    st2,
                )
        }),
{
    assert(check_expr(env, st, e, expected) == check_index(env, st, e));
    if let Ok((x, _)) = check_index(env, st, e) {
        assert(index_rule(o.ty, i.ty, x.ty));
    }
}

/// Numbers are cast to numeric types, and nothing else is.
pub proof fn law_cast_accepted(
    env: EnvView,
    st: BodyView,
    e: ExprView,
    expected: Option<TypeView>,
    target: TypeView,
    x: ExprView,
    st1: BodyView,
)
    requires
        e.kind is Cast,
        resolve_type(env, e.kind->Cast_1) == Ok::<TypeView, Seq<char>>(target),
        check_expr(
            env,
            st,
            *e.kind->Cast_0,
            if is_literal(*e.kind->Cast_0) {
                Some(target)
            } else {
                None
            },
        ) == Ok::<(ExprView, BodyView), Seq<char>>((x, st1)),
    ensures
        ({
            let r = check_expr(env, st, e, expected);
            let ok = is_number(x.ty) && is_number(target);
            &&& r is Ok == ok
            &&& ok ==> accepted(r, ExprKindView::Cast(Box::new(x), e.kind->Cast_1), target, st1)
        }),
{
    assert(check_expr(env, st, e, expected) == check_cast(
        env,
        st,
        *e.kind->Cast_0,
        e.kind->Cast_1,
        e.line,
    ));
}

// -- Lists ------------------------------------------------------------------

/// Are the expressions accepted one behind the other, each with what is expected
/// of it?
pub open spec fn each_accepted(
    env: EnvView,
    es: Seq<ExprView>,
    want: spec_fn(int) -> Option<TypeView>,
    xs: Seq<ExprView>,
    sts: Seq<BodyView>,
) -> bool {
    &&& xs.len() == es.len()
    &&& sts.len() == es.len() + 1
    &&& forall|i: int|
        0 <= i < es.len() ==> check_expr(env, #[trigger] sts[i], es[i], want(i)) == Ok::<
            (ExprView, BodyView),
            Seq<char>,
        >((xs[i], sts[i + 1]))
}

proof fn lemma_elems_accepted(
    env: EnvView,
    es: Seq<ExprView>,
    i: nat,
    t: TypeView,
    acc: Seq<ExprView>,
    xs: Seq<ExprView>,
    sts: Seq<BodyView>,
)
    requires
        i <= es.len(),
        acc == xs.take(i as int),
        xs.len() == es.len(),
        sts.len() == es.len() + 1,
        forall|k: int|
            i <= k < es.len() ==> check_expr(env, #[trigger] sts[k], es[k], Some(t)) == Ok::<
                (ExprView, BodyView),
                Seq<char>,
            >((xs[k], sts[k + 1])),
    ensures
        ({
            let r = check_elems(env, sts[i as int], es, i, Some(t), acc);
            let ok = forall|k: int| i <= k < es.len() ==> (#[trigger] xs[k]).ty == t;
            &&& r is Ok == ok
            &&& ok ==> r == Ok::<(Seq<ExprView>, Option<TypeView>, BodyView), Seq<char>>(
                (xs, Some(t), sts[es.len() as int]),
            )
        }),
    decreases es.len() - i,
{
    if i < es.len() {
        assert(check_expr(env, sts[i as int], es[i as int], Some(t)) == Ok::<
            (ExprView, BodyView),
            Seq<char>,
        >((xs[i as int], sts[i as int + 1])));
        assert(acc.push(xs[i as int]) =~= xs.take(i as int + 1));
        if xs[i as int].ty == t {
            lemma_elems_accepted(env, es, i + 1, t, acc.push(xs[i as int]), xs, sts);
        }
    } else {
        assert(xs.take(i as int) =~= xs);
    }
}

/// An array literal is accepted exactly if all its elements have one type: the
/// expected one, or that of the first.
pub proof fn law_array_accepted(
    env: EnvView,
    e: ExprView,
    expected: Option<TypeView>,
    xs: Seq<ExprView>,
    sts: Seq<BodyView>,
)
    requires
        e.kind is ArrayLit,
        ({
            let es = e.kind->ArrayLit_0;
            let first = match expected {
                Some(TypeView::Array(t)) => Some(*t),
                _ => None,
            };
            &&& es.len() > 0
            &&& each_accepted(
                env,
                es,
                |i: int|
                    if i == 0 || first is Some {
                        first
                    } else {
                        Some(xs[0].ty)
                    },
                xs,
                sts,
            )
        }),
    ensures
        ({
            let r = check_expr(env, sts[0], e, expected);
            let t = match expected {
                Some(TypeView::Array(t)) => *t,
                _ => xs[0].ty,
            };
            let ok = forall|k: int| 0 <= k < xs.len() ==> (#[trigger] xs[k]).ty == t;
            &&& r is Ok == ok
            &&& ok ==> accepted(
                r,
                ExprKindView::ArrayLit(xs),
                TypeView::Array(Box::new(t)),
                sts[xs.len() as int],
            )
        }),
{
    let es = e.kind->ArrayLit_0;
    let first = match expected {
        Some(TypeView::Array(t)) => Some(*t),
        _ => None,
    };
    assert(check_expr(env, sts[0], e, expected) == check_array(env, sts[0], es, e.line, expected));
    assert(check_expr(env, sts[0], es[0], first) == Ok::<(ExprView, BodyView), Seq<char>>(
        (xs[0], sts[1]),
    ));
    match first {
        Some(t) => {
            assert(xs.take(0) =~= Seq::empty());
            lemma_elems_accepted(env, es, 0, t, Seq::empty(), xs, sts);
        },
        None => {
            assert(Seq::empty().push(xs[0]) =~= xs.take(1));
            lemma_elems_accepted(env, es, 1, xs[0].ty, xs.take(1), xs, sts);
            assert(check_elems(env, sts[0], es, 0, None, Seq::empty()) == check_elems(
                env,
                sts[1],
                es,
                1,
                Some(xs[0].ty),
                xs.take(1),
            ));
        },
    }
}

proof fn lemma_args_accepted(
    env: EnvView,
    es: Seq<ExprView>,
    ps: Seq<TypeView>,
    i: nat,
    acc: Seq<ExprView>,
    xs: Seq<ExprView>,
    sts: Seq<BodyView>,
)
    requires
        i <= es.len() == ps.len(),
        acc == xs.take(i as int),
        xs.len() == es.len(),
        sts.len() == es.len() + 1,
        forall|k: int|
            i <= k < es.len() ==> check_expr(env, #[trigger] sts[k], es[k], Some(ps[k])) == Ok::<
                (ExprView, BodyView),
                Seq<char>,
            >((xs[k], sts[k + 1])),
    ensures
        ({
            let r = check_args_from(env, sts[i as int], ps, 0, es, i, acc);
            let ok = forall|k: int| i <= k < es.len() ==> (#[trigger] xs[k]).ty == ps[k];
            &&& r is Ok == ok
            &&& ok ==> r == Ok::<(Seq<ExprView>, BodyView), Seq<char>>(
                (xs, sts[es.len() as int]),
            )
        }),
    decreases es.len() - i,
{
    if i < es.len() {
        assert(check_expr(env, sts[i as int], es[i as int], Some(ps[i as int])) == Ok::<
            (ExprView, BodyView),
            Seq<char>,
        >((xs[i as int], sts[i as int + 1])));
        assert(acc.push(xs[i as int]) =~= xs.take(i as int + 1));
        if xs[i as int].ty == ps[i as int] {
            lemma_args_accepted(env, es, ps, i + 1, acc.push(xs[i as int]), xs, sts);
        }
    } else {
        assert(xs.take(i as int) =~= xs);
    }
}

/// A call of a function without type parameters is accepted exactly if there is
/// an argument of the declared type for each parameter, and gives what the
/// function declares.
pub proof fn law_call_accepted(
    env: EnvView,
    st: BodyView,
    e: ExprView,
    expected: Option<TypeView>,
    xs: Seq<ExprView>,
    sts: Seq<BodyView>,
)
    requires
        e.kind is Call,
        e.kind->Call_callee.kind is Var,
        env.funcs.len() <= u32::MAX,
        ({
            let name = e.kind->Call_callee.kind->Var_name;
            let args = e.kind->Call_args;
            let (st0, r) = resolve_var(st, name);
            &&& r is None
            &&& env.func_id(name) matches Some(f) && f < env.funcs.len()
                && env.funcs[f as int].type_params.len() == 0 && (args.len()
                == env.funcs[f as int].params.len() ==> sts[0] == st0 && each_accepted(
                env,
                args,
                |i: int| Some(env.funcs[f as int].params[i]),
                xs,
                sts,
            ))
        }),
    ensures
        ({
            let f = env.func_id(e.kind->Call_callee.kind->Var_name)->0;
            let sig = env.funcs[f as int];
            let args = e.kind->Call_args;
            let r = check_expr(env, st, e, expected);
            let ok = args.len() == sig.params.len() && forall|k: int|
                0 <= k < args.len() ==> (#[trigger] xs[k]).ty == sig.params[k];
            &&& r is Ok == ok
            &&& r matches Ok((x, end)) ==> {
                &&& x.kind matches ExprKindView::Call { args, direct, inst, .. } && args == xs
                    && direct == Some(f as u32) && inst.len() == 0
                &&& x.ty == sig.ret
                &&& end == sts[xs.len() as int]
            }
        }),
{
    let callee = *e.kind->Call_callee;
    let name = callee.kind->Var_name;
    let args = e.kind->Call_args;
    let f = env.func_id(name)->0;
    let sig = env.funcs[f as int];
    let (st0, _) = resolve_var(st, name);
    assert(check_expr(env, st, e, expected) == check_call(env, st, e, expected));
    assert(check_call(env, st, e, expected) == check_name_call(
        env,
        st,
        callee,
        name,
        args,
        e.kind->Call_direct,
        e.kind->Call_inst,
        e.line,
        expected,
    ));
    let sig_call = check_call_sig(env, st0, name, f as u32, None, args, expected, e.line);
    if args.len() == sig.params.len() {
        assert(xs.take(0) =~= Seq::empty());
        assert forall|k: int| 0 <= k < args.len() implies check_expr(
            env,
            #[trigger] sts[k],
            args[k],
            Some(sig.params[k]),
        ) == Ok::<(ExprView, BodyView), Seq<char>>((xs[k], sts[k + 1])) by {}
        lemma_args_accepted(env, args, sig.params, 0, Seq::empty(), xs, sts);
        assert(check_args(env, st0, name, sig.params, None, args, e.line) == check_args_from(
            env,
            st0,
            sig.params,
            0,
            args,
            0,
            Seq::empty(),
        ));
    }
    assert(sig_call is Ok == check_expr(env, st, e, expected) is Ok);
}

// -- Statements -------------------------------------------------------------

/// A `let` is accepted exactly if its value has the type that is written, or any
/// but none where none is, and there is room for another local.
pub proof fn law_let_accepted(
    env: EnvView,
    st: BodyView,
    s: StmtView,
    want: Option<TypeView>,
    x: ExprView,
    st1: BodyView,
)
    requires
        s is Let,
        match s->Let_ann {
            None => want is None,
            Some(te) => want is Some && resolve_type(env, te) == Ok::<TypeView, Seq<char>>(want->0),
        },
        check_expr(env, st, s->Let_init, want) == Ok::<(ExprView, BodyView), Seq<char>>((x, st1)),
    ensures
        ({
            let r = check_stmt(env, st, s);
            &&& r is Ok == ((match want {
                Some(t) => x.ty == t,
                None => !(x.ty is Unit),
            }) && st1.cur.locals.len() < MAX_LOCALS)
            &&& r matches Ok((y, end)) ==> {
                &&& y is Let && y->Let_init == x && y->Let_ty == x.ty
                &&& y->Let_local == st1.cur.locals.len()
                &&& end.cur.locals == st1.cur.locals.push(x.ty)
                &&& end.cur.vars == st1.cur.vars.push((s->Let_name, y->Let_local, x.ty))
            }
        }),
{
    reveal(declare);
    assert(check_stmt(env, st, s) == check_let(
        env,
        st,
        s->Let_name,
        s->Let_ann,
        s->Let_init,
        s->Let_line,
    ));
}

/// An assignment is accepted exactly if its target is a place, its value has the
/// target's type, and its operator, if there is one, takes that type.
pub proof fn law_assign_accepted(
    env: EnvView,
    st: BodyView,
    s: StmtView,
    t: ExprView,
    st1: BodyView,
    v: ExprView,
    st2: BodyView,
)
    requires
        s is Assign,
        check_expr(env, st, s->Assign_target, None) == Ok::<(ExprView, BodyView), Seq<char>>(
            (t, st1),
        ),
        check_expr(env, st1, s->Assign_value, Some(t.ty)) == Ok::<
            (ExprView, BodyView),
            Seq<char>,
        >((v, st2)),
    ensures
        ({
            let r = check_stmt(env, st, s);
            let ok = is_place(t) && v.ty == t.ty && match s->Assign_op {
                Some(op) => takes_operands(op, t.ty),
                None => true,
            };
            &&& r is Ok == ok
            &&& r matches Ok((y, end)) ==> {
                &&& y is Assign && y->Assign_target == t && y->Assign_value == v && y->Assign_op
                    == s->Assign_op
                &&& end == st2
            }
        }),
{
    reveal(check_target);
    reveal(check_arith_op);
    assert(check_stmt(env, st, s) == check_assign(env, st, s));
}

/// A `return` is accepted exactly with a value of the declared type, and without
/// one exactly where none is declared.
pub proof fn law_return_accepted(
    env: EnvView,
    st: BodyView,
    s: StmtView,
    x: ExprView,
    st1: BodyView,
)
    requires
        s is Return,
        s->Return_value matches Some(v) ==> check_expr(env, st, v, Some(st.cur.ret)) == Ok::<
            (ExprView, BodyView),
            Seq<char>,
        >((x, st1)),
    ensures
        ({
            let r = check_stmt(env, st, s);
            &&& r is Ok == (match s->Return_value {
                Some(_) => !(st.cur.ret is Unit) && x.ty == st.cur.ret,
                None => st.cur.ret is Unit,
            })
            &&& r matches Ok((y, _)) ==> y is Return && y->Return_value == match s->Return_value {
                Some(_) => Some(x),
                None => None,
            }
        }),
{
    assert(check_stmt(env, st, s) == check_return(env, st, s->Return_value, s->Return_line));
}

/// A conditional statement or a loop is accepted exactly if its condition is a
/// truth value and its blocks are accepted, a loop's body inside a loop.
pub proof fn law_condition_accepted(
    env: EnvView,
    st: BodyView,
    s: StmtView,
    c: ExprView,
    st1: BodyView,
)
    requires
        s is If || s is While,
        check_expr(
            env,
            st,
            if s is If {
                s->If_cond
            } else {
                s->While_cond
            },
            Some(TypeView::Bool),
        ) == Ok::<(ExprView, BodyView), Seq<char>>((c, st1)),
    ensures
        s is While ==> check_stmt(env, st, s) is Ok == (c.ty is Bool && check_block(
            env,
            with_loop(st1, true),
            s->While_body,
        ) is Ok),
        s is If ==> check_stmt(env, st, s) is Ok == (c.ty is Bool && (match check_block(
            env,
            st1,
            s->If_then,
        ) {
            Err(_) => false,
            Ok((_, st2)) => match s->If_els {
                None => true,
                Some(b) => check_block(env, st2, b) is Ok,
            },
        })),
{
    if s is While {
        assert(check_stmt(env, st, s) == check_while(env, st, s));
    } else {
        assert(check_stmt(env, st, s) == check_if_stmt(env, st, s));
    }
}

} // verus!
