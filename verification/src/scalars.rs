//! What expressions over integers and truth values mean, and that the code
//! they are lowered to computes just that.
use vstd::prelude::*;

use crate::ast::{BinOp, ExprKindView, ExprView, PatternView, UnOp, VarRes};
use crate::ir::{IntCC, IrType, Op, Rt};
use crate::lower::{
    arith, binary_values, bind_pattern, callee_of, cast, cast_int, check_overflow, checked_arith,
    compare, divide, divide_signed, gen_arms, gen_binary, gen_call, gen_expr, gen_if, gen_list,
    gen_match, gen_scalar, int_arith, is_comparison, next, pattern_const, put, put_args, shift,
    some, test_arm, unary_value, variable, with_gen, with_terminated, LowEnv, LowView,
};
use crate::machine::{
    compare_result, compares, converted, decode, leads, operate, operate_one, signed, start_from,
    step, truth, word, Called, End, Machine, Outcome,
};
use crate::memory::World;
use crate::matching::{apart, pattern_key, takes};
use crate::meaning::{
    begins, kept, law_cast_int, law_compare, law_int_arith, law_not, law_operate_in_range,
    law_unary, lemma_leads_here, lemma_leads_on, lemma_leads_step, lemma_start, lemma_step_then,
    lemma_word, ready, runnable,
};
use crate::types::{IntKind, TypeView};
use crate::typing::{expr_patterns, FuncSigView};

verus! {

// -- The language -----------------------------------------------------------

/// What an expression gives: a value (truth values are one and zero), or a
/// panic with its line, and the world that it leaves; or that a call in it is
/// not finished. A call of a function without a result gives no value.
pub enum Eval {
    Value(int, World),
    Nothing(World),
    Panic(Rt, u32, World),
    Unfinished,
}

/// What calls give, by function, arguments and the world before.
pub type Calls = spec_fn(u32, Seq<int>, World) -> Eval;

pub open spec fn answer(calls: Calls, f: u32, xs: Seq<int>, w: World) -> Eval {
    calls(f, xs, w)
}

/// The variables of a body, the world around it, and what calls in it give.
#[verifier::ext_equal]
pub struct Vars {
    pub vals: Map<int, int>,
    pub world: World,
    pub calls: Calls,
}

impl Vars {
    #[verifier::inline]
    pub open spec fn spec_index(self, i: int) -> int {
        self.vals[i]
    }

    #[verifier::inline]
    pub open spec fn insert(self, i: int, x: int) -> Vars {
        Vars { vals: self.vals.insert(i, x), ..self }
    }

    /// The same variables in another world.
    #[verifier::inline]
    pub open spec fn at(self, world: World) -> Vars {
        Vars { world, ..self }
    }
}

/// The types of a body's locals and of its result, and the functions that it
/// may call: their symbols and signatures.
#[verifier::ext_equal]
pub struct Names {
    pub locals: Seq<TypeView>,
    pub ret: TypeView,
    pub ids: Seq<Option<usize>>,
    pub sigs: Seq<FuncSigView>,
}

impl Names {
    #[verifier::inline]
    pub open spec fn len(self) -> nat {
        self.locals.len()
    }

    #[verifier::inline]
    pub open spec fn spec_index(self, i: int) -> TypeView {
        self.locals[i]
    }

    /// Is this a function with a symbol, that takes and gives these types?
    pub open spec fn has(self, f: u32, params: Seq<TypeView>, ret: TypeView) -> bool {
        &&& f < self.ids.len()
        &&& self.ids[f as int] is Some
        &&& f < self.sigs.len()
        &&& self.sigs[f as int].params == params
        &&& self.sigs[f as int].ret == ret
    }
}

/// Is this what the code is made for?
pub open spec fn suits(names: Names, env: LowEnv) -> bool {
    names.len() <= env.locals && names.ids == env.func_ids
}

pub open spec fn at_line(o: Outcome, line: u32, w: World) -> Eval {
    match o {
        Outcome::Value(x) => Eval::Value(x, w),
        Outcome::Panic(rt) => Eval::Panic(rt, line, w),
    }
}

pub open spec fn truth_value(b: bool, w: World) -> Eval {
    Eval::Value(
        if b {
            1
        } else {
            0
        },
        w,
    )
}

pub open spec fn is_scalar(t: TypeView) -> bool {
    t is Int || t is Bool
}

/// Is `x` a value of the type?
pub open spec fn fits_type(t: TypeView, x: int) -> bool {
    match t {
        TypeView::Int(k) => k.holds(x),
        TypeView::Bool => x == 0 || x == 1,
        _ => false,
    }
}

pub open spec fn kind_of(t: TypeView) -> IntKind {
    match t {
        TypeView::Int(k) => k,
        _ => IntKind::I64,
    }
}

pub open spec fn types_of(es: Seq<ExprView>) -> Seq<TypeView> {
    Seq::new(es.len(), |i: int| es[i].ty)
}

/// Are these values of the types?
pub open spec fn fit_all(ts: Seq<TypeView>, xs: Seq<int>) -> bool {
    ts.len() == xs.len() && forall|i: int| 0 <= i < xs.len() ==> fits_type(ts[i], #[trigger] xs[i])
}

pub open spec fn scalar_args(es: Seq<ExprView>, locals: Names) -> bool
    decreases es, 1nat,
{
    forall|i: int| 0 <= i < es.len() ==> scalar_expr(#[trigger] es[i], locals)
}

/// Is there a pattern for every value of the type, none of them a variant?
pub open spec fn covering(ps: Seq<PatternView>, t: TypeView) -> bool {
    &&& ps.len() > 0
    &&& apart(ps)
    &&& forall|i: int| 0 <= i < ps.len() ==> !(#[trigger] ps[i] is Variant)
    &&& forall|x: int| #[trigger]
        fits_type(t, x) ==> exists|i: int| 0 <= i < ps.len() && takes(#[trigger] ps[i], word(x))
}

pub open spec fn scalar_choices(arms: Seq<(PatternView, ExprView)>, t: TypeView, locals: Names) -> bool
    decreases arms, 1nat,
{
    forall|i: int|
        0 <= i < arms.len() ==> scalar_expr((#[trigger] arms[i]).1, locals) && arms[i].1.ty == t
}

/// Is this an expression over integers and truth values, with the types that
/// the checker gives: literals, local variables, operators, casts,
/// conditionals, matches and calls of functions by name?
pub open spec fn scalar_expr(e: ExprView, locals: Names) -> bool
    decreases e, 0nat,
{
    match e.kind {
        ExprKindView::Int(v) => e.ty is Int && kind_of(e.ty).holds(decode(kind_of(e.ty), v)),
        ExprKindView::Byte(_) => e.ty == TypeView::Int(IntKind::U8),
        ExprKindView::Bool(_) => e.ty is Bool,
        ExprKindView::Var { res, .. } => match res {
            Some(VarRes::Local(i)) => i < locals.len() && locals[i as int] == e.ty && is_scalar(
                e.ty,
            ),
            _ => false,
        },
        ExprKindView::Unary(op, sub) => {
            &&& scalar_expr(*sub, locals)
            &&& e.ty == sub.ty
            &&& match op {
                UnOp::Neg => sub.ty is Int && kind_of(sub.ty).is_signed(),
                UnOp::BitNot => sub.ty is Int,
                UnOp::Not => sub.ty is Bool,
            }
        },
        ExprKindView::Binary(op, l, r) => {
            &&& scalar_expr(*l, locals)
            &&& scalar_expr(*r, locals)
            &&& l.ty == r.ty
            &&& if op is And || op is Or {
                l.ty is Bool && e.ty is Bool
            } else if is_comparison(op) {
                e.ty is Bool && (l.ty is Int || op is Eq || op is Ne)
            } else {
                l.ty is Int && e.ty == l.ty
            }
        },
        ExprKindView::If { cond, then, els } => {
            &&& scalar_expr(*cond, locals)
            &&& scalar_expr(*then, locals)
            &&& scalar_expr(*els, locals)
            &&& cond.ty is Bool
            &&& then.ty == e.ty
            &&& els.ty == e.ty
            &&& is_scalar(e.ty)
        },
        ExprKindView::Cast(sub, _) => scalar_expr(*sub, locals) && sub.ty is Int && e.ty is Int,
        ExprKindView::Call { callee, args, direct, inst } => {
            &&& callee.kind is Var
            &&& callee.ty == TypeView::Fn(types_of(args), Box::new(e.ty))
            &&& inst.len() == 0
            &&& direct is Some
            &&& locals.has(direct->0, types_of(args), e.ty)
            &&& scalar_args(args, locals)
            &&& is_scalar(e.ty)
        },
        ExprKindView::Match { scrutinee, arms } => {
            &&& scalar_expr(*scrutinee, locals)
            &&& covering(expr_patterns(arms), scrutinee.ty)
            &&& scalar_choices(arms, e.ty, locals)
            &&& is_scalar(e.ty)
        },
        _ => false,
    }
}

/// The values of the expressions from index `i` on, from the left to the
/// right; or what the first of them gives that has no value.
pub open spec fn eval_args(es: Seq<ExprView>, i: nat, vars: Vars, acc: Seq<int>) -> Result<
    (Seq<int>, World),
    Eval,
>
    decreases es, es.len() - i,
{
    if i >= es.len() {
        Ok((acc, vars.world))
    } else {
        match eval(es[i as int], vars) {
            Eval::Value(x, w) => eval_args(es, i + 1, vars.at(w), acc.push(x)),
            other => Err(other),
        }
    }
}

/// The value of the first arm from index `i` on that takes the key. The arms of
/// a match leave no value out.
pub open spec fn eval_choices(
    arms: Seq<(PatternView, ExprView)>,
    i: nat,
    key: u64,
    vars: Vars,
) -> Eval
    decreases arms, arms.len() - i,
{
    if i >= arms.len() {
        Eval::Unfinished
    } else if takes(arms[i as int].0, key) {
        eval(arms[i as int].1, vars)
    } else {
        eval_choices(arms, i + 1, key, vars)
    }
}

/// The value of such an expression, from the left to the right; the logical
/// operators, the conditional and the match evaluate only what decides.
pub open spec fn eval(e: ExprView, vars: Vars) -> Eval
    decreases e, 0int,
{
    let w = vars.world;
    match e.kind {
        ExprKindView::Int(v) => Eval::Value(decode(kind_of(e.ty), v), w),
        ExprKindView::Byte(v) => Eval::Value(v as int, w),
        ExprKindView::Bool(b) => truth_value(b, w),
        ExprKindView::Var { res, .. } => match res {
            Some(VarRes::Local(i)) => Eval::Value(vars[i as int], w),
            _ => arbitrary(),
        },
        ExprKindView::Unary(op, sub) => match eval(*sub, vars) {
            Eval::Value(x, w1) => if op is Not {
                truth_value(x == 0, w1)
            } else {
                at_line(operate_one(op, kind_of(sub.ty), x)->0, e.line, w1)
            },
            other => other,
        },
        ExprKindView::Binary(op, l, r) => match eval(*l, vars) {
            Eval::Value(x, w1) => if op is And && x == 0 || op is Or && x != 0 {
                Eval::Value(x, w1)
            } else {
                match eval(*r, vars.at(w1)) {
                    Eval::Value(y, w2) => if op is And || op is Or {
                        Eval::Value(y, w2)
                    } else if is_comparison(op) {
                        truth_value(compares(op, x, y), w2)
                    } else {
                        at_line(operate(op, kind_of(l.ty), x, y)->0, e.line, w2)
                    },
                    other => other,
                }
            },
            other => other,
        },
        ExprKindView::If { cond, then, els } => match eval(*cond, vars) {
            Eval::Value(x, w1) => if x != 0 {
                eval(*then, vars.at(w1))
            } else {
                eval(*els, vars.at(w1))
            },
            other => other,
        },
        ExprKindView::Cast(sub, _) => match eval(*sub, vars) {
            Eval::Value(x, w1) => at_line(converted(kind_of(e.ty), x), e.line, w1),
            other => other,
        },
        ExprKindView::Call { args, direct, .. } => match eval_args(args, 0, vars, Seq::empty()) {
            Ok((xs, w1)) => answer(vars.calls, direct->0, xs, w1),
            Err(other) => other,
        },
        ExprKindView::Match { scrutinee, arms } => match eval(*scrutinee, vars) {
            Eval::Value(x, w1) => eval_choices(arms, 0, word(x), vars.at(w1)),
            other => other,
        },
        _ => arbitrary(),
    }
}

/// Is this, if it is finished, a value of the type, or nothing where it is the
/// type of that?
pub open spec fn gives(ev: Eval, t: TypeView) -> bool {
    match ev {
        Eval::Value(x, _) => fits_type(t, x),
        Eval::Nothing(_) => t is Unit,
        _ => true,
    }
}

/// Do calls give nothing but values of the functions' result types?
pub open spec fn typed(calls: Calls, names: Names) -> bool {
    forall|f: u32, xs: Seq<int>, w: World|
        f < names.sigs.len() && fit_all(names.sigs[f as int].params, xs) ==> gives(
            #[trigger] answer(calls, f, xs, w),
            names.sigs[f as int].ret,
        )
}

/// Do the variables hold values of their types, and do calls give such?
pub open spec fn holds_values(vars: Vars, locals: Names) -> bool {
    &&& forall|i: int|
        0 <= i < locals.len() && is_scalar(#[trigger] locals[i]) ==> fits_type(locals[i], vars[i])
    &&& typed(vars.calls, locals)
}

// -- Values keep their types ------------------------------------------------

/// An expression gives nothing but values of its type.
pub proof fn law_eval_keeps_types(e: ExprView, locals: Names, vars: Vars)
    requires
        scalar_expr(e, locals),
        holds_values(vars, locals),
    ensures
        is_scalar(e.ty),
        gives(eval(e, vars), e.ty),
    decreases e, 0int,
{
    match e.kind {
        ExprKindView::Var { res, .. } => {
            if let Some(VarRes::Local(i)) = res {
                assert(is_scalar(locals[i as int]));
            }
        },
        ExprKindView::Call { args, direct, .. } => {
            lemma_args_keep_types(args, 0, locals, vars, Seq::empty());
        },
        ExprKindView::Unary(op, sub) => {
            law_eval_keeps_types(*sub, locals, vars);
        },
        ExprKindView::Binary(op, l, r) => {
            law_eval_keeps_types(*l, locals, vars);
            if let Eval::Value(x, w1) = eval(*l, vars) {
                law_eval_keeps_types(*r, locals, vars.at(w1));
                if let Eval::Value(y, _) = eval(*r, vars.at(w1)) {
                    if l.ty is Int {
                        law_operate_in_range(op, kind_of(l.ty), x, y);
                        lemma_operators(op, kind_of(l.ty), x, y);
                    }
                }
            }
        },
        ExprKindView::If { cond, then, els } => {
            law_eval_keeps_types(*cond, locals, vars);
            if let Eval::Value(_, w1) = eval(*cond, vars) {
                law_eval_keeps_types(*then, locals, vars.at(w1));
                law_eval_keeps_types(*els, locals, vars.at(w1));
            }
        },
        ExprKindView::Cast(sub, _) => {
            law_eval_keeps_types(*sub, locals, vars);
        },
        ExprKindView::Match { scrutinee, arms } => {
            law_eval_keeps_types(*scrutinee, locals, vars);
            if let Eval::Value(x, w1) = eval(*scrutinee, vars) {
                lemma_choices_keep_types(arms, 0, e.ty, locals, word(x), vars.at(w1));
            }
        },
        _ => {},
    }
}

proof fn lemma_choices_keep_types(
    arms: Seq<(PatternView, ExprView)>,
    i: nat,
    t: TypeView,
    locals: Names,
    key: u64,
    vars: Vars,
)
    requires
        scalar_choices(arms, t, locals),
        holds_values(vars, locals),
    ensures
        gives(eval_choices(arms, i, key, vars), t),
    decreases arms, arms.len() - i,
{
    if i < arms.len() {
        assert(scalar_expr(arms[i as int].1, locals) && arms[i as int].1.ty == t);
        law_eval_keeps_types(arms[i as int].1, locals, vars);
        lemma_choices_keep_types(arms, i + 1, t, locals, key, vars);
    }
}

/// Arguments are values of their types.
pub proof fn lemma_args_keep_types(
    es: Seq<ExprView>,
    i: nat,
    locals: Names,
    vars: Vars,
    acc: Seq<int>,
)
    requires
        scalar_args(es, locals),
        holds_values(vars, locals),
        i <= es.len(),
        fit_all(types_of(es).take(i as int), acc),
    ensures
        eval_args(es, i, vars, acc) matches Ok((xs, _)) ==> fit_all(types_of(es), xs),
        eval_args(es, i, vars, acc) matches Err(ev) ==> !(ev is Value || ev is Nothing),
    decreases es, es.len() - i,
{
    if i < es.len() {
        law_eval_keeps_types(es[i as int], locals, vars);
        if let Eval::Value(x, w) = eval(es[i as int], vars) {
            let ts = types_of(es).take(i as int + 1);
            assert forall|k: int| 0 <= k < i + 1 implies fits_type(
                ts[k],
                #[trigger] acc.push(x)[k],
            ) by {
                if k < i {
                    assert(fits_type(types_of(es).take(i as int)[k], acc[k]));
                }
            }
            lemma_args_keep_types(es, i + 1, locals, vars.at(w), acc.push(x));
        }
    } else {
        assert(types_of(es).take(i as int) =~= types_of(es));
    }
}

/// Every operator that is neither logical nor a comparison is an integer
/// operator.
proof fn lemma_operators(op: BinOp, k: IntKind, x: int, y: int)
    ensures
        !(op is And || op is Or || is_comparison(op)) ==> operate(op, k, x, y) is Some,
{
}

// -- The shape of the code --------------------------------------------------

/// The code goes on from what was written, and switches only to blocks that
/// it made itself.
pub open spec fn goes_on(end: LowView, st: LowView) -> bool {
    &&& st.f.ops.len() <= end.f.ops.len()
    &&& forall|i: int| 0 <= i < st.f.ops.len() ==> #[trigger] end.f.ops[i] == st.f.ops[i]
    &&& forall|i: int|
        st.f.ops.len() <= i < end.f.ops.len() ==> match #[trigger] end.f.ops[i] {
            Op::SwitchTo(b) => b >= st.f.ops.len(),
            _ => true,
        }
}

pub proof fn lemma_goes_on_more(a: LowView, b: LowView, c: LowView)
    requires
        goes_on(b, a),
        goes_on(c, b),
    ensures
        goes_on(c, a),
{
    assert forall|i: int| a.f.ops.len() <= i < c.f.ops.len() implies match #[trigger] c.f.ops[i] {
        Op::SwitchTo(t) => t >= a.f.ops.len(),
        _ => true,
    } by {
        if i < b.f.ops.len() {
            assert(c.f.ops[i] == b.f.ops[i]);
        }
    }
}

pub proof fn lemma_arith_goes_on(st: LowView, op: BinOp, k: IntKind, l: usize, r: usize, line: u32)
    requires
        int_arith(st, op, k, l, r, line) is Ok,
        int_arith(st, op, k, l, r, line)->Ok_0.0.f.ops.len() <= usize::MAX,
    ensures
        goes_on(int_arith(st, op, k, l, r, line)->Ok_0.0, st),
        int_arith(st, op, k, l, r, line)->Ok_0.1 < int_arith(
            st,
            op,
            k,
            l,
            r,
            line,
        )->Ok_0.0.f.ops.len(),
{
    reveal(int_arith);
    reveal(checked_arith);
    reveal(check_overflow);
    reveal(divide);
    reveal(divide_signed);
    reveal(shift);
}

proof fn lemma_unary_goes_on(st: LowView, op: UnOp, ty: TypeView, v: usize, line: u32)
    requires
        unary_value(st, op, ty, v, line) is Ok,
        unary_value(st, op, ty, v, line)->Ok_0.0.f.ops.len() <= usize::MAX,
    ensures
        goes_on(unary_value(st, op, ty, v, line)->Ok_0.0, st),
        unary_value(st, op, ty, v, line)->Ok_0.1 < unary_value(
            st,
            op,
            ty,
            v,
            line,
        )->Ok_0.0.f.ops.len(),
{
    reveal(unary_value);
}

proof fn lemma_cast_goes_on(st: LowView, s: IntKind, d: IntKind, v: usize, line: u32)
    ensures
        goes_on(cast_int(st, s, d, v, line), st),
{
    reveal(cast_int);
}

/// The code of an expression goes on from what was written, and its value
/// stands in it.
pub proof fn lemma_code(env: LowEnv, st: LowView, e: ExprView, locals: Names)
    requires
        scalar_expr(e, locals),
        suits(locals, env),
        gen_scalar(env, st, e) is Ok,
        gen_scalar(env, st, e)->Ok_0.0.f.ops.len() <= usize::MAX,
    ensures
        goes_on(gen_scalar(env, st, e)->Ok_0.0, st),
        gen_scalar(env, st, e)->Ok_0.1 < gen_scalar(env, st, e)->Ok_0.0.f.ops.len(),
    decreases e, 1int,
{
    let (s, v) = gen_scalar(env, st, e)->Ok_0;
    match e.kind {
        ExprKindView::Var { res, .. } => {
            reveal(variable);
            if let Some(VarRes::Local(i)) = res {
                assert(variable(env, st, res, e.ty, e.line) == Ok::<(LowView, usize), Seq<char>>(
                    (put(st, Op::UseVar(i as usize)), next(st)),
                ));
            }
        },
        ExprKindView::Unary(op, sub) => {
            let (s1, x) = gen_scalar(env, st, *sub)->Ok_0;
            assert(s.f.ops.len() >= s1.f.ops.len()) by {
                reveal(unary_value);
            }
            lemma_code(env, st, *sub, locals);
            lemma_unary_goes_on(s1, op, sub.ty, x, e.line);
            lemma_goes_on_more(st, s1, s);
        },
        ExprKindView::Binary(_, _, _) => {
            lemma_binary_code(env, st, e, locals);
        },
        ExprKindView::If { .. } => {
            lemma_if_code(env, st, e, locals);
        },
        ExprKindView::Call { .. } => {
            lemma_call_code(env, st, e, locals);
        },
        ExprKindView::Cast(sub, _) => {
            let (s1, x) = gen_scalar(env, st, *sub)->Ok_0;
            reveal(cast);
            lemma_cast_goes_on(s1, kind_of(sub.ty), kind_of(e.ty), x, e.line);
            lemma_code(env, st, *sub, locals);
            lemma_goes_on_more(st, s1, s);
        },
        ExprKindView::Match { .. } => {
            lemma_choice_code(env, st, e, locals);
        },
        _ => {},
    }
}

proof fn lemma_unfold(env: LowEnv, st: LowView, e: ExprView)
    ensures
        e.kind is Binary ==> gen_scalar(env, st, e) == gen_binary(env, st, e),
        e.kind is If ==> gen_scalar(env, st, e) == gen_if(env, st, e),
        e.kind is Match ==> gen_scalar(env, st, e) == gen_match(env, st, e),
{
    if e.kind is Binary {
        assert(gen_expr(env, st, e) == some(gen_binary(env, st, e)));
    }
    if e.kind is If {
        assert(gen_expr(env, st, e) == some(gen_if(env, st, e)));
    }
    if e.kind is Match {
        assert(gen_expr(env, st, e) == some(gen_match(env, st, e)));
    }
}

/// A call of a function by name: its arguments, handing them on, and the call.
spec fn call_code(env: LowEnv, st: LowView, e: ExprView) -> Result<(LowView, usize), Seq<char>> {
    match gen_list(env, st, e.kind->Call_args, 0, Seq::empty()) {
        Err(m) => Err(m),
        Ok((s1, vs)) => {
            let s2 = put_args(s1, vs, 0);
            Ok((put(s2, Op::Call(env.func_ids[e.kind->Call_direct->0 as int]->0)), next(s2)))
        },
    }
}

proof fn lemma_unfold_call(env: LowEnv, st: LowView, e: ExprView, locals: Names)
    requires
        e.kind is Call,
        scalar_expr(e, locals),
        suits(locals, env),
    ensures
        gen_scalar(env, st, e) == call_code(env, st, e),
{
    reveal(callee_of);
    let args = e.kind->Call_args;
    assert(gen_expr(env, st, e) == gen_call(env, st, e));
    if let Ok((s1, vs)) = gen_list(env, st, args, 0, Seq::empty()) {
        assert(with_gen(s1, s1.g) == s1);
    }
}

/// The operators that are not logical, on evaluated operands.
proof fn lemma_operator_goes_on(st: LowView, op: BinOp, t: TypeView, l: usize, r: usize, line: u32)
    requires
        is_scalar(t),
        binary_values(st, op, t, t, l, r, line) is Ok,
        binary_values(st, op, t, t, l, r, line)->Ok_0.0.f.ops.len() <= usize::MAX,
    ensures
        goes_on(binary_values(st, op, t, t, l, r, line)->Ok_0.0, st),
        binary_values(st, op, t, t, l, r, line)->Ok_0.1 < binary_values(
            st,
            op,
            t,
            t,
            l,
            r,
            line,
        )->Ok_0.0.f.ops.len(),
{
    reveal(binary_values);
    reveal(compare);
    reveal(arith);
    if !is_comparison(op) && t is Int {
        lemma_arith_goes_on(st, op, kind_of(t), l, r, line);
    }
}

/// Are the unit and the loops around the same, and does control reach as
/// before?
pub open spec fn same_flow(a: LowView, b: LowView) -> bool {
    a.g == b.g && a.f.loops == b.f.loops && a.f.terminated == b.f.terminated
}

proof fn lemma_operator_grows(st: LowView, op: BinOp, t: TypeView, l: usize, r: usize, line: u32)
    requires
        is_scalar(t),
        binary_values(st, op, t, t, l, r, line) is Ok,
    ensures
        st.f.ops.len() <= binary_values(st, op, t, t, l, r, line)->Ok_0.0.f.ops.len(),
        same_flow(binary_values(st, op, t, t, l, r, line)->Ok_0.0, st),
{
    reveal(binary_values);
    reveal(compare);
    reveal(arith);
    reveal(int_arith);
    reveal(checked_arith);
    reveal(check_overflow);
    reveal(divide);
    reveal(divide_signed);
    reveal(shift);
}

/// Code only grows, and an expression leaves no block.
pub proof fn lemma_grows(env: LowEnv, st: LowView, e: ExprView, locals: Names)
    requires
        scalar_expr(e, locals),
        suits(locals, env),
        gen_scalar(env, st, e) is Ok,
    ensures
        st.f.ops.len() <= gen_scalar(env, st, e)->Ok_0.0.f.ops.len(),
        same_flow(gen_scalar(env, st, e)->Ok_0.0, st),
    decreases e, 0int,
{
    match e.kind {
        ExprKindView::Var { res, .. } => {
            reveal(variable);
            if let Some(VarRes::Local(i)) = res {
                assert(variable(env, st, res, e.ty, e.line) == Ok::<(LowView, usize), Seq<char>>(
                    (put(st, Op::UseVar(i as usize)), next(st)),
                ));
            }
        },
        ExprKindView::Call { args, .. } => {
            lemma_unfold_call(env, st, e, locals);
            lemma_list_grows(env, st, args, 0, Seq::empty(), locals);
            let (s1, vs) = gen_list(env, st, args, 0, Seq::empty())->Ok_0;
            lemma_put_args_grows(s1, vs, 0);
        },
        ExprKindView::Unary(op, sub) => {
            lemma_grows(env, st, *sub, locals);
            reveal(unary_value);
        },
        ExprKindView::Binary(op, l, r) => {
            lemma_unfold(env, st, e);
            lemma_grows(env, st, *l, locals);
            let s1 = gen_scalar(env, st, *l)->Ok_0.0;
            let x = gen_scalar(env, st, *l)->Ok_0.1;
            if op is And || op is Or {
                let s4 = logical_start(s1, op, x);
                lemma_grows(env, s4, *r, locals);
            } else {
                lemma_grows(env, s1, *r, locals);
                let (s2, y) = gen_scalar(env, s1, *r)->Ok_0;
                lemma_scalar_type(*l, locals);
                lemma_operator_grows(s2, op, l.ty, x, y, e.line);
            }
        },
        ExprKindView::If { cond, then, els } => {
            lemma_unfold(env, st, e);
            lemma_grows(env, st, *cond, locals);
            let (s1, c) = gen_scalar(env, st, *cond)->Ok_0;
            let s5 = if_start(s1, e.ty, c);
            lemma_grows(env, s5, *then, locals);
            let (s6, t) = gen_scalar(env, s5, *then)->Ok_0;
            let s7 = if_else(s6, s1, t);
            lemma_grows(env, s7, *els, locals);
        },
        ExprKindView::Cast(sub, _) => {
            lemma_grows(env, st, *sub, locals);
            reveal(cast);
            reveal(cast_int);
        },
        ExprKindView::Match { scrutinee, arms } => {
            lemma_match_parts(env, st, e, locals);
            lemma_no_variants(e, locals);
            lemma_grows(env, st, *scrutinee, locals);
            let (s1, key) = gen_scalar(env, st, *scrutinee)->Ok_0;
            let s2 = put(s1, Op::BlockOf(crate::lower::abi(e.ty)));
            lemma_choices_grow(
                env,
                s2,
                arms,
                0,
                scrutinee.ty,
                key,
                next(s1),
                e.line,
                e.ty,
                locals,
            );
        },
        _ => {},
    }
}

// The arms of a match.

#[verifier::opaque]
spec fn choice_codes(
    env: LowEnv,
    st: LowView,
    arms: Seq<(PatternView, ExprView)>,
    i: nat,
    ty: TypeView,
    key: usize,
    merge: usize,
    line: u32,
) -> Result<LowView, Seq<char>> {
    gen_arms(env, st, arms, i, ty, key, key, merge, line)
}

/// What stands before an arm that is not the last one.
pub open spec fn arm_head(st: LowView, key: usize, p: PatternView) -> LowView {
    let s1 = put(st, Op::CompareImm(IntCC::Equal, key, pattern_const(p)->0));
    let s2 = put(s1, Op::Block);
    let s3 = put(s2, Op::Block);
    let s4 = put(s3, Op::Brif(next(st), next(s1), next(s2)));
    with_terminated(put(s4, Op::SwitchTo(next(s1))), false)
}

/// The block for when the arm does not take the value.
pub open spec fn arm_other(st: LowView, key: usize, p: PatternView) -> usize {
    next(put(put(st, Op::CompareImm(IntCC::Equal, key, pattern_const(p)->0)), Op::Block))
}

/// Where the value of an arm starts.
spec fn choice_start(st: LowView, arms: Seq<(PatternView, ExprView)>, i: nat, key: usize) -> LowView {
    if i + 1 == arms.len() {
        st
    } else {
        test_arm(st, key, pattern_const(arms[i as int].0)->0).0
    }
}

/// The state behind the value of an arm, where it is, and the state of the
/// next arm.
spec fn choice_value(
    env: LowEnv,
    st: LowView,
    arms: Seq<(PatternView, ExprView)>,
    i: nat,
    key: usize,
) -> (LowView, usize) {
    gen_scalar(env, choice_start(st, arms, i, key), arms[i as int].1)->Ok_0
}

spec fn choice_next(
    env: LowEnv,
    st: LowView,
    arms: Seq<(PatternView, ExprView)>,
    i: nat,
    key: usize,
    merge: usize,
) -> LowView {
    let (s3, v) = choice_value(env, st, arms, i, key);
    put(put(s3, Op::JumpWith(merge, v)), Op::SwitchTo(arm_other(st, key, arms[i as int].0)))
}

proof fn lemma_choice_codes(
    env: LowEnv,
    st: LowView,
    arms: Seq<(PatternView, ExprView)>,
    i: nat,
    ty: TypeView,
    key: usize,
    merge: usize,
    line: u32,
)
    requires
        i < arms.len(),
        !(arms[i as int].0 is Variant),
        choice_codes(env, st, arms, i, ty, key, merge, line) is Ok,
    ensures
        gen_scalar(env, choice_start(st, arms, i, key), arms[i as int].1) is Ok,
        ({
            let (s3, v) = choice_value(env, st, arms, i, key);
            let all = choice_codes(env, st, arms, i, ty, key, merge, line);
            if i + 1 == arms.len() {
                all == Ok::<LowView, Seq<char>>(put(s3, Op::JumpWith(merge, v)))
            } else {
                pattern_const(arms[i as int].0) is Some && all == choice_codes(
                    env,
                    choice_next(env, st, arms, i, key, merge),
                    arms,
                    i + 1,
                    ty,
                    key,
                    merge,
                    line,
                )
            }
        }),
{
    reveal(choice_codes);
    reveal(test_arm);
    reveal(bind_pattern);
    let p = arms[i as int].0;
    let start = choice_start(st, arms, i, key);
    assert(bind_pattern(env, start, p, ty, key) == Ok::<LowView, Seq<char>>(start));
    if i + 1 < arms.len() {
        assert(pattern_const(p) is Some);
        let (s1, other) = test_arm(st, key, pattern_const(p)->0);
        assert(other == arm_other(st, key, p));
    }
}

/// A match on a number or a truth value: its value, its arms, and where they
/// come together.
proof fn lemma_match_parts(env: LowEnv, st: LowView, e: ExprView, locals: Names)
    requires
        e.kind is Match,
        scalar_expr(e, locals),
        gen_scalar(env, st, e) is Ok,
    ensures
        ({
            let scrutinee = *e.kind->Match_scrutinee;
            let a = gen_scalar(env, st, scrutinee);
            let (s1, key) = a->Ok_0;
            let s2 = put(s1, Op::BlockOf(crate::lower::abi(e.ty)));
            let b = choice_codes(
                env,
                s2,
                e.kind->Match_arms,
                0,
                scrutinee.ty,
                key,
                next(s1),
                e.line,
            );
            let s3 = b->Ok_0;
            &&& a is Ok
            &&& b is Ok
            &&& gen_scalar(env, st, e)->Ok_0 == (
                put(put(s3, Op::SwitchTo(next(s1))), Op::BlockParam(next(s1))),
                next(put(s3, Op::SwitchTo(next(s1)))),
            )
        }),
{
    reveal(choice_codes);
    lemma_unfold(env, st, e);
    lemma_scalar_type(*e.kind->Match_scrutinee, locals);
}

proof fn lemma_choice_patterns(arms: Seq<(PatternView, ExprView)>)
    ensures
        expr_patterns(arms).len() == arms.len(),
        forall|i: int| 0 <= i < arms.len() ==> #[trigger] expr_patterns(arms)[i] == arms[i].0,
{
}

/// Are none of these patterns those of variants?
spec fn no_variants(arms: Seq<(PatternView, ExprView)>) -> bool {
    forall|i: int| 0 <= i < arms.len() ==> !((#[trigger] arms[i]).0 is Variant)
}

proof fn lemma_no_variants(e: ExprView, locals: Names)
    requires
        e.kind is Match,
        scalar_expr(e, locals),
    ensures
        no_variants(e.kind->Match_arms),
        e.kind->Match_arms.len() > 0,
{
    let arms = e.kind->Match_arms;
    lemma_choice_patterns(arms);
    assert forall|i: int| 0 <= i < arms.len() implies !((#[trigger] arms[i]).0 is Variant) by {
        assert(!(expr_patterns(arms)[i] is Variant));
    }
}

proof fn lemma_choices_grow(
    env: LowEnv,
    st: LowView,
    arms: Seq<(PatternView, ExprView)>,
    i: nat,
    ty: TypeView,
    key: usize,
    merge: usize,
    line: u32,
    t: TypeView,
    locals: Names,
)
    requires
        i < arms.len(),
        no_variants(arms),
        scalar_choices(arms, t, locals),
        suits(locals, env),
        choice_codes(env, st, arms, i, ty, key, merge, line) is Ok,
    ensures
        ({
            let end = choice_codes(env, st, arms, i, ty, key, merge, line)->Ok_0;
            &&& same_flow(end, st)
            &&& st.f.ops.len() <= choice_start(st, arms, i, key).f.ops.len()
            &&& choice_start(st, arms, i, key).f.ops.len() <= choice_value(
                env,
                st,
                arms,
                i,
                key,
            ).0.f.ops.len() < end.f.ops.len()
        }),
    decreases arms, arms.len() - i,
{
    reveal(test_arm);
    lemma_choice_codes(env, st, arms, i, ty, key, merge, line);
    assert(scalar_expr(arms[i as int].1, locals));
    lemma_grows(env, choice_start(st, arms, i, key), arms[i as int].1, locals);
    if i + 1 < arms.len() {
        let nx = choice_next(env, st, arms, i, key, merge);
        lemma_choices_grow(env, nx, arms, i + 1, ty, key, merge, line, t, locals);
    }
}

pub proof fn lemma_list_grows(
    env: LowEnv,
    st: LowView,
    es: Seq<ExprView>,
    i: nat,
    acc: Seq<usize>,
    locals: Names,
)
    requires
        scalar_args(es, locals),
        suits(locals, env),
        gen_list(env, st, es, i, acc) is Ok,
    ensures
        st.f.ops.len() <= gen_list(env, st, es, i, acc)->Ok_0.0.f.ops.len(),
        same_flow(gen_list(env, st, es, i, acc)->Ok_0.0, st),
    decreases es, es.len() - i,
{
    if i < es.len() {
        let (s1, v) = gen_scalar(env, st, es[i as int])->Ok_0;
        lemma_grows(env, st, es[i as int], locals);
        lemma_list_grows(env, s1, es, i + 1, acc.push(v), locals);
    }
}

/// Handing arguments on is nothing but that.
pub proof fn lemma_put_args_grows(st: LowView, vs: Seq<usize>, i: nat)
    requires
        i <= vs.len(),
    ensures
        put_args(st, vs, i).f.ops.len() == st.f.ops.len() + (vs.len() - i),
        forall|k: int|
            0 <= k < st.f.ops.len() ==> #[trigger] put_args(st, vs, i).f.ops[k] == st.f.ops[k],
        forall|k: int|
            st.f.ops.len() <= k < put_args(st, vs, i).f.ops.len() ==> #[trigger] put_args(
                st,
                vs,
                i,
            ).f.ops[k] == Op::Arg(vs[k - st.f.ops.len() + i]),
        same_flow(put_args(st, vs, i), st),
    decreases vs.len() - i,
{
    if i < vs.len() {
        let s1 = put(st, Op::Arg(vs[i as int]));
        lemma_put_args_grows(s1, vs, i + 1);
        let end = put_args(st, vs, i);
        assert forall|k: int| 0 <= k < st.f.ops.len() implies #[trigger] end.f.ops[k]
            == st.f.ops[k] by {
            assert(end.f.ops[k] == s1.f.ops[k]);
        }
        assert(end.f.ops[st.f.ops.len() as int] == s1.f.ops[st.f.ops.len() as int]);
    }
}

pub proof fn lemma_scalar_type(e: ExprView, locals: Names)
    requires
        scalar_expr(e, locals),
    ensures
        is_scalar(e.ty),
    decreases e,
{
    if let ExprKindView::Unary(_, sub) = e.kind {
        lemma_scalar_type(*sub, locals);
    }
}

/// What stands between the two sides of a logical operator.
spec fn logical_start(s1: LowView, op: BinOp, l: usize) -> LowView {
    let rest = next(s1);
    let s2 = put(s1, Op::Block);
    let merge = next(s2);
    let s3 = put(s2, Op::BlockOf(IrType::I64));
    let s4 = put(
        s3,
        if op is And {
            Op::BrifElseWith(l, rest, merge, l)
        } else {
            Op::BrifWith(l, merge, l, rest)
        },
    );
    put(s4, Op::SwitchTo(rest))
}

/// What stands behind the second side.
spec fn logical_end(s5: LowView, s1: LowView, r: usize) -> LowView {
    let merge = next(put(s1, Op::Block));
    put(put(put(s5, Op::JumpWith(merge, r)), Op::SwitchTo(merge)), Op::BlockParam(merge))
}

/// What stands between a condition and the first branch.
spec fn if_start(s1: LowView, ty: TypeView, c: usize) -> LowView {
    let s2 = put(s1, Op::Block);
    let s3 = put(s2, Op::Block);
    let s4 = put(s3, Op::BlockOf(crate::lower::abi(ty)));
    let s5 = put(s4, Op::Brif(c, next(s1), next(s2)));
    put(s5, Op::SwitchTo(next(s1)))
}

/// What stands between the branches.
spec fn if_else(s6: LowView, s1: LowView, t: usize) -> LowView {
    let no = next(put(s1, Op::Block));
    let merge = next(put(put(s1, Op::Block), Op::Block));
    put(put(s6, Op::JumpWith(merge, t)), Op::SwitchTo(no))
}

/// What stands behind the second branch.
spec fn if_end(s8: LowView, s1: LowView, f: usize) -> LowView {
    let merge = next(put(put(s1, Op::Block), Op::Block));
    put(put(put(s8, Op::JumpWith(merge, f)), Op::SwitchTo(merge)), Op::BlockParam(merge))
}

/// Does the code of `end` go on from `a`, given that it does from the later
/// `b`, with known instructions in between?
proof fn lemma_goes_on_over(a: LowView, b: LowView, end: LowView)
    requires
        a.f.ops.len() <= b.f.ops.len(),
        forall|i: int| 0 <= i < a.f.ops.len() ==> #[trigger] b.f.ops[i] == a.f.ops[i],
        forall|i: int|
            a.f.ops.len() <= i < b.f.ops.len() ==> match #[trigger] b.f.ops[i] {
                Op::SwitchTo(t) => t >= a.f.ops.len(),
                _ => true,
            },
        goes_on(end, b),
    ensures
        goes_on(end, a),
{
    lemma_goes_on_more(a, b, end);
}

proof fn lemma_binary_code(env: LowEnv, st: LowView, e: ExprView, locals: Names)
    requires
        e.kind is Binary,
        scalar_expr(e, locals),
        suits(locals, env),
        gen_scalar(env, st, e) is Ok,
        gen_scalar(env, st, e)->Ok_0.0.f.ops.len() <= usize::MAX,
    ensures
        goes_on(gen_scalar(env, st, e)->Ok_0.0, st),
        gen_scalar(env, st, e)->Ok_0.1 < gen_scalar(env, st, e)->Ok_0.0.f.ops.len(),
    decreases e, 0int,
{
    let op = e.kind->Binary_0;
    let l = *e.kind->Binary_1;
    let r = *e.kind->Binary_2;
    lemma_unfold(env, st, e);
    let (s, v) = gen_scalar(env, st, e)->Ok_0;
    let (s1, x) = gen_scalar(env, st, l)->Ok_0;
    lemma_scalar_type(l, locals);
    if op is And || op is Or {
        let s4 = logical_start(s1, op, x);
        let (s5, y) = gen_scalar(env, s4, r)->Ok_0;
        lemma_grows(env, s4, r, locals);
        assert(s == logical_end(s5, s1, y));
        lemma_code(env, st, l, locals);
        lemma_code(env, s4, r, locals);
        let n = s1.f.ops.len() as int;
        lemma_goes_on_over(s1, s4, s5);
        let s6 = put(s5, Op::JumpWith(next(put(s1, Op::Block)), y));
        assert(goes_on(s, s1)) by {
            assert forall|i: int| n <= i < s.f.ops.len() implies match #[trigger] s.f.ops[i] {
                Op::SwitchTo(t) => t >= n,
                _ => true,
            } by {
                if i < s5.f.ops.len() {
                    assert(s.f.ops[i] == s5.f.ops[i]);
                }
            }
            assert forall|i: int| 0 <= i < n implies #[trigger] s.f.ops[i] == s1.f.ops[i] by {
                assert(s.f.ops[i] == s5.f.ops[i]);
            }
        }
        lemma_goes_on_more(st, s1, s);
    } else {
        lemma_grows(env, s1, r, locals);
        let (s2, y) = gen_scalar(env, s1, r)->Ok_0;
        lemma_operator_grows(s2, op, l.ty, x, y, e.line);
        lemma_code(env, st, l, locals);
        lemma_code(env, s1, r, locals);
        lemma_operator_goes_on(s2, op, l.ty, x, y, e.line);
        lemma_goes_on_more(st, s1, s2);
        lemma_goes_on_more(st, s2, s);
    }
}

proof fn lemma_if_code(env: LowEnv, st: LowView, e: ExprView, locals: Names)
    requires
        e.kind is If,
        scalar_expr(e, locals),
        suits(locals, env),
        gen_scalar(env, st, e) is Ok,
        gen_scalar(env, st, e)->Ok_0.0.f.ops.len() <= usize::MAX,
    ensures
        goes_on(gen_scalar(env, st, e)->Ok_0.0, st),
        gen_scalar(env, st, e)->Ok_0.1 < gen_scalar(env, st, e)->Ok_0.0.f.ops.len(),
    decreases e, 0int,
{
    let cond = *e.kind->If_cond;
    let then = *e.kind->If_then;
    let els = *e.kind->If_els;
    lemma_unfold(env, st, e);
    let (s, v) = gen_scalar(env, st, e)->Ok_0;
    let (s1, c) = gen_scalar(env, st, cond)->Ok_0;
    let s5 = if_start(s1, e.ty, c);
    let (s6, t) = gen_scalar(env, s5, then)->Ok_0;
    let s7 = if_else(s6, s1, t);
    let (s8, f) = gen_scalar(env, s7, els)->Ok_0;
    assert(s == if_end(s8, s1, f));
    lemma_grows(env, s5, then, locals);
    lemma_grows(env, s7, els, locals);
    lemma_code(env, st, cond, locals);
    lemma_code(env, s5, then, locals);
    lemma_code(env, s7, els, locals);
    let n = s1.f.ops.len() as int;
    lemma_goes_on_over(s1, s5, s6);
    assert(goes_on(s7, s1)) by {
        assert forall|i: int| n <= i < s7.f.ops.len() implies match #[trigger] s7.f.ops[i] {
            Op::SwitchTo(b) => b >= n,
            _ => true,
        } by {
            if i < s6.f.ops.len() {
                assert(s7.f.ops[i] == s6.f.ops[i]);
            }
        }
        assert forall|i: int| 0 <= i < n implies #[trigger] s7.f.ops[i] == s1.f.ops[i] by {
            assert(s7.f.ops[i] == s6.f.ops[i]);
        }
    }
    lemma_goes_on_more(s1, s7, s8);
    assert(goes_on(s, s1)) by {
        assert forall|i: int| n <= i < s.f.ops.len() implies match #[trigger] s.f.ops[i] {
            Op::SwitchTo(b) => b >= n,
            _ => true,
        } by {
            if i < s8.f.ops.len() {
                assert(s.f.ops[i] == s8.f.ops[i]);
            }
        }
        assert forall|i: int| 0 <= i < n implies #[trigger] s.f.ops[i] == s1.f.ops[i] by {
            assert(s.f.ops[i] == s8.f.ops[i]);
        }
    }
    lemma_goes_on_more(st, s1, s);
}

/// The code of arguments goes on from what was written, and their values stand
/// in it.
pub proof fn lemma_list_code(
    env: LowEnv,
    st: LowView,
    es: Seq<ExprView>,
    i: nat,
    acc: Seq<usize>,
    locals: Names,
)
    requires
        scalar_args(es, locals),
        suits(locals, env),
        i <= es.len(),
        gen_list(env, st, es, i, acc) is Ok,
        gen_list(env, st, es, i, acc)->Ok_0.0.f.ops.len() <= usize::MAX,
        forall|k: int| 0 <= k < acc.len() ==> #[trigger] acc[k] < st.f.ops.len(),
    ensures
        ({
            let (end, vs) = gen_list(env, st, es, i, acc)->Ok_0;
            &&& goes_on(end, st)
            &&& vs.len() == acc.len() + (es.len() - i)
            &&& forall|k: int| 0 <= k < vs.len() ==> #[trigger] vs[k] < end.f.ops.len()
            &&& forall|k: int| 0 <= k < acc.len() ==> #[trigger] vs[k] == acc[k]
        }),
    decreases es, es.len() - i,
{
    if i < es.len() {
        let (s1, v) = gen_scalar(env, st, es[i as int])->Ok_0;
        let (end, vs) = gen_list(env, st, es, i, acc)->Ok_0;
        lemma_list_grows(env, s1, es, i + 1, acc.push(v), locals);
        lemma_code(env, st, es[i as int], locals);
        assert forall|k: int| 0 <= k < acc.push(v).len() implies #[trigger] acc.push(v)[k]
            < s1.f.ops.len() by {
            if k < acc.len() {
                assert(acc[k] < st.f.ops.len());
            }
        }
        lemma_list_code(env, s1, es, i + 1, acc.push(v), locals);
        lemma_goes_on_more(st, s1, end);
        assert forall|k: int| 0 <= k < acc.len() implies #[trigger] vs[k] == acc[k] by {
            assert(vs[k] == acc.push(v)[k]);
        }
    }
}

proof fn lemma_call_code(env: LowEnv, st: LowView, e: ExprView, locals: Names)
    requires
        e.kind is Call,
        scalar_expr(e, locals),
        suits(locals, env),
        gen_scalar(env, st, e) is Ok,
        gen_scalar(env, st, e)->Ok_0.0.f.ops.len() <= usize::MAX,
    ensures
        goes_on(gen_scalar(env, st, e)->Ok_0.0, st),
        gen_scalar(env, st, e)->Ok_0.1 < gen_scalar(env, st, e)->Ok_0.0.f.ops.len(),
    decreases e, 0int,
{
    lemma_unfold_call(env, st, e, locals);
    let args = e.kind->Call_args;
    let (s1, vs) = gen_list(env, st, args, 0, Seq::empty())->Ok_0;
    let s2 = put_args(s1, vs, 0);
    let s = gen_scalar(env, st, e)->Ok_0.0;
    lemma_put_args_grows(s1, vs, 0);
    lemma_list_code(env, st, args, 0, Seq::empty(), locals);
    assert(goes_on(s, s1)) by {
        assert forall|i: int| 0 <= i < s1.f.ops.len() implies #[trigger] s.f.ops[i]
            == s1.f.ops[i] by {
            assert(s.f.ops[i] == s2.f.ops[i]);
        }
        assert forall|i: int| s1.f.ops.len() <= i < s.f.ops.len() implies match #[trigger] s.f.ops[i] {
            Op::SwitchTo(b) => b >= s1.f.ops.len(),
            _ => true,
        } by {
            if i < s2.f.ops.len() {
                assert(s.f.ops[i] == s2.f.ops[i]);
            }
        }
    }
    lemma_goes_on_more(st, s1, s);
}

/// Does the code begin with the earlier one?
spec fn same_start(end: LowView, s: LowView) -> bool {
    s.f.ops.len() <= end.f.ops.len() && forall|i: int|
        0 <= i < s.f.ops.len() ==> #[trigger] end.f.ops[i] == s.f.ops[i]
}

/// The code of the arms goes on from what was written, arm by arm.
proof fn lemma_choices_code(
    env: LowEnv,
    st: LowView,
    arms: Seq<(PatternView, ExprView)>,
    i: nat,
    ty: TypeView,
    key: usize,
    merge: usize,
    line: u32,
    t: TypeView,
    locals: Names,
)
    requires
        i < arms.len(),
        no_variants(arms),
        scalar_choices(arms, t, locals),
        suits(locals, env),
        choice_codes(env, st, arms, i, ty, key, merge, line) is Ok,
        choice_codes(env, st, arms, i, ty, key, merge, line)->Ok_0.f.ops.len() <= usize::MAX,
    ensures
        ({
            let end = choice_codes(env, st, arms, i, ty, key, merge, line)->Ok_0;
            let start = choice_start(st, arms, i, key);
            let (s3, v) = choice_value(env, st, arms, i, key);
            let nx = choice_next(env, st, arms, i, key, merge);
            &&& goes_on(end, st)
            &&& goes_on(start, st)
            &&& goes_on(s3, start)
            &&& same_start(end, s3)
            &&& v < s3.f.ops.len()
            &&& end.f.ops[s3.f.ops.len() as int] == Op::JumpWith(merge, v)
            &&& i + 1 < arms.len() ==> goes_on(end, nx) && goes_on(nx, st) && st.f.ops.len() + 5
                == start.f.ops.len() && start.f.ops == arm_head(st, key, arms[i as int].0).f.ops
        }),
    decreases arms, arms.len() - i,
{
    reveal(test_arm);
    lemma_choice_codes(env, st, arms, i, ty, key, merge, line);
    lemma_choices_grow(env, st, arms, i, ty, key, merge, line, t, locals);
    let end = choice_codes(env, st, arms, i, ty, key, merge, line)->Ok_0;
    let start = choice_start(st, arms, i, key);
    let (s3, v) = choice_value(env, st, arms, i, key);
    let n = st.f.ops.len() as int;
    assert(scalar_expr(arms[i as int].1, locals));
    lemma_code(env, start, arms[i as int].1, locals);
    assert(goes_on(start, st));
    lemma_goes_on_more(st, start, s3);
    if i + 1 < arms.len() {
        let nx = choice_next(env, st, arms, i, key, merge);
        let q = s3.f.ops.len() as int;
        lemma_choices_grow(env, nx, arms, i + 1, ty, key, merge, line, t, locals);
        lemma_choices_code(env, nx, arms, i + 1, ty, key, merge, line, t, locals);
        assert(arm_other(st, key, arms[i as int].0) == n + 2);
        assert(goes_on(nx, st)) by {
            assert forall|k: int| n <= k < nx.f.ops.len() implies match #[trigger] nx.f.ops[k] {
                Op::SwitchTo(b) => b >= n,
                _ => true,
            } by {
                if k < q {
                    assert(nx.f.ops[k] == s3.f.ops[k]);
                }
            }
            assert forall|k: int| 0 <= k < n implies #[trigger] nx.f.ops[k] == st.f.ops[k] by {
                assert(nx.f.ops[k] == s3.f.ops[k]);
            }
        }
        lemma_goes_on_more(st, nx, end);
        assert(end.f.ops[q] == nx.f.ops[q]);
        assert(start.f.ops =~= arm_head(st, key, arms[i as int].0).f.ops);
    }
    // Behind the value of this arm, code switches to blocks made in it or
    // before it.
    assert(same_start(end, s3)) by {
        if i + 1 < arms.len() {
            let nx = choice_next(env, st, arms, i, key, merge);
            assert forall|k: int| 0 <= k < s3.f.ops.len() implies #[trigger] end.f.ops[k]
                == s3.f.ops[k] by {
                assert(end.f.ops[k] == nx.f.ops[k]);
            }
        }
    }
}

proof fn lemma_choice_code(env: LowEnv, st: LowView, e: ExprView, locals: Names)
    requires
        e.kind is Match,
        scalar_expr(e, locals),
        suits(locals, env),
        gen_scalar(env, st, e) is Ok,
        gen_scalar(env, st, e)->Ok_0.0.f.ops.len() <= usize::MAX,
    ensures
        goes_on(gen_scalar(env, st, e)->Ok_0.0, st),
        gen_scalar(env, st, e)->Ok_0.1 < gen_scalar(env, st, e)->Ok_0.0.f.ops.len(),
    decreases e, 0int,
{
    let scrutinee = *e.kind->Match_scrutinee;
    let arms = e.kind->Match_arms;
    lemma_match_parts(env, st, e, locals);
    lemma_no_variants(e, locals);
    let s = gen_scalar(env, st, e)->Ok_0.0;
    let (s1, key) = gen_scalar(env, st, scrutinee)->Ok_0;
    let s2 = put(s1, Op::BlockOf(crate::lower::abi(e.ty)));
    let merge = next(s1);
    let s3 = choice_codes(env, s2, arms, 0, scrutinee.ty, key, merge, e.line)->Ok_0;
    lemma_choices_grow(env, s2, arms, 0, scrutinee.ty, key, merge, e.line, e.ty, locals);
    lemma_code(env, st, scrutinee, locals);
    lemma_choices_code(env, s2, arms, 0, scrutinee.ty, key, merge, e.line, e.ty, locals);
    let n = s1.f.ops.len() as int;
    assert(goes_on(s, s1)) by {
        assert forall|i: int| n <= i < s.f.ops.len() implies match #[trigger] s.f.ops[i] {
            Op::SwitchTo(b) => b >= n,
            _ => true,
        } by {
            if i < s3.f.ops.len() {
                assert(s.f.ops[i] == s3.f.ops[i]);
                if i < s2.f.ops.len() {
                    assert(s3.f.ops[i] == s2.f.ops[i]);
                }
            }
        }
        assert forall|i: int| 0 <= i < n implies #[trigger] s.f.ops[i] == s1.f.ops[i] by {
            assert(s.f.ops[i] == s3.f.ops[i]);
            assert(s3.f.ops[i] == s2.f.ops[i]);
        }
    }
    lemma_goes_on_more(st, s1, s);
}

// -- Code for every expression ----------------------------------------------

/// Every expression over integers and truth values has code.
pub proof fn law_expression_has_code(
    env: LowEnv,
    st: LowView,
    e: ExprView,
    locals: Names,
)
    requires
        scalar_expr(e, locals),
        suits(locals, env),
    ensures
        gen_scalar(env, st, e) is Ok,
    decreases e, 0int,
{
    lemma_unfold(env, st, e);
    match e.kind {
        ExprKindView::Var { res, .. } => {
            reveal(variable);
        },
        ExprKindView::Call { args, .. } => {
            lemma_unfold_call(env, st, e, locals);
            lemma_list_has_code(env, st, args, 0, Seq::empty(), locals);
        },
        ExprKindView::Unary(op, sub) => {
            law_expression_has_code(env, st, *sub, locals);
            reveal(unary_value);
        },
        ExprKindView::Binary(op, l, r) => {
            law_expression_has_code(env, st, *l, locals);
            let (s1, x) = gen_scalar(env, st, *l)->Ok_0;
            lemma_scalar_type(*l, locals);
            if op is And || op is Or {
                law_expression_has_code(env, logical_start(s1, op, x), *r, locals);
            } else {
                law_expression_has_code(env, s1, *r, locals);
                reveal(binary_values);
                reveal(arith);
                reveal(int_arith);
            }
        },
        ExprKindView::If { cond, then, els } => {
            law_expression_has_code(env, st, *cond, locals);
            let (s1, c) = gen_scalar(env, st, *cond)->Ok_0;
            let s5 = if_start(s1, e.ty, c);
            law_expression_has_code(env, s5, *then, locals);
            let (s6, t) = gen_scalar(env, s5, *then)->Ok_0;
            law_expression_has_code(env, if_else(s6, s1, t), *els, locals);
        },
        ExprKindView::Cast(sub, _) => {
            law_expression_has_code(env, st, *sub, locals);
            reveal(cast);
        },
        ExprKindView::Match { scrutinee, arms } => {
            law_expression_has_code(env, st, *scrutinee, locals);
            lemma_no_variants(e, locals);
            lemma_choice_patterns(arms);
            lemma_scalar_type(*scrutinee, locals);
            let (s1, key) = gen_scalar(env, st, *scrutinee)->Ok_0;
            let s2 = put(s1, Op::BlockOf(crate::lower::abi(e.ty)));
            lemma_choices_have_code(
                env,
                s2,
                arms,
                0,
                scrutinee.ty,
                key,
                next(s1),
                e.line,
                e.ty,
                locals,
            );
            reveal(choice_codes);
        },
        _ => {},
    }
}

proof fn lemma_choices_have_code(
    env: LowEnv,
    st: LowView,
    arms: Seq<(PatternView, ExprView)>,
    i: nat,
    ty: TypeView,
    key: usize,
    merge: usize,
    line: u32,
    t: TypeView,
    locals: Names,
)
    requires
        i < arms.len(),
        no_variants(arms),
        apart(expr_patterns(arms)),
        scalar_choices(arms, t, locals),
        suits(locals, env),
    ensures
        choice_codes(env, st, arms, i, ty, key, merge, line) is Ok,
    decreases arms, arms.len() - i,
{
    reveal(choice_codes);
    reveal(test_arm);
    reveal(bind_pattern);
    let p = arms[i as int].0;
    let start = choice_start(st, arms, i, key);
    assert(scalar_expr(arms[i as int].1, locals));
    law_expression_has_code(env, start, arms[i as int].1, locals);
    assert(bind_pattern(env, start, p, ty, key) == Ok::<LowView, Seq<char>>(start));
    if i + 1 < arms.len() {
        assert(expr_patterns(arms)[i as int] == p);
        assert(pattern_key(expr_patterns(arms)[i as int]) is Some && pattern_key(
            expr_patterns(arms)[i as int + 1],
        ) != pattern_key(expr_patterns(arms)[i as int]));
        assert(pattern_const(p) is Some);
        let nx = choice_next(env, st, arms, i, key, merge);
        lemma_choices_have_code(env, nx, arms, i + 1, ty, key, merge, line, t, locals);
    }
}

pub proof fn lemma_list_has_code(
    env: LowEnv,
    st: LowView,
    es: Seq<ExprView>,
    i: nat,
    acc: Seq<usize>,
    locals: Names,
)
    requires
        scalar_args(es, locals),
        suits(locals, env),
    ensures
        gen_list(env, st, es, i, acc) is Ok,
    decreases es, es.len() - i,
{
    if i < es.len() {
        law_expression_has_code(env, st, es[i as int], locals);
        let (s1, v) = gen_scalar(env, st, es[i as int])->Ok_0;
        lemma_list_has_code(env, s1, es, i + 1, acc.push(v), locals);
    }
}

// -- What the code computes -------------------------------------------------

/// Is this what a call comes to, if it is finished?
pub open spec fn answers(c: Called, ev: Eval) -> bool {
    match ev {
        Eval::Value(x, w) => c == Called::Done(Some(word(x)), w),
        Eval::Nothing(w) => c == Called::Done(None, w),
        Eval::Panic(rt, line, w) => c == Called::Panic(rt, line, w),
        Eval::Unfinished => true,
    }
}

pub open spec fn words(xs: Seq<int>) -> Seq<u64> {
    Seq::new(xs.len(), |i: int| word(xs[i]))
}

/// Do the calls of symbols come to what the calls of functions give?
pub open spec fn agree(
    run: spec_fn(usize, Seq<u64>, World) -> Called,
    calls: Calls,
    names: Names,
) -> bool {
    forall|f: u32, xs: Seq<int>, w: World|
        f < names.sigs.len() && f < names.ids.len() && names.ids[f as int] is Some && fit_all(
            names.sigs[f as int].params,
            xs,
        ) ==> answers(run(names.ids[f as int]->0, words(xs), w), #[trigger] answer(calls, f, xs, w))
}

/// Does the machine, in the midst of no call, hold these values, and do calls
/// in it come to what they give?
pub open spec fn holds_words(m: Machine, vars: Vars, locals: Names) -> bool {
    &&& forall|i: int|
        0 <= i < locals.len() && is_scalar(#[trigger] locals[i]) ==> m.vars[i] == word(vars[i])
    &&& m.args.len() == 0
    &&& m.world == vars.world
    &&& agree(m.around.calls, vars.calls, locals)
}

/// What came before a place is as it was, but for the world.
pub open spec fn framed(new: Machine, prior: Machine, below: int) -> bool {
    &&& new.vars == prior.vars
    &&& new.args == prior.args
    &&& new.around == prior.around
    &&& forall|i: int| 0 <= i < below ==> #[trigger] new.vals[i] == prior.vals[i]
}

/// The machine, about to run the code that `end` adds to `st`, panics as the
/// expression does, or goes on behind that code with its value at place `v`.
pub open spec fn computes(
    ops: Seq<Op>,
    m: Machine,
    st: LowView,
    end: LowView,
    v: usize,
    ev: Eval,
) -> bool {
    match ev {
        Eval::Unfinished => true,
        Eval::Panic(rt, line, w) => leads(ops, m, End::Panic(rt, line, w)),
        Eval::Nothing(_) => false,
        Eval::Value(x, w) => exists|m2: Machine| #[trigger]
            leads(ops, m, End::At(m2)) && m2.at == end.f.ops.len() && m2.vals[v as int] == word(x)
                && m2.world == w && framed(m2, m, st.f.ops.len() as int),
    }
}

pub proof fn lemma_begins(ops: Seq<Op>, end: LowView, mid: LowView)
    requires
        begins(ops, end),
        mid.f.ops.len() <= end.f.ops.len(),
        forall|i: int| 0 <= i < mid.f.ops.len() ==> #[trigger] end.f.ops[i] == mid.f.ops[i],
    ensures
        begins(ops, mid),
{
    assert forall|i: int| 0 <= i < mid.f.ops.len() implies #[trigger] ops[i] == mid.f.ops[i] by {
        assert(ops[i] == end.f.ops[i]);
    }
}

/// A part has run; the rest goes on from there.
proof fn lemma_then(
    ops: Seq<Op>,
    m: Machine,
    m1: Machine,
    st: LowView,
    mid: LowView,
    end: LowView,
    v: usize,
    ev: Eval,
)
    requires
        leads(ops, m, End::At(m1)),
        framed(m1, m, st.f.ops.len() as int),
        st.f.ops.len() <= mid.f.ops.len(),
        computes(ops, m1, mid, end, v, ev),
    ensures
        computes(ops, m, st, end, v, ev),
{
    match ev {
        Eval::Panic(rt, line, w) => {
            lemma_leads_on(ops, m, m1, End::Panic(rt, line, w));
        },
        Eval::Value(x, w) => {
            let m2 = choose|m2: Machine| #[trigger]
                leads(ops, m1, End::At(m2)) && m2.at == end.f.ops.len() && m2.vals[v as int]
                    == word(x) && m2.world == w && framed(m2, m1, mid.f.ops.len() as int);
            lemma_leads_on(ops, m, m1, End::At(m2));
            assert(framed(m2, m, st.f.ops.len() as int)) by {
                assert forall|i: int| 0 <= i < st.f.ops.len() implies #[trigger] m2.vals[i]
                    == m.vals[i] by {
                    assert(m2.vals[i] == m1.vals[i]);
                }
            }
        },
        _ => {},
    }
}

/// The machine that a computed value leaves.
pub open spec fn after(
    ops: Seq<Op>,
    m: Machine,
    st: LowView,
    end: LowView,
    v: usize,
    x: int,
    w: World,
) -> Machine {
    choose|m2: Machine| #[trigger]
        leads(ops, m, End::At(m2)) && m2.at == end.f.ops.len() && m2.vals[v as int] == word(x)
            && m2.world == w && framed(m2, m, st.f.ops.len() as int)
}

pub proof fn lemma_literal(v: u64, k: IntKind)
    ensures
        word((v as i64) as int) == v,
        word(decode(k, v)) == v,
{
    assert(v >= 0x8000_0000_0000_0000u64 ==> v as i64 == v - 0x1_0000_0000_0000_0000)
        by (bit_vector);
    assert(v < 0x8000_0000_0000_0000u64 ==> v as i64 == v) by (bit_vector);
    lemma_word(signed(v));
}

/// One instruction that gives a value.
proof fn lemma_single(ops: Seq<Op>, m: Machine, st: LowView, op: Op, x: int)
    requires
        begins(ops, put(st, op)),
        ops.len() <= usize::MAX,
        ready(ops, m, st),
        step(ops, m) == crate::machine::give(m, word(x)),
    ensures
        computes(ops, m, st, put(st, op), next(st), Eval::Value(x, m.world)),
{
    let n = st.f.ops.len() as int;
    let m1 = Machine { at: n + 1, vals: m.vals.insert(n, word(x)), ..m };
    lemma_leads_step(ops, m, End::At(m1));
    assert(framed(m1, m, n));
}

/// An operator on evaluated operands.
proof fn lemma_operator(
    ops: Seq<Op>,
    m: Machine,
    st: LowView,
    op: BinOp,
    t: TypeView,
    l: usize,
    r: usize,
    line: u32,
    a: int,
    b: int,
)
    requires
        is_scalar(t),
        !(op is And || op is Or),
        is_comparison(op) ==> t is Int || op is Eq || op is Ne,
        !is_comparison(op) ==> t is Int,
        binary_values(st, op, t, t, l, r, line) is Ok,
        begins(ops, binary_values(st, op, t, t, l, r, line)->Ok_0.0),
        runnable(ops),
        ready(ops, m, st),
        l < st.f.ops.len(),
        r < st.f.ops.len(),
        fits_type(t, a),
        fits_type(t, b),
        m.vals[l as int] == word(a),
        m.vals[r as int] == word(b),
    ensures
        computes(
            ops,
            m,
            st,
            binary_values(st, op, t, t, l, r, line)->Ok_0.0,
            binary_values(st, op, t, t, l, r, line)->Ok_0.1,
            if is_comparison(op) {
                truth_value(compares(op, a, b), m.world)
            } else {
                at_line(operate(op, kind_of(t), a, b)->0, line, m.world)
            },
        ),
{
    reveal(binary_values);
    let k = kind_of(t);
    if is_comparison(op) {
        assert(compare(st, op, t, l, r) == compare(st, op, TypeView::Int(k), l, r)) by {
            reveal(compare);
        }
        law_compare(ops, m, st, op, k, l, r, line, a, b);
    } else {
        reveal(arith);
        law_int_arith(ops, m, st, op, k, l, r, line, a, b);
    }
}

/// The code of an expression over integers and truth values computes what the
/// expression means: it gives its value, in the variables that the machine
/// holds, and panics exactly where the expression does, with the same cause
/// and line.
pub proof fn law_expression(
    ops: Seq<Op>,
    m: Machine,
    env: LowEnv,
    st: LowView,
    e: ExprView,
    locals: Names,
    vars: Vars,
)
    requires
        scalar_expr(e, locals),
        suits(locals, env),
        gen_scalar(env, st, e) is Ok,
        begins(ops, gen_scalar(env, st, e)->Ok_0.0),
        runnable(ops),
        ready(ops, m, st),
        holds_values(vars, locals),
        holds_words(m, vars, locals),
    ensures
        computes(
            ops,
            m,
            st,
            gen_scalar(env, st, e)->Ok_0.0,
            gen_scalar(env, st, e)->Ok_0.1,
            eval(e, vars),
        ),
    decreases e, 1int,
{
    let (s, v) = gen_scalar(env, st, e)->Ok_0;
    let n = st.f.ops.len() as int;
    lemma_code(env, st, e, locals);
    match e.kind {
        ExprKindView::Int(w) => {
            lemma_literal(w, kind_of(e.ty));
            assert(s.f.ops[n] == Op::Iconst(w as i64) && ops[n] == s.f.ops[n]);
            lemma_single(ops, m, st, Op::Iconst(w as i64), decode(kind_of(e.ty), w));
        },
        ExprKindView::Byte(w) => {
            assert(s.f.ops[n] == Op::Iconst(w as i64) && ops[n] == s.f.ops[n]);
            lemma_single(ops, m, st, Op::Iconst(w as i64), w as int);
        },
        ExprKindView::Bool(b) => {
            let w: i64 = if b {
                1
            } else {
                0
            };
            assert(s.f.ops[n] == Op::Iconst(w) && ops[n] == s.f.ops[n]);
            lemma_single(ops, m, st, Op::Iconst(w), w as int);
        },
        ExprKindView::Var { res, .. } => {
            reveal(variable);
            if let Some(VarRes::Local(i)) = res {
                assert(variable(env, st, res, e.ty, e.line) == Ok::<(LowView, usize), Seq<char>>(
                    (put(st, Op::UseVar(i as usize)), next(st)),
                ));
                assert(is_scalar(locals[i as int]));
                assert(s.f.ops[n] == Op::UseVar(i as usize) && ops[n] == s.f.ops[n]);
                lemma_single(ops, m, st, Op::UseVar(i as usize), vars[i as int]);
            }
        },
        ExprKindView::Unary(op, sub) => {
            let (s1, x) = gen_scalar(env, st, *sub)->Ok_0;
            assert(s1.f.ops.len() <= s.f.ops.len()) by {
                reveal(unary_value);
            }
            lemma_code(env, st, *sub, locals);
            lemma_unary_goes_on(s1, op, sub.ty, x, e.line);
            lemma_begins(ops, s, s1);
            law_expression(ops, m, env, st, *sub, locals, vars);
            law_eval_keeps_types(*sub, locals, vars);
            if let Eval::Value(a, w1) = eval(*sub, vars) {
                let m1 = after(ops, m, st, s1, x, a, w1);
                if op is Not {
                    law_not(ops, m1, s1, x, e.line, a != 0);
                } else {
                    law_unary(ops, m1, s1, op, kind_of(sub.ty), x, e.line, a);
                }
                lemma_then(ops, m, m1, st, s1, s, v, eval(e, vars));
            }
        },
        ExprKindView::Binary(op, l, r) => {
            if op is And || op is Or {
                lemma_logical(ops, m, env, st, e, locals, vars);
            } else {
                lemma_unfold(env, st, e);
                let (s1, x) = gen_scalar(env, st, *l)->Ok_0;
                let (s2, y) = gen_scalar(env, s1, *r)->Ok_0;
                lemma_scalar_type(*l, locals);
                lemma_grows(env, s1, *r, locals);
                lemma_operator_grows(s2, op, l.ty, x, y, e.line);
                lemma_code(env, st, *l, locals);
                lemma_code(env, s1, *r, locals);
                lemma_operator_goes_on(s2, op, l.ty, x, y, e.line);
                lemma_begins(ops, s, s2);
                lemma_begins(ops, s2, s1);
                law_expression(ops, m, env, st, *l, locals, vars);
                law_eval_keeps_types(*l, locals, vars);
                if let Eval::Value(a, w1) = eval(*l, vars) {
                    let m1 = after(ops, m, st, s1, x, a, w1);
                    law_eval_keeps_types(*r, locals, vars.at(w1));
                    law_expression(ops, m1, env, s1, *r, locals, vars.at(w1));
                    if let Eval::Value(b, w2) = eval(*r, vars.at(w1)) {
                        let m2 = after(ops, m1, s1, s2, y, b, w2);
                        assert(m2.vals[x as int] == m1.vals[x as int]);
                        lemma_operator(ops, m2, s2, op, l.ty, x, y, e.line, a, b);
                        lemma_then(ops, m1, m2, s1, s2, s, v, eval(e, vars));
                    }
                    lemma_then(ops, m, m1, st, s1, s, v, eval(e, vars));
                }
            }
        },
        ExprKindView::If { .. } => {
            lemma_conditional(ops, m, env, st, e, locals, vars);
        },
        ExprKindView::Call { .. } => {
            lemma_call(ops, m, env, st, e, locals, vars);
        },
        ExprKindView::Match { .. } => {
            lemma_choice(ops, m, env, st, e, locals, vars);
        },
        ExprKindView::Cast(sub, _) => {
            let (s1, x) = gen_scalar(env, st, *sub)->Ok_0;
            reveal(cast);
            let (d, k) = (kind_of(e.ty), kind_of(sub.ty));
            lemma_cast_goes_on(s1, k, d, x, e.line);
            lemma_code(env, st, *sub, locals);
            lemma_begins(ops, s, s1);
            law_expression(ops, m, env, st, *sub, locals, vars);
            law_eval_keeps_types(*sub, locals, vars);
            if let Eval::Value(a, w1) = eval(*sub, vars) {
                let m1 = after(ops, m, st, s1, x, a, w1);
                law_cast_int(ops, m1, s1, k, d, x, e.line, a);
                lemma_then(ops, m, m1, st, s1, s, v, eval(e, vars));
            }
        },
        _ => {},
    }
}

/// Logical operators: the right side runs only where the left one does not
/// decide.
#[verifier::rlimit(40)]
proof fn lemma_logical(
    ops: Seq<Op>,
    m: Machine,
    env: LowEnv,
    st: LowView,
    e: ExprView,
    locals: Names,
    vars: Vars,
)
    requires
        e.kind is Binary,
        e.kind->Binary_0 is And || e.kind->Binary_0 is Or,
        scalar_expr(e, locals),
        suits(locals, env),
        gen_scalar(env, st, e) is Ok,
        begins(ops, gen_scalar(env, st, e)->Ok_0.0),
        runnable(ops),
        ready(ops, m, st),
        holds_values(vars, locals),
        holds_words(m, vars, locals),
    ensures
        computes(
            ops,
            m,
            st,
            gen_scalar(env, st, e)->Ok_0.0,
            gen_scalar(env, st, e)->Ok_0.1,
            eval(e, vars),
        ),
    decreases e, 0int,
{
    lemma_unfold(env, st, e);
    let op = e.kind->Binary_0;
    let l = *e.kind->Binary_1;
    let r = *e.kind->Binary_2;
    let (s, v) = gen_scalar(env, st, e)->Ok_0;
    let (s1, x) = gen_scalar(env, st, l)->Ok_0;
    let s4 = logical_start(s1, op, x);
    let (s5, y) = gen_scalar(env, s4, r)->Ok_0;
    assert(s == logical_end(s5, s1, y));
    lemma_grows(env, st, l, locals);
    lemma_grows(env, s4, r, locals);
    lemma_code(env, st, l, locals);
    lemma_code(env, s4, r, locals);
    lemma_begins(ops, s, s5);
    lemma_begins(ops, s5, s4);
    lemma_begins(ops, s4, s1);
    law_eval_keeps_types(l, locals, vars);
    law_expression(ops, m, env, st, l, locals, vars);
    let p = s1.f.ops.len() as int;
    let q = s5.f.ops.len() as int;
    let (rest, merge) = (p as usize, (p + 1) as usize);
    assert(ops[p] == s4.f.ops[p] && ops[p + 1] == s4.f.ops[p + 1] && ops[p + 2] == s4.f.ops[p + 2]
        && ops[p + 3] == s4.f.ops[p + 3]);
    assert(ops[q] == s.f.ops[q] && ops[q + 1] == s.f.ops[q + 1] && ops[q + 2] == s.f.ops[q + 2]);
    assert(ops[q] == Op::JumpWith(merge, y));
    assert(ops[q + 1] == Op::SwitchTo(merge));
    assert(ops[q + 2] == Op::BlockParam(merge));
    lemma_start(ops, rest, p + 3);
    assert forall|i: int| merge < i < q + 1 implies #[trigger] ops[i] != Op::SwitchTo(merge) by {
        if p + 4 <= i < q {
            assert(ops[i] == s5.f.ops[i]);
        }
    }
    lemma_start(ops, merge, q + 1);
    if let Eval::Value(a, w1) = eval(l, vars) {
        let m1 = after(ops, m, st, s1, x, a, w1);
        law_eval_keeps_types(r, locals, vars.at(w1));
        lemma_word(a);
        let m2 = Machine { at: p + 1, ..m1 };
        let m3 = Machine { at: p + 2, ..m1 };
        assert(step(ops, m1) == Some(End::At(m2)));
        assert(step(ops, m2) == Some(End::At(m3)));
        lemma_leads_step(ops, m2, End::At(m3));
        lemma_step_then(ops, m1, m2, End::At(m3));
        if op is And && a == 0 || op is Or && a != 0 {
            let m4 = Machine { at: q + 1, vals: m1.vals.insert(p + 1, word(a)), ..m1 };
            let m5 = Machine { at: q + 2, ..m4 };
            let m6 = Machine { at: q + 3, vals: m4.vals.insert(q + 2, word(a)), ..m1 };
            assert(step(ops, m3) == Some(End::At(m4)));
            assert(step(ops, m4) == Some(End::At(m5)));
            assert(step(ops, m5) == Some(End::At(m6)));
            lemma_leads_step(ops, m5, End::At(m6));
            lemma_step_then(ops, m4, m5, End::At(m6));
            lemma_step_then(ops, m3, m4, End::At(m6));
            lemma_leads_on(ops, m1, m3, End::At(m6));
            assert(framed(m6, m1, p));
            assert(computes(ops, m1, s1, s, v, eval(e, vars)));
        } else {
            let m4 = Machine { at: p + 3, ..m1 };
            let m5 = Machine { at: p + 4, ..m1 };
            assert(step(ops, m3) == Some(End::At(m4)));
            assert(step(ops, m4) == Some(End::At(m5)));
            lemma_leads_step(ops, m4, End::At(m5));
            lemma_step_then(ops, m3, m4, End::At(m5));
            lemma_leads_on(ops, m1, m3, End::At(m5));
            law_expression(ops, m5, env, s4, r, locals, vars.at(w1));
            lemma_merge(ops, m5, s4, s5, y, eval(r, vars.at(w1)), merge, q, s1, s, v);
            lemma_then(ops, m1, m5, s1, s1, s, v, eval(r, vars.at(w1)));
        }
        lemma_then(ops, m, m1, st, s1, s, v, eval(e, vars));
    }
}

/// A branch has run; its value goes on at the merge block.
proof fn lemma_merge(
    ops: Seq<Op>,
    m: Machine,
    from: LowView,
    to: LowView,
    x: usize,
    ev: Eval,
    merge: usize,
    w: int,
    base: LowView,
    end: LowView,
    v: usize,
)
    requires
        computes(ops, m, from, to, x, ev),
        base.f.ops.len() <= from.f.ops.len(),
        base.f.ops.len() <= merge,
        to.f.ops.len() < ops.len(),
        ops[to.f.ops.len() as int] == Op::JumpWith(merge, x),
        start_from(ops, merge, 0) == Some(w + 1),
        base.f.ops.len() <= w,
        w + 2 < ops.len() <= usize::MAX,
        ops[w + 1] == Op::SwitchTo(merge),
        ops[w + 2] == Op::BlockParam(merge),
        end.f.ops.len() == w + 3,
        v == w + 2,
    ensures
        computes(ops, m, base, end, v, ev),
{
    if let Eval::Value(b, w2) = ev {
        let m7 = after(ops, m, from, to, x, b, w2);
        let m8 = Machine { at: w + 1, vals: m7.vals.insert(merge as int, word(b)), ..m7 };
        let m9 = Machine { at: w + 2, ..m8 };
        let m10 = Machine { at: w + 3, vals: m8.vals.insert(w + 2, word(b)), ..m7 };
        assert(step(ops, m7) == Some(End::At(m8)));
        assert(step(ops, m8) == Some(End::At(m9)));
        assert(step(ops, m9) == Some(End::At(m10)));
        lemma_leads_step(ops, m9, End::At(m10));
        lemma_step_then(ops, m8, m9, End::At(m10));
        lemma_step_then(ops, m7, m8, End::At(m10));
        lemma_leads_on(ops, m, m7, End::At(m10));
        let p = base.f.ops.len() as int;
        assert(framed(m10, m, p)) by {
            assert forall|i: int| 0 <= i < p implies #[trigger] m10.vals[i] == m.vals[i] by {
                assert(m7.vals[i] == m.vals[i]);
            }
        }
    }
}

/// The conditional: only the branch that is taken runs.
#[verifier::rlimit(60)]
proof fn lemma_conditional(
    ops: Seq<Op>,
    m: Machine,
    env: LowEnv,
    st: LowView,
    e: ExprView,
    locals: Names,
    vars: Vars,
)
    requires
        e.kind is If,
        scalar_expr(e, locals),
        suits(locals, env),
        gen_scalar(env, st, e) is Ok,
        begins(ops, gen_scalar(env, st, e)->Ok_0.0),
        runnable(ops),
        ready(ops, m, st),
        holds_values(vars, locals),
        holds_words(m, vars, locals),
    ensures
        computes(
            ops,
            m,
            st,
            gen_scalar(env, st, e)->Ok_0.0,
            gen_scalar(env, st, e)->Ok_0.1,
            eval(e, vars),
        ),
    decreases e, 0int,
{
    lemma_unfold(env, st, e);
    let cond = *e.kind->If_cond;
    let then = *e.kind->If_then;
    let els = *e.kind->If_els;
    let (s, v) = gen_scalar(env, st, e)->Ok_0;
    let (s1, c) = gen_scalar(env, st, cond)->Ok_0;
    let s5 = if_start(s1, e.ty, c);
    let (s6, t) = gen_scalar(env, s5, then)->Ok_0;
    let s7 = if_else(s6, s1, t);
    let (s8, f) = gen_scalar(env, s7, els)->Ok_0;
    assert(s == if_end(s8, s1, f));
    lemma_grows(env, st, cond, locals);
    lemma_grows(env, s5, then, locals);
    lemma_grows(env, s7, els, locals);
    lemma_code(env, st, cond, locals);
    lemma_code(env, s5, then, locals);
    lemma_code(env, s7, els, locals);
    lemma_begins(ops, s, s8);
    lemma_begins(ops, s8, s7);
    lemma_begins(ops, s7, s6);
    lemma_begins(ops, s6, s5);
    lemma_begins(ops, s5, s1);
    law_eval_keeps_types(cond, locals, vars);
    law_expression(ops, m, env, st, cond, locals, vars);
    let p = s1.f.ops.len() as int;
    let q = s6.f.ops.len() as int;
    let w = s8.f.ops.len() as int;
    let (yes, no, merge) = (p as usize, (p + 1) as usize, (p + 2) as usize);
    assert(ops[p] == s5.f.ops[p] && ops[p + 1] == s5.f.ops[p + 1] && ops[p + 2] == s5.f.ops[p + 2]
        && ops[p + 3] == s5.f.ops[p + 3] && ops[p + 4] == s5.f.ops[p + 4]);
    assert(ops[p + 3] == Op::Brif(c, yes, no) && ops[p + 4] == Op::SwitchTo(yes));
    assert(ops[q] == s7.f.ops[q] && ops[q + 1] == s7.f.ops[q + 1]);
    assert(ops[q] == Op::JumpWith(merge, t) && ops[q + 1] == Op::SwitchTo(no));
    assert(ops[w] == s.f.ops[w] && ops[w + 1] == s.f.ops[w + 1] && ops[w + 2] == s.f.ops[w + 2]);
    assert(ops[w] == Op::JumpWith(merge, f) && ops[w + 1] == Op::SwitchTo(merge) && ops[w + 2]
        == Op::BlockParam(merge));
    assert forall|i: int| p + 5 <= i < q implies (match #[trigger] ops[i] {
        Op::SwitchTo(b) => b >= p + 5,
        _ => true,
    }) by {
        assert(ops[i] == s6.f.ops[i]);
    }
    assert forall|i: int| q + 2 <= i < w implies (match #[trigger] ops[i] {
        Op::SwitchTo(b) => b >= q + 2,
        _ => true,
    }) by {
        assert(ops[i] == s8.f.ops[i]);
    }
    lemma_start(ops, yes, p + 4);
    lemma_start(ops, no, q + 1);
    lemma_start(ops, merge, w + 1);
    if let Eval::Value(a, w1) = eval(cond, vars) {
        let m1 = after(ops, m, st, s1, c, a, w1);
        let vars1 = vars.at(w1);
        lemma_word(a);
        let m2 = Machine { at: p + 1, ..m1 };
        let m3 = Machine { at: p + 2, ..m1 };
        let m4 = Machine { at: p + 3, ..m1 };
        assert(step(ops, m1) == Some(End::At(m2)));
        assert(step(ops, m2) == Some(End::At(m3)));
        assert(step(ops, m3) == Some(End::At(m4)));
        lemma_leads_step(ops, m3, End::At(m4));
        lemma_step_then(ops, m2, m3, End::At(m4));
        lemma_step_then(ops, m1, m2, End::At(m4));
        // The branch that is taken: where it starts, its code and its jump.
        let (go, from, to, x, ev) = if a != 0 {
            (p + 4, s5, s6, t, eval(then, vars1))
        } else {
            (q + 1, s7, s8, f, eval(els, vars1))
        };
        let m5 = Machine { at: go, ..m1 };
        let m6 = Machine { at: go + 1, ..m1 };
        assert(step(ops, m4) == Some(End::At(m5)));
        assert(step(ops, m5) == Some(End::At(m6)));
        lemma_leads_step(ops, m5, End::At(m6));
        lemma_step_then(ops, m4, m5, End::At(m6));
        lemma_leads_on(ops, m1, m4, End::At(m6));
        if a != 0 {
            law_expression(ops, m6, env, s5, then, locals, vars1);
        } else {
            law_expression(ops, m6, env, s7, els, locals, vars1);
        }
        lemma_merge(ops, m6, from, to, x, ev, merge, w, s1, s, v);
        lemma_then(ops, m1, m6, s1, s1, s, v, ev);
        lemma_then(ops, m, m1, st, s1, s, v, eval(e, vars));
    }
}

/// The machine, about to run the code that `end` adds to `st`, stops as the
/// arguments do, or goes on behind that code with their values at the places
/// `vs`.
pub open spec fn passes(
    ops: Seq<Op>,
    m: Machine,
    st: LowView,
    end: LowView,
    vs: Seq<usize>,
    r: Result<(Seq<int>, World), Eval>,
) -> bool {
    match r {
        Err(ev) => !(ev is Value) && computes(ops, m, st, end, 0, ev),
        Ok((xs, w)) => xs.len() == vs.len() && exists|m2: Machine| #[trigger]
            leads(ops, m, End::At(m2)) && m2.at == end.f.ops.len() && m2.world == w && framed(
                m2,
                m,
                st.f.ops.len() as int,
            ) && forall|k: int| 0 <= k < vs.len() ==> m2.vals[#[trigger] vs[k] as int] == word(xs[k]),
    }
}

/// Arguments are computed from the left to the right.
pub proof fn lemma_args(
    ops: Seq<Op>,
    m: Machine,
    env: LowEnv,
    st: LowView,
    es: Seq<ExprView>,
    i: nat,
    acc: Seq<usize>,
    locals: Names,
    vars: Vars,
    xs: Seq<int>,
)
    requires
        scalar_args(es, locals),
        suits(locals, env),
        i <= es.len(),
        gen_list(env, st, es, i, acc) is Ok,
        begins(ops, gen_list(env, st, es, i, acc)->Ok_0.0),
        runnable(ops),
        ready(ops, m, st),
        holds_values(vars, locals),
        holds_words(m, vars, locals),
        acc.len() == xs.len(),
        forall|k: int| 0 <= k < acc.len() ==> #[trigger] acc[k] < st.f.ops.len(),
        forall|k: int| 0 <= k < acc.len() ==> m.vals[#[trigger] acc[k] as int] == word(xs[k]),
    ensures
        passes(
            ops,
            m,
            st,
            gen_list(env, st, es, i, acc)->Ok_0.0,
            gen_list(env, st, es, i, acc)->Ok_0.1,
            eval_args(es, i, vars, xs),
        ),
    decreases es, es.len() - i,
{
    let (end, vs) = gen_list(env, st, es, i, acc)->Ok_0;
    let n = st.f.ops.len() as int;
    if i < es.len() {
        let e = es[i as int];
        let (s1, v) = gen_scalar(env, st, e)->Ok_0;
        let more = acc.push(v);
        lemma_list_grows(env, s1, es, i + 1, more, locals);
        lemma_code(env, st, e, locals);
        assert forall|k: int| 0 <= k < more.len() implies #[trigger] more[k] < s1.f.ops.len() by {
            if k < acc.len() {
                assert(acc[k] < st.f.ops.len());
            }
        }
        lemma_list_code(env, s1, es, i + 1, more, locals);
        lemma_begins(ops, end, s1);
        law_expression(ops, m, env, st, e, locals, vars);
        if let Eval::Value(x, w1) = eval(e, vars) {
            let m1 = after(ops, m, st, s1, v, x, w1);
            let ys = xs.push(x);
            assert forall|k: int| 0 <= k < more.len() implies m1.vals[#[trigger] more[k] as int]
                == word(ys[k]) by {
                if k < acc.len() {
                    assert(m1.vals[acc[k] as int] == m.vals[acc[k] as int]);
                }
            }
            lemma_args(ops, m1, env, s1, es, i + 1, more, locals, vars.at(w1), ys);
            match eval_args(es, i, vars, xs) {
                Err(ev) => {
                    lemma_then(ops, m, m1, st, s1, end, 0, ev);
                },
                Ok((zs, w)) => {
                    let m2 = choose|m2: Machine| #[trigger]
                        leads(ops, m1, End::At(m2)) && m2.at == end.f.ops.len() && m2.world == w
                            && framed(
                            m2,
                            m1,
                            s1.f.ops.len() as int,
                        ) && forall|k: int|
                            0 <= k < vs.len() ==> m2.vals[#[trigger] vs[k] as int] == word(zs[k]);
                    lemma_leads_on(ops, m, m1, End::At(m2));
                    assert(framed(m2, m, n)) by {
                        assert forall|j: int| 0 <= j < n implies #[trigger] m2.vals[j]
                            == m.vals[j] by {
                            assert(m2.vals[j] == m1.vals[j]);
                        }
                    }
                },
            }
        }
    } else {
        lemma_leads_here(ops, m);
        assert(framed(m, m, n));
    }
}

/// The values at the places `vs` are handed on from index `i` on.
pub proof fn lemma_hand_on(ops: Seq<Op>, m: Machine, st: LowView, vs: Seq<usize>, i: nat)
    requires
        i <= vs.len(),
        begins(ops, put_args(st, vs, i)),
        ready(ops, m, st),
    ensures
        leads(
            ops,
            m,
            End::At(
                Machine {
                    at: put_args(st, vs, i).f.ops.len() as int,
                    args: m.args + Seq::new(
                        (vs.len() - i) as nat,
                        |k: int| m.vals[vs[k + i] as int],
                    ),
                    ..m
                },
            ),
        ),
    decreases vs.len() - i,
{
    let end = put_args(st, vs, i);
    let rest = Seq::new((vs.len() - i) as nat, |k: int| m.vals[vs[k + i] as int]);
    let last = Machine { at: end.f.ops.len() as int, args: m.args + rest, ..m };
    lemma_put_args_grows(st, vs, i);
    if i < vs.len() {
        let s1 = put(st, Op::Arg(vs[i as int]));
        let m1 = Machine { at: m.at + 1, args: m.args.push(m.vals[vs[i as int] as int]), ..m };
        let n = st.f.ops.len() as int;
        assert(ops[n] == end.f.ops[n]);
        assert(step(ops, m) == Some(End::At(m1)));
        lemma_hand_on(ops, m1, s1, vs, i + 1);
        let less = Seq::new((vs.len() - (i + 1)) as nat, |k: int| m1.vals[vs[k + i + 1] as int]);
        assert(m1.args + less =~= m.args + rest);
        assert(Seq::new((vs.len() - (i + 1)) as nat, |k: int| m1.vals[vs[k + (i + 1)] as int])
            =~= less);
        lemma_step_then(ops, m, m1, End::At(last));
    } else {
        assert(m.args + rest =~= m.args);
        assert(last == m);
        lemma_leads_here(ops, m);
    }
}

/// A call of a function by name: its arguments, and what it comes to.
proof fn lemma_call(
    ops: Seq<Op>,
    m: Machine,
    env: LowEnv,
    st: LowView,
    e: ExprView,
    locals: Names,
    vars: Vars,
)
    requires
        e.kind is Call,
        scalar_expr(e, locals),
        suits(locals, env),
        gen_scalar(env, st, e) is Ok,
        begins(ops, gen_scalar(env, st, e)->Ok_0.0),
        runnable(ops),
        ready(ops, m, st),
        holds_values(vars, locals),
        holds_words(m, vars, locals),
    ensures
        computes(
            ops,
            m,
            st,
            gen_scalar(env, st, e)->Ok_0.0,
            gen_scalar(env, st, e)->Ok_0.1,
            eval(e, vars),
        ),
    decreases e, 0int,
{
    lemma_unfold_call(env, st, e, locals);
    let args = e.kind->Call_args;
    let f = e.kind->Call_direct->0;
    let (s, v) = gen_scalar(env, st, e)->Ok_0;
    let (s1, vs) = gen_list(env, st, args, 0, Seq::empty())->Ok_0;
    let s2 = put_args(s1, vs, 0);
    let n = st.f.ops.len() as int;
    lemma_put_args_grows(s1, vs, 0);
    assert(s1.f.ops.len() <= s2.f.ops.len() < s.f.ops.len() <= usize::MAX);
    lemma_list_code(env, st, args, 0, Seq::empty(), locals);
    lemma_begins(ops, s, s2);
    lemma_begins(ops, s2, s1);
    lemma_args(ops, m, env, st, args, 0, Seq::empty(), locals, vars, Seq::empty());
    lemma_args_keep_types(args, 0, locals, vars, Seq::empty());
    match eval_args(args, 0, vars, Seq::empty()) {
        Err(ev) => {},
        Ok((xs, w)) => {
            let m1 = choose|m1: Machine| #[trigger]
                leads(ops, m, End::At(m1)) && m1.at == s1.f.ops.len() && m1.world == w && framed(
                    m1,
                    m,
                    n,
                ) && forall|
                    k: int,
                |
                    0 <= k < vs.len() ==> m1.vals[#[trigger] vs[k] as int] == word(xs[k]);
            lemma_hand_on(ops, m1, s1, vs, 0);
            let all = m1.args + Seq::new(vs.len(), |k: int| m1.vals[vs[k + 0] as int]);
            assert(all =~= words(xs));
            let m2 = Machine { at: s2.f.ops.len() as int, args: words(xs), ..m1 };
            assert(leads(ops, m1, End::At(m2)));
            lemma_leads_on(ops, m, m1, End::At(m2));
            let at = s2.f.ops.len() as int;
            assert(ops[at] == s.f.ops[at]);
            assert(answers((m.around.calls)(locals.ids[f as int]->0, words(xs), w), answer(
                vars.calls,
                f,
                xs,
                w,
            )));
            match answer(vars.calls, f, xs, w) {
                Eval::Unfinished => {},
                Eval::Nothing(_) => {},
                Eval::Panic(rt, line, w2) => {
                    lemma_leads_step(ops, m2, End::Panic(rt, line, w2));
                    lemma_leads_on(ops, m, m2, End::Panic(rt, line, w2));
                },
                Eval::Value(x, w2) => {
                    let m3 = Machine {
                        at: at + 1,
                        vals: m2.vals.insert(at, word(x)),
                        args: Seq::empty(),
                        world: w2,
                        ..m2
                    };
                    assert(step(ops, m2) == Some(End::At(m3)));
                    lemma_leads_step(ops, m2, End::At(m3));
                    lemma_leads_on(ops, m, m2, End::At(m3));
                    assert(m3.args =~= m.args);
                    assert(framed(m3, m, n)) by {
                        assert forall|j: int| 0 <= j < n implies #[trigger] m3.vals[j]
                            == m.vals[j] by {
                            assert(m1.vals[j] == m.vals[j]);
                        }
                    }
                },
            }
        },
    }
}

pub proof fn lemma_branch(ops: Seq<Op>, m: Machine, c: usize, a: usize, b: usize, j: int)
    requires
        0 <= m.at < ops.len(),
        ops[m.at] == Op::Brif(c, a, b),
        start_from(
            ops,
            if m.vals[c as int] != 0 {
                a
            } else {
                b
            },
            0,
        ) == Some(j),
        0 <= j < ops.len(),
        ops[j] is SwitchTo,
    ensures
        leads(ops, m, End::At(Machine { at: j + 1, ..m })),
{
    let m1 = Machine { at: j, ..m };
    let m2 = Machine { at: j + 1, ..m };
    assert(step(ops, m) == Some(End::At(m1)));
    assert(step(ops, m1) == Some(End::At(m2)));
    lemma_leads_step(ops, m1, End::At(m2));
    lemma_step_then(ops, m, m1, End::At(m2));
}

/// Block declarations do nothing.
pub proof fn lemma_blocks(ops: Seq<Op>, m: Machine, n: nat)
    requires
        0 <= m.at,
        m.at + n <= ops.len(),
        forall|i: int| m.at <= i < m.at + n ==> #[trigger] ops[i] == Op::Block,
    ensures
        leads(ops, m, End::At(Machine { at: m.at + n, ..m })),
    decreases n,
{
    if n == 0 {
        assert(Machine { at: m.at + n, ..m } == m);
        lemma_leads_here(ops, m);
    } else {
        let m1 = Machine { at: m.at + 1, ..m };
        assert(step(ops, m) == Some(End::At(m1)));
        lemma_blocks(ops, m1, (n - 1) as nat);
        lemma_step_then(ops, m, m1, End::At(Machine { at: m.at + n, ..m }));
    }
}

/// A pattern's constant is its key.
pub proof fn lemma_const(p: PatternView)
    requires
        pattern_const(p) is Some,
    ensures
        pattern_key(p) == Some(word(pattern_const(p)->0 as int)),
{
    match p {
        PatternView::IntLit { value, .. } => lemma_literal(value, crate::types::IntKind::U64),
        PatternView::Variant { tag, .. } => lemma_word(tag as int),
        PatternView::ByteLit { value, .. } => lemma_word(value as int),
        PatternView::BoolLit { .. } => {
            lemma_word(0);
            lemma_word(1);
        },
        PatternView::Wildcard { .. } => {},
    }
}

/// The test of an arm: into its body if it takes the value, and else on to the
/// next arm.
pub proof fn lemma_arm_test(
    ops: Seq<Op>,
    m: Machine,
    st: LowView,
    key: usize,
    p: PatternView,
    x: u64,
    r: int,
)
    requires
        pattern_const(p) is Some,
        begins(ops, arm_head(st, key, p)),
        runnable(ops),
        st.f.ops.len() + 5 <= usize::MAX,
        ready(ops, m, st),
        key < st.f.ops.len(),
        m.vals[key as int] == x,
        st.f.ops.len() + 5 <= r < ops.len(),
        ops[r] == Op::SwitchTo(arm_other(st, key, p)),
        forall|i: int| st.f.ops.len() + 5 <= i < r ==> #[trigger] ops[i] != Op::SwitchTo(
            arm_other(st, key, p),
        ),
    ensures
        exists|m2: Machine| #[trigger]
            leads(ops, m, End::At(m2)) && kept(m2, m, st.f.ops.len() as int) && m2.at == (if takes(
                p,
                x,
            ) {
                st.f.ops.len() as int + 5
            } else {
                r + 1
            }),
{
    let n = st.f.ops.len() as int;
    let head = arm_head(st, key, p);
    let c = pattern_const(p)->0;
    let (yes, no) = ((n + 1) as usize, (n + 2) as usize);
    assert(ops[n] == head.f.ops[n] && ops[n + 1] == head.f.ops[n + 1] && ops[n + 2]
        == head.f.ops[n + 2] && ops[n + 3] == head.f.ops[n + 3] && ops[n + 4] == head.f.ops[n
        + 4]);
    assert(ops[n] == Op::CompareImm(IntCC::Equal, key, c));
    assert(ops[n + 3] == Op::Brif(n as usize, yes, no) && ops[n + 4] == Op::SwitchTo(yes));
    assert(arm_other(st, key, p) == no);
    lemma_const(p);
    let hit = takes(p, x);
    assert(compare_result(IntCC::Equal, x, word(c as int)) == hit);
    let t = truth(hit);
    let m1 = Machine { at: n + 1, vals: m.vals.insert(n, t), ..m };
    assert(step(ops, m) == Some(End::At(m1)));
    lemma_leads_step(ops, m, End::At(m1));
    lemma_blocks(ops, m1, 2);
    let m2 = Machine { at: n + 3, ..m1 };
    lemma_leads_on(ops, m, m1, End::At(m2));
    lemma_start(ops, yes, n + 4);
    lemma_start(ops, no, r);
    let j = if hit {
        n + 4
    } else {
        r
    };
    lemma_branch(ops, m2, n as usize, yes, no, j);
    let m3 = Machine { at: j + 1, ..m2 };
    lemma_leads_on(ops, m, m2, End::At(m3));
    assert(kept(m3, m, n));
}

/// The arms from index `i` on, none before having taken the value.
#[verifier::rlimit(40)]
proof fn lemma_choices(
    ops: Seq<Op>,
    m: Machine,
    env: LowEnv,
    st: LowView,
    arms: Seq<(PatternView, ExprView)>,
    i: nat,
    ty: TypeView,
    key: usize,
    merge: usize,
    line: u32,
    base: LowView,
    end: LowView,
    j: int,
    v: usize,
    t: TypeView,
    locals: Names,
    vars: Vars,
    x: u64,
)
    requires
        i < arms.len(),
        no_variants(arms),
        scalar_choices(arms, t, locals),
        exists|k: int| i <= k < arms.len() && takes((#[trigger] arms[k]).0, x),
        suits(locals, env),
        choice_codes(env, st, arms, i, ty, key, merge, line) is Ok,
        begins(ops, choice_codes(env, st, arms, i, ty, key, merge, line)->Ok_0),
        runnable(ops),
        ready(ops, m, st),
        key < st.f.ops.len(),
        m.vals[key as int] == x,
        holds_values(vars, locals),
        holds_words(m, vars, locals),
        base.f.ops.len() <= merge < st.f.ops.len() <= j,
        j + 1 < ops.len(),
        ops[j] == Op::SwitchTo(merge),
        ops[j + 1] == Op::BlockParam(merge),
        start_from(ops, merge, 0) == Some(j),
        end.f.ops.len() == j + 2,
        v == j + 1,
    ensures
        computes(ops, m, base, end, v, eval_choices(arms, i, x, vars)),
    decreases arms, arms.len() - i,
{
    let p = arms[i as int].0;
    let all = choice_codes(env, st, arms, i, ty, key, merge, line)->Ok_0;
    assert(all.f.ops.len() <= usize::MAX);
    lemma_choice_codes(env, st, arms, i, ty, key, merge, line);
    lemma_choices_grow(env, st, arms, i, ty, key, merge, line, t, locals);
    lemma_choices_code(env, st, arms, i, ty, key, merge, line, t, locals);
    let start = choice_start(st, arms, i, key);
    let (s3, y) = choice_value(env, st, arms, i, key);
    let nx = choice_next(env, st, arms, i, key, merge);
    let last = i + 1 == arms.len();
    lemma_begins(ops, all, s3);
    lemma_begins(ops, s3, start);
    let q = s3.f.ops.len() as int;
    assert(ops[q] == all.f.ops[q]);
    let n = st.f.ops.len() as int;
    let hit = takes(p, x);
    let ev = eval_choices(arms, i, x, vars);
    let m1 = if last {
        assert(hit) by {
            let k = choose|k: int| i <= k < arms.len() && takes((#[trigger] arms[k]).0, x);
            assert(k == i);
        }
        lemma_leads_here(ops, m);
        m
    } else {
        lemma_begins(ops, all, nx);
        let r = nx.f.ops.len() - 1;
        assert(ops[r] == nx.f.ops[r]);
        assert forall|k: int| n + 5 <= k < r implies #[trigger] ops[k] != Op::SwitchTo(
            arm_other(st, key, p),
        ) by {
            assert(ops[k] == nx.f.ops[k]);
            if k < q {
                assert(nx.f.ops[k] == s3.f.ops[k]);
            }
        }
        lemma_arm_test(ops, m, st, key, p, x, r);
        choose|m2: Machine| #[trigger]
            leads(ops, m, End::At(m2)) && kept(m2, m, n) && m2.at == (if takes(p, x) {
                n + 5
            } else {
                r + 1
            })
    };
    assert(framed(m1, m, base.f.ops.len() as int));
    assert(holds_words(m1, vars, locals));
    assert(scalar_expr(arms[i as int].1, locals));
    if hit {
        law_expression(ops, m1, env, start, arms[i as int].1, locals, vars);
        lemma_merge(ops, m1, start, s3, y, ev, merge, j - 1, base, end, v);
    } else {
        assert(exists|k: int| i + 1 <= k < arms.len() && takes((#[trigger] arms[k]).0, x)) by {
            let k = choose|k: int| i <= k < arms.len() && takes((#[trigger] arms[k]).0, x);
            assert(k != i);
        }
        lemma_choices(
            ops,
            m1,
            env,
            nx,
            arms,
            i + 1,
            ty,
            key,
            merge,
            line,
            base,
            end,
            j,
            v,
            t,
            locals,
            vars,
            x,
        );
    }
    lemma_then(ops, m, m1, base, base, end, v, ev);
}

/// The match: the first arm that takes the value, and only it, runs.
proof fn lemma_choice(
    ops: Seq<Op>,
    m: Machine,
    env: LowEnv,
    st: LowView,
    e: ExprView,
    locals: Names,
    vars: Vars,
)
    requires
        e.kind is Match,
        scalar_expr(e, locals),
        suits(locals, env),
        gen_scalar(env, st, e) is Ok,
        begins(ops, gen_scalar(env, st, e)->Ok_0.0),
        runnable(ops),
        ready(ops, m, st),
        holds_values(vars, locals),
        holds_words(m, vars, locals),
    ensures
        computes(
            ops,
            m,
            st,
            gen_scalar(env, st, e)->Ok_0.0,
            gen_scalar(env, st, e)->Ok_0.1,
            eval(e, vars),
        ),
    decreases e, 0int,
{
    let scrutinee = *e.kind->Match_scrutinee;
    let arms = e.kind->Match_arms;
    lemma_match_parts(env, st, e, locals);
    lemma_no_variants(e, locals);
    lemma_choice_patterns(arms);
    let (s, v) = gen_scalar(env, st, e)->Ok_0;
    let (s1, key) = gen_scalar(env, st, scrutinee)->Ok_0;
    let s2 = put(s1, Op::BlockOf(crate::lower::abi(e.ty)));
    let merge = next(s1);
    let s3 = choice_codes(env, s2, arms, 0, scrutinee.ty, key, merge, e.line)->Ok_0;
    lemma_choices_grow(env, s2, arms, 0, scrutinee.ty, key, merge, e.line, e.ty, locals);
    lemma_code(env, st, scrutinee, locals);
    lemma_choices_code(env, s2, arms, 0, scrutinee.ty, key, merge, e.line, e.ty, locals);
    let p = s1.f.ops.len() as int;
    let j = s3.f.ops.len() as int;
    lemma_begins(ops, s, s3);
    lemma_begins(ops, s3, s2);
    lemma_begins(ops, s2, s1);
    assert(ops[p] == s2.f.ops[p]);
    assert(ops[j] == s.f.ops[j] && ops[j + 1] == s.f.ops[j + 1]);
    assert forall|i: int| merge < i < j implies #[trigger] ops[i] != Op::SwitchTo(merge) by {
        assert(ops[i] == s3.f.ops[i]);
    }
    lemma_start(ops, merge, j);
    law_eval_keeps_types(scrutinee, locals, vars);
    law_expression(ops, m, env, st, scrutinee, locals, vars);
    if let Eval::Value(x, w1) = eval(scrutinee, vars) {
        let m1 = after(ops, m, st, s1, key, x, w1);
        let m2 = Machine { at: p + 1, ..m1 };
        assert(step(ops, m1) == Some(End::At(m2)));
        lemma_leads_step(ops, m1, End::At(m2));
        assert(framed(m2, m1, p));
        let k = choose|k: int|
            0 <= k < arms.len() && takes(#[trigger] expr_patterns(arms)[k], word(x));
        assert(takes(arms[k].0, word(x)));
        lemma_choices(
            ops,
            m2,
            env,
            s2,
            arms,
            0,
            scrutinee.ty,
            key,
            merge,
            e.line,
            s1,
            s,
            j,
            v,
            e.ty,
            locals,
            vars.at(w1),
            word(x),
        );
        lemma_then(ops, m1, m2, s1, s1, s, v, eval(e, vars));
        lemma_then(ops, m, m1, st, s1, s, v, eval(e, vars));
    }
}

} // verus!
