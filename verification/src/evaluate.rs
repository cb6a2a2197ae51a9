//! What expressions mean, and that the code they are lowered to computes just
//! that.
use vstd::prelude::*;

use crate::ast::{
    Builtin, CaptureView, ExprKindView, ExprView, PatArgsView, PatBinderView, PatternView, UnOp,
    VarRes, VariantArgsView,
};
use crate::floats::{flipped, float_of_text, lands_in, nearest_float, whole};
use crate::ir::Rt;
use crate::lower::{
    find_bare, find_inst, find_lambda, place, shapes_of, string_data, struct_types, variant_types,
    GenView, LowEnv,
};
use crate::machine::{converted, decode, modulus, operate_one, standing, word, Layout};
use crate::matching::takes;
use crate::memory::{
    aux, beyond, fetch, new_array, new_object, pushed, put_value, read, store, World,
};
use crate::objects::{
    at_line, built, combined, element_of, fields_of, found, is_value, kind_of, room_for,
    truth_value, Reply,
};
use crate::types::{layout_size, TypeView};
use crate::writing::symbol_of;

verus! {

// -- The language -----------------------------------------------------------

/// What calls give, by symbol, arguments and the world before.
pub type Calls = spec_fn(usize, Seq<int>, World) -> Reply;

pub open spec fn answer(calls: Calls, f: usize, xs: Seq<int>, w: World) -> Reply {
    calls(f, xs, w)
}

/// What the names in a body refer to: the functions and lambdas around it, the
/// unit that holds them, where that stands in memory, what calls give, and the
/// texts of the floating-point numbers in it.
pub struct Setting {
    pub env: LowEnv,
    pub g: GenView,
    pub layout: Layout,
    pub calls: Calls,
    pub floats: Seq<Seq<char>>,
}

impl Setting {
    /// The address of the data object with this number.
    pub open spec fn data(self, id: usize) -> int {
        standing(self.layout, self.g.datas[id as int]) as int
    }
}

/// The variables of a body, by number, and the world around it. The variable
/// behind the locals holds the closure whose body this is.
pub struct Vars {
    pub vals: Map<int, int>,
    pub world: World,
    pub around: Setting,
}

impl Vars {
    #[verifier::inline]
    pub open spec fn insert(self, i: int, x: int) -> Vars {
        Vars { vals: self.vals.insert(i, x), ..self }
    }

    /// The same variables in another world.
    #[verifier::inline]
    pub open spec fn at(self, world: World) -> Vars {
        Vars { world, ..self }
    }

    #[verifier::inline]
    pub open spec fn env(self) -> LowEnv {
        self.around.env
    }
}

/// What an expression gives: a value or none, and the variables that it leaves;
/// a panic with its line; or that it is not finished.
pub enum Eval {
    Value(int, Vars),
    Nothing(Vars),
    Panic(Rt, u32, World),
    Unfinished,
}

/// A reply, among the variables.
pub open spec fn lift(vars: Vars, r: Reply) -> Eval {
    match r {
        Reply::Value(x, w) => Eval::Value(x, vars.at(w)),
        Reply::Nothing(w) => Eval::Nothing(vars.at(w)),
        Reply::Panic(rt, line, w) => Eval::Panic(rt, line, w),
        Reply::Unfinished => Eval::Unfinished,
    }
}

/// What an expression gives where its value is read.
pub open spec fn worth(ev: Eval) -> Eval {
    match ev {
        Eval::Nothing(_) => Eval::Unfinished,
        _ => ev,
    }
}

/// A unary operator on a value of a type.
pub open spec fn applied(op: UnOp, t: TypeView, x: int, line: u32, w: World) -> Reply {
    if op is Not {
        if t is Bool && (x == 0 || x == 1) {
            truth_value(x == 0, w)
        } else {
            Reply::Unfinished
        }
    } else if t is Float && op is Neg && 0 <= x < modulus() {
        Reply::Value(flipped(x as u64) as int, w)
    } else if t is Int && kind_of(t).holds(x) && (op is BitNot || kind_of(t).is_signed()) {
        at_line(operate_one(op, kind_of(t), x)->0, line, w)
    } else {
        Reply::Unfinished
    }
}

/// A value of a numeric type taken to another one: an integer to an integer of
/// the same value, or to the nearest floating-point number; such a number to the
/// integer that is left of it without its fraction. What the target does not
/// hold panics.
pub open spec fn cast_value(src: TypeView, dst: TypeView, x: int, line: u32, w: World) -> Reply {
    if src is Int && kind_of(src).holds(x) {
        if dst is Int {
            at_line(converted(kind_of(dst), x), line, w)
        } else if dst is Float {
            Reply::Value(nearest_float(x) as int, w)
        } else {
            Reply::Unfinished
        }
    } else if src is Float && 0 <= x < modulus() {
        if dst is Float {
            Reply::Value(x, w)
        } else if dst is Int {
            if lands_in(kind_of(dst), x as u64) {
                Reply::Value(whole(x as u64), w)
            } else {
                Reply::Panic(Rt::PanicCast, line, w)
            }
        } else {
            Reply::Unfinished
        }
    } else {
        Reply::Unfinished
    }
}

/// The value of a type that a whole word stands for.
pub open spec fn word_value(ty: TypeView, raw: u64) -> int {
    match ty {
        TypeView::Int(k) => decode(k, raw),
        _ => raw as int,
    }
}

/// Where a closure holds a captured variable: behind its code.
pub open spec fn slot(a: int, i: int) -> int {
    beyond(a, 24 + 8 * i)
}

/// The value of a captured variable.
pub open spec fn captured_value(i: u32, ty: TypeView, vars: Vars) -> Option<int> {
    Some(
        word_value(
            ty,
            fetch(vars.world.mem, slot(vars.vals[vars.env().locals as int], i as int), 8) as u64,
        ),
    )
}

/// The value of a name.
pub open spec fn named(res: Option<VarRes>, ty: TypeView, vars: Vars) -> Option<int> {
    match res {
        Some(VarRes::Local(i)) => Some(vars.vals[i as int]),
        Some(VarRes::Captured(i)) => captured_value(i, ty, vars),
        Some(VarRes::Func(f)) => Some(vars.around.data(vars.env().fnvals[f as int]->0)),
        None => None,
    }
}

/// The world with a word put into an object.
pub open spec fn put_slot(w: World, a: int, x: int) -> World {
    World { mem: store(w.mem, a, 8, word(x) as nat), ..w }
}

/// The captures from index `i` on, put into a closure by value.
pub open spec fn fill(a: int, cs: Seq<CaptureView>, i: nat, vars: Vars) -> Eval
    decreases cs.len() - i,
{
    if i >= cs.len() {
        Eval::Value(a, vars)
    } else {
        match named(Some(cs[i as int].src), cs[i as int].ty, vars) {
            None => Eval::Unfinished,
            Some(x) => fill(a, cs, i + 1, vars.at(put_slot(vars.world, slot(a, i as int), x))),
        }
    }
}

/// A closure of a function's code and captured variables.
pub open spec fn closed_over(f: usize, size: nat, cs: Seq<CaptureView>, vars: Vars) -> Eval {
    match new_object(vars.world, size, 0) {
        None => Eval::Unfinished,
        Some((a, w)) => fill(
            a,
            cs,
            0,
            vars.at(put_slot(w, beyond(a, 16), (vars.around.layout.code)(f) as int)),
        ),
    }
}

/// A closure of a method's code and its receiver.
pub open spec fn bound(f: usize, x: int, vars: Vars) -> Eval {
    match new_object(vars.world, 16, 0) {
        None => Eval::Unfinished,
        Some((a, w)) => {
            let w1 = put_slot(w, beyond(a, 16), (vars.around.layout.code)(f) as int);
            Eval::Value(a, vars.at(put_slot(w1, slot(a, 0), x)))
        },
    }
}

/// What a call gives, if it gives a value just where its type has one.
pub open spec fn replied(r: Reply, ty: TypeView, vars: Vars) -> Eval {
    if r is Value && ty is Unit || r is Nothing && !(ty is Unit) {
        Eval::Unfinished
    } else {
        lift(vars, r)
    }
}

/// A part of a matched variant is bound to a local variable.
pub open spec fn bind(b: PatBinderView, ts: Seq<TypeView>, index: u32, x: int, vars: Vars) -> Option<Vars> {
    match read(vars.world, b.ty, beyond(x, place(ts, index) as int)) {
        None => None,
        Some(y) => Some(vars.insert(b.local as int, y)),
    }
}

pub open spec fn bind_all(
    fs: Seq<(Seq<char>, PatBinderView, u32)>,
    ts: Seq<TypeView>,
    i: nat,
    x: int,
    vars: Vars,
) -> Option<Vars>
    decreases fs.len() - i,
{
    if i >= fs.len() {
        Some(vars)
    } else {
        match bind(fs[i as int].1, ts, fs[i as int].2, x, vars) {
            None => None,
            Some(vars1) => bind_all(fs, ts, i + 1, x, vars1),
        }
    }
}

/// The payload of the value that a pattern took is bound to its variables.
pub open spec fn bindings(p: PatternView, t: TypeView, x: int, vars: Vars) -> Option<Vars> {
    match p {
        PatternView::Variant { args, tag, .. } => {
            let ts = variant_types(vars.env().checked, t->Enum_0, t->Enum_1, tag);
            match args {
                PatArgsView::Bare => Some(vars),
                PatArgsView::Single(b) => bind(b, ts, 0, x, vars),
                PatArgsView::Fields(fs) => bind_all(fs, ts, 0, x, vars),
            }
        },
        _ => Some(vars),
    }
}

/// What patterns are compared with: an enum's tag, or the value itself.
pub open spec fn key_of(t: TypeView, x: int, w: World) -> u64 {
    if t is Enum {
        aux(w, x) as u64
    } else {
        word(x)
    }
}

/// The values of the expressions from index `i` on, from the left to the
/// right; or what the first of them gives that has no value.
pub open spec fn eval_args(es: Seq<ExprView>, i: nat, vars: Vars, acc: Seq<int>) -> Result<
    (Seq<int>, Vars),
    Eval,
>
    decreases es, es.len() - i,
{
    if i >= es.len() {
        Ok((acc, vars))
    } else {
        match worth(eval(es[i as int], vars)) {
            Eval::Value(x, vars1) => eval_args(es, i + 1, vars1, acc.push(x)),
            other => Err(other),
        }
    }
}

/// The elements from index `i` on are appended to a new array.
pub open spec fn eval_elems(ty: TypeView, a: int, es: Seq<ExprView>, i: nat, vars: Vars) -> Eval
    decreases es, es.len() - i,
{
    if i >= es.len() {
        Eval::Value(a, vars)
    } else {
        match worth(eval(es[i as int], vars)) {
            Eval::Value(x, vars1) => match pushed(vars1.world, a, word(x), ty.storage() as nat) {
                Some(w) => eval_elems(ty, a, es, i + 1, vars1.at(w)),
                None => Eval::Unfinished,
            },
            other => other,
        }
    }
}

/// The fields from index `i` on are put into a new object, in source order.
pub open spec fn eval_inits(
    ts: Seq<TypeView>,
    a: int,
    fs: Seq<(Seq<char>, ExprView, u32)>,
    i: nat,
    vars: Vars,
) -> Eval
    decreases fs, fs.len() - i,
{
    if i >= fs.len() {
        Eval::Value(a, vars)
    } else {
        let k = fs[i as int].2;
        match worth(eval(fs[i as int].1, vars)) {
            Eval::Value(x, vars1) => if is_value(ts[k as int]) {
                eval_inits(
                    ts,
                    a,
                    fs,
                    i + 1,
                    vars1.at(
                        put_value(vars1.world, ts[k as int], beyond(a, place(ts, k) as int), x),
                    ),
                )
            } else {
                Eval::Unfinished
            },
            other => other,
        }
    }
}

/// The value of the first arm from index `i` on that takes the key, with the
/// payload bound to its variables. The arms of a match leave no value out.
pub open spec fn eval_choices(
    arms: Seq<(PatternView, ExprView)>,
    i: nat,
    t: TypeView,
    x: int,
    key: u64,
    vars: Vars,
) -> Eval
    decreases arms, arms.len() - i,
{
    if i >= arms.len() {
        Eval::Unfinished
    } else if takes(arms[i as int].0, key) {
        match bindings(arms[i as int].0, t, x, vars) {
            None => Eval::Unfinished,
            Some(vars1) => worth(eval(arms[i as int].1, vars1)),
        }
    } else {
        eval_choices(arms, i + 1, t, x, key, vars)
    }
}

/// Unary operators, casts and field reads.
pub open spec fn eval_one(e: ExprView, vars: Vars) -> Eval
    decreases e, 8int,
{
    let checked = vars.env().checked;
    match e.kind {
        ExprKindView::Unary(op, sub) => match worth(eval(*sub, vars)) {
            Eval::Value(x, vars1) => lift(vars1, applied(op, sub.ty, x, e.line, vars1.world)),
            other => other,
        },
        ExprKindView::Cast(sub, _) => match worth(eval(*sub, vars)) {
            Eval::Value(x, vars1) => lift(
                vars1,
                cast_value(sub.ty, e.ty, x, e.line, vars1.world),
            ),
            other => other,
        },
        ExprKindView::Field { obj, index, .. } => match worth(eval(*obj, vars)) {
            Eval::Value(x, vars1) => lift(
                vars1,
                found(
                    read(
                        vars1.world,
                        e.ty,
                        beyond(x, place(fields_of(checked, obj.ty), index) as int),
                    ),
                    vars1.world,
                ),
            ),
            other => other,
        },
        _ => Eval::Unfinished,
    }
}

/// Operators on two operands; the logical ones evaluate the second where the
/// first does not decide.
pub open spec fn eval_binary(e: ExprView, vars: Vars) -> Eval
    decreases e, 8int,
{
    match e.kind {
        ExprKindView::Binary(op, l, r) => match worth(eval(*l, vars)) {
            Eval::Value(x, vars1) => if op is And || op is Or {
                if x != 0 && x != 1 {
                    Eval::Unfinished
                } else if (x == 0) == (op is And) {
                    Eval::Value(x, vars1)
                } else {
                    worth(eval(*r, vars1))
                }
            } else {
                match worth(eval(*r, vars1)) {
                    Eval::Value(y, vars2) => if l.ty == r.ty {
                        lift(vars2, combined(op, l.ty, x, y, e.line, vars2.world))
                    } else {
                        Eval::Unfinished
                    },
                    other => other,
                }
            },
            other => other,
        },
        _ => Eval::Unfinished,
    }
}

/// Only the branch that is taken is evaluated.
pub open spec fn eval_if(e: ExprView, vars: Vars) -> Eval
    decreases e, 8int,
{
    match e.kind {
        ExprKindView::If { cond, then, els } => match worth(eval(*cond, vars)) {
            Eval::Value(x, vars1) => if x == 1 {
                worth(eval(*then, vars1))
            } else if x == 0 {
                worth(eval(*els, vars1))
            } else {
                Eval::Unfinished
            },
            other => other,
        },
        _ => Eval::Unfinished,
    }
}

/// Calls, of functions by name and of closures.
pub open spec fn eval_call(e: ExprView, vars: Vars) -> Eval
    decreases e, 8int,
{
    match e.kind {
        ExprKindView::Call { callee, args, direct, inst } => match direct {
            Some(f) => match eval_args(args, 0, vars, Seq::empty()) {
                Ok((xs, vars1)) => match symbol_of(vars.env(), vars.around.g.insts, f, inst) {
                    Some(s) => replied(
                        answer(vars.around.calls, s, xs, vars1.world),
                        e.ty,
                        vars1,
                    ),
                    None => Eval::Unfinished,
                },
                Err(other) => other,
            },
            // A closure holds its code, which it is handed to itself.
            None => match worth(eval(*callee, vars)) {
                Eval::Value(c, vars1) => match eval_args(args, 0, vars1, Seq::empty()) {
                    Ok((xs, vars2)) => {
                        let code = fetch(vars2.world.mem, beyond(c, 16), 8) as u64;
                        replied(
                            answer(
                                vars.around.calls,
                                (vars.around.layout.symbol)(code),
                                seq![c] + xs,
                                vars2.world,
                            ),
                            e.ty,
                            vars2,
                        )
                    },
                    Err(other) => other,
                },
                other => other,
            },
        },
        _ => Eval::Unfinished,
    }
}

/// Builtins.
pub open spec fn eval_builtin(e: ExprView, vars: Vars) -> Eval
    decreases e, 8int,
{
    let checked = vars.env().checked;
    match e.kind {
        ExprKindView::Builtin(b, args) => if b is GcCollect {
            Eval::Nothing(vars)
        } else if args.len() == 0 {
            Eval::Unfinished
        } else {
            match worth(eval(args[0], vars)) {
                Eval::Value(x, vars1) => if b is Push {
                    if args.len() < 2 || !(args[0].ty is Array) {
                        Eval::Unfinished
                    } else {
                        match worth(eval(args[1], vars1)) {
                            Eval::Value(y, vars2) => {
                                let ty = *args[0].ty->Array_0;
                                if !is_value(ty) || !(0 <= x < modulus()) {
                                    Eval::Unfinished
                                } else {
                                    match pushed(vars2.world, x, word(y), ty.storage() as nat) {
                                        Some(w) => Eval::Nothing(vars2.at(w)),
                                        None => Eval::Unfinished,
                                    }
                                }
                            },
                            other => other,
                        }
                    }
                } else {
                    lift(vars1, built(b, args[0].ty, checked, x, e.line, vars1.world))
                },
                other => other,
            }
        },
        _ => Eval::Unfinished,
    }
}

/// Elements of strings and arrays.
pub open spec fn eval_index(e: ExprView, vars: Vars) -> Eval
    decreases e, 8int,
{
    match e.kind {
        ExprKindView::Index(obj, idx) => match worth(eval(*obj, vars)) {
            Eval::Value(a, vars1) => match worth(eval(*idx, vars1)) {
                Eval::Value(i, vars2) => lift(
                    vars2,
                    element_of(obj.ty, e.ty, a, kind_of(idx.ty), i, e.line, vars2.world),
                ),
                other => other,
            },
            other => other,
        },
        _ => Eval::Unfinished,
    }
}

/// New arrays, structs and variants.
pub open spec fn eval_literal(e: ExprView, vars: Vars) -> Eval
    decreases e, 8int,
{
    let checked = vars.env().checked;
    match e.kind {
        ExprKindView::ArrayLit(elems) => if !(e.ty is Array) || !is_value(*e.ty->Array_0)
            || elems.len() >= 0x1_0000_0000 {
            Eval::Unfinished
        } else {
            let ty = *e.ty->Array_0;
            match new_array(vars.world, ty.storage() as nat, room_for(elems.len())) {
                None => Eval::Unfinished,
                Some((a, w)) => eval_elems(ty, a, elems, 0, vars.at(w)),
            }
        },
        ExprKindView::StructLit { fields, struct_id, .. } => {
            let ts = struct_types(checked, struct_id, e.ty->Struct_1);
            match new_object(vars.world, layout_size(ts) as nat, 0) {
                None => Eval::Unfinished,
                Some((a, w)) => eval_inits(ts, a, fields, 0, vars.at(w)),
            }
        },
        ExprKindView::VariantLit { args, enum_id, tag } => {
            let ts = variant_types(checked, enum_id, e.ty->Enum_1, tag);
            match args {
                // A variant without a payload is a static object.
                VariantArgsView::Bare => match find_bare(vars.around.g.bare, enum_id, tag, 0) {
                    Some(id) => Eval::Value(vars.around.data(id), vars),
                    None => Eval::Unfinished,
                },
                VariantArgsView::Single(a) => match worth(eval(*a, vars)) {
                    Eval::Value(x, vars1) => if !is_value(ts[0]) {
                        Eval::Unfinished
                    } else {
                        match new_object(vars1.world, layout_size(ts) as nat, tag as nat) {
                            None => Eval::Unfinished,
                            Some((a, w)) => Eval::Value(
                                a,
                                vars1.at(put_value(w, ts[0], beyond(a, place(ts, 0) as int), x)),
                            ),
                        }
                    },
                    other => other,
                },
                VariantArgsView::Fields(fs) => match new_object(
                    vars.world,
                    layout_size(ts) as nat,
                    tag as nat,
                ) {
                    None => Eval::Unfinished,
                    Some((a, w)) => eval_inits(ts, a, fs, 0, vars.at(w)),
                },
            }
        },
        _ => Eval::Unfinished,
    }
}

/// The first arm that takes the value.
pub open spec fn eval_match(e: ExprView, vars: Vars) -> Eval
    decreases e, 8int,
{
    match e.kind {
        ExprKindView::Match { scrutinee, arms } => match worth(eval(*scrutinee, vars)) {
            Eval::Value(x, vars1) => eval_choices(
                arms,
                0,
                scrutinee.ty,
                x,
                key_of(scrutinee.ty, x, vars1.world),
                vars1,
            ),
            other => other,
        },
        _ => Eval::Unfinished,
    }
}

/// Lambdas and methods bound to their receivers.
pub open spec fn eval_closure(e: ExprView, vars: Vars) -> Eval
    decreases e, 8int,
{
    match e.kind {
        ExprKindView::Lambda(lam) => match find_lambda(vars.env().lams, lam.id, 0) {
            None => Eval::Unfinished,
            Some((f, d)) => closed_over(
                f,
                (vars.around.layout.size)(vars.around.data(d) as u64),
                lam.captures,
                vars,
            ),
        },
        ExprKindView::BoundMethod { obj, fid, inst } => match worth(eval(*obj, vars)) {
            Eval::Value(x, vars1) => match find_inst(vars.around.g.binds, fid, shapes_of(inst), 0) {
                None => Eval::Unfinished,
                Some(f) => bound(f, x, vars1),
            },
            other => other,
        },
        _ => Eval::Unfinished,
    }
}

/// What an expression gives, evaluated from the left to the right; the logical
/// operators, the conditional and the match evaluate only what decides.
#[verifier::opaque]
pub open spec fn eval(e: ExprView, vars: Vars) -> Eval
    decreases e, 9int,
{
    match e.kind {
        ExprKindView::Int(v) => Eval::Value(decode(kind_of(e.ty), v), vars),
        ExprKindView::Byte(v) => Eval::Value(v as int, vars),
        ExprKindView::Float(t) => Eval::Value(float_of_text(t) as int, vars),
        ExprKindView::Bool(b) => lift(vars, truth_value(b, vars.world)),
        // A literal is a static object, the same one for the same text.
        ExprKindView::Str(s) => Eval::Value(
            standing(vars.around.layout, string_data(s, 0)) as int,
            vars,
        ),
        ExprKindView::Var { res, .. } => lift(vars, found(named(res, e.ty, vars), vars.world)),
        ExprKindView::Unary(_, _) => eval_one(e, vars),
        ExprKindView::Cast(_, _) => eval_one(e, vars),
        ExprKindView::Field { .. } => eval_one(e, vars),
        ExprKindView::Binary(_, _, _) => eval_binary(e, vars),
        ExprKindView::If { .. } => eval_if(e, vars),
        ExprKindView::Call { .. } => eval_call(e, vars),
        ExprKindView::Builtin(_, _) => eval_builtin(e, vars),
        ExprKindView::Index(_, _) => eval_index(e, vars),
        ExprKindView::ArrayLit(_) => eval_literal(e, vars),
        ExprKindView::StructLit { .. } => eval_literal(e, vars),
        ExprKindView::VariantLit { .. } => eval_literal(e, vars),
        ExprKindView::Match { .. } => eval_match(e, vars),
        ExprKindView::Lambda(_) => eval_closure(e, vars),
        ExprKindView::BoundMethod { .. } => eval_closure(e, vars),
        _ => Eval::Unfinished,
    }
}

/// The values of two expressions, from the left to the right.
pub open spec fn pair_of(l: ExprView, r: ExprView, vars: Vars) -> Result<(int, int, Vars), Eval> {
    match worth(eval(l, vars)) {
        Eval::Value(a, vars1) => match worth(eval(r, vars1)) {
            Eval::Value(b, vars2) => Ok((a, b, vars2)),
            other => Err(other),
        },
        other => Err(other),
    }
}

} // verus!
