//! What statements do, over memory.
use vstd::prelude::*;

use crate::ast::{BinOp, BlockView, ExprKindView, ExprView, PatternView, StmtView, VarRes};
use crate::evaluate::{bindings, eval, key_of, lift, pair_of, worth, Eval, Vars};
use crate::ir::Rt;
use crate::lower::{is_comparison, place};
use crate::matching::takes;
use crate::memory::{array_len, beyond, element, put_value, read, World};
use crate::objects::{combined, element_of, fields_of, is_value, kind_of, Reply};
use crate::types::{IntKind, TypeView};

verus! {

/// How a statement ends, with the variables and the world that it leaves; or
/// that it is not finished after so many turns of its loops.
pub enum Exec {
    Next(Vars),
    Break(Vars),
    Continue(Vars),
    Return(Option<int>, World),
    Panic(Rt, u32, World),
    Unfinished,
}

/// What stops where an expression has no value.
pub open spec fn stopped(ev: Eval) -> Exec {
    match ev {
        Eval::Panic(rt, line, w) => Exec::Panic(rt, line, w),
        _ => Exec::Unfinished,
    }
}

/// What evaluating leaves, the value aside.
pub open spec fn dropped(ev: Eval) -> Exec {
    match ev {
        Eval::Value(_, vars) => Exec::Next(vars),
        Eval::Nothing(vars) => Exec::Next(vars),
        Eval::Panic(rt, line, w) => Exec::Panic(rt, line, w),
        Eval::Unfinished => Exec::Unfinished,
    }
}

/// What the operator of a compound assignment gives.
pub open spec fn compound(op: BinOp, t: TypeView, x: int, y: int, line: u32, w: World) -> Reply {
    if is_comparison(op) {
        Reply::Unfinished
    } else {
        combined(op, t, x, y, line, w)
    }
}

// -- Assignments ------------------------------------------------------------

/// A local variable takes the value that was computed.
pub open spec fn set_local(i: int, ev: Eval) -> Exec {
    match ev {
        Eval::Value(x, vars) => Exec::Next(vars.insert(i, x)),
        other => stopped(other),
    }
}

/// A field takes the value that an operation replied.
pub open spec fn set_field(ty: TypeView, a: int, r: Reply, vars: Vars) -> Exec {
    match r {
        Reply::Value(x, w) => if is_value(ty) {
            Exec::Next(vars.at(put_value(w, ty, a, x)))
        } else {
            Exec::Unfinished
        },
        Reply::Panic(rt, line, w) => Exec::Panic(rt, line, w),
        _ => Exec::Unfinished,
    }
}

/// An element of an array takes the value, if there is such an element.
pub open spec fn set_element(
    ty: TypeView,
    a: int,
    k: IntKind,
    i: int,
    r: Reply,
    line: u32,
    vars: Vars,
) -> Exec {
    match r {
        Reply::Value(x, w) => {
            let n = array_len(w, a);
            if n >= 0x8000_0000_0000_0000 || !k.holds(i) || !is_value(ty) {
                Exec::Unfinished
            } else if !(0 <= i < n) {
                Exec::Panic(Rt::PanicBounds, line, w)
            } else {
                Exec::Next(vars.at(put_value(w, ty, element(w, a, i, ty.storage() as nat), x)))
            }
        },
        Reply::Panic(rt, line, w) => Exec::Panic(rt, line, w),
        _ => Exec::Unfinished,
    }
}

/// Assignment to a local variable. A compound one reads the variable first.
pub open spec fn assign_local(s: StmtView, i: u32, vars: Vars) -> Exec {
    match s->Assign_op {
        None => set_local(i as int, worth(eval(s->Assign_value, vars))),
        Some(op) => match worth(eval(s->Assign_value, vars)) {
            Eval::Value(y, vars1) => set_local(
                i as int,
                lift(
                    vars1,
                    compound(
                        op,
                        s->Assign_target.ty,
                        vars.vals[i as int],
                        y,
                        s->Assign_line,
                        vars1.world,
                    ),
                ),
            ),
            other => stopped(other),
        },
    }
}

/// Assignment to a field: the value, and then the object. A compound one
/// evaluates the object once, and reads the field before the right-hand side.
pub open spec fn assign_field(s: StmtView, vars: Vars) -> Exec {
    let target = s->Assign_target;
    let obj = *target.kind->Field_obj;
    let index = target.kind->Field_index;
    let ts = fields_of(vars.env().checked, obj.ty);
    let ty = ts[index as int];
    match s->Assign_op {
        None => match pair_of(s->Assign_value, obj, vars) {
            Ok(p) => set_field(
                ty,
                beyond(p.1, place(ts, index) as int),
                Reply::Value(p.0, p.2.world),
                p.2,
            ),
            Err(ev) => stopped(ev),
        },
        Some(op) => match worth(eval(obj, vars)) {
            Eval::Value(o, vars1) => {
                let a = beyond(o, place(ts, index) as int);
                match read(vars1.world, ty, a) {
                    None => Exec::Unfinished,
                    Some(x) => match worth(eval(s->Assign_value, vars1)) {
                        Eval::Value(y, vars2) => set_field(
                            ty,
                            a,
                            compound(op, target.ty, x, y, s->Assign_line, vars2.world),
                            vars2,
                        ),
                        other => stopped(other),
                    },
                }
            },
            other => stopped(other),
        },
    }
}

/// Assignment to an element: the value, the array and the index. A compound one
/// evaluates array and index once, but looks for the element again after its
/// right-hand side, which may have changed the array.
pub open spec fn assign_element(s: StmtView, vars: Vars) -> Exec {
    let target = s->Assign_target;
    let arr = *target.kind->Index_0;
    let idx = *target.kind->Index_1;
    let ty = *arr.ty->Array_0;
    let k = kind_of(idx.ty);
    let line = s->Assign_line;
    match s->Assign_op {
        None => match worth(eval(s->Assign_value, vars)) {
            Eval::Value(x, vars1) => match pair_of(arr, idx, vars1) {
                Ok(p) => set_element(ty, p.0, k, p.1, Reply::Value(x, p.2.world), line, p.2),
                Err(ev) => stopped(ev),
            },
            other => stopped(other),
        },
        Some(op) => match pair_of(arr, idx, vars) {
            Ok(p) => match element_of(arr.ty, ty, p.0, k, p.1, line, p.2.world) {
                Reply::Value(x, _) => match worth(eval(s->Assign_value, p.2)) {
                    Eval::Value(y, vars2) => set_element(
                        ty,
                        p.0,
                        k,
                        p.1,
                        compound(op, ty, x, y, line, vars2.world),
                        line,
                        vars2,
                    ),
                    other => stopped(other),
                },
                Reply::Panic(rt, at, w) => Exec::Panic(rt, at, w),
                _ => Exec::Unfinished,
            },
            Err(ev) => stopped(ev),
        },
    }
}

pub open spec fn assign(s: StmtView, vars: Vars) -> Exec {
    match s->Assign_target.kind {
        ExprKindView::Var { res, .. } => match res {
            Some(VarRes::Local(i)) => assign_local(s, i, vars),
            _ => Exec::Unfinished,
        },
        ExprKindView::Field { .. } => assign_field(s, vars),
        ExprKindView::Index(_, _) => assign_element(s, vars),
        _ => Exec::Unfinished,
    }
}

/// A return, with its value if it has one.
pub open spec fn give_back(value: Option<ExprView>, vars: Vars) -> Exec {
    match value {
        None => Exec::Return(None, vars.world),
        Some(v) => match worth(eval(v, vars)) {
            Eval::Value(x, vars1) => Exec::Return(Some(x), vars1.world),
            other => stopped(other),
        },
    }
}

// -- Statements -------------------------------------------------------------

/// What a statement does; its loops make at most `fuel` turns each.
#[verifier::opaque]
pub open spec fn exec_stmt(s: StmtView, vars: Vars, fuel: nat) -> Exec
    decreases fuel, s, 4int,
{
    match s {
        StmtView::Let { init, local, .. } => set_local(local as int, worth(eval(init, vars))),
        StmtView::Assign { .. } => assign(s, vars),
        StmtView::Expr(e) => dropped(eval(e, vars)),
        StmtView::If { .. } => exec_if(s, vars, fuel),
        StmtView::While { .. } => exec_loop(s, vars, fuel),
        StmtView::For { .. } => exec_for(s, vars, fuel),
        StmtView::Return { value, .. } => give_back(value, vars),
        StmtView::Break(_) => Exec::Break(vars),
        StmtView::Continue(_) => Exec::Continue(vars),
        StmtView::Block(b) => exec_stmts(b.stmts, 0, vars, fuel),
        StmtView::Match { .. } => exec_match(s, vars, fuel),
    }
}

/// Only the branch that is taken runs.
pub open spec fn exec_if(s: StmtView, vars: Vars, fuel: nat) -> Exec
    decreases fuel, s, 3int,
{
    match s {
        StmtView::If { cond, then, els } => match worth(eval(cond, vars)) {
            Eval::Value(x, vars1) => if x == 1 {
                exec_stmts(then.stmts, 0, vars1, fuel)
            } else if x == 0 {
                match els {
                    Some(b) => exec_stmts(b.stmts, 0, vars1, fuel),
                    None => Exec::Next(vars1),
                }
            } else {
                Exec::Unfinished
            },
            other => stopped(other),
        },
        _ => Exec::Unfinished,
    }
}

/// The beginning of a `for` loop, and its turns.
pub open spec fn exec_for(s: StmtView, vars: Vars, fuel: nat) -> Exec
    decreases fuel, s, 3int,
{
    match s {
        StmtView::For { init, .. } => match init {
            None => exec_loop(s, vars, fuel),
            Some(i) => match exec_stmt(*i, vars, fuel) {
                Exec::Next(vars1) => exec_loop(s, vars1, fuel),
                other => other,
            },
        },
        _ => Exec::Unfinished,
    }
}

/// The first arm that takes the value.
pub open spec fn exec_match(s: StmtView, vars: Vars, fuel: nat) -> Exec
    decreases fuel, s, 3int,
{
    match s {
        StmtView::Match { scrutinee, arms, .. } => match worth(eval(scrutinee, vars)) {
            Eval::Value(x, vars1) => exec_arms(
                arms,
                0,
                scrutinee.ty,
                x,
                key_of(scrutinee.ty, x, vars1.world),
                vars1,
                fuel,
            ),
            other => stopped(other),
        },
        _ => Exec::Unfinished,
    }
}

/// The first arm from index `i` on that takes the key, with the payload in its
/// variables. The arms of a match leave no value out.
pub open spec fn exec_arms(
    arms: Seq<(PatternView, BlockView)>,
    i: nat,
    t: TypeView,
    x: int,
    key: u64,
    vars: Vars,
    fuel: nat,
) -> Exec
    decreases fuel, arms, arms.len() - i,
{
    if i >= arms.len() {
        Exec::Unfinished
    } else if takes(arms[i as int].0, key) {
        match bindings(arms[i as int].0, t, x, vars) {
            None => Exec::Unfinished,
            Some(vars1) => exec_stmts(arms[i as int].1.stmts, 0, vars1, fuel),
        }
    } else {
        exec_arms(arms, i + 1, t, x, key, vars, fuel)
    }
}

/// The statements from index `i` on, one after the other.
pub open spec fn exec_stmts(ss: Seq<StmtView>, i: nat, vars: Vars, fuel: nat) -> Exec
    decreases fuel, ss, ss.len() - i,
{
    if i >= ss.len() {
        Exec::Next(vars)
    } else {
        match exec_stmt(ss[i as int], vars, fuel) {
            Exec::Next(vars1) => exec_stmts(ss, i + 1, vars1, fuel),
            other => other,
        }
    }
}

/// Whether a loop makes another turn: one if it does, and zero if not. A loop
/// without a condition does.
pub open spec fn goes_round(s: StmtView, vars: Vars) -> Eval {
    match s {
        StmtView::While { cond, .. } => worth(eval(cond, vars)),
        StmtView::For { cond, .. } => match cond {
            Some(c) => worth(eval(c, vars)),
            None => Eval::Value(1, vars),
        },
        _ => Eval::Unfinished,
    }
}

/// A loop whose beginning has run: as long as the condition holds, the body
/// and then the step.
pub open spec fn exec_loop(s: StmtView, vars: Vars, fuel: nat) -> Exec
    decreases fuel, s, 2int,
{
    if fuel == 0 {
        Exec::Unfinished
    } else {
        match goes_round(s, vars) {
            Eval::Value(x, vars1) => if x == 0 {
                Exec::Next(vars1)
            } else if x == 1 {
                match s {
                    StmtView::While { body, .. } => after_turn(
                        s,
                        exec_stmts(body.stmts, 0, vars1, fuel),
                        fuel,
                    ),
                    StmtView::For { body, .. } => after_turn(
                        s,
                        exec_stmts(body.stmts, 0, vars1, fuel),
                        fuel,
                    ),
                    _ => Exec::Unfinished,
                }
            } else {
                Exec::Unfinished
            },
            other => stopped(other),
        }
    }
}

/// What follows a turn of a loop: its step and the next turn, unless the turn
/// left the loop.
pub open spec fn after_turn(s: StmtView, turn: Exec, fuel: nat) -> Exec
    decreases fuel, s, 1int,
{
    if fuel == 0 {
        Exec::Unfinished
    } else {
        match turn {
            Exec::Break(vars) => Exec::Next(vars),
            Exec::Next(vars) => step_on(s, vars, fuel),
            Exec::Continue(vars) => step_on(s, vars, fuel),
            other => other,
        }
    }
}

/// The step of a loop, and its next turn.
pub open spec fn step_on(s: StmtView, vars: Vars, fuel: nat) -> Exec
    decreases fuel, s, 0int,
{
    if fuel == 0 {
        Exec::Unfinished
    } else {
        match s {
            StmtView::For { step, .. } => match step {
                None => exec_loop(s, vars, (fuel - 1) as nat),
                Some(t) => match exec_stmt(*t, vars, fuel) {
                    Exec::Next(vars1) => exec_loop(s, vars1, (fuel - 1) as nat),
                    other => other,
                },
            },
            _ => exec_loop(s, vars, (fuel - 1) as nat),
        }
    }
}

} // verus!
