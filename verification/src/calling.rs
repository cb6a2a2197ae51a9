//! What programs of functions over integers and truth values do, functions that
//! call one another among them, and that their units do just that.
use vstd::prelude::*;

use crate::ast::{FuncDefView, ProgramView, TypeExprView};
use crate::concrete::{within_type, within_types};
use crate::scalars::{
    agree, answer, answers, fit_all, fits_type, gives, is_scalar, suits, typed, words, Calls, Eval,
    Names,
};
use crate::execute::{
    called, exec_stmts, law_always_returns, law_function, law_one_end, lemma_body_joins,
    lemma_keep_types, lemma_params_fit, params, returned, scalar_stmts, Exec,
};
use crate::ir::{BodyView, Linkage, Op, Rt};
use crate::lower::{
    bodies_sound, body_sound, compile_body, declare_func, declare_functions, declare_value,
    declared, desc, drain, lower_steps, make_sig, runtime_unit, GenView, InstKeyView, LowEnv,
    Source, KIND_STRUCT,
};
use crate::machine::{leads, Around, Called, End, Layout, Machine};
use crate::memory::{World, STACK_LIMIT};
use crate::meaning::runnable;
use crate::rules::{
    add_prelude, check_func, check_funcs, check_spec, collect, collect_funcs, empty_env, func_sig,
    CheckedView, SideView,
};
use crate::soundness::{
    all_scalar_stmts, law_checked_function, law_scheduled_function_is_lowered, lemma_more_stmts,
    locals_of, monomorphic, names_in, plain_stmts, wider,
};
use crate::types::TypeView;
use crate::typing::{any_returns, resolve_params, resolve_type, EnvView, FuncSigView};

verus! {

// -- Programs ---------------------------------------------------------------

/// The functions of a program, as the checker leaves them.
pub struct Functions {
    pub defs: Seq<FuncDefView>,
    pub sigs: Seq<FuncSigView>,
    pub locals: Seq<Seq<TypeView>>,
}

/// What a call gives when the body comes to this end.
pub open spec fn given(x: Exec) -> Eval {
    match x {
        Exec::Return(Some(v), w) => Eval::Value(v, w),
        Exec::Return(None, w) => Eval::Nothing(w),
        Exec::Next(v) => Eval::Nothing(v.world),
        Exec::Panic(rt, line, w) => Eval::Panic(rt, line, w),
        _ => Eval::Unfinished,
    }
}

/// What the call of a function in a world gives, if it is finished with calls nested no
/// deeper than `depth` and loops of no more turns. Only arguments of the
/// parameters' types have an answer.
pub open spec fn invoke(p: Functions, f: u32, xs: Seq<int>, w: World, depth: nat) -> Eval
    decreases depth, 0nat,
{
    if depth == 0 || f >= p.sigs.len() || !fit_all(p.sigs[f as int].params, xs) {
        Eval::Unfinished
    } else {
        let calls = calls_at(p, (depth - 1) as nat);
        given(exec_stmts(p.defs[f as int].body.stmts, 0, params(xs, w, calls), depth))
    }
}

pub open spec fn calls_at(p: Functions, depth: nat) -> Calls
    decreases depth, 1nat,
{
    |f: u32, xs: Seq<int>, w: World| invoke(p, f, xs, w, depth)
}

/// The first body of a symbol from index `i` on.
pub open spec fn body_of(bodies: Seq<BodyView>, func: usize, i: nat) -> Option<nat>
    decreases bodies.len() - i,
{
    if i >= bodies.len() {
        None
    } else if bodies[i as int].func == func {
        Some(i)
    } else {
        body_of(bodies, func, i + 1)
    }
}

/// What a body comes to.
pub open spec fn outcome(ops: Seq<Op>, m: Machine) -> Called {
    if exists|v: Option<u64>, w: World| leads(ops, m, #[trigger] returning(v, w)) {
        let (v, w) = choose|v: Option<u64>, w: World| leads(ops, m, #[trigger] returning(v, w));
        Called::Done(v, w)
    } else if exists|rt: Rt, line: u32, w: World| leads(ops, m, #[trigger] panicking(rt, line, w)) {
        let (rt, line, w) = choose|rt: Rt, line: u32, w: World|
            leads(ops, m, #[trigger] panicking(rt, line, w));
        Called::Panic(rt, line, w)
    } else {
        Called::Unfinished
    }
}

pub open spec fn returning(v: Option<u64>, w: World) -> End {
    End::Return(v, w)
}

pub open spec fn panicking(rt: Rt, line: u32, w: World) -> End {
    End::Panic(rt, line, w)
}

/// What a call in a unit comes to, if it is finished with calls nested no
/// deeper than `depth`. The stack is taken not to be exhausted by then.
pub open spec fn run_symbol(
    g: GenView,
    layout: Layout,
    func: usize,
    args: Seq<u64>,
    w: World,
    depth: nat,
) -> Called
    decreases depth, 0nat,
{
    if depth == 0 {
        Called::Unfinished
    } else {
        match body_of(g.bodies, func, 0) {
            None => Called::Unfinished,
            Some(i) => {
                let calls = runs_at(g, layout, (depth - 1) as nat);
                outcome(
                    g.bodies[i as int].ops,
                    called(
                        args,
                        w,
                        Around {
                            calls,
                            sp: STACK_LIMIT,
                            floats: g.bodies[i as int].floats,
                            datas: g.datas,
                            layout,
                        },
                    ),
                )
            },
        }
    }
}

pub open spec fn runs_at(g: GenView, layout: Layout, depth: nat) -> spec_fn(usize, Seq<u64>, World) -> Called
    decreases depth, 1nat,
{
    |func: usize, args: Seq<u64>, w: World| run_symbol(g, layout, func, args, w, depth)
}

// -- Units ------------------------------------------------------------------

/// The names in function `f`.
pub open spec fn names_of(p: Functions, ids: Seq<Option<usize>>, f: int) -> Names {
    Names { locals: p.locals[f], ret: p.sigs[f].ret, ids, sigs: p.sigs }
}

/// A function as the lowering takes it.
pub open spec fn function_source(p: Functions, f: int, func: usize) -> Source {
    Source {
        func,
        locals: p.locals[f],
        nparams: p.defs[f].params.len(),
        body: p.defs[f].body,
        ret: p.sigs[f].ret,
        line: p.defs[f].line,
    }
}

/// Is the function one over integers and truth values: is its body, do its
/// parameters come first among its locals, and does it give such a value on all
/// paths or none at all?
pub open spec fn is_plain(p: Functions, ids: Seq<Option<usize>>, f: int) -> bool {
    let sig = p.sigs[f];
    &&& scalar_stmts(p.defs[f].body.stmts, names_of(p, ids, f))
    &&& p.defs[f].params.len() == sig.params.len() <= usize::MAX
    &&& sig.params.len() <= p.locals[f].len()
    &&& forall|i: int|
        0 <= i < sig.params.len() ==> #[trigger] p.locals[f][i] == sig.params[i]
    &&& is_scalar(sig.ret) && any_returns(p.defs[f].body.stmts) || sig.ret is Unit
}

/// Does the unit hold what the function is lowered to?
pub open spec fn is_lowered(
    p: Functions,
    ids: Seq<Option<usize>>,
    g: GenView,
    f: int,
    env: LowEnv,
    before: GenView,
) -> bool {
    let func = ids[f]->0;
    let r = compile_body(env, before, function_source(p, f, func));
    let at = body_of(g.bodies, func, 0);
    &&& !env.lambda
    &&& suits(names_of(p, ids, f), env)
    &&& r is Ok
    &&& at is Some
    &&& g.bodies[at->0 as int].ops == r->Ok_0.bodies.last().ops
    &&& runnable(g.bodies[at->0 as int].ops)
}

/// A unit of a program of functions over integers and truth values.
pub open spec fn is_unit_of(g: GenView, p: Functions, ids: Seq<Option<usize>>) -> bool {
    &&& p.defs.len() == p.sigs.len() == p.locals.len() == ids.len()
    &&& forall|f: int|
        0 <= f < ids.len() ==> (#[trigger] ids[f]) is Some && is_plain(p, ids, f) && exists|
            env: LowEnv,
            before: GenView,
        | is_lowered(p, ids, g, f, env, before)
}

proof fn lemma_outcome(ops: Seq<Op>, m: Machine, x: Exec)
    requires
        match x {
            Exec::Return(v, w) => leads(ops, m, End::Return(returned(v), w)),
            Exec::Next(v) => leads(ops, m, End::Return(None, v.world)),
            Exec::Panic(rt, line, w) => leads(ops, m, End::Panic(rt, line, w)),
            _ => true,
        },
    ensures
        answers(outcome(ops, m), given(x)),
{
    match x {
        Exec::Return(v, w) => lemma_returns(ops, m, returned(v), w),
        Exec::Next(v) => lemma_returns(ops, m, None, v.world),
        Exec::Panic(rt, line, w) => {
            assert(leads(ops, m, panicking(rt, line, w)));
            if exists|v: Option<u64>, w: World| leads(ops, m, #[trigger] returning(v, w)) {
                let (v2, w2) = choose|v: Option<u64>, w: World|
                    leads(ops, m, #[trigger] returning(v, w));
                law_one_end(ops, m, panicking(rt, line, w), returning(v2, w2));
            }
            let (rt2, line2, w2) = choose|rt: Rt, line: u32, w: World|
                leads(ops, m, #[trigger] panicking(rt, line, w));
            law_one_end(ops, m, panicking(rt, line, w), panicking(rt2, line2, w2));
        },
        _ => {},
    }
}

pub proof fn lemma_returns(ops: Seq<Op>, m: Machine, v: Option<u64>, w: World)
    requires
        leads(ops, m, End::Return(v, w)),
    ensures
        outcome(ops, m) == Called::Done(v, w),
{
    assert(leads(ops, m, returning(v, w)));
    let (v2, w2) = choose|v: Option<u64>, w: World| leads(ops, m, #[trigger] returning(v, w));
    law_one_end(ops, m, returning(v, w), returning(v2, w2));
}

/// Calls give nothing but values of the functions' result types, and nothing
/// where these are none.
pub proof fn law_calls_keep_types(
    g: GenView,
    p: Functions,
    ids: Seq<Option<usize>>,
    f: u32,
    xs: Seq<int>,
    w: World,
    depth: nat,
)
    requires
        is_unit_of(g, p, ids),
        f < p.sigs.len(),
    ensures
        gives(invoke(p, f, xs, w, depth), p.sigs[f as int].ret),
    decreases depth,
{
    if depth > 0 && fit_all(p.sigs[f as int].params, xs) {
        let less = (depth - 1) as nat;
        let calls = calls_at(p, less);
        let names = names_of(p, ids, f as int);
        let ss = p.defs[f as int].body.stmts;
        assert(ids[f as int] is Some && is_plain(p, ids, f as int));
        assert(typed(calls, names)) by {
            assert forall|h: u32, ys: Seq<int>, v: World|
                h < names.sigs.len() && fit_all(names.sigs[h as int].params, ys) implies gives(
                #[trigger] answer(calls, h, ys, v),
                names.sigs[h as int].ret,
            ) by {
                law_calls_keep_types(g, p, ids, h, ys, v, less);
            }
        }
        lemma_params_fit(xs, w, calls, names, p.sigs[f as int].params);
        lemma_keep_types(ss, 0, names, params(xs, w, calls), depth);
        if !(p.sigs[f as int].ret is Unit) {
            law_always_returns(ss, names, params(xs, w, calls), depth);
        }
    }
}

/// A program of functions over integers and truth values does in its unit what
/// it says: the call of a function's symbol comes to the value or the panic
/// that the call of the function gives and leaves the same world, with the same
/// text printed, however deep the calls are nested.
pub proof fn law_program(
    g: GenView,
    layout: Layout,
    p: Functions,
    ids: Seq<Option<usize>>,
    f: u32,
    xs: Seq<int>,
    w: World,
    depth: nat,
)
    requires
        is_unit_of(g, p, ids),
        f < ids.len(),
    ensures
        answers(
            run_symbol(g, layout, ids[f as int]->0, words(xs), w, depth),
            invoke(p, f, xs, w, depth),
        ),
    decreases depth,
{
    if depth > 0 && fit_all(p.sigs[f as int].params, xs) {
        let less = (depth - 1) as nat;
        let calls = calls_at(p, less);
        let run = runs_at(g, layout, less);
        let names = names_of(p, ids, f as int);
        let func = ids[f as int]->0;
        assert(ids[f as int] is Some && is_plain(p, ids, f as int));
        let (env, before) = choose|env: LowEnv, before: GenView|
            is_lowered(p, ids, g, f as int, env, before);
        assert(is_lowered(p, ids, g, f as int, env, before));
        assert(typed(calls, names)) by {
            assert forall|h: u32, ys: Seq<int>, v: World|
                h < names.sigs.len() && fit_all(names.sigs[h as int].params, ys) implies gives(
                #[trigger] answer(calls, h, ys, v),
                names.sigs[h as int].ret,
            ) by {
                law_calls_keep_types(g, p, ids, h, ys, v, less);
            }
        }
        assert(agree(run, calls, names)) by {
            assert forall|h: u32, ys: Seq<int>, v: World|
                h < names.sigs.len() && h < names.ids.len() && names.ids[h as int] is Some
                    && fit_all(names.sigs[h as int].params, ys) implies answers(
                run(names.ids[h as int]->0, words(ys), v),
                #[trigger] answer(calls, h, ys, v),
            ) by {
                law_program(g, layout, p, ids, h, ys, v, less);
            }
        }
        let src = function_source(p, f as int, func);
        let at = body_of(g.bodies, func, 0)->0;
        let floats = g.bodies[at as int].floats;
        let around = Around { calls: run, sp: STACK_LIMIT, floats, datas: g.datas, layout };
        let ops = g.bodies[at as int].ops;
        let x = exec_stmts(src.body.stmts, 0, params(xs, w, calls), depth);
        assert forall|i: int| 0 <= i < xs.len() && is_scalar(#[trigger] src.locals[i]) implies
            fits_type(src.locals[i], xs[i]) by {
            assert(p.locals[f as int][i] == p.sigs[f as int].params[i]);
        }
        law_function(env, before, src, names, xs, w, around, calls, depth);
        lemma_params_fit(xs, w, calls, names, p.sigs[f as int].params);
        if !(src.ret is Unit) {
            law_always_returns(src.body.stmts, names, params(xs, w, calls), depth);
        }
        lemma_outcome(ops, called(words(xs), w, around), x);
    }
}

// -- Compiled programs ------------------------------------------------------

pub open spec fn functions(program: ProgramView, checked: CheckedView) -> Functions {
    Functions { defs: program.funcs, sigs: checked.funcs, locals: checked.func_locals }
}

/// A program all of whose functions are such, none of them generic.
pub open spec fn is_plain_program(
    program: ProgramView,
    checked: CheckedView,
    ids: Seq<Option<usize>>,
) -> bool {
    let p = functions(program, checked);
    &&& p.defs.len() == p.sigs.len() == p.locals.len() <= u32::MAX
    &&& forall|f: int|
        0 <= f < p.defs.len() ==> (#[trigger] p.defs[f]).type_params.len() == 0 && is_plain(
            p,
            ids,
            f,
        ) && forall|i: int| 0 <= i < p.locals[f].len() ==> is_scalar(#[trigger] p.locals[f][i])
}

/// What is declared of the first `n` functions: their symbols, which no body
/// has yet, and that they are scheduled.
spec fn arranged(g: GenView, ids: Seq<Option<usize>>, n: nat) -> bool {
    &&& ids.len() == n
    &&& g.work.len() == n
    &&& forall|k: int|
        0 <= k < n ==> (#[trigger] ids[k]) is Some && ids[k]->0 < g.funcs.len() && g.work[k]
            == (InstKeyView { fid: k as u32, shapes: Seq::empty(), func: ids[k]->0 })
    &&& forall|a: int, b: int| 0 <= a < b < n ==> (#[trigger] ids[a])->0 < (#[trigger] ids[b])->0
    &&& forall|j: int, k: int|
        0 <= j < g.bodies.len() && 0 <= k < n ==> (#[trigger] g.bodies[j]).func != (
        #[trigger] ids[k])->0
    &&& forall|j: int| 0 <= j < g.bodies.len() ==> (#[trigger] g.bodies[j]).func < g.funcs.len()
}

proof fn lemma_declare_grows(
    program: ProgramView,
    checked: CheckedView,
    closure: usize,
    g: GenView,
    i: nat,
    ids: Seq<Option<usize>>,
    vals: Seq<Option<usize>>,
)
    ensures
        g.funcs.len() <= declare_functions(
            program,
            checked,
            closure,
            g,
            i,
            ids,
            vals,
        ).0.funcs.len(),
    decreases program.funcs.len() - i,
{
    reveal(declare_value);
    if i < program.funcs.len() && i < checked.funcs.len() {
        let f = program.funcs[i as int];
        let s = checked.funcs[i as int];
        if f.type_params.len() > 0 {
            lemma_declare_grows(
                program,
                checked,
                closure,
                g,
                i + 1,
                ids.push(None),
                vals.push(None),
            );
        } else {
            let (g3, id, val) = declare_one(program, checked, closure, g, i);
            lemma_declare_grows(
                program,
                checked,
                closure,
                g3,
                i + 1,
                ids.push(Some(id)),
                vals.push(val),
            );
        }
    }
}

/// The unit once a function that is not generic is declared, its symbol, and
/// its static closure if it has one.
spec fn declare_one(
    program: ProgramView,
    checked: CheckedView,
    closure: usize,
    g: GenView,
    i: nat,
) -> (GenView, usize, Option<usize>) {
    let f = program.funcs[i as int];
    let s = checked.funcs[i as int];
    let id = g.funcs.len() as usize;
    let g1 = declare_func(
        g,
        "crow_fn."@ + f.name,
        make_sig(s.params, s.ret, false),
        Linkage::Local,
    );
    let g2 = GenView {
        work: g1.work.push(InstKeyView { fid: i as u32, shapes: Seq::empty(), func: id }),
        ..g1
    };
    if f.is_method {
        (g2, id, None)
    } else {
        let (g3, val) = declare_value(g2, f.name, s.params, s.ret, id, closure, i);
        (g3, id, Some(val))
    }
}

proof fn lemma_declare_one(
    program: ProgramView,
    checked: CheckedView,
    closure: usize,
    g: GenView,
    i: nat,
    ids: Seq<Option<usize>>,
)
    requires
        i < program.funcs.len(),
        arranged(g, ids, i),
        declare_one(program, checked, closure, g, i).0.funcs.len() <= usize::MAX,
    ensures
        ({
            let (g3, id, _) = declare_one(program, checked, closure, g, i);
            arranged(g3, ids.push(Some(id)), i + 1)
        }),
{
    reveal(declare_value);
    let (g3, id, _) = declare_one(program, checked, closure, g, i);
    let more = ids.push(Some(id));
    assert(id == g.funcs.len());
    assert forall|k: int| 0 <= k < i + 1 implies (#[trigger] more[k]) is Some && more[k]->0
        < g3.funcs.len() && g3.work[k] == (InstKeyView {
        fid: k as u32,
        shapes: Seq::empty(),
        func: more[k]->0,
    }) by {
        if k < i {
            assert(more[k] == ids[k]);
        }
    }
    assert forall|a: int, b: int| 0 <= a < b < i + 1 implies (#[trigger] more[a])->0 < (
    #[trigger] more[b])->0 by {
        assert(more[a] == ids[a]);
        if b < i {
            assert(more[b] == ids[b]);
        }
    }
    assert forall|j: int, k: int| 0 <= j < g3.bodies.len() && 0 <= k < i + 1 implies (
    #[trigger] g3.bodies[j]).func != (#[trigger] more[k])->0 by {
        if k < i {
            assert(more[k] == ids[k]);
        }
        if j < g.bodies.len() {
            assert(g3.bodies[j] == g.bodies[j]);
        }
    }
    assert forall|j: int| 0 <= j < g3.bodies.len() implies (#[trigger] g3.bodies[j]).func
        < g3.funcs.len() by {
        if j < g.bodies.len() {
            assert(g3.bodies[j] == g.bodies[j]);
        }
    }
}

proof fn lemma_declared(
    program: ProgramView,
    checked: CheckedView,
    closure: usize,
    g: GenView,
    i: nat,
    ids: Seq<Option<usize>>,
    vals: Seq<Option<usize>>,
)
    requires
        i <= program.funcs.len() == checked.funcs.len(),
        forall|f: int|
            0 <= f < program.funcs.len() ==> (#[trigger] program.funcs[f]).type_params.len() == 0,
        arranged(g, ids, i),
        declare_functions(program, checked, closure, g, i, ids, vals).0.funcs.len() <= usize::MAX,
    ensures
        ({
            let (g1, ids1, _) = declare_functions(program, checked, closure, g, i, ids, vals);
            arranged(g1, ids1, program.funcs.len())
        }),
    decreases program.funcs.len() - i,
{
    if i < program.funcs.len() {
        assert(program.funcs[i as int].type_params.len() == 0);
        let (g3, id, val) = declare_one(program, checked, closure, g, i);
        let more = ids.push(Some(id));
        lemma_declare_grows(program, checked, closure, g3, i + 1, more, vals.push(val));
        lemma_declare_one(program, checked, closure, g, i, ids);
        lemma_declared(program, checked, closure, g3, i + 1, more, vals.push(val));
    }
}

/// A symbol's first body.
pub proof fn lemma_body_of(bodies: Seq<BodyView>, func: usize, i: nat, at: int)
    requires
        i <= at < bodies.len(),
        bodies[at].func == func,
        forall|j: int| i <= j < at ==> (#[trigger] bodies[j]).func != func,
    ensures
        body_of(bodies, func, i) == Some(at as nat),
    decreases at - i,
{
    if i < at {
        assert(bodies[i as int].func != func);
        lemma_body_of(bodies, func, i + 1, at);
    }
}

/// What a function is lowered in.
spec fn low_of(env: LowEnv, f: int) -> LowEnv {
    LowEnv {
        lams: Seq::empty(),
        locals: env.checked.func_locals[f].len(),
        lambda: false,
        ..env
    }
}

/// Has the unit the code of function `f`, as it was lowered in `before`?
spec fn holds_code(env: LowEnv, g: GenView, f: int, before: GenView) -> bool {
    let p = functions(env.program, env.checked);
    let func = env.func_ids[f]->0;
    let r = compile_body(low_of(env, f), before, function_source(p, f, func));
    let at = body_of(g.bodies, func, 0);
    &&& r is Ok
    &&& at is Some
    &&& at->0 < g.bodies.len()
    &&& g.bodies[at->0 as int].ops == r->Ok_0.bodies.last().ops
}

spec fn has_code(env: LowEnv, g: GenView, f: int) -> bool {
    exists|before: GenView| #[trigger] holds_code(env, g, f, before)
}

/// All that is scheduled is lowered, the last first.
proof fn lemma_drained(env: LowEnv, g: GenView, n: nat, k: nat)
    requires
        is_plain_program(env.program, env.checked, env.func_ids),
        env.func_ids.len() == env.program.funcs.len(),
        k <= env.func_ids.len(),
        arranged(g, env.func_ids.take(k as int), k),
        drain(env, g, n) matches Some(Ok(_)),
    ensures
        ({
            let g1 = drain(env, g, n)->Some_0->Ok_0;
            &&& g1.funcs == g.funcs
            &&& g.bodies.len() <= g1.bodies.len()
            &&& forall|j: int| 0 <= j < g.bodies.len() ==> #[trigger] g1.bodies[j] == g.bodies[j]
            &&& forall|f: int| 0 <= f < k ==> #[trigger] has_code(env, g1, f)
        }),
    decreases k,
{
    if k > 0 {
        let p = functions(env.program, env.checked);
        let f = k - 1;
        let ids = env.func_ids.take(k as int);
        let w = g.work.last();
        let before = GenView { work: g.work.drop_last(), ..g };
        let names = names_of(p, env.func_ids, f);
        assert(ids[f] == env.func_ids[f]);
        assert(w == g.work[f] && w.fid == f && w.func == ids[f]->0);
        assert(p.defs[f].type_params.len() == 0 && is_plain(p, env.func_ids, f));
        lemma_concrete(p, env.func_ids, f);
        law_scheduled_function_is_lowered(env, before, w, names);
        let low = low_of(env, f);
        let src = function_source(p, f, w.func);
        let g2 = compile_body(low, before, src)->Ok_0;
        lemma_body_joins(low, before, src, names);
        let fewer = env.func_ids.take(f);
        assert(arranged(g2, fewer, f as nat)) by {
            assert forall|a: int| 0 <= a < f implies #[trigger] fewer[a] == ids[a] by {}
            assert forall|j: int, a: int| 0 <= j < g2.bodies.len() && 0 <= a < f implies (
            #[trigger] g2.bodies[j]).func != (#[trigger] fewer[a])->0 by {
                assert(fewer[a] == ids[a] && ids[a]->0 < ids[f]->0);
                if j < g.bodies.len() {
                    assert(g2.bodies[j] == g.bodies[j]);
                }
            }
            assert forall|j: int| 0 <= j < g2.bodies.len() implies (#[trigger] g2.bodies[j]).func
                < g2.funcs.len() by {
                if j < g.bodies.len() {
                    assert(g2.bodies[j] == g.bodies[j]);
                }
            }
        }
        let less = (n - 1) as nat;
        assert(drain(env, g, n) == drain(env, g2, less));
        lemma_drained(env, g2, less, f as nat);
        let g1 = drain(env, g, n)->Some_0->Ok_0;
        let at = g.bodies.len() as int;
        assert forall|j: int| 0 <= j < at implies #[trigger] g1.bodies[j] == g.bodies[j] by {
            assert(g1.bodies[j] == g2.bodies[j]);
        }
        assert(g1.bodies[at] == g2.bodies[at]);
        assert forall|j: int| 0 <= j < at implies (#[trigger] g1.bodies[j]).func != w.func by {
            assert(g1.bodies[j] == g.bodies[j]);
            assert(g.bodies[j].func != ids[f]->0);
        }
        lemma_body_of(g1.bodies, w.func, 0, at);
        assert(holds_code(env, g1, f, before));
        assert(has_code(env, g1, f));
    }
}

/// Integers and truth values mention no type parameters.
proof fn lemma_concrete(p: Functions, ids: Seq<Option<usize>>, f: int)
    requires
        is_plain(p, ids, f),
        forall|i: int| 0 <= i < p.locals[f].len() ==> is_scalar(#[trigger] p.locals[f][i]),
    ensures
        within_types(p.locals[f], 0),
        within_types(p.sigs[f].params, 0),
        within_type(p.sigs[f].ret, 0),
{
    assert forall|i: int| 0 <= i < p.locals[f].len() implies within_type(
        #[trigger] p.locals[f][i],
        0,
    ) by {}
    assert forall|i: int| 0 <= i < p.sigs[f].params.len() implies within_type(
        #[trigger] p.sigs[f].params[i],
        0,
    ) by {
        assert(p.locals[f][i] == p.sigs[f].params[i]);
    }
}

/// What a program of functions over integers and truth values is compiled to
/// is a unit of it: every function has its code there. So [`law_program`] holds
/// of it.
pub proof fn law_compiled_program(
    program: ProgramView,
    checked: CheckedView,
    n: nat,
)
    requires
        is_plain_program(program, checked, declared(program, checked).1.func_ids),
        lower_steps(program, checked, n) matches Some(Ok(_)),
        declared(program, checked).0.funcs.len() <= usize::MAX,
        forall|i: int|
            0 <= i < lower_steps(program, checked, n)->Some_0->Ok_0.bodies.len() ==> runnable(
                (#[trigger] lower_steps(program, checked, n)->Some_0->Ok_0.bodies[i]).ops,
            ),
    ensures
        is_unit_of(
            lower_steps(program, checked, n)->Some_0->Ok_0,
            functions(program, checked),
            declared(program, checked).1.func_ids,
        ),
{
    reveal(desc);
    let (g0, closure) = desc(runtime_unit(), KIND_STRUCT, 8, 0);
    let (g, env) = declared(program, checked);
    let ids = env.func_ids;
    let p = functions(program, checked);
    let out = lower_steps(program, checked, n)->Some_0->Ok_0;
    assert(arranged(g0, Seq::empty(), 0));
    assert forall|f: int| 0 <= f < program.funcs.len() implies (
    #[trigger] program.funcs[f]).type_params.len() == 0 by {
        assert(p.defs[f].type_params.len() == 0);
    }
    lemma_declared(program, checked, closure, g0, 0, Seq::empty(), Seq::empty());
    assert(ids.take(ids.len() as int) =~= ids);
    lemma_drained(env, g, n, ids.len());
    assert forall|f: int| 0 <= f < ids.len() implies (#[trigger] ids[f]) is Some && is_plain(
        p,
        ids,
        f,
    ) && exists|e: LowEnv, b: GenView| is_lowered(p, ids, out, f, e, b) by {
        assert(p.defs[f].type_params.len() == 0);
        assert(has_code(env, out, f));
        let b = choose|b: GenView| #[trigger] holds_code(env, out, f, b);
        assert(holds_code(env, out, f, b));
        assert(is_lowered(p, ids, out, f, low_of(env, f), b));
    }
}

// -- Checked programs -------------------------------------------------------

/// A source of plain functions only, none of them generic.
pub open spec fn is_plain_source(p: ProgramView) -> bool {
    &&& p.structs.len() == 0
    &&& p.enums.len() == 0
    &&& p.methods.len() == 0
    &&& p.funcs.len() <= u32::MAX
    &&& forall|f: int|
        0 <= f < p.funcs.len() ==> plain_stmts((#[trigger] p.funcs[f]).body.stmts)
            && p.funcs[f].type_params.len() == 0 && p.funcs[f].params.len() <= usize::MAX
}

/// Are the types of the checked program integers and `bool`?
pub open spec fn has_scalar_types(program: ProgramView, checked: CheckedView) -> bool {
    &&& forall|f: int|
        0 <= f < program.funcs.len() ==> all_scalar_stmts((#[trigger] program.funcs[f]).body.stmts)
    &&& forall|f: int, i: int|
        0 <= f < checked.func_locals.len() && 0 <= i < checked.func_locals[f].len() ==> is_scalar(
            #[trigger] checked.func_locals[f][i],
        )
    &&& forall|f: int|
        0 <= f < checked.funcs.len() ==> is_scalar((#[trigger] checked.funcs[f]).ret)
            || checked.funcs[f].ret is Unit
}

proof fn lemma_resolved(
    env: EnvView,
    ps: Seq<(Seq<char>, TypeExprView)>,
    i: nat,
    acc: Seq<TypeView>,
)
    requires
        i <= ps.len(),
    ensures
        resolve_params(env, ps, i, acc) matches Ok(ts) ==> ts.len() == acc.len() + (ps.len() - i),
    decreases ps.len() - i,
{
    if i < ps.len() {
        if let Ok(t) = resolve_type(env, ps[i as int].1) {
            lemma_resolved(env, ps, i + 1, acc.push(t));
        }
    }
}

/// There is one signature for each function, with as many parameters.
proof fn lemma_collected(env: EnvView, defs: Seq<FuncDefView>, i: nat)
    requires
        env.funcs.len() == i <= defs.len(),
        collect_funcs(env, defs, i) is Ok,
        forall|k: int|
            0 <= k < i ==> (#[trigger] env.funcs[k]).params.len() == defs[k].params.len()
                && env.funcs[k].type_params == defs[k].type_params,
    ensures
        ({
            let env1 = collect_funcs(env, defs, i)->Ok_0;
            &&& env1.funcs.len() == defs.len()
            &&& forall|k: int|
                0 <= k < defs.len() ==> (#[trigger] env1.funcs[k]).params.len()
                    == defs[k].params.len() && env1.funcs[k].type_params == defs[k].type_params
        }),
    decreases defs.len() - i,
{
    if i < defs.len() {
        reveal(func_sig);
        let f = defs[i as int];
        let scope = EnvView { type_params: f.type_params, ..env };
        lemma_resolved(scope, f.params, 0, Seq::empty());
        let sig = func_sig(env, f)->Ok_0;
        let env1 = EnvView { funcs: env.funcs.push(sig), ..env };
        assert forall|k: int| 0 <= k < i + 1 implies (#[trigger] env1.funcs[k]).params.len()
            == defs[k].params.len() && env1.funcs[k].type_params == defs[k].type_params by {
            if k < i {
                assert(env1.funcs[k] == env.funcs[k]);
            }
        }
        lemma_collected(env1, defs, i + 1);
    }
}

/// Is function `k` what the checker makes of its source?
spec fn is_checked(
    env: EnvView,
    defs: Seq<FuncDefView>,
    funcs: Seq<FuncDefView>,
    locals: Seq<Seq<TypeView>>,
    k: int,
) -> bool {
    exists|side: SideView|
        {
            let r = #[trigger] check_func(env, side, defs[k], env.funcs[k]);
            &&& r is Ok
            &&& r->Ok_0.0 == funcs[k]
            &&& locals_of(r->Ok_0.1) == locals[k]
        }
}

proof fn lemma_all_checked(
    env: EnvView,
    defs: Seq<FuncDefView>,
    i: nat,
    side: SideView,
    acc: Seq<FuncDefView>,
)
    requires
        acc.len() == side.func_locals.len() == i <= defs.len(),
        check_funcs(env, defs, i, side, acc) is Ok,
    ensures
        ({
            let (funcs, side1) = check_funcs(env, defs, i, side, acc)->Ok_0;
            &&& funcs.len() == side1.func_locals.len() == defs.len()
            &&& forall|k: int| 0 <= k < i ==> #[trigger] funcs[k] == acc[k]
            &&& forall|k: int|
                0 <= k < i ==> #[trigger] side1.func_locals[k] == side.func_locals[k]
            &&& forall|k: int|
                i <= k < defs.len() ==> #[trigger] is_checked(
                    env,
                    defs,
                    funcs,
                    side1.func_locals,
                    k,
                )
        }),
    decreases defs.len() - i,
{
    if i < defs.len() {
        let r = check_func(env, side, defs[i as int], env.funcs[i as int]);
        let (f, next) = r->Ok_0;
        let longer = acc.push(f);
        assert(next.func_locals.drop_last() == side.func_locals && next.func_locals.len() == i
            + 1) by {
            reveal(check_func);
        }
        lemma_all_checked(env, defs, i + 1, next, longer);
        let (funcs, side1) = check_funcs(env, defs, i, side, acc)->Ok_0;
        assert forall|k: int| 0 <= k < i implies #[trigger] funcs[k] == acc[k] by {
            assert(funcs[k] == longer[k]);
        }
        assert forall|k: int| 0 <= k < i implies #[trigger] side1.func_locals[k]
            == side.func_locals[k] by {
            assert(side1.func_locals[k] == next.func_locals[k]);
            assert(next.func_locals.drop_last()[k] == next.func_locals[k]);
        }
        assert(funcs[i as int] == longer[i as int]);
        assert(side1.func_locals[i as int] == next.func_locals[i as int]);
        assert(is_checked(env, defs, funcs, side1.func_locals, i as int));
    }
}

/// A source of plain functions that the checker accepts is a program of
/// functions over integers and truth values, if these are its types. So
/// [`law_compiled_program`] and [`law_program`] hold of what it is compiled to.
pub proof fn law_checked_program(source: ProgramView, ids: Seq<Option<usize>>)
    requires
        is_plain_source(source),
        check_spec(source) is Ok,
        has_scalar_types(check_spec(source)->Ok_0.0, check_spec(source)->Ok_0.1),
        ids.len() == source.funcs.len(),
        forall|f: int| 0 <= f < ids.len() ==> (#[trigger] ids[f]) is Some,
    ensures
        is_plain_program(check_spec(source)->Ok_0.0, check_spec(source)->Ok_0.1, ids),
{
    reveal(collect);
    let (program, checked) = check_spec(source)->Ok_0;
    let p = functions(program, checked);
    let env = collect(source)->Ok_0;
    let side = SideView {
        func_locals: Seq::empty(),
        lambda_locals: Seq::empty(),
        lambda_sigs: Seq::empty(),
    };
    assert(add_prelude(empty_env()).funcs.len() == 0) by {
        reveal(add_prelude);
    }
    lemma_collected(add_prelude(empty_env()), source.funcs, 0);
    lemma_all_checked(env, source.funcs, 0, side, Seq::empty());
    assert(monomorphic(env));
    assert forall|f: int| 0 <= f < p.defs.len() implies (#[trigger] p.defs[f]).type_params.len()
        == 0 && is_plain(p, ids, f) && (forall|i: int|
        0 <= i < p.locals[f].len() ==> is_scalar(#[trigger] p.locals[f][i])) by {
        assert(is_checked(env, source.funcs, program.funcs, checked.func_locals, f));
        let s = choose|s: SideView|
            {
                let r = #[trigger] check_func(env, s, source.funcs[f], env.funcs[f]);
                &&& r is Ok
                &&& r->Ok_0.0 == program.funcs[f]
                &&& locals_of(r->Ok_0.1) == checked.func_locals[f]
            };
        let sig = env.funcs[f];
        assert(plain_stmts(source.funcs[f].body.stmts));
        assert(all_scalar_stmts(program.funcs[f].body.stmts));
        assert(is_scalar(checked.funcs[f].ret) || checked.funcs[f].ret is Unit);
        law_checked_function(env, s, source.funcs[f], sig);
        assert(program.funcs[f].params == source.funcs[f].params && program.funcs[f].type_params
            == source.funcs[f].type_params) by {
            reveal(check_func);
        }
        let few = names_in(env, checked.func_locals[f], sig.ret);
        let names = names_of(p, ids, f);
        assert(wider(names, few));
        lemma_more_stmts(program.funcs[f].body.stmts, few, names);
        assert forall|i: int| 0 <= i < sig.params.len() implies #[trigger] p.locals[f][i]
            == sig.params[i] by {}
    }
}

/// Every function of a program without generic ones has a symbol of its own.
pub proof fn law_symbols(program: ProgramView, checked: CheckedView)
    requires
        program.funcs.len() == checked.funcs.len(),
        forall|f: int|
            0 <= f < program.funcs.len() ==> (#[trigger] program.funcs[f]).type_params.len() == 0,
        declared(program, checked).0.funcs.len() <= usize::MAX,
    ensures
        ({
            let ids = declared(program, checked).1.func_ids;
            &&& ids.len() == program.funcs.len()
            &&& forall|f: int| 0 <= f < ids.len() ==> (#[trigger] ids[f]) is Some
            &&& forall|a: int, b: int|
                0 <= a < b < ids.len() ==> (#[trigger] ids[a])->0 != (#[trigger] ids[b])->0
        }),
{
    reveal(desc);
    let (g0, closure) = desc(runtime_unit(), KIND_STRUCT, 8, 0);
    assert(arranged(g0, Seq::empty(), 0));
    lemma_declared(program, checked, closure, g0, 0, Seq::empty(), Seq::empty());
}

/// From the source to the machine: of a source of plain functions over integers
/// and `bool` that the checker accepts, the call of every function's symbol in
/// the unit that it is compiled to comes to the value or the panic that the
/// call of the function gives, and prints the same text.
pub proof fn law_source_runs(
    source: ProgramView,
    n: nat,
    f: u32,
    xs: Seq<int>,
    layout: Layout,
    w: World,
    depth: nat,
)
    requires
        is_plain_source(source),
        check_spec(source) is Ok,
        has_scalar_types(check_spec(source)->Ok_0.0, check_spec(source)->Ok_0.1),
        ({
            let (program, checked) = check_spec(source)->Ok_0;
            let r = lower_steps(program, checked, n);
            let g = r->Some_0->Ok_0;
            &&& r matches Some(Ok(_))
            &&& bodies_sound(g)
            &&& declared(program, checked).0.funcs.len() <= usize::MAX
            &&& forall|i: int|
                0 <= i < g.bodies.len() ==> (#[trigger] g.bodies[i]).ops.len() <= usize::MAX
        }),
        f < source.funcs.len(),
    ensures
        ({
            let (program, checked) = check_spec(source)->Ok_0;
            let g = lower_steps(program, checked, n)->Some_0->Ok_0;
            let ids = declared(program, checked).1.func_ids;
            answers(
                run_symbol(g, layout, ids[f as int]->0, words(xs), w, depth),
                invoke(functions(program, checked), f, xs, w, depth),
            )
        }),
{
    let (program, checked) = check_spec(source)->Ok_0;
    let ids = declared(program, checked).1.func_ids;
    let p = functions(program, checked);
    let some = Seq::new(source.funcs.len(), |i: int| Some(0usize));
    law_checked_program(source, some);
    assert forall|i: int| 0 <= i < program.funcs.len() implies (
    #[trigger] program.funcs[i]).type_params.len() == 0 by {
        assert(p.defs[i].type_params.len() == 0);
    }
    lemma_same_count(source);
    law_symbols(program, checked);
    law_checked_program(source, ids);
    let g = lower_steps(program, checked, n)->Some_0->Ok_0;
    assert forall|i: int| 0 <= i < g.bodies.len() implies runnable(
        (#[trigger] g.bodies[i]).ops,
    ) by {
        reveal(bodies_sound);
        assert(body_sound(g.bodies[i], g.funcs));
    }
    law_compiled_program(program, checked, n);
    law_program(g, layout, p, ids, f, xs, w, depth);
}

/// The checker drops no function.
proof fn lemma_same_count(source: ProgramView)
    requires
        check_spec(source) is Ok,
    ensures
        check_spec(source)->Ok_0.0.funcs.len() == source.funcs.len(),
{
    let env = collect(source)->Ok_0;
    let side = SideView {
        func_locals: Seq::empty(),
        lambda_locals: Seq::empty(),
        lambda_sigs: Seq::empty(),
    };
    lemma_all_checked(env, source.funcs, 0, side, Seq::empty());
}

} // verus!
