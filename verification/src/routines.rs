//! What the bodies of a unit do: functions, lambdas and the adapters between
//! them and function values, which call one another; and that running the unit
//! does just that.
use vstd::prelude::*;

use crate::calling::{body_of, lemma_returns, outcome, panicking, returning, run_symbol, runs_at};
use crate::computing::{agree, answers, holds, lemma_within, placed, sized, within, words};
use crate::evaluate::{answer, Calls, Setting, Vars};
use crate::execute::{called, law_one_end, lemma_guard};
use crate::ir::{BodyView, Op, Rt, SigView};
use crate::lower::{
    bind_body, compile_body, empty_fn, env_var, epilogue, gen_block, gen_stmts, home_params,
    load_receiver, next, pass_on, prologue, put, stack_guard, tail_call, thunk_body, GenView,
    LowEnv, LowView, Source,
};
use crate::machine::{leads, step, word, Around, Called, End, Layout, Machine};
use crate::meaning::{
    begins, lemma_leads_here, lemma_leads_on, lemma_leads_step, lemma_step_then, lemma_word,
    runnable,
};
use crate::memory::{beyond, fetch, lemma_fetch_bound, lemma_room, World, STACK_LIMIT};
use crate::objects::{lemma_beyond, Reply};
use crate::performing::{
    arrives, behind_stmt, law_statements, lemma_stmts_parts, returned, stmts_code,
};
use crate::statements::{exec_stmts, Exec};
use crate::types::TypeView;
use crate::walk::calls_in_block;
use crate::writing::{fuller, lemma_fuller_on, tidy, wrote};

verus! {

// -- Routines ---------------------------------------------------------------

/// What a body is made of: the tree of a function or a lambda, an adapter that
/// drops the closure that it is called with, or one that puts the receiver of a
/// bound method in its place.
pub enum Routine {
    Code(LowEnv, Source),
    Thunk(usize, SigView),
    Bind(usize, SigView),
}

/// A unit, what its bodies are made of, and where it stands in memory.
pub struct Program {
    pub g: GenView,
    pub routines: Seq<Routine>,
    pub layout: Layout,
}

/// What a call gives when the body comes to this end. A body that has a value
/// to give does not come to its end without one.
pub open spec fn finished(x: Exec, ret: TypeView) -> Reply {
    match x {
        Exec::Return(Some(v), w) => Reply::Value(v, w),
        Exec::Return(None, w) => Reply::Nothing(w),
        Exec::Next(vars) => if ret is Unit {
            Reply::Nothing(vars.world)
        } else {
            Reply::Unfinished
        },
        Exec::Panic(rt, line, w) => Reply::Panic(rt, line, w),
        _ => Reply::Unfinished,
    }
}

/// What an adapter hands back of a call.
pub open spec fn handed_back(r: Reply, sig: SigView) -> Reply {
    match r {
        Reply::Value(x, w) => if sig.ret is Some {
            r
        } else {
            Reply::Nothing(w)
        },
        Reply::Nothing(w) => if sig.ret is Some {
            Reply::Unfinished
        } else {
            r
        },
        other => other,
    }
}

/// How many words stand before the arguments of a body.
pub open spec fn ahead(env: LowEnv) -> nat {
    if env.lambda {
        1
    } else {
        0
    }
}

/// The variables at the start of a body: its parameters come first, and a
/// lambda has its closure behind the locals.
pub open spec fn entered(xs: Seq<int>, n: nat, w: World, around: Setting) -> Vars {
    Vars {
        vals: Map::new(
            |i: int| true,
            |i: int|
                if 0 <= i < n {
                    xs[i + ahead(around.env)]
                } else if around.env.lambda && i == around.env.locals {
                    xs[0]
                } else {
                    0
                },
        ),
        world: w,
        around,
    }
}

/// The receiver that the closure of a bound method holds.
pub open spec fn receiver(w: World, closure: int) -> int {
    fetch(w.mem, beyond(closure, 24), 8) as int
}

/// What the call of a symbol in a world gives, if it is finished with calls
/// nested no deeper than `depth` and loops of no more turns.
pub open spec fn invoke(p: Program, f: usize, xs: Seq<int>, w: World, depth: nat) -> Reply
    decreases depth, 0nat,
{
    if depth == 0 {
        Reply::Unfinished
    } else {
        let calls = calls_at(p, (depth - 1) as nat);
        match body_of(p.g.bodies, f, 0) {
            None => Reply::Unfinished,
            Some(i) => match p.routines[i as int] {
                Routine::Code(env, src) => if xs.len() != src.nparams + ahead(env) {
                    Reply::Unfinished
                } else {
                    let floats = p.g.bodies[i as int].floats;
                    let around = Setting { env, g: p.g, layout: p.layout, calls, floats };
                    finished(
                        exec_stmts(src.body.stmts, 0, entered(xs, src.nparams, w, around), depth),
                        src.ret,
                    )
                },
                Routine::Thunk(h, sig) => if xs.len() == 0 || xs.len() != sig.params.len() {
                    Reply::Unfinished
                } else {
                    handed_back(calls(h, xs.skip(1), w), sig)
                },
                Routine::Bind(h, sig) => if xs.len() == 0 || xs.len() != sig.params.len() {
                    Reply::Unfinished
                } else {
                    handed_back(calls(h, xs.update(0, receiver(w, xs[0])), w), sig)
                },
            },
        }
    }
}

pub open spec fn calls_at(p: Program, depth: nat) -> Calls
    decreases depth, 1nat,
{
    |f: usize, xs: Seq<int>, w: World| invoke(p, f, xs, w, depth)
}

/// Is the body made of its routine, that of a tree with the unit at that time?
pub open spec fn is_made(g: GenView, b: BodyView, r: Routine, before: GenView) -> bool {
    match r {
        Routine::Code(env, src) => {
            let made = compile_body(env, before, src);
            &&& made is Ok
            &&& made->Ok_0.bodies.last() == b
            &&& fuller(g, made->Ok_0)
            &&& tidy(before)
            &&& env.locals == src.locals.len()
        },
        Routine::Thunk(h, sig) => b == thunk_body(b.func, h, sig),
        Routine::Bind(h, sig) => b == bind_body(b.func, h, sig),
    }
}

/// Is every body of the unit made of its routine, and within the machine's
/// limits?
pub open spec fn is_unit(p: Program) -> bool {
    &&& p.routines.len() == p.g.bodies.len()
    &&& p.g.datas.len() <= usize::MAX
    &&& sized(p.layout)
    &&& forall|i: int|
        0 <= i < p.g.bodies.len() ==> {
            &&& runnable((#[trigger] p.g.bodies[i]).ops)
            &&& p.g.bodies[i].vars.len() <= usize::MAX
            &&& exists|before: GenView| #[trigger]
                is_made(p.g, p.g.bodies[i], p.routines[i], before)
        }
}

// -- Trees ------------------------------------------------------------------

proof fn lemma_homes_shape(st: LowView, n: nat, off: nat, i: nat)
    ensures
        ({
            let r = home_params(st, n, off, i);
            &&& r.g == st.g
            &&& r.f.loops == st.f.loops
            &&& r.f.floats == st.f.floats
            &&& r.f.terminated == st.f.terminated
            &&& st.f.ops.len() <= r.f.ops.len()
            &&& forall|j: int| 0 <= j < st.f.ops.len() ==> #[trigger] r.f.ops[j] == st.f.ops[j]
        }),
    decreases n - i,
{
    if i < n {
        let s1 = put(
            put(st, Op::Param((i + off) as usize)),
            Op::DefVar(i as usize, next(st)),
        );
        lemma_homes_shape(s1, n, off, i + 1);
        assert forall|j: int| 0 <= j < st.f.ops.len() implies #[trigger] home_params(
            st,
            n,
            off,
            i,
        ).f.ops[j] == st.f.ops[j] by {
            assert(s1.f.ops[j] == st.f.ops[j]);
        }
    }
}

/// Arguments are moved into their homes.
proof fn lemma_homes(
    ops: Seq<Op>,
    m: Machine,
    st: LowView,
    xs: Seq<int>,
    off: nat,
    i: nat,
    base: Map<int, u64>,
) -> (r: Machine)
    requires
        off <= xs.len() <= usize::MAX,
        i <= xs.len() - off,
        begins(ops, home_params(st, (xs.len() - off) as nat, off, i)),
        ops.len() <= usize::MAX,
        m.at == st.f.ops.len(),
        forall|k: int| 0 <= k < xs.len() ==> m.vals[-1 - k] == word(#[trigger] xs[k]),
        forall|k: int| #[trigger]
            m.vars[k] == (if 0 <= k < i {
                word(xs[k + off])
            } else {
                base[k]
            }),
    ensures
        leads(ops, m, End::At(r)),
        r.at == home_params(st, (xs.len() - off) as nat, off, i).f.ops.len(),
        r.args == m.args,
        r.world == m.world,
        r.around == m.around,
        forall|k: int| #[trigger]
            r.vars[k] == (if 0 <= k < xs.len() - off {
                word(xs[k + off])
            } else {
                base[k]
            }),
    decreases xs.len() - i,
{
    let count = (xs.len() - off) as nat;
    if i < count {
        let end = home_params(st, count, off, i);
        let n = st.f.ops.len() as int;
        let s1 = put(
            put(st, Op::Param((i + off) as usize)),
            Op::DefVar(i as usize, next(st)),
        );
        lemma_homes_shape(s1, count, off, i + 1);
        assert(ops[n] == end.f.ops[n] && end.f.ops[n] == s1.f.ops[n]);
        assert(ops[n + 1] == end.f.ops[n + 1] && end.f.ops[n + 1] == s1.f.ops[n + 1]);
        let x = word(xs[(i + off) as int]);
        assert(m.vals[-1 - (i + off)] == x);
        let m1 = Machine { at: n + 1, vals: m.vals.insert(n, x), ..m };
        let m2 = Machine { at: n + 2, vars: m.vars.insert(i as int, x), ..m1 };
        assert(step(ops, m) == Some(End::At(m1)));
        assert(step(ops, m1) == Some(End::At(m2)));
        lemma_leads_step(ops, m1, End::At(m2));
        lemma_step_then(ops, m, m1, End::At(m2));
        assert forall|k: int| 0 <= k < xs.len() implies m2.vals[-1 - k] == word(
            #[trigger] xs[k],
        ) by {
            assert(m.vals[-1 - k] == word(xs[k]));
        }
        let r = lemma_homes(ops, m2, s1, xs, off, i + 1, base);
        lemma_leads_on(ops, m, m2, End::At(r));
        r
    } else {
        lemma_leads_here(ops, m);
        m
    }
}

pub proof fn lemma_prologue_shape(env: LowEnv, g: GenView, src: Source)
    ensures
        prologue(env, g, src).g == g,
        prologue(env, g, src).f.loops.len() == 0,
        prologue(env, g, src).f.floats.len() == 0,
        !prologue(env, g, src).f.terminated,
{
    reveal(prologue);
    reveal(stack_guard);
    let s0 = LowView { g, f: empty_fn() };
    let s1 = if env.lambda {
        put(put(s0, Op::Param(0)), Op::DefVar(env_var(env), 0))
    } else {
        s0
    };
    lemma_homes_shape(s1, src.nparams, ahead(env), 0);
}

/// The start of a body puts the arguments into its variables.
#[verifier::rlimit(30)]
proof fn lemma_prologue(
    ops: Seq<Op>,
    env: LowEnv,
    g: GenView,
    src: Source,
    xs: Seq<int>,
    w: World,
    around: Around,
) -> (r: Machine)
    requires
        begins(ops, prologue(env, g, src)),
        ops.len() <= usize::MAX,
        xs.len() == src.nparams + ahead(env) <= usize::MAX,
        src.nparams <= env.locals <= usize::MAX,
        around.sp >= STACK_LIMIT,
    ensures
        leads(ops, called(words(xs), w, around), End::At(r)),
        r.at == prologue(env, g, src).f.ops.len(),
        r.args.len() == 0,
        r.world == w,
        r.around == around,
        forall|k: int| #[trigger]
            r.vars[k] == (if 0 <= k < src.nparams {
                word(xs[k + ahead(env)])
            } else if env.lambda && k == env.locals {
                word(xs[0])
            } else {
                0
            }),
{
    reveal(prologue);
    let st = prologue(env, g, src);
    let s0 = LowView { g, f: empty_fn() };
    let off = ahead(env);
    let m = called(words(xs), w, around);
    assert forall|k: int| 0 <= k < xs.len() implies m.vals[-1 - k] == word(#[trigger] xs[k]) by {
        assert(words(xs)[k] == word(xs[k]));
    }
    let s1 = if env.lambda {
        put(put(s0, Op::Param(0)), Op::DefVar(env_var(env), 0))
    } else {
        s0
    };
    let s2 = home_params(s1, src.nparams, off, 0);
    lemma_homes_shape(s1, src.nparams, off, 0);
    let guarded = calls_in_block(src.body);
    assert(begins(ops, s2)) by {
        reveal(stack_guard);
        assert forall|j: int| 0 <= j < s2.f.ops.len() implies #[trigger] ops[j] == s2.f.ops[j] by {
            assert(ops[j] == st.f.ops[j]);
        }
    }
    let base = if env.lambda {
        m.vars.insert(env.locals as int, word(xs[0]))
    } else {
        m.vars
    };
    let m2 = if env.lambda {
        assert(ops[0] == s2.f.ops[0] && s2.f.ops[0] == s1.f.ops[0]);
        assert(ops[1] == s2.f.ops[1] && s2.f.ops[1] == s1.f.ops[1]);
        let m1 = Machine { at: 1, vals: m.vals.insert(0, word(xs[0])), ..m };
        let m2 = Machine { at: 2, vars: base, ..m1 };
        assert(m.vals[-1 - 0] == word(xs[0]));
        assert(step(ops, m) == Some(End::At(m1)));
        assert(step(ops, m1) == Some(End::At(m2)));
        lemma_leads_step(ops, m1, End::At(m2));
        lemma_step_then(ops, m, m1, End::At(m2));
        m2
    } else {
        lemma_leads_here(ops, m);
        m
    };
    assert forall|k: int| 0 <= k < xs.len() implies m2.vals[-1 - k] == word(#[trigger] xs[k]) by {
        assert(m.vals[-1 - k] == word(xs[k]));
    }
    let m3 = lemma_homes(ops, m2, s1, xs, off, 0, base);
    lemma_leads_on(ops, m, m2, End::At(m3));
    if guarded {
        let m4 = lemma_guard(ops, m3, s2, src.line);
        lemma_leads_on(ops, m, m3, End::At(m4));
        m4
    } else {
        m3
    }
}

/// The code of a tree does what the tree does.
#[verifier::rlimit(30)]
proof fn law_code(
    p: Program,
    i: int,
    env: LowEnv,
    src: Source,
    before: GenView,
    xs: Seq<int>,
    w: World,
    around: Around,
    calls: Calls,
    fuel: nat,
)
    requires
        is_unit(p),
        0 <= i < p.g.bodies.len(),
        p.routines[i] == Routine::Code(env, src),
        is_made(p.g, p.g.bodies[i], p.routines[i], before),
        xs.len() == src.nparams + ahead(env),
        around.sp >= STACK_LIMIT,
        around.floats == p.g.bodies[i].floats,
        around.datas == p.g.datas,
        around.layout == p.layout,
        agree(around.calls, calls),
    ensures
        ({
            let floats = p.g.bodies[i].floats;
            let setting = Setting { env, g: p.g, layout: p.layout, calls, floats };
            let x = exec_stmts(
                src.body.stmts,
                0,
                entered(xs, src.nparams, w, setting),
                fuel,
            );
            answers(
                outcome(p.g.bodies[i].ops, called(words(xs), w, around)),
                finished(x, src.ret),
            )
        }),
{
    reveal(compile_body);
    let floats = p.g.bodies[i].floats;
    let setting = Setting { env, g: p.g, layout: p.layout, calls, floats };
    let ops = p.g.bodies[i].ops;
    let vars = entered(xs, src.nparams, w, setting);
    let ss = src.body.stmts;
    let st = prologue(env, before, src);
    let block = gen_block(env, st, src.body);
    assert(block == gen_stmts(env, st, ss, 0));
    assert(stmts_code(env, st, ss, 0) == block) by {
        reveal(stmts_code);
    }
    let s = block->Ok_0;
    let end = epilogue(s, src.ret);
    assert(ops == end.f.ops);
    assert(p.g.bodies[i].vars.len() == env.locals + ahead(env));
    lemma_prologue_shape(env, before, src);
    lemma_stmts_parts(env, st, ss, 0);
    assert(within(ops, s, setting)) by {
        let made = compile_body(env, before, src)->Ok_0;
        assert(floats.len() <= ops.len()) by {
            reveal(wrote);
        }
        assert(fuller(made, s.g)) by {
            reveal(fuller);
        }
        lemma_fuller_on(s.g, made, p.g);
    }
    lemma_within(ops, s, st, setting);
    let m = called(words(xs), w, around);
    let m1 = lemma_prologue(ops, env, before, src, xs, w, around);
    assert(holds(m1, vars)) by {
        lemma_word(0);
        assert forall|k: int| 0 <= k <= env.locals implies #[trigger] m1.vars[k] == word(
            vars.vals[k],
        ) by {}
    }
    assert(placed(ops, m1, st, vars));
    law_statements(ops, m1, st, ss, 0, vars, fuel);
    match exec_stmts(ss, 0, vars, fuel) {
        Exec::Return(v, u) => {
            lemma_leads_on(ops, m, m1, End::Return(returned(v), u));
            lemma_returns(ops, m, returned(v), u);
        },
        Exec::Panic(rt, line, u) => {
            lemma_leads_on(ops, m, m1, End::Panic(rt, line, u));
            lemma_panics(ops, m, rt, line, u);
        },
        Exec::Next(v) => {
            if src.ret is Unit {
                let m2 = behind_stmt(ops, m1, s, v, setting);
                assert(arrives(ops, m1, s.f.ops.len() as int, m2, v, setting));
                let n = s.f.ops.len() as int;
                assert(ops[n] == end.f.ops[n]);
                lemma_leads_step(ops, m2, End::Return(None, v.world));
                lemma_leads_on(ops, m1, m2, End::Return(None, v.world));
                lemma_leads_on(ops, m, m1, End::Return(None, v.world));
                lemma_returns(ops, m, None, v.world);
            }
        },
        _ => {},
    }
}

pub proof fn lemma_panics(ops: Seq<Op>, m: Machine, rt: Rt, line: u32, w: World)
    requires
        leads(ops, m, End::Panic(rt, line, w)),
    ensures
        outcome(ops, m) == Called::Panic(rt, line, w),
{
    assert(leads(ops, m, panicking(rt, line, w)));
    if exists|v: Option<u64>, w: World| leads(ops, m, #[trigger] returning(v, w)) {
        let (v2, w2) = choose|v: Option<u64>, w: World| leads(ops, m, #[trigger] returning(v, w));
        law_one_end(ops, m, panicking(rt, line, w), returning(v2, w2));
    }
    let (rt2, line2, w2) = choose|rt: Rt, line: u32, w: World|
        leads(ops, m, #[trigger] panicking(rt, line, w));
    law_one_end(ops, m, panicking(rt, line, w), panicking(rt2, line2, w2));
}

// -- Adapters ---------------------------------------------------------------

proof fn lemma_pass_shape(pre: Seq<Op>, from: nat, n: nat)
    requires
        from <= n,
    ensures
        pass_on(pre, from, n).len() == pre.len() + 2 * (n - from),
        forall|j: int| 0 <= j < pre.len() ==> #[trigger] pass_on(pre, from, n)[j] == pre[j],
    decreases n - from,
{
    if from < n {
        let more = pre.push(Op::Param(from as usize)).push(Op::Arg(pre.len() as usize));
        lemma_pass_shape(more, from + 1, n);
        assert forall|j: int| 0 <= j < pre.len() implies #[trigger] pass_on(pre, from, n)[j]
            == pre[j] by {
            assert(more[j] == pre[j]);
        }
    }
}

/// Arguments are handed on.
proof fn lemma_pass(
    ops: Seq<Op>,
    pre: Seq<Op>,
    m: Machine,
    from: nat,
    xs: Seq<int>,
) -> (r: Machine)
    requires
        from <= xs.len() <= usize::MAX,
        pass_on(pre, from, xs.len()).len() <= ops.len() <= usize::MAX,
        forall|j: int|
            0 <= j < pass_on(pre, from, xs.len()).len() ==> #[trigger] ops[j] == pass_on(
                pre,
                from,
                xs.len(),
            )[j],
        m.at == pre.len(),
        forall|k: int| 0 <= k < xs.len() ==> m.vals[-1 - k] == word(#[trigger] xs[k]),
    ensures
        leads(ops, m, End::At(r)),
        r.at == pass_on(pre, from, xs.len()).len(),
        r.args == m.args + words(xs.skip(from as int)),
        r.world == m.world,
        r.around == m.around,
    decreases xs.len() - from,
{
    let n = xs.len();
    lemma_pass_shape(pre, from, n);
    if from < n {
        let more = pre.push(Op::Param(from as usize)).push(Op::Arg(pre.len() as usize));
        lemma_pass_shape(more, from + 1, n);
        let k = pre.len() as int;
        assert(ops[k] == pass_on(more, from + 1, n)[k] && more[k] == Op::Param(from as usize));
        assert(ops[k + 1] == pass_on(more, from + 1, n)[k + 1] && more[k + 1] == Op::Arg(
            k as usize,
        ));
        let x = word(xs[from as int]);
        assert(m.vals[-1 - from as int] == x);
        let m1 = Machine { at: k + 1, vals: m.vals.insert(k, x), ..m };
        let m2 = Machine { at: k + 2, args: m.args.push(x), ..m1 };
        assert(step(ops, m) == Some(End::At(m1)));
        assert(step(ops, m1) == Some(End::At(m2)));
        lemma_leads_step(ops, m1, End::At(m2));
        lemma_step_then(ops, m, m1, End::At(m2));
        assert forall|j: int| 0 <= j < xs.len() implies m2.vals[-1 - j] == word(
            #[trigger] xs[j],
        ) by {
            assert(m.vals[-1 - j] == word(xs[j]));
        }
        let r = lemma_pass(ops, more, m2, from + 1, xs);
        lemma_leads_on(ops, m, m2, End::At(r));
        assert(m.args.push(x) + words(xs.skip(from as int + 1)) =~= m.args + words(xs.skip(from as int)));
        r
    } else {
        lemma_leads_here(ops, m);
        assert(m.args + words(xs.skip(from as int)) =~= m.args);
        m
    }
}

/// A call as the last thing of a body.
proof fn lemma_tail(
    ops: Seq<Op>,
    m: Machine,
    m1: Machine,
    pre: Seq<Op>,
    h: usize,
    sig: SigView,
    ys: Seq<int>,
    calls: Calls,
)
    requires
        ops == tail_call(pre, h, sig.ret),
        ops.len() <= usize::MAX,
        leads(ops, m, End::At(m1)),
        m1.at == pre.len(),
        m1.args == words(ys),
        agree(m1.around.calls, calls),
    ensures
        answers(outcome(ops, m), handed_back(answer(calls, h, ys, m1.world), sig)),
{
    let n = pre.len() as int;
    let reply = answer(calls, h, ys, m1.world);
    let c = (m1.around.calls)(h, words(ys), m1.world);
    assert(answers(c, reply));
    assert(ops[n] == Op::Call(h));
    match reply {
        Reply::Value(x, w) => {
            let m2 = Machine {
                at: n + 1,
                vals: m1.vals.insert(n, word(x)),
                args: Seq::empty(),
                world: w,
                ..m1
            };
            let v = if sig.ret is Some {
                Some(word(x))
            } else {
                None
            };
            assert(step(ops, m1) == Some(End::At(m2)));
            assert(step(ops, m2) == Some(End::Return(v, w)));
            lemma_leads_step(ops, m2, End::Return(v, w));
            lemma_step_then(ops, m1, m2, End::Return(v, w));
            lemma_leads_on(ops, m, m1, End::Return(v, w));
            lemma_returns(ops, m, v, w);
        },
        Reply::Nothing(w) => {
            if sig.ret is None {
                let m2 = Machine { at: n + 1, args: Seq::empty(), world: w, ..m1 };
                assert(step(ops, m1) == Some(End::At(m2)));
                assert(step(ops, m2) == Some(End::Return(None, w)));
                lemma_leads_step(ops, m2, End::Return(None, w));
                lemma_step_then(ops, m1, m2, End::Return(None, w));
                lemma_leads_on(ops, m, m1, End::Return(None, w));
                lemma_returns(ops, m, None, w);
            }
        },
        Reply::Panic(rt, line, w) => {
            assert(step(ops, m1) == Some(End::Panic(rt, line, w)));
            lemma_leads_step(ops, m1, End::Panic(rt, line, w));
            lemma_leads_on(ops, m, m1, End::Panic(rt, line, w));
            lemma_panics(ops, m, rt, line, w);
        },
        Reply::Unfinished => {},
    }
}

/// An adapter of a function value calls the function without the closure.
proof fn law_thunk(
    b: BodyView,
    h: usize,
    sig: SigView,
    xs: Seq<int>,
    w: World,
    around: Around,
    calls: Calls,
)
    requires
        b == thunk_body(b.func, h, sig),
        runnable(b.ops),
        0 < xs.len() == sig.params.len(),
        agree(around.calls, calls),
    ensures
        answers(
            outcome(b.ops, called(words(xs), w, around)),
            handed_back(answer(calls, h, xs.skip(1), w), sig),
        ),
{
    let ops = b.ops;
    let pre = pass_on(Seq::empty(), 1, sig.params.len());
    lemma_pass_shape(Seq::empty(), 1, sig.params.len());
    let m = called(words(xs), w, around);
    assert forall|k: int| 0 <= k < xs.len() implies m.vals[-1 - k] == word(#[trigger] xs[k]) by {
        assert(words(xs)[k] == word(xs[k]));
    }
    let m1 = lemma_pass(ops, Seq::empty(), m, 1, xs);
    assert(m1.args =~= words(xs.skip(1)));
    lemma_tail(ops, m, m1, pre, h, sig, xs.skip(1), calls);
}

/// An adapter of a bound method calls the method on the receiver.
proof fn law_bind(
    b: BodyView,
    h: usize,
    sig: SigView,
    xs: Seq<int>,
    w: World,
    around: Around,
    calls: Calls,
)
    requires
        b == bind_body(b.func, h, sig),
        runnable(b.ops),
        0 < xs.len() == sig.params.len(),
        agree(around.calls, calls),
    ensures
        answers(
            outcome(b.ops, called(words(xs), w, around)),
            handed_back(answer(calls, h, xs.update(0, receiver(w, xs[0])), w), sig),
        ),
{
    let ops = b.ops;
    let start = load_receiver();
    let pre = pass_on(start, 1, sig.params.len());
    lemma_pass_shape(start, 1, sig.params.len());
    let m = called(words(xs), w, around);
    assert forall|k: int| 0 <= k < xs.len() implies m.vals[-1 - k] == word(#[trigger] xs[k]) by {
        assert(words(xs)[k] == word(xs[k]));
    }
    assert(pre[0] == start[0] && pre[1] == start[1] && pre[2] == start[2]);
    assert(ops[0] == pre[0] && ops[1] == pre[1] && ops[2] == pre[2]);
    assert(m.vals[-1 - 0] == word(xs[0]));
    let r = receiver(w, xs[0]);
    let m1 = Machine { at: 1, vals: m.vals.insert(0, word(xs[0])), ..m };
    let m2 = Machine { at: 2, vals: m1.vals.insert(1, r as u64), ..m };
    let m3 = Machine { at: 3, args: m.args.push(r as u64), ..m2 };
    assert(step(ops, m) == Some(End::At(m1)));
    lemma_beyond(m1, 0, 24, xs[0]);
    lemma_fetch_bound(w.mem, beyond(xs[0], 24), 8);
    lemma_room();
    assert(step(ops, m1) == Some(End::At(m2)));
    assert(step(ops, m2) == Some(End::At(m3)));
    lemma_leads_step(ops, m2, End::At(m3));
    lemma_step_then(ops, m1, m2, End::At(m3));
    lemma_step_then(ops, m, m1, End::At(m3));
    assert forall|k: int| 0 <= k < xs.len() implies m3.vals[-1 - k] == word(#[trigger] xs[k]) by {
        assert(m.vals[-1 - k] == word(xs[k]));
    }
    let m4 = lemma_pass(ops, start, m3, 1, xs);
    lemma_leads_on(ops, m, m3, End::At(m4));
    let ys = xs.update(0, r);
    lemma_word(r);
    assert(word(r) == r as u64);
    assert(m4.args =~= words(ys)) by {
        assert forall|k: int| 0 <= k < ys.len() implies #[trigger] m4.args[k] == words(ys)[k] by {
            if k > 0 {
                assert(m4.args[k] == words(xs.skip(1))[k - 1]);
            }
        }
    }
    lemma_tail(ops, m, m4, pre, h, sig, ys, calls);
}

// -- Programs ---------------------------------------------------------------

/// A unit does what its routines say: the call of a symbol comes to the value
/// or the panic that the call of the routine gives and leaves the same world,
/// with the same text printed, however deep the calls are nested.
pub proof fn law_program_over_memory(
    p: Program,
    f: usize,
    xs: Seq<int>,
    w: World,
    depth: nat,
)
    requires
        is_unit(p),
    ensures
        answers(run_symbol(p.g, p.layout, f, words(xs), w, depth), invoke(p, f, xs, w, depth)),
    decreases depth,
{
    if depth > 0 && body_of(p.g.bodies, f, 0) is Some {
        let less = (depth - 1) as nat;
        let calls = calls_at(p, less);
        let run = runs_at(p.g, p.layout, less);
        let i = body_of(p.g.bodies, f, 0)->0 as int;
        lemma_body_index(p.g.bodies, f, 0);
        assert(agree(run, calls)) by {
            assert forall|h: usize, ys: Seq<int>, v: World| answers(
                run(h, words(ys), v),
                #[trigger] answer(calls, h, ys, v),
            ) by {
                law_program_over_memory(p, h, ys, v, less);
            }
        }
        let b = p.g.bodies[i];
        let around = Around {
            calls: run,
            sp: STACK_LIMIT,
            floats: b.floats,
            datas: p.g.datas,
            layout: p.layout,
        };
        assert(runnable(b.ops));
        let before = choose|before: GenView| #[trigger]
            is_made(p.g, p.g.bodies[i], p.routines[i], before);
        match p.routines[i] {
            Routine::Code(env, src) => {
                if xs.len() == src.nparams + ahead(env) {
                    law_code(p, i, env, src, before, xs, w, around, calls, depth);
                }
            },
            Routine::Thunk(h, sig) => {
                if 0 < xs.len() == sig.params.len() {
                    law_thunk(b, h, sig, xs, w, around, calls);
                }
            },
            Routine::Bind(h, sig) => {
                if 0 < xs.len() == sig.params.len() {
                    law_bind(b, h, sig, xs, w, around, calls);
                }
            },
        }
    }
}

pub proof fn lemma_body_index(bodies: Seq<BodyView>, func: usize, i: nat)
    ensures
        body_of(bodies, func, i) matches Some(k) ==> i <= k < bodies.len() && bodies[k as int].func
            == func,
    decreases bodies.len() - i,
{
    if i < bodies.len() {
        lemma_body_index(bodies, func, i + 1);
    }
}

} // verus!
