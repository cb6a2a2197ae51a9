//! That the code of calls does what they mean: the arguments are evaluated from
//! the left to the right and handed on, by symbol or to the code of a closure.
use vstd::prelude::*;

use crate::ast::ExprView;
use crate::computing::{
    after, answers, computes, holds, keeps, lemma_before, lemma_calm_placed, lemma_keeps_on,
    lemma_list_parts, lemma_nothing, lemma_part, lemma_then, lemma_then_rooted, lemma_value,
    list_code, placed, reached, scalar_code, within, words,
};
use crate::evaluate::{answer, eval, eval_args, eval_call, replied, worth, Eval, Setting, Vars};
use crate::expressions::{law_scalar, lemma_stops};
use crate::ir::{IrType, Op};
use crate::lower::{
    call_closure, call_result, callee_of, gen_call, gen_expr, gen_list, gen_scalar, make_sig, next,
    put, put_args, with_gen, FnView, LowEnv, LowView, HEADER,
};
use crate::machine::{behind, leads, step, word, Called, End, Machine};
use crate::meaning::{
    begins, lemma_leads_here, lemma_leads_on, lemma_leads_step, lemma_step_then, ready,
};
use crate::memory::{beyond, fetch, lemma_fetch_bound, lemma_room};
use crate::objects::{lemma_begins, lemma_beyond, with, Reply};
use crate::types::TypeView;
use crate::writing::{
    fuller, lemma_find_more, lemma_fuller_on, lemma_more_is_fuller, more_unit, symbol_of,
    write_call_closure, write_callee_of,
};

verus! {

/// Does the machine hold the values at the places?
pub open spec fn gathered(m: Machine, vs: Seq<usize>, xs: Seq<int>, below: int) -> bool {
    &&& vs.len() == xs.len()
    &&& forall|k: int| 0 <= k < vs.len() ==> (#[trigger] vs[k]) < below
    &&& forall|k: int| 0 <= k < vs.len() ==> m.vals[#[trigger] vs[k] as int] == word(xs[k])
}

/// The machine, about to run the code that `end` adds to `st`, stops as the
/// arguments do, or goes on behind that code with their values at the places.
pub open spec fn passes(
    ops: Seq<Op>,
    m: Machine,
    st: LowView,
    end: LowView,
    vs: Seq<usize>,
    r: Result<(Seq<int>, Vars), Eval>,
    around: Setting,
) -> bool {
    match r {
        Err(ev) => (ev is Panic || ev is Unfinished) && computes(
            ops,
            m,
            st,
            end,
            None,
            ev,
            around,
        ),
        Ok(p) => exists|m2: Machine| #[trigger]
            reached(ops, m, st, end, m2, p.1, around) && gathered(
                m2,
                vs,
                p.0,
                end.f.ops.len() as int,
            ),
    }
}

proof fn lemma_eq_args(es: Seq<ExprView>, i: nat, vars: Vars, acc: Seq<int>)
    ensures
        i >= es.len() ==> eval_args(es, i, vars, acc) == Ok::<(Seq<int>, Vars), Eval>((acc, vars)),
        i < es.len() ==> eval_args(es, i, vars, acc) == (match worth(eval(es[i as int], vars)) {
            Eval::Value(x, vars1) => eval_args(es, i + 1, vars1, acc.push(x)),
            other => Err(other),
        }),
{
    reveal(eval);
    reveal_with_fuel(eval_args, 2);
}

/// Arguments are computed from the left to the right.
#[verifier::rlimit(50)]
pub proof fn law_args(
    ops: Seq<Op>,
    m: Machine,
    st: LowView,
    es: Seq<ExprView>,
    i: nat,
    acc: Seq<usize>,
    vars: Vars,
    xs: Seq<int>,
)
    requires
        placed(ops, m, st, vars),
        list_code(vars.env(), st, es, i, acc) is Ok,
        within(ops, list_code(vars.env(), st, es, i, acc)->Ok_0.0, vars.around),
        gathered(m, acc, xs, st.f.ops.len() as int),
    ensures
        passes(
            ops,
            m,
            st,
            list_code(vars.env(), st, es, i, acc)->Ok_0.0,
            list_code(vars.env(), st, es, i, acc)->Ok_0.1,
            eval_args(es, i, vars, xs),
            vars.around,
        ),
    decreases es, es.len() - i,
{
    let env = vars.env();
    let around = vars.around;
    let (end, vs) = list_code(env, st, es, i, acc)->Ok_0;
    lemma_list_parts(env, st, es, i, acc);
    lemma_eq_args(es, i, vars, xs);
    let r = eval_args(es, i, vars, xs);
    if i >= es.len() {
        lemma_leads_here(ops, m);
        assert(reached(ops, m, st, end, m, r->Ok_0.1, around));
    } else {
        let e = es[i as int];
        let (s1, v) = scalar_code(env, st, e)->Ok_0;
        lemma_part(ops, end, s1, around);
        law_scalar(ops, m, st, e, vars);
        match worth(eval(e, vars)) {
            Eval::Value(x, vars1) => {
                let m1 = after(ops, m, st, s1, v, x, vars1, around);
                assert(reached(ops, m, st, s1, m1, vars1, around));
                let more = acc.push(v);
                let ys = xs.push(x);
                assert(gathered(m1, more, ys, s1.f.ops.len() as int)) by {
                    assert forall|k: int| 0 <= k < more.len() implies (#[trigger] more[k])
                        < s1.f.ops.len() && m1.vals[more[k] as int] == word(ys[k]) by {
                        if k < acc.len() {
                            assert(acc[k] < st.f.ops.len());
                            assert(m1.vals[acc[k] as int] == m.vals[acc[k] as int]);
                        }
                    }
                }
                lemma_calm_placed(ops, m, st, vars, m1, s1, vars1);
                law_args(ops, m1, s1, es, i + 1, more, vars1, ys);
                match r {
                    Err(ev) => {
                        lemma_then(ops, m, m1, st, s1, end, None, ev, around);
                    },
                    Ok(p) => {
                        let m2 = choose|m2: Machine| #[trigger]
                            reached(ops, m1, s1, end, m2, p.1, around) && gathered(
                                m2,
                                vs,
                                p.0,
                                end.f.ops.len() as int,
                            );
                        lemma_leads_on(ops, m, m1, End::At(m2));
                        lemma_keeps_on(m, m1, m2, st.f.ops.len() as int, s1.f.ops.len() as int);
                        assert(reached(ops, m, st, end, m2, r->Ok_0.1, around));
                    },
                }
            },
            ev => lemma_stops(ops, m, st, s1, Some(v), ev, around, st, end, None),
        }
    }
}

/// The values at the places are handed on from index `i` on.
pub proof fn lemma_hand_on(ops: Seq<Op>, m: Machine, st: LowView, vs: Seq<usize>, i: nat)
    requires
        i <= vs.len(),
        begins(ops, put_args(st, vs, i)),
        ready(ops, m, st),
    ensures
        put_args(st, vs, i).f.ops.len() == st.f.ops.len() + (vs.len() - i),
        leads(
            ops,
            m,
            End::At(
                Machine {
                    at: put_args(st, vs, i).f.ops.len() as int,
                    args: m.args + Seq::new(
                        (vs.len() - i) as nat,
                        |k: int| m.vals[vs[k + i] as int],
                    ),
                    ..m
                },
            ),
        ),
    decreases vs.len() - i,
{
    let end = put_args(st, vs, i);
    let rest = Seq::new((vs.len() - i) as nat, |k: int| m.vals[vs[k + i] as int]);
    if i < vs.len() {
        let s1 = put(st, Op::Arg(vs[i as int]));
        let m1 = Machine { at: m.at + 1, args: m.args.push(m.vals[vs[i as int] as int]), ..m };
        let n = st.f.ops.len() as int;
        lemma_put_args(st, vs, i);
        assert(ops[n] == end.f.ops[n]);
        assert(step(ops, m) == Some(End::At(m1)));
        lemma_hand_on(ops, m1, s1, vs, i + 1);
        let last = Machine { at: end.f.ops.len() as int, args: m.args + rest, ..m };
        let less = Seq::new((vs.len() - (i + 1)) as nat, |k: int| m1.vals[vs[k + (i + 1)] as int]);
        assert(m1.args + less =~= m.args + rest);
        lemma_step_then(ops, m, m1, End::At(last));
    } else {
        let last = Machine { at: end.f.ops.len() as int, args: m.args + rest, ..m };
        assert(m.args + rest =~= m.args);
        assert(last == m);
        lemma_leads_here(ops, m);
    }
}

proof fn lemma_put_args(st: LowView, vs: Seq<usize>, i: nat)
    ensures
        put_args(st, vs, i).f.ops.len() >= st.f.ops.len(),
        forall|k: int|
            0 <= k < st.f.ops.len() ==> #[trigger] put_args(st, vs, i).f.ops[k] == st.f.ops[k],
        i < vs.len() ==> put_args(st, vs, i).f.ops.len() > st.f.ops.len() && put_args(
            st,
            vs,
            i,
        ).f.ops[st.f.ops.len() as int] == Op::Arg(vs[i as int]),
        put_args(st, vs, i).g == st.g,
        put_args(st, vs, i).f.floats == st.f.floats,
    decreases vs.len() - i,
{
    if i < vs.len() {
        lemma_put_args(put(st, Op::Arg(vs[i as int])), vs, i + 1);
    }
}

/// A call has come to its reply; its result goes on.
proof fn lemma_result(
    ops: Seq<Op>,
    m: Machine,
    mc: Machine,
    st: LowView,
    s: LowView,
    ty: TypeView,
    c: Called,
    r: Reply,
    vars: Vars,
)
    requires
        within(ops, call_result(s, ty).0, vars.around),
        s.f.ops.len() == mc.at + 1,
        st.f.ops.len() <= mc.at,
        leads(ops, m, End::At(mc)),
        keeps(mc, m, st.f.ops.len() as int),
        mc.vars == m.vars,
        holds(m, vars.at(m.world)),
        step(ops, mc) == behind(mc, c),
        answers(c, r),
    ensures
        computes(
            ops,
            m,
            st,
            call_result(s, ty).0,
            call_result(s, ty).1,
            replied(r, ty, vars),
            vars.around,
        ),
{
    let around = vars.around;
    let n = st.f.ops.len() as int;
    let end = call_result(s, ty).0;
    let at = mc.at;
    match r {
        Reply::Unfinished => {},
        Reply::Panic(rt, line, w) => {
            lemma_leads_step(ops, mc, End::Panic(rt, line, w));
            lemma_leads_on(ops, m, mc, End::Panic(rt, line, w));
        },
        Reply::Nothing(w) => {
            if ty is Unit {
                let m3 = Machine { at: at + 1, args: Seq::empty(), world: w, ..mc };
                assert(step(ops, mc) == Some(End::At(m3)));
                lemma_leads_step(ops, mc, End::At(m3));
                lemma_leads_on(ops, m, mc, End::At(m3));
                assert(holds(m3, vars.at(w)));
                assert(keeps(m3, m, n));
                lemma_nothing(ops, m, st, end, None, vars.at(w), around, m3);
            }
        },
        Reply::Value(x, w) => {
            if !(ty is Unit) {
                let m3 = Machine {
                    at: at + 1,
                    vals: mc.vals.insert(at, word(x)),
                    args: Seq::empty(),
                    world: w,
                    ..mc
                };
                assert(step(ops, mc) == Some(End::At(m3)));
                lemma_leads_step(ops, mc, End::At(m3));
                lemma_leads_on(ops, m, mc, End::At(m3));
                assert(holds(m3, vars.at(w)));
                assert(keeps(m3, m, n));
                lemma_before(ops, end, s, around);
                assert(s.f.ops.len() <= usize::MAX);
                lemma_value(ops, m, st, s, at as usize, x, vars.at(w), around, m3);
                lemma_then_rooted(
                    ops,
                    m,
                    st,
                    s,
                    ty,
                    at as usize,
                    Eval::Value(x, vars.at(w)),
                    around,
                );
            }
        },
    }
}

// -- Calls by name ----------------------------------------------------------

proof fn lemma_eq_call(e: ExprView, vars: Vars)
    requires
        e.kind is Call,
    ensures
        eval_call(e, vars) == (match e.kind->Call_direct {
            Some(f) => match eval_args(e.kind->Call_args, 0, vars, Seq::empty()) {
                Ok(p) => match symbol_of(vars.env(), vars.around.g.insts, f, e.kind->Call_inst) {
                    Some(s) => replied(answer(vars.around.calls, s, p.0, p.1.world), e.ty, p.1),
                    None => Eval::Unfinished,
                },
                Err(ev) => ev,
            },
            None => match worth(eval(*e.kind->Call_callee, vars)) {
                Eval::Value(c, vars1) => match eval_args(
                    e.kind->Call_args,
                    0,
                    vars1,
                    Seq::empty(),
                ) {
                    Ok(p) => replied(
                        answer(
                            vars.around.calls,
                            (vars.around.layout.symbol)(
                                fetch(p.1.world.mem, beyond(c, 16), 8) as u64,
                            ),
                            seq![c] + p.0,
                            p.1.world,
                        ),
                        e.ty,
                        p.1,
                    ),
                    Err(ev) => ev,
                },
                other => other,
            },
        }),
{
    reveal(eval);
    reveal_with_fuel(eval_args, 2);
}

/// The symbol that a call names is the one that the finished unit has.
proof fn lemma_symbol(env: LowEnv, g0: crate::lower::GenView, fid: u32, inst: Seq<TypeView>, line: u32, around: Setting)
    requires
        callee_of(env, g0, fid, inst, line) is Ok,
        fuller(around.g, callee_of(env, g0, fid, inst, line)->Ok_0.0),
    ensures
        symbol_of(env, around.g.insts, fid, inst) == Some(
            callee_of(env, g0, fid, inst, line)->Ok_0.1,
        ),
        fuller(around.g, g0),
{
    write_callee_of(env, g0, fid, inst, line);
    let (g, func) = callee_of(env, g0, fid, inst, line)->Ok_0;
    lemma_more_is_fuller(g, g0);
    lemma_fuller_on(g0, g, around.g);
    reveal(more_unit);
    reveal(fuller);
    if inst.len() > 0 {
        lemma_find_more(g.insts, around.g.insts, fid, crate::lower::shapes_of(inst), 0);
    }
}

#[verifier::rlimit(50)]
proof fn lemma_direct(
    ops: Seq<Op>,
    m: Machine,
    st: LowView,
    args: Seq<ExprView>,
    fid: u32,
    inst: Seq<TypeView>,
    ty: TypeView,
    line: u32,
    s1: LowView,
    vs: Seq<usize>,
    vars: Vars,
)
    requires
        placed(ops, m, st, vars),
        list_code(vars.env(), st, args, 0, Seq::empty()) == Ok::<
            (LowView, Seq<usize>),
            Seq<char>,
        >((s1, vs)),
        callee_of(vars.env(), s1.g, fid, inst, line) is Ok,
        ({
            let (g, func) = callee_of(vars.env(), s1.g, fid, inst, line)->Ok_0;
            within(
                ops,
                call_result(put(put_args(with_gen(s1, g), vs, 0), Op::Call(func)), ty).0,
                vars.around,
            )
        }),
    ensures
        ({
            let (g, func) = callee_of(vars.env(), s1.g, fid, inst, line)->Ok_0;
            let r = call_result(put(put_args(with_gen(s1, g), vs, 0), Op::Call(func)), ty);
            &&& symbol_of(vars.env(), vars.around.g.insts, fid, inst) == Some(func)
            &&& computes(
                ops,
                m,
                st,
                r.0,
                r.1,
                match eval_args(args, 0, vars, Seq::empty()) {
                    Ok(p) => replied(
                        answer(vars.around.calls, func, p.0, p.1.world),
                        ty,
                        p.1,
                    ),
                    Err(ev) => ev,
                },
                vars.around,
            )
        }),
    decreases args, args.len() + 1,
{
    let env = vars.env();
    let around = vars.around;
    let (g, func) = callee_of(env, s1.g, fid, inst, line)->Ok_0;
    let s0 = with_gen(s1, g);
    let s2 = put_args(s0, vs, 0);
    let s3 = put(s2, Op::Call(func));
    let (end, v) = call_result(s3, ty);
    lemma_put_args(s0, vs, 0);
    lemma_before(ops, end, s3, around);
    lemma_before(ops, s3, s2, around);
    lemma_before(ops, s2, s0, around);
    lemma_symbol(env, s1.g, fid, inst, line, around);
    assert(within(ops, s1, around)) by {
        lemma_begins(ops, s0, s1);
    }
    lemma_list_parts(env, st, args, 0, Seq::empty());
    lemma_part(ops, s1, st, around);
    law_args(ops, m, st, args, 0, Seq::empty(), vars, Seq::empty());
    let r = eval_args(args, 0, vars, Seq::empty());
    match r {
        Err(ev) => lemma_stops(ops, m, st, s1, None, ev, around, st, end, v),
        Ok(p) => {
            let (xs, vars1) = p;
            let m1 = choose|m1: Machine| #[trigger]
                reached(ops, m, st, s1, m1, p.1, around) && gathered(
                    m1,
                    vs,
                    p.0,
                    s1.f.ops.len() as int,
                );
            lemma_hand_on(ops, m1, s0, vs, 0);
            let all = m1.args + Seq::new((vs.len() - 0) as nat, |k: int| m1.vals[vs[k + 0] as int]);
            assert(all =~= words(xs)) by {
                assert forall|k: int| 0 <= k < vs.len() implies all[k] == words(xs)[k] by {
                    assert(m1.vals[vs[k] as int] == word(xs[k]));
                }
            }
            let mc = Machine { at: s2.f.ops.len() as int, args: words(xs), ..m1 };
            assert(leads(ops, m1, End::At(mc)));
            let at = s2.f.ops.len() as int;
            assert(ops[at] == s3.f.ops[at]);
            let c = (m1.around.calls)(func, words(xs), m1.world);
            let reply = answer(around.calls, func, xs, vars1.world);
            assert(step(ops, mc) == behind(mc, c));
            assert(answers(c, reply));
            assert(vars1.at(m1.world) == vars1);
            lemma_result(ops, m1, mc, s1, s3, ty, c, reply, vars1);
            lemma_then(ops, m, m1, st, s1, end, v, replied(reply, ty, vars1), around);
        },
    }
}

// -- Calls of closures ------------------------------------------------------

/// The code of a closure is called with the closure and the arguments.
#[verifier::rlimit(50)]
proof fn lemma_through(
    ops: Seq<Op>,
    m: Machine,
    st: LowView,
    fty: TypeView,
    f: usize,
    vs: Seq<usize>,
    ty: TypeView,
    line: u32,
    c: int,
    xs: Seq<int>,
    vars: Vars,
)
    requires
        call_closure(st, fty, f, vs, ty, line) is Ok,
        within(ops, call_closure(st, fty, f, vs, ty, line)->Ok_0.0, vars.around),
        ready(ops, m, st),
        holds(m, vars),
        f < st.f.ops.len(),
        m.vals[f as int] == word(c),
        gathered(m, vs, xs, st.f.ops.len() as int),
    ensures
        computes(
            ops,
            m,
            st,
            call_closure(st, fty, f, vs, ty, line)->Ok_0.0,
            call_closure(st, fty, f, vs, ty, line)->Ok_0.1,
            replied(
                answer(
                    vars.around.calls,
                    (vars.around.layout.symbol)(fetch(vars.world.mem, beyond(c, 16), 8) as u64),
                    seq![c] + xs,
                    vars.world,
                ),
                ty,
                vars,
            ),
            vars.around,
        ),
{
    reveal(call_closure);
    let around = vars.around;
    let n = st.f.ops.len() as int;
    let s1 = put(st, Op::Load(IrType::I64, f, HEADER));
    let s2 = put(s1, Op::Arg(f));
    let s3 = put_args(s2, vs, 0);
    let (params, ret) = (fty->Fn_0, *fty->Fn_1);
    let s4 = LowView {
        f: FnView { sigs: s3.f.sigs.push(make_sig(params, ret, true)), ..s3.f },
        ..s3
    };
    let s5 = put(s4, Op::CallIndirect(s3.f.sigs.len() as usize, next(st)));
    let (end, v) = call_result(s5, ty);
    assert(call_closure(st, fty, f, vs, ty, line)->Ok_0 == (end, v));
    lemma_put_args(s2, vs, 0);
    lemma_before(ops, end, s5, around);
    lemma_before(ops, s5, s3, around);
    lemma_before(ops, s3, s2, around);
    assert(ops[n] == s2.f.ops[n] && ops[n + 1] == s2.f.ops[n + 1]);
    lemma_beyond(m, f, HEADER, c);
    lemma_fetch_bound(vars.world.mem, beyond(c, 16), 8);
    lemma_room();
    let code = fetch(vars.world.mem, beyond(c, 16), 8) as u64;
    let m1 = with(m, code);
    let m2 = Machine { at: n + 2, args: m1.args.push(word(c)), ..m1 };
    assert(step(ops, m) == Some(End::At(m1)));
    assert(step(ops, m1) == Some(End::At(m2)));
    lemma_leads_step(ops, m1, End::At(m2));
    lemma_step_then(ops, m, m1, End::At(m2));
    lemma_hand_on(ops, m2, s2, vs, 0);
    let ys = seq![c] + xs;
    let all = m2.args + Seq::new((vs.len() - 0) as nat, |k: int| m2.vals[vs[k + 0] as int]);
    assert(all =~= words(ys)) by {
        assert(all.len() == words(ys).len());
        assert forall|k: int| 0 <= k < all.len() implies all[k] == words(ys)[k] by {
            if k > 0 {
                assert(vs[k - 1] < n);
                assert(m.vals[vs[k - 1] as int] == word(xs[k - 1]));
            }
        }
    }
    let at = s3.f.ops.len() as int;
    let mc = Machine { at, args: words(ys), ..m2 };
    assert(leads(ops, m2, End::At(mc)));
    lemma_leads_on(ops, m, m2, End::At(mc));
    assert(ops[at] == s5.f.ops[at]);
    let sym = (around.layout.symbol)(code);
    let called = (m.around.calls)(sym, words(ys), m.world);
    let reply = answer(around.calls, sym, ys, vars.world);
    assert(step(ops, mc) == behind(mc, called));
    assert(answers(called, reply));
    assert(vars.at(m.world) == vars);
    lemma_result(ops, m, mc, st, s5, ty, called, reply, vars);
}

#[verifier::rlimit(50)]
proof fn lemma_indirect(
    ops: Seq<Op>,
    m: Machine,
    st: LowView,
    e: ExprView,
    callee: ExprView,
    args: Seq<ExprView>,
    s1: LowView,
    f: usize,
    s2: LowView,
    vs: Seq<usize>,
    end: LowView,
    v: Option<usize>,
    vars: Vars,
)
    requires
        e.kind is Call,
        e.kind->Call_direct is None,
        callee == *e.kind->Call_callee,
        args == e.kind->Call_args,
        placed(ops, m, st, vars),
        scalar_code(vars.env(), st, callee) == Ok::<(LowView, usize), Seq<char>>((s1, f)),
        list_code(vars.env(), s1, args, 0, Seq::empty()) == Ok::<
            (LowView, Seq<usize>),
            Seq<char>,
        >((s2, vs)),
        call_closure(s2, callee.ty, f, vs, e.ty, e.line) == Ok::<
            (LowView, Option<usize>),
            Seq<char>,
        >((end, v)),
        within(ops, end, vars.around),
    ensures
        computes(ops, m, st, end, v, eval_call(e, vars), vars.around),
    decreases e, 7int,
{
    let env = vars.env();
    let around = vars.around;
    write_call_closure(s2, callee.ty, f, vs, e.ty, e.line);
    lemma_part(ops, end, s2, around);
    lemma_list_parts(env, s1, args, 0, Seq::empty());
    lemma_part(ops, s2, s1, around);
    assert(decreases_to!(e => callee) && decreases_to!(e => args));
    law_scalar(ops, m, st, callee, vars);
    lemma_eq_call(e, vars);
    match worth(eval(callee, vars)) {
        Eval::Value(c, vars1) => {
            let m1 = after(ops, m, st, s1, f, c, vars1, around);
            assert(reached(ops, m, st, s1, m1, vars1, around));
            lemma_calm_placed(ops, m, st, vars, m1, s1, vars1);
            law_args(ops, m1, s1, args, 0, Seq::empty(), vars1, Seq::empty());
            let r = eval_args(args, 0, vars1, Seq::empty());
            match r {
                Err(ev) => {
                    lemma_stops(ops, m1, s1, s2, None, ev, around, s1, end, v);
                    lemma_then(ops, m, m1, st, s1, end, v, ev, around);
                },
                Ok(p) => {
                    let m2 = choose|m2: Machine| #[trigger]
                        reached(ops, m1, s1, s2, m2, p.1, around) && gathered(
                            m2,
                            vs,
                            p.0,
                            s2.f.ops.len() as int,
                        );
                    assert(m2.vals[f as int] == m1.vals[f as int]);
                    lemma_through(ops, m2, s2, callee.ty, f, vs, e.ty, e.line, c, p.0, p.1);
                    lemma_then(ops, m1, m2, s1, s2, end, v, eval_call(e, vars), around);
                    lemma_then(ops, m, m1, st, s1, end, v, eval_call(e, vars), around);
                },
            }
        },
        ev => lemma_stops(ops, m, st, s1, Some(f), ev, around, st, end, v),
    }
}

/// A call comes to what the called symbol gives.
pub proof fn law_call(ops: Seq<Op>, m: Machine, st: LowView, e: ExprView, vars: Vars)
    requires
        e.kind is Call,
        placed(ops, m, st, vars),
        gen_expr(vars.env(), st, e) is Ok,
        within(ops, gen_expr(vars.env(), st, e)->Ok_0.0, vars.around),
    ensures
        computes(
            ops,
            m,
            st,
            gen_expr(vars.env(), st, e)->Ok_0.0,
            gen_expr(vars.env(), st, e)->Ok_0.1,
            eval(e, vars),
            vars.around,
        ),
    decreases e, 8int,
{
    let env = vars.env();
    let callee = *e.kind->Call_callee;
    let args = e.kind->Call_args;
    let inst = e.kind->Call_inst;
    let (end, v) = gen_call(env, st, e)->Ok_0;
    assert(eval(e, vars) == eval_call(e, vars)) by {
        reveal(eval);
    }
    match e.kind->Call_direct {
        Some(fid) => {
            let (s1, vs) = gen_list(env, st, args, 0, Seq::empty())->Ok_0;
            assert(list_code(env, st, args, 0, Seq::empty()) == gen_list(
                env,
                st,
                args,
                0,
                Seq::empty(),
            )) by {
                reveal(list_code);
            }
            lemma_direct(ops, m, st, args, fid, inst, e.ty, e.line, s1, vs, vars);
            lemma_eq_call(e, vars);
        },
        None => {
            let (s1, f) = gen_scalar(env, st, callee)->Ok_0;
            let (s2, vs) = gen_list(env, s1, args, 0, Seq::empty())->Ok_0;
            assert(scalar_code(env, st, callee) == gen_scalar(env, st, callee)) by {
                reveal(scalar_code);
            }
            assert(list_code(env, s1, args, 0, Seq::empty()) == gen_list(
                env,
                s1,
                args,
                0,
                Seq::empty(),
            )) by {
                reveal(list_code);
            }
            lemma_indirect(ops, m, st, e, callee, args, s1, f, s2, vs, end, v, vars);
        },
    }
}

} // verus!
