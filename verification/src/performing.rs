//! That the code of statements does what they do.
use vstd::prelude::*;

use crate::assigning::law_assign;
use crate::ast::{ExprView, StmtView};
use crate::branching::{law_if_stmt, law_match_stmt};
use crate::computing::{
    after, computes, holds, lemma_before, lemma_placed, lemma_within, placed, reached, scalar_code,
    within,
};
use crate::evaluate::{eval, worth, Eval, Setting, Vars};
use crate::expressions::{law_expression, law_scalar};
use crate::ir::Op;
use crate::looping::{law_for, law_while};
use crate::lower::{gen_expr, gen_return, gen_scalar, gen_stmt, gen_stmts, put, LowEnv, LowView};
use crate::machine::{leads, step, word, End, Machine};
use crate::meaning::{begins, lemma_leads_here, lemma_leads_on, lemma_leads_step};
use crate::statements::{
    dropped, exec_for, exec_if, exec_loop, exec_match, exec_stmt, exec_stmts, give_back, set_local,
    stopped, Exec,
};
use crate::writing::{calm, write_gen_expr, write_gen_stmt, write_gen_stmts, wrote};

verus! {

// -- What code does ---------------------------------------------------------

pub open spec fn returned(v: Option<int>) -> Option<u64> {
    match v {
        Some(x) => Some(word(x)),
        None => None,
    }
}

/// The machine comes to this one, at the place, which holds these variables.
pub open spec fn arrives(
    ops: Seq<Op>,
    m: Machine,
    at: int,
    m2: Machine,
    vars: Vars,
    around: Setting,
) -> bool {
    &&& leads(ops, m, End::At(m2))
    &&& m2.at == at
    &&& holds(m2, vars)
    &&& vars.around == around
}

/// The machine comes to this one, at a jump to the block.
pub open spec fn jumping(
    ops: Seq<Op>,
    m: Machine,
    b: usize,
    m2: Machine,
    vars: Vars,
    around: Setting,
) -> bool {
    &&& arrives(ops, m, m2.at, m2, vars, around)
    &&& 0 <= m2.at < ops.len()
    &&& ops[m2.at] == Op::Jump(b)
}

/// The machine, about to run the code that `end` adds to `st`, ends as the
/// statement does: behind that code, at a jump out of or to the next turn of
/// the loop around, returning or panicking.
pub open spec fn performs(
    ops: Seq<Op>,
    m: Machine,
    st: LowView,
    end: LowView,
    x: Exec,
    around: Setting,
) -> bool {
    match x {
        Exec::Unfinished => true,
        Exec::Panic(rt, line, w) => leads(ops, m, End::Panic(rt, line, w)),
        Exec::Return(v, w) => leads(ops, m, End::Return(returned(v), w)),
        Exec::Next(vars) => !end.f.terminated && exists|m2: Machine| #[trigger]
            arrives(ops, m, end.f.ops.len() as int, m2, vars, around),
        Exec::Break(vars) => st.f.loops.len() > 0 && exists|m2: Machine| #[trigger]
            jumping(ops, m, st.f.loops.last().0, m2, vars, around),
        Exec::Continue(vars) => st.f.loops.len() > 0 && exists|m2: Machine| #[trigger]
            jumping(ops, m, st.f.loops.last().1, m2, vars, around),
    }
}

/// A machine behind the code shows that the statement passes control on.
pub proof fn lemma_next(
    ops: Seq<Op>,
    m: Machine,
    st: LowView,
    end: LowView,
    vars: Vars,
    around: Setting,
    m2: Machine,
)
    requires
        !end.f.terminated,
        arrives(ops, m, end.f.ops.len() as int, m2, vars, around),
    ensures
        performs(ops, m, st, end, Exec::Next(vars), around),
{
    let x = Exec::Next(vars);
    assert(arrives(ops, m, end.f.ops.len() as int, m2, x->Next_0, around));
}

/// The machine that a statement leaves.
pub open spec fn behind_stmt(
    ops: Seq<Op>,
    m: Machine,
    end: LowView,
    vars: Vars,
    around: Setting,
) -> Machine {
    choose|m2: Machine| #[trigger]
        arrives(ops, m, end.f.ops.len() as int, m2, vars, around)
}

/// A part has run; the rest goes on from there.
pub proof fn lemma_onward(
    ops: Seq<Op>,
    m: Machine,
    m1: Machine,
    st: LowView,
    mid: LowView,
    end: LowView,
    x: Exec,
    around: Setting,
)
    requires
        leads(ops, m, End::At(m1)),
        mid.f.loops == st.f.loops,
        performs(ops, m1, mid, end, x, around),
    ensures
        performs(ops, m, st, end, x, around),
{
    match x {
        Exec::Unfinished => {},
        Exec::Panic(rt, line, w) => lemma_leads_on(ops, m, m1, End::Panic(rt, line, w)),
        Exec::Return(v, w) => lemma_leads_on(ops, m, m1, End::Return(returned(v), w)),
        Exec::Next(vars) => {
            let m2 = behind_stmt(ops, m1, end, vars, around);
            lemma_leads_on(ops, m, m1, End::At(m2));
            assert(arrives(ops, m, end.f.ops.len() as int, m2, x->Next_0, around));
        },
        Exec::Break(vars) => {
            let b = st.f.loops.last().0;
            let m2 = choose|m2: Machine| #[trigger] jumping(ops, m1, b, m2, vars, around);
            lemma_leads_on(ops, m, m1, End::At(m2));
            assert(jumping(ops, m, b, m2, x->Break_0, around));
        },
        Exec::Continue(vars) => {
            let b = st.f.loops.last().1;
            let m2 = choose|m2: Machine| #[trigger] jumping(ops, m1, b, m2, vars, around);
            lemma_leads_on(ops, m, m1, End::At(m2));
            assert(jumping(ops, m, b, m2, x->Continue_0, around));
        },
    }
}

/// What passes no control on does not ask where the code ends.
pub proof fn lemma_away(
    ops: Seq<Op>,
    m: Machine,
    st: LowView,
    end: LowView,
    x: Exec,
    around: Setting,
    st2: LowView,
    end2: LowView,
)
    requires
        x !is Next,
        performs(ops, m, st, end, x, around),
        st2.f.loops == st.f.loops,
    ensures
        performs(ops, m, st2, end2, x, around),
{
}

/// An expression without a value stops the statement.
pub proof fn lemma_stopped(
    ops: Seq<Op>,
    m: Machine,
    st: LowView,
    s1: LowView,
    v: Option<usize>,
    ev: Eval,
    around: Setting,
    st2: LowView,
    end: LowView,
)
    requires
        ev is Panic || ev is Unfinished,
        computes(ops, m, st, s1, v, ev, around),
    ensures
        performs(ops, m, st2, end, stopped(ev), around),
{
}

// -- Code of parts ----------------------------------------------------------

#[verifier::opaque]
pub open spec fn stmt_code(env: LowEnv, st: LowView, s: StmtView) -> Result<LowView, Seq<char>> {
    gen_stmt(env, st, s)
}

#[verifier::opaque]
pub open spec fn stmts_code(env: LowEnv, st: LowView, ss: Seq<StmtView>, i: nat) -> Result<
    LowView,
    Seq<char>,
> {
    gen_stmts(env, st, ss, i)
}

pub proof fn lemma_stmts_parts(env: LowEnv, st: LowView, ss: Seq<StmtView>, i: nat)
    requires
        stmts_code(env, st, ss, i) is Ok,
        !st.f.terminated,
    ensures
        ({
            let end = stmts_code(env, st, ss, i)->Ok_0;
            let s1 = stmt_code(env, st, ss[i as int])->Ok_0;
            &&& wrote(end, st)
            &&& end.f.loops == st.f.loops
            &&& st.f.ops.len() <= end.f.ops.len()
            &&& i >= ss.len() ==> end == st
            &&& i < ss.len() ==> {
                &&& stmt_code(env, st, ss[i as int]) is Ok
                &&& s1.f.terminated ==> end == s1
                &&& !s1.f.terminated ==> stmts_code(env, s1, ss, i + 1) == Ok::<
                    LowView,
                    Seq<char>,
                >(end)
                &&& wrote(end, s1)
                &&& wrote(s1, st)
                &&& s1.f.loops == st.f.loops
            }
        }),
{
    reveal(stmts_code);
    reveal(stmt_code);
    write_gen_stmts(env, st, ss, i);
    let end = gen_stmts(env, st, ss, i)->Ok_0;
    if i < ss.len() {
        write_gen_stmt(env, st, ss[i as int]);
        let s1 = gen_stmt(env, st, ss[i as int])->Ok_0;
        write_gen_stmts(env, s1, ss, i + 1);
        assert(gen_stmts(env, s1, ss, i + 1) == Ok::<LowView, Seq<char>>(end));
    }
    reveal(wrote);
}

// -- Sequences --------------------------------------------------------------

proof fn lemma_eq_stmts(ss: Seq<StmtView>, i: nat, vars: Vars, fuel: nat)
    ensures
        i >= ss.len() ==> exec_stmts(ss, i, vars, fuel) == Exec::Next(vars),
        i < ss.len() ==> exec_stmts(ss, i, vars, fuel) == (match exec_stmt(
            ss[i as int],
            vars,
            fuel,
        ) {
            Exec::Next(vars1) => exec_stmts(ss, i + 1, vars1, fuel),
            other => other,
        }),
{
    reveal(exec_stmt);
    reveal_with_fuel(exec_stmts, 2);
}

/// The code of statements does what they do, one after the other.
pub proof fn law_statements(
    ops: Seq<Op>,
    m: Machine,
    st: LowView,
    ss: Seq<StmtView>,
    i: nat,
    vars: Vars,
    fuel: nat,
)
    requires
        placed(ops, m, st, vars),
        stmts_code(vars.env(), st, ss, i) is Ok,
        within(ops, stmts_code(vars.env(), st, ss, i)->Ok_0, vars.around),
        !st.f.terminated,
    ensures
        performs(
            ops,
            m,
            st,
            stmts_code(vars.env(), st, ss, i)->Ok_0,
            exec_stmts(ss, i, vars, fuel),
            vars.around,
        ),
    decreases fuel, ss, ss.len() - i,
{
    let env = vars.env();
    let around = vars.around;
    let end = stmts_code(env, st, ss, i)->Ok_0;
    lemma_stmts_parts(env, st, ss, i);
    lemma_eq_stmts(ss, i, vars, fuel);
    if i >= ss.len() {
        lemma_leads_here(ops, m);
        lemma_next(ops, m, st, end, vars, around, m);
    } else {
        let s1 = stmt_code(env, st, ss[i as int])->Ok_0;
        lemma_within(ops, end, s1, around);
        law_stmt(ops, m, st, ss[i as int], vars, fuel);
        let x = exec_stmt(ss[i as int], vars, fuel);
        match x {
            Exec::Next(vars1) => {
                let m1 = behind_stmt(ops, m, s1, vars1, around);
                assert(arrives(ops, m, s1.f.ops.len() as int, m1, vars1, around));
                lemma_placed(ops, m, st, vars, m1, s1, vars1);
                law_statements(ops, m1, s1, ss, i + 1, vars1, fuel);
                lemma_onward(
                    ops,
                    m,
                    m1,
                    st,
                    s1,
                    end,
                    exec_stmts(ss, i + 1, vars1, fuel),
                    around,
                );
            },
            _ => lemma_away(ops, m, st, s1, x, around, st, end),
        }
    }
}

// -- Statements -------------------------------------------------------------

/// The code of a statement does what the statement does.
pub proof fn law_stmt(
    ops: Seq<Op>,
    m: Machine,
    st: LowView,
    s: StmtView,
    vars: Vars,
    fuel: nat,
)
    requires
        placed(ops, m, st, vars),
        stmt_code(vars.env(), st, s) is Ok,
        within(ops, stmt_code(vars.env(), st, s)->Ok_0, vars.around),
        !st.f.terminated,
    ensures
        performs(
            ops,
            m,
            st,
            stmt_code(vars.env(), st, s)->Ok_0,
            exec_stmt(s, vars, fuel),
            vars.around,
        ),
    decreases fuel, s, 11int,
{
    reveal(stmt_code);
    law_statement_over_memory(ops, m, st, s, vars, fuel);
}

/// The code of a statement does what the statement does: it goes on, leaves or
/// goes round the loop around, returns or panics exactly as the statement, with
/// the same value, cause and line, and leaves the same variables and world.
pub proof fn law_statement_over_memory(
    ops: Seq<Op>,
    m: Machine,
    st: LowView,
    s: StmtView,
    vars: Vars,
    fuel: nat,
)
    requires
        placed(ops, m, st, vars),
        gen_stmt(vars.env(), st, s) is Ok,
        within(ops, gen_stmt(vars.env(), st, s)->Ok_0, vars.around),
        !st.f.terminated,
    ensures
        performs(
            ops,
            m,
            st,
            gen_stmt(vars.env(), st, s)->Ok_0,
            exec_stmt(s, vars, fuel),
            vars.around,
        ),
    decreases fuel, s, 10int,
{
    match s {
        StmtView::Let { init, local, .. } => {
            reveal(exec_stmt);
            law_let(ops, m, st, s, vars);
        },
        StmtView::Assign { .. } => {
            reveal(exec_stmt);
            law_assign(ops, m, st, s, vars);
        },
        StmtView::Expr(e) => {
            reveal(exec_stmt);
            law_effect(ops, m, st, e, vars);
        },
        StmtView::If { .. } => {
            assert(exec_stmt(s, vars, fuel) == exec_if(s, vars, fuel)) by {
                reveal(exec_stmt);
            }
            law_if_stmt(ops, m, st, s, vars, fuel);
        },
        StmtView::While { .. } => {
            assert(exec_stmt(s, vars, fuel) == exec_loop(s, vars, fuel)) by {
                reveal(exec_stmt);
            }
            law_while(ops, m, st, s, vars, fuel);
        },
        StmtView::For { .. } => {
            assert(exec_stmt(s, vars, fuel) == exec_for(s, vars, fuel)) by {
                reveal(exec_stmt);
            }
            law_for(ops, m, st, s, vars, fuel);
        },
        StmtView::Return { value, .. } => {
            reveal(exec_stmt);
            law_return(ops, m, st, value, vars);
        },
        StmtView::Break(_) => {
            reveal(exec_stmt);
            law_jump(ops, m, st, s, vars, fuel);
        },
        StmtView::Continue(_) => {
            reveal(exec_stmt);
            law_jump(ops, m, st, s, vars, fuel);
        },
        StmtView::Block(b) => {
            assert(exec_stmt(s, vars, fuel) == exec_stmts(b.stmts, 0, vars, fuel)) by {
                reveal(exec_stmt);
                reveal_with_fuel(exec_stmts, 2);
            }
            assert(stmts_code(vars.env(), st, b.stmts, 0) == gen_stmts(
                vars.env(),
                st,
                b.stmts,
                0,
            )) by {
                reveal(stmts_code);
            }
            law_statements(ops, m, st, b.stmts, 0, vars, fuel);
        },
        StmtView::Match { .. } => {
            assert(exec_stmt(s, vars, fuel) == exec_match(s, vars, fuel)) by {
                reveal(exec_stmt);
            }
            law_match_stmt(ops, m, st, s, vars, fuel);
        },
    }
}

/// A variable is set to a computed value.
pub proof fn lemma_set(
    ops: Seq<Op>,
    m: Machine,
    st: LowView,
    mid: LowView,
    v: usize,
    i: u32,
    ev: Eval,
    vars: Vars,
)
    requires
        computes(ops, m, st, mid, Some(v), ev, vars.around),
        ev !is Nothing,
        i < vars.env().locals,
        vars.env().locals <= usize::MAX,
        !mid.f.terminated,
        begins(ops, put(mid, Op::DefVar(i as usize, v))),
    ensures
        performs(
            ops,
            m,
            st,
            put(mid, Op::DefVar(i as usize, v)),
            set_local(i as int, ev),
            vars.around,
        ),
{
    let around = vars.around;
    let end = put(mid, Op::DefVar(i as usize, v));
    match ev {
        Eval::Value(x, vars1) => {
            let m1 = after(ops, m, st, mid, v, x, vars1, around);
            assert(reached(ops, m, st, mid, m1, vars1, around));
            let n = mid.f.ops.len() as int;
            assert(ops[n] == end.f.ops[n]);
            let m2 = Machine { at: n + 1, vars: m1.vars.insert(i as int, word(x)), ..m1 };
            assert(step(ops, m1) == Some(End::At(m2)));
            lemma_leads_step(ops, m1, End::At(m2));
            lemma_leads_on(ops, m, m1, End::At(m2));
            let vars2 = vars1.insert(i as int, x);
            assert(holds(m2, vars2));
            assert(arrives(ops, m, n + 1, m2, vars2, around));
            lemma_next(ops, m, st, end, vars2, around, m2);
        },
        _ => {},
    }
}

proof fn law_let(ops: Seq<Op>, m: Machine, st: LowView, s: StmtView, vars: Vars)
    requires
        s is Let,
        placed(ops, m, st, vars),
        gen_stmt(vars.env(), st, s) is Ok,
        within(ops, gen_stmt(vars.env(), st, s)->Ok_0, vars.around),
        !st.f.terminated,
    ensures
        performs(
            ops,
            m,
            st,
            gen_stmt(vars.env(), st, s)->Ok_0,
            set_local(s->Let_local as int, worth(eval(s->Let_init, vars))),
            vars.around,
        ),
{
    let env = vars.env();
    let (s1, v) = gen_scalar(env, st, s->Let_init)->Ok_0;
    let end = gen_stmt(env, st, s)->Ok_0;
    assert(scalar_code(env, st, s->Let_init) == gen_scalar(env, st, s->Let_init)) by {
        reveal(scalar_code);
    }
    lemma_before(ops, end, s1, vars.around);
    law_scalar(ops, m, st, s->Let_init, vars);
    lemma_calm_flow(s1, st);
    lemma_set(ops, m, st, s1, v, s->Let_local, worth(eval(s->Let_init, vars)), vars);
}

pub proof fn lemma_calm_flow(end: LowView, st: LowView)
    requires
        calm(end, st),
    ensures
        end.f.terminated == st.f.terminated,
        end.f.loops == st.f.loops,
        wrote(end, st),
        st.f.ops.len() <= end.f.ops.len(),
{
    reveal(calm);
    reveal(wrote);
}

/// An expression as a statement.
proof fn law_effect(ops: Seq<Op>, m: Machine, st: LowView, e: ExprView, vars: Vars)
    requires
        placed(ops, m, st, vars),
        gen_expr(vars.env(), st, e) is Ok,
        within(ops, gen_expr(vars.env(), st, e)->Ok_0.0, vars.around),
        !st.f.terminated,
    ensures
        performs(
            ops,
            m,
            st,
            gen_expr(vars.env(), st, e)->Ok_0.0,
            dropped(eval(e, vars)),
            vars.around,
        ),
{
    let around = vars.around;
    let (s1, v) = gen_expr(vars.env(), st, e)->Ok_0;
    write_gen_expr(vars.env(), st, e);
    lemma_calm_flow(s1, st);
    law_expression(ops, m, st, e, vars);
    match eval(e, vars) {
        Eval::Value(x, vars1) => {
            let m1 = after(ops, m, st, s1, v->0, x, vars1, around);
            assert(reached(ops, m, st, s1, m1, vars1, around));
            lemma_next(ops, m, st, s1, vars1, around, m1);
        },
        Eval::Nothing(vars1) => {
            let m1 = choose|m1: Machine| #[trigger] reached(ops, m, st, s1, m1, vars1, around);
            lemma_next(ops, m, st, s1, vars1, around, m1);
        },
        _ => {},
    }
}

proof fn law_return(ops: Seq<Op>, m: Machine, st: LowView, value: Option<ExprView>, vars: Vars)
    requires
        placed(ops, m, st, vars),
        gen_return(vars.env(), st, value) is Ok,
        within(ops, gen_return(vars.env(), st, value)->Ok_0, vars.around),
    ensures
        performs(
            ops,
            m,
            st,
            gen_return(vars.env(), st, value)->Ok_0,
            give_back(value, vars),
            vars.around,
        ),
{
    let env = vars.env();
    let around = vars.around;
    let end = gen_return(env, st, value)->Ok_0;
    match value {
        None => {
            let n = st.f.ops.len() as int;
            assert(ops[n] == end.f.ops[n]);
            assert(step(ops, m) == Some(End::Return(None, m.world)));
            lemma_leads_step(ops, m, End::Return(None, m.world));
        },
        Some(e) => {
            let (s1, v) = gen_scalar(env, st, e)->Ok_0;
            assert(scalar_code(env, st, e) == gen_scalar(env, st, e)) by {
                reveal(scalar_code);
            }
            lemma_before(ops, end, s1, around);
            law_scalar(ops, m, st, e, vars);
            let n = s1.f.ops.len() as int;
            assert(ops[n] == end.f.ops[n]);
            match worth(eval(e, vars)) {
                Eval::Value(x, vars1) => {
                    let m1 = after(ops, m, st, s1, v, x, vars1, around);
                    assert(reached(ops, m, st, s1, m1, vars1, around));
                    let r = End::Return(Some(word(x)), m1.world);
                    assert(step(ops, m1) == Some(r));
                    lemma_leads_step(ops, m1, r);
                    lemma_leads_on(ops, m, m1, r);
                },
                ev => lemma_stopped(ops, m, st, s1, Some(v), ev, around, st, end),
            }
        },
    }
}

/// `break` and `continue` come to a jump to their targets.
proof fn law_jump(ops: Seq<Op>, m: Machine, st: LowView, s: StmtView, vars: Vars, fuel: nat)
    requires
        s is Break || s is Continue,
        placed(ops, m, st, vars),
        gen_stmt(vars.env(), st, s) is Ok,
        within(ops, gen_stmt(vars.env(), st, s)->Ok_0, vars.around),
    ensures
        performs(
            ops,
            m,
            st,
            gen_stmt(vars.env(), st, s)->Ok_0,
            if s is Break {
                Exec::Break(vars)
            } else {
                Exec::Continue(vars)
            },
            vars.around,
        ),
{
    let end = gen_stmt(vars.env(), st, s)->Ok_0;
    let n = st.f.ops.len() as int;
    assert(ops[n] == end.f.ops[n]);
    lemma_leads_here(ops, m);
    let x = if s is Break {
        Exec::Break(vars)
    } else {
        Exec::Continue(vars)
    };
    if s is Break {
        assert(jumping(ops, m, st.f.loops.last().0, m, x->Break_0, vars.around));
    } else {
        assert(jumping(ops, m, st.f.loops.last().1, m, x->Continue_0, vars.around));
    }
}

} // verus!
