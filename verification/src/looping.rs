//! That the code of loops does what they do.
use vstd::prelude::*;

use crate::ast::{ExprView, StmtView};
use crate::branching::lemma_jump;
use crate::computing::{
    after, holds, lemma_before, lemma_part, lemma_placed, lemma_scalar_calm, lemma_within, placed,
    reached, scalar_code, within,
};
use crate::evaluate::{eval, worth, Eval, Setting, Vars};
use crate::expressions::law_scalar;
use crate::ir::Op;
use crate::lower::{
    enter_loop, flow_to, gen_block, gen_for, gen_for_cond, gen_opt_stmt, gen_scalar, gen_stmt,
    gen_stmts, gen_while, leave_loop, next, put, start, LowEnv, LowView,
};
use crate::machine::{leads, start_from, step, End, Machine};
use crate::meaning::{
    lemma_leads_here, lemma_leads_on, lemma_leads_step, lemma_start, lemma_step_then, lemma_word,
};
use crate::performing::{
    arrives, behind_stmt, jumping, law_statements, law_stmt, lemma_away, lemma_calm_flow,
    lemma_next, lemma_onward, lemma_stmts_parts, lemma_stopped, performs, returned, stmt_code,
    stmts_code,
};
use crate::statements::{
    after_turn, exec_for, exec_loop, exec_stmt, exec_stmts, goes_round, step_on, stopped, Exec,
};
use crate::writing::{
    calm, fuller, goes_on, lemma_wrote, more_unit, tidy, write_gen_for_cond, write_gen_opt_stmt,
    write_gen_scalar, wrote,
};

verus! {

// -- Turns ------------------------------------------------------------------

/// The statements of a loop.
pub open spec fn turn_of(s: StmtView) -> Seq<StmtView> {
    match s {
        StmtView::While { body, .. } => body.stmts,
        StmtView::For { body, .. } => body.stmts,
        _ => Seq::empty(),
    }
}

proof fn lemma_eq_loop(s: StmtView, vars: Vars, fuel: nat)
    requires
        fuel > 0,
        s is While || s is For,
    ensures
        exec_loop(s, vars, fuel) == (match goes_round(s, vars) {
            Eval::Value(x, vars1) => if x == 0 {
                Exec::Next(vars1)
            } else if x == 1 {
                after_turn(s, exec_stmts(turn_of(s), 0, vars1, fuel), fuel)
            } else {
                Exec::Unfinished
            },
            other => stopped(other),
        }),
{
    reveal(exec_stmt);
    reveal_with_fuel(exec_stmts, 2);
}

proof fn lemma_eq_turn(s: StmtView, turn: Exec, fuel: nat)
    requires
        fuel > 0,
    ensures
        after_turn(s, turn, fuel) == (match turn {
            Exec::Break(vars) => Exec::Next(vars),
            Exec::Next(vars) => step_on(s, vars, fuel),
            Exec::Continue(vars) => step_on(s, vars, fuel),
            other => other,
        }),
{
    reveal(exec_stmt);
}

proof fn lemma_eq_step(s: StmtView, vars: Vars, fuel: nat)
    requires
        fuel > 0,
        s is While || s is For,
    ensures
        s is While || s->For_step is None ==> step_on(s, vars, fuel) == exec_loop(
            s,
            vars,
            (fuel - 1) as nat,
        ),
        s is For && s->For_step is Some ==> step_on(s, vars, fuel) == (match exec_stmt(
            *s->For_step->0,
            vars,
            fuel,
        ) {
            Exec::Next(vars1) => exec_loop(s, vars1, (fuel - 1) as nat),
            other => other,
        }),
{
    reveal(exec_stmt);
    reveal_with_fuel(exec_loop, 2);
}

/// The condition of a loop: control goes on in the body or behind the loop.
proof fn lemma_round(
    ops: Seq<Op>,
    m: Machine,
    h: LowView,
    e: ExprView,
    s5: LowView,
    c: usize,
    body: usize,
    jb: int,
    exit: usize,
    je: int,
    vars: Vars,
    st: LowView,
    end: LowView,
)
    requires
        placed(ops, m, h, vars),
        scalar_code(vars.env(), h, e) == Ok::<(LowView, usize), Seq<char>>((s5, c)),
        within(ops, s5, vars.around),
        s5.f.ops.len() < ops.len(),
        ops[s5.f.ops.len() as int] == Op::Brif(c, body, exit),
        0 <= jb < ops.len(),
        ops[jb] == Op::SwitchTo(body),
        start_from(ops, body, 0) == Some(jb),
        0 <= je < ops.len(),
        ops[je] == Op::SwitchTo(exit),
        start_from(ops, exit, 0) == Some(je),
    ensures
        match worth(eval(e, vars)) {
            Eval::Value(x, vars1) => {
                &&& x == 1 ==> exists|m2: Machine| #[trigger]
                    arrives(ops, m, jb + 1, m2, vars1, vars.around)
                &&& x == 0 ==> exists|m2: Machine| #[trigger]
                    arrives(ops, m, je + 1, m2, vars1, vars.around)
            },
            other => performs(ops, m, st, end, stopped(other), vars.around),
        },
{
    let around = vars.around;
    law_scalar(ops, m, h, e, vars);
    let ev = worth(eval(e, vars));
    match ev {
        Eval::Value(x, vars1) => {
            let m1 = after(ops, m, h, s5, c, x, vars1, around);
            assert(reached(ops, m, h, s5, m1, vars1, around));
            if x == 0 || x == 1 {
                let j = if x == 1 {
                    jb
                } else {
                    je
                };
                let m2 = Machine { at: j, ..m1 };
                let m3 = Machine { at: j + 1, ..m1 };
                lemma_word(x);
                assert(step(ops, m1) == Some(End::At(m2)));
                assert(step(ops, m2) == Some(End::At(m3)));
                lemma_leads_step(ops, m2, End::At(m3));
                lemma_step_then(ops, m1, m2, End::At(m3));
                lemma_leads_on(ops, m, m1, End::At(m3));
                assert(holds(m3, vars1));
                assert(arrives(ops, m, j + 1, m3, ev->Value_1, around));
            }
        },
        _ => lemma_stopped(ops, m, h, s5, Some(c), ev, around, st, end),
    }
}

/// A jump that code has come to goes on behind the beginning of its block.
proof fn lemma_arrive(
    ops: Seq<Op>,
    m: Machine,
    b: usize,
    j: int,
    m1: Machine,
    vars: Vars,
    around: Setting,
)
    requires
        jumping(ops, m, b, m1, vars, around),
        0 <= j < ops.len(),
        ops[j] == Op::SwitchTo(b),
        start_from(ops, b, 0) == Some(j),
    ensures
        arrives(ops, m, j + 1, (Machine { at: j + 1, ..m1 }), vars, around),
{
    lemma_jump(ops, m1, b, j);
    let m2 = Machine { at: j + 1, ..m1 };
    lemma_leads_on(ops, m, m1, End::At(m2));
    assert(holds(m2, vars));
}

/// The variables that a turn leaves.
pub open spec fn left_of(turn: Exec) -> Vars {
    match turn {
        Exec::Next(v) => v,
        Exec::Continue(v) => v,
        Exec::Break(v) => v,
        _ => arbitrary(),
    }
}

/// What a turn of a loop leads to: the loop is left, the next turn begins at
/// the place, or the loop ends as the turn did.
pub open spec fn turned(
    ops: Seq<Op>,
    m: Machine,
    st: LowView,
    end: LowView,
    turn: Exec,
    at: int,
    around: Setting,
) -> bool {
    match turn {
        Exec::Break(v) => performs(ops, m, st, end, Exec::Next(v), around),
        Exec::Panic(_, _, _) | Exec::Return(_, _) | Exec::Unfinished => performs(
            ops,
            m,
            st,
            end,
            turn,
            around,
        ),
        _ => exists|m4: Machine| #[trigger] arrives(ops, m, at, m4, left_of(turn), around),
    }
}

/// A turn of a loop has run: control is behind the loop, or where the next
/// turn begins, or the loop ends as the turn did.
#[verifier::rlimit(30)]
proof fn lemma_turn(
    ops: Seq<Op>,
    m: Machine,
    m2: Machine,
    st: LowView,
    s6: LowView,
    s7: LowView,
    turn: Exec,
    again: usize,
    ja: int,
    exit: usize,
    je: int,
    end: LowView,
    around: Setting,
)
    requires
        leads(ops, m, End::At(m2)),
        performs(ops, m2, s6, s7, turn, around),
        s6.f.loops == st.f.loops.push((exit, again)),
        !s7.f.terminated ==> s7.f.ops.len() < ops.len() && ops[s7.f.ops.len() as int] == Op::Jump(
            again,
        ),
        0 <= ja < ops.len(),
        ops[ja] == Op::SwitchTo(again),
        start_from(ops, again, 0) == Some(ja),
        0 <= je < ops.len(),
        ops[je] == Op::SwitchTo(exit),
        start_from(ops, exit, 0) == Some(je),
        end.f.ops.len() == je + 1,
        !end.f.terminated,
    ensures
        turned(ops, m, st, end, turn, ja + 1, around),
{
    assert(s6.f.loops.last() == (exit, again));
    match turn {
        Exec::Break(v) => {
            let m3 = choose|m3: Machine| #[trigger] jumping(ops, m2, exit, m3, v, around);
            lemma_arrive(ops, m2, exit, je, m3, v, around);
            let m4 = Machine { at: je + 1, ..m3 };
            lemma_leads_on(ops, m, m2, End::At(m4));
            lemma_next(ops, m, st, end, v, around, m4);
        },
        Exec::Next(v) => {
            let m3 = behind_stmt(ops, m2, s7, v, around);
            assert(arrives(ops, m2, s7.f.ops.len() as int, m3, v, around));
            assert(jumping(ops, m2, again, m3, v, around));
            lemma_arrive(ops, m2, again, ja, m3, v, around);
            let m4 = Machine { at: ja + 1, ..m3 };
            lemma_leads_on(ops, m, m2, End::At(m4));
            assert(arrives(ops, m, ja + 1, m4, left_of(turn), around));
        },
        Exec::Continue(v) => {
            let m3 = choose|m3: Machine| #[trigger] jumping(ops, m2, again, m3, v, around);
            lemma_arrive(ops, m2, again, ja, m3, v, around);
            let m4 = Machine { at: ja + 1, ..m3 };
            lemma_leads_on(ops, m, m2, End::At(m4));
            assert(arrives(ops, m, ja + 1, m4, left_of(turn), around));
        },
        Exec::Panic(rt, line, w) => lemma_leads_on(ops, m, m2, End::Panic(rt, line, w)),
        Exec::Return(v, w) => lemma_leads_on(ops, m, m2, End::Return(returned(v), w)),
        Exec::Unfinished => {},
    }
}

// -- While ------------------------------------------------------------------

/// Where the condition is written.
pub open spec fn while_head(st: LowView) -> LowView {
    let s3 = put(put(put(st, Op::Block), Op::Block), Op::Block);
    put(put(s3, Op::Jump(next(st))), Op::SwitchTo(next(st)))
}

/// Where the body is.
pub open spec fn while_body(s5: LowView, c: usize, st: LowView) -> LowView {
    let s1 = put(st, Op::Block);
    let (body, exit) = (next(s1), next(put(s1, Op::Block)));
    enter_loop(put(put(s5, Op::Brif(c, body, exit)), Op::SwitchTo(body)), exit, next(st))
}

/// Behind the loop.
pub open spec fn while_end(s7: LowView, st: LowView) -> LowView {
    let exit = next(put(put(st, Op::Block), Op::Block));
    start(flow_to(leave_loop(s7), next(st)), exit)
}

/// A loop runs its body as long as the condition holds.
pub proof fn law_while(
    ops: Seq<Op>,
    m: Machine,
    st: LowView,
    s: StmtView,
    vars: Vars,
    fuel: nat,
)
    requires
        s is While,
        placed(ops, m, st, vars),
        gen_stmt(vars.env(), st, s) is Ok,
        within(ops, gen_stmt(vars.env(), st, s)->Ok_0, vars.around),
        !st.f.terminated,
    ensures
        performs(
            ops,
            m,
            st,
            gen_stmt(vars.env(), st, s)->Ok_0,
            exec_loop(s, vars, fuel),
            vars.around,
        ),
    decreases fuel, s, 9int,
{
    let env = vars.env();
    let r = gen_while(env, st, s);
    assert(gen_stmt(env, st, s) == r);
    let h = while_head(st);
    let (s5, c) = gen_scalar(env, h, s->While_cond)->Ok_0;
    let s6 = while_body(s5, c, st);
    let s7 = gen_stmts(env, s6, s->While_body.stmts, 0)->Ok_0;
    assert(scalar_code(env, h, s->While_cond) == gen_scalar(env, h, s->While_cond)) by {
        reveal(scalar_code);
    }
    assert(stmts_code(env, s6, s->While_body.stmts, 0) == gen_stmts(
        env,
        s6,
        s->While_body.stmts,
        0,
    )) by {
        reveal(stmts_code);
    }
    assert(r == Ok::<LowView, Seq<char>>(while_end(s7, st)));
    lemma_while(ops, m, st, s, s5, c, s7, vars, fuel);
}

/// The code of a `while` loop stands where it says.
#[verifier::opaque]
pub open spec fn while_code(
    ops: Seq<Op>,
    st: LowView,
    s: StmtView,
    s5: LowView,
    c: usize,
    s7: LowView,
    around: Setting,
    env: LowEnv,
) -> bool {
    let n = st.f.ops.len() as int;
    let h = while_head(st);
    let s6 = while_body(s5, c, st);
    let end = while_end(s7, st);
    &&& s is While
    &&& scalar_code(env, h, s->While_cond) == Ok::<(LowView, usize), Seq<char>>((s5, c))
    &&& stmts_code(env, s6, s->While_body.stmts, 0) == Ok::<LowView, Seq<char>>(s7)
    &&& within(ops, end, around)
    &&& within(ops, s5, around)
    &&& within(ops, s7, around)
    &&& wrote(h, st)
    &&& tidy(s6.g)
    &&& s6.f.loops == st.f.loops.push(((n + 2) as usize, n as usize))
    &&& !s6.f.terminated
    &&& n + 5 <= s5.f.ops.len()
    &&& s6.f.ops.len() == s5.f.ops.len() + 2
    &&& ops[s5.f.ops.len() as int] == Op::Brif(c, (n + 1) as usize, (n + 2) as usize)
    &&& ops[n + 4] == Op::SwitchTo(n as usize)
    &&& ops[s5.f.ops.len() as int + 1] == Op::SwitchTo((n + 1) as usize)
    &&& ops[end.f.ops.len() - 1] == Op::SwitchTo((n + 2) as usize)
    &&& !s7.f.terminated ==> ops[s7.f.ops.len() as int] == Op::Jump(n as usize)
    &&& s5.f.ops.len() + 2 <= s7.f.ops.len() < end.f.ops.len() <= ops.len()
    &&& start_from(ops, n as usize, 0) == Some(n + 4)
    &&& start_from(ops, (n + 1) as usize, 0) == Some(s5.f.ops.len() as int + 1)
    &&& start_from(ops, (n + 2) as usize, 0) == Some(end.f.ops.len() - 1)
}

#[verifier::rlimit(50)]
proof fn lemma_while_code(
    ops: Seq<Op>,
    m: Machine,
    st: LowView,
    s: StmtView,
    s5: LowView,
    c: usize,
    s7: LowView,
    vars: Vars,
)
    requires
        s is While,
        placed(ops, m, st, vars),
        scalar_code(vars.env(), while_head(st), s->While_cond) == Ok::<
            (LowView, usize),
            Seq<char>,
        >((s5, c)),
        stmts_code(vars.env(), while_body(s5, c, st), s->While_body.stmts, 0) == Ok::<
            LowView,
            Seq<char>,
        >(s7),
        within(ops, while_end(s7, st), vars.around),
        !st.f.terminated,
    ensures
        while_code(ops, st, s, s5, c, s7, vars.around, vars.env()),
        within(ops, while_head(st), vars.around),
        wrote(while_head(st), st),
        start_from(ops, st.f.ops.len() as usize, 0) == Some(st.f.ops.len() as int + 4),
{
    reveal(while_code);
    let env = vars.env();
    let around = vars.around;
    let n = st.f.ops.len() as int;
    let h = while_head(st);
    let s6 = while_body(s5, c, st);
    let end = while_end(s7, st);
    let (header, body, exit) = (n as usize, (n + 1) as usize, (n + 2) as usize);
    lemma_before(ops, end, s7, around);
    lemma_stmts_parts(env, s6, s->While_body.stmts, 0);
    lemma_within(ops, s7, s6, around);
    lemma_before(ops, s6, s5, around);
    lemma_scalar_calm(env, h, s->While_cond);
    lemma_part(ops, s5, h, around);
    lemma_calm_flow(s5, h);
    let q = s5.f.ops.len() as int;
    let r = s7.f.ops.len() as int;
    let u = end.f.ops.len() - 1;
    assert(next(st) == header && next(put(st, Op::Block)) == body && next(
        put(put(st, Op::Block), Op::Block),
    ) == exit);
    assert(ops[n] == h.f.ops[n] && ops[n + 1] == h.f.ops[n + 1] && ops[n + 2] == h.f.ops[n + 2]
        && ops[n + 3] == h.f.ops[n + 3] && ops[n + 4] == h.f.ops[n + 4]);
    assert(ops[q] == s6.f.ops[q] && ops[q + 1] == s6.f.ops[q + 1]);
    assert(ops[u] == end.f.ops[u]);
    assert(!s7.f.terminated ==> ops[r] == end.f.ops[r]);
    lemma_start(ops, header, n + 4);
    assert forall|i: int| n + 4 < i < q implies #[trigger] ops[i] != Op::SwitchTo(body) && ops[i]
        != Op::SwitchTo(exit) by {
        assert(ops[i] == s5.f.ops[i]);
    }
    lemma_start(ops, body, q + 1);
    assert forall|i: int| exit < i < u implies #[trigger] ops[i] != Op::SwitchTo(exit) by {
        if i >= q + 2 {
            if i < r {
                assert(ops[i] == s7.f.ops[i]);
            } else {
                assert(ops[i] == end.f.ops[i]);
            }
        }
    }
    lemma_start(ops, exit, u);
    assert(wrote(h, st)) by {
        lemma_wrote();
        assert(wrote(st, st));
    }
    assert(tidy(s6.g)) by {
        reveal(wrote);
        reveal(calm);
        reveal(more_unit);
        reveal(fuller);
    }
}

proof fn lemma_while(
    ops: Seq<Op>,
    m: Machine,
    st: LowView,
    s: StmtView,
    s5: LowView,
    c: usize,
    s7: LowView,
    vars: Vars,
    fuel: nat,
)
    requires
        s is While,
        placed(ops, m, st, vars),
        scalar_code(vars.env(), while_head(st), s->While_cond) == Ok::<
            (LowView, usize),
            Seq<char>,
        >((s5, c)),
        stmts_code(vars.env(), while_body(s5, c, st), s->While_body.stmts, 0) == Ok::<
            LowView,
            Seq<char>,
        >(s7),
        within(ops, while_end(s7, st), vars.around),
        !st.f.terminated,
    ensures
        performs(ops, m, st, while_end(s7, st), exec_loop(s, vars, fuel), vars.around),
    decreases fuel, s, 8int,
{
    let around = vars.around;
    let n = st.f.ops.len() as int;
    let h = while_head(st);
    let end = while_end(s7, st);
    lemma_while_code(ops, m, st, s, s5, c, s7, vars);
    let m1 = Machine { at: n + 1, ..m };
    let m2 = Machine { at: n + 2, ..m };
    let m3 = Machine { at: n + 3, ..m };
    let m4 = Machine { at: n + 5, ..m };
    assert(ops[n] == h.f.ops[n] && ops[n + 1] == h.f.ops[n + 1] && ops[n + 2] == h.f.ops[n + 2]
        && ops[n + 3] == h.f.ops[n + 3] && ops[n + 4] == h.f.ops[n + 4]);
    assert(step(ops, m) == Some(End::At(m1)));
    assert(step(ops, m1) == Some(End::At(m2)));
    assert(step(ops, m2) == Some(End::At(m3)));
    lemma_jump(ops, m3, n as usize, n + 4);
    lemma_step_then(ops, m2, m3, End::At(m4));
    lemma_step_then(ops, m1, m2, End::At(m4));
    lemma_step_then(ops, m, m1, End::At(m4));
    assert(holds(m4, vars));
    lemma_placed(ops, m, st, vars, m4, h, vars);
    lemma_while_turns(ops, m4, st, s, s5, c, s7, vars, fuel);
    lemma_onward(ops, m, m4, st, st, end, exec_loop(s, vars, fuel), around);
}

/// One turn, from the condition on.
#[verifier::rlimit(40)]
proof fn lemma_while_turn(
    ops: Seq<Op>,
    m: Machine,
    st: LowView,
    s: StmtView,
    s5: LowView,
    c: usize,
    s7: LowView,
    vars: Vars,
    fuel: nat,
)
    requires
        s is While,
        placed(ops, m, while_head(st), vars),
        while_code(ops, st, s, s5, c, s7, vars.around, vars.env()),
    ensures
        ({
            let end = while_end(s7, st);
            match goes_round(s, vars) {
                Eval::Value(x, vars1) => {
                    &&& x == 0 ==> performs(ops, m, st, end, Exec::Next(vars1), vars.around)
                    &&& x == 1 ==> turned(
                        ops,
                        m,
                        st,
                        end,
                        exec_stmts(turn_of(s), 0, vars1, fuel),
                        st.f.ops.len() as int + 5,
                        vars.around,
                    )
                },
                other => performs(ops, m, st, end, stopped(other), vars.around),
            }
        }),
    decreases fuel, s, 6int,
{
    reveal(while_code);
    let around = vars.around;
    let n = st.f.ops.len() as int;
    let h = while_head(st);
    let s6 = while_body(s5, c, st);
    let end = while_end(s7, st);
    let (header, body, exit) = (n as usize, (n + 1) as usize, (n + 2) as usize);
    let jb = s5.f.ops.len() as int + 1;
    let je = end.f.ops.len() - 1;
    lemma_round(ops, m, h, s->While_cond, s5, c, body, jb, exit, je, vars, st, end);
    if let Eval::Value(x, vars1) = goes_round(s, vars) {
        if x == 0 {
            let m2 = choose|m2: Machine| #[trigger] arrives(ops, m, je + 1, m2, vars1, around);
            lemma_next(ops, m, st, end, vars1, around, m2);
        } else if x == 1 {
            let m2 = choose|m2: Machine| #[trigger] arrives(ops, m, jb + 1, m2, vars1, around);
            assert(placed(ops, m2, s6, vars1));
            assert(decreases_to!(s => s->While_body.stmts));
            law_statements(ops, m2, s6, s->While_body.stmts, 0, vars1, fuel);
            let turn = exec_stmts(s->While_body.stmts, 0, vars1, fuel);
            lemma_turn(ops, m, m2, st, s6, s7, turn, header, n + 4, exit, je, end, around);
        }
    }
}

proof fn lemma_while_turns(
    ops: Seq<Op>,
    m: Machine,
    st: LowView,
    s: StmtView,
    s5: LowView,
    c: usize,
    s7: LowView,
    vars: Vars,
    fuel: nat,
)
    requires
        s is While,
        placed(ops, m, while_head(st), vars),
        while_code(ops, st, s, s5, c, s7, vars.around, vars.env()),
    ensures
        performs(ops, m, st, while_end(s7, st), exec_loop(s, vars, fuel), vars.around),
    decreases fuel, s, 7int,
{
    let around = vars.around;
    let n = st.f.ops.len() as int;
    let h = while_head(st);
    let end = while_end(s7, st);
    if fuel == 0 {
        assert(exec_loop(s, vars, fuel) is Unfinished) by {
            reveal(exec_stmt);
        }
    } else {
        lemma_eq_loop(s, vars, fuel);
        lemma_while_turn(ops, m, st, s, s5, c, s7, vars, fuel);
        if let Eval::Value(x, vars1) = goes_round(s, vars) {
            if x == 1 {
                let turn = exec_stmts(turn_of(s), 0, vars1, fuel);
                lemma_eq_turn(s, turn, fuel);
                if turn is Next || turn is Continue {
                    let v = left_of(turn);
                    let m4 = choose|m4: Machine| #[trigger] arrives(ops, m, n + 5, m4, v, around);
                    assert(arrives(ops, m, n + 5, m4, v, around));
                    lemma_eq_step(s, v, fuel);
                    assert(placed(ops, m4, h, v));
                    lemma_while_turns(ops, m4, st, s, s5, c, s7, v, (fuel - 1) as nat);
                    let out = exec_loop(s, v, (fuel - 1) as nat);
                    lemma_onward(ops, m, m4, st, st, end, out, around);
                }
            }
        }
    }
}

// -- For --------------------------------------------------------------------

/// The code of a statement, if there is one.
#[verifier::opaque]
pub open spec fn opt_code(env: LowEnv, st: LowView, s: Option<Box<StmtView>>) -> Result<
    LowView,
    Seq<char>,
> {
    gen_opt_stmt(env, st, s)
}

/// The code of the condition.
#[verifier::opaque]
pub open spec fn cond_code(
    env: LowEnv,
    st: LowView,
    cond: Option<ExprView>,
    body: usize,
    exit: usize,
) -> Result<LowView, Seq<char>> {
    gen_for_cond(env, st, cond, body, exit)
}

/// A statement, if there is one.
pub open spec fn exec_opt(s: Option<Box<StmtView>>, vars: Vars, fuel: nat) -> Exec {
    match s {
        None => Exec::Next(vars),
        Some(s) => exec_stmt(*s, vars, fuel),
    }
}

proof fn lemma_opt_wrote(env: LowEnv, st: LowView, s: Option<Box<StmtView>>)
    ensures
        opt_code(env, st, s) matches Ok(r) ==> wrote(r, st) && r.f.loops == st.f.loops
            && st.f.ops.len() <= r.f.ops.len(),
{
    reveal(opt_code);
    write_gen_opt_stmt(env, st, s);
    reveal(wrote);
}

proof fn law_opt(
    ops: Seq<Op>,
    m: Machine,
    st: LowView,
    s: Option<Box<StmtView>>,
    vars: Vars,
    fuel: nat,
)
    requires
        placed(ops, m, st, vars),
        opt_code(vars.env(), st, s) is Ok,
        within(ops, opt_code(vars.env(), st, s)->Ok_0, vars.around),
        !st.f.terminated,
    ensures
        performs(
            ops,
            m,
            st,
            opt_code(vars.env(), st, s)->Ok_0,
            exec_opt(s, vars, fuel),
            vars.around,
        ),
    decreases fuel, s, 12int,
{
    reveal(opt_code);
    match s {
        None => {
            lemma_leads_here(ops, m);
            lemma_next(ops, m, st, st, vars, vars.around, m);
        },
        Some(t) => {
            assert(stmt_code(vars.env(), st, *t) == gen_stmt(vars.env(), st, *t)) by {
                reveal(stmt_code);
            }
            assert(decreases_to!(s => *s->0));
            law_stmt(ops, m, st, *t, vars, fuel);
        },
    }
}

/// Where the condition is written.
pub open spec fn for_head(s0: LowView) -> LowView {
    let s4 = put(put(put(put(s0, Op::Block), Op::Block), Op::Block), Op::Block);
    put(put(s4, Op::Jump(next(s0))), Op::SwitchTo(next(s0)))
}

/// Where the body is.
pub open spec fn for_body(s6: LowView, s0: LowView) -> LowView {
    let s1 = put(s0, Op::Block);
    let s2 = put(s1, Op::Block);
    enter_loop(put(s6, Op::SwitchTo(next(s1))), next(put(s2, Op::Block)), next(s2))
}

/// Where the step is.
pub open spec fn for_step(s7: LowView, s0: LowView) -> LowView {
    let step = next(put(put(s0, Op::Block), Op::Block));
    start(flow_to(leave_loop(s7), step), step)
}

/// Behind the loop.
pub open spec fn for_end(s8: LowView, s0: LowView) -> LowView {
    let s3 = put(put(put(s0, Op::Block), Op::Block), Op::Block);
    start(put(s8, Op::Jump(next(s0))), next(s3))
}

proof fn lemma_eq_for(s: StmtView, vars: Vars, fuel: nat)
    requires
        s is For,
    ensures
        exec_for(s, vars, fuel) == (match exec_opt(s->For_init, vars, fuel) {
            Exec::Next(vars1) => exec_loop(s, vars1, fuel),
            other => other,
        }),
        fuel > 0 ==> step_on(s, vars, fuel) == (match exec_opt(s->For_step, vars, fuel) {
            Exec::Next(vars1) => exec_loop(s, vars1, (fuel - 1) as nat),
            other => other,
        }),
{
    reveal(exec_stmt);
    reveal_with_fuel(exec_loop, 2);
}

/// A `for` loop runs its beginning once, and then its body and its step as long
/// as the condition holds.
pub proof fn law_for(
    ops: Seq<Op>,
    m: Machine,
    st: LowView,
    s: StmtView,
    vars: Vars,
    fuel: nat,
)
    requires
        s is For,
        placed(ops, m, st, vars),
        gen_stmt(vars.env(), st, s) is Ok,
        within(ops, gen_stmt(vars.env(), st, s)->Ok_0, vars.around),
        !st.f.terminated,
    ensures
        performs(
            ops,
            m,
            st,
            gen_stmt(vars.env(), st, s)->Ok_0,
            exec_for(s, vars, fuel),
            vars.around,
        ),
    decreases fuel, s, 9int,
{
    let env = vars.env();
    let r = gen_for(env, st, s);
    assert(gen_stmt(env, st, s) == r);
    let s0 = gen_opt_stmt(env, st, s->For_init)->Ok_0;
    let h = for_head(s0);
    let s1 = put(s0, Op::Block);
    let body = next(s1);
    let exit = next(put(put(s1, Op::Block), Op::Block));
    let s6 = gen_for_cond(env, h, s->For_cond, body, exit)->Ok_0;
    let sb = for_body(s6, s0);
    let rb = gen_block(env, sb, s->For_body);
    assert(rb == gen_stmts(env, sb, s->For_body.stmts, 0));
    let s7 = rb->Ok_0;
    let sx = for_step(s7, s0);
    let s8 = gen_opt_stmt(env, sx, s->For_step)->Ok_0;
    assert(opt_code(env, st, s->For_init) == gen_opt_stmt(env, st, s->For_init) && opt_code(
        env,
        sx,
        s->For_step,
    ) == gen_opt_stmt(env, sx, s->For_step)) by {
        reveal(opt_code);
    }
    assert(cond_code(env, h, s->For_cond, body, exit) == gen_for_cond(
        env,
        h,
        s->For_cond,
        body,
        exit,
    )) by {
        reveal(cond_code);
    }
    assert(stmts_code(env, sb, s->For_body.stmts, 0) == gen_stmts(env, sb, s->For_body.stmts, 0))
        by {
        reveal(stmts_code);
    }
    let end = for_end(s8, s0);
    assert(r == Ok::<LowView, Seq<char>>(end));
    let around = vars.around;
    lemma_opt_wrote(env, st, s->For_init);
    lemma_for_within(ops, s, s0, s6, s7, s8, around, env);
    assert(decreases_to!(s => s->For_init));
    law_opt(ops, m, st, s->For_init, vars, fuel);
    lemma_eq_for(s, vars, fuel);
    let out = exec_opt(s->For_init, vars, fuel);
    match out {
        Exec::Next(vars1) => {
            let m1 = behind_stmt(ops, m, s0, vars1, around);
            assert(arrives(ops, m, s0.f.ops.len() as int, m1, vars1, around));
            lemma_placed(ops, m, st, vars, m1, s0, vars1);
            lemma_for(ops, m1, s0, s, s6, s7, s8, vars1, fuel);
            lemma_onward(ops, m, m1, st, s0, end, exec_loop(s, vars1, fuel), around);
        },
        _ => lemma_away(ops, m, st, s0, out, around, st, end),
    }
}

/// The parts of a `for` loop behind its beginning.
pub open spec fn for_parts(
    s: StmtView,
    s0: LowView,
    s6: LowView,
    s7: LowView,
    s8: LowView,
    env: LowEnv,
) -> bool {
    let s1 = put(s0, Op::Block);
    let body = next(s1);
    let exit = next(put(put(s1, Op::Block), Op::Block));
    &&& s is For
    &&& cond_code(env, for_head(s0), s->For_cond, body, exit) == Ok::<LowView, Seq<char>>(s6)
    &&& stmts_code(env, for_body(s6, s0), s->For_body.stmts, 0) == Ok::<LowView, Seq<char>>(s7)
    &&& opt_code(env, for_step(s7, s0), s->For_step) == Ok::<LowView, Seq<char>>(s8)
}

/// The condition of a `for` loop adds code, and ends with a jump.
proof fn lemma_cond(env: LowEnv, h: LowView, cond: Option<ExprView>, body: usize, exit: usize)
    ensures
        cond_code(env, h, cond, body, exit) matches Ok(r) ==> {
            &&& wrote(r, h)
            &&& r.f.loops == h.f.loops
            &&& r.f.ops.len() > h.f.ops.len()
            &&& match cond {
                None => r == put(h, Op::Jump(body)),
                Some(c) => {
                    let s5 = scalar_code(env, h, c);
                    &&& s5 is Ok
                    &&& calm(s5->Ok_0.0, h)
                    &&& h.f.ops.len() <= s5->Ok_0.0.f.ops.len()
                    &&& r == put(s5->Ok_0.0, Op::Brif(s5->Ok_0.1, body, exit))
                },
            }
        },
{
    reveal(cond_code);
    reveal(scalar_code);
    write_gen_for_cond(env, h, cond, body, exit);
    if let Some(c) = cond {
        write_gen_scalar(env, h, c);
        reveal(calm);
    }
    reveal(wrote);
}

proof fn lemma_for_within(
    ops: Seq<Op>,
    s: StmtView,
    s0: LowView,
    s6: LowView,
    s7: LowView,
    s8: LowView,
    around: Setting,
    env: LowEnv,
)
    requires
        for_parts(s, s0, s6, s7, s8, env),
        within(ops, for_end(s8, s0), around),
    ensures
        within(ops, s8, around),
        within(ops, for_step(s7, s0), around),
        within(ops, s7, around),
        within(ops, for_body(s6, s0), around),
        within(ops, s6, around),
        within(ops, for_head(s0), around),
        within(ops, s0, around),
        goes_on(s8, for_step(s7, s0)),
        goes_on(s7, for_body(s6, s0)),
        goes_on(s6, for_head(s0)),
        wrote(s8, for_step(s7, s0)),
        wrote(s7, for_body(s6, s0)),
        wrote(s6, for_head(s0)),
{
    let end = for_end(s8, s0);
    let sx = for_step(s7, s0);
    let sb = for_body(s6, s0);
    let h = for_head(s0);
    lemma_before(ops, end, s8, around);
    lemma_opt_wrote(env, sx, s->For_step);
    lemma_within(ops, s8, sx, around);
    lemma_before(ops, sx, s7, around);
    lemma_stmts_parts(env, sb, s->For_body.stmts, 0);
    lemma_within(ops, s7, sb, around);
    lemma_before(ops, sb, s6, around);
    let s1 = put(s0, Op::Block);
    lemma_cond(env, h, s->For_cond, next(s1), next(put(put(s1, Op::Block), Op::Block)));
    lemma_within(ops, s6, h, around);
    lemma_before(ops, h, s0, around);
}

/// The code of a `for` loop stands where it says.
#[verifier::opaque]
pub open spec fn for_code(
    ops: Seq<Op>,
    s: StmtView,
    s0: LowView,
    s6: LowView,
    s7: LowView,
    s8: LowView,
    around: Setting,
    env: LowEnv,
) -> bool {
    let n = s0.f.ops.len() as int;
    let h = for_head(s0);
    let sb = for_body(s6, s0);
    let sx = for_step(s7, s0);
    let end = for_end(s8, s0);
    let (header, body, step, exit) = (
        n as usize,
        (n + 1) as usize,
        (n + 2) as usize,
        (n + 3) as usize,
    );
    &&& for_parts(s, s0, s6, s7, s8, env)
    &&& cond_code(env, h, s->For_cond, body, exit) == Ok::<LowView, Seq<char>>(s6)
    &&& within(ops, end, around)
    &&& within(ops, s8, around)
    &&& within(ops, s7, around)
    &&& within(ops, s6, around)
    &&& wrote(h, s0)
    &&& tidy(sb.g)
    &&& tidy(sx.g)
    &&& sb.f.loops == s0.f.loops.push((exit, step))
    &&& sx.f.loops == s0.f.loops
    &&& !sb.f.terminated
    &&& !sx.f.terminated
    &&& !end.f.terminated
    &&& sb.f.ops.len() == s6.f.ops.len() + 1
    &&& end.f.ops.len() == s8.f.ops.len() + 2
    &&& s6.f.ops.len() + 1 <= s7.f.ops.len() < sx.f.ops.len() <= s8.f.ops.len()
    &&& end.f.ops.len() <= ops.len()
    &&& h.f.ops.len() == n + 6 <= s6.f.ops.len()
    &&& ops[n + 5] == Op::SwitchTo(header)
    &&& ops[s6.f.ops.len() as int] == Op::SwitchTo(body)
    &&& ops[sx.f.ops.len() - 1] == Op::SwitchTo(step)
    &&& ops[end.f.ops.len() - 1] == Op::SwitchTo(exit)
    &&& ops[s8.f.ops.len() as int] == Op::Jump(header)
    &&& !s7.f.terminated ==> ops[s7.f.ops.len() as int] == Op::Jump(step)
    &&& start_from(ops, header, 0) == Some(n + 5)
    &&& start_from(ops, body, 0) == Some(s6.f.ops.len() as int)
    &&& start_from(ops, step, 0) == Some(sx.f.ops.len() - 1)
    &&& start_from(ops, exit, 0) == Some(end.f.ops.len() - 1)
}

#[verifier::rlimit(50)]
proof fn lemma_for_code(
    ops: Seq<Op>,
    m: Machine,
    s: StmtView,
    s0: LowView,
    s6: LowView,
    s7: LowView,
    s8: LowView,
    vars: Vars,
)
    requires
        placed(ops, m, s0, vars),
        for_parts(s, s0, s6, s7, s8, vars.env()),
        within(ops, for_end(s8, s0), vars.around),
        !s0.f.terminated,
    ensures
        for_code(ops, s, s0, s6, s7, s8, vars.around, vars.env()),
        wrote(for_head(s0), s0),
        start_from(ops, s0.f.ops.len() as usize, 0) == Some(s0.f.ops.len() as int + 5),
{
    reveal(for_code);
    let env = vars.env();
    let around = vars.around;
    let n = s0.f.ops.len() as int;
    let h = for_head(s0);
    let sb = for_body(s6, s0);
    let sx = for_step(s7, s0);
    let end = for_end(s8, s0);
    let (header, body, step, exit) = (
        n as usize,
        (n + 1) as usize,
        (n + 2) as usize,
        (n + 3) as usize,
    );
    lemma_for_within(ops, s, s0, s6, s7, s8, around, env);
    let q = s6.f.ops.len() as int;
    let r = s7.f.ops.len() as int;
    let x = sx.f.ops.len() - 1;
    let y = s8.f.ops.len() as int;
    let u = end.f.ops.len() - 1;
    assert(next(s0) == header && next(put(s0, Op::Block)) == body && next(
        put(put(s0, Op::Block), Op::Block),
    ) == step && next(put(put(put(s0, Op::Block), Op::Block), Op::Block)) == exit);
    lemma_cond(env, h, s->For_cond, body, exit);
    assert(ops[n] == h.f.ops[n] && ops[n + 1] == h.f.ops[n + 1] && ops[n + 2] == h.f.ops[n + 2]
        && ops[n + 3] == h.f.ops[n + 3] && ops[n + 4] == h.f.ops[n + 4] && ops[n + 5]
        == h.f.ops[n + 5]);
    assert(ops[q] == sb.f.ops[q]);
    assert(ops[x] == sx.f.ops[x]);
    assert(ops[y] == end.f.ops[y]);
    assert(ops[u] == end.f.ops[u]);
    assert(!s7.f.terminated ==> ops[r] == sx.f.ops[r]);
    assert(s7.f.loops == sb.f.loops && s6.f.loops == h.f.loops) by {
        reveal(wrote);
    }
    assert(sx.f.loops =~= s0.f.loops);
    lemma_start(ops, header, n + 5);
    assert forall|i: int| n + 5 < i < q implies #[trigger] ops[i] != Op::SwitchTo(body) && ops[i]
        != Op::SwitchTo(step) && ops[i] != Op::SwitchTo(exit) by {
        assert(ops[i] == s6.f.ops[i]);
    }
    lemma_start(ops, body, q);
    assert forall|i: int| q < i < x implies #[trigger] ops[i] != Op::SwitchTo(step) && ops[i]
        != Op::SwitchTo(exit) by {
        if i < r {
            assert(ops[i] == s7.f.ops[i]);
        } else {
            assert(ops[i] == sx.f.ops[i]);
        }
    }
    lemma_start(ops, step, x);
    assert forall|i: int| x < i < u implies #[trigger] ops[i] != Op::SwitchTo(exit) by {
        if i < y {
            assert(ops[i] == s8.f.ops[i]);
        }
    }
    lemma_start(ops, exit, u);
    assert(wrote(h, s0)) by {
        lemma_wrote();
        assert(wrote(s0, s0));
    }
    assert(tidy(sb.g) && tidy(sx.g)) by {
        reveal(wrote);
        reveal(more_unit);
        reveal(fuller);
    }
}

proof fn lemma_for(
    ops: Seq<Op>,
    m: Machine,
    s0: LowView,
    s: StmtView,
    s6: LowView,
    s7: LowView,
    s8: LowView,
    vars: Vars,
    fuel: nat,
)
    requires
        placed(ops, m, s0, vars),
        for_parts(s, s0, s6, s7, s8, vars.env()),
        within(ops, for_end(s8, s0), vars.around),
        !s0.f.terminated,
    ensures
        performs(ops, m, s0, for_end(s8, s0), exec_loop(s, vars, fuel), vars.around),
    decreases fuel, s, 8int,
{
    let around = vars.around;
    let n = s0.f.ops.len() as int;
    let h = for_head(s0);
    let end = for_end(s8, s0);
    lemma_for_code(ops, m, s, s0, s6, s7, s8, vars);
    lemma_for_within(ops, s, s0, s6, s7, s8, around, vars.env());
    let m1 = Machine { at: n + 1, ..m };
    let m2 = Machine { at: n + 2, ..m };
    let m3 = Machine { at: n + 3, ..m };
    let m4 = Machine { at: n + 4, ..m };
    let m5 = Machine { at: n + 6, ..m };
    assert(ops[n] == h.f.ops[n] && ops[n + 1] == h.f.ops[n + 1] && ops[n + 2] == h.f.ops[n + 2]
        && ops[n + 3] == h.f.ops[n + 3] && ops[n + 4] == h.f.ops[n + 4] && ops[n + 5]
        == h.f.ops[n + 5]);
    assert(step(ops, m) == Some(End::At(m1)));
    assert(step(ops, m1) == Some(End::At(m2)));
    assert(step(ops, m2) == Some(End::At(m3)));
    assert(step(ops, m3) == Some(End::At(m4)));
    lemma_jump(ops, m4, n as usize, n + 5);
    lemma_step_then(ops, m3, m4, End::At(m5));
    lemma_step_then(ops, m2, m3, End::At(m5));
    lemma_step_then(ops, m1, m2, End::At(m5));
    lemma_step_then(ops, m, m1, End::At(m5));
    assert(holds(m5, vars));
    lemma_placed(ops, m, s0, vars, m5, h, vars);
    lemma_for_turns(ops, m5, s0, s, s6, s7, s8, vars, fuel);
    lemma_onward(ops, m, m5, s0, s0, end, exec_loop(s, vars, fuel), around);
}

/// The condition of a `for` loop: control goes on in the body or behind the
/// loop.
proof fn lemma_for_round(
    ops: Seq<Op>,
    m: Machine,
    s0: LowView,
    s: StmtView,
    s6: LowView,
    s7: LowView,
    s8: LowView,
    vars: Vars,
)
    requires
        placed(ops, m, for_head(s0), vars),
        for_code(ops, s, s0, s6, s7, s8, vars.around, vars.env()),
    ensures
        match goes_round(s, vars) {
            Eval::Value(x, vars1) => {
                &&& x == 1 ==> exists|m2: Machine| #[trigger]
                    arrives(ops, m, s6.f.ops.len() as int + 1, m2, vars1, vars.around)
                &&& x == 0 ==> exists|m2: Machine| #[trigger]
                    arrives(ops, m, for_end(s8, s0).f.ops.len() as int, m2, vars1, vars.around)
            },
            other => performs(ops, m, s0, for_end(s8, s0), stopped(other), vars.around),
        },
{
    reveal(for_code);
    let env = vars.env();
    let around = vars.around;
    let n = s0.f.ops.len() as int;
    let h = for_head(s0);
    let end = for_end(s8, s0);
    let (body, exit) = ((n + 1) as usize, (n + 3) as usize);
    lemma_cond(env, h, s->For_cond, body, exit);
    let q = s6.f.ops.len() as int;
    assert(0 <= q < ops.len() && 0 <= end.f.ops.len() - 1 < ops.len());
    match s->For_cond {
        Some(c) => {
            let (s5, v) = scalar_code(env, h, c)->Ok_0;
            lemma_before(ops, s6, s5, around);
            assert(ops[q - 1] == s6.f.ops[q - 1]);
            lemma_round(
                ops,
                m,
                h,
                c,
                s5,
                v,
                body,
                q,
                exit,
                end.f.ops.len() - 1,
                vars,
                s0,
                end,
            );
        },
        None => {
            assert(ops[q - 1] == s6.f.ops[q - 1]);
            lemma_jump(ops, m, body, q);
            let m2 = Machine { at: q + 1, ..m };
            let ev = goes_round(s, vars);
            assert(holds(m2, vars));
            assert(arrives(ops, m, q + 1, m2, ev->Value_1, around));
        },
    }
}

/// One turn, from the condition to the step.
#[verifier::rlimit(40)]
proof fn lemma_for_turn(
    ops: Seq<Op>,
    m: Machine,
    s0: LowView,
    s: StmtView,
    s6: LowView,
    s7: LowView,
    s8: LowView,
    vars: Vars,
    fuel: nat,
)
    requires
        s is For,
        placed(ops, m, for_head(s0), vars),
        for_code(ops, s, s0, s6, s7, s8, vars.around, vars.env()),
    ensures
        ({
            let end = for_end(s8, s0);
            match goes_round(s, vars) {
                Eval::Value(x, vars1) => {
                    &&& x == 0 ==> performs(ops, m, s0, end, Exec::Next(vars1), vars.around)
                    &&& x == 1 ==> turned(
                        ops,
                        m,
                        s0,
                        end,
                        exec_stmts(turn_of(s), 0, vars1, fuel),
                        for_step(s7, s0).f.ops.len() as int,
                        vars.around,
                    )
                },
                other => performs(ops, m, s0, end, stopped(other), vars.around),
            }
        }),
    decreases fuel, s, 5int,
{
    let around = vars.around;
    let n = s0.f.ops.len() as int;
    let sb = for_body(s6, s0);
    let sx = for_step(s7, s0);
    let end = for_end(s8, s0);
    let (step, exit) = ((n + 2) as usize, (n + 3) as usize);
    lemma_for_round(ops, m, s0, s, s6, s7, s8, vars);
    reveal(for_code);
    if let Eval::Value(x, vars1) = goes_round(s, vars) {
        if x == 0 {
            let m2 = choose|m2: Machine| #[trigger]
                arrives(ops, m, end.f.ops.len() as int, m2, vars1, around);
            lemma_next(ops, m, s0, end, vars1, around, m2);
        } else if x == 1 {
            let m2 = choose|m2: Machine| #[trigger]
                arrives(ops, m, s6.f.ops.len() as int + 1, m2, vars1, around);
            assert(placed(ops, m2, sb, vars1));
            assert(decreases_to!(s => s->For_body.stmts));
            law_statements(ops, m2, sb, s->For_body.stmts, 0, vars1, fuel);
            let turn = exec_stmts(s->For_body.stmts, 0, vars1, fuel);
            lemma_turn(
                ops,
                m,
                m2,
                s0,
                sb,
                s7,
                turn,
                step,
                sx.f.ops.len() - 1,
                exit,
                end.f.ops.len() - 1,
                end,
                around,
            );
        }
    }
}

proof fn lemma_for_turns(
    ops: Seq<Op>,
    m: Machine,
    s0: LowView,
    s: StmtView,
    s6: LowView,
    s7: LowView,
    s8: LowView,
    vars: Vars,
    fuel: nat,
)
    requires
        s is For,
        placed(ops, m, for_head(s0), vars),
        for_code(ops, s, s0, s6, s7, s8, vars.around, vars.env()),
    ensures
        performs(ops, m, s0, for_end(s8, s0), exec_loop(s, vars, fuel), vars.around),
    decreases fuel, s, 7int,
{
    let around = vars.around;
    let h = for_head(s0);
    let sx = for_step(s7, s0);
    let end = for_end(s8, s0);
    if fuel == 0 {
        assert(exec_loop(s, vars, fuel) is Unfinished) by {
            reveal(exec_stmt);
        }
    } else {
        lemma_eq_loop(s, vars, fuel);
        lemma_for_turn(ops, m, s0, s, s6, s7, s8, vars, fuel);
        if let Eval::Value(x, vars1) = goes_round(s, vars) {
            if x == 1 {
                let turn = exec_stmts(turn_of(s), 0, vars1, fuel);
                lemma_eq_turn(s, turn, fuel);
                if turn is Next || turn is Continue {
                    let v = left_of(turn);
                    let m4 = choose|m4: Machine| #[trigger]
                        arrives(ops, m, sx.f.ops.len() as int, m4, v, around);
                    assert(arrives(ops, m, sx.f.ops.len() as int, m4, v, around));
                    let m5 = Machine { at: h.f.ops.len() as int, ..m4 };
                    assert(holds(m5, v));
                    assert(placed(ops, m5, h, v));
                    lemma_for_step(ops, m4, s0, s, s6, s7, s8, v, fuel);
                    lemma_onward(ops, m, m4, s0, s0, end, step_on(s, v, fuel), around);
                }
            }
        }
    }
}

/// Where the step stands, and what follows it.
proof fn lemma_for_step_code(
    ops: Seq<Op>,
    s: StmtView,
    s0: LowView,
    s6: LowView,
    s7: LowView,
    s8: LowView,
    around: Setting,
    env: LowEnv,
)
    requires
        for_code(ops, s, s0, s6, s7, s8, around, env),
    ensures
        ({
            let sx = for_step(s7, s0);
            let n = s0.f.ops.len() as int;
            &&& opt_code(env, sx, s->For_step) == Ok::<LowView, Seq<char>>(s8)
            &&& within(ops, s8, around)
            &&& tidy(sx.g)
            &&& sx.f.loops == s0.f.loops
            &&& !sx.f.terminated
            &&& for_head(s0).f.ops.len() == n + 6
            &&& s8.f.ops.len() < ops.len()
            &&& ops[s8.f.ops.len() as int] == Op::Jump(n as usize)
            &&& 0 <= n + 5 < ops.len()
            &&& ops[n + 5] == Op::SwitchTo(n as usize)
            &&& start_from(ops, n as usize, 0) == Some(n + 5)
        }),
{
    reveal(for_code);
}

/// The step of a `for` loop, and its next turn.
#[verifier::rlimit(30)]
proof fn lemma_for_step(
    ops: Seq<Op>,
    m: Machine,
    s0: LowView,
    s: StmtView,
    s6: LowView,
    s7: LowView,
    s8: LowView,
    vars: Vars,
    fuel: nat,
)
    requires
        fuel > 0,
        s is For,
        m.at == for_step(s7, s0).f.ops.len(),
        holds(m, vars),
        placed(ops, (Machine { at: for_head(s0).f.ops.len() as int, ..m }), for_head(s0), vars),
        for_code(ops, s, s0, s6, s7, s8, vars.around, vars.env()),
    ensures
        performs(ops, m, s0, for_end(s8, s0), step_on(s, vars, fuel), vars.around),
    decreases fuel, s, 6int,
{
    let around = vars.around;
    let n = s0.f.ops.len() as int;
    let h = for_head(s0);
    let sx = for_step(s7, s0);
    let end = for_end(s8, s0);
    lemma_for_step_code(ops, s, s0, s6, s7, s8, around, vars.env());
    assert(placed(ops, m, sx, vars));
    assert(decreases_to!(s => s->For_step));
    law_opt(ops, m, sx, s->For_step, vars, fuel);
    lemma_eq_for(s, vars, fuel);
    let out = exec_opt(s->For_step, vars, fuel);
    match out {
        Exec::Next(v) => {
            let m1 = behind_stmt(ops, m, s8, v, around);
            assert(arrives(ops, m, s8.f.ops.len() as int, m1, v, around));
            assert(jumping(ops, m, n as usize, m1, v, around));
            lemma_arrive(ops, m, n as usize, n + 5, m1, v, around);
            let m2 = Machine { at: n + 6, ..m1 };
            assert(placed(ops, m2, h, v));
            lemma_for_turns(ops, m2, s0, s, s6, s7, s8, v, (fuel - 1) as nat);
            let next_turn = exec_loop(s, v, (fuel - 1) as nat);
            lemma_onward(ops, m, m2, s0, s0, end, next_turn, around);
        },
        _ => lemma_away(ops, m, sx, s8, out, around, s0, end),
    }
}

} // verus!
