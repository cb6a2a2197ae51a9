//! That the code of branches and matches does what they do.
use vstd::prelude::*;

use crate::ast::{BlockView, PatternView, StmtView};
use crate::choosing::{law_arm_test, law_bindings, lemma_key};
use crate::computing::{
    after, holds, lemma_before, lemma_calm_placed, lemma_part, lemma_placed, lemma_within, placed,
    reached, scalar_code, within,
};
use crate::evaluate::{bindings, eval, key_of, worth, Eval, Setting, Vars};
use crate::expressions::law_scalar;
use crate::ir::Op;
use crate::lower::{
    bind_pattern, flow_to, gen_block, gen_block_arms, gen_if_stmt, gen_scalar, gen_stmt,
    gen_stmt_match, gen_stmts, join_at, match_key, next, pattern_const, put, start, test_arm,
    with_terminated, LowEnv, LowView,
};
use crate::machine::{leads, start_from, step, word, End, Machine};
use crate::matching::takes;
use crate::meaning::{
    kept, lemma_leads_here, lemma_leads_on, lemma_leads_step, lemma_start, lemma_step_then,
    lemma_word,
};
use crate::performing::{
    arrives, behind_stmt, law_statements, lemma_away, lemma_calm_flow, lemma_next, lemma_onward,
    lemma_stmts_parts, lemma_stopped, performs, stmts_code,
};
use crate::statements::{exec_arms, exec_if, exec_match, exec_stmt, exec_stmts, stopped, Exec};
use crate::types::TypeView;
use crate::writing::{
    calm, lemma_calm, lemma_wrote, write_bind_pattern, write_gen_block_arms, write_match_key,
    write_test_arm, wrote,
};

verus! {

// -- Jumps ------------------------------------------------------------------

/// A jump goes on behind the beginning of its block.
pub proof fn lemma_jump(ops: Seq<Op>, m: Machine, b: usize, j: int)
    requires
        0 <= m.at < ops.len(),
        ops[m.at] == Op::Jump(b),
        0 <= j < ops.len(),
        ops[j] == Op::SwitchTo(b),
        start_from(ops, b, 0) == Some(j),
    ensures
        leads(ops, m, End::At(Machine { at: j + 1, ..m })),
{
    let m1 = Machine { at: j, ..m };
    let m2 = Machine { at: j + 1, ..m };
    assert(step(ops, m) == Some(End::At(m1)));
    assert(step(ops, m1) == Some(End::At(m2)));
    lemma_leads_step(ops, m1, End::At(m2));
    lemma_step_then(ops, m, m1, End::At(m2));
}

/// What passes control on goes on at the merge block.
pub proof fn lemma_flow(
    ops: Seq<Op>,
    m: Machine,
    from: LowView,
    to: LowView,
    x: Exec,
    around: Setting,
    merge: usize,
    j: int,
    st: LowView,
    end: LowView,
)
    requires
        performs(ops, m, from, to, x, around),
        from.f.loops == st.f.loops,
        !to.f.terminated ==> {
            &&& to.f.ops.len() < ops.len()
            &&& ops[to.f.ops.len() as int] == Op::Jump(merge)
            &&& 0 <= j < ops.len()
            &&& ops[j] == Op::SwitchTo(merge)
            &&& start_from(ops, merge, 0) == Some(j)
            &&& end.f.ops.len() == j + 1
            &&& !end.f.terminated
        },
    ensures
        performs(ops, m, st, end, x, around),
{
    match x {
        Exec::Next(vars) => {
            let m1 = behind_stmt(ops, m, to, vars, around);
            assert(arrives(ops, m, to.f.ops.len() as int, m1, vars, around));
            let m2 = Machine { at: j + 1, ..m1 };
            lemma_jump(ops, m1, merge, j);
            lemma_leads_on(ops, m, m1, End::At(m2));
            assert(holds(m2, vars));
            lemma_next(ops, m, st, end, vars, around, m2);
        },
        _ => lemma_away(ops, m, from, to, x, around, st, end),
    }
}

// -- Branches ---------------------------------------------------------------

/// Where the first branch is written.
pub open spec fn branch(s1: LowView, c: usize) -> LowView {
    let n = next(s1);
    let s4 = put(put(put(s1, Op::Block), Op::Block), Op::Block);
    start(put(s4, Op::Brif(c, n, next(put(s1, Op::Block)))), n)
}

/// Where the second one is.
pub open spec fn other_branch(s6: LowView, s1: LowView) -> LowView {
    let s2 = put(s1, Op::Block);
    start(flow_to(s6, next(put(s2, Op::Block))), next(s2))
}

/// Behind both.
pub open spec fn branch_end(s8: LowView, s6: LowView, s1: LowView) -> LowView {
    let merge = next(put(put(s1, Op::Block), Op::Block));
    join_at(flow_to(s8, merge), merge, s6.f.terminated && s8.f.terminated)
}

proof fn lemma_eq_if(s: StmtView, vars: Vars, fuel: nat)
    requires
        s is If,
    ensures
        exec_if(s, vars, fuel) == (match worth(eval(s->If_cond, vars)) {
            Eval::Value(x, vars1) => if x == 1 {
                exec_stmts(s->If_then.stmts, 0, vars1, fuel)
            } else if x == 0 {
                match s->If_els {
                    Some(b) => exec_stmts(b.stmts, 0, vars1, fuel),
                    None => Exec::Next(vars1),
                }
            } else {
                Exec::Unfinished
            },
            other => stopped(other),
        }),
{
    reveal(exec_stmt);
    reveal_with_fuel(exec_stmts, 2);
}

/// Only the branch that is taken runs.
pub proof fn law_if_stmt(
    ops: Seq<Op>,
    m: Machine,
    st: LowView,
    s: StmtView,
    vars: Vars,
    fuel: nat,
)
    requires
        s is If,
        placed(ops, m, st, vars),
        gen_stmt(vars.env(), st, s) is Ok,
        within(ops, gen_stmt(vars.env(), st, s)->Ok_0, vars.around),
        !st.f.terminated,
    ensures
        performs(
            ops,
            m,
            st,
            gen_stmt(vars.env(), st, s)->Ok_0,
            exec_if(s, vars, fuel),
            vars.around,
        ),
    decreases fuel, s, 9int,
{
    let env = vars.env();
    let r = gen_if_stmt(env, st, s);
    assert(gen_stmt(env, st, s) == r);
    let (s1, c) = gen_scalar(env, st, s->If_cond)->Ok_0;
    let s5 = branch(s1, c);
    let s6 = gen_stmts(env, s5, s->If_then.stmts, 0)->Ok_0;
    let s7 = other_branch(s6, s1);
    let s8 = match s->If_els {
        None => s7,
        Some(b) => gen_stmts(env, s7, b.stmts, 0)->Ok_0,
    };
    assert(scalar_code(env, st, s->If_cond) == gen_scalar(env, st, s->If_cond)) by {
        reveal(scalar_code);
    }
    assert(stmts_code(env, s5, s->If_then.stmts, 0) == gen_stmts(env, s5, s->If_then.stmts, 0))
        by {
        reveal(stmts_code);
    }
    if let Some(b) = s->If_els {
        assert(stmts_code(env, s7, b.stmts, 0) == gen_stmts(env, s7, b.stmts, 0)) by {
            reveal(stmts_code);
        }
    }
    assert(r == Ok::<LowView, Seq<char>>(branch_end(s8, s6, s1)));
    lemma_if_stmt(ops, m, st, s, s1, c, s6, s8, vars, fuel);
}

#[verifier::rlimit(60)]
proof fn lemma_if_stmt(
    ops: Seq<Op>,
    m: Machine,
    st: LowView,
    s: StmtView,
    s1: LowView,
    c: usize,
    s6: LowView,
    s8: LowView,
    vars: Vars,
    fuel: nat,
)
    requires
        s is If,
        placed(ops, m, st, vars),
        scalar_code(vars.env(), st, s->If_cond) == Ok::<(LowView, usize), Seq<char>>((s1, c)),
        stmts_code(vars.env(), branch(s1, c), s->If_then.stmts, 0) == Ok::<LowView, Seq<char>>(s6),
        match s->If_els {
            None => s8 == other_branch(s6, s1),
            Some(b) => stmts_code(vars.env(), other_branch(s6, s1), b.stmts, 0) == Ok::<
                LowView,
                Seq<char>,
            >(s8),
        },
        within(ops, branch_end(s8, s6, s1), vars.around),
        !st.f.terminated,
    ensures
        performs(ops, m, st, branch_end(s8, s6, s1), exec_if(s, vars, fuel), vars.around),
    decreases fuel, s, 8int,
{
    let env = vars.env();
    let around = vars.around;
    let p = s1.f.ops.len() as int;
    let (yes, no, merge) = (p as usize, (p + 1) as usize, (p + 2) as usize);
    let s5 = branch(s1, c);
    let s7 = other_branch(s6, s1);
    let end = branch_end(s8, s6, s1);
    lemma_eq_if(s, vars, fuel);
    lemma_before(ops, end, s8, around);
    if let Some(b) = s->If_els {
        lemma_stmts_parts(env, s7, b.stmts, 0);
        lemma_within(ops, s8, s7, around);
    }
    lemma_before(ops, s7, s6, around);
    lemma_stmts_parts(env, s5, s->If_then.stmts, 0);
    lemma_within(ops, s6, s5, around);
    lemma_before(ops, s5, s1, around);
    law_scalar(ops, m, st, s->If_cond, vars);
    lemma_calm_flow(s1, st);
    assert(next(s1) == yes && next(put(s1, Op::Block)) == no && next(
        put(put(s1, Op::Block), Op::Block),
    ) == merge);
    assert(ops[p] == s5.f.ops[p] && ops[p + 1] == s5.f.ops[p + 1] && ops[p + 2] == s5.f.ops[p + 2]
        && ops[p + 3] == s5.f.ops[p + 3] && ops[p + 4] == s5.f.ops[p + 4]);
    let q = s6.f.ops.len() as int;
    let r = s7.f.ops.len() - 1;
    let u = flow_to(s8, merge).f.ops.len() as int;
    assert(ops[r] == s7.f.ops[r]);
    assert(!s6.f.terminated ==> ops[q] == s7.f.ops[q]);
    assert(ops[u] == end.f.ops[u]);
    assert(!s8.f.terminated ==> ops[s8.f.ops.len() as int] == end.f.ops[s8.f.ops.len() as int]);
    lemma_start(ops, yes, p + 4);
    assert forall|i: int| p + 4 < i < r implies #[trigger] ops[i] != Op::SwitchTo(no) && ops[i]
        != Op::SwitchTo(merge) by {
        if i < q {
            assert(ops[i] == s6.f.ops[i]);
        } else {
            assert(ops[i] == s7.f.ops[i]);
        }
    }
    lemma_start(ops, no, r);
    assert forall|i: int| merge < i < u implies #[trigger] ops[i] != Op::SwitchTo(merge) by {
        if i > r {
            if i < s8.f.ops.len() {
                assert(ops[i] == s8.f.ops[i]);
            } else {
                assert(ops[i] == end.f.ops[i]);
            }
        }
    }
    lemma_start(ops, merge, u);
    match worth(eval(s->If_cond, vars)) {
        Eval::Value(x, vars1) => {
            let m1 = after(ops, m, st, s1, c, x, vars1, around);
            assert(reached(ops, m, st, s1, m1, vars1, around));
            if x == 0 || x == 1 {
                let j = if x == 1 {
                    p + 4
                } else {
                    r
                };
                let m2 = Machine { at: p + 1, ..m1 };
                let m3 = Machine { at: p + 2, ..m1 };
                let m4 = Machine { at: p + 3, ..m1 };
                let m5 = Machine { at: j, ..m1 };
                let m6 = Machine { at: j + 1, ..m1 };
                lemma_word(x);
                assert(step(ops, m1) == Some(End::At(m2)));
                assert(step(ops, m2) == Some(End::At(m3)));
                assert(step(ops, m3) == Some(End::At(m4)));
                assert(step(ops, m4) == Some(End::At(m5)));
                assert(step(ops, m5) == Some(End::At(m6)));
                lemma_leads_step(ops, m5, End::At(m6));
                lemma_step_then(ops, m4, m5, End::At(m6));
                lemma_step_then(ops, m3, m4, End::At(m6));
                lemma_step_then(ops, m2, m3, End::At(m6));
                lemma_step_then(ops, m1, m2, End::At(m6));
                lemma_leads_on(ops, m, m1, End::At(m6));
                assert(holds(m6, vars1));
                assert(wrote(s5, st) && wrote(s7, st)) by {
                    lemma_wrote();
                    assert(wrote(s1, st));
                    assert(wrote(s5, st));
                    assert(wrote(s6, st));
                    assert(wrote(flow_to(s6, merge), st));
                }
                if x == 1 {
                    lemma_placed(ops, m, st, vars, m6, s5, vars1);
                    assert(decreases_to!(s => s->If_then.stmts));
                    law_statements(ops, m6, s5, s->If_then.stmts, 0, vars1, fuel);
                    let out = exec_stmts(s->If_then.stmts, 0, vars1, fuel);
                    lemma_flow(ops, m6, s5, s6, out, around, merge, u, s5, end);
                    lemma_onward(ops, m, m6, st, s5, end, out, around);
                } else {
                    lemma_placed(ops, m, st, vars, m6, s7, vars1);
                    match s->If_els {
                        Some(b) => {
                            assert(decreases_to!(s => s->If_els->0.stmts));
                            law_statements(ops, m6, s7, b.stmts, 0, vars1, fuel);
                            let out = exec_stmts(b.stmts, 0, vars1, fuel);
                            lemma_flow(ops, m6, s7, s8, out, around, merge, u, s7, end);
                            lemma_onward(ops, m, m6, st, s7, end, out, around);
                        },
                        None => {
                            lemma_leads_here(ops, m6);
                            lemma_next(ops, m6, s7, s7, vars1, around, m6);
                            let out = Exec::Next(vars1);
                            lemma_flow(ops, m6, s7, s8, out, around, merge, u, s7, end);
                            lemma_onward(ops, m, m6, st, s7, end, out, around);
                        },
                    }
                }
            }
        },
        ev => lemma_stopped(ops, m, st, s1, Some(c), ev, around, st, end),
    }
}

// -- Matches ----------------------------------------------------------------

/// The code of the arms of a match from index `i` on.
#[verifier::opaque]
pub open spec fn blocks_code(
    env: LowEnv,
    st: LowView,
    arms: Seq<(PatternView, BlockView)>,
    i: nat,
    ty: TypeView,
    sv: usize,
    key: usize,
    merge: usize,
    left: bool,
    line: u32,
) -> Result<(LowView, bool), Seq<char>> {
    gen_block_arms(env, st, arms, i, ty, sv, key, merge, left, line)
}

/// Behind the test of an arm.
pub open spec fn block_head(
    st: LowView,
    arms: Seq<(PatternView, BlockView)>,
    i: nat,
    key: usize,
) -> LowView {
    if i + 1 == arms.len() {
        st
    } else {
        test_arm(st, key, pattern_const(arms[i as int].0)->0).0
    }
}

/// Where the next arm is written.
pub open spec fn block_next(
    st: LowView,
    s3: LowView,
    arms: Seq<(PatternView, BlockView)>,
    i: nat,
    key: usize,
    merge: usize,
) -> LowView {
    put(
        flow_to(s3, merge),
        Op::SwitchTo(test_arm(st, key, pattern_const(arms[i as int].0)->0).1),
    )
}

/// That control left on every way says so of each.
proof fn lemma_left(
    env: LowEnv,
    st: LowView,
    arms: Seq<(PatternView, BlockView)>,
    i: nat,
    ty: TypeView,
    sv: usize,
    key: usize,
    merge: usize,
    left: bool,
    line: u32,
)
    requires
        gen_block_arms(env, st, arms, i, ty, sv, key, merge, left, line) is Ok,
    ensures
        gen_block_arms(env, st, arms, i, ty, sv, key, merge, left, line)->Ok_0.1 ==> left,
    decreases arms.len() - i,
{
    let s1 = block_head(st, arms, i, key);
    let s2 = bind_pattern(env, s1, arms[i as int].0, ty, sv)->Ok_0;
    let r = gen_block(env, with_terminated(s2, false), arms[i as int].1);
    assert(r == gen_stmts(env, with_terminated(s2, false), arms[i as int].1.stmts, 0));
    let s3 = r->Ok_0;
    if i + 1 < arms.len() {
        lemma_left(
            env,
            block_next(st, s3, arms, i, key, merge),
            arms,
            i + 1,
            ty,
            sv,
            key,
            merge,
            left && s3.f.terminated,
            line,
        );
    }
}

#[verifier::rlimit(30)]
proof fn lemma_blocks_parts(
    env: LowEnv,
    st: LowView,
    arms: Seq<(PatternView, BlockView)>,
    i: nat,
    ty: TypeView,
    sv: usize,
    key: usize,
    merge: usize,
    left: bool,
    line: u32,
)
    requires
        blocks_code(env, st, arms, i, ty, sv, key, merge, left, line) is Ok,
    ensures
        i < arms.len(),
        ({
            let (all, gone) = blocks_code(
                env,
                st,
                arms,
                i,
                ty,
                sv,
                key,
                merge,
                left,
                line,
            )->Ok_0;
            let s1 = block_head(st, arms, i, key);
            let b = bind_pattern(env, s1, arms[i as int].0, ty, sv);
            let s2 = with_terminated(b->Ok_0, false);
            let r = stmts_code(env, s2, arms[i as int].1.stmts, 0);
            let nx = block_next(st, r->Ok_0, arms, i, key, merge);
            &&& wrote(all, st)
            &&& calm(s1, st)
            &&& b is Ok
            &&& calm(b->Ok_0, s1)
            &&& r is Ok
            &&& gone ==> r->Ok_0.f.terminated
            &&& i + 1 == arms.len() ==> all == flow_to(r->Ok_0, merge)
            &&& i + 1 < arms.len() ==> {
                &&& pattern_const(arms[i as int].0) is Some
                &&& blocks_code(
                    env,
                    nx,
                    arms,
                    i + 1,
                    ty,
                    sv,
                    key,
                    merge,
                    left && r->Ok_0.f.terminated,
                    line,
                ) == Ok::<(LowView, bool), Seq<char>>((all, gone))
                &&& wrote(all, nx)
            }
        }),
{
    reveal(blocks_code);
    reveal(stmts_code);
    write_gen_block_arms(env, st, arms, i, ty, sv, key, merge, left, line);
    let p = arms[i as int].0;
    let s1 = block_head(st, arms, i, key);
    if i + 1 < arms.len() && pattern_const(p) is Some {
        write_test_arm(st, key, pattern_const(p)->0);
    }
    assert(calm(st, st)) by {
        lemma_calm();
    }
    write_bind_pattern(env, s1, p, ty, sv);
    let s2 = with_terminated(bind_pattern(env, s1, p, ty, sv)->Ok_0, false);
    let r = gen_block(env, s2, arms[i as int].1);
    assert(r == gen_stmts(env, s2, arms[i as int].1.stmts, 0));
    let s3 = r->Ok_0;
    if i + 1 < arms.len() {
        let nx = block_next(st, s3, arms, i, key, merge);
        let all = left && s3.f.terminated;
        write_gen_block_arms(env, nx, arms, i + 1, ty, sv, key, merge, all, line);
        lemma_left(env, nx, arms, i + 1, ty, sv, key, merge, all, line);
    }
}

proof fn lemma_eq_arms(
    arms: Seq<(PatternView, BlockView)>,
    i: nat,
    t: TypeView,
    x: int,
    key: u64,
    vars: Vars,
    fuel: nat,
)
    requires
        i < arms.len(),
    ensures
        exec_arms(arms, i, t, x, key, vars, fuel) == (if takes(arms[i as int].0, key) {
            match bindings(arms[i as int].0, t, x, vars) {
                None => Exec::Unfinished,
                Some(vars1) => exec_stmts(arms[i as int].1.stmts, 0, vars1, fuel),
            }
        } else {
            exec_arms(arms, i + 1, t, x, key, vars, fuel)
        }),
        i + 1 == arms.len() ==> exec_arms(arms, i + 1, t, x, key, vars, fuel) is Unfinished,
{
    reveal(exec_stmt);
    reveal_with_fuel(exec_arms, 2);
}

/// The arms from index `i` on, none before having taken the value.
#[verifier::rlimit(60)]
proof fn law_blocks(
    ops: Seq<Op>,
    m: Machine,
    base: LowView,
    st: LowView,
    arms: Seq<(PatternView, BlockView)>,
    i: nat,
    ty: TypeView,
    sv: usize,
    key: usize,
    merge: usize,
    left: bool,
    line: u32,
    j: int,
    end: LowView,
    x: int,
    k: u64,
    vars: Vars,
    fuel: nat,
)
    requires
        placed(ops, m, st, vars),
        blocks_code(vars.env(), st, arms, i, ty, sv, key, merge, left, line) is Ok,
        within(
            ops,
            blocks_code(vars.env(), st, arms, i, ty, sv, key, merge, left, line)->Ok_0.0,
            vars.around,
        ),
        st.f.loops == base.f.loops,
        key < st.f.ops.len(),
        sv < st.f.ops.len(),
        m.vals[key as int] == k,
        m.vals[sv as int] == word(x),
        0 <= j < ops.len(),
        ops[j] == Op::SwitchTo(merge),
        start_from(ops, merge, 0) == Some(j),
        !blocks_code(vars.env(), st, arms, i, ty, sv, key, merge, left, line)->Ok_0.1 ==> {
            &&& end.f.ops.len() == j + 1
            &&& !end.f.terminated
        },
    ensures
        performs(ops, m, base, end, exec_arms(arms, i, ty, x, k, vars, fuel), vars.around),
    decreases fuel, arms, arms.len() - i,
{
    let env = vars.env();
    let around = vars.around;
    let (all, gone) = blocks_code(env, st, arms, i, ty, sv, key, merge, left, line)->Ok_0;
    lemma_blocks_parts(env, st, arms, i, ty, sv, key, merge, left, line);
    let p = arms[i as int].0;
    let body = arms[i as int].1.stmts;
    let s1 = block_head(st, arms, i, key);
    let sb = bind_pattern(env, s1, p, ty, sv)->Ok_0;
    let s2 = with_terminated(sb, false);
    let s3 = stmts_code(env, s2, body, 0)->Ok_0;
    let nx = block_next(st, s3, arms, i, key, merge);
    let last = i + 1 == arms.len();
    let out = exec_arms(arms, i, ty, x, k, vars, fuel);
    let n = st.f.ops.len() as int;
    lemma_eq_arms(arms, i, ty, x, k, vars, fuel);
    if last {
        lemma_before(ops, all, s3, around);
    } else {
        lemma_within(ops, all, nx, around);
        lemma_before(ops, nx, s3, around);
    }
    lemma_stmts_parts(env, s2, body, 0);
    lemma_within(ops, s3, s2, around);
    lemma_before(ops, s2, sb, around);
    lemma_part(ops, sb, s1, around);
    lemma_part(ops, s1, st, around);
    lemma_calm_flow(sb, s1);
    lemma_calm_flow(s1, st);
    let q = s3.f.ops.len() as int;
    if !s3.f.terminated {
        assert(ops[q] == Op::Jump(merge)) by {
            if last {
                assert(ops[q] == all.f.ops[q]);
            } else {
                assert(ops[q] == nx.f.ops[q]);
            }
        }
    }
    let hit = takes(p, k);
    let m1 = if last {
        lemma_leads_here(ops, m);
        m
    } else {
        let r = nx.f.ops.len() - 1;
        assert(ops[r] == nx.f.ops[r]);
        let other = test_arm(st, key, pattern_const(p)->0).1;
        assert(other == n + 2 && s1.f.ops.len() == n + 5) by {
            reveal(test_arm);
        }
        assert forall|a: int| n + 5 <= a < r implies #[trigger] ops[a] != Op::SwitchTo(other) by {
            if a < sb.f.ops.len() {
                assert(ops[a] == sb.f.ops[a]);
            } else if a < q {
                assert(ops[a] == s3.f.ops[a]);
            } else {
                assert(ops[a] == nx.f.ops[a]);
            }
        }
        law_arm_test(ops, m, st, key, p, k, r);
        choose|m2: Machine| #[trigger]
            leads(ops, m, End::At(m2)) && kept(m2, m, n) && m2.at == (if takes(p, k) {
                n + 5
            } else {
                r + 1
            })
    };
    assert(holds(m1, vars));
    assert(m1.vals[key as int] == m.vals[key as int] && m1.vals[sv as int] == m.vals[sv as int]);
    if hit {
        law_bindings(ops, m1, s1, p, ty, sv, x, vars);
        if let Some(vars1) = bindings(p, ty, x, vars) {
            let m2 = choose|m2: Machine| #[trigger] reached(ops, m1, s1, sb, m2, vars1, around);
            assert(calm(sb, st)) by {
                lemma_calm();
            }
            lemma_calm_placed(ops, m, st, vars, m2, sb, vars1);
            assert(placed(ops, m2, s2, vars1));
            assert(decreases_to!(arms => arms[i as int].1.stmts));
            law_statements(ops, m2, s2, body, 0, vars1, fuel);
            lemma_flow(ops, m2, s2, s3, out, around, merge, j, base, end);
            lemma_leads_on(ops, m, m1, End::At(m2));
            lemma_onward(ops, m, m2, base, base, end, out, around);
        }
    } else if !last {
        let other = test_arm(st, key, pattern_const(p)->0).1;
        assert(wrote(nx, st)) by {
            lemma_wrote();
            write_test_arm(st, key, pattern_const(p)->0);
            assert(wrote(s1, st));
            assert(wrote(sb, st));
            assert(wrote(s2, st));
            assert(wrote(s3, st));
            assert(wrote(flow_to(s3, merge), st));
        }
        lemma_placed(ops, m, st, vars, m1, nx, vars);
        assert(nx.f.loops == base.f.loops);
        law_blocks(
            ops,
            m1,
            base,
            nx,
            arms,
            i + 1,
            ty,
            sv,
            key,
            merge,
            left && s3.f.terminated,
            line,
            j,
            end,
            x,
            k,
            vars,
            fuel,
        );
        lemma_onward(ops, m, m1, base, base, end, out, around);
    }
}

/// A match runs the first arm that takes the value, and only that one, with the
/// payload in the arm's variables.
pub proof fn law_match_stmt(
    ops: Seq<Op>,
    m: Machine,
    st: LowView,
    s: StmtView,
    vars: Vars,
    fuel: nat,
)
    requires
        s is Match,
        placed(ops, m, st, vars),
        gen_stmt(vars.env(), st, s) is Ok,
        within(ops, gen_stmt(vars.env(), st, s)->Ok_0, vars.around),
        !st.f.terminated,
    ensures
        performs(
            ops,
            m,
            st,
            gen_stmt(vars.env(), st, s)->Ok_0,
            exec_match(s, vars, fuel),
            vars.around,
        ),
    decreases fuel, s, 9int,
{
    let env = vars.env();
    let scrutinee = s->Match_scrutinee;
    let arms = s->Match_arms;
    let r = gen_stmt_match(env, st, s);
    assert(gen_stmt(env, st, s) == r);
    let (s1, sv) = gen_scalar(env, st, scrutinee)->Ok_0;
    let (s2, key) = match_key(s1, scrutinee.ty, sv);
    let merge = next(s2);
    let s3 = put(s2, Op::Block);
    let (t, line) = (scrutinee.ty, s->Match_line);
    let (all, gone) = gen_block_arms(env, s3, arms, 0, t, sv, key, merge, true, line)->Ok_0;
    assert(scalar_code(env, st, scrutinee) == gen_scalar(env, st, scrutinee)) by {
        reveal(scalar_code);
    }
    assert(blocks_code(env, s3, arms, 0, t, sv, key, merge, true, line) == gen_block_arms(
        env,
        s3,
        arms,
        0,
        t,
        sv,
        key,
        merge,
        true,
        line,
    )) by {
        reveal(blocks_code);
    }
    assert(r == Ok::<LowView, Seq<char>>(join_at(all, merge, gone)));
    lemma_match_stmt(ops, m, st, s, s1, sv, all, gone, vars, fuel);
}

proof fn lemma_eq_match(s: StmtView, vars: Vars, fuel: nat)
    requires
        s is Match,
    ensures
        exec_match(s, vars, fuel) == (match worth(eval(s->Match_scrutinee, vars)) {
            Eval::Value(x, vars1) => exec_arms(
                s->Match_arms,
                0,
                s->Match_scrutinee.ty,
                x,
                key_of(s->Match_scrutinee.ty, x, vars1.world),
                vars1,
                fuel,
            ),
            other => stopped(other),
        }),
{
    reveal(exec_stmt);
    reveal_with_fuel(exec_arms, 2);
}

#[verifier::rlimit(50)]
proof fn lemma_match_stmt(
    ops: Seq<Op>,
    m: Machine,
    st: LowView,
    s: StmtView,
    s1: LowView,
    sv: usize,
    all: LowView,
    gone: bool,
    vars: Vars,
    fuel: nat,
)
    requires
        s is Match,
        placed(ops, m, st, vars),
        scalar_code(vars.env(), st, s->Match_scrutinee) == Ok::<(LowView, usize), Seq<char>>(
            (s1, sv),
        ),
        ({
            let (s2, key) = match_key(s1, s->Match_scrutinee.ty, sv);
            blocks_code(
                vars.env(),
                put(s2, Op::Block),
                s->Match_arms,
                0,
                s->Match_scrutinee.ty,
                sv,
                key,
                next(s2),
                true,
                s->Match_line,
            ) == Ok::<(LowView, bool), Seq<char>>((all, gone))
        }),
        within(
            ops,
            join_at(all, next(match_key(s1, s->Match_scrutinee.ty, sv).0), gone),
            vars.around,
        ),
        !st.f.terminated,
    ensures
        performs(
            ops,
            m,
            st,
            join_at(all, next(match_key(s1, s->Match_scrutinee.ty, sv).0), gone),
            exec_match(s, vars, fuel),
            vars.around,
        ),
    decreases fuel, s, 8int,
{
    let env = vars.env();
    let around = vars.around;
    let scrutinee = s->Match_scrutinee;
    let arms = s->Match_arms;
    let (t, line) = (scrutinee.ty, s->Match_line);
    let (s2, key) = match_key(s1, t, sv);
    let merge = next(s2);
    let s3 = put(s2, Op::Block);
    let end = join_at(all, merge, gone);
    let j = all.f.ops.len() as int;
    lemma_eq_match(s, vars, fuel);
    lemma_before(ops, end, all, around);
    lemma_blocks_parts(env, s3, arms, 0, t, sv, key, merge, true, line);
    lemma_within(ops, all, s3, around);
    lemma_before(ops, s3, s2, around);
    lemma_before(ops, s2, s1, around);
    assert(decreases_to!(s => s->Match_arms));
    law_scalar(ops, m, st, scrutinee, vars);
    lemma_calm_flow(s1, st);
    assert(ops[j] == end.f.ops[j]);
    let p = s2.f.ops.len() as int;
    assert(ops[p] == s3.f.ops[p]);
    assert forall|i: int| merge < i < j implies #[trigger] ops[i] != Op::SwitchTo(merge) by {
        assert(ops[i] == all.f.ops[i]);
    }
    lemma_start(ops, merge, j);
    match worth(eval(scrutinee, vars)) {
        Eval::Value(x, vars1) => {
            let m1 = after(ops, m, st, s1, sv, x, vars1, around);
            assert(reached(ops, m, st, s1, m1, vars1, around));
            let k = key_of(t, x, vars1.world);
            let m2 = lemma_key(ops, m1, s1, t, sv, x, vars1);
            let m3 = Machine { at: p + 1, ..m2 };
            assert(step(ops, m2) == Some(End::At(m3)));
            lemma_leads_step(ops, m2, End::At(m3));
            lemma_leads_on(ops, m1, m2, End::At(m3));
            lemma_leads_on(ops, m, m1, End::At(m3));
            assert(m3.vals[sv as int] == m1.vals[sv as int]);
            assert(holds(m3, vars1));
            assert(calm(s3, st)) by {
                write_match_key(s1, t, sv);
                lemma_calm();
            }
            lemma_calm_flow(s3, st);
            lemma_calm_placed(ops, m, st, vars, m3, s3, vars1);
            let out = exec_arms(arms, 0, t, x, k, vars1, fuel);
            law_blocks(
                ops, m3, st, s3, arms, 0, t, sv, key, merge, true, line, j, end, x, k, vars1, fuel,
            );
            lemma_onward(ops, m, m3, st, st, end, out, around);
        },
        ev => lemma_stopped(ops, m, st, s1, Some(sv), ev, around, st, end),
    }
}

} // verus!
