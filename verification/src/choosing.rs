//! That the code of matches and calls does what they mean.
use vstd::prelude::*;

use crate::ast::{ExprView, PatArgsView, PatBinderView, PatternView};
use crate::computing::{
    after, computes, holds, keeps, lemma_before, lemma_calm_placed, lemma_keeps_on, lemma_part,
    lemma_place_load, lemma_then, lemma_then_rooted, placed, reached, scalar_code, within,
};
use crate::evaluate::{
    bind, bind_all, bindings, eval, eval_choices, eval_match, key_of, worth, Eval, Vars,
};
use crate::expressions::{law_scalar, lemma_merge, lemma_stops};
use crate::ir::{IntCC, Op};
use crate::lower::{
    abi, bind_fields, bind_one, bind_pattern, gen_arms, gen_expr, gen_match, gen_scalar, load_typed,
    match_key, next, pattern_const, place, put, rooted, test_arm, variant_types, LowEnv, LowView,
    AUX,
};
use crate::machine::{compare_result, leads, start_from, step, truth, word, End, Machine};
use crate::matching::{pattern_key, takes};
use crate::meaning::{
    begins, kept, lemma_leads_here, lemma_leads_on, lemma_leads_step, lemma_start, lemma_step_then,
    lemma_word, ready, runnable,
};
use crate::memory::{aux, beyond, fetch, lemma_fetch_bound, lemma_room, read};
use crate::objects::{found, framed, law_load, lemma_beyond, lemma_literal, replies, with};
use crate::types::TypeView;
use crate::writing::{
    calm, lemma_calm, write_bind_fields, write_bind_one, write_bind_pattern, write_gen_arms,
    write_gen_scalar, write_match_key, write_test_arm,
};

verus! {

// -- Patterns ---------------------------------------------------------------

/// A value is read, without a root.
pub proof fn law_loaded(
    ops: Seq<Op>,
    m: Machine,
    st: LowView,
    ty: TypeView,
    base: usize,
    off: i32,
    r: int,
)
    requires
        begins(ops, load_typed(st, ty, base, off).0),
        ops.len() <= usize::MAX,
        ready(ops, m, st),
        m.vals[base as int] == word(r),
    ensures
        replies(
            ops,
            m,
            st,
            load_typed(st, ty, base, off).0,
            load_typed(st, ty, base, off).1,
            found(read(m.world, ty, beyond(r, off as int)), m.world),
        ),
{
    if ty.is_reference() {
        reveal(load_typed);
        let n = st.f.ops.len() as int;
        let end = load_typed(st, ty, base, off).0;
        assert(ops[n] == end.f.ops[n]);
        let a = beyond(r, off as int);
        lemma_beyond(m, base, off, r);
        lemma_fetch_bound(m.world.mem, a, 8);
        lemma_room();
        let raw = fetch(m.world.mem, a, 8);
        lemma_word(raw as int);
        let m1 = with(m, raw as u64);
        if read(m.world, ty, a) is Some {
            assert(step(ops, m) == Some(End::At(m1)));
            lemma_leads_step(ops, m, End::At(m1));
            assert(framed(m1, m, n));
        }
    } else {
        law_load(ops, m, st, ty, base, off, r);
    }
}

/// A part of the matched value goes into its variable.
pub proof fn law_bind_one(
    ops: Seq<Op>,
    m: Machine,
    st: LowView,
    b: PatBinderView,
    sv: usize,
    ts: Seq<TypeView>,
    index: u32,
    line: u32,
    x: int,
    vars: Vars,
)
    requires
        bind_one(vars.env(), st, b, sv, ts, index, line) is Ok,
        within(ops, bind_one(vars.env(), st, b, sv, ts, index, line)->Ok_0, vars.around),
        ready(ops, m, st),
        holds(m, vars),
        m.vals[sv as int] == word(x),
    ensures
        bind(b, ts, index, x, vars) matches Some(vars1) ==> exists|m2: Machine| #[trigger]
            reached(
                ops,
                m,
                st,
                bind_one(vars.env(), st, b, sv, ts, index, line)->Ok_0,
                m2,
                vars1,
                vars.around,
            ),
{
    reveal(bind_one);
    let end = bind_one(vars.env(), st, b, sv, ts, index, line)->Ok_0;
    let n = st.f.ops.len() as int;
    let (s, v) = load_typed(st, b.ty, sv, place(ts, index));
    lemma_place_load(st, b.ty, sv, place(ts, index));
    lemma_before(ops, end, s, vars.around);
    law_loaded(ops, m, st, b.ty, sv, place(ts, index), x);
    let r = read(vars.world, b.ty, beyond(x, place(ts, index) as int));
    if let Some(y) = r {
        let w = vars.world;
        let m1 = choose|m1: Machine| #[trigger]
            leads(ops, m, End::At(m1)) && m1.at == s.f.ops.len() && m1.vals[v as int] == word(y)
                && m1.world == w && framed(m1, m, n);
        let k = s.f.ops.len() as int;
        assert(ops[k] == end.f.ops[k]);
        let m2 = Machine { at: k + 1, vars: m1.vars.insert(b.local as int, word(y)), ..m1 };
        assert(step(ops, m1) == Some(End::At(m2)));
        lemma_leads_step(ops, m1, End::At(m2));
        lemma_leads_on(ops, m, m1, End::At(m2));
        let vars1 = vars.insert(b.local as int, y);
        assert(holds(m2, vars1));
        let got = bind(b, ts, index, x, vars);
        assert(got == Some(vars1));
        assert(reached(ops, m, st, end, m2, got->0, vars.around));
    }
}

pub proof fn law_bind_fields(
    ops: Seq<Op>,
    m: Machine,
    st: LowView,
    fs: Seq<(Seq<char>, PatBinderView, u32)>,
    sv: usize,
    ts: Seq<TypeView>,
    i: nat,
    line: u32,
    x: int,
    vars: Vars,
)
    requires
        bind_fields(vars.env(), st, fs, sv, ts, i, line) is Ok,
        within(ops, bind_fields(vars.env(), st, fs, sv, ts, i, line)->Ok_0, vars.around),
        ready(ops, m, st),
        holds(m, vars),
        sv < st.f.ops.len(),
        m.vals[sv as int] == word(x),
    ensures
        bind_all(fs, ts, i, x, vars) matches Some(vars1) ==> exists|m2: Machine| #[trigger]
            reached(
                ops,
                m,
                st,
                bind_fields(vars.env(), st, fs, sv, ts, i, line)->Ok_0,
                m2,
                vars1,
                vars.around,
            ),
    decreases fs.len() - i,
{
    let env = vars.env();
    let around = vars.around;
    let end = bind_fields(env, st, fs, sv, ts, i, line)->Ok_0;
    let got = bind_all(fs, ts, i, x, vars);
    if i >= fs.len() {
        lemma_leads_here(ops, m);
        assert(reached(ops, m, st, end, m, got->0, around));
    } else {
        let b = fs[i as int].1;
        let k = fs[i as int].2;
        let s = bind_one(env, st, b, sv, ts, k, line)->Ok_0;
        write_bind_fields(env, s, fs, sv, ts, i + 1, line);
        lemma_part(ops, end, s, around);
        write_bind_one(env, st, b, sv, ts, k, line);
        lemma_part(ops, s, st, around);
        law_bind_one(ops, m, st, b, sv, ts, k, line, x, vars);
        if let Some(vars1) = bind(b, ts, k, x, vars) {
            let m1 = choose|m1: Machine| #[trigger] reached(ops, m, st, s, m1, vars1, around);
            assert(m1.vals[sv as int] == m.vals[sv as int]);
            law_bind_fields(ops, m1, s, fs, sv, ts, i + 1, line, x, vars1);
            if let Some(vars2) = bind_all(fs, ts, i + 1, x, vars1) {
                let m2 = choose|m2: Machine| #[trigger]
                    reached(ops, m1, s, end, m2, vars2, around);
                lemma_leads_on(ops, m, m1, End::At(m2));
                lemma_keeps_on(m, m1, m2, st.f.ops.len() as int, s.f.ops.len() as int);
                assert(reached(ops, m, st, end, m2, got->0, around));
            }
        }
    }
}

/// The payload of the matched value goes into the pattern's variables.
pub proof fn law_bindings(
    ops: Seq<Op>,
    m: Machine,
    st: LowView,
    p: PatternView,
    ty: TypeView,
    sv: usize,
    x: int,
    vars: Vars,
)
    requires
        bind_pattern(vars.env(), st, p, ty, sv) is Ok,
        within(ops, bind_pattern(vars.env(), st, p, ty, sv)->Ok_0, vars.around),
        ready(ops, m, st),
        holds(m, vars),
        sv < st.f.ops.len(),
        m.vals[sv as int] == word(x),
    ensures
        bindings(p, ty, x, vars) matches Some(vars1) ==> exists|m2: Machine| #[trigger]
            reached(
                ops,
                m,
                st,
                bind_pattern(vars.env(), st, p, ty, sv)->Ok_0,
                m2,
                vars1,
                vars.around,
            ),
{
    reveal(bind_pattern);
    let end = bind_pattern(vars.env(), st, p, ty, sv)->Ok_0;
    let around = vars.around;
    let here = match p {
        PatternView::Variant { args, .. } => args is Bare,
        _ => true,
    };
    let got = bindings(p, ty, x, vars);
    if here {
        lemma_leads_here(ops, m);
        assert(reached(ops, m, st, end, m, got->0, around));
    } else if let PatternView::Variant { args, tag, line, .. } = p {
        let ts = variant_types(vars.env().checked, ty->Enum_0, ty->Enum_1, tag);
        match args {
            PatArgsView::Bare => {},
            PatArgsView::Single(b) => {
                law_bind_one(ops, m, st, b, sv, ts, 0, line, x, vars);
                assert(got == bind(b, ts, 0, x, vars));
                if let Some(vars1) = bind(b, ts, 0, x, vars) {
                    let m2 = choose|m2: Machine| #[trigger]
                        reached(ops, m, st, end, m2, vars1, around);
                    assert(reached(ops, m, st, end, m2, got->0, around));
                }
            },
            PatArgsView::Fields(fs) => {
                law_bind_fields(ops, m, st, fs, sv, ts, 0, line, x, vars);
                assert(got == bind_all(fs, ts, 0, x, vars));
                if let Some(vars1) = bind_all(fs, ts, 0, x, vars) {
                    let m2 = choose|m2: Machine| #[trigger]
                        reached(ops, m, st, end, m2, vars1, around);
                    assert(reached(ops, m, st, end, m2, got->0, around));
                }
            },
        }
    }
}

pub proof fn lemma_const(p: PatternView)
    requires
        pattern_const(p) is Some,
    ensures
        pattern_key(p) == Some(word(pattern_const(p)->0 as int)),
{
    match p {
        PatternView::IntLit { value, .. } => lemma_literal(value, crate::types::IntKind::U64),
        PatternView::Variant { tag, .. } => lemma_word(tag as int),
        PatternView::ByteLit { value, .. } => lemma_word(value as int),
        PatternView::BoolLit { .. } => {
            lemma_word(0);
            lemma_word(1);
        },
        PatternView::Wildcard { .. } => {},
    }
}

/// The test of an arm: into its body if it takes the value, and else on to the
/// next arm.
#[verifier::rlimit(30)]
pub proof fn law_arm_test(
    ops: Seq<Op>,
    m: Machine,
    st: LowView,
    key: usize,
    p: PatternView,
    x: u64,
    r: int,
)
    requires
        pattern_const(p) is Some,
        begins(ops, test_arm(st, key, pattern_const(p)->0).0),
        runnable(ops),
        ready(ops, m, st),
        key < st.f.ops.len(),
        m.vals[key as int] == x,
        st.f.ops.len() + 5 <= r < ops.len(),
        ops[r] == Op::SwitchTo(test_arm(st, key, pattern_const(p)->0).1),
        forall|i: int|
            st.f.ops.len() + 5 <= i < r ==> #[trigger] ops[i] != Op::SwitchTo(
                test_arm(st, key, pattern_const(p)->0).1,
            ),
    ensures
        exists|m2: Machine| #[trigger]
            leads(ops, m, End::At(m2)) && kept(m2, m, st.f.ops.len() as int) && m2.at == (if takes(
                p,
                x,
            ) {
                st.f.ops.len() as int + 5
            } else {
                r + 1
            }),
{
    reveal(test_arm);
    let n = st.f.ops.len() as int;
    let c = pattern_const(p)->0;
    let (head, other) = test_arm(st, key, c);
    let (yes, no) = ((n + 1) as usize, (n + 2) as usize);
    assert(ops[n] == head.f.ops[n] && ops[n + 1] == head.f.ops[n + 1] && ops[n + 2]
        == head.f.ops[n + 2] && ops[n + 3] == head.f.ops[n + 3] && ops[n + 4] == head.f.ops[n
        + 4]);
    assert(ops[n] == Op::CompareImm(IntCC::Equal, key, c));
    assert(ops[n + 3] == Op::Brif(n as usize, yes, no) && ops[n + 4] == Op::SwitchTo(yes));
    assert(other == no);
    lemma_const(p);
    let hit = takes(p, x);
    assert(compare_result(IntCC::Equal, x, word(c as int)) == hit);
    let t = truth(hit);
    let m1 = Machine { at: n + 1, vals: m.vals.insert(n, t), ..m };
    let m2 = Machine { at: n + 2, ..m1 };
    let m3 = Machine { at: n + 3, ..m1 };
    assert(step(ops, m) == Some(End::At(m1)));
    assert(step(ops, m1) == Some(End::At(m2)));
    assert(step(ops, m2) == Some(End::At(m3)));
    lemma_start(ops, yes, n + 4);
    lemma_start(ops, no, r);
    let j = if hit {
        n + 4
    } else {
        r
    };
    let m4 = Machine { at: j, ..m1 };
    let m5 = Machine { at: j + 1, ..m1 };
    assert(step(ops, m3) == Some(End::At(m4)));
    assert(step(ops, m4) == Some(End::At(m5)));
    lemma_leads_step(ops, m4, End::At(m5));
    lemma_step_then(ops, m3, m4, End::At(m5));
    lemma_step_then(ops, m2, m3, End::At(m5));
    lemma_step_then(ops, m1, m2, End::At(m5));
    lemma_step_then(ops, m, m1, End::At(m5));
    assert(kept(m5, m, n));
}

// -- Matches ----------------------------------------------------------------

/// The code of the arms of a match from index `i` on.
#[verifier::opaque]
pub open spec fn arms_code(
    env: LowEnv,
    st: LowView,
    arms: Seq<(PatternView, ExprView)>,
    i: nat,
    ty: TypeView,
    sv: usize,
    key: usize,
    merge: usize,
    line: u32,
) -> Result<LowView, Seq<char>> {
    gen_arms(env, st, arms, i, ty, sv, key, merge, line)
}

/// Behind the test of an arm.
pub open spec fn arm_head(st: LowView, arms: Seq<(PatternView, ExprView)>, i: nat, key: usize) -> LowView {
    if i + 1 == arms.len() {
        st
    } else {
        test_arm(st, key, pattern_const(arms[i as int].0)->0).0
    }
}

/// Where the next arm is written.
pub open spec fn arm_next(
    st: LowView,
    s3: LowView,
    arms: Seq<(PatternView, ExprView)>,
    i: nat,
    key: usize,
    merge: usize,
    v: usize,
) -> LowView {
    put(
        put(s3, Op::JumpWith(merge, v)),
        Op::SwitchTo(test_arm(st, key, pattern_const(arms[i as int].0)->0).1),
    )
}

proof fn lemma_arms_parts(
    env: LowEnv,
    st: LowView,
    arms: Seq<(PatternView, ExprView)>,
    i: nat,
    ty: TypeView,
    sv: usize,
    key: usize,
    merge: usize,
    line: u32,
)
    requires
        arms_code(env, st, arms, i, ty, sv, key, merge, line) is Ok,
    ensures
        i < arms.len(),
        ({
            let all = arms_code(env, st, arms, i, ty, sv, key, merge, line)->Ok_0;
            let s1 = arm_head(st, arms, i, key);
            let b = bind_pattern(env, s1, arms[i as int].0, ty, sv);
            let r = scalar_code(env, b->Ok_0, arms[i as int].1);
            let nx = arm_next(st, r->Ok_0.0, arms, i, key, merge, r->Ok_0.1);
            &&& calm(all, st)
            &&& calm(s1, st)
            &&& b is Ok
            &&& calm(b->Ok_0, s1)
            &&& r is Ok
            &&& calm(r->Ok_0.0, b->Ok_0)
            &&& i + 1 == arms.len() ==> all == put(r->Ok_0.0, Op::JumpWith(merge, r->Ok_0.1))
            &&& i + 1 < arms.len() ==> {
                &&& pattern_const(arms[i as int].0) is Some
                &&& arms_code(env, nx, arms, i + 1, ty, sv, key, merge, line) == Ok::<
                    LowView,
                    Seq<char>,
                >(all)
                &&& calm(all, nx)
            }
        }),
{
    reveal(arms_code);
    reveal(scalar_code);
    write_gen_arms(env, st, arms, i, ty, sv, key, merge, line);
    let p = arms[i as int].0;
    let s1 = arm_head(st, arms, i, key);
    if i + 1 < arms.len() && pattern_const(p) is Some {
        write_test_arm(st, key, pattern_const(p)->0);
    }
    assert(calm(st, st)) by {
        lemma_calm();
    }
    write_bind_pattern(env, s1, p, ty, sv);
    let s2 = bind_pattern(env, s1, p, ty, sv)->Ok_0;
    write_gen_scalar(env, s2, arms[i as int].1);
    if i + 1 < arms.len() {
        let (s3, v) = gen_scalar(env, s2, arms[i as int].1)->Ok_0;
        write_gen_arms(
            env,
            arm_next(st, s3, arms, i, key, merge, v),
            arms,
            i + 1,
            ty,
            sv,
            key,
            merge,
            line,
        );
    }
}

proof fn lemma_eq_choices(
    arms: Seq<(PatternView, ExprView)>,
    i: nat,
    t: TypeView,
    x: int,
    key: u64,
    vars: Vars,
)
    requires
        i < arms.len(),
    ensures
        eval_choices(arms, i, t, x, key, vars) == (if takes(arms[i as int].0, key) {
            match bindings(arms[i as int].0, t, x, vars) {
                None => Eval::Unfinished,
                Some(vars1) => worth(eval(arms[i as int].1, vars1)),
            }
        } else {
            eval_choices(arms, i + 1, t, x, key, vars)
        }),
        i + 1 == arms.len() ==> eval_choices(arms, i + 1, t, x, key, vars) is Unfinished,
{
    reveal(eval);
    reveal_with_fuel(eval_choices, 2);
}

/// The arms from index `i` on, none before having taken the value.
#[verifier::rlimit(60)]
proof fn law_choices(
    ops: Seq<Op>,
    m: Machine,
    base: LowView,
    st: LowView,
    arms: Seq<(PatternView, ExprView)>,
    i: nat,
    ty: TypeView,
    sv: usize,
    key: usize,
    merge: usize,
    line: u32,
    j: int,
    end: LowView,
    x: int,
    k: u64,
    vars: Vars,
)
    requires
        placed(ops, m, st, vars),
        arms_code(vars.env(), st, arms, i, ty, sv, key, merge, line) is Ok,
        within(
            ops,
            arms_code(vars.env(), st, arms, i, ty, sv, key, merge, line)->Ok_0,
            vars.around,
        ),
        key < st.f.ops.len(),
        sv < st.f.ops.len(),
        m.vals[key as int] == k,
        m.vals[sv as int] == word(x),
        base.f.ops.len() <= merge < st.f.ops.len(),
        arms_code(vars.env(), st, arms, i, ty, sv, key, merge, line)->Ok_0.f.ops.len() <= j,
        j + 1 < ops.len(),
        ops[j] == Op::SwitchTo(merge),
        ops[j + 1] == Op::BlockParam(merge),
        start_from(ops, merge, 0) == Some(j),
        end.f.ops.len() == j + 2,
    ensures
        computes(
            ops,
            m,
            base,
            end,
            Some((j + 1) as usize),
            eval_choices(arms, i, ty, x, k, vars),
            vars.around,
        ),
    decreases arms, arms.len() - i,
{
    let env = vars.env();
    let around = vars.around;
    let all = arms_code(env, st, arms, i, ty, sv, key, merge, line)->Ok_0;
    lemma_arms_parts(env, st, arms, i, ty, sv, key, merge, line);
    let p = arms[i as int].0;
    let s1 = arm_head(st, arms, i, key);
    let s2 = bind_pattern(env, s1, p, ty, sv)->Ok_0;
    let (s3, v) = scalar_code(env, s2, arms[i as int].1)->Ok_0;
    let nx = arm_next(st, s3, arms, i, key, merge, v);
    let last = i + 1 == arms.len();
    let ev = eval_choices(arms, i, ty, x, k, vars);
    let n = st.f.ops.len() as int;
    let to = Some((j + 1) as usize);
    lemma_eq_choices(arms, i, ty, x, k, vars);
    if last {
        lemma_before(ops, all, s3, around);
    } else {
        lemma_part(ops, all, nx, around);
        lemma_before(ops, nx, s3, around);
    }
    lemma_part(ops, s3, s2, around);
    lemma_part(ops, s2, s1, around);
    lemma_part(ops, s1, st, around);
    let q = s3.f.ops.len() as int;
    assert(ops[q] == Op::JumpWith(merge, v)) by {
        if last {
            assert(ops[q] == all.f.ops[q]);
        } else {
            assert(ops[q] == nx.f.ops[q]);
        }
    }
    let hit = takes(p, k);
    let m1 = if last {
        lemma_leads_here(ops, m);
        m
    } else {
        let r = q + 1;
        assert(ops[r] == nx.f.ops[r]);
        let other = test_arm(st, key, pattern_const(p)->0).1;
        assert(other == n + 2 && s1.f.ops.len() == n + 5) by {
            reveal(test_arm);
        }
        assert forall|a: int| n + 5 <= a < r implies #[trigger] ops[a] != Op::SwitchTo(other) by {
            if a < s2.f.ops.len() {
                assert(ops[a] == s2.f.ops[a]);
            } else if a < q {
                assert(ops[a] == s3.f.ops[a]);
            }
        }
        law_arm_test(ops, m, st, key, p, k, r);
        choose|m2: Machine| #[trigger]
            leads(ops, m, End::At(m2)) && kept(m2, m, n) && m2.at == (if takes(p, k) {
                n + 5
            } else {
                r + 1
            })
    };
    assert(holds(m1, vars));
    assert(keeps(m1, m, n));
    assert(m1.vals[key as int] == m.vals[key as int] && m1.vals[sv as int] == m.vals[sv as int]);
    if hit {
        law_bindings(ops, m1, s1, p, ty, sv, x, vars);
        if let Some(vars1) = bindings(p, ty, x, vars) {
            let m2 = choose|m2: Machine| #[trigger] reached(ops, m1, s1, s2, m2, vars1, around);
            assert(calm(s2, st)) by {
                lemma_calm();
            }
            lemma_calm_placed(ops, m, st, vars, m2, s2, vars1);
            law_scalar(ops, m2, s2, arms[i as int].1, vars1);
            assert(ev == worth(eval(arms[i as int].1, vars1)));
            lemma_merge(ops, m2, s2, s3, v, ev, merge, j - 1, base, end, around);
            lemma_leads_on(ops, m, m1, End::At(m2));
            lemma_keeps_on(m, m1, m2, base.f.ops.len() as int, s1.f.ops.len() as int);
            lemma_then(ops, m, m2, base, base, end, to, ev, around);
        }
    } else if !last {
        assert(calm(nx, st)) by {
            lemma_calm();
            assert(calm(s3, st));
            assert(test_arm(st, key, pattern_const(p)->0).1 >= st.f.ops.len()) by {
                reveal(test_arm);
            }
        }
        lemma_calm_placed(ops, m, st, vars, m1, nx, vars);
        lemma_part(ops, all, nx, around);
        assert(nx.f.ops.len() <= j);
        law_choices(
            ops, m1, base, nx, arms, i + 1, ty, sv, key, merge, line, j, end, x, k, vars,
        );
        lemma_then(ops, m, m1, base, base, end, to, ev, around);
    }
}

/// A match runs the first arm that takes the value, and only that one, with the
/// payload in the arm's variables.
pub proof fn law_match(ops: Seq<Op>, m: Machine, st: LowView, e: ExprView, vars: Vars)
    requires
        e.kind is Match,
        placed(ops, m, st, vars),
        gen_expr(vars.env(), st, e) is Ok,
        within(ops, gen_expr(vars.env(), st, e)->Ok_0.0, vars.around),
    ensures
        computes(
            ops,
            m,
            st,
            gen_expr(vars.env(), st, e)->Ok_0.0,
            gen_expr(vars.env(), st, e)->Ok_0.1,
            eval(e, vars),
            vars.around,
        ),
    decreases e, 8int,
{
    let env = vars.env();
    let scrutinee = *e.kind->Match_scrutinee;
    let arms = e.kind->Match_arms;
    let (s, v) = gen_match(env, st, e)->Ok_0;
    let (s1, sv) = gen_scalar(env, st, scrutinee)->Ok_0;
    let (s2, key) = match_key(s1, scrutinee.ty, sv);
    let merge = next(s2);
    let s3 = put(s2, Op::BlockOf(abi(e.ty)));
    let all = gen_arms(env, s3, arms, 0, scrutinee.ty, sv, key, merge, e.line)->Ok_0;
    let end = put(put(all, Op::SwitchTo(merge)), Op::BlockParam(merge));
    assert(scalar_code(env, st, scrutinee) == gen_scalar(env, st, scrutinee)) by {
        reveal(scalar_code);
    }
    assert(arms_code(env, s3, arms, 0, scrutinee.ty, sv, key, merge, e.line) == gen_arms(
        env,
        s3,
        arms,
        0,
        scrutinee.ty,
        sv,
        key,
        merge,
        e.line,
    )) by {
        reveal(arms_code);
    }
    assert(eval(e, vars) == eval_match(e, vars)) by {
        reveal(eval);
    }
    assert(s == rooted(end, e.ty, v));
    assert(v == (all.f.ops.len() + 1) as usize);
    lemma_before(ops, s, end, vars.around);
    lemma_match(ops, m, st, e, scrutinee, arms, s1, sv, all, vars);
    lemma_then_rooted(ops, m, st, end, e.ty, v, eval(e, vars), vars.around);
}

proof fn lemma_eq_match(e: ExprView, vars: Vars)
    requires
        e.kind is Match,
    ensures
        eval_match(e, vars) == (match worth(eval(*e.kind->Match_scrutinee, vars)) {
            Eval::Value(x, vars1) => eval_choices(
                e.kind->Match_arms,
                0,
                e.kind->Match_scrutinee.ty,
                x,
                key_of(e.kind->Match_scrutinee.ty, x, vars1.world),
                vars1,
            ),
            other => other,
        }),
{
    reveal(eval);
}

#[verifier::rlimit(50)]
proof fn lemma_match(
    ops: Seq<Op>,
    m: Machine,
    st: LowView,
    e: ExprView,
    scrutinee: ExprView,
    arms: Seq<(PatternView, ExprView)>,
    s1: LowView,
    sv: usize,
    all: LowView,
    vars: Vars,
)
    requires
        e.kind is Match,
        scrutinee == *e.kind->Match_scrutinee,
        arms == e.kind->Match_arms,
        placed(ops, m, st, vars),
        scalar_code(vars.env(), st, scrutinee) == Ok::<(LowView, usize), Seq<char>>((s1, sv)),
        ({
            let (s2, key) = match_key(s1, scrutinee.ty, sv);
            arms_code(
                vars.env(),
                put(s2, Op::BlockOf(abi(e.ty))),
                arms,
                0,
                scrutinee.ty,
                sv,
                key,
                next(s2),
                e.line,
            ) == Ok::<LowView, Seq<char>>(all)
        }),
        ({
            let merge = next(match_key(s1, scrutinee.ty, sv).0);
            within(
                ops,
                put(put(all, Op::SwitchTo(merge)), Op::BlockParam(merge)),
                vars.around,
            )
        }),
    ensures
        ({
            let merge = next(match_key(s1, scrutinee.ty, sv).0);
            computes(
                ops,
                m,
                st,
                put(put(all, Op::SwitchTo(merge)), Op::BlockParam(merge)),
                Some((all.f.ops.len() + 1) as usize),
                eval_match(e, vars),
                vars.around,
            )
        }),
    decreases e, 7int,
{
    let env = vars.env();
    let around = vars.around;
    let (s2, key) = match_key(s1, scrutinee.ty, sv);
    let merge = next(s2);
    let s3 = put(s2, Op::BlockOf(abi(e.ty)));
    let end = put(put(all, Op::SwitchTo(merge)), Op::BlockParam(merge));
    let j = all.f.ops.len() as int;
    let v = Some((j + 1) as usize);
    lemma_eq_match(e, vars);
    lemma_before(ops, end, all, around);
    lemma_arms_parts(env, s3, arms, 0, scrutinee.ty, sv, key, merge, e.line);
    lemma_part(ops, all, s3, around);
    lemma_before(ops, s3, s2, around);
    lemma_before(ops, s2, s1, around);
    assert(decreases_to!(e => scrutinee) && decreases_to!(e => arms));
    law_scalar(ops, m, st, scrutinee, vars);
    assert(ops[j] == end.f.ops[j] && ops[j + 1] == end.f.ops[j + 1]);
    let p = s2.f.ops.len() as int;
    assert(ops[p] == s3.f.ops[p]);
    assert forall|i: int| merge < i < j implies #[trigger] ops[i] != Op::SwitchTo(merge) by {
        assert(ops[i] == all.f.ops[i]);
    }
    lemma_start(ops, merge, j);
    match worth(eval(scrutinee, vars)) {
        Eval::Value(x, vars1) => {
            let m1 = after(ops, m, st, s1, sv, x, vars1, around);
            assert(reached(ops, m, st, s1, m1, vars1, around));
            let k = key_of(scrutinee.ty, x, vars1.world);
            let m2 = lemma_key(ops, m1, s1, scrutinee.ty, sv, x, vars1);
            let m3 = Machine { at: p + 1, ..m2 };
            assert(step(ops, m2) == Some(End::At(m3)));
            lemma_leads_step(ops, m2, End::At(m3));
            lemma_leads_on(ops, m1, m2, End::At(m3));
            assert(m3.vals[sv as int] == m1.vals[sv as int]);
            assert(keeps(m3, m1, s1.f.ops.len() as int));
            assert(holds(m3, vars1));
            assert(calm(s3, st)) by {
                write_match_key(s1, scrutinee.ty, sv);
                lemma_calm();
            }
            lemma_calm_placed(ops, m, st, vars, m3, s3, vars1);
            let ev = eval_choices(arms, 0, scrutinee.ty, x, k, vars1);
            law_choices(
                ops,
                m3,
                s1,
                s3,
                arms,
                0,
                scrutinee.ty,
                sv,
                key,
                merge,
                e.line,
                j,
                end,
                x,
                k,
                vars1,
            );
            lemma_then(ops, m1, m3, s1, s1, end, v, ev, around);
            lemma_then(ops, m, m1, st, s1, end, v, ev, around);
        },
        ev => lemma_stops(ops, m, st, s1, Some(sv), ev, around, st, end, v),
    }
}

/// What the patterns are compared with is computed.
pub proof fn lemma_key(
    ops: Seq<Op>,
    m: Machine,
    s1: LowView,
    t: TypeView,
    sv: usize,
    x: int,
    vars: Vars,
) -> (m2: Machine)
    requires
        begins(ops, match_key(s1, t, sv).0),
        ops.len() <= usize::MAX,
        ready(ops, m, s1),
        holds(m, vars),
        sv < s1.f.ops.len(),
        m.vals[sv as int] == word(x),
    ensures
        leads(ops, m, End::At(m2)),
        m2.at == match_key(s1, t, sv).0.f.ops.len(),
        holds(m2, vars),
        keeps(m2, m, s1.f.ops.len() as int),
        match_key(s1, t, sv).1 < match_key(s1, t, sv).0.f.ops.len(),
        m2.vals[match_key(s1, t, sv).1 as int] == key_of(t, x, vars.world),
{
    let (s2, key) = match_key(s1, t, sv);
    if t is Enum {
        let n = s1.f.ops.len() as int;
        assert(ops[n] == s2.f.ops[n]);
        lemma_beyond(m, sv, AUX, x);
        lemma_fetch_bound(vars.world.mem, beyond(x, 8), 8);
        lemma_room();
        let m2 = with(m, aux(vars.world, x) as u64);
        assert(step(ops, m) == Some(End::At(m2)));
        lemma_leads_step(ops, m, End::At(m2));
        assert(holds(m2, vars));
        m2
    } else {
        lemma_leads_here(ops, m);
        m
    }
}

} // verus!
