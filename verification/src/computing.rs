//! That the code of an expression computes what the expression means.
use vstd::prelude::*;

use crate::ast::{BinOp, Builtin, ExprKindView, ExprView, UnOp, VarRes};
use crate::evaluate::{
    answer, applied, captured_value, eval, lift, named, slot, word_value, Calls, Eval, Setting,
    Vars,
};
use crate::floats::{flipped, float_of_text};
use crate::ir::{Op, Rt};
use crate::keeping::starts_with;
use crate::lower::{
    add_string, binary_values, builtin_value, captured, cast, cast_int, desc_data, env_var,
    field_value, gen_expr, gen_list, gen_scalar, index_value, load_typed, next, put, rooted, rt1,
    string_data, unary_value, variable, LowEnv, LowView, HEADER, KIND_STRUCT,
};
use crate::machine::{
    decode, give, leads, modulus, runtime, standing, step, word, Called, End, Layout, Machine,
};
use crate::meaning::{
    begins, law_not, law_unary, lemma_leads_on, lemma_leads_step, lemma_word, ready, runnable,
};
use crate::memory::{fetch, lemma_fetch_bound, lemma_room, World};
use crate::objects::{
    found, framed, kind_of, leaves, lemma_begins, lemma_beyond, lemma_literal, lemma_runtime,
    replies, with, Reply,
};
use crate::types::TypeView;
use crate::writing::{
    calm, fuller, goes_on, lemma_fuller_on, lemma_more_is_fuller, lemma_starts_on, more_unit, tidy,
    write_add_string, write_gen_list, write_gen_scalar, wrote,
};

verus! {

// -- What code does ---------------------------------------------------------

/// Is this what the reply says?
pub open spec fn answers(c: Called, r: Reply) -> bool {
    match r {
        Reply::Value(x, w) => c == Called::Done(Some(word(x)), w),
        Reply::Nothing(w) => c == Called::Done(None, w),
        Reply::Panic(rt, line, w) => c == Called::Panic(rt, line, w),
        Reply::Unfinished => true,
    }
}

pub open spec fn words(xs: Seq<int>) -> Seq<u64> {
    Seq::new(xs.len(), |i: int| word(xs[i]))
}

/// Do the calls of symbols come to what they give?
pub open spec fn agree(run: spec_fn(usize, Seq<u64>, World) -> Called, calls: Calls) -> bool {
    forall|f: usize, xs: Seq<int>, w: World|
        answers(run(f, words(xs), w), #[trigger] answer(calls, f, xs, w))
}

/// Does the machine, in the midst of no call, hold these variables, and stand
/// in their setting?
pub open spec fn holds(m: Machine, vars: Vars) -> bool {
    &&& forall|i: int|
        0 <= i <= vars.env().locals ==> #[trigger] m.vars[i] == word(vars.vals[i])
    &&& m.args.len() == 0
    &&& m.world == vars.world
    &&& m.around.datas == vars.around.g.datas
    &&& m.around.layout == vars.around.layout
    &&& m.around.floats == vars.around.floats
    &&& agree(m.around.calls, vars.around.calls)
}

/// What came before a place is as it was.
pub open spec fn keeps(new: Machine, prior: Machine, below: int) -> bool {
    &&& new.around == prior.around
    &&& forall|i: int| 0 <= i < below ==> #[trigger] new.vals[i] == prior.vals[i]
}

/// The machine comes to this one, behind the code that `end` adds to `st`,
/// which holds these variables in the same setting.
pub open spec fn reached(
    ops: Seq<Op>,
    m: Machine,
    st: LowView,
    end: LowView,
    m2: Machine,
    vars: Vars,
    around: Setting,
) -> bool {
    &&& leads(ops, m, End::At(m2))
    &&& m2.at == end.f.ops.len()
    &&& holds(m2, vars)
    &&& vars.around == around
    &&& keeps(m2, m, st.f.ops.len() as int)
}

/// The machine, about to run the code that `end` adds to `st`, panics as the
/// expression does, or goes on behind that code with the variables that it
/// leaves, and its value, if it has one, at the place `v`.
pub open spec fn computes(
    ops: Seq<Op>,
    m: Machine,
    st: LowView,
    end: LowView,
    v: Option<usize>,
    ev: Eval,
    around: Setting,
) -> bool {
    match ev {
        Eval::Unfinished => true,
        Eval::Panic(rt, line, w) => leads(ops, m, End::Panic(rt, line, w)),
        Eval::Nothing(vars) => exists|m2: Machine| #[trigger]
            reached(ops, m, st, end, m2, vars, around),
        Eval::Value(x, vars) => {
            &&& v is Some
            &&& v->0 < end.f.ops.len()
            &&& exists|m2: Machine| #[trigger]
                reached(ops, m, st, end, m2, vars, around) && m2.vals[v->0 as int] == word(x)
        },
    }
}

/// The machine that a computed value leaves.
pub open spec fn after(
    ops: Seq<Op>,
    m: Machine,
    st: LowView,
    end: LowView,
    v: usize,
    x: int,
    vars: Vars,
    around: Setting,
) -> Machine {
    choose|m2: Machine| #[trigger]
        reached(ops, m, st, end, m2, vars, around) && m2.vals[v as int] == word(x)
}

/// A machine with the value shows that it is computed.
pub proof fn lemma_value(
    ops: Seq<Op>,
    m: Machine,
    st: LowView,
    end: LowView,
    v: usize,
    x: int,
    vars: Vars,
    around: Setting,
    m2: Machine,
)
    requires
        reached(ops, m, st, end, m2, vars, around),
        v < end.f.ops.len(),
        m2.vals[v as int] == word(x),
    ensures
        computes(ops, m, st, end, Some(v), Eval::Value(x, vars), around),
{
    let ev = Eval::Value(x, vars);
    assert(reached(ops, m, st, end, m2, ev->Value_1, around));
}

pub proof fn lemma_nothing(
    ops: Seq<Op>,
    m: Machine,
    st: LowView,
    end: LowView,
    v: Option<usize>,
    vars: Vars,
    around: Setting,
    m2: Machine,
)
    requires
        reached(ops, m, st, end, m2, vars, around),
    ensures
        computes(ops, m, st, end, v, Eval::Nothing(vars), around),
{
    let ev = Eval::Nothing(vars);
    assert(reached(ops, m, st, end, m2, ev->Nothing_0, around));
}

/// Does the body begin with the code, and the unit with what it had then?
pub open spec fn within(ops: Seq<Op>, end: LowView, around: Setting) -> bool {
    &&& begins(ops, end)
    &&& fuller(around.g, end.g)
    &&& starts_with(around.floats, end.f.floats)
    &&& around.floats.len() <= usize::MAX
    &&& ops.len() <= usize::MAX
}

/// Do descriptors stand where their sizes are known?
pub open spec fn sized(layout: Layout) -> bool {
    forall|size: u64, refs: u64|
        (layout.size)(#[trigger] standing(layout, desc_data(KIND_STRUCT, size, refs))) == size
}

/// Is the machine, with these variables, about to run what is written behind
/// `st`?
pub open spec fn placed(ops: Seq<Op>, m: Machine, st: LowView, vars: Vars) -> bool {
    &&& runnable(ops)
    &&& ready(ops, m, st)
    &&& holds(m, vars)
    &&& tidy(st.g)
    &&& sized(vars.around.layout)
    &&& vars.around.g.datas.len() <= usize::MAX
    &&& vars.env().locals <= usize::MAX
}

pub proof fn lemma_within(ops: Seq<Op>, end: LowView, mid: LowView, around: Setting)
    requires
        within(ops, end, around),
        wrote(end, mid),
    ensures
        within(ops, mid, around),
        mid.f.ops.len() <= end.f.ops.len(),
        goes_on(end, mid),
{
    reveal(wrote);
    lemma_more_is_fuller(end.g, mid.g);
    lemma_fuller_on(mid.g, end.g, around.g);
    lemma_starts_on(mid.f.floats, end.f.floats, around.floats);
    lemma_begins(ops, end, mid);
}

pub proof fn lemma_part(ops: Seq<Op>, end: LowView, mid: LowView, around: Setting)
    requires
        within(ops, end, around),
        calm(end, mid),
    ensures
        within(ops, mid, around),
        mid.f.ops.len() <= end.f.ops.len(),
        goes_on(end, mid),
{
    reveal(calm);
    lemma_within(ops, end, mid, around);
}

/// The machine that came to the end of a part is about to run what follows.
pub proof fn lemma_placed(
    ops: Seq<Op>,
    m: Machine,
    st: LowView,
    vars: Vars,
    m1: Machine,
    mid: LowView,
    vars1: Vars,
)
    requires
        placed(ops, m, st, vars),
        wrote(mid, st),
        m1.at == mid.f.ops.len(),
        holds(m1, vars1),
        vars1.around == vars.around,
    ensures
        placed(ops, m1, mid, vars1),
{
    reveal(wrote);
    reveal(more_unit);
    reveal(fuller);
}

pub proof fn lemma_keeps_on(a: Machine, b: Machine, c: Machine, below: int, more: int)
    requires
        keeps(b, a, below),
        keeps(c, b, more),
        below <= more,
    ensures
        keeps(c, a, below),
{
    assert forall|i: int| 0 <= i < below implies #[trigger] c.vals[i] == a.vals[i] by {
        assert(b.vals[i] == a.vals[i]);
    }
}

/// A part has run; the rest goes on from there.
pub proof fn lemma_then(
    ops: Seq<Op>,
    m: Machine,
    m1: Machine,
    st: LowView,
    mid: LowView,
    end: LowView,
    v: Option<usize>,
    ev: Eval,
    around: Setting,
)
    requires
        leads(ops, m, End::At(m1)),
        keeps(m1, m, st.f.ops.len() as int),
        st.f.ops.len() <= mid.f.ops.len(),
        computes(ops, m1, mid, end, v, ev, around),
    ensures
        computes(ops, m, st, end, v, ev, around),
{
    let (a, b) = (st.f.ops.len() as int, mid.f.ops.len() as int);
    match ev {
        Eval::Panic(rt, line, w) => {
            lemma_leads_on(ops, m, m1, End::Panic(rt, line, w));
        },
        Eval::Value(x, vars) => {
            let m2 = after(ops, m1, mid, end, v->0, x, vars, around);
            lemma_leads_on(ops, m, m1, End::At(m2));
            lemma_keeps_on(m, m1, m2, a, b);
            lemma_value(ops, m, st, end, v->0, x, vars, around, m2);
        },
        Eval::Nothing(vars) => {
            let m2 = choose|m2: Machine| #[trigger] reached(ops, m1, mid, end, m2, vars, around);
            lemma_leads_on(ops, m, m1, End::At(m2));
            lemma_keeps_on(m, m1, m2, a, b);
            assert(reached(ops, m, st, end, m2, vars, around));
        },
        _ => {},
    }
}

/// What keeps all but the world holds the same variables.
pub proof fn lemma_framed(m1: Machine, m: Machine, below: int, vars: Vars)
    requires
        framed(m1, m, below),
        holds(m, vars),
    ensures
        holds(m1, vars.at(m1.world)),
        keeps(m1, m, below),
{
}

/// An operation replies, and leaves the variables.
pub proof fn lemma_lift(
    ops: Seq<Op>,
    m: Machine,
    st: LowView,
    end: LowView,
    v: usize,
    r: Reply,
    vars: Vars,
)
    requires
        replies(ops, m, st, end, v, r),
        holds(m, vars),
        r is Value ==> v < end.f.ops.len(),
    ensures
        computes(ops, m, st, end, Some(v), lift(vars, r), vars.around),
        r !is Value ==> computes(ops, m, st, end, None, lift(vars, r), vars.around),
{
    let n = st.f.ops.len() as int;
    match r {
        Reply::Value(x, w) => {
            let m2 = choose|m2: Machine| #[trigger]
                leads(ops, m, End::At(m2)) && m2.at == end.f.ops.len() && m2.vals[v as int]
                    == word(x) && m2.world == w && framed(m2, m, n);
            lemma_framed(m2, m, n, vars);
            lemma_value(ops, m, st, end, v, x, vars.at(w), vars.around, m2);
        },
        Reply::Nothing(w) => {
            let m2 = choose|m2: Machine| #[trigger]
                leads(ops, m, End::At(m2)) && m2.at == end.f.ops.len() && m2.world == w && framed(
                    m2,
                    m,
                    n,
                );
            lemma_framed(m2, m, n, vars);
            lemma_nothing(ops, m, st, end, Some(v), vars.at(w), vars.around, m2);
            lemma_nothing(ops, m, st, end, None, vars.at(w), vars.around, m2);
        },
        _ => {},
    }
}

/// One instruction that gives a value.
pub proof fn lemma_single(ops: Seq<Op>, m: Machine, st: LowView, end: LowView, x: int, vars: Vars)
    requires
        end.f.ops.len() == st.f.ops.len() + 1,
        ops.len() <= usize::MAX,
        begins(ops, end),
        ready(ops, m, st),
        step(ops, m) == give(m, word(x)),
        holds(m, vars),
    ensures
        computes(ops, m, st, end, Some(next(st)), Eval::Value(x, vars), vars.around),
{
    let n = st.f.ops.len() as int;
    let m1 = Machine { at: n + 1, vals: m.vals.insert(n, word(x)), ..m };
    lemma_leads_step(ops, m, End::At(m1));
    assert(framed(m1, m, n));
    lemma_framed(m1, m, n, vars);
    assert(vars.at(m1.world) == vars);
    lemma_value(ops, m, st, end, next(st), x, vars, vars.around, m1);
}

/// A value is followed by nothing but a root.
pub proof fn lemma_then_rooted(
    ops: Seq<Op>,
    m: Machine,
    st: LowView,
    mid: LowView,
    ty: TypeView,
    v: usize,
    ev: Eval,
    around: Setting,
)
    requires
        begins(ops, rooted(mid, ty, v)),
        computes(ops, m, st, mid, Some(v), ev, around),
    ensures
        computes(ops, m, st, rooted(mid, ty, v), Some(v), ev, around),
{
    let end = rooted(mid, ty, v);
    if ty.is_reference() && ev is Value {
        let (x, vars) = (ev->Value_0, ev->Value_1);
        let m1 = after(ops, m, st, mid, v, x, vars, around);
        let n = mid.f.ops.len() as int;
        let m2 = Machine { at: n + 1, ..m1 };
        assert(ops[n] == end.f.ops[n]);
        assert(step(ops, m1) == Some(End::At(m2)));
        lemma_leads_step(ops, m1, End::At(m2));
        lemma_leads_on(ops, m, m1, End::At(m2));
        assert(holds(m2, vars));
        assert(reached(ops, m, st, end, m2, vars, around));
    } else if ty.is_reference() && ev is Nothing {
        let vars = ev->Nothing_0;
        let m1 = choose|m1: Machine| #[trigger] reached(ops, m, st, mid, m1, vars, around);
        let n = mid.f.ops.len() as int;
        let m2 = Machine { at: n + 1, ..m1 };
        assert(ops[n] == end.f.ops[n]);
        assert(step(ops, m1) == Some(End::At(m2)));
        lemma_leads_step(ops, m1, End::At(m2));
        lemma_leads_on(ops, m, m1, End::At(m2));
        assert(holds(m2, vars));
        assert(reached(ops, m, st, end, m2, vars, around));
    }
}

// -- Names ------------------------------------------------------------------

/// A captured variable is read where it was put.
pub proof fn law_captured(
    ops: Seq<Op>,
    m: Machine,
    st: LowView,
    i: u32,
    ty: TypeView,
    line: u32,
    vars: Vars,
)
    requires
        captured(vars.env(), st, i, ty, line) is Ok,
        begins(ops, captured(vars.env(), st, i, ty, line)->Ok_0.0),
        ops.len() <= usize::MAX,
        ready(ops, m, st),
        holds(m, vars),
        vars.env().locals <= usize::MAX,
    ensures
        computes(
            ops,
            m,
            st,
            captured(vars.env(), st, i, ty, line)->Ok_0.0,
            Some(captured(vars.env(), st, i, ty, line)->Ok_0.1),
            lift(vars, found(captured_value(i, ty, vars), vars.world)),
            vars.around,
        ),
{
    reveal(captured);
    let env = vars.env();
    let (end, v) = captured(env, st, i, ty, line)->Ok_0;
    let n = st.f.ops.len() as int;
    let s1 = put(st, Op::UseVar(env_var(env)));
    assert(ops[n] == end.f.ops[n] && ops[n + 1] == end.f.ops[n + 1]);
    {
        let c = vars.vals[env.locals as int];
        assert(m.vars[env.locals as int] == word(c));
        let m1 = with(m, word(c));
        assert(step(ops, m) == Some(End::At(m1)));
        lemma_leads_step(ops, m, End::At(m1));
        let off = (HEADER + 8 * (i + 1)) as i32;
        lemma_beyond(m1, next(st), off, c);
        let raw = fetch(vars.world.mem, slot(c, i as int), 8);
        lemma_fetch_bound(vars.world.mem, slot(c, i as int), 8);
        lemma_room();
        let x = word_value(ty, raw as u64);
        lemma_literal(raw as u64, kind_of(ty));
        lemma_word(raw as int);
        assert(word(x) == raw as u64);
        assert(framed(m1, m, n));
        lemma_framed(m1, m, n, vars);
        assert(vars.at(m1.world) == vars);
        assert(step(ops, m1) == give(m1, word(x)));
        lemma_single(ops, m1, s1, end, x, vars);
        lemma_then(ops, m, m1, st, s1, end, Some(v), Eval::Value(x, vars), vars.around);
    }
}

pub proof fn law_variable(
    ops: Seq<Op>,
    m: Machine,
    st: LowView,
    res: Option<VarRes>,
    ty: TypeView,
    line: u32,
    vars: Vars,
)
    requires
        variable(vars.env(), st, res, ty, line) is Ok,
        begins(ops, variable(vars.env(), st, res, ty, line)->Ok_0.0),
        ops.len() <= usize::MAX,
        ready(ops, m, st),
        holds(m, vars),
        vars.env().locals <= usize::MAX,
    ensures
        computes(
            ops,
            m,
            st,
            variable(vars.env(), st, res, ty, line)->Ok_0.0,
            Some(variable(vars.env(), st, res, ty, line)->Ok_0.1),
            lift(vars, found(named(res, ty, vars), vars.world)),
            vars.around,
        ),
{
    reveal(variable);
    let env = vars.env();
    let (end, v) = variable(env, st, res, ty, line)->Ok_0;
    let n = st.f.ops.len() as int;
    assert(vars.at(vars.world) == vars);
    match res {
        Some(VarRes::Local(i)) => {
            assert(ops[n] == end.f.ops[n]);
            assert(m.vars[i as int] == word(vars.vals[i as int]));
            lemma_single(ops, m, st, end, vars.vals[i as int], vars);
        },
        Some(VarRes::Captured(i)) => {
            let (s, _) = captured(env, st, i, ty, line)->Ok_0;
            lemma_begins(ops, end, s);
            law_captured(ops, m, st, i, ty, line, vars);
            let ev = lift(vars, found(captured_value(i, ty, vars), vars.world));
            lemma_then_rooted(ops, m, st, s, ty, v, ev, vars.around);
        },
        Some(VarRes::Func(f)) => {
            assert(ops[n] == end.f.ops[n]);
            let id = env.fnvals[f as int]->0;
            lemma_word(vars.around.data(id));
            lemma_single(ops, m, st, end, vars.around.data(id), vars);
        },
        None => {},
    }
}

// -- Code of parts ----------------------------------------------------------

/// The code of an expression whose value is read.
#[verifier::opaque]
pub open spec fn scalar_code(env: LowEnv, st: LowView, e: ExprView) -> Result<
    (LowView, usize),
    Seq<char>,
> {
    gen_scalar(env, st, e)
}

pub proof fn lemma_scalar_calm(env: LowEnv, st: LowView, e: ExprView)
    ensures
        scalar_code(env, st, e) matches Ok(r) ==> calm(r.0, st),
{
    reveal(scalar_code);
    write_gen_scalar(env, st, e);
}

/// The code of a list of expressions from index `i` on.
#[verifier::opaque]
pub open spec fn list_code(
    env: LowEnv,
    st: LowView,
    es: Seq<ExprView>,
    i: nat,
    acc: Seq<usize>,
) -> Result<(LowView, Seq<usize>), Seq<char>> {
    gen_list(env, st, es, i, acc)
}

pub proof fn lemma_list_parts(
    env: LowEnv,
    st: LowView,
    es: Seq<ExprView>,
    i: nat,
    acc: Seq<usize>,
)
    requires
        list_code(env, st, es, i, acc) is Ok,
    ensures
        calm(list_code(env, st, es, i, acc)->Ok_0.0, st),
        i >= es.len() ==> list_code(env, st, es, i, acc)->Ok_0 == (st, acc),
        i < es.len() ==> {
            &&& scalar_code(env, st, es[i as int]) is Ok
            &&& calm(scalar_code(env, st, es[i as int])->Ok_0.0, st)
            &&& list_code(env, st, es, i, acc) == list_code(
                env,
                scalar_code(env, st, es[i as int])->Ok_0.0,
                es,
                i + 1,
                acc.push(scalar_code(env, st, es[i as int])->Ok_0.1),
            )
            &&& calm(
                list_code(env, st, es, i, acc)->Ok_0.0,
                scalar_code(env, st, es[i as int])->Ok_0.0,
            )
        },
{
    reveal(list_code);
    reveal(scalar_code);
    write_gen_list(env, st, es, i, acc);
    if i < es.len() {
        write_gen_scalar(env, st, es[i as int]);
        let (s, v) = gen_scalar(env, st, es[i as int])->Ok_0;
        write_gen_list(env, s, es, i + 1, acc.push(v));
    }
}

/// What is within a body is so before its last instructions.
pub proof fn lemma_before(ops: Seq<Op>, end: LowView, mid: LowView, around: Setting)
    requires
        within(ops, end, around),
        mid.g == end.g,
        mid.f.floats == end.f.floats,
        mid.f.ops.len() <= end.f.ops.len(),
        forall|i: int| 0 <= i < mid.f.ops.len() ==> #[trigger] end.f.ops[i] == mid.f.ops[i],
    ensures
        within(ops, mid, around),
{
    lemma_begins(ops, end, mid);
}

// -- Places -----------------------------------------------------------------

pub proof fn lemma_place_unary(st: LowView, op: UnOp, ty: TypeView, v: usize, line: u32)
    ensures
        unary_value(st, op, ty, v, line) matches Ok((s, x)) ==> s.f.ops.len() <= usize::MAX
            && v < st.f.ops.len() ==> x < s.f.ops.len(),
{
    reveal(unary_value);
}

pub proof fn lemma_place_binary(
    st: LowView,
    op: BinOp,
    t: TypeView,
    l: usize,
    r: usize,
    line: u32,
)
    ensures
        binary_values(st, op, t, t, l, r, line) matches Ok((s, x)) ==> s.f.ops.len() <= usize::MAX
            ==> x < s.f.ops.len(),
{
    reveal(binary_values);
    reveal(crate::lower::arith);
    reveal(crate::lower::int_arith);
    reveal(crate::lower::shift);
    reveal(crate::lower::divide);
    reveal(crate::lower::divide_signed);
    reveal(crate::lower::checked_arith);
    reveal(crate::lower::compare);
    reveal(crate::lower::check_overflow);
}

pub proof fn lemma_place_cast(st: LowView, src: TypeView, dst: TypeView, v: usize, line: u32)
    ensures
        v < st.f.ops.len() ==> (cast(st, src, dst, v, line) matches Ok(
            (s, x),
        ) ==> s.f.ops.len() <= usize::MAX ==> x < s.f.ops.len()),
{
    reveal(cast);
    reveal(cast_int);
    reveal(crate::lower::cast_float);
}

pub proof fn lemma_place_load(st: LowView, ty: TypeView, base: usize, off: i32)
    ensures
        ({
            let (s, v) = load_typed(st, ty, base, off);
            s.f.ops.len() <= usize::MAX ==> v < s.f.ops.len()
        }),
{
    reveal(load_typed);
}

pub proof fn lemma_place_field(
    env: LowEnv,
    st: LowView,
    t: TypeView,
    index: u32,
    ty: TypeView,
    v: usize,
    line: u32,
)
    ensures
        field_value(env, st, t, index, ty, v, line) matches Ok((s, x)) ==> s.f.ops.len()
            <= usize::MAX ==> x < s.f.ops.len(),
{
    reveal(field_value);
    reveal(load_typed);
}

pub proof fn lemma_place_index(st: LowView, t: TypeView, ty: TypeView, o: usize, i: usize, line: u32)
    ensures
        index_value(st, t, ty, o, i, line) matches Ok((s, x)) ==> s.f.ops.len() <= usize::MAX ==> x
            < s.f.ops.len(),
{
    reveal(index_value);
    reveal(crate::lower::index_addr);
    reveal(load_typed);
}

pub proof fn lemma_place_builtin(
    env: LowEnv,
    st: LowView,
    b: Builtin,
    t: TypeView,
    v: usize,
    line: u32,
)
    ensures
        builtin_value(env, st, b, t, v, line) matches Ok((s, Some(x))) ==> s.f.ops.len()
            <= usize::MAX ==> x < s.f.ops.len(),
{
    reveal(builtin_value);
    reveal(crate::lower::array_pop);
    reveal(crate::lower::unwrap_value);
    reveal(load_typed);
}

// -- Operators --------------------------------------------------------------

pub proof fn lemma_applied(
    ops: Seq<Op>,
    m: Machine,
    st: LowView,
    op: UnOp,
    t: TypeView,
    v: usize,
    line: u32,
    x: int,
)
    requires
        unary_value(st, op, t, v, line) is Ok,
        begins(ops, unary_value(st, op, t, v, line)->Ok_0.0),
        ops.len() <= usize::MAX,
        ready(ops, m, st),
        v < st.f.ops.len(),
        m.vals[v as int] == word(x),
    ensures
        replies(
            ops,
            m,
            st,
            unary_value(st, op, t, v, line)->Ok_0.0,
            unary_value(st, op, t, v, line)->Ok_0.1,
            applied(op, t, x, line, m.world),
        ),
{
    if op is Not {
        if t is Bool && (x == 0 || x == 1) {
            lemma_word(x);
            law_not(ops, m, st, v, line, x != 0);
        }
    } else if t is Float && op is Neg && 0 <= x < modulus() {
        reveal(unary_value);
        let end = unary_value(st, op, t, v, line)->Ok_0.0;
        let n = st.f.ops.len() as int;
        assert(ops[n] == end.f.ops[n]);
        let y = flipped(x as u64);
        lemma_word(x);
        lemma_word(y as int);
        let m1 = with(m, y);
        assert(step(ops, m) == Some(End::At(m1)));
        lemma_leads_step(ops, m, End::At(m1));
        assert(framed(m1, m, n));
    } else if t is Int && kind_of(t).holds(x) && (op is BitNot || kind_of(t).is_signed()) {
        law_unary(ops, m, st, op, kind_of(t), v, line, x);
    }
}

pub proof fn lemma_calm_placed(
    ops: Seq<Op>,
    m: Machine,
    st: LowView,
    vars: Vars,
    m1: Machine,
    mid: LowView,
    vars1: Vars,
)
    requires
        placed(ops, m, st, vars),
        calm(mid, st),
        m1.at == mid.f.ops.len(),
        holds(m1, vars1),
        vars1.around == vars.around,
    ensures
        placed(ops, m1, mid, vars1),
{
    reveal(calm);
    lemma_placed(ops, m, st, vars, m1, mid, vars1);
}

/// A world that code leaves, among the variables.
pub proof fn lemma_leaves(
    ops: Seq<Op>,
    m: Machine,
    st: LowView,
    end: LowView,
    w: World,
    vars: Vars,
    v: Option<usize>,
)
    requires
        leaves(ops, m, st, end, w),
        holds(m, vars),
    ensures
        computes(ops, m, st, end, v, Eval::Nothing(vars.at(w)), vars.around),
{
    let n = st.f.ops.len() as int;
    let m2 = choose|m2: Machine| #[trigger]
        leads(ops, m, End::At(m2)) && m2.at == end.f.ops.len() && m2.world == w && framed(m2, m, n);
    lemma_framed(m2, m, n, vars);
    lemma_nothing(ops, m, st, end, v, vars.at(w), vars.around, m2);
}

/// A collection is called for, and nothing changes.
pub proof fn lemma_collect(ops: Seq<Op>, m: Machine, st: LowView, vars: Vars)
    requires
        placed(ops, m, st, vars),
        ({
            let s = put(st, Op::Iconst(1));
            begins(ops, rt1(s, Rt::GcCollect, next(st)).0)
        }),
        ops.len() <= usize::MAX,
    ensures
        ({
            let s = put(st, Op::Iconst(1));
            computes(
                ops,
                m,
                st,
                rt1(s, Rt::GcCollect, next(st)).0,
                None,
                Eval::Nothing(vars),
                vars.around,
            )
        }),
{
    let s = put(st, Op::Iconst(1));
    let end = rt1(s, Rt::GcCollect, next(st)).0;
    let n = st.f.ops.len() as int;
    assert(ops[n] == end.f.ops[n] && ops[n + 1] == end.f.ops[n + 1] && ops[n + 2] == end.f.ops[n
        + 2]);
    let m1 = with(m, word(1));
    assert(step(ops, m) == Some(End::At(m1)));
    lemma_leads_step(ops, m, End::At(m1));
    assert(ops[n + 1 + 0] == Op::Arg(seq![next(st)][0]));
    lemma_runtime(ops, m1, s, Rt::GcCollect, seq![next(st)]);
    let args = Seq::new(1, |i: int| m1.vals[seq![next(st)][i] as int]);
    let m2 = Machine { at: n + 2, args, ..m1 };
    lemma_leads_on(ops, m, m1, End::At(m2));
    let m3 = Machine { at: n + 3, args: Seq::empty(), ..m1 };
    assert(runtime(m.around.layout, Rt::GcCollect, args, m.world) == Called::Done(None, m.world))
        by {
        reveal(runtime);
    }
    assert(step(ops, m2) == Some(End::At(m3)));
    lemma_leads_step(ops, m2, End::At(m3));
    lemma_leads_on(ops, m, m2, End::At(m3));
    assert(m3.args =~= m.args);
    assert(framed(m3, m, n));
    lemma_framed(m3, m, n, vars);
    assert(vars.at(m3.world) == vars);
    lemma_nothing(ops, m, st, end, None, vars, vars.around, m3);
}

/// A floating-point literal is the number nearest to its text.
pub proof fn lemma_float_constant(ops: Seq<Op>, m: Machine, st: LowView, e: ExprView, vars: Vars)
    requires
        e.kind is Float,
        placed(ops, m, st, vars),
        gen_expr(vars.env(), st, e) is Ok,
        within(ops, gen_expr(vars.env(), st, e)->Ok_0.0, vars.around),
    ensures
        computes(
            ops,
            m,
            st,
            gen_expr(vars.env(), st, e)->Ok_0.0,
            gen_expr(vars.env(), st, e)->Ok_0.1,
            eval(e, vars),
            vars.around,
        ),
{
    let t = e.kind->Float_0;
    let v = float_of_text(t);
    assert(eval(e, vars) == Eval::Value(v as int, vars)) by {
        reveal(eval);
    }
    let s = gen_expr(vars.env(), st, e)->Ok_0.0;
    let n = st.f.ops.len() as int;
    let k = st.f.floats.len() as int;
    assert(ops[n] == s.f.ops[n]);
    assert(s.f.floats[k] == t);
    assert(vars.around.floats[k] == s.f.floats[k]);
    lemma_word(v as int);
    assert(step(ops, m) == give(m, word(v as int)));
    lemma_single(ops, m, st, s, v as int, vars);
}

/// Literals.
pub proof fn lemma_constant(ops: Seq<Op>, m: Machine, st: LowView, e: ExprView, vars: Vars)
    requires
        e.kind is Int || e.kind is Byte || e.kind is Bool || e.kind is Str,
        placed(ops, m, st, vars),
        gen_expr(vars.env(), st, e) is Ok,
        within(ops, gen_expr(vars.env(), st, e)->Ok_0.0, vars.around),
    ensures
        computes(
            ops,
            m,
            st,
            gen_expr(vars.env(), st, e)->Ok_0.0,
            gen_expr(vars.env(), st, e)->Ok_0.1,
            eval(e, vars),
            vars.around,
        ),
{
    reveal(eval);
    let (s, v) = gen_expr(vars.env(), st, e)->Ok_0;
    let n = st.f.ops.len() as int;
    assert(ops[n] == s.f.ops[n]);
    assert(vars.at(vars.world) == vars);
    match e.kind {
        ExprKindView::Int(w) => {
            lemma_literal(w, kind_of(e.ty));
            lemma_single(ops, m, st, s, decode(kind_of(e.ty), w), vars);
        },
        ExprKindView::Byte(w) => lemma_single(ops, m, st, s, w as int, vars),
        ExprKindView::Bool(b) => lemma_single(
            ops,
            m,
            st,
            s,
            if b {
                1
            } else {
                0
            },
            vars,
        ),
        ExprKindView::Str(t) => {
            let (g1, id) = add_string(st.g, t);
            write_add_string(st.g, t);
            reveal(more_unit);
            reveal(fuller);
            let d = vars.around.g.datas[id as int];
            assert(g1.datas.len() <= usize::MAX);
            assert(d == g1.datas[id as int]);
            let x = standing(vars.around.layout, string_data(t, 0));
            assert(standing(vars.around.layout, d) == x);
            lemma_word(x as int);
            lemma_single(ops, m, st, s, x as int, vars);
        },
        _ => {},
    }
}

} // verus!
