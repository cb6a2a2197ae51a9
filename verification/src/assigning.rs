//! That the code of assignments does what they do.
use vstd::prelude::*;

use crate::ast::{BinOp, ExprKindView, ExprView, StmtView, VarRes};
use crate::computing::{
    after, holds, lemma_before, lemma_calm_placed, lemma_framed, lemma_lift, lemma_part,
    lemma_place_binary, lemma_place_index, lemma_place_load, lemma_scalar_calm, lemma_then, placed,
    reached, scalar_code, within,
};
use crate::evaluate::{eval, lift, pair_of, worth, Eval, Vars};
use crate::expressions::{both, law_scalar, lemma_pair};
use crate::ir::{IrType, Op, Rt};
use crate::lower::{
    arith, binary_values, gen_assign_elem, gen_assign_field, gen_assign_local, gen_scalar, gen_stmt,
    index_addr, index_value, is_comparison, next, place, put, store_elem, store_field, LowView,
    ARR_LEN,
};
use crate::machine::{leads, runtime, step, word, Called, End, Machine};
use crate::meaning::{begins, lemma_leads_on, lemma_leads_step, ready, runnable};
use crate::memory::{
    array_buf, array_len, beyond, element, lemma_fetch_bound, lemma_room, put_value, read, World,
};
use crate::objects::{
    element_of, fields_of, found, framed, is_value, kind_of, law_element, law_load, law_operator,
    law_store_field, leaves, lemma_address, lemma_beyond, lemma_bounds, lemma_load_shape,
    lemma_runtime, load_code, replies, with, Reply,
};
use crate::performing::{
    arrives, lemma_calm_flow, lemma_next, lemma_onward, lemma_set, lemma_stopped, performs,
};
use crate::statements::{
    assign, assign_element, assign_field, assign_local, compound, set_element, set_field, stopped,
    Exec,
};
use crate::types::{IntKind, TypeView};
use crate::writing::{
    calm, lemma_calm, write_arith, write_index_addr, write_index_value, write_store_elem,
    write_store_field,
};

verus! {

// -- Operations -------------------------------------------------------------

/// The operator of a compound assignment.
pub proof fn law_arith(
    ops: Seq<Op>,
    m: Machine,
    st: LowView,
    op: BinOp,
    t: TypeView,
    l: usize,
    r: usize,
    line: u32,
    x: int,
    y: int,
)
    requires
        arith(st, op, t, l, r, line) is Ok,
        begins(ops, arith(st, op, t, l, r, line)->Ok_0.0),
        runnable(ops),
        ready(ops, m, st),
        m.args.len() == 0,
        l < st.f.ops.len(),
        r < st.f.ops.len(),
        m.vals[l as int] == word(x),
        m.vals[r as int] == word(y),
    ensures
        arith(st, op, t, l, r, line)->Ok_0.1 < arith(st, op, t, l, r, line)->Ok_0.0.f.ops.len()
            || is_comparison(op),
        replies(
            ops,
            m,
            st,
            arith(st, op, t, l, r, line)->Ok_0.0,
            arith(st, op, t, l, r, line)->Ok_0.1,
            compound(op, t, x, y, line, m.world),
        ),
{
    if !is_comparison(op) {
        assert(binary_values(st, op, t, t, l, r, line) == arith(st, op, t, l, r, line)) by {
            reveal(binary_values);
            reveal(arith);
        }
        lemma_place_binary(st, op, t, l, r, line);
        law_operator(ops, m, st, op, t, l, r, line, x, y);
    }
}

/// The machine has checked the index and holds the element's address.
pub open spec fn located(
    ops: Seq<Op>,
    m: Machine,
    st: LowView,
    end: LowView,
    addr: usize,
    r: int,
    m2: Machine,
) -> bool {
    &&& leads(ops, m, End::At(m2))
    &&& m2.at == end.f.ops.len()
    &&& m2.vals[addr as int] == word(r)
    &&& m2.world == m.world
    &&& framed(m2, m, st.f.ops.len() as int)
}

/// The place of an element, if there is one; else the panic carries the line.
pub proof fn law_index_addr(
    ops: Seq<Op>,
    m: Machine,
    st: LowView,
    o: usize,
    i: usize,
    size: u32,
    line: u32,
    a: int,
    k: IntKind,
    x: int,
)
    requires
        begins(ops, index_addr(st, o, i, size, line).0),
        ops.len() <= usize::MAX,
        ready(ops, m, st),
        o < st.f.ops.len(),
        i < st.f.ops.len(),
        m.vals[o as int] == word(a),
        m.vals[i as int] == word(x),
        k.holds(x),
        array_len(m.world, a) < 0x8000_0000_0000_0000,
    ensures
        index_addr(st, o, i, size, line).2 < index_addr(st, o, i, size, line).0.f.ops.len(),
        st.f.ops.len() <= index_addr(st, o, i, size, line).0.f.ops.len(),
        !(0 <= x < array_len(m.world, a)) ==> leads(
            ops,
            m,
            End::Panic(Rt::PanicBounds, line, m.world),
        ),
        0 <= x < array_len(m.world, a) ==> exists|m2: Machine| #[trigger]
            located(
                ops,
                m,
                st,
                index_addr(st, o, i, size, line).0,
                index_addr(st, o, i, size, line).2,
                array_buf(m.world, a) + 16 + x * size,
                m2,
            ),
{
    reveal(index_addr);
    let (end, _, addr) = index_addr(st, o, i, size, line);
    let n = st.f.ops.len() as int;
    assert(end.f.ops.len() == n + 6);
    assert(ops[n] == end.f.ops[n] && ops[n + 1] == end.f.ops[n + 1]);
    let s2 = put(
        put(st, Op::Load(IrType::I64, o, ARR_LEN)),
        Op::BoundsCheck(i, next(st), line),
    );
    let len = array_len(m.world, a);
    lemma_beyond(m, o, ARR_LEN, a);
    lemma_fetch_bound(m.world.mem, beyond(a, 24), 8);
    lemma_room();
    lemma_bounds(k, x, len);
    let m1 = with(m, len as u64);
    assert(step(ops, m) == Some(End::At(m1)));
    lemma_leads_step(ops, m, End::At(m1));
    if !(0 <= x < len) {
        let p = End::Panic(Rt::PanicBounds, line, m.world);
        assert(step(ops, m1) == Some(p));
        lemma_leads_step(ops, m1, p);
        lemma_leads_on(ops, m, m1, p);
    } else {
        let m2 = Machine { at: n + 2, ..m1 };
        assert(step(ops, m1) == Some(End::At(m2)));
        lemma_leads_step(ops, m1, End::At(m2));
        lemma_leads_on(ops, m, m1, End::At(m2));
        assert(framed(m2, m, n));
        lemma_address(ops, m2, st, s2, end, end, o, i, a, x, size);
        let r = array_buf(m.world, a) + 16 + x * size;
        let m4 = choose|m4: Machine| #[trigger]
            leads(ops, m2, End::At(m4)) && m4.at == end.f.ops.len() && m4.vals[end.f.ops.len() - 1]
                == word(array_buf(m2.world, a) + 16 + x * size) && m4.world == m2.world && framed(
                m4,
                m2,
                n,
            );
        lemma_leads_on(ops, m, m2, End::At(m4));
        assert(framed(m4, m, n)) by {
            assert forall|j: int| 0 <= j < n implies #[trigger] m4.vals[j] == m.vals[j] by {
                assert(m4.vals[j] == m2.vals[j]);
            }
        }
        assert(located(ops, m, st, end, addr, r, m4));
    }
}

/// A value is put at an address.
pub proof fn law_store_elem(
    ops: Seq<Op>,
    m: Machine,
    st: LowView,
    ty: TypeView,
    v: usize,
    buf: usize,
    addr: usize,
    x: int,
    r: int,
)
    requires
        begins(ops, store_elem(st, ty, v, buf, addr)),
        ops.len() <= usize::MAX,
        ready(ops, m, st),
        m.args.len() == 0,
        v < st.f.ops.len(),
        addr < st.f.ops.len(),
        m.vals[v as int] == word(x),
        m.vals[addr as int] == word(r),
    ensures
        leaves(
            ops,
            m,
            st,
            store_elem(st, ty, v, buf, addr),
            put_value(m.world, ty, word(r) as int, x),
        ),
{
    reveal(store_elem);
    let end = store_elem(st, ty, v, buf, addr);
    let n = st.f.ops.len() as int;
    let w = put_value(m.world, ty, word(r) as int, x);
    assert(ops[n] == end.f.ops[n]);
    if ty.is_reference() {
        assert(ops[n + 1] == end.f.ops[n + 1] && ops[n + 2] == end.f.ops[n + 2] && ops[n + 3]
            == end.f.ops[n + 3]);
        let vs = seq![buf, addr, v];
        assert(ops[n + 0] == Op::Arg(vs[0]) && ops[n + 1] == Op::Arg(vs[1]) && ops[n + 2]
            == Op::Arg(vs[2]));
        lemma_runtime(ops, m, st, Rt::WriteRef, vs);
        let args = Seq::new(3, |i: int| m.vals[vs[i] as int]);
        assert(args[1] == word(r) && args[2] == word(x));
        let m2 = Machine { at: n + 3, args, ..m };
        assert(runtime(m.around.layout, Rt::WriteRef, args, m.world) == Called::Done(None, w)) by {
            reveal(runtime);
        }
        let m3 = Machine { at: n + 4, args: Seq::empty(), world: w, ..m2 };
        assert(step(ops, m2) == Some(End::At(m3)));
        lemma_leads_step(ops, m2, End::At(m3));
        lemma_leads_on(ops, m, m2, End::At(m3));
        assert(m3.args =~= m.args);
        assert(framed(m3, m, n));
    } else {
        lemma_beyond(m, addr, 0, r);
        let m1 = Machine { at: n + 1, world: w, ..m };
        assert(step(ops, m) == Some(End::At(m1)));
        lemma_leads_step(ops, m, End::At(m1));
        assert(framed(m1, m, n));
    }
}

/// What is stored last ends the statement.
pub proof fn lemma_store_ends(
    ops: Seq<Op>,
    m: Machine,
    m1: Machine,
    st: LowView,
    s: LowView,
    end: LowView,
    w: World,
    vars1: Vars,
)
    requires
        leads(ops, m, End::At(m1)),
        holds(m1, vars1),
        leaves(ops, m1, s, end, w),
        !end.f.terminated,
    ensures
        performs(ops, m, st, end, Exec::Next(vars1.at(w)), vars1.around),
{
    let n = s.f.ops.len() as int;
    let m2 = choose|m2: Machine| #[trigger]
        leads(ops, m1, End::At(m2)) && m2.at == end.f.ops.len() && m2.world == w && framed(
            m2,
            m1,
            n,
        );
    lemma_framed(m2, m1, n, vars1);
    lemma_leads_on(ops, m, m1, End::At(m2));
    assert(arrives(ops, m, end.f.ops.len() as int, m2, vars1.at(w), vars1.around));
    lemma_next(ops, m, st, end, vars1.at(w), vars1.around, m2);
}

/// A reply that has no value stops the statement.
pub proof fn lemma_reply_stops(
    ops: Seq<Op>,
    m: Machine,
    m1: Machine,
    s: LowView,
    mid: LowView,
    v: usize,
    r: Reply,
)
    requires
        leads(ops, m, End::At(m1)),
        replies(ops, m1, s, mid, v, r),
    ensures
        r matches Reply::Panic(rt, line, w) ==> leads(ops, m, End::Panic(rt, line, w)),
{
    if let Reply::Panic(rt, line, w) = r {
        lemma_leads_on(ops, m, m1, End::Panic(rt, line, w));
    }
}

// -- Local variables --------------------------------------------------------

#[verifier::rlimit(30)]
proof fn law_assign_local(ops: Seq<Op>, m: Machine, st: LowView, s: StmtView, i: u32, vars: Vars)
    requires
        s is Assign,
        placed(ops, m, st, vars),
        gen_assign_local(vars.env(), st, s, i) is Ok,
        within(ops, gen_assign_local(vars.env(), st, s, i)->Ok_0, vars.around),
        !st.f.terminated,
    ensures
        performs(
            ops,
            m,
            st,
            gen_assign_local(vars.env(), st, s, i)->Ok_0,
            assign_local(s, i, vars),
            vars.around,
        ),
{
    let env = vars.env();
    let around = vars.around;
    let value = s->Assign_value;
    let end = gen_assign_local(env, st, s, i)->Ok_0;
    match s->Assign_op {
        None => {
            let (s1, v) = gen_scalar(env, st, value)->Ok_0;
            assert(scalar_code(env, st, value) == gen_scalar(env, st, value)) by {
                reveal(scalar_code);
            }
            lemma_before(ops, end, s1, around);
            law_scalar(ops, m, st, value, vars);
            lemma_calm_flow(s1, st);
            lemma_set(ops, m, st, s1, v, i, worth(eval(value, vars)), vars);
        },
        Some(op) => {
            let s0 = put(st, Op::UseVar(i as usize));
            let (s1, r) = gen_scalar(env, s0, value)->Ok_0;
            assert(scalar_code(env, s0, value) == gen_scalar(env, s0, value)) by {
                reveal(scalar_code);
            }
            lemma_compound_local(ops, m, st, s, i, op, s1, r, vars);
        },
    }
}

#[verifier::rlimit(30)]
proof fn lemma_compound_local(
    ops: Seq<Op>,
    m: Machine,
    st: LowView,
    s: StmtView,
    i: u32,
    op: BinOp,
    s1: LowView,
    r: usize,
    vars: Vars,
)
    requires
        s is Assign,
        s->Assign_op == Some(op),
        i < vars.env().locals,
        placed(ops, m, st, vars),
        scalar_code(vars.env(), put(st, Op::UseVar(i as usize)), s->Assign_value) == Ok::<
            (LowView, usize),
            Seq<char>,
        >((s1, r)),
        arith(s1, op, s->Assign_target.ty, next(st), r, s->Assign_line) is Ok,
        ({
            let (s2, v) = arith(s1, op, s->Assign_target.ty, next(st), r, s->Assign_line)->Ok_0;
            within(ops, put(s2, Op::DefVar(i as usize, v)), vars.around)
        }),
        !st.f.terminated,
    ensures
        ({
            let (s2, v) = arith(s1, op, s->Assign_target.ty, next(st), r, s->Assign_line)->Ok_0;
            performs(
                ops,
                m,
                st,
                put(s2, Op::DefVar(i as usize, v)),
                assign_local(s, i, vars),
                vars.around,
            )
        }),
{
    let env = vars.env();
    let around = vars.around;
    let value = s->Assign_value;
    let (t, line) = (s->Assign_target.ty, s->Assign_line);
    let s0 = put(st, Op::UseVar(i as usize));
    let (s2, v) = arith(s1, op, t, next(st), r, line)->Ok_0;
    let end = put(s2, Op::DefVar(i as usize, v));
    lemma_before(ops, end, s2, around);
    write_arith(s1, op, t, next(st), r, line);
    lemma_part(ops, s2, s1, around);
    lemma_calm_flow(s2, s1);
    lemma_scalar_calm(env, s0, value);
    lemma_part(ops, s1, s0, around);
    lemma_calm_flow(s1, s0);
    let n = st.f.ops.len() as int;
    let x = vars.vals[i as int];
    assert(ops[n] == s0.f.ops[n]);
    assert(m.vars[i as int] == word(x));
    let m0 = with(m, word(x));
    assert(step(ops, m) == Some(End::At(m0)));
    lemma_leads_step(ops, m, End::At(m0));
    assert(framed(m0, m, n));
    lemma_framed(m0, m, n, vars);
    assert(vars.at(m0.world) == vars);
    assert(calm(s0, st)) by {
        lemma_calm();
        assert(calm(st, st));
    }
    lemma_calm_placed(ops, m, st, vars, m0, s0, vars);
    law_scalar(ops, m0, s0, value, vars);
    match worth(eval(value, vars)) {
        Eval::Value(y, vars1) => {
            let m1 = after(ops, m0, s0, s1, r, y, vars1, around);
            assert(reached(ops, m0, s0, s1, m1, vars1, around));
            assert(m1.vals[n] == m0.vals[n]);
            law_arith(ops, m1, s1, op, t, next(st), r, line, x, y);
            let reply = compound(op, t, x, y, line, vars1.world);
            if !is_comparison(op) {
                lemma_lift(ops, m1, s1, s2, v, reply, vars1);
                lemma_then(ops, m0, m1, s0, s1, s2, Some(v), lift(vars1, reply), around);
                lemma_then(ops, m, m0, st, s0, s2, Some(v), lift(vars1, reply), around);
                if !(reply is Nothing) {
                    lemma_set(ops, m, st, s2, v, i, lift(vars1, reply), vars);
                }
            }
        },
        ev => {
            lemma_then(ops, m, m0, st, s0, s1, Some(r), ev, around);
            lemma_stopped(ops, m, st, s1, Some(r), ev, around, st, end);
        },
    }
}

// -- Fields -----------------------------------------------------------------

/// Two expressions, as the operands of one.
pub open spec fn pair_up(l: ExprView, r: ExprView) -> ExprView {
    ExprView { kind: ExprKindView::Binary(BinOp::Add, Box::new(l), Box::new(r)), ..l }
}

proof fn lemma_pair_up(l: ExprView, r: ExprView)
    ensures
        decreases_to!(pair_up(l, r) => l),
        decreases_to!(pair_up(l, r) => r),
{
    let e = pair_up(l, r);
    assert(decreases_to!(e => e.kind));
    assert(decreases_to!(e.kind => *e.kind->Binary_1));
    assert(decreases_to!(e.kind => *e.kind->Binary_2));
    assert(decreases_to!(e => *e.kind->Binary_1));
    assert(decreases_to!(e => *e.kind->Binary_2));
}

proof fn law_assign_field(ops: Seq<Op>, m: Machine, st: LowView, s: StmtView, vars: Vars)
    requires
        s is Assign,
        s->Assign_target.kind is Field,
        placed(ops, m, st, vars),
        gen_assign_field(vars.env(), st, s) is Ok,
        within(ops, gen_assign_field(vars.env(), st, s)->Ok_0, vars.around),
        !st.f.terminated,
    ensures
        performs(
            ops,
            m,
            st,
            gen_assign_field(vars.env(), st, s)->Ok_0,
            assign_field(s, vars),
            vars.around,
        ),
{
    let env = vars.env();
    let value = s->Assign_value;
    let target = s->Assign_target;
    let obj = *target.kind->Field_obj;
    let index = target.kind->Field_index;
    let ts = fields_of(env.checked, obj.ty);
    let ty = ts[index as int];
    let off = place(ts, index);
    let end = gen_assign_field(env, st, s)->Ok_0;
    match s->Assign_op {
        None => {
            let (s1, v) = gen_scalar(env, st, value)->Ok_0;
            let (s2, o) = gen_scalar(env, s1, obj)->Ok_0;
            assert(scalar_code(env, st, value) == gen_scalar(env, st, value) && scalar_code(
                env,
                s1,
                obj,
            ) == gen_scalar(env, s1, obj)) by {
                reveal(scalar_code);
            }
            lemma_field(ops, m, st, value, obj, ty, off, s1, v, s2, o, vars);
        },
        Some(op) => {
            let (s1, o) = gen_scalar(env, st, obj)->Ok_0;
            let (s3, cur) = load_code(s1, ty, o, off);
            let (s4, r) = gen_scalar(env, s3, value)->Ok_0;
            assert(scalar_code(env, st, obj) == gen_scalar(env, st, obj) && scalar_code(
                env,
                s3,
                value,
            ) == gen_scalar(env, s3, value)) by {
                reveal(scalar_code);
            }
            lemma_compound_field(
                ops,
                m,
                st,
                value,
                obj,
                op,
                target.ty,
                s->Assign_line,
                ty,
                off,
                s1,
                o,
                s4,
                r,
                vars,
            );
        },
    }
}

#[verifier::rlimit(30)]
proof fn lemma_field(
    ops: Seq<Op>,
    m: Machine,
    st: LowView,
    value: ExprView,
    obj: ExprView,
    ty: TypeView,
    off: i32,
    s1: LowView,
    v: usize,
    s2: LowView,
    o: usize,
    vars: Vars,
)
    requires
        placed(ops, m, st, vars),
        scalar_code(vars.env(), st, value) == Ok::<(LowView, usize), Seq<char>>((s1, v)),
        scalar_code(vars.env(), s1, obj) == Ok::<(LowView, usize), Seq<char>>((s2, o)),
        within(ops, store_field(s2, ty, v, o, off), vars.around),
        !st.f.terminated,
    ensures
        performs(
            ops,
            m,
            st,
            store_field(s2, ty, v, o, off),
            match pair_of(value, obj, vars) {
                Ok(p) => set_field(
                    ty,
                    beyond(p.1, off as int),
                    Reply::Value(p.0, p.2.world),
                    p.2,
                ),
                Err(ev) => stopped(ev),
            },
            vars.around,
        ),
{
    let around = vars.around;
    let end = store_field(s2, ty, v, o, off);
    write_store_field(s2, ty, v, o, off);
    lemma_part(ops, end, s2, around);
    lemma_calm_flow(end, s2);
    let whole = pair_up(value, obj);
    lemma_pair_up(value, obj);
    lemma_pair(ops, m, st, value, obj, s1, v, s2, o, vars, whole);
    lemma_calm_flow(s2, st);
    match pair_of(value, obj, vars) {
        Err(ev) => lemma_stopped(ops, m, st, s2, Some(o), ev, around, st, end),
        Ok(p) => {
            if is_value(ty) {
                let (x, a, vars2) = p;
                let m2 = choose|m2: Machine| #[trigger]
                    both(ops, m, st, s2, v, o, x, a, vars2, around, m2);
                law_store_field(ops, m2, s2, ty, v, o, off, x, a);
                let w = put_value(vars2.world, ty, beyond(a, off as int), x);
                lemma_store_ends(ops, m, m2, st, s2, end, w, vars2);
            }
        },
    }
}

#[verifier::rlimit(60)]
proof fn lemma_compound_field(
    ops: Seq<Op>,
    m: Machine,
    st: LowView,
    value: ExprView,
    obj: ExprView,
    op: BinOp,
    t: TypeView,
    line: u32,
    ty: TypeView,
    off: i32,
    s1: LowView,
    o: usize,
    s4: LowView,
    r: usize,
    vars: Vars,
)
    requires
        placed(ops, m, st, vars),
        scalar_code(vars.env(), st, obj) == Ok::<(LowView, usize), Seq<char>>((s1, o)),
        scalar_code(vars.env(), load_code(s1, ty, o, off).0, value) == Ok::<
            (LowView, usize),
            Seq<char>,
        >((s4, r)),
        arith(s4, op, t, load_code(s1, ty, o, off).1, r, line) is Ok,
        ({
            let (s5, v) = arith(s4, op, t, load_code(s1, ty, o, off).1, r, line)->Ok_0;
            within(ops, store_field(s5, ty, v, o, off), vars.around)
        }),
        !st.f.terminated,
    ensures
        ({
            let (s5, v) = arith(s4, op, t, load_code(s1, ty, o, off).1, r, line)->Ok_0;
            performs(
                ops,
                m,
                st,
                store_field(s5, ty, v, o, off),
                match worth(eval(obj, vars)) {
                    Eval::Value(a, vars1) => match read(
                        vars1.world,
                        ty,
                        beyond(a, off as int),
                    ) {
                        None => Exec::Unfinished,
                        Some(x) => match worth(eval(value, vars1)) {
                            Eval::Value(y, vars2) => set_field(
                                ty,
                                beyond(a, off as int),
                                compound(op, t, x, y, line, vars2.world),
                                vars2,
                            ),
                            other => stopped(other),
                        },
                    },
                    other => stopped(other),
                },
                vars.around,
            )
        }),
{
    let env = vars.env();
    let around = vars.around;
    let (s3, cur) = load_code(s1, ty, o, off);
    let (s5, v) = arith(s4, op, t, cur, r, line)->Ok_0;
    let end = store_field(s5, ty, v, o, off);
    write_store_field(s5, ty, v, o, off);
    lemma_part(ops, end, s5, around);
    lemma_calm_flow(end, s5);
    write_arith(s4, op, t, cur, r, line);
    lemma_part(ops, s5, s4, around);
    lemma_calm_flow(s5, s4);
    lemma_scalar_calm(env, s3, value);
    lemma_part(ops, s4, s3, around);
    lemma_calm_flow(s4, s3);
    lemma_load_shape(s1, ty, o, off);
    lemma_part(ops, s3, s1, around);
    lemma_calm_flow(s3, s1);
    law_scalar(ops, m, st, obj, vars);
    lemma_calm_flow(s1, st);
    match worth(eval(obj, vars)) {
        Eval::Value(a, vars1) => {
            let m1 = after(ops, m, st, s1, o, a, vars1, around);
            assert(reached(ops, m, st, s1, m1, vars1, around));
            law_load(ops, m1, s1, ty, o, off, a);
            let at = beyond(a, off as int);
            if let Some(x) = read(vars1.world, ty, at) {
                lemma_place_load(s1, ty, o, off);
                lemma_lift(ops, m1, s1, s3, cur, found(Some(x), vars1.world), vars1);
                assert(vars1.at(vars1.world) == vars1);
                let m2 = after(ops, m1, s1, s3, cur, x, vars1, around);
                assert(reached(ops, m1, s1, s3, m2, vars1, around));
                assert(m2.vals[o as int] == m1.vals[o as int]);
                lemma_leads_on(ops, m, m1, End::At(m2));
                assert(calm(s3, st)) by {
                    lemma_calm();
                }
                lemma_calm_placed(ops, m, st, vars, m2, s3, vars1);
                lemma_compound_store(
                    ops,
                    m,
                    m2,
                    st,
                    s3,
                    value,
                    op,
                    t,
                    line,
                    ty,
                    off,
                    o,
                    a,
                    cur,
                    x,
                    s4,
                    r,
                    vars1,
                );
            }
        },
        ev => lemma_stopped(ops, m, st, s1, Some(o), ev, around, st, end),
    }
}

/// Behind the read of a field: the right-hand side, the operator and the store.
#[verifier::rlimit(40)]
proof fn lemma_compound_store(
    ops: Seq<Op>,
    m: Machine,
    m2: Machine,
    st: LowView,
    s3: LowView,
    value: ExprView,
    op: BinOp,
    t: TypeView,
    line: u32,
    ty: TypeView,
    off: i32,
    o: usize,
    a: int,
    cur: usize,
    x: int,
    s4: LowView,
    r: usize,
    vars: Vars,
)
    requires
        leads(ops, m, End::At(m2)),
        placed(ops, m2, s3, vars),
        o < s3.f.ops.len(),
        cur < s3.f.ops.len(),
        m2.vals[o as int] == word(a),
        m2.vals[cur as int] == word(x),
        scalar_code(vars.env(), s3, value) == Ok::<(LowView, usize), Seq<char>>((s4, r)),
        arith(s4, op, t, cur, r, line) is Ok,
        ({
            let (s5, v) = arith(s4, op, t, cur, r, line)->Ok_0;
            within(ops, store_field(s5, ty, v, o, off), vars.around)
        }),
        !s3.f.terminated,
    ensures
        ({
            let (s5, v) = arith(s4, op, t, cur, r, line)->Ok_0;
            performs(
                ops,
                m,
                st,
                store_field(s5, ty, v, o, off),
                match worth(eval(value, vars)) {
                    Eval::Value(y, vars2) => set_field(
                        ty,
                        beyond(a, off as int),
                        compound(op, t, x, y, line, vars2.world),
                        vars2,
                    ),
                    other => stopped(other),
                },
                vars.around,
            )
        }),
{
    let env = vars.env();
    let around = vars.around;
    let (s5, v) = arith(s4, op, t, cur, r, line)->Ok_0;
    let end = store_field(s5, ty, v, o, off);
    write_store_field(s5, ty, v, o, off);
    lemma_part(ops, end, s5, around);
    lemma_calm_flow(end, s5);
    write_arith(s4, op, t, cur, r, line);
    lemma_part(ops, s5, s4, around);
    lemma_calm_flow(s5, s4);
    law_scalar(ops, m2, s3, value, vars);
    lemma_calm_flow(s4, s3);
    match worth(eval(value, vars)) {
        Eval::Value(y, vars2) => {
            let m3 = after(ops, m2, s3, s4, r, y, vars2, around);
            assert(reached(ops, m2, s3, s4, m3, vars2, around));
            assert(m3.vals[o as int] == m2.vals[o as int] && m3.vals[cur as int]
                == m2.vals[cur as int]);
            lemma_leads_on(ops, m, m2, End::At(m3));
            law_arith(ops, m3, s4, op, t, cur, r, line, x, y);
            let reply = compound(op, t, x, y, line, vars2.world);
            lemma_reply_stops(ops, m, m3, s4, s5, v, reply);
            if let Reply::Value(z, w) = reply {
                if is_value(ty) {
                    lemma_lift(ops, m3, s4, s5, v, reply, vars2);
                    let m4 = after(ops, m3, s4, s5, v, z, vars2.at(w), around);
                    assert(reached(ops, m3, s4, s5, m4, vars2.at(w), around));
                    assert(m4.vals[o as int] == m3.vals[o as int]);
                    lemma_leads_on(ops, m, m3, End::At(m4));
                    law_store_field(ops, m4, s5, ty, v, o, off, z, a);
                    let w2 = put_value(w, ty, beyond(a, off as int), z);
                    lemma_store_ends(ops, m, m4, st, s5, end, w2, vars2.at(w));
                    assert(vars2.at(w).at(w2) == vars2.at(w2));
                }
            }
        },
        ev => {
            lemma_stopped(ops, m2, s3, s4, Some(r), ev, around, s3, end);
            lemma_onward(ops, m, m2, s3, s3, end, stopped(ev), around);
        },
    }
}

// -- Elements ---------------------------------------------------------------

proof fn law_assign_element(ops: Seq<Op>, m: Machine, st: LowView, s: StmtView, vars: Vars)
    requires
        s is Assign,
        s->Assign_target.kind is Index,
        placed(ops, m, st, vars),
        gen_assign_elem(vars.env(), st, s) is Ok,
        within(ops, gen_assign_elem(vars.env(), st, s)->Ok_0, vars.around),
        !st.f.terminated,
    ensures
        performs(
            ops,
            m,
            st,
            gen_assign_elem(vars.env(), st, s)->Ok_0,
            assign_element(s, vars),
            vars.around,
        ),
{
    let env = vars.env();
    let value = s->Assign_value;
    let target = s->Assign_target;
    let arr = *target.kind->Index_0;
    let idx = *target.kind->Index_1;
    let ty = *arr.ty->Array_0;
    let line = s->Assign_line;
    match s->Assign_op {
        None => {
            let (s1, v) = gen_scalar(env, st, value)->Ok_0;
            let (s2, a) = gen_scalar(env, s1, arr)->Ok_0;
            let (s3, i) = gen_scalar(env, s2, idx)->Ok_0;
            assert(scalar_code(env, st, value) == gen_scalar(env, st, value) && scalar_code(
                env,
                s1,
                arr,
            ) == gen_scalar(env, s1, arr) && scalar_code(env, s2, idx) == gen_scalar(env, s2, idx))
                by {
                reveal(scalar_code);
            }
            lemma_element(ops, m, st, value, arr, idx, ty, line, s1, v, s2, a, s3, i, vars);
        },
        Some(op) => {
            let (s1, a) = gen_scalar(env, st, arr)->Ok_0;
            let (s2, i) = gen_scalar(env, s1, idx)->Ok_0;
            let (s3, _, addr) = index_addr(s2, a, i, ty.storage(), line);
            let (s4, cur) = load_code(s3, ty, addr, 0);
            let (s5, r) = gen_scalar(env, s4, value)->Ok_0;
            assert(scalar_code(env, st, arr) == gen_scalar(env, st, arr) && scalar_code(
                env,
                s1,
                idx,
            ) == gen_scalar(env, s1, idx) && scalar_code(env, s4, value) == gen_scalar(
                env,
                s4,
                value,
            )) by {
                reveal(scalar_code);
            }
            assert(index_value(s2, arr.ty, ty, a, i, line) == Ok::<(LowView, usize), Seq<char>>(
                (s4, cur),
            )) by {
                reveal(index_value);
            }
            lemma_compound_element(
                ops,
                m,
                st,
                value,
                arr,
                idx,
                op,
                ty,
                line,
                s1,
                a,
                s2,
                i,
                s4,
                cur,
                s5,
                r,
                vars,
            );
        },
    }
}

/// The last part of an assignment to an element, with everything evaluated.
#[verifier::rlimit(40)]
proof fn lemma_put_element(
    ops: Seq<Op>,
    m: Machine,
    m1: Machine,
    st: LowView,
    s: LowView,
    ty: TypeView,
    line: u32,
    v: usize,
    a: usize,
    i: usize,
    x: int,
    av: int,
    k: IntKind,
    iv: int,
    vars: Vars,
)
    requires
        leads(ops, m, End::At(m1)),
        ready(ops, m1, s),
        holds(m1, vars),
        v < s.f.ops.len(),
        a < s.f.ops.len(),
        i < s.f.ops.len(),
        m1.vals[v as int] == word(x),
        m1.vals[a as int] == word(av),
        m1.vals[i as int] == word(iv),
        !s.f.terminated,
        ({
            let (s4, buf, addr) = index_addr(s, a, i, ty.storage(), line);
            within(ops, store_elem(s4, ty, v, buf, addr), vars.around)
        }),
    ensures
        ({
            let (s4, buf, addr) = index_addr(s, a, i, ty.storage(), line);
            performs(
                ops,
                m,
                st,
                store_elem(s4, ty, v, buf, addr),
                set_element(ty, av, k, iv, Reply::Value(x, vars.world), line, vars),
                vars.around,
            )
        }),
{
    let around = vars.around;
    let (s4, buf, addr) = index_addr(s, a, i, ty.storage(), line);
    let end = store_elem(s4, ty, v, buf, addr);
    write_store_elem(s4, ty, v, buf, addr);
    lemma_part(ops, end, s4, around);
    lemma_calm_flow(end, s4);
    write_index_addr(s, a, i, ty.storage(), line);
    lemma_calm_flow(s4, s);
    let n = array_len(vars.world, av);
    if n < 0x8000_0000_0000_0000 && k.holds(iv) && is_value(ty) {
        law_index_addr(ops, m1, s, a, i, ty.storage(), line, av, k, iv);
        if !(0 <= iv < n) {
            lemma_leads_on(ops, m, m1, End::Panic(Rt::PanicBounds, line, vars.world));
        } else {
            let r = array_buf(vars.world, av) + 16 + iv * ty.storage();
            let m2 = choose|m2: Machine| #[trigger] located(ops, m1, s, s4, addr, r, m2);
            assert(m2.vals[v as int] == m1.vals[v as int]);
            lemma_leads_on(ops, m, m1, End::At(m2));
            lemma_framed(m2, m1, s.f.ops.len() as int, vars);
            assert(vars.at(m2.world) == vars);
            law_store_elem(ops, m2, s4, ty, v, buf, addr, x, r);
            assert(element(vars.world, av, iv, ty.storage() as nat) == word(r) as int) by {
                assert(array_buf(vars.world, av) + (16 + iv * ty.storage()) == r);
            }
            let w = put_value(vars.world, ty, word(r) as int, x);
            lemma_store_ends(ops, m, m2, st, s4, end, w, vars);
        }
    }
}

#[verifier::rlimit(40)]
proof fn lemma_element(
    ops: Seq<Op>,
    m: Machine,
    st: LowView,
    value: ExprView,
    arr: ExprView,
    idx: ExprView,
    ty: TypeView,
    line: u32,
    s1: LowView,
    v: usize,
    s2: LowView,
    a: usize,
    s3: LowView,
    i: usize,
    vars: Vars,
)
    requires
        placed(ops, m, st, vars),
        scalar_code(vars.env(), st, value) == Ok::<(LowView, usize), Seq<char>>((s1, v)),
        scalar_code(vars.env(), s1, arr) == Ok::<(LowView, usize), Seq<char>>((s2, a)),
        scalar_code(vars.env(), s2, idx) == Ok::<(LowView, usize), Seq<char>>((s3, i)),
        ({
            let (s4, buf, addr) = index_addr(s3, a, i, ty.storage(), line);
            within(ops, store_elem(s4, ty, v, buf, addr), vars.around)
        }),
        !st.f.terminated,
    ensures
        ({
            let (s4, buf, addr) = index_addr(s3, a, i, ty.storage(), line);
            performs(
                ops,
                m,
                st,
                store_elem(s4, ty, v, buf, addr),
                match worth(eval(value, vars)) {
                    Eval::Value(x, vars1) => match pair_of(arr, idx, vars1) {
                        Ok(p) => set_element(
                            ty,
                            p.0,
                            kind_of(idx.ty),
                            p.1,
                            Reply::Value(x, p.2.world),
                            line,
                            p.2,
                        ),
                        Err(ev) => stopped(ev),
                    },
                    other => stopped(other),
                },
                vars.around,
            )
        }),
{
    let env = vars.env();
    let around = vars.around;
    let (s4, buf, addr) = index_addr(s3, a, i, ty.storage(), line);
    let end = store_elem(s4, ty, v, buf, addr);
    write_store_elem(s4, ty, v, buf, addr);
    lemma_part(ops, end, s4, around);
    write_index_addr(s3, a, i, ty.storage(), line);
    lemma_part(ops, s4, s3, around);
    lemma_scalar_calm(env, s2, idx);
    lemma_part(ops, s3, s2, around);
    lemma_scalar_calm(env, s1, arr);
    lemma_part(ops, s2, s1, around);
    law_scalar(ops, m, st, value, vars);
    lemma_calm_flow(s1, st);
    match worth(eval(value, vars)) {
        Eval::Value(x, vars1) => {
            let m1 = after(ops, m, st, s1, v, x, vars1, around);
            assert(reached(ops, m, st, s1, m1, vars1, around));
            lemma_calm_placed(ops, m, st, vars, m1, s1, vars1);
            let whole = pair_up(arr, idx);
            lemma_pair_up(arr, idx);
            lemma_pair(ops, m1, s1, arr, idx, s2, a, s3, i, vars1, whole);
            lemma_calm_flow(s3, s1);
            match pair_of(arr, idx, vars1) {
                Err(ev) => {
                    lemma_stopped(ops, m1, s1, s3, Some(i), ev, around, s1, end);
                    lemma_onward(ops, m, m1, st, s1, end, stopped(ev), around);
                },
                Ok(p) => {
                    let (av, iv, vars2) = p;
                    let m2 = choose|m2: Machine| #[trigger]
                        both(ops, m1, s1, s3, a, i, av, iv, vars2, around, m2);
                    assert(m2.vals[v as int] == m1.vals[v as int]);
                    lemma_leads_on(ops, m, m1, End::At(m2));
                    lemma_put_element(
                        ops,
                        m,
                        m2,
                        st,
                        s3,
                        ty,
                        line,
                        v,
                        a,
                        i,
                        x,
                        av,
                        kind_of(idx.ty),
                        iv,
                        vars2,
                    );
                },
            }
        },
        ev => lemma_stopped(ops, m, st, s1, Some(v), ev, around, st, end),
    }
}

#[verifier::rlimit(60)]
proof fn lemma_compound_element(
    ops: Seq<Op>,
    m: Machine,
    st: LowView,
    value: ExprView,
    arr: ExprView,
    idx: ExprView,
    op: BinOp,
    ty: TypeView,
    line: u32,
    s1: LowView,
    a: usize,
    s2: LowView,
    i: usize,
    s4: LowView,
    cur: usize,
    s5: LowView,
    r: usize,
    vars: Vars,
)
    requires
        placed(ops, m, st, vars),
        arr.ty == TypeView::Array(Box::new(ty)),
        scalar_code(vars.env(), st, arr) == Ok::<(LowView, usize), Seq<char>>((s1, a)),
        scalar_code(vars.env(), s1, idx) == Ok::<(LowView, usize), Seq<char>>((s2, i)),
        index_value(s2, arr.ty, ty, a, i, line) == Ok::<(LowView, usize), Seq<char>>((s4, cur)),
        scalar_code(vars.env(), s4, value) == Ok::<(LowView, usize), Seq<char>>((s5, r)),
        arith(s5, op, ty, cur, r, line) is Ok,
        ({
            let (s6, v) = arith(s5, op, ty, cur, r, line)->Ok_0;
            let (s7, buf, addr) = index_addr(s6, a, i, ty.storage(), line);
            within(ops, store_elem(s7, ty, v, buf, addr), vars.around)
        }),
        !st.f.terminated,
    ensures
        ({
            let (s6, v) = arith(s5, op, ty, cur, r, line)->Ok_0;
            let (s7, buf, addr) = index_addr(s6, a, i, ty.storage(), line);
            let k = kind_of(idx.ty);
            performs(
                ops,
                m,
                st,
                store_elem(s7, ty, v, buf, addr),
                match pair_of(arr, idx, vars) {
                    Ok(p) => match element_of(arr.ty, ty, p.0, k, p.1, line, p.2.world) {
                        Reply::Value(x, _) => match worth(eval(value, p.2)) {
                            Eval::Value(y, vars2) => set_element(
                                ty,
                                p.0,
                                k,
                                p.1,
                                compound(op, ty, x, y, line, vars2.world),
                                line,
                                vars2,
                            ),
                            other => stopped(other),
                        },
                        Reply::Panic(rt, at, w) => Exec::Panic(rt, at, w),
                        _ => Exec::Unfinished,
                    },
                    Err(ev) => stopped(ev),
                },
                vars.around,
            )
        }),
{
    let env = vars.env();
    let around = vars.around;
    let k = kind_of(idx.ty);
    let (s6, v) = arith(s5, op, ty, cur, r, line)->Ok_0;
    let (s7, buf, addr) = index_addr(s6, a, i, ty.storage(), line);
    let end = store_elem(s7, ty, v, buf, addr);
    write_store_elem(s7, ty, v, buf, addr);
    lemma_part(ops, end, s7, around);
    write_index_addr(s6, a, i, ty.storage(), line);
    lemma_part(ops, s7, s6, around);
    write_arith(s5, op, ty, cur, r, line);
    lemma_part(ops, s6, s5, around);
    lemma_calm_flow(s6, s5);
    lemma_scalar_calm(env, s4, value);
    lemma_part(ops, s5, s4, around);
    lemma_calm_flow(s5, s4);
    write_index_value(s2, arr.ty, ty, a, i, line);
    lemma_part(ops, s4, s2, around);
    lemma_calm_flow(s4, s2);
    let whole = pair_up(arr, idx);
    lemma_pair_up(arr, idx);
    lemma_pair(ops, m, st, arr, idx, s1, a, s2, i, vars, whole);
    lemma_calm_flow(s2, st);
    match pair_of(arr, idx, vars) {
        Err(ev) => lemma_stopped(ops, m, st, s2, Some(i), ev, around, st, end),
        Ok(p) => {
            let (av, iv, vars1) = p;
            let m1 = choose|m1: Machine| #[trigger]
                both(ops, m, st, s2, a, i, av, iv, vars1, around, m1);
            law_element(ops, m1, s2, arr.ty, ty, a, i, line, av, k, iv);
            let got = element_of(arr.ty, ty, av, k, iv, line, vars1.world);
            lemma_reply_stops(ops, m, m1, s2, s4, cur, got);
            if let Reply::Value(x, w) = got {
                assert(w == vars1.world);
                lemma_place_index(s2, arr.ty, ty, a, i, line);
                lemma_lift(ops, m1, s2, s4, cur, got, vars1);
                assert(vars1.at(w) == vars1);
                let m2 = after(ops, m1, s2, s4, cur, x, vars1, around);
                assert(reached(ops, m1, s2, s4, m2, vars1, around));
                assert(m2.vals[a as int] == m1.vals[a as int] && m2.vals[i as int]
                    == m1.vals[i as int]);
                lemma_leads_on(ops, m, m1, End::At(m2));
                assert(calm(s4, st)) by {
                    lemma_calm();
                }
                lemma_calm_placed(ops, m, st, vars, m2, s4, vars1);
                law_scalar(ops, m2, s4, value, vars1);
                match worth(eval(value, vars1)) {
                    Eval::Value(y, vars2) => {
                        let m3 = after(ops, m2, s4, s5, r, y, vars2, around);
                        assert(reached(ops, m2, s4, s5, m3, vars2, around));
                        assert(m3.vals[a as int] == m2.vals[a as int] && m3.vals[i as int]
                            == m2.vals[i as int] && m3.vals[cur as int] == m2.vals[cur as int]);
                        lemma_leads_on(ops, m, m2, End::At(m3));
                        law_arith(ops, m3, s5, op, ty, cur, r, line, x, y);
                        let reply = compound(op, ty, x, y, line, vars2.world);
                        lemma_reply_stops(ops, m, m3, s5, s6, v, reply);
                        if let Reply::Value(z, w2) = reply {
                            lemma_lift(ops, m3, s5, s6, v, reply, vars2);
                            let vars3 = vars2.at(w2);
                            let m4 = after(ops, m3, s5, s6, v, z, vars3, around);
                            assert(reached(ops, m3, s5, s6, m4, vars3, around));
                            assert(m4.vals[a as int] == m3.vals[a as int] && m4.vals[i as int]
                                == m3.vals[i as int]);
                            lemma_leads_on(ops, m, m3, End::At(m4));
                            lemma_put_element(
                                ops,
                                m,
                                m4,
                                st,
                                s6,
                                ty,
                                line,
                                v,
                                a,
                                i,
                                z,
                                av,
                                k,
                                iv,
                                vars3,
                            );
                            assert(set_element(
                                ty,
                                av,
                                k,
                                iv,
                                Reply::Value(z, w2),
                                line,
                                vars3,
                            ) == set_element(ty, av, k, iv, reply, line, vars2));
                        }
                    },
                    ev => {
                        lemma_stopped(ops, m2, s4, s5, Some(r), ev, around, s4, end);
                        lemma_onward(ops, m, m2, s4, s4, end, stopped(ev), around);
                    },
                }
            }
        },
    }
}

// -- Assignments ------------------------------------------------------------

/// The code of an assignment does what the assignment does.
pub proof fn law_assign(ops: Seq<Op>, m: Machine, st: LowView, s: StmtView, vars: Vars)
    requires
        s is Assign,
        placed(ops, m, st, vars),
        gen_stmt(vars.env(), st, s) is Ok,
        within(ops, gen_stmt(vars.env(), st, s)->Ok_0, vars.around),
        !st.f.terminated,
    ensures
        performs(
            ops,
            m,
            st,
            gen_stmt(vars.env(), st, s)->Ok_0,
            assign(s, vars),
            vars.around,
        ),
{
    match s->Assign_target.kind {
        ExprKindView::Var { res, .. } => {
            if let Some(VarRes::Local(i)) = res {
                law_assign_local(ops, m, st, s, i, vars);
            }
        },
        ExprKindView::Field { .. } => law_assign_field(ops, m, st, s, vars),
        ExprKindView::Index(_, _) => law_assign_element(ops, m, st, s, vars),
        _ => {},
    }
}

} // verus!
