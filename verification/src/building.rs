//! That the code of literals and closures makes the objects that they mean.
use vstd::prelude::*;

use crate::ast::{CaptureView, ExprView, LambdaDefView, VarRes, VariantArgsView};
use crate::computing::{
    after, computes, holds, keeps, law_captured, lemma_before, lemma_calm_placed, lemma_framed,
    lemma_keeps_on, lemma_lift, lemma_part, lemma_single, lemma_then, lemma_value, placed, reached,
    scalar_code, within,
};
use crate::evaluate::{
    bound, closed_over, eval, eval_closure, eval_elems, eval_inits, eval_literal, fill, lift, named,
    put_slot, slot, worth, Eval, Setting, Vars,
};
use crate::expressions::{law_scalar, lemma_stops};
use crate::ir::Op;
use crate::lower::{
    array_new, array_push, bare_variant, bind_func, bound_method, captured, closure, desc,
    desc_data, find_bare, find_inst, find_lambda, gen_array, gen_elems, gen_expr, gen_inits,
    gen_scalar, gen_struct, gen_variant, layable, new_of, next, place, put, refmap, shapes_of,
    store_captures, store_field, store_word, struct_types, variant_types, with_gen, GenView, LowEnv,
    LowView, HEADER, KIND_STRUCT,
};
use crate::machine::{leads, modulus, standing, step, word, End, Machine};
use crate::meaning::{
    begins, lemma_leads_here, lemma_leads_on, lemma_leads_step, lemma_step_then, lemma_word, ready,
};
use crate::memory::{
    beyond, fetch, law_load_stored, law_store_elsewhere, lemma_load_same, lemma_room, new_array,
    new_object, pushed, put_value, room, World,
};
use crate::objects::{
    found, framed, fresh, is_value, law_array_new, law_new_of, law_push, law_store_field, leaves,
    lemma_beyond, room_for, with,
};
use crate::types::{layout_size, TypeView};
use crate::writing::{
    calm, fuller, lemma_bare_more, lemma_calm, lemma_find_more, lemma_fuller_on,
    lemma_more_is_fuller, more_unit, tidy, write_array_new, write_array_push, write_bare_variant,
    write_bind_func, write_bound_method, write_desc, write_gen_elems, write_gen_inits,
    write_new_object, write_store_captures, write_store_field, write_store_word,
};

verus! {

// -- Closures ---------------------------------------------------------------

/// A word is put into an object.
pub proof fn law_store_word(
    ops: Seq<Op>,
    m: Machine,
    st: LowView,
    ty: TypeView,
    v: usize,
    obj: usize,
    off: i32,
    x: int,
    r: int,
)
    requires
        begins(ops, store_word(st, ty, v, obj, off)),
        ops.len() <= usize::MAX,
        ready(ops, m, st),
        m.args.len() == 0,
        v < st.f.ops.len(),
        obj < st.f.ops.len(),
        m.vals[v as int] == word(x),
        m.vals[obj as int] == word(r),
    ensures
        leaves(
            ops,
            m,
            st,
            store_word(st, ty, v, obj, off),
            put_slot(m.world, beyond(r, off as int), x),
        ),
{
    let end = store_word(st, ty, v, obj, off);
    let n = st.f.ops.len() as int;
    if ty.is_reference() {
        law_store_field(ops, m, st, ty, v, obj, off, x, r);
        assert(put_value(m.world, ty, beyond(r, off as int), x) == put_slot(
            m.world,
            beyond(r, off as int),
            x,
        ));
    } else {
        let w = put_slot(m.world, beyond(r, off as int), x);
        lemma_beyond(m, obj, off, r);
        let m1 = Machine { at: n + 1, world: w, ..m };
        assert(ops[n] == end.f.ops[n]);
        assert(step(ops, m) == Some(End::At(m1)));
        lemma_leads_step(ops, m, End::At(m1));
        assert(framed(m1, m, n));
    }
}

/// Captured variables are put into a closure one by one, each where the body of
/// the closure reads it.
#[verifier::rlimit(60)]
pub proof fn law_captures(
    ops: Seq<Op>,
    m: Machine,
    base: LowView,
    st: LowView,
    obj: usize,
    cs: Seq<CaptureView>,
    i: nat,
    line: u32,
    a: int,
    vars: Vars,
)
    requires
        store_captures(vars.env(), st, obj, cs, i, line) is Ok,
        within(ops, store_captures(vars.env(), st, obj, cs, i, line)->Ok_0, vars.around),
        ready(ops, m, st),
        holds(m, vars),
        vars.env().locals <= usize::MAX,
        i <= cs.len() <= 63,
        obj < st.f.ops.len(),
        base.f.ops.len() <= st.f.ops.len(),
        m.vals[obj as int] == word(a),
    ensures
        computes(
            ops,
            m,
            base,
            store_captures(vars.env(), st, obj, cs, i, line)->Ok_0,
            Some(obj),
            fill(a, cs, i, vars),
            vars.around,
        ),
    decreases cs.len() - i,
{
    let env = vars.env();
    let around = vars.around;
    let end = store_captures(env, st, obj, cs, i, line)->Ok_0;
    let n = st.f.ops.len() as int;
    let ev = fill(a, cs, i, vars);
    if i >= cs.len() {
        lemma_leads_here(ops, m);
        lemma_value(ops, m, base, end, obj, a, vars, around, m);
    } else {
        let c = cs[i as int];
        let off = (HEADER + 8 * (i + 1)) as i32;
        let (s, v) = match c.src {
            VarRes::Local(k) => (put(st, Op::UseVar(k as usize)), next(st)),
            VarRes::Captured(k) => captured(env, st, k, c.ty, line)->Ok_0,
            VarRes::Func(_) => (st, 0),
        };
        let s2 = store_word(s, c.ty, v, obj, off);
        write_store_captures(env, s2, obj, cs, i + 1, line);
        lemma_part(ops, end, s2, around);
        write_store_word(s, c.ty, v, obj, off);
        lemma_part(ops, s2, s, around);
        assert(st.f.ops.len() <= s.f.ops.len() <= s2.f.ops.len()) by {
            reveal(captured);
        }
        let got = lift(vars, found(named(Some(c.src), c.ty, vars), vars.world));
        assert(vars.at(vars.world) == vars);
        match c.src {
            VarRes::Local(k) => {
                assert(ops[n] == s.f.ops[n]);
                assert(m.vars[k as int] == word(vars.vals[k as int]));
                lemma_single(ops, m, st, s, vars.vals[k as int], vars);
            },
            VarRes::Captured(k) => {
                law_captured(ops, m, st, k, c.ty, line, vars);
            },
            VarRes::Func(_) => {},
        }
        if let Some(x) = named(Some(c.src), c.ty, vars) {
            assert(got == Eval::Value(x, vars));
            let m1 = after(ops, m, st, s, v, x, vars, around);
            assert(reached(ops, m, st, s, m1, vars, around));
            law_store_word(ops, m1, s, c.ty, v, obj, off, x, a);
            let w = put_slot(vars.world, slot(a, i as int), x);
            let m2 = choose|m2: Machine| #[trigger]
                leads(ops, m1, End::At(m2)) && m2.at == s2.f.ops.len() && m2.world == w && framed(
                    m2,
                    m1,
                    s.f.ops.len() as int,
                );
            lemma_framed(m2, m1, s.f.ops.len() as int, vars);
            lemma_leads_on(ops, m, m1, End::At(m2));
            assert(m2.vals[obj as int] == m1.vals[obj as int]);
            law_captures(ops, m2, base, s2, obj, cs, i + 1, line, a, vars.at(w));
            lemma_keeps_on(m, m1, m2, n, s.f.ops.len() as int);
            assert(keeps(m2, m, base.f.ops.len() as int));
            lemma_then(ops, m, m2, base, base, end, Some(obj), ev, around);
        }
    }
}

/// A lambda makes a closure of its code and the variables that it captures.
pub proof fn law_lambda(ops: Seq<Op>, m: Machine, st: LowView, e: ExprView, vars: Vars)
    requires
        e.kind is Lambda,
        placed(ops, m, st, vars),
        gen_expr(vars.env(), st, e) is Ok,
        within(ops, gen_expr(vars.env(), st, e)->Ok_0.0, vars.around),
    ensures
        computes(
            ops,
            m,
            st,
            gen_expr(vars.env(), st, e)->Ok_0.0,
            gen_expr(vars.env(), st, e)->Ok_0.1,
            eval(e, vars),
            vars.around,
        ),
    decreases e, 8int,
{
    let env = vars.env();
    let lam = *e.kind->Lambda_0;
    assert(eval(e, vars) == eval_closure(e, vars)) by {
        reveal(eval);
    }
    let (s, v) = closure(env, st, lam, e.line)->Ok_0;
    law_closure(ops, m, st, lam, e.line, vars);
}

#[verifier::rlimit(30)]
pub proof fn law_closure(
    ops: Seq<Op>,
    m: Machine,
    st: LowView,
    lam: LambdaDefView,
    line: u32,
    vars: Vars,
)
    requires
        placed(ops, m, st, vars),
        closure(vars.env(), st, lam, line) is Ok,
        within(ops, closure(vars.env(), st, lam, line)->Ok_0.0, vars.around),
    ensures
        ({
            let (f, d) = find_lambda(vars.env().lams, lam.id, 0)->0;
            &&& find_lambda(vars.env().lams, lam.id, 0) is Some
            &&& computes(
                ops,
                m,
                st,
                closure(vars.env(), st, lam, line)->Ok_0.0,
                Some(closure(vars.env(), st, lam, line)->Ok_0.1),
                closed_over(
                    f,
                    (vars.around.layout.size)(vars.around.data(d) as u64),
                    lam.captures,
                    vars,
                ),
                vars.around,
            )
        }),
{
    reveal(closure);
    let env = vars.env();
    let around = vars.around;
    let (end, obj) = closure(env, st, lam, line)->Ok_0;
    let (f, d) = find_lambda(env.lams, lam.id, 0)->0;
    let size = (around.layout.size)(around.data(d) as u64);
    let (s1, _) = new_of(st, d, 0);
    let s3 = put(put(s1, Op::FuncAddr(f)), Op::Store(next(s1), obj, HEADER));
    write_store_captures(env, s3, obj, lam.captures, 0, line);
    lemma_part(ops, end, s3, around);
    lemma_before(ops, s3, s1, around);
    law_new_of(ops, m, st, d, 0);
    if let Some((a, w)) = new_object(vars.world, size, 0) {
        lemma_lift(ops, m, st, s1, obj, fresh(new_object(vars.world, size, 0)), vars);
        let vars1 = vars.at(w);
        let m1 = after(ops, m, st, s1, obj, a, vars1, around);
        assert(reached(ops, m, st, s1, m1, vars1, around));
        lemma_code_word(ops, m1, s1, s3, obj, f, a, vars1);
        let w3 = put_slot(w, beyond(a, 16), (around.layout.code)(f) as int);
        let m3 = choose|m3: Machine| #[trigger]
            reached(ops, m1, s1, s3, m3, vars1.at(w3), around);
        assert(m3.vals[obj as int] == m1.vals[obj as int]);
        law_captures(ops, m3, s1, s3, obj, lam.captures, 0, line, a, vars1.at(w3));
        assert(vars1.at(w3) == vars.at(w3));
        let ev = fill(a, lam.captures, 0, vars.at(w3));
        lemma_then(ops, m1, m3, s1, s1, end, Some(obj), ev, around);
        lemma_then(ops, m, m1, st, s1, end, Some(obj), ev, around);
    }
}

/// The address of a function's code goes into a closure.
pub proof fn lemma_code_word(
    ops: Seq<Op>,
    m: Machine,
    s1: LowView,
    s3: LowView,
    obj: usize,
    f: usize,
    a: int,
    vars: Vars,
)
    requires
        s3 == put(put(s1, Op::FuncAddr(f)), Op::Store(next(s1), obj, HEADER)),
        begins(ops, s3),
        ops.len() <= usize::MAX,
        ready(ops, m, s1),
        holds(m, vars),
        obj < s1.f.ops.len(),
        m.vals[obj as int] == word(a),
    ensures
        ({
            let w = put_slot(
                vars.world,
                beyond(a, 16),
                (vars.around.layout.code)(f) as int,
            );
            exists|m3: Machine| #[trigger]
                reached(ops, m, s1, s3, m3, vars.at(w), vars.around)
        }),
{
    let n = s1.f.ops.len() as int;
    let code = (vars.around.layout.code)(f);
    assert(ops[n] == s3.f.ops[n] && ops[n + 1] == s3.f.ops[n + 1]);
    lemma_word(code as int);
    let m1 = with(m, code);
    assert(step(ops, m) == Some(End::At(m1)));
    lemma_beyond(m1, obj, HEADER, a);
    let w = put_slot(vars.world, beyond(a, 16), code as int);
    let m2 = Machine { at: n + 2, world: w, ..m1 };
    assert(step(ops, m1) == Some(End::At(m2)));
    lemma_leads_step(ops, m1, End::At(m2));
    lemma_step_then(ops, m, m1, End::At(m2));
    assert(holds(m2, vars.at(w)));
    assert(reached(ops, m, s1, s3, m2, vars.at(w), vars.around));
}

/// A method is bound to its receiver.
pub proof fn law_bound_method(ops: Seq<Op>, m: Machine, st: LowView, e: ExprView, vars: Vars)
    requires
        e.kind is BoundMethod,
        placed(ops, m, st, vars),
        gen_expr(vars.env(), st, e) is Ok,
        within(ops, gen_expr(vars.env(), st, e)->Ok_0.0, vars.around),
    ensures
        computes(
            ops,
            m,
            st,
            gen_expr(vars.env(), st, e)->Ok_0.0,
            gen_expr(vars.env(), st, e)->Ok_0.1,
            eval(e, vars),
            vars.around,
        ),
    decreases e, 8int,
{
    let env = vars.env();
    let around = vars.around;
    let obj = *e.kind->BoundMethod_obj;
    let fid = e.kind->BoundMethod_fid;
    let inst = e.kind->BoundMethod_inst;
    let (s1, x) = gen_scalar(env, st, obj)->Ok_0;
    let (s, v) = bound_method(env, s1, x, fid, inst, e.line)->Ok_0;
    assert(eval(e, vars) == eval_closure(e, vars)) by {
        reveal(eval);
    }
    assert(scalar_code(env, st, obj) == gen_scalar(env, st, obj)) by {
        reveal(scalar_code);
    }
    lemma_bound(ops, m, st, e, obj, s1, x, s, v, vars);
}

#[verifier::rlimit(40)]
proof fn lemma_bound(
    ops: Seq<Op>,
    m: Machine,
    st: LowView,
    e: ExprView,
    obj: ExprView,
    s1: LowView,
    x: usize,
    s: LowView,
    v: usize,
    vars: Vars,
)
    requires
        e.kind is BoundMethod,
        obj == *e.kind->BoundMethod_obj,
        placed(ops, m, st, vars),
        scalar_code(vars.env(), st, obj) == Ok::<(LowView, usize), Seq<char>>((s1, x)),
        bound_method(
            vars.env(),
            s1,
            x,
            e.kind->BoundMethod_fid,
            e.kind->BoundMethod_inst,
            e.line,
        ) == Ok::<(LowView, usize), Seq<char>>((s, v)),
        within(ops, s, vars.around),
    ensures
        computes(ops, m, st, s, Some(v), eval_closure(e, vars), vars.around),
    decreases e, 7int,
{
    let env = vars.env();
    let around = vars.around;
    let fid = e.kind->BoundMethod_fid;
    let inst = e.kind->BoundMethod_inst;
    write_bound_method(env, s1, x, fid, inst, e.line);
    lemma_part(ops, s, s1, around);
    law_scalar(ops, m, st, obj, vars);
    if let Eval::Value(r, vars1) = worth(eval(obj, vars)) {
        let m1 = after(ops, m, st, s1, x, r, vars1, around);
        lemma_calm_placed(ops, m, st, vars, m1, s1, vars1);
        law_bound(ops, m1, s1, x, fid, inst, e.line, r, vars1);
        let f = find_inst(around.g.binds, fid, shapes_of(inst), 0)->0;
        assert(vars1.around == around);
        assert(find_inst(vars.around.g.binds, fid, shapes_of(inst), 0) == Some(f));
        assert(eval_closure(e, vars) == bound(f, r, vars1)) by {
            reveal(eval);
        }
        lemma_then(ops, m, m1, st, s1, s, Some(v), bound(f, r, vars1), around);
    } else {
        assert(eval_closure(e, vars) == worth(eval(obj, vars))) by {
            reveal(eval);
        }
        lemma_stops(ops, m, st, s1, Some(x), worth(eval(obj, vars)), around, st, s, Some(v));
    }
}

/// The closure of a bound method holds its code and its receiver.
#[verifier::rlimit(40)]
pub proof fn law_bound(
    ops: Seq<Op>,
    m: Machine,
    st: LowView,
    recv: usize,
    fid: u32,
    inst: Seq<TypeView>,
    line: u32,
    r: int,
    vars: Vars,
)
    requires
        placed(ops, m, st, vars),
        recv < st.f.ops.len(),
        m.vals[recv as int] == word(r),
        bound_method(vars.env(), st, recv, fid, inst, line) is Ok,
        within(ops, bound_method(vars.env(), st, recv, fid, inst, line)->Ok_0.0, vars.around),
    ensures
        find_inst(vars.around.g.binds, fid, shapes_of(inst), 0) is Some,
        computes(
            ops,
            m,
            st,
            bound_method(vars.env(), st, recv, fid, inst, line)->Ok_0.0,
            Some(bound_method(vars.env(), st, recv, fid, inst, line)->Ok_0.1),
            bound(find_inst(vars.around.g.binds, fid, shapes_of(inst), 0)->0, r, vars),
            vars.around,
        ),
{
    reveal(bound_method);
    let env = vars.env();
    let around = vars.around;
    let (end, obj) = bound_method(env, st, recv, fid, inst, line)->Ok_0;
    let (g1, f) = bind_func(env, st.g, fid, inst, line)->Ok_0;
    let (g2, d) = desc(g1, KIND_STRUCT, 16, 2);
    write_bind_func(env, st.g, fid, inst, line);
    write_desc(g1, KIND_STRUCT, 16, 2);
    let s0 = with_gen(st, g2);
    let (s1, _) = new_of(s0, d, 0);
    let s3 = put(put(s1, Op::FuncAddr(f)), Op::Store(next(s1), obj, HEADER));
    let off = (HEADER + 8) as i32;
    assert(end == store_field(s3, TypeView::Str, recv, obj, off));
    write_store_field(s3, TypeView::Str, recv, obj, off);
    lemma_part(ops, end, s3, around);
    lemma_before(ops, s3, s1, around);
    assert(s1.g == g2);
    lemma_unit_parts(st.g, g1, g2, around, d, fid, shapes_of(inst));
    assert(vars.around.data(d) == standing(around.layout, desc_data(KIND_STRUCT, 16, 2)));
    law_new_of(ops, m, s0, d, 0);
    if let Some((a, w)) = new_object(vars.world, 16, 0) {
        lemma_lift(ops, m, s0, s1, obj, fresh(new_object(vars.world, 16, 0)), vars);
        let vars1 = vars.at(w);
        let m1 = after(ops, m, s0, s1, obj, a, vars1, around);
        assert(reached(ops, m, s0, s1, m1, vars1, around));
        lemma_code_word(ops, m1, s1, s3, obj, f, a, vars1);
        let w3 = put_slot(w, beyond(a, 16), (around.layout.code)(f) as int);
        let m3 = choose|m3: Machine| #[trigger]
            reached(ops, m1, s1, s3, m3, vars1.at(w3), around);
        assert(m3.vals[obj as int] == m1.vals[obj as int]);
        assert(m3.vals[recv as int] == m1.vals[recv as int]);
        assert(m1.vals[recv as int] == m.vals[recv as int]);
        law_store_field(ops, m3, s3, TypeView::Str, recv, obj, off, r, a);
        let w4 = put_slot(w3, slot(a, 0), r);
        assert(put_value(w3, TypeView::Str, beyond(a, off as int), r) == w4);
        let m4 = choose|m4: Machine| #[trigger]
            leads(ops, m3, End::At(m4)) && m4.at == end.f.ops.len() && m4.world == w4 && framed(
                m4,
                m3,
                s3.f.ops.len() as int,
            );
        lemma_framed(m4, m3, s3.f.ops.len() as int, vars1.at(w3));
        assert(m4.vals[obj as int] == m3.vals[obj as int]);
        lemma_leads_on(ops, m1, m3, End::At(m4));
        lemma_keeps_on(m1, m3, m4, s1.f.ops.len() as int, s3.f.ops.len() as int);
        lemma_value(ops, m1, s1, end, obj, a, vars.at(w4), around, m4);
        lemma_then(ops, m, m1, st, s1, end, Some(obj), Eval::Value(a, vars.at(w4)), around);
    }
}

/// What the finished unit holds of a bound method.
proof fn lemma_unit_parts(
    g0: GenView,
    g1: GenView,
    g2: GenView,
    around: Setting,
    d: usize,
    fid: u32,
    shapes: Seq<crate::mono::Shape>,
)
    requires
        tidy(g0),
        more_unit(g1, g0),
        more_unit(g2, g1),
        fuller(around.g, g2),
        around.g.datas.len() <= usize::MAX,
        find_inst(g1.binds, fid, shapes, 0) is Some,
        tidy(g1) && g2.datas.len() <= usize::MAX ==> d < g2.datas.len() && g2.datas[d as int]
            == desc_data(KIND_STRUCT, 16, 2),
    ensures
        around.g.datas[d as int] == desc_data(KIND_STRUCT, 16, 2),
        find_inst(around.g.binds, fid, shapes, 0) == find_inst(g1.binds, fid, shapes, 0),
{
    lemma_more_is_fuller(g2, g1);
    lemma_fuller_on(g1, g2, around.g);
    reveal(more_unit);
    reveal(fuller);
    lemma_find_more(g1.binds, around.g.binds, fid, shapes, 0);
}

// -- Arrays -----------------------------------------------------------------

/// The code of the elements of an array literal from index `i` on.
#[verifier::opaque]
pub open spec fn elems_code(
    env: LowEnv,
    st: LowView,
    ty: TypeView,
    arr: usize,
    es: Seq<ExprView>,
    i: nat,
) -> Result<LowView, Seq<char>> {
    gen_elems(env, st, ty, arr, es, i)
}

proof fn lemma_elems_parts(
    env: LowEnv,
    st: LowView,
    ty: TypeView,
    arr: usize,
    es: Seq<ExprView>,
    i: nat,
)
    requires
        elems_code(env, st, ty, arr, es, i) is Ok,
    ensures
        calm(elems_code(env, st, ty, arr, es, i)->Ok_0, st),
        i >= es.len() ==> elems_code(env, st, ty, arr, es, i)->Ok_0 == st,
        i < es.len() ==> {
            let r = scalar_code(env, st, es[i as int]);
            let s2 = array_push(r->Ok_0.0, ty, arr, r->Ok_0.1);
            &&& r is Ok
            &&& elems_code(env, st, ty, arr, es, i) == elems_code(env, s2, ty, arr, es, i + 1)
            &&& calm(elems_code(env, s2, ty, arr, es, i + 1)->Ok_0, s2)
            &&& calm(s2, r->Ok_0.0)
        },
{
    reveal(elems_code);
    reveal(scalar_code);
    write_gen_elems(env, st, ty, arr, es, i);
    if i < es.len() {
        let (s, v) = gen_scalar(env, st, es[i as int])->Ok_0;
        write_array_push(s, ty, arr, v);
        write_gen_elems(env, array_push(s, ty, arr, v), ty, arr, es, i + 1);
    }
}

proof fn lemma_eq_elems(ty: TypeView, a: int, es: Seq<ExprView>, i: nat, vars: Vars)
    requires
        i < es.len(),
    ensures
        eval_elems(ty, a, es, i, vars) == (match worth(eval(es[i as int], vars)) {
            Eval::Value(x, vars1) => match pushed(vars1.world, a, word(x), ty.storage() as nat) {
                Some(w) => eval_elems(ty, a, es, i + 1, vars1.at(w)),
                None => Eval::Unfinished,
            },
            other => other,
        }),
{
    reveal(eval);
    reveal_with_fuel(eval_elems, 2);
}

/// The elements of a literal are appended one by one.
#[verifier::rlimit(60)]
proof fn law_elems(
    ops: Seq<Op>,
    m: Machine,
    base: LowView,
    st: LowView,
    ty: TypeView,
    arr: usize,
    es: Seq<ExprView>,
    i: nat,
    a: int,
    vars: Vars,
)
    requires
        placed(ops, m, st, vars),
        elems_code(vars.env(), st, ty, arr, es, i) is Ok,
        within(ops, elems_code(vars.env(), st, ty, arr, es, i)->Ok_0, vars.around),
        is_value(ty),
        0 <= a < modulus(),
        arr < st.f.ops.len(),
        base.f.ops.len() <= st.f.ops.len(),
        m.vals[arr as int] == word(a),
    ensures
        computes(
            ops,
            m,
            base,
            elems_code(vars.env(), st, ty, arr, es, i)->Ok_0,
            Some(arr),
            eval_elems(ty, a, es, i, vars),
            vars.around,
        ),
    decreases es, es.len() - i,
{
    let env = vars.env();
    let around = vars.around;
    let end = elems_code(env, st, ty, arr, es, i)->Ok_0;
    let ev = eval_elems(ty, a, es, i, vars);
    lemma_elems_parts(env, st, ty, arr, es, i);
    if i >= es.len() {
        lemma_leads_here(ops, m);
        lemma_value(ops, m, base, end, arr, a, vars, around, m);
    } else {
        let (s, v) = scalar_code(env, st, es[i as int])->Ok_0;
        let s2 = array_push(s, ty, arr, v);
        lemma_part(ops, end, s2, around);
        lemma_part(ops, s2, s, around);
        lemma_eq_elems(ty, a, es, i, vars);
        law_scalar(ops, m, st, es[i as int], vars);
        if let Eval::Value(x, vars1) = worth(eval(es[i as int], vars)) {
            let m1 = after(ops, m, st, s, v, x, vars1, around);
            assert(reached(ops, m, st, s, m1, vars1, around));
            assert(m1.vals[arr as int] == m.vals[arr as int]);
            law_push(ops, m1, s, ty, arr, v, a, x);
            if let Some(w) = pushed(vars1.world, a, word(x), ty.storage() as nat) {
                lemma_stored(ops, m, m1, st, s, s2, w, vars1);
                let m2 = choose|m2: Machine| #[trigger]
                    reached(ops, m, st, s2, m2, vars1.at(w), around) && keeps(
                        m2,
                        m1,
                        s.f.ops.len() as int,
                    );
                assert(m2.vals[arr as int] == m1.vals[arr as int]);
                assert(calm(s2, st)) by {
                    lemma_calm();
                }
                lemma_calm_placed(ops, m, st, vars, m2, s2, vars1.at(w));
                law_elems(ops, m2, base, s2, ty, arr, es, i + 1, a, vars1.at(w));
                lemma_then(ops, m, m2, base, base, end, Some(arr), ev, around);
            }
        } else {
            lemma_stops(ops, m, st, s, Some(v), ev, around, base, end, Some(arr));
        }
    }
}

/// A value was computed and then stored: both have run.
proof fn lemma_stored(
    ops: Seq<Op>,
    m: Machine,
    m1: Machine,
    st: LowView,
    s: LowView,
    s2: LowView,
    w: World,
    vars1: Vars,
)
    requires
        leads(ops, m, End::At(m1)),
        keeps(m1, m, st.f.ops.len() as int),
        holds(m1, vars1),
        st.f.ops.len() <= s.f.ops.len(),
        leaves(ops, m1, s, s2, w),
    ensures
        exists|m2: Machine| #[trigger]
            reached(ops, m, st, s2, m2, vars1.at(w), vars1.around) && keeps(
                m2,
                m1,
                s.f.ops.len() as int,
            ),
{
    let n = s.f.ops.len() as int;
    let m2 = choose|m2: Machine| #[trigger]
        leads(ops, m1, End::At(m2)) && m2.at == s2.f.ops.len() && m2.world == w && framed(
            m2,
            m1,
            n,
        );
    lemma_framed(m2, m1, n, vars1);
    lemma_leads_on(ops, m, m1, End::At(m2));
    lemma_keeps_on(m, m1, m2, st.f.ops.len() as int, n);
    assert(reached(ops, m, st, s2, m2, vars1.at(w), vars1.around));
}

/// An array literal makes a new array of its elements.
pub proof fn law_array(ops: Seq<Op>, m: Machine, st: LowView, e: ExprView, vars: Vars)
    requires
        e.kind is ArrayLit,
        placed(ops, m, st, vars),
        gen_expr(vars.env(), st, e) is Ok,
        within(ops, gen_expr(vars.env(), st, e)->Ok_0.0, vars.around),
    ensures
        computes(
            ops,
            m,
            st,
            gen_expr(vars.env(), st, e)->Ok_0.0,
            gen_expr(vars.env(), st, e)->Ok_0.1,
            eval(e, vars),
            vars.around,
        ),
    decreases e, 8int,
{
    let env = vars.env();
    let elems = e.kind->ArrayLit_0;
    let ty = *e.ty->Array_0;
    let (s1, arr) = array_new(st, ty, elems.len());
    let (s, v) = gen_array(env, st, elems, e.ty, e.line)->Ok_0;
    assert(eval(e, vars) == eval_literal(e, vars)) by {
        reveal(eval);
    }
    assert(elems_code(env, s1, ty, arr, elems, 0) == gen_elems(env, s1, ty, arr, elems, 0)) by {
        reveal(elems_code);
    }
    lemma_array(ops, m, st, elems, ty, s, vars);
    assert(eval_literal(e, vars) == listed(ty, elems, vars)) by {
        reveal(eval);
    }
}

/// A new array of these elements.
pub open spec fn listed(ty: TypeView, elems: Seq<ExprView>, vars: Vars) -> Eval {
    if !is_value(ty) || elems.len() >= 0x1_0000_0000 {
        Eval::Unfinished
    } else {
        match new_array(vars.world, ty.storage() as nat, room_for(elems.len())) {
            None => Eval::Unfinished,
            Some((a, w)) => eval_elems(ty, a, elems, 0, vars.at(w)),
        }
    }
}

#[verifier::rlimit(40)]
proof fn lemma_array(
    ops: Seq<Op>,
    m: Machine,
    st: LowView,
    elems: Seq<ExprView>,
    ty: TypeView,
    s: LowView,
    vars: Vars,
)
    requires
        placed(ops, m, st, vars),
        elems_code(
            vars.env(),
            array_new(st, ty, elems.len()).0,
            ty,
            array_new(st, ty, elems.len()).1,
            elems,
            0,
        ) == Ok::<LowView, Seq<char>>(s),
        within(ops, s, vars.around),
    ensures
        computes(
            ops,
            m,
            st,
            s,
            Some(array_new(st, ty, elems.len()).1),
            listed(ty, elems, vars),
            vars.around,
        ),
    decreases elems, elems.len() + 1,
{
    let env = vars.env();
    let around = vars.around;
    let (s1, arr) = array_new(st, ty, elems.len());
    if is_value(ty) && elems.len() < 0x1_0000_0000 {
        lemma_elems_parts(env, s1, ty, arr, elems, 0);
        lemma_part(ops, s, s1, around);
        write_array_new(st, ty, elems.len());
        lemma_part(ops, s1, st, around);
        law_array_new(ops, m, st, ty, elems.len());
        let r = new_array(vars.world, ty.storage() as nat, room_for(elems.len()));
        if let Some((a, w)) = r {
            lemma_lift(ops, m, st, s1, arr, fresh(r), vars);
            let vars1 = vars.at(w);
            let m1 = after(ops, m, st, s1, arr, a, vars1, around);
            assert(reached(ops, m, st, s1, m1, vars1, around));
            lemma_calm_placed(ops, m, st, vars, m1, s1, vars1);
            law_elems(ops, m1, s1, s1, ty, arr, elems, 0, a, vars1);
            lemma_then(ops, m, m1, st, s1, s, Some(arr), listed(ty, elems, vars), around);
        }
    }
}

// -- Structs and variants ---------------------------------------------------

/// The code of the fields of a new object from index `i` on.
#[verifier::opaque]
pub open spec fn inits_code(
    env: LowEnv,
    st: LowView,
    ts: Seq<TypeView>,
    obj: usize,
    fs: Seq<(Seq<char>, ExprView, u32)>,
    i: nat,
    line: u32,
) -> Result<LowView, Seq<char>> {
    gen_inits(env, st, ts, obj, fs, i, line)
}

proof fn lemma_inits_parts(
    env: LowEnv,
    st: LowView,
    ts: Seq<TypeView>,
    obj: usize,
    fs: Seq<(Seq<char>, ExprView, u32)>,
    i: nat,
    line: u32,
)
    requires
        inits_code(env, st, ts, obj, fs, i, line) is Ok,
    ensures
        calm(inits_code(env, st, ts, obj, fs, i, line)->Ok_0, st),
        i >= fs.len() ==> inits_code(env, st, ts, obj, fs, i, line)->Ok_0 == st,
        i < fs.len() ==> {
            let r = scalar_code(env, st, fs[i as int].1);
            let k = fs[i as int].2;
            let s2 = store_field(r->Ok_0.0, ts[k as int], r->Ok_0.1, obj, place(ts, k));
            &&& r is Ok
            &&& k < ts.len()
            &&& inits_code(env, st, ts, obj, fs, i, line) == inits_code(
                env,
                s2,
                ts,
                obj,
                fs,
                i + 1,
                line,
            )
            &&& calm(inits_code(env, s2, ts, obj, fs, i + 1, line)->Ok_0, s2)
            &&& calm(s2, r->Ok_0.0)
        },
{
    reveal(inits_code);
    reveal(scalar_code);
    write_gen_inits(env, st, ts, obj, fs, i, line);
    if i < fs.len() {
        let k = fs[i as int].2;
        let (s, v) = gen_scalar(env, st, fs[i as int].1)->Ok_0;
        let s2 = store_field(s, ts[k as int], v, obj, place(ts, k));
        write_store_field(s, ts[k as int], v, obj, place(ts, k));
        write_gen_inits(env, s2, ts, obj, fs, i + 1, line);
    }
}

proof fn lemma_eq_inits(
    ts: Seq<TypeView>,
    a: int,
    fs: Seq<(Seq<char>, ExprView, u32)>,
    i: nat,
    vars: Vars,
)
    requires
        i < fs.len(),
    ensures
        ({
            let k = fs[i as int].2;
            eval_inits(ts, a, fs, i, vars) == (match worth(eval(fs[i as int].1, vars)) {
                Eval::Value(x, vars1) => if is_value(ts[k as int]) {
                    eval_inits(
                        ts,
                        a,
                        fs,
                        i + 1,
                        vars1.at(
                            put_value(vars1.world, ts[k as int], beyond(a, place(ts, k) as int), x),
                        ),
                    )
                } else {
                    Eval::Unfinished
                },
                other => other,
            })
        }),
{
    reveal(eval);
    reveal_with_fuel(eval_inits, 2);
}

/// The fields of a new object are put where they are read.
#[verifier::rlimit(60)]
proof fn law_inits(
    ops: Seq<Op>,
    m: Machine,
    base: LowView,
    st: LowView,
    ts: Seq<TypeView>,
    obj: usize,
    fs: Seq<(Seq<char>, ExprView, u32)>,
    i: nat,
    line: u32,
    a: int,
    vars: Vars,
)
    requires
        placed(ops, m, st, vars),
        inits_code(vars.env(), st, ts, obj, fs, i, line) is Ok,
        within(ops, inits_code(vars.env(), st, ts, obj, fs, i, line)->Ok_0, vars.around),
        obj < st.f.ops.len(),
        base.f.ops.len() <= st.f.ops.len(),
        m.vals[obj as int] == word(a),
    ensures
        computes(
            ops,
            m,
            base,
            inits_code(vars.env(), st, ts, obj, fs, i, line)->Ok_0,
            Some(obj),
            eval_inits(ts, a, fs, i, vars),
            vars.around,
        ),
    decreases fs, fs.len() - i,
{
    let env = vars.env();
    let around = vars.around;
    let end = inits_code(env, st, ts, obj, fs, i, line)->Ok_0;
    let ev = eval_inits(ts, a, fs, i, vars);
    lemma_inits_parts(env, st, ts, obj, fs, i, line);
    if i >= fs.len() {
        lemma_leads_here(ops, m);
        lemma_value(ops, m, base, end, obj, a, vars, around, m);
    } else {
        let e = fs[i as int].1;
        let k = fs[i as int].2;
        let ty = ts[k as int];
        let (s, v) = scalar_code(env, st, e)->Ok_0;
        let s2 = store_field(s, ty, v, obj, place(ts, k));
        lemma_part(ops, end, s2, around);
        lemma_part(ops, s2, s, around);
        lemma_eq_inits(ts, a, fs, i, vars);
        law_scalar(ops, m, st, e, vars);
        if let Eval::Value(x, vars1) = worth(eval(e, vars)) {
            let m1 = after(ops, m, st, s, v, x, vars1, around);
            assert(reached(ops, m, st, s, m1, vars1, around));
            assert(m1.vals[obj as int] == m.vals[obj as int]);
            law_store_field(ops, m1, s, ty, v, obj, place(ts, k), x, a);
            let w = put_value(vars1.world, ty, beyond(a, place(ts, k) as int), x);
            lemma_stored(ops, m, m1, st, s, s2, w, vars1);
            let m2 = choose|m2: Machine| #[trigger]
                reached(ops, m, st, s2, m2, vars1.at(w), around) && keeps(
                    m2,
                    m1,
                    s.f.ops.len() as int,
                );
            assert(m2.vals[obj as int] == m1.vals[obj as int]);
            assert(calm(s2, st)) by {
                lemma_calm();
            }
            lemma_calm_placed(ops, m, st, vars, m2, s2, vars1.at(w));
            law_inits(ops, m2, base, s2, ts, obj, fs, i + 1, line, a, vars1.at(w));
            if is_value(ty) {
                lemma_then(ops, m, m2, base, base, end, Some(obj), ev, around);
            }
        } else {
            lemma_stops(ops, m, st, s, Some(v), ev, around, base, end, Some(obj));
        }
    }
}

/// A new object of the size that its parts take.
proof fn law_new_object(
    ops: Seq<Op>,
    m: Machine,
    st: LowView,
    ts: Seq<TypeView>,
    tag: i64,
    vars: Vars,
)
    requires
        placed(ops, m, st, vars),
        within(ops, crate::lower::new_object(st, ts, tag).0, vars.around),
        tag >= 0,
        0 <= layout_size(ts) <= u64::MAX,
    ensures
        calm(crate::lower::new_object(st, ts, tag).0, st),
        st.f.ops.len() <= crate::lower::new_object(st, ts, tag).0.f.ops.len(),
        crate::lower::new_object(st, ts, tag).1 < crate::lower::new_object(st, ts, tag).0.f.ops.len(),
        computes(
            ops,
            m,
            st,
            crate::lower::new_object(st, ts, tag).0,
            Some(crate::lower::new_object(st, ts, tag).1),
            lift(vars, fresh(new_object(vars.world, layout_size(ts) as nat, tag as nat))),
            vars.around,
        ),
{
    let around = vars.around;
    let (s, obj) = crate::lower::new_object(st, ts, tag);
    let (size, refs) = (layout_size(ts) as u64, refmap(ts));
    write_new_object(st, ts, tag);
    write_desc(st.g, KIND_STRUCT, size, refs);
    reveal(crate::lower::new_object);
    let (g, id) = desc(st.g, KIND_STRUCT, size, refs);
    let s0 = with_gen(st, g);
    assert((s, obj) == new_of(s0, id, tag));
    assert(s.g == g);
    lemma_part(ops, s, st, around);
    assert(around.g.datas[id as int] == desc_data(KIND_STRUCT, size, refs)) by {
        reveal(more_unit);
        reveal(fuller);
    }
    law_new_of(ops, m, s0, id, tag);
    let r = fresh(new_object(vars.world, layout_size(ts) as nat, tag as nat));
    lemma_lift(ops, m, s0, s, obj, r, vars);
    lemma_leads_here(ops, m);
    lemma_then(ops, m, m, st, s0, s, Some(obj), lift(vars, r), around);
}

proof fn lemma_size(ts: Seq<TypeView>)
    requires
        layable(ts),
    ensures
        0 <= layout_size(ts) <= u64::MAX,
{
    crate::types::lemma_layout_bound(ts);
}

/// A struct literal makes a new object, with its fields in source order.
pub proof fn law_struct(ops: Seq<Op>, m: Machine, st: LowView, e: ExprView, vars: Vars)
    requires
        e.kind is StructLit,
        placed(ops, m, st, vars),
        gen_expr(vars.env(), st, e) is Ok,
        within(ops, gen_expr(vars.env(), st, e)->Ok_0.0, vars.around),
    ensures
        computes(
            ops,
            m,
            st,
            gen_expr(vars.env(), st, e)->Ok_0.0,
            gen_expr(vars.env(), st, e)->Ok_0.1,
            eval(e, vars),
            vars.around,
        ),
    decreases e, 8int,
{
    let env = vars.env();
    let fields = e.kind->StructLit_fields;
    let sid = e.kind->StructLit_struct_id;
    let ts = struct_types(env.checked, sid, e.ty->Struct_1);
    let (s, v) = gen_struct(env, st, fields, sid, e.ty, e.line)->Ok_0;
    let (s1, obj) = crate::lower::new_object(st, ts, 0);
    assert(eval(e, vars) == eval_literal(e, vars)) by {
        reveal(eval);
    }
    assert(inits_code(env, s1, ts, obj, fields, 0, e.line) == gen_inits(
        env,
        s1,
        ts,
        obj,
        fields,
        0,
        e.line,
    )) by {
        reveal(inits_code);
    }
    law_object(ops, m, st, ts, 0, fields, e.line, s, vars);
    assert(eval_literal(e, vars) == filled(ts, 0, fields, vars)) by {
        reveal(eval);
    }
}

/// A new object with these fields.
pub open spec fn filled(
    ts: Seq<TypeView>,
    tag: nat,
    fs: Seq<(Seq<char>, ExprView, u32)>,
    vars: Vars,
) -> Eval {
    match new_object(vars.world, layout_size(ts) as nat, tag) {
        None => Eval::Unfinished,
        Some((a, w)) => eval_inits(ts, a, fs, 0, vars.at(w)),
    }
}

proof fn law_object(
    ops: Seq<Op>,
    m: Machine,
    st: LowView,
    ts: Seq<TypeView>,
    tag: i64,
    fs: Seq<(Seq<char>, ExprView, u32)>,
    line: u32,
    s: LowView,
    vars: Vars,
)
    requires
        placed(ops, m, st, vars),
        layable(ts),
        tag >= 0,
        inits_code(
            vars.env(),
            crate::lower::new_object(st, ts, tag).0,
            ts,
            crate::lower::new_object(st, ts, tag).1,
            fs,
            0,
            line,
        ) == Ok::<LowView, Seq<char>>(s),
        within(ops, s, vars.around),
    ensures
        computes(
            ops,
            m,
            st,
            s,
            Some(crate::lower::new_object(st, ts, tag).1),
            filled(ts, tag as nat, fs, vars),
            vars.around,
        ),
    decreases fs, fs.len() + 1,
{
    let env = vars.env();
    let around = vars.around;
    let (s1, obj) = crate::lower::new_object(st, ts, tag);
    lemma_inits_parts(env, s1, ts, obj, fs, 0, line);
    lemma_part(ops, s, s1, around);
    lemma_size(ts);
    law_new_object(ops, m, st, ts, tag, vars);
    let r = new_object(vars.world, layout_size(ts) as nat, tag as nat);
    if let Some((a, w)) = r {
        let vars1 = vars.at(w);
        let m1 = after(ops, m, st, s1, obj, a, vars1, around);
        assert(lift(vars, fresh(r)) == Eval::Value(a, vars1));
        assert(reached(ops, m, st, s1, m1, vars1, around));
        lemma_calm_placed(ops, m, st, vars, m1, s1, vars1);
        law_inits(ops, m1, s1, s1, ts, obj, fs, 0, line, a, vars1);
        lemma_then(ops, m, m1, st, s1, s, Some(obj), eval_inits(ts, a, fs, 0, vars1), around);
    }
}

/// A variant literal makes a new object with the variant's tag; one without a
/// payload is a static object.
pub proof fn law_variant(ops: Seq<Op>, m: Machine, st: LowView, e: ExprView, vars: Vars)
    requires
        e.kind is VariantLit,
        placed(ops, m, st, vars),
        gen_expr(vars.env(), st, e) is Ok,
        within(ops, gen_expr(vars.env(), st, e)->Ok_0.0, vars.around),
    ensures
        computes(
            ops,
            m,
            st,
            gen_expr(vars.env(), st, e)->Ok_0.0,
            gen_expr(vars.env(), st, e)->Ok_0.1,
            eval(e, vars),
            vars.around,
        ),
    decreases e, 8int,
{
    let env = vars.env();
    let args = e.kind->VariantLit_args;
    let eid = e.kind->VariantLit_enum_id;
    let tag = e.kind->VariantLit_tag;
    let ts = variant_types(env.checked, eid, e.ty->Enum_1, tag);
    let (s, v) = gen_variant(env, st, args, eid, tag, e.ty, e.line)->Ok_0;
    assert(eval(e, vars) == eval_literal(e, vars)) by {
        reveal(eval);
    }
    match args {
        VariantArgsView::Bare => {
            let n = st.f.ops.len() as int;
            let (g, id) = bare_variant(st.g, eid, tag);
            write_bare_variant(st.g, eid, tag);
            assert(find_bare(vars.around.g.bare, eid, tag, 0) == Some(id)) by {
                reveal(more_unit);
                reveal(fuller);
                lemma_bare_more(g.bare, vars.around.g.bare, eid, tag, 0);
            }
            assert(ops[n] == s.f.ops[n]);
            lemma_word(vars.around.data(id));
            lemma_single(ops, m, st, s, vars.around.data(id), vars);
            assert(eval_literal(e, vars) == Eval::Value(vars.around.data(id), vars)) by {
                reveal(eval);
            }
        },
        VariantArgsView::Single(a) => {
            let (s1, x) = gen_scalar(env, st, *a)->Ok_0;
            assert(scalar_code(env, st, *a) == gen_scalar(env, st, *a)) by {
                reveal(scalar_code);
            }
            lemma_payload(ops, m, st, e, *a, ts, tag, s1, x, s, v, vars);
        },
        VariantArgsView::Fields(fs) => {
            let (s1, obj) = crate::lower::new_object(st, ts, tag as i64);
            assert(inits_code(env, s1, ts, obj, fs, 0, e.line) == gen_inits(
                env,
                s1,
                ts,
                obj,
                fs,
                0,
                e.line,
            )) by {
                reveal(inits_code);
            }
            law_object(ops, m, st, ts, tag as i64, fs, e.line, s, vars);
            assert(eval_literal(e, vars) == filled(ts, tag as nat, fs, vars)) by {
                reveal(eval);
            }
        },
    }
}

/// A new variant with this payload.
pub open spec fn tagged(ts: Seq<TypeView>, tag: u32, x: int, vars: Vars) -> Eval {
    if !is_value(ts[0]) {
        Eval::Unfinished
    } else {
        match new_object(vars.world, layout_size(ts) as nat, tag as nat) {
            None => Eval::Unfinished,
            Some((a, w)) => Eval::Value(
                a,
                vars.at(put_value(w, ts[0], beyond(a, place(ts, 0) as int), x)),
            ),
        }
    }
}

proof fn lemma_eq_payload(e: ExprView, arg: ExprView, ts: Seq<TypeView>, tag: u32, vars: Vars)
    requires
        e.kind is VariantLit,
        e.kind->VariantLit_args == VariantArgsView::Single(Box::new(arg)),
        e.kind->VariantLit_tag == tag,
        ts == variant_types(
            vars.env().checked,
            e.kind->VariantLit_enum_id,
            e.ty->Enum_1,
            tag,
        ),
    ensures
        eval_literal(e, vars) == (match worth(eval(arg, vars)) {
            Eval::Value(x, vars1) => tagged(ts, tag, x, vars1),
            other => other,
        }),
{
    reveal(eval);
}

/// The payload is evaluated first, and then put into the new object.
#[verifier::rlimit(40)]
proof fn lemma_payload(
    ops: Seq<Op>,
    m: Machine,
    st: LowView,
    e: ExprView,
    arg: ExprView,
    ts: Seq<TypeView>,
    tag: u32,
    s1: LowView,
    x: usize,
    s: LowView,
    v: usize,
    vars: Vars,
)
    requires
        e.kind is VariantLit,
        e.kind->VariantLit_args == VariantArgsView::Single(Box::new(arg)),
        e.kind->VariantLit_tag == tag,
        ts == variant_types(
            vars.env().checked,
            e.kind->VariantLit_enum_id,
            e.ty->Enum_1,
            tag,
        ),
        layable(ts),
        ts.len() == 1,
        placed(ops, m, st, vars),
        scalar_code(vars.env(), st, arg) == Ok::<(LowView, usize), Seq<char>>((s1, x)),
        v == crate::lower::new_object(s1, ts, tag as i64).1,
        s == store_field(
            crate::lower::new_object(s1, ts, tag as i64).0,
            ts[0],
            x,
            v,
            place(ts, 0),
        ),
        within(ops, s, vars.around),
    ensures
        computes(ops, m, st, s, Some(v), eval_literal(e, vars), vars.around),
    decreases e, 7int,
{
    let around = vars.around;
    let (s2, _) = crate::lower::new_object(s1, ts, tag as i64);
    write_store_field(s2, ts[0], x, v, place(ts, 0));
    lemma_part(ops, s, s2, around);
    write_new_object(s1, ts, tag as i64);
    lemma_part(ops, s2, s1, around);
    lemma_eq_payload(e, arg, ts, tag, vars);
    assert(decreases_to!(e => arg));
    law_scalar(ops, m, st, arg, vars);
    if let Eval::Value(y, vars1) = worth(eval(arg, vars)) {
        let m1 = after(ops, m, st, s1, x, y, vars1, around);
        assert(reached(ops, m, st, s1, m1, vars1, around));
        lemma_calm_placed(ops, m, st, vars, m1, s1, vars1);
        lemma_size(ts);
        law_new_object(ops, m1, s1, ts, tag as i64, vars1);
        let r = new_object(vars1.world, layout_size(ts) as nat, tag as nat);
        if let Some((a, w)) = r {
            if is_value(ts[0]) {
                let vars2 = vars1.at(w);
                let m2 = after(ops, m1, s1, s2, v, a, vars2, around);
                assert(lift(vars1, fresh(r)) == Eval::Value(a, vars2));
                assert(reached(ops, m1, s1, s2, m2, vars2, around));
                assert(m2.vals[x as int] == m1.vals[x as int]);
                law_store_field(ops, m2, s2, ts[0], x, v, place(ts, 0), y, a);
                let w3 = put_value(w, ts[0], beyond(a, place(ts, 0) as int), y);
                lemma_stored(ops, m1, m2, s1, s2, s, w3, vars2);
                let m3 = choose|m3: Machine| #[trigger]
                    reached(ops, m1, s1, s, m3, vars2.at(w3), around) && keeps(
                        m3,
                        m2,
                        s2.f.ops.len() as int,
                    );
                assert(m3.vals[v as int] == m2.vals[v as int]);
                assert(vars2.at(w3) == vars1.at(w3));
                lemma_value(ops, m1, s1, s, v, a, vars1.at(w3), around, m3);
                lemma_then(ops, m, m1, st, s1, s, Some(v), tagged(ts, tag, y, vars1), around);
            }
        }
    } else {
        lemma_stops(ops, m, st, s1, Some(x), worth(eval(arg, vars)), around, st, s, Some(v));
    }
}

// -- What is captured is read -----------------------------------------------

/// The body of a closure reads in its slots what the captured variables held
/// when the closure was made: what is put there stays as the others are put.
pub proof fn law_captures_kept(a: int, cs: Seq<CaptureView>, i: nat, k: nat, vars: Vars)
    requires
        k < cs.len() <= 63,
        i <= cs.len(),
        0 < a < 0x4000_0000_0000_0000,
        fill(a, cs, i, vars) is Value,
    ensures
        ({
            let end = fill(a, cs, i, vars)->Value_1;
            &&& end.vals == vars.vals
            &&& k < i ==> fetch(end.world.mem, slot(a, k as int), 8) == fetch(
                vars.world.mem,
                slot(a, k as int),
                8,
            )
            &&& k >= i ==> (cs[k as int].src matches VarRes::Local(n) ==> fetch(
                end.world.mem,
                slot(a, k as int),
                8,
            ) == word(vars.vals[n as int]))
        }),
    decreases cs.len() - i,
{
    if i < cs.len() {
        let x = named(Some(cs[i as int].src), cs[i as int].ty, vars)->0;
        let w = put_slot(vars.world, slot(a, i as int), x);
        law_captures_kept(a, cs, i + 1, k, vars.at(w));
        lemma_word(a + (24 + 8 * i));
        lemma_word(a + (24 + 8 * k));
        law_load_stored(vars.world.mem, slot(a, i as int), 8, word(x) as nat);
        lemma_room();
        if k != i {
            assert forall|b: int|
                slot(a, k as int) <= b < slot(a, k as int) + 8 implies #[trigger] w.mem[b]
                == vars.world.mem[b] by {
                law_store_elsewhere(vars.world.mem, slot(a, i as int), 8, word(x) as nat, b);
            }
            lemma_load_same(w.mem, vars.world.mem, slot(a, k as int), 8);
        } else {
            assert(word(x) as nat % room(8) == word(x) as nat);
        }
    }
}

} // verus!
