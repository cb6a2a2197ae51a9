//! What lowering leaves of what was written: code is only added, and so are the
//! parts of the unit; no code switches to a block that was there before it.
use vstd::prelude::*;

use crate::ast::{
    BinOp, BlockView, Builtin, CaptureView, ExprKindView, ExprView, LambdaDefView, PatArgsView,
    PatBinderView, PatternView, StmtView, UnOp, VarRes, VariantArgsView,
};
use crate::ir::{BodyView, DataDefView, IntCC, IntOp, IrType, Op, Rt, SigView};
use crate::keeping::starts_with;
use crate::lower::{
    abi, add_data, add_string, arith, array_new, array_pop, array_push, bare_data, bare_variant,
    binary_values, bind_body, bind_fields, bind_func, bind_one, bind_pattern, bound_method,
    builtin_value, call_closure, call_result, callee_of, captured, cast, cast_float, cast_int,
    check_overflow, checked_arith, closure, compare, desc, desc_data, divide, divide_signed,
    elem_word, enter_loop, field_value, find_bare, find_desc, find_inst, find_lambda, flow_to,
    gen_arms, gen_array, gen_assign_elem, gen_assign_field, gen_assign_local, gen_binary, gen_block,
    gen_block_arms, gen_builtin, gen_call, gen_elems, gen_expr, gen_for, gen_for_cond, gen_if,
    gen_if_stmt, gen_index, gen_inits, gen_list, gen_match, gen_opt_stmt, gen_return, gen_scalar,
    gen_stmt, gen_stmt_match, gen_stmts, gen_struct, gen_variant, gen_while, index_addr,
    index_value, inst_func, int_arith, is_comparison, le8, leave_loop, load_typed, make_sig,
    match_key, new_object, new_of, next, pattern_const, place, plain_op, print_fn, put, put_args,
    refmap, rooted, rt1, rt2, rt3, rt4, shapes_of, shift, signed_type, start, store_captures,
    store_elem, store_field, store_word, string_data, struct_ok, struct_types, test_arm,
    unary_value, unwrap_value, value_of, variable, variant_ok, variant_types, with_gen,
    with_terminated, FnView, GenView, InstKeyView, LowEnv, LowView, AUX, HEADER, KIND_STRUCT,
};
use crate::mono::Shape;
use crate::types::{layout_size, IntKind, TypeView};

use crate::typing::internal;

verus! {

// -- The relations ----------------------------------------------------------

/// The code goes on from what was written, and switches only to blocks that
/// it made itself.
pub open spec fn goes_on(end: LowView, st: LowView) -> bool {
    &&& starts_with(end.f.ops, st.f.ops)
    &&& forall|i: int|
        st.f.ops.len() <= i < end.f.ops.len() ==> match #[trigger] end.f.ops[i] {
            Op::SwitchTo(b) => b >= st.f.ops.len(),
            _ => true,
        }
}

/// Are the descriptors and bare variants that the unit lists where it says?
pub open spec fn tidy(g: GenView) -> bool {
    g.datas.len() <= usize::MAX ==> {
        &&& forall|i: int|
            0 <= i < g.descs.len() ==> (#[trigger] g.descs[i]).3 < g.datas.len()
                && g.datas[g.descs[i].3 as int] == desc_data(
                g.descs[i].0,
                g.descs[i].1,
                g.descs[i].2,
            )
        &&& forall|i: int|
            0 <= i < g.bare.len() ==> (#[trigger] g.bare[i]).2 < g.datas.len()
                && g.datas[g.bare[i].2 as int].bytes == le8(0) + le8(g.bare[i].1 as u64)
    }
}

/// Has the unit all that the earlier one had, but for what is scheduled?
#[verifier::opaque]
pub open spec fn fuller(b: GenView, a: GenView) -> bool {
    &&& starts_with(b.funcs, a.funcs)
    &&& starts_with(b.datas, a.datas)
    &&& starts_with(b.bodies, a.bodies)
    &&& starts_with(b.insts, a.insts)
    &&& starts_with(b.binds, a.binds)
    &&& starts_with(b.bare, a.bare)
    &&& tidy(a) ==> tidy(b)
}

/// Is this the body of an adapter that calls a bound method?
pub open spec fn is_bind(b: BodyView) -> bool {
    exists|func: usize, sig: SigView| b == #[trigger] bind_body(b.func, func, sig)
}

/// Are the bodies and the scheduled functions that the earlier unit had not of
/// new symbols, each of its own, and is every new instantiation scheduled?
#[verifier::opaque]
pub open spec fn fresh(b: GenView, a: GenView) -> bool {
    &&& forall|i: int|
        a.bodies.len() <= i < b.bodies.len() ==> a.funcs.len() <= (#[trigger] b.bodies[i]).func
            < b.funcs.len() && is_bind(b.bodies[i])
    &&& forall|i: int|
        a.work.len() <= i < b.work.len() ==> a.funcs.len() <= (#[trigger] b.work[i]).func
            < b.funcs.len()
    &&& forall|i: int, j: int|
        a.bodies.len() <= i < j < b.bodies.len() ==> (#[trigger] b.bodies[i]).func != (
        #[trigger] b.bodies[j]).func
    &&& forall|i: int, j: int|
        a.work.len() <= i < j < b.work.len() ==> (#[trigger] b.work[i]).func != (
        #[trigger] b.work[j]).func
    &&& forall|i: int, j: int|
        a.bodies.len() <= i < b.bodies.len() && a.work.len() <= j < b.work.len() ==> (
        #[trigger] b.bodies[i]).func != (#[trigger] b.work[j]).func
    &&& forall|k: int|
        a.insts.len() <= k < b.insts.len() ==> planned(
            b,
            #[trigger] b.insts[k],
            a.work.len() as int,
        )
}

/// Is the instantiation scheduled, at an index from `from` on?
pub open spec fn planned(g: GenView, key: InstKeyView, from: int) -> bool {
    exists|j: int| from <= j < g.work.len() && #[trigger] g.work[j] == key
}

/// Has the unit all that the earlier one had, and nothing more that stands in
/// its way?
#[verifier::opaque]
pub open spec fn more_unit(b: GenView, a: GenView) -> bool {
    &&& fuller(b, a)
    &&& starts_with(b.work, a.work)
    &&& b.funcs.len() <= usize::MAX ==> fresh(b, a)
}

/// Code was added, in the same loops.
#[verifier::opaque]
pub open spec fn wrote(end: LowView, st: LowView) -> bool {
    &&& st.f.ops.len() <= end.f.ops.len()
    &&& end.f.ops.len() <= usize::MAX ==> goes_on(end, st)
    &&& end.f.loops == st.f.loops
    &&& starts_with(end.f.floats, st.f.floats)
    &&& end.f.floats.len() - st.f.floats.len() <= end.f.ops.len() - st.f.ops.len()
    &&& more_unit(end.g, st.g)
}

/// Code was added that leaves no block.
#[verifier::opaque]
pub open spec fn calm(end: LowView, st: LowView) -> bool {
    wrote(end, st) && end.f.terminated == st.f.terminated
}

/// May the instruction follow the code that was added to `st`?
pub open spec fn may_follow(op: Op, s: LowView, st: LowView) -> bool {
    op matches Op::SwitchTo(b) ==> b >= st.f.ops.len() || s.f.ops.len() >= usize::MAX
}

pub proof fn lemma_starts_on<T>(a: Seq<T>, b: Seq<T>, c: Seq<T>)
    requires
        starts_with(b, a),
        starts_with(c, b),
    ensures
        starts_with(c, a),
{
    assert forall|i: int| 0 <= i < a.len() implies #[trigger] c[i] == a[i] by {
        assert(b[i] == a[i]);
    }
}

pub proof fn lemma_fuller_on(a: GenView, b: GenView, c: GenView)
    requires
        fuller(b, a),
        fuller(c, b),
    ensures
        fuller(c, a),
{
    reveal(fuller);
    lemma_starts_on(a.funcs, b.funcs, c.funcs);
    lemma_starts_on(a.datas, b.datas, c.datas);
    lemma_starts_on(a.bodies, b.bodies, c.bodies);
    lemma_starts_on(a.insts, b.insts, c.insts);
    lemma_starts_on(a.binds, b.binds, c.binds);
    lemma_starts_on(a.bare, b.bare, c.bare);
}

pub proof fn lemma_more_is_fuller(b: GenView, a: GenView)
    requires
        more_unit(b, a),
    ensures
        fuller(b, a),
{
    reveal(more_unit);
}

proof fn lemma_fresh_on(a: GenView, b: GenView, c: GenView)
    requires
        fuller(b, a),
        fuller(c, b),
        starts_with(b.work, a.work),
        starts_with(c.work, b.work),
        fresh(b, a),
        fresh(c, b),
    ensures
        fresh(c, a),
{
    reveal(fresh);
    reveal(fuller);
    assert forall|i: int| a.bodies.len() <= i < c.bodies.len() implies a.funcs.len() <= (
    #[trigger] c.bodies[i]).func < c.funcs.len() && is_bind(c.bodies[i]) && (i < b.bodies.len()
        ==> c.bodies[i].func < b.funcs.len()) by {
        if i < b.bodies.len() {
            assert(c.bodies[i] == b.bodies[i]);
        }
    }
    assert forall|i: int| a.work.len() <= i < c.work.len() implies a.funcs.len() <= (
    #[trigger] c.work[i]).func < c.funcs.len() && (i < b.work.len() ==> c.work[i].func
        < b.funcs.len()) by {
        if i < b.work.len() {
            assert(c.work[i] == b.work[i]);
        }
    }
    assert forall|i: int, j: int| a.bodies.len() <= i < j < c.bodies.len() implies (
    #[trigger] c.bodies[i]).func != (#[trigger] c.bodies[j]).func by {
        if j < b.bodies.len() {
            assert(c.bodies[i] == b.bodies[i] && c.bodies[j] == b.bodies[j]);
        }
    }
    assert forall|i: int, j: int| a.work.len() <= i < j < c.work.len() implies (
    #[trigger] c.work[i]).func != (#[trigger] c.work[j]).func by {
        if j < b.work.len() {
            assert(c.work[i] == b.work[i] && c.work[j] == b.work[j]);
        }
    }
    assert forall|i: int, j: int|
        a.bodies.len() <= i < c.bodies.len() && a.work.len() <= j < c.work.len() implies (
    #[trigger] c.bodies[i]).func != (#[trigger] c.work[j]).func by {
        if i < b.bodies.len() && j < b.work.len() {
            assert(c.bodies[i] == b.bodies[i] && c.work[j] == b.work[j]);
        }
    }
    assert forall|k: int| a.insts.len() <= k < c.insts.len() implies planned(
        c,
        #[trigger] c.insts[k],
        a.work.len() as int,
    ) by {
        if k < b.insts.len() {
            assert(c.insts[k] == b.insts[k]);
            assert(planned(b, b.insts[k], a.work.len() as int));
            let j = choose|j: int|
                a.work.len() <= j < b.work.len() && #[trigger] b.work[j] == b.insts[k];
            assert(c.work[j] == b.work[j]);
        }
    }
}

pub proof fn lemma_more_unit_on(a: GenView, b: GenView, c: GenView)
    requires
        more_unit(b, a),
        more_unit(c, b),
    ensures
        more_unit(c, a),
{
    reveal(more_unit);
    lemma_fuller_on(a, b, c);
    lemma_starts_on(a.work, b.work, c.work);
    if c.funcs.len() <= usize::MAX {
        assert(b.funcs.len() <= c.funcs.len()) by {
            reveal(fuller);
        }
        lemma_fresh_on(a, b, c);
    }
}

pub proof fn lemma_goes_on_more(a: LowView, b: LowView, c: LowView)
    requires
        goes_on(b, a),
        goes_on(c, b),
    ensures
        goes_on(c, a),
{
    lemma_starts_on(a.f.ops, b.f.ops, c.f.ops);
    assert forall|i: int| a.f.ops.len() <= i < c.f.ops.len() implies match #[trigger] c.f.ops[i] {
        Op::SwitchTo(t) => t >= a.f.ops.len(),
        _ => true,
    } by {
        if i < b.f.ops.len() {
            assert(c.f.ops[i] == b.f.ops[i]);
        }
    }
}

proof fn lemma_wrote_on(a: LowView, b: LowView, c: LowView)
    requires
        wrote(b, a),
        wrote(c, b),
    ensures
        wrote(c, a),
{
    reveal(wrote);
    lemma_starts_on(a.f.floats, b.f.floats, c.f.floats);
    lemma_more_unit_on(a.g, b.g, c.g);
    if c.f.ops.len() <= usize::MAX {
        lemma_goes_on_more(a, b, c);
    }
}

proof fn lemma_wrote_put(s: LowView, st: LowView, op: Op)
    requires
        wrote(s, st),
        may_follow(op, s, st),
    ensures
        wrote(put(s, op), st),
{
    reveal(wrote);
    let end = put(s, op);
    if end.f.ops.len() <= usize::MAX {
        assert forall|i: int| 0 <= i < st.f.ops.len() implies #[trigger] end.f.ops[i]
            == st.f.ops[i] by {
            assert(s.f.ops[i] == st.f.ops[i]);
        }
        assert forall|i: int| st.f.ops.len() <= i < end.f.ops.len() implies match #[trigger] end.f.ops[i] {
            Op::SwitchTo(b) => b >= st.f.ops.len(),
            _ => true,
        } by {
            if i < s.f.ops.len() {
                assert(end.f.ops[i] == s.f.ops[i]);
            }
        }
    }
}

proof fn lemma_same_unit(g: GenView)
    ensures
        more_unit(g, g),
{
    reveal(more_unit);
    reveal(fuller);
    reveal(fresh);
}

/// What holds of added code, for every state.
pub proof fn lemma_wrote()
    ensures
        forall|a: LowView| #[trigger] wrote(a, a),
        forall|a: LowView, b: LowView, c: LowView| #[trigger]
            wrote(c, b) && #[trigger] wrote(b, a) ==> wrote(c, a),
        forall|a: LowView, b: LowView| #[trigger] wrote(b, a) ==> a.f.ops.len() <= b.f.ops.len(),
        forall|s: LowView, st: LowView, op: Op| #[trigger]
            wrote(s, st) && may_follow(op, s, st) ==> wrote(#[trigger] put(s, op), st),
        forall|s: LowView, st: LowView, t: bool| #[trigger]
            wrote(s, st) ==> wrote(#[trigger] with_terminated(s, t), st),
        forall|s: LowView, st: LowView| #[trigger] calm(s, st) ==> wrote(s, st),
        forall|s: LowView, a: LowView, x: usize, y: usize| #[trigger]
            wrote(s, enter_loop(a, x, y)) ==> wrote(leave_loop(s), a),
{
    reveal(wrote);
    reveal(calm);
    assert forall|a: LowView| #[trigger] wrote(a, a) by {
        lemma_same_unit(a.g);
    }
    assert forall|a: LowView, b: LowView, c: LowView| #[trigger] wrote(c, b) && #[trigger] wrote(
        b,
        a,
    ) implies wrote(c, a) by {
        lemma_wrote_on(a, b, c);
    }
    assert forall|s: LowView, st: LowView, op: Op| #[trigger] wrote(s, st) && may_follow(
        op,
        s,
        st,
    ) implies wrote(#[trigger] put(s, op), st) by {
        lemma_wrote_put(s, st, op);
    }
    assert forall|s: LowView, a: LowView, x: usize, y: usize| #[trigger] wrote(
        s,
        enter_loop(a, x, y),
    ) implies wrote(leave_loop(s), a) by {
        assert(a.f.loops.push((x, y)).drop_last() =~= a.f.loops);
    }
}

pub proof fn lemma_calm()
    ensures
        forall|a: LowView| #[trigger] calm(a, a),
        forall|a: LowView, b: LowView, c: LowView| #[trigger]
            calm(c, b) && #[trigger] calm(b, a) ==> calm(c, a),
        forall|a: LowView, b: LowView| #[trigger] calm(b, a) ==> a.f.ops.len() <= b.f.ops.len(),
        forall|s: LowView, st: LowView, op: Op| #[trigger]
            calm(s, st) && may_follow(op, s, st) ==> calm(#[trigger] put(s, op), st),
        forall|s: LowView, st: LowView, g: GenView| #[trigger]
            calm(s, st) && more_unit(g, s.g) ==> calm(#[trigger] with_gen(s, g), st),
{
    reveal(calm);
    lemma_wrote();
    assert forall|s: LowView, st: LowView, g: GenView| #[trigger] calm(s, st) && more_unit(
        g,
        s.g,
    ) implies calm(#[trigger] with_gen(s, g), st) by {
        reveal(wrote);
        lemma_more_unit_on(st.g, s.g, g);
    }
}

// -- The unit ---------------------------------------------------------------

proof fn lemma_find_desc(
    descs: Seq<(u64, u64, u64, usize)>,
    kind: u64,
    size: u64,
    refs: u64,
    i: nat,
)
    ensures
        find_desc(descs, kind, size, refs, i) matches Some(id) ==> exists|k: int|
            0 <= k < descs.len() && #[trigger] descs[k] == (kind, size, refs, id),
    decreases descs.len() - i,
{
    if i < descs.len() {
        lemma_find_desc(descs, kind, size, refs, i + 1);
        let d = descs[i as int];
        if d.0 == kind && d.1 == size && d.2 == refs {
            assert(descs[i as int] == (kind, size, refs, d.3));
        }
    }
}

pub proof fn write_desc(g: GenView, kind: u64, size: u64, refs: u64)
    ensures
        more_unit(desc(g, kind, size, refs).0, g),
        ({
            let (g1, id) = desc(g, kind, size, refs);
            tidy(g) && g1.datas.len() <= usize::MAX ==> id < g1.datas.len() && g1.datas[id as int]
                == desc_data(kind, size, refs)
        }),
{
    reveal(desc);
    reveal(more_unit);
    reveal(fuller);
    reveal(fresh);
    lemma_find_desc(g.descs, kind, size, refs, 0);
    let (g1, id) = desc(g, kind, size, refs);
    if find_desc(g.descs, kind, size, refs, 0) is None {
        lemma_added(g, desc_data(kind, size, refs));
        if tidy(g) && g1.datas.len() <= usize::MAX {
            assert forall|i: int| 0 <= i < g1.descs.len() implies (#[trigger] g1.descs[i]).3
                < g1.datas.len() && g1.datas[g1.descs[i].3 as int] == desc_data(
                g1.descs[i].0,
                g1.descs[i].1,
                g1.descs[i].2,
            ) by {
                if i < g.descs.len() {
                    assert(g1.descs[i] == g.descs[i]);
                }
            }
            assert forall|i: int| 0 <= i < g1.bare.len() implies (#[trigger] g1.bare[i]).2
                < g1.datas.len() && g1.datas[g1.bare[i].2 as int].bytes == le8(0) + le8(
                g1.bare[i].1 as u64,
            ) by {
                assert(g1.bare[i] == g.bare[i]);
            }
        }
    }
}

/// One more data object.
pub proof fn lemma_added(g: GenView, d: DataDefView)
    ensures
        more_unit(add_data(g, d), g),
        add_data(g, d).datas[g.datas.len() as int] == d,
{
    reveal(more_unit);
    reveal(fuller);
    reveal(fresh);
    let g1 = add_data(g, d);
    if tidy(g) && g1.datas.len() <= usize::MAX {
        assert forall|i: int| 0 <= i < g1.descs.len() implies (#[trigger] g1.descs[i]).3
            < g1.datas.len() && g1.datas[g1.descs[i].3 as int] == desc_data(
            g1.descs[i].0,
            g1.descs[i].1,
            g1.descs[i].2,
        ) by {
            assert(g1.descs[i] == g.descs[i]);
        }
        assert forall|i: int| 0 <= i < g1.bare.len() implies (#[trigger] g1.bare[i]).2
            < g1.datas.len() && g1.datas[g1.bare[i].2 as int].bytes == le8(0) + le8(
            g1.bare[i].1 as u64,
        ) by {
            assert(g1.bare[i] == g.bare[i]);
        }
    }
}

pub proof fn write_add_string(g: GenView, s: Seq<char>)
    ensures
        more_unit(add_string(g, s).0, g),
        ({
            let (g1, id) = add_string(g, s);
            g1.datas.len() <= usize::MAX ==> id < g1.datas.len() && g1.datas[id as int]
                == string_data(s, g.strs.len())
        }),
{
    reveal(add_string);
    lemma_added(g, string_data(s, g.strs.len()));
    reveal(more_unit);
    reveal(fuller);
    reveal(fresh);
}

proof fn lemma_find_bare(bare: Seq<(u32, u32, usize)>, eid: u32, tag: u32, i: nat)
    ensures
        find_bare(bare, eid, tag, i) matches Some(id) ==> exists|k: int|
            0 <= k < bare.len() && #[trigger] bare[k] == (eid, tag, id),
    decreases bare.len() - i,
{
    if i < bare.len() {
        lemma_find_bare(bare, eid, tag, i + 1);
        let d = bare[i as int];
        if d.0 == eid && d.1 == tag {
            assert(bare[i as int] == (eid, tag, d.2));
        }
    }
}

proof fn lemma_bare_pushed(bare: Seq<(u32, u32, usize)>, eid: u32, tag: u32, id: usize, i: nat)
    requires
        i <= bare.len(),
        find_bare(bare, eid, tag, i) is None,
    ensures
        find_bare(bare.push((eid, tag, id)), eid, tag, i) == Some(id),
    decreases bare.len() - i,
{
    if i < bare.len() {
        assert(bare.push((eid, tag, id))[i as int] == bare[i as int]);
        lemma_bare_pushed(bare, eid, tag, id, i + 1);
    }
}

/// A bare variant that is listed is found in a longer list too.
pub proof fn lemma_bare_more(
    a: Seq<(u32, u32, usize)>,
    b: Seq<(u32, u32, usize)>,
    eid: u32,
    tag: u32,
    i: nat,
)
    requires
        starts_with(b, a),
        find_bare(a, eid, tag, i) is Some,
    ensures
        find_bare(b, eid, tag, i) == find_bare(a, eid, tag, i),
    decreases a.len() - i,
{
    assert(b[i as int] == a[i as int]);
    if !(a[i as int].0 == eid && a[i as int].1 == tag) {
        lemma_bare_more(a, b, eid, tag, i + 1);
    }
}

pub proof fn write_bare_variant(g: GenView, eid: u32, tag: u32)
    ensures
        more_unit(bare_variant(g, eid, tag).0, g),
        find_bare(bare_variant(g, eid, tag).0.bare, eid, tag, 0) == Some(
            bare_variant(g, eid, tag).1,
        ),
        ({
            let (g1, id) = bare_variant(g, eid, tag);
            tidy(g) && g1.datas.len() <= usize::MAX ==> id < g1.datas.len() && g1.datas[id as int].bytes
                == le8(0) + le8(tag as u64)
        }),
{
    reveal(bare_variant);
    lemma_find_bare(g.bare, eid, tag, 0);
    lemma_same_unit(g);
    let (g2, id) = bare_variant(g, eid, tag);
    if find_bare(g.bare, eid, tag, 0) is None {
        let (g1, d) = desc(g, KIND_STRUCT, 0, 0);
        write_desc(g, KIND_STRUCT, 0, 0);
        let data = bare_data(eid, tag, d);
        lemma_added(g1, data);
        let g3 = add_data(g1, data);
        lemma_more_unit_on(g, g1, g3);
        reveal(more_unit);
        reveal(fuller);
        reveal(fresh);
        assert(g2 == (GenView { bare: g3.bare.push((eid, tag, id)), ..g3 }));
        if g3.funcs.len() <= usize::MAX {
            assert forall|k: int| g.insts.len() <= k < g2.insts.len() implies planned(
                g2,
                #[trigger] g2.insts[k],
                g.work.len() as int,
            ) by {
                assert(planned(g3, g3.insts[k], g.work.len() as int));
                let j = choose|j: int|
                    g.work.len() <= j < g3.work.len() && #[trigger] g3.work[j] == g3.insts[k];
                assert(g2.work[j] == g2.insts[k]);
            }
        }
        assert(g3.bare == g.bare) by {
            reveal(desc);
        }
        lemma_bare_pushed(g.bare, eid, tag, id, 0);
        if tidy(g) && g2.datas.len() <= usize::MAX {
            assert(tidy(g3));
            assert forall|i: int| 0 <= i < g2.bare.len() implies (#[trigger] g2.bare[i]).2
                < g2.datas.len() && g2.datas[g2.bare[i].2 as int].bytes == le8(0) + le8(
                g2.bare[i].1 as u64,
            ) by {
                if i < g3.bare.len() {
                    assert(g2.bare[i] == g3.bare[i]);
                }
            }
            assert forall|i: int| 0 <= i < g2.descs.len() implies (#[trigger] g2.descs[i]).3
                < g2.datas.len() && g2.datas[g2.descs[i].3 as int] == desc_data(
                g2.descs[i].0,
                g2.descs[i].1,
                g2.descs[i].2,
            ) by {
                assert(g2.descs[i] == g3.descs[i]);
            }
        }
    }
}

pub proof fn write_inst_func(env: LowEnv, g: GenView, fid: u32, targs: Seq<TypeView>)
    ensures
        more_unit(inst_func(env, g, fid, targs).0, g),
        find_inst(inst_func(env, g, fid, targs).0.insts, fid, shapes_of(targs), 0) == Some(
            inst_func(env, g, fid, targs).1,
        ),
{
    reveal(inst_func);
    reveal(more_unit);
    reveal(fuller);
    reveal(fresh);
    let shapes = shapes_of(targs);
    if find_inst(g.insts, fid, shapes, 0) is None {
        let g1 = inst_func(env, g, fid, targs).0;
        lemma_find_pushed(g.insts, g1.insts.last(), 0);
        assert(g1.insts =~= g.insts.push(g1.insts.last()));
        assert(g1.work[g.work.len() as int] == g1.insts.last());
    }
}

proof fn lemma_find_pushed(insts: Seq<InstKeyView>, key: InstKeyView, i: nat)
    requires
        i <= insts.len(),
        find_inst(insts, key.fid, key.shapes, i) is None,
    ensures
        find_inst(insts.push(key), key.fid, key.shapes, i) == Some(key.func),
    decreases insts.len() - i,
{
    if i < insts.len() {
        assert(insts.push(key)[i as int] == insts[i as int]);
        lemma_find_pushed(insts, key, i + 1);
    }
}

/// What is found is found in a longer list too.
pub proof fn lemma_find_more(
    a: Seq<InstKeyView>,
    b: Seq<InstKeyView>,
    fid: u32,
    shapes: Seq<Shape>,
    i: nat,
)
    requires
        starts_with(b, a),
        find_inst(a, fid, shapes, i) is Some,
    ensures
        find_inst(b, fid, shapes, i) == find_inst(a, fid, shapes, i),
    decreases a.len() - i,
{
    assert(b[i as int] == a[i as int]);
    if !(a[i as int].fid == fid && a[i as int].shapes == shapes) {
        lemma_find_more(a, b, fid, shapes, i + 1);
    }
}

pub proof fn write_callee_of(env: LowEnv, g: GenView, fid: u32, inst: Seq<TypeView>, line: u32)
    ensures
        callee_of(env, g, fid, inst, line) matches Ok((g1, func)) ==> more_unit(g1, g)
            && symbol_of(env, g1.insts, fid, inst) == Some(func),
{
    reveal(callee_of);
    lemma_same_unit(g);
    write_inst_func(env, g, fid, inst);
}

/// The symbol of a function, or of its instantiation at these types.
pub open spec fn symbol_of(
    env: LowEnv,
    insts: Seq<InstKeyView>,
    fid: u32,
    inst: Seq<TypeView>,
) -> Option<usize> {
    if inst.len() == 0 {
        if fid < env.func_ids.len() {
            env.func_ids[fid as int]
        } else {
            None
        }
    } else {
        find_inst(insts, fid, shapes_of(inst), 0)
    }
}

pub proof fn write_bind_func(env: LowEnv, g: GenView, fid: u32, inst: Seq<TypeView>, line: u32)
    ensures
        bind_func(env, g, fid, inst, line) matches Ok((g1, func)) ==> more_unit(g1, g) && find_inst(
            g1.binds,
            fid,
            shapes_of(inst),
            0,
        ) == Some(func),
{
    reveal(bind_func);
    lemma_same_unit(g);
    write_callee_of(env, g, fid, inst, line);
    let shapes = shapes_of(inst);
    if bind_func(env, g, fid, inst, line) is Ok && find_inst(g.binds, fid, shapes, 0) is None {
        let (g1, func) = callee_of(env, g, fid, inst, line)->Ok_0;
        let (g2, id) = bind_func(env, g, fid, inst, line)->Ok_0;
        assert(more_unit(g2, g1)) by {
            reveal(more_unit);
            reveal(fuller);
            reveal(fresh);
        }
        lemma_more_unit_on(g, g1, g2);
        assert(g1.binds == g.binds) by {
            reveal(callee_of);
            reveal(inst_func);
        }
        lemma_find_pushed(g.binds, g2.binds.last(), 0);
        assert(g2.binds =~= g.binds.push(g2.binds.last()));
    }
}

// -- Instructions -----------------------------------------------------------

pub proof fn write_new_object(st: LowView, ts: Seq<TypeView>, aux: i64)
    ensures
        calm(new_object(st, ts, aux).0, st),
{
    lemma_calm();
    assert(calm(st, st));
    reveal(new_object);
    let (size, refs) = (layout_size(ts) as u64, refmap(ts));
    write_desc(st.g, KIND_STRUCT, size, refs);
    let (g, id) = desc(st.g, KIND_STRUCT, size, refs);
    assert(with_gen(st, g) == LowView { g, ..st });
    write_new_of(with_gen(st, g), id, aux);
}

pub proof fn write_bound_method(
    env: LowEnv,
    st: LowView,
    recv: usize,
    fid: u32,
    inst: Seq<TypeView>,
    line: u32,
)
    ensures
        bound_method(env, st, recv, fid, inst, line) matches Ok(r) ==> calm(r.0, st),
{
    lemma_calm();
    assert(calm(st, st));
    reveal(bound_method);
    write_bind_func(env, st.g, fid, inst, line);
    if let Ok((g1, func)) = bind_func(env, st.g, fid, inst, line) {
        let (g2, d) = desc(g1, KIND_STRUCT, 16, 2);
        write_desc(g1, KIND_STRUCT, 16, 2);
        lemma_more_unit_on(st.g, g1, g2);
        assert(with_gen(st, g2) == LowView { g: g2, ..st });
        let (s1, obj) = new_of(with_gen(st, g2), d, 0);
        write_new_of(with_gen(st, g2), d, 0);
        let s2 = put(s1, Op::FuncAddr(func));
        let s3 = put(s2, Op::Store(next(s1), obj, HEADER));
        write_store_field(s3, TypeView::Str, recv, obj, (HEADER + 8) as i32);
    }
}

pub proof fn write_call_closure(
    st: LowView,
    fty: TypeView,
    f: usize,
    args: Seq<usize>,
    ty: TypeView,
    line: u32,
)
    ensures
        call_closure(st, fty, f, args, ty, line) matches Ok(r) ==> calm(r.0, st),
{
    lemma_calm();
    assert(calm(st, st));
    reveal(call_closure);
    if let TypeView::Fn(params, ret) = fty {
        let s1 = put(st, Op::Load(IrType::I64, f, HEADER));
        let s2 = put_args(put(s1, Op::Arg(f)), args, 0);
        write_put_args(put(s1, Op::Arg(f)), args, 0);
        let s3 = LowView {
            f: FnView { sigs: s2.f.sigs.push(make_sig(params, *ret, true)), ..s2.f },
            ..s2
        };
        assert(calm(s3, s2)) by {
            reveal(calm);
            reveal(wrote);
            lemma_same_unit(s2.g);
        }
        let s4 = put(s3, Op::CallIndirect(s2.f.sigs.len() as usize, next(st)));
        write_call_result(s4, ty);
    }
}

pub proof fn write_store_captures(
    env: LowEnv,
    st: LowView,
    obj: usize,
    cs: Seq<CaptureView>,
    i: nat,
    line: u32,
)
    ensures
        store_captures(env, st, obj, cs, i, line) matches Ok(r) ==> calm(r, st),
    decreases cs.len() - i,
{
    lemma_calm();
    assert(calm(st, st));
    if i < cs.len() {
        let c = cs[i as int];
        let r = match c.src {
            VarRes::Local(n) => if n < env.locals {
                Ok((put(st, Op::UseVar(n as usize)), next(st)))
            } else {
                Err(internal(line))
            },
            VarRes::Captured(n) => captured(env, st, n, c.ty, line),
            VarRes::Func(_) => Err(internal(line)),
        };
        if let VarRes::Captured(n) = c.src {
            write_captured(env, st, n, c.ty, line);
        }
        if let Ok((s, v)) = r {
            let off = (HEADER + 8 * (i + 1)) as i32;
            write_store_word(s, c.ty, v, obj, off);
            write_store_captures(env, store_word(s, c.ty, v, obj, off), obj, cs, i + 1, line);
        }
    }
}

// -- Expressions ------------------------------------------------------------

pub proof fn write_gen_expr(env: LowEnv, st: LowView, e: ExprView)
    ensures
        gen_expr(env, st, e) matches Ok(r) ==> calm(r.0, st),
    decreases e, 9int,
{
    lemma_calm();
    assert(calm(st, st));
    let line = e.line;
    match e.kind {
        ExprKindView::Float(s) => {
            let s1 = LowView { f: FnView { floats: st.f.floats.push(s), ..st.f }, ..st };
            let s2 = put(s1, Op::Fconst(st.f.floats.len() as usize));
            assert(calm(s2, st)) by {
                reveal(calm);
                reveal(wrote);
                lemma_same_unit(st.g);
            }
        },
        ExprKindView::Str(s) => {
            write_add_string(st.g, s);
        },
        ExprKindView::Var { res, .. } => write_variable(env, st, res, e.ty, line),
        ExprKindView::Unary(op, sub) => {
            write_gen_scalar(env, st, *sub);
            if let Ok((s, v)) = gen_scalar(env, st, *sub) {
                write_unary_value(s, op, sub.ty, v, line);
            }
        },
        ExprKindView::Binary(_, _, _) => write_gen_binary(env, st, e),
        ExprKindView::If { .. } => write_gen_if(env, st, e),
        ExprKindView::Call { .. } => write_gen_call(env, st, e),
        ExprKindView::Builtin(b, args) => write_gen_builtin(env, st, b, args, line),
        ExprKindView::Field { obj, index, .. } => {
            write_gen_scalar(env, st, *obj);
            if let Ok((s, v)) = gen_scalar(env, st, *obj) {
                write_field_value(env, s, obj.ty, index, e.ty, v, line);
            }
        },
        ExprKindView::Index(_, _) => write_gen_index(env, st, e),
        ExprKindView::Cast(sub, _) => {
            write_gen_scalar(env, st, *sub);
            if let Ok((s, v)) = gen_scalar(env, st, *sub) {
                write_cast(s, sub.ty, e.ty, v, line);
            }
        },
        ExprKindView::ArrayLit(elems) => write_gen_array(env, st, elems, e.ty, line),
        ExprKindView::StructLit { fields, struct_id, .. } => {
            write_gen_struct(env, st, fields, struct_id, e.ty, line);
        },
        ExprKindView::VariantLit { args, enum_id, tag } => {
            write_gen_variant(env, st, args, enum_id, tag, e.ty, line);
        },
        ExprKindView::Match { .. } => write_gen_match(env, st, e),
        ExprKindView::Lambda(lam) => write_closure(env, st, *lam, line),
        ExprKindView::BoundMethod { obj, fid, inst } => {
            write_gen_scalar(env, st, *obj);
            if let Ok((s, v)) = gen_scalar(env, st, *obj) {
                write_bound_method(env, s, v, fid, inst, line);
            }
        },
        _ => {},
    }
}

pub proof fn write_gen_call(env: LowEnv, st: LowView, e: ExprView)
    ensures
        gen_call(env, st, e) matches Ok(r) ==> calm(r.0, st),
    decreases e, 8int,
{
    lemma_calm();
    assert(calm(st, st));
    let line = e.line;
    let callee = *e.kind->Call_callee;
    let args = e.kind->Call_args;
    let inst = e.kind->Call_inst;
    if e.kind is Call {
        match e.kind->Call_direct {
            Some(fid) => {
                write_gen_list(env, st, args, 0, Seq::empty());
                if let Ok((s1, vs)) = gen_list(env, st, args, 0, Seq::empty()) {
                    write_callee_of(env, s1.g, fid, inst, line);
                    if let Ok((g, func)) = callee_of(env, s1.g, fid, inst, line) {
                        write_put_args(with_gen(s1, g), vs, 0);
                        let s2 = put(put_args(with_gen(s1, g), vs, 0), Op::Call(func));
                        write_call_result(s2, e.ty);
                    }
                }
            },
            None => {
                write_gen_scalar(env, st, callee);
                if let Ok((s1, f)) = gen_scalar(env, st, callee) {
                    write_gen_list(env, s1, args, 0, Seq::empty());
                    if let Ok((s2, vs)) = gen_list(env, s1, args, 0, Seq::empty()) {
                        write_call_closure(s2, callee.ty, f, vs, e.ty, line);
                    }
                }
            },
        }
    }
}

pub proof fn write_gen_variant(
    env: LowEnv,
    st: LowView,
    args: VariantArgsView,
    eid: u32,
    tag: u32,
    ty: TypeView,
    line: u32,
)
    ensures
        gen_variant(env, st, args, eid, tag, ty, line) matches Ok(r) ==> calm(r.0, st),
    decreases args, 10int,
{
    lemma_calm();
    assert(calm(st, st));
    let targs = ty->Enum_1;
    let ts = variant_types(env.checked, eid, targs, tag);
    match args {
        VariantArgsView::Bare => {
            write_bare_variant(st.g, eid, tag);
        },
        VariantArgsView::Single(a) => {
            write_gen_scalar(env, st, *a);
            if let Ok((s1, v)) = gen_scalar(env, st, *a) {
                write_new_object(s1, ts, tag as i64);
                let (s2, obj) = new_object(s1, ts, tag as i64);
                write_store_field(s2, ts[0], v, obj, place(ts, 0));
            }
        },
        VariantArgsView::Fields(fs) => {
            write_new_object(st, ts, tag as i64);
            let (s1, obj) = new_object(st, ts, tag as i64);
            write_gen_inits(env, s1, ts, obj, fs, 0, line);
        },
    }
}

pub proof fn write_value_of(
    st: LowView,
    v: Option<usize>,
)
    ensures
        calm(value_of(st, v).0, st),
{
    lemma_calm();
    assert(calm(st, st));

}

pub proof fn write_rooted(
    st: LowView,
    t: TypeView,
    v: usize,
)
    ensures
        calm(rooted(st, t, v), st),
{
    lemma_calm();
    assert(calm(st, st));

}

pub proof fn write_rt1(
    st: LowView,
    rt: Rt,
    a: usize,
)
    ensures
        calm(rt1(st, rt, a).0, st),
{
    lemma_calm();
    assert(calm(st, st));

}

pub proof fn write_rt2(
    st: LowView,
    rt: Rt,
    a: usize,
    b: usize,
)
    ensures
        calm(rt2(st, rt, a, b).0, st),
{
    lemma_calm();
    assert(calm(st, st));
    write_rt1(put(st, Op::Arg(a)), rt, b);
}

pub proof fn write_rt3(
    st: LowView,
    rt: Rt,
    a: usize,
    b: usize,
    c: usize,
)
    ensures
        calm(rt3(st, rt, a, b, c).0, st),
{
    lemma_calm();
    assert(calm(st, st));
    write_rt2(put(st, Op::Arg(a)), rt, b, c);
}

pub proof fn write_rt4(
    st: LowView,
    rt: Rt,
    a: usize,
    b: usize,
    c: usize,
    d: usize,
)
    ensures
        calm(rt4(st, rt, a, b, c, d).0, st),
{
    lemma_calm();
    assert(calm(st, st));
    write_rt3(put(st, Op::Arg(a)), rt, b, c, d);
}

pub proof fn write_load_typed(
    st: LowView,
    ty: TypeView,
    base: usize,
    off: i32,
)
    ensures
        calm(load_typed(st, ty, base, off).0, st),
{
    lemma_calm();
    assert(calm(st, st));
    reveal(load_typed);

}

pub proof fn write_store_field(
    st: LowView,
    ty: TypeView,
    v: usize,
    obj: usize,
    off: i32,
)
    ensures
        calm(store_field(st, ty, v, obj, off), st),
{
    lemma_calm();
    assert(calm(st, st));
    reveal(store_field);
    if ty.is_reference() {
        write_rt3( put(st, Op::IntImm(IntOp::Add, obj, off as i64)), Rt::WriteRef, obj, next(st), v, );
    }
}

pub proof fn write_store_elem(
    st: LowView,
    ty: TypeView,
    v: usize,
    buf: usize,
    addr: usize,
)
    ensures
        calm(store_elem(st, ty, v, buf, addr), st),
{
    lemma_calm();
    assert(calm(st, st));
    reveal(store_elem);
    if ty.is_reference() {
        write_rt3(st, Rt::WriteRef, buf, addr, v);
    }
}

pub proof fn write_new_of(
    st: LowView,
    id: usize,
    aux: i64,
)
    ensures
        calm(new_of(st, id, aux).0, st),
{
    lemma_calm();
    assert(calm(st, st));
    let s1 = put(st, Op::DataAddr(id));
    let s2 = put(s1, Op::Iconst(aux));
    let (s3, obj) = rt2(s2, Rt::Alloc, next(st), next(s1));
    write_rt2(s2, Rt::Alloc, next(st), next(s1));
}

pub proof fn write_index_addr(
    st: LowView,
    arr: usize,
    idx: usize,
    size: u32,
    line: u32,
)
    ensures
        calm(index_addr(st, arr, idx, size, line).0, st),
{
    lemma_calm();
    assert(calm(st, st));
    reveal(index_addr);

}

pub proof fn write_check_overflow(
    st: LowView,
    k: IntKind,
    v: usize,
    line: u32,
)
    ensures
        calm(check_overflow(st, k, v, line), st),
{
    lemma_calm();
    assert(calm(st, st));
    reveal(check_overflow);

}

pub proof fn write_shift(
    st: LowView,
    op: BinOp,
    k: IntKind,
    l: usize,
    r: usize,
    line: u32,
)
    ensures
        calm(shift(st, op, k, l, r, line).0, st),
{
    lemma_calm();
    assert(calm(st, st));
    reveal(shift);

}

pub proof fn write_divide(
    st: LowView,
    op: BinOp,
    k: IntKind,
    l: usize,
    r: usize,
    line: u32,
)
    ensures
        calm(divide(st, op, k, l, r, line).0, st),
{
    lemma_calm();
    assert(calm(st, st));
    reveal(divide);
    let s1 = put(st, Op::CompareImm(IntCC::Equal, r, 0));
    let s2 = put(s1, Op::PanicIf(next(st), Rt::PanicDiv, line));
    if !(!k.is_signed()) {
        write_divide_signed(s2, op, k, l, r, line);
    }
}

pub proof fn write_divide_signed(
    st: LowView,
    op: BinOp,
    k: IntKind,
    l: usize,
    r: usize,
    line: u32,
)
    ensures
        calm(divide_signed(st, op, k, l, r, line).0, st),
{
    lemma_calm();
    assert(calm(st, st));
    reveal(divide_signed);

}

pub proof fn write_checked_arith(
    st: LowView,
    op: BinOp,
    k: IntKind,
    l: usize,
    r: usize,
    line: u32,
)
    ensures
        calm(checked_arith(st, op, k, l, r, line).0, st),
{
    lemma_calm();
    assert(calm(st, st));
    reveal(checked_arith);
    if !(k.width() == 64) {
        let s1 = put(st, Op::Int(plain_op(op), l, r));
        write_check_overflow(s1, k, next(st), line);
    }
}

pub proof fn write_int_arith(
    st: LowView,
    op: BinOp,
    k: IntKind,
    l: usize,
    r: usize,
    line: u32,
)
    ensures
        int_arith(st, op, k, l, r, line) matches Ok(r) ==> calm(r.0, st),
{
    lemma_calm();
    assert(calm(st, st));
    reveal(int_arith);
    match op {
        BinOp::Add => {
            write_checked_arith(st, op, k, l, r, line);
        },
        BinOp::Sub => {
            write_checked_arith(st, op, k, l, r, line);
        },
        BinOp::Mul => {
            write_checked_arith(st, op, k, l, r, line);
        },
        BinOp::Div => {
            write_divide(st, op, k, l, r, line);
        },
        BinOp::Rem => {
            write_divide(st, op, k, l, r, line);
        },
        BinOp::Shl => {
            write_shift(st, op, k, l, r, line);
        },
        BinOp::Shr => {
            write_shift(st, op, k, l, r, line);
        },
        _ => {},
    }
}

pub proof fn write_arith(
    st: LowView,
    op: BinOp,
    ty: TypeView,
    l: usize,
    r: usize,
    line: u32,
)
    ensures
        arith(st, op, ty, l, r, line) matches Ok(r) ==> calm(r.0, st),
{
    lemma_calm();
    assert(calm(st, st));
    reveal(arith);
    match ty {
        TypeView::Str => {
            if op is Add {
                let (s, v) = rt2(st, Rt::StrConcat, l, r);
                write_rt2(st, Rt::StrConcat, l, r);
            }
        },
        TypeView::Int(k) => {
            write_int_arith(st, op, k, l, r, line);
        },
        _ => {},
    }
}

pub proof fn write_compare(
    st: LowView,
    op: BinOp,
    ty: TypeView,
    l: usize,
    r: usize,
)
    ensures
        calm(compare(st, op, ty, l, r).0, st),
{
    lemma_calm();
    assert(calm(st, st));
    reveal(compare);

}

pub proof fn write_binary_values(
    st: LowView,
    op: BinOp,
    lt: TypeView,
    rt: TypeView,
    l: usize,
    r: usize,
    line: u32,
)
    ensures
        binary_values(st, op, lt, rt, l, r, line) matches Ok(r) ==> calm(r.0, st),
{
    lemma_calm();
    assert(calm(st, st));
    reveal(binary_values);
    if lt is Str || rt is Str {
        match op {
            BinOp::Add => {
                write_arith(st, op, TypeView::Str, l, r, line);
            },
            BinOp::Eq => {
                write_rt2(st, Rt::StrEq, l, r);
            },
            BinOp::Ne => {
                let (s, eq) = rt2(st, Rt::StrEq, l, r);
                write_rt2(st, Rt::StrEq, l, r);
            },
            _ => {},
        }
    } else {
        if is_comparison(op) {
            write_compare(st, op, lt, l, r);
        } else {
            write_arith(st, op, lt, l, r, line);
        }
    }
}

pub proof fn write_unary_value(
    st: LowView,
    op: UnOp,
    ty: TypeView,
    v: usize,
    line: u32,
)
    ensures
        unary_value(st, op, ty, v, line) matches Ok(r) ==> calm(r.0, st),
{
    lemma_calm();
    assert(calm(st, st));
    reveal(unary_value);

}

pub proof fn write_cast_int(
    st: LowView,
    s: IntKind,
    d: IntKind,
    v: usize,
    line: u32,
)
    ensures
        calm(cast_int(st, s, d, v, line), st),
{
    lemma_calm();
    assert(calm(st, st));
    reveal(cast_int);

}

pub proof fn write_cast_float(
    st: LowView,
    d: IntKind,
    v: usize,
    line: u32,
)
    ensures
        calm(cast_float(st, d, v, line).0, st),
{
    lemma_calm();
    assert(calm(st, st));
    reveal(cast_float);

}

pub proof fn write_cast(
    st: LowView,
    src: TypeView,
    dst: TypeView,
    v: usize,
    line: u32,
)
    ensures
        cast(st, src, dst, v, line) matches Ok(r) ==> calm(r.0, st),
{
    lemma_calm();
    assert(calm(st, st));
    reveal(cast);
    match (src, dst) {
        (TypeView::Int(s), TypeView::Int(d)) => {
            write_cast_int(st, s, d, v, line);
        },
        (TypeView::Float, TypeView::Int(d)) => {
            write_cast_float(st, d, v, line);
        },
        _ => {},
    }
}

pub proof fn write_captured(
    env: LowEnv,
    st: LowView,
    i: u32,
    ty: TypeView,
    line: u32,
)
    ensures
        captured(env, st, i, ty, line) matches Ok(r) ==> calm(r.0, st),
{
    lemma_calm();
    assert(calm(st, st));
    reveal(captured);

}

pub proof fn write_variable(
    env: LowEnv,
    st: LowView,
    res: Option<VarRes>,
    ty: TypeView,
    line: u32,
)
    ensures
        variable(env, st, res, ty, line) matches Ok(r) ==> calm(r.0, st),
{
    lemma_calm();
    assert(calm(st, st));
    reveal(variable);
    if let Some(VarRes::Captured(i)) = res {
        write_captured(env, st, i, ty, line);
        if let Ok((s, v)) = captured(env, st, i, ty, line) {
            write_rooted(s, ty, v);
        }
    }
}

pub proof fn write_store_word(
    st: LowView,
    ty: TypeView,
    v: usize,
    obj: usize,
    off: i32,
)
    ensures
        calm(store_word(st, ty, v, obj, off), st),
{
    lemma_calm();
    assert(calm(st, st));
    if ty.is_reference() {
        write_store_field(st, ty, v, obj, off);
    }
}

pub proof fn write_closure(
    env: LowEnv,
    st: LowView,
    lam: LambdaDefView,
    line: u32,
)
    ensures
        closure(env, st, lam, line) matches Ok(r) ==> calm(r.0, st),
{
    lemma_calm();
    assert(calm(st, st));
    reveal(closure);
    if let Some((func, d)) = find_lambda(env.lams, lam.id, 0) {
        if !(lam.captures.len() > 63) {
            let (s1, obj) = new_of(st, d, 0);
            write_new_of(st, d, 0);
            let s2 = put(s1, Op::FuncAddr(func));
            let s3 = put(s2, Op::Store(next(s1), obj, HEADER));
            write_store_captures(env, s3, obj, lam.captures, 0, line);
        }
    }
}

pub proof fn write_put_args(
    st: LowView,
    args: Seq<usize>,
    i: nat,
)
    ensures
        calm(put_args(st, args, i), st),
    decreases args.len() - i,
{
    lemma_calm();
    assert(calm(st, st));
    if !(i >= args.len()) {
        write_put_args(put(st, Op::Arg(args[i as int])), args, i + 1);
    }
}

pub proof fn write_call_result(
    st: LowView,
    ty: TypeView,
)
    ensures
        calm(call_result(st, ty).0, st),
{
    lemma_calm();
    assert(calm(st, st));
    let v = (st.f.ops.len() - 1) as usize;
    if !(ty is Unit) {
        write_rooted(st, ty, v);
    }
}

pub proof fn write_bind_one(
    env: LowEnv,
    st: LowView,
    b: PatBinderView,
    sv: usize,
    ts: Seq<TypeView>,
    index: u32,
    line: u32,
)
    ensures
        bind_one(env, st, b, sv, ts, index, line) matches Ok(r) ==> calm(r, st),
{
    lemma_calm();
    assert(calm(st, st));
    reveal(bind_one);
    if !(index >= ts.len() || b.local >= env.locals) {
        let (s, v) = load_typed(st, b.ty, sv, place(ts, index));
        write_load_typed(st, b.ty, sv, place(ts, index));
    }
}

pub proof fn write_bind_fields(
    env: LowEnv,
    st: LowView,
    fs: Seq<(Seq<char>, PatBinderView, u32)>,
    sv: usize,
    ts: Seq<TypeView>,
    i: nat,
    line: u32,
)
    ensures
        bind_fields(env, st, fs, sv, ts, i, line) matches Ok(r) ==> calm(r, st),
    decreases fs.len() - i,
{
    lemma_calm();
    assert(calm(st, st));
    if !(i >= fs.len()) {
        write_bind_one(env, st, fs[i as int].1, sv, ts, fs[i as int].2, line);
        if let Ok(s) = bind_one(env, st, fs[i as int].1, sv, ts, fs[i as int].2, line) {
            write_bind_fields(env, s, fs, sv, ts, i + 1, line);
        }
    }
}

pub proof fn write_bind_pattern(
    env: LowEnv,
    st: LowView,
    p: PatternView,
    ty: TypeView,
    sv: usize,
)
    ensures
        bind_pattern(env, st, p, ty, sv) matches Ok(r) ==> calm(r, st),
{
    lemma_calm();
    assert(calm(st, st));
    reveal(bind_pattern);
    if let PatternView::Variant { args, tag, line, .. } = p {
        if let TypeView::Enum(eid, targs) = ty {
            if !(!variant_ok(env.checked, eid, targs, tag)) {
                let ts = variant_types(env.checked, eid, targs, tag);
                match args {
                    PatArgsView::Single(b) => {
                        write_bind_one(env, st, b, sv, ts, 0, line);
                    },
                    PatArgsView::Fields(fs) => {
                        write_bind_fields(env, st, fs, sv, ts, 0, line);
                    },
                    _ => {},
                }
            }
        }
    }
}

pub proof fn write_match_key(
    st: LowView,
    ty: TypeView,
    sv: usize,
)
    ensures
        calm(match_key(st, ty, sv).0, st),
{
    lemma_calm();
    assert(calm(st, st));

}

pub proof fn write_test_arm(
    st: LowView,
    key: usize,
    c: i64,
)
    ensures
        calm(test_arm(st, key, c).0, st),
        test_arm(st, key, c).0.f.ops.len() <= usize::MAX ==> test_arm(st, key, c).1
            >= st.f.ops.len(),
{
    lemma_calm();
    assert(calm(st, st));
    reveal(test_arm);

}

pub proof fn write_elem_word(
    st: LowView,
    ty: TypeView,
    v: usize,
)
    ensures
        calm(elem_word(st, ty, v).0, st),
{
    lemma_calm();
    assert(calm(st, st));

}

pub proof fn write_array_push(
    st: LowView,
    ty: TypeView,
    arr: usize,
    v: usize,
)
    ensures
        calm(array_push(st, ty, arr, v), st),
{
    lemma_calm();
    assert(calm(st, st));
    reveal(array_push);
    let (s1, w) = elem_word(st, ty, v);
    write_elem_word(st, ty, v);
    let s2 = put(s1, Op::Iconst(ty.storage() as i64));
    let s3 = put(
        s2,
        Op::Iconst(
            if ty.is_reference() {
                1
            } else {
                0
            },
        ),
    );
    write_rt4(s3, Rt::ArrayPush, arr, w, next(s1), next(s2));
}

pub proof fn write_array_new(
    st: LowView,
    ty: TypeView,
    n: nat,
)
    ensures
        calm(array_new(st, ty, n).0, st),
{
    lemma_calm();
    assert(calm(st, st));
    reveal(array_new);
    let s1 = put(st, Op::Iconst(ty.storage() as i64));
    let s2 = put(
        s1,
        Op::Iconst(
            if ty.is_reference() {
                1
            } else {
                0
            },
        ),
    );
    let s3 = put(
        s2,
        Op::Iconst(
            (if n < 4 {
                    4
                } else {
                    n as int
            }) as i64,
        ),
    );
    let (s4, arr) = rt3(s3, Rt::ArrayNew, next(st), next(s1), next(s2));
    write_rt3(s3, Rt::ArrayNew, next(st), next(s1), next(s2));
}

pub proof fn write_array_pop(
    st: LowView,
    ty: TypeView,
    arr: usize,
    line: u32,
)
    ensures
        calm(array_pop(st, ty, arr, line).0, st),
{
    lemma_calm();
    assert(calm(st, st));
    reveal(array_pop);
    let s0 = put(st, Op::Iconst(ty.storage() as i64));
    let s1 = put(s0, Op::Iconst(line as i64));
    let (s2, raw) = rt3(s1, Rt::ArrayPop, arr, next(st), next(s0));
    write_rt3(s1, Rt::ArrayPop, arr, next(st), next(s0));
    match ty {
        _ => {
            write_rooted(s2, ty, raw);
        },
    }
}

pub proof fn write_unwrap_value(
    env: LowEnv,
    st: LowView,
    ty: TypeView,
    v: usize,
    line: u32,
)
    ensures
        unwrap_value(env, st, ty, v, line) matches Ok(r) ==> calm(r.0, st),
{
    lemma_calm();
    assert(calm(st, st));
    reveal(unwrap_value);
    if let TypeView::Enum(eid, targs) = ty {
        if !(!variant_ok(env.checked, eid, targs, 0) || variant_types( env.checked, eid, targs, 0, ).len() != 1 || targs.len() == 0) {
            let ts = variant_types(env.checked, eid, targs, 0);
            let s1 = put(st, Op::Load(IrType::I64, v, AUX));
            let s2 = put(s1, Op::CompareImm(IntCC::NotEqual, next(st), 0));
            let s3 = put(s2, Op::PanicIf(next(s1), Rt::PanicUnwrap, line));
            let (s4, x) = load_typed(s3, targs[0], v, place(ts, 0));
            write_load_typed(s3, targs[0], v, place(ts, 0));
            write_rooted(s4, targs[0], x);
        }
    }
}

pub proof fn write_builtin_value(
    env: LowEnv,
    st: LowView,
    b: Builtin,
    ty: TypeView,
    v: usize,
    line: u32,
)
    ensures
        builtin_value(env, st, b, ty, v, line) matches Ok(r) ==> calm(r.0, st),
{
    lemma_calm();
    assert(calm(st, st));
    reveal(builtin_value);
    match b {
        Builtin::Print => {
            write_rt1(st, print_fn(ty), v);
        },
        Builtin::Println => {
            write_rt1(st, print_fn(ty), v);
        },
        Builtin::Pop => {
            if let TypeView::Array(elem) = ty {
                if !((*elem) is Param) {
                    let (s, x) = array_pop(st, *elem, v, line);
                    write_array_pop(st, *elem, v, line);
                }
            }
        },
        Builtin::Itos => {
            let (s, x) = rt1(
                st,
                if signed_type(ty) {
                    Rt::Itos
                } else {
                    Rt::Utos
                },
                v,
            );
            write_rt1( st, if signed_type(ty) { Rt::Itos } else { Rt::Utos }, v, );
        },
        Builtin::Ftos => {
            let (s, x) = rt1(st, Rt::Ftos, v);
            write_rt1(st, Rt::Ftos, v);
        },
        Builtin::Stoi => {
            let (s, x) = rt2(put(st, Op::Iconst(line as i64)), Rt::Stoi, v, next(st));
            write_rt2(put(st, Op::Iconst(line as i64)), Rt::Stoi, v, next(st));
        },
        Builtin::Stof => {
            let (s, x) = rt2(put(st, Op::Iconst(line as i64)), Rt::Stof, v, next(st));
            write_rt2(put(st, Op::Iconst(line as i64)), Rt::Stof, v, next(st));
        },
        Builtin::Stob => {
            let (s, x) = rt1(st, Rt::Stob, v);
            write_rt1(st, Rt::Stob, v);
        },
        Builtin::Btos => {
            let (s, x) = rt2(put(st, Op::Iconst(line as i64)), Rt::Btos, v, next(st));
            write_rt2(put(st, Op::Iconst(line as i64)), Rt::Btos, v, next(st));
        },
        Builtin::Unwrap => {
            write_unwrap_value(env, st, ty, v, line);
        },
        _ => {},
    }
}

pub proof fn write_field_value(
    env: LowEnv,
    st: LowView,
    obj_ty: TypeView,
    index: u32,
    ty: TypeView,
    obj: usize,
    line: u32,
)
    ensures
        field_value(env, st, obj_ty, index, ty, obj, line) matches Ok(r) ==> calm(r.0, st),
{
    lemma_calm();
    assert(calm(st, st));
    reveal(field_value);
    if let TypeView::Struct(sid, targs) = obj_ty {
        if !(!struct_ok(env.checked, sid, targs) || index >= struct_types(env.checked, sid, targs).len()) {
            let ts = struct_types(env.checked, sid, targs);
            let (s, v) = load_typed(st, ty, obj, place(ts, index));
            write_load_typed(st, ty, obj, place(ts, index));
            write_rooted(s, ty, v);
        }
    }
}

pub proof fn write_index_value(
    st: LowView,
    obj_ty: TypeView,
    ty: TypeView,
    o: usize,
    i: usize,
    line: u32,
)
    ensures
        index_value(st, obj_ty, ty, o, i, line) matches Ok(r) ==> calm(r.0, st),
{
    lemma_calm();
    assert(calm(st, st));
    reveal(index_value);
    if let TypeView::Array(elem) = obj_ty {
        if !((*elem) is Param) {
            let (s1, _, addr) = index_addr(st, o, i, elem.storage(), line);
            write_index_addr(st, o, i, elem.storage(), line);
            let (s2, v) = load_typed(s1, ty, addr, 0);
            write_load_typed(s1, ty, addr, 0);
            write_rooted(s2, ty, v);
        }
    }
}

pub proof fn write_gen_scalar(
    env: LowEnv,
    st: LowView,
    e: ExprView,
)
    ensures
        gen_scalar(env, st, e) matches Ok(r) ==> calm(r.0, st),
    decreases e, 10int,
{
    lemma_calm();
    assert(calm(st, st));
    write_gen_expr(env, st, e);
    if let Ok((s, v)) = gen_expr(env, st, e) {
        write_value_of(s, v);
    }
}

pub proof fn write_gen_binary(
    env: LowEnv,
    st: LowView,
    e: ExprView,
)
    ensures
        gen_binary(env, st, e) matches Ok(r) ==> calm(r.0, st),
    decreases e, 8int,
{
    lemma_calm();
    assert(calm(st, st));
    let line = e.line;
    let op = e.kind->Binary_0;
    let lhs = *e.kind->Binary_1;
    let rhs = *e.kind->Binary_2;
    if e.kind is Binary {
        write_gen_scalar(env, st, lhs);
        if let Ok((s1, l)) = gen_scalar(env, st, lhs) {
            if op is And || op is Or {
                let rest = next(s1);
                let s2 = put(s1, Op::Block);
                let merge = next(s2);
                let s3 = put(s2, Op::BlockOf(IrType::I64));
                let s4 = put(
                    s3,
                    if op is And {
                        Op::BrifElseWith(l, rest, merge, l)
                    } else {
                        Op::BrifWith(l, merge, l, rest)
                    },
                );
                write_gen_scalar(env, put(s4, Op::SwitchTo(rest)), rhs);
            } else {
                write_gen_scalar(env, s1, rhs);
                if let Ok((s2, r)) = gen_scalar(env, s1, rhs) {
                    write_binary_values(s2, op, lhs.ty, rhs.ty, l, r, line);
                }
            }
        }
    }
}

pub proof fn write_gen_if(
    env: LowEnv,
    st: LowView,
    e: ExprView,
)
    ensures
        gen_if(env, st, e) matches Ok(r) ==> calm(r.0, st),
    decreases e, 8int,
{
    lemma_calm();
    assert(calm(st, st));
    let cond = *e.kind->If_cond;
    let then = *e.kind->If_then;
    let els = *e.kind->If_els;
    if e.kind is If {
        write_gen_scalar(env, st, cond);
        if let Ok((s1, c)) = gen_scalar(env, st, cond) {
            let yes = next(s1);
            let s2 = put(s1, Op::Block);
            let no = next(s2);
            let s3 = put(s2, Op::Block);
            let merge = next(s3);
            let s4 = put(s3, Op::BlockOf(abi(e.ty)));
            let s5 = put(s4, Op::Brif(c, yes, no));
            write_gen_scalar(env, put(s5, Op::SwitchTo(yes)), then);
            if let Ok((s6, t)) = gen_scalar(env, put(s5, Op::SwitchTo(yes)), then) {
                let s7 = put(s6, Op::JumpWith(merge, t));
                write_gen_scalar(env, put(s7, Op::SwitchTo(no)), els);
            }
        }
    }
}

pub proof fn write_gen_list(
    env: LowEnv,
    st: LowView,
    es: Seq<ExprView>,
    i: nat,
    acc: Seq<usize>,
)
    ensures
        gen_list(env, st, es, i, acc) matches Ok(r) ==> calm(r.0, st),
    decreases es, es.len() - i,
{
    lemma_calm();
    assert(calm(st, st));
    if !(i >= es.len()) {
        write_gen_scalar(env, st, es[i as int]);
        if let Ok((s, v)) = gen_scalar(env, st, es[i as int]) {
            write_gen_list(env, s, es, i + 1, acc.push(v));
        }
    }
}

pub proof fn write_gen_builtin(
    env: LowEnv,
    st: LowView,
    b: Builtin,
    args: Seq<ExprView>,
    line: u32,
)
    ensures
        gen_builtin(env, st, b, args, line) matches Ok(r) ==> calm(r.0, st),
    decreases args, 10int,
{
    lemma_calm();
    assert(calm(st, st));
    if b is GcCollect {
        write_rt1(put(st, Op::Iconst(1)), Rt::GcCollect, next(st));
    } else {
        if !(args.len() == 0) {
            write_gen_scalar(env, st, args[0]);
            if let Ok((s1, v)) = gen_scalar(env, st, args[0]) {
                if b is Push {
                    if let TypeView::Array(elem) = args[0].ty {
                        if !(args.len() < 2 || (*elem) is Param) {
                            write_gen_scalar(env, s1, args[1]);
                            if let Ok((s2, x)) = gen_scalar(env, s1, args[1]) {
                                write_array_push(s2, *elem, v, x);
                            }
                        }
                    }
                } else {
                    write_builtin_value(env, s1, b, args[0].ty, v, line);
                }
            }
        }
    }
}

pub proof fn write_gen_index(
    env: LowEnv,
    st: LowView,
    e: ExprView,
)
    ensures
        gen_index(env, st, e) matches Ok(r) ==> calm(r.0, st),
    decreases e, 8int,
{
    lemma_calm();
    assert(calm(st, st));
    let line = e.line;
    let obj = *e.kind->Index_0;
    let idx = *e.kind->Index_1;
    if e.kind is Index {
        write_gen_scalar(env, st, obj);
        if let Ok((s1, o)) = gen_scalar(env, st, obj) {
            write_gen_scalar(env, s1, idx);
            if let Ok((s2, i)) = gen_scalar(env, s1, idx) {
                write_index_value(s2, obj.ty, e.ty, o, i, line);
            }
        }
    }
}

pub proof fn write_gen_array(
    env: LowEnv,
    st: LowView,
    elems: Seq<ExprView>,
    ty: TypeView,
    line: u32,
)
    ensures
        gen_array(env, st, elems, ty, line) matches Ok(r) ==> calm(r.0, st),
    decreases elems, elems.len() + 1,
{
    lemma_calm();
    assert(calm(st, st));
    if let TypeView::Array(elem) = ty {
        if !((*elem) is Param) {
            let (s, arr) = array_new(st, *elem, elems.len());
            write_array_new(st, *elem, elems.len());
            write_gen_elems(env, s, *elem, arr, elems, 0);
        }
    }
}

pub proof fn write_gen_elems(
    env: LowEnv,
    st: LowView,
    ty: TypeView,
    arr: usize,
    es: Seq<ExprView>,
    i: nat,
)
    ensures
        gen_elems(env, st, ty, arr, es, i) matches Ok(r) ==> calm(r, st),
    decreases es, es.len() - i,
{
    lemma_calm();
    assert(calm(st, st));
    if !(i >= es.len()) {
        write_gen_scalar(env, st, es[i as int]);
        if let Ok((s, v)) = gen_scalar(env, st, es[i as int]) {
            write_array_push(s, ty, arr, v);
            write_gen_elems(env, array_push(s, ty, arr, v), ty, arr, es, i + 1);
        }
    }
}

pub proof fn write_gen_inits(
    env: LowEnv,
    st: LowView,
    ts: Seq<TypeView>,
    obj: usize,
    fs: Seq<(Seq<char>, ExprView, u32)>,
    i: nat,
    line: u32,
)
    ensures
        gen_inits(env, st, ts, obj, fs, i, line) matches Ok(r) ==> calm(r, st),
    decreases fs, fs.len() - i,
{
    lemma_calm();
    assert(calm(st, st));
    if !(i >= fs.len()) {
        if !(fs[i as int].2 >= ts.len()) {
            write_gen_scalar(env, st, fs[i as int].1);
            if let Ok((s, v)) = gen_scalar(env, st, fs[i as int].1) {
                write_store_field( s, ts[fs[i as int].2 as int], v, obj, place(ts, fs[i as int].2), );
                write_gen_inits( env, store_field( s, ts[fs[i as int].2 as int], v, obj, place(ts, fs[i as int].2), ), ts, obj, fs, i + 1, line, );
            }
        }
    }
}

pub proof fn write_gen_struct(
    env: LowEnv,
    st: LowView,
    fields: Seq<(Seq<char>, ExprView, u32)>,
    sid: u32,
    ty: TypeView,
    line: u32,
)
    ensures
        gen_struct(env, st, fields, sid, ty, line) matches Ok(r) ==> calm(r.0, st),
    decreases fields, fields.len() + 1,
{
    lemma_calm();
    assert(calm(st, st));
    let targs = ty->Struct_1;
    if !(!(ty is Struct) || !struct_ok(env.checked, sid, targs)) {
        let ts = struct_types(env.checked, sid, targs);
        let (s, obj) = new_object(st, ts, 0);
        write_new_object(st, ts, 0);
        write_gen_inits(env, s, ts, obj, fields, 0, line);
    }
}

pub proof fn write_gen_arms(
    env: LowEnv,
    st: LowView,
    arms: Seq<(PatternView, ExprView)>,
    i: nat,
    ty: TypeView,
    sv: usize,
    key: usize,
    merge: usize,
    line: u32,
)
    ensures
        gen_arms(env, st, arms, i, ty, sv, key, merge, line) matches Ok(r) ==> calm(r, st),
    decreases arms, arms.len() - i,
{
    lemma_calm();
    assert(calm(st, st));
    if !(i >= arms.len()) {
        let last = i + 1 == arms.len();
        if !(last) {
            if let Some(c) = pattern_const(arms[i as int].0) {
                write_test_arm(st, key, c);
            }
        }
        if let Ok((s1, other)) = (if last { Ok((st, 0usize)) } else { match pattern_const(arms[i as int].0) { None => Err(internal(line)), Some(c) => Ok(test_arm(st, key, c)), } }) {
            write_bind_pattern(env, s1, arms[i as int].0, ty, sv);
            if let Ok(s2) = bind_pattern(env, s1, arms[i as int].0, ty, sv) {
                write_gen_scalar(env, s2, arms[i as int].1);
                if let Ok((s3, v)) = gen_scalar(env, s2, arms[i as int].1) {
                    let s4 = put(s3, Op::JumpWith(merge, v));
                    if !(last) {
                        write_gen_arms( env, put(s4, Op::SwitchTo(other)), arms, i + 1, ty, sv, key, merge, line, );
                    }
                }
            }
        }
    }
}

pub proof fn write_gen_match(
    env: LowEnv,
    st: LowView,
    e: ExprView,
)
    ensures
        gen_match(env, st, e) matches Ok(r) ==> calm(r.0, st),
    decreases e, 8int,
{
    lemma_calm();
    assert(calm(st, st));
    let line = e.line;
    let scrutinee = *e.kind->Match_scrutinee;
    let arms = e.kind->Match_arms;
    if e.kind is Match {
        write_gen_scalar(env, st, scrutinee);
        if let Ok((s1, sv)) = gen_scalar(env, st, scrutinee) {
            let (s2, key) = match_key(s1, scrutinee.ty, sv);
            write_match_key(s1, scrutinee.ty, sv);
            let merge = next(s2);
            write_gen_arms( env, put(s2, Op::BlockOf(abi(e.ty))), arms, 0, scrutinee.ty, sv, key, merge, line, );
        }
    }
}

pub proof fn write_flow_to(
    st: LowView,
    b: usize,
)
    ensures
        wrote(flow_to(st, b), st),
{
    lemma_calm();
    assert(calm(st, st));
    lemma_wrote();
    assert(wrote(st, st));

}

pub proof fn write_gen_block(
    env: LowEnv,
    st: LowView,
    b: BlockView,
)
    ensures
        gen_block(env, st, b) matches Ok(r) ==> wrote(r, st),
    decreases b, 1int,
{
    lemma_calm();
    assert(calm(st, st));
    lemma_wrote();
    assert(wrote(st, st));
    write_gen_stmts(env, st, b.stmts, 0);
}

pub proof fn write_gen_stmts(
    env: LowEnv,
    st: LowView,
    ss: Seq<StmtView>,
    i: nat,
)
    ensures
        gen_stmts(env, st, ss, i) matches Ok(r) ==> wrote(r, st),
    decreases ss, ss.len() - i,
{
    lemma_calm();
    assert(calm(st, st));
    lemma_wrote();
    assert(wrote(st, st));
    if !(i >= ss.len() || st.f.terminated) {
        write_gen_stmt(env, st, ss[i as int]);
        if let Ok(s) = gen_stmt(env, st, ss[i as int]) {
            write_gen_stmts(env, s, ss, i + 1);
        }
    }
}

pub proof fn write_gen_assign_local(
    env: LowEnv,
    st: LowView,
    s: StmtView,
    idx: u32,
)
    ensures
        gen_assign_local(env, st, s, idx) matches Ok(r) ==> wrote(r, st),
    decreases s, 9int,
{
    lemma_calm();
    assert(calm(st, st));
    lemma_wrote();
    assert(wrote(st, st));
    let line = s->Assign_line;
    if !(!(s is Assign) || idx >= env.locals) {
        match s->Assign_op {
            None => {
                write_gen_scalar(env, st, s->Assign_value);
            },
            Some(op) => {
                write_gen_scalar( env, put(st, Op::UseVar(idx as usize)), s->Assign_value, );
                if let Ok((s1, r)) = gen_scalar( env, put(st, Op::UseVar(idx as usize)), s->Assign_value, ) {
                    write_arith(s1, op, s->Assign_target.ty, next(st), r, line);
                }
            },
        }
    }
}

pub proof fn write_gen_assign_field(
    env: LowEnv,
    st: LowView,
    s: StmtView,
)
    ensures
        gen_assign_field(env, st, s) matches Ok(r) ==> wrote(r, st),
    decreases s, 9int,
{
    lemma_calm();
    assert(calm(st, st));
    lemma_wrote();
    assert(wrote(st, st));
    let line = s->Assign_line;
    let target = s->Assign_target;
    let obj = *target.kind->Field_obj;
    let index = target.kind->Field_index;
    if !(!(s is Assign) || !(target.kind is Field) || !(obj.ty is Struct) || !struct_ok( env.checked, obj.ty->Struct_0, obj.ty->Struct_1, ) || index >= struct_types(env.checked, obj.ty->Struct_0, obj.ty->Struct_1).len()) {
        let ts = struct_types(env.checked, obj.ty->Struct_0, obj.ty->Struct_1);
        let ty = ts[index as int];
        let off = place(ts, index);
        match s->Assign_op {
            None => {
                write_gen_scalar(env, st, s->Assign_value);
                if let Ok((s1, v)) = gen_scalar(env, st, s->Assign_value) {
                    write_gen_scalar(env, s1, obj);
                    if let Ok((s2, o)) = gen_scalar(env, s1, obj) {
                        write_store_field(s2, ty, v, o, off);
                    }
                }
            },
            Some(op) => {
                write_gen_scalar(env, st, obj);
                if let Ok((s1, o)) = gen_scalar(env, st, obj) {
                    let (s2, cur) = load_typed(s1, ty, o, off);
                    write_load_typed(s1, ty, o, off);
                    write_rooted(s2, ty, cur);
                    write_gen_scalar(env, rooted(s2, ty, cur), s->Assign_value);
                    if let Ok((s3, r)) = gen_scalar(env, rooted(s2, ty, cur), s->Assign_value) {
                        write_arith(s3, op, target.ty, cur, r, line);
                        if let Ok((s4, v)) = arith(s3, op, target.ty, cur, r, line) {
                            write_store_field(s4, ty, v, o, off);
                        }
                    }
                }
            },
        }
    }
}

pub proof fn write_gen_assign_elem(
    env: LowEnv,
    st: LowView,
    s: StmtView,
)
    ensures
        gen_assign_elem(env, st, s) matches Ok(r) ==> wrote(r, st),
    decreases s, 9int,
{
    lemma_calm();
    assert(calm(st, st));
    lemma_wrote();
    assert(wrote(st, st));
    let line = s->Assign_line;
    let target = s->Assign_target;
    let arr = *target.kind->Index_0;
    let idx = *target.kind->Index_1;
    let ty = *arr.ty->Array_0;
    if !(!(s is Assign) || !(target.kind is Index) || !(arr.ty is Array) || ty is Param) {
        match s->Assign_op {
            None => {
                write_gen_scalar(env, st, s->Assign_value);
                if let Ok((s1, v)) = gen_scalar(env, st, s->Assign_value) {
                    write_gen_scalar(env, s1, arr);
                    if let Ok((s2, a)) = gen_scalar(env, s1, arr) {
                        write_gen_scalar(env, s2, idx);
                        if let Ok((s3, i)) = gen_scalar(env, s2, idx) {
                            let (s4, buf, addr) = index_addr(s3, a, i, ty.storage(), line);
                            write_index_addr(s3, a, i, ty.storage(), line);
                            write_store_elem(s4, ty, v, buf, addr);
                        }
                    }
                }
            },
            Some(op) => {
                write_gen_scalar(env, st, arr);
                if let Ok((s1, a)) = gen_scalar(env, st, arr) {
                    write_gen_scalar(env, s1, idx);
                    if let Ok((s2, i)) = gen_scalar(env, s1, idx) {
                        let (s3, _, addr) = index_addr(s2, a, i, ty.storage(), line);
                        write_index_addr(s2, a, i, ty.storage(), line);
                        let (s4, cur) = load_typed(s3, ty, addr, 0);
                        write_load_typed(s3, ty, addr, 0);
                        write_rooted(s4, ty, cur);
                        write_gen_scalar(env, rooted(s4, ty, cur), s->Assign_value);
                        if let Ok((s5, r)) = gen_scalar(env, rooted(s4, ty, cur), s->Assign_value) {
                            write_arith(s5, op, ty, cur, r, line);
                            if let Ok((s6, v)) = arith(s5, op, ty, cur, r, line) {
                                let (s7, buf, again) = index_addr(
                                    s6,
                                    a,
                                    i,
                                    ty.storage(),
                                    line,
                                );
                                write_index_addr( s6, a, i, ty.storage(), line, );
                                write_store_elem(s7, ty, v, buf, again);
                            }
                        }
                    }
                }
            },
        }
    }
}

pub proof fn write_gen_if_stmt(
    env: LowEnv,
    st: LowView,
    s: StmtView,
)
    ensures
        gen_if_stmt(env, st, s) matches Ok(r) ==> wrote(r, st),
    decreases s, 10int,
{
    lemma_calm();
    assert(calm(st, st));
    lemma_wrote();
    assert(wrote(st, st));
    if s is If {
        write_gen_scalar(env, st, s->If_cond);
        if let Ok((s1, c)) = gen_scalar(env, st, s->If_cond) {
            let yes = next(s1);
            let s2 = put(s1, Op::Block);
            let no = next(s2);
            let s3 = put(s2, Op::Block);
            let merge = next(s3);
            let s4 = put(s3, Op::Block);
            let s5 = put(s4, Op::Brif(c, yes, no));
            write_gen_block(env, start(s5, yes), s->If_then);
            if let Ok(s6) = gen_block(env, start(s5, yes), s->If_then) {
                let s7 = start(flow_to(s6, merge), no);
                write_flow_to(s6, merge);
                if let Some(b) = s->If_els {
                    write_gen_block(env, s7, b);
                }
                if let Ok(s8) = (match s->If_els { None => Ok(s7), Some(b) => gen_block(env, s7, b), }) {
                    write_flow_to(s8, merge);
                }
            }
        }
    }
}

pub proof fn write_gen_while(
    env: LowEnv,
    st: LowView,
    s: StmtView,
)
    ensures
        gen_while(env, st, s) matches Ok(r) ==> wrote(r, st),
    decreases s, 10int,
{
    lemma_calm();
    assert(calm(st, st));
    lemma_wrote();
    assert(wrote(st, st));
    if s is While {
        let header = next(st);
        let s1 = put(st, Op::Block);
        let body = next(s1);
        let s2 = put(s1, Op::Block);
        let exit = next(s2);
        let s3 = put(s2, Op::Block);
        let s4 = put(put(s3, Op::Jump(header)), Op::SwitchTo(header));
        write_gen_scalar(env, s4, s->While_cond);
        if let Ok((s5, c)) = gen_scalar(env, s4, s->While_cond) {
            let s6 = put(put(s5, Op::Brif(c, body, exit)), Op::SwitchTo(body));
            write_gen_block(env, enter_loop(s6, exit, header), s->While_body);
            if let Ok(s7) = gen_block(env, enter_loop(s6, exit, header), s->While_body) {
                write_flow_to(leave_loop(s7), header);
            }
        }
    }
}

pub proof fn write_gen_opt_stmt(
    env: LowEnv,
    st: LowView,
    s: Option<Box<StmtView>>,
)
    ensures
        gen_opt_stmt(env, st, s) matches Ok(r) ==> wrote(r, st),
    decreases s, 10int,
{
    lemma_calm();
    assert(calm(st, st));
    lemma_wrote();
    assert(wrote(st, st));
    if let Some(s) = s {
        write_gen_stmt(env, st, *s);
    }
}

pub proof fn write_gen_for_cond(
    env: LowEnv,
    st: LowView,
    cond: Option<ExprView>,
    body: usize,
    exit: usize,
)
    ensures
        gen_for_cond(env, st, cond, body, exit) matches Ok(r) ==> wrote(r, st),
    decreases cond, 10int,
{
    lemma_calm();
    assert(calm(st, st));
    lemma_wrote();
    assert(wrote(st, st));
    if let Some(c) = cond {
        write_gen_scalar(env, st, c);
    }
}

pub proof fn write_gen_for(
    env: LowEnv,
    st: LowView,
    s: StmtView,
)
    ensures
        gen_for(env, st, s) matches Ok(r) ==> wrote(r, st),
    decreases s, 10int,
{
    lemma_calm();
    assert(calm(st, st));
    lemma_wrote();
    assert(wrote(st, st));
    if s is For {
        write_gen_opt_stmt(env, st, s->For_init);
        if let Ok(s0) = gen_opt_stmt(env, st, s->For_init) {
            let header = next(s0);
            let s1 = put(s0, Op::Block);
            let body = next(s1);
            let s2 = put(s1, Op::Block);
            let step = next(s2);
            let s3 = put(s2, Op::Block);
            let exit = next(s3);
            let s4 = put(s3, Op::Block);
            let s5 = put(put(s4, Op::Jump(header)), Op::SwitchTo(header));
            write_gen_for_cond(env, s5, s->For_cond, body, exit);
            if let Ok(s6) = gen_for_cond(env, s5, s->For_cond, body, exit) {
                write_gen_block( env, enter_loop(put(s6, Op::SwitchTo(body)), exit, step), s->For_body, );
                if let Ok(s7) = gen_block( env, enter_loop(put(s6, Op::SwitchTo(body)), exit, step), s->For_body, ) {
                    write_flow_to(leave_loop(s7), step);
                    write_gen_opt_stmt( env, start(flow_to(leave_loop(s7), step), step), s->For_step, );
                }
            }
        }
    }
}

pub proof fn write_gen_block_arms(
    env: LowEnv,
    st: LowView,
    arms: Seq<(PatternView, BlockView)>,
    i: nat,
    ty: TypeView,
    sv: usize,
    key: usize,
    merge: usize,
    left: bool,
    line: u32,
)
    ensures
        gen_block_arms(env, st, arms, i, ty, sv, key, merge, left, line) matches Ok(r) ==> wrote(r.0, st),
    decreases arms, arms.len() - i,
{
    lemma_calm();
    assert(calm(st, st));
    lemma_wrote();
    assert(wrote(st, st));
    if !(i >= arms.len()) {
        let last = i + 1 == arms.len();
        if !(last) {
            if let Some(c) = pattern_const(arms[i as int].0) {
                write_test_arm(st, key, c);
            }
        }
        if let Ok((s1, other)) = (if last { Ok((st, 0usize)) } else { match pattern_const(arms[i as int].0) { None => Err(internal(line)), Some(c) => Ok(test_arm(st, key, c)), } }) {
            write_bind_pattern(env, s1, arms[i as int].0, ty, sv);
            if let Ok(s2) = bind_pattern(env, s1, arms[i as int].0, ty, sv) {
                write_gen_block(env, with_terminated(s2, false), arms[i as int].1);
                if let Ok(s3) = gen_block(env, with_terminated(s2, false), arms[i as int].1) {
                    let s4 = flow_to(s3, merge);
                    write_flow_to(s3, merge);
                    let all = left && s3.f.terminated;
                    if !(last) {
                        write_gen_block_arms( env, put(s4, Op::SwitchTo(other)), arms, i + 1, ty, sv, key, merge, all, line, );
                    }
                }
            }
        }
    }
}

pub proof fn write_gen_stmt_match(
    env: LowEnv,
    st: LowView,
    s: StmtView,
)
    ensures
        gen_stmt_match(env, st, s) matches Ok(r) ==> wrote(r, st),
    decreases s, 10int,
{
    lemma_calm();
    assert(calm(st, st));
    lemma_wrote();
    assert(wrote(st, st));
    if s is Match {
        let scrutinee = s->Match_scrutinee;
        write_gen_scalar(env, st, scrutinee);
        if let Ok((s1, sv)) = gen_scalar(env, st, scrutinee) {
            let (s2, key) = match_key(s1, scrutinee.ty, sv);
            write_match_key(s1, scrutinee.ty, sv);
            let merge = next(s2);
            write_gen_block_arms( env, put(s2, Op::Block), s->Match_arms, 0, scrutinee.ty, sv, key, merge, true, s->Match_line, );
        }
    }
}

pub proof fn write_gen_return(
    env: LowEnv,
    st: LowView,
    value: Option<ExprView>,
)
    ensures
        gen_return(env, st, value) matches Ok(r) ==> wrote(r, st),
    decreases value, 11int,
{
    lemma_calm();
    assert(calm(st, st));
    lemma_wrote();
    assert(wrote(st, st));
    if let Some(v) = value {
        write_gen_scalar(env, st, v);
    }
}

pub proof fn write_gen_stmt(
    env: LowEnv,
    st: LowView,
    s: StmtView,
)
    ensures
        gen_stmt(env, st, s) matches Ok(r) ==> wrote(r, st),
    decreases s, 11int,
{
    lemma_calm();
    assert(calm(st, st));
    lemma_wrote();
    assert(wrote(st, st));
    match s {
        StmtView::Let { init, local, line, .. } => {
            if !(local >= env.locals) {
                write_gen_scalar(env, st, init);
            }
        },
        StmtView::Assign { target, line, .. } => {
            match target.kind {
                ExprKindView::Var { res, .. } => {
                    if let Some(VarRes::Local(idx)) = res {
                        write_gen_assign_local(env, st, s, idx);
                    }
                },
                ExprKindView::Field { .. } => {
                    write_gen_assign_field(env, st, s);
                },
                ExprKindView::Index(_, _) => {
                    write_gen_assign_elem(env, st, s);
                },
                _ => {},
            }
        },
        StmtView::Expr(e) => {
            write_gen_expr(env, st, e);
        },
        StmtView::If { .. } => {
            write_gen_if_stmt(env, st, s);
        },
        StmtView::While { .. } => {
            write_gen_while(env, st, s);
        },
        StmtView::For { .. } => {
            write_gen_for(env, st, s);
        },
        StmtView::Return { value, .. } => {
            write_gen_return(env, st, value);
        },
        StmtView::Block(b) => {
            write_gen_block(env, st, b);
        },
        StmtView::Match { .. } => {
            write_gen_stmt_match(env, st, s);
        },
        _ => {},
    }
}

} // verus!
