//! That a program is compiled to a unit of routines: its functions, each
//! instantiation of its generic ones, their lambdas and the adapters between
//! them and function values; and so what a compiled program does.
use vstd::prelude::*;

use crate::ast::{LambdaDefView, ProgramView};
use crate::calling::{body_of, lemma_body_of, run_symbol};
use crate::cli::{built, checked_text};
use crate::computing::{answers, sized, words};
use crate::ir::{BodyView, Linkage, SigView};
use crate::keeping::starts_with;
use crate::lower::{
    add_data, bind_body, bodies_sound, body_sound, capture_map, compile_body, compile_lambdas,
    compile_work, declare_func, declare_functions, declare_lambdas, declare_value, declared, desc,
    drain, epilogue, find_lambda_inst, fnval_data, func_names, gen_block, law_lowering_is_unique,
    lower_steps, make_sig, prologue, runtime_unit, thunk_body, GenView, InstKeyView, LowEnv, Source,
    KIND_STRUCT,
};
use crate::machine::Layout;
use crate::meaning::runnable;
use crate::memory::World;
use crate::mono::{instance_of, suffix_text, InstanceView};
use crate::routines::{
    invoke, is_made, is_unit, law_program_over_memory, lemma_prologue_shape, Program, Routine,
};
use crate::rules::{check_spec, CheckedView};
use crate::text::{dec_text, lemma_position_from, position};
use crate::types::TypeView;
use crate::walk::lambdas_in_block;
use crate::writing::{
    fresh, fuller, is_bind, lemma_added, lemma_fuller_on, lemma_more_is_fuller, more_unit, planned,
    tidy, write_desc, write_gen_block, wrote,
};

verus! {

// -- Symbols ----------------------------------------------------------------

/// Do bodies, scheduled functions and those that are still to be written have
/// symbols of their own?
pub open spec fn neat(g: GenView, pending: Seq<usize>) -> bool {
    &&& forall|i: int| 0 <= i < g.bodies.len() ==> (#[trigger] g.bodies[i]).func < g.funcs.len()
    &&& forall|i: int| 0 <= i < g.work.len() ==> (#[trigger] g.work[i]).func < g.funcs.len()
    &&& forall|i: int| 0 <= i < pending.len() ==> (#[trigger] pending[i]) < g.funcs.len()
    &&& forall|i: int, j: int|
        0 <= i < j < g.bodies.len() ==> (#[trigger] g.bodies[i]).func != (
        #[trigger] g.bodies[j]).func
    &&& forall|i: int, j: int|
        0 <= i < j < g.work.len() ==> (#[trigger] g.work[i]).func != (#[trigger] g.work[j]).func
    &&& forall|i: int, j: int|
        0 <= i < j < pending.len() ==> #[trigger] pending[i] != #[trigger] pending[j]
    &&& forall|i: int, j: int|
        0 <= i < g.bodies.len() && 0 <= j < g.work.len() ==> (#[trigger] g.bodies[i]).func != (
        #[trigger] g.work[j]).func
    &&& forall|i: int, j: int|
        0 <= i < g.bodies.len() && 0 <= j < pending.len() ==> (#[trigger] g.bodies[i]).func
            != #[trigger] pending[j]
    &&& forall|i: int, j: int|
        0 <= i < g.work.len() && 0 <= j < pending.len() ==> (#[trigger] g.work[i]).func
            != #[trigger] pending[j]
}

/// Are the instantiations that the earlier unit had not scheduled?
pub open spec fn new_planned(b: GenView, a: GenView) -> bool {
    forall|k: int|
        a.insts.len() <= k < b.insts.len() ==> planned(b, #[trigger] b.insts[k], 0)
}

/// Writing code keeps symbols apart.
#[verifier::rlimit(30)]
proof fn lemma_neat_more(a: GenView, b: GenView, pending: Seq<usize>)
    requires
        neat(a, pending),
        more_unit(b, a),
        b.funcs.len() <= usize::MAX,
    ensures
        neat(b, pending),
        new_planned(b, a),
        starts_with(b.work, a.work),
        forall|i: int|
            a.bodies.len() <= i < b.bodies.len() ==> is_bind(#[trigger] b.bodies[i]),
{
    reveal(more_unit);
    reveal(fuller);
    reveal(fresh);
    assert forall|i: int| 0 <= i < b.bodies.len() implies (#[trigger] b.bodies[i]).func
        < b.funcs.len() && (i < a.bodies.len() ==> b.bodies[i] == a.bodies[i]) by {
        if i < a.bodies.len() {
            assert(b.bodies[i] == a.bodies[i]);
        }
    }
    assert forall|i: int| 0 <= i < b.work.len() implies (#[trigger] b.work[i]).func
        < b.funcs.len() && (i < a.work.len() ==> b.work[i] == a.work[i]) by {
        if i < a.work.len() {
            assert(b.work[i] == a.work[i]);
        }
    }
    assert forall|k: int| a.insts.len() <= k < b.insts.len() implies planned(
        b,
        #[trigger] b.insts[k],
        0,
    ) by {
        assert(planned(b, b.insts[k], a.work.len() as int));
    }
}

// -- Routines ---------------------------------------------------------------

/// Is the body made of something?
pub open spec fn has_made(g: GenView, b: BodyView, r: Routine) -> bool {
    exists|before: GenView| #[trigger] is_made(g, b, r, before)
}

pub open spec fn made_all(g: GenView, rs: Seq<Routine>) -> bool {
    &&& rs.len() == g.bodies.len()
    &&& forall|i: int|
        0 <= i < g.bodies.len() ==> has_made(g, #[trigger] g.bodies[i], rs[i])
}

pub open spec fn bind_of(b: BodyView) -> Routine {
    let (func, sig) = choose|func: usize, sig: SigView| b == #[trigger]
        bind_body(b.func, func, sig);
    Routine::Bind(func, sig)
}

/// The routines, with those of the adapters that were added.
pub open spec fn with_binds(rs: Seq<Routine>, bodies: Seq<BodyView>) -> Seq<Routine> {
    Seq::new(
        bodies.len(),
        |i: int|
            if i < rs.len() {
                rs[i]
            } else {
                bind_of(bodies[i])
            },
    )
}

proof fn lemma_still_made(a: GenView, g: GenView, b: BodyView, r: Routine)
    requires
        has_made(a, b, r),
        fuller(g, a),
    ensures
        has_made(g, b, r),
{
    let before = choose|before: GenView| #[trigger] is_made(a, b, r, before);
    if let Routine::Code(env, src) = r {
        lemma_fuller_on(compile_body(env, before, src)->Ok_0, a, g);
    }
    assert(is_made(g, b, r, before));
}

proof fn lemma_made_more(a: GenView, g: GenView, rs: Seq<Routine>)
    requires
        made_all(a, rs),
        fuller(g, a),
        forall|i: int| a.bodies.len() <= i < g.bodies.len() ==> is_bind(#[trigger] g.bodies[i]),
    ensures
        made_all(g, with_binds(rs, g.bodies)),
        starts_with(with_binds(rs, g.bodies), rs),
{
    reveal(fuller);
    let more = with_binds(rs, g.bodies);
    assert forall|i: int| 0 <= i < g.bodies.len() implies has_made(
        g,
        #[trigger] g.bodies[i],
        more[i],
    ) by {
        if i < a.bodies.len() {
            assert(g.bodies[i] == a.bodies[i]);
            lemma_still_made(a, g, a.bodies[i], rs[i]);
        } else {
            assert(is_bind(g.bodies[i]));
            assert(is_made(g, g.bodies[i], more[i], g));
        }
    }
}

// -- Functions --------------------------------------------------------------

/// The instantiation that a scheduled function is.
pub open spec fn instance(env: LowEnv, key: InstKeyView) -> InstanceView {
    instance_of(key.fid, env.program.funcs[key.fid as int], env.checked, key.shapes)
}

/// The tree of an instantiation.
pub open spec fn source_of(env: LowEnv, key: InstKeyView) -> Source {
    let inst = instance(env, key);
    Source {
        func: key.func,
        locals: inst.locals,
        nparams: inst.def.params.len(),
        body: inst.def.body,
        ret: inst.ret,
        line: inst.def.line,
    }
}

/// The tree of a lambda in an instantiation.
pub open spec fn lambda_source(inst: InstanceView, lam: LambdaDefView, func: usize) -> Source {
    let info = inst.lambdas[find_lambda_inst(inst.lambdas, lam.id, 0)->0 as int].1;
    Source {
        func,
        locals: info.locals,
        nparams: lam.params.len(),
        body: lam.body,
        ret: info.ret,
        line: lam.line,
    }
}

/// What the names in an instantiation refer to, with these lambdas.
pub open spec fn names_in(
    env: LowEnv,
    table: Seq<(u32, usize, usize)>,
    locals: nat,
    lambda: bool,
) -> LowEnv {
    LowEnv { lams: table, locals, lambda, ..env }
}

/// Is body `i` that of the tree, with these names?
pub open spec fn holds_tree(
    g: GenView,
    rs: Seq<Routine>,
    i: int,
    env: LowEnv,
    src: Source,
) -> bool {
    &&& 0 <= i < g.bodies.len()
    &&& g.bodies[i].func == src.func
    &&& rs[i] == Routine::Code(env, src)
}

/// Does the unit hold the instantiation and its lambdas, whose symbols the table
/// lists?
pub open spec fn holds_instance(
    env: LowEnv,
    g: GenView,
    rs: Seq<Routine>,
    key: InstKeyView,
    table: Seq<(u32, usize, usize)>,
) -> bool {
    let inst = instance(env, key);
    let lams = lambdas_in_block(inst.def.body);
    &&& exists|i: int| #[trigger]
        holds_tree(
            g,
            rs,
            i,
            names_in(env, table, inst.locals.len(), false),
            source_of(env, key),
        )
    &&& table.len() == lams.len()
    &&& forall|k: int| 0 <= k < lams.len() ==> #[trigger] holds_lambda(env, g, rs, inst, table, k)
}

/// Does the unit hold lambda `k` of the instantiation?
pub open spec fn holds_lambda(
    env: LowEnv,
    g: GenView,
    rs: Seq<Routine>,
    inst: InstanceView,
    table: Seq<(u32, usize, usize)>,
    k: int,
) -> bool {
    let lam = lambdas_in_block(inst.def.body)[k];
    let src = lambda_source(inst, lam, table[k].1);
    &&& table[k].0 == lam.id
    &&& exists|i: int| #[trigger]
        holds_tree(g, rs, i, names_in(env, table, src.locals.len(), true), src)
}

pub open spec fn has_instance(env: LowEnv, g: GenView, rs: Seq<Routine>, key: InstKeyView) -> bool {
    exists|table: Seq<(u32, usize, usize)>| #[trigger] holds_instance(env, g, rs, key, table)
}

proof fn lemma_tree_stays(
    a: GenView,
    ra: Seq<Routine>,
    b: GenView,
    rb: Seq<Routine>,
    env: LowEnv,
    src: Source,
)
    requires
        ra.len() == a.bodies.len(),
        starts_with(rb, ra),
        fuller(b, a),
        exists|i: int| #[trigger] holds_tree(a, ra, i, env, src),
    ensures
        exists|i: int| #[trigger] holds_tree(b, rb, i, env, src),
{
    reveal(fuller);
    let i = choose|i: int| #[trigger] holds_tree(a, ra, i, env, src);
    assert(b.bodies[i] == a.bodies[i]);
    assert(holds_tree(b, rb, i, env, src));
}

proof fn lemma_lambda_stays(
    env: LowEnv,
    a: GenView,
    ra: Seq<Routine>,
    b: GenView,
    rb: Seq<Routine>,
    inst: InstanceView,
    table: Seq<(u32, usize, usize)>,
    k: int,
)
    requires
        ra.len() == a.bodies.len(),
        starts_with(rb, ra),
        fuller(b, a),
        holds_lambda(env, a, ra, inst, table, k),
    ensures
        holds_lambda(env, b, rb, inst, table, k),
{
    let lam = lambdas_in_block(inst.def.body)[k];
    let src = lambda_source(inst, lam, table[k].1);
    lemma_tree_stays(a, ra, b, rb, names_in(env, table, src.locals.len(), true), src);
}

proof fn lemma_instance_stays(
    env: LowEnv,
    a: GenView,
    ra: Seq<Routine>,
    b: GenView,
    rb: Seq<Routine>,
    key: InstKeyView,
)
    requires
        ra.len() == a.bodies.len(),
        starts_with(rb, ra),
        fuller(b, a),
        has_instance(env, a, ra, key),
    ensures
        has_instance(env, b, rb, key),
{
    let table = choose|table: Seq<(u32, usize, usize)>| #[trigger]
        holds_instance(env, a, ra, key, table);
    let inst = instance(env, key);
    let lams = lambdas_in_block(inst.def.body);
    lemma_tree_stays(
        a,
        ra,
        b,
        rb,
        names_in(env, table, inst.locals.len(), false),
        source_of(env, key),
    );
    assert forall|k: int| 0 <= k < lams.len() implies #[trigger] holds_lambda(
        env,
        b,
        rb,
        inst,
        table,
        k,
    ) by {
        assert(holds_lambda(env, a, ra, inst, table, k));
        lemma_lambda_stays(env, a, ra, b, rb, inst, table, k);
    }
    assert(holds_instance(env, b, rb, key, table));
}

// -- Bodies -----------------------------------------------------------------

/// One more body.
#[verifier::rlimit(30)]
proof fn lemma_body(
    env: LowEnv,
    g: GenView,
    src: Source,
    rs: Seq<Routine>,
    pending: Seq<usize>,
) -> (rs2: Seq<Routine>)
    requires
        compile_body(env, g, src) is Ok,
        compile_body(env, g, src)->Ok_0.funcs.len() <= usize::MAX,
        env.locals == src.locals.len(),
        made_all(g, rs),
        neat(g, pending),
        tidy(g),
        pending.len() > 0,
        pending[0] == src.func,
    ensures
        ({
            let g2 = compile_body(env, g, src)->Ok_0;
            &&& made_all(g2, rs2)
            &&& neat(g2, pending.skip(1))
            &&& tidy(g2)
            &&& fuller(g2, g)
            &&& starts_with(g2.work, g.work)
            &&& starts_with(rs2, rs)
            &&& new_planned(g2, g)
            &&& exists|i: int| #[trigger] holds_tree(g2, rs2, i, env, src)
        }),
{
    lemma_body_fuller(env, g, src);
    reveal(compile_body);
    let st = prologue(env, g, src);
    lemma_prologue_shape(env, g, src);
    write_gen_block(env, st, src.body);
    let s = gen_block(env, st, src.body)->Ok_0;
    let s1 = epilogue(s, src.ret);
    let g2 = compile_body(env, g, src)->Ok_0;
    assert(more_unit(s.g, g)) by {
        reveal(wrote);
    }
    assert(s1.g == s.g);
    lemma_more_is_fuller(s.g, g);
    lemma_neat_more(g, s.g, pending);
    lemma_made_more(g, s.g, rs);
    let mid = with_binds(rs, s.g.bodies);
    let rs2 = mid.push(Routine::Code(env, src));
    let n = s.g.bodies.len() as int;
    let b = g2.bodies[n];
    assert(fuller(g2, s.g) && fuller(g2, g2)) by {
        reveal(fuller);
    }
    assert(tidy(g2)) by {
        reveal(fuller);
    }
    assert(is_made(g2, b, rs2[n], g));
    assert forall|i: int| 0 <= i < g2.bodies.len() implies has_made(
        g2,
        #[trigger] g2.bodies[i],
        rs2[i],
    ) by {
        if i < n {
            assert(g2.bodies[i] == s.g.bodies[i]);
            lemma_still_made(s.g, g2, s.g.bodies[i], mid[i]);
        }
    }
    let rest = pending.skip(1);
    assert(neat(g2, rest)) by {
        assert forall|i: int| 0 <= i < g2.bodies.len() implies (#[trigger] g2.bodies[i]).func
            < g2.funcs.len() && (i < n ==> g2.bodies[i] == s.g.bodies[i]) && (i < n
            ==> g2.bodies[i].func != pending[0]) by {
            if i < n {
                assert(g2.bodies[i] == s.g.bodies[i]);
            }
        }
        assert forall|j: int| 0 <= j < rest.len() implies #[trigger] rest[j] == pending[j + 1] by {}
    }
    assert forall|k: int| g.insts.len() <= k < g2.insts.len() implies planned(
        g2,
        #[trigger] g2.insts[k],
        0,
    ) by {
        assert(planned(s.g, s.g.insts[k], 0));
        let j = choose|j: int| 0 <= j < s.g.work.len() && #[trigger] s.g.work[j] == s.g.insts[k];
        assert(g2.work[j] == g2.insts[k]);
    }
    assert(holds_tree(g2, rs2, n, env, src));
    rs2
}

proof fn lemma_body_fuller(env: LowEnv, g: GenView, src: Source)
    ensures
        compile_body(env, g, src) matches Ok(g2) ==> fuller(g2, g),
{
    reveal(compile_body);
    let st = prologue(env, g, src);
    lemma_prologue_shape(env, g, src);
    write_gen_block(env, st, src.body);
    if let Ok(g2) = compile_body(env, g, src) {
        let s = gen_block(env, st, src.body)->Ok_0;
        assert(fuller(s.g, g)) by {
            reveal(wrote);
            lemma_more_is_fuller(s.g, g);
        }
        assert(epilogue(s, src.ret).g == s.g);
        assert(fuller(g2, s.g)) by {
            reveal(fuller);
        }
        lemma_fuller_on(g, s.g, g2);
    }
}

// -- Lambdas ----------------------------------------------------------------

/// The symbols of lambdas from index `i` on.
pub open spec fn symbols_of(table: Seq<(u32, usize, usize)>, i: nat) -> Seq<usize> {
    Seq::new((table.len() - i) as nat, |k: int| table[i + k].1)
}

/// Symbols are declared for lambdas.
#[verifier::rlimit(30)]
proof fn lemma_declared_lambdas(
    g: GenView,
    lams: Seq<LambdaDefView>,
    inst: InstanceView,
    i: nat,
    acc: Seq<(u32, usize, usize)>,
    func: usize,
)
    requires
        declare_lambdas(g, lams, inst, i, acc) is Ok,
        declare_lambdas(g, lams, inst, i, acc)->Ok_0.0.funcs.len() <= usize::MAX,
        i == acc.len() <= lams.len(),
        neat(g, seq![func] + symbols_of(acc, 0)),
        forall|k: int| 0 <= k < acc.len() ==> (#[trigger] acc[k]).0 == lams[k].id,
    ensures
        ({
            let (g1, table) = declare_lambdas(g, lams, inst, i, acc)->Ok_0;
            &&& neat(g1, seq![func] + symbols_of(table, 0))
            &&& fuller(g1, g)
            &&& g1.bodies == g.bodies
            &&& g1.work == g.work
            &&& g1.insts == g.insts
            &&& table.len() == lams.len()
            &&& forall|k: int| 0 <= k < table.len() ==> (#[trigger] table[k]).0 == lams[k].id
        }),
    decreases lams.len() - i,
{
    lemma_lambdas_fuller(g, lams, inst, i, acc);
    if i < lams.len() {
        let lam = lams[i as int];
        let j = find_lambda_inst(inst.lambdas, lam.id, 0)->0;
        let info = inst.lambdas[j as int].1;
        let id = g.funcs.len() as usize;
        let g1 = declare_func(
            g,
            "crow_lambda."@ + dec_text(lam.id as nat) + suffix_text(inst.shapes),
            make_sig(info.params, info.ret, true),
            Linkage::Local,
        );
        let size = (8 * (1 + lam.captures.len())) as u64;
        let refs = capture_map(lam.captures, lam.captures.len());
        let (g2, d) = desc(g1, KIND_STRUCT, size, refs);
        let more = acc.push((lam.id, id, d));
        assert(g2.funcs == g1.funcs && g2.bodies == g1.bodies && g2.work == g1.work && g2.insts
            == g1.insts) by {
            reveal(desc);
        }
        lemma_lambdas_fuller(g2, lams, inst, i + 1, more);
        assert(g2.funcs.len() <= usize::MAX) by {
            reveal(fuller);
        }
        let was = seq![func] + symbols_of(acc, 0);
        let now = seq![func] + symbols_of(more, 0);
        assert(now =~= was.push(id));
        assert(neat(g2, now));
        lemma_declared_lambdas(g2, lams, inst, i + 1, more, func);
    }
}

proof fn lemma_lambdas_fuller(
    g: GenView,
    lams: Seq<LambdaDefView>,
    inst: InstanceView,
    i: nat,
    acc: Seq<(u32, usize, usize)>,
)
    ensures
        declare_lambdas(g, lams, inst, i, acc) matches Ok((g1, _)) ==> fuller(g1, g),
    decreases lams.len() - i,
{
    assert(fuller(g, g)) by {
        reveal(fuller);
    }
    if i < lams.len() && declare_lambdas(g, lams, inst, i, acc) is Ok {
        let lam = lams[i as int];
        let j = find_lambda_inst(inst.lambdas, lam.id, 0)->0;
        let info = inst.lambdas[j as int].1;
        let id = g.funcs.len() as usize;
        let g1 = declare_func(
            g,
            "crow_lambda."@ + dec_text(lam.id as nat) + suffix_text(inst.shapes),
            make_sig(info.params, info.ret, true),
            Linkage::Local,
        );
        let size = (8 * (1 + lam.captures.len())) as u64;
        let refs = capture_map(lam.captures, lam.captures.len());
        let (g2, d) = desc(g1, KIND_STRUCT, size, refs);
        write_desc(g1, KIND_STRUCT, size, refs);
        lemma_more_is_fuller(g2, g1);
        assert(fuller(g1, g)) by {
            reveal(fuller);
        }
        lemma_fuller_on(g, g1, g2);
        let more = acc.push((lam.id, id, d));
        lemma_lambdas_fuller(g2, lams, inst, i + 1, more);
        lemma_fuller_on(g, g2, declare_lambdas(g2, lams, inst, i + 1, more)->Ok_0.0);
    }
}

proof fn lemma_compiled_fuller(
    env: LowEnv,
    g: GenView,
    lams: Seq<LambdaDefView>,
    inst: InstanceView,
    table: Seq<(u32, usize, usize)>,
    i: nat,
)
    ensures
        compile_lambdas(env, g, lams, inst, table, i) matches Ok(g1) ==> fuller(g1, g),
    decreases lams.len() - i,
{
    assert(fuller(g, g)) by {
        reveal(fuller);
    }
    if i < lams.len() && compile_lambdas(env, g, lams, inst, table, i) is Ok {
        let src = lambda_source(inst, lams[i as int], table[i as int].1);
        let names = names_in(env, table, src.locals.len(), true);
        lemma_body_fuller(names, g, src);
        let g1 = compile_body(names, g, src)->Ok_0;
        lemma_compiled_fuller(env, g1, lams, inst, table, i + 1);
        lemma_fuller_on(g, g1, compile_lambdas(env, g1, lams, inst, table, i + 1)->Ok_0);
    }
}

/// The bodies of the lambdas from index `i` on.
#[verifier::rlimit(30)]
proof fn lemma_lambdas(
    env: LowEnv,
    g: GenView,
    inst: InstanceView,
    table: Seq<(u32, usize, usize)>,
    i: nat,
    rs: Seq<Routine>,
) -> (rs2: Seq<Routine>)
    requires
        ({
            let r = compile_lambdas(env, g, lambdas_in_block(inst.def.body), inst, table, i);
            r is Ok && r->Ok_0.funcs.len() <= usize::MAX
        }),
        i <= table.len() == lambdas_in_block(inst.def.body).len(),
        made_all(g, rs),
        neat(g, symbols_of(table, i)),
        tidy(g),
        forall|k: int|
            0 <= k < table.len() ==> (#[trigger] table[k]).0 == lambdas_in_block(
                inst.def.body,
            )[k].id,
        forall|k: int| 0 <= k < i ==> #[trigger] holds_lambda(env, g, rs, inst, table, k),
    ensures
        ({
            let g2 = compile_lambdas(
                env,
                g,
                lambdas_in_block(inst.def.body),
                inst,
                table,
                i,
            )->Ok_0;
            &&& made_all(g2, rs2)
            &&& neat(g2, Seq::empty())
            &&& tidy(g2)
            &&& fuller(g2, g)
            &&& starts_with(g2.work, g.work)
            &&& starts_with(rs2, rs)
            &&& new_planned(g2, g)
            &&& forall|k: int|
                0 <= k < table.len() ==> #[trigger] holds_lambda(env, g2, rs2, inst, table, k)
        }),
    decreases table.len() - i,
{
    let lams = lambdas_in_block(inst.def.body);
    lemma_compiled_fuller(env, g, lams, inst, table, i);
    if i < table.len() {
        let src = lambda_source(inst, lams[i as int], table[i as int].1);
        let names = names_in(env, table, src.locals.len(), true);
        let g1 = compile_body(names, g, src)->Ok_0;
        let g2 = compile_lambdas(env, g1, lams, inst, table, i + 1)->Ok_0;
        lemma_compiled_fuller(env, g1, lams, inst, table, i + 1);
        assert(g1.funcs.len() <= usize::MAX) by {
            reveal(fuller);
        }
        let pending = symbols_of(table, i);
        let ra = lemma_body(names, g, src, rs, pending);
        assert(pending.skip(1) =~= symbols_of(table, i + 1));
        assert forall|k: int| 0 <= k < i + 1 implies #[trigger] holds_lambda(
            env,
            g1,
            ra,
            inst,
            table,
            k,
        ) by {
            if k < i {
                assert(holds_lambda(env, g, rs, inst, table, k));
                lemma_lambda_stays(env, g, rs, g1, ra, inst, table, k);
            } else {
                assert(table[k].0 == lams[k].id);
            }
        }
        let rb = lemma_lambdas(env, g1, inst, table, i + 1, ra);
        lemma_planned_on(g, g1, g2);
        rb
    } else {
        assert(symbols_of(table, i) =~= Seq::empty());
        rs
    }
}

proof fn lemma_planned_on(a: GenView, b: GenView, c: GenView)
    requires
        new_planned(b, a),
        new_planned(c, b),
        fuller(b, a),
        fuller(c, b),
        starts_with(b.work, a.work),
        starts_with(c.work, b.work),
    ensures
        new_planned(c, a),
        starts_with(c.work, a.work),
{
    reveal(fuller);
    assert forall|k: int| a.insts.len() <= k < c.insts.len() implies planned(
        c,
        #[trigger] c.insts[k],
        0,
    ) by {
        if k < b.insts.len() {
            assert(c.insts[k] == b.insts[k]);
            assert(planned(b, b.insts[k], 0));
            let j = choose|j: int| 0 <= j < b.work.len() && #[trigger] b.work[j] == b.insts[k];
            assert(c.work[j] == b.work[j]);
        }
    }
    assert forall|i: int| 0 <= i < a.work.len() implies #[trigger] c.work[i] == a.work[i] by {
        assert(b.work[i] == a.work[i]);
    }
}

// -- Scheduled functions ----------------------------------------------------

proof fn lemma_work_fuller(env: LowEnv, g: GenView, w: InstKeyView)
    ensures
        compile_work(env, g, w) matches Ok(g1) ==> fuller(g1, g),
{
    reveal(compile_work);
    if compile_work(env, g, w) is Ok {
        let inst = instance(env, w);
        let lams = lambdas_in_block(inst.def.body);
        lemma_lambdas_fuller(g, lams, inst, 0, Seq::empty());
        let (g1, table) = declare_lambdas(g, lams, inst, 0, Seq::empty())->Ok_0;
        let names = names_in(env, table, inst.locals.len(), false);
        lemma_body_fuller(names, g1, source_of(env, w));
        let g2 = compile_body(names, g1, source_of(env, w))->Ok_0;
        lemma_compiled_fuller(env, g2, lams, inst, table, 0);
        lemma_fuller_on(g, g1, g2);
        lemma_fuller_on(g, g2, compile_lambdas(env, g2, lams, inst, table, 0)->Ok_0);
    }
}

/// One scheduled function: its body and those of its lambdas.
#[verifier::rlimit(30)]
proof fn lemma_work(env: LowEnv, g: GenView, w: InstKeyView, rs: Seq<Routine>) -> (rs2: Seq<
    Routine,
>)
    requires
        compile_work(env, g, w) is Ok,
        compile_work(env, g, w)->Ok_0.funcs.len() <= usize::MAX,
        made_all(g, rs),
        neat(g, seq![w.func]),
        tidy(g),
    ensures
        ({
            let g2 = compile_work(env, g, w)->Ok_0;
            &&& made_all(g2, rs2)
            &&& neat(g2, Seq::empty())
            &&& tidy(g2)
            &&& fuller(g2, g)
            &&& starts_with(g2.work, g.work)
            &&& starts_with(rs2, rs)
            &&& new_planned(g2, g)
            &&& has_instance(env, g2, rs2, w)
        }),
{
    lemma_work_fuller(env, g, w);
    reveal(compile_work);
    let inst = instance(env, w);
    let lams = lambdas_in_block(inst.def.body);
    let (g1, table) = declare_lambdas(g, lams, inst, 0, Seq::empty())->Ok_0;
    let src = source_of(env, w);
    let names = names_in(env, table, inst.locals.len(), false);
    let g2 = compile_body(names, g1, src)->Ok_0;
    let g3 = compile_lambdas(env, g2, lams, inst, table, 0)->Ok_0;
    lemma_lambdas_fuller(g, lams, inst, 0, Seq::empty());
    lemma_body_fuller(names, g1, src);
    lemma_compiled_fuller(env, g2, lams, inst, table, 0);
    assert(g1.funcs.len() <= usize::MAX && g2.funcs.len() <= usize::MAX) by {
        reveal(fuller);
    }
    let none = Seq::<(u32, usize, usize)>::empty();
    assert(seq![w.func] + symbols_of(none, 0) =~= seq![w.func]);
    lemma_declared_lambdas(g, lams, inst, 0, none, w.func);
    assert(made_all(g1, rs)) by {
        lemma_made_more(g, g1, rs);
        assert(with_binds(rs, g1.bodies) =~= rs);
    }
    assert(tidy(g1)) by {
        reveal(fuller);
    }
    let pending = seq![w.func] + symbols_of(table, 0);
    let ra = lemma_body(names, g1, src, rs, pending);
    assert(pending.skip(1) =~= symbols_of(table, 0));
    let rb = lemma_lambdas(env, g2, inst, table, 0, ra);
    lemma_planned_on(g1, g2, g3);
    assert(new_planned(g3, g));
    lemma_tree_stays(g2, ra, g3, rb, names, src);
    assert(holds_instance(env, g3, rb, w, table));
    rb
}

// -- All that is scheduled --------------------------------------------------

/// Is the function scheduled, or does the unit hold it?
pub open spec fn accounted(env: LowEnv, g: GenView, rs: Seq<Routine>, key: InstKeyView) -> bool {
    planned(g, key, 0) || has_instance(env, g, rs, key)
}

/// A function that is not generic.
pub open spec fn plain_key(f: int, func: usize) -> InstKeyView {
    InstKeyView { fid: f as u32, shapes: Seq::empty(), func }
}

pub open spec fn all_accounted(env: LowEnv, g: GenView, rs: Seq<Routine>) -> bool {
    &&& forall|k: int| 0 <= k < g.insts.len() ==> accounted(env, g, rs, #[trigger] g.insts[k])
    &&& forall|f: int|
        0 <= f < env.func_ids.len() && (#[trigger] env.func_ids[f]) is Some ==> accounted(
            env,
            g,
            rs,
            plain_key(f, env.func_ids[f]->0),
        )
}

proof fn lemma_drain_fuller(env: LowEnv, g: GenView, n: nat)
    ensures
        drain(env, g, n) matches Some(Ok(out)) ==> fuller(out, g),
    decreases n,
{
    assert(fuller(g, g)) by {
        reveal(fuller);
    }
    if g.work.len() > 0 && n > 0 && (drain(env, g, n) matches Some(Ok(_))) {
        let less = GenView { work: g.work.drop_last(), ..g };
        let g1 = compile_work(env, less, g.work.last())->Ok_0;
        lemma_work_fuller(env, less, g.work.last());
        assert(fuller(less, g)) by {
            reveal(fuller);
        }
        lemma_fuller_on(g, less, g1);
        lemma_drain_fuller(env, g1, (n - 1) as nat);
        lemma_fuller_on(g, g1, drain(env, g1, (n - 1) as nat)->Some_0->Ok_0);
    }
}

proof fn lemma_accounted(
    env: LowEnv,
    g: GenView,
    rs: Seq<Routine>,
    g1: GenView,
    rs1: Seq<Routine>,
    key: InstKeyView,
)
    requires
        g.work.len() > 0,
        rs.len() == g.bodies.len(),
        accounted(env, g, rs, key),
        fuller(g1, g),
        starts_with(g1.work, g.work.drop_last()),
        starts_with(rs1, rs),
        has_instance(env, g1, rs1, g.work.last()),
    ensures
        accounted(env, g1, rs1, key),
{
    if planned(g, key, 0) {
        let j = choose|j: int| 0 <= j < g.work.len() && #[trigger] g.work[j] == key;
        if j < g.work.len() - 1 {
            assert(g.work.drop_last()[j] == key);
            assert(g1.work[j] == key);
        }
    } else {
        lemma_instance_stays(env, g, rs, g1, rs1, key);
    }
}

/// All that is scheduled is compiled.
#[verifier::rlimit(30)]
proof fn lemma_drained(env: LowEnv, g: GenView, n: nat, rs: Seq<Routine>) -> (rs2: Seq<Routine>)
    requires
        drain(env, g, n) matches Some(Ok(_)),
        drain(env, g, n)->Some_0->Ok_0.funcs.len() <= usize::MAX,
        made_all(g, rs),
        neat(g, Seq::empty()),
        tidy(g),
        all_accounted(env, g, rs),
    ensures
        ({
            let out = drain(env, g, n)->Some_0->Ok_0;
            &&& made_all(out, rs2)
            &&& neat(out, Seq::empty())
            &&& all_accounted(env, out, rs2)
            &&& out.work.len() == 0
            &&& fuller(out, g)
            &&& starts_with(rs2, rs)
        }),
    decreases n,
{
    lemma_drain_fuller(env, g, n);
    if g.work.len() > 0 {
        let w = g.work.last();
        let less = GenView { work: g.work.drop_last(), ..g };
        let g1 = compile_work(env, less, w)->Ok_0;
        let out = drain(env, g1, (n - 1) as nat)->Some_0->Ok_0;
        lemma_drain_fuller(env, g1, (n - 1) as nat);
        assert(g1.funcs.len() <= usize::MAX) by {
            reveal(fuller);
        }
        assert(fuller(less, g)) by {
            reveal(fuller);
        }
        assert(neat(less, seq![w.func])) by {
            assert forall|i: int| 0 <= i < less.work.len() implies #[trigger] less.work[i]
                == g.work[i] by {}
        }
        assert(made_all(less, rs)) by {
            lemma_made_more(g, less, rs);
            assert(with_binds(rs, less.bodies) =~= rs);
        }
        let ra = lemma_work(env, less, w, rs);
        lemma_fuller_on(g, less, g1);
        assert(all_accounted(env, g1, ra)) by {
            assert forall|k: int| 0 <= k < g1.insts.len() implies accounted(
                env,
                g1,
                ra,
                #[trigger] g1.insts[k],
            ) by {
                if k < g.insts.len() {
                    assert(g1.insts[k] == g.insts[k]) by {
                        reveal(fuller);
                    }
                    lemma_accounted(env, g, rs, g1, ra, g.insts[k]);
                }
            }
            assert forall|f: int|
                0 <= f < env.func_ids.len() && (
                #[trigger] env.func_ids[f]) is Some implies accounted(
                env,
                g1,
                ra,
                plain_key(f, env.func_ids[f]->0),
            ) by {
                lemma_accounted(env, g, rs, g1, ra, plain_key(f, env.func_ids[f]->0));
            }
        }
        let rb = lemma_drained(env, g1, (n - 1) as nat, ra);
        rb
    } else {
        rs
    }
}

// -- Declarations -----------------------------------------------------------

/// Is body `i` the adapter of the function value `val` of function `f`?
pub open spec fn thunk_at(
    g: GenView,
    rs: Seq<Routine>,
    i: int,
    f: int,
    func: usize,
    val: usize,
    closure: usize,
) -> bool {
    &&& 0 <= i < g.bodies.len()
    &&& rs[i] is Thunk
    &&& rs[i]->Thunk_0 == func
    &&& val < g.datas.len()
    &&& g.datas[val as int] == fnval_data(f as nat, closure, g.bodies[i].func)
}

/// Does the unit hold the function value?
pub open spec fn holds_value(
    g: GenView,
    rs: Seq<Routine>,
    f: int,
    func: usize,
    val: usize,
    closure: usize,
) -> bool {
    exists|i: int| #[trigger] thunk_at(g, rs, i, f, func, val, closure)
}

proof fn lemma_value_stays(
    a: GenView,
    ra: Seq<Routine>,
    b: GenView,
    rb: Seq<Routine>,
    f: int,
    func: usize,
    val: usize,
    closure: usize,
)
    requires
        ra.len() == a.bodies.len(),
        starts_with(rb, ra),
        fuller(b, a),
        holds_value(a, ra, f, func, val, closure),
    ensures
        holds_value(b, rb, f, func, val, closure),
{
    reveal(fuller);
    let i = choose|i: int| #[trigger] thunk_at(a, ra, i, f, func, val, closure);
    assert(b.bodies[i] == a.bodies[i] && b.datas[val as int] == a.datas[val as int]);
    assert(thunk_at(b, rb, i, f, func, val, closure));
}

/// The functions before index `i` are declared and scheduled, and those that
/// may be values have one.
pub open spec fn arranged(
    g: GenView,
    rs: Seq<Routine>,
    i: nat,
    ids: Seq<Option<usize>>,
    vals: Seq<Option<usize>>,
    closure: usize,
) -> bool {
    &&& made_all(g, rs)
    &&& neat(g, Seq::empty())
    &&& tidy(g)
    &&& g.insts.len() == 0
    &&& ids.len() == i
    &&& vals.len() == i
    &&& forall|f: int|
        0 <= f < i && (#[trigger] ids[f]) is Some ==> planned(g, plain_key(f, ids[f]->0), 0)
    &&& forall|f: int|
        0 <= f < i && (#[trigger] vals[f]) is Some ==> ids[f] is Some && holds_value(
            g,
            rs,
            f,
            ids[f]->0,
            vals[f]->0,
            closure,
        )
}

proof fn lemma_declare_fuller(
    program: ProgramView,
    checked: CheckedView,
    closure: usize,
    g: GenView,
    i: nat,
    ids: Seq<Option<usize>>,
    vals: Seq<Option<usize>>,
)
    ensures
        fuller(declare_functions(program, checked, closure, g, i, ids, vals).0, g),
    decreases program.funcs.len() - i,
{
    assert(fuller(g, g)) by {
        reveal(fuller);
    }
    if i < program.funcs.len() && i < checked.funcs.len() {
        let f = program.funcs[i as int];
        let s = checked.funcs[i as int];
        if f.type_params.len() > 0 {
            lemma_declare_fuller(
                program,
                checked,
                closure,
                g,
                i + 1,
                ids.push(None),
                vals.push(None),
            );
        } else {
            let id = g.funcs.len() as usize;
            let g2 = scheduled(g, f.name, s.params, s.ret, i);
            assert(fuller(g2, g)) by {
                reveal(fuller);
            }
            if f.is_method {
                let (a, b) = (ids.push(Some(id)), vals.push(None));
                lemma_declare_fuller(program, checked, closure, g2, i + 1, a, b);
                lemma_fuller_on(
                    g,
                    g2,
                    declare_functions(program, checked, closure, g2, i + 1, a, b).0,
                );
            } else {
                let (g3, val) = declare_value(g2, f.name, s.params, s.ret, id, closure, i);
                lemma_value_fuller(g2, f.name, s.params, s.ret, id, closure, i);
                lemma_fuller_on(g, g2, g3);
                let (a, b) = (ids.push(Some(id)), vals.push(Some(val)));
                lemma_declare_fuller(program, checked, closure, g3, i + 1, a, b);
                lemma_fuller_on(
                    g,
                    g3,
                    declare_functions(program, checked, closure, g3, i + 1, a, b).0,
                );
            }
        }
    }
}

/// The unit with one more function, which is scheduled.
pub open spec fn scheduled(
    g: GenView,
    name: Seq<char>,
    params: Seq<TypeView>,
    ret: TypeView,
    i: nat,
) -> GenView {
    let g1 = declare_func(g, "crow_fn."@ + name, make_sig(params, ret, false), Linkage::Local);
    GenView { work: g1.work.push(plain_key(i as int, g.funcs.len() as usize)), ..g1 }
}

proof fn lemma_value_fuller(
    g: GenView,
    name: Seq<char>,
    params: Seq<TypeView>,
    ret: TypeView,
    func: usize,
    closure: usize,
    i: nat,
)
    ensures
        fuller(declare_value(g, name, params, ret, func, closure, i).0, g),
{
    reveal(declare_value);
    let sig = make_sig(params, ret, true);
    let thunk = g.funcs.len() as usize;
    let g1 = declare_func(g, "crow_thunk."@ + name, sig, Linkage::Local);
    let g2 = GenView { bodies: g1.bodies.push(thunk_body(thunk, func, sig)), ..g1 };
    let d = fnval_data(i, closure, thunk);
    lemma_added(g2, d);
    lemma_more_is_fuller(add_data(g2, d), g2);
    assert(fuller(g2, g)) by {
        reveal(fuller);
    }
    lemma_fuller_on(g, g2, add_data(g2, d));
}

/// A function value joins the unit.
#[verifier::rlimit(30)]
proof fn lemma_value(
    g: GenView,
    name: Seq<char>,
    params: Seq<TypeView>,
    ret: TypeView,
    func: usize,
    closure: usize,
    i: nat,
    rs: Seq<Routine>,
) -> (rs2: Seq<Routine>)
    requires
        made_all(g, rs),
        neat(g, Seq::empty()),
        tidy(g),
        declare_value(g, name, params, ret, func, closure, i).0.funcs.len() <= usize::MAX,
        declare_value(g, name, params, ret, func, closure, i).0.datas.len() <= usize::MAX,
    ensures
        ({
            let (g3, val) = declare_value(g, name, params, ret, func, closure, i);
            &&& made_all(g3, rs2)
            &&& neat(g3, Seq::empty())
            &&& tidy(g3)
            &&& g3.insts == g.insts
            &&& g3.work == g.work
            &&& fuller(g3, g)
            &&& starts_with(rs2, rs)
            &&& holds_value(g3, rs2, i as int, func, val, closure)
        }),
{
    lemma_value_fuller(g, name, params, ret, func, closure, i);
    reveal(declare_value);
    let (g3, val) = declare_value(g, name, params, ret, func, closure, i);
    let sig = make_sig(params, ret, true);
    let thunk = g.funcs.len() as usize;
    let rs2 = rs.push(Routine::Thunk(func, sig));
    let n = g.bodies.len() as int;
    assert(g3.bodies == g.bodies.push(thunk_body(thunk, func, sig)));
    assert forall|j: int| 0 <= j < g3.bodies.len() implies has_made(
        g3,
        #[trigger] g3.bodies[j],
        rs2[j],
    ) by {
        if j < n {
            assert(g3.bodies[j] == g.bodies[j]);
            lemma_still_made(g, g3, g.bodies[j], rs[j]);
        } else {
            assert(is_made(g3, g3.bodies[j], rs2[j], g3));
        }
    }
    assert(neat(g3, Seq::empty())) by {
        assert forall|j: int| 0 <= j < g3.bodies.len() implies (#[trigger] g3.bodies[j]).func
            < g3.funcs.len() && (j < n ==> g3.bodies[j] == g.bodies[j]) by {
            if j < n {
                assert(g3.bodies[j] == g.bodies[j]);
            }
        }
    }
    assert(tidy(g3)) by {
        reveal(fuller);
    }
    assert(thunk_at(g3, rs2, n, i as int, func, val, closure));
    rs2
}

/// Functions are declared and scheduled.
#[verifier::rlimit(40)]
proof fn lemma_declared(
    program: ProgramView,
    checked: CheckedView,
    closure: usize,
    g: GenView,
    i: nat,
    ids: Seq<Option<usize>>,
    vals: Seq<Option<usize>>,
    rs: Seq<Routine>,
) -> (rs2: Seq<Routine>)
    requires
        arranged(g, rs, i, ids, vals, closure),
        declare_functions(program, checked, closure, g, i, ids, vals).0.funcs.len() <= usize::MAX,
        declare_functions(program, checked, closure, g, i, ids, vals).0.datas.len() <= usize::MAX,
    ensures
        ({
            let (g1, ids1, vals1) = declare_functions(
                program,
                checked,
                closure,
                g,
                i,
                ids,
                vals,
            );
            arranged(g1, rs2, ids1.len(), ids1, vals1, closure)
        }),
    decreases program.funcs.len() - i,
{
    if i < program.funcs.len() && i < checked.funcs.len() {
        let f = program.funcs[i as int];
        let s = checked.funcs[i as int];
        if f.type_params.len() > 0 {
            let (a, b) = (ids.push(None), vals.push(None));
            assert(arranged(g, rs, i + 1, a, b, closure)) by {
                assert forall|k: int| 0 <= k < i + 1 && (
                #[trigger] a[k]) is Some implies planned(g, plain_key(k, a[k]->0), 0) by {
                    assert(ids[k] is Some);
                }
                assert forall|k: int| 0 <= k < i + 1 && (
                #[trigger] b[k]) is Some implies a[k] is Some && holds_value(
                    g,
                    rs,
                    k,
                    a[k]->0,
                    b[k]->0,
                    closure,
                ) by {
                    assert(vals[k] is Some);
                }
            }
            lemma_declared(program, checked, closure, g, i + 1, a, b, rs)
        } else {
            let id = g.funcs.len() as usize;
            let g2 = scheduled(g, f.name, s.params, s.ret, i);
            assert(fuller(g2, g)) by {
                reveal(fuller);
            }
            let a = ids.push(Some(id));
            if f.is_method {
                let b = vals.push(None);
                lemma_declare_fuller(program, checked, closure, g2, i + 1, a, b);
                assert(g2.funcs.len() <= usize::MAX) by {
                    reveal(fuller);
                }
                lemma_scheduled(g, f.name, s.params, s.ret, i, ids, vals, closure, rs);
                assert(arranged(g2, rs, i + 1, a, b, closure)) by {
                    assert forall|k: int| 0 <= k < i + 1 && (
                    #[trigger] b[k]) is Some implies a[k] is Some && holds_value(
                        g2,
                        rs,
                        k,
                        a[k]->0,
                        b[k]->0,
                        closure,
                    ) by {
                        assert(vals[k] is Some);
                        lemma_value_stays(g, rs, g2, rs, k, ids[k]->0, vals[k]->0, closure);
                    }
                }
                lemma_declared(program, checked, closure, g2, i + 1, a, b, rs)
            } else {
                let (g3, val) = declare_value(g2, f.name, s.params, s.ret, id, closure, i);
                let b = vals.push(Some(val));
                lemma_declare_fuller(program, checked, closure, g3, i + 1, a, b);
                lemma_value_fuller(g2, f.name, s.params, s.ret, id, closure, i);
                assert(g2.funcs.len() <= g3.funcs.len() <= usize::MAX && g3.datas.len()
                    <= usize::MAX) by {
                    reveal(fuller);
                }
                lemma_scheduled(g, f.name, s.params, s.ret, i, ids, vals, closure, rs);
                let ra = lemma_value(g2, f.name, s.params, s.ret, id, closure, i, rs);
                lemma_fuller_on(g, g2, g3);
                assert(arranged(g3, ra, i + 1, a, b, closure)) by {
                    assert forall|k: int| 0 <= k < i + 1 && (
                    #[trigger] a[k]) is Some implies planned(g3, plain_key(k, a[k]->0), 0) by {
                        assert(planned(g2, plain_key(k, a[k]->0), 0));
                        let j = choose|j: int|
                            0 <= j < g2.work.len() && #[trigger] g2.work[j] == plain_key(
                                k,
                                a[k]->0,
                            );
                        assert(g3.work[j] == plain_key(k, a[k]->0));
                    }
                    assert forall|k: int| 0 <= k < i + 1 && (
                    #[trigger] b[k]) is Some implies a[k] is Some && holds_value(
                        g3,
                        ra,
                        k,
                        a[k]->0,
                        b[k]->0,
                        closure,
                    ) by {
                        if k < i {
                            assert(vals[k] is Some);
                            lemma_value_stays(g, rs, g3, ra, k, ids[k]->0, vals[k]->0, closure);
                        }
                    }
                }
                lemma_declared(program, checked, closure, g3, i + 1, a, b, ra)
            }
        }
    } else {
        rs
    }
}

/// One more function is scheduled.
proof fn lemma_scheduled(
    g: GenView,
    name: Seq<char>,
    params: Seq<TypeView>,
    ret: TypeView,
    i: nat,
    ids: Seq<Option<usize>>,
    vals: Seq<Option<usize>>,
    closure: usize,
    rs: Seq<Routine>,
)
    requires
        arranged(g, rs, i, ids, vals, closure),
        g.funcs.len() < usize::MAX,
    ensures
        ({
            let g2 = scheduled(g, name, params, ret, i);
            let a = ids.push(Some(g.funcs.len() as usize));
            &&& made_all(g2, rs)
            &&& neat(g2, Seq::empty())
            &&& tidy(g2)
            &&& g2.insts.len() == 0
            &&& forall|k: int|
                0 <= k < i + 1 && (#[trigger] a[k]) is Some ==> planned(
                    g2,
                    plain_key(k, a[k]->0),
                    0,
                )
        }),
{
    let g2 = scheduled(g, name, params, ret, i);
    let id = g.funcs.len() as usize;
    let a = ids.push(Some(id));
    let n = g.work.len() as int;
    assert(fuller(g2, g)) by {
        reveal(fuller);
    }
    assert(made_all(g2, rs)) by {
        lemma_made_more(g, g2, rs);
        assert(with_binds(rs, g2.bodies) =~= rs);
    }
    assert(neat(g2, Seq::empty())) by {
        assert forall|j: int| 0 <= j < g2.work.len() implies (#[trigger] g2.work[j]).func
            < g2.funcs.len() && (j < n ==> g2.work[j] == g.work[j]) by {
            if j < n {
                assert(g2.work[j] == g.work[j]);
            }
        }
    }
    assert forall|k: int| 0 <= k < i + 1 && (#[trigger] a[k]) is Some implies planned(
        g2,
        plain_key(k, a[k]->0),
        0,
    ) by {
        if k < i {
            assert(ids[k] is Some);
            assert(planned(g, plain_key(k, ids[k]->0), 0));
            let j = choose|j: int|
                0 <= j < g.work.len() && #[trigger] g.work[j] == plain_key(k, ids[k]->0);
            assert(g2.work[j] == plain_key(k, a[k]->0));
        } else {
            assert(g2.work[n] == plain_key(k, id));
        }
    }
}

// -- Compiled programs ------------------------------------------------------

/// The routine of a symbol.
pub open spec fn routine_of(p: Program, f: usize) -> Option<Routine> {
    match body_of(p.g.bodies, f, 0) {
        None => None,
        Some(i) => Some(p.routines[i as int]),
    }
}

/// Is the symbol's routine the tree of the instantiation, and are those of its
/// lambdas, whose symbols the table lists, the lambdas' trees?
pub open spec fn is_instance_with(
    p: Program,
    env: LowEnv,
    key: InstKeyView,
    table: Seq<(u32, usize, usize)>,
) -> bool {
    let inst = instance(env, key);
    let lams = lambdas_in_block(inst.def.body);
    &&& routine_of(p, key.func) == Some(
        Routine::Code(names_in(env, table, inst.locals.len(), false), source_of(env, key)),
    )
    &&& table.len() == lams.len()
    &&& forall|k: int|
        0 <= k < lams.len() ==> {
            let src = lambda_source(inst, lams[k], table[k].1);
            &&& (#[trigger] table[k]).0 == lams[k].id
            &&& routine_of(p, table[k].1) == Some(
                Routine::Code(names_in(env, table, src.locals.len(), true), src),
            )
        }
}

pub open spec fn is_instance(p: Program, env: LowEnv, key: InstKeyView) -> bool {
    exists|table: Seq<(u32, usize, usize)>| #[trigger] is_instance_with(p, env, key, table)
}

/// Is the function value of function `f` the static closure of an adapter that
/// calls the function?
pub open spec fn is_function_value(p: Program, env: LowEnv, f: int, closure: usize) -> bool {
    exists|thunk: usize, sig: SigView|
        #![trigger fnval_data(f as nat, closure, thunk), make_thunk(env.func_ids[f]->0, sig)]
        {
            &&& p.g.datas[env.fnvals[f]->0 as int] == fnval_data(f as nat, closure, thunk)
            &&& routine_of(p, thunk) == Some(make_thunk(env.func_ids[f]->0, sig))
        }
}

pub open spec fn make_thunk(func: usize, sig: SigView) -> Routine {
    Routine::Thunk(func, sig)
}

/// Is this the unit of the program: does every function that is not generic,
/// and every instantiation of one that is, have its tree behind its symbol, and
/// every function value its function?
pub open spec fn is_compiled(p: Program, env: LowEnv, closure: usize) -> bool {
    &&& is_unit(p)
    &&& forall|f: int|
        0 <= f < env.func_ids.len() && (#[trigger] env.func_ids[f]) is Some ==> is_instance(
            p,
            env,
            plain_key(f, env.func_ids[f]->0),
        )
    &&& forall|k: int|
        0 <= k < p.g.insts.len() ==> is_instance(p, env, #[trigger] p.g.insts[k])
    &&& forall|f: int|
        0 <= f < env.fnvals.len() && (#[trigger] env.fnvals[f]) is Some ==> is_function_value(
            p,
            env,
            f,
            closure,
        )
}

proof fn lemma_routine(p: Program, i: int)
    requires
        neat(p.g, Seq::empty()),
        0 <= i < p.g.bodies.len(),
    ensures
        routine_of(p, p.g.bodies[i].func) == Some(p.routines[i]),
{
    lemma_body_of(p.g.bodies, p.g.bodies[i].func, 0, i);
}

proof fn lemma_instance(p: Program, env: LowEnv, key: InstKeyView)
    requires
        neat(p.g, Seq::empty()),
        has_instance(env, p.g, p.routines, key),
    ensures
        is_instance(p, env, key),
{
    let table = choose|table: Seq<(u32, usize, usize)>| #[trigger]
        holds_instance(env, p.g, p.routines, key, table);
    let inst = instance(env, key);
    let lams = lambdas_in_block(inst.def.body);
    let names = names_in(env, table, inst.locals.len(), false);
    let i = choose|i: int| #[trigger]
        holds_tree(p.g, p.routines, i, names, source_of(env, key));
    lemma_routine(p, i);
    assert forall|k: int| 0 <= k < lams.len() implies {
        let src = lambda_source(inst, lams[k], table[k].1);
        &&& (#[trigger] table[k]).0 == lams[k].id
        &&& routine_of(p, table[k].1) == Some(
            Routine::Code(names_in(env, table, src.locals.len(), true), src),
        )
    } by {
        assert(holds_lambda(env, p.g, p.routines, inst, table, k));
        let src = lambda_source(inst, lams[k], table[k].1);
        let names = names_in(env, table, src.locals.len(), true);
        let j = choose|j: int| #[trigger] holds_tree(p.g, p.routines, j, names, src);
        lemma_routine(p, j);
    }
    assert(is_instance_with(p, env, key, table));
}

/// May a machine hold the unit?
pub open spec fn fits_machine(g: GenView) -> bool {
    &&& g.funcs.len() <= usize::MAX
    &&& g.datas.len() <= usize::MAX
    &&& forall|i: int|
        0 <= i < g.bodies.len() ==> (#[trigger] g.bodies[i]).ops.len() <= usize::MAX
            && g.bodies[i].vars.len() <= usize::MAX
}

/// What a program is compiled to is a unit of it: every function, every
/// instantiation and every lambda has its tree behind its symbol, and every
/// function value its function. So [`law_program_over_memory`] holds of it.
pub proof fn law_compiled_over_memory(
    program: ProgramView,
    checked: CheckedView,
    n: nat,
    layout: Layout,
) -> (p: Program)
    requires
        lower_steps(program, checked, n) matches Some(Ok(_)),
        bodies_sound(lower_steps(program, checked, n)->Some_0->Ok_0),
        fits_machine(lower_steps(program, checked, n)->Some_0->Ok_0),
        sized(layout),
    ensures
        p.g == lower_steps(program, checked, n)->Some_0->Ok_0,
        p.layout == layout,
        is_compiled(
            p,
            declared(program, checked).1,
            desc(runtime_unit(), KIND_STRUCT, 8, 0).1,
        ),
{
    let start = runtime_unit();
    let (g0, closure) = desc(start, KIND_STRUCT, 8, 0);
    let (g, env) = declared(program, checked);
    let out = lower_steps(program, checked, n)->Some_0->Ok_0;
    let none = Seq::<Routine>::empty();
    let no_ids = Seq::<Option<usize>>::empty();
    lemma_drain_fuller(env, g, n);
    assert(g.funcs.len() <= usize::MAX && g.datas.len() <= usize::MAX) by {
        reveal(fuller);
    }
    write_desc(start, KIND_STRUCT, 8, 0);
    assert(tidy(start));
    assert(arranged(g0, none, 0, no_ids, no_ids, closure)) by {
        assert(tidy(g0)) by {
            lemma_more_is_fuller(g0, start);
            reveal(fuller);
        }
        reveal(desc);
    }
    let ra = lemma_declared(program, checked, closure, g0, 0, no_ids, no_ids, none);
    assert(all_accounted(env, g, ra));
    let rb = lemma_drained(env, g, n, ra);
    let p = Program { g: out, routines: rb, layout };
    assert forall|i: int| 0 <= i < p.g.bodies.len() implies {
        &&& runnable((#[trigger] p.g.bodies[i]).ops)
        &&& p.g.bodies[i].vars.len() <= usize::MAX
        &&& exists|before: GenView| #[trigger]
            is_made(p.g, p.g.bodies[i], p.routines[i], before)
    } by {
        reveal(bodies_sound);
        let b = out.bodies[i];
        assert(body_sound(b, out.funcs));
        assert(runnable(b.ops));
        assert(has_made(out, b, rb[i]));
        let before = choose|before: GenView| #[trigger] is_made(out, b, rb[i], before);
        assert(is_made(p.g, p.g.bodies[i], p.routines[i], before));
    }
    assert forall|f: int|
        0 <= f < env.func_ids.len() && (#[trigger] env.func_ids[f]) is Some implies is_instance(
        p,
        env,
        plain_key(f, env.func_ids[f]->0),
    ) by {
        assert(accounted(env, out, rb, plain_key(f, env.func_ids[f]->0)));
        lemma_instance(p, env, plain_key(f, env.func_ids[f]->0));
    }
    assert forall|k: int| 0 <= k < p.g.insts.len() implies is_instance(
        p,
        env,
        #[trigger] p.g.insts[k],
    ) by {
        assert(accounted(env, out, rb, out.insts[k]));
        lemma_instance(p, env, out.insts[k]);
    }
    assert forall|f: int|
        0 <= f < env.fnvals.len() && (
        #[trigger] env.fnvals[f]) is Some implies is_function_value(p, env, f, closure) by {
        let (func, val) = (env.func_ids[f]->0, env.fnvals[f]->0);
        assert(holds_value(g, ra, f, func, val, closure));
        lemma_value_stays(g, ra, out, rb, f, func, val, closure);
        let i = choose|i: int| #[trigger] thunk_at(out, rb, i, f, func, val, closure);
        lemma_routine(p, i);
        let thunk = out.bodies[i].func;
        let sig = rb[i]->Thunk_1;
        assert(make_thunk(func, sig) == rb[i]);
        assert(p.g.datas[val as int] == fnval_data(f as nat, closure, thunk));
    }
    p
}

/// From the source to the machine: of a source that the checker accepts, the
/// call of any symbol in the unit that it is compiled to comes to the value or
/// the panic that the call of the symbol's routine gives, leaves the same
/// memory and prints the same text; and the routines are the program's
/// functions, instantiations and lambdas.
pub proof fn law_source_runs_over_memory(
    source: ProgramView,
    n: nat,
    layout: Layout,
    f: usize,
    xs: Seq<int>,
    w: World,
    depth: nat,
) -> (p: Program)
    requires
        check_spec(source) is Ok,
        ({
            let (program, checked) = check_spec(source)->Ok_0;
            let r = lower_steps(program, checked, n);
            &&& r matches Some(Ok(_))
            &&& bodies_sound(r->Some_0->Ok_0)
            &&& fits_machine(r->Some_0->Ok_0)
        }),
        sized(layout),
    ensures
        ({
            let (program, checked) = check_spec(source)->Ok_0;
            &&& p.g == lower_steps(program, checked, n)->Some_0->Ok_0
            &&& p.layout == layout
            &&& is_compiled(
                p,
                declared(program, checked).1,
                desc(runtime_unit(), KIND_STRUCT, 8, 0).1,
            )
            &&& answers(
                run_symbol(p.g, layout, f, words(xs), w, depth),
                invoke(p, f, xs, w, depth),
            )
        }),
{
    let (program, checked) = check_spec(source)->Ok_0;
    let p = law_compiled_over_memory(program, checked, n, layout);
    law_program_over_memory(p, f, xs, w, depth);
    p
}

/// From the text to the machine: of a text that is built, a call of `main` in
/// the unit comes to what the program's `main` gives, leaves the same memory and
/// prints the same text.
pub proof fn law_text_runs(
    text: Seq<char>,
    n: nat,
    layout: Layout,
    xs: Seq<int>,
    w: World,
    depth: nat,
) -> (p: Program)
    requires
        built(text) is Ok,
        lower_steps(checked_text(text)->Ok_0.0, checked_text(text)->Ok_0.1, n) is Some,
        bodies_sound(built(text)->Ok_0.0),
        fits_machine(built(text)->Ok_0.0),
        sized(layout),
    ensures
        ({
            let (program, checked) = checked_text(text)->Ok_0;
            let (g, main) = built(text)->Ok_0;
            let env = declared(program, checked).1;
            let f = position(func_names(program), "main"@)->0 as int;
            &&& p.g == g
            &&& p.layout == layout
            &&& is_compiled(p, env, desc(runtime_unit(), KIND_STRUCT, 8, 0).1)
            &&& program.funcs[f].name == "main"@
            &&& is_instance(p, env, plain_key(f, main))
            &&& answers(
                run_symbol(g, layout, main, words(xs), w, depth),
                invoke(p, main, xs, w, depth),
            )
        }),
{
    let (program, checked) = checked_text(text)->Ok_0;
    let (g, main) = built(text)->Ok_0;
    let env = declared(program, checked).1;
    law_lowering_is_unique(program, checked, n, n);
    let p = law_compiled_over_memory(program, checked, n, layout);
    law_program_over_memory(p, main, xs, w, depth);
    let f = position(func_names(program), "main"@)->0 as int;
    lemma_position_from(func_names(program), "main"@, 0);
    assert(func_names(program)[f] == "main"@);
    assert(env.func_ids[f] == Some(main));
    p
}

} // verus!
