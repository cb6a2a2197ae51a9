//! What a unit shares: descriptors by object shape, the objects of bare
//! variants, and compiled bodies by the shapes of their type arguments.
use vstd::prelude::*;

use crate::lower::{
    bare_variant, desc, find_bare, find_desc, find_inst, inst_func, shapes_of, GenView,
    InstKeyView, LowEnv,
};
use crate::mono::Shape;
use crate::types::TypeView;

verus! {

/// Does `long` go on from `short`?
pub open spec fn goes_on_from<T>(long: Seq<T>, short: Seq<T>) -> bool {
    short.len() <= long.len() && forall|i: int|
        0 <= i < short.len() ==> #[trigger] long[i] == short[i]
}

/// Is this the same unit later on? Its tables only grow.
pub open spec fn later(g: GenView, before: GenView) -> bool {
    &&& goes_on_from(g.descs, before.descs)
    &&& goes_on_from(g.bare, before.bare)
    &&& goes_on_from(g.insts, before.insts)
    &&& goes_on_from(g.datas, before.datas)
    &&& goes_on_from(g.funcs, before.funcs)
}

proof fn lemma_found_desc(
    long: Seq<(u64, u64, u64, usize)>,
    short: Seq<(u64, u64, u64, usize)>,
    kind: u64,
    size: u64,
    refs: u64,
    i: nat,
)
    requires
        goes_on_from(long, short),
    ensures
        find_desc(short, kind, size, refs, i) is Some ==> find_desc(long, kind, size, refs, i)
            == find_desc(short, kind, size, refs, i),
        find_desc(short, kind, size, refs, i) is None && i <= short.len() && short.len()
            < long.len() && long[short.len() as int].0 == kind && long[short.len() as int].1
            == size && long[short.len() as int].2 == refs ==> find_desc(
            long,
            kind,
            size,
            refs,
            i,
        ) == Some(long[short.len() as int].3),
    decreases short.len() - i,
{
    if i < short.len() {
        assert(long[i as int] == short[i as int]);
        lemma_found_desc(long, short, kind, size, refs, i + 1);
    }
}

proof fn lemma_found_bare(
    long: Seq<(u32, u32, usize)>,
    short: Seq<(u32, u32, usize)>,
    eid: u32,
    tag: u32,
    i: nat,
)
    requires
        goes_on_from(long, short),
    ensures
        find_bare(short, eid, tag, i) is Some ==> find_bare(long, eid, tag, i) == find_bare(
            short,
            eid,
            tag,
            i,
        ),
        find_bare(short, eid, tag, i) is None && i <= short.len() && short.len() < long.len()
            && long[short.len() as int].0 == eid && long[short.len() as int].1 == tag
            ==> find_bare(long, eid, tag, i) == Some(long[short.len() as int].2),
    decreases short.len() - i,
{
    if i < short.len() {
        assert(long[i as int] == short[i as int]);
        lemma_found_bare(long, short, eid, tag, i + 1);
    }
}

proof fn lemma_found_inst(
    long: Seq<InstKeyView>,
    short: Seq<InstKeyView>,
    fid: u32,
    shapes: Seq<Shape>,
    i: nat,
)
    requires
        goes_on_from(long, short),
    ensures
        find_inst(short, fid, shapes, i) is Some ==> find_inst(long, fid, shapes, i) == find_inst(
            short,
            fid,
            shapes,
            i,
        ),
        find_inst(short, fid, shapes, i) is None && i <= short.len() && short.len() < long.len()
            && long[short.len() as int].fid == fid && long[short.len() as int].shapes == shapes
            ==> find_inst(long, fid, shapes, i) == Some(long[short.len() as int].func),
    decreases short.len() - i,
{
    if i < short.len() {
        assert(long[i as int] == short[i as int]);
        lemma_found_inst(long, short, fid, shapes, i + 1);
    }
}

/// An object shape has one descriptor: whoever asks for it later gets the
/// same, and nothing is defined anew.
pub proof fn law_descriptor_is_shared(g: GenView, kind: u64, size: u64, refs: u64, end: GenView)
    requires
        later(end, desc(g, kind, size, refs).0),
    ensures
        later(desc(g, kind, size, refs).0, g),
        desc(end, kind, size, refs) == (end, desc(g, kind, size, refs).1),
{
    reveal(desc);
    let (g1, id) = desc(g, kind, size, refs);
    lemma_found_desc(g1.descs, g.descs, kind, size, refs, 0);
    lemma_found_desc(end.descs, g1.descs, kind, size, refs, 0);
}

/// Descriptors of different shapes are different, as long as each table entry
/// refers to data of its own.
pub proof fn law_new_descriptor_is_new(g: GenView, kind: u64, size: u64, refs: u64)
    requires
        find_desc(g.descs, kind, size, refs, 0) is None,
        g.datas.len() <= usize::MAX,
        forall|i: int| 0 <= i < g.descs.len() ==> (#[trigger] g.descs[i]).3 < g.datas.len(),
    ensures
        forall|i: int|
            0 <= i < g.descs.len() ==> (#[trigger] g.descs[i]).3 != desc(g, kind, size, refs).1,
        desc(g, kind, size, refs).0.descs.len() == g.descs.len() + 1,
{
    reveal(desc);
}

/// A bare variant is one object, so equality can be identity.
pub proof fn law_bare_variant_is_one(g: GenView, eid: u32, tag: u32, end: GenView)
    requires
        later(end, bare_variant(g, eid, tag).0),
    ensures
        later(bare_variant(g, eid, tag).0, g),
        bare_variant(end, eid, tag) == (end, bare_variant(g, eid, tag).1),
{
    reveal(bare_variant);
    reveal(desc);
    let (g1, id) = bare_variant(g, eid, tag);
    lemma_found_bare(g1.bare, g.bare, eid, tag, 0);
    lemma_found_bare(end.bare, g1.bare, eid, tag, 0);
}

/// A generic function is compiled once per shape of its type arguments:
/// arguments of the same shapes share one body.
pub proof fn law_instantiation_is_shared(
    env: LowEnv,
    g: GenView,
    fid: u32,
    a: Seq<TypeView>,
    b: Seq<TypeView>,
    end: GenView,
)
    requires
        shapes_of(a) == shapes_of(b),
        later(end, inst_func(env, g, fid, a).0),
    ensures
        later(inst_func(env, g, fid, a).0, g),
        inst_func(env, end, fid, b) == (end, inst_func(env, g, fid, a).1),
{
    reveal(inst_func);
    let (g1, id) = inst_func(env, g, fid, a);
    lemma_found_inst(g1.insts, g.insts, fid, shapes_of(a), 0);
    lemma_found_inst(end.insts, g1.insts, fid, shapes_of(a), 0);
}

/// Reference types have one shape, so a generic function has one body for all
/// of them.
pub proof fn law_references_share(
    env: LowEnv,
    g: GenView,
    fid: u32,
    a: Seq<TypeView>,
    b: Seq<TypeView>,
    end: GenView,
)
    requires
        a.len() == b.len(),
        forall|i: int| 0 <= i < a.len() ==> (#[trigger] a[i]).is_reference(),
        forall|i: int| 0 <= i < b.len() ==> (#[trigger] b[i]).is_reference(),
        later(end, inst_func(env, g, fid, a).0),
    ensures
        inst_func(env, end, fid, b) == (end, inst_func(env, g, fid, a).1),
{
    assert(shapes_of(a) =~= shapes_of(b)) by {
        assert forall|i: int| 0 <= i < a.len() implies shapes_of(a)[i] == shapes_of(b)[i] by {
            assert(a[i].is_reference() && b[i].is_reference());
        }
    }
    law_instantiation_is_shared(env, g, fid, a, b, end);
}

} // verus!
