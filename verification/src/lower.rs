//! What checked programs are lowered to.
//!
//! # References
//!
//! The collector is precise and moving, so compiled code must guarantee that
//! at every call that can allocate all live references are recoverable and
//! rewritable. Reference-typed variables and values are declared as such; the
//! code generator then spills live references around every call and rewrites
//! later uses into reloads.
//!
//! One invariant is maintained by construction: derived interior pointers
//! (field or element addresses) are never live across an allocation. They are
//! always computed immediately before a plain store or load, or before a call
//! to the non-allocating write barrier.
use vstd::prelude::*;

use crate::ast::{
    BinOp, BlockView, Builtin, CaptureView, ExprKindView, ExprView, LambdaDefView, PatArgsView,
    PatBinderView, PatternView, ProgramView, StmtView, UnOp, VarRes, VariantArgsView,
};
use crate::ir::{
    rt_table, tables_cover, well_formed, BodyView, DataDefView, FlagOp, FloatCC, FloatOp,
    FuncDeclView, IntCC, IntOp, IrType, Linkage, Op, Reloc, Rt, Scope, SigView, UnaryOp,
};
use crate::mono::{
    instance_of, representatives, suffix_text, InstanceView, LambdaInstView, Shape,
};
use crate::rules::CheckedView;
use crate::text::{dec_text, hex_text, position};
use crate::types::{
    field_offset, field_types, layout_size, IntKind, TypeView, VariantPayloadView,
};
use crate::typing::internal;
use crate::walk::{calls_in_block, lambdas_in_block};

verus! {

/// Bytes of an object's header.
pub const HEADER: i32 = 16;

/// Array object layout: { buf @16, len @24, cap @32 }.
pub const ARR_BUF: i32 = 16;

pub const ARR_LEN: i32 = 24;

/// Offset of an object's auxiliary word: a string's length, an enum's tag.
pub const AUX: i32 = 8;

/// Flag on the descriptor word of objects outside of the heap.
pub const FLAG_STATIC: i64 = 4;

/// Descriptor kind of objects with a reference map.
pub const KIND_STRUCT: u64 = 0;

// -- State ------------------------------------------------------------------

/// An instantiation: a function at argument shapes, and what it became.
#[verifier::ext_equal]
pub struct InstKeyView {
    pub fid: u32,
    pub shapes: Seq<Shape>,
    pub func: usize,
}

/// The unit so far, and what it already holds.
#[verifier::ext_equal]
pub struct GenView {
    pub funcs: Seq<FuncDeclView>,
    pub datas: Seq<DataDefView>,
    pub bodies: Seq<BodyView>,
    /// Descriptors by (kind, size, reference map).
    pub descs: Seq<(u64, u64, u64, usize)>,
    /// Instantiations of generic functions.
    pub insts: Seq<InstKeyView>,
    /// Adapters of bound methods.
    pub binds: Seq<InstKeyView>,
    /// The static objects of bare variants, by (enum, tag).
    pub bare: Seq<(u32, u32, usize)>,
    /// String literals.
    pub strs: Seq<usize>,
    /// Declared functions without a body yet.
    pub work: Seq<InstKeyView>,
}

/// The body being written.
#[verifier::ext_equal]
pub struct FnView {
    pub ops: Seq<Op>,
    /// (break target, continue target) of the loops around.
    pub loops: Seq<(usize, usize)>,
    /// Has control left the current block?
    pub terminated: bool,
    pub sigs: Seq<SigView>,
    pub floats: Seq<Seq<char>>,
}

#[verifier::ext_equal]
pub struct LowView {
    pub g: GenView,
    pub f: FnView,
}

/// What bodies refer to.
pub struct LowEnv {
    pub program: ProgramView,
    pub checked: CheckedView,
    /// Declared symbols of monomorphic functions.
    pub func_ids: Seq<Option<usize>>,
    /// Static closure objects of functions that may be values.
    pub fnvals: Seq<Option<usize>>,
    /// (function, descriptor) of every lambda in the current instantiation,
    /// by lambda id.
    pub lams: Seq<(u32, usize, usize)>,
    /// The number of locals.
    pub locals: nat,
    /// Is the body that of a lambda, with an environment?
    pub lambda: bool,
}

/// The place of the next instruction.
pub open spec fn next(st: LowView) -> usize {
    st.f.ops.len() as usize
}

/// The state with one more instruction.
pub open spec fn put(st: LowView, op: Op) -> LowView {
    LowView { f: FnView { ops: st.f.ops.push(op), ..st.f }, ..st }
}

// -- Types ------------------------------------------------------------------

/// The register class of a value.
pub open spec fn abi(t: TypeView) -> IrType {
    if t is Float {
        IrType::F64
    } else {
        IrType::I64
    }
}

pub open spec fn abis(ts: Seq<TypeView>) -> Seq<IrType> {
    Seq::new(ts.len(), |i: int| abi(ts[i]))
}

/// A signature; closures take their environment first.
pub open spec fn make_sig(params: Seq<TypeView>, ret: TypeView, with_env: bool) -> SigView {
    SigView {
        params: if with_env {
            seq![IrType::I64] + abis(params)
        } else {
            abis(params)
        },
        ret: if ret is Unit {
            None
        } else {
            Some(abi(ret))
        },
    }
}

/// The storage class of a narrow integer.
pub open spec fn small_ty(k: IntKind) -> IrType {
    if k.width() == 8 {
        IrType::I8
    } else if k.width() == 16 {
        IrType::I16
    } else {
        IrType::I32
    }
}

pub open spec fn reduce_op(k: IntKind) -> UnaryOp {
    if k.width() == 8 {
        UnaryOp::Reduce8
    } else if k.width() == 16 {
        UnaryOp::Reduce16
    } else {
        UnaryOp::Reduce32
    }
}

// -- Layout -----------------------------------------------------------------

pub open spec fn shapes_of(ts: Seq<TypeView>) -> Seq<Shape> {
    Seq::new(ts.len(), |i: int| ts[i].shape())
}

/// Does every type have a shape?
pub open spec fn all_shaped(ts: Seq<TypeView>) -> bool {
    forall|i: int| 0 <= i < ts.len() ==> (#[trigger] ts[i]).has_shape()
}

/// May an object have fields of these types? One word maps its references.
pub open spec fn layable(ts: Seq<TypeView>) -> bool {
    ts.len() <= 64 && forall|i: int| 0 <= i < ts.len() ==> !((#[trigger] ts[i]) is Param)
}

/// One bit per payload word, set where the first `n` fields hold a reference.
pub open spec fn refmap_upto(ts: Seq<TypeView>, n: nat) -> u64
    decreases n,
{
    if n == 0 {
        0
    } else {
        let before = refmap_upto(ts, (n - 1) as nat);
        if ts[n - 1].is_reference() {
            before | (1u64 << ((field_offset(ts, (n - 1) as nat) / 8) as u64))
        } else {
            before
        }
    }
}

pub open spec fn refmap(ts: Seq<TypeView>) -> u64 {
    refmap_upto(ts, ts.len())
}

/// The field types of a struct, at the representatives of its arguments'
/// shapes: layout depends only on these.
pub open spec fn struct_types(checked: CheckedView, sid: u32, targs: Seq<TypeView>) -> Seq<
    TypeView,
> {
    TypeView::subst_all(
        field_types(checked.structs[sid as int].fields),
        representatives(shapes_of(targs)),
    )
}

/// Can the struct be laid out at these arguments?
pub open spec fn struct_ok(checked: CheckedView, sid: u32, targs: Seq<TypeView>) -> bool {
    sid < checked.structs.len() && all_shaped(targs) && layable(struct_types(checked, sid, targs))
}

/// The payload types of a variant as declared.
pub open spec fn payload_types(p: VariantPayloadView) -> Seq<TypeView> {
    match p {
        VariantPayloadView::Bare => Seq::empty(),
        VariantPayloadView::Single(t) => seq![t],
        VariantPayloadView::Fields(fs) => field_types(fs),
    }
}

pub open spec fn variant_types(checked: CheckedView, eid: u32, targs: Seq<TypeView>, tag: u32) -> Seq<
    TypeView,
> {
    TypeView::subst_all(
        payload_types(checked.enums[eid as int].variants[tag as int].1),
        representatives(shapes_of(targs)),
    )
}

pub open spec fn variant_ok(
    checked: CheckedView,
    eid: u32,
    targs: Seq<TypeView>,
    tag: u32,
) -> bool {
    eid < checked.enums.len() && tag < checked.enums[eid as int].variants.len() && all_shaped(targs)
        && layable(variant_types(checked, eid, targs, tag))
}

/// The offset of a field from the object pointer.
pub open spec fn place(ts: Seq<TypeView>, index: u32) -> i32 {
    (HEADER + field_offset(ts, index as nat)) as i32
}

// -- The unit ---------------------------------------------------------------

pub open spec fn declare_func(g: GenView, name: Seq<char>, sig: SigView, linkage: Linkage) -> GenView {
    GenView { funcs: g.funcs.push(FuncDeclView { name, sig, linkage }), ..g }
}

pub open spec fn add_data(g: GenView, d: DataDefView) -> GenView {
    GenView { datas: g.datas.push(d), ..g }
}

pub open spec fn le8(v: u64) -> Seq<u8> {
    vstd::bytes::spec_u64_to_le_bytes(v)
}

pub open spec fn zeros(n: nat) -> Seq<u8> {
    Seq::new(n, |i: int| 0u8)
}

pub open spec fn desc_name(kind: u64, size: u64, refs: u64) -> Seq<char> {
    "crow_desc.k"@ + dec_text(kind as nat) + "s"@ + dec_text(size as nat) + "r"@ + hex_text(
        refs as nat,
    )
}

pub open spec fn desc_data(kind: u64, size: u64, refs: u64) -> DataDefView {
    DataDefView {
        name: desc_name(kind, size, refs),
        linkage: Linkage::Local,
        writable: false,
        align: 16,
        bytes: le8(kind) + le8(size) + le8(refs),
        relocs: Seq::empty(),
    }
}

/// The first descriptor of this kind, size and reference map.
pub open spec fn find_desc(
    descs: Seq<(u64, u64, u64, usize)>,
    kind: u64,
    size: u64,
    refs: u64,
    i: nat,
) -> Option<usize>
    decreases descs.len() - i,
{
    if i >= descs.len() {
        None
    } else if descs[i as int].0 == kind && descs[i as int].1 == size && descs[i as int].2 == refs {
        Some(descs[i as int].3)
    } else {
        find_desc(descs, kind, size, refs, i + 1)
    }
}

/// The descriptor for an object shape, defined once per distinct (kind, size,
/// reference map) and shared by everything that matches.
///
/// Sharing is sound only while descriptor identity carries no *type*
/// information.
#[verifier::opaque]
pub open spec fn desc(g: GenView, kind: u64, size: u64, refs: u64) -> (GenView, usize) {
    match find_desc(g.descs, kind, size, refs, 0) {
        Some(id) => (g, id),
        None => {
            let id = g.datas.len() as usize;
            let g1 = add_data(g, desc_data(kind, size, refs));
            (GenView { descs: g1.descs.push((kind, size, refs, id)), ..g1 }, id)
        },
    }
}

/// The number of bytes that fill a payload up to whole words.
pub open spec fn pad8(n: nat) -> nat {
    ((8 - n % 8) % 8) as nat
}

/// The data object of the runtime's string descriptor.
pub const DESC_STRING: usize = 0;

/// A string literal as a static, pre-built object.
pub open spec fn string_data(s: Seq<char>, n: nat) -> DataDefView {
    let bytes = vstd::utf8::encode_utf8(s);
    DataDefView {
        name: "crow_str."@ + dec_text(n),
        linkage: Linkage::Local,
        writable: true,
        align: 16,
        bytes: le8(0) + le8(bytes.len() as u64) + bytes + zeros(pad8(bytes.len())),
        relocs: seq![Reloc::Data { at: 0, data: DESC_STRING, plus: FLAG_STATIC }],
    }
}

#[verifier::opaque]
pub open spec fn add_string(g: GenView, s: Seq<char>) -> (GenView, usize) {
    let id = g.datas.len() as usize;
    let g1 = add_data(g, string_data(s, g.strs.len()));
    (GenView { strs: g1.strs.push(id), ..g1 }, id)
}

pub open spec fn find_bare(bare: Seq<(u32, u32, usize)>, eid: u32, tag: u32, i: nat) -> Option<usize>
    decreases bare.len() - i,
{
    if i >= bare.len() {
        None
    } else if bare[i as int].0 == eid && bare[i as int].1 == tag {
        Some(bare[i as int].2)
    } else {
        find_bare(bare, eid, tag, i + 1)
    }
}

/// A bare variant as a static, pre-built object: its tag and no payload.
pub open spec fn bare_data(eid: u32, tag: u32, desc: usize) -> DataDefView {
    DataDefView {
        name: "crow_variant."@ + dec_text(eid as nat) + "."@ + dec_text(tag as nat),
        linkage: Linkage::Local,
        writable: true,
        align: 16,
        bytes: le8(0) + le8(tag as u64),
        relocs: seq![Reloc::Data { at: 0, data: desc, plus: FLAG_STATIC }],
    }
}

/// The one object of a bare variant, so that equality is identity.
#[verifier::opaque]
pub open spec fn bare_variant(g: GenView, eid: u32, tag: u32) -> (GenView, usize) {
    match find_bare(g.bare, eid, tag, 0) {
        Some(id) => (g, id),
        None => {
            let (g1, d) = desc(g, KIND_STRUCT, 0, 0);
            let id = g1.datas.len() as usize;
            let g2 = add_data(g1, bare_data(eid, tag, d));
            (GenView { bare: g2.bare.push((eid, tag, id)), ..g2 }, id)
        },
    }
}

pub open spec fn find_inst(insts: Seq<InstKeyView>, fid: u32, shapes: Seq<Shape>, i: nat) -> Option<
    usize,
>
    decreases insts.len() - i,
{
    if i >= insts.len() {
        None
    } else if insts[i as int].fid == fid && insts[i as int].shapes == shapes {
        Some(insts[i as int].func)
    } else {
        find_inst(insts, fid, shapes, i + 1)
    }
}

/// May function `fid` be instantiated at these arguments?
pub open spec fn inst_ok(env: LowEnv, fid: u32, targs: Seq<TypeView>) -> bool {
    fid < env.program.funcs.len() && fid < env.checked.funcs.len() && fid
        < env.checked.func_locals.len() && targs.len() == env.checked.funcs[fid as int].type_params.len()
        && all_shaped(targs)
}

/// The declared symbol for a generic function instantiation, which is
/// declared and scheduled on first use.
#[verifier::opaque]
pub open spec fn inst_func(env: LowEnv, g: GenView, fid: u32, targs: Seq<TypeView>) -> (
    GenView,
    usize,
) {
    let shapes = shapes_of(targs);
    match find_inst(g.insts, fid, shapes, 0) {
        Some(id) => (g, id),
        None => {
            let canon = representatives(shapes);
            let sig = env.checked.funcs[fid as int];
            let id = g.funcs.len() as usize;
            let key = InstKeyView { fid, shapes, func: id };
            let g1 = declare_func(
                g,
                "crow_fn."@ + env.program.funcs[fid as int].name + suffix_text(shapes),
                make_sig(TypeView::subst_all(sig.params, canon), sig.ret.subst(canon), false),
                Linkage::Local,
            );
            (GenView { insts: g1.insts.push(key), work: g1.work.push(key), ..g1 }, id)
        },
    }
}

/// The symbol that a direct call refers to.
#[verifier::opaque]
pub open spec fn callee_of(
    env: LowEnv,
    g: GenView,
    fid: u32,
    inst: Seq<TypeView>,
    line: u32,
) -> Result<(GenView, usize), Seq<char>> {
    if inst.len() == 0 {
        if fid < env.func_ids.len() && env.func_ids[fid as int] is Some {
            Ok((g, env.func_ids[fid as int]->0))
        } else {
            Err(internal(line))
        }
    } else if inst_ok(env, fid, inst) {
        Ok(inst_func(env, g, fid, inst))
    } else {
        Err(internal(line))
    }
}

/// Arguments `from` to `n` of a function handed on to a call: each is a
/// parameter read and an argument.
pub open spec fn pass_on(ops: Seq<Op>, from: nat, n: nat) -> Seq<Op>
    decreases n - from,
{
    if from >= n {
        ops
    } else {
        pass_on(
            ops.push(Op::Param(from as usize)).push(Op::Arg(ops.len() as usize)),
            from + 1,
            n,
        )
    }
}

/// A call as the last thing of a body, whose result is the body's.
pub open spec fn tail_call(ops: Seq<Op>, func: usize, ret: Option<IrType>) -> Seq<Op> {
    let called = ops.push(Op::Call(func));
    if ret is Some {
        called.push(Op::ReturnValue(ops.len() as usize))
    } else {
        called.push(Op::Return)
    }
}

/// Adapts the closure calling convention (an extra environment argument) to
/// a direct call.
pub open spec fn thunk_body(id: usize, func: usize, sig: SigView) -> BodyView {
    BodyView {
        func: id,
        vars: Seq::empty(),
        ops: tail_call(pass_on(Seq::empty(), 1, sig.params.len()), func, sig.ret),
        sigs: Seq::empty(),
        floats: Seq::empty(),
    }
}

/// The instructions that hand a bound method its receiver, which stands in
/// the environment behind the code pointer.
pub open spec fn load_receiver() -> Seq<Op> {
    seq![Op::Param(0), Op::Load(IrType::I64, 0, 24), Op::Arg(1)]
}

pub open spec fn bind_body(id: usize, func: usize, sig: SigView) -> BodyView {
    BodyView {
        func: id,
        vars: Seq::empty(),
        ops: tail_call(pass_on(load_receiver(), 1, sig.params.len()), func, sig.ret),
        sigs: Seq::empty(),
        floats: Seq::empty(),
    }
}

/// The adapter of a bound method: it loads the receiver back out of the
/// environment and calls the method.
#[verifier::opaque]
pub open spec fn bind_func(
    env: LowEnv,
    g: GenView,
    fid: u32,
    inst: Seq<TypeView>,
    line: u32,
) -> Result<(GenView, usize), Seq<char>> {
    if !(fid < env.program.funcs.len() && fid < env.checked.funcs.len() && all_shaped(inst)
        && env.checked.funcs[fid as int].params.len() > 0) {
        Err(internal(line))
    } else {
        let shapes = shapes_of(inst);
        match find_inst(g.binds, fid, shapes, 0) {
            Some(id) => Ok((g, id)),
            None => match callee_of(env, g, fid, inst, line) {
                Err(m) => Err(m),
                Ok((g1, func)) => {
                    let canon = representatives(shapes);
                    let fsig = env.checked.funcs[fid as int];
                    let id = g1.funcs.len() as usize;
                    let sig = make_sig(
                        TypeView::subst_all(fsig.params, canon).skip(1),
                        fsig.ret.subst(canon),
                        true,
                    );
                    let g2 = declare_func(
                        g1,
                        "crow_bind."@ + env.program.funcs[fid as int].name + suffix_text(shapes),
                        sig,
                        Linkage::Local,
                    );
                    let key = InstKeyView { fid, shapes, func: id };
                    Ok(
                        (
                            GenView {
                                binds: g2.binds.push(key),
                                bodies: g2.bodies.push(bind_body(id, func, sig)),
                                ..g2
                            },
                            id,
                        ),
                    )
                },
            },
        }
    }
}

// -- Values -----------------------------------------------------------------

/// A value to read; a call without a result reads as zero.
pub open spec fn value_of(st: LowView, v: Option<usize>) -> (LowView, usize) {
    match v {
        Some(v) => (st, v),
        None => (put(st, Op::Iconst(0)), next(st)),
    }
}

/// A value that the collector must track if it is a reference.
pub open spec fn rooted(st: LowView, t: TypeView, v: usize) -> LowView {
    if t.is_reference() {
        put(st, Op::Root(v))
    } else {
        st
    }
}

pub open spec fn rt1(st: LowView, rt: Rt, a: usize) -> (LowView, usize) {
    let s = put(st, Op::Arg(a));
    (put(s, Op::CallRt(rt)), next(s))
}

pub open spec fn rt2(st: LowView, rt: Rt, a: usize, b: usize) -> (LowView, usize) {
    rt1(put(st, Op::Arg(a)), rt, b)
}

pub open spec fn rt3(st: LowView, rt: Rt, a: usize, b: usize, c: usize) -> (LowView, usize) {
    rt2(put(st, Op::Arg(a)), rt, b, c)
}

pub open spec fn rt4(st: LowView, rt: Rt, a: usize, b: usize, c: usize, d: usize) -> (
    LowView,
    usize,
) {
    rt3(put(st, Op::Arg(a)), rt, b, c, d)
}

/// Load a value, extending sized integers and bools to the canonical 64-bit
/// register form.
#[verifier::opaque]
pub open spec fn load_typed(st: LowView, ty: TypeView, base: usize, off: i32) -> (LowView, usize) {
    match ty {
        TypeView::Int(k) => if k.width() < 64 {
            let s = put(st, Op::Load(small_ty(k), base, off));
            (
                put(
                    s,
                    Op::Unary(
                        if k.is_signed() {
                            UnaryOp::Sextend
                        } else {
                            UnaryOp::Uextend
                        },
                        next(st),
                    ),
                ),
                next(s),
            )
        } else {
            (put(st, Op::Load(IrType::I64, base, off)), next(st))
        },
        TypeView::Bool => {
            let s = put(st, Op::Load(IrType::I8, base, off));
            (put(s, Op::Unary(UnaryOp::Uextend, next(st))), next(s))
        },
        _ => (put(st, Op::Load(abi(ty), base, off)), next(st)),
    }
}

/// Store a value, truncating sized integers and bools to their storage width.
pub open spec fn store_op(ty: TypeView, v: usize, base: usize, off: i32) -> Op {
    match ty {
        TypeView::Int(k) => if k.width() == 8 {
            Op::Store8(v, base, off)
        } else if k.width() == 16 {
            Op::Store16(v, base, off)
        } else if k.width() == 32 {
            Op::Store32(v, base, off)
        } else {
            Op::Store(v, base, off)
        },
        TypeView::Bool => Op::Store8(v, base, off),
        _ => Op::Store(v, base, off),
    }
}

/// Store into a field; a reference goes through the write barrier.
#[verifier::opaque]
pub open spec fn store_field(st: LowView, ty: TypeView, v: usize, obj: usize, off: i32) -> LowView {
    if ty.is_reference() {
        rt3(
            put(st, Op::IntImm(IntOp::Add, obj, off as i64)),
            Rt::WriteRef,
            obj,
            next(st),
            v,
        ).0
    } else {
        put(st, store_op(ty, v, obj, off))
    }
}

/// Store into an element whose address is known.
#[verifier::opaque]
pub open spec fn store_elem(st: LowView, ty: TypeView, v: usize, buf: usize, addr: usize) -> LowView {
    if ty.is_reference() {
        rt3(st, Rt::WriteRef, buf, addr, v).0
    } else {
        put(st, store_op(ty, v, addr, 0))
    }
}

/// A new object with the given payload and auxiliary word.
#[verifier::opaque]
pub open spec fn new_object(st: LowView, ts: Seq<TypeView>, aux: i64) -> (LowView, usize) {
    let (g, id) = desc(st.g, KIND_STRUCT, layout_size(ts) as u64, refmap(ts));
    new_of(LowView { g, ..st }, id, aux)
}

pub open spec fn new_of(st: LowView, id: usize, aux: i64) -> (LowView, usize) {
    let s1 = put(st, Op::DataAddr(id));
    let s2 = put(s1, Op::Iconst(aux));
    let (s3, obj) = rt2(s2, Rt::Alloc, next(st), next(s1));
    (put(s3, Op::Root(obj)), obj)
}

/// Bounds check and element address for an already evaluated array and
/// index. Gives (buffer, address); both are derived pointers.
#[verifier::opaque]
pub open spec fn index_addr(st: LowView, arr: usize, idx: usize, size: u32, line: u32) -> (
    LowView,
    usize,
    usize,
) {
    let s1 = put(st, Op::Load(IrType::I64, arr, ARR_LEN));
    let s2 = put(s1, Op::BoundsCheck(idx, next(st), line));
    let s3 = put(s2, Op::Load(IrType::I64, arr, ARR_BUF));
    let s4 = put(s3, Op::IntImm(IntOp::Mul, idx, size as i64));
    let s5 = put(s4, Op::IntImm(IntOp::Add, next(s3), HEADER as i64));
    (put(s5, Op::Int(IntOp::Add, next(s2), next(s4))), next(s2), next(s5))
}

// -- Arithmetic -------------------------------------------------------------

/// Shifts: the amount must be in `[0, bits)`. `>>` is arithmetic on signed
/// types and logical on unsigned ones; `<<` discards bits shifted out of the
/// width.
#[verifier::opaque]
pub open spec fn shift(st: LowView, op: BinOp, k: IntKind, l: usize, r: usize, line: u32) -> (
    LowView,
    usize,
) {
    let s1 = put(st, Op::CompareImm(IntCC::UnsignedGreaterThanOrEqual, r, k.width() as i64));
    let s2 = put(s1, Op::PanicIf(next(st), Rt::PanicShift, line));
    if op is Shr {
        // Canonical (extended) 64-bit operands make the 64-bit shift exact
        // for every width.
        (
            put(
                s2,
                Op::Int(
                    if k.is_signed() {
                        IntOp::Sshr
                    } else {
                        IntOp::Ushr
                    },
                    l,
                    r,
                ),
            ),
            next(s2),
        )
    } else {
        let s3 = put(s2, Op::Int(IntOp::Shl, l, r));
        // Re-canonicalize narrow results to their storage width.
        if k.width() == 64 {
            (s3, next(s2))
        } else if k.is_signed() {
            let s4 = put(s3, Op::Unary(reduce_op(k), next(s2)));
            (put(s4, Op::Unary(UnaryOp::Sextend, next(s3))), next(s4))
        } else {
            (put(s3, Op::IntImm(IntOp::And, next(s2), k.highest() as i64)), next(s3))
        }
    }
}

/// Panic if a narrow result overflowed the integer kind. Canonical operands
/// are small enough that the 64-bit result is exact, so overflow is just a
/// range check.
#[verifier::opaque]
pub open spec fn check_overflow(st: LowView, k: IntKind, v: usize, line: u32) -> LowView {
    let s1 = put(st, Op::CompareImm(IntCC::SignedLessThan, v, k.lowest() as i64));
    let s2 = put(s1, Op::CompareImm(IntCC::SignedGreaterThan, v, k.highest() as i64));
    let s3 = put(s2, Op::Int(IntOp::Or, next(st), next(s1)));
    put(s3, Op::PanicIf(next(s2), Rt::PanicOverflow, line))
}

/// Integer division with explicit zero and overflow handling.
#[verifier::opaque]
pub open spec fn divide(st: LowView, op: BinOp, k: IntKind, l: usize, r: usize, line: u32) -> (
    LowView,
    usize,
) {
    let s1 = put(st, Op::CompareImm(IntCC::Equal, r, 0));
    let s2 = put(s1, Op::PanicIf(next(st), Rt::PanicDiv, line));
    if !k.is_signed() {
        (
            put(
                s2,
                Op::Int(
                    if op is Div {
                        IntOp::Udiv
                    } else {
                        IntOp::Urem
                    },
                    l,
                    r,
                ),
            ),
            next(s2),
        )
    } else {
        divide_signed(s2, op, k, l, r, line)
    }
}

/// Signed division special-cases a divisor of -1, which overflows for
/// MIN / -1 and traps in hardware there.
#[verifier::opaque]
pub open spec fn divide_signed(
    st: LowView,
    op: BinOp,
    k: IntKind,
    l: usize,
    r: usize,
    line: u32,
) -> (LowView, usize) {
    let special = next(st);
    let s1 = put(st, Op::Block);
    let normal = next(s1);
    let s2 = put(s1, Op::Block);
    let merge = next(s2);
    let s3 = put(s2, Op::BlockOf(IrType::I64));
    let s4 = put(s3, Op::CompareImm(IntCC::Equal, r, (-1) as i64));
    let s5 = put(s4, Op::Brif(next(s3), special, normal));
    let s6 = put(s5, Op::SwitchTo(special));
    let s9 = if op is Div {
        let s7 = put(s6, Op::CompareImm(IntCC::Equal, l, k.lowest() as i64));
        let s8 = put(s7, Op::PanicIf(next(s6), Rt::PanicOverflow, line));
        put(s8, Op::Unary(UnaryOp::Ineg, l))
    } else {
        // x % -1 == 0
        put(s6, Op::Iconst(0))
    };
    let s10 = put(s9, Op::JumpWith(merge, (s9.f.ops.len() - 1) as usize));
    let s11 = put(s10, Op::SwitchTo(normal));
    let s12 = put(
        s11,
        Op::Int(
            if op is Div {
                IntOp::Sdiv
            } else {
                IntOp::Srem
            },
            l,
            r,
        ),
    );
    let s13 = put(s12, Op::JumpWith(merge, next(s11)));
    let s14 = put(s13, Op::SwitchTo(merge));
    (put(s14, Op::BlockParam(merge)), next(s14))
}

/// The flag-setting form of full-width arithmetic.
pub open spec fn flag_op(op: BinOp, signed: bool) -> FlagOp {
    match op {
        BinOp::Add => if signed {
            FlagOp::Sadd
        } else {
            FlagOp::Uadd
        },
        BinOp::Sub => if signed {
            FlagOp::Ssub
        } else {
            FlagOp::Usub
        },
        _ => if signed {
            FlagOp::Smul
        } else {
            FlagOp::Umul
        },
    }
}

pub open spec fn plain_op(op: BinOp) -> IntOp {
    match op {
        BinOp::Add => IntOp::Add,
        BinOp::Sub => IntOp::Sub,
        BinOp::Mul => IntOp::Mul,
        BinOp::BitAnd => IntOp::And,
        BinOp::BitOr => IntOp::Or,
        _ => IntOp::Xor,
    }
}

/// Checked addition, subtraction and multiplication. Full-width arithmetic
/// reads the hardware overflow flag.
#[verifier::opaque]
pub open spec fn checked_arith(
    st: LowView,
    op: BinOp,
    k: IntKind,
    l: usize,
    r: usize,
    line: u32,
) -> (LowView, usize) {
    if k.width() == 64 {
        let s1 = put(st, Op::Flagged(flag_op(op, k.is_signed()), l, r));
        let s2 = put(s1, Op::Flag(next(st)));
        (put(s2, Op::PanicIf(next(s1), Rt::PanicOverflow, line)), next(st))
    } else {
        let s1 = put(st, Op::Int(plain_op(op), l, r));
        (check_overflow(s1, k, next(st), line), next(st))
    }
}

/// Integer operators.
#[verifier::opaque]
pub open spec fn int_arith(
    st: LowView,
    op: BinOp,
    k: IntKind,
    l: usize,
    r: usize,
    line: u32,
) -> Result<(LowView, usize), Seq<char>> {
    match op {
        BinOp::Add => Ok(checked_arith(st, op, k, l, r, line)),
        BinOp::Sub => Ok(checked_arith(st, op, k, l, r, line)),
        BinOp::Mul => Ok(checked_arith(st, op, k, l, r, line)),
        BinOp::Div => Ok(divide(st, op, k, l, r, line)),
        BinOp::Rem => Ok(divide(st, op, k, l, r, line)),
        BinOp::BitAnd => Ok((put(st, Op::Int(plain_op(op), l, r)), next(st))),
        BinOp::BitOr => Ok((put(st, Op::Int(plain_op(op), l, r)), next(st))),
        BinOp::BitXor => Ok((put(st, Op::Int(plain_op(op), l, r)), next(st))),
        BinOp::Shl => Ok(shift(st, op, k, l, r, line)),
        BinOp::Shr => Ok(shift(st, op, k, l, r, line)),
        _ => Err(internal(line)),
    }
}

pub open spec fn float_op(op: BinOp) -> Option<FloatOp> {
    match op {
        BinOp::Add => Some(FloatOp::Add),
        BinOp::Sub => Some(FloatOp::Sub),
        BinOp::Mul => Some(FloatOp::Mul),
        BinOp::Div => Some(FloatOp::Div),
        _ => None,
    }
}

/// Arithmetic, bitwise and string-concat operators on already evaluated
/// operands of one type. Shared by binary expressions and compound
/// assignment. A reference (the concatenation) is already rooted.
#[verifier::opaque]
pub open spec fn arith(st: LowView, op: BinOp, ty: TypeView, l: usize, r: usize, line: u32) -> Result<
    (LowView, usize),
    Seq<char>,
> {
    match ty {
        TypeView::Str => if op is Add {
            let (s, v) = rt2(st, Rt::StrConcat, l, r);
            Ok((put(s, Op::Root(v)), v))
        } else {
            Err(internal(line))
        },
        TypeView::Float => match float_op(op) {
            Some(f) => Ok((put(st, Op::Float(f, l, r)), next(st))),
            None => Err(internal(line)),
        },
        TypeView::Int(k) => int_arith(st, op, k, l, r, line),
        _ => Err(internal(line)),
    }
}

pub open spec fn is_comparison(op: BinOp) -> bool {
    op is Eq || op is Ne || op is Lt || op is Le || op is Gt || op is Ge
}

pub open spec fn float_cc(op: BinOp) -> FloatCC {
    match op {
        BinOp::Eq => FloatCC::Equal,
        BinOp::Ne => FloatCC::NotEqual,
        BinOp::Lt => FloatCC::LessThan,
        BinOp::Le => FloatCC::LessThanOrEqual,
        BinOp::Gt => FloatCC::GreaterThan,
        _ => FloatCC::GreaterThanOrEqual,
    }
}

pub open spec fn int_cc(op: BinOp, signed: bool) -> IntCC {
    match op {
        BinOp::Eq => IntCC::Equal,
        BinOp::Ne => IntCC::NotEqual,
        BinOp::Lt => if signed {
            IntCC::SignedLessThan
        } else {
            IntCC::UnsignedLessThan
        },
        BinOp::Le => if signed {
            IntCC::SignedLessThanOrEqual
        } else {
            IntCC::UnsignedLessThanOrEqual
        },
        BinOp::Gt => if signed {
            IntCC::SignedGreaterThan
        } else {
            IntCC::UnsignedGreaterThan
        },
        _ => if signed {
            IntCC::SignedGreaterThanOrEqual
        } else {
            IntCC::UnsignedGreaterThanOrEqual
        },
    }
}

pub open spec fn signed_type(t: TypeView) -> bool {
    match t {
        TypeView::Int(k) => k.is_signed(),
        _ => true,
    }
}

/// A comparison of scalars, as a 64-bit truth value.
#[verifier::opaque]
pub open spec fn compare(st: LowView, op: BinOp, ty: TypeView, l: usize, r: usize) -> (
    LowView,
    usize,
) {
    let s1 = put(
        st,
        if ty is Float {
            Op::CompareFloat(float_cc(op), l, r)
        } else {
            Op::Compare(int_cc(op, signed_type(ty)), l, r)
        },
    );
    (put(s1, Op::Unary(UnaryOp::Uextend, next(st))), next(s1))
}

/// An operator other than the short-circuiting ones, on evaluated operands.
/// String equality goes through the runtime; other references are equal when
/// they are identical.
#[verifier::opaque]
pub open spec fn binary_values(
    st: LowView,
    op: BinOp,
    lt: TypeView,
    rt: TypeView,
    l: usize,
    r: usize,
    line: u32,
) -> Result<(LowView, usize), Seq<char>> {
    if lt is Str || rt is Str {
        match op {
            BinOp::Add => arith(st, op, TypeView::Str, l, r, line),
            BinOp::Eq => Ok(rt2(st, Rt::StrEq, l, r)),
            BinOp::Ne => {
                let (s, eq) = rt2(st, Rt::StrEq, l, r);
                Ok((put(s, Op::IntImm(IntOp::Xor, eq, 1)), next(s)))
            },
            _ => Err(internal(line)),
        }
    } else if is_comparison(op) {
        Ok(compare(st, op, lt, l, r))
    } else {
        arith(st, op, lt, l, r, line)
    }
}

/// A unary operator on an evaluated operand.
#[verifier::opaque]
pub open spec fn unary_value(st: LowView, op: UnOp, ty: TypeView, v: usize, line: u32) -> Result<
    (LowView, usize),
    Seq<char>,
> {
    match op {
        UnOp::Neg => match ty {
            TypeView::Float => Ok((put(st, Op::Unary(UnaryOp::Fneg, v)), next(st))),
            TypeView::Int(k) => {
                // Negating the most negative value overflows.
                let s1 = put(st, Op::CompareImm(IntCC::Equal, v, k.lowest() as i64));
                let s2 = put(s1, Op::PanicIf(next(st), Rt::PanicOverflow, line));
                Ok((put(s2, Op::Unary(UnaryOp::Ineg, v)), next(s2)))
            },
            _ => Err(internal(line)),
        },
        UnOp::Not => Ok((put(st, Op::IntImm(IntOp::Xor, v, 1)), next(st))),
        UnOp::BitNot => match ty {
            TypeView::Int(k) => {
                let s1 = put(st, Op::Unary(UnaryOp::Bnot, v));
                // Complement sets the (zero) extension bits of narrow unsigned
                // values. Sign-extended values are closed under it.
                if k.is_signed() || k.width() == 64 {
                    Ok((s1, next(st)))
                } else {
                    Ok(
                        (
                            put(s1, Op::IntImm(IntOp::And, next(st), k.highest() as i64)),
                            next(s1),
                        ),
                    )
                }
            },
            _ => Err(internal(line)),
        },
    }
}

// -- Casts ------------------------------------------------------------------

/// Does every value of kind `s` fit kind `d`?
pub open spec fn covers(s: IntKind, d: IntKind) -> bool {
    if s.is_signed() == d.is_signed() {
        d.width() >= s.width()
    } else {
        !s.is_signed() && d.width() > s.width()
    }
}

/// Between integers. A passing check leaves the bits unchanged: values in
/// range are identical in canonical form.
#[verifier::opaque]
pub open spec fn cast_int(st: LowView, s: IntKind, d: IntKind, v: usize, line: u32) -> LowView {
    if covers(s, d) {
        st
    } else if !s.is_signed() {
        // The target is not u64, so its maximum fits an immediate.
        let s1 = put(st, Op::CompareImm(IntCC::UnsignedGreaterThan, v, d.highest() as i64));
        put(s1, Op::PanicIf(next(st), Rt::PanicCast, line))
    } else if !d.is_signed() && d.width() == 64 {
        let s1 = put(st, Op::CompareImm(IntCC::SignedLessThan, v, 0));
        put(s1, Op::PanicIf(next(st), Rt::PanicCast, line))
    } else {
        let s1 = put(
            st,
            Op::CompareImm(
                IntCC::SignedLessThan,
                v,
                if d.is_signed() {
                    d.lowest() as i64
                } else {
                    0
                },
            ),
        );
        let s2 = put(s1, Op::CompareImm(IntCC::SignedGreaterThan, v, d.highest() as i64));
        let s3 = put(s2, Op::Int(IntOp::Or, next(st), next(s1)));
        put(s3, Op::PanicIf(next(s2), Rt::PanicCast, line))
    }
}

/// From a float: truncation toward zero, valid if the result is in range. A
/// NaN fails both comparisons.
#[verifier::opaque]
pub open spec fn cast_float(st: LowView, d: IntKind, v: usize, line: u32) -> (LowView, usize) {
    // The lowest full-width signed value is exact and no float lies strictly
    // between it and its predecessor, which is not representable.
    let exact = d.is_signed() && d.width() == 64;
    let s1 = put(
        st,
        Op::FconstInt(
            if exact {
                d.lowest() as i128
            } else {
                (d.lowest() - 1) as i128
            },
        ),
    );
    let s2 = put(
        s1,
        Op::CompareFloat(
            if exact {
                FloatCC::GreaterThanOrEqual
            } else {
                FloatCC::GreaterThan
            },
            v,
            next(st),
        ),
    );
    let s3 = put(s2, Op::FconstInt((d.highest() + 1) as i128));
    let s4 = put(s3, Op::CompareFloat(FloatCC::LessThan, v, next(s2)));
    let s5 = put(s4, Op::Int(IntOp::And, next(s1), next(s3)));
    let s6 = put(s5, Op::PanicUnless(next(s4), Rt::PanicCast, line));
    (
        put(
            s6,
            Op::Unary(
                if d.is_signed() {
                    UnaryOp::FloatToSint
                } else {
                    UnaryOp::FloatToUint
                },
                v,
            ),
        ),
        next(s6),
    )
}

/// `expr as Type`: numeric conversion, panicking when the value does not fit
/// the target.
#[verifier::opaque]
pub open spec fn cast(st: LowView, src: TypeView, dst: TypeView, v: usize, line: u32) -> Result<
    (LowView, usize),
    Seq<char>,
> {
    match (src, dst) {
        (TypeView::Float, TypeView::Float) => Ok((st, v)),
        (TypeView::Int(s), TypeView::Float) => Ok(
            (
                put(
                    st,
                    Op::Unary(
                        if s.is_signed() {
                            UnaryOp::FloatFromSint
                        } else {
                            UnaryOp::FloatFromUint
                        },
                        v,
                    ),
                ),
                next(st),
            ),
        ),
        (TypeView::Int(s), TypeView::Int(d)) => Ok((cast_int(st, s, d, v, line), v)),
        (TypeView::Float, TypeView::Int(d)) => Ok(cast_float(st, d, v, line)),
        _ => Err(internal(line)),
    }
}

// -- Variables and closures -------------------------------------------------

/// The environment pointer of a lambda, which is the variable behind the
/// locals.
pub open spec fn env_var(env: LowEnv) -> usize {
    env.locals as usize
}

/// A captured variable: a word of the environment, behind the code pointer.
#[verifier::opaque]
pub open spec fn captured(env: LowEnv, st: LowView, i: u32, ty: TypeView, line: u32) -> Result<
    (LowView, usize),
    Seq<char>,
> {
    if !env.lambda || i >= 64 {
        Err(internal(line))
    } else {
        let s1 = put(st, Op::UseVar(env_var(env)));
        Ok(
            (
                put(s1, Op::Load(abi(ty), next(st), (HEADER + 8 * (i + 1)) as i32)),
                next(s1),
            ),
        )
    }
}

/// A resolved name in value position.
#[verifier::opaque]
pub open spec fn variable(env: LowEnv, st: LowView, res: Option<VarRes>, ty: TypeView, line: u32) -> Result<
    (LowView, usize),
    Seq<char>,
> {
    match res {
        Some(VarRes::Local(i)) => if i < env.locals {
            Ok((put(st, Op::UseVar(i as usize)), next(st)))
        } else {
            Err(internal(line))
        },
        Some(VarRes::Captured(i)) => match captured(env, st, i, ty, line) {
            Err(m) => Err(m),
            Ok((s, v)) => Ok((rooted(s, ty, v), v)),
        },
        // A top-level function as a value: the address of its static
        // closure. Static objects never move or die, so no root is needed.
        Some(VarRes::Func(fid)) => if fid < env.fnvals.len() && env.fnvals[fid as int] is Some {
            Ok((put(st, Op::DataAddr(env.fnvals[fid as int]->0)), next(st)))
        } else {
            Err(internal(line))
        },
        None => Err(internal(line)),
    }
}

pub open spec fn find_lambda(lams: Seq<(u32, usize, usize)>, id: u32, i: nat) -> Option<
    (usize, usize),
>
    decreases lams.len() - i,
{
    if i >= lams.len() {
        None
    } else if lams[i as int].0 == id {
        Some((lams[i as int].1, lams[i as int].2))
    } else {
        find_lambda(lams, id, i + 1)
    }
}

/// Captures from index `i` on, stored by value into a new closure.
pub open spec fn store_captures(
    env: LowEnv,
    st: LowView,
    obj: usize,
    cs: Seq<CaptureView>,
    i: nat,
    line: u32,
) -> Result<LowView, Seq<char>>
    decreases cs.len() - i,
{
    if i >= cs.len() {
        Ok(st)
    } else {
        let c = cs[i as int];
        match (match c.src {
            VarRes::Local(n) => if n < env.locals {
                Ok((put(st, Op::UseVar(n as usize)), next(st)))
            } else {
                Err(internal(line))
            },
            VarRes::Captured(n) => captured(env, st, n, c.ty, line),
            VarRes::Func(_) => Err(internal(line)),
        }) {
            Err(m) => Err(m),
            Ok((s, v)) => store_captures(
                env,
                store_word(s, c.ty, v, obj, (HEADER + 8 * (i + 1)) as i32),
                obj,
                cs,
                i + 1,
                line,
            ),
        }
    }
}

/// Store a whole word into an object; a reference goes through the write
/// barrier.
pub open spec fn store_word(st: LowView, ty: TypeView, v: usize, obj: usize, off: i32) -> LowView {
    if ty.is_reference() {
        store_field(st, ty, v, obj, off)
    } else {
        put(st, Op::Store(v, obj, off))
    }
}

/// A closure object: the code pointer and the captures.
#[verifier::opaque]
pub open spec fn closure(env: LowEnv, st: LowView, lam: LambdaDefView, line: u32) -> Result<
    (LowView, usize),
    Seq<char>,
> {
    match find_lambda(env.lams, lam.id, 0) {
        None => Err(internal(line)),
        Some((func, d)) => if lam.captures.len() > 63 {
            Err(internal(line))
        } else {
            let (s1, obj) = new_of(st, d, 0);
            let s2 = put(s1, Op::FuncAddr(func));
            let s3 = put(s2, Op::Store(next(s1), obj, HEADER));
            match store_captures(env, s3, obj, lam.captures, 0, line) {
                Err(m) => Err(m),
                Ok(s) => Ok((s, obj)),
            }
        },
    }
}

/// A bound method: a closure whose one capture is the receiver. A receiver
/// is always a reference, so all of them share one descriptor.
#[verifier::opaque]
pub open spec fn bound_method(
    env: LowEnv,
    st: LowView,
    recv: usize,
    fid: u32,
    inst: Seq<TypeView>,
    line: u32,
) -> Result<(LowView, usize), Seq<char>> {
    match bind_func(env, st.g, fid, inst, line) {
        Err(m) => Err(m),
        Ok((g1, func)) => {
            let (g2, d) = desc(g1, KIND_STRUCT, 16, 2);
            let (s1, obj) = new_of(LowView { g: g2, ..st }, d, 0);
            let s2 = put(s1, Op::FuncAddr(func));
            let s3 = put(s2, Op::Store(next(s1), obj, HEADER));
            Ok((store_field(s3, TypeView::Str, recv, obj, (HEADER + 8) as i32), obj))
        },
    }
}

/// The arguments of a call from index `i` on.
pub open spec fn put_args(st: LowView, args: Seq<usize>, i: nat) -> LowView
    decreases args.len() - i,
{
    if i >= args.len() {
        st
    } else {
        put_args(put(st, Op::Arg(args[i as int])), args, i + 1)
    }
}

/// The result of the call that was just put.
pub open spec fn call_result(st: LowView, ty: TypeView) -> (LowView, Option<usize>) {
    let v = (st.f.ops.len() - 1) as usize;
    if ty is Unit {
        (st, None)
    } else {
        (rooted(st, ty, v), Some(v))
    }
}

pub open spec fn with_gen(st: LowView, g: GenView) -> LowView {
    LowView { g, ..st }
}

// -- Patterns ---------------------------------------------------------------

/// The constant that a pattern compares the scrutinee (or its tag) with.
pub open spec fn pattern_const(p: PatternView) -> Option<i64> {
    match p {
        PatternView::Variant { tag, .. } => Some(tag as i64),
        PatternView::IntLit { value, .. } => Some(value as i64),
        PatternView::ByteLit { value, .. } => Some(value as i64),
        PatternView::BoolLit { value, .. } => Some(
            if value {
                1
            } else {
                0
            },
        ),
        PatternView::Wildcard { .. } => None,
    }
}

/// Load one payload value into its binder.
#[verifier::opaque]
pub open spec fn bind_one(
    env: LowEnv,
    st: LowView,
    b: PatBinderView,
    sv: usize,
    ts: Seq<TypeView>,
    index: u32,
    line: u32,
) -> Result<LowView, Seq<char>> {
    if index >= ts.len() || b.local >= env.locals {
        Err(internal(line))
    } else {
        let (s, v) = load_typed(st, b.ty, sv, place(ts, index));
        Ok(put(s, Op::DefVar(b.local as usize, v)))
    }
}

pub open spec fn bind_fields(
    env: LowEnv,
    st: LowView,
    fs: Seq<(Seq<char>, PatBinderView, u32)>,
    sv: usize,
    ts: Seq<TypeView>,
    i: nat,
    line: u32,
) -> Result<LowView, Seq<char>>
    decreases fs.len() - i,
{
    if i >= fs.len() {
        Ok(st)
    } else {
        match bind_one(env, st, fs[i as int].1, sv, ts, fs[i as int].2, line) {
            Err(m) => Err(m),
            Ok(s) => bind_fields(env, s, fs, sv, ts, i + 1, line),
        }
    }
}

/// Load the payload of a matched variant into the arm's binders.
#[verifier::opaque]
pub open spec fn bind_pattern(env: LowEnv, st: LowView, p: PatternView, ty: TypeView, sv: usize) -> Result<
    LowView,
    Seq<char>,
> {
    match p {
        PatternView::Variant { args, tag, line, .. } => match ty {
            TypeView::Enum(eid, targs) => if !variant_ok(env.checked, eid, targs, tag) {
                Err(internal(line))
            } else {
                let ts = variant_types(env.checked, eid, targs, tag);
                match args {
                    PatArgsView::Bare => Ok(st),
                    PatArgsView::Single(b) => bind_one(env, st, b, sv, ts, 0, line),
                    PatArgsView::Fields(fs) => bind_fields(env, st, fs, sv, ts, 0, line),
                }
            },
            _ => Err(internal(line)),
        },
        _ => Ok(st),
    }
}

/// What patterns are compared with: an enum's tag, or the value itself.
pub open spec fn match_key(st: LowView, ty: TypeView, sv: usize) -> (LowView, usize) {
    if ty is Enum {
        (put(st, Op::Load(IrType::I64, sv, AUX)), next(st))
    } else {
        (st, sv)
    }
}

/// Branch into the arm of a pattern if it matches, and write the arm next;
/// gives the block for when it does not.
#[verifier::opaque]
pub open spec fn test_arm(st: LowView, key: usize, c: i64) -> (LowView, usize) {
    let s1 = put(st, Op::CompareImm(IntCC::Equal, key, c));
    let s2 = put(s1, Op::Block);
    let s3 = put(s2, Op::Block);
    let s4 = put(s3, Op::Brif(next(st), next(s1), next(s2)));
    (put(s4, Op::SwitchTo(next(s1))), next(s2))
}

// -- Builtins ---------------------------------------------------------------

/// The runtime function that prints a value of this type.
pub open spec fn print_fn(t: TypeView) -> Rt {
    match t {
        TypeView::Int(k) => if k.is_signed() {
            Rt::PrintInt
        } else {
            Rt::PrintUint
        },
        TypeView::Float => Rt::PrintFloat,
        TypeView::Bool => Rt::PrintBool,
        _ => Rt::PrintStr,
    }
}

/// An array element as a word.
pub open spec fn elem_word(st: LowView, ty: TypeView, v: usize) -> (LowView, usize) {
    if ty is Float {
        (put(st, Op::Unary(UnaryOp::FloatBits, v)), next(st))
    } else {
        (st, v)
    }
}

/// Append an element.
#[verifier::opaque]
pub open spec fn array_push(st: LowView, ty: TypeView, arr: usize, v: usize) -> LowView {
    let (s1, w) = elem_word(st, ty, v);
    let s2 = put(s1, Op::Iconst(ty.storage() as i64));
    let s3 = put(
        s2,
        Op::Iconst(
            if ty.is_reference() {
                1
            } else {
                0
            },
        ),
    );
    rt4(s3, Rt::ArrayPush, arr, w, next(s1), next(s2)).0
}

/// A new array with room for `n` elements.
#[verifier::opaque]
pub open spec fn array_new(st: LowView, ty: TypeView, n: nat) -> (LowView, usize) {
    let s1 = put(st, Op::Iconst(ty.storage() as i64));
    let s2 = put(
        s1,
        Op::Iconst(
            if ty.is_reference() {
                1
            } else {
                0
            },
        ),
    );
    let s3 = put(
        s2,
        Op::Iconst(
            (if n < 4 {
                4
            } else {
                n as int
            }) as i64,
        ),
    );
    let (s4, arr) = rt3(s3, Rt::ArrayNew, next(st), next(s1), next(s2));
    (put(s4, Op::Root(arr)), arr)
}

/// Remove the last element; the line is for the panic where there is none. The
/// runtime zero-extends narrow elements; signed kinds are re-extended into
/// canonical form.
#[verifier::opaque]
pub open spec fn array_pop(st: LowView, ty: TypeView, arr: usize, line: u32) -> (LowView, usize) {
    let s0 = put(st, Op::Iconst(ty.storage() as i64));
    let s1 = put(s0, Op::Iconst(line as i64));
    let (s2, raw) = rt3(s1, Rt::ArrayPop, arr, next(st), next(s0));
    match ty {
        TypeView::Float => (put(s2, Op::Unary(UnaryOp::BitsFloat, raw)), next(s2)),
        TypeView::Int(k) => if k.width() < 64 && k.is_signed() {
            let s3 = put(s2, Op::Unary(reduce_op(k), raw));
            (put(s3, Op::Unary(UnaryOp::Sextend, next(s2))), next(s3))
        } else {
            (s2, raw)
        },
        _ => (rooted(s2, ty, raw), raw),
    }
}

/// The payload of an `Option` that holds a value, which is its first variant.
#[verifier::opaque]
pub open spec fn unwrap_value(env: LowEnv, st: LowView, ty: TypeView, v: usize, line: u32) -> Result<
    (LowView, usize),
    Seq<char>,
> {
    match ty {
        TypeView::Enum(eid, targs) => if !variant_ok(env.checked, eid, targs, 0) || variant_types(
            env.checked,
            eid,
            targs,
            0,
        ).len() != 1 || targs.len() == 0 {
            Err(internal(line))
        } else {
            let ts = variant_types(env.checked, eid, targs, 0);
            let s1 = put(st, Op::Load(IrType::I64, v, AUX));
            let s2 = put(s1, Op::CompareImm(IntCC::NotEqual, next(st), 0));
            let s3 = put(s2, Op::PanicIf(next(s1), Rt::PanicUnwrap, line));
            let (s4, x) = load_typed(s3, targs[0], v, place(ts, 0));
            Ok((rooted(s4, targs[0], x), x))
        },
        _ => Err(internal(line)),
    }
}

/// A builtin of one operand, on the evaluated operand.
#[verifier::opaque]
pub open spec fn builtin_value(
    env: LowEnv,
    st: LowView,
    b: Builtin,
    ty: TypeView,
    v: usize,
    line: u32,
) -> Result<(LowView, Option<usize>), Seq<char>> {
    match b {
        Builtin::Print => Ok((rt1(st, print_fn(ty), v).0, None)),
        Builtin::Println => Ok(
            (put(rt1(st, print_fn(ty), v).0, Op::CallRt(Rt::PrintNewline)), None),
        ),
        Builtin::Len => Ok(
            (
                put(
                    st,
                    Op::Load(
                        IrType::I64,
                        v,
                        if ty is Str {
                            AUX
                        } else {
                            ARR_LEN
                        },
                    ),
                ),
                Some(next(st)),
            ),
        ),
        Builtin::Pop => match ty {
            TypeView::Array(elem) => if (*elem) is Param {
                Err(internal(line))
            } else {
                let (s, x) = array_pop(st, *elem, v, line);
                Ok((s, Some(x)))
            },
            _ => Err(internal(line)),
        },
        Builtin::Itos => {
            let (s, x) = rt1(
                st,
                if signed_type(ty) {
                    Rt::Itos
                } else {
                    Rt::Utos
                },
                v,
            );
            Ok((put(s, Op::Root(x)), Some(x)))
        },
        Builtin::Ftos => {
            let (s, x) = rt1(st, Rt::Ftos, v);
            Ok((put(s, Op::Root(x)), Some(x)))
        },
        Builtin::Itof => Ok(
            (
                put(
                    st,
                    Op::Unary(
                        if signed_type(ty) {
                            UnaryOp::FloatFromSint
                        } else {
                            UnaryOp::FloatFromUint
                        },
                        v,
                    ),
                ),
                Some(next(st)),
            ),
        ),
        Builtin::Stoi => {
            let (s, x) = rt2(put(st, Op::Iconst(line as i64)), Rt::Stoi, v, next(st));
            Ok((s, Some(x)))
        },
        Builtin::Stof => {
            let (s, x) = rt2(put(st, Op::Iconst(line as i64)), Rt::Stof, v, next(st));
            Ok((s, Some(x)))
        },
        Builtin::Stob => {
            let (s, x) = rt1(st, Rt::Stob, v);
            Ok((put(s, Op::Root(x)), Some(x)))
        },
        Builtin::Btos => {
            let (s, x) = rt2(put(st, Op::Iconst(line as i64)), Rt::Btos, v, next(st));
            Ok((put(s, Op::Root(x)), Some(x)))
        },
        Builtin::Assert => Ok((put(st, Op::PanicUnless(v, Rt::AssertFail, line)), None)),
        Builtin::Unwrap => match unwrap_value(env, st, ty, v, line) {
            Err(m) => Err(m),
            Ok((s, x)) => Ok((s, Some(x))),
        },
        Builtin::Push => Err(internal(line)),
        Builtin::GcCollect => Err(internal(line)),
    }
}

// -- Expressions ------------------------------------------------------------

/// The instructions of an expression, and where its value is.
pub open spec fn gen_expr(env: LowEnv, st: LowView, e: ExprView) -> Result<
    (LowView, Option<usize>),
    Seq<char>,
>
    decreases e, 9int,
{
    let line = e.line;
    match e.kind {
        // The checker stored the canonical two's-complement pattern.
        ExprKindView::Int(v) => Ok((put(st, Op::Iconst(v as i64)), Some(next(st)))),
        ExprKindView::Byte(v) => Ok((put(st, Op::Iconst(v as i64)), Some(next(st)))),
        ExprKindView::Float(s) => Ok(
            (
                put(
                    LowView { f: FnView { floats: st.f.floats.push(s), ..st.f }, ..st },
                    Op::Fconst(st.f.floats.len() as usize),
                ),
                Some(next(st)),
            ),
        ),
        ExprKindView::Bool(v) => Ok(
            (
                put(
                    st,
                    Op::Iconst(
                        if v {
                            1
                        } else {
                            0
                        },
                    ),
                ),
                Some(next(st)),
            ),
        ),
        // String literals are static objects, so the address needs no root.
        ExprKindView::Str(s) => {
            let (g, id) = add_string(st.g, s);
            Ok((put(with_gen(st, g), Op::DataAddr(id)), Some(next(st))))
        },
        ExprKindView::Var { res, .. } => some(variable(env, st, res, e.ty, line)),
        ExprKindView::Unary(op, sub) => match gen_scalar(env, st, *sub) {
            Err(m) => Err(m),
            Ok((s, v)) => some(unary_value(s, op, sub.ty, v, line)),
        },
        ExprKindView::Binary(_, _, _) => some(gen_binary(env, st, e)),
        ExprKindView::If { .. } => some(gen_if(env, st, e)),
        ExprKindView::Call { .. } => gen_call(env, st, e),
        ExprKindView::Builtin(b, args) => gen_builtin(env, st, b, args, line),
        ExprKindView::Field { obj, index, .. } => match gen_scalar(env, st, *obj) {
            Err(m) => Err(m),
            Ok((s, v)) => some(field_value(env, s, obj.ty, index, e.ty, v, line)),
        },
        ExprKindView::Index(_, _) => some(gen_index(env, st, e)),
        ExprKindView::Cast(sub, _) => match gen_scalar(env, st, *sub) {
            Err(m) => Err(m),
            Ok((s, v)) => some(cast(s, sub.ty, e.ty, v, line)),
        },
        ExprKindView::ArrayLit(elems) => some(gen_array(env, st, elems, e.ty, line)),
        ExprKindView::StructLit { fields, struct_id, .. } => some(
            gen_struct(env, st, fields, struct_id, e.ty, line),
        ),
        ExprKindView::VariantLit { args, enum_id, tag } => some(
            gen_variant(env, st, args, enum_id, tag, e.ty, line),
        ),
        ExprKindView::Match { .. } => some(gen_match(env, st, e)),
        ExprKindView::Lambda(lam) => some(closure(env, st, *lam, line)),
        ExprKindView::BoundMethod { obj, fid, inst } => match gen_scalar(env, st, *obj) {
            Err(m) => Err(m),
            Ok((s, v)) => some(bound_method(env, s, v, fid, inst, line)),
        },
        ExprKindView::VariantStructLit { .. } => Err(internal(line)),
    }
}

/// A scalar result as an expression's result.
pub open spec fn some(r: Result<(LowView, usize), Seq<char>>) -> Result<
    (LowView, Option<usize>),
    Seq<char>,
> {
    match r {
        Err(m) => Err(m),
        Ok((s, v)) => Ok((s, Some(v))),
    }
}

/// An expression whose value is read.
pub open spec fn gen_scalar(env: LowEnv, st: LowView, e: ExprView) -> Result<
    (LowView, usize),
    Seq<char>,
>
    decreases e, 10int,
{
    match gen_expr(env, st, e) {
        Err(m) => Err(m),
        Ok((s, v)) => Ok(value_of(s, v)),
    }
}

/// A field of an evaluated object.
#[verifier::opaque]
pub open spec fn field_value(
    env: LowEnv,
    st: LowView,
    obj_ty: TypeView,
    index: u32,
    ty: TypeView,
    obj: usize,
    line: u32,
) -> Result<(LowView, usize), Seq<char>> {
    match obj_ty {
        TypeView::Struct(sid, targs) => if !struct_ok(env.checked, sid, targs) || index
            >= struct_types(env.checked, sid, targs).len() {
            Err(internal(line))
        } else {
            let ts = struct_types(env.checked, sid, targs);
            let (s, v) = load_typed(st, ty, obj, place(ts, index));
            Ok((rooted(s, ty, v), v))
        },
        _ => Err(internal(line)),
    }
}

/// Binary operators. The logical ones evaluate their right side only where
/// the left one does not decide.
pub open spec fn gen_binary(env: LowEnv, st: LowView, e: ExprView) -> Result<
    (LowView, usize),
    Seq<char>,
>
    decreases e, 8int,
{
    let line = e.line;
    let op = e.kind->Binary_0;
    let lhs = *e.kind->Binary_1;
    let rhs = *e.kind->Binary_2;
    if !(e.kind is Binary) {
        Err(internal(line))
    } else {
        match gen_scalar(env, st, lhs) {
            Err(m) => Err(m),
            Ok((s1, l)) => if op is And || op is Or {
                let rest = next(s1);
                let s2 = put(s1, Op::Block);
                let merge = next(s2);
                let s3 = put(s2, Op::BlockOf(IrType::I64));
                let s4 = put(
                    s3,
                    if op is And {
                        Op::BrifElseWith(l, rest, merge, l)
                    } else {
                        Op::BrifWith(l, merge, l, rest)
                    },
                );
                match gen_scalar(env, put(s4, Op::SwitchTo(rest)), rhs) {
                    Err(m) => Err(m),
                    Ok((s5, r)) => {
                        let s6 = put(s5, Op::JumpWith(merge, r));
                        let s7 = put(s6, Op::SwitchTo(merge));
                        Ok((put(s7, Op::BlockParam(merge)), next(s7)))
                    },
                }
            } else {
                match gen_scalar(env, s1, rhs) {
                    Err(m) => Err(m),
                    Ok((s2, r)) => binary_values(s2, op, lhs.ty, rhs.ty, l, r, line),
                }
            },
        }
    }
}

pub open spec fn gen_if(env: LowEnv, st: LowView, e: ExprView) -> Result<
    (LowView, usize),
    Seq<char>,
>
    decreases e, 8int,
{
    let line = e.line;
    let cond = *e.kind->If_cond;
    let then = *e.kind->If_then;
    let els = *e.kind->If_els;
    if !(e.kind is If) {
        Err(internal(line))
    } else {
        match gen_scalar(env, st, cond) {
            Err(m) => Err(m),
            Ok((s1, c)) => {
                let yes = next(s1);
                let s2 = put(s1, Op::Block);
                let no = next(s2);
                let s3 = put(s2, Op::Block);
                let merge = next(s3);
                let s4 = put(s3, Op::BlockOf(abi(e.ty)));
                let s5 = put(s4, Op::Brif(c, yes, no));
                match gen_scalar(env, put(s5, Op::SwitchTo(yes)), then) {
                    Err(m) => Err(m),
                    Ok((s6, t)) => {
                        let s7 = put(s6, Op::JumpWith(merge, t));
                        match gen_scalar(env, put(s7, Op::SwitchTo(no)), els) {
                            Err(m) => Err(m),
                            Ok((s8, f)) => Ok(merge_value(put(s8, Op::JumpWith(merge, f)), merge, e.ty)),
                        }
                    },
                }
            },
        }
    }
}

/// Go on at a merge block with its value.
pub open spec fn merge_value(st: LowView, merge: usize, ty: TypeView) -> (LowView, usize) {
    let s1 = put(st, Op::SwitchTo(merge));
    let s2 = put(s1, Op::BlockParam(merge));
    (rooted(s2, ty, next(s1)), next(s1))
}

/// Expressions from index `i` on, left to right.
pub open spec fn gen_list(
    env: LowEnv,
    st: LowView,
    es: Seq<ExprView>,
    i: nat,
    acc: Seq<usize>,
) -> Result<(LowView, Seq<usize>), Seq<char>>
    decreases es, es.len() - i,
{
    if i >= es.len() {
        Ok((st, acc))
    } else {
        match gen_scalar(env, st, es[i as int]) {
            Err(m) => Err(m),
            Ok((s, v)) => gen_list(env, s, es, i + 1, acc.push(v)),
        }
    }
}

/// Calls: a direct one by symbol, another through the code pointer of a
/// closure, which is also its first argument.
pub open spec fn gen_call(env: LowEnv, st: LowView, e: ExprView) -> Result<
    (LowView, Option<usize>),
    Seq<char>,
>
    decreases e, 8int,
{
    let line = e.line;
    let callee = *e.kind->Call_callee;
    let args = e.kind->Call_args;
    let direct = e.kind->Call_direct;
    let inst = e.kind->Call_inst;
    if !(e.kind is Call) {
        Err(internal(line))
    } else {
        match direct {
            Some(fid) => match gen_list(env, st, args, 0, Seq::empty()) {
                Err(m) => Err(m),
                Ok((s1, vs)) => match callee_of(env, s1.g, fid, inst, line) {
                    Err(m) => Err(m),
                    Ok((g, func)) => Ok(
                        call_result(
                            put(put_args(with_gen(s1, g), vs, 0), Op::Call(func)),
                            e.ty,
                        ),
                    ),
                },
            },
            None => match gen_scalar(env, st, callee) {
                Err(m) => Err(m),
                Ok((s1, f)) => match gen_list(env, s1, args, 0, Seq::empty()) {
                    Err(m) => Err(m),
                    Ok((s2, vs)) => call_closure(s2, callee.ty, f, vs, e.ty, line),
                },
            },
        }
    }
}

/// A call of a closure on evaluated arguments.
#[verifier::opaque]
pub open spec fn call_closure(
    st: LowView,
    fty: TypeView,
    f: usize,
    args: Seq<usize>,
    ty: TypeView,
    line: u32,
) -> Result<(LowView, Option<usize>), Seq<char>> {
    match fty {
        TypeView::Fn(params, ret) => {
            let s1 = put(st, Op::Load(IrType::I64, f, HEADER));
            let s2 = put_args(put(s1, Op::Arg(f)), args, 0);
            let s3 = LowView {
                f: FnView { sigs: s2.f.sigs.push(make_sig(params, *ret, true)), ..s2.f },
                ..s2
            };
            Ok(
                call_result(
                    put(s3, Op::CallIndirect(s2.f.sigs.len() as usize, next(st))),
                    ty,
                ),
            )
        },
        _ => Err(internal(line)),
    }
}

pub open spec fn gen_builtin(
    env: LowEnv,
    st: LowView,
    b: Builtin,
    args: Seq<ExprView>,
    line: u32,
) -> Result<(LowView, Option<usize>), Seq<char>>
    decreases args, 10int,
{
    if b is GcCollect {
        Ok((rt1(put(st, Op::Iconst(1)), Rt::GcCollect, next(st)).0, None))
    } else if args.len() == 0 {
        Err(internal(line))
    } else {
        match gen_scalar(env, st, args[0]) {
            Err(m) => Err(m),
            Ok((s1, v)) => if b is Push {
                match args[0].ty {
                    TypeView::Array(elem) => if args.len() < 2 || (*elem) is Param {
                        Err(internal(line))
                    } else {
                        match gen_scalar(env, s1, args[1]) {
                            Err(m) => Err(m),
                            Ok((s2, x)) => Ok((array_push(s2, *elem, v, x), None)),
                        }
                    },
                    _ => Err(internal(line)),
                }
            } else {
                builtin_value(env, s1, b, args[0].ty, v, line)
            },
        }
    }
}

/// `s[i]` or `xs[i]`: bounds-checked access.
pub open spec fn gen_index(env: LowEnv, st: LowView, e: ExprView) -> Result<
    (LowView, usize),
    Seq<char>,
>
    decreases e, 8int,
{
    let line = e.line;
    let obj = *e.kind->Index_0;
    let idx = *e.kind->Index_1;
    if !(e.kind is Index) {
        Err(internal(line))
    } else {
        match gen_scalar(env, st, obj) {
            Err(m) => Err(m),
            Ok((s1, o)) => match gen_scalar(env, s1, idx) {
                Err(m) => Err(m),
                Ok((s2, i)) => index_value(s2, obj.ty, e.ty, o, i, line),
            },
        }
    }
}

#[verifier::opaque]
pub open spec fn index_value(
    st: LowView,
    obj_ty: TypeView,
    ty: TypeView,
    o: usize,
    i: usize,
    line: u32,
) -> Result<(LowView, usize), Seq<char>> {
    match obj_ty {
        TypeView::Str => {
            let s1 = put(st, Op::Load(IrType::I64, o, AUX));
            let s2 = put(s1, Op::BoundsCheck(i, next(st), line));
            let s3 = put(s2, Op::Int(IntOp::Add, o, i));
            let s4 = put(s3, Op::Load(IrType::I8, next(s2), HEADER));
            Ok((put(s4, Op::Unary(UnaryOp::Uextend, next(s3))), next(s4)))
        },
        TypeView::Array(elem) => if (*elem) is Param {
            Err(internal(line))
        } else {
            let (s1, _, addr) = index_addr(st, o, i, elem.storage(), line);
            let (s2, v) = load_typed(s1, ty, addr, 0);
            Ok((rooted(s2, ty, v), v))
        },
        _ => Err(internal(line)),
    }
}

pub open spec fn gen_array(
    env: LowEnv,
    st: LowView,
    elems: Seq<ExprView>,
    ty: TypeView,
    line: u32,
) -> Result<(LowView, usize), Seq<char>>
    decreases elems, elems.len() + 1,
{
    match ty {
        TypeView::Array(elem) => if (*elem) is Param {
            Err(internal(line))
        } else {
            let (s, arr) = array_new(st, *elem, elems.len());
            match gen_elems(env, s, *elem, arr, elems, 0) {
                Err(m) => Err(m),
                Ok(s1) => Ok((s1, arr)),
            }
        },
        _ => Err(internal(line)),
    }
}

/// The elements of an array literal from index `i` on.
pub open spec fn gen_elems(
    env: LowEnv,
    st: LowView,
    ty: TypeView,
    arr: usize,
    es: Seq<ExprView>,
    i: nat,
) -> Result<LowView, Seq<char>>
    decreases es, es.len() - i,
{
    if i >= es.len() {
        Ok(st)
    } else {
        match gen_scalar(env, st, es[i as int]) {
            Err(m) => Err(m),
            Ok((s, v)) => gen_elems(env, array_push(s, ty, arr, v), ty, arr, es, i + 1),
        }
    }
}

/// The field values of a new object from index `i` on, in source order.
pub open spec fn gen_inits(
    env: LowEnv,
    st: LowView,
    ts: Seq<TypeView>,
    obj: usize,
    fs: Seq<(Seq<char>, ExprView, u32)>,
    i: nat,
    line: u32,
) -> Result<LowView, Seq<char>>
    decreases fs, fs.len() - i,
{
    if i >= fs.len() {
        Ok(st)
    } else if fs[i as int].2 >= ts.len() {
        Err(internal(line))
    } else {
        match gen_scalar(env, st, fs[i as int].1) {
            Err(m) => Err(m),
            Ok((s, v)) => gen_inits(
                env,
                store_field(
                    s,
                    ts[fs[i as int].2 as int],
                    v,
                    obj,
                    place(ts, fs[i as int].2),
                ),
                ts,
                obj,
                fs,
                i + 1,
                line,
            ),
        }
    }
}

pub open spec fn gen_struct(
    env: LowEnv,
    st: LowView,
    fields: Seq<(Seq<char>, ExprView, u32)>,
    sid: u32,
    ty: TypeView,
    line: u32,
) -> Result<(LowView, usize), Seq<char>>
    decreases fields, fields.len() + 1,
{
    let targs = ty->Struct_1;
    if !(ty is Struct) || !struct_ok(env.checked, sid, targs) {
        Err(internal(line))
    } else {
        let ts = struct_types(env.checked, sid, targs);
        let (s, obj) = new_object(st, ts, 0);
        match gen_inits(env, s, ts, obj, fields, 0, line) {
            Err(m) => Err(m),
            Ok(s1) => Ok((s1, obj)),
        }
    }
}

/// An enum value: an object with the variant's tag in the auxiliary word.
pub open spec fn gen_variant(
    env: LowEnv,
    st: LowView,
    args: VariantArgsView,
    eid: u32,
    tag: u32,
    ty: TypeView,
    line: u32,
) -> Result<(LowView, usize), Seq<char>>
    decreases args, 10int,
{
    let targs = ty->Enum_1;
    if !(ty is Enum) || !variant_ok(env.checked, eid, targs, tag) {
        Err(internal(line))
    } else {
        let ts = variant_types(env.checked, eid, targs, tag);
        match args {
            VariantArgsView::Bare => {
                let (g, id) = bare_variant(st.g, eid, tag);
                Ok((put(with_gen(st, g), Op::DataAddr(id)), next(st)))
            },
            VariantArgsView::Single(a) => if ts.len() != 1 {
                Err(internal(line))
            } else {
                match gen_scalar(env, st, *a) {
                    Err(m) => Err(m),
                    Ok((s1, v)) => {
                        let (s2, obj) = new_object(s1, ts, tag as i64);
                        Ok((store_field(s2, ts[0], v, obj, place(ts, 0)), obj))
                    },
                }
            },
            VariantArgsView::Fields(fs) => {
                let (s1, obj) = new_object(st, ts, tag as i64);
                match gen_inits(env, s1, ts, obj, fs, 0, line) {
                    Err(m) => Err(m),
                    Ok(s2) => Ok((s2, obj)),
                }
            },
        }
    }
}

/// The arms of a match expression from index `i` on. The last one is an
/// unconditional fallthrough: the checker proved exhaustiveness.
pub open spec fn gen_arms(
    env: LowEnv,
    st: LowView,
    arms: Seq<(PatternView, ExprView)>,
    i: nat,
    ty: TypeView,
    sv: usize,
    key: usize,
    merge: usize,
    line: u32,
) -> Result<LowView, Seq<char>>
    decreases arms, arms.len() - i,
{
    if i >= arms.len() {
        Err(internal(line))
    } else {
        let last = i + 1 == arms.len();
        match (if last {
            Ok((st, 0usize))
        } else {
            match pattern_const(arms[i as int].0) {
                None => Err(internal(line)),
                Some(c) => Ok(test_arm(st, key, c)),
            }
        }) {
            Err(m) => Err(m),
            Ok((s1, other)) => match bind_pattern(env, s1, arms[i as int].0, ty, sv) {
                Err(m) => Err(m),
                Ok(s2) => match gen_scalar(env, s2, arms[i as int].1) {
                    Err(m) => Err(m),
                    Ok((s3, v)) => {
                        let s4 = put(s3, Op::JumpWith(merge, v));
                        if last {
                            Ok(s4)
                        } else {
                            gen_arms(
                                env,
                                put(s4, Op::SwitchTo(other)),
                                arms,
                                i + 1,
                                ty,
                                sv,
                                key,
                                merge,
                                line,
                            )
                        }
                    },
                },
            },
        }
    }
}

pub open spec fn gen_match(env: LowEnv, st: LowView, e: ExprView) -> Result<
    (LowView, usize),
    Seq<char>,
>
    decreases e, 8int,
{
    let line = e.line;
    let scrutinee = *e.kind->Match_scrutinee;
    let arms = e.kind->Match_arms;
    if !(e.kind is Match) {
        Err(internal(line))
    } else {
        match gen_scalar(env, st, scrutinee) {
            Err(m) => Err(m),
            Ok((s1, sv)) => {
                let (s2, key) = match_key(s1, scrutinee.ty, sv);
                let merge = next(s2);
                match gen_arms(
                    env,
                    put(s2, Op::BlockOf(abi(e.ty))),
                    arms,
                    0,
                    scrutinee.ty,
                    sv,
                    key,
                    merge,
                    line,
                ) {
                    Err(m) => Err(m),
                    Ok(s3) => Ok(merge_value(s3, merge, e.ty)),
                }
            },
        }
    }
}

// -- Statements -------------------------------------------------------------

pub open spec fn with_terminated(st: LowView, t: bool) -> LowView {
    LowView { f: FnView { terminated: t, ..st.f }, ..st }
}

pub open spec fn enter_loop(st: LowView, exit: usize, again: usize) -> LowView {
    LowView { f: FnView { loops: st.f.loops.push((exit, again)), terminated: false, ..st.f }, ..st }
}

pub open spec fn leave_loop(st: LowView) -> LowView {
    LowView { f: FnView { loops: st.f.loops.drop_last(), ..st.f }, ..st }
}

/// Jump on unless control has left.
pub open spec fn flow_to(st: LowView, b: usize) -> LowView {
    if st.f.terminated {
        st
    } else {
        put(st, Op::Jump(b))
    }
}

/// Start writing a block that control reaches.
pub open spec fn start(st: LowView, b: usize) -> LowView {
    with_terminated(put(st, Op::SwitchTo(b)), false)
}

/// Go on at a merge block; nothing reaches it if control left on every way.
pub open spec fn join_at(st: LowView, b: usize, left: bool) -> LowView {
    let s = with_terminated(put(st, Op::SwitchTo(b)), left);
    if left {
        put(s, Op::Trap)
    } else {
        s
    }
}

pub open spec fn gen_block(env: LowEnv, st: LowView, b: BlockView) -> Result<LowView, Seq<char>>
    decreases b, 1int,
{
    gen_stmts(env, st, b.stmts, 0)
}

/// Statements from index `i` on; what follows a statement that leaves is not
/// reached.
pub open spec fn gen_stmts(env: LowEnv, st: LowView, ss: Seq<StmtView>, i: nat) -> Result<
    LowView,
    Seq<char>,
>
    decreases ss, ss.len() - i,
{
    if i >= ss.len() || st.f.terminated {
        Ok(st)
    } else {
        match gen_stmt(env, st, ss[i as int]) {
            Err(m) => Err(m),
            Ok(s) => gen_stmts(env, s, ss, i + 1),
        }
    }
}

/// Assignment to a local.
pub open spec fn gen_assign_local(env: LowEnv, st: LowView, s: StmtView, idx: u32) -> Result<
    LowView,
    Seq<char>,
>
    decreases s, 9int,
{
    let line = s->Assign_line;
    if !(s is Assign) || idx >= env.locals {
        Err(internal(line))
    } else {
        match s->Assign_op {
            None => match gen_scalar(env, st, s->Assign_value) {
                Err(m) => Err(m),
                Ok((s1, v)) => Ok(put(s1, Op::DefVar(idx as usize, v))),
            },
            Some(op) => match gen_scalar(
                env,
                put(st, Op::UseVar(idx as usize)),
                s->Assign_value,
            ) {
                Err(m) => Err(m),
                Ok((s1, r)) => match arith(s1, op, s->Assign_target.ty, next(st), r, line) {
                    Err(m) => Err(m),
                    Ok((s2, v)) => Ok(put(s2, Op::DefVar(idx as usize, v))),
                },
            },
        }
    }
}

/// Assignment to a field. A compound one evaluates the object once, and reads
/// the field before its right-hand side runs.
pub open spec fn gen_assign_field(env: LowEnv, st: LowView, s: StmtView) -> Result<LowView, Seq<char>>
    decreases s, 9int,
{
    let line = s->Assign_line;
    let target = s->Assign_target;
    let obj = *target.kind->Field_obj;
    let index = target.kind->Field_index;
    if !(s is Assign) || !(target.kind is Field) || !(obj.ty is Struct) || !struct_ok(
        env.checked,
        obj.ty->Struct_0,
        obj.ty->Struct_1,
    ) || index >= struct_types(env.checked, obj.ty->Struct_0, obj.ty->Struct_1).len() {
        Err(internal(line))
    } else {
        let ts = struct_types(env.checked, obj.ty->Struct_0, obj.ty->Struct_1);
        let ty = ts[index as int];
        let off = place(ts, index);
        match s->Assign_op {
            None => match gen_scalar(env, st, s->Assign_value) {
                Err(m) => Err(m),
                Ok((s1, v)) => match gen_scalar(env, s1, obj) {
                    Err(m) => Err(m),
                    Ok((s2, o)) => Ok(store_field(s2, ty, v, o, off)),
                },
            },
            Some(op) => match gen_scalar(env, st, obj) {
                Err(m) => Err(m),
                Ok((s1, o)) => {
                    let (s2, cur) = load_typed(s1, ty, o, off);
                    match gen_scalar(env, rooted(s2, ty, cur), s->Assign_value) {
                        Err(m) => Err(m),
                        Ok((s3, r)) => match arith(s3, op, target.ty, cur, r, line) {
                            Err(m) => Err(m),
                            Ok((s4, v)) => Ok(store_field(s4, ty, v, o, off)),
                        },
                    }
                },
            },
        }
    }
}

/// Assignment to an array element. A compound one evaluates array and index
/// once, but computes (and checks) the element address again after its
/// right-hand side ran: that may have allocated, moving the buffer, or popped
/// the array.
pub open spec fn gen_assign_elem(env: LowEnv, st: LowView, s: StmtView) -> Result<LowView, Seq<char>>
    decreases s, 9int,
{
    let line = s->Assign_line;
    let target = s->Assign_target;
    let arr = *target.kind->Index_0;
    let idx = *target.kind->Index_1;
    let ty = *arr.ty->Array_0;
    if !(s is Assign) || !(target.kind is Index) || !(arr.ty is Array) || ty is Param {
        Err(internal(line))
    } else {
        match s->Assign_op {
            None => match gen_scalar(env, st, s->Assign_value) {
                Err(m) => Err(m),
                Ok((s1, v)) => match gen_scalar(env, s1, arr) {
                    Err(m) => Err(m),
                    Ok((s2, a)) => match gen_scalar(env, s2, idx) {
                        Err(m) => Err(m),
                        Ok((s3, i)) => {
                            let (s4, buf, addr) = index_addr(s3, a, i, ty.storage(), line);
                            Ok(store_elem(s4, ty, v, buf, addr))
                        },
                    },
                },
            },
            Some(op) => match gen_scalar(env, st, arr) {
                Err(m) => Err(m),
                Ok((s1, a)) => match gen_scalar(env, s1, idx) {
                    Err(m) => Err(m),
                    Ok((s2, i)) => {
                        let (s3, _, addr) = index_addr(s2, a, i, ty.storage(), line);
                        let (s4, cur) = load_typed(s3, ty, addr, 0);
                        match gen_scalar(env, rooted(s4, ty, cur), s->Assign_value) {
                            Err(m) => Err(m),
                            Ok((s5, r)) => match arith(s5, op, ty, cur, r, line) {
                                Err(m) => Err(m),
                                Ok((s6, v)) => {
                                    let (s7, buf, again) = index_addr(
                                        s6,
                                        a,
                                        i,
                                        ty.storage(),
                                        line,
                                    );
                                    Ok(store_elem(s7, ty, v, buf, again))
                                },
                            },
                        }
                    },
                },
            },
        }
    }
}

pub open spec fn gen_if_stmt(env: LowEnv, st: LowView, s: StmtView) -> Result<LowView, Seq<char>>
    decreases s, 10int,
{
    if !(s is If) {
        Err(internal(0))
    } else {
        match gen_scalar(env, st, s->If_cond) {
            Err(m) => Err(m),
            Ok((s1, c)) => {
                let yes = next(s1);
                let s2 = put(s1, Op::Block);
                let no = next(s2);
                let s3 = put(s2, Op::Block);
                let merge = next(s3);
                let s4 = put(s3, Op::Block);
                let s5 = put(s4, Op::Brif(c, yes, no));
                match gen_block(env, start(s5, yes), s->If_then) {
                    Err(m) => Err(m),
                    Ok(s6) => {
                        let s7 = start(flow_to(s6, merge), no);
                        match (match s->If_els {
                            None => Ok(s7),
                            Some(b) => gen_block(env, s7, b),
                        }) {
                            Err(m) => Err(m),
                            Ok(s8) => Ok(
                                join_at(
                                    flow_to(s8, merge),
                                    merge,
                                    s6.f.terminated && s8.f.terminated,
                                ),
                            ),
                        }
                    },
                }
            },
        }
    }
}

pub open spec fn gen_while(env: LowEnv, st: LowView, s: StmtView) -> Result<LowView, Seq<char>>
    decreases s, 10int,
{
    if !(s is While) {
        Err(internal(0))
    } else {
        let header = next(st);
        let s1 = put(st, Op::Block);
        let body = next(s1);
        let s2 = put(s1, Op::Block);
        let exit = next(s2);
        let s3 = put(s2, Op::Block);
        let s4 = put(put(s3, Op::Jump(header)), Op::SwitchTo(header));
        match gen_scalar(env, s4, s->While_cond) {
            Err(m) => Err(m),
            Ok((s5, c)) => {
                let s6 = put(put(s5, Op::Brif(c, body, exit)), Op::SwitchTo(body));
                match gen_block(env, enter_loop(s6, exit, header), s->While_body) {
                    Err(m) => Err(m),
                    Ok(s7) => Ok(start(flow_to(leave_loop(s7), header), exit)),
                }
            },
        }
    }
}

pub open spec fn gen_opt_stmt(env: LowEnv, st: LowView, s: Option<Box<StmtView>>) -> Result<
    LowView,
    Seq<char>,
>
    decreases s, 10int,
{
    match s {
        None => Ok(st),
        Some(s) => gen_stmt(env, st, *s),
    }
}

/// The condition of a `for` loop; none is always true.
pub open spec fn gen_for_cond(
    env: LowEnv,
    st: LowView,
    cond: Option<ExprView>,
    body: usize,
    exit: usize,
) -> Result<LowView, Seq<char>>
    decreases cond, 10int,
{
    match cond {
        None => Ok(put(st, Op::Jump(body))),
        Some(c) => match gen_scalar(env, st, c) {
            Err(m) => Err(m),
            Ok((s1, v)) => Ok(put(s1, Op::Brif(v, body, exit))),
        },
    }
}

pub open spec fn gen_for(env: LowEnv, st: LowView, s: StmtView) -> Result<LowView, Seq<char>>
    decreases s, 10int,
{
    if !(s is For) {
        Err(internal(0))
    } else {
        match gen_opt_stmt(env, st, s->For_init) {
            Err(m) => Err(m),
            Ok(s0) => {
                let header = next(s0);
                let s1 = put(s0, Op::Block);
                let body = next(s1);
                let s2 = put(s1, Op::Block);
                let step = next(s2);
                let s3 = put(s2, Op::Block);
                let exit = next(s3);
                let s4 = put(s3, Op::Block);
                let s5 = put(put(s4, Op::Jump(header)), Op::SwitchTo(header));
                match gen_for_cond(env, s5, s->For_cond, body, exit) {
                    Err(m) => Err(m),
                    Ok(s6) => match gen_block(
                        env,
                        enter_loop(put(s6, Op::SwitchTo(body)), exit, step),
                        s->For_body,
                    ) {
                        Err(m) => Err(m),
                        Ok(s7) => match gen_opt_stmt(
                            env,
                            start(flow_to(leave_loop(s7), step), step),
                            s->For_step,
                        ) {
                            Err(m) => Err(m),
                            Ok(s8) => Ok(start(put(s8, Op::Jump(header)), exit)),
                        },
                    },
                }
            },
        }
    }
}

/// The arms of a match statement from index `i` on; gives whether control
/// left in all of them.
pub open spec fn gen_block_arms(
    env: LowEnv,
    st: LowView,
    arms: Seq<(PatternView, BlockView)>,
    i: nat,
    ty: TypeView,
    sv: usize,
    key: usize,
    merge: usize,
    left: bool,
    line: u32,
) -> Result<(LowView, bool), Seq<char>>
    decreases arms, arms.len() - i,
{
    if i >= arms.len() {
        Err(internal(line))
    } else {
        let last = i + 1 == arms.len();
        match (if last {
            Ok((st, 0usize))
        } else {
            match pattern_const(arms[i as int].0) {
                None => Err(internal(line)),
                Some(c) => Ok(test_arm(st, key, c)),
            }
        }) {
            Err(m) => Err(m),
            Ok((s1, other)) => match bind_pattern(env, s1, arms[i as int].0, ty, sv) {
                Err(m) => Err(m),
                Ok(s2) => match gen_block(env, with_terminated(s2, false), arms[i as int].1) {
                    Err(m) => Err(m),
                    Ok(s3) => {
                        let s4 = flow_to(s3, merge);
                        let all = left && s3.f.terminated;
                        if last {
                            Ok((s4, all))
                        } else {
                            gen_block_arms(
                                env,
                                put(s4, Op::SwitchTo(other)),
                                arms,
                                i + 1,
                                ty,
                                sv,
                                key,
                                merge,
                                all,
                                line,
                            )
                        }
                    },
                },
            },
        }
    }
}

pub open spec fn gen_stmt_match(env: LowEnv, st: LowView, s: StmtView) -> Result<LowView, Seq<char>>
    decreases s, 10int,
{
    if !(s is Match) {
        Err(internal(0))
    } else {
        let scrutinee = s->Match_scrutinee;
        match gen_scalar(env, st, scrutinee) {
            Err(m) => Err(m),
            Ok((s1, sv)) => {
                let (s2, key) = match_key(s1, scrutinee.ty, sv);
                let merge = next(s2);
                match gen_block_arms(
                    env,
                    put(s2, Op::Block),
                    s->Match_arms,
                    0,
                    scrutinee.ty,
                    sv,
                    key,
                    merge,
                    true,
                    s->Match_line,
                ) {
                    Err(m) => Err(m),
                    Ok((s3, left)) => Ok(join_at(s3, merge, left)),
                }
            },
        }
    }
}

pub open spec fn gen_return(env: LowEnv, st: LowView, value: Option<ExprView>) -> Result<
    LowView,
    Seq<char>,
>
    decreases value, 11int,
{
    match value {
        None => Ok(with_terminated(put(st, Op::Return), true)),
        Some(v) => match gen_scalar(env, st, v) {
            Err(m) => Err(m),
            Ok((s1, x)) => Ok(with_terminated(put(s1, Op::ReturnValue(x)), true)),
        },
    }
}

/// The instructions of a statement.
pub open spec fn gen_stmt(env: LowEnv, st: LowView, s: StmtView) -> Result<LowView, Seq<char>>
    decreases s, 11int,
{
    match s {
        StmtView::Let { init, local, line, .. } => if local >= env.locals {
            Err(internal(line))
        } else {
            match gen_scalar(env, st, init) {
                Err(m) => Err(m),
                Ok((s1, v)) => Ok(put(s1, Op::DefVar(local as usize, v))),
            }
        },
        StmtView::Assign { target, line, .. } => match target.kind {
            ExprKindView::Var { res, .. } => match res {
                Some(VarRes::Local(idx)) => gen_assign_local(env, st, s, idx),
                _ => Err(internal(line)),
            },
            ExprKindView::Field { .. } => gen_assign_field(env, st, s),
            ExprKindView::Index(_, _) => gen_assign_elem(env, st, s),
            _ => Err(internal(line)),
        },
        StmtView::Expr(e) => match gen_expr(env, st, e) {
            Err(m) => Err(m),
            Ok((s1, _)) => Ok(s1),
        },
        StmtView::If { .. } => gen_if_stmt(env, st, s),
        StmtView::While { .. } => gen_while(env, st, s),
        StmtView::For { .. } => gen_for(env, st, s),
        StmtView::Return { value, .. } => gen_return(env, st, value),
        StmtView::Break(line) => if st.f.loops.len() == 0 {
            Err(internal(line))
        } else {
            Ok(with_terminated(put(st, Op::Jump(st.f.loops.last().0)), true))
        },
        StmtView::Continue(line) => if st.f.loops.len() == 0 {
            Err(internal(line))
        } else {
            Ok(with_terminated(put(st, Op::Jump(st.f.loops.last().1)), true))
        },
        StmtView::Block(b) => gen_block(env, st, b),
        StmtView::Match { .. } => gen_stmt_match(env, st, s),
    }
}

// -- Functions --------------------------------------------------------------

/// Does a body refer only to values and blocks before each use, to its
/// function's parameters, and to its own variables and tables?
pub open spec fn body_sound(b: BodyView, funcs: Seq<FuncDeclView>) -> bool {
    &&& b.func < funcs.len()
    &&& well_formed(
        b.ops,
        (Scope { params: funcs[b.func as int].sig.params.len(), vars: b.vars.len() }),
    )
    &&& tables_cover(b.ops, b.sigs.len(), b.floats.len())
}

#[verifier::opaque]
pub open spec fn bodies_sound(g: GenView) -> bool {
    forall|i: int| 0 <= i < g.bodies.len() ==> body_sound(#[trigger] g.bodies[i], g.funcs)
}

/// Register classes of the locals, and whether they hold references.
pub open spec fn local_vars(ts: Seq<TypeView>) -> Seq<(IrType, bool)> {
    Seq::new(ts.len(), |i: int| (abi(ts[i]), ts[i].is_reference()))
}

/// A lambda's variables: its locals and its environment.
pub open spec fn all_vars(ts: Seq<TypeView>, lambda: bool) -> Seq<(IrType, bool)> {
    if lambda {
        local_vars(ts).push((IrType::I64, true))
    } else {
        local_vars(ts)
    }
}

/// Move parameters from index `i` on into their homes.
pub open spec fn home_params(st: LowView, n: nat, off: nat, i: nat) -> LowView
    decreases n - i,
{
    if i >= n {
        st
    } else {
        home_params(
            put(put(st, Op::Param((i + off) as usize)), Op::DefVar(i as usize, next(st))),
            n,
            off,
            i + 1,
        )
    }
}

/// Stack-overflow guard: panic cleanly when the stack pointer is below the
/// limit that the runtime computed at startup.
#[verifier::opaque]
pub open spec fn stack_guard(st: LowView, line: u32) -> LowView {
    let s1 = put(st, Op::StackLimitAddr);
    let s2 = put(s1, Op::Load(IrType::I64, next(st), 0));
    let s3 = put(s2, Op::StackPointer);
    let s4 = put(s3, Op::Compare(IntCC::UnsignedLessThan, next(s2), next(s1)));
    put(s4, Op::PanicIf(next(s3), Rt::PanicStack, line))
}

pub open spec fn empty_fn() -> FnView {
    FnView {
        ops: Seq::empty(),
        loops: Seq::empty(),
        terminated: false,
        sigs: Seq::empty(),
        floats: Seq::empty(),
    }
}

/// A function that is compiled from a tree.
pub struct Source {
    pub func: usize,
    pub locals: Seq<TypeView>,
    pub nparams: nat,
    pub body: BlockView,
    pub ret: TypeView,
    pub line: u32,
}

/// The start of a body: parameters, and the guard where the body deepens the
/// call chain. Leaf functions cannot; their bounded frames are covered by the
/// slack.
#[verifier::opaque]
pub open spec fn prologue(env: LowEnv, g: GenView, src: Source) -> LowView {
    let s0 = LowView { g, f: empty_fn() };
    let s1 = if env.lambda {
        put(put(s0, Op::Param(0)), Op::DefVar(env_var(env), 0))
    } else {
        s0
    };
    let s2 = home_params(
        s1,
        src.nparams,
        if env.lambda {
            1
        } else {
            0
        },
        0,
    );
    if calls_in_block(src.body) {
        stack_guard(s2, src.line)
    } else {
        s2
    }
}

/// The end of a body.
pub open spec fn epilogue(st: LowView, ret: TypeView) -> LowView {
    if st.f.terminated {
        st
    } else if ret is Unit {
        put(st, Op::Return)
    } else {
        // The checker guarantees that this is not reached.
        put(st, Op::Trap)
    }
}

/// The unit with the body of one function.
#[verifier::opaque]
pub open spec fn compile_body(env: LowEnv, g: GenView, src: Source) -> Result<GenView, Seq<char>> {
    if src.nparams > src.locals.len() || src.func >= g.funcs.len() || src.nparams + (if env.lambda {
        1nat
    } else {
        0nat
    }) != g.funcs[src.func as int].sig.params.len() {
        Err(internal(src.line))
    } else {
        match gen_block(env, prologue(env, g, src), src.body) {
            Err(m) => Err(m),
            Ok(s) => {
                let s1 = epilogue(s, src.ret);
                let body = BodyView {
                    func: src.func,
                    vars: all_vars(src.locals, env.lambda),
                    ops: s1.f.ops,
                    sigs: s1.f.sigs,
                    floats: s1.f.floats,
                };
                Ok(GenView { bodies: s1.g.bodies.push(body), ..s1.g })
            },
        }
    }
}

// -- Instantiations ---------------------------------------------------------

pub open spec fn find_lambda_inst(ls: Seq<(u32, LambdaInstView)>, id: u32, i: nat) -> Option<nat>
    decreases ls.len() - i,
{
    if i >= ls.len() {
        None
    } else if ls[i as int].0 == id {
        Some(i)
    } else {
        find_lambda_inst(ls, id, i + 1)
    }
}

/// A closure's reference map: its words behind the code pointer, from capture
/// `i` down to the first.
pub open spec fn capture_map(cs: Seq<CaptureView>, n: nat) -> u64
    decreases n,
{
    if n == 0 {
        0
    } else {
        let before = capture_map(cs, (n - 1) as nat);
        if cs[n - 1].ty.is_reference() {
            before | (1u64 << (n as u64))
        } else {
            before
        }
    }
}

/// Declare the lambdas from index `i` on (function and descriptor), so that
/// bodies can refer to them.
pub open spec fn declare_lambdas(
    g: GenView,
    lams: Seq<LambdaDefView>,
    inst: InstanceView,
    i: nat,
    acc: Seq<(u32, usize, usize)>,
) -> Result<(GenView, Seq<(u32, usize, usize)>), Seq<char>>
    decreases lams.len() - i,
{
    if i >= lams.len() {
        Ok((g, acc))
    } else {
        let lam = lams[i as int];
        match find_lambda_inst(inst.lambdas, lam.id, 0) {
            None => Err(internal(lam.line)),
            Some(j) => if lam.captures.len() > 63 {
                Err(internal(lam.line))
            } else {
                let info = inst.lambdas[j as int].1;
                let func = g.funcs.len() as usize;
                let g1 = declare_func(
                    g,
                    "crow_lambda."@ + dec_text(lam.id as nat) + suffix_text(inst.shapes),
                    make_sig(info.params, info.ret, true),
                    Linkage::Local,
                );
                let (g2, d) = desc(
                    g1,
                    KIND_STRUCT,
                    (8 * (1 + lam.captures.len())) as u64,
                    capture_map(lam.captures, lam.captures.len()),
                );
                declare_lambdas(g2, lams, inst, i + 1, acc.push((lam.id, func, d)))
            },
        }
    }
}

/// The bodies of the lambdas from index `i` on.
pub open spec fn compile_lambdas(
    env: LowEnv,
    g: GenView,
    lams: Seq<LambdaDefView>,
    inst: InstanceView,
    table: Seq<(u32, usize, usize)>,
    i: nat,
) -> Result<GenView, Seq<char>>
    decreases lams.len() - i,
{
    if i >= lams.len() {
        Ok(g)
    } else {
        let lam = lams[i as int];
        match find_lambda_inst(inst.lambdas, lam.id, 0) {
            None => Err(internal(lam.line)),
            Some(j) => if i >= table.len() {
                Err(internal(lam.line))
            } else {
                let info = inst.lambdas[j as int].1;
                let src = Source {
                    func: table[i as int].1,
                    locals: info.locals,
                    nparams: lam.params.len(),
                    body: lam.body,
                    ret: info.ret,
                    line: lam.line,
                };
                match compile_body(
                    LowEnv { lams: table, locals: info.locals.len(), lambda: true, ..env },
                    g,
                    src,
                ) {
                    Err(m) => Err(
                        "in lambda at line "@ + dec_text(lam.line as nat) + ": "@ + m,
                    ),
                    Ok(g1) => compile_lambdas(env, g1, lams, inst, table, i + 1),
                }
            },
        }
    }
}

/// One scheduled function: its body and those of its lambdas.
#[verifier::opaque]
pub open spec fn compile_work(env: LowEnv, g: GenView, w: InstKeyView) -> Result<GenView, Seq<char>> {
    if w.fid >= env.program.funcs.len() || w.fid >= env.checked.funcs.len() || w.fid
        >= env.checked.func_locals.len() {
        Err(internal(0))
    } else {
        let inst = instance_of(
            w.fid,
            env.program.funcs[w.fid as int],
            env.checked,
            w.shapes,
        );
        let lams = lambdas_in_block(inst.def.body);
        match declare_lambdas(g, lams, inst, 0, Seq::empty()) {
            Err(m) => Err(m),
            Ok((g1, table)) => {
                let src = Source {
                    func: w.func,
                    locals: inst.locals,
                    nparams: inst.def.params.len(),
                    body: inst.def.body,
                    ret: inst.ret,
                    line: inst.def.line,
                };
                match compile_body(
                    LowEnv { lams: table, locals: inst.locals.len(), lambda: false, ..env },
                    g1,
                    src,
                ) {
                    Err(m) => Err("in function '"@ + inst.name + "': "@ + m),
                    Ok(g2) => compile_lambdas(env, g2, lams, inst, table, 0),
                }
            },
        }
    }
}

/// The unit once `n` scheduled functions are compiled, last in first out;
/// `None` if more are left then.
pub open spec fn drain(env: LowEnv, g: GenView, n: nat) -> Option<Result<GenView, Seq<char>>>
    decreases n,
{
    if g.work.len() == 0 {
        Some(Ok(g))
    } else if n == 0 {
        None
    } else {
        match compile_work(env, GenView { work: g.work.drop_last(), ..g }, g.work.last()) {
            Err(m) => Some(Err(m)),
            Ok(g1) => drain(env, g1, (n - 1) as nat),
        }
    }
}

// -- Programs ---------------------------------------------------------------

pub open spec fn import_data(name: Seq<char>) -> DataDefView {
    DataDefView {
        name,
        linkage: Linkage::Import,
        writable: false,
        align: 1,
        bytes: Seq::empty(),
        relocs: Seq::empty(),
    }
}

/// The unit with the runtime's functions and data declared.
pub open spec fn runtime_unit() -> GenView {
    GenView {
        funcs: Seq::new(
            rt_table().len(),
            |i: int|
                FuncDeclView {
                    name: rt_table()[i].spec_symbol(),
                    sig: rt_table()[i].spec_sig(),
                    linkage: Linkage::Import,
                },
        ),
        datas: seq![import_data("crow_desc_string"@), import_data("crow_stack_limit"@)],
        bodies: Seq::empty(),
        descs: Seq::empty(),
        insts: Seq::empty(),
        binds: Seq::empty(),
        bare: Seq::empty(),
        strs: Seq::empty(),
        work: Seq::empty(),
    }
}

/// One *static* closure object per function that may be a value, so using its
/// name allocates nothing and always gives the identical value.
pub open spec fn fnval_data(i: nat, desc: usize, thunk: usize) -> DataDefView {
    DataDefView {
        name: "crow_fnval."@ + dec_text(i),
        linkage: Linkage::Local,
        writable: true,
        align: 16,
        bytes: zeros(24),
        relocs: seq![
            Reloc::Data { at: 0, data: desc, plus: FLAG_STATIC },
            Reloc::Func { at: 16, func: thunk },
        ],
    }
}

/// Declare the monomorphic functions from index `i` on, each with its thunk
/// and static closure unless it is a method, and schedule them. Generic
/// functions get no symbol here; their instantiations are declared on first
/// use.
pub open spec fn declare_functions(
    program: ProgramView,
    checked: CheckedView,
    closure_desc: usize,
    g: GenView,
    i: nat,
    func_ids: Seq<Option<usize>>,
    fnvals: Seq<Option<usize>>,
) -> (GenView, Seq<Option<usize>>, Seq<Option<usize>>)
    decreases program.funcs.len() - i,
{
    if i >= program.funcs.len() || i >= checked.funcs.len() {
        (g, func_ids, fnvals)
    } else {
        let f = program.funcs[i as int];
        let s = checked.funcs[i as int];
        if f.type_params.len() > 0 {
            declare_functions(
                program,
                checked,
                closure_desc,
                g,
                i + 1,
                func_ids.push(None),
                fnvals.push(None),
            )
        } else {
            let id = g.funcs.len() as usize;
            let g1 = declare_func(
                g,
                "crow_fn."@ + f.name,
                make_sig(s.params, s.ret, false),
                Linkage::Local,
            );
            let g2 = GenView {
                work: g1.work.push(
                    InstKeyView { fid: i as u32, shapes: Seq::empty(), func: id },
                ),
                ..g1
            };
            if f.is_method {
                declare_functions(
                    program,
                    checked,
                    closure_desc,
                    g2,
                    i + 1,
                    func_ids.push(Some(id)),
                    fnvals.push(None),
                )
            } else {
                let (g3, val) = declare_value(g2, f.name, s.params, s.ret, id, closure_desc, i);
                declare_functions(
                    program,
                    checked,
                    closure_desc,
                    g3,
                    i + 1,
                    func_ids.push(Some(id)),
                    fnvals.push(Some(val)),
                )
            }
        }
    }
}

/// A function's thunk and static closure.
#[verifier::opaque]
pub open spec fn declare_value(
    g: GenView,
    name: Seq<char>,
    params: Seq<TypeView>,
    ret: TypeView,
    func: usize,
    closure_desc: usize,
    i: nat,
) -> (GenView, usize) {
    let sig = make_sig(params, ret, true);
    let thunk = g.funcs.len() as usize;
    let g1 = declare_func(g, "crow_thunk."@ + name, sig, Linkage::Local);
    let g2 = GenView { bodies: g1.bodies.push(thunk_body(thunk, func, sig)), ..g1 };
    (add_data(g2, fnval_data(i, closure_desc, thunk)), g2.datas.len() as usize)
}

/// The unit of a program before any body is compiled, and what bodies refer
/// to.
pub open spec fn declared(program: ProgramView, checked: CheckedView) -> (GenView, LowEnv) {
    let (g0, closure_desc) = desc(runtime_unit(), KIND_STRUCT, 8, 0);
    let (g1, func_ids, fnvals) = declare_functions(
        program,
        checked,
        closure_desc,
        g0,
        0,
        Seq::empty(),
        Seq::empty(),
    );
    (
        g1,
        LowEnv {
            program,
            checked,
            func_ids,
            fnvals,
            lams: Seq::empty(),
            locals: 0,
            lambda: false,
        },
    )
}

/// The unit of a program once `n` functions are compiled.
pub open spec fn lower_steps(program: ProgramView, checked: CheckedView, n: nat) -> Option<
    Result<GenView, Seq<char>>,
> {
    let (g, env) = declared(program, checked);
    drain(env, g, n)
}

/// The result for a program: what every long enough run gives.
pub open spec fn lowered(program: ProgramView, checked: CheckedView) -> Result<
    GenView,
    Seq<char>,
> {
    lower_steps(program, checked, choose|n: nat| #[trigger]
        lower_steps(program, checked, n) is Some)->Some_0
}

proof fn lemma_drain_stable(env: LowEnv, g: GenView, m: nat, n: nat)
    requires
        drain(env, g, m) is Some,
        m <= n,
    ensures
        drain(env, g, n) == drain(env, g, m),
    decreases m,
{
    if g.work.len() > 0 {
        if let Ok(g1) = compile_work(
            env,
            GenView { work: g.work.drop_last(), ..g },
            g.work.last(),
        ) {
            lemma_drain_stable(env, g1, (m - 1) as nat, (n - 1) as nat);
        }
    }
}

/// All runs that come to an end give the same result.
pub proof fn law_lowering_is_unique(program: ProgramView, checked: CheckedView, m: nat, n: nat)
    requires
        lower_steps(program, checked, m) is Some,
        lower_steps(program, checked, n) is Some,
    ensures
        lower_steps(program, checked, m) == lower_steps(program, checked, n),
        lower_steps(program, checked, n) == Some(lowered(program, checked)),
{
    let (g, env) = declared(program, checked);
    let w = choose|n: nat| #[trigger] lower_steps(program, checked, n) is Some;
    assert(lower_steps(program, checked, w) is Some);
    if m <= n {
        lemma_drain_stable(env, g, m, n);
    } else {
        lemma_drain_stable(env, g, n, m);
    }
    if w <= n {
        lemma_drain_stable(env, g, w, n);
    } else {
        lemma_drain_stable(env, g, n, w);
    }
}

pub open spec fn func_names(program: ProgramView) -> Seq<Seq<char>> {
    Seq::new(program.funcs.len(), |i: int| program.funcs[i].name)
}

/// What the program's `main` became.
pub open spec fn main_func(program: ProgramView, checked: CheckedView) -> Option<usize> {
    let ids = declared(program, checked).1.func_ids;
    match position(func_names(program), "main"@) {
        Some(i) if i < ids.len() => ids[i as int],
        _ => None,
    }
}

/// The unit of a program, and its `main`.
pub open spec fn compiled(program: ProgramView, checked: CheckedView) -> Result<
    (GenView, usize),
    Seq<char>,
> {
    match lowered(program, checked) {
        Err(m) => Err(m),
        Ok(g) => match main_func(program, checked) {
            None => Err(internal(0)),
            Some(f) => Ok((g, f)),
        },
    }
}

// -- Stack maps and the entry point -----------------------------------------

/// A call at which references are live: the function it stands in, the offset
/// behind it, the distance from the stack pointer to the frame record, and
/// where the references stand above the stack pointer.
#[verifier::ext_equal]
pub struct SafePointView {
    pub func: usize,
    pub ret_off: u32,
    pub span: u32,
    pub slots: Seq<u32>,
}

/// How many slots the first `n` points have.
pub open spec fn slots_before(ps: Seq<SafePointView>, n: nat) -> nat
    decreases n,
{
    if n == 0 {
        0
    } else {
        slots_before(ps, (n - 1) as nat) + ps[n - 1].slots.len()
    }
}

/// The words of a point: room for its function's address, the offset behind
/// the call, the distance to the frame record, and its slots as a range.
pub open spec fn point_words(ps: Seq<SafePointView>, i: nat) -> Seq<u64> {
    let p = ps[i as int];
    seq![
        0u64,
        p.ret_off as u64,
        p.span as u64,
        slots_before(ps, i) as u64,
        p.slots.len() as u64,
    ]
}

pub open spec fn point_table(ps: Seq<SafePointView>, n: nat) -> Seq<u64>
    decreases n,
{
    if n == 0 {
        Seq::empty()
    } else {
        point_table(ps, (n - 1) as nat) + point_words(ps, (n - 1) as nat)
    }
}

pub open spec fn slot_words(p: SafePointView) -> Seq<u64> {
    Seq::new(p.slots.len(), |j: int| p.slots[j] as u64)
}

pub open spec fn slot_table(ps: Seq<SafePointView>, n: nat) -> Seq<u64>
    decreases n,
{
    if n == 0 {
        Seq::empty()
    } else {
        slot_table(ps, (n - 1) as nat) + slot_words(ps[n - 1])
    }
}

/// The words of the stack-map table: how many points there are, the points,
/// and all their slots.
pub open spec fn map_words(ps: Seq<SafePointView>) -> Seq<u64> {
    seq![ps.len() as u64] + point_table(ps, ps.len()) + slot_table(ps, ps.len())
}

pub open spec fn words_bytes(words: Seq<u64>) -> Seq<u8>
    decreases words.len(),
{
    if words.len() == 0 {
        Seq::empty()
    } else {
        words_bytes(words.drop_last()) + le8(words.last())
    }
}

/// The stack-map table, which the runtime reads at startup.
pub open spec fn stackmap_data(ps: Seq<SafePointView>) -> DataDefView {
    DataDefView {
        name: "crow_stackmaps"@,
        linkage: Linkage::Local,
        writable: false,
        align: 8,
        bytes: words_bytes(map_words(ps)),
        relocs: Seq::new(
            ps.len(),
            |i: int| Reloc::Func { at: (8 + 40 * i) as u32, func: ps[i].func },
        ),
    }
}

/// The real `main`: initialize the runtime (passing its frame pointer as the
/// stack walk boundary), register stack maps, run the program's main, exit.
pub open spec fn entry_ops(table: usize, main: usize) -> Seq<Op> {
    seq![
        Op::FramePointer,
        Op::Arg(0),
        Op::CallRt(Rt::RtInit),
        Op::DataAddr(table),
        Op::Arg(3),
        Op::CallRt(Rt::RtRegisterMaps),
        Op::Call(main),
        Op::Iconst(0),
        Op::Arg(7),
        Op::CallRt(Rt::RtExit),
        Op::Iconst32(0),
        Op::ReturnValue(10),
    ]
}

/// The unit with its stack-map table and entry point.
pub open spec fn finished(g: GenView, main: usize, ps: Seq<SafePointView>) -> GenView {
    let table = g.datas.len() as usize;
    let entry = g.funcs.len() as usize;
    let g1 = declare_func(
        add_data(g, stackmap_data(ps)),
        "main"@,
        SigView { params: Seq::empty(), ret: Some(IrType::I32) },
        Linkage::Export,
    );
    GenView {
        bodies: g1.bodies.push(
            BodyView {
                func: entry,
                vars: Seq::empty(),
                ops: entry_ops(table, main),
                sigs: Seq::empty(),
                floats: Seq::empty(),
            },
        ),
        ..g1
    }
}

} // verus!
