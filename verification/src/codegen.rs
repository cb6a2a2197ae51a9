//! Code generation: lowers checked programs to units of functions and static
//! data, exactly as `lower` says.
use vstd::prelude::*;

use crate::ast::{
    binders_view, captures_view, expr_arms_view, exprs_view, inits_view, params_view,
    stmt_arms_view, stmts_view, BinOp, Block, Builtin, Capture, Expr, ExprKind, ExprView, LambdaDef,
    PatArgs, PatBinder, Pattern, Program, Stmt, StmtView, UnOp, VarRes, VariantArgs,
};
use crate::counting::lemma_pigeonhole;
use crate::ir::{
    bodies_view, data_defs_view, fits, func_decls_view, is_block, is_value, rt_funcs, rt_table,
    sigs_view, tables_cover, well_formed, Body, BodyView, DataDef, FlagOp, FloatCC, FloatOp,
    FuncDecl, FuncDeclView, IntCC, IntOp, IrType, Linkage, Op, Reloc, Rt, Scope, Sig, SigView,
    UnaryOp,
};
use crate::lower;
use crate::lower::{
    bodies_sound, body_sound, next, put, FnView, GenView, InstKeyView, LowEnv, LowView, ARR_BUF, ARR_LEN, AUX, DESC_STRING,
    FLAG_STATIC, HEADER, KIND_STRUCT, SafePointView,
};
use crate::mono::{
    canonical_all, instantiate, lambda_insts_view, shape_of, suffix, Instance, LambdaInst, Shape,
};
use crate::rules::CheckedView;
use crate::text::{
    cat2, cat3, cat4, cat6, dec, dec_usize, hex, names_view, owned, position, position_from, str_eq,
};
use crate::typeck::Checked;
use crate::types::{
    field_offset, field_types, layout_fields, layout_size, typed_names_view, types_after_first,
    types_view, IntKind, Type, TypeView, VariantPayload,
};
use crate::typing::internal;
use crate::walk::{collect_lambdas, lambda_refs_view, makes_crow_calls};

verus! {

// -- State ------------------------------------------------------------------

/// An instantiation: a function at argument shapes, and what it became.
pub struct InstKey {
    pub fid: u32,
    pub shapes: Vec<Shape>,
    pub func: usize,
}

impl InstKey {
    pub open spec fn view(&self) -> InstKeyView {
        InstKeyView { fid: self.fid, shapes: self.shapes@, func: self.func }
    }
}

pub open spec fn inst_keys_view(ks: Seq<InstKey>) -> Seq<InstKeyView> {
    Seq::new(ks.len(), |i: int| ks[i]@)
}

/// A unit: functions, static data and bodies, and what it already holds.
pub struct Unit {
    pub funcs: Vec<FuncDecl>,
    pub datas: Vec<DataDef>,
    pub bodies: Vec<Body>,
    /// Descriptors by (kind, size, reference map).
    pub descs: Vec<(u64, u64, u64, usize)>,
    /// Instantiations of generic functions.
    pub insts: Vec<InstKey>,
    /// Adapters of bound methods.
    pub binds: Vec<InstKey>,
    /// The static objects of bare variants, by (enum, tag).
    pub bare: Vec<(u32, u32, usize)>,
    /// String literals.
    pub strs: Vec<usize>,
    /// Declared functions without a body yet.
    pub work: Vec<InstKey>,
}

impl Unit {
    pub open spec fn view(&self) -> GenView {
        GenView {
            funcs: func_decls_view(self.funcs@),
            datas: data_defs_view(self.datas@),
            bodies: bodies_view(self.bodies@),
            descs: self.descs@,
            insts: inst_keys_view(self.insts@),
            binds: inst_keys_view(self.binds@),
            bare: self.bare@,
            strs: self.strs@,
            work: inst_keys_view(self.work@),
        }
    }
}

/// The body being written.
struct Func {
    ops: Vec<Op>,
    /// (break target, continue target)
    loops: Vec<(usize, usize)>,
    terminated: bool,
    sigs: Vec<Sig>,
    floats: Vec<String>,
    params: usize,
    vars: usize,
}

impl Func {
    spec fn view(&self) -> FnView {
        FnView {
            ops: self.ops@,
            loops: self.loops@,
            terminated: self.terminated,
            sigs: sigs_view(self.sigs@),
            floats: names_view(self.floats@),
        }
    }

    spec fn scope(self) -> Scope {
        Scope { params: self.params as nat, vars: self.vars as nat }
    }

    spec fn wf(self) -> bool {
        &&& well_formed(self.ops@, self.scope())
        &&& tables_cover(self.ops@, self.sigs@.len(), self.floats@.len())
        &&& forall|i: int|
            0 <= i < self.loops@.len() ==> is_block(self.ops@, (#[trigger] self.loops@[i]).0)
                && is_block(self.ops@, self.loops@[i].1)
    }
}

struct Low {
    g: Unit,
    f: Func,
}

impl Low {
    spec fn view(&self) -> LowView {
        LowView { g: self.g@, f: self.f@ }
    }
}

/// The context of a body.
struct Cx<'a> {
    program: &'a Program,
    checked: &'a Checked,
    func_ids: &'a Vec<Option<usize>>,
    fnvals: &'a Vec<Option<usize>>,
    lams: &'a Vec<(u32, usize, usize)>,
    locals: usize,
    lambda: bool,
}

impl Cx<'_> {
    spec fn view(&self) -> LowEnv {
        LowEnv {
            program: self.program@,
            checked: self.checked@,
            func_ids: self.func_ids@,
            fnvals: self.fnvals@,
            lams: self.lams@,
            locals: self.locals as nat,
            lambda: self.lambda,
        }
    }

    /// May the body be written in this context?
    spec fn admits(&self, st: Low) -> bool {
        &&& st.f.wf()
        &&& unit_ok(self.checked@, st.g@)
        &&& self.locals <= st.f.vars
        &&& self.lambda ==> self.locals < st.f.vars
    }
}

/// The instantiations are distinct, and each has as many shapes as its
/// function has type parameters.
pub open spec fn insts_ok(checked: CheckedView, insts: Seq<InstKeyView>) -> bool {
    &&& forall|i: int|
        0 <= i < insts.len() ==> (#[trigger] insts[i]).fid < checked.funcs.len()
            && insts[i].shapes.len() == checked.funcs[insts[i].fid as int].type_params.len()
    &&& forall|i: int, j: int|
        0 <= i < j < insts.len() ==> (#[trigger] insts[i]).fid != (#[trigger] insts[j]).fid
            || insts[i].shapes != insts[j].shapes
}

/// The later instructions go on from the earlier ones.
spec fn grown(new: Seq<Op>, old: Seq<Op>) -> bool {
    old.len() <= new.len() && forall|i: int| 0 <= i < old.len() ==> #[trigger] new[i] == old[i]
}

/// What holds of the unit at every step.
pub open spec fn unit_ok(checked: CheckedView, g: GenView) -> bool {
    insts_ok(checked, g.insts) && bodies_sound(g)
}

/// What was declared stays as it is.
spec fn funcs_kept(new: Seq<FuncDecl>, old: Seq<FuncDecl>) -> bool {
    old.len() <= new.len() && forall|i: int| 0 <= i < old.len() ==> #[trigger] new[i] == old[i]
}

/// What every step keeps of the unit: each new instantiation is scheduled.
spec fn unit_follows(new: Unit, old: Unit, checked: CheckedView) -> bool {
    &&& unit_ok(checked, new@)
    &&& funcs_kept(new.funcs@, old.funcs@)
    &&& new.insts@.len() >= old.insts@.len()
    &&& new.insts@.len() - old.insts@.len() == new.work@.len() - old.work@.len()
}

spec fn follows(new: Low, old: Low, checked: CheckedView) -> bool {
    &&& new.f.wf()
    &&& new.f.params == old.f.params
    &&& new.f.vars == old.f.vars
    &&& new.f.loops@ == old.f.loops@
    &&& grown(new.f.ops@, old.f.ops@)
    &&& unit_follows(new.g, old.g, checked)
}

/// The same, where only instructions were added.
spec fn wrote(new: Low, old: Low) -> bool {
    &&& new.f.wf()
    &&& new.f.params == old.f.params
    &&& new.f.vars == old.f.vars
    &&& new.f.loops@ == old.f.loops@
    &&& new.f.terminated == old.f.terminated
    &&& grown(new.f.ops@, old.f.ops@)
    &&& new.g == old.g
}

/// A result with a value, and the state after it, are what a rule gives.
spec fn gives(
    r: Result<usize, String>,
    want: Result<(LowView, usize), Seq<char>>,
    new: Low,
    old: Low,
    checked: CheckedView,
) -> bool {
    match r {
        Ok(v) => want == Ok::<(LowView, usize), Seq<char>>((new@, v)) && is_value(new.f.ops@, v)
            && follows(new, old, checked),
        Err(m) => want == Err::<(LowView, usize), Seq<char>>(m@),
    }
}

spec fn gives_opt(
    r: Result<Option<usize>, String>,
    want: Result<(LowView, Option<usize>), Seq<char>>,
    new: Low,
    old: Low,
    checked: CheckedView,
) -> bool {
    match r {
        Ok(v) => want == Ok::<(LowView, Option<usize>), Seq<char>>((new@, v)) && (v is Some
            ==> is_value(new.f.ops@, v->0)) && follows(new, old, checked),
        Err(m) => want == Err::<(LowView, Option<usize>), Seq<char>>(m@),
    }
}

/// A step without a value, and the state after it.
spec fn does(
    r: Result<(), String>,
    want: Result<LowView, Seq<char>>,
    new: Low,
    old: Low,
    checked: CheckedView,
) -> bool {
    match r {
        Ok(()) => want == Ok::<LowView, Seq<char>>(new@) && follows(new, old, checked),
        Err(m) => want == Err::<LowView, Seq<char>>(m@),
    }
}

fn malformed(line: u32) -> (r: String)
    ensures
        r@ == internal(line),
{
    cat2(dec(line as u64).as_str(), ": internal error: malformed syntax tree")
}

// -- Writing instructions ---------------------------------------------------

proof fn lemma_push_well_formed(ops: Seq<Op>, op: Op, sc: Scope)
    requires
        well_formed(ops, sc),
        fits(ops, op, sc),
    ensures
        well_formed(ops.push(op), sc),
{
    let new = ops.push(op);
    assert forall|i: int| 0 <= i < new.len() implies fits(new.take(i), #[trigger] new[i], sc) by {
        if i < ops.len() {
            assert(new.take(i) =~= ops.take(i));
            assert(new[i] == ops[i]);
        } else {
            assert(new.take(i) =~= ops);
        }
    }
}

impl Low {
    /// Write one instruction; gives its place.
    fn emit(&mut self, op: Op) -> (r: usize)
        requires
            old(self).f.wf(),
            fits(old(self).f.ops@, op, old(self).f.scope()),
            tables_cover(seq![op], old(self).f.sigs@.len(), old(self).f.floats@.len()),
        ensures
            final(self)@ == put(old(self)@, op),
            r == next(old(self)@),
            r == old(self).f.ops@.len(),
            wrote(*final(self), *old(self)),
            final(self).f.ops@ == old(self).f.ops@.push(op),
            final(self).f.ops@[r as int] == op,
            final(self).f.sigs == old(self).f.sigs,
            final(self).f.floats == old(self).f.floats,
            is_value(final(self).f.ops@, r) == op.gives_value(),
            is_block(final(self).f.ops@, r) == op.makes_block(),
    {
        let r = self.f.ops.len();
        proof {
            lemma_push_well_formed(self.f.ops@, op, self.f.scope());
            assert(seq![op][0] == op);
        }
        self.f.ops.push(op);
        r
    }

    fn rt1(&mut self, rt: Rt, a: usize) -> (r: usize)
        requires
            old(self).f.wf(),
            is_value(old(self).f.ops@, a),
        ensures
            (final(self)@, r) == lower::rt1(old(self)@, rt, a),
            wrote(*final(self), *old(self)),
            is_value(final(self).f.ops@, r) == (rt.result() is Some),
    {
        self.emit(Op::Arg(a));
        self.emit(Op::CallRt(rt))
    }

    fn rt2(&mut self, rt: Rt, a: usize, b: usize) -> (r: usize)
        requires
            old(self).f.wf(),
            is_value(old(self).f.ops@, a),
            is_value(old(self).f.ops@, b),
        ensures
            (final(self)@, r) == lower::rt2(old(self)@, rt, a, b),
            wrote(*final(self), *old(self)),
            is_value(final(self).f.ops@, r) == (rt.result() is Some),
    {
        self.emit(Op::Arg(a));
        self.rt1(rt, b)
    }

    fn rt3(&mut self, rt: Rt, a: usize, b: usize, c: usize) -> (r: usize)
        requires
            old(self).f.wf(),
            is_value(old(self).f.ops@, a),
            is_value(old(self).f.ops@, b),
            is_value(old(self).f.ops@, c),
        ensures
            (final(self)@, r) == lower::rt3(old(self)@, rt, a, b, c),
            wrote(*final(self), *old(self)),
            is_value(final(self).f.ops@, r) == (rt.result() is Some),
    {
        self.emit(Op::Arg(a));
        self.rt2(rt, b, c)
    }

    fn rt4(&mut self, rt: Rt, a: usize, b: usize, c: usize, d: usize) -> (r: usize)
        requires
            old(self).f.wf(),
            is_value(old(self).f.ops@, a),
            is_value(old(self).f.ops@, b),
            is_value(old(self).f.ops@, c),
            is_value(old(self).f.ops@, d),
        ensures
            (final(self)@, r) == lower::rt4(old(self)@, rt, a, b, c, d),
            wrote(*final(self), *old(self)),
            is_value(final(self).f.ops@, r) == (rt.result() is Some),
    {
        self.emit(Op::Arg(a));
        self.rt3(rt, b, c, d)
    }

    /// A value to read; a call without a result reads as zero.
    fn value_of(&mut self, v: Option<usize>) -> (r: usize)
        requires
            old(self).f.wf(),
            v is Some ==> is_value(old(self).f.ops@, v->0),
        ensures
            (final(self)@, r) == lower::value_of(old(self)@, v),
            wrote(*final(self), *old(self)),
            is_value(final(self).f.ops@, r),
    {
        match v {
            Some(v) => v,
            None => self.emit(Op::Iconst(0)),
        }
    }

    /// Mark a value that the collector must track if it is a reference.
    fn root_if(&mut self, ty: &Type, v: usize)
        requires
            old(self).f.wf(),
            is_value(old(self).f.ops@, v),
        ensures
            final(self)@ == lower::rooted(old(self)@, ty@, v),
            wrote(*final(self), *old(self)),
            is_value(final(self).f.ops@, v),
    {
        if ty.is_ref() {
            self.emit(Op::Root(v));
        }
    }

    // -- Packed memory access -----------------------------------------------

    /// Load a value, extending sized integers and bools to the canonical
    /// 64-bit register form.
    fn load_typed(&mut self, ty: &Type, base: usize, off: i32) -> (r: usize)
        requires
            old(self).f.wf(),
            is_value(old(self).f.ops@, base),
        ensures
            (final(self)@, r) == lower::load_typed(old(self)@, ty@, base, off),
            wrote(*final(self), *old(self)),
            is_value(final(self).f.ops@, r),
    {
        reveal(lower::load_typed);
        match ty {
            Type::Int(k) => {
                if k.bits() < 64 {
                    let v = self.emit(Op::Load(small_ty(*k), base, off));
                    if k.signed() {
                        self.emit(Op::Unary(UnaryOp::Sextend, v))
                    } else {
                        self.emit(Op::Unary(UnaryOp::Uextend, v))
                    }
                } else {
                    self.emit(Op::Load(IrType::I64, base, off))
                }
            },
            Type::Bool => {
                let v = self.emit(Op::Load(IrType::I8, base, off));
                self.emit(Op::Unary(UnaryOp::Uextend, v))
            },
            _ => self.emit(Op::Load(abi_ty(ty), base, off)),
        }
    }

    /// Store into a field; a reference goes through the write barrier.
    fn store_field(&mut self, ty: &Type, v: usize, obj: usize, off: i32)
        requires
            old(self).f.wf(),
            is_value(old(self).f.ops@, v),
            is_value(old(self).f.ops@, obj),
        ensures
            final(self)@ == lower::store_field(old(self)@, ty@, v, obj, off),
            wrote(*final(self), *old(self)),
    {
        reveal(lower::store_field);
        if ty.is_ref() {
            let addr = self.emit(Op::IntImm(IntOp::Add, obj, off as i64));
            self.rt3(Rt::WriteRef, obj, addr, v);
        } else {
            self.emit(store_op(ty, v, obj, off));
        }
    }

    /// Store into an element whose address is known.
    fn store_elem(&mut self, ty: &Type, v: usize, buf: usize, addr: usize)
        requires
            old(self).f.wf(),
            is_value(old(self).f.ops@, v),
            is_value(old(self).f.ops@, buf),
            is_value(old(self).f.ops@, addr),
        ensures
            final(self)@ == lower::store_elem(old(self)@, ty@, v, buf, addr),
            wrote(*final(self), *old(self)),
    {
        reveal(lower::store_elem);
        if ty.is_ref() {
            self.rt3(Rt::WriteRef, buf, addr, v);
        } else {
            self.emit(store_op(ty, v, addr, 0));
        }
    }

    /// Store a whole word into an object.
    fn store_word(&mut self, ty: &Type, v: usize, obj: usize, off: i32)
        requires
            old(self).f.wf(),
            is_value(old(self).f.ops@, v),
            is_value(old(self).f.ops@, obj),
        ensures
            final(self)@ == lower::store_word(old(self)@, ty@, v, obj, off),
            wrote(*final(self), *old(self)),
    {
        if ty.is_ref() {
            self.store_field(ty, v, obj, off);
        } else {
            self.emit(Op::Store(v, obj, off));
        }
    }

    /// A new object with the given descriptor and auxiliary word.
    fn new_of(&mut self, id: usize, aux: i64) -> (r: usize)
        requires
            old(self).f.wf(),
        ensures
            (final(self)@, r) == lower::new_of(old(self)@, id, aux),
            wrote(*final(self), *old(self)),
            is_value(final(self).f.ops@, r),
    {
        let desc = self.emit(Op::DataAddr(id));
        let word = self.emit(Op::Iconst(aux));
        let obj = self.rt2(Rt::Alloc, desc, word);
        self.emit(Op::Root(obj));
        obj
    }

    /// Bounds check and element address for an already evaluated array and
    /// index. Gives (buffer, address); both are derived pointers that must
    /// not live across a call that can allocate.
    fn index_addr(&mut self, arr: usize, idx: usize, size: u32, line: u32) -> (r: (usize, usize))
        requires
            old(self).f.wf(),
            is_value(old(self).f.ops@, arr),
            is_value(old(self).f.ops@, idx),
        ensures
            (final(self)@, r.0, r.1) == lower::index_addr(old(self)@, arr, idx, size, line),
            wrote(*final(self), *old(self)),
            is_value(final(self).f.ops@, r.0),
            is_value(final(self).f.ops@, r.1),
    {
        reveal(lower::index_addr);
        let len = self.emit(Op::Load(IrType::I64, arr, ARR_LEN));
        self.emit(Op::BoundsCheck(idx, len, line));
        let buf = self.emit(Op::Load(IrType::I64, arr, ARR_BUF));
        let scaled = self.emit(Op::IntImm(IntOp::Mul, idx, size as i64));
        let base = self.emit(Op::IntImm(IntOp::Add, scaled, HEADER as i64));
        let addr = self.emit(Op::Int(IntOp::Add, buf, base));
        (buf, addr)
    }

    // -- Arithmetic ---------------------------------------------------------

    /// Shifts: the amount must be in `[0, bits)` (panics otherwise; the
    /// unsigned compare also catches negative amounts in canonical form).
    fn gen_shift(&mut self, op: BinOp, k: IntKind, l: usize, r: usize, line: u32) -> (v: usize)
        requires
            old(self).f.wf(),
            is_value(old(self).f.ops@, l),
            is_value(old(self).f.ops@, r),
        ensures
            (final(self)@, v) == lower::shift(old(self)@, op, k, l, r, line),
            wrote(*final(self), *old(self)),
            is_value(final(self).f.ops@, v),
    {
        reveal(lower::shift);
        let bad = self.emit(
            Op::CompareImm(IntCC::UnsignedGreaterThanOrEqual, r, k.bits() as i64),
        );
        self.emit(Op::PanicIf(bad, Rt::PanicShift, line));
        if matches!(op, BinOp::Shr) {
            let shr = if k.signed() {
                IntOp::Sshr
            } else {
                IntOp::Ushr
            };
            return self.emit(Op::Int(shr, l, r));
        }
        let v = self.emit(Op::Int(IntOp::Shl, l, r));
        if k.bits() == 64 {
            v
        } else if k.signed() {
            let small = self.emit(Op::Unary(reduce_op(k), v));
            self.emit(Op::Unary(UnaryOp::Sextend, small))
        } else {
            self.emit(Op::IntImm(IntOp::And, v, k.max() as i64))
        }
    }

    /// Panic if a narrow (< 64-bit) result overflowed the integer kind.
    fn check_overflow(&mut self, k: IntKind, v: usize, line: u32)
        requires
            old(self).f.wf(),
            is_value(old(self).f.ops@, v),
        ensures
            final(self)@ == lower::check_overflow(old(self)@, k, v, line),
            wrote(*final(self), *old(self)),
    {
        reveal(lower::check_overflow);
        let lo = self.emit(Op::CompareImm(IntCC::SignedLessThan, v, k.min() as i64));
        let hi = self.emit(Op::CompareImm(IntCC::SignedGreaterThan, v, k.max() as i64));
        let overflow = self.emit(Op::Int(IntOp::Or, lo, hi));
        self.emit(Op::PanicIf(overflow, Rt::PanicOverflow, line));
    }

    /// Integer division with explicit zero and overflow handling.
    fn gen_div(&mut self, op: BinOp, k: IntKind, l: usize, r: usize, line: u32) -> (v: usize)
        requires
            old(self).f.wf(),
            is_value(old(self).f.ops@, l),
            is_value(old(self).f.ops@, r),
        ensures
            (final(self)@, v) == lower::divide(old(self)@, op, k, l, r, line),
            wrote(*final(self), *old(self)),
            is_value(final(self).f.ops@, v),
    {
        reveal(lower::divide);
        let is_zero = self.emit(Op::CompareImm(IntCC::Equal, r, 0));
        self.emit(Op::PanicIf(is_zero, Rt::PanicDiv, line));
        if k.signed() {
            return self.gen_div_signed(op, k, l, r, line);
        }
        let div = if matches!(op, BinOp::Div) {
            IntOp::Udiv
        } else {
            IntOp::Urem
        };
        self.emit(Op::Int(div, l, r))
    }

    /// Signed division special-cases a divisor of -1, which both overflows
    /// for MIN / -1 and traps in hardware there.
    #[verifier::rlimit(40)]
    fn gen_div_signed(&mut self, op: BinOp, k: IntKind, l: usize, r: usize, line: u32) -> (v:
        usize)
        requires
            old(self).f.wf(),
            is_value(old(self).f.ops@, l),
            is_value(old(self).f.ops@, r),
        ensures
            (final(self)@, v) == lower::divide_signed(old(self)@, op, k, l, r, line),
            wrote(*final(self), *old(self)),
            is_value(final(self).f.ops@, v),
    {
        reveal(lower::divide_signed);
        let special = self.emit(Op::Block);
        let normal = self.emit(Op::Block);
        let merge = self.emit(Op::BlockOf(IrType::I64));
        let is_neg1 = self.emit(Op::CompareImm(IntCC::Equal, r, -1));
        self.emit(Op::Brif(is_neg1, special, normal));
        self.emit(Op::SwitchTo(special));
        let x = if matches!(op, BinOp::Div) {
            let is_min = self.emit(Op::CompareImm(IntCC::Equal, l, k.min() as i64));
            self.emit(Op::PanicIf(is_min, Rt::PanicOverflow, line));
            self.emit(Op::Unary(UnaryOp::Ineg, l))
        } else {
            // x % -1 == 0
            self.emit(Op::Iconst(0))
        };
        self.emit(Op::JumpWith(merge, x));
        self.emit(Op::SwitchTo(normal));
        let div = if matches!(op, BinOp::Div) {
            IntOp::Sdiv
        } else {
            IntOp::Srem
        };
        let y = self.emit(Op::Int(div, l, r));
        self.emit(Op::JumpWith(merge, y));
        self.emit(Op::SwitchTo(merge));
        self.emit(Op::BlockParam(merge))
    }

    /// Checked addition, subtraction and multiplication.
    fn checked_arith(&mut self, op: BinOp, k: IntKind, l: usize, r: usize, line: u32) -> (v: usize)
        requires
            old(self).f.wf(),
            is_value(old(self).f.ops@, l),
            is_value(old(self).f.ops@, r),
        ensures
            (final(self)@, v) == lower::checked_arith(old(self)@, op, k, l, r, line),
            wrote(*final(self), *old(self)),
            is_value(final(self).f.ops@, v),
    {
        reveal(lower::checked_arith);
        if k.bits() == 64 {
            let v = self.emit(Op::Flagged(flag_op(op, k.signed()), l, r));
            let of = self.emit(Op::Flag(v));
            self.emit(Op::PanicIf(of, Rt::PanicOverflow, line));
            v
        } else {
            let v = self.emit(Op::Int(plain_op(op), l, r));
            self.check_overflow(k, v, line);
            v
        }
    }

    fn int_arith(&mut self, op: BinOp, k: IntKind, l: usize, r: usize, line: u32) -> (v: Result<
        usize,
        String,
    >)
        requires
            old(self).f.wf(),
            is_value(old(self).f.ops@, l),
            is_value(old(self).f.ops@, r),
        ensures
            written(v, lower::int_arith(old(self)@, op, k, l, r, line), *final(self), *old(self)),
    {
        reveal(lower::int_arith);
        match op {
            BinOp::Add | BinOp::Sub | BinOp::Mul => Ok(self.checked_arith(op, k, l, r, line)),
            BinOp::Div | BinOp::Rem => Ok(self.gen_div(op, k, l, r, line)),
            BinOp::BitAnd | BinOp::BitOr | BinOp::BitXor => Ok(
                self.emit(Op::Int(plain_op(op), l, r)),
            ),
            BinOp::Shl | BinOp::Shr => Ok(self.gen_shift(op, k, l, r, line)),
            _ => Err(malformed(line)),
        }
    }

    /// Arithmetic, bitwise, and string-concat operators on already-evaluated
    /// operands of type `ty` (both sides). Shared by binary expressions and
    /// compound assignment. A returned reference (concat result) is already
    /// rooted.
    fn gen_arith_values(&mut self, op: BinOp, ty: &Type, l: usize, r: usize, line: u32) -> (v:
        Result<usize, String>)
        requires
            old(self).f.wf(),
            is_value(old(self).f.ops@, l),
            is_value(old(self).f.ops@, r),
        ensures
            written(v, lower::arith(old(self)@, op, ty@, l, r, line), *final(self), *old(self)),
    {
        reveal(lower::arith);
        match ty {
            Type::Str => {
                if !matches!(op, BinOp::Add) {
                    return Err(malformed(line));
                }
                let v = self.rt2(Rt::StrConcat, l, r);
                self.emit(Op::Root(v));
                Ok(v)
            },
            Type::Float => {
                let f = match op {
                    BinOp::Add => FloatOp::Add,
                    BinOp::Sub => FloatOp::Sub,
                    BinOp::Mul => FloatOp::Mul,
                    BinOp::Div => FloatOp::Div,
                    _ => return Err(malformed(line)),
                };
                Ok(self.emit(Op::Float(f, l, r)))
            },
            Type::Int(k) => self.int_arith(op, *k, l, r, line),
            _ => Err(malformed(line)),
        }
    }

    /// A comparison of scalars, as a 64-bit truth value.
    fn compare(&mut self, op: BinOp, ty: &Type, l: usize, r: usize) -> (v: usize)
        requires
            old(self).f.wf(),
            is_value(old(self).f.ops@, l),
            is_value(old(self).f.ops@, r),
        ensures
            (final(self)@, v) == lower::compare(old(self)@, op, ty@, l, r),
            wrote(*final(self), *old(self)),
            is_value(final(self).f.ops@, v),
    {
        reveal(lower::compare);
        let c = if matches!(ty, Type::Float) {
            self.emit(Op::CompareFloat(float_cc(op), l, r))
        } else {
            self.emit(Op::Compare(int_cc(op, signed_type(ty)), l, r))
        };
        self.emit(Op::Unary(UnaryOp::Uextend, c))
    }

    /// An operator other than the short-circuiting ones, on evaluated
    /// operands.
    fn binary_values(
        &mut self,
        op: BinOp,
        lt: &Type,
        rt: &Type,
        l: usize,
        r: usize,
        line: u32,
    ) -> (v: Result<usize, String>)
        requires
            old(self).f.wf(),
            is_value(old(self).f.ops@, l),
            is_value(old(self).f.ops@, r),
        ensures
            written(
                v,
                lower::binary_values(old(self)@, op, lt@, rt@, l, r, line),
                *final(self),
                *old(self),
            ),
    {
        reveal(lower::binary_values);
        // String equality goes through the runtime; concatenation shares
        // `gen_arith_values` with compound assignment.
        if matches!(lt, Type::Str) || matches!(rt, Type::Str) {
            let text = Type::Str;
            assert(text@ == TypeView::Str);
            return match op {
                BinOp::Add => self.gen_arith_values(op, &text, l, r, line),
                BinOp::Eq => Ok(self.rt2(Rt::StrEq, l, r)),
                BinOp::Ne => {
                    let eq = self.rt2(Rt::StrEq, l, r);
                    Ok(self.emit(Op::IntImm(IntOp::Xor, eq, 1)))
                },
                _ => Err(malformed(line)),
            };
        }
        // Other references are equal when they are identical.
        if matches!(
            op,
            BinOp::Eq | BinOp::Ne | BinOp::Lt | BinOp::Le | BinOp::Gt | BinOp::Ge
        ) {
            return Ok(self.compare(op, lt, l, r));
        }
        self.gen_arith_values(op, lt, l, r, line)
    }

    /// A unary operator on an evaluated operand.
    fn unary_value(&mut self, op: UnOp, ty: &Type, v: usize, line: u32) -> (r: Result<
        usize,
        String,
    >)
        requires
            old(self).f.wf(),
            is_value(old(self).f.ops@, v),
        ensures
            written(
                r,
                lower::unary_value(old(self)@, op, ty@, v, line),
                *final(self),
                *old(self),
            ),
    {
        reveal(lower::unary_value);
        match op {
            UnOp::Neg => match ty {
                Type::Float => Ok(self.emit(Op::Unary(UnaryOp::Fneg, v))),
                Type::Int(k) => {
                    // Negating the most negative value overflows.
                    let is_min = self.emit(Op::CompareImm(IntCC::Equal, v, k.min() as i64));
                    self.emit(Op::PanicIf(is_min, Rt::PanicOverflow, line));
                    Ok(self.emit(Op::Unary(UnaryOp::Ineg, v)))
                },
                _ => Err(malformed(line)),
            },
            UnOp::Not => Ok(self.emit(Op::IntImm(IntOp::Xor, v, 1))),
            UnOp::BitNot => match ty {
                Type::Int(k) => {
                    let r = self.emit(Op::Unary(UnaryOp::Bnot, v));
                    // Re-canonicalize narrow unsigned results: complement sets
                    // the (zero) extension bits. Sign-extended values are
                    // closed under complement.
                    if k.signed() || k.bits() == 64 {
                        Ok(r)
                    } else {
                        Ok(self.emit(Op::IntImm(IntOp::And, r, k.max() as i64)))
                    }
                },
                _ => Err(malformed(line)),
            },
        }
    }

    // -- Casts --------------------------------------------------------------

    fn cast_int(&mut self, s: IntKind, d: IntKind, v: usize, line: u32)
        requires
            old(self).f.wf(),
            is_value(old(self).f.ops@, v),
        ensures
            final(self)@ == lower::cast_int(old(self)@, s, d, v, line),
            wrote(*final(self), *old(self)),
            is_value(final(self).f.ops@, v),
    {
        reveal(lower::cast_int);
        let covered = if s.signed() == d.signed() {
            d.bits() >= s.bits()
        } else {
            !s.signed() && d.bits() > s.bits()
        };
        if covered {
            return;
        }
        if !s.signed() {
            // Raw unsigned value; the target is not u64 (that would be
            // covered), so its max fits in an i64 immediate.
            let bad = self.emit(
                Op::CompareImm(IntCC::UnsignedGreaterThan, v, d.max() as i64),
            );
            self.emit(Op::PanicIf(bad, Rt::PanicCast, line));
        } else if !d.signed() && d.bits() == 64 {
            let bad = self.emit(Op::CompareImm(IntCC::SignedLessThan, v, 0));
            self.emit(Op::PanicIf(bad, Rt::PanicCast, line));
        } else {
            let low: i64 = if d.signed() {
                d.min() as i64
            } else {
                0
            };
            let lo = self.emit(Op::CompareImm(IntCC::SignedLessThan, v, low));
            let hi = self.emit(Op::CompareImm(IntCC::SignedGreaterThan, v, d.max() as i64));
            let bad = self.emit(Op::Int(IntOp::Or, lo, hi));
            self.emit(Op::PanicIf(bad, Rt::PanicCast, line));
        }
    }

    /// Truncation toward zero; valid iff the result is in range. NaN fails
    /// both compares and lands in the panic path.
    fn cast_float(&mut self, d: IntKind, v: usize, line: u32) -> (r: usize)
        requires
            old(self).f.wf(),
            is_value(old(self).f.ops@, v),
        ensures
            (final(self)@, r) == lower::cast_float(old(self)@, d, v, line),
            wrote(*final(self), *old(self)),
            is_value(final(self).f.ops@, r),
    {
        reveal(lower::cast_float);
        let exact = d.signed() && d.bits() == 64;
        let bound: i128 = if exact {
            d.min()
        } else {
            d.min() - 1
        };
        let lo_bound = self.emit(Op::FconstInt(bound));
        let lo_cc = if exact {
            FloatCC::GreaterThanOrEqual
        } else {
            FloatCC::GreaterThan
        };
        let lo_ok = self.emit(Op::CompareFloat(lo_cc, v, lo_bound));
        let hi_bound = self.emit(Op::FconstInt(d.max() + 1));
        let hi_ok = self.emit(Op::CompareFloat(FloatCC::LessThan, v, hi_bound));
        let ok = self.emit(Op::Int(IntOp::And, lo_ok, hi_ok));
        self.emit(Op::PanicUnless(ok, Rt::PanicCast, line));
        let convert = if d.signed() {
            UnaryOp::FloatToSint
        } else {
            UnaryOp::FloatToUint
        };
        self.emit(Op::Unary(convert, v))
    }

    /// `expr as Type`: numeric conversion, panicking when the value does not
    /// fit the target. A passing check leaves integer bits unchanged (values
    /// in range are identical in canonical form), so no re-extension needed.
    fn gen_cast(&mut self, src: &Type, dst: &Type, v: usize, line: u32) -> (r: Result<
        usize,
        String,
    >)
        requires
            old(self).f.wf(),
            is_value(old(self).f.ops@, v),
        ensures
            written(r, lower::cast(old(self)@, src@, dst@, v, line), *final(self), *old(self)),
    {
        reveal(lower::cast);
        match src {
            Type::Float => match dst {
                Type::Float => Ok(v),
                Type::Int(d) => Ok(self.cast_float(*d, v, line)),
                _ => Err(malformed(line)),
            },
            Type::Int(s) => match dst {
                Type::Float => {
                    let convert = if s.signed() {
                        UnaryOp::FloatFromSint
                    } else {
                        UnaryOp::FloatFromUint
                    };
                    Ok(self.emit(Op::Unary(convert, v)))
                },
                Type::Int(d) => {
                    self.cast_int(*s, *d, v, line);
                    Ok(v)
                },
                _ => Err(malformed(line)),
            },
            _ => Err(malformed(line)),
        }
    }
}

/// A result of writing instructions only.
spec fn written(
    r: Result<usize, String>,
    want: Result<(LowView, usize), Seq<char>>,
    new: Low,
    old: Low,
) -> bool {
    match r {
        Ok(v) => want == Ok::<(LowView, usize), Seq<char>>((new@, v)) && is_value(new.f.ops@, v)
            && wrote(new, old),
        Err(m) => want == Err::<(LowView, usize), Seq<char>>(m@),
    }
}

// -- Small decisions --------------------------------------------------------

fn abi_ty(t: &Type) -> (r: IrType)
    ensures
        r == lower::abi(t@),
{
    match t {
        Type::Float => IrType::F64,
        _ => IrType::I64,
    }
}

fn small_ty(k: IntKind) -> (r: IrType)
    ensures
        r == lower::small_ty(k),
{
    if k.bits() == 8 {
        IrType::I8
    } else if k.bits() == 16 {
        IrType::I16
    } else {
        IrType::I32
    }
}

fn reduce_op(k: IntKind) -> (r: UnaryOp)
    ensures
        r == lower::reduce_op(k),
{
    if k.bits() == 8 {
        UnaryOp::Reduce8
    } else if k.bits() == 16 {
        UnaryOp::Reduce16
    } else {
        UnaryOp::Reduce32
    }
}

/// Store a value, truncating sized integers and bools to their storage width.
fn store_op(ty: &Type, v: usize, base: usize, off: i32) -> (r: Op)
    ensures
        r == lower::store_op(ty@, v, base, off),
{
    match ty {
        Type::Int(k) => match k.bits() {
            8 => Op::Store8(v, base, off),
            16 => Op::Store16(v, base, off),
            32 => Op::Store32(v, base, off),
            _ => Op::Store(v, base, off),
        },
        Type::Bool => Op::Store8(v, base, off),
        _ => Op::Store(v, base, off),
    }
}

fn flag_op(op: BinOp, signed: bool) -> (r: FlagOp)
    ensures
        r == lower::flag_op(op, signed),
{
    match op {
        BinOp::Add => {
            if signed {
                FlagOp::Sadd
            } else {
                FlagOp::Uadd
            }
        },
        BinOp::Sub => {
            if signed {
                FlagOp::Ssub
            } else {
                FlagOp::Usub
            }
        },
        _ => {
            if signed {
                FlagOp::Smul
            } else {
                FlagOp::Umul
            }
        },
    }
}

fn plain_op(op: BinOp) -> (r: IntOp)
    ensures
        r == lower::plain_op(op),
{
    match op {
        BinOp::Add => IntOp::Add,
        BinOp::Sub => IntOp::Sub,
        BinOp::Mul => IntOp::Mul,
        BinOp::BitAnd => IntOp::And,
        BinOp::BitOr => IntOp::Or,
        _ => IntOp::Xor,
    }
}

fn float_cc(op: BinOp) -> (r: FloatCC)
    ensures
        r == lower::float_cc(op),
{
    match op {
        BinOp::Eq => FloatCC::Equal,
        BinOp::Ne => FloatCC::NotEqual,
        BinOp::Lt => FloatCC::LessThan,
        BinOp::Le => FloatCC::LessThanOrEqual,
        BinOp::Gt => FloatCC::GreaterThan,
        _ => FloatCC::GreaterThanOrEqual,
    }
}

fn int_cc(op: BinOp, signed: bool) -> (r: IntCC)
    ensures
        r == lower::int_cc(op, signed),
{
    match op {
        BinOp::Eq => IntCC::Equal,
        BinOp::Ne => IntCC::NotEqual,
        BinOp::Lt => {
            if signed {
                IntCC::SignedLessThan
            } else {
                IntCC::UnsignedLessThan
            }
        },
        BinOp::Le => {
            if signed {
                IntCC::SignedLessThanOrEqual
            } else {
                IntCC::UnsignedLessThanOrEqual
            }
        },
        BinOp::Gt => {
            if signed {
                IntCC::SignedGreaterThan
            } else {
                IntCC::UnsignedGreaterThan
            }
        },
        _ => {
            if signed {
                IntCC::SignedGreaterThanOrEqual
            } else {
                IntCC::UnsignedGreaterThanOrEqual
            }
        },
    }
}

fn signed_type(t: &Type) -> (r: bool)
    ensures
        r == lower::signed_type(t@),
{
    match t {
        Type::Int(k) => k.signed(),
        _ => true,
    }
}

// -- Layout -----------------------------------------------------------------

/// The shapes of types that all have one.
fn shapes_of(ts: &Vec<Type>) -> (r: Option<Vec<Shape>>)
    ensures
        match r {
            Some(v) => lower::all_shaped(types_view(ts@)) && v@ == lower::shapes_of(
                types_view(ts@),
            ),
            None => !lower::all_shaped(types_view(ts@)),
        },
{
    let ghost all = types_view(ts@);
    let mut out: Vec<Shape> = Vec::new();
    let mut i: usize = 0;
    while i < ts.len()
        invariant
            i <= ts.len(),
            all == types_view(ts@),
            out@.len() == i,
            forall|j: int| 0 <= j < i ==> (#[trigger] all[j]).has_shape(),
            forall|j: int| 0 <= j < i ==> #[trigger] out@[j] == all[j].shape(),
        decreases ts.len() - i,
    {
        assert(all[i as int] == ts@[i as int]@);
        match &ts[i] {
            Type::Unit | Type::Unknown | Type::Param(_) => {
                return None;
            },
            t => {
                out.push(shape_of(t));
            },
        }
        i += 1;
    }
    assert(out@ =~= lower::shapes_of(all));
    Some(out)
}

/// Field types, offsets, payload size and reference map of an object.
struct Layout {
    types: Vec<Type>,
    offsets: Vec<u32>,
    size: u32,
    refmap: u64,
}

impl Layout {
    spec fn of(self, ts: Seq<TypeView>) -> bool {
        &&& types_view(self.types@) == ts
        &&& ts.len() <= 64
        &&& self.types@.len() == ts.len()
        &&& self.offsets@.len() == ts.len()
        &&& forall|i: int|
            0 <= i < ts.len() ==> #[trigger] self.offsets@[i] == field_offset(ts, i as nat)
        &&& forall|i: int| 0 <= i < ts.len() ==> (#[trigger] self.offsets@[i]) <= 512
        &&& self.size == layout_size(ts)
        &&& self.refmap == lower::refmap(ts)
    }

    /// The offset of a field from the object pointer.
    fn place(&self, index: u32, Ghost(ts): Ghost<Seq<TypeView>>) -> (r: i32)
        requires
            self.of(ts),
            index < ts.len(),
        ensures
            r == lower::place(ts, index),
    {
        assert(self.offsets@[index as int] <= 512);
        HEADER + self.offsets[index as usize] as i32
    }
}

/// Lay out fields of the given types, unless there are too many of them or
/// one is still a type parameter.
fn lay_out(types: Vec<Type>) -> (r: Option<Layout>)
    ensures
        match r {
            Some(l) => lower::layable(types_view(types@)) && l.of(types_view(types@)),
            None => !lower::layable(types_view(types@)),
        },
{
    let ghost ts = types_view(types@);
    if types.len() > 64 {
        return None;
    }
    let mut i: usize = 0;
    while i < types.len()
        invariant
            i <= types.len(),
            ts == types_view(types@),
            forall|j: int| 0 <= j < i ==> !((#[trigger] types@[j])@ is Param),
        decreases types.len() - i,
    {
        if let Type::Param(_) = &types[i] {
            assert(ts[i as int] is Param);
            return None;
        }
        i += 1;
    }
    assert forall|j: int| 0 <= j < ts.len() implies !((#[trigger] ts[j]) is Param) by {
        assert(ts[j] == types@[j]@);
    }
    let (offsets, size) = layout_fields(types.as_slice());
    assert forall|j: int| 0 <= j < ts.len() implies (#[trigger] offsets@[j]) <= 512 by {
        crate::types::lemma_offset_bound(ts, j as nat);
    }
    // Fields are packed; the map is one bit per 8-byte payload word, and
    // reference fields are always 8-byte aligned.
    let mut refmap: u64 = 0;
    let mut n: usize = 0;
    while n < types.len()
        invariant
            n <= types.len(),
            types@.len() <= 64,
            ts == types_view(types@),
            offsets@.len() == types@.len(),
            forall|j: int|
                0 <= j < types@.len() ==> #[trigger] offsets@[j] == field_offset(ts, j as nat),
            refmap == lower::refmap_upto(ts, n as nat),
        decreases types.len() - n,
    {
        assert(ts[n as int] == types@[n as int]@);
        if types[n].is_ref() {
            proof {
                crate::types::lemma_offset_bound(ts, n as nat);
                assert(offsets@[n as int] == field_offset(ts, n as nat));
            }
            refmap = refmap | (1u64 << ((offsets[n] / 8) as u64));
        }
        n += 1;
    }
    Some(Layout { types, offsets, size, refmap })
}

/// The types of named fields.
fn types_of(fs: &Vec<(String, Type)>) -> (r: Vec<Type>)
    ensures
        types_view(r@) == field_types(typed_names_view(fs@)),
{
    let mut out: Vec<Type> = Vec::new();
    let mut i: usize = 0;
    while i < fs.len()
        invariant
            i <= fs.len(),
            out@.len() == i,
            forall|j: int| 0 <= j < i ==> (#[trigger] out@[j])@ == fs@[j].1@,
        decreases fs.len() - i,
    {
        out.push(fs[i].1.clone());
        i += 1;
    }
    assert(types_view(out@) =~= field_types(typed_names_view(fs@)));
    out
}

/// The layout of a struct at the given arguments. It depends only on the
/// shapes of these, so all reference instantiations share it.
fn struct_layout(checked: &Checked, sid: u32, targs: &Vec<Type>) -> (r: Option<Layout>)
    ensures
        match r {
            Some(l) => lower::struct_ok(checked@, sid, types_view(targs@)) && l.of(
                lower::struct_types(checked@, sid, types_view(targs@)),
            ),
            None => !lower::struct_ok(checked@, sid, types_view(targs@)),
        },
{
    if (sid as usize) >= checked.structs.len() {
        return None;
    }
    assert(checked@.structs[sid as int] == checked.structs@[sid as int]@);
    let shapes = match shapes_of(targs) {
        Some(s) => s,
        None => return None,
    };
    let canon = canonical_all(&shapes);
    let declared = types_of(&checked.structs[sid as usize].fields);
    lay_out(Type::subst_each(&declared, canon.as_slice()))
}

fn payload_types(p: &VariantPayload) -> (r: Vec<Type>)
    ensures
        types_view(r@) == lower::payload_types(p@),
{
    match p {
        VariantPayload::Bare => {
            let out: Vec<Type> = Vec::new();
            assert(types_view(out@) =~= Seq::empty());
            out
        },
        VariantPayload::Single(t) => {
            let mut out: Vec<Type> = Vec::new();
            out.push(t.clone());
            assert(types_view(out@) =~= seq![t@]);
            out
        },
        VariantPayload::Fields(fs) => types_of(fs),
    }
}

/// The payload layout of a variant at the given arguments.
fn variant_layout(checked: &Checked, eid: u32, targs: &Vec<Type>, tag: u32) -> (r: Option<Layout>)
    ensures
        match r {
            Some(l) => lower::variant_ok(checked@, eid, types_view(targs@), tag) && l.of(
                lower::variant_types(checked@, eid, types_view(targs@), tag),
            ),
            None => !lower::variant_ok(checked@, eid, types_view(targs@), tag),
        },
{
    if (eid as usize) >= checked.enums.len() {
        return None;
    }
    let info = &checked.enums[eid as usize];
    assert(checked@.enums[eid as int] == info@);
    assert(info@.variants.len() == info.variants@.len());
    if (tag as usize) >= info.variants.len() {
        return None;
    }
    assert(info@.variants[tag as int] == (
        info.variants@[tag as int].0@,
        info.variants@[tag as int].1@,
    ));
    let shapes = match shapes_of(targs) {
        Some(s) => s,
        None => return None,
    };
    let canon = canonical_all(&shapes);
    let declared = payload_types(&info.variants[tag as usize].1);
    lay_out(Type::subst_each(&declared, canon.as_slice()))
}

/// A signature; closures take their environment first.
fn make_sig(params: &Vec<Type>, ret: &Type, with_env: bool) -> (r: Sig)
    ensures
        r@ == lower::make_sig(types_view(params@), ret@, with_env),
{
    let ghost ps = types_view(params@);
    let mut out: Vec<IrType> = Vec::new();
    if with_env {
        out.push(IrType::I64);
    }
    let ghost start = out@;
    let mut i: usize = 0;
    while i < params.len()
        invariant
            i <= params.len(),
            ps == types_view(params@),
            out@ == start + lower::abis(ps).take(i as int),
        decreases params.len() - i,
    {
        assert(ps[i as int] == params@[i as int]@);
        out.push(abi_ty(&params[i]));
        assert(lower::abis(ps).take(i as int + 1) =~= lower::abis(ps).take(i as int).push(
            lower::abi(ps[i as int]),
        ));
        i += 1;
    }
    assert(lower::abis(ps).take(i as int) =~= lower::abis(ps));
    assert(out@ =~= lower::make_sig(ps, ret@, with_env).params);
    let back = match ret {
        Type::Unit => None,
        t => Some(abi_ty(t)),
    };
    Sig { params: out, ret: back }
}

// -- The unit ---------------------------------------------------------------

/// Append bytes.
fn push_bytes(out: &mut Vec<u8>, src: &[u8])
    ensures
        final(out)@ == old(out)@ + src@,
{
    let mut i: usize = 0;
    while i < src.len()
        invariant
            i <= src.len(),
            out@ == old(out)@ + src@.take(i as int),
        decreases src.len() - i,
    {
        out.push(src[i]);
        assert(src@.take(i as int + 1) =~= src@.take(i as int).push(src@[i as int]));
        i += 1;
    }
    assert(src@.take(i as int) =~= src@);
}

fn push_word(out: &mut Vec<u8>, v: u64)
    ensures
        final(out)@ == old(out)@ + lower::le8(v),
{
    let bytes = vstd::bytes::u64_to_le_bytes(v);
    push_bytes(out, bytes.as_slice());
}

fn push_zeros(out: &mut Vec<u8>, n: usize)
    ensures
        final(out)@ == old(out)@ + lower::zeros(n as nat),
{
    let mut i: usize = 0;
    while i < n
        invariant
            i <= n,
            out@ == old(out)@ + lower::zeros(i as nat),
        decreases n - i,
    {
        out.push(0);
        assert(lower::zeros(i as nat + 1) =~= lower::zeros(i as nat).push(0u8));
        i += 1;
    }
}

/// The instantiations, the bodies and the schedule are as before.
spec fn calm(new: Unit, old: Unit) -> bool {
    &&& new.insts == old.insts
    &&& new.work == old.work
    &&& new.bodies == old.bodies
    &&& funcs_kept(new.funcs@, old.funcs@)
    &&& bodies_sound(old@) ==> bodies_sound(new@)
}

proof fn lemma_sound_kept(new: Unit, old: Unit)
    requires
        new.bodies == old.bodies,
        funcs_kept(new.funcs@, old.funcs@),
        bodies_sound(old@),
    ensures
        bodies_sound(new@),
{
    reveal(bodies_sound);
    assert forall|i: int| 0 <= i < new@.bodies.len() implies body_sound(
        #[trigger] new@.bodies[i],
        new@.funcs,
    ) by {
        assert(body_sound(old@.bodies[i], old@.funcs));
        assert(new.funcs@[old@.bodies[i].func as int] == old.funcs@[old@.bodies[i].func as int]);
    }
}

proof fn lemma_sound_more(new: Unit, old: Unit, body: Body)
    requires
        new@.bodies == old@.bodies.push(body@),
        new.funcs == old.funcs,
        bodies_sound(old@),
        body_sound(body@, old@.funcs),
    ensures
        bodies_sound(new@),
{
    reveal(bodies_sound);
    assert forall|i: int| 0 <= i < new@.bodies.len() implies body_sound(
        #[trigger] new@.bodies[i],
        new@.funcs,
    ) by {
        if i < old@.bodies.len() {
            assert(body_sound(old@.bodies[i], old@.funcs));
        }
    }
}

impl Unit {
    fn declare_func(&mut self, name: String, sig: Sig, linkage: Linkage) -> (r: usize)
        ensures
            final(self)@ == lower::declare_func(old(self)@, name@, sig@, linkage),
            r == old(self)@.funcs.len() as usize,
            r == old(self).funcs@.len(),
            calm(*final(self), *old(self)),
    {
        let ghost before = *self;
        let r = self.funcs.len();
        let decl = FuncDecl { name, sig, linkage };
        self.funcs.push(decl);
        assert(func_decls_view(self.funcs@) =~= func_decls_view(before.funcs@).push(decl@));
        proof {
            if bodies_sound(before@) {
                lemma_sound_kept(*self, before);
            }
        }
        r
    }

    fn add_data(&mut self, d: DataDef) -> (r: usize)
        ensures
            final(self)@ == lower::add_data(old(self)@, d@),
            r == old(self)@.datas.len() as usize,
            calm(*final(self), *old(self)),
    {
        let ghost before = *self;
        let r = self.datas.len();
        self.datas.push(d);
        assert(data_defs_view(self.datas@) =~= data_defs_view(before.datas@).push(d@));
        proof {
            if bodies_sound(before@) {
                lemma_sound_kept(*self, before);
            }
        }
        r
    }

    fn find_desc(&self, kind: u64, size: u64, refs: u64) -> (r: Option<usize>)
        ensures
            r == lower::find_desc(self@.descs, kind, size, refs, 0),
    {
        let mut i: usize = 0;
        while i < self.descs.len()
            invariant
                i <= self.descs.len(),
                lower::find_desc(self@.descs, kind, size, refs, 0) == lower::find_desc(
                    self@.descs,
                    kind,
                    size,
                    refs,
                    i as nat,
                ),
            decreases self.descs.len() - i,
        {
            let d = self.descs[i];
            if d.0 == kind && d.1 == size && d.2 == refs {
                return Some(d.3);
            }
            i += 1;
        }
        None
    }

    /// The descriptor for an object shape, defined once per distinct
    /// (kind, size, refmap) triple and shared by everything that matches.
    fn desc(&mut self, kind: u64, size: u64, refs: u64) -> (r: usize)
        ensures
            (final(self)@, r) == lower::desc(old(self)@, kind, size, refs),
            calm(*final(self), *old(self)),
    {
        reveal(lower::desc);
        if let Some(id) = self.find_desc(kind, size, refs) {
            return id;
        }
        let mut bytes: Vec<u8> = Vec::new();
        push_word(&mut bytes, kind);
        push_word(&mut bytes, size);
        push_word(&mut bytes, refs);
        assert(bytes@ =~= lower::desc_data(kind, size, refs).bytes);
        let name = cat6(
            "crow_desc.k",
            dec(kind).as_str(),
            "s",
            dec(size).as_str(),
            "r",
            hex(refs).as_str(),
        );
        let id = self.add_data(
            DataDef {
                name,
                linkage: Linkage::Local,
                writable: false,
                align: 16,
                bytes,
                relocs: Vec::new(),
            },
        );
        let ghost before = *self;
        self.descs.push((kind, size, refs, id));
        proof {
            if bodies_sound(before@) {
                lemma_sound_kept(*self, before);
            }
        }
        id
    }

    /// Define a string literal as a static, pre-built heap object.
    fn add_string(&mut self, s: &str) -> (r: usize)
        ensures
            (final(self)@, r) == lower::add_string(old(self)@, s@),
            calm(*final(self), *old(self)),
    {
        reveal(lower::add_string);
        let text = s.as_bytes();
        let mut bytes: Vec<u8> = Vec::new();
        push_word(&mut bytes, 0);
        push_word(&mut bytes, text.len() as u64);
        push_bytes(&mut bytes, text);
        let pad: usize = (8 - text.len() % 8) % 8;
        push_zeros(&mut bytes, pad);
        let mut relocs: Vec<Reloc> = Vec::new();
        relocs.push(Reloc::Data { at: 0, data: DESC_STRING, plus: FLAG_STATIC });
        let name = cat2("crow_str.", dec_usize(self.strs.len()).as_str());
        let d = DataDef { name, linkage: Linkage::Local, writable: true, align: 16, bytes, relocs };
        assert(d@ =~= lower::string_data(s@, self.strs@.len()));
        let id = self.add_data(d);
        let ghost before = *self;
        self.strs.push(id);
        proof {
            if bodies_sound(before@) {
                lemma_sound_kept(*self, before);
            }
        }
        id
    }

    fn find_bare(&self, eid: u32, tag: u32) -> (r: Option<usize>)
        ensures
            r == lower::find_bare(self@.bare, eid, tag, 0),
    {
        let mut i: usize = 0;
        while i < self.bare.len()
            invariant
                i <= self.bare.len(),
                lower::find_bare(self@.bare, eid, tag, 0) == lower::find_bare(
                    self@.bare,
                    eid,
                    tag,
                    i as nat,
                ),
            decreases self.bare.len() - i,
        {
            let b = self.bare[i];
            if b.0 == eid && b.1 == tag {
                return Some(b.2);
            }
            i += 1;
        }
        None
    }

    /// The one object of a bare variant, so that equality is identity.
    fn bare_variant(&mut self, eid: u32, tag: u32) -> (r: usize)
        ensures
            (final(self)@, r) == lower::bare_variant(old(self)@, eid, tag),
            calm(*final(self), *old(self)),
    {
        reveal(lower::bare_variant);
        if let Some(id) = self.find_bare(eid, tag) {
            return id;
        }
        let desc = self.desc(KIND_STRUCT, 0, 0);
        let mut bytes: Vec<u8> = Vec::new();
        push_word(&mut bytes, 0);
        push_word(&mut bytes, tag as u64);
        let mut relocs: Vec<Reloc> = Vec::new();
        relocs.push(Reloc::Data { at: 0, data: desc, plus: FLAG_STATIC });
        let name = cat4(
            "crow_variant.",
            dec(eid as u64).as_str(),
            ".",
            dec(tag as u64).as_str(),
        );
        let d = DataDef { name, linkage: Linkage::Local, writable: true, align: 16, bytes, relocs };
        assert(d@ =~= lower::bare_data(eid, tag, desc));
        let id = self.add_data(d);
        let ghost before = *self;
        self.bare.push((eid, tag, id));
        proof {
            if bodies_sound(before@) {
                lemma_sound_kept(*self, before);
            }
        }
        id
    }
}

fn same_shapes(a: &Vec<Shape>, b: &Vec<Shape>) -> (r: bool)
    ensures
        r == (a@ == b@),
{
    if a.len() != b.len() {
        return false;
    }
    let mut i: usize = 0;
    while i < a.len()
        invariant
            i <= a.len(),
            a@.len() == b@.len(),
            forall|j: int| 0 <= j < i ==> #[trigger] a@[j] == b@[j],
        decreases a.len() - i,
    {
        if a[i] != b[i] {
            assert(a@[i as int] != b@[i as int]);
            return false;
        }
        i += 1;
    }
    assert(a@ =~= b@);
    true
}

fn clone_shapes(a: &Vec<Shape>) -> (r: Vec<Shape>)
    ensures
        r@ == a@,
{
    let mut out: Vec<Shape> = Vec::new();
    let mut i: usize = 0;
    while i < a.len()
        invariant
            i <= a.len(),
            out@ == a@.take(i as int),
        decreases a.len() - i,
    {
        out.push(a[i]);
        assert(a@.take(i as int + 1) =~= a@.take(i as int).push(a@[i as int]));
        i += 1;
    }
    assert(a@.take(i as int) =~= a@);
    out
}

fn find_inst(insts: &Vec<InstKey>, fid: u32, shapes: &Vec<Shape>) -> (r: Option<usize>)
    ensures
        r == lower::find_inst(inst_keys_view(insts@), fid, shapes@, 0),
        r is None ==> forall|j: int|
            0 <= j < insts@.len() ==> (#[trigger] insts@[j]).fid != fid || insts@[j].shapes@
                != shapes@,
{
    let ghost all = inst_keys_view(insts@);
    let mut i: usize = 0;
    while i < insts.len()
        invariant
            i <= insts.len(),
            all == inst_keys_view(insts@),
            lower::find_inst(all, fid, shapes@, 0) == lower::find_inst(
                all,
                fid,
                shapes@,
                i as nat,
            ),
            forall|j: int|
                0 <= j < i ==> (#[trigger] insts@[j]).fid != fid || insts@[j].shapes@ != shapes@,
        decreases insts.len() - i,
    {
        assert(all[i as int] == insts@[i as int]@);
        if insts[i].fid == fid && same_shapes(&insts[i].shapes, shapes) {
            return Some(insts[i].func);
        }
        i += 1;
    }
    None
}

/// Arguments from index `from` on handed on to a call.
fn pass_on(ops: &mut Vec<Op>, from: usize, n: usize)
    ensures
        final(ops)@ == lower::pass_on(old(ops)@, from as nat, n as nat),
{
    let mut i: usize = from;
    while i < n
        invariant
            from <= i,
            from < n ==> i <= n,
            lower::pass_on(ops@, i as nat, n as nat) == lower::pass_on(
                old(ops)@,
                from as nat,
                n as nat,
            ),
        decreases n - i,
    {
        let place = ops.len();
        ops.push(Op::Param(i));
        ops.push(Op::Arg(place));
        i += 1;
    }
}

fn tail_call(ops: &mut Vec<Op>, func: usize, ret: Option<IrType>)
    ensures
        final(ops)@ == lower::tail_call(old(ops)@, func, ret),
{
    let place = ops.len();
    ops.push(Op::Call(func));
    if ret.is_some() {
        ops.push(Op::ReturnValue(place));
    } else {
        ops.push(Op::Return);
    }
}

/// A body without variables.
fn plain_body(func: usize, ops: Vec<Op>) -> (r: Body)
    ensures
        r@ == (BodyView {
            func,
            vars: Seq::empty(),
            ops: ops@,
            sigs: Seq::empty(),
            floats: Seq::empty(),
        }),
{
    let r = Body { func, vars: Vec::new(), ops, sigs: Vec::new(), floats: Vec::new() };
    assert(r@.vars =~= Seq::empty());
    assert(r@.sigs =~= Seq::empty());
    assert(r@.floats =~= Seq::empty());
    r
}

/// Thunks adapt the closure calling convention (extra env argument) to a
/// direct top-level function call, so functions can be used as values.
fn thunk_body(id: usize, func: usize, nparams: usize, ret: Option<IrType>, Ghost(sig): Ghost<
    SigView,
>) -> (r: Body)
    requires
        sig.params.len() == nparams,
        sig.ret == ret,
    ensures
        r@ == lower::thunk_body(id, func, sig),
{
    let mut ops: Vec<Op> = Vec::new();
    assert(ops@ =~= Seq::empty());
    pass_on(&mut ops, 1, nparams);
    tail_call(&mut ops, func, ret);
    plain_body(id, ops)
}

/// A bind thunk loads the receiver back out of the environment and calls the
/// method directly.
fn bind_body(id: usize, func: usize, nparams: usize, ret: Option<IrType>, Ghost(sig): Ghost<
    SigView,
>) -> (r: Body)
    requires
        sig.params.len() == nparams,
        sig.ret == ret,
    ensures
        r@ == lower::bind_body(id, func, sig),
{
    let mut ops: Vec<Op> = Vec::new();
    ops.push(Op::Param(0));
    ops.push(Op::Load(IrType::I64, 0, 24));
    ops.push(Op::Arg(1));
    assert(ops@ =~= lower::load_receiver());
    pass_on(&mut ops, 1, nparams);
    tail_call(&mut ops, func, ret);
    plain_body(id, ops)
}

proof fn lemma_pass_on_len(ops: Seq<Op>, from: nat, n: nat)
    ensures
        lower::pass_on(ops, from, n).len() == ops.len() + if from < n {
            2 * (n - from)
        } else {
            0
        },
    decreases n - from,
{
    if from < n {
        let one = ops.push(Op::Param(from as usize));
        lemma_pass_on_len(one.push(Op::Arg(ops.len() as usize)), from + 1, n);
    }
}

proof fn lemma_pass_on_sound(ops: Seq<Op>, from: nat, n: nat, sc: Scope)
    requires
        well_formed(ops, sc),
        tables_cover(ops, 0, 0),
        n <= sc.params,
        lower::pass_on(ops, from, n).len() <= usize::MAX,
    ensures
        well_formed(lower::pass_on(ops, from, n), sc),
        tables_cover(lower::pass_on(ops, from, n), 0, 0),
    decreases n - from,
{
    lemma_pass_on_len(ops, from, n);
    if from < n {
        let one = ops.push(Op::Param(from as usize));
        let two = one.push(Op::Arg(ops.len() as usize));
        lemma_push_well_formed(ops, Op::Param(from as usize), sc);
        lemma_push_well_formed(one, Op::Arg(ops.len() as usize), sc);
        lemma_pass_on_sound(two, from + 1, n, sc);
    }
}

proof fn lemma_tail_call_sound(ops: Seq<Op>, func: usize, ret: Option<IrType>, sc: Scope)
    requires
        well_formed(ops, sc),
        tables_cover(ops, 0, 0),
        ops.len() <= usize::MAX,
    ensures
        well_formed(lower::tail_call(ops, func, ret), sc),
        tables_cover(lower::tail_call(ops, func, ret), 0, 0),
{
    let one = ops.push(Op::Call(func));
    lemma_push_well_formed(ops, Op::Call(func), sc);
    if ret is Some {
        lemma_push_well_formed(one, Op::ReturnValue(ops.len() as usize), sc);
    } else {
        lemma_push_well_formed(one, Op::Return, sc);
    }
}

proof fn lemma_bind_body_sound(id: usize, func: usize, sig: SigView, funcs: Seq<FuncDeclView>)
    requires
        id < funcs.len(),
        funcs[id as int].sig == sig,
        0 < sig.params.len(),
        lower::bind_body(id, func, sig).ops.len() <= usize::MAX,
    ensures
        body_sound(lower::bind_body(id, func, sig), funcs),
{
    let sc = Scope { params: sig.params.len(), vars: 0 };
    let ops = lower::load_receiver();
    let one: Seq<Op> = Seq::empty().push(Op::Param(0));
    let two = one.push(Op::Load(IrType::I64, 0, 24));
    lemma_push_well_formed(Seq::empty(), Op::Param(0), sc);
    lemma_push_well_formed(one, Op::Load(IrType::I64, 0, 24), sc);
    lemma_push_well_formed(two, Op::Arg(1), sc);
    assert(ops =~= two.push(Op::Arg(1)));
    lemma_pass_on_sound(ops, 1, sig.params.len(), sc);
    lemma_tail_call_sound(lower::pass_on(ops, 1, sig.params.len()), func, sig.ret, sc);
}

proof fn lemma_thunk_body_sound(id: usize, func: usize, sig: SigView, funcs: Seq<FuncDeclView>)
    requires
        id < funcs.len(),
        funcs[id as int].sig == sig,
        lower::thunk_body(id, func, sig).ops.len() <= usize::MAX,
    ensures
        body_sound(lower::thunk_body(id, func, sig), funcs),
{
    let sc = Scope { params: sig.params.len(), vars: 0 };
    let none: Seq<Op> = Seq::empty();
    lemma_pass_on_sound(none, 1, sig.params.len(), sc);
    lemma_tail_call_sound(lower::pass_on(none, 1, sig.params.len()), func, sig.ret, sc);
}

spec fn symbol_r(r: Result<usize, String>, g: GenView) -> Result<(GenView, usize), Seq<char>> {
    match r {
        Ok(id) => Ok((g, id)),
        Err(m) => Err(m@),
    }
}

impl Cx<'_> {
    /// The declared symbol for a generic function instantiation, declaring it
    /// and scheduling its body for compilation on first use.
    fn inst_func(&self, g: &mut Unit, fid: u32, targs: &Vec<Type>, shapes: Vec<Shape>) -> (r: usize)
        requires
            unit_ok(self.checked@, old(g)@),
            lower::inst_ok(self@, fid, types_view(targs@)),
            shapes@ == lower::shapes_of(types_view(targs@)),
        ensures
            (final(g)@, r) == lower::inst_func(self@, old(g)@, fid, types_view(targs@)),
            unit_follows(*final(g), *old(g), self.checked@),
    {
        reveal(lower::inst_func);
        if let Some(id) = find_inst(&g.insts, fid, &shapes) {
            return id;
        }
        let canon = canonical_all(&shapes);
        let sig_info = &self.checked.funcs[fid as usize];
        assert(self.checked@.funcs[fid as int] == sig_info@);
        assert(self.program@.funcs[fid as int] == self.program.funcs@[fid as int]@);
        let params = Type::subst_each(&sig_info.params, canon.as_slice());
        let ret = sig_info.ret.subst(canon.as_slice());
        let sig = make_sig(&params, &ret, false);
        let name = cat3(
            "crow_fn.",
            self.program.funcs[fid as usize].name.as_str(),
            suffix(shapes.as_slice()).as_str(),
        );
        let ghost before = *g;
        let id = g.declare_func(name, sig, Linkage::Local);
        let again = clone_shapes(&shapes);
        let key = InstKey { fid, shapes, func: id };
        let ghost shown = key@;
        g.insts.push(key);
        let task = InstKey { fid, shapes: again, func: id };
        assert(task@ == shown);
        g.work.push(task);
        proof {
            lemma_sound_kept(*g, before);
        }
        assert(inst_keys_view(g.insts@) =~= inst_keys_view(before.insts@).push(shown));
        assert(inst_keys_view(g.work@) =~= inst_keys_view(before.work@).push(shown));
        assert forall|i: int, j: int| 0 <= i < j < g@.insts.len() implies (#[trigger] g@.insts[i]).fid
            != (#[trigger] g@.insts[j]).fid || g@.insts[i].shapes != g@.insts[j].shapes by {
            if j == before.insts@.len() {
                assert(g@.insts[i] == before.insts@[i]@);
            }
        }
        id
    }

    /// The symbol that a direct call refers to.
    fn callee_of(&self, g: &mut Unit, fid: u32, inst: &Vec<Type>, line: u32) -> (r: Result<
        usize,
        String,
    >)
        requires
            unit_ok(self.checked@, old(g)@),
        ensures
            symbol_r(r, final(g)@) == lower::callee_of(
                self@,
                old(g)@,
                fid,
                types_view(inst@),
                line,
            ),
            unit_follows(*final(g), *old(g), self.checked@),
    {
        reveal(lower::callee_of);
        assert(types_view(inst@).len() == inst@.len());
        if inst.len() == 0 {
            if (fid as usize) < self.func_ids.len() {
                if let Some(id) = self.func_ids[fid as usize] {
                    return Ok(id);
                }
            }
            return Err(malformed(line));
        }
        if (fid as usize) >= self.program.funcs.len() || (fid as usize) >= self.checked.funcs.len()
            || (fid as usize) >= self.checked.func_locals.len() {
            return Err(malformed(line));
        }
        assert(self.checked@.funcs[fid as int] == self.checked.funcs@[fid as int]@);
        if inst.len() != self.checked.funcs[fid as usize].type_params.len() {
            return Err(malformed(line));
        }
        match shapes_of(inst) {
            None => Err(malformed(line)),
            Some(shapes) => Ok(self.inst_func(g, fid, inst, shapes)),
        }
    }

    /// The adapter of a bound method.
    fn bind_func(&self, g: &mut Unit, fid: u32, inst: &Vec<Type>, line: u32) -> (r: Result<
        usize,
        String,
    >)
        requires
            unit_ok(self.checked@, old(g)@),
        ensures
            symbol_r(r, final(g)@) == lower::bind_func(
                self@,
                old(g)@,
                fid,
                types_view(inst@),
                line,
            ),
            unit_follows(*final(g), *old(g), self.checked@),
    {
        reveal(lower::bind_func);
        if (fid as usize) >= self.program.funcs.len() || (fid as usize)
            >= self.checked.funcs.len() {
            return Err(malformed(line));
        }
        let sig_info = &self.checked.funcs[fid as usize];
        assert(self.checked@.funcs[fid as int] == sig_info@);
        assert(self.program@.funcs[fid as int] == self.program.funcs@[fid as int]@);
        assert(types_view(sig_info.params@).len() == sig_info.params@.len());
        let shapes = match shapes_of(inst) {
            None => return Err(malformed(line)),
            Some(s) => s,
        };
        if sig_info.params.len() == 0 {
            return Err(malformed(line));
        }
        if let Some(id) = find_inst(&g.binds, fid, &shapes) {
            return Ok(id);
        }
        let func = match self.callee_of(g, fid, inst, line) {
            Ok(id) => id,
            Err(m) => return Err(m),
        };
        let canon = canonical_all(&shapes);
        let params = Type::subst_each(&sig_info.params, canon.as_slice());
        assert(types_view(params@).len() == params@.len());
        let rest = types_after_first(&params);
        let ret = sig_info.ret.subst(canon.as_slice());
        let sig = make_sig(&rest, &ret, true);
        let ghost shown = sig@;
        let nparams = sig.params.len();
        let back = sig.ret;
        let name = cat3(
            "crow_bind.",
            self.program.funcs[fid as usize].name.as_str(),
            suffix(shapes.as_slice()).as_str(),
        );
        let id = g.declare_func(name, sig, Linkage::Local);
        let ghost before = *g;
        let key = InstKey { fid, shapes, func: id };
        let ghost entry = key@;
        g.binds.push(key);
        assert(inst_keys_view(g.binds@) =~= inst_keys_view(before.binds@).push(entry));
        let body = bind_body(id, func, nparams, back, Ghost(shown));
        g.bodies.push(body);
        assert(bodies_view(g.bodies@) =~= bodies_view(before.bodies@).push(body@));
        proof {
            assert(body@.ops.len() == body.ops.len());
            assert(before@.funcs[id as int].sig == shown);
            lemma_bind_body_sound(id, func, shown, before@.funcs);
            lemma_sound_more(*g, before, body);
        }
        Ok(id)
    }
}

// -- Pieces of expressions --------------------------------------------------

impl Low {
    /// An array element as a word.
    fn elem_word(&mut self, ty: &Type, v: usize) -> (r: usize)
        requires
            old(self).f.wf(),
            is_value(old(self).f.ops@, v),
        ensures
            (final(self)@, r) == lower::elem_word(old(self)@, ty@, v),
            wrote(*final(self), *old(self)),
            is_value(final(self).f.ops@, r),
    {
        if matches!(ty, Type::Float) {
            self.emit(Op::Unary(UnaryOp::FloatBits, v))
        } else {
            v
        }
    }

    /// Append an element.
    fn array_push(&mut self, ty: &Type, arr: usize, v: usize)
        requires
            old(self).f.wf(),
            !(ty@ is Param),
            is_value(old(self).f.ops@, arr),
            is_value(old(self).f.ops@, v),
        ensures
            final(self)@ == lower::array_push(old(self)@, ty@, arr, v),
            wrote(*final(self), *old(self)),
            is_value(final(self).f.ops@, arr),
    {
        reveal(lower::array_push);
        let w = self.elem_word(ty, v);
        let size = self.emit(Op::Iconst(ty.size_bytes() as i64));
        let flag: i64 = if ty.is_ref() {
            1
        } else {
            0
        };
        let is_ref = self.emit(Op::Iconst(flag));
        self.rt4(Rt::ArrayPush, arr, w, size, is_ref);
    }

    /// A new array with room for `n` elements.
    fn array_new(&mut self, ty: &Type, n: usize) -> (r: usize)
        requires
            old(self).f.wf(),
            !(ty@ is Param),
        ensures
            (final(self)@, r) == lower::array_new(old(self)@, ty@, n as nat),
            wrote(*final(self), *old(self)),
            is_value(final(self).f.ops@, r),
    {
        reveal(lower::array_new);
        let size = self.emit(Op::Iconst(ty.size_bytes() as i64));
        let flag: i64 = if ty.is_ref() {
            1
        } else {
            0
        };
        let is_ref = self.emit(Op::Iconst(flag));
        let room: usize = if n < 4 {
            4
        } else {
            n
        };
        let cap = self.emit(Op::Iconst(room as i64));
        let arr = self.rt3(Rt::ArrayNew, size, is_ref, cap);
        self.emit(Op::Root(arr));
        arr
    }

    /// Remove the last element; the line is for the panic where there is none.
    /// The runtime zero-extends narrow elements; signed kinds are re-extended
    /// into canonical form.
    fn array_pop(&mut self, ty: &Type, arr: usize, line: u32) -> (r: usize)
        requires
            old(self).f.wf(),
            !(ty@ is Param),
            is_value(old(self).f.ops@, arr),
        ensures
            (final(self)@, r) == lower::array_pop(old(self)@, ty@, arr, line),
            wrote(*final(self), *old(self)),
            is_value(final(self).f.ops@, r),
    {
        reveal(lower::array_pop);
        let size = self.emit(Op::Iconst(ty.size_bytes() as i64));
        let l = self.emit(Op::Iconst(line as i64));
        let raw = self.rt3(Rt::ArrayPop, arr, size, l);
        match ty {
            Type::Float => self.emit(Op::Unary(UnaryOp::BitsFloat, raw)),
            Type::Int(k) => {
                if k.bits() < 64 && k.signed() {
                    let small = self.emit(Op::Unary(reduce_op(*k), raw));
                    self.emit(Op::Unary(UnaryOp::Sextend, small))
                } else {
                    raw
                }
            },
            _ => {
                self.root_if(ty, raw);
                raw
            },
        }
    }

    /// Go on at a merge block with its value.
    fn merge_value(&mut self, merge: usize, ty: &Type) -> (r: usize)
        requires
            old(self).f.wf(),
            merge < old(self).f.ops@.len(),
            old(self).f.ops@[merge as int] is BlockOf,
        ensures
            (final(self)@, r) == lower::merge_value(old(self)@, merge, ty@),
            wrote(*final(self), *old(self)),
            is_value(final(self).f.ops@, r),
    {
        self.emit(Op::SwitchTo(merge));
        let v = self.emit(Op::BlockParam(merge));
        self.root_if(ty, v);
        v
    }

    /// Branch into the arm of a pattern if it matches, and write the arm
    /// next; gives the block for when it does not.
    fn test_arm(&mut self, key: usize, c: i64) -> (r: usize)
        requires
            old(self).f.wf(),
            is_value(old(self).f.ops@, key),
        ensures
            (final(self)@, r) == lower::test_arm(old(self)@, key, c),
            wrote(*final(self), *old(self)),
            is_block(final(self).f.ops@, r),
    {
        reveal(lower::test_arm);
        let eq = self.emit(Op::CompareImm(IntCC::Equal, key, c));
        let arm = self.emit(Op::Block);
        let other = self.emit(Op::Block);
        self.emit(Op::Brif(eq, arm, other));
        self.emit(Op::SwitchTo(arm));
        other
    }

    /// What patterns are compared with: an enum's tag, or the value itself.
    fn match_key(&mut self, ty: &Type, sv: usize) -> (r: usize)
        requires
            old(self).f.wf(),
            is_value(old(self).f.ops@, sv),
        ensures
            (final(self)@, r) == lower::match_key(old(self)@, ty@, sv),
            wrote(*final(self), *old(self)),
            is_value(final(self).f.ops@, r),
            is_value(final(self).f.ops@, sv),
    {
        match ty {
            Type::Enum(..) => self.emit(Op::Load(IrType::I64, sv, AUX)),
            _ => sv,
        }
    }

    /// The arguments of a call.
    fn put_args(&mut self, args: &Vec<usize>)
        requires
            old(self).f.wf(),
            forall|i: int| 0 <= i < args@.len() ==> is_value(old(self).f.ops@, #[trigger] args@[i]),
        ensures
            final(self)@ == lower::put_args(old(self)@, args@, 0),
            wrote(*final(self), *old(self)),
    {
        let mut i: usize = 0;
        while i < args.len()
            invariant
                i <= args.len(),
                wrote(*self, *old(self)),
                forall|j: int|
                    0 <= j < args@.len() ==> is_value(old(self).f.ops@, #[trigger] args@[j]),
                lower::put_args(self@, args@, i as nat) == lower::put_args(old(self)@, args@, 0),
            decreases args.len() - i,
        {
            assert(is_value(old(self).f.ops@, args@[i as int]));
            self.emit(Op::Arg(args[i]));
            i += 1;
        }
    }

    /// The result of the call that was just put.
    fn call_result(&mut self, ty: &Type) -> (r: Option<usize>)
        requires
            old(self).f.wf(),
            old(self).f.ops@.len() > 0,
            old(self).f.ops@.last().gives_value(),
        ensures
            (final(self)@, r) == lower::call_result(old(self)@, ty@),
            wrote(*final(self), *old(self)),
            r is Some ==> is_value(final(self).f.ops@, r->0),
    {
        let v: usize = self.f.ops.len() - 1;
        match ty {
            Type::Unit => None,
            t => {
                self.root_if(t, v);
                Some(v)
            },
        }
    }

    /// A call of a closure on evaluated arguments.
    fn call_closure(&mut self, fty: &Type, f: usize, args: &Vec<usize>, ty: &Type, line: u32) -> (r:
        Result<Option<usize>, String>)
        requires
            old(self).f.wf(),
            is_value(old(self).f.ops@, f),
            forall|i: int| 0 <= i < args@.len() ==> is_value(old(self).f.ops@, #[trigger] args@[i]),
        ensures
            match r {
                Ok(v) => lower::call_closure(old(self)@, fty@, f, args@, ty@, line) == Ok::<
                    (LowView, Option<usize>),
                    Seq<char>,
                >((final(self)@, v)) && (v is Some ==> is_value(final(self).f.ops@, v->0))
                    && wrote(*final(self), *old(self)),
                Err(m) => lower::call_closure(old(self)@, fty@, f, args@, ty@, line) == Err::<
                    (LowView, Option<usize>),
                    Seq<char>,
                >(m@),
            },
    {
        reveal(lower::call_closure);
        match fty {
            Type::Fn(params, ret) => {
                let code = self.emit(Op::Load(IrType::I64, f, HEADER));
                self.emit(Op::Arg(f));
                self.put_args(args);
                let ghost before = *self;
                let n = self.f.sigs.len();
                let sig = make_sig(params, ret, true);
                self.f.sigs.push(sig);
                assert(sigs_view(self.f.sigs@) =~= sigs_view(before.f.sigs@).push(sig@));
                assert(tables_cover(self.f.ops@, self.f.sigs@.len(), self.f.floats@.len()));
                assert(before.f@.sigs.len() == n);
                let ghost pushed = *self;
                self.emit(Op::CallIndirect(n, code));
                assert(wrote(*self, *old(self)));
                Ok(self.call_result(ty))
            },
            _ => Err(malformed(line)),
        }
    }

    /// `s[i]` or `xs[i]` on evaluated operands.
    fn index_value(&mut self, obj_ty: &Type, ty: &Type, o: usize, i: usize, line: u32) -> (r:
        Result<usize, String>)
        requires
            old(self).f.wf(),
            is_value(old(self).f.ops@, o),
            is_value(old(self).f.ops@, i),
        ensures
            written(
                r,
                lower::index_value(old(self)@, obj_ty@, ty@, o, i, line),
                *final(self),
                *old(self),
            ),
    {
        reveal(lower::index_value);
        match obj_ty {
            // `s[i]`: bounds-checked byte access into a string.
            Type::Str => {
                let len = self.emit(Op::Load(IrType::I64, o, AUX));
                self.emit(Op::BoundsCheck(i, len, line));
                let base = self.emit(Op::Int(IntOp::Add, o, i));
                let byte = self.emit(Op::Load(IrType::I8, base, HEADER));
                Ok(self.emit(Op::Unary(UnaryOp::Uextend, byte)))
            },
            Type::Array(elem) => {
                if is_param(elem) {
                    return Err(malformed(line));
                }
                let (_, addr) = self.index_addr(o, i, elem.size_bytes(), line);
                let v = self.load_typed(ty, addr, 0);
                self.root_if(ty, v);
                Ok(v)
            },
            _ => Err(malformed(line)),
        }
    }
}

fn is_param(t: &Type) -> (r: bool)
    ensures
        r == (t@ is Param),
{
    matches!(t, Type::Param(_))
}

/// The constant that a pattern compares the scrutinee (or its tag) with.
fn pattern_const(p: &Pattern) -> (r: Option<i64>)
    ensures
        r == lower::pattern_const(p@),
{
    match p {
        Pattern::Variant { tag, .. } => Some(*tag as i64),
        Pattern::IntLit { value, .. } => Some(*value as i64),
        Pattern::ByteLit { value, .. } => Some(*value as i64),
        Pattern::BoolLit { value, .. } => Some(
            if *value {
                1
            } else {
                0
            },
        ),
        Pattern::Wildcard { .. } => None,
    }
}

fn print_fn(t: &Type) -> (r: Rt)
    ensures
        r == lower::print_fn(t@),
{
    match t {
        Type::Int(k) => {
            if k.signed() {
                Rt::PrintInt
            } else {
                Rt::PrintUint
            }
        },
        Type::Float => Rt::PrintFloat,
        Type::Bool => Rt::PrintBool,
        _ => Rt::PrintStr,
    }
}

fn find_lambda(lams: &Vec<(u32, usize, usize)>, id: u32) -> (r: Option<(usize, usize)>)
    ensures
        r == lower::find_lambda(lams@, id, 0),
{
    let mut i: usize = 0;
    while i < lams.len()
        invariant
            i <= lams.len(),
            lower::find_lambda(lams@, id, 0) == lower::find_lambda(lams@, id, i as nat),
        decreases lams.len() - i,
    {
        if lams[i].0 == id {
            return Some((lams[i].1, lams[i].2));
        }
        i += 1;
    }
    None
}

impl Cx<'_> {
    /// A new object with the given payload and auxiliary word.
    fn new_object(&self, st: &mut Low, l: &Layout, aux: i64, Ghost(ts): Ghost<Seq<TypeView>>) -> (r:
        usize)
        requires
            self.admits(*old(st)),
            l.of(ts),
        ensures
            (final(st)@, r) == lower::new_object(old(st)@, ts, aux),
            follows(*final(st), *old(st), self.checked@),
            is_value(final(st).f.ops@, r),
    {
        reveal(lower::new_object);
        let id = st.g.desc(KIND_STRUCT, l.size as u64, l.refmap);
        st.new_of(id, aux)
    }

    /// A captured variable: a word of the environment, behind the code
    /// pointer.
    fn captured(&self, st: &mut Low, i: u32, ty: &Type, line: u32) -> (r: Result<usize, String>)
        requires
            self.admits(*old(st)),
        ensures
            written(
                r,
                lower::captured(self@, old(st)@, i, ty@, line),
                *final(st),
                *old(st),
            ),
    {
        reveal(lower::captured);
        if !self.lambda || i >= 64 {
            return Err(malformed(line));
        }
        let env = st.emit(Op::UseVar(self.locals));
        let off: i32 = HEADER + 8 * (i as i32 + 1);
        Ok(st.emit(Op::Load(abi_ty(ty), env, off)))
    }

    /// A resolved name in value position.
    fn variable(&self, st: &mut Low, res: Option<VarRes>, ty: &Type, line: u32) -> (r: Result<
        usize,
        String,
    >)
        requires
            self.admits(*old(st)),
        ensures
            written(
                r,
                lower::variable(self@, old(st)@, res, ty@, line),
                *final(st),
                *old(st),
            ),
    {
        reveal(lower::variable);
        match res {
            Some(VarRes::Local(i)) => {
                if (i as usize) < self.locals {
                    Ok(st.emit(Op::UseVar(i as usize)))
                } else {
                    Err(malformed(line))
                }
            },
            Some(VarRes::Captured(i)) => {
                let v = match self.captured(st, i, ty, line) {
                    Ok(v) => v,
                    Err(m) => return Err(m),
                };
                st.root_if(ty, v);
                Ok(v)
            },
            Some(VarRes::Func(fid)) => {
                if (fid as usize) < self.fnvals.len() {
                    if let Some(id) = self.fnvals[fid as usize] {
                        return Ok(st.emit(Op::DataAddr(id)));
                    }
                }
                Err(malformed(line))
            },
            None => Err(malformed(line)),
        }
    }

    /// A captured value at the place where a closure is built.
    fn capture_source(&self, st: &mut Low, c: &Capture, line: u32) -> (r: Result<usize, String>)
        requires
            self.admits(*old(st)),
        ensures
            written(
                r,
                match c@.src {
                    VarRes::Local(n) => if n < self.locals {
                        Ok((put(old(st)@, Op::UseVar(n as usize)), next(old(st)@)))
                    } else {
                        Err(internal(line))
                    },
                    VarRes::Captured(n) => lower::captured(self@, old(st)@, n, c@.ty, line),
                    VarRes::Func(_) => Err(internal(line)),
                },
                *final(st),
                *old(st),
            ),
    {
        match c.src {
            VarRes::Local(n) => {
                if (n as usize) < self.locals {
                    Ok(st.emit(Op::UseVar(n as usize)))
                } else {
                    Err(malformed(line))
                }
            },
            VarRes::Captured(n) => self.captured(st, n, &c.ty, line),
            VarRes::Func(_) => Err(malformed(line)),
        }
    }

    /// Captures, by value, from the enclosing frame.
    fn store_captures(&self, st: &mut Low, obj: usize, cs: &Vec<Capture>, line: u32) -> (r: Result<
        (),
        String,
    >)
        requires
            self.admits(*old(st)),
            is_value(old(st).f.ops@, obj),
            cs@.len() <= 63,
        ensures
            match r {
                Ok(()) => lower::store_captures(
                    self@,
                    old(st)@,
                    obj,
                    captures_view(cs@),
                    0,
                    line,
                ) == Ok::<LowView, Seq<char>>(final(st)@) && wrote(*final(st), *old(st)),
                Err(m) => lower::store_captures(
                    self@,
                    old(st)@,
                    obj,
                    captures_view(cs@),
                    0,
                    line,
                ) == Err::<LowView, Seq<char>>(m@),
            },
    {
        let ghost all = captures_view(cs@);
        let mut i: usize = 0;
        while i < cs.len()
            invariant
                i <= cs.len(),
                cs@.len() <= 63,
                all == captures_view(cs@),
                self.admits(*st),
                wrote(*st, *old(st)),
                is_value(st.f.ops@, obj),
                lower::store_captures(self@, st@, obj, all, i as nat, line)
                    == lower::store_captures(self@, old(st)@, obj, all, 0, line),
            decreases cs.len() - i,
        {
            assert(all[i as int] == cs@[i as int]@);
            let v = match self.capture_source(st, &cs[i], line) {
                Ok(v) => v,
                Err(m) => return Err(m),
            };
            let off: i32 = HEADER + 8 * (i as i32 + 1);
            st.store_word(&cs[i].ty, v, obj, off);
            i += 1;
        }
        Ok(())
    }

    /// A closure object: the code pointer and the captures.
    fn closure(&self, st: &mut Low, lam: &LambdaDef, line: u32) -> (r: Result<usize, String>)
        requires
            self.admits(*old(st)),
        ensures
            written(
                r,
                lower::closure(self@, old(st)@, lam@, line),
                *final(st),
                *old(st),
            ),
    {
        reveal(lower::closure);
        assert(captures_view(lam.captures@).len() == lam.captures@.len());
        let (func, desc) = match find_lambda(self.lams, lam.id) {
            Some(x) => x,
            None => return Err(malformed(line)),
        };
        if lam.captures.len() > 63 {
            return Err(malformed(line));
        }
        let obj = st.new_of(desc, 0);
        // Code pointer (scalar field 0).
        let code = st.emit(Op::FuncAddr(func));
        st.emit(Op::Store(code, obj, HEADER));
        match self.store_captures(st, obj, &lam.captures, line) {
            Ok(()) => Ok(obj),
            Err(m) => Err(m),
        }
    }

    /// A bound method: a closure whose one capture is the receiver.
    fn bound_method(&self, st: &mut Low, recv: usize, fid: u32, inst: &Vec<Type>, line: u32) -> (r:
        Result<usize, String>)
        requires
            self.admits(*old(st)),
            is_value(old(st).f.ops@, recv),
        ensures
            gives(
                r,
                lower::bound_method(self@, old(st)@, recv, fid, types_view(inst@), line),
                *final(st),
                *old(st),
                self.checked@,
            ),
    {
        reveal(lower::bound_method);
        let func = match self.bind_func(&mut st.g, fid, inst, line) {
            Ok(id) => id,
            Err(m) => return Err(m),
        };
        let desc = st.g.desc(KIND_STRUCT, 16, 2);
        let obj = st.new_of(desc, 0);
        let code = st.emit(Op::FuncAddr(func));
        st.emit(Op::Store(code, obj, HEADER));
        let word = Type::Str;
        assert(word@ == TypeView::Str);
        st.store_field(&word, recv, obj, HEADER + 8);
        Ok(obj)
    }

    /// A field of an evaluated object.
    fn field_value(
        &self,
        st: &mut Low,
        obj_ty: &Type,
        index: u32,
        ty: &Type,
        obj: usize,
        line: u32,
    ) -> (r: Result<usize, String>)
        requires
            self.admits(*old(st)),
            is_value(old(st).f.ops@, obj),
        ensures
            written(
                r,
                lower::field_value(self@, old(st)@, obj_ty@, index, ty@, obj, line),
                *final(st),
                *old(st),
            ),
    {
        reveal(lower::field_value);
        match obj_ty {
            Type::Struct(sid, targs) => {
                assert(obj_ty@ == TypeView::Struct(*sid, types_view(targs@)));
                let ghost ts = lower::struct_types(self.checked@, *sid, types_view(targs@));
                let l = match struct_layout(self.checked, *sid, targs) {
                    Some(l) => l,
                    None => return Err(malformed(line)),
                };
                if (index as usize) >= l.types.len() {
                    return Err(malformed(line));
                }
                let off = l.place(index, Ghost(ts));
                let v = st.load_typed(ty, obj, off);
                st.root_if(ty, v);
                Ok(v)
            },
            _ => Err(malformed(line)),
        }
    }

    /// Load one payload value into its binder.
    fn bind_one(
        &self,
        st: &mut Low,
        b: &PatBinder,
        sv: usize,
        l: &Layout,
        index: u32,
        line: u32,
        Ghost(ts): Ghost<Seq<TypeView>>,
    ) -> (r: Result<(), String>)
        requires
            self.admits(*old(st)),
            is_value(old(st).f.ops@, sv),
            l.of(ts),
        ensures
            match r {
                Ok(()) => lower::bind_one(self@, old(st)@, b@, sv, ts, index, line) == Ok::<
                    LowView,
                    Seq<char>,
                >(final(st)@) && wrote(*final(st), *old(st)),
                Err(m) => lower::bind_one(self@, old(st)@, b@, sv, ts, index, line) == Err::<
                    LowView,
                    Seq<char>,
                >(m@),
            },
    {
        reveal(lower::bind_one);
        if (index as usize) >= l.types.len() || (b.local as usize) >= self.locals {
            return Err(malformed(line));
        }
        let off = l.place(index, Ghost(ts));
        let v = st.load_typed(&b.ty, sv, off);
        st.emit(Op::DefVar(b.local as usize, v));
        Ok(())
    }

    fn bind_fields(
        &self,
        st: &mut Low,
        fs: &Vec<(String, PatBinder, u32)>,
        sv: usize,
        l: &Layout,
        line: u32,
        Ghost(ts): Ghost<Seq<TypeView>>,
    ) -> (r: Result<(), String>)
        requires
            self.admits(*old(st)),
            is_value(old(st).f.ops@, sv),
            l.of(ts),
        ensures
            match r {
                Ok(()) => lower::bind_fields(
                    self@,
                    old(st)@,
                    binders_view(fs@),
                    sv,
                    ts,
                    0,
                    line,
                ) == Ok::<LowView, Seq<char>>(final(st)@) && wrote(*final(st), *old(st)),
                Err(m) => lower::bind_fields(
                    self@,
                    old(st)@,
                    binders_view(fs@),
                    sv,
                    ts,
                    0,
                    line,
                ) == Err::<LowView, Seq<char>>(m@),
            },
    {
        let ghost all = binders_view(fs@);
        let mut i: usize = 0;
        while i < fs.len()
            invariant
                i <= fs.len(),
                all == binders_view(fs@),
                self.admits(*st),
                wrote(*st, *old(st)),
                is_value(st.f.ops@, sv),
                l.of(ts),
                lower::bind_fields(self@, st@, all, sv, ts, i as nat, line) == lower::bind_fields(
                    self@,
                    old(st)@,
                    all,
                    sv,
                    ts,
                    0,
                    line,
                ),
            decreases fs.len() - i,
        {
            assert(all[i as int] == (fs@[i as int].0@, fs@[i as int].1@, fs@[i as int].2));
            match self.bind_one(st, &fs[i].1, sv, l, fs[i].2, line, Ghost(ts)) {
                Ok(()) => {},
                Err(m) => return Err(m),
            }
            i += 1;
        }
        Ok(())
    }

    /// Load the payload of a matched variant into the arm's binders.
    fn bind_pattern(&self, st: &mut Low, p: &Pattern, ty: &Type, sv: usize) -> (r: Result<
        (),
        String,
    >)
        requires
            self.admits(*old(st)),
            is_value(old(st).f.ops@, sv),
        ensures
            match r {
                Ok(()) => lower::bind_pattern(self@, old(st)@, p@, ty@, sv) == Ok::<
                    LowView,
                    Seq<char>,
                >(final(st)@) && wrote(*final(st), *old(st)),
                Err(m) => lower::bind_pattern(self@, old(st)@, p@, ty@, sv) == Err::<
                    LowView,
                    Seq<char>,
                >(m@),
            },
    {
        reveal(lower::bind_pattern);
        match p {
            Pattern::Variant { args, tag, line, .. } => match ty {
                Type::Enum(eid, targs) => {
                    assert(ty@ == TypeView::Enum(*eid, types_view(targs@)));
                    let ghost ts = lower::variant_types(
                        self.checked@,
                        *eid,
                        types_view(targs@),
                        *tag,
                    );
                    let l = match variant_layout(self.checked, *eid, targs, *tag) {
                        Some(l) => l,
                        None => return Err(malformed(*line)),
                    };
                    match args {
                        PatArgs::Bare => Ok(()),
                        PatArgs::Single(b) => self.bind_one(st, b, sv, &l, 0, *line, Ghost(ts)),
                        PatArgs::Fields(fs) => self.bind_fields(st, fs, sv, &l, *line, Ghost(ts)),
                    }
                },
                _ => Err(malformed(*line)),
            },
            _ => Ok(()),
        }
    }

    /// The payload of an `Option` that holds a value.
    fn unwrap_value(&self, st: &mut Low, ty: &Type, v: usize, line: u32) -> (r: Result<
        usize,
        String,
    >)
        requires
            self.admits(*old(st)),
            is_value(old(st).f.ops@, v),
        ensures
            written(
                r,
                lower::unwrap_value(self@, old(st)@, ty@, v, line),
                *final(st),
                *old(st),
            ),
    {
        reveal(lower::unwrap_value);
        match ty {
            Type::Enum(eid, targs) => {
                assert(ty@ == TypeView::Enum(*eid, types_view(targs@)));
                assert(types_view(targs@).len() == targs@.len());
                let ghost ts = lower::variant_types(self.checked@, *eid, types_view(targs@), 0);
                let l = match variant_layout(self.checked, *eid, targs, 0) {
                    Some(l) => l,
                    None => return Err(malformed(line)),
                };
                if l.types.len() != 1 || targs.len() == 0 {
                    return Err(malformed(line));
                }
                assert(types_view(targs@)[0] == targs@[0]@);
                let tag = st.emit(Op::Load(IrType::I64, v, AUX));
                let none = st.emit(Op::CompareImm(IntCC::NotEqual, tag, 0));
                st.emit(Op::PanicIf(none, Rt::PanicUnwrap, line));
                let off = l.place(0, Ghost(ts));
                let x = st.load_typed(&targs[0], v, off);
                st.root_if(&targs[0], x);
                Ok(x)
            },
            _ => Err(malformed(line)),
        }
    }

    /// A builtin of one operand, on the evaluated operand.
    fn builtin_value(&self, st: &mut Low, b: Builtin, ty: &Type, v: usize, line: u32) -> (r: Result<
        Option<usize>,
        String,
    >)
        requires
            self.admits(*old(st)),
            is_value(old(st).f.ops@, v),
        ensures
            gives_opt(
                r,
                lower::builtin_value(self@, old(st)@, b, ty@, v, line),
                *final(st),
                *old(st),
                self.checked@,
            ),
    {
        reveal(lower::builtin_value);
        match b {
            Builtin::Print => {
                st.rt1(print_fn(ty), v);
                Ok(None)
            },
            Builtin::Println => {
                st.rt1(print_fn(ty), v);
                st.emit(Op::CallRt(Rt::PrintNewline));
                Ok(None)
            },
            Builtin::Len => {
                let off = match ty {
                    Type::Str => AUX,
                    _ => ARR_LEN,
                };
                Ok(Some(st.emit(Op::Load(IrType::I64, v, off))))
            },
            Builtin::Pop => match ty {
                Type::Array(elem) => {
                    if is_param(elem) {
                        return Err(malformed(line));
                    }
                    Ok(Some(st.array_pop(elem, v, line)))
                },
                _ => Err(malformed(line)),
            },
            Builtin::Itos => {
                let rt = if signed_type(ty) {
                    Rt::Itos
                } else {
                    Rt::Utos
                };
                let s = st.rt1(rt, v);
                st.emit(Op::Root(s));
                Ok(Some(s))
            },
            Builtin::Ftos => {
                let s = st.rt1(Rt::Ftos, v);
                st.emit(Op::Root(s));
                Ok(Some(s))
            },
            Builtin::Itof => {
                let convert = if signed_type(ty) {
                    UnaryOp::FloatFromSint
                } else {
                    UnaryOp::FloatFromUint
                };
                Ok(Some(st.emit(Op::Unary(convert, v))))
            },
            Builtin::Stoi => {
                let l = st.emit(Op::Iconst(line as i64));
                Ok(Some(st.rt2(Rt::Stoi, v, l)))
            },
            Builtin::Stof => {
                let l = st.emit(Op::Iconst(line as i64));
                Ok(Some(st.rt2(Rt::Stof, v, l)))
            },
            Builtin::Stob => {
                let arr = st.rt1(Rt::Stob, v);
                st.emit(Op::Root(arr));
                Ok(Some(arr))
            },
            Builtin::Btos => {
                let l = st.emit(Op::Iconst(line as i64));
                let s = st.rt2(Rt::Btos, v, l);
                st.emit(Op::Root(s));
                Ok(Some(s))
            },
            Builtin::Assert => {
                st.emit(Op::PanicUnless(v, Rt::AssertFail, line));
                Ok(None)
            },
            Builtin::Unwrap => match self.unwrap_value(st, ty, v, line) {
                Ok(x) => Ok(Some(x)),
                Err(m) => Err(m),
            },
            Builtin::Push | Builtin::GcCollect => Err(malformed(line)),
        }
    }
}

// -- Expressions ------------------------------------------------------------

spec fn some_r(r: Result<usize, String>) -> Result<Option<usize>, String> {
    match r {
        Ok(v) => Ok(Some(v)),
        Err(m) => Err(m),
    }
}

/// A scalar result as an expression's result.
fn some(r: Result<usize, String>) -> (s: Result<Option<usize>, String>)
    ensures
        s == some_r(r),
{
    match r {
        Ok(v) => Ok(Some(v)),
        Err(m) => Err(m),
    }
}

impl Cx<'_> {
    /// Generate an expression; gives the place of its value, if it has one.
    fn gen_expr(&self, st: &mut Low, e: &Expr) -> (r: Result<Option<usize>, String>)
        requires
            self.admits(*old(st)),
        ensures
            gives_opt(
                r,
                lower::gen_expr(self@, old(st)@, e@),
                *final(st),
                *old(st),
                self.checked@,
            ),
        decreases e@, 9int,
    {
        let line: u32 = e.line;
        assert(e@.kind == e.kind@);
        match &e.kind {
            // The checker stored the canonical two's-complement pattern.
            ExprKind::Int(v) => Ok(Some(st.emit(Op::Iconst(*v as i64)))),
            ExprKind::Byte(v) => Ok(Some(st.emit(Op::Iconst(*v as i64)))),
            ExprKind::Float(s) => self.gen_float(st, s),
            ExprKind::Bool(v) => {
                let c: i64 = if *v {
                    1
                } else {
                    0
                };
                Ok(Some(st.emit(Op::Iconst(c))))
            },
            ExprKind::Str(s) => {
                // String literals are static objects: the collector neither
                // moves nor frees them, so the address needs no root.
                let id = st.g.add_string(s.as_str());
                Ok(Some(st.emit(Op::DataAddr(id))))
            },
            ExprKind::Var { res, .. } => some(self.variable(st, *res, &e.ty, line)),
            ExprKind::Unary(op, sub) => {
                let v = match self.gen_scalar(st, sub) {
                    Ok(v) => v,
                    Err(m) => return Err(m),
                };
                assert(sub@.ty == sub.ty@);
                some(st.unary_value(*op, &sub.ty, v, line))
            },
            ExprKind::Binary(..) => some(self.gen_binary(st, e)),
            ExprKind::If { .. } => some(self.gen_if(st, e)),
            ExprKind::Call { .. } => self.gen_call(st, e),
            ExprKind::Builtin(b, args) => self.gen_builtin(st, *b, args, line),
            ExprKind::Field { obj, index, .. } => {
                let v = match self.gen_scalar(st, obj) {
                    Ok(v) => v,
                    Err(m) => return Err(m),
                };
                assert(obj@.ty == obj.ty@);
                some(self.field_value(st, &obj.ty, *index, &e.ty, v, line))
            },
            ExprKind::Index(..) => some(self.gen_index(st, e)),
            ExprKind::Cast(sub, _) => {
                let v = match self.gen_scalar(st, sub) {
                    Ok(v) => v,
                    Err(m) => return Err(m),
                };
                assert(sub@.ty == sub.ty@);
                some(st.gen_cast(&sub.ty, &e.ty, v, line))
            },
            ExprKind::ArrayLit(elems) => some(self.gen_array(st, elems, &e.ty, line)),
            ExprKind::StructLit { fields, struct_id, .. } => some(
                self.gen_struct(st, fields, *struct_id, &e.ty, line),
            ),
            ExprKind::VariantLit { args, enum_id, tag } => some(
                self.gen_variant(st, args, *enum_id, *tag, &e.ty, line),
            ),
            ExprKind::Match { .. } => some(self.gen_match(st, e)),
            ExprKind::Lambda(lam) => some(self.closure(st, lam, line)),
            ExprKind::BoundMethod { obj, fid, inst } => {
                let v = match self.gen_scalar(st, obj) {
                    Ok(v) => v,
                    Err(m) => return Err(m),
                };
                some(self.bound_method(st, v, *fid, inst, line))
            },
            ExprKind::VariantStructLit { .. } => Err(malformed(line)),
        }
    }

    fn gen_float(&self, st: &mut Low, s: &String) -> (r: Result<Option<usize>, String>)
        requires
            self.admits(*old(st)),
        ensures
            gives_opt(
                r,
                Ok(
                    (
                        put(
                            LowView {
                                f: FnView {
                                    floats: old(st)@.f.floats.push(s@),
                                    ..old(st)@.f
                                },
                                ..old(st)@
                            },
                            Op::Fconst(old(st)@.f.floats.len() as usize),
                        ),
                        Some(next(old(st)@)),
                    ),
                ),
                *final(st),
                *old(st),
                self.checked@,
            ),
    {
        let ghost before = *st;
        let n = st.f.floats.len();
        st.f.floats.push(s.clone());
        assert(names_view(st.f.floats@) =~= names_view(before.f.floats@).push(s@));
        assert(before.f@.floats.len() == n);
        Ok(Some(st.emit(Op::Fconst(n))))
    }

    /// Generate an expression whose value is read.
    fn gen_scalar(&self, st: &mut Low, e: &Expr) -> (r: Result<usize, String>)
        requires
            self.admits(*old(st)),
        ensures
            gives(
                r,
                lower::gen_scalar(self@, old(st)@, e@),
                *final(st),
                *old(st),
                self.checked@,
            ),
        decreases e@, 10int,
    {
        match self.gen_expr(st, e) {
            Ok(v) => Ok(st.value_of(v)),
            Err(m) => Err(m),
        }
    }

    fn gen_binary(&self, st: &mut Low, e: &Expr) -> (r: Result<usize, String>)
        requires
            self.admits(*old(st)),
        ensures
            gives(
                r,
                lower::gen_binary(self@, old(st)@, e@),
                *final(st),
                *old(st),
                self.checked@,
            ),
        decreases e@, 8int,
    {
        let line: u32 = e.line;
        assert(e@.kind == e.kind@);
        let (op, lhs, rhs) = match &e.kind {
            ExprKind::Binary(op, lhs, rhs) => (*op, lhs, rhs),
            _ => return Err(malformed(line)),
        };
        assert(lhs@.ty == lhs.ty@);
        assert(rhs@.ty == rhs.ty@);
        let l = match self.gen_scalar(st, lhs) {
            Ok(v) => v,
            Err(m) => return Err(m),
        };
        // Short-circuit logical operators.
        if matches!(op, BinOp::And | BinOp::Or) {
            let rest = st.emit(Op::Block);
            let merge = st.emit(Op::BlockOf(IrType::I64));
            if matches!(op, BinOp::And) {
                st.emit(Op::BrifElseWith(l, rest, merge, l));
            } else {
                st.emit(Op::BrifWith(l, merge, l, rest));
            }
            st.emit(Op::SwitchTo(rest));
            let r = match self.gen_scalar(st, rhs) {
                Ok(v) => v,
                Err(m) => return Err(m),
            };
            st.emit(Op::JumpWith(merge, r));
            st.emit(Op::SwitchTo(merge));
            return Ok(st.emit(Op::BlockParam(merge)));
        }
        let r = match self.gen_scalar(st, rhs) {
            Ok(v) => v,
            Err(m) => return Err(m),
        };
        st.binary_values(op, &lhs.ty, &rhs.ty, l, r, line)
    }

    fn gen_if(&self, st: &mut Low, e: &Expr) -> (r: Result<usize, String>)
        requires
            self.admits(*old(st)),
        ensures
            gives(
                r,
                lower::gen_if(self@, old(st)@, e@),
                *final(st),
                *old(st),
                self.checked@,
            ),
        decreases e@, 8int,
    {
        let line: u32 = e.line;
        assert(e@.kind == e.kind@);
        let (cond, then, els) = match &e.kind {
            ExprKind::If { cond, then, els } => (cond, then, els),
            _ => return Err(malformed(line)),
        };
        let c = match self.gen_scalar(st, cond) {
            Ok(v) => v,
            Err(m) => return Err(m),
        };
        let yes = st.emit(Op::Block);
        let no = st.emit(Op::Block);
        let merge = st.emit(Op::BlockOf(abi_ty(&e.ty)));
        st.emit(Op::Brif(c, yes, no));
        st.emit(Op::SwitchTo(yes));
        let t = match self.gen_scalar(st, then) {
            Ok(v) => v,
            Err(m) => return Err(m),
        };
        st.emit(Op::JumpWith(merge, t));
        st.emit(Op::SwitchTo(no));
        let f = match self.gen_scalar(st, els) {
            Ok(v) => v,
            Err(m) => return Err(m),
        };
        st.emit(Op::JumpWith(merge, f));
        Ok(st.merge_value(merge, &e.ty))
    }

    /// Expressions, left to right.
    fn gen_list(&self, st: &mut Low, es: &Vec<Expr>) -> (r: Result<Vec<usize>, String>)
        requires
            self.admits(*old(st)),
        ensures
            match r {
                Ok(vs) => lower::gen_list(
                    self@,
                    old(st)@,
                    exprs_view(es@),
                    0,
                    Seq::empty(),
                ) == Ok::<(LowView, Seq<usize>), Seq<char>>((final(st)@, vs@)) && follows(
                    *final(st),
                    *old(st),
                    self.checked@,
                ) && forall|i: int|
                    0 <= i < vs@.len() ==> is_value(final(st).f.ops@, #[trigger] vs@[i]),
                Err(m) => lower::gen_list(
                    self@,
                    old(st)@,
                    exprs_view(es@),
                    0,
                    Seq::empty(),
                ) == Err::<(LowView, Seq<usize>), Seq<char>>(m@),
            },
        decreases exprs_view(es@), es@.len() + 1,
    {
        let ghost all = exprs_view(es@);
        let mut out: Vec<usize> = Vec::new();
        assert(out@ =~= Seq::empty());
        let mut i: usize = 0;
        while i < es.len()
            invariant
                i <= es.len(),
                all == exprs_view(es@),
                self.admits(*st),
                follows(*st, *old(st), self.checked@),
                forall|j: int| 0 <= j < out@.len() ==> is_value(st.f.ops@, #[trigger] out@[j]),
                lower::gen_list(self@, old(st)@, all, 0, Seq::empty()) == lower::gen_list(
                    self@,
                    st@,
                    all,
                    i as nat,
                    out@,
                ),
            decreases es.len() - i,
        {
            assert(all[i as int] == es@[i as int]@);
            let v = match self.gen_scalar(st, &es[i]) {
                Ok(v) => v,
                Err(m) => return Err(m),
            };
            out.push(v);
            i += 1;
        }
        Ok(out)
    }

    fn gen_call(&self, st: &mut Low, e: &Expr) -> (r: Result<Option<usize>, String>)
        requires
            self.admits(*old(st)),
        ensures
            gives_opt(
                r,
                lower::gen_call(self@, old(st)@, e@),
                *final(st),
                *old(st),
                self.checked@,
            ),
        decreases e@, 8int,
    {
        let line: u32 = e.line;
        assert(e@.kind == e.kind@);
        let (callee, args, direct, inst) = match &e.kind {
            ExprKind::Call { callee, args, direct, inst } => (callee, args, *direct, inst),
            _ => return Err(malformed(line)),
        };
        assert(callee@.ty == callee.ty@);
        if let Some(fid) = direct {
            let vs = match self.gen_list(st, args) {
                Ok(vs) => vs,
                Err(m) => return Err(m),
            };
            let func = match self.callee_of(&mut st.g, fid, inst, line) {
                Ok(id) => id,
                Err(m) => return Err(m),
            };
            st.put_args(&vs);
            st.emit(Op::Call(func));
            return Ok(st.call_result(&e.ty));
        }
        let f = match self.gen_scalar(st, callee) {
            Ok(v) => v,
            Err(m) => return Err(m),
        };
        let vs = match self.gen_list(st, args) {
            Ok(vs) => vs,
            Err(m) => return Err(m),
        };
        st.call_closure(&callee.ty, f, &vs, &e.ty, line)
    }

    fn gen_builtin(&self, st: &mut Low, b: Builtin, args: &Vec<Expr>, line: u32) -> (r: Result<
        Option<usize>,
        String,
    >)
        requires
            self.admits(*old(st)),
        ensures
            gives_opt(
                r,
                lower::gen_builtin(self@, old(st)@, b, exprs_view(args@), line),
                *final(st),
                *old(st),
                self.checked@,
            ),
        decreases exprs_view(args@), 10int,
    {
        assert(exprs_view(args@).len() == args@.len());
        if matches!(b, Builtin::GcCollect) {
            let full = st.emit(Op::Iconst(1));
            st.rt1(Rt::GcCollect, full);
            return Ok(None);
        }
        if args.len() == 0 {
            return Err(malformed(line));
        }
        assert(exprs_view(args@)[0] == args@[0]@);
        assert(args@[0]@.ty == args@[0].ty@);
        let v = match self.gen_scalar(st, &args[0]) {
            Ok(v) => v,
            Err(m) => return Err(m),
        };
        if matches!(b, Builtin::Push) {
            return match &args[0].ty {
                Type::Array(elem) => {
                    if args.len() < 2 || is_param(elem) {
                        return Err(malformed(line));
                    }
                    assert(exprs_view(args@)[1] == args@[1]@);
                    let x = match self.gen_scalar(st, &args[1]) {
                        Ok(x) => x,
                        Err(m) => return Err(m),
                    };
                    st.array_push(elem, v, x);
                    Ok(None)
                },
                _ => Err(malformed(line)),
            };
        }
        self.builtin_value(st, b, &args[0].ty, v, line)
    }

    fn gen_index(&self, st: &mut Low, e: &Expr) -> (r: Result<usize, String>)
        requires
            self.admits(*old(st)),
        ensures
            gives(
                r,
                lower::gen_index(self@, old(st)@, e@),
                *final(st),
                *old(st),
                self.checked@,
            ),
        decreases e@, 8int,
    {
        let line: u32 = e.line;
        assert(e@.kind == e.kind@);
        let (obj, idx) = match &e.kind {
            ExprKind::Index(obj, idx) => (obj, idx),
            _ => return Err(malformed(line)),
        };
        assert(obj@.ty == obj.ty@);
        let o = match self.gen_scalar(st, obj) {
            Ok(v) => v,
            Err(m) => return Err(m),
        };
        let i = match self.gen_scalar(st, idx) {
            Ok(v) => v,
            Err(m) => return Err(m),
        };
        st.index_value(&obj.ty, &e.ty, o, i, line)
    }

    fn gen_array(&self, st: &mut Low, elems: &Vec<Expr>, ty: &Type, line: u32) -> (r: Result<
        usize,
        String,
    >)
        requires
            self.admits(*old(st)),
        ensures
            gives(
                r,
                lower::gen_array(self@, old(st)@, exprs_view(elems@), ty@, line),
                *final(st),
                *old(st),
                self.checked@,
            ),
        decreases exprs_view(elems@), elems@.len() + 1,
    {
        let ghost all = exprs_view(elems@);
        assert(all.len() == elems@.len());
        let elem = match ty {
            Type::Array(elem) => elem,
            _ => return Err(malformed(line)),
        };
        assert(ty@ == TypeView::Array(Box::new(elem@)));
        if is_param(elem) {
            return Err(malformed(line));
        }
        let arr = st.array_new(elem, elems.len());
        let ghost begun = *st;
        let mut i: usize = 0;
        while i < elems.len()
            invariant
                i <= elems.len(),
                all == exprs_view(elems@),
                self.admits(*st),
                follows(*st, begun, self.checked@),
                follows(*st, *old(st), self.checked@),
                is_value(st.f.ops@, arr),
                !(elem@ is Param),
                lower::gen_array(self@, old(st)@, all, ty@, line) == (match lower::gen_elems(
                    self@,
                    begun@,
                    elem@,
                    arr,
                    all,
                    0,
                ) {
                    Err(m) => Err(m),
                    Ok(s) => Ok((s, arr)),
                }),
                lower::gen_elems(self@, begun@, elem@, arr, all, 0) == lower::gen_elems(
                    self@,
                    st@,
                    elem@,
                    arr,
                    all,
                    i as nat,
                ),
            decreases elems.len() - i,
        {
            assert(all[i as int] == elems@[i as int]@);
            let v = match self.gen_scalar(st, &elems[i]) {
                Ok(v) => v,
                Err(m) => return Err(m),
            };
            st.array_push(elem, arr, v);
            i += 1;
        }
        Ok(arr)
    }

    /// Field values of a new object, in source order.
    fn gen_inits(
        &self,
        st: &mut Low,
        l: &Layout,
        obj: usize,
        fs: &Vec<(String, Expr, u32)>,
        line: u32,
        Ghost(ts): Ghost<Seq<TypeView>>,
    ) -> (r: Result<(), String>)
        requires
            self.admits(*old(st)),
            is_value(old(st).f.ops@, obj),
            l.of(ts),
        ensures
            does(
                r,
                lower::gen_inits(self@, old(st)@, ts, obj, inits_view(fs@), 0, line),
                *final(st),
                *old(st),
                self.checked@,
            ),
        decreases inits_view(fs@), fs@.len(),
    {
        let ghost all = inits_view(fs@);
        let mut i: usize = 0;
        while i < fs.len()
            invariant
                i <= fs.len(),
                all == inits_view(fs@),
                self.admits(*st),
                follows(*st, *old(st), self.checked@),
                is_value(st.f.ops@, obj),
                l.of(ts),
                lower::gen_inits(self@, old(st)@, ts, obj, all, 0, line) == lower::gen_inits(
                    self@,
                    st@,
                    ts,
                    obj,
                    all,
                    i as nat,
                    line,
                ),
            decreases fs.len() - i,
        {
            assert(all[i as int] == (fs@[i as int].0@, fs@[i as int].1@, fs@[i as int].2));
            let index = fs[i].2;
            if (index as usize) >= l.types.len() {
                return Err(malformed(line));
            }
            let v = match self.gen_scalar(st, &fs[i].1) {
                Ok(v) => v,
                Err(m) => return Err(m),
            };
            let off = l.place(index, Ghost(ts));
            assert(ts[index as int] == l.types@[index as int]@);
            st.store_field(&l.types[index as usize], v, obj, off);
            i += 1;
        }
        Ok(())
    }

    fn gen_struct(
        &self,
        st: &mut Low,
        fields: &Vec<(String, Expr, u32)>,
        sid: u32,
        ty: &Type,
        line: u32,
    ) -> (r: Result<usize, String>)
        requires
            self.admits(*old(st)),
        ensures
            gives(
                r,
                lower::gen_struct(self@, old(st)@, inits_view(fields@), sid, ty@, line),
                *final(st),
                *old(st),
                self.checked@,
            ),
        decreases inits_view(fields@), fields@.len() + 1,
    {
        let targs = match ty {
            Type::Struct(_, targs) => targs,
            _ => return Err(malformed(line)),
        };
        assert(ty@->Struct_1 == types_view(targs@));
        let ghost ts = lower::struct_types(self.checked@, sid, types_view(targs@));
        let l = match struct_layout(self.checked, sid, targs) {
            Some(l) => l,
            None => return Err(malformed(line)),
        };
        let obj = self.new_object(st, &l, 0, Ghost(ts));
        match self.gen_inits(st, &l, obj, fields, line, Ghost(ts)) {
            Ok(()) => Ok(obj),
            Err(m) => Err(m),
        }
    }

    fn gen_variant(
        &self,
        st: &mut Low,
        args: &VariantArgs,
        eid: u32,
        tag: u32,
        ty: &Type,
        line: u32,
    ) -> (r: Result<usize, String>)
        requires
            self.admits(*old(st)),
        ensures
            gives(
                r,
                lower::gen_variant(self@, old(st)@, args@, eid, tag, ty@, line),
                *final(st),
                *old(st),
                self.checked@,
            ),
        decreases args@, 10int,
    {
        let targs = match ty {
            Type::Enum(_, targs) => targs,
            _ => return Err(malformed(line)),
        };
        assert(ty@->Enum_1 == types_view(targs@));
        let ghost ts = lower::variant_types(self.checked@, eid, types_view(targs@), tag);
        let l = match variant_layout(self.checked, eid, targs, tag) {
            Some(l) => l,
            None => return Err(malformed(line)),
        };
        match args {
            VariantArgs::Bare => {
                let id = st.g.bare_variant(eid, tag);
                Ok(st.emit(Op::DataAddr(id)))
            },
            VariantArgs::Single(a) => {
                if l.types.len() != 1 {
                    return Err(malformed(line));
                }
                let v = match self.gen_scalar(st, a) {
                    Ok(v) => v,
                    Err(m) => return Err(m),
                };
                let obj = self.new_object(st, &l, tag as i64, Ghost(ts));
                let off = l.place(0, Ghost(ts));
                assert(ts[0] == l.types@[0]@);
                st.store_field(&l.types[0], v, obj, off);
                Ok(obj)
            },
            VariantArgs::Fields(fs) => {
                let obj = self.new_object(st, &l, tag as i64, Ghost(ts));
                match self.gen_inits(st, &l, obj, fs, line, Ghost(ts)) {
                    Ok(()) => Ok(obj),
                    Err(m) => Err(m),
                }
            },
        }
    }

    /// The arms of a match expression.
    fn gen_arms(
        &self,
        st: &mut Low,
        arms: &Vec<(Pattern, Expr)>,
        ty: &Type,
        sv: usize,
        key: usize,
        merge: usize,
        line: u32,
    ) -> (r: Result<(), String>)
        requires
            self.admits(*old(st)),
            is_value(old(st).f.ops@, sv),
            is_value(old(st).f.ops@, key),
            is_block(old(st).f.ops@, merge),
        ensures
            does(
                r,
                lower::gen_arms(
                    self@,
                    old(st)@,
                    expr_arms_view(arms@),
                    0,
                    ty@,
                    sv,
                    key,
                    merge,
                    line,
                ),
                *final(st),
                *old(st),
                self.checked@,
            ),
        decreases expr_arms_view(arms@), arms@.len() + 1,
    {
        let ghost all = expr_arms_view(arms@);
        assert(all.len() == arms@.len());
        let mut i: usize = 0;
        while i < arms.len()
            invariant
                i <= arms.len(),
                all == expr_arms_view(arms@),
                all.len() == arms@.len(),
                self.admits(*st),
                follows(*st, *old(st), self.checked@),
                is_value(st.f.ops@, sv),
                is_value(st.f.ops@, key),
                is_block(st.f.ops@, merge),
                lower::gen_arms(self@, old(st)@, all, 0, ty@, sv, key, merge, line)
                    == lower::gen_arms(self@, st@, all, i as nat, ty@, sv, key, merge, line),
            decreases arms.len() - i,
        {
            assert(all[i as int] == (arms@[i as int].0@, arms@[i as int].1@));
            let last = i + 1 == arms.len();
            let other: usize = if last {
                0
            } else {
                match pattern_const(&arms[i].0) {
                    None => return Err(malformed(line)),
                    Some(c) => st.test_arm(key, c),
                }
            };
            match self.bind_pattern(st, &arms[i].0, ty, sv) {
                Ok(()) => {},
                Err(m) => return Err(m),
            }
            let v = match self.gen_scalar(st, &arms[i].1) {
                Ok(v) => v,
                Err(m) => return Err(m),
            };
            st.emit(Op::JumpWith(merge, v));
            if last {
                return Ok(());
            }
            st.emit(Op::SwitchTo(other));
            i += 1;
        }
        Err(malformed(line))
    }

    fn gen_match(&self, st: &mut Low, e: &Expr) -> (r: Result<usize, String>)
        requires
            self.admits(*old(st)),
        ensures
            gives(
                r,
                lower::gen_match(self@, old(st)@, e@),
                *final(st),
                *old(st),
                self.checked@,
            ),
        decreases e@, 8int,
    {
        let line: u32 = e.line;
        assert(e@.kind == e.kind@);
        let (scrutinee, arms) = match &e.kind {
            ExprKind::Match { scrutinee, arms } => (scrutinee, arms),
            _ => return Err(malformed(line)),
        };
        assert(scrutinee@.ty == scrutinee.ty@);
        let sv = match self.gen_scalar(st, scrutinee) {
            Ok(v) => v,
            Err(m) => return Err(m),
        };
        let key = st.match_key(&scrutinee.ty, sv);
        let merge = st.emit(Op::BlockOf(abi_ty(&e.ty)));
        match self.gen_arms(st, arms, &scrutinee.ty, sv, key, merge, line) {
            Ok(()) => {},
            Err(m) => return Err(m),
        }
        Ok(st.merge_value(merge, &e.ty))
    }

    // -- Statements ---------------------------------------------------------

    fn gen_block(&self, st: &mut Low, b: &Block) -> (r: Result<(), String>)
        requires
            self.admits(*old(st)),
        ensures
            does(
                r,
                lower::gen_block(self@, old(st)@, b@),
                *final(st),
                *old(st),
                self.checked@,
            ),
        decreases b@, 1int,
    {
        let ghost all = stmts_view(b.stmts@);
        assert(b@.stmts == all);
        let mut i: usize = 0;
        // What follows a return, break or continue is not reached.
        while i < b.stmts.len() && !st.f.terminated
            invariant
                i <= b.stmts.len(),
                all == stmts_view(b.stmts@),
                b@.stmts == all,
                self.admits(*st),
                follows(*st, *old(st), self.checked@),
                lower::gen_stmts(self@, old(st)@, all, 0) == lower::gen_stmts(
                    self@,
                    st@,
                    all,
                    i as nat,
                ),
            decreases b.stmts.len() - i,
        {
            assert(all[i as int] == b.stmts@[i as int]@);
            match self.gen_stmt(st, &b.stmts[i]) {
                Ok(()) => {},
                Err(m) => return Err(m),
            }
            i += 1;
        }
        Ok(())
    }

    fn gen_assign_local(&self, st: &mut Low, s: &Stmt, idx: u32) -> (r: Result<(), String>)
        requires
            self.admits(*old(st)),
            s is Assign,
        ensures
            does(
                r,
                lower::gen_assign_local(self@, old(st)@, s@, idx),
                *final(st),
                *old(st),
                self.checked@,
            ),
        decreases s@, 9int,
    {
        let (target, op, value, line) = match s {
            Stmt::Assign { target, op, value, line } => (target, *op, value, *line),
            _ => return Err(malformed(0)),
        };
        assert(target@.ty == target.ty@);
        if (idx as usize) >= self.locals {
            return Err(malformed(line));
        }
        let v = match op {
            None => match self.gen_scalar(st, value) {
                Ok(v) => v,
                Err(m) => return Err(m),
            },
            Some(op) => {
                let cur = st.emit(Op::UseVar(idx as usize));
                let r = match self.gen_scalar(st, value) {
                    Ok(v) => v,
                    Err(m) => return Err(m),
                };
                match st.gen_arith_values(op, &target.ty, cur, r, line) {
                    Ok(v) => v,
                    Err(m) => return Err(m),
                }
            },
        };
        st.emit(Op::DefVar(idx as usize, v));
        Ok(())
    }

    fn gen_assign_field(&self, st: &mut Low, s: &Stmt) -> (r: Result<(), String>)
        requires
            self.admits(*old(st)),
            s is Assign,
        ensures
            does(
                r,
                lower::gen_assign_field(self@, old(st)@, s@),
                *final(st),
                *old(st),
                self.checked@,
            ),
        decreases s@, 9int,
    {
        let (target, op, value, line) = match s {
            Stmt::Assign { target, op, value, line } => (target, *op, value, *line),
            _ => return Err(malformed(0)),
        };
        assert(target@.kind == target.kind@);
        assert(target@.ty == target.ty@);
        let (obj, index) = match &target.kind {
            ExprKind::Field { obj, index, .. } => (obj, *index),
            _ => return Err(malformed(line)),
        };
        assert(obj@.ty == obj.ty@);
        let (sid, targs) = match &obj.ty {
            Type::Struct(sid, targs) => (*sid, targs),
            _ => return Err(malformed(line)),
        };
        assert(obj@.ty == TypeView::Struct(sid, types_view(targs@)));
        let ghost ts = lower::struct_types(self.checked@, sid, types_view(targs@));
        let l = match struct_layout(self.checked, sid, targs) {
            Some(l) => l,
            None => return Err(malformed(line)),
        };
        if (index as usize) >= l.types.len() {
            return Err(malformed(line));
        }
        let off = l.place(index, Ghost(ts));
        let ty = &l.types[index as usize];
        assert(ts[index as int] == ty@);
        match op {
            None => {
                let v = match self.gen_scalar(st, value) {
                    Ok(v) => v,
                    Err(m) => return Err(m),
                };
                let o = match self.gen_scalar(st, obj) {
                    Ok(v) => v,
                    Err(m) => return Err(m),
                };
                st.store_field(ty, v, o, off);
            },
            Some(op) => {
                // Compound: the object is evaluated once, its field read
                // before the right-hand side runs.
                let o = match self.gen_scalar(st, obj) {
                    Ok(v) => v,
                    Err(m) => return Err(m),
                };
                let cur = st.load_typed(ty, o, off);
                st.root_if(ty, cur);
                let r = match self.gen_scalar(st, value) {
                    Ok(v) => v,
                    Err(m) => return Err(m),
                };
                let v = match st.gen_arith_values(op, &target.ty, cur, r, line) {
                    Ok(v) => v,
                    Err(m) => return Err(m),
                };
                st.store_field(ty, v, o, off);
            },
        }
        Ok(())
    }

    fn gen_assign_elem(&self, st: &mut Low, s: &Stmt) -> (r: Result<(), String>)
        requires
            self.admits(*old(st)),
            s is Assign,
        ensures
            does(
                r,
                lower::gen_assign_elem(self@, old(st)@, s@),
                *final(st),
                *old(st),
                self.checked@,
            ),
        decreases s@, 9int,
    {
        let (target, op, value, line) = match s {
            Stmt::Assign { target, op, value, line } => (target, *op, value, *line),
            _ => return Err(malformed(0)),
        };
        assert(target@.kind == target.kind@);
        let (arr, idx) = match &target.kind {
            ExprKind::Index(arr, idx) => (arr, idx),
            _ => return Err(malformed(line)),
        };
        assert(arr@.ty == arr.ty@);
        let ty = match &arr.ty {
            Type::Array(elem) => elem,
            _ => return Err(malformed(line)),
        };
        assert(arr@.ty == TypeView::Array(Box::new(ty@)));
        if is_param(ty) {
            return Err(malformed(line));
        }
        let size = ty.size_bytes();
        match op {
            None => {
                let v = match self.gen_scalar(st, value) {
                    Ok(v) => v,
                    Err(m) => return Err(m),
                };
                let a = match self.gen_scalar(st, arr) {
                    Ok(v) => v,
                    Err(m) => return Err(m),
                };
                let i = match self.gen_scalar(st, idx) {
                    Ok(v) => v,
                    Err(m) => return Err(m),
                };
                let (buf, addr) = st.index_addr(a, i, size, line);
                st.store_elem(ty, v, buf, addr);
            },
            Some(op) => {
                // Compound: array and index evaluated once. The element
                // address is recomputed (and re-checked) after the right-hand
                // side runs: it may have allocated (moving the buffer) or
                // popped the array (shrinking it).
                let a = match self.gen_scalar(st, arr) {
                    Ok(v) => v,
                    Err(m) => return Err(m),
                };
                let i = match self.gen_scalar(st, idx) {
                    Ok(v) => v,
                    Err(m) => return Err(m),
                };
                let (_, addr) = st.index_addr(a, i, size, line);
                let cur = st.load_typed(ty, addr, 0);
                st.root_if(ty, cur);
                let r = match self.gen_scalar(st, value) {
                    Ok(v) => v,
                    Err(m) => return Err(m),
                };
                let v = match st.gen_arith_values(op, ty, cur, r, line) {
                    Ok(v) => v,
                    Err(m) => return Err(m),
                };
                let (buf, again) = st.index_addr(a, i, size, line);
                st.store_elem(ty, v, buf, again);
            },
        }
        Ok(())
    }

    fn gen_if_stmt(&self, st: &mut Low, s: &Stmt) -> (r: Result<(), String>)
        requires
            self.admits(*old(st)),
        ensures
            does(
                r,
                lower::gen_if_stmt(self@, old(st)@, s@),
                *final(st),
                *old(st),
                self.checked@,
            ),
        decreases s@, 10int,
    {
        let (cond, then, els) = match s {
            Stmt::If { cond, then, els } => (cond, then, els),
            _ => return Err(malformed(0)),
        };
        let c = match self.gen_scalar(st, cond) {
            Ok(v) => v,
            Err(m) => return Err(m),
        };
        let yes = st.emit(Op::Block);
        let no = st.emit(Op::Block);
        let merge = st.emit(Op::Block);
        st.emit(Op::Brif(c, yes, no));
        st.start(yes);
        match self.gen_block(st, then) {
            Ok(()) => {},
            Err(m) => return Err(m),
        }
        let then_left = st.f.terminated;
        st.flow_to(merge);
        st.start(no);
        if let Some(b) = els {
            match self.gen_block(st, b) {
                Ok(()) => {},
                Err(m) => return Err(m),
            }
        }
        let else_left = st.f.terminated;
        st.flow_to(merge);
        st.join_at(merge, then_left && else_left);
        Ok(())
    }

    fn gen_while(&self, st: &mut Low, s: &Stmt) -> (r: Result<(), String>)
        requires
            self.admits(*old(st)),
        ensures
            does(
                r,
                lower::gen_while(self@, old(st)@, s@),
                *final(st),
                *old(st),
                self.checked@,
            ),
        decreases s@, 10int,
    {
        let (cond, body) = match s {
            Stmt::While { cond, body } => (cond, body),
            _ => return Err(malformed(0)),
        };
        let header = st.emit(Op::Block);
        let body_blk = st.emit(Op::Block);
        let exit = st.emit(Op::Block);
        st.emit(Op::Jump(header));
        st.emit(Op::SwitchTo(header));
        let c = match self.gen_scalar(st, cond) {
            Ok(v) => v,
            Err(m) => return Err(m),
        };
        st.emit(Op::Brif(c, body_blk, exit));
        st.emit(Op::SwitchTo(body_blk));
        let ghost outer = st.f.loops@;
        st.enter_loop(exit, header);
        match self.gen_block(st, body) {
            Ok(()) => {},
            Err(m) => return Err(m),
        }
        st.leave_loop();
        assert(st.f.loops@ =~= outer);
        st.flow_to(header);
        st.start(exit);
        Ok(())
    }

    fn gen_opt_stmt(&self, st: &mut Low, s: &Option<Box<Stmt>>) -> (r: Result<(), String>)
        requires
            self.admits(*old(st)),
        ensures
            does(
                r,
                lower::gen_opt_stmt(self@, old(st)@, opt_stmt_view(*s)),
                *final(st),
                *old(st),
                self.checked@,
            ),
        decreases opt_stmt_view(*s), 10int,
    {
        match s {
            None => Ok(()),
            Some(s) => self.gen_stmt(st, s),
        }
    }

    fn gen_for_cond(&self, st: &mut Low, cond: &Option<Expr>, body: usize, exit: usize) -> (r: Result<
        (),
        String,
    >)
        requires
            self.admits(*old(st)),
            is_block(old(st).f.ops@, body),
            is_block(old(st).f.ops@, exit),
        ensures
            does(
                r,
                lower::gen_for_cond(self@, old(st)@, opt_expr_view(*cond), body, exit),
                *final(st),
                *old(st),
                self.checked@,
            ),
        decreases opt_expr_view(*cond), 10int,
    {
        match cond {
            None => {
                st.emit(Op::Jump(body));
            },
            Some(c) => {
                let v = match self.gen_scalar(st, c) {
                    Ok(v) => v,
                    Err(m) => return Err(m),
                };
                st.emit(Op::Brif(v, body, exit));
            },
        }
        Ok(())
    }

    #[verifier::rlimit(40)]
    fn gen_for(&self, st: &mut Low, s: &Stmt) -> (r: Result<(), String>)
        requires
            self.admits(*old(st)),
        ensures
            does(
                r,
                lower::gen_for(self@, old(st)@, s@),
                *final(st),
                *old(st),
                self.checked@,
            ),
        decreases s@, 10int,
    {
        let (init, cond, step, body) = match s {
            Stmt::For { init, cond, step, body } => (init, cond, step, body),
            _ => return Err(malformed(0)),
        };
        match self.gen_opt_stmt(st, init) {
            Ok(()) => {},
            Err(m) => return Err(m),
        }
        let header = st.emit(Op::Block);
        let body_blk = st.emit(Op::Block);
        let step_blk = st.emit(Op::Block);
        let exit = st.emit(Op::Block);
        st.emit(Op::Jump(header));
        st.emit(Op::SwitchTo(header));
        match self.gen_for_cond(st, cond, body_blk, exit) {
            Ok(()) => {},
            Err(m) => return Err(m),
        }
        st.emit(Op::SwitchTo(body_blk));
        let ghost outer = st.f.loops@;
        st.enter_loop(exit, step_blk);
        match self.gen_block(st, body) {
            Ok(()) => {},
            Err(m) => return Err(m),
        }
        st.leave_loop();
        assert(st.f.loops@ =~= outer);
        st.flow_to(step_blk);
        st.start(step_blk);
        match self.gen_opt_stmt(st, step) {
            Ok(()) => {},
            Err(m) => return Err(m),
        }
        st.emit(Op::Jump(header));
        st.start(exit);
        Ok(())
    }

    /// The arms of a match statement; gives whether control left in all of
    /// them.
    fn gen_block_arms(
        &self,
        st: &mut Low,
        arms: &Vec<(Pattern, Block)>,
        ty: &Type,
        sv: usize,
        key: usize,
        merge: usize,
        line: u32,
    ) -> (r: Result<bool, String>)
        requires
            self.admits(*old(st)),
            is_value(old(st).f.ops@, sv),
            is_value(old(st).f.ops@, key),
            is_block(old(st).f.ops@, merge),
        ensures
            match r {
                Ok(left) => lower::gen_block_arms(
                    self@,
                    old(st)@,
                    stmt_arms_view(arms@),
                    0,
                    ty@,
                    sv,
                    key,
                    merge,
                    true,
                    line,
                ) == Ok::<(LowView, bool), Seq<char>>((final(st)@, left)) && follows(
                    *final(st),
                    *old(st),
                    self.checked@,
                ),
                Err(m) => lower::gen_block_arms(
                    self@,
                    old(st)@,
                    stmt_arms_view(arms@),
                    0,
                    ty@,
                    sv,
                    key,
                    merge,
                    true,
                    line,
                ) == Err::<(LowView, bool), Seq<char>>(m@),
            },
        decreases stmt_arms_view(arms@), arms@.len() + 1,
    {
        let ghost all = stmt_arms_view(arms@);
        assert(all.len() == arms@.len());
        let mut left = true;
        let mut i: usize = 0;
        while i < arms.len()
            invariant
                i <= arms.len(),
                all == stmt_arms_view(arms@),
                all.len() == arms@.len(),
                self.admits(*st),
                follows(*st, *old(st), self.checked@),
                is_value(st.f.ops@, sv),
                is_value(st.f.ops@, key),
                is_block(st.f.ops@, merge),
                lower::gen_block_arms(self@, old(st)@, all, 0, ty@, sv, key, merge, true, line)
                    == lower::gen_block_arms(
                    self@,
                    st@,
                    all,
                    i as nat,
                    ty@,
                    sv,
                    key,
                    merge,
                    left,
                    line,
                ),
            decreases arms.len() - i,
        {
            assert(all[i as int] == (arms@[i as int].0@, arms@[i as int].1@));
            let last = i + 1 == arms.len();
            let other: usize = if last {
                0
            } else {
                match pattern_const(&arms[i].0) {
                    None => return Err(malformed(line)),
                    Some(c) => st.test_arm(key, c),
                }
            };
            match self.bind_pattern(st, &arms[i].0, ty, sv) {
                Ok(()) => {},
                Err(m) => return Err(m),
            }
            st.f.terminated = false;
            match self.gen_block(st, &arms[i].1) {
                Ok(()) => {},
                Err(m) => return Err(m),
            }
            left = left && st.f.terminated;
            st.flow_to(merge);
            if last {
                return Ok(left);
            }
            st.emit(Op::SwitchTo(other));
            i += 1;
        }
        Err(malformed(line))
    }

    fn gen_stmt_match(&self, st: &mut Low, s: &Stmt) -> (r: Result<(), String>)
        requires
            self.admits(*old(st)),
        ensures
            does(
                r,
                lower::gen_stmt_match(self@, old(st)@, s@),
                *final(st),
                *old(st),
                self.checked@,
            ),
        decreases s@, 10int,
    {
        let (scrutinee, arms, line) = match s {
            Stmt::Match { scrutinee, arms, line } => (scrutinee, arms, *line),
            _ => return Err(malformed(0)),
        };
        assert(scrutinee@.ty == scrutinee.ty@);
        let sv = match self.gen_scalar(st, scrutinee) {
            Ok(v) => v,
            Err(m) => return Err(m),
        };
        let key = st.match_key(&scrutinee.ty, sv);
        let merge = st.emit(Op::Block);
        let left = match self.gen_block_arms(st, arms, &scrutinee.ty, sv, key, merge, line) {
            Ok(b) => b,
            Err(m) => return Err(m),
        };
        st.join_at(merge, left);
        Ok(())
    }

    fn gen_return(&self, st: &mut Low, value: &Option<Expr>) -> (r: Result<(), String>)
        requires
            self.admits(*old(st)),
        ensures
            does(
                r,
                lower::gen_return(self@, old(st)@, opt_expr_view(*value)),
                *final(st),
                *old(st),
                self.checked@,
            ),
        decreases opt_expr_view(*value), 11int,
    {
        match value {
            Some(v) => {
                let x = match self.gen_scalar(st, v) {
                    Ok(x) => x,
                    Err(m) => return Err(m),
                };
                st.emit(Op::ReturnValue(x));
            },
            None => {
                st.emit(Op::Return);
            },
        }
        st.f.terminated = true;
        Ok(())
    }

    fn gen_stmt(&self, st: &mut Low, s: &Stmt) -> (r: Result<(), String>)
        requires
            self.admits(*old(st)),
        ensures
            does(
                r,
                lower::gen_stmt(self@, old(st)@, s@),
                *final(st),
                *old(st),
                self.checked@,
            ),
        decreases s@, 11int,
    {
        match s {
            Stmt::Let { init, local, line, .. } => {
                if (*local as usize) >= self.locals {
                    return Err(malformed(*line));
                }
                let v = match self.gen_scalar(st, init) {
                    Ok(v) => v,
                    Err(m) => return Err(m),
                };
                st.emit(Op::DefVar(*local as usize, v));
                Ok(())
            },
            Stmt::Assign { target, line, .. } => {
                assert(target@.kind == target.kind@);
                match &target.kind {
                    ExprKind::Var { res, .. } => match res {
                        Some(VarRes::Local(idx)) => self.gen_assign_local(st, s, *idx),
                        _ => Err(malformed(*line)),
                    },
                    ExprKind::Field { .. } => self.gen_assign_field(st, s),
                    ExprKind::Index(..) => self.gen_assign_elem(st, s),
                    _ => Err(malformed(*line)),
                }
            },
            Stmt::Expr(e) => match self.gen_expr(st, e) {
                Ok(_) => Ok(()),
                Err(m) => Err(m),
            },
            Stmt::If { .. } => self.gen_if_stmt(st, s),
            Stmt::While { .. } => self.gen_while(st, s),
            Stmt::For { .. } => self.gen_for(st, s),
            Stmt::Return { value, .. } => self.gen_return(st, value),
            Stmt::Break(line) => {
                let n = st.f.loops.len();
                if n == 0 {
                    return Err(malformed(*line));
                }
                let (exit, _) = st.f.loops[n - 1];
                st.emit(Op::Jump(exit));
                st.f.terminated = true;
                Ok(())
            },
            Stmt::Continue(line) => {
                let n = st.f.loops.len();
                if n == 0 {
                    return Err(malformed(*line));
                }
                let (_, again) = st.f.loops[n - 1];
                st.emit(Op::Jump(again));
                st.f.terminated = true;
                Ok(())
            },
            Stmt::Block(b) => self.gen_block(st, b),
            Stmt::Match { .. } => self.gen_stmt_match(st, s),
        }
    }
}

spec fn opt_stmt_view(s: Option<Box<Stmt>>) -> Option<Box<StmtView>> {
    match s {
        Some(s) => Some(Box::new(s@)),
        None => None,
    }
}

spec fn opt_expr_view(e: Option<Expr>) -> Option<ExprView> {
    match e {
        Some(e) => Some(e@),
        None => None,
    }
}

/// Only instructions were added, and whether control has left may differ.
spec fn moved(new: Low, old: Low) -> bool {
    &&& new.f.wf()
    &&& new.f.params == old.f.params
    &&& new.f.vars == old.f.vars
    &&& new.f.loops@ == old.f.loops@
    &&& grown(new.f.ops@, old.f.ops@)
    &&& new.g == old.g
}

impl Low {
    /// Jump on unless control has left.
    fn flow_to(&mut self, b: usize)
        requires
            old(self).f.wf(),
            is_block(old(self).f.ops@, b),
        ensures
            final(self)@ == lower::flow_to(old(self)@, b),
            moved(*final(self), *old(self)),
    {
        if !self.f.terminated {
            self.emit(Op::Jump(b));
        }
    }

    /// Start writing a block that control reaches.
    fn start(&mut self, b: usize)
        requires
            old(self).f.wf(),
            is_block(old(self).f.ops@, b),
        ensures
            final(self)@ == lower::start(old(self)@, b),
            moved(*final(self), *old(self)),
    {
        self.emit(Op::SwitchTo(b));
        self.f.terminated = false;
    }

    /// Go on at a merge block; if control left on every way, it is not
    /// reached.
    fn join_at(&mut self, b: usize, left: bool)
        requires
            old(self).f.wf(),
            is_block(old(self).f.ops@, b),
        ensures
            final(self)@ == lower::join_at(old(self)@, b, left),
            moved(*final(self), *old(self)),
    {
        self.emit(Op::SwitchTo(b));
        self.f.terminated = left;
        if left {
            self.emit(Op::Trap);
        }
    }

    fn enter_loop(&mut self, exit: usize, again: usize)
        requires
            old(self).f.wf(),
            is_block(old(self).f.ops@, exit),
            is_block(old(self).f.ops@, again),
        ensures
            final(self)@ == lower::enter_loop(old(self)@, exit, again),
            final(self).f.wf(),
            final(self).f.params == old(self).f.params,
            final(self).f.vars == old(self).f.vars,
            final(self).f.loops@ == old(self).f.loops@.push((exit, again)),
            final(self).f.ops@ == old(self).f.ops@,
            final(self).g == old(self).g,
    {
        self.f.loops.push((exit, again));
        self.f.terminated = false;
    }

    fn leave_loop(&mut self)
        requires
            old(self).f.wf(),
            old(self).f.loops@.len() > 0,
        ensures
            final(self)@ == lower::leave_loop(old(self)@),
            final(self).f.wf(),
            final(self).f.params == old(self).f.params,
            final(self).f.vars == old(self).f.vars,
            final(self).f.loops@ == old(self).f.loops@.drop_last(),
            final(self).f.ops@ == old(self).f.ops@,
            final(self).g == old(self).g,
    {
        self.f.loops.pop();
    }
}

// -- Functions --------------------------------------------------------------

impl Low {
    /// Move the parameters behind the first `off` into their homes.
    fn home_params(&mut self, n: usize, off: usize)
        requires
            old(self).f.wf(),
            n <= old(self).f.vars,
            n + off <= old(self).f.params,
        ensures
            final(self)@ == lower::home_params(old(self)@, n as nat, off as nat, 0),
            wrote(*final(self), *old(self)),
    {
        let mut i: usize = 0;
        while i < n
            invariant
                i <= n,
                n <= self.f.vars,
                n + off <= self.f.params,
                self.f.wf(),
                wrote(*self, *old(self)),
                lower::home_params(old(self)@, n as nat, off as nat, 0) == lower::home_params(
                    self@,
                    n as nat,
                    off as nat,
                    i as nat,
                ),
            decreases n - i,
        {
            let p = self.emit(Op::Param(i + off));
            self.emit(Op::DefVar(i, p));
            i += 1;
        }
    }

    fn stack_guard(&mut self, line: u32)
        requires
            old(self).f.wf(),
        ensures
            final(self)@ == lower::stack_guard(old(self)@, line),
            wrote(*final(self), *old(self)),
    {
        reveal(lower::stack_guard);
        let at = self.emit(Op::StackLimitAddr);
        let limit = self.emit(Op::Load(IrType::I64, at, 0));
        let sp = self.emit(Op::StackPointer);
        let below = self.emit(Op::Compare(IntCC::UnsignedLessThan, sp, limit));
        self.emit(Op::PanicIf(below, Rt::PanicStack, line));
    }

    fn epilogue(&mut self, ret: &Type)
        requires
            old(self).f.wf(),
        ensures
            final(self)@ == lower::epilogue(old(self)@, ret@),
            wrote(*final(self), *old(self)),
    {
        if !self.f.terminated {
            match ret {
                Type::Unit => {
                    self.emit(Op::Return);
                },
                _ => {
                    self.emit(Op::Trap);
                },
            }
        }
    }
}

/// The variables of a body.
fn body_vars(ts: &Vec<Type>, lambda: bool) -> (r: Vec<(IrType, bool)>)
    ensures
        r@ == lower::all_vars(types_view(ts@), lambda),
{
    let ghost want = lower::local_vars(types_view(ts@));
    let mut out: Vec<(IrType, bool)> = Vec::new();
    let mut i: usize = 0;
    while i < ts.len()
        invariant
            i <= ts.len(),
            want == lower::local_vars(types_view(ts@)),
            out@ == want.take(i as int),
        decreases ts.len() - i,
    {
        out.push((abi_ty(&ts[i]), ts[i].is_ref()));
        assert(types_view(ts@)[i as int] == ts@[i as int]@);
        assert(want.take(i as int + 1) =~= want.take(i as int).push(want[i as int]));
        i += 1;
    }
    assert(want.take(i as int) =~= want);
    if lambda {
        out.push((IrType::I64, true));
    }
    out
}

/// A unit, and the one before it, are what a rule gives.
spec fn unit_r(
    r: Result<Unit, String>,
    want: Result<GenView, Seq<char>>,
    old: Unit,
    checked: CheckedView,
) -> bool {
    match r {
        Ok(u) => want == Ok::<GenView, Seq<char>>(u@) && unit_follows(u, old, checked),
        Err(m) => want == Err::<GenView, Seq<char>>(m@),
    }
}

impl Cx<'_> {
    /// The start of a body.
    fn prologue(&self, st: &mut Low, nparams: usize, body: &Block, line: u32, Ghost(src): Ghost<
        lower::Source,
    >)
        requires
            self.admits(*old(st)),
            old(st).f@ == lower::empty_fn(),
            src.nparams == nparams,
            src.body == body@,
            src.line == line,
            nparams <= self.locals,
            nparams + (if self.lambda {
                1int
            } else {
                0int
            }) == old(st).f.params,
        ensures
            final(st)@ == lower::prologue(self@, old(st)@.g, src),
            wrote(*final(st), *old(st)),
    {
        reveal(lower::prologue);
        if self.lambda {
            let env = st.emit(Op::Param(0));
            st.emit(Op::DefVar(self.locals, env));
            st.home_params(nparams, 1);
        } else {
            st.home_params(nparams, 0);
        }
        if makes_crow_calls(body) {
            st.stack_guard(line);
        }
    }

    fn compile_body(
        &self,
        g: Unit,
        func: usize,
        locals: &Vec<Type>,
        nparams: usize,
        body: &Block,
        ret: &Type,
        line: u32,
    ) -> (r: Result<Unit, String>)
        requires
            unit_ok(self.checked@, g@),
            self.locals == locals@.len(),
        ensures
            unit_r(
                r,
                lower::compile_body(
                    self@,
                    g@,
                    (lower::Source {
                        func,
                        locals: types_view(locals@),
                        nparams: nparams as nat,
                        body: body@,
                        ret: ret@,
                        line,
                    }),
                ),
                g,
                self.checked@,
            ),
    {
        reveal(lower::compile_body);
        let ghost src = lower::Source {
            func,
            locals: types_view(locals@),
            nparams: nparams as nat,
            body: body@,
            ret: ret@,
            line,
        };
        assert(types_view(locals@).len() == locals@.len());
        if nparams > locals.len() || func >= g.funcs.len() {
            return Err(malformed(line));
        }
        assert(g@.funcs[func as int] == g.funcs@[func as int]@);
        let params = g.funcs[func].sig.params.len();
        let extra: usize = if self.lambda {
            1
        } else {
            0
        };
        if params < extra || params - extra != nparams {
            return Err(malformed(line));
        }
        let vars = body_vars(locals, self.lambda);
        let ghost first = g;
        let mut st = Low {
            g,
            f: Func {
                ops: Vec::new(),
                loops: Vec::new(),
                terminated: false,
                sigs: Vec::new(),
                floats: Vec::new(),
                params,
                vars: vars.len(),
            },
        };
        assert(st.f@ =~= lower::empty_fn());
        self.prologue(&mut st, nparams, body, line, Ghost(src));
        match self.gen_block(&mut st, body) {
            Ok(()) => {},
            Err(m) => return Err(m),
        }
        st.epilogue(ret);
        let Low { g: mut unit, f } = st;
        let ghost before = unit;
        let made = Body { func, vars, ops: f.ops, sigs: f.sigs, floats: f.floats };
        unit.bodies.push(made);
        assert(bodies_view(unit.bodies@) =~= bodies_view(before.bodies@).push(made@));
        proof {
            assert(before.funcs@[func as int] == first.funcs@[func as int]);
            assert(before@.funcs[func as int] == before.funcs@[func as int]@);
            lemma_sound_more(unit, before, made);
        }
        Ok(unit)
    }
}

// -- Instantiations ---------------------------------------------------------

fn find_lambda_inst(ls: &Vec<(u32, LambdaInst)>, id: u32) -> (r: Option<usize>)
    ensures
        (match r {
            Some(i) => Some(i as nat),
            None => None,
        }) == lower::find_lambda_inst(lambda_insts_view(ls@), id, 0),
        r is Some ==> r->0 < ls@.len(),
{
    let ghost all = lambda_insts_view(ls@);
    let mut i: usize = 0;
    while i < ls.len()
        invariant
            i <= ls.len(),
            all == lambda_insts_view(ls@),
            lower::find_lambda_inst(all, id, 0) == lower::find_lambda_inst(all, id, i as nat),
        decreases ls.len() - i,
    {
        assert(all[i as int].0 == ls@[i as int].0);
        if ls[i].0 == id {
            return Some(i);
        }
        i += 1;
    }
    None
}

/// A closure's reference map.
fn capture_map(cs: &Vec<Capture>) -> (r: u64)
    requires
        cs@.len() <= 63,
    ensures
        r == lower::capture_map(captures_view(cs@), cs@.len()),
{
    let ghost all = captures_view(cs@);
    let mut map: u64 = 0;
    let mut i: usize = 0;
    while i < cs.len()
        invariant
            i <= cs.len(),
            cs@.len() <= 63,
            all == captures_view(cs@),
            map == lower::capture_map(all, i as nat),
        decreases cs.len() - i,
    {
        assert(all[i as int].ty == cs@[i as int].ty@);
        if cs[i].ty.is_ref() {
            map = map | (1u64 << ((i + 1) as u64));
        }
        i += 1;
    }
    map
}

/// Declare all lambdas first (function and descriptor), so that bodies can
/// refer to them.
fn declare_lambdas(g: &mut Unit, lams: &Vec<&LambdaDef>, inst: &Instance) -> (r: Result<
    Vec<(u32, usize, usize)>,
    String,
>)
    ensures
        match r {
            Ok(t) => lower::declare_lambdas(
                old(g)@,
                lambda_refs_view(lams@),
                inst@,
                0,
                Seq::empty(),
            ) == Ok::<(GenView, Seq<(u32, usize, usize)>), Seq<char>>((final(g)@, t@)),
            Err(m) => lower::declare_lambdas(
                old(g)@,
                lambda_refs_view(lams@),
                inst@,
                0,
                Seq::empty(),
            ) == Err::<(GenView, Seq<(u32, usize, usize)>), Seq<char>>(m@),
        },
        calm(*final(g), *old(g)),
{
    let ghost all = lambda_refs_view(lams@);
    let mut out: Vec<(u32, usize, usize)> = Vec::new();
    assert(out@ =~= Seq::empty());
    let mut i: usize = 0;
    while i < lams.len()
        invariant
            i <= lams.len(),
            all == lambda_refs_view(lams@),
            calm(*g, *old(g)),
            lower::declare_lambdas(old(g)@, all, inst@, 0, Seq::empty()) == lower::declare_lambdas(
                g@,
                all,
                inst@,
                i as nat,
                out@,
            ),
        decreases lams.len() - i,
    {
        let lam = lams[i];
        assert(all[i as int] == lam@);
        assert(lam@.captures == captures_view(lam.captures@));
        assert(captures_view(lam.captures@).len() == lam.captures@.len());
        let j = match find_lambda_inst(&inst.lambdas, lam.id) {
            Some(j) => j,
            None => return Err(malformed(lam.line)),
        };
        if lam.captures.len() > 63 {
            return Err(malformed(lam.line));
        }
        let info = &inst.lambdas[j].1;
        assert(inst@.lambdas[j as int].1 == info@);
        let sig = make_sig(&info.params, &info.ret, true);
        let name = cat3(
            "crow_lambda.",
            dec(lam.id as u64).as_str(),
            suffix(inst.shapes.as_slice()).as_str(),
        );
        let func = g.declare_func(name, sig, Linkage::Local);
        let map = capture_map(&lam.captures);
        let d = g.desc(KIND_STRUCT, (8 * (1 + lam.captures.len())) as u64, map);
        out.push((lam.id, func, d));
        i += 1;
    }
    Ok(out)
}

impl Cx<'_> {
    /// The bodies of an instance's lambdas.
    fn compile_lambdas(
        &self,
        g: Unit,
        lams: &Vec<&LambdaDef>,
        inst: &Instance,
        table: &Vec<(u32, usize, usize)>,
    ) -> (r: Result<Unit, String>)
        requires
            unit_ok(self.checked@, g@),
        ensures
            unit_r(
                r,
                lower::compile_lambdas(
                    self@,
                    g@,
                    lambda_refs_view(lams@),
                    inst@,
                    table@,
                    0,
                ),
                g,
                self.checked@,
            ),
    {
        let ghost first = g;
        let ghost all = lambda_refs_view(lams@);
        let mut unit = g;
        let mut i: usize = 0;
        while i < lams.len()
            invariant
                i <= lams.len(),
                all == lambda_refs_view(lams@),
                first == g,
                unit_follows(unit, first, self.checked@),
                lower::compile_lambdas(self@, first@, all, inst@, table@, 0)
                    == lower::compile_lambdas(self@, unit@, all, inst@, table@, i as nat),
            decreases lams.len() - i,
        {
            let lam = lams[i];
            assert(all[i as int] == lam@);
            assert(lam@.params == params_view(lam.params@));
            assert(params_view(lam.params@).len() == lam.params@.len());
            let j = match find_lambda_inst(&inst.lambdas, lam.id) {
                Some(j) => j,
                None => return Err(malformed(lam.line)),
            };
            if i >= table.len() {
                return Err(malformed(lam.line));
            }
            let info = &inst.lambdas[j].1;
            assert(inst@.lambdas[j as int].1 == info@);
            assert(types_view(info.locals@).len() == info.locals@.len());
            let cx = Cx {
                program: self.program,
                checked: self.checked,
                func_ids: self.func_ids,
                fnvals: self.fnvals,
                lams: table,
                locals: info.locals.len(),
                lambda: true,
            };
            match cx.compile_body(
                unit,
                table[i].1,
                &info.locals,
                lam.params.len(),
                &lam.body,
                &info.ret,
                lam.line,
            ) {
                Ok(u) => {
                    unit = u;
                },
                Err(m) => {
                    return Err(
                        cat4("in lambda at line ", dec(lam.line as u64).as_str(), ": ", m.as_str()),
                    );
                },
            }
            i += 1;
        }
        Ok(unit)
    }

    /// Monomorphize and compile one scheduled function: its main body plus
    /// every lambda inside it, with per-instantiation symbol names.
    fn compile_work(&self, g: Unit, w: InstKey) -> (r: Result<Unit, String>)
        requires
            unit_ok(self.checked@, g@),
        ensures
            unit_r(r, lower::compile_work(self@, g@, w@), g, self.checked@),
    {
        reveal(lower::compile_work);
        let fid = w.fid as usize;
        if fid >= self.program.funcs.len() || fid >= self.checked.funcs.len() || fid
            >= self.checked.func_locals.len() {
            return Err(malformed(0));
        }
        assert(self.program@.funcs[fid as int] == self.program.funcs@[fid as int]@);
        let inst = instantiate(w.fid, &self.program.funcs[fid], self.checked, w.shapes);
        assert(inst@.def == inst.def@);
        assert(inst.def@.params == params_view(inst.def.params@));
        assert(params_view(inst.def.params@).len() == inst.def.params@.len());
        assert(types_view(inst.locals@).len() == inst.locals@.len());
        let lams = collect_lambdas(&inst.def.body);
        let mut unit = g;
        let ghost first = unit;
        let table = match declare_lambdas(&mut unit, &lams, &inst) {
            Ok(t) => t,
            Err(m) => return Err(m),
        };
        let cx = Cx {
            program: self.program,
            checked: self.checked,
            func_ids: self.func_ids,
            fnvals: self.fnvals,
            lams: &table,
            locals: inst.locals.len(),
            lambda: false,
        };
        let done = match cx.compile_body(
            unit,
            w.func,
            &inst.locals,
            inst.def.params.len(),
            &inst.def.body,
            &inst.ret,
            inst.def.line,
        ) {
            Ok(u) => u,
            Err(m) => {
                return Err(cat4("in function '", inst.name.as_str(), "': ", m.as_str()));
            },
        };
        self.compile_lambdas(done, &lams, &inst, &table)
    }
}

// -- Termination ------------------------------------------------------------

/// How many sequences of `k` shapes there are.
pub open spec fn sequences(k: nat) -> nat
    decreases k,
{
    if k == 0 {
        1
    } else {
        9 * sequences((k - 1) as nat)
    }
}

/// How many instantiations the first `n` functions can have.
pub open spec fn instantiations(checked: CheckedView, n: nat) -> nat
    decreases n,
{
    if n == 0 {
        0
    } else {
        instantiations(checked, (n - 1) as nat) + sequences(
            checked.funcs[n - 1].type_params.len(),
        )
    }
}

spec fn shape_digit(s: Shape) -> nat {
    match s {
        Shape::Ref => 0,
        Shape::F64 => 1,
        Shape::W64 => 2,
        Shape::I32 => 3,
        Shape::U32 => 4,
        Shape::I16 => 5,
        Shape::U16 => 6,
        Shape::I8 => 7,
        Shape::U8 => 8,
    }
}

/// A sequence of shapes as a number, one digit each.
spec fn shapes_number(s: Seq<Shape>) -> nat
    decreases s.len(),
{
    if s.len() == 0 {
        0
    } else {
        9 * shapes_number(s.drop_last()) + shape_digit(s.last())
    }
}

proof fn lemma_shapes_number_bound(s: Seq<Shape>)
    ensures
        shapes_number(s) < sequences(s.len()),
    decreases s.len(),
{
    if s.len() > 0 {
        lemma_shapes_number_bound(s.drop_last());
    }
}

proof fn lemma_shapes_number_injective(a: Seq<Shape>, b: Seq<Shape>)
    requires
        a.len() == b.len(),
        shapes_number(a) == shapes_number(b),
    ensures
        a == b,
    decreases a.len(),
{
    if a.len() > 0 {
        assert(shape_digit(a.last()) == shape_digit(b.last()));
        lemma_shapes_number_injective(a.drop_last(), b.drop_last());
        assert(a =~= a.drop_last().push(a.last()));
        assert(b =~= b.drop_last().push(b.last()));
    } else {
        assert(a =~= b);
    }
}

proof fn lemma_instantiations_grow(checked: CheckedView, m: nat, n: nat)
    requires
        m <= n,
    ensures
        instantiations(checked, m) <= instantiations(checked, n),
    decreases n,
{
    if m < n {
        lemma_instantiations_grow(checked, m, (n - 1) as nat);
    }
}

spec fn inst_number(checked: CheckedView, k: InstKeyView) -> nat {
    instantiations(checked, k.fid as nat) + shapes_number(k.shapes)
}

/// A program has only finitely many instantiations, however its generic
/// functions call each other: shapes do not nest.
pub proof fn law_instantiations_bounded(checked: CheckedView, insts: Seq<InstKeyView>)
    requires
        insts_ok(checked, insts),
    ensures
        insts.len() <= instantiations(checked, checked.funcs.len()),
{
    let m = instantiations(checked, checked.funcs.len());
    let s = Seq::new(insts.len(), |i: int| inst_number(checked, insts[i]) as int);
    assert forall|i: int| 0 <= i < s.len() implies 0 <= #[trigger] s[i] < m by {
        let k = insts[i];
        lemma_shapes_number_bound(k.shapes);
        lemma_instantiations_grow(checked, k.fid as nat + 1, checked.funcs.len());
    }
    assert forall|i: int, j: int| 0 <= i < s.len() && 0 <= j < s.len() && i != j implies s[i]
        != s[j] by {
        let (a, b) = (insts[i], insts[j]);
        lemma_shapes_number_bound(a.shapes);
        lemma_shapes_number_bound(b.shapes);
        if a.fid < b.fid {
            lemma_instantiations_grow(checked, a.fid as nat + 1, b.fid as nat);
        } else if b.fid < a.fid {
            lemma_instantiations_grow(checked, b.fid as nat + 1, a.fid as nat);
        } else if s[i] == s[j] {
            lemma_shapes_number_injective(a.shapes, b.shapes);
            if i < j {
                assert(insts[i].shapes != insts[j].shapes);
            } else {
                assert(insts[j].shapes != insts[i].shapes);
            }
        }
    }
    lemma_pigeonhole(s, m);
}

// -- The work list ----------------------------------------------------------

/// Does `n` steps of work lead from one unit to the other?
spec fn reaches(env: LowEnv, from: GenView, n: nat, to: GenView) -> bool
    decreases n,
{
    if n == 0 {
        from == to
    } else {
        &&& from.work.len() > 0
        &&& lower::compile_work(
            env,
            GenView { work: from.work.drop_last(), ..from },
            from.work.last(),
        ) matches Ok(g) && reaches(env, g, (n - 1) as nat, to)
    }
}

proof fn lemma_reaches_more(env: LowEnv, from: GenView, n: nat, mid: GenView, to: GenView)
    requires
        reaches(env, from, n, mid),
        mid.work.len() > 0,
        lower::compile_work(
            env,
            GenView { work: mid.work.drop_last(), ..mid },
            mid.work.last(),
        ) == Ok::<GenView, Seq<char>>(to),
    ensures
        reaches(env, from, n + 1, to),
    decreases n,
{
    if n == 0 {
        assert(reaches(env, to, 0, to));
    } else {
        let g = lower::compile_work(
            env,
            GenView { work: from.work.drop_last(), ..from },
            from.work.last(),
        )->Ok_0;
        lemma_reaches_more(env, g, (n - 1) as nat, mid, to);
    }
}

proof fn lemma_drain_from(env: LowEnv, from: GenView, n: nat, to: GenView, k: nat)
    requires
        reaches(env, from, n, to),
    ensures
        lower::drain(env, from, n + k) == lower::drain(env, to, k),
    decreases n,
{
    if n > 0 {
        let g = lower::compile_work(
            env,
            GenView { work: from.work.drop_last(), ..from },
            from.work.last(),
        )->Ok_0;
        lemma_drain_from(env, g, (n - 1) as nat, to, k);
    }
}

impl Cx<'_> {
    /// Compile scheduled functions until none is left; more are scheduled
    /// while bodies are written.
    fn run_worklist(&self, g: Unit) -> (r: Result<Unit, String>)
        requires
            unit_ok(self.checked@, g@),
        ensures
            match r {
                Ok(u) => (exists|n: nat| #[trigger]
                    lower::drain(self@, g@, n) == Some(Ok::<GenView, Seq<char>>(u@))) && unit_ok(
                    self.checked@,
                    u@,
                ),
                Err(m) => exists|n: nat| #[trigger]
                    lower::drain(self@, g@, n) == Some(Err::<GenView, Seq<char>>(m@)),
            },
    {
        let ghost first = g;
        let ghost bound = instantiations(self.checked@, self.checked@.funcs.len());
        let ghost mut n: nat = 0;
        let mut unit = g;
        proof {
            law_instantiations_bounded(self.checked@, unit@.insts);
        }
        while unit.work.len() > 0
            invariant
                first == g,
                unit_ok(self.checked@, unit@),
                reaches(self@, first@, n, unit@),
                bound == instantiations(self.checked@, self.checked@.funcs.len()),
                unit.insts@.len() <= bound,
            decreases bound - unit.insts@.len(), unit.work@.len(),
        {
            let ghost before = unit;
            let w = match unit.work.pop() {
                Some(w) => w,
                None => return Err(malformed(0)),
            };
            assert(before@.work.last() == w@);
            assert(inst_keys_view(unit.work@) =~= before@.work.drop_last());
            proof {
                lemma_sound_kept(unit, before);
            }
            assert(unit@ == (GenView { work: before@.work.drop_last(), ..before@ }));
            match self.compile_work(unit, w) {
                Ok(u) => {
                    proof {
                        lemma_reaches_more(self@, first@, n, before@, u@);
                        law_instantiations_bounded(self.checked@, u@.insts);
                        n = n + 1;
                    }
                    unit = u;
                },
                Err(m) => {
                    proof {
                        lemma_drain_from(self@, first@, n, before@, 1);
                    }
                    return Err(m);
                },
            }
        }
        proof {
            lemma_drain_from(self@, first@, n, unit@, 0);
        }
        Ok(unit)
    }
}

// -- Programs ---------------------------------------------------------------

fn import_data(name: &str) -> (r: DataDef)
    ensures
        r@ == lower::import_data(name@),
{
    let r = DataDef {
        name: owned(name),
        linkage: Linkage::Import,
        writable: false,
        align: 1,
        bytes: Vec::new(),
        relocs: Vec::new(),
    };
    assert(r@ =~= lower::import_data(name@));
    r
}

/// The unit with the runtime's functions and data declared.
fn declare_runtime() -> (r: Unit)
    ensures
        r@ == lower::runtime_unit(),
        bodies_sound(r@),
{
    let rts = rt_funcs();
    let mut funcs: Vec<FuncDecl> = Vec::new();
    let ghost want = lower::runtime_unit().funcs;
    let mut i: usize = 0;
    while i < rts.len()
        invariant
            i <= rts.len(),
            rts@ == rt_table(),
            want == lower::runtime_unit().funcs,
            func_decls_view(funcs@) == want.take(i as int),
        decreases rts.len() - i,
    {
        let ghost before = funcs@;
        let decl = FuncDecl {
            name: owned(rts[i].symbol()),
            sig: rts[i].sig(),
            linkage: Linkage::Import,
        };
        funcs.push(decl);
        assert(decl@ == want[i as int]);
        assert(func_decls_view(funcs@) =~= func_decls_view(before).push(decl@));
        assert(want.take(i as int + 1) =~= want.take(i as int).push(want[i as int]));
        i += 1;
    }
    assert(want.take(i as int) =~= want);
    let mut datas: Vec<DataDef> = Vec::new();
    datas.push(import_data("crow_desc_string"));
    datas.push(import_data("crow_stack_limit"));
    let r = Unit {
        funcs,
        datas,
        bodies: Vec::new(),
        descs: Vec::new(),
        insts: Vec::new(),
        binds: Vec::new(),
        bare: Vec::new(),
        strs: Vec::new(),
        work: Vec::new(),
    };
    assert(r@ =~= lower::runtime_unit());
    reveal(bodies_sound);
    r
}

/// A function's thunk and static closure.
fn declare_value(
    g: &mut Unit,
    name: &str,
    params: &Vec<Type>,
    ret: &Type,
    func: usize,
    closure_desc: usize,
    i: usize,
) -> (r: usize)
    requires
        bodies_sound(old(g)@),
    ensures
        (final(g)@, r) == lower::declare_value(
            old(g)@,
            name@,
            types_view(params@),
            ret@,
            func,
            closure_desc,
            i as nat,
        ),
        final(g).insts == old(g).insts,
        bodies_sound(final(g)@),
{
    reveal(lower::declare_value);
    let sig = make_sig(params, ret, true);
    let ghost shown = sig@;
    let n = sig.params.len();
    let back = sig.ret;
    let thunk = g.declare_func(cat2("crow_thunk.", name), sig, Linkage::Local);
    let body = thunk_body(thunk, func, n, back, Ghost(shown));
    let ghost before = *g;
    g.bodies.push(body);
    assert(bodies_view(g.bodies@) =~= bodies_view(before.bodies@).push(body@));
    proof {
        assert(body@.ops.len() == body.ops.len());
        assert(before@.funcs[thunk as int].sig == shown);
        lemma_thunk_body_sound(thunk, func, shown, before@.funcs);
        lemma_sound_more(*g, before, body);
    }
    let mut bytes: Vec<u8> = Vec::new();
    push_zeros(&mut bytes, 24);
    let mut relocs: Vec<Reloc> = Vec::new();
    relocs.push(Reloc::Data { at: 0, data: closure_desc, plus: FLAG_STATIC });
    relocs.push(Reloc::Func { at: 16, func: thunk });
    let d = DataDef {
        name: cat2("crow_fnval.", dec_usize(i).as_str()),
        linkage: Linkage::Local,
        writable: true,
        align: 16,
        bytes,
        relocs,
    };
    assert(d@ =~= lower::fnval_data(i as nat, closure_desc, thunk));
    g.add_data(d)
}

/// Declare the monomorphic functions and schedule them.
fn declare_functions(g: &mut Unit, program: &Program, checked: &Checked, closure_desc: usize) -> (r: (
    Vec<Option<usize>>,
    Vec<Option<usize>>,
))
    requires
        bodies_sound(old(g)@),
    ensures
        (final(g)@, r.0@, r.1@) == lower::declare_functions(
            program@,
            checked@,
            closure_desc,
            old(g)@,
            0,
            Seq::empty(),
            Seq::empty(),
        ),
        final(g).insts == old(g).insts,
        bodies_sound(final(g)@),
{
    let mut func_ids: Vec<Option<usize>> = Vec::new();
    let mut fnvals: Vec<Option<usize>> = Vec::new();
    let mut i: usize = 0;
    assert(func_ids@ =~= Seq::empty());
    assert(fnvals@ =~= Seq::empty());
    while i < program.funcs.len() && i < checked.funcs.len()
        invariant
            i <= program.funcs.len(),
            bodies_sound(g@),
            g.insts == old(g).insts,
            lower::declare_functions(
                program@,
                checked@,
                closure_desc,
                old(g)@,
                0,
                Seq::empty(),
                Seq::empty(),
            ) == lower::declare_functions(
                program@,
                checked@,
                closure_desc,
                g@,
                i as nat,
                func_ids@,
                fnvals@,
            ),
        decreases program.funcs.len() - i,
    {
        let f = &program.funcs[i];
        let s = &checked.funcs[i];
        assert(program@.funcs[i as int] == f@);
        assert(checked@.funcs[i as int] == s@);
        assert(f@.type_params == names_view(f.type_params@));
        if f.type_params.len() > 0 {
            func_ids.push(None);
            fnvals.push(None);
        } else {
            let sig = make_sig(&s.params, &s.ret, false);
            let id = g.declare_func(cat2("crow_fn.", f.name.as_str()), sig, Linkage::Local);
            let ghost before = *g;
            let task = InstKey { fid: i as u32, shapes: Vec::new(), func: id };
            assert(task@.shapes =~= Seq::empty());
            let ghost shown = task@;
            g.work.push(task);
            assert(inst_keys_view(g.work@) =~= inst_keys_view(before.work@).push(shown));
            proof {
                lemma_sound_kept(*g, before);
            }
            func_ids.push(Some(id));
            if f.is_method {
                fnvals.push(None);
            } else {
                let val = declare_value(
                    g,
                    f.name.as_str(),
                    &s.params,
                    &s.ret,
                    id,
                    closure_desc,
                    i,
                );
                fnvals.push(Some(val));
            }
        }
        i += 1;
    }
    (func_ids, fnvals)
}

/// The index of the program's `main`.
fn find_main(program: &Program) -> (r: Option<usize>)
    ensures
        (match r {
            Some(i) => Some(i as nat),
            None => None,
        }) == position(lower::func_names(program@), "main"@),
        r is Some ==> r->0 < program.funcs@.len(),
{
    let ghost names = lower::func_names(program@);
    let mut i: usize = 0;
    while i < program.funcs.len()
        invariant
            i <= program.funcs.len(),
            names == lower::func_names(program@),
            position(names, "main"@) == position_from(names, "main"@, i as nat),
        decreases program.funcs.len() - i,
    {
        assert(names[i as int] == program.funcs@[i as int].name@);
        if str_eq(program.funcs[i].name.as_str(), "main") {
            return Some(i);
        }
        i += 1;
    }
    None
}

/// A compiled program: its unit, and what its `main` became.
pub struct Compiled {
    pub unit: Unit,
    pub main: usize,
}

/// Lower a checked program. Every monomorphic function compiles
/// unconditionally; generic functions compile per instantiation shape,
/// discovered from call sites while the work list drains.
pub fn compile(program: &Program, checked: &Checked) -> (r: Result<Compiled, String>)
    ensures
        match r {
            Ok(c) => lower::compiled(program@, checked@) == Ok::<(GenView, usize), Seq<char>>(
                (c.unit@, c.main),
            ) && bodies_sound(c.unit@),
            Err(m) => lower::compiled(program@, checked@) == Err::<(GenView, usize), Seq<char>>(m@),
        },
        exists|n: nat| #[trigger] lower::lower_steps(program@, checked@, n) is Some,
{
    let mut unit = declare_runtime();
    let closure_desc = unit.desc(KIND_STRUCT, 8, 0);
    let (func_ids, fnvals) = declare_functions(&mut unit, program, checked, closure_desc);
    let lams: Vec<(u32, usize, usize)> = Vec::new();
    assert(lams@ =~= Seq::empty());
    let cx = Cx {
        program,
        checked,
        func_ids: &func_ids,
        fnvals: &fnvals,
        lams: &lams,
        locals: 0,
        lambda: false,
    };
    assert(lower::declared(program@, checked@) == (unit@, cx@));
    let ghost first = unit@;
    match cx.run_worklist(unit) {
        Err(m) => {
            proof {
                let n = choose|n: nat| #[trigger]
                    lower::drain(cx@, first, n) == Some(Err::<GenView, Seq<char>>(m@));
                assert(lower::lower_steps(program@, checked@, n) is Some);
                lower::law_lowering_is_unique(program@, checked@, n, n);
            }
            Err(m)
        },
        Ok(done) => {
            proof {
                let n = choose|n: nat| #[trigger]
                    lower::drain(cx@, first, n) == Some(Ok::<GenView, Seq<char>>(done@));
                assert(lower::lower_steps(program@, checked@, n) is Some);
                lower::law_lowering_is_unique(program@, checked@, n, n);
            }
            if let Some(i) = find_main(program) {
                if i < func_ids.len() {
                    if let Some(main) = func_ids[i] {
                        return Ok(Compiled { unit: done, main });
                    }
                }
            }
            Err(malformed(0))
        },
    }
}

// -- Stack maps and the entry point -----------------------------------------

/// A call at which references are live.
pub struct SafePoint {
    pub func: usize,
    pub ret_off: u32,
    pub span: u32,
    pub slots: Vec<u32>,
}

/// A place where a call returns to goes into the table only if some slot holds
/// a reference there.
pub fn tracked_point(func: usize, ret_off: u32, span: u32, slots: Vec<u32>) -> (r: Option<SafePoint>)
    ensures
        slots@.len() == 0 ==> r is None,
        slots@.len() > 0 ==> r == Some(SafePoint { func, ret_off, span, slots }),
{
    if slots.len() == 0 {
        None
    } else {
        Some(SafePoint { func, ret_off, span, slots })
    }
}

impl SafePoint {
    pub open spec fn view(&self) -> SafePointView {
        SafePointView {
            func: self.func,
            ret_off: self.ret_off,
            span: self.span,
            slots: self.slots@,
        }
    }
}

pub open spec fn safe_points_view(ps: Seq<SafePoint>) -> Seq<SafePointView> {
    Seq::new(ps.len(), |i: int| ps[i]@)
}

/// A point's slots added to those of the points before it.
fn push_slots(slots: &mut Vec<u64>, p: &SafePoint)
    ensures
        final(slots)@ == old(slots)@ + lower::slot_words(p@),
{
    let ghost want = lower::slot_words(p@);
    let mut j: usize = 0;
    while j < p.slots.len()
        invariant
            j <= p.slots.len(),
            want == lower::slot_words(p@),
            slots@ == old(slots)@ + want.take(j as int),
        decreases p.slots.len() - j,
    {
        slots.push(p.slots[j] as u64);
        assert(want.take(j as int + 1) =~= want.take(j as int).push(want[j as int]));
        j += 1;
    }
    assert(want.take(j as int) =~= want);
}

fn push_words(bytes: &mut Vec<u8>, words: &Vec<u64>, Ghost(before): Ghost<Seq<u64>>)
    requires
        old(bytes)@ == lower::words_bytes(before),
    ensures
        final(bytes)@ == lower::words_bytes(before + words@),
{
    let mut i: usize = 0;
    assert(before + words@.take(0) =~= before);
    while i < words.len()
        invariant
            i <= words.len(),
            bytes@ == lower::words_bytes(before + words@.take(i as int)),
        decreases words.len() - i,
    {
        push_word(bytes, words[i]);
        proof {
            let next = before + words@.take(i as int + 1);
            assert(next.drop_last() =~= before + words@.take(i as int));
            assert(next.last() == words@[i as int]);
        }
        i += 1;
    }
    assert(words@.take(i as int) =~= words@);
}

/// The stack-map table: one entry per point, and their slots.
fn stackmap_table(points: &Vec<SafePoint>) -> (r: DataDef)
    requires
        8 + 40 * points@.len() <= u32::MAX,
    ensures
        r@ == lower::stackmap_data(safe_points_view(points@)),
{
    let ghost ps = safe_points_view(points@);
    let mut head: Vec<u64> = Vec::new();
    head.push(points.len() as u64);
    let mut entries: Vec<u64> = Vec::new();
    let mut slots: Vec<u64> = Vec::new();
    let mut relocs: Vec<Reloc> = Vec::new();
    let ghost want = lower::stackmap_data(ps).relocs;
    let mut i: usize = 0;
    while i < points.len()
        invariant
            i <= points.len(),
            ps == safe_points_view(points@),
            8 + 40 * points@.len() <= u32::MAX,
            want == lower::stackmap_data(ps).relocs,
            entries@ == lower::point_table(ps, i as nat),
            slots@ == lower::slot_table(ps, i as nat),
            slots@.len() == lower::slots_before(ps, i as nat),
            relocs@ == want.take(i as int),
        decreases points.len() - i,
    {
        let p = &points[i];
        assert(ps[i as int] == p@);
        let ghost before = entries@;
        entries.push(0);
        entries.push(p.ret_off as u64);
        entries.push(p.span as u64);
        entries.push(slots.len() as u64);
        entries.push(p.slots.len() as u64);
        assert(entries@ =~= before + lower::point_words(ps, i as nat));
        push_slots(&mut slots, p);
        relocs.push(Reloc::Func { at: (8 + 40 * i) as u32, func: p.func });
        assert(want.take(i as int + 1) =~= want.take(i as int).push(want[i as int]));
        i += 1;
    }
    assert(want.take(i as int) =~= want);
    let mut bytes: Vec<u8> = Vec::new();
    assert(bytes@ =~= lower::words_bytes(Seq::empty()));
    push_words(&mut bytes, &head, Ghost(Seq::empty()));
    let ghost count: Seq<u64> = seq![ps.len() as u64];
    assert(Seq::<u64>::empty() + head@ =~= count);
    push_words(&mut bytes, &entries, Ghost(count));
    push_words(&mut bytes, &slots, Ghost(count + lower::point_table(ps, ps.len())));
    assert(bytes@ == lower::words_bytes(lower::map_words(ps)));
    DataDef {
        name: owned("crow_stackmaps"),
        linkage: Linkage::Local,
        writable: false,
        align: 8,
        bytes,
        relocs,
    }
}

proof fn lemma_entry_sound(table: usize, main: usize)
    ensures
        well_formed(lower::entry_ops(table, main), (Scope { params: 0, vars: 0 })),
        tables_cover(lower::entry_ops(table, main), 0, 0),
{
    let ops = lower::entry_ops(table, main);
    assert forall|i: int| 0 <= i < ops.len() implies fits(
        ops.take(i),
        #[trigger] ops[i],
        (Scope { params: 0, vars: 0 }),
    ) by {
        if i == 1 {
            assert(ops.take(i)[0] == ops[0]);
        }
        if i == 4 {
            assert(ops.take(i)[3] == ops[3]);
        }
        if i == 8 {
            assert(ops.take(i)[7] == ops[7]);
        }
        if i == 11 {
            assert(ops.take(i)[10] == ops[10]);
        }
    }
}

/// Add the stack-map table and the entry point to a unit, once its code is
/// laid out.
pub fn finish(unit: &mut Unit, main: usize, points: &Vec<SafePoint>)
    requires
        8 + 40 * points@.len() <= u32::MAX,
    ensures
        final(unit)@ == lower::finished(old(unit)@, main, safe_points_view(points@)),
        bodies_sound(old(unit)@) ==> bodies_sound(final(unit)@),
{
    let ghost first = *unit;
    let table = unit.add_data(stackmap_table(points));
    let none: Vec<IrType> = Vec::new();
    assert(none@ =~= Seq::empty());
    let entry = unit.declare_func(
        owned("main"),
        Sig { params: none, ret: Some(IrType::I32) },
        Linkage::Export,
    );
    let ops = vec![
        Op::FramePointer,
        Op::Arg(0),
        Op::CallRt(Rt::RtInit),
        Op::DataAddr(table),
        Op::Arg(3),
        Op::CallRt(Rt::RtRegisterMaps),
        Op::Call(main),
        Op::Iconst(0),
        Op::Arg(7),
        Op::CallRt(Rt::RtExit),
        Op::Iconst32(0),
        Op::ReturnValue(10),
    ];
    assert(ops@ =~= lower::entry_ops(table, main));
    let body = plain_body(entry, ops);
    let ghost before = *unit;
    unit.bodies.push(body);
    assert(bodies_view(unit.bodies@) =~= bodies_view(before.bodies@).push(body@));
    proof {
        if bodies_sound(first@) {
            lemma_entry_sound(table, main);
            assert(before@.funcs[entry as int].sig.params.len() == 0);
            lemma_sound_more(*unit, before, body);
        }
    }
}

} // verus!
