//! The instructions that function bodies are lowered to, and the unit of
//! functions and static data that a program becomes.
//!
//! A body is a list of instructions, each of which is one step of a code
//! generator. An instruction that gives a value is named by its place in the
//! list, and so is a basic block. Arguments of a call are handed over one by
//! one before it.
use vstd::prelude::*;

use crate::text::names_view;

verus! {

#[derive(Debug, Clone, Copy, PartialEq, Eq, Structural)]
pub enum IrType {
    I8,
    I16,
    I32,
    I64,
    F64,
}

/// Integer comparisons.
#[derive(Debug, Clone, Copy, PartialEq, Eq, Structural)]
pub enum IntCC {
    Equal,
    NotEqual,
    SignedLessThan,
    SignedLessThanOrEqual,
    SignedGreaterThan,
    SignedGreaterThanOrEqual,
    UnsignedLessThan,
    UnsignedLessThanOrEqual,
    UnsignedGreaterThan,
    UnsignedGreaterThanOrEqual,
}

/// Float comparisons; all but `NotEqual` are false on a NaN.
#[derive(Debug, Clone, Copy, PartialEq, Eq, Structural)]
pub enum FloatCC {
    Equal,
    NotEqual,
    LessThan,
    LessThanOrEqual,
    GreaterThan,
    GreaterThanOrEqual,
}

/// Integer instructions on two values.
#[derive(Debug, Clone, Copy, PartialEq, Eq, Structural)]
pub enum IntOp {
    Add,
    Sub,
    Mul,
    And,
    Or,
    Xor,
    Shl,
    /// Arithmetic shift right.
    Sshr,
    /// Logical shift right.
    Ushr,
    Sdiv,
    Udiv,
    Srem,
    Urem,
}

/// Float instructions on two values.
#[derive(Debug, Clone, Copy, PartialEq, Eq, Structural)]
pub enum FloatOp {
    Add,
    Sub,
    Mul,
    Div,
}

/// Full-width arithmetic that also tells whether it overflowed.
#[derive(Debug, Clone, Copy, PartialEq, Eq, Structural)]
pub enum FlagOp {
    Sadd,
    Uadd,
    Ssub,
    Usub,
    Smul,
    Umul,
}

/// Instructions on one value. Extensions give 64 bits.
#[derive(Debug, Clone, Copy, PartialEq, Eq, Structural)]
pub enum UnaryOp {
    Ineg,
    Bnot,
    Fneg,
    Sextend,
    Uextend,
    Reduce8,
    Reduce16,
    Reduce32,
    FloatFromSint,
    FloatFromUint,
    /// Truncation toward zero, saturating.
    FloatToSint,
    FloatToUint,
    /// The bits of a float as an integer, and back.
    FloatBits,
    BitsFloat,
}

/// The runtime's entry points.
#[derive(Debug, Clone, Copy, PartialEq, Eq, Structural)]
pub enum Rt {
    RtInit,
    RtRegisterMaps,
    RtExit,
    Alloc,
    WriteRef,
    GcCollect,
    StrConcat,
    StrEq,
    Itos,
    Utos,
    Ftos,
    Stoi,
    Stof,
    Stob,
    Btos,
    PrintInt,
    PrintUint,
    PrintFloat,
    PrintBool,
    PrintStr,
    PrintNewline,
    ArrayNew,
    ArrayPush,
    ArrayPop,
    PanicBounds,
    PanicDiv,
    PanicOverflow,
    PanicShift,
    PanicCast,
    PanicUnwrap,
    PanicStack,
    AssertFail,
}

/// One step of a body. `usize` operands are places of earlier instructions.
#[derive(Debug, Clone, Copy, PartialEq, Eq, Structural)]
pub enum Op {
    /// The function's parameter with this index.
    Param(usize),
    /// A 64-bit integer constant.
    Iconst(i64),
    /// A 32-bit integer constant.
    Iconst32(i32),
    /// The float literal with this index.
    Fconst(usize),
    /// The float nearest to an integer.
    FconstInt(i128),
    /// The address of a data object.
    DataAddr(usize),
    /// The address of a function.
    FuncAddr(usize),
    /// The address of the runtime's stack limit.
    StackLimitAddr,
    StackPointer,
    FramePointer,
    /// Read and write the variable with this index.
    UseVar(usize),
    DefVar(usize, usize),
    /// Mark a value as a reference that the collector must track.
    Root(usize),
    Load(IrType, usize, i32),
    /// Store the value (first) at the address (second) plus an offset: all of
    /// it, or its low 8, 16 or 32 bits.
    Store(usize, usize, i32),
    Store8(usize, usize, i32),
    Store16(usize, usize, i32),
    Store32(usize, usize, i32),
    Int(IntOp, usize, usize),
    IntImm(IntOp, usize, i64),
    Compare(IntCC, usize, usize),
    CompareImm(IntCC, usize, i64),
    Float(FloatOp, usize, usize),
    CompareFloat(FloatCC, usize, usize),
    Unary(UnaryOp, usize),
    /// The wrapped result; `Flag` gives whether it overflowed.
    Flagged(FlagOp, usize, usize),
    Flag(usize),
    /// Make a basic block, with one parameter or none.
    Block,
    BlockOf(IrType),
    /// Go on writing at the start of a block.
    SwitchTo(usize),
    /// The parameter of a block.
    BlockParam(usize),
    Jump(usize),
    JumpWith(usize, usize),
    /// To the first block if the condition holds, else to the second.
    Brif(usize, usize, usize),
    /// The same, handing a value to the first block, or to the second.
    BrifWith(usize, usize, usize, usize),
    BrifElseWith(usize, usize, usize, usize),
    /// End in the given runtime panic if the condition holds.
    PanicIf(usize, Rt, u32),
    /// End in the given runtime panic unless the condition holds.
    PanicUnless(usize, Rt, u32),
    /// End in a bounds panic unless the index (first) is below the length, both
    /// read as unsigned words.
    BoundsCheck(usize, usize, u32),
    /// Hand over the next argument of a call.
    Arg(usize),
    CallRt(Rt),
    Call(usize),
    /// Through a code pointer, with the signature of this index.
    CallIndirect(usize, usize),
    Return,
    ReturnValue(usize),
    /// Not reached.
    Trap,
}

impl Op {
    /// Does the instruction give a value?
    pub open spec fn gives_value(self) -> bool {
        match self {
            Op::Param(_) => true,
            Op::Iconst(_) => true,
            Op::Iconst32(_) => true,
            Op::Fconst(_) => true,
            Op::FconstInt(_) => true,
            Op::DataAddr(_) => true,
            Op::FuncAddr(_) => true,
            Op::StackLimitAddr => true,
            Op::StackPointer => true,
            Op::FramePointer => true,
            Op::UseVar(_) => true,
            Op::Load(_, _, _) => true,
            Op::Int(_, _, _) => true,
            Op::IntImm(_, _, _) => true,
            Op::Compare(_, _, _) => true,
            Op::CompareImm(_, _, _) => true,
            Op::Float(_, _, _) => true,
            Op::CompareFloat(_, _, _) => true,
            Op::Unary(_, _) => true,
            Op::Flagged(_, _, _) => true,
            Op::Flag(_) => true,
            Op::BlockParam(_) => true,
            Op::CallRt(rt) => rt.result() is Some,
            Op::Call(_) => true,
            Op::CallIndirect(_, _) => true,
            _ => false,
        }
    }

    /// Does the instruction make a block?
    pub open spec fn makes_block(self) -> bool {
        self is Block || self is BlockOf
    }
}

/// Is `v` the place of an instruction that gives a value?
pub open spec fn is_value(ops: Seq<Op>, v: usize) -> bool {
    v < ops.len() && ops[v as int].gives_value()
}

/// Is `b` the place of an instruction that makes a block?
pub open spec fn is_block(ops: Seq<Op>, b: usize) -> bool {
    b < ops.len() && ops[b as int].makes_block()
}

/// What an instruction may refer to besides earlier instructions.
pub struct Scope {
    pub params: nat,
    pub vars: nat,
}

/// May the instruction stand behind these? Its operands are values and blocks
/// among them.
pub open spec fn fits(ops: Seq<Op>, op: Op, sc: Scope) -> bool {
    match op {
        Op::Param(i) => i < sc.params,
        Op::UseVar(i) => i < sc.vars,
        Op::DefVar(i, v) => i < sc.vars && is_value(ops, v),
        Op::Root(v) => is_value(ops, v),
        Op::Load(_, a, _) => is_value(ops, a),
        Op::Store(v, a, _) => is_value(ops, v) && is_value(ops, a),
        Op::Store8(v, a, _) => is_value(ops, v) && is_value(ops, a),
        Op::Store16(v, a, _) => is_value(ops, v) && is_value(ops, a),
        Op::Store32(v, a, _) => is_value(ops, v) && is_value(ops, a),
        Op::Int(_, a, b) => is_value(ops, a) && is_value(ops, b),
        Op::IntImm(_, a, _) => is_value(ops, a),
        Op::Compare(_, a, b) => is_value(ops, a) && is_value(ops, b),
        Op::CompareImm(_, a, _) => is_value(ops, a),
        Op::Float(_, a, b) => is_value(ops, a) && is_value(ops, b),
        Op::CompareFloat(_, a, b) => is_value(ops, a) && is_value(ops, b),
        Op::Unary(_, a) => is_value(ops, a),
        Op::Flagged(_, a, b) => is_value(ops, a) && is_value(ops, b),
        Op::Flag(a) => a < ops.len() && ops[a as int] is Flagged,
        Op::SwitchTo(b) => is_block(ops, b),
        Op::BlockParam(b) => b < ops.len() && ops[b as int] is BlockOf,
        Op::Jump(b) => is_block(ops, b),
        Op::JumpWith(b, v) => is_block(ops, b) && is_value(ops, v),
        Op::Brif(c, a, b) => is_value(ops, c) && is_block(ops, a) && is_block(ops, b),
        Op::BrifWith(c, a, v, b) => is_value(ops, c) && is_block(ops, a) && is_value(ops, v)
            && is_block(ops, b),
        Op::BrifElseWith(c, a, b, v) => is_value(ops, c) && is_block(ops, a) && is_block(ops, b)
            && is_value(ops, v),
        Op::PanicIf(c, _, _) => is_value(ops, c),
        Op::PanicUnless(c, _, _) => is_value(ops, c),
        Op::BoundsCheck(i, n, _) => is_value(ops, i) && is_value(ops, n),
        Op::Arg(v) => is_value(ops, v),
        Op::CallIndirect(_, p) => is_value(ops, p),
        Op::ReturnValue(v) => is_value(ops, v),
        _ => true,
    }
}

/// Every instruction refers to earlier ones only, and to what its scope holds.
pub open spec fn well_formed(ops: Seq<Op>, sc: Scope) -> bool {
    forall|i: int| 0 <= i < ops.len() ==> fits(ops.take(i), #[trigger] ops[i], sc)
}

/// The tables beside the instructions hold what these refer to.
pub open spec fn tables_cover(ops: Seq<Op>, sigs: nat, floats: nat) -> bool {
    forall|i: int|
        0 <= i < ops.len() ==> (match #[trigger] ops[i] {
            Op::CallIndirect(s, _) => s < sigs,
            Op::Fconst(n) => n < floats,
            _ => true,
        })
}

// -- The runtime's functions ------------------------------------------------

impl Rt {
    pub open spec fn spec_symbol(self) -> Seq<char> {
        match self {
            Rt::RtInit => "crow_rt_init"@,
            Rt::RtRegisterMaps => "crow_rt_register_stackmaps"@,
            Rt::RtExit => "crow_rt_exit"@,
            Rt::Alloc => "crow_alloc"@,
            Rt::WriteRef => "crow_write_ref"@,
            Rt::GcCollect => "crow_gc_collect"@,
            Rt::StrConcat => "crow_str_concat"@,
            Rt::StrEq => "crow_str_eq"@,
            Rt::Itos => "crow_itos"@,
            Rt::Utos => "crow_utos"@,
            Rt::Ftos => "crow_ftos"@,
            Rt::Stoi => "crow_stoi"@,
            Rt::Stof => "crow_stof"@,
            Rt::Stob => "crow_stob"@,
            Rt::Btos => "crow_btos"@,
            Rt::PrintInt => "crow_print_int"@,
            Rt::PrintUint => "crow_print_uint"@,
            Rt::PrintFloat => "crow_print_float"@,
            Rt::PrintBool => "crow_print_bool"@,
            Rt::PrintStr => "crow_print_str"@,
            Rt::PrintNewline => "crow_print_newline"@,
            Rt::ArrayNew => "crow_array_new"@,
            Rt::ArrayPush => "crow_array_push"@,
            Rt::ArrayPop => "crow_array_pop"@,
            Rt::PanicBounds => "crow_panic_bounds"@,
            Rt::PanicDiv => "crow_panic_div"@,
            Rt::PanicOverflow => "crow_panic_overflow"@,
            Rt::PanicShift => "crow_panic_shift"@,
            Rt::PanicCast => "crow_panic_cast"@,
            Rt::PanicUnwrap => "crow_panic_unwrap"@,
            Rt::PanicStack => "crow_panic_stack"@,
            Rt::AssertFail => "crow_assert_fail"@,
        }
    }

    /// The linker symbol of a runtime function.
    pub fn symbol(self) -> (r: &'static str)
        ensures
            r@ == self.spec_symbol(),
    {
        match self {
            Rt::RtInit => "crow_rt_init",
            Rt::RtRegisterMaps => "crow_rt_register_stackmaps",
            Rt::RtExit => "crow_rt_exit",
            Rt::Alloc => "crow_alloc",
            Rt::WriteRef => "crow_write_ref",
            Rt::GcCollect => "crow_gc_collect",
            Rt::StrConcat => "crow_str_concat",
            Rt::StrEq => "crow_str_eq",
            Rt::Itos => "crow_itos",
            Rt::Utos => "crow_utos",
            Rt::Ftos => "crow_ftos",
            Rt::Stoi => "crow_stoi",
            Rt::Stof => "crow_stof",
            Rt::Stob => "crow_stob",
            Rt::Btos => "crow_btos",
            Rt::PrintInt => "crow_print_int",
            Rt::PrintUint => "crow_print_uint",
            Rt::PrintFloat => "crow_print_float",
            Rt::PrintBool => "crow_print_bool",
            Rt::PrintStr => "crow_print_str",
            Rt::PrintNewline => "crow_print_newline",
            Rt::ArrayNew => "crow_array_new",
            Rt::ArrayPush => "crow_array_push",
            Rt::ArrayPop => "crow_array_pop",
            Rt::PanicBounds => "crow_panic_bounds",
            Rt::PanicDiv => "crow_panic_div",
            Rt::PanicOverflow => "crow_panic_overflow",
            Rt::PanicShift => "crow_panic_shift",
            Rt::PanicCast => "crow_panic_cast",
            Rt::PanicUnwrap => "crow_panic_unwrap",
            Rt::PanicStack => "crow_panic_stack",
            Rt::AssertFail => "crow_assert_fail",
        }
    }

    /// How many parameters the function takes.
    pub open spec fn arity(self) -> nat {
        match self {
            Rt::PrintNewline => 0,
            Rt::Alloc => 2,
            Rt::StrConcat => 2,
            Rt::StrEq => 2,
            Rt::Stoi => 2,
            Rt::Stof => 2,
            Rt::Btos => 2,
            Rt::ArrayPop => 3,
            Rt::WriteRef => 3,
            Rt::ArrayNew => 3,
            Rt::PanicBounds => 3,
            Rt::ArrayPush => 4,
            _ => 1,
        }
    }

    /// The class of all its parameters: they are words, but for the two
    /// functions on floats.
    pub open spec fn param_type(self) -> IrType {
        if self is Ftos || self is PrintFloat {
            IrType::F64
        } else {
            IrType::I64
        }
    }

    /// What the function gives back, if anything.
    pub open spec fn result(self) -> Option<IrType> {
        match self {
            Rt::Stof => Some(IrType::F64),
            Rt::Alloc => Some(IrType::I64),
            Rt::StrConcat => Some(IrType::I64),
            Rt::StrEq => Some(IrType::I64),
            Rt::Itos => Some(IrType::I64),
            Rt::Utos => Some(IrType::I64),
            Rt::Ftos => Some(IrType::I64),
            Rt::Stoi => Some(IrType::I64),
            Rt::Stob => Some(IrType::I64),
            Rt::Btos => Some(IrType::I64),
            Rt::ArrayNew => Some(IrType::I64),
            Rt::ArrayPop => Some(IrType::I64),
            _ => None,
        }
    }

    pub open spec fn spec_sig(self) -> SigView {
        SigView {
            params: Seq::new(self.arity(), |i: int| self.param_type()),
            ret: self.result(),
        }
    }

    /// The signature of a runtime function.
    pub fn sig(self) -> (r: Sig)
        ensures
            r@ == self.spec_sig(),
    {
        let n: usize = match self {
            Rt::PrintNewline => 0,
            Rt::Alloc
            | Rt::StrConcat
            | Rt::StrEq
            | Rt::Stoi
            | Rt::Stof
            | Rt::Btos => 2,
            Rt::WriteRef | Rt::ArrayNew | Rt::ArrayPop | Rt::PanicBounds => 3,
            Rt::ArrayPush => 4,
            _ => 1,
        };
        let ty = match self {
            Rt::Ftos | Rt::PrintFloat => IrType::F64,
            _ => IrType::I64,
        };
        let ret = match self {
            Rt::Stof => Some(IrType::F64),
            Rt::Alloc
            | Rt::StrConcat
            | Rt::StrEq
            | Rt::Itos
            | Rt::Utos
            | Rt::Ftos
            | Rt::Stoi
            | Rt::Stob
            | Rt::Btos
            | Rt::ArrayNew
            | Rt::ArrayPop => Some(IrType::I64),
            _ => None,
        };
        let mut params: Vec<IrType> = Vec::new();
        let mut i: usize = 0;
        while i < n
            invariant
                i <= n,
                params@.len() == i,
                forall|j: int| 0 <= j < i ==> #[trigger] params@[j] == ty,
            decreases n - i,
        {
            params.push(ty);
            i += 1;
        }
        assert(params@ =~= self.spec_sig().params);
        Sig { params, ret }
    }

    /// The function's place in the table of declared runtime functions.
    pub open spec fn place(self) -> nat {
        match self {
            Rt::RtInit => 0,
            Rt::RtRegisterMaps => 1,
            Rt::RtExit => 2,
            Rt::Alloc => 3,
            Rt::WriteRef => 4,
            Rt::GcCollect => 5,
            Rt::StrConcat => 6,
            Rt::StrEq => 7,
            Rt::Itos => 8,
            Rt::Utos => 9,
            Rt::Ftos => 10,
            Rt::Stoi => 11,
            Rt::Stof => 12,
            Rt::Stob => 13,
            Rt::Btos => 14,
            Rt::PrintInt => 15,
            Rt::PrintUint => 16,
            Rt::PrintFloat => 17,
            Rt::PrintBool => 18,
            Rt::PrintStr => 19,
            Rt::PrintNewline => 20,
            Rt::ArrayNew => 21,
            Rt::ArrayPush => 22,
            Rt::ArrayPop => 23,
            Rt::PanicBounds => 24,
            Rt::PanicDiv => 25,
            Rt::PanicOverflow => 26,
            Rt::PanicShift => 27,
            Rt::PanicCast => 28,
            Rt::PanicUnwrap => 29,
            Rt::PanicStack => 30,
            Rt::AssertFail => 31,
        }
    }
}

/// The runtime's functions in the order of their declaration.
pub open spec fn rt_table() -> Seq<Rt> {
    seq![
        Rt::RtInit,
        Rt::RtRegisterMaps,
        Rt::RtExit,
        Rt::Alloc,
        Rt::WriteRef,
        Rt::GcCollect,
        Rt::StrConcat,
        Rt::StrEq,
        Rt::Itos,
        Rt::Utos,
        Rt::Ftos,
        Rt::Stoi,
        Rt::Stof,
        Rt::Stob,
        Rt::Btos,
        Rt::PrintInt,
        Rt::PrintUint,
        Rt::PrintFloat,
        Rt::PrintBool,
        Rt::PrintStr,
        Rt::PrintNewline,
        Rt::ArrayNew,
        Rt::ArrayPush,
        Rt::ArrayPop,
        Rt::PanicBounds,
        Rt::PanicDiv,
        Rt::PanicOverflow,
        Rt::PanicShift,
        Rt::PanicCast,
        Rt::PanicUnwrap,
        Rt::PanicStack,
        Rt::AssertFail,
    ]
}

pub fn rt_funcs() -> (r: Vec<Rt>)
    ensures
        r@ == rt_table(),
{
    vec![
        Rt::RtInit,
        Rt::RtRegisterMaps,
        Rt::RtExit,
        Rt::Alloc,
        Rt::WriteRef,
        Rt::GcCollect,
        Rt::StrConcat,
        Rt::StrEq,
        Rt::Itos,
        Rt::Utos,
        Rt::Ftos,
        Rt::Stoi,
        Rt::Stof,
        Rt::Stob,
        Rt::Btos,
        Rt::PrintInt,
        Rt::PrintUint,
        Rt::PrintFloat,
        Rt::PrintBool,
        Rt::PrintStr,
        Rt::PrintNewline,
        Rt::ArrayNew,
        Rt::ArrayPush,
        Rt::ArrayPop,
        Rt::PanicBounds,
        Rt::PanicDiv,
        Rt::PanicOverflow,
        Rt::PanicShift,
        Rt::PanicCast,
        Rt::PanicUnwrap,
        Rt::PanicStack,
        Rt::AssertFail,
    ]
}

/// A runtime function's place in `rt_funcs`.
pub fn rt_index(rt: Rt) -> (r: usize)
    ensures
        r == rt.place(),
{
    match rt {
        Rt::RtInit => 0,
        Rt::RtRegisterMaps => 1,
        Rt::RtExit => 2,
        Rt::Alloc => 3,
        Rt::WriteRef => 4,
        Rt::GcCollect => 5,
        Rt::StrConcat => 6,
        Rt::StrEq => 7,
        Rt::Itos => 8,
        Rt::Utos => 9,
        Rt::Ftos => 10,
        Rt::Stoi => 11,
        Rt::Stof => 12,
        Rt::Stob => 13,
        Rt::Btos => 14,
        Rt::PrintInt => 15,
        Rt::PrintUint => 16,
        Rt::PrintFloat => 17,
        Rt::PrintBool => 18,
        Rt::PrintStr => 19,
        Rt::PrintNewline => 20,
        Rt::ArrayNew => 21,
        Rt::ArrayPush => 22,
        Rt::ArrayPop => 23,
        Rt::PanicBounds => 24,
        Rt::PanicDiv => 25,
        Rt::PanicOverflow => 26,
        Rt::PanicShift => 27,
        Rt::PanicCast => 28,
        Rt::PanicUnwrap => 29,
        Rt::PanicStack => 30,
        Rt::AssertFail => 31,
    }
}

/// The table and the places in it agree, for every runtime function.
pub proof fn law_rt_table(rt: Rt)
    ensures
        rt.place() < rt_table().len(),
        rt_table()[rt.place() as int] == rt,
{
}

// -- Units ------------------------------------------------------------------

#[derive(Debug)]
pub struct Sig {
    pub params: Vec<IrType>,
    pub ret: Option<IrType>,
}

#[verifier::ext_equal]
pub struct SigView {
    pub params: Seq<IrType>,
    pub ret: Option<IrType>,
}

impl Sig {
    pub open spec fn view(&self) -> SigView {
        SigView { params: self.params@, ret: self.ret }
    }
}

pub open spec fn sigs_view(ss: Seq<Sig>) -> Seq<SigView> {
    Seq::new(ss.len(), |i: int| ss[i]@)
}

#[derive(Debug, Clone, Copy, PartialEq, Eq, Structural)]
pub enum Linkage {
    Import,
    Local,
    Export,
}

/// A declared function.
#[derive(Debug)]
pub struct FuncDecl {
    pub name: String,
    pub sig: Sig,
    pub linkage: Linkage,
}

#[verifier::ext_equal]
pub struct FuncDeclView {
    pub name: Seq<char>,
    pub sig: SigView,
    pub linkage: Linkage,
}

impl FuncDecl {
    pub open spec fn view(&self) -> FuncDeclView {
        FuncDeclView { name: self.name@, sig: self.sig@, linkage: self.linkage }
    }
}

pub open spec fn func_decls_view(fs: Seq<FuncDecl>) -> Seq<FuncDeclView> {
    Seq::new(fs.len(), |i: int| fs[i]@)
}

/// What the linker writes into a data object: the address of another object
/// plus a number, or the address of a function.
#[derive(Debug, Clone, Copy, PartialEq, Eq, Structural)]
pub enum Reloc {
    Data { at: u32, data: usize, plus: i64 },
    Func { at: u32, func: usize },
}

/// A data object: one of the runtime's, or bytes with relocations.
#[derive(Debug)]
pub struct DataDef {
    pub name: String,
    pub linkage: Linkage,
    pub writable: bool,
    pub align: u64,
    pub bytes: Vec<u8>,
    pub relocs: Vec<Reloc>,
}

#[verifier::ext_equal]
pub struct DataDefView {
    pub name: Seq<char>,
    pub linkage: Linkage,
    pub writable: bool,
    pub align: u64,
    pub bytes: Seq<u8>,
    pub relocs: Seq<Reloc>,
}

impl DataDef {
    pub open spec fn view(&self) -> DataDefView {
        DataDefView {
            name: self.name@,
            linkage: self.linkage,
            writable: self.writable,
            align: self.align,
            bytes: self.bytes@,
            relocs: self.relocs@,
        }
    }
}

pub open spec fn data_defs_view(ds: Seq<DataDef>) -> Seq<DataDefView> {
    Seq::new(ds.len(), |i: int| ds[i]@)
}

/// The body of a declared function.
#[derive(Debug)]
pub struct Body {
    pub func: usize,
    /// Register class of each variable, and whether it holds references.
    pub vars: Vec<(IrType, bool)>,
    pub ops: Vec<Op>,
    /// Signatures of calls through code pointers.
    pub sigs: Vec<Sig>,
    /// Digits of the float literals.
    pub floats: Vec<String>,
}

#[verifier::ext_equal]
pub struct BodyView {
    pub func: usize,
    pub vars: Seq<(IrType, bool)>,
    pub ops: Seq<Op>,
    pub sigs: Seq<SigView>,
    pub floats: Seq<Seq<char>>,
}

impl Body {
    pub open spec fn view(&self) -> BodyView {
        BodyView {
            func: self.func,
            vars: self.vars@,
            ops: self.ops@,
            sigs: sigs_view(self.sigs@),
            floats: names_view(self.floats@),
        }
    }
}

pub open spec fn bodies_view(bs: Seq<Body>) -> Seq<BodyView> {
    Seq::new(bs.len(), |i: int| bs[i]@)
}

} // verus!
