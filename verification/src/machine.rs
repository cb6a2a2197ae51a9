//! What instructions do: a machine for them, and what integer operators mean in
//! the language.
use vstd::arithmetic::power2::pow2;
use vstd::prelude::*;

use crate::ast::{BinOp, UnOp};
use crate::floats::{
    flipped, float_compare, float_of_text, float_result, float_text, float_to_int, nearest_float,
};
use crate::ir::{DataDefView, FlagOp, IntCC, IntOp, IrType, Op, Reloc, Rt, UnaryOp};
use crate::memory::{
    ascii, bytes_at, fetch, float_in, int_in, new_array, new_bytes, new_object, new_text, popped,
    pushed, shown_text, store, text_at, World,
};
use crate::text::{dec_int_text, dec_text};
use crate::types::IntKind;

verus! {

// -- Words ------------------------------------------------------------------

pub open spec fn modulus() -> int {
    0x1_0000_0000_0000_0000
}

/// The word that holds an integer, reduced to 64 bits.
pub open spec fn word(x: int) -> u64 {
    (x % modulus()) as u64
}

/// A word read as a signed integer.
pub open spec fn signed(w: u64) -> int {
    if w >= 0x8000_0000_0000_0000 {
        w - modulus()
    } else {
        w as int
    }
}

/// The integer of a kind that a word in canonical form holds.
pub open spec fn decode(k: IntKind, w: u64) -> int {
    if k.is_signed() {
        signed(w)
    } else {
        w as int
    }
}

/// The low `bits` bits of a word, read as a signed integer.
pub open spec fn low_signed(w: u64, bits: nat) -> int {
    let low = w as int % pow2(bits) as int;
    if low >= pow2((bits - 1) as nat) {
        low - pow2(bits)
    } else {
        low
    }
}

/// Division rounding toward zero, and its remainder.
pub open spec fn quotient(a: int, b: int) -> int {
    if a >= 0 {
        if b >= 0 {
            a / b
        } else {
            -(a / (-b))
        }
    } else if b >= 0 {
        -((-a) / b)
    } else {
        (-a) / (-b)
    }
}

pub open spec fn remainder(a: int, b: int) -> int {
    a - b * quotient(a, b)
}

// -- Instructions -----------------------------------------------------------

/// The result of an instruction on two words; `None` where the hardware
/// traps.
pub open spec fn int_result(op: IntOp, a: u64, b: u64) -> Option<u64> {
    let n = (b as int % 64) as nat;
    match op {
        IntOp::Add => Some(word(a + b)),
        IntOp::Sub => Some(word(a - b)),
        IntOp::Mul => Some(word(a * b)),
        IntOp::And => Some(a & b),
        IntOp::Or => Some(a | b),
        IntOp::Xor => Some(a ^ b),
        IntOp::Shl => Some(word(a * pow2(n))),
        IntOp::Sshr => Some(word(signed(a) / pow2(n) as int)),
        IntOp::Ushr => Some(word(a as int / pow2(n) as int)),
        IntOp::Sdiv => if b == 0 || quotient(signed(a), signed(b)) >= 0x8000_0000_0000_0000 {
            None
        } else {
            Some(word(quotient(signed(a), signed(b))))
        },
        IntOp::Udiv => if b == 0 {
            None
        } else {
            Some(a / b)
        },
        IntOp::Srem => if b == 0 {
            None
        } else {
            Some(word(remainder(signed(a), signed(b))))
        },
        IntOp::Urem => if b == 0 {
            None
        } else {
            Some(a % b)
        },
    }
}

pub open spec fn compare_result(cc: IntCC, a: u64, b: u64) -> bool {
    match cc {
        IntCC::Equal => a == b,
        IntCC::NotEqual => a != b,
        IntCC::SignedLessThan => signed(a) < signed(b),
        IntCC::SignedLessThanOrEqual => signed(a) <= signed(b),
        IntCC::SignedGreaterThan => signed(a) > signed(b),
        IntCC::SignedGreaterThanOrEqual => signed(a) >= signed(b),
        IntCC::UnsignedLessThan => a < b,
        IntCC::UnsignedLessThanOrEqual => a <= b,
        IntCC::UnsignedGreaterThan => a > b,
        IntCC::UnsignedGreaterThanOrEqual => a >= b,
    }
}

pub open spec fn truth(b: bool) -> u64 {
    if b {
        1
    } else {
        0
    }
}

/// The exact result of full-width arithmetic.
pub open spec fn flag_exact(op: FlagOp, a: u64, b: u64) -> int {
    match op {
        FlagOp::Sadd => signed(a) + signed(b),
        FlagOp::Uadd => a + b,
        FlagOp::Ssub => signed(a) - signed(b),
        FlagOp::Usub => a - b,
        FlagOp::Smul => signed(a) * signed(b),
        FlagOp::Umul => a * b,
    }
}

pub open spec fn flag_signed(op: FlagOp) -> bool {
    op is Sadd || op is Ssub || op is Smul
}

pub open spec fn overflows(op: FlagOp, a: u64, b: u64) -> bool {
    let x = flag_exact(op, a, b);
    if flag_signed(op) {
        x < -0x8000_0000_0000_0000 || x > 0x7fff_ffff_ffff_ffff
    } else {
        x < 0 || x > 0xffff_ffff_ffff_ffff
    }
}

/// How many bytes are loaded as a value of the type.
pub open spec fn load_size(t: IrType) -> nat {
    match t {
        IrType::I8 => 1,
        IrType::I16 => 2,
        IrType::I32 => 4,
        _ => 8,
    }
}

/// How many bits the value of an instruction has, where it is narrow.
pub open spec fn narrow_bits(op: Op) -> nat {
    match op {
        Op::Unary(UnaryOp::Reduce8, _) => 8,
        Op::Unary(UnaryOp::Reduce16, _) => 16,
        Op::Unary(UnaryOp::Reduce32, _) => 32,
        Op::Load(t, _, _) => 8 * load_size(t),
        _ => 64,
    }
}

/// Instructions on one word. Narrow values are held zero-extended; `bits`
/// tells how wide the operand is.
pub open spec fn unary_result(op: UnaryOp, a: u64, bits: nat) -> Option<u64> {
    match op {
        UnaryOp::Ineg => Some(word(-(a as int))),
        UnaryOp::Bnot => Some(!a),
        UnaryOp::Sextend => Some(word(low_signed(a, bits))),
        UnaryOp::Uextend => Some(a),
        UnaryOp::Reduce8 => Some((a as int % 0x100) as u64),
        UnaryOp::Reduce16 => Some((a as int % 0x1_0000) as u64),
        UnaryOp::Reduce32 => Some((a as int % 0x1_0000_0000) as u64),
        UnaryOp::Fneg => Some(flipped(a)),
        UnaryOp::FloatFromSint => Some(nearest_float(signed(a))),
        UnaryOp::FloatFromUint => Some(nearest_float(a as int)),
        UnaryOp::FloatToSint => Some(
            word(float_to_int(a, -0x8000_0000_0000_0000, 0x7fff_ffff_ffff_ffff)),
        ),
        UnaryOp::FloatToUint => Some(word(float_to_int(a, 0, 0xffff_ffff_ffff_ffff))),
        UnaryOp::FloatBits => Some(a),
        UnaryOp::BitsFloat => Some(a),
    }
}

// -- The machine ------------------------------------------------------------

/// What the call of a function comes to, with the world that it leaves; one
/// that is not finished is none that the machine can go on behind.
pub enum Called {
    Done(Option<u64>, World),
    Panic(Rt, u32, World),
    Unfinished,
}

/// Where a linked unit stands in memory: its data, by what it holds, and the
/// code of its functions, by symbol; how much an object takes, by the address
/// of its descriptor; and whose code stands at an address.
#[verifier::ext_equal]
pub struct Layout {
    pub place: spec_fn(Seq<u8>, Seq<Reloc>) -> u64,
    pub code: spec_fn(usize) -> u64,
    pub size: spec_fn(u64) -> nat,
    pub symbol: spec_fn(u64) -> usize,
}

/// Where a data object stands.
pub open spec fn standing(layout: Layout, d: DataDefView) -> u64 {
    (layout.place)(d.bytes, d.relocs)
}

/// What a body runs in: what calls come to, by symbol, arguments and the world
/// before; the stack pointer, the texts of the body's floating-point numbers, the
/// unit's data, and where it stands.
#[verifier::ext_equal]
pub struct Around {
    pub calls: spec_fn(usize, Seq<u64>, World) -> Called,
    pub sp: u64,
    pub floats: Seq<Seq<char>>,
    pub datas: Seq<DataDefView>,
    pub layout: Layout,
}

/// A machine in the middle of a body: the place of the next instruction, the
/// values by place, the variables, the arguments of the next call, and the
/// world. The parameter of a block is held at the block's place, and argument `i` of the
/// function at place `-1 - i`.
#[verifier::ext_equal]
pub struct Machine {
    pub at: int,
    pub vals: Map<int, u64>,
    pub vars: Map<int, u64>,
    pub args: Seq<u64>,
    pub world: World,
    pub around: Around,
}

#[verifier::ext_equal]
pub enum End {
    At(Machine),
    Panic(Rt, u32, World),
    Return(Option<u64>, World),
}

/// What the runtime's printing functions print of a word.
pub open spec fn printed(rt: Rt, args: Seq<u64>) -> Option<Seq<char>> {
    match rt {
        Rt::PrintInt => if args.len() == 1 {
            Some(dec_int_text(signed(args[0])))
        } else {
            None
        },
        Rt::PrintUint => if args.len() == 1 {
            Some(dec_text(args[0] as nat))
        } else {
            None
        },
        Rt::PrintFloat => if args.len() == 1 {
            Some(float_text(args[0]))
        } else {
            None
        },
        Rt::PrintBool => if args.len() == 1 {
            Some(
                if args[0] != 0 {
                    "true"@
                } else {
                    "false"@
                },
            )
        } else {
            None
        },
        Rt::PrintNewline => if args.len() == 0 {
            Some("\n"@)
        } else {
            None
        },
        _ => None,
    }
}

/// The place where a block's instructions start.
pub open spec fn start_from(ops: Seq<Op>, b: usize, from: nat) -> Option<int>
    decreases ops.len() - from,
{
    if from >= ops.len() {
        None
    } else if ops[from as int] == Op::SwitchTo(b) {
        Some(from as int)
    } else {
        start_from(ops, b, from + 1)
    }
}

pub open spec fn give(m: Machine, v: u64) -> Option<End> {
    Some(End::At(Machine { at: m.at + 1, vals: m.vals.insert(m.at, v), ..m }))
}

pub open spec fn give_opt(m: Machine, v: Option<u64>) -> Option<End> {
    match v {
        Some(v) => give(m, v),
        None => None,
    }
}

pub open spec fn go_on(m: Machine) -> Option<End> {
    Some(End::At(Machine { at: m.at + 1, ..m }))
}

/// Go to a block, handing it a value if there is one.
pub open spec fn go_to(ops: Seq<Op>, m: Machine, b: usize, v: Option<u64>) -> Option<End> {
    match start_from(ops, b, 0) {
        None => None,
        Some(j) => Some(
            End::At(
                Machine {
                    at: j,
                    vals: match v {
                        Some(v) => m.vals.insert(b as int, v),
                        None => m.vals,
                    },
                    ..m
                },
            ),
        ),
    }
}

/// The address that a place and an offset make.
pub open spec fn address(m: Machine, a: usize, off: i32) -> int {
    word(m.vals[a as int] + off) as int
}

/// The lowest `n` bytes of a value go to an address.
pub open spec fn put_word(m: Machine, a: int, n: nat, v: usize) -> Option<End> {
    let mem = store(m.world.mem, a, n, m.vals[v as int] as nat);
    Some(End::At(Machine { at: m.at + 1, world: World { mem, ..m.world }, ..m }))
}

/// What a function of the runtime comes to. None of those that this machine
/// does not have, nor one that finds no memory left.
#[verifier::opaque]
pub open spec fn runtime(layout: Layout, rt: Rt, args: Seq<u64>, w: World) -> Called {
    let n = args.len();
    match rt {
        // A collection keeps what the program can see.
        Rt::GcCollect => Called::Done(None, w),
        Rt::Alloc => if n == 2 {
            made(new_object(w, (layout.size)(args[0]), args[1] as nat))
        } else {
            Called::Unfinished
        },
        Rt::WriteRef => if n == 3 {
            Called::Done(
                None,
                World { mem: store(w.mem, args[1] as int, 8, args[2] as nat), ..w },
            )
        } else {
            Called::Unfinished
        },
        Rt::StrConcat => if n == 2 {
            made(new_text(w, text_at(w, args[0] as int) + text_at(w, args[1] as int)))
        } else {
            Called::Unfinished
        },
        Rt::StrEq => if n == 2 {
            Called::Done(
                Some(truth(text_at(w, args[0] as int) == text_at(w, args[1] as int))),
                w,
            )
        } else {
            Called::Unfinished
        },
        Rt::Itos => if n == 1 {
            made(new_text(w, ascii(dec_int_text(signed(args[0])))))
        } else {
            Called::Unfinished
        },
        Rt::Utos => if n == 1 {
            made(new_text(w, ascii(dec_text(args[0] as nat))))
        } else {
            Called::Unfinished
        },
        Rt::Stoi => if n == 2 {
            match int_in(text_at(w, args[0] as int)) {
                Some(v) => Called::Done(Some(word(v)), w),
                None => Called::Panic(Rt::Stoi, args[1] as u32, w),
            }
        } else {
            Called::Unfinished
        },
        Rt::Ftos => if n == 1 {
            made(new_text(w, ascii(float_text(args[0]))))
        } else {
            Called::Unfinished
        },
        Rt::Stof => if n == 2 {
            match float_in(text_at(w, args[0] as int)) {
                Some(v) => Called::Done(Some(v), w),
                None => Called::Panic(Rt::Stof, args[1] as u32, w),
            }
        } else {
            Called::Unfinished
        },
        Rt::Stob => if n == 1 {
            made(new_bytes(w, text_at(w, args[0] as int)))
        } else {
            Called::Unfinished
        },
        Rt::Btos => if n == 2 {
            let bytes = bytes_at(w, args[0] as int);
            if shown_text(bytes) is Some {
                made(new_text(w, bytes))
            } else {
                Called::Panic(Rt::Btos, args[1] as u32, w)
            }
        } else {
            Called::Unfinished
        },
        Rt::ArrayNew => if n == 3 {
            made(new_array(w, args[0] as nat, args[2] as nat))
        } else {
            Called::Unfinished
        },
        Rt::ArrayPush => if n == 4 {
            match pushed(w, args[0] as int, args[1], args[2] as nat) {
                Some(w1) => Called::Done(None, w1),
                None => Called::Unfinished,
            }
        } else {
            Called::Unfinished
        },
        Rt::ArrayPop => if n == 3 {
            match popped(w, args[0] as int, args[1] as nat) {
                Some((x, w1)) => Called::Done(Some(x), w1),
                None => Called::Panic(Rt::ArrayPop, args[2] as u32, w),
            }
        } else {
            Called::Unfinished
        },
        Rt::PrintStr => if n == 1 {
            match shown_text(text_at(w, args[0] as int)) {
                Some(text) => Called::Done(None, w.print(text)),
                None => Called::Unfinished,
            }
        } else {
            Called::Unfinished
        },
        _ => match printed(rt, args) {
            Some(text) => Called::Done(None, w.print(text)),
            None => Called::Unfinished,
        },
    }
}

/// A new object is given.
pub open spec fn made(r: Option<(int, World)>) -> Called {
    match r {
        Some((a, w)) => Called::Done(Some(word(a)), w),
        None => Called::Unfinished,
    }
}

/// The machine goes on behind a call that came to this.
pub open spec fn behind(m: Machine, c: Called) -> Option<End> {
    match c {
        Called::Done(Some(v), world) => Some(
            End::At(
                Machine {
                    at: m.at + 1,
                    vals: m.vals.insert(m.at, v),
                    args: Seq::empty(),
                    world,
                    ..m
                },
            ),
        ),
        Called::Done(None, world) => Some(
            End::At(Machine { at: m.at + 1, args: Seq::empty(), world, ..m }),
        ),
        Called::Panic(rt, line, world) => Some(End::Panic(rt, line, world)),
        Called::Unfinished => None,
    }
}

/// One instruction; `None` where it traps or is none of this machine's.
pub open spec fn step(ops: Seq<Op>, m: Machine) -> Option<End> {
    if !(0 <= m.at < ops.len()) {
        None
    } else {
        match ops[m.at] {
            Op::Param(i) => give(m, m.vals[-1 - i as int]),
            Op::Iconst(v) => give(m, word(v as int)),
            Op::UseVar(i) => give(m, m.vars[i as int]),
            Op::DefVar(i, v) => Some(
                End::At(
                    Machine {
                        at: m.at + 1,
                        vars: m.vars.insert(i as int, m.vals[v as int]),
                        ..m
                    },
                ),
            ),
            Op::Int(op, a, b) => give_opt(m, int_result(op, m.vals[a as int], m.vals[b as int])),
            Op::IntImm(op, a, b) => give_opt(
                m,
                int_result(op, m.vals[a as int], word(b as int)),
            ),
            Op::Compare(cc, a, b) => give(
                m,
                truth(compare_result(cc, m.vals[a as int], m.vals[b as int])),
            ),
            Op::CompareImm(cc, a, b) => give(
                m,
                truth(compare_result(cc, m.vals[a as int], word(b as int))),
            ),
            Op::Fconst(i) => give(m, float_of_text(m.around.floats[i as int])),
            Op::FconstInt(v) => give(m, nearest_float(v as int)),
            Op::Float(op, a, b) => give(
                m,
                float_result(op, m.vals[a as int], m.vals[b as int]),
            ),
            Op::CompareFloat(cc, a, b) => give(
                m,
                truth(float_compare(cc, m.vals[a as int], m.vals[b as int])),
            ),
            Op::Unary(op, a) => give_opt(
                m,
                unary_result(op, m.vals[a as int], narrow_bits(ops[a as int])),
            ),
            Op::Flagged(op, a, b) => give(
                m,
                word(flag_exact(op, m.vals[a as int], m.vals[b as int])),
            ),
            Op::Flag(a) => match ops[a as int] {
                Op::Flagged(op, x, y) => give(
                    m,
                    truth(overflows(op, m.vals[x as int], m.vals[y as int])),
                ),
                _ => None,
            },
            Op::Block => go_on(m),
            Op::BlockOf(_) => go_on(m),
            Op::SwitchTo(_) => go_on(m),
            Op::BlockParam(b) => give(m, m.vals[b as int]),
            Op::Jump(b) => go_to(ops, m, b, None),
            Op::JumpWith(b, v) => go_to(ops, m, b, Some(m.vals[v as int])),
            Op::Brif(c, a, b) => go_to(
                ops,
                m,
                if m.vals[c as int] != 0 {
                    a
                } else {
                    b
                },
                None,
            ),
            Op::BrifWith(c, a, v, b) => if m.vals[c as int] != 0 {
                go_to(ops, m, a, Some(m.vals[v as int]))
            } else {
                go_to(ops, m, b, None)
            },
            Op::BrifElseWith(c, a, b, v) => if m.vals[c as int] != 0 {
                go_to(ops, m, a, None)
            } else {
                go_to(ops, m, b, Some(m.vals[v as int]))
            },
            Op::PanicIf(c, rt, line) => if m.vals[c as int] != 0 {
                Some(End::Panic(rt, line, m.world))
            } else {
                go_on(m)
            },
            Op::PanicUnless(c, rt, line) => if m.vals[c as int] == 0 {
                Some(End::Panic(rt, line, m.world))
            } else {
                go_on(m)
            },
            Op::StackLimitAddr => give(m, 0),
            Op::Load(t, a, off) => give(
                m,
                fetch(m.world.mem, address(m, a, off), load_size(t)) as u64,
            ),
            Op::DataAddr(id) => give(m, standing(m.around.layout, m.around.datas[id as int])),
            Op::FuncAddr(f) => give(m, (m.around.layout.code)(f)),
            Op::Store(v, a, off) => put_word(m, address(m, a, off), 8, v),
            Op::Store8(v, a, off) => put_word(m, address(m, a, off), 1, v),
            Op::Store16(v, a, off) => put_word(m, address(m, a, off), 2, v),
            Op::Store32(v, a, off) => put_word(m, address(m, a, off), 4, v),
            // What the collector tracks is no concern of the program's.
            Op::Root(_) => go_on(m),
            Op::BoundsCheck(i, n, line) => if m.vals[i as int] >= m.vals[n as int] {
                Some(End::Panic(Rt::PanicBounds, line, m.world))
            } else {
                go_on(m)
            },
            Op::StackPointer => give(m, m.around.sp),
            Op::Arg(a) => Some(
                End::At(Machine { at: m.at + 1, args: m.args.push(m.vals[a as int]), ..m }),
            ),
            Op::Call(f) => behind(m, (m.around.calls)(f, m.args, m.world)),
            Op::CallIndirect(_, a) => behind(
                m,
                (m.around.calls)((m.around.layout.symbol)(m.vals[a as int]), m.args, m.world),
            ),
            Op::CallRt(rt) => behind(m, runtime(m.around.layout, rt, m.args, m.world)),
            Op::Return => Some(End::Return(None, m.world)),
            Op::ReturnValue(v) => Some(End::Return(Some(m.vals[v as int]), m.world)),
            _ => None,
        }
    }
}

pub open spec fn run(ops: Seq<Op>, m: Machine, n: nat) -> Option<End>
    decreases n,
{
    if n == 0 {
        Some(End::At(m))
    } else {
        match step(ops, m) {
            Some(End::At(m1)) => run(ops, m1, (n - 1) as nat),
            other => other,
        }
    }
}

/// Does the machine come to this end?
pub open spec fn leads(ops: Seq<Op>, m: Machine, e: End) -> bool {
    exists|n: nat| #[trigger] run(ops, m, n) == Some(e)
}

// -- The language -----------------------------------------------------------

/// What an operator gives: a value, or a panic.
pub enum Outcome {
    Value(int),
    Panic(Rt),
}

/// The value if the kind holds it, or else an overflow.
pub open spec fn checked(k: IntKind, x: int) -> Outcome {
    if k.holds(x) {
        Outcome::Value(x)
    } else {
        Outcome::Panic(Rt::PanicOverflow)
    }
}

/// The value of a kind that equals `x` up to a multiple of the kind's size.
pub open spec fn wrapped(k: IntKind, x: int) -> int {
    let size = pow2(k.width() as nat) as int;
    let low = x % size;
    if low > k.highest() {
        low - size
    } else {
        low
    }
}

/// An integer operator on values of a kind; `None` for operators that are
/// none.
pub open spec fn operate(op: BinOp, k: IntKind, a: int, b: int) -> Option<Outcome> {
    match op {
        BinOp::Add => Some(checked(k, a + b)),
        BinOp::Sub => Some(checked(k, a - b)),
        BinOp::Mul => Some(checked(k, a * b)),
        BinOp::Div => if b == 0 {
            Some(Outcome::Panic(Rt::PanicDiv))
        } else {
            Some(checked(k, quotient(a, b)))
        },
        BinOp::Rem => if b == 0 {
            Some(Outcome::Panic(Rt::PanicDiv))
        } else {
            Some(Outcome::Value(remainder(a, b)))
        },
        BinOp::BitAnd => Some(Outcome::Value(decode(k, word(a) & word(b)))),
        BinOp::BitOr => Some(Outcome::Value(decode(k, word(a) | word(b)))),
        BinOp::BitXor => Some(Outcome::Value(decode(k, word(a) ^ word(b)))),
        BinOp::Shl => if 0 <= b < k.width() {
            Some(Outcome::Value(wrapped(k, a * pow2(b as nat))))
        } else {
            Some(Outcome::Panic(Rt::PanicShift))
        },
        BinOp::Shr => if 0 <= b < k.width() {
            Some(Outcome::Value(a / pow2(b as nat) as int))
        } else {
            Some(Outcome::Panic(Rt::PanicShift))
        },
        _ => None,
    }
}

/// A comparison of values of one kind.
pub open spec fn compares(op: BinOp, a: int, b: int) -> bool {
    match op {
        BinOp::Eq => a == b,
        BinOp::Ne => a != b,
        BinOp::Lt => a < b,
        BinOp::Le => a <= b,
        BinOp::Gt => a > b,
        _ => a >= b,
    }
}

/// A unary operator on a value of a kind.
pub open spec fn operate_one(op: UnOp, k: IntKind, a: int) -> Option<Outcome> {
    match op {
        UnOp::Neg => Some(checked(k, -a)),
        UnOp::BitNot => Some(
            Outcome::Value(
                if k.is_signed() {
                    -a - 1
                } else {
                    k.highest() - a
                },
            ),
        ),
        UnOp::Not => None,
    }
}

/// A value taken to another kind.
pub open spec fn converted(d: IntKind, a: int) -> Outcome {
    if d.holds(a) {
        Outcome::Value(a)
    } else {
        Outcome::Panic(Rt::PanicCast)
    }
}

} // verus!
