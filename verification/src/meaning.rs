//! What lowered code computes: the instructions for an integer operator give
//! what the operator means, and panic where it does.
use vstd::arithmetic::power2::pow2;
use vstd::prelude::*;

use crate::ast::{BinOp, UnOp};
use crate::ir::{well_formed, IntCC, IntOp, IrType, Op, Rt, Scope, UnaryOp};
use crate::lower::{
    cast_int, check_overflow, checked_arith, compare, covers, divide, divide_signed, flag_op,
    int_arith, int_cc, is_comparison, next, plain_op, put, reduce_op, shift, unary_value, LowView,
};
use crate::machine::{
    checked, compare_result, compares, converted, decode, flag_exact, int_result, leads, modulus,
    operate, operate_one, overflows, quotient, remainder, run, signed, start_from, step, truth,
    unary_result, word, wrapped, End, Machine, Outcome,
};
use crate::types::{IntKind, TypeView};

verus! {

// -- Running pieces of a body -----------------------------------------------

/// Is the code written so far the beginning of the body?
pub open spec fn begins(ops: Seq<Op>, st: LowView) -> bool {
    st.f.ops.len() <= ops.len() && forall|i: int|
        0 <= i < st.f.ops.len() ==> #[trigger] ops[i] == st.f.ops[i]
}

/// May the body be run: does every instruction refer to earlier ones?
pub open spec fn runnable(ops: Seq<Op>) -> bool {
    ops.len() <= usize::MAX && exists|sc: Scope| well_formed(ops, sc)
}

/// What came before a place is as it was.
pub open spec fn kept(new: Machine, old: Machine, below: int) -> bool {
    &&& new.vars == old.vars
    &&& new.args == old.args
    &&& new.world == old.world
    &&& new.around == old.around
    &&& forall|i: int| 0 <= i < below ==> #[trigger] new.vals[i] == old.vals[i]
}

/// The machine, about to run the code that `end` adds to `st`, comes to the
/// outcome: it panics at the line, or goes on behind that code with the
/// outcome's value at place `v`.
pub open spec fn yields(
    ops: Seq<Op>,
    m: Machine,
    st: LowView,
    end: LowView,
    v: usize,
    out: Outcome,
    line: u32,
) -> bool {
    match out {
        Outcome::Panic(rt) => leads(ops, m, End::Panic(rt, line, m.world)),
        Outcome::Value(x) => exists|m2: Machine| #[trigger]
            leads(ops, m, End::At(m2)) && m2.at == end.f.ops.len() && m2.vals[v as int] == word(x)
                && kept(m2, m, st.f.ops.len() as int),
    }
}

/// Is the machine about to run the code behind `st`?
pub open spec fn ready(ops: Seq<Op>, m: Machine, st: LowView) -> bool {
    m.at == st.f.ops.len()
}

pub proof fn lemma_run_more(ops: Seq<Op>, m: Machine, n: nat, mid: Machine, k: nat, e: End)
    requires
        run(ops, m, n) == Some(End::At(mid)),
        run(ops, mid, k) == Some(e),
    ensures
        run(ops, m, n + k) == Some(e),
    decreases n,
{
    if n > 0 {
        match step(ops, m) {
            Some(End::At(m1)) => lemma_run_more(ops, m1, (n - 1) as nat, mid, k, e),
            _ => {},
        }
    }
}

pub proof fn lemma_leads_on(ops: Seq<Op>, m: Machine, mid: Machine, e: End)
    requires
        leads(ops, m, End::At(mid)),
        leads(ops, mid, e),
    ensures
        leads(ops, m, e),
{
    let n = choose|n: nat| #[trigger] run(ops, m, n) == Some(End::At(mid));
    let k = choose|k: nat| #[trigger] run(ops, mid, k) == Some(e);
    lemma_run_more(ops, m, n, mid, k, e);
}

pub proof fn lemma_leads_step(ops: Seq<Op>, m: Machine, e: End)
    requires
        step(ops, m) == Some(e),
    ensures
        leads(ops, m, e),
{
    reveal_with_fuel(run, 2);
    match e {
        End::At(m1) => {
            assert(run(ops, m1, 0) == Some(e));
        },
        _ => {},
    }
    assert(run(ops, m, 1) == Some(e));
}

/// One step to a machine, and on from there.
pub proof fn lemma_step_then(ops: Seq<Op>, m: Machine, m1: Machine, e: End)
    requires
        step(ops, m) == Some(End::At(m1)),
        leads(ops, m1, e),
    ensures
        leads(ops, m, e),
{
    lemma_leads_step(ops, m, End::At(m1));
    lemma_leads_on(ops, m, m1, e);
}

pub proof fn lemma_leads_here(ops: Seq<Op>, m: Machine)
    ensures
        leads(ops, m, End::At(m)),
{
    assert(run(ops, m, 0) == Some(End::At(m)));
}

// -- Words ------------------------------------------------------------------

/// A value of a kind is what its word decodes to.
pub proof fn law_word_round_trip(k: IntKind, x: int)
    requires
        k.holds(x),
    ensures
        decode(k, word(x)) == x,
{
    lemma_word(x);
}

/// The word of an integer near zero.
pub proof fn lemma_word(x: int)
    requires
        -0x8000_0000_0000_0000 <= x <= 0xffff_ffff_ffff_ffff,
    ensures
        x >= 0 ==> word(x) == x,
        x < 0 ==> word(x) == x + modulus(),
        x <= 0x7fff_ffff_ffff_ffff ==> signed(word(x)) == x,
{
    if x < 0 {
        assert(x % modulus() == x + modulus());
    }
}

/// Words only see integers up to multiples of the modulus.
proof fn lemma_word_congruent(x: int, y: int, j: int)
    requires
        x == y + j * modulus(),
    ensures
        word(x) == word(y),
{
    vstd::arithmetic::div_mod::lemma_mod_multiples_vanish(j, y, modulus());
    assert(modulus() * j + y == x) by (nonlinear_arith)
        requires
            x == y + j * modulus(),
    ;
}

/// How far an integer in range is from its word.
spec fn lift(x: int) -> int {
    if x < 0 {
        1
    } else {
        0
    }
}

proof fn lemma_word_sum(a: int, b: int)
    requires
        -0x8000_0000_0000_0000 <= a <= 0xffff_ffff_ffff_ffff,
        -0x8000_0000_0000_0000 <= b <= 0xffff_ffff_ffff_ffff,
    ensures
        word(word(a) + word(b)) == word(a + b),
        word(word(a) - word(b)) == word(a - b),
{
    lemma_word(a);
    lemma_word(b);
    lemma_word_congruent(word(a) + word(b), a + b, lift(a) + lift(b));
    lemma_word_congruent(word(a) - word(b), a - b, lift(a) - lift(b));
}

proof fn lemma_word_product(a: int, b: int)
    requires
        -0x8000_0000_0000_0000 <= a <= 0xffff_ffff_ffff_ffff,
        -0x8000_0000_0000_0000 <= b <= 0xffff_ffff_ffff_ffff,
    ensures
        word(word(a) * word(b)) == word(a * b),
{
    lemma_word(a);
    lemma_word(b);
    let (i, j, m) = (lift(a), lift(b), modulus());
    let c = a * j + i * b + i * j * m;
    assert(word(a) * word(b) == a * b + c * m) by {
        if i == 0 && j == 0 {
        } else if i == 0 {
            assert(a * (b + m) == a * b + a * m) by (nonlinear_arith);
        } else if j == 0 {
            assert((a + m) * b == a * b + b * m) by (nonlinear_arith);
        } else {
            assert((a + m) * (b + m) == a * b + (a + b + m) * m) by (nonlinear_arith);
        }
    }
    lemma_word_congruent(word(a) * word(b), a * b, c);
}

// -- Checked arithmetic -----------------------------------------------------

/// Full-width arithmetic: the overflow flag, then the panic.
proof fn lemma_checked_wide(
    ops: Seq<Op>,
    m: Machine,
    st: LowView,
    op: BinOp,
    k: IntKind,
    l: usize,
    r: usize,
    line: u32,
    a: int,
    b: int,
)
    requires
        k.width() == 64,
        op is Add || op is Sub || op is Mul,
        begins(ops, checked_arith(st, op, k, l, r, line).0),
        ops.len() <= usize::MAX,
        ready(ops, m, st),
        l < st.f.ops.len(),
        r < st.f.ops.len(),
        k.holds(a),
        k.holds(b),
        m.vals[l as int] == word(a),
        m.vals[r as int] == word(b),
    ensures
        yields(
            ops,
            m,
            st,
            checked_arith(st, op, k, l, r, line).0,
            checked_arith(st, op, k, l, r, line).1,
            operate(op, k, a, b)->0,
            line,
        ),
{
    reveal(checked_arith);
    lemma_word(a);
    lemma_word(b);
    let f = flag_op(op, k.is_signed());
    let (s, v) = checked_arith(st, op, k, l, r, line);
    let n = st.f.ops.len() as int;
    assert(s.f.ops[n] == Op::Flagged(f, l, r));
    assert(s.f.ops[n + 1] == Op::Flag(n as usize));
    assert(s.f.ops[n + 2] == Op::PanicIf((n + 1) as usize, Rt::PanicOverflow, line));
    assert(ops[n] == s.f.ops[n] && ops[n + 1] == s.f.ops[n + 1] && ops[n + 2] == s.f.ops[n + 2]);
    let x = flag_exact(f, word(a), word(b));
    let m1 = Machine { at: n + 1, vals: m.vals.insert(n, word(x)), ..m };
    let over = truth(overflows(f, word(a), word(b)));
    let m2 = Machine { at: n + 2, vals: m1.vals.insert(n + 1, over), ..m };
    assert(step(ops, m) == Some(End::At(m1)));
    assert(step(ops, m1) == Some(End::At(m2)));
    if overflows(f, word(a), word(b)) {
        lemma_leads_step(ops, m2, End::Panic(Rt::PanicOverflow, line, m.world));
        lemma_step_then(ops, m1, m2, End::Panic(Rt::PanicOverflow, line, m.world));
        lemma_step_then(ops, m, m1, End::Panic(Rt::PanicOverflow, line, m.world));
    } else {
        let m3 = Machine { at: n + 3, ..m2 };
        lemma_leads_step(ops, m2, End::At(m3));
        lemma_step_then(ops, m1, m2, End::At(m3));
        lemma_step_then(ops, m, m1, End::At(m3));
    }
}

/// The range check behind narrow arithmetic: the word at `v` holds an integer
/// that fits 64 bits in one of the two readings.
proof fn lemma_check_overflow(
    ops: Seq<Op>,
    m: Machine,
    st: LowView,
    k: IntKind,
    v: usize,
    line: u32,
    x: int,
)
    requires
        k.width() < 64,
        begins(ops, check_overflow(st, k, v, line)),
        ops.len() <= usize::MAX,
        ready(ops, m, st),
        v < st.f.ops.len(),
        -0x8000_0000_0000_0000 <= x <= 0xffff_ffff_ffff_ffff,
        k.is_signed() ==> x <= 0x7fff_ffff_ffff_ffff,
        m.vals[v as int] == word(x),
    ensures
        if k.holds(x) {
            exists|m2: Machine| #[trigger]
                leads(ops, m, End::At(m2)) && m2.at == check_overflow(
                    st,
                    k,
                    v,
                    line,
                ).f.ops.len() && kept(m2, m, st.f.ops.len() as int)
        } else {
            leads(ops, m, End::Panic(Rt::PanicOverflow, line, m.world))
        },
{
    reveal(check_overflow);
    lemma_word(x);
    lemma_word(k.lowest());
    lemma_word(k.highest());
    let s = check_overflow(st, k, v, line);
    let n = st.f.ops.len() as int;
    assert(s.f.ops[n] == Op::CompareImm(IntCC::SignedLessThan, v, k.lowest() as i64));
    assert(s.f.ops[n + 1] == Op::CompareImm(IntCC::SignedGreaterThan, v, k.highest() as i64));
    assert(s.f.ops[n + 2] == Op::Int(IntOp::Or, n as usize, (n + 1) as usize));
    assert(s.f.ops[n + 3] == Op::PanicIf((n + 2) as usize, Rt::PanicOverflow, line));
    assert(ops[n] == s.f.ops[n] && ops[n + 1] == s.f.ops[n + 1] && ops[n + 2] == s.f.ops[n + 2]
        && ops[n + 3] == s.f.ops[n + 3]);
    let below = signed(word(x)) < k.lowest();
    let above = signed(word(x)) > k.highest();
    let m1 = Machine { at: n + 1, vals: m.vals.insert(n, truth(below)), ..m };
    let m2 = Machine { at: n + 2, vals: m1.vals.insert(n + 1, truth(above)), ..m };
    let both = truth(below) | truth(above);
    let m3 = Machine { at: n + 3, vals: m2.vals.insert(n + 2, both), ..m };
    assert(both == truth(below || above)) by {
        assert(0u64 | 0u64 == 0 && 0u64 | 1u64 == 1 && 1u64 | 0u64 == 1 && 1u64 | 1u64 == 1)
            by (bit_vector);
    }
    assert(step(ops, m) == Some(End::At(m1)));
    assert(step(ops, m1) == Some(End::At(m2)));
    assert(step(ops, m2) == Some(End::At(m3)));
    if below || above {
        assert(!k.holds(x));
        let e = End::Panic(Rt::PanicOverflow, line, m.world);
        lemma_leads_step(ops, m3, e);
        lemma_step_then(ops, m2, m3, e);
        lemma_step_then(ops, m1, m2, e);
        lemma_step_then(ops, m, m1, e);
    } else {
        assert(k.holds(x));
        let m4 = Machine { at: n + 4, ..m3 };
        let e = End::At(m4);
        lemma_leads_step(ops, m3, e);
        lemma_step_then(ops, m2, m3, e);
        lemma_step_then(ops, m1, m2, e);
        lemma_step_then(ops, m, m1, e);
        assert(kept(m4, m, n));
    }
}

proof fn lemma_narrow_exact(k: IntKind, op: BinOp, a: int, b: int)
    requires
        k.width() < 64,
        k.holds(a),
        k.holds(b),
        op is Add || op is Sub || op is Mul,
    ensures
        ({
            let x = if op is Add {
                a + b
            } else if op is Sub {
                a - b
            } else {
                a * b
            };
            &&& -0x8000_0000_0000_0000 <= x <= 0xffff_ffff_ffff_ffff
            &&& k.is_signed() ==> x <= 0x7fff_ffff_ffff_ffff
            &&& operate(op, k, a, b) == Some(checked(k, x))
            &&& int_result(plain_op(op), word(a), word(b)) == Some(word(x))
        }),
{
    lemma_word_sum(a, b);
    lemma_word_product(a, b);
    let h: int = 0xffff_ffff;
    assert(-0x8000_0000_0000_0000 <= a * b <= 0xffff_ffff_ffff_ffff && (k.is_signed() ==> a * b
        <= 0x7fff_ffff_ffff_ffff)) by {
        if k.is_signed() {
            assert(-0x8000_0000 * 0x8000_0000 <= a * b <= 0x8000_0000 * 0x8000_0000)
                by (nonlinear_arith)
                requires
                    -0x8000_0000 <= a <= 0x8000_0000,
                    -0x8000_0000 <= b <= 0x8000_0000,
            ;
        } else {
            assert(0 <= a * b <= h * h) by (nonlinear_arith)
                requires
                    0 <= a <= h,
                    0 <= b <= h,
            ;
        }
    }
}

/// Addition, subtraction and multiplication panic exactly if the kind does
/// not hold the result, and give it otherwise.
pub proof fn law_checked_arith(
    ops: Seq<Op>,
    m: Machine,
    st: LowView,
    op: BinOp,
    k: IntKind,
    l: usize,
    r: usize,
    line: u32,
    a: int,
    b: int,
)
    requires
        op is Add || op is Sub || op is Mul,
        begins(ops, checked_arith(st, op, k, l, r, line).0),
        ops.len() <= usize::MAX,
        ready(ops, m, st),
        l < st.f.ops.len(),
        r < st.f.ops.len(),
        k.holds(a),
        k.holds(b),
        m.vals[l as int] == word(a),
        m.vals[r as int] == word(b),
    ensures
        yields(
            ops,
            m,
            st,
            checked_arith(st, op, k, l, r, line).0,
            checked_arith(st, op, k, l, r, line).1,
            operate(op, k, a, b)->0,
            line,
        ),
{
    if k.width() == 64 {
        lemma_checked_wide(ops, m, st, op, k, l, r, line, a, b);
    } else {
        reveal(checked_arith);
        lemma_narrow_exact(k, op, a, b);
        let x = if op is Add {
            a + b
        } else if op is Sub {
            a - b
        } else {
            a * b
        };
        let n = st.f.ops.len() as int;
        let s1 = put(st, Op::Int(plain_op(op), l, r));
        let (s, v) = checked_arith(st, op, k, l, r, line);
        assert(s == check_overflow(s1, k, n as usize, line));
        assert(s.f.ops.len() == n + 5 && s.f.ops[n] == Op::Int(plain_op(op), l, r)) by {
            reveal(check_overflow);
        }
        assert(ops[n] == s.f.ops[n]);
        let m1 = Machine { at: n + 1, vals: m.vals.insert(n, word(x)), ..m };
        assert(step(ops, m) == Some(End::At(m1)));
        lemma_check_overflow(ops, m1, s1, k, n as usize, line, x);
        if k.holds(x) {
            let m2 = choose|m2: Machine| #[trigger]
                leads(ops, m1, End::At(m2)) && m2.at == s.f.ops.len() && kept(m2, m1, n + 1);
            lemma_step_then(ops, m, m1, End::At(m2));
            assert(m2.vals[n] == m1.vals[n]);
            assert(kept(m2, m, n)) by {
                assert forall|i: int| 0 <= i < n implies #[trigger] m2.vals[i] == m.vals[i] by {
                    assert(m2.vals[i] == m1.vals[i]);
                }
            }
        } else {
            lemma_step_then(ops, m, m1, End::Panic(Rt::PanicOverflow, line, m.world));
        }
    }
}


// -- Bitwise operators ------------------------------------------------------

proof fn lemma_word_of_decoded(k: IntKind, w: u64)
    ensures
        word(decode(k, w)) == w,
{
    if k.is_signed() && w >= 0x8000_0000_0000_0000 {
        lemma_word(w - modulus());
    }
}

/// The bitwise operators work on all bits at once.
pub proof fn law_bitwise(
    ops: Seq<Op>,
    m: Machine,
    st: LowView,
    op: BinOp,
    k: IntKind,
    l: usize,
    r: usize,
    line: u32,
    a: int,
    b: int,
)
    requires
        op is BitAnd || op is BitOr || op is BitXor,
        begins(ops, int_arith(st, op, k, l, r, line)->Ok_0.0),
        ops.len() <= usize::MAX,
        ready(ops, m, st),
        m.vals[l as int] == word(a),
        m.vals[r as int] == word(b),
    ensures
        yields(
            ops,
            m,
            st,
            int_arith(st, op, k, l, r, line)->Ok_0.0,
            int_arith(st, op, k, l, r, line)->Ok_0.1,
            operate(op, k, a, b)->0,
            line,
        ),
{
    reveal(int_arith);
    let n = st.f.ops.len() as int;
    let s = put(st, Op::Int(plain_op(op), l, r));
    assert(s.f.ops[n] == Op::Int(plain_op(op), l, r));
    assert(ops[n] == s.f.ops[n]);
    let w = int_result(plain_op(op), word(a), word(b))->0;
    lemma_word_of_decoded(k, w);
    let m1 = Machine { at: n + 1, vals: m.vals.insert(n, w), ..m };
    assert(step(ops, m) == Some(End::At(m1)));
    lemma_leads_step(ops, m, End::At(m1));
    assert(kept(m1, m, n));
}

// -- Shifts -----------------------------------------------------------------

/// The start of a shift: the amount must be below the width.
proof fn lemma_shift_check(
    ops: Seq<Op>,
    m: Machine,
    st: LowView,
    k: IntKind,
    r: usize,
    line: u32,
    b: int,
) -> (m2: Machine)
    requires
        ops.len() >= st.f.ops.len() + 2,
        ops.len() <= usize::MAX,
        ops[st.f.ops.len() as int] == Op::CompareImm(
            IntCC::UnsignedGreaterThanOrEqual,
            r,
            k.width() as i64,
        ),
        ops[st.f.ops.len() as int + 1] == Op::PanicIf(
            st.f.ops.len() as usize,
            Rt::PanicShift,
            line,
        ),
        ready(ops, m, st),
        k.holds(b),
        m.vals[r as int] == word(b),
    ensures
        0 <= b < k.width() ==> leads(ops, m, End::At(m2)) && m2.at == m.at + 2 && kept(m2, m, m.at),
        !(0 <= b < k.width()) ==> leads(ops, m, End::Panic(Rt::PanicShift, line, m.world)),
{
    lemma_word(b);
    lemma_word(k.width() as int);
    let n = m.at;
    let far = word(b) >= k.width();
    let m1 = Machine { at: n + 1, vals: m.vals.insert(n, truth(far)), ..m };
    let m2 = Machine { at: n + 2, ..m1 };
    assert(step(ops, m) == Some(End::At(m1)));
    if far {
        lemma_leads_step(ops, m1, End::Panic(Rt::PanicShift, line, m.world));
        lemma_step_then(ops, m, m1, End::Panic(Rt::PanicShift, line, m.world));
    } else {
        lemma_leads_step(ops, m1, End::At(m2));
        lemma_step_then(ops, m, m1, End::At(m2));
    }
    m2
}

/// Shifting right divides by a power of two, rounding down.
proof fn lemma_shift_right(
    ops: Seq<Op>,
    m: Machine,
    st: LowView,
    k: IntKind,
    l: usize,
    r: usize,
    line: u32,
    a: int,
    b: int,
)
    requires
        begins(ops, shift(st, BinOp::Shr, k, l, r, line).0),
        ops.len() <= usize::MAX,
        ready(ops, m, st),
        l < st.f.ops.len(),
        r < st.f.ops.len(),
        k.holds(a),
        k.holds(b),
        m.vals[l as int] == word(a),
        m.vals[r as int] == word(b),
    ensures
        yields(
            ops,
            m,
            st,
            shift(st, BinOp::Shr, k, l, r, line).0,
            shift(st, BinOp::Shr, k, l, r, line).1,
            operate(BinOp::Shr, k, a, b)->0,
            line,
        ),
{
    reveal(shift);
    let (s, v) = shift(st, BinOp::Shr, k, l, r, line);
    let n = st.f.ops.len() as int;
    let op = if k.is_signed() {
        IntOp::Sshr
    } else {
        IntOp::Ushr
    };
    assert(s.f.ops[n + 2] == Op::Int(op, l, r));
    assert(ops[n] == s.f.ops[n] && ops[n + 1] == s.f.ops[n + 1] && ops[n + 2] == s.f.ops[n + 2]);
    let m2 = lemma_shift_check(ops, m, st, k, r, line, b);
    if 0 <= b < k.width() {
        lemma_word(a);
        lemma_word(b);
        let x = a / pow2(b as nat) as int;
        let m3 = Machine { at: n + 3, vals: m2.vals.insert(n + 2, word(x)), ..m };
        assert(m2.vals[l as int] == m.vals[l as int]);
        assert(m2.vals[r as int] == m.vals[r as int]);
        assert(int_result(op, word(a), word(b)) == Some(word(x)));
        assert(step(ops, m2) == Some(End::At(m3)));
        lemma_leads_step(ops, m2, End::At(m3));
        lemma_leads_on(ops, m, m2, End::At(m3));
        assert(kept(m3, m, n)) by {
            assert forall|i: int| 0 <= i < n implies #[trigger] m3.vals[i] == m.vals[i] by {
                assert(m2.vals[i] == m.vals[i]);
            }
        }
    }
}

proof fn lemma_sizes()
    ensures
        pow2(7) == 0x80,
        pow2(8) == 0x100,
        pow2(15) == 0x8000,
        pow2(16) == 0x1_0000,
        pow2(31) == 0x8000_0000,
        pow2(32) == 0x1_0000_0000,
        pow2(64) == modulus(),
{
    vstd::arithmetic::power2::lemma2_to64();
    vstd::arithmetic::power2::lemma2_to64_rest();
}

/// The low bits of a word are those of the integer.
proof fn lemma_low_bits(x: int)
    ensures
        word(x) as int % 0x100 == x % 0x100,
        word(x) as int % 0x1_0000 == x % 0x1_0000,
        word(x) as int % 0x1_0000_0000 == x % 0x1_0000_0000,
{
    let q = x / modulus();
    let w = word(x) as int;
    assert(x == q * modulus() + w) by {
        vstd::arithmetic::div_mod::lemma_fundamental_div_mod(x, modulus());
        assert(modulus() * q == q * modulus()) by (nonlinear_arith);
    }
    lemma_mod_of_sum(w, q * 0x100_0000_0000_0000, 0x100);
    lemma_mod_of_sum(w, q * 0x1_0000_0000_0000, 0x1_0000);
    lemma_mod_of_sum(w, q * 0x1_0000_0000, 0x1_0000_0000);
}

proof fn lemma_mod_of_sum(w: int, j: int, d: int)
    requires
        d > 0,
    ensures
        (w + j * d) % d == w % d,
{
    vstd::arithmetic::div_mod::lemma_mod_multiples_vanish(j, w, d);
    assert(d * j + w == w + j * d) by (nonlinear_arith);
}

proof fn lemma_masks(w: u64)
    ensures
        w & 0xff == w % 0x100,
        w & 0xffff == w % 0x1_0000,
        w & 0xffff_ffff == w % 0x1_0000_0000,
{
    assert(w & 0xff == w % 0x100) by (bit_vector);
    assert(w & 0xffff == w % 0x1_0000) by (bit_vector);
    assert(w & 0xffff_ffff == w % 0x1_0000_0000) by (bit_vector);
}

/// A word reduced to a narrow kind, and extended again.
proof fn lemma_narrowed(k: IntKind, x: int)
    requires
        k.width() < 64,
    ensures
        !k.is_signed() ==> word(x) & word(k.highest()) == word(wrapped(k, x)),
        k.is_signed() ==> ({
            let low = unary_result(reduce_op(k), word(x), 64)->0;
            unary_result(UnaryOp::Sextend, low, k.width() as nat) == Some(word(wrapped(k, x)))
        }),
        k.holds(wrapped(k, x)),
{
    lemma_sizes();
    lemma_low_bits(x);
    lemma_masks(word(x));
    lemma_word(k.highest());
    lemma_word(wrapped(k, x));
}

proof fn lemma_wrapped_wide(k: IntKind, x: int)
    requires
        k.width() == 64,
    ensures
        word(wrapped(k, x)) == word(x),
        k.holds(wrapped(k, x)),
{
    lemma_sizes();
    let low = x % modulus();
    lemma_word(wrapped(k, x));
}

proof fn lemma_word_times(a: int, p: int)
    requires
        -0x8000_0000_0000_0000 <= a <= 0xffff_ffff_ffff_ffff,
    ensures
        word(word(a) * p) == word(a * p),
{
    lemma_word(a);
    let (i, m) = (lift(a), modulus());
    assert((a + i * m) * p == a * p + (i * p) * m) by (nonlinear_arith);
    lemma_word_congruent(word(a) * p, a * p, i * p);
}

/// Shifting left multiplies by a power of two and drops what is out of the
/// width.
#[verifier::rlimit(60)]
proof fn lemma_shift_left(
    ops: Seq<Op>,
    m: Machine,
    st: LowView,
    k: IntKind,
    l: usize,
    r: usize,
    line: u32,
    a: int,
    b: int,
)
    requires
        begins(ops, shift(st, BinOp::Shl, k, l, r, line).0),
        ops.len() <= usize::MAX,
        ready(ops, m, st),
        l < st.f.ops.len(),
        r < st.f.ops.len(),
        k.holds(a),
        k.holds(b),
        m.vals[l as int] == word(a),
        m.vals[r as int] == word(b),
    ensures
        yields(
            ops,
            m,
            st,
            shift(st, BinOp::Shl, k, l, r, line).0,
            shift(st, BinOp::Shl, k, l, r, line).1,
            operate(BinOp::Shl, k, a, b)->0,
            line,
        ),
{
    reveal(shift);
    let (s, v) = shift(st, BinOp::Shl, k, l, r, line);
    let n = st.f.ops.len() as int;
    assert(s.f.ops[n + 2] == Op::Int(IntOp::Shl, l, r));
    assert(ops[n] == s.f.ops[n] && ops[n + 1] == s.f.ops[n + 1] && ops[n + 2] == s.f.ops[n + 2]);
    let m2 = lemma_shift_check(ops, m, st, k, r, line, b);
    if 0 <= b < k.width() {
        lemma_word(b);
        let x = a * pow2(b as nat);
        lemma_word_times(a, pow2(b as nat) as int);
        let m3 = Machine { at: n + 3, vals: m2.vals.insert(n + 2, word(x)), ..m };
        assert(m2.vals[l as int] == m.vals[l as int]);
        assert(m2.vals[r as int] == m.vals[r as int]);
        assert(step(ops, m2) == Some(End::At(m3)));
        lemma_leads_step(ops, m2, End::At(m3));
        lemma_leads_on(ops, m, m2, End::At(m3));
        let y = wrapped(k, x);
        assert forall|i: int| 0 <= i < n implies #[trigger] m3.vals[i] == m.vals[i] by {
            assert(m2.vals[i] == m.vals[i]);
        }
        if k.width() == 64 {
            lemma_wrapped_wide(k, x);
        } else if k.is_signed() {
            lemma_narrowed(k, x);
            assert(s.f.ops[n + 3] == Op::Unary(reduce_op(k), (n + 2) as usize));
            assert(s.f.ops[n + 4] == Op::Unary(UnaryOp::Sextend, (n + 3) as usize));
            assert(ops[n + 3] == s.f.ops[n + 3] && ops[n + 4] == s.f.ops[n + 4]);
            let low = unary_result(reduce_op(k), word(x), 64)->0;
            let m4 = Machine { at: n + 4, vals: m3.vals.insert(n + 3, low), ..m };
            let m5 = Machine { at: n + 5, vals: m4.vals.insert(n + 4, word(y)), ..m };
            assert(step(ops, m3) == Some(End::At(m4)));
            assert(step(ops, m4) == Some(End::At(m5)));
            lemma_leads_step(ops, m4, End::At(m5));
            lemma_step_then(ops, m3, m4, End::At(m5));
            lemma_leads_on(ops, m, m3, End::At(m5));
            assert(kept(m5, m, n));
        } else {
            lemma_narrowed(k, x);
            assert(s.f.ops[n + 3] == Op::IntImm(
                IntOp::And,
                (n + 2) as usize,
                k.highest() as i64,
            ));
            assert(ops[n + 3] == s.f.ops[n + 3]);
            let m4 = Machine { at: n + 4, vals: m3.vals.insert(n + 3, word(y)), ..m };
            assert(step(ops, m3) == Some(End::At(m4)));
            lemma_leads_step(ops, m3, End::At(m4));
            lemma_leads_on(ops, m, m3, End::At(m4));
            assert(kept(m4, m, n));
        }
    }
}

// -- Division ---------------------------------------------------------------

/// A block starts where it is first switched to, which is behind the place
/// that made it.
pub proof fn lemma_start(ops: Seq<Op>, b: usize, j: int)
    requires
        runnable(ops),
        0 <= j < ops.len(),
        ops[j] == Op::SwitchTo(b),
        forall|i: int| b < i < j ==> #[trigger] ops[i] != Op::SwitchTo(b),
    ensures
        start_from(ops, b, 0) == Some(j),
{
    let sc = choose|sc: Scope| well_formed(ops, sc);
    assert forall|i: int| 0 <= i < j implies #[trigger] ops[i] != Op::SwitchTo(b) by {
        if i <= b {
            assert(crate::ir::fits(ops.take(i), ops[i], sc));
        }
    }
    lemma_start_from(ops, b, 0, j);
}

proof fn lemma_start_from(ops: Seq<Op>, b: usize, from: nat, j: int)
    requires
        from <= j < ops.len(),
        ops[j] == Op::SwitchTo(b),
        forall|i: int| from <= i < j ==> #[trigger] ops[i] != Op::SwitchTo(b),
    ensures
        start_from(ops, b, from) == Some(j),
    decreases j - from,
{
    if from < j {
        lemma_start_from(ops, b, from + 1, j);
    }
}

/// Quotients by anything but zero and minus one are in range.
proof fn lemma_quotient_in_range(k: IntKind, a: int, b: int)
    requires
        k.holds(a),
        b != 0,
        k.is_signed() ==> b != -1,
        !k.is_signed() ==> b > 0,
    ensures
        k.holds(quotient(a, b)),
{
    let (x, y) = (
        if a < 0 {
            -a
        } else {
            a
        },
        if b < 0 {
            -b
        } else {
            b
        },
    );
    assert(0 <= x / y <= x) by (nonlinear_arith)
        requires
            x >= 0,
            y >= 1,
    ;
    if b < 0 {
        assert(x / y <= x / 2) by {
            vstd::arithmetic::div_mod::lemma_div_is_ordered_by_denominator(x, 2, y);
        }
    }
}

/// A remainder is smaller than the divisor and takes the dividend's sign.
pub proof fn law_remainder(a: int, b: int)
    requires
        b != 0,
    ensures
        a >= 0 ==> 0 <= remainder(a, b),
        a <= 0 ==> remainder(a, b) <= 0,
        remainder(a, b) < if b < 0 {
            -b
        } else {
            b
        },
        -remainder(a, b) < if b < 0 {
            -b
        } else {
            b
        },
        -remainder(a, b) <= if a < 0 {
            -a
        } else {
            a
        },
        remainder(a, b) <= if a < 0 {
            -a
        } else {
            a
        },
        a == b * quotient(a, b) + remainder(a, b),
{
    let (x, y) = (
        if a < 0 {
            -a
        } else {
            a
        },
        if b < 0 {
            -b
        } else {
            b
        },
    );
    let q = x / y;
    vstd::arithmetic::div_mod::lemma_fundamental_div_mod(x, y);
    vstd::arithmetic::div_mod::lemma_mod_bound(x, y);
    assert(0 <= y * q) by (nonlinear_arith)
        requires
            q == x / y,
            x >= 0,
            y > 0,
    ;
    assert(b * quotient(a, b) == if a >= 0 {
        y * q
    } else {
        -(y * q)
    }) by {
        if a >= 0 && b < 0 {
            assert(b * (-q) == (-b) * q) by (nonlinear_arith);
        } else if a < 0 && b >= 0 {
            assert(b * (-q) == -(b * q)) by (nonlinear_arith);
        } else if a < 0 {
            assert(b * q == -((-b) * q)) by (nonlinear_arith);
        }
    }
}

/// The start of a division: the divisor must not be zero.
proof fn lemma_zero_check(
    ops: Seq<Op>,
    m: Machine,
    st: LowView,
    k: IntKind,
    r: usize,
    line: u32,
    b: int,
) -> (m2: Machine)
    requires
        ops.len() >= st.f.ops.len() + 2,
        ops.len() <= usize::MAX,
        ops[st.f.ops.len() as int] == Op::CompareImm(IntCC::Equal, r, 0),
        ops[st.f.ops.len() as int + 1] == Op::PanicIf(st.f.ops.len() as usize, Rt::PanicDiv, line),
        ready(ops, m, st),
        k.holds(b),
        m.vals[r as int] == word(b),
    ensures
        b != 0 ==> leads(ops, m, End::At(m2)) && m2.at == m.at + 2 && kept(m2, m, m.at),
        b == 0 ==> leads(ops, m, End::Panic(Rt::PanicDiv, line, m.world)),
{
    lemma_word(b);
    let n = m.at;
    let zero = word(b) == word(0);
    let m1 = Machine { at: n + 1, vals: m.vals.insert(n, truth(zero)), ..m };
    let m2 = Machine { at: n + 2, ..m1 };
    assert(step(ops, m) == Some(End::At(m1)));
    if b == 0 {
        lemma_leads_step(ops, m1, End::Panic(Rt::PanicDiv, line, m.world));
        lemma_step_then(ops, m, m1, End::Panic(Rt::PanicDiv, line, m.world));
    } else {
        lemma_leads_step(ops, m1, End::At(m2));
        lemma_step_then(ops, m, m1, End::At(m2));
    }
    m2
}

/// Signed division by minus one takes the special block.
#[verifier::rlimit(60)]
proof fn lemma_signed_special(
    ops: Seq<Op>,
    m: Machine,
    st: LowView,
    op: BinOp,
    k: IntKind,
    l: usize,
    r: usize,
    line: u32,
    a: int,
)
    requires
        op is Div || op is Rem,
        k.is_signed(),
        begins(ops, divide_signed(st, op, k, l, r, line).0),
        runnable(ops),
        ready(ops, m, st),
        l < st.f.ops.len(),
        r < st.f.ops.len(),
        k.holds(a),
        m.vals[l as int] == word(a),
        m.vals[r as int] == word(-1),
    ensures
        yields(
            ops,
            m,
            st,
            divide_signed(st, op, k, l, r, line).0,
            divide_signed(st, op, k, l, r, line).1,
            operate(op, k, a, -1)->0,
            line,
        ),
{
    reveal(divide_signed);
    lemma_word(a);
    lemma_word(-1);
    lemma_word(k.lowest());
    let (s, v) = divide_signed(st, op, k, l, r, line);
    let p = st.f.ops.len() as int;
    assert(forall|i: int| p <= i < s.f.ops.len() ==> #[trigger] ops[i] == s.f.ops[i]);
    assert(ops[p] == Op::Block);
    assert(ops[p + 1] == Op::Block);
    assert(ops[p + 2] == Op::BlockOf(IrType::I64));
    assert(ops[p + 3] == Op::CompareImm(IntCC::Equal, r, (-1) as i64));
    assert(ops[p + 4] == Op::Brif((p + 3) as usize, p as usize, (p + 1) as usize));
    assert(ops[p + 5] == Op::SwitchTo(p as usize));
    let m1 = Machine { at: p + 1, ..m };
    let m2 = Machine { at: p + 2, ..m };
    let m3 = Machine { at: p + 3, ..m };
    let m4 = Machine { at: p + 4, vals: m.vals.insert(p + 3, 1), ..m };
    let m5 = Machine { at: p + 5, ..m4 };
    let m6 = Machine { at: p + 6, ..m4 };
    lemma_start(ops, p as usize, p + 5);
    assert(step(ops, m) == Some(End::At(m1)));
    assert(step(ops, m1) == Some(End::At(m2)));
    assert(step(ops, m2) == Some(End::At(m3)));
    assert(step(ops, m3) == Some(End::At(m4)));
    assert(step(ops, m4) == Some(End::At(m5)));
    assert(step(ops, m5) == Some(End::At(m6)));
    lemma_leads_step(ops, m5, End::At(m6));
    lemma_step_then(ops, m4, m5, End::At(m6));
    lemma_step_then(ops, m3, m4, End::At(m6));
    lemma_step_then(ops, m2, m3, End::At(m6));
    lemma_step_then(ops, m1, m2, End::At(m6));
    lemma_step_then(ops, m, m1, End::At(m6));
    if op is Div {
        assert(quotient(a, -1) == -a);
        assert(ops[p + 6] == Op::CompareImm(IntCC::Equal, l, k.lowest() as i64));
        assert(ops[p + 7] == Op::PanicIf((p + 6) as usize, Rt::PanicOverflow, line));
        assert(ops[p + 8] == Op::Unary(UnaryOp::Ineg, l));
        assert(ops[p + 9] == Op::JumpWith((p + 2) as usize, (p + 8) as usize));
        assert(ops[p + 10] == Op::SwitchTo((p + 1) as usize));
        assert(ops[p + 13] == Op::SwitchTo((p + 2) as usize));
        assert(ops[p + 14] == Op::BlockParam((p + 2) as usize));
        let lowest = a == k.lowest();
        let m7 = Machine { at: p + 7, vals: m6.vals.insert(p + 6, truth(lowest)), ..m };
        assert(step(ops, m6) == Some(End::At(m7)));
        if lowest {
            let e = End::Panic(Rt::PanicOverflow, line, m.world);
            lemma_leads_step(ops, m7, e);
            lemma_step_then(ops, m6, m7, e);
            lemma_leads_on(ops, m, m6, e);
        } else {
            lemma_word_sum(0, a);
            assert(word(-(word(a) as int)) == word(-a));
            let m8 = Machine { at: p + 8, ..m7 };
            let m9 = Machine { at: p + 9, vals: m7.vals.insert(p + 8, word(-a)), ..m };
            let m10 = Machine { at: p + 13, vals: m9.vals.insert(p + 2, word(-a)), ..m };
            let m11 = Machine { at: p + 14, ..m10 };
            let m12 = Machine {
                at: p + 15,
                vals: m10.vals.insert(p + 14, word(-a)),
                ..m
            };
            assert(ops[p + 11] == Op::Int(IntOp::Sdiv, l, r));
            assert(ops[p + 12] == Op::JumpWith((p + 2) as usize, (p + 11) as usize));
            lemma_start(ops, (p + 2) as usize, p + 13);
            assert(step(ops, m7) == Some(End::At(m8)));
            assert(step(ops, m8) == Some(End::At(m9)));
            assert(step(ops, m9) == Some(End::At(m10)));
            assert(step(ops, m10) == Some(End::At(m11)));
            assert(step(ops, m11) == Some(End::At(m12)));
            lemma_leads_step(ops, m11, End::At(m12));
            lemma_step_then(ops, m10, m11, End::At(m12));
            lemma_step_then(ops, m9, m10, End::At(m12));
            lemma_step_then(ops, m8, m9, End::At(m12));
            lemma_step_then(ops, m7, m8, End::At(m12));
            lemma_step_then(ops, m6, m7, End::At(m12));
            lemma_leads_on(ops, m, m6, End::At(m12));
            assert(kept(m12, m, p));
        }
    } else {
        assert(remainder(a, -1) == 0);
        assert(ops[p + 6] == Op::Iconst(0));
        assert(ops[p + 7] == Op::JumpWith((p + 2) as usize, (p + 6) as usize));
        assert(ops[p + 8] == Op::SwitchTo((p + 1) as usize));
        assert(ops[p + 9] == Op::Int(IntOp::Srem, l, r));
        assert(ops[p + 10] == Op::JumpWith((p + 2) as usize, (p + 9) as usize));
        assert(ops[p + 11] == Op::SwitchTo((p + 2) as usize));
        assert(ops[p + 12] == Op::BlockParam((p + 2) as usize));
        let m7 = Machine { at: p + 7, vals: m6.vals.insert(p + 6, word(0)), ..m };
        let m8 = Machine { at: p + 11, vals: m7.vals.insert(p + 2, word(0)), ..m };
        let m9 = Machine { at: p + 12, ..m8 };
        let m10 = Machine { at: p + 13, vals: m8.vals.insert(p + 12, word(0)), ..m };
        lemma_start(ops, (p + 2) as usize, p + 11);
        assert(step(ops, m6) == Some(End::At(m7)));
        assert(step(ops, m7) == Some(End::At(m8)));
        assert(step(ops, m8) == Some(End::At(m9)));
        assert(step(ops, m9) == Some(End::At(m10)));
        lemma_leads_step(ops, m9, End::At(m10));
        lemma_step_then(ops, m8, m9, End::At(m10));
        lemma_step_then(ops, m7, m8, End::At(m10));
        lemma_step_then(ops, m6, m7, End::At(m10));
        lemma_leads_on(ops, m, m6, End::At(m10));
        assert(kept(m10, m, p));
    }
}

/// Signed division by anything else takes the normal block.
#[verifier::rlimit(30)]
proof fn lemma_signed_normal(
    ops: Seq<Op>,
    m: Machine,
    st: LowView,
    op: BinOp,
    k: IntKind,
    l: usize,
    r: usize,
    line: u32,
    a: int,
    b: int,
)
    requires
        op is Div || op is Rem,
        k.is_signed(),
        begins(ops, divide_signed(st, op, k, l, r, line).0),
        runnable(ops),
        ready(ops, m, st),
        l < st.f.ops.len(),
        r < st.f.ops.len(),
        k.holds(a),
        k.holds(b),
        b != 0,
        b != -1,
        m.vals[l as int] == word(a),
        m.vals[r as int] == word(b),
    ensures
        yields(
            ops,
            m,
            st,
            divide_signed(st, op, k, l, r, line).0,
            divide_signed(st, op, k, l, r, line).1,
            operate(op, k, a, b)->0,
            line,
        ),
{
    reveal(divide_signed);
    lemma_word(a);
    lemma_word(b);
    lemma_word(-1);
    lemma_quotient_in_range(k, a, b);
    let (s, v) = divide_signed(st, op, k, l, r, line);
    let p = st.f.ops.len() as int;
    let q = if op is Div {
        p + 10
    } else {
        p + 8
    };
    let x = if op is Div {
        quotient(a, b)
    } else {
        remainder(a, b)
    };
    assert(forall|i: int| p <= i < s.f.ops.len() ==> #[trigger] ops[i] == s.f.ops[i]);
    assert(ops[p] == Op::Block);
    assert(ops[p + 1] == Op::Block);
    assert(ops[p + 2] == Op::BlockOf(IrType::I64));
    assert(ops[p + 3] == Op::CompareImm(IntCC::Equal, r, (-1) as i64));
    assert(ops[p + 4] == Op::Brif((p + 3) as usize, p as usize, (p + 1) as usize));
    assert(ops[p + 5] == Op::SwitchTo(p as usize));
    if op is Div {
        assert(ops[p + 6] == Op::CompareImm(IntCC::Equal, l, k.lowest() as i64));
        assert(ops[p + 7] == Op::PanicIf((p + 6) as usize, Rt::PanicOverflow, line));
        assert(ops[p + 8] == Op::Unary(UnaryOp::Ineg, l));
        assert(ops[p + 9] == Op::JumpWith((p + 2) as usize, (p + 8) as usize));
        assert(ops[q + 1] == Op::Int(IntOp::Sdiv, l, r));
    } else {
        assert(ops[p + 6] == Op::Iconst(0));
        assert(ops[p + 7] == Op::JumpWith((p + 2) as usize, (p + 6) as usize));
        assert(ops[q + 1] == Op::Int(IntOp::Srem, l, r));
    }
    assert(ops[q] == Op::SwitchTo((p + 1) as usize));
    assert(ops[q + 2] == Op::JumpWith((p + 2) as usize, (q + 1) as usize));
    assert(ops[q + 3] == Op::SwitchTo((p + 2) as usize));
    assert(ops[q + 4] == Op::BlockParam((p + 2) as usize));
    let m1 = Machine { at: p + 1, ..m };
    let m2 = Machine { at: p + 2, ..m };
    let m3 = Machine { at: p + 3, ..m };
    let m4 = Machine { at: p + 4, vals: m.vals.insert(p + 3, 0), ..m };
    let m5 = Machine { at: q, ..m4 };
    let m6 = Machine { at: q + 1, ..m4 };
    let m7 = Machine { at: q + 2, vals: m4.vals.insert(q + 1, word(x)), ..m };
    let m8 = Machine { at: q + 3, vals: m7.vals.insert(p + 2, word(x)), ..m };
    let m9 = Machine { at: q + 4, ..m8 };
    let m10 = Machine { at: q + 5, vals: m8.vals.insert(q + 4, word(x)), ..m };
    lemma_start(ops, (p + 1) as usize, q);
    lemma_start(ops, (p + 2) as usize, q + 3);
    assert(step(ops, m) == Some(End::At(m1)));
    assert(step(ops, m1) == Some(End::At(m2)));
    assert(step(ops, m2) == Some(End::At(m3)));
    assert(step(ops, m3) == Some(End::At(m4)));
    assert(step(ops, m4) == Some(End::At(m5)));
    assert(step(ops, m5) == Some(End::At(m6)));
    assert(step(ops, m6) == Some(End::At(m7)));
    assert(step(ops, m7) == Some(End::At(m8)));
    assert(step(ops, m8) == Some(End::At(m9)));
    assert(step(ops, m9) == Some(End::At(m10)));
    let e = End::At(m10);
    lemma_leads_step(ops, m9, e);
    lemma_step_then(ops, m8, m9, e);
    lemma_step_then(ops, m7, m8, e);
    lemma_step_then(ops, m6, m7, e);
    lemma_step_then(ops, m5, m6, e);
    lemma_step_then(ops, m4, m5, e);
    lemma_step_then(ops, m3, m4, e);
    lemma_step_then(ops, m2, m3, e);
    lemma_step_then(ops, m1, m2, e);
    lemma_step_then(ops, m, m1, e);
    assert(kept(m10, m, p));
}

proof fn lemma_divide(
    ops: Seq<Op>,
    m: Machine,
    st: LowView,
    op: BinOp,
    k: IntKind,
    l: usize,
    r: usize,
    line: u32,
    a: int,
    b: int,
)
    requires
        op is Div || op is Rem,
        begins(ops, divide(st, op, k, l, r, line).0),
        runnable(ops),
        ready(ops, m, st),
        l < st.f.ops.len(),
        r < st.f.ops.len(),
        k.holds(a),
        k.holds(b),
        m.vals[l as int] == word(a),
        m.vals[r as int] == word(b),
    ensures
        yields(
            ops,
            m,
            st,
            divide(st, op, k, l, r, line).0,
            divide(st, op, k, l, r, line).1,
            operate(op, k, a, b)->0,
            line,
        ),
{
    reveal(divide);
    let (s, v) = divide(st, op, k, l, r, line);
    let n = st.f.ops.len() as int;
    let s1 = put(st, Op::CompareImm(IntCC::Equal, r, 0));
    let s2 = put(s1, Op::PanicIf(next(st), Rt::PanicDiv, line));
    assert(s.f.ops.len() >= n + 2 && s.f.ops[n] == Op::CompareImm(IntCC::Equal, r, 0)
        && s.f.ops[n + 1] == Op::PanicIf(n as usize, Rt::PanicDiv, line)) by {
        reveal(divide_signed);
    }
    assert(ops[n] == s.f.ops[n] && ops[n + 1] == s.f.ops[n + 1]);
    let m2 = lemma_zero_check(ops, m, st, k, r, line, b);
    if b != 0 {
        assert(m2.vals[l as int] == m.vals[l as int]);
        assert(m2.vals[r as int] == m.vals[r as int]);
        if k.is_signed() {
            if b == -1 {
                lemma_signed_special(ops, m2, s2, op, k, l, r, line, a);
            } else {
                lemma_signed_normal(ops, m2, s2, op, k, l, r, line, a, b);
            }
            match operate(op, k, a, b)->0 {
                Outcome::Panic(rt) => {
                    lemma_leads_on(ops, m, m2, End::Panic(rt, line, m.world));
                },
                Outcome::Value(x) => {
                    let m3 = choose|m3: Machine| #[trigger]
                        leads(ops, m2, End::At(m3)) && m3.at == s.f.ops.len()
                            && m3.vals[v as int] == word(x) && kept(m3, m2, n + 2);
                    lemma_leads_on(ops, m, m2, End::At(m3));
                    assert(kept(m3, m, n)) by {
                        assert forall|i: int| 0 <= i < n implies #[trigger] m3.vals[i]
                            == m.vals[i] by {
                            assert(m2.vals[i] == m.vals[i]);
                        }
                    }
                },
            }
        } else {
            lemma_word(a);
            lemma_word(b);
            lemma_quotient_in_range(k, a, b);
            let o = if op is Div {
                IntOp::Udiv
            } else {
                IntOp::Urem
            };
            let x = if op is Div {
                quotient(a, b)
            } else {
                remainder(a, b)
            };
            assert(s.f.ops[n + 2] == Op::Int(o, l, r));
            assert(ops[n + 2] == s.f.ops[n + 2]);
            vstd::arithmetic::div_mod::lemma_fundamental_div_mod(a, b);
            law_remainder(a, b);
            lemma_word(x);
            assert(int_result(o, word(a), word(b)) == Some(word(x)));
            let m3 = Machine { at: n + 3, vals: m2.vals.insert(n + 2, word(x)), ..m };
            assert(step(ops, m2) == Some(End::At(m3)));
            lemma_leads_step(ops, m2, End::At(m3));
            lemma_leads_on(ops, m, m2, End::At(m3));
            assert(kept(m3, m, n)) by {
                assert forall|i: int| 0 <= i < n implies #[trigger] m3.vals[i] == m.vals[i] by {
                    assert(m2.vals[i] == m.vals[i]);
                }
            }
        }
    }
}

// -- Integer operators ------------------------------------------------------

/// The code for an integer operator, run on words that hold values of the
/// kind, gives what the operator means or panics as it says: on overflow, on
/// division by zero and on shift amounts outside the width, and only there.
pub proof fn law_int_arith(
    ops: Seq<Op>,
    m: Machine,
    st: LowView,
    op: BinOp,
    k: IntKind,
    l: usize,
    r: usize,
    line: u32,
    a: int,
    b: int,
)
    requires
        int_arith(st, op, k, l, r, line) is Ok,
        begins(ops, int_arith(st, op, k, l, r, line)->Ok_0.0),
        runnable(ops),
        ready(ops, m, st),
        l < st.f.ops.len(),
        r < st.f.ops.len(),
        k.holds(a),
        k.holds(b),
        m.vals[l as int] == word(a),
        m.vals[r as int] == word(b),
    ensures
        operate(op, k, a, b) is Some,
        yields(
            ops,
            m,
            st,
            int_arith(st, op, k, l, r, line)->Ok_0.0,
            int_arith(st, op, k, l, r, line)->Ok_0.1,
            operate(op, k, a, b)->0,
            line,
        ),
{
    reveal(int_arith);
    match op {
        BinOp::Add => law_checked_arith(ops, m, st, op, k, l, r, line, a, b),
        BinOp::Sub => law_checked_arith(ops, m, st, op, k, l, r, line, a, b),
        BinOp::Mul => law_checked_arith(ops, m, st, op, k, l, r, line, a, b),
        BinOp::Div => lemma_divide(ops, m, st, op, k, l, r, line, a, b),
        BinOp::Rem => lemma_divide(ops, m, st, op, k, l, r, line, a, b),
        BinOp::BitAnd => law_bitwise(ops, m, st, op, k, l, r, line, a, b),
        BinOp::BitOr => law_bitwise(ops, m, st, op, k, l, r, line, a, b),
        BinOp::BitXor => law_bitwise(ops, m, st, op, k, l, r, line, a, b),
        BinOp::Shl => lemma_shift_left(ops, m, st, k, l, r, line, a, b),
        BinOp::Shr => lemma_shift_right(ops, m, st, k, l, r, line, a, b),
        _ => {},
    }
}

/// Words in canonical form of a narrow kind are closed under the bitwise
/// operators.
proof fn lemma_bitwise_in_range(k: IntKind, a: int, b: int)
    requires
        k.holds(a),
        k.holds(b),
    ensures
        k.holds(decode(k, word(a) & word(b))),
        k.holds(decode(k, word(a) | word(b))),
        k.holds(decode(k, word(a) ^ word(b))),
{
    lemma_word(a);
    lemma_word(b);
    let (x, y) = (word(a), word(b));
    match k {
        IntKind::U8 => {
            assert(x & y <= 0xff && x | y <= 0xff && x ^ y <= 0xff) by (bit_vector)
                requires
                    x <= 0xff,
                    y <= 0xff,
            ;
        },
        IntKind::U16 => {
            assert(x & y <= 0xffff && x | y <= 0xffff && x ^ y <= 0xffff) by (bit_vector)
                requires
                    x <= 0xffff,
                    y <= 0xffff,
            ;
        },
        IntKind::U32 => {
            assert(x & y <= 0xffff_ffff && x | y <= 0xffff_ffff && x ^ y <= 0xffff_ffff)
                by (bit_vector)
                requires
                    x <= 0xffff_ffff,
                    y <= 0xffff_ffff,
            ;
        },
        IntKind::I8 => {
            assert((x & y <= 0x7f || x & y >= 0xffff_ffff_ffff_ff80) && (x | y <= 0x7f || x | y
                >= 0xffff_ffff_ffff_ff80) && (x ^ y <= 0x7f || x ^ y >= 0xffff_ffff_ffff_ff80))
                by (bit_vector)
                requires
                    x <= 0x7f || x >= 0xffff_ffff_ffff_ff80,
                    y <= 0x7f || y >= 0xffff_ffff_ffff_ff80,
            ;
        },
        IntKind::I16 => {
            assert((x & y <= 0x7fff || x & y >= 0xffff_ffff_ffff_8000) && (x | y <= 0x7fff || x | y
                >= 0xffff_ffff_ffff_8000) && (x ^ y <= 0x7fff || x ^ y
                >= 0xffff_ffff_ffff_8000)) by (bit_vector)
                requires
                    x <= 0x7fff || x >= 0xffff_ffff_ffff_8000,
                    y <= 0x7fff || y >= 0xffff_ffff_ffff_8000,
            ;
        },
        IntKind::I32 => {
            assert((x & y <= 0x7fff_ffff || x & y >= 0xffff_ffff_8000_0000) && (x | y
                <= 0x7fff_ffff || x | y >= 0xffff_ffff_8000_0000) && (x ^ y <= 0x7fff_ffff || x ^ y
                >= 0xffff_ffff_8000_0000)) by (bit_vector)
                requires
                    x <= 0x7fff_ffff || x >= 0xffff_ffff_8000_0000,
                    y <= 0x7fff_ffff || y >= 0xffff_ffff_8000_0000,
            ;
        },
        _ => {},
    }
}

/// An operator on values of a kind never gives anything but a value of the
/// kind.
pub proof fn law_operate_in_range(op: BinOp, k: IntKind, a: int, b: int)
    requires
        k.holds(a),
        k.holds(b),
    ensures
        operate(op, k, a, b) matches Some(Outcome::Value(x)) ==> k.holds(x),
{
    match op {
        BinOp::Rem => {
            if b != 0 {
                law_remainder(a, b);
                if a == k.lowest() && k.is_signed() {
                    // A remainder of the most negative value is above it.
                    assert(-remainder(a, b) <= -a);
                }
            }
        },
        BinOp::BitAnd | BinOp::BitOr | BinOp::BitXor => lemma_bitwise_in_range(k, a, b),
        BinOp::Shl => {
            if 0 <= b < k.width() {
                let x = a * pow2(b as nat);
                if k.width() == 64 {
                    lemma_wrapped_wide(k, x);
                } else {
                    lemma_narrowed(k, x);
                }
            }
        },
        BinOp::Shr => {
            if 0 <= b < k.width() {
                vstd::arithmetic::power2::lemma_pow2_pos(b as nat);
                let p = pow2(b as nat) as int;
                assert(a >= 0 ==> 0 <= a / p <= a) by (nonlinear_arith)
                    requires
                        p >= 1,
                ;
                assert(a < 0 ==> a <= a / p < 0) by (nonlinear_arith)
                    requires
                        p >= 1,
                ;
            }
        },
        _ => {},
    }
}

// -- Comparisons, unary operators and casts ---------------------------------

/// The code for a comparison gives one if it holds and zero if not.
pub proof fn law_compare(
    ops: Seq<Op>,
    m: Machine,
    st: LowView,
    op: BinOp,
    k: IntKind,
    l: usize,
    r: usize,
    line: u32,
    a: int,
    b: int,
)
    requires
        is_comparison(op),
        begins(ops, compare(st, op, TypeView::Int(k), l, r).0),
        ops.len() <= usize::MAX,
        ready(ops, m, st),
        k.holds(a),
        k.holds(b),
        m.vals[l as int] == word(a),
        m.vals[r as int] == word(b),
    ensures
        yields(
            ops,
            m,
            st,
            compare(st, op, TypeView::Int(k), l, r).0,
            compare(st, op, TypeView::Int(k), l, r).1,
            Outcome::Value(
                if compares(op, a, b) {
                    1
                } else {
                    0
                },
            ),
            line,
        ),
{
    reveal(compare);
    lemma_word(a);
    lemma_word(b);
    let (s, v) = compare(st, op, TypeView::Int(k), l, r);
    let n = st.f.ops.len() as int;
    assert(s.f.ops[n] == Op::Compare(int_cc(op, k.is_signed()), l, r));
    assert(s.f.ops[n + 1] == Op::Unary(UnaryOp::Uextend, n as usize));
    assert(ops[n] == s.f.ops[n] && ops[n + 1] == s.f.ops[n + 1]);
    let t = truth(compares(op, a, b));
    let m1 = Machine { at: n + 1, vals: m.vals.insert(n, t), ..m };
    let m2 = Machine { at: n + 2, vals: m1.vals.insert(n + 1, t), ..m };
    assert(step(ops, m) == Some(End::At(m1)));
    assert(step(ops, m1) == Some(End::At(m2)));
    lemma_leads_step(ops, m1, End::At(m2));
    lemma_step_then(ops, m, m1, End::At(m2));
    assert(kept(m2, m, n));
}

/// The code for negation panics exactly on the most negative value.
proof fn lemma_negate(
    ops: Seq<Op>,
    m: Machine,
    st: LowView,
    k: IntKind,
    v: usize,
    line: u32,
    a: int,
)
    requires
        k.is_signed(),
        begins(ops, unary_value(st, UnOp::Neg, TypeView::Int(k), v, line)->Ok_0.0),
        ops.len() <= usize::MAX,
        ready(ops, m, st),
        v < st.f.ops.len(),
        k.holds(a),
        m.vals[v as int] == word(a),
    ensures
        yields(
            ops,
            m,
            st,
            unary_value(st, UnOp::Neg, TypeView::Int(k), v, line)->Ok_0.0,
            unary_value(st, UnOp::Neg, TypeView::Int(k), v, line)->Ok_0.1,
            operate_one(UnOp::Neg, k, a)->0,
            line,
        ),
{
    reveal(unary_value);
    lemma_word(a);
    lemma_word(k.lowest());
    lemma_word_sum(0, a);
    let (s, r) = unary_value(st, UnOp::Neg, TypeView::Int(k), v, line)->Ok_0;
    let n = st.f.ops.len() as int;
    assert(s.f.ops[n] == Op::CompareImm(IntCC::Equal, v, k.lowest() as i64));
    assert(s.f.ops[n + 1] == Op::PanicIf(n as usize, Rt::PanicOverflow, line));
    assert(s.f.ops[n + 2] == Op::Unary(UnaryOp::Ineg, v));
    assert(ops[n] == s.f.ops[n] && ops[n + 1] == s.f.ops[n + 1] && ops[n + 2] == s.f.ops[n + 2]);
    let lowest = a == k.lowest();
    let m1 = Machine { at: n + 1, vals: m.vals.insert(n, truth(lowest)), ..m };
    assert(step(ops, m) == Some(End::At(m1)));
    if lowest {
        let e = End::Panic(Rt::PanicOverflow, line, m.world);
        lemma_leads_step(ops, m1, e);
        lemma_step_then(ops, m, m1, e);
    } else {
        assert(word(-(word(a) as int)) == word(-a));
        let m2 = Machine { at: n + 2, ..m1 };
        let m3 = Machine { at: n + 3, vals: m1.vals.insert(n + 2, word(-a)), ..m };
        assert(step(ops, m1) == Some(End::At(m2)));
        assert(step(ops, m2) == Some(End::At(m3)));
        lemma_leads_step(ops, m2, End::At(m3));
        lemma_step_then(ops, m1, m2, End::At(m3));
        lemma_step_then(ops, m, m1, End::At(m3));
        assert(kept(m3, m, n));
    }
}

/// The complement of a word, as a value of the kind.
proof fn lemma_complement_word(k: IntKind, a: int)
    requires
        k.holds(a),
    ensures
        k.is_signed() ==> !word(a) == word(-a - 1),
        !k.is_signed() && k.width() == 64 ==> !word(a) == word(k.highest() - a),
        !k.is_signed() && k.width() < 64 ==> !word(a) & word((k.highest() as i64) as int) == word(
            k.highest() - a,
        ),
{
    lemma_word(a);
    let w = word(a);
    assert(!w == 0xffff_ffff_ffff_ffff - w) by (bit_vector);
    if k.is_signed() {
        lemma_word(-a - 1);
    } else {
        lemma_masks(!w);
        lemma_word(k.highest());
        lemma_word(k.highest() - a);
    }
}

#[verifier::rlimit(50)]
proof fn lemma_complement(
    ops: Seq<Op>,
    m: Machine,
    st: LowView,
    k: IntKind,
    v: usize,
    line: u32,
    a: int,
)
    requires
        begins(ops, unary_value(st, UnOp::BitNot, TypeView::Int(k), v, line)->Ok_0.0),
        ops.len() <= usize::MAX,
        ready(ops, m, st),
        v < st.f.ops.len(),
        k.holds(a),
        m.vals[v as int] == word(a),
    ensures
        yields(
            ops,
            m,
            st,
            unary_value(st, UnOp::BitNot, TypeView::Int(k), v, line)->Ok_0.0,
            unary_value(st, UnOp::BitNot, TypeView::Int(k), v, line)->Ok_0.1,
            operate_one(UnOp::BitNot, k, a)->0,
            line,
        ),
{
    reveal(unary_value);
    lemma_complement_word(k, a);
    let w = word(a);
    let (s, r) = unary_value(st, UnOp::BitNot, TypeView::Int(k), v, line)->Ok_0;
    let n = st.f.ops.len() as int;
    assert(s.f.ops[n] == Op::Unary(UnaryOp::Bnot, v));
    assert(ops[n] == s.f.ops[n]);
    let m1 = Machine { at: n + 1, vals: m.vals.insert(n, !w), ..m };
    assert(step(ops, m) == Some(End::At(m1)));
    lemma_leads_step(ops, m, End::At(m1));
    if k.is_signed() || k.width() == 64 {
        assert(kept(m1, m, n));
    } else {
        assert(s.f.ops[n + 1] == Op::IntImm(IntOp::And, n as usize, k.highest() as i64));
        assert(ops[n + 1] == s.f.ops[n + 1]);
        let x = word(k.highest() - a);
        let m2 = Machine { at: n + 2, vals: m1.vals.insert(n + 1, x), ..m };
        assert(step(ops, m1) == Some(End::At(m2)));
        lemma_leads_step(ops, m1, End::At(m2));
        lemma_step_then(ops, m, m1, End::At(m2));
        assert(kept(m2, m, n));
    }
}

/// The code for a unary operator on integers; only signed kinds are negated.
pub proof fn law_unary(
    ops: Seq<Op>,
    m: Machine,
    st: LowView,
    op: UnOp,
    k: IntKind,
    v: usize,
    line: u32,
    a: int,
)
    requires
        op is Neg && k.is_signed() || op is BitNot,
        begins(ops, unary_value(st, op, TypeView::Int(k), v, line)->Ok_0.0),
        ops.len() <= usize::MAX,
        ready(ops, m, st),
        v < st.f.ops.len(),
        k.holds(a),
        m.vals[v as int] == word(a),
    ensures
        operate_one(op, k, a) is Some,
        operate_one(op, k, a) matches Some(Outcome::Value(x)) ==> k.holds(x),
        yields(
            ops,
            m,
            st,
            unary_value(st, op, TypeView::Int(k), v, line)->Ok_0.0,
            unary_value(st, op, TypeView::Int(k), v, line)->Ok_0.1,
            operate_one(op, k, a)->0,
            line,
        ),
{
    if op is Neg {
        lemma_negate(ops, m, st, k, v, line, a);
    } else {
        lemma_complement(ops, m, st, k, v, line, a);
    }
}

/// `!` turns a truth value round.
pub proof fn law_not(ops: Seq<Op>, m: Machine, st: LowView, v: usize, line: u32, b: bool)
    requires
        begins(ops, unary_value(st, UnOp::Not, TypeView::Bool, v, line)->Ok_0.0),
        ops.len() <= usize::MAX,
        ready(ops, m, st),
        m.vals[v as int] == truth(b),
    ensures
        yields(
            ops,
            m,
            st,
            unary_value(st, UnOp::Not, TypeView::Bool, v, line)->Ok_0.0,
            unary_value(st, UnOp::Not, TypeView::Bool, v, line)->Ok_0.1,
            Outcome::Value(
                if b {
                    0
                } else {
                    1
                },
            ),
            line,
        ),
{
    reveal(unary_value);
    let (s, r) = unary_value(st, UnOp::Not, TypeView::Bool, v, line)->Ok_0;
    let n = st.f.ops.len() as int;
    assert(s.f.ops[n] == Op::IntImm(IntOp::Xor, v, 1));
    assert(ops[n] == s.f.ops[n]);
    assert(0u64 ^ 1u64 == 1 && 1u64 ^ 1u64 == 0) by (bit_vector);
    let m1 = Machine { at: n + 1, vals: m.vals.insert(n, truth(!b)), ..m };
    assert(step(ops, m) == Some(End::At(m1)));
    lemma_leads_step(ops, m, End::At(m1));
    assert(kept(m1, m, n));
}

/// Two comparisons, and a panic if one of them holds.
proof fn lemma_two_sided(
    ops: Seq<Op>,
    m: Machine,
    v: usize,
    lo: i64,
    hi: i64,
    rt: Rt,
    line: u32,
    x: int,
)
    requires
        0 <= m.at,
        ops.len() >= m.at + 4,
        ops.len() <= usize::MAX,
        ops[m.at] == Op::CompareImm(IntCC::SignedLessThan, v, lo),
        ops[m.at + 1] == Op::CompareImm(IntCC::SignedGreaterThan, v, hi),
        ops[m.at + 2] == Op::Int(IntOp::Or, m.at as usize, (m.at + 1) as usize),
        ops[m.at + 3] == Op::PanicIf((m.at + 2) as usize, rt, line),
        v < m.at,
        -0x8000_0000_0000_0000 <= x <= 0x7fff_ffff_ffff_ffff,
        m.vals[v as int] == word(x),
    ensures
        if lo <= x <= hi {
            exists|m2: Machine| #[trigger]
                leads(ops, m, End::At(m2)) && m2.at == m.at + 4 && kept(m2, m, m.at)
        } else {
            leads(ops, m, End::Panic(rt, line, m.world))
        },
{
    lemma_word(x);
    lemma_word(lo as int);
    lemma_word(hi as int);
    let n = m.at;
    let (below, above) = (x < lo, x > hi);
    let m1 = Machine { at: n + 1, vals: m.vals.insert(n, truth(below)), ..m };
    let m2 = Machine { at: n + 2, vals: m1.vals.insert(n + 1, truth(above)), ..m };
    let both = truth(below) | truth(above);
    let m3 = Machine { at: n + 3, vals: m2.vals.insert(n + 2, both), ..m };
    assert(both == truth(below || above)) by {
        assert(0u64 | 0u64 == 0 && 0u64 | 1u64 == 1 && 1u64 | 0u64 == 1 && 1u64 | 1u64 == 1)
            by (bit_vector);
    }
    assert(step(ops, m) == Some(End::At(m1)));
    assert(step(ops, m1) == Some(End::At(m2)));
    assert(step(ops, m2) == Some(End::At(m3)));
    let m4 = Machine { at: n + 4, ..m3 };
    let e = if below || above {
        End::Panic(rt, line, m.world)
    } else {
        End::At(m4)
    };
    lemma_leads_step(ops, m3, e);
    lemma_step_then(ops, m2, m3, e);
    lemma_step_then(ops, m1, m2, e);
    lemma_step_then(ops, m, m1, e);
    assert(kept(m4, m, n));
}

/// One comparison, and a panic if it holds.
proof fn lemma_one_sided(
    ops: Seq<Op>,
    m: Machine,
    cc: IntCC,
    v: usize,
    bound: i64,
    rt: Rt,
    line: u32,
)
    requires
        0 <= m.at,
        ops.len() >= m.at + 2,
        ops.len() <= usize::MAX,
        ops[m.at] == Op::CompareImm(cc, v, bound),
        ops[m.at + 1] == Op::PanicIf(m.at as usize, rt, line),
    ensures
        if compare_result(cc, m.vals[v as int], word(bound as int)) {
            leads(ops, m, End::Panic(rt, line, m.world))
        } else {
            exists|m2: Machine| #[trigger]
                leads(ops, m, End::At(m2)) && m2.at == m.at + 2 && kept(m2, m, m.at)
        },
{
    let n = m.at;
    let t = compare_result(cc, m.vals[v as int], word(bound as int));
    let m1 = Machine { at: n + 1, vals: m.vals.insert(n, truth(t)), ..m };
    let m2 = Machine { at: n + 2, ..m1 };
    assert(step(ops, m) == Some(End::At(m1)));
    let e = if t {
        End::Panic(rt, line, m.world)
    } else {
        End::At(m2)
    };
    lemma_leads_step(ops, m1, e);
    lemma_step_then(ops, m, m1, e);
    assert(kept(m2, m, n));
}

/// The code for a cast between integers panics exactly if the target does not
/// hold the value, and leaves it as it is otherwise.
pub proof fn law_cast_int(
    ops: Seq<Op>,
    m: Machine,
    st: LowView,
    src: IntKind,
    dst: IntKind,
    v: usize,
    line: u32,
    a: int,
)
    requires
        begins(ops, cast_int(st, src, dst, v, line)),
        ops.len() <= usize::MAX,
        ready(ops, m, st),
        v < st.f.ops.len(),
        src.holds(a),
        m.vals[v as int] == word(a),
    ensures
        yields(ops, m, st, cast_int(st, src, dst, v, line), v, converted(dst, a), line),
{
    reveal(cast_int);
    lemma_word(a);
    let s = cast_int(st, src, dst, v, line);
    let n = st.f.ops.len() as int;
    if covers(src, dst) {
        lemma_leads_here(ops, m);
        assert(kept(m, m, n));
    } else if !src.is_signed() {
        lemma_word(dst.highest());
        assert(s.f.ops[n] == Op::CompareImm(
            IntCC::UnsignedGreaterThan,
            v,
            dst.highest() as i64,
        ));
        assert(s.f.ops[n + 1] == Op::PanicIf(n as usize, Rt::PanicCast, line));
        assert(ops[n] == s.f.ops[n] && ops[n + 1] == s.f.ops[n + 1]);
        lemma_one_sided(
            ops,
            m,
            IntCC::UnsignedGreaterThan,
            v,
            dst.highest() as i64,
            Rt::PanicCast,
            line,
        );
        if dst.holds(a) {
            let m2 = choose|m2: Machine| #[trigger]
                leads(ops, m, End::At(m2)) && m2.at == m.at + 2 && kept(m2, m, m.at);
            assert(m2.vals[v as int] == m.vals[v as int]);
        }
    } else if !dst.is_signed() && dst.width() == 64 {
        lemma_word(0);
        assert(s.f.ops[n] == Op::CompareImm(IntCC::SignedLessThan, v, 0));
        assert(s.f.ops[n + 1] == Op::PanicIf(n as usize, Rt::PanicCast, line));
        assert(ops[n] == s.f.ops[n] && ops[n + 1] == s.f.ops[n + 1]);
        lemma_one_sided(ops, m, IntCC::SignedLessThan, v, 0, Rt::PanicCast, line);
        if dst.holds(a) {
            let m2 = choose|m2: Machine| #[trigger]
                leads(ops, m, End::At(m2)) && m2.at == m.at + 2 && kept(m2, m, m.at);
            assert(m2.vals[v as int] == m.vals[v as int]);
        }
    } else {
        let lo: i64 = if dst.is_signed() {
            dst.lowest() as i64
        } else {
            0
        };
        let hi = dst.highest() as i64;
        assert(s.f.ops[n] == Op::CompareImm(IntCC::SignedLessThan, v, lo));
        assert(s.f.ops[n + 1] == Op::CompareImm(IntCC::SignedGreaterThan, v, hi));
        assert(s.f.ops[n + 2] == Op::Int(IntOp::Or, n as usize, (n + 1) as usize));
        assert(s.f.ops[n + 3] == Op::PanicIf((n + 2) as usize, Rt::PanicCast, line));
        assert(ops[n] == s.f.ops[n] && ops[n + 1] == s.f.ops[n + 1] && ops[n + 2] == s.f.ops[n + 2]
            && ops[n + 3] == s.f.ops[n + 3]);
        lemma_two_sided(ops, m, v, lo, hi, Rt::PanicCast, line, a);
        if dst.holds(a) {
            let m2 = choose|m2: Machine| #[trigger]
                leads(ops, m, End::At(m2)) && m2.at == m.at + 4 && kept(m2, m, m.at);
            assert(m2.vals[v as int] == m.vals[v as int]);
        }
    }
}

} // verus!
