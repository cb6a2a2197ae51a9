//! What the operations on objects, strings and arrays mean, and that the code
//! of each does that.
use vstd::prelude::*;

use crate::ast::{BinOp, Builtin};
use crate::floats::{calculated, float_compares, float_text, nearest_float};
use crate::ir::{IntCC, IntOp, IrType, Op, Rt, UnaryOp};
use crate::lower::{
    arith, array_new, array_pop, array_push, binary_values, builtin_value, compare, field_value,
    index_addr, index_value, is_comparison, load_typed, new_of, next, place, print_fn, put,
    reduce_op, rooted, rt1, rt2, rt3, rt4, signed_type, store_field, struct_types, unwrap_value,
    variant_types, LowEnv, LowView, ARR_BUF, ARR_LEN, AUX, HEADER,
};
use crate::machine::{
    address, behind, compares, decode, int_result, leads, made, modulus, narrow_bits, operate,
    runtime, signed, standing, step, truth, word, Called, End, Layout, Machine, Outcome,
};
use crate::meaning::{
    begins, law_compare, law_int_arith, law_word_round_trip, lemma_leads_here, lemma_leads_on,
    lemma_leads_step, lemma_step_then, lemma_word, ready, runnable,
};
use crate::memory::{
    array_buf, array_len, ascii, aux, beyond, bytes_at, element, fetch, float_in, int_in,
    law_load_stored, law_store_elsewhere, lemma_fetch_bound, lemma_room, new_array, new_bytes,
    new_object, new_text, popped, pushed, put_value, read, room, shown_text, text_at, value_in,
    World,
};
use crate::text::dec_int_text;
use crate::types::{IntKind, TypeView};
use crate::rules::CheckedView;
use crate::writing::{calm, goes_on, lemma_calm, write_load_typed, write_rooted};

verus! {

// -- Meaning ----------------------------------------------------------------

/// What a call or an operation gives: a value (truth values are one and zero,
/// objects are their addresses), no value, or a panic with its line, each with
/// the world that it leaves; or that it is not finished, which says nothing: no
/// operation has a meaning on values that its types do not have, or without
/// memory left.
pub enum Reply {
    Value(int, World),
    Nothing(World),
    Panic(Rt, u32, World),
    Unfinished,
}

pub open spec fn at_line(o: Outcome, line: u32, w: World) -> Reply {
    match o {
        Outcome::Value(x) => Reply::Value(x, w),
        Outcome::Panic(rt) => Reply::Panic(rt, line, w),
    }
}

pub open spec fn truth_value(b: bool, w: World) -> Reply {
    Reply::Value(
        if b {
            1
        } else {
            0
        },
        w,
    )
}

pub open spec fn is_scalar(t: TypeView) -> bool {
    t is Int || t is Bool
}

/// Is `x` an integer or a truth value of the type?
pub open spec fn fits_type(t: TypeView, x: int) -> bool {
    match t {
        TypeView::Int(k) => k.holds(x),
        TypeView::Bool => x == 0 || x == 1,
        _ => false,
    }
}

pub open spec fn kind_of(t: TypeView) -> IntKind {
    match t {
        TypeView::Int(k) => k,
        _ => IntKind::I64,
    }
}

/// Is this the type of strings, structs, enums, arrays or functions? Values of
/// these are the addresses of objects.
pub open spec fn is_object(t: TypeView) -> bool {
    t is Str || t is Struct || t is Enum || t is Array || t is Fn
}

pub open spec fn is_value(t: TypeView) -> bool {
    is_scalar(t) || t is Float || is_object(t)
}

/// Is `x` an integer of the type, the word of a floating-point number, or an
/// address?
pub open spec fn in_range(t: TypeView, x: int) -> bool {
    match t {
        TypeView::Int(k) => k.holds(x),
        _ => 0 <= x < modulus(),
    }
}

/// A value that was found, in this world.
pub open spec fn found(x: Option<int>, w: World) -> Reply {
    match x {
        Some(x) => Reply::Value(x, w),
        None => Reply::Unfinished,
    }
}

/// A new object, if there is memory for it.
pub open spec fn fresh(r: Option<(int, World)>) -> Reply {
    match r {
        Some((a, w)) => Reply::Value(a, w),
        None => Reply::Unfinished,
    }
}

/// A length, which is an integer.
pub open spec fn length(n: nat, w: World) -> Reply {
    if n < 0x8000_0000_0000_0000 {
        Reply::Value(n as int, w)
    } else {
        Reply::Unfinished
    }
}

/// The types of a struct's fields, as they are laid out.
pub open spec fn fields_of(checked: CheckedView, t: TypeView) -> Seq<TypeView> {
    struct_types(checked, t->Struct_0, t->Struct_1)
}

/// The types in a variant of an enum, as they are laid out.
pub open spec fn payload_of(checked: CheckedView, t: TypeView, tag: u32) -> Seq<TypeView> {
    variant_types(checked, t->Enum_0, t->Enum_1, tag)
}

/// What an operator that is not logical makes of two values of a type. Strings
/// are equal if their bytes are.
pub open spec fn combined(op: BinOp, t: TypeView, x: int, y: int, line: u32, w: World) -> Reply {
    if t is Str {
        if !(0 <= x < modulus() && 0 <= y < modulus()) {
            Reply::Unfinished
        } else if op is Add {
            fresh(new_text(w, text_at(w, x) + text_at(w, y)))
        } else if op is Eq || op is Ne {
            truth_value((op is Eq) == (text_at(w, x) == text_at(w, y)), w)
        } else {
            Reply::Unfinished
        }
    } else if t is Float {
        if !(0 <= x < modulus() && 0 <= y < modulus()) {
            Reply::Unfinished
        } else if is_comparison(op) {
            truth_value(float_compares(op, x as u64, y as u64), w)
        } else {
            match calculated(op, x as u64, y as u64) {
                Some(z) => Reply::Value(z as int, w),
                None => Reply::Unfinished,
            }
        }
    } else if !fits_type(t, x) || !fits_type(t, y) {
        Reply::Unfinished
    } else if is_comparison(op) && (t is Int || op is Eq || op is Ne) {
        truth_value(compares(op, x, y), w)
    } else if t is Int {
        match operate(op, kind_of(t), x, y) {
            Some(o) => at_line(o, line, w),
            None => Reply::Unfinished,
        }
    } else {
        Reply::Unfinished
    }
}

/// The text that is printed of a value.
pub open spec fn shown(t: TypeView, x: int, w: World) -> Option<Seq<char>> {
    match t {
        TypeView::Int(k) => if k.holds(x) {
            Some(dec_int_text(x))
        } else {
            None
        },
        TypeView::Bool => if x == 1 {
            Some("true"@)
        } else if x == 0 {
            Some("false"@)
        } else {
            None
        },
        TypeView::Float => if 0 <= x < modulus() {
            Some(float_text(x as u64))
        } else {
            None
        },
        TypeView::Str => if 0 <= x < modulus() {
            shown_text(text_at(w, x))
        } else {
            None
        },
        _ => None,
    }
}

/// What a builtin of one operand makes of a value of a type.
pub open spec fn built(
    b: Builtin,
    t: TypeView,
    checked: CheckedView,
    x: int,
    line: u32,
    w: World,
) -> Reply {
    match b {
        Builtin::Print => match shown(t, x, w) {
            Some(text) => Reply::Nothing(w.print(text)),
            None => Reply::Unfinished,
        },
        Builtin::Println => match shown(t, x, w) {
            Some(text) => Reply::Nothing(w.print(text).print("\n"@)),
            None => Reply::Unfinished,
        },
        Builtin::Len => if t is Str {
            length(aux(w, x), w)
        } else {
            length(array_len(w, x), w)
        },
        Builtin::Pop => if !(t is Array) || !is_value(*t->Array_0) || !(0 <= x < modulus()) {
            Reply::Unfinished
        } else {
            let ty = *t->Array_0;
            match popped(w, x, ty.storage() as nat) {
                None => Reply::Panic(Rt::ArrayPop, line, w),
                Some((raw, w1)) => found(value_in(ty, raw as nat), w1),
            }
        },
        Builtin::Itos => if t is Int && kind_of(t).holds(x) {
            fresh(new_text(w, ascii(dec_int_text(x))))
        } else {
            Reply::Unfinished
        },
        Builtin::Itof => if t is Int && kind_of(t).holds(x) {
            Reply::Value(nearest_float(x) as int, w)
        } else {
            Reply::Unfinished
        },
        Builtin::Stoi => if !(0 <= x < modulus()) {
            Reply::Unfinished
        } else {
            match int_in(text_at(w, x)) {
                Some(v) => Reply::Value(v, w),
                None => Reply::Panic(Rt::Stoi, line, w),
            }
        },
        Builtin::Ftos => if t is Float && 0 <= x < modulus() {
            fresh(new_text(w, ascii(float_text(x as u64))))
        } else {
            Reply::Unfinished
        },
        Builtin::Stof => if !(0 <= x < modulus()) {
            Reply::Unfinished
        } else {
            match float_in(text_at(w, x)) {
                Some(v) => Reply::Value(v as int, w),
                None => Reply::Panic(Rt::Stof, line, w),
            }
        },
        Builtin::Stob => if !(0 <= x < modulus()) {
            Reply::Unfinished
        } else {
            fresh(new_bytes(w, text_at(w, x)))
        },
        Builtin::Btos => if !(0 <= x < modulus()) {
            Reply::Unfinished
        } else if shown_text(bytes_at(w, x)) is Some {
            fresh(new_text(w, bytes_at(w, x)))
        } else {
            Reply::Panic(Rt::Btos, line, w)
        },
        Builtin::Assert => if x == 1 {
            Reply::Nothing(w)
        } else if x == 0 {
            Reply::Panic(Rt::AssertFail, line, w)
        } else {
            Reply::Unfinished
        },
        // The first variant of an `Option` is the one with a value.
        Builtin::Unwrap => if aux(w, x) != 0 {
            Reply::Panic(Rt::PanicUnwrap, line, w)
        } else {
            found(read(w, t->Enum_1[0], beyond(x, place(payload_of(checked, t, 0), 0) as int)), w)
        },
        _ => Reply::Unfinished,
    }
}

/// The element of a string or an array at an index. No array is longer than
/// its indices reach.
pub open spec fn element_of(
    t: TypeView,
    ty: TypeView,
    a: int,
    k: IntKind,
    i: int,
    line: u32,
    w: World,
) -> Reply {
    let n = if t is Str {
        aux(w, a)
    } else {
        array_len(w, a)
    };
    if n >= 0x8000_0000_0000_0000 || !k.holds(i) || !(t is Str || t == TypeView::Array(
        Box::new(ty),
    )) {
        Reply::Unfinished
    } else if !(0 <= i < n) {
        Reply::Panic(Rt::PanicBounds, line, w)
    } else if t is Str {
        Reply::Value(fetch(w.mem, beyond(a, 16 + i), 1) as int, w)
    } else {
        found(read(w, ty, element(w, a, i, ty.storage() as nat)), w)
    }
}

// -- Code -------------------------------------------------------------------

/// What came before a place is as it was, but for the world.
pub open spec fn framed(new: Machine, prior: Machine, below: int) -> bool {
    &&& new.vars == prior.vars
    &&& new.args == prior.args
    &&& new.around == prior.around
    &&& forall|i: int| 0 <= i < below ==> #[trigger] new.vals[i] == prior.vals[i]
}

/// The machine, about to run the code that `end` adds to `st`, does as the
/// reply says: it panics, or goes on behind that code with a value, if there is
/// one, at place `v`.
pub open spec fn replies(
    ops: Seq<Op>,
    m: Machine,
    st: LowView,
    end: LowView,
    v: usize,
    r: Reply,
) -> bool {
    match r {
        Reply::Unfinished => true,
        Reply::Panic(rt, line, w) => leads(ops, m, End::Panic(rt, line, w)),
        Reply::Nothing(w) => exists|m2: Machine| #[trigger]
            leads(ops, m, End::At(m2)) && m2.at == end.f.ops.len() && m2.world == w && framed(
                m2,
                m,
                st.f.ops.len() as int,
            ),
        Reply::Value(x, w) => exists|m2: Machine| #[trigger]
            leads(ops, m, End::At(m2)) && m2.at == end.f.ops.len() && m2.vals[v as int] == word(x)
                && m2.world == w && framed(m2, m, st.f.ops.len() as int),
    }
}

pub proof fn lemma_begins(ops: Seq<Op>, end: LowView, mid: LowView)
    requires
        begins(ops, end),
        mid.f.ops.len() <= end.f.ops.len(),
        forall|i: int| 0 <= i < mid.f.ops.len() ==> #[trigger] end.f.ops[i] == mid.f.ops[i],
    ensures
        begins(ops, mid),
{
    assert forall|i: int| 0 <= i < mid.f.ops.len() implies #[trigger] ops[i] == mid.f.ops[i] by {
        assert(ops[i] == end.f.ops[i]);
    }
}

pub proof fn lemma_literal(v: u64, k: IntKind)
    ensures
        word((v as i64) as int) == v,
        word(decode(k, v)) == v,
{
    assert(v >= 0x8000_0000_0000_0000u64 ==> v as i64 == v - 0x1_0000_0000_0000_0000)
        by (bit_vector);
    assert(v < 0x8000_0000_0000_0000u64 ==> v as i64 == v) by (bit_vector);
    lemma_word(signed(v));
}

// -- Addresses --------------------------------------------------------------

/// Addresses wrap around, wherever one starts.
pub proof fn lemma_beyond(m: Machine, a: usize, off: i32, r: int)
    requires
        m.vals[a as int] == word(r),
    ensures
        address(m, a, off) == beyond(r, off as int),
{
    lemma_word_add(r, off as int);
}

pub proof fn lemma_word_add(x: int, y: int)
    ensures
        word(word(x) + y) == word(x + y),
        word(x + word(y)) == word(x + y),
{
    vstd::arithmetic::div_mod::lemma_add_mod_noop(x, y, modulus());
    vstd::arithmetic::div_mod::lemma_add_mod_noop(x % modulus(), y, modulus());
    vstd::arithmetic::div_mod::lemma_add_mod_noop(x, y % modulus(), modulus());
    vstd::arithmetic::div_mod::lemma_mod_twice(x, modulus());
    vstd::arithmetic::div_mod::lemma_mod_twice(y, modulus());
}

pub proof fn lemma_word_mul(x: int, y: int)
    ensures
        word(word(x) * y) == word(x * y),
{
    vstd::arithmetic::div_mod::lemma_mul_mod_noop_left(x, y, modulus());
}

// -- Single instructions ----------------------------------------------------

/// The machine has gone on by one instruction that gave a value.
pub open spec fn with(m: Machine, v: u64) -> Machine {
    Machine { at: m.at + 1, vals: m.vals.insert(m.at, v), ..m }
}

/// A root is marked where the value is a reference, and nothing happens.
pub proof fn lemma_rooted(
    ops: Seq<Op>,
    m: Machine,
    st: LowView,
    mid: LowView,
    ty: TypeView,
    v: usize,
    x: int,
)
    requires
        begins(ops, rooted(mid, ty, v)),
        m.at == mid.f.ops.len(),
        m.vals[v as int] == word(x),
    ensures
        replies(ops, m, st, rooted(mid, ty, v), v, Reply::Value(x, m.world)),
{
    let n = mid.f.ops.len() as int;
    if ty.is_reference() {
        let m1 = Machine { at: n + 1, ..m };
        assert(ops[n] == rooted(mid, ty, v).f.ops[n]);
        assert(step(ops, m) == Some(End::At(m1)));
        lemma_leads_step(ops, m, End::At(m1));
        assert(framed(m1, m, st.f.ops.len() as int));
    } else {
        lemma_leads_here(ops, m);
        assert(framed(m, m, st.f.ops.len() as int));
    }
}

/// A part has run; the rest goes on from there.
pub proof fn lemma_onward(
    ops: Seq<Op>,
    m: Machine,
    m1: Machine,
    st: LowView,
    end: LowView,
    v: usize,
    ev: Reply,
)
    requires
        leads(ops, m, End::At(m1)),
        framed(m1, m, st.f.ops.len() as int),
        replies(ops, m1, st, end, v, ev),
    ensures
        replies(ops, m, st, end, v, ev),
{
    let n = st.f.ops.len() as int;
    assert forall|m2: Machine| #[trigger] framed(m2, m1, n) implies framed(m2, m, n) by {
        assert forall|i: int| 0 <= i < n implies #[trigger] m2.vals[i] == m.vals[i] by {
            assert(m2.vals[i] == m1.vals[i]);
        }
    }
    match ev {
        Reply::Panic(rt, line, w) => {
            lemma_leads_on(ops, m, m1, End::Panic(rt, line, w));
        },
        Reply::Value(x, w) => {
            let m2 = choose|m2: Machine| #[trigger]
                leads(ops, m1, End::At(m2)) && m2.at == end.f.ops.len() && m2.vals[v as int]
                    == word(x) && m2.world == w && framed(m2, m1, n);
            lemma_leads_on(ops, m, m1, End::At(m2));
        },
        Reply::Nothing(w) => {
            let m2 = choose|m2: Machine| #[trigger]
                leads(ops, m1, End::At(m2)) && m2.at == end.f.ops.len() && m2.world == w && framed(
                    m2,
                    m1,
                    n,
                );
            lemma_leads_on(ops, m, m1, End::At(m2));
        },
        _ => {},
    }
}

/// A call of the runtime with one to three arguments, up to its result.
pub proof fn lemma_runtime(ops: Seq<Op>, m: Machine, st: LowView, rt: Rt, vs: Seq<usize>)
    requires
        m.at == st.f.ops.len(),
        m.args.len() == 0,
        st.f.ops.len() + vs.len() < ops.len(),
        forall|i: int|
            0 <= i < vs.len() ==> ops[#[trigger] (st.f.ops.len() + i)] == Op::Arg(vs[i]),
        ops[(st.f.ops.len() + vs.len()) as int] == Op::CallRt(rt),
    ensures
        ({
            let n = (st.f.ops.len() + vs.len()) as int;
            let args = Seq::new(vs.len(), |i: int| m.vals[vs[i] as int]);
            let m1 = Machine { at: n, args, ..m };
            &&& leads(ops, m, End::At(m1))
            &&& step(ops, m1) == behind(m1, runtime(m.around.layout, rt, args, m.world))
        }),
{
    lemma_handed(ops, m, vs, 0);
    let args = Seq::new(vs.len(), |i: int| m.vals[vs[i] as int]);
    assert(m.args + Seq::new((vs.len() - 0) as nat, |i: int| m.vals[vs[i + 0] as int]) =~= args);
}

proof fn lemma_handed(ops: Seq<Op>, m: Machine, vs: Seq<usize>, k: nat)
    requires
        k <= vs.len(),
        0 <= m.at,
        m.at + (vs.len() - k) <= ops.len(),
        forall|i: int| k <= i < vs.len() ==> ops[#[trigger] (m.at + i - k)] == Op::Arg(vs[i]),
    ensures
        leads(
            ops,
            m,
            End::At(
                Machine {
                    at: m.at + (vs.len() - k),
                    args: m.args + Seq::new(
                        (vs.len() - k) as nat,
                        |i: int| m.vals[vs[i + k] as int],
                    ),
                    ..m
                },
            ),
        ),
    decreases vs.len() - k,
{
    let rest = Seq::new((vs.len() - k) as nat, |i: int| m.vals[vs[i + k] as int]);
    let last = Machine { at: m.at + (vs.len() - k), args: m.args + rest, ..m };
    if k < vs.len() {
        assert(ops[m.at + k - k] == Op::Arg(vs[k as int]));
        let m1 = Machine { at: m.at + 1, args: m.args.push(m.vals[vs[k as int] as int]), ..m };
        assert(step(ops, m) == Some(End::At(m1)));
        assert forall|i: int| k + 1 <= i < vs.len() implies ops[#[trigger] (m1.at + i - (k + 1))]
            == Op::Arg(vs[i]) by {
            assert(ops[m.at + i - k] == Op::Arg(vs[i]));
        }
        lemma_handed(ops, m1, vs, k + 1);
        let less = Seq::new((vs.len() - (k + 1)) as nat, |i: int| m1.vals[vs[i + (k + 1)] as int]);
        assert(m1.args + less =~= m.args + rest);
        lemma_step_then(ops, m, m1, End::At(last));
    } else {
        assert(m.args + rest =~= m.args);
        assert(last == m);
        lemma_leads_here(ops, m);
    }
}

// -- Reading ----------------------------------------------------------------

/// The code that reads a value and roots it.
pub open spec fn load_code(st: LowView, ty: TypeView, base: usize, off: i32) -> (LowView, usize) {
    let (s, v) = load_typed(st, ty, base, off);
    (rooted(s, ty, v), v)
}

pub proof fn lemma_load_shape(st: LowView, ty: TypeView, base: usize, off: i32)
    ensures
        calm(load_code(st, ty, base, off).0, st),
        st.f.ops.len() < load_code(st, ty, base, off).0.f.ops.len(),
        load_code(st, ty, base, off).0.f.ops.len() <= usize::MAX ==> goes_on(
            load_code(st, ty, base, off).0,
            st,
        ),
{
    lemma_calm();
    write_load_typed(st, ty, base, off);
    let (s, v) = load_typed(st, ty, base, off);
    write_rooted(s, ty, v);
    reveal(calm);
    reveal(crate::writing::wrote);
    reveal(load_typed);
}

/// A value of a type that stands at an address is read, in canonical form.
pub proof fn law_load(ops: Seq<Op>, m: Machine, st: LowView, ty: TypeView, base: usize, off: i32, r: int)
    requires
        begins(ops, load_code(st, ty, base, off).0),
        ops.len() <= usize::MAX,
        ready(ops, m, st),
        m.vals[base as int] == word(r),
    ensures
        replies(
            ops,
            m,
            st,
            load_code(st, ty, base, off).0,
            load_code(st, ty, base, off).1,
            found(read(m.world, ty, beyond(r, off as int)), m.world),
        ),
{
    reveal(load_typed);
    let (end, v) = load_code(st, ty, base, off);
    let n = st.f.ops.len() as int;
    let a = beyond(r, off as int);
    let raw = fetch(m.world.mem, a, ty.storage() as nat);
    lemma_beyond(m, base, off, r);
    lemma_fetch_bound(m.world.mem, a, ty.storage() as nat);
    lemma_room();
    assert(ops[n] == end.f.ops[n]);
    let m1 = with(m, raw as u64);
    assert(framed(m1, m, n));
    if let Some(x) = read(m.world, ty, a) {
        assert(step(ops, m) == Some(End::At(m1)));
        lemma_leads_step(ops, m, End::At(m1));
        let (mid, _) = load_typed(st, ty, base, off);
        lemma_begins(ops, end, mid);
        if v == n {
            if let TypeView::Int(k) = ty {
                lemma_literal(raw as u64, k);
            } else {
                lemma_word(x);
            }
            lemma_rooted(ops, m1, st, mid, ty, v, x);
        } else {
            assert(ops[n + 1] == end.f.ops[n + 1]);
            assert(narrow_bits(ops[n]) == 8 * ty.storage());
            if x == raw {
                lemma_word(x);
            }
            let m2 = with(m1, word(x));
            assert(step(ops, m1) == Some(End::At(m2)));
            lemma_leads_step(ops, m1, End::At(m2));
            lemma_leads_on(ops, m, m1, End::At(m2));
            lemma_rooted(ops, m2, st, mid, ty, v, x);
            lemma_onward(ops, m, m2, st, end, v, Reply::Value(x, m.world));
        }
        if v == n {
            lemma_onward(ops, m, m1, st, end, v, Reply::Value(x, m.world));
        }
    }
}

// -- Builtins ---------------------------------------------------------------

/// A builtin of one operand does what it means.
pub proof fn law_built(
    ops: Seq<Op>,
    m: Machine,
    env: LowEnv,
    st: LowView,
    b: Builtin,
    t: TypeView,
    v: usize,
    line: u32,
    x: int,
)
    requires
        builtin_value(env, st, b, t, v, line) is Ok,
        begins(ops, builtin_value(env, st, b, t, v, line)->Ok_0.0),
        ops.len() <= usize::MAX,
        ready(ops, m, st),
        m.args.len() == 0,
        v < st.f.ops.len(),
        m.vals[v as int] == word(x),
    ensures
        built(b, t, env.checked, x, line, m.world) is Value ==> builtin_value(
            env,
            st,
            b,
            t,
            v,
            line,
        )->Ok_0.1 is Some,
        replies(
            ops,
            m,
            st,
            builtin_value(env, st, b, t, v, line)->Ok_0.0,
            builtin_value(env, st, b, t, v, line)->Ok_0.1->0,
            built(b, t, env.checked, x, line, m.world),
        ),
{
    reveal(builtin_value);
    match b {
        Builtin::Print => law_print(ops, m, st, t, v, x, false),
        Builtin::Println => law_print(ops, m, st, t, v, x, true),
        Builtin::Len => lemma_len(ops, m, st, t, v, x),
        Builtin::Pop => {
            if t is Array && is_value(*t->Array_0) && 0 <= x < modulus() {
                law_pop(ops, m, st, *t->Array_0, v, line, x);
            }
        },
        Builtin::Itos => {
            if t is Int && kind_of(t).holds(x) {
                law_itos(ops, m, st, t, v, x);
            }
        },
        Builtin::Itof => {
            if t is Int && kind_of(t).holds(x) {
                let end = builtin_value(env, st, b, t, v, line)->Ok_0.0;
                let n = st.f.ops.len() as int;
                assert(ops[n] == end.f.ops[n]);
                law_word_round_trip(kind_of(t), x);
                lemma_word(nearest_float(x) as int);
                let m1 = with(m, nearest_float(x));
                assert(step(ops, m) == Some(End::At(m1)));
                lemma_leads_step(ops, m, End::At(m1));
                assert(framed(m1, m, n));
            }
        },
        Builtin::Stoi => {
            if 0 <= x < modulus() {
                law_stoi(ops, m, st, v, line, x);
            }
        },
        Builtin::Ftos => {
            if t is Float && 0 <= x < modulus() {
                law_ftos(ops, m, st, v, x);
            }
        },
        Builtin::Stof => {
            if 0 <= x < modulus() {
                law_stof(ops, m, st, v, line, x);
            }
        },
        Builtin::Stob => {
            if 0 <= x < modulus() {
                law_stob(ops, m, st, v, x);
            }
        },
        Builtin::Btos => {
            if 0 <= x < modulus() {
                law_btos(ops, m, st, v, line, x);
            }
        },
        Builtin::Assert => {
            let end = put(st, Op::PanicUnless(v, Rt::AssertFail, line));
            let n = st.f.ops.len() as int;
            assert(ops[n] == end.f.ops[n]);
            lemma_word(0);
            lemma_word(1);
            if x == 1 {
                let m1 = Machine { at: n + 1, ..m };
                assert(step(ops, m) == Some(End::At(m1)));
                lemma_leads_step(ops, m, End::At(m1));
                assert(framed(m1, m, n));
            } else if x == 0 {
                lemma_leads_step(ops, m, End::Panic(Rt::AssertFail, line, m.world));
            }
        },
        Builtin::Unwrap => law_unwrap(ops, m, env, st, t, v, line, x),
        _ => {},
    }
}

/// A value is printed, and a line end behind it where one is wanted.
#[verifier::rlimit(40)]
pub proof fn law_print(
    ops: Seq<Op>,
    m: Machine,
    st: LowView,
    t: TypeView,
    v: usize,
    x: int,
    line_end: bool,
)
    requires
        ({
            let s = rt1(st, print_fn(t), v).0;
            begins(
                ops,
                if line_end {
                    put(s, Op::CallRt(Rt::PrintNewline))
                } else {
                    s
                },
            )
        }),
        ops.len() <= usize::MAX,
        ready(ops, m, st),
        m.args.len() == 0,
        m.vals[v as int] == word(x),
    ensures
        ({
            let s = rt1(st, print_fn(t), v).0;
            let end = if line_end {
                put(s, Op::CallRt(Rt::PrintNewline))
            } else {
                s
            };
            shown(t, x, m.world) matches Some(text) ==> replies(
                ops,
                m,
                st,
                end,
                0,
                Reply::Nothing(
                    if line_end {
                        m.world.print(text).print("\n"@)
                    } else {
                        m.world.print(text)
                    },
                ),
            )
        }),
{
    let rt = print_fn(t);
    let s = rt1(st, rt, v).0;
    let end = if line_end {
        put(s, Op::CallRt(Rt::PrintNewline))
    } else {
        s
    };
    let n = st.f.ops.len() as int;
    assert(ops[n + 0] == end.f.ops[n + 0] && ops[n + 1] == end.f.ops[n + 1]);
    if let Some(text) = shown(t, x, m.world) {
        lemma_runtime(ops, m, st, rt, seq![v]);
        lemma_word(x);
        let args = Seq::new(1, |i: int| m.vals[seq![v][i] as int]);
        assert(args[0] == word(x));
        let w = m.world.print(text);
        assert(runtime(m.around.layout, rt, args, m.world) == Called::Done(None, w)) by {
            reveal(runtime);
        }
        let m1 = Machine { at: n + 1, args, ..m };
        let m2 = Machine { at: n + 2, args: Seq::empty(), world: w, ..m };
        assert(step(ops, m1) == Some(End::At(m2)));
        lemma_leads_step(ops, m1, End::At(m2));
        lemma_leads_on(ops, m, m1, End::At(m2));
        assert(m2.args =~= m.args);
        assert(framed(m2, m, n));
        if line_end {
            assert(ops[n + 2] == end.f.ops[n + 2]);
            let w3 = w.print("\n"@);
            assert(runtime(m.around.layout, Rt::PrintNewline, m2.args, w) == Called::Done(None, w3))
                by {
                reveal(runtime);
            }
            let m3 = Machine { at: n + 3, args: Seq::empty(), world: w3, ..m };
            assert(step(ops, m2) == Some(End::At(m3)));
            lemma_leads_step(ops, m2, End::At(m3));
            lemma_leads_on(ops, m, m2, End::At(m3));
            assert(m3.args =~= m.args);
            assert(framed(m3, m, n));
        }
    }
}

/// A field of an object is read.
pub proof fn law_field(
    ops: Seq<Op>,
    m: Machine,
    env: LowEnv,
    st: LowView,
    t: TypeView,
    index: u32,
    ty: TypeView,
    v: usize,
    line: u32,
    x: int,
)
    requires
        field_value(env, st, t, index, ty, v, line) is Ok,
        begins(ops, field_value(env, st, t, index, ty, v, line)->Ok_0.0),
        ops.len() <= usize::MAX,
        ready(ops, m, st),
        m.vals[v as int] == word(x),
    ensures
        replies(
            ops,
            m,
            st,
            field_value(env, st, t, index, ty, v, line)->Ok_0.0,
            field_value(env, st, t, index, ty, v, line)->Ok_0.1,
            found(
                read(m.world, ty, beyond(x, place(fields_of(env.checked, t), index) as int)),
                m.world,
            ),
        ),
{
    reveal(field_value);
    law_load(ops, m, st, ty, v, place(fields_of(env.checked, t), index), x);
}

proof fn lemma_len(ops: Seq<Op>, m: Machine, st: LowView, t: TypeView, v: usize, x: int)
    requires
        ({
            let off = if t is Str {
                AUX
            } else {
                ARR_LEN
            };
            begins(ops, put(st, Op::Load(IrType::I64, v, off)))
        }),
        ops.len() <= usize::MAX,
        ready(ops, m, st),
        m.vals[v as int] == word(x),
    ensures
        ({
            let off = if t is Str {
                AUX
            } else {
                ARR_LEN
            };
            let n = if t is Str {
                aux(m.world, x)
            } else {
                array_len(m.world, x)
            };
            replies(
                ops,
                m,
                st,
                put(st, Op::Load(IrType::I64, v, off)),
                next(st),
                length(n, m.world),
            )
        }),
{
    let off = if t is Str {
        AUX
    } else {
        ARR_LEN
    };
    let n = st.f.ops.len() as int;
    assert(ops[n] == put(st, Op::Load(IrType::I64, v, off)).f.ops[n]);
    let raw = fetch(m.world.mem, beyond(x, off as int), 8);
    lemma_beyond(m, v, off, x);
    lemma_fetch_bound(m.world.mem, beyond(x, off as int), 8);
    lemma_room();
    lemma_word(raw as int);
    let m1 = with(m, raw as u64);
    assert(step(ops, m) == Some(End::At(m1)));
    lemma_leads_step(ops, m, End::At(m1));
    assert(framed(m1, m, n));
}

/// An integer's digits become a new string.
pub proof fn law_itos(ops: Seq<Op>, m: Machine, st: LowView, t: TypeView, v: usize, x: int)
    requires
        t is Int,
        in_range(t, x),
        ({
            let (s, y) = rt1(
                st,
                if signed_type(t) {
                    Rt::Itos
                } else {
                    Rt::Utos
                },
                v,
            );
            begins(ops, put(s, Op::Root(y)))
        }),
        ops.len() <= usize::MAX,
        ready(ops, m, st),
        m.args.len() == 0,
        m.vals[v as int] == word(x),
    ensures
        ({
            let (s, y) = rt1(
                st,
                if signed_type(t) {
                    Rt::Itos
                } else {
                    Rt::Utos
                },
                v,
            );
            replies(
                ops,
                m,
                st,
                put(s, Op::Root(y)),
                y,
                fresh(new_text(m.world, ascii(dec_int_text(x)))),
            )
        }),
{
    reveal(runtime);
    let rt = if signed_type(t) {
        Rt::Itos
    } else {
        Rt::Utos
    };
    let (s, y) = rt1(st, rt, v);
    let end = put(s, Op::Root(y));
    let n = st.f.ops.len() as int;
    assert(ops[n + 0] == end.f.ops[n + 0] && ops[n + 1] == end.f.ops[n + 1] && ops[n + 2]
        == end.f.ops[n + 2]);
    lemma_runtime(ops, m, st, rt, seq![v]);
    lemma_word(x);
    let args = Seq::new(1, |i: int| m.vals[seq![v][i] as int]);
    assert(args[0] == word(x));
    let made_text = new_text(m.world, ascii(dec_int_text(x)));
    assert(runtime(m.around.layout, rt, args, m.world) == made(made_text));
    lemma_made(ops, m, Machine { at: n + 1, args, ..m }, st, s, end, y, made_text);
}

/// The text of a floating-point number becomes a new string.
proof fn law_ftos(ops: Seq<Op>, m: Machine, st: LowView, v: usize, x: int)
    requires
        0 <= x < modulus(),
        ({
            let (s, y) = rt1(st, Rt::Ftos, v);
            begins(ops, put(s, Op::Root(y)))
        }),
        ops.len() <= usize::MAX,
        ready(ops, m, st),
        m.args.len() == 0,
        m.vals[v as int] == word(x),
    ensures
        ({
            let (s, y) = rt1(st, Rt::Ftos, v);
            replies(
                ops,
                m,
                st,
                put(s, Op::Root(y)),
                y,
                fresh(new_text(m.world, ascii(float_text(x as u64)))),
            )
        }),
{
    reveal(runtime);
    let (s, y) = rt1(st, Rt::Ftos, v);
    let end = put(s, Op::Root(y));
    let n = st.f.ops.len() as int;
    assert(ops[n + 0] == end.f.ops[n + 0] && ops[n + 1] == end.f.ops[n + 1] && ops[n + 2]
        == end.f.ops[n + 2]);
    lemma_runtime(ops, m, st, Rt::Ftos, seq![v]);
    lemma_word(x);
    let args = Seq::new(1, |i: int| m.vals[seq![v][i] as int]);
    assert(args[0] == word(x));
    let made_text = new_text(m.world, ascii(float_text(x as u64)));
    assert(runtime(m.around.layout, Rt::Ftos, args, m.world) == made(made_text));
    lemma_made(ops, m, Machine { at: n + 1, args, ..m }, st, s, end, y, made_text);
}

/// The floating-point number that a string writes, or a panic with the line.
proof fn law_stof(ops: Seq<Op>, m: Machine, st: LowView, v: usize, line: u32, x: int)
    requires
        begins(ops, rt2(put(st, Op::Iconst(line as i64)), Rt::Stof, v, next(st)).0),
        ops.len() <= usize::MAX,
        ready(ops, m, st),
        m.args.len() == 0,
        v < st.f.ops.len(),
        m.vals[v as int] == word(x),
        0 <= x < modulus(),
    ensures
        ({
            let (s, y) = rt2(put(st, Op::Iconst(line as i64)), Rt::Stof, v, next(st));
            replies(
                ops,
                m,
                st,
                s,
                y,
                match float_in(text_at(m.world, x)) {
                    Some(k) => Reply::Value(k as int, m.world),
                    None => Reply::Panic(Rt::Stof, line, m.world),
                },
            )
        }),
{
    let (s, y) = rt2(put(st, Op::Iconst(line as i64)), Rt::Stof, v, next(st));
    let n = st.f.ops.len() as int;
    let m1 = lemma_with_line(ops, m, st, Rt::Stof, v, line, x);
    let got = float_in(text_at(m.world, x));
    assert((line as u64) as u32 == line);
    assert(runtime(m.around.layout, Rt::Stof, m1.args, m.world) == (match got {
        Some(k) => Called::Done(Some(k), m.world),
        None => Called::Panic(Rt::Stof, line, m.world),
    })) by {
        reveal(runtime);
    }
    match got {
        Some(k) => {
            let r = Reply::Value(k as int, m.world);
            let m2 = Machine {
                at: n + 4,
                vals: m1.vals.insert(n + 3, k),
                args: Seq::empty(),
                ..m1
            };
            lemma_word(k as int);
            assert(step(ops, m1) == Some(End::At(m2)));
            lemma_leads_step(ops, m1, End::At(m2));
            lemma_leads_on(ops, m, m1, End::At(m2));
            assert(m2.args =~= m.args);
            assert(framed(m2, m, n));
            assert(y == n + 3);
            lemma_leads_here(ops, m2);
            assert(replies(ops, m2, st, s, y, r));
            lemma_onward(ops, m, m2, st, s, y, r);
        },
        None => {
            lemma_leads_step(ops, m1, End::Panic(Rt::Stof, line, m.world));
            lemma_leads_on(ops, m, m1, End::Panic(Rt::Stof, line, m.world));
        },
    }
}

/// The bytes of a string become those of a new array.
proof fn law_stob(ops: Seq<Op>, m: Machine, st: LowView, v: usize, x: int)
    requires
        ({
            let (s, y) = rt1(st, Rt::Stob, v);
            begins(ops, put(s, Op::Root(y)))
        }),
        ops.len() <= usize::MAX,
        ready(ops, m, st),
        m.args.len() == 0,
        m.vals[v as int] == word(x),
        0 <= x < modulus(),
    ensures
        ({
            let (s, y) = rt1(st, Rt::Stob, v);
            replies(
                ops,
                m,
                st,
                put(s, Op::Root(y)),
                y,
                fresh(new_bytes(m.world, text_at(m.world, x))),
            )
        }),
{
    reveal(runtime);
    let (s, y) = rt1(st, Rt::Stob, v);
    let end = put(s, Op::Root(y));
    let n = st.f.ops.len() as int;
    assert(ops[n + 0] == end.f.ops[n + 0] && ops[n + 1] == end.f.ops[n + 1] && ops[n + 2]
        == end.f.ops[n + 2]);
    lemma_runtime(ops, m, st, Rt::Stob, seq![v]);
    lemma_word(x);
    let args = Seq::new(1, |i: int| m.vals[seq![v][i] as int]);
    assert(args[0] == word(x));
    let made_bytes = new_bytes(m.world, text_at(m.world, x));
    assert(runtime(m.around.layout, Rt::Stob, args, m.world) == made(made_bytes));
    lemma_made(ops, m, Machine { at: n + 1, args, ..m }, st, s, end, y, made_bytes);
}

/// A conversion that may panic is called with a value and the line.
proof fn lemma_with_line(
    ops: Seq<Op>,
    m: Machine,
    st: LowView,
    rt: Rt,
    v: usize,
    line: u32,
    x: int,
) -> (r: Machine)
    requires
        begins(ops, rt2(put(st, Op::Iconst(line as i64)), rt, v, next(st)).0),
        ops.len() <= usize::MAX,
        ready(ops, m, st),
        m.args.len() == 0,
        v < st.f.ops.len(),
        m.vals[v as int] == word(x),
        0 <= x < modulus(),
    ensures
        leads(ops, m, End::At(r)),
        r.at == st.f.ops.len() + 3,
        r.args == seq![x as u64, line as u64],
        r.vars == m.vars,
        r.world == m.world,
        r.around == m.around,
        forall|i: int| 0 <= i < st.f.ops.len() ==> #[trigger] r.vals[i] == m.vals[i],
        step(ops, r) == behind(r, runtime(m.around.layout, rt, r.args, m.world)),
{
    let s0 = put(st, Op::Iconst(line as i64));
    let (s, y) = rt2(s0, rt, v, next(st));
    let n = st.f.ops.len() as int;
    assert(ops[n] == s.f.ops[n] && ops[n + 1] == s.f.ops[n + 1] && ops[n + 2] == s.f.ops[n + 2]
        && ops[n + 3] == s.f.ops[n + 3]);
    lemma_word(line as int);
    lemma_word(x);
    let m1 = with(m, line as u64);
    assert(step(ops, m) == Some(End::At(m1)));
    lemma_leads_step(ops, m, End::At(m1));
    let vs = seq![v, next(st)];
    assert(ops[n + 1 + 0] == Op::Arg(vs[0]) && ops[n + 1 + 1] == Op::Arg(vs[1]));
    lemma_runtime(ops, m1, s0, rt, vs);
    let args = Seq::new(2, |i: int| m1.vals[vs[i] as int]);
    assert(args =~= seq![x as u64, line as u64]);
    let r = Machine { at: n + 3, args, ..m1 };
    lemma_leads_on(ops, m, m1, End::At(r));
    r
}

/// The integer that a string writes, or a panic with the line.
proof fn law_stoi(ops: Seq<Op>, m: Machine, st: LowView, v: usize, line: u32, x: int)
    requires
        begins(ops, rt2(put(st, Op::Iconst(line as i64)), Rt::Stoi, v, next(st)).0),
        ops.len() <= usize::MAX,
        ready(ops, m, st),
        m.args.len() == 0,
        v < st.f.ops.len(),
        m.vals[v as int] == word(x),
        0 <= x < modulus(),
    ensures
        ({
            let (s, y) = rt2(put(st, Op::Iconst(line as i64)), Rt::Stoi, v, next(st));
            replies(
                ops,
                m,
                st,
                s,
                y,
                match int_in(text_at(m.world, x)) {
                    Some(k) => Reply::Value(k, m.world),
                    None => Reply::Panic(Rt::Stoi, line, m.world),
                },
            )
        }),
{
    let (s, y) = rt2(put(st, Op::Iconst(line as i64)), Rt::Stoi, v, next(st));
    let n = st.f.ops.len() as int;
    let m1 = lemma_with_line(ops, m, st, Rt::Stoi, v, line, x);
    let got = int_in(text_at(m.world, x));
    assert((line as u64) as u32 == line);
    assert(runtime(m.around.layout, Rt::Stoi, m1.args, m.world) == (match got {
        Some(k) => Called::Done(Some(word(k)), m.world),
        None => Called::Panic(Rt::Stoi, line, m.world),
    })) by {
        reveal(runtime);
    }
    match got {
        Some(k) => {
            let m2 = Machine {
                at: n + 4,
                vals: m1.vals.insert(n + 3, word(k)),
                args: Seq::empty(),
                ..m1
            };
            assert(step(ops, m1) == Some(End::At(m2)));
            lemma_leads_step(ops, m1, End::At(m2));
            lemma_leads_on(ops, m, m1, End::At(m2));
            assert(m2.args =~= m.args);
            assert(framed(m2, m, n));
            assert(y == n + 3);
            lemma_leads_here(ops, m2);
            assert(replies(ops, m2, st, s, y, Reply::Value(k, m.world)));
            lemma_onward(ops, m, m2, st, s, y, Reply::Value(k, m.world));
        },
        None => {
            lemma_leads_step(ops, m1, End::Panic(Rt::Stoi, line, m.world));
            lemma_leads_on(ops, m, m1, End::Panic(Rt::Stoi, line, m.world));
        },
    }
}

/// The bytes of an array become a new string where they are UTF-8; else the
/// panic carries the line.
proof fn law_btos(ops: Seq<Op>, m: Machine, st: LowView, v: usize, line: u32, x: int)
    requires
        ({
            let (s, y) = rt2(put(st, Op::Iconst(line as i64)), Rt::Btos, v, next(st));
            begins(ops, put(s, Op::Root(y)))
        }),
        ops.len() <= usize::MAX,
        ready(ops, m, st),
        m.args.len() == 0,
        v < st.f.ops.len(),
        m.vals[v as int] == word(x),
        0 <= x < modulus(),
    ensures
        ({
            let (s, y) = rt2(put(st, Op::Iconst(line as i64)), Rt::Btos, v, next(st));
            let bytes = bytes_at(m.world, x);
            replies(
                ops,
                m,
                st,
                put(s, Op::Root(y)),
                y,
                if shown_text(bytes) is Some {
                    fresh(new_text(m.world, bytes))
                } else {
                    Reply::Panic(Rt::Btos, line, m.world)
                },
            )
        }),
{
    let (s, y) = rt2(put(st, Op::Iconst(line as i64)), Rt::Btos, v, next(st));
    let end = put(s, Op::Root(y));
    lemma_begins(ops, end, s);
    let m1 = lemma_with_line(ops, m, st, Rt::Btos, v, line, x);
    let bytes = bytes_at(m.world, x);
    assert((line as u64) as u32 == line);
    assert(runtime(m.around.layout, Rt::Btos, m1.args, m.world) == (if shown_text(
        bytes,
    ) is Some {
        made(new_text(m.world, bytes))
    } else {
        Called::Panic(Rt::Btos, line, m.world)
    })) by {
        reveal(runtime);
    }
    if shown_text(bytes) is Some {
        lemma_made_behind(ops, m, m1, st, s, end, y, new_text(m.world, bytes));
    } else {
        lemma_leads_step(ops, m1, End::Panic(Rt::Btos, line, m.world));
        lemma_leads_on(ops, m, m1, End::Panic(Rt::Btos, line, m.world));
    }
}

/// A call behind a constant that makes an object is followed by nothing but a
/// root.
proof fn lemma_made_behind(
    ops: Seq<Op>,
    m: Machine,
    m1: Machine,
    st: LowView,
    s: LowView,
    end: LowView,
    y: usize,
    r: Option<(int, World)>,
)
    requires
        leads(ops, m, End::At(m1)),
        m1.vars == m.vars,
        m1.around == m.around,
        forall|i: int| 0 <= i < st.f.ops.len() ==> #[trigger] m1.vals[i] == m.vals[i],
        m.args.len() == 0,
        st.f.ops.len() <= m1.at,
        step(ops, m1) == behind(m1, made(r)),
        s.f.ops.len() == m1.at + 1,
        y == m1.at,
        end == put(s, Op::Root(y)),
        begins(ops, end),
    ensures
        replies(ops, m, st, end, y, fresh(r)),
{
    if let Some((a, w)) = r {
        let m2 = Machine {
            at: m1.at + 1,
            vals: m1.vals.insert(m1.at, word(a)),
            args: Seq::empty(),
            world: w,
            ..m1
        };
        assert(step(ops, m1) == Some(End::At(m2)));
        lemma_leads_step(ops, m1, End::At(m2));
        lemma_leads_on(ops, m, m1, End::At(m2));
        assert(m2.args =~= m.args);
        assert(framed(m2, m, st.f.ops.len() as int));
        lemma_rooted(ops, m2, st, s, TypeView::Str, y, a);
        lemma_onward(ops, m, m2, st, end, y, Reply::Value(a, w));
    }
}

/// A call that makes an object is followed by nothing but a root.
proof fn lemma_made(
    ops: Seq<Op>,
    m: Machine,
    m1: Machine,
    st: LowView,
    s: LowView,
    end: LowView,
    y: usize,
    r: Option<(int, World)>,
)
    requires
        leads(ops, m, End::At(m1)),
        m1 == (Machine { at: m1.at, args: m1.args, ..m }),
        m.args.len() == 0,
        st.f.ops.len() <= m1.at,
        step(ops, m1) == behind(m1, made(r)),
        s.f.ops.len() == m1.at + 1,
        y == m1.at,
        end == put(s, Op::Root(y)),
        begins(ops, end),
    ensures
        replies(ops, m, st, end, y, fresh(r)),
{
    if let Some((a, w)) = r {
        let m2 = Machine {
            at: m1.at + 1,
            vals: m1.vals.insert(m1.at, word(a)),
            args: Seq::empty(),
            world: w,
            ..m1
        };
        assert(step(ops, m1) == Some(End::At(m2)));
        lemma_leads_step(ops, m1, End::At(m2));
        lemma_leads_on(ops, m, m1, End::At(m2));
        assert(m2.args =~= m.args);
        assert(framed(m2, m, st.f.ops.len() as int));
        lemma_rooted(ops, m2, st, s, TypeView::Str, y, a);
        lemma_onward(ops, m, m2, st, end, y, Reply::Value(a, w));
    }
}

/// The last element of an array is given and leaves it; where there is none,
/// the panic carries the line.
#[verifier::rlimit(80)]
pub proof fn law_pop(ops: Seq<Op>, m: Machine, st: LowView, ty: TypeView, v: usize, line: u32, x: int)
    requires
        is_value(ty),
        begins(ops, array_pop(st, ty, v, line).0),
        ops.len() <= usize::MAX,
        ready(ops, m, st),
        m.args.len() == 0,
        v < st.f.ops.len(),
        m.vals[v as int] == word(x),
        0 <= x < modulus(),
    ensures
        replies(
            ops,
            m,
            st,
            array_pop(st, ty, v, line).0,
            array_pop(st, ty, v, line).1,
            match popped(m.world, x, ty.storage() as nat) {
                None => Reply::Panic(Rt::ArrayPop, line, m.world),
                Some((raw, w1)) => found(value_in(ty, raw as nat), w1),
            },
        ),
{
    reveal(array_pop);
    let (end, y) = array_pop(st, ty, v, line);
    let n = st.f.ops.len() as int;
    let size = ty.storage();
    assert(end.f.ops.len() >= n + 6);
    assert(ops[n] == end.f.ops[n] && ops[n + 1] == end.f.ops[n + 1] && ops[n + 2] == end.f.ops[n + 2]
        && ops[n + 3] == end.f.ops[n + 3] && ops[n + 4] == end.f.ops[n + 4] && ops[n + 5]
        == end.f.ops[n + 5]);
    lemma_word(size as int);
    lemma_word(line as int);
    lemma_word(x);
    let m1 = with(m, size as u64);
    let m2 = with(m1, line as u64);
    assert(step(ops, m) == Some(End::At(m1)));
    assert(step(ops, m1) == Some(End::At(m2)));
    lemma_leads_step(ops, m1, End::At(m2));
    lemma_step_then(ops, m, m1, End::At(m2));
    let s0 = put(st, Op::Iconst(size as i64));
    let s1 = put(s0, Op::Iconst(line as i64));
    let vs = seq![v, next(st), next(s0)];
    assert(ops[n + 2 + 0] == Op::Arg(vs[0]) && ops[n + 2 + 1] == Op::Arg(vs[1]) && ops[n + 2 + 2]
        == Op::Arg(vs[2]));
    lemma_runtime(ops, m2, s1, Rt::ArrayPop, vs);
    let args = Seq::new(3, |i: int| m2.vals[vs[i] as int]);
    assert(args[0] == word(x) && args[1] == size as u64 && args[2] == line as u64);
    let m3 = Machine { at: n + 5, args, ..m2 };
    lemma_leads_on(ops, m, m2, End::At(m3));
    assert((line as u64) as u32 == line);
    lemma_pop_called(m.around.layout, args, m.world);
    match popped(m.world, x, size as nat) {
        None => {
            lemma_leads_step(ops, m3, End::Panic(Rt::ArrayPop, line, m.world));
            lemma_leads_on(ops, m, m3, End::Panic(Rt::ArrayPop, line, m.world));
        },
        Some((raw, w1)) => {
            let m4 = Machine {
                at: n + 6,
                vals: m3.vals.insert(n + 5, raw),
                args: Seq::empty(),
                world: w1,
                ..m3
            };
            assert(step(ops, m3) == Some(End::At(m4)));
            lemma_leads_step(ops, m3, End::At(m4));
            lemma_leads_on(ops, m, m3, End::At(m4));
            assert(m4.args =~= m.args);
            assert(framed(m4, m, n));
            lemma_fetch_bound(
                m.world.mem,
                element(m.world, x, array_len(m.world, x) - 1, size as nat),
                size as nat,
            );
            lemma_room();
            if let Some(z) = value_in(ty, raw as nat) {
                let (s2, _) = rt3(s1, Rt::ArrayPop, v, next(st), next(s0));
                lemma_popped(ops, m4, st, s2, ty, raw, z, end, y);
                lemma_onward(ops, m, m4, st, end, y, Reply::Value(z, w1));
            }
        },
    }
}

proof fn lemma_pop_called(layout: Layout, args: Seq<u64>, w: World)
    requires
        args.len() == 3,
    ensures
        runtime(layout, Rt::ArrayPop, args, w) == (match popped(w, args[0] as int, args[1] as nat) {
            Some((x, w1)) => Called::Done(Some(x), w1),
            None => Called::Panic(Rt::ArrayPop, args[2] as u32, w),
        }),
{
    reveal(runtime);
}

/// A word from the runtime is brought into canonical form.
#[verifier::rlimit(60)]
proof fn lemma_popped(
    ops: Seq<Op>,
    m: Machine,
    st: LowView,
    s2: LowView,
    ty: TypeView,
    raw: u64,
    z: int,
    end: LowView,
    y: usize,
)
    requires
        is_value(ty),
        ops.len() <= usize::MAX,
        m.at == s2.f.ops.len() > 0,
        st.f.ops.len() <= m.at,
        raw < room(ty.storage() as nat),
        value_in(ty, raw as nat) == Some(z),
        m.vals[m.at - 1] == raw,
        begins(ops, end),
        ({
            let at = (s2.f.ops.len() - 1) as usize;
            (end, y) == (match ty {
                TypeView::Float => (put(s2, Op::Unary(UnaryOp::BitsFloat, at)), next(s2)),
                TypeView::Int(k) => if k.width() < 64 && k.is_signed() {
                    let s3 = put(s2, Op::Unary(reduce_op(k), at));
                    (put(s3, Op::Unary(UnaryOp::Sextend, next(s2))), next(s3))
                } else {
                    (s2, at)
                },
                _ => (rooted(s2, ty, at), at),
            })
        }),
    ensures
        replies(ops, m, st, end, y, Reply::Value(z, m.world)),
{
    lemma_room();
    let n = m.at;
    let at = (n - 1) as usize;
    match ty {
        TypeView::Float => {
            assert(ops[n] == end.f.ops[n]);
            lemma_word(z);
            let m1 = with(m, raw);
            assert(step(ops, m) == Some(End::At(m1)));
            lemma_leads_step(ops, m, End::At(m1));
            assert(framed(m1, m, st.f.ops.len() as int));
        },
        TypeView::Int(k) => {
            if k.width() < 64 && k.is_signed() {
                assert(ops[n] == end.f.ops[n] && ops[n + 1] == end.f.ops[n + 1]);
                let m1 = with(m, raw);
                let m2 = with(m1, word(z));
                assert(raw as int % room(ty.storage() as nat) as int == raw);
                assert(step(ops, m) == Some(End::At(m1)));
                assert(narrow_bits(ops[n]) == k.width());
                assert(step(ops, m1) == Some(End::At(m2)));
                lemma_leads_step(ops, m1, End::At(m2));
                lemma_step_then(ops, m, m1, End::At(m2));
                assert(framed(m2, m, st.f.ops.len() as int));
            } else {
                if k.width() == 64 {
                    lemma_literal(raw, k);
                } else {
                    lemma_word(z);
                }
                lemma_leads_here(ops, m);
                assert(framed(m, m, st.f.ops.len() as int));
            }
        },
        _ => {
            lemma_word(z);
            lemma_rooted(ops, m, st, s2, ty, at, z);
        },
    }
}

/// The value in an `Option`; where there is none, a panic at the line.
pub proof fn law_unwrap(
    ops: Seq<Op>,
    m: Machine,
    env: LowEnv,
    st: LowView,
    t: TypeView,
    v: usize,
    line: u32,
    x: int,
)
    requires
        unwrap_value(env, st, t, v, line) is Ok,
        begins(ops, unwrap_value(env, st, t, v, line)->Ok_0.0),
        ops.len() <= usize::MAX,
        ready(ops, m, st),
        v < st.f.ops.len(),
        m.vals[v as int] == word(x),
    ensures
        replies(
            ops,
            m,
            st,
            unwrap_value(env, st, t, v, line)->Ok_0.0,
            unwrap_value(env, st, t, v, line)->Ok_0.1,
            if aux(m.world, x) != 0 {
                Reply::Panic(Rt::PanicUnwrap, line, m.world)
            } else {
                found(
                    read(
                        m.world,
                        t->Enum_1[0],
                        beyond(x, place(payload_of(env.checked, t, 0), 0) as int),
                    ),
                    m.world,
                )
            },
        ),
{
    reveal(unwrap_value);
    let (end, y) = unwrap_value(env, st, t, v, line)->Ok_0;
    let n = st.f.ops.len() as int;
    let s1 = put(st, Op::Load(IrType::I64, v, AUX));
    let s2 = put(s1, Op::CompareImm(IntCC::NotEqual, next(st), 0));
    let s3 = put(s2, Op::PanicIf(next(s1), Rt::PanicUnwrap, line));
    let ty = t->Enum_1[0];
    let off = place(payload_of(env.checked, t, 0), 0);
    assert(load_code(s3, ty, v, off) == (end, y));
    lemma_load_shape(s3, ty, v, off);
    assert(ops[n] == end.f.ops[n] && ops[n + 1] == end.f.ops[n + 1] && ops[n + 2] == end.f.ops[n
        + 2]);
    assert(end.f.ops[n] == s3.f.ops[n] && end.f.ops[n + 1] == s3.f.ops[n + 1] && end.f.ops[n + 2]
        == s3.f.ops[n + 2]);
    lemma_beyond(m, v, AUX, x);
    let tag = aux(m.world, x);
    lemma_fetch_bound(m.world.mem, beyond(x, 8), 8);
    lemma_room();
    lemma_word(0);
    let m1 = with(m, tag as u64);
    let m2 = with(m1, truth(tag != 0));
    assert(step(ops, m) == Some(End::At(m1)));
    assert(step(ops, m1) == Some(End::At(m2)));
    lemma_leads_step(ops, m1, End::At(m2));
    lemma_step_then(ops, m, m1, End::At(m2));
    if tag != 0 {
        lemma_leads_step(ops, m2, End::Panic(Rt::PanicUnwrap, line, m.world));
        lemma_leads_on(ops, m, m2, End::Panic(Rt::PanicUnwrap, line, m.world));
    } else {
        let m3 = Machine { at: n + 3, ..m2 };
        assert(step(ops, m2) == Some(End::At(m3)));
        lemma_leads_step(ops, m2, End::At(m3));
        lemma_leads_on(ops, m, m2, End::At(m3));
        law_load(ops, m3, s3, ty, v, off, x);
        lemma_sooner(ops, m3, st, s3, end, y, found(
            read(m.world, ty, beyond(x, off as int)),
            m.world,
        ));
        assert(framed(m3, m, n));
        lemma_onward(ops, m, m3, st, end, y, found(
            read(m.world, ty, beyond(x, off as int)),
            m.world,
        ));
    }
}

/// What keeps the values before a place keeps those before an earlier one.
pub proof fn lemma_sooner(
    ops: Seq<Op>,
    m: Machine,
    st: LowView,
    mid: LowView,
    end: LowView,
    v: usize,
    ev: Reply,
)
    requires
        st.f.ops.len() <= mid.f.ops.len(),
        replies(ops, m, mid, end, v, ev),
    ensures
        replies(ops, m, st, end, v, ev),
{
    if let Reply::Value(x, w) = ev {
        let m2 = choose|m2: Machine| #[trigger]
            leads(ops, m, End::At(m2)) && m2.at == end.f.ops.len() && m2.vals[v as int] == word(x)
                && m2.world == w && framed(m2, m, mid.f.ops.len() as int);
        assert(framed(m2, m, st.f.ops.len() as int));
    }
}

// -- Elements ---------------------------------------------------------------

/// Does the index pass the check just where there is such an element?
pub proof fn lemma_bounds(k: IntKind, i: int, n: nat)
    requires
        k.holds(i),
        n < 0x8000_0000_0000_0000,
    ensures
        (word(i) >= n as u64) == !(0 <= i < n),
{
    lemma_word(i);
}

/// The element at an index is read; where there is none, a panic at the line.
#[verifier::rlimit(40)]
pub proof fn law_element(
    ops: Seq<Op>,
    m: Machine,
    st: LowView,
    t: TypeView,
    ty: TypeView,
    o: usize,
    i: usize,
    line: u32,
    a: int,
    k: IntKind,
    x: int,
)
    requires
        index_value(st, t, ty, o, i, line) is Ok,
        begins(ops, index_value(st, t, ty, o, i, line)->Ok_0.0),
        ops.len() <= usize::MAX,
        ready(ops, m, st),
        o < st.f.ops.len(),
        i < st.f.ops.len(),
        m.vals[o as int] == word(a),
        m.vals[i as int] == word(x),
    ensures
        replies(
            ops,
            m,
            st,
            index_value(st, t, ty, o, i, line)->Ok_0.0,
            index_value(st, t, ty, o, i, line)->Ok_0.1,
            element_of(t, ty, a, k, x, line, m.world),
        ),
{
    let (end, v) = index_value(st, t, ty, o, i, line)->Ok_0;
    let n = st.f.ops.len() as int;
    let off = if t is Str {
        AUX
    } else {
        ARR_LEN
    };
    let len = if t is Str {
        aux(m.world, a)
    } else {
        array_len(m.world, a)
    };
    lemma_beyond(m, o, off, a);
    lemma_fetch_bound(m.world.mem, beyond(a, off as int), 8);
    lemma_room();
    let s1 = put(st, Op::Load(IrType::I64, o, off));
    let s2 = put(s1, Op::BoundsCheck(i, next(st), line));
    assert(end.f.ops[n] == s2.f.ops[n] && end.f.ops[n + 1] == s2.f.ops[n + 1] && end.f.ops.len()
        >= n + 4) by {
        reveal(index_value);
        reveal(index_addr);
        reveal(load_typed);
    }
    assert(ops[n] == end.f.ops[n] && ops[n + 1] == end.f.ops[n + 1]);
    let m1 = with(m, len as u64);
    assert(step(ops, m) == Some(End::At(m1)));
    lemma_leads_step(ops, m, End::At(m1));
    if element_of(t, ty, a, k, x, line, m.world) !is Unfinished {
        lemma_bounds(k, x, len);
        if !(0 <= x < len) {
            lemma_leads_step(ops, m1, End::Panic(Rt::PanicBounds, line, m.world));
            lemma_leads_on(ops, m, m1, End::Panic(Rt::PanicBounds, line, m.world));
        } else {
            let m2 = Machine { at: n + 2, ..m1 };
            assert(step(ops, m1) == Some(End::At(m2)));
            lemma_leads_step(ops, m1, End::At(m2));
            lemma_leads_on(ops, m, m1, End::At(m2));
            assert(framed(m2, m, n));
            let ev = element_of(t, ty, a, k, x, line, m.world);
            if t is Str {
                lemma_byte(ops, m2, st, s2, o, i, a, x, end, v, line, ty);
            } else {
                lemma_item(ops, m2, st, s2, ty, o, i, a, x, end, v, line);
            }
            lemma_onward(ops, m, m2, st, end, v, ev);
        }
    }
}

/// Behind the check, the byte of a string.
proof fn lemma_byte(
    ops: Seq<Op>,
    m: Machine,
    st: LowView,
    s2: LowView,
    o: usize,
    i: usize,
    a: int,
    x: int,
    end: LowView,
    v: usize,
    line: u32,
    ty: TypeView,
)
    requires
        begins(ops, end),
        ops.len() <= usize::MAX,
        m.at == s2.f.ops.len() == st.f.ops.len() + 2,
        index_value(st, TypeView::Str, ty, o, i, line) == Ok::<(LowView, usize), Seq<char>>(
            (end, v),
        ),
        o < st.f.ops.len(),
        i < st.f.ops.len(),
        m.vals[o as int] == word(a),
        m.vals[i as int] == word(x),
    ensures
        replies(
            ops,
            m,
            st,
            end,
            v,
            Reply::Value(fetch(m.world.mem, beyond(a, 16 + x), 1) as int, m.world),
        ),
{
    reveal(index_value);
    let n = m.at;
    assert(ops[n] == end.f.ops[n] && ops[n + 1] == end.f.ops[n + 1] && ops[n + 2] == end.f.ops[n
        + 2]);
    let raw = fetch(m.world.mem, beyond(a, 16 + x), 1);
    lemma_fetch_bound(m.world.mem, beyond(a, 16 + x), 1);
    lemma_room();
    lemma_word(raw as int);
    lemma_word_add(a, x);
    lemma_word_add(word(a) as int, x);
    let m1 = with(m, word(a + x));
    assert(step(ops, m) == Some(End::At(m1))) by {
        assert(word(word(a) + word(x)) == word(a + x));
    }
    lemma_beyond(m1, n as usize, HEADER, a + x);
    assert(beyond(a + x, 16) == beyond(a, 16 + x)) by {
        assert(a + x + 16 == a + (16 + x));
    }
    let m2 = with(m1, raw as u64);
    let m3 = with(m2, raw as u64);
    assert(step(ops, m1) == Some(End::At(m2)));
    assert(step(ops, m2) == Some(End::At(m3)));
    lemma_leads_step(ops, m2, End::At(m3));
    lemma_step_then(ops, m1, m2, End::At(m3));
    lemma_step_then(ops, m, m1, End::At(m3));
    assert(framed(m3, m, st.f.ops.len() as int));
}

/// Behind the check, the element of an array.
proof fn lemma_item(
    ops: Seq<Op>,
    m: Machine,
    st: LowView,
    s2: LowView,
    ty: TypeView,
    o: usize,
    i: usize,
    a: int,
    x: int,
    end: LowView,
    v: usize,
    line: u32,
)
    requires
        begins(ops, end),
        ops.len() <= usize::MAX,
        m.at == s2.f.ops.len(),
        s2 == put(
            put(st, Op::Load(IrType::I64, o, ARR_LEN)),
            Op::BoundsCheck(i, next(st), line),
        ),
        index_value(st, TypeView::Array(Box::new(ty)), ty, o, i, line) == Ok::<
            (LowView, usize),
            Seq<char>,
        >((end, v)),
        o < st.f.ops.len(),
        i < st.f.ops.len(),
        m.vals[o as int] == word(a),
        m.vals[i as int] == word(x),
    ensures
        replies(
            ops,
            m,
            st,
            end,
            v,
            found(read(m.world, ty, element(m.world, a, x, ty.storage() as nat)), m.world),
        ),
{
    reveal(index_value);
    reveal(index_addr);
    let n = m.at;
    let size = ty.storage();
    let s3 = put(s2, Op::Load(IrType::I64, o, ARR_BUF));
    let s4 = put(s3, Op::IntImm(IntOp::Mul, i, size as i64));
    let s5 = put(s4, Op::IntImm(IntOp::Add, next(s3), HEADER as i64));
    let s6 = put(s5, Op::Int(IntOp::Add, next(s2), next(s4)));
    assert(load_code(s6, ty, next(s5), 0) == (end, v));
    lemma_load_shape(s6, ty, next(s5), 0);
    lemma_address(ops, m, st, s2, s6, end, o, i, a, x, size);
    let r = array_buf(m.world, a) + 16 + x * size;
    let m4 = choose|m4: Machine| #[trigger]
        leads(ops, m, End::At(m4)) && m4.at == s6.f.ops.len() && m4.vals[s5.f.ops.len() as int]
            == word(r) && m4.world == m.world && framed(m4, m, st.f.ops.len() as int);
    law_load(ops, m4, s6, ty, next(s5), 0, r);
    assert(beyond(r, 0) == element(m.world, a, x, size as nat)) by {
        assert(r + 0 == array_buf(m.world, a) + (16 + x * size));
    }
    let ev = found(read(m.world, ty, element(m.world, a, x, size as nat)), m.world);
    lemma_sooner(ops, m4, st, s6, end, v, ev);
    lemma_onward(ops, m, m4, st, end, v, ev);
}

/// The address of an element, behind the header of the buffer.
pub proof fn lemma_address(
    ops: Seq<Op>,
    m: Machine,
    st: LowView,
    s2: LowView,
    s6: LowView,
    end: LowView,
    o: usize,
    i: usize,
    a: int,
    x: int,
    size: u32,
)
    requires
        begins(ops, end),
        ops.len() <= usize::MAX,
        goes_on(end, s6),
        m.at == s2.f.ops.len() >= st.f.ops.len(),
        ({
            let s3 = put(s2, Op::Load(IrType::I64, o, ARR_BUF));
            let s4 = put(s3, Op::IntImm(IntOp::Mul, i, size as i64));
            let s5 = put(s4, Op::IntImm(IntOp::Add, next(s3), HEADER as i64));
            s6 == put(s5, Op::Int(IntOp::Add, next(s2), next(s4)))
        }),
        o < st.f.ops.len(),
        i < st.f.ops.len(),
        m.vals[o as int] == word(a),
        m.vals[i as int] == word(x),
    ensures
        exists|m4: Machine| #[trigger]
            leads(ops, m, End::At(m4)) && m4.at == s6.f.ops.len() && m4.vals[s6.f.ops.len() - 1]
                == word(array_buf(m.world, a) + 16 + x * size) && m4.world == m.world && framed(
                m4,
                m,
                st.f.ops.len() as int,
            ),
{
    let n = m.at;
    assert(s6.f.ops.len() == n + 4);
    assert(ops[n] == end.f.ops[n] && ops[n + 1] == end.f.ops[n + 1] && ops[n + 2] == end.f.ops[n
        + 2] && ops[n + 3] == end.f.ops[n + 3]);
    assert(end.f.ops[n] == s6.f.ops[n] && end.f.ops[n + 1] == s6.f.ops[n + 1] && end.f.ops[n + 2]
        == s6.f.ops[n + 2] && end.f.ops[n + 3] == s6.f.ops[n + 3]);
    lemma_beyond(m, o, ARR_BUF, a);
    lemma_fetch_bound(m.world.mem, beyond(a, 16), 8);
    lemma_room();
    let b = array_buf(m.world, a);
    lemma_word(size as int);
    lemma_word(16);
    lemma_word(b);
    lemma_word_mul(x, size as int);
    lemma_word_add(x * size, 16);
    lemma_word_add(b, x * size + 16);
    assert(b + (x * size + 16) == b + 16 + x * size);
    let m1 = with(m, b as u64);
    let m2 = with(m1, word(x * size));
    let m3 = with(m2, word(x * size + 16));
    let m4 = with(m3, word(b + 16 + x * size));
    assert(step(ops, m) == Some(End::At(m1)));
    assert(int_result(IntOp::Mul, word(x), word(size as int)) == Some(word(x * size)));
    assert(step(ops, m1) == Some(End::At(m2)));
    assert(step(ops, m2) == Some(End::At(m3)));
    assert(step(ops, m3) == Some(End::At(m4)));
    lemma_leads_step(ops, m3, End::At(m4));
    lemma_step_then(ops, m2, m3, End::At(m4));
    lemma_step_then(ops, m1, m2, End::At(m4));
    lemma_step_then(ops, m, m1, End::At(m4));
    assert(framed(m4, m, st.f.ops.len() as int));
}

// -- Strings ----------------------------------------------------------------

/// Strings are joined into a new one, and compared by their bytes.
pub proof fn law_combined(
    ops: Seq<Op>,
    m: Machine,
    st: LowView,
    op: BinOp,
    l: usize,
    r: usize,
    line: u32,
    x: int,
    y: int,
)
    requires
        op is Add || op is Eq || op is Ne,
        binary_values(st, op, TypeView::Str, TypeView::Str, l, r, line) is Ok,
        begins(ops, binary_values(st, op, TypeView::Str, TypeView::Str, l, r, line)->Ok_0.0),
        ops.len() <= usize::MAX,
        ready(ops, m, st),
        m.args.len() == 0,
        0 <= x < modulus(),
        0 <= y < modulus(),
        m.vals[l as int] == word(x),
        m.vals[r as int] == word(y),
    ensures
        replies(
            ops,
            m,
            st,
            binary_values(st, op, TypeView::Str, TypeView::Str, l, r, line)->Ok_0.0,
            binary_values(st, op, TypeView::Str, TypeView::Str, l, r, line)->Ok_0.1,
            combined(op, TypeView::Str, x, y, line, m.world),
        ),
{
    reveal(binary_values);
    reveal(arith);
    reveal(runtime);
    let (end, v) = binary_values(st, op, TypeView::Str, TypeView::Str, l, r, line)->Ok_0;
    let n = st.f.ops.len() as int;
    let rt = if op is Add {
        Rt::StrConcat
    } else {
        Rt::StrEq
    };
    let (s, c) = rt2(st, rt, l, r);
    assert(end.f.ops.len() >= n + 3);
    assert(ops[n + 0] == end.f.ops[n + 0] && ops[n + 1] == end.f.ops[n + 1] && ops[n + 2]
        == end.f.ops[n + 2]);
    let vs = seq![l, r];
    assert(ops[n + 0] == Op::Arg(vs[0]) && ops[n + 1] == Op::Arg(vs[1]));
    lemma_runtime(ops, m, st, rt, vs);
    lemma_word(x);
    lemma_word(y);
    let args = Seq::new(2, |i: int| m.vals[vs[i] as int]);
    assert(args[0] == x && args[1] == y);
    let m1 = Machine { at: n + 2, args, ..m };
    let (a, b) = (text_at(m.world, x), text_at(m.world, y));
    if op is Add {
        let all = new_text(m.world, a + b);
        assert(runtime(m.around.layout, rt, args, m.world) == made(all));
        lemma_made(ops, m, m1, st, s, end, v, all);
    } else {
        let m2 = Machine {
            at: n + 3,
            vals: m1.vals.insert(n + 2, truth(a == b)),
            args: Seq::empty(),
            ..m1
        };
        assert(step(ops, m1) == Some(End::At(m2)));
        lemma_leads_step(ops, m1, End::At(m2));
        lemma_leads_on(ops, m, m1, End::At(m2));
        assert(m2.args =~= m.args);
        assert(framed(m2, m, n));
        lemma_word(0);
        lemma_word(1);
        if op is Ne {
            assert(ops[n + 3] == end.f.ops[n + 3]);
            let m3 = with(m2, truth(a != b));
            assert(1u64 ^ 1u64 == 0u64 && 0u64 ^ 1u64 == 1u64) by (bit_vector);
            assert(step(ops, m2) == Some(End::At(m3)));
            lemma_leads_step(ops, m2, End::At(m3));
            lemma_leads_on(ops, m, m2, End::At(m3));
            assert(framed(m3, m, n));
        }
    }
}

// -- New objects ------------------------------------------------------------

/// A new object, as large as the descriptor says that stands at the address.
pub proof fn law_new_of(ops: Seq<Op>, m: Machine, st: LowView, id: usize, tag: i64)
    requires
        begins(ops, new_of(st, id, tag).0),
        ops.len() <= usize::MAX,
        ready(ops, m, st),
        m.args.len() == 0,
        tag >= 0,
    ensures
        new_of(st, id, tag).1 < new_of(st, id, tag).0.f.ops.len(),
        st.f.ops.len() <= new_of(st, id, tag).1,
        replies(
            ops,
            m,
            st,
            new_of(st, id, tag).0,
            new_of(st, id, tag).1,
            fresh(
                new_object(
                    m.world,
                    (m.around.layout.size)(standing(m.around.layout, m.around.datas[id as int])),
                    tag as nat,
                ),
            ),
        ),
{
    let (end, y) = new_of(st, id, tag);
    let n = st.f.ops.len() as int;
    assert(end.f.ops.len() == n + 6);
    assert(ops[n] == end.f.ops[n] && ops[n + 1] == end.f.ops[n + 1] && ops[n + 2] == end.f.ops[n + 2]
        && ops[n + 3] == end.f.ops[n + 3] && ops[n + 4] == end.f.ops[n + 4] && ops[n + 5]
        == end.f.ops[n + 5]);
    let a = standing(m.around.layout, m.around.datas[id as int]);
    lemma_word(tag as int);
    let m1 = with(m, a);
    let m2 = with(m1, tag as u64);
    assert(step(ops, m) == Some(End::At(m1)));
    assert(step(ops, m1) == Some(End::At(m2)));
    lemma_leads_step(ops, m1, End::At(m2));
    lemma_step_then(ops, m, m1, End::At(m2));
    let s1 = put(st, Op::DataAddr(id));
    let s2 = put(s1, Op::Iconst(tag));
    let vs = seq![next(st), next(s1)];
    assert(ops[n + 2 + 0] == Op::Arg(vs[0]) && ops[n + 2 + 1] == Op::Arg(vs[1]));
    lemma_runtime(ops, m2, s2, Rt::Alloc, vs);
    let args = Seq::new(2, |i: int| m2.vals[vs[i] as int]);
    assert(args[0] == a && args[1] == tag as u64);
    let r = new_object(m.world, (m.around.layout.size)(a), tag as nat);
    let m3 = Machine { at: n + 4, args, ..m2 };
    assert(runtime(m.around.layout, Rt::Alloc, args, m.world) == made(r)) by {
        reveal(runtime);
    }
    let (s3, _) = rt2(s2, Rt::Alloc, next(st), next(s1));
    lemma_made(ops, m2, m3, st, s3, end, y, r);
    assert(framed(m2, m, n));
    lemma_onward(ops, m, m2, st, end, y, fresh(r));
}

/// A new array with room for its elements.
#[verifier::rlimit(40)]
pub proof fn law_array_new(ops: Seq<Op>, m: Machine, st: LowView, ty: TypeView, n: nat)
    requires
        begins(ops, array_new(st, ty, n).0),
        ops.len() <= usize::MAX,
        ready(ops, m, st),
        m.args.len() == 0,
        n < 0x1_0000_0000,
    ensures
        array_new(st, ty, n).1 < array_new(st, ty, n).0.f.ops.len(),
        st.f.ops.len() <= array_new(st, ty, n).1,
        replies(
            ops,
            m,
            st,
            array_new(st, ty, n).0,
            array_new(st, ty, n).1,
            fresh(new_array(m.world, ty.storage() as nat, room_for(n))),
        ),
{
    reveal(array_new);
    let (end, y) = array_new(st, ty, n);
    let p = st.f.ops.len() as int;
    let size = ty.storage();
    let is_ref: i64 = if ty.is_reference() {
        1
    } else {
        0
    };
    let cap = room_for(n) as i64;
    assert(end.f.ops.len() == p + 8);
    assert(ops[p] == end.f.ops[p] && ops[p + 1] == end.f.ops[p + 1] && ops[p + 2] == end.f.ops[p + 2]
        && ops[p + 3] == end.f.ops[p + 3] && ops[p + 4] == end.f.ops[p + 4] && ops[p + 5]
        == end.f.ops[p + 5] && ops[p + 6] == end.f.ops[p + 6]);
    lemma_word(size as int);
    lemma_word(cap as int);
    let m1 = with(m, size as u64);
    let m2 = with(m1, word(is_ref as int));
    let m3 = with(m2, cap as u64);
    assert(step(ops, m) == Some(End::At(m1)));
    assert(step(ops, m1) == Some(End::At(m2)));
    assert(step(ops, m2) == Some(End::At(m3)));
    lemma_leads_step(ops, m2, End::At(m3));
    lemma_step_then(ops, m1, m2, End::At(m3));
    lemma_step_then(ops, m, m1, End::At(m3));
    let s1 = put(st, Op::Iconst(size as i64));
    let s2 = put(s1, Op::Iconst(is_ref));
    let s3 = put(s2, Op::Iconst(cap));
    let vs = seq![next(st), next(s1), next(s2)];
    assert(ops[p + 3 + 0] == Op::Arg(vs[0]) && ops[p + 3 + 1] == Op::Arg(vs[1]) && ops[p + 3 + 2]
        == Op::Arg(vs[2]));
    lemma_runtime(ops, m3, s3, Rt::ArrayNew, vs);
    let args = Seq::new(3, |i: int| m3.vals[vs[i] as int]);
    assert(args[0] == size as u64 && args[2] == cap as u64);
    let r = new_array(m.world, size as nat, room_for(n));
    let m4 = Machine { at: p + 6, args, ..m3 };
    assert(runtime(m.around.layout, Rt::ArrayNew, args, m.world) == made(r)) by {
        reveal(runtime);
    }
    let (s4, _) = rt3(s3, Rt::ArrayNew, next(st), next(s1), next(s2));
    lemma_made(ops, m3, m4, st, s4, end, y, r);
    assert(framed(m3, m, p));
    lemma_onward(ops, m, m3, st, end, y, fresh(r));
}

/// How many elements a new array has room for.
pub open spec fn room_for(n: nat) -> nat {
    if n < 4 {
        4
    } else {
        n
    }
}

/// The code of an operator on floating-point numbers gives the truth of the
/// comparison that the operator names, or the number that it calculates.
pub proof fn law_float_operator(
    ops: Seq<Op>,
    m: Machine,
    st: LowView,
    op: BinOp,
    l: usize,
    r: usize,
    line: u32,
    a: u64,
    b: u64,
)
    requires
        binary_values(st, op, TypeView::Float, TypeView::Float, l, r, line) is Ok,
        begins(ops, binary_values(st, op, TypeView::Float, TypeView::Float, l, r, line)->Ok_0.0),
        ops.len() <= usize::MAX,
        ready(ops, m, st),
        l < st.f.ops.len(),
        r < st.f.ops.len(),
        m.vals[l as int] == a,
        m.vals[r as int] == b,
    ensures
        replies(
            ops,
            m,
            st,
            binary_values(st, op, TypeView::Float, TypeView::Float, l, r, line)->Ok_0.0,
            binary_values(st, op, TypeView::Float, TypeView::Float, l, r, line)->Ok_0.1,
            if is_comparison(op) {
                truth_value(float_compares(op, a, b), m.world)
            } else {
                match calculated(op, a, b) {
                    Some(z) => Reply::Value(z as int, m.world),
                    None => Reply::Unfinished,
                }
            },
        ),
{
    reveal(binary_values);
    reveal(compare);
    reveal(arith);
    let (end, v) = binary_values(st, op, TypeView::Float, TypeView::Float, l, r, line)->Ok_0;
    let n = st.f.ops.len() as int;
    assert(ops[n] == end.f.ops[n]);
    lemma_word(0);
    lemma_word(1);
    if is_comparison(op) {
        assert(ops[n + 1] == end.f.ops[n + 1]);
        let t = truth(float_compares(op, a, b));
        let m1 = with(m, t);
        let m2 = with(m1, t);
        assert(step(ops, m) == Some(End::At(m1)));
        assert(step(ops, m1) == Some(End::At(m2)));
        lemma_leads_step(ops, m1, End::At(m2));
        lemma_step_then(ops, m, m1, End::At(m2));
        assert(framed(m2, m, n));
    } else if let Some(z) = calculated(op, a, b) {
        lemma_word(z as int);
        let m1 = with(m, z);
        assert(step(ops, m) == Some(End::At(m1)));
        lemma_leads_step(ops, m, End::At(m1));
        assert(framed(m1, m, n));
    }
}

/// An operator on evaluated operands does what it means.
pub proof fn law_operator(
    ops: Seq<Op>,
    m: Machine,
    st: LowView,
    op: BinOp,
    t: TypeView,
    l: usize,
    r: usize,
    line: u32,
    x: int,
    y: int,
)
    requires
        binary_values(st, op, t, t, l, r, line) is Ok,
        begins(ops, binary_values(st, op, t, t, l, r, line)->Ok_0.0),
        runnable(ops),
        ready(ops, m, st),
        m.args.len() == 0,
        l < st.f.ops.len(),
        r < st.f.ops.len(),
        m.vals[l as int] == word(x),
        m.vals[r as int] == word(y),
    ensures
        replies(
            ops,
            m,
            st,
            binary_values(st, op, t, t, l, r, line)->Ok_0.0,
            binary_values(st, op, t, t, l, r, line)->Ok_0.1,
            combined(op, t, x, y, line, m.world),
        ),
{
    if t is Str {
        if combined(op, t, x, y, line, m.world) !is Unfinished {
            law_combined(ops, m, st, op, l, r, line, x, y);
        }
    } else if t is Float {
        if 0 <= x < modulus() && 0 <= y < modulus() {
            law_float_operator(ops, m, st, op, l, r, line, x as u64, y as u64);
        }
    } else if fits_type(t, x) && fits_type(t, y) {
        reveal(binary_values);
        let k = kind_of(t);
        if is_comparison(op) && (t is Int || op is Eq || op is Ne) {
            assert(compare(st, op, t, l, r) == compare(st, op, TypeView::Int(k), l, r)) by {
                reveal(compare);
            }
            law_compare(ops, m, st, op, k, l, r, line, x, y);
        } else if t is Int && operate(op, k, x, y) is Some {
            reveal(arith);
            law_int_arith(ops, m, st, op, k, l, r, line, x, y);
        }
    }
}

// -- Writing ----------------------------------------------------------------

/// The machine runs the code that `end` adds to `st`, and leaves this world.
pub open spec fn leaves(ops: Seq<Op>, m: Machine, st: LowView, end: LowView, w: World) -> bool {
    exists|m2: Machine| #[trigger]
        leads(ops, m, End::At(m2)) && m2.at == end.f.ops.len() && m2.world == w && framed(
            m2,
            m,
            st.f.ops.len() as int,
        )
}

/// A value is put into a field, and nowhere else.
pub proof fn law_store_field(
    ops: Seq<Op>,
    m: Machine,
    st: LowView,
    ty: TypeView,
    v: usize,
    obj: usize,
    off: i32,
    x: int,
    r: int,
)
    requires
        begins(ops, store_field(st, ty, v, obj, off)),
        ops.len() <= usize::MAX,
        ready(ops, m, st),
        m.args.len() == 0,
        v < st.f.ops.len(),
        obj < st.f.ops.len(),
        m.vals[v as int] == word(x),
        m.vals[obj as int] == word(r),
    ensures
        leaves(
            ops,
            m,
            st,
            store_field(st, ty, v, obj, off),
            put_value(m.world, ty, beyond(r, off as int), x),
        ),
{
    reveal(store_field);
    let end = store_field(st, ty, v, obj, off);
    let n = st.f.ops.len() as int;
    let w = put_value(m.world, ty, beyond(r, off as int), x);
    assert(ops[n] == end.f.ops[n]);
    if ty.is_reference() {
        assert(ops[n + 1] == end.f.ops[n + 1] && ops[n + 2] == end.f.ops[n + 2] && ops[n + 3]
            == end.f.ops[n + 3] && ops[n + 4] == end.f.ops[n + 4]);
        lemma_word_add(r, off as int);
        lemma_word_add(word(r) as int, off as int);
        let a = word(r + off);
        let m1 = with(m, a);
        assert(step(ops, m) == Some(End::At(m1)));
        lemma_leads_step(ops, m, End::At(m1));
        let s1 = put(st, Op::IntImm(IntOp::Add, obj, off as i64));
        let vs = seq![obj, next(st), v];
        assert(ops[n + 1 + 0] == Op::Arg(vs[0]) && ops[n + 1 + 1] == Op::Arg(vs[1]) && ops[n + 1
            + 2] == Op::Arg(vs[2]));
        lemma_runtime(ops, m1, s1, Rt::WriteRef, vs);
        let args = Seq::new(3, |i: int| m1.vals[vs[i] as int]);
        assert(args[1] == a && args[2] == word(x));
        let m2 = Machine { at: n + 4, args, ..m1 };
        lemma_leads_on(ops, m, m1, End::At(m2));
        assert(runtime(m.around.layout, Rt::WriteRef, args, m.world) == Called::Done(None, w)) by {
            reveal(runtime);
        }
        let m3 = Machine { at: n + 5, args: Seq::empty(), world: w, ..m2 };
        assert(step(ops, m2) == Some(End::At(m3)));
        lemma_leads_step(ops, m2, End::At(m3));
        lemma_leads_on(ops, m, m2, End::At(m3));
        assert(m3.args =~= m.args);
        assert(framed(m3, m, n));
    } else {
        lemma_beyond(m, obj, off, r);
        let m1 = Machine { at: n + 1, world: w, ..m };
        assert(step(ops, m) == Some(End::At(m1)));
        lemma_leads_step(ops, m, End::At(m1));
        assert(framed(m1, m, n));
    }
}

/// A value is appended to an array, if there is memory for it.
pub proof fn law_push(
    ops: Seq<Op>,
    m: Machine,
    st: LowView,
    ty: TypeView,
    arr: usize,
    v: usize,
    a: int,
    x: int,
)
    requires
        is_value(ty),
        begins(ops, array_push(st, ty, arr, v)),
        ops.len() <= usize::MAX,
        ready(ops, m, st),
        m.args.len() == 0,
        arr < st.f.ops.len(),
        v < st.f.ops.len(),
        m.vals[arr as int] == word(a),
        m.vals[v as int] == word(x),
        0 <= a < modulus(),
    ensures
        pushed(m.world, a, word(x), ty.storage() as nat) matches Some(w) ==> leaves(
            ops,
            m,
            st,
            array_push(st, ty, arr, v),
            w,
        ),
{
    reveal(array_push);
    let end = array_push(st, ty, arr, v);
    if ty is Float {
        // The word of a number is the element.
        let n = st.f.ops.len() as int;
        assert(ops[n] == end.f.ops[n]);
        let s1 = put(st, Op::Unary(UnaryOp::FloatBits, v));
        let m1 = with(m, word(x));
        assert(step(ops, m) == Some(End::At(m1)));
        lemma_leads_step(ops, m, End::At(m1));
        lemma_push_word(ops, m1, s1, ty, arr, next(st), a, x, end);
        if let Some(w) = pushed(m.world, a, word(x), ty.storage() as nat) {
            let m2 = choose|m2: Machine| #[trigger]
                leads(ops, m1, End::At(m2)) && m2.at == end.f.ops.len() && m2.world == w && framed(
                    m2,
                    m1,
                    s1.f.ops.len() as int,
                );
            lemma_leads_on(ops, m, m1, End::At(m2));
            assert forall|i: int| 0 <= i < n implies #[trigger] m2.vals[i] == m.vals[i] by {
                assert(m2.vals[i] == m1.vals[i]);
            }
            assert(framed(m2, m, n));
        }
    } else {
        lemma_push_word(ops, m, st, ty, arr, v, a, x, end);
    }
}

/// A word is appended to an array, if there is memory for it.
proof fn lemma_push_word(
    ops: Seq<Op>,
    m: Machine,
    st: LowView,
    ty: TypeView,
    arr: usize,
    v: usize,
    a: int,
    x: int,
    end: LowView,
)
    requires
        is_value(ty),
        ({
            let is_ref: i64 = if ty.is_reference() {
                1
            } else {
                0
            };
            let s2 = put(st, Op::Iconst(ty.storage() as i64));
            let s3 = put(s2, Op::Iconst(is_ref));
            end == rt4(s3, Rt::ArrayPush, arr, v, next(st), next(s2)).0
        }),
        begins(ops, end),
        ops.len() <= usize::MAX,
        ready(ops, m, st),
        m.args.len() == 0,
        arr < st.f.ops.len(),
        v < st.f.ops.len(),
        m.vals[arr as int] == word(a),
        m.vals[v as int] == word(x),
        0 <= a < modulus(),
    ensures
        pushed(m.world, a, word(x), ty.storage() as nat) matches Some(w) ==> leaves(
            ops,
            m,
            st,
            end,
            w,
        ),
{
    let n = st.f.ops.len() as int;
    let size = ty.storage();
    let is_ref: i64 = if ty.is_reference() {
        1
    } else {
        0
    };
    assert(end.f.ops.len() == n + 7);
    assert(ops[n] == end.f.ops[n] && ops[n + 1] == end.f.ops[n + 1] && ops[n + 2] == end.f.ops[n + 2]
        && ops[n + 3] == end.f.ops[n + 3] && ops[n + 4] == end.f.ops[n + 4] && ops[n + 5]
        == end.f.ops[n + 5] && ops[n + 6] == end.f.ops[n + 6]);
    lemma_word(size as int);
    lemma_word(a);
    let m1 = with(m, size as u64);
    let m2 = with(m1, word(is_ref as int));
    assert(step(ops, m) == Some(End::At(m1)));
    assert(step(ops, m1) == Some(End::At(m2)));
    lemma_leads_step(ops, m1, End::At(m2));
    lemma_step_then(ops, m, m1, End::At(m2));
    let s2 = put(st, Op::Iconst(size as i64));
    let s3 = put(s2, Op::Iconst(is_ref));
    let vs = seq![arr, v, next(st), next(s2)];
    assert(ops[n + 2 + 0] == Op::Arg(vs[0]) && ops[n + 2 + 1] == Op::Arg(vs[1]) && ops[n + 2 + 2]
        == Op::Arg(vs[2]) && ops[n + 2 + 3] == Op::Arg(vs[3]));
    lemma_runtime(ops, m2, s3, Rt::ArrayPush, vs);
    let args = Seq::new(4, |i: int| m2.vals[vs[i] as int]);
    assert(args[0] == a && args[1] == word(x) && args[2] == size as u64);
    let m3 = Machine { at: n + 6, args, ..m2 };
    lemma_leads_on(ops, m, m2, End::At(m3));
    if let Some(w) = pushed(m.world, a, word(x), size as nat) {
        assert(runtime(m.around.layout, Rt::ArrayPush, args, m.world) == Called::Done(None, w)) by {
            reveal(runtime);
        }
        let m4 = Machine { at: n + 7, args: Seq::empty(), world: w, ..m3 };
        assert(step(ops, m3) == Some(End::At(m4)));
        lemma_leads_step(ops, m3, End::At(m4));
        lemma_leads_on(ops, m, m3, End::At(m4));
        assert(m4.args =~= m.args);
        assert(framed(m4, m, n));
    }
}

// -- What is written is read ------------------------------------------------

/// The lowest bytes of an integer tell which one it is.
proof fn lemma_narrow(k: IntKind, x: int)
    requires
        k.holds(x),
    ensures
        value_in(TypeView::Int(k), word(x) as nat % room((k.width() / 8) as nat)) == Some(x),
{
    lemma_room();
    lemma_word(x);
    vstd::arithmetic::power2::lemma2_to64();
    let v = word(x) as int;
    if k.width() == 8 {
        let raw = v % 0x100;
        assert(raw == if x < 0 { x + 0x100 } else { x });
        assert(raw % 0x100 == raw);
    } else if k.width() == 16 {
        let raw = v % 0x1_0000;
        assert(raw == if x < 0 { x + 0x1_0000 } else { x });
        assert(raw % 0x1_0000 == raw);
    } else if k.width() == 32 {
        let raw = v % 0x1_0000_0000;
        assert(raw == if x < 0 { x + 0x1_0000_0000 } else { x });
        assert(raw % 0x1_0000_0000 == raw);
    } else {
        assert(v % 0x1_0000_0000_0000_0000 == v);
    }
}

/// A value that was put at an address is read there, and nothing changes where
/// it does not reach.
pub proof fn law_read_written(w: World, ty: TypeView, a: int, x: int)
    requires
        is_value(ty),
        a != 0,
        ty is Bool ==> x == 0 || x == 1,
        !(ty is Bool) ==> in_range(ty, x),
    ensures
        read(put_value(w, ty, a, x), ty, a) == Some(x),
        forall|k: int|
            k < a || a + ty.storage() <= k ==> #[trigger] put_value(w, ty, a, x).mem[k] == w.mem[k],
{
    let n = ty.storage() as nat;
    law_load_stored(w.mem, a, n, word(x) as nat);
    lemma_room();
    lemma_word(x);
    if let TypeView::Int(k) = ty {
        lemma_narrow(k, x);
    }
    assert forall|k: int| k < a || a + n <= k implies #[trigger] put_value(w, ty, a, x).mem[k]
        == w.mem[k] by {
        law_store_elsewhere(w.mem, a, n, word(x) as nat, k);
    }
}

} // verus!
