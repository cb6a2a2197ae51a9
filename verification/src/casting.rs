//! That the code of a cast between numeric types does what the cast means.
use vstd::prelude::*;

use crate::evaluate::cast_value;
use crate::floats::{
    amount, float_compare, lands_in, law_exact_float, law_gap, law_nearest_float, law_whole_between,
    nearest_float, negative, unit, whole,
};
use crate::ir::{FloatCC, Op, Rt};
use crate::lower::{cast, cast_float, LowView};
use crate::machine::{leads, modulus, step, truth, word, End, Machine};
use crate::meaning::{
    begins, law_cast_int, law_word_round_trip, lemma_leads_here, lemma_leads_step, lemma_step_then,
    lemma_word, ready,
};
use crate::objects::{framed, kind_of, replies, with, Reply};
use crate::types::{IntKind, TypeView};

verus! {

/// The bounds that a number is held against are just those of the kind.
proof fn lemma_bounds_of(d: IntKind, w: u64)
    ensures
        ({
            let exact = d.is_signed() && d.width() == 64;
            let low = if exact {
                d.lowest()
            } else {
                d.lowest() - 1
            };
            let above = if exact {
                float_compare(FloatCC::GreaterThanOrEqual, w, nearest_float(low))
            } else {
                float_compare(FloatCC::GreaterThan, w, nearest_float(low))
            };
            let below = float_compare(FloatCC::LessThan, w, nearest_float(d.highest() + 1));
            lands_in(d, w) == (above && below)
        }),
{
    law_whole_between(w, d.lowest(), d.highest());
    law_exact_float(d.highest() + 1);
    if d.is_signed() && d.width() == 64 {
        law_exact_float(d.lowest());
        law_gap(w);
        let u = unit();
        vstd::arithmetic::power2::lemma_pow2_pos(1074);
        assert((d.lowest() - 1) * u < d.lowest() * u) by (nonlinear_arith)
            requires
                u > 0,
        ;
    } else {
        law_exact_float(d.lowest() - 1);
    }
}

/// The code of a cast to an integer gives what is left of the number without
/// its fraction, and panics exactly if the kind does not hold that, or the
/// number is none.
pub proof fn law_cast_to_int(
    ops: Seq<Op>,
    m: Machine,
    st: LowView,
    d: IntKind,
    v: usize,
    line: u32,
    w: u64,
)
    requires
        begins(ops, cast_float(st, d, v, line).0),
        ops.len() <= usize::MAX,
        ready(ops, m, st),
        v < st.f.ops.len(),
        m.vals[v as int] == w,
    ensures
        replies(
            ops,
            m,
            st,
            cast_float(st, d, v, line).0,
            cast_float(st, d, v, line).1,
            if lands_in(d, w) {
                Reply::Value(whole(w), m.world)
            } else {
                Reply::Panic(Rt::PanicCast, line, m.world)
            },
        ),
{
    reveal(cast_float);
    let (end, x) = cast_float(st, d, v, line);
    let n = st.f.ops.len() as int;
    assert(end.f.ops.len() == n + 7);
    assert(ops[n] == end.f.ops[n] && ops[n + 1] == end.f.ops[n + 1] && ops[n + 2] == end.f.ops[n + 2]
        && ops[n + 3] == end.f.ops[n + 3] && ops[n + 4] == end.f.ops[n + 4] && ops[n + 5]
        == end.f.ops[n + 5] && ops[n + 6] == end.f.ops[n + 6]);
    lemma_bounds_of(d, w);
    let exact = d.is_signed() && d.width() == 64;
    let low = if exact {
        d.lowest()
    } else {
        d.lowest() - 1
    };
    let above = float_compare(
        if exact {
            FloatCC::GreaterThanOrEqual
        } else {
            FloatCC::GreaterThan
        },
        w,
        nearest_float(low),
    );
    let below = float_compare(FloatCC::LessThan, w, nearest_float(d.highest() + 1));
    assert((low as i128) as int == low && ((d.highest() + 1) as i128) as int == d.highest() + 1);
    let m1 = with(m, nearest_float(low));
    let m2 = with(m1, truth(above));
    let m3 = with(m2, nearest_float(d.highest() + 1));
    let m4 = with(m3, truth(below));
    assert(1u64 & 1u64 == 1u64 && 1u64 & 0u64 == 0u64 && 0u64 & 1u64 == 0u64 && 0u64 & 0u64
        == 0u64) by (bit_vector);
    let m5 = with(m4, truth(above && below));
    assert(step(ops, m) == Some(End::At(m1)));
    assert(step(ops, m1) == Some(End::At(m2)));
    assert(step(ops, m2) == Some(End::At(m3)));
    assert(step(ops, m3) == Some(End::At(m4)));
    assert(step(ops, m4) == Some(End::At(m5)));
    let e = if above && below {
        let m6 = Machine { at: n + 6, ..m5 };
        let m7 = with(m6, word(whole(w)));
        assert(step(ops, m5) == Some(End::At(m6)));
        assert(step(ops, m6) == Some(End::At(m7)));
        lemma_leads_step(ops, m6, End::At(m7));
        lemma_step_then(ops, m5, m6, End::At(m7));
        assert(framed(m7, m, n));
        End::At(m7)
    } else {
        lemma_leads_step(ops, m5, End::Panic(Rt::PanicCast, line, m.world));
        End::Panic(Rt::PanicCast, line, m.world)
    };
    assert(leads(ops, m5, e));
    lemma_step_then(ops, m4, m5, e);
    lemma_step_then(ops, m3, m4, e);
    lemma_step_then(ops, m2, m3, e);
    lemma_step_then(ops, m1, m2, e);
    lemma_step_then(ops, m, m1, e);
}

/// The code of a cast from an integer kind gives the number nearest to the
/// integer's value: below zero for an integer below zero, and above for one
/// above.
pub proof fn law_cast_to_float(
    ops: Seq<Op>,
    m: Machine,
    st: LowView,
    s: IntKind,
    v: usize,
    line: u32,
    a: int,
)
    requires
        cast(st, TypeView::Int(s), TypeView::Float, v, line) is Ok,
        begins(ops, cast(st, TypeView::Int(s), TypeView::Float, v, line)->Ok_0.0),
        ops.len() <= usize::MAX,
        ready(ops, m, st),
        v < st.f.ops.len(),
        s.holds(a),
        m.vals[v as int] == word(a),
    ensures
        replies(
            ops,
            m,
            st,
            cast(st, TypeView::Int(s), TypeView::Float, v, line)->Ok_0.0,
            cast(st, TypeView::Int(s), TypeView::Float, v, line)->Ok_0.1,
            Reply::Value(nearest_float(a) as int, m.world),
        ),
        a < 0 ==> negative(nearest_float(a)) && amount(nearest_float(a)) < 0,
        a > 0 ==> !negative(nearest_float(a)) && amount(nearest_float(a)) > 0,
{
    reveal(cast);
    let end = cast(st, TypeView::Int(s), TypeView::Float, v, line)->Ok_0.0;
    let n = st.f.ops.len() as int;
    assert(ops[n] == end.f.ops[n]);
    law_word_round_trip(s, a);
    let w = nearest_float(a);
    lemma_word(w as int);
    let m1 = with(m, w);
    assert(step(ops, m) == Some(End::At(m1)));
    lemma_leads_step(ops, m, End::At(m1));
    assert(framed(m1, m, n));
    law_nearest_float(a);
    assert(amount(0) == 0);
}

/// The code of a cast does what the cast means.
pub proof fn law_cast(
    ops: Seq<Op>,
    m: Machine,
    st: LowView,
    src: TypeView,
    dst: TypeView,
    v: usize,
    line: u32,
    x: int,
)
    requires
        cast(st, src, dst, v, line) is Ok,
        begins(ops, cast(st, src, dst, v, line)->Ok_0.0),
        ops.len() <= usize::MAX,
        ready(ops, m, st),
        v < st.f.ops.len(),
        m.vals[v as int] == word(x),
    ensures
        replies(
            ops,
            m,
            st,
            cast(st, src, dst, v, line)->Ok_0.0,
            cast(st, src, dst, v, line)->Ok_0.1,
            cast_value(src, dst, x, line, m.world),
        ),
{
    if src is Int && kind_of(src).holds(x) {
        if dst is Int {
            reveal(cast);
            law_cast_int(ops, m, st, kind_of(src), kind_of(dst), v, line, x);
        } else if dst is Float {
            law_cast_to_float(ops, m, st, kind_of(src), v, line, x);
        }
    } else if src is Float && 0 <= x < modulus() {
        reveal(cast);
        lemma_word(x);
        if dst is Float {
            lemma_leads_here(ops, m);
            assert(framed(m, m, st.f.ops.len() as int));
        } else if dst is Int {
            law_cast_to_int(ops, m, st, kind_of(dst), v, line, x as u64);
        }
    }
}

} // verus!
