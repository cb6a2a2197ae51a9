//! That the arms of a match leave nothing out: for every value of the
//! scrutinee there is one arm that takes it.
use vstd::prelude::*;

use crate::ast::PatternView;
use crate::types::{IntKind, TypeView, VariantPayloadView};
use crate::typing::{
    bits_of, bool_patterns, check_patterns, enum_patterns, int_patterns, missing_variants,
    none_seen, variant_pattern, EnvView,
};
use crate::text::lemma_position_from;

verus! {

/// What a pattern asks of a value: a variant's tag, a number's bits, or a
/// truth value; nothing, if it is `_`.
pub open spec fn pattern_key(p: PatternView) -> Option<u64> {
    match p {
        PatternView::Variant { tag, .. } => Some(tag as u64),
        PatternView::IntLit { value, .. } => Some(value),
        PatternView::ByteLit { value, .. } => Some(value as u64),
        PatternView::BoolLit { value, .. } => Some(
            if value {
                1
            } else {
                0
            },
        ),
        PatternView::Wildcard { .. } => None,
    }
}

pub open spec fn takes(p: PatternView, key: u64) -> bool {
    pattern_key(p) is None || pattern_key(p) == Some(key)
}

/// Is this the key of a value of the type?
pub open spec fn is_key(env: EnvView, t: TypeView, key: u64) -> bool {
    match t {
        TypeView::Enum(eid, _) => key < env.enums[eid as int].variants.len(),
        TypeView::Int(k) => exists|v: int| k.holds(v) && key == #[trigger] bits_of(v),
        TypeView::Bool => key <= 1,
        _ => false,
    }
}

/// Do the patterns ask for different keys, with `_` at most at the end?
pub open spec fn apart(ps: Seq<PatternView>) -> bool {
    forall|i: int, j: int|
        0 <= i < j < ps.len() ==> pattern_key(#[trigger] ps[i]) is Some && pattern_key(
            #[trigger] ps[j],
        ) != pattern_key(ps[i])
}

/// Is some pattern `_`, the last one?
pub open spec fn open_ended(ps: Seq<PatternView>) -> bool {
    ps.len() > 0 && pattern_key(ps.last()) is None
}

/// Does some pattern ask for this key?
pub open spec fn asked(ps: Seq<PatternView>, key: u64) -> bool {
    exists|i: int| 0 <= i < ps.len() && pattern_key(#[trigger] ps[i]) == Some(key)
}

proof fn lemma_asked_more(ps: Seq<PatternView>, p: PatternView, key: u64)
    ensures
        asked(ps.push(p), key) == (asked(ps, key) || pattern_key(p) == Some(key)),
{
    let more = ps.push(p);
    if asked(ps, key) {
        let i = choose|i: int| 0 <= i < ps.len() && pattern_key(#[trigger] ps[i]) == Some(key);
        assert(more[i] == ps[i]);
    }
    if pattern_key(p) == Some(key) {
        assert(more[ps.len() as int] == p);
    }
    if asked(more, key) {
        let i = choose|i: int| 0 <= i < more.len() && pattern_key(#[trigger] more[i]) == Some(key);
        if i < ps.len() {
            assert(ps[i] == more[i]);
        }
    }
}

/// One more pattern that asks for something new, behind patterns without `_`.
proof fn lemma_apart_more(ps: Seq<PatternView>, p: PatternView)
    requires
        apart(ps),
        !open_ended(ps),
        pattern_key(p) matches Some(k) ==> !asked(ps, k),
    ensures
        apart(ps.push(p)),
        open_ended(ps.push(p)) == (pattern_key(p) is None),
{
    let more = ps.push(p);
    assert forall|i: int, j: int| 0 <= i < j < more.len() implies pattern_key(
        #[trigger] more[i],
    ) is Some && pattern_key(#[trigger] more[j]) != pattern_key(more[i]) by {
        assert(more[i] == ps[i]);
        if j < ps.len() {
            assert(more[j] == ps[j]);
        } else {
            if i < ps.len() - 1 {
                assert(pattern_key(ps[i]) is Some && pattern_key(ps[ps.len() - 1]) != pattern_key(
                    ps[i],
                ));
            }
            assert(pattern_key(ps[i]) is Some);
            if pattern_key(p) == pattern_key(ps[i]) {
                assert(asked(ps, pattern_key(ps[i])->0));
            }
        }
    }
}

// -- Enums ------------------------------------------------------------------

/// The patterns so far, and the variants that they cover.
spec fn enum_so_far(ps: Seq<PatternView>, seen: Seq<bool>, wild: Option<u32>) -> bool {
    &&& apart(ps)
    &&& open_ended(ps) == (wild is Some)
    &&& forall|t: u64| #[trigger] asked(ps, t) <==> t < seen.len() && seen[t as int]
}

proof fn lemma_variant_pattern(
    env: EnvView,
    eid: u32,
    targs: Seq<TypeView>,
    p: PatternView,
    seen: Seq<bool>,
)
    requires
        variant_pattern(env, eid, targs, p, seen) is Ok,
        seen.len() == env.enums[eid as int].variants.len() <= u32::MAX,
    ensures
        ({
            let (q, tag) = variant_pattern(env, eid, targs, p, seen)->Ok_0;
            &&& tag < seen.len()
            &&& !seen[tag as int]
            &&& pattern_key(q) == Some(tag as u64)
        }),
{
    reveal(variant_pattern);
    if let PatternView::Variant { variant, .. } = p {
        let names = crate::types::variant_names(env.enums[eid as int].variants);
        lemma_position_from(names, variant, 0);
    }
}

proof fn lemma_enum_patterns(
    env: EnvView,
    eid: u32,
    targs: Seq<TypeView>,
    pats: Seq<PatternView>,
    i: nat,
    seen: Seq<bool>,
    wild: Option<u32>,
    acc: Seq<PatternView>,
)
    requires
        enum_so_far(acc, seen, wild),
        seen.len() == env.enums[eid as int].variants.len() <= u32::MAX,
        enum_patterns(env, eid, targs, pats, i, seen, wild, acc) is Ok,
    ensures
        ({
            let (ps, seen2, wild2) = enum_patterns(
                env,
                eid,
                targs,
                pats,
                i,
                seen,
                wild,
                acc,
            )->Ok_0;
            enum_so_far(ps, seen2, wild2) && seen2.len() == seen.len()
        }),
    decreases pats.len() - i,
{
    if i < pats.len() {
        let p = pats[i as int];
        match p {
            PatternView::Variant { .. } => {
                let (q, tag) = variant_pattern(env, eid, targs, p, seen)->Ok_0;
                lemma_variant_pattern(env, eid, targs, p, seen);
                let now = seen.update(tag as int, true);
                lemma_apart_more(acc, q);
                assert forall|t: u64| #[trigger] asked(acc.push(q), t) <==> t < now.len()
                    && now[t as int] by {
                    lemma_asked_more(acc, q, t);
                    assert(asked(acc, t) <==> t < seen.len() && seen[t as int]);
                }
                lemma_enum_patterns(env, eid, targs, pats, i + 1, now, wild, acc.push(q));
            },
            PatternView::Wildcard { line } => {
                lemma_apart_more(acc, p);
                assert forall|t: u64| #[trigger] asked(acc.push(p), t) <==> t < seen.len()
                    && seen[t as int] by {
                    lemma_asked_more(acc, p, t);
                }
                lemma_enum_patterns(
                    env,
                    eid,
                    targs,
                    pats,
                    i + 1,
                    seen,
                    Some(line),
                    acc.push(p),
                );
            },
            _ => {},
        }
    }
}

/// If no variant is missing, all are covered.
proof fn lemma_none_missing(
    vs: Seq<(Seq<char>, VariantPayloadView)>,
    seen: Seq<bool>,
    i: nat,
    acc: Seq<Seq<char>>,
)
    ensures
        acc.len() <= missing_variants(vs, seen, i, acc).len(),
        missing_variants(vs, seen, i, acc).len() == 0 ==> forall|t: int|
            i <= t < vs.len() ==> #[trigger] seen[t],
    decreases vs.len() - i,
{
    if i < vs.len() {
        if seen[i as int] {
            lemma_none_missing(vs, seen, i + 1, acc);
        } else {
            lemma_none_missing(vs, seen, i + 1, acc.push(vs[i as int].0));
        }
    }
}

// -- Integers and truth values ----------------------------------------------

spec fn int_so_far(ps: Seq<PatternView>, seen: Seq<u64>, wild: Option<u32>) -> bool {
    &&& apart(ps)
    &&& open_ended(ps) == (wild is Some)
    &&& forall|v: u64| #[trigger] asked(ps, v) <==> seen.contains(v)
}

proof fn lemma_contains_more(s: Seq<u64>, x: u64, v: u64)
    ensures
        s.push(x).contains(v) == (s.contains(v) || v == x),
{
    let more = s.push(x);
    if s.contains(v) {
        let i = choose|i: int| 0 <= i < s.len() && s[i] == v;
        assert(more[i] == v);
    }
    if v == x {
        assert(more[s.len() as int] == v);
    }
    if more.contains(v) {
        let i = choose|i: int| 0 <= i < more.len() && more[i] == v;
        if i < s.len() {
            assert(s[i] == v);
        }
    }
}

proof fn lemma_int_patterns(
    env: EnvView,
    k: IntKind,
    pats: Seq<PatternView>,
    i: nat,
    seen: Seq<u64>,
    wild: Option<u32>,
    acc: Seq<PatternView>,
)
    requires
        int_so_far(acc, seen, wild),
        int_patterns(env, k, pats, i, seen, wild, acc) is Ok,
    ensures
        ({
            let (ps, seen2, wild2) = int_patterns(env, k, pats, i, seen, wild, acc)->Ok_0;
            int_so_far(ps, seen2, wild2)
        }),
    decreases pats.len() - i,
{
    if i < pats.len() {
        let p = pats[i as int];
        match p {
            PatternView::Wildcard { line } => {
                lemma_apart_more(acc, p);
                assert forall|v: u64| #[trigger] asked(acc.push(p), v) <==> seen.contains(v) by {
                    lemma_asked_more(acc, p, v);
                }
                lemma_int_patterns(env, k, pats, i + 1, seen, Some(line), acc.push(p));
            },
            PatternView::IntLit { neg, digits, line, .. } => {
                let v = if neg {
                    -(digits as int)
                } else {
                    digits as int
                };
                let q = PatternView::IntLit { neg, digits, value: bits_of(v), line };
                lemma_int_more(acc, seen, q, bits_of(v));
                lemma_int_patterns(
                    env,
                    k,
                    pats,
                    i + 1,
                    seen.push(bits_of(v)),
                    wild,
                    acc.push(q),
                );
            },
            PatternView::ByteLit { value, .. } => {
                lemma_int_more(acc, seen, p, value as u64);
                lemma_int_patterns(
                    env,
                    k,
                    pats,
                    i + 1,
                    seen.push(value as u64),
                    wild,
                    acc.push(p),
                );
            },
            _ => {},
        }
    }
}

proof fn lemma_int_more(acc: Seq<PatternView>, seen: Seq<u64>, q: PatternView, key: u64)
    requires
        int_so_far(acc, seen, None),
        pattern_key(q) == Some(key),
        !seen.contains(key),
    ensures
        int_so_far(acc.push(q), seen.push(key), None),
{
    lemma_apart_more(acc, q);
    assert forall|v: u64| #[trigger] asked(acc.push(q), v) <==> seen.push(key).contains(v) by {
        lemma_asked_more(acc, q, v);
        lemma_contains_more(seen, key, v);
        assert(asked(acc, v) <==> seen.contains(v));
    }
}

spec fn bool_so_far(ps: Seq<PatternView>, t: bool, f: bool, wild: Option<u32>) -> bool {
    &&& apart(ps)
    &&& open_ended(ps) == (wild is Some)
    &&& asked(ps, 1) == t
    &&& asked(ps, 0) == f
}

proof fn lemma_bool_patterns(
    env: EnvView,
    pats: Seq<PatternView>,
    i: nat,
    t: bool,
    f: bool,
    wild: Option<u32>,
)
    requires
        i <= pats.len(),
        bool_so_far(pats.take(i as int), t, f, wild),
        bool_patterns(env, pats, i, t, f, wild) is Ok,
    ensures
        ({
            let (t2, f2, wild2) = bool_patterns(env, pats, i, t, f, wild)->Ok_0;
            bool_so_far(pats, t2, f2, wild2)
        }),
    decreases pats.len() - i,
{
    let acc = pats.take(i as int);
    if i < pats.len() {
        let p = pats[i as int];
        assert(pats.take(i as int + 1) =~= acc.push(p));
        lemma_asked_more(acc, p, 0);
        lemma_asked_more(acc, p, 1);
        match p {
            PatternView::Wildcard { line } => {
                lemma_apart_more(acc, p);
                lemma_bool_patterns(env, pats, i + 1, t, f, Some(line));
            },
            PatternView::BoolLit { value, .. } => {
                lemma_apart_more(acc, p);
                if value {
                    lemma_bool_patterns(env, pats, i + 1, true, f, wild);
                } else {
                    lemma_bool_patterns(env, pats, i + 1, t, true, wild);
                }
            },
            _ => {},
        }
    } else {
        assert(acc =~= pats);
    }
}

/// Patterns on integers and truth values stay as many, and none is a variant.
pub proof fn lemma_scalar_patterns(env: EnvView, t: TypeView, pats: Seq<PatternView>, line: u32)
    requires
        t is Int || t is Bool,
        check_patterns(env, t, pats, line) is Ok,
    ensures
        check_patterns(env, t, pats, line)->Ok_0.len() == pats.len(),
        forall|i: int|
            0 <= i < pats.len() ==> !(#[trigger] check_patterns(env, t, pats, line)->Ok_0[i]
                is Variant),
{
    reveal(check_patterns);
    match t {
        TypeView::Int(k) => {
            lemma_int_shape(env, k, pats, 0, Seq::empty(), None, Seq::empty());
        },
        _ => {
            lemma_bool_shape(env, pats, 0, false, false, None);
        },
    }
}

proof fn lemma_int_shape(
    env: EnvView,
    k: IntKind,
    pats: Seq<PatternView>,
    i: nat,
    seen: Seq<u64>,
    wild: Option<u32>,
    acc: Seq<PatternView>,
)
    requires
        acc.len() == i <= pats.len(),
        forall|j: int| 0 <= j < acc.len() ==> !(#[trigger] acc[j] is Variant),
        int_patterns(env, k, pats, i, seen, wild, acc) is Ok,
    ensures
        int_patterns(env, k, pats, i, seen, wild, acc)->Ok_0.0.len() == pats.len(),
        forall|j: int|
            0 <= j < pats.len() ==> !(#[trigger] int_patterns(
                env,
                k,
                pats,
                i,
                seen,
                wild,
                acc,
            )->Ok_0.0[j] is Variant),
    decreases pats.len() - i,
{
    if i < pats.len() {
        let p = pats[i as int];
        match p {
            PatternView::Wildcard { line } => {
                lemma_int_shape(env, k, pats, i + 1, seen, Some(line), acc.push(p));
            },
            PatternView::IntLit { neg, digits, line, .. } => {
                let v = if neg {
                    -(digits as int)
                } else {
                    digits as int
                };
                let q = PatternView::IntLit { neg, digits, value: bits_of(v), line };
                lemma_int_shape(env, k, pats, i + 1, seen.push(bits_of(v)), wild, acc.push(q));
            },
            PatternView::ByteLit { value, .. } => {
                lemma_int_shape(env, k, pats, i + 1, seen.push(value as u64), wild, acc.push(p));
            },
            _ => {},
        }
    }
}

proof fn lemma_bool_shape(
    env: EnvView,
    pats: Seq<PatternView>,
    i: nat,
    t: bool,
    f: bool,
    wild: Option<u32>,
)
    requires
        i <= pats.len(),
        forall|j: int| 0 <= j < i ==> !(#[trigger] pats[j] is Variant),
        bool_patterns(env, pats, i, t, f, wild) is Ok,
    ensures
        forall|j: int| 0 <= j < pats.len() ==> !(#[trigger] pats[j] is Variant),
    decreases pats.len() - i,
{
    if i < pats.len() {
        match pats[i as int] {
            PatternView::Wildcard { line } => {
                lemma_bool_shape(env, pats, i + 1, t, f, Some(line));
            },
            PatternView::BoolLit { value, .. } => {
                if value {
                    lemma_bool_shape(env, pats, i + 1, true, f, wild);
                } else {
                    lemma_bool_shape(env, pats, i + 1, t, true, wild);
                }
            },
            _ => {},
        }
    }
}

// -- Matches ----------------------------------------------------------------

/// What the checker accepts as the patterns of a match is exhaustive and
/// without overlap: every value of the scrutinee's type is taken by some arm,
/// different arms ask for different values, and only the last can be `_`.
pub proof fn law_match_is_exhaustive(
    env: EnvView,
    scrut: TypeView,
    pats: Seq<PatternView>,
    line: u32,
    key: u64,
)
    requires
        check_patterns(env, scrut, pats, line) is Ok,
        scrut matches TypeView::Enum(eid, _) ==> env.enums[eid as int].variants.len() <= u32::MAX,
        is_key(env, scrut, key),
    ensures
        apart(check_patterns(env, scrut, pats, line)->Ok_0),
        exists|i: int|
            0 <= i < check_patterns(env, scrut, pats, line)->Ok_0.len() && takes(
                #[trigger] check_patterns(env, scrut, pats, line)->Ok_0[i],
                key,
            ),
{
    reveal(check_patterns);
    let out = check_patterns(env, scrut, pats, line)->Ok_0;
    let none = Seq::<PatternView>::empty();
    match scrut {
        TypeView::Enum(eid, targs) => {
            let vs = env.enums[eid as int].variants;
            let start = none_seen(vs.len());
            assert(enum_so_far(none, start, None));
            lemma_enum_patterns(env, eid, targs, pats, 0, start, None, none);
            let (ps, seen, wild) = enum_patterns(
                env,
                eid,
                targs,
                pats,
                0,
                start,
                None,
                none,
            )->Ok_0;
            lemma_none_missing(vs, seen, 0, Seq::empty());
            if wild is None {
                assert(seen[key as int]);
                assert(asked(ps, key));
            }
        },
        TypeView::Int(k) => {
            assert(int_so_far(none, Seq::empty(), None));
            lemma_int_patterns(env, k, pats, 0, Seq::empty(), None, none);
        },
        TypeView::Bool => {
            assert(pats.take(0) =~= none);
            lemma_bool_patterns(env, pats, 0, false, false, None);
            let (t, f, wild) = bool_patterns(env, pats, 0, false, false, None)->Ok_0;
            if wild is None {
                assert(asked(out, key));
            }
        },
        _ => {},
    }
    if open_ended(out) {
        assert(takes(out[out.len() - 1], key));
    } else {
        assert(asked(out, key));
        let i = choose|i: int| 0 <= i < out.len() && pattern_key(#[trigger] out[i]) == Some(key);
        assert(takes(out[i], key));
    }
}

} // verus!
