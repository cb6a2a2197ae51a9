//! What the parts of the checker promise: that unification solves what it is
//! asked, that names are resolved once, and what statements leave as it was.
use vstd::prelude::*;

use crate::ast::CaptureView;
use crate::text::{lemma_position_from, position};
use crate::types::TypeView;
use crate::typing::{
    all_solved, capture_names, own_var, partial_args, resolve_in, resolve_var, subst_partial, unify,
    unify_all, unsolved, BodyView, CtxView,
};

verus! {

// -- Unification ------------------------------------------------------------

/// Do types of the same struct or enum carry equally many arguments?
pub open spec fn same_arity(a: TypeView, b: TypeView) -> bool
    decreases a, 0nat,
{
    match (a, b) {
        (TypeView::Array(x), TypeView::Array(y)) => same_arity(*x, *y),
        (TypeView::Struct(i, ax), TypeView::Struct(j, bx)) => i == j ==> ax.len() == bx.len()
            && same_arities(ax, bx),
        (TypeView::Enum(i, ax), TypeView::Enum(j, bx)) => i == j ==> ax.len() == bx.len()
            && same_arities(ax, bx),
        (TypeView::Fn(ap, ar), TypeView::Fn(bp, br)) => same_arities(ap, bp) && same_arity(
            *ar,
            *br,
        ),
        _ => true,
    }
}

pub open spec fn same_arities(ax: Seq<TypeView>, bx: Seq<TypeView>) -> bool
    decreases ax, 1nat,
{
    forall|i: int| 0 <= i < ax.len() && i < bx.len() ==> same_arity(#[trigger] ax[i], bx[i])
}

/// Is parameter `i` mentioned?
pub open spec fn occurs(t: TypeView, i: int) -> bool {
    t.mentions(i, i + 1)
}

/// Are all mentioned parameters bound?
spec fn bound(t: TypeView, s: Seq<Option<TypeView>>) -> bool {
    forall|i: int| #[trigger] occurs(t, i) ==> 0 <= i < s.len() && s[i] is Some
}

/// Is everything that `a` binds bound the same in `b`?
pub open spec fn keeps_solved(b: Seq<Option<TypeView>>, a: Seq<Option<TypeView>>) -> bool {
    b.len() == a.len() && forall|i: int|
        0 <= i < a.len() && a[i] is Some ==> #[trigger] b[i] == a[i]
}

/// Further bindings do not change a type whose parameters are bound.
proof fn lemma_stable(t: TypeView, a: Seq<Option<TypeView>>, b: Seq<Option<TypeView>>)
    requires
        bound(t, a),
        keeps_solved(b, a),
    ensures
        t.subst(partial_args(b)) == t.subst(partial_args(a)),
        bound(t, b),
    decreases t, 0nat,
{
    match t {
        TypeView::Param(i) => {
            assert(occurs(t, i as int));
        },
        TypeView::Array(e) => {
            lemma_inner(t, *e, a);
            lemma_stable(*e, a, b);
        },
        TypeView::Struct(_, ts) => lemma_stable_all(t, ts, a, b),
        TypeView::Enum(_, ts) => lemma_stable_all(t, ts, a, b),
        TypeView::Fn(ps, r) => {
            lemma_stable_all(t, ps, a, b);
            lemma_inner(t, *r, a);
            lemma_stable(*r, a, b);
        },
        _ => {},
    }
    assert(bound(t, b)) by {
        assert forall|i: int| #[trigger] occurs(t, i) implies 0 <= i < b.len() && b[i] is Some by {
            assert(b[i] == a[i]);
        }
    }
}

/// What is bound in a type is bound in its parts.
proof fn lemma_inner(t: TypeView, part: TypeView, s: Seq<Option<TypeView>>)
    requires
        bound(t, s),
        forall|i: int| #[trigger] occurs(part, i) ==> occurs(t, i),
    ensures
        bound(part, s),
{
}

proof fn lemma_stable_all(
    t: TypeView,
    ts: Seq<TypeView>,
    a: Seq<Option<TypeView>>,
    b: Seq<Option<TypeView>>,
)
    requires
        bound(t, a),
        keeps_solved(b, a),
        forall|i: int| TypeView::any_mentions(ts, i, i + 1) ==> #[trigger] occurs(t, i),
    ensures
        TypeView::subst_all(ts, partial_args(b)) == TypeView::subst_all(ts, partial_args(a)),
    decreases ts, 1nat,
{
    assert forall|k: int| 0 <= k < ts.len() implies (#[trigger] ts[k]).subst(partial_args(b))
        == ts[k].subst(partial_args(a)) by {
        assert(bound(ts[k], a)) by {
            assert forall|i: int| #[trigger] occurs(ts[k], i) implies 0 <= i < a.len()
                && a[i] is Some by {
                assert(TypeView::any_mentions(ts, i, i + 1));
                assert(occurs(t, i));
            }
        }
        lemma_stable(ts[k], a, b);
    }
    assert(TypeView::subst_all(ts, partial_args(b)) =~= TypeView::subst_all(ts, partial_args(a)));
}

/// What a success of unification says.
pub open spec fn solves(
    decl: TypeView,
    actual: TypeView,
    before: Seq<Option<TypeView>>,
    after: Seq<Option<TypeView>>,
) -> bool {
    &&& keeps_solved(after, before)
    &&& forall|i: int| 0 <= i < before.len() && !occurs(decl, i) ==> #[trigger] after[i] == before[i]
    &&& forall|i: int| #[trigger] occurs(decl, i) ==> 0 <= i < after.len() && after[i] is Some
    &&& decl.subst(partial_args(after)) == actual
}

/// A success solves the equation: with what is bound then, the declared type is
/// the actual one. Every parameter that it mentions is bound; what was bound
/// stays, and the other parameters stay as they were.
pub proof fn law_unify(decl: TypeView, actual: TypeView, solved: Seq<Option<TypeView>>)
    requires
        !decl.mentions(solved.len() as int, 0x1_0000_0000),
        same_arity(decl, actual),
        unify(decl, actual, solved).0,
    ensures
        solves(decl, actual, solved, unify(decl, actual, solved).1),
    decreases decl, 0nat,
{
    let s1 = unify(decl, actual, solved).1;
    match decl {
        TypeView::Param(i) => {
            assert forall|k: int| #[trigger] occurs(decl, k) implies k == i by {}
            assert(occurs(decl, i as int));
        },
        TypeView::Array(a) => {
            if let TypeView::Array(b) = actual {
                law_unify(*a, *b, solved);
                assert forall|k: int| #[trigger] occurs(decl, k) implies occurs(*a, k) by {}
                assert forall|k: int| #[trigger] occurs(*a, k) implies occurs(decl, k) by {}
            }
        },
        TypeView::Enum(_, ax) => {
            if let TypeView::Enum(_, bx) = actual {
                lemma_unify_all(ax, bx, 0, solved);
                lemma_pairs(decl, ax, bx, solved, s1);
            }
        },
        TypeView::Struct(_, ax) => {
            if let TypeView::Struct(_, bx) = actual {
                lemma_unify_all(ax, bx, 0, solved);
                lemma_pairs(decl, ax, bx, solved, s1);
            }
        },
        TypeView::Fn(ap, ar) => {
            if let TypeView::Fn(bp, br) = actual {
                let s = unify_all(ap, bp, 0, solved).1;
                lemma_unify_all(ap, bp, 0, solved);
                assert(!ar.mentions(s.len() as int, 0x1_0000_0000));
                law_unify(*ar, *br, s);
                assert forall|k: int| 0 <= k < ap.len() implies (#[trigger] ap[k]).subst(
                    partial_args(s1),
                ) == bp[k] by {
                    assert(bound(ap[k], s));
                    lemma_stable(ap[k], s, s1);
                }
                assert(TypeView::subst_all(ap, partial_args(s1)) =~= bp);
                assert forall|k: int| #[trigger] occurs(decl, k) implies 0 <= k < s1.len()
                    && s1[k] is Some by {
                    if !occurs(*ar, k) {
                        assert(TypeView::any_mentions(ap, k, k + 1));
                        let j = choose|j: int|
                            0 <= j < ap.len() && (#[trigger] ap[j]).mentions(k, k + 1);
                        assert(occurs(ap[j], k));
                        assert(bound(ap[j], s));
                        assert(s1[k] == s[k]);
                    }
                }
                assert forall|k: int| 0 <= k < solved.len() && !occurs(decl, k) implies
                    #[trigger] s1[k] == solved[k] by {
                    assert(!occurs(*ar, k));
                    assert(!TypeView::any_mentions(ap, k, k + 1));
                    assert(s1[k] == s[k]);
                    assert(s[k] == solved[k]);
                }
                assert forall|k: int| 0 <= k < solved.len() && solved[k] is Some implies
                    #[trigger] s1[k] == solved[k] by {
                    assert(s[k] == solved[k]);
                }
            }
        },
        _ => {
            assert forall|k: int| !(#[trigger] occurs(decl, k)) by {}
        },
    }
}

/// Lists, pair by pair.
proof fn lemma_unify_all(
    ax: Seq<TypeView>,
    bx: Seq<TypeView>,
    i: nat,
    solved: Seq<Option<TypeView>>,
)
    requires
        ax.len() == bx.len(),
        i <= ax.len(),
        !TypeView::any_mentions(ax, solved.len() as int, 0x1_0000_0000),
        same_arities(ax, bx),
        unify_all(ax, bx, i, solved).0,
    ensures
        ({
            let s1 = unify_all(ax, bx, i, solved).1;
            &&& keeps_solved(s1, solved)
            &&& forall|k: int|
                0 <= k < solved.len() && !TypeView::any_mentions(ax, k, k + 1) ==> #[trigger] s1[k]
                    == solved[k]
            &&& forall|j: int|
                i <= j < ax.len() ==> bound(#[trigger] ax[j], s1) && ax[j].subst(partial_args(s1))
                    == bx[j]
        }),
    decreases ax, ax.len() - i,
{
    if i < ax.len() {
        let s = unify(ax[i as int], bx[i as int], solved).1;
        assert(!ax[i as int].mentions(solved.len() as int, 0x1_0000_0000));
        law_unify(ax[i as int], bx[i as int], solved);
        lemma_unify_all(ax, bx, i + 1, s);
        let s1 = unify_all(ax, bx, i, solved).1;
        assert(bound(ax[i as int], s));
        lemma_stable(ax[i as int], s, s1);
        assert forall|k: int| 0 <= k < solved.len() && !TypeView::any_mentions(ax, k, k + 1) implies
            #[trigger] s1[k] == solved[k] by {
            assert(!occurs(ax[i as int], k));
            assert(s[k] == solved[k]);
        }
        assert forall|k: int| 0 <= k < solved.len() && solved[k] is Some implies #[trigger] s1[k]
            == solved[k] by {
            assert(s[k] == solved[k]);
        }
    }
}

/// From the arguments to the type that they are arguments of.
proof fn lemma_pairs(
    decl: TypeView,
    ax: Seq<TypeView>,
    bx: Seq<TypeView>,
    solved: Seq<Option<TypeView>>,
    s1: Seq<Option<TypeView>>,
)
    requires
        ax.len() == bx.len(),
        forall|j: int|
            0 <= j < ax.len() ==> bound(#[trigger] ax[j], s1) && ax[j].subst(partial_args(s1))
                == bx[j],
        forall|k: int| #[trigger] occurs(decl, k) == TypeView::any_mentions(ax, k, k + 1),
        forall|k: int|
            0 <= k < solved.len() && !TypeView::any_mentions(ax, k, k + 1) ==> #[trigger] s1[k]
                == solved[k],
    ensures
        TypeView::subst_all(ax, partial_args(s1)) == bx,
        forall|k: int| #[trigger] occurs(decl, k) ==> 0 <= k < s1.len() && s1[k] is Some,
        forall|k: int|
            0 <= k < solved.len() && !occurs(decl, k) ==> #[trigger] s1[k] == solved[k],
{
    assert(TypeView::subst_all(ax, partial_args(s1)) =~= bx);
    assert forall|k: int| #[trigger] occurs(decl, k) implies 0 <= k < s1.len() && s1[k] is Some by {
        let j = choose|j: int| 0 <= j < ax.len() && (#[trigger] ax[j]).mentions(k, k + 1);
        assert(occurs(ax[j], k));
        assert(bound(ax[j], s1));
    }
}

// -- Partial substitution ---------------------------------------------------

/// With nothing solved, partial substitution is the identity.
pub proof fn law_nothing_solved(t: TypeView, n: nat)
    ensures
        subst_partial(t, unsolved(n)) == t,
    decreases t, 0nat,
{
    match t {
        TypeView::Array(e) => law_nothing_solved(*e, n),
        TypeView::Struct(_, ts) => lemma_nothing_solved(ts, n),
        TypeView::Enum(_, ts) => lemma_nothing_solved(ts, n),
        TypeView::Fn(ps, r) => {
            lemma_nothing_solved(ps, n);
            law_nothing_solved(*r, n);
        },
        _ => {},
    }
}

proof fn lemma_nothing_solved(ts: Seq<TypeView>, n: nat)
    ensures
        TypeView::subst_all(ts, partial_args(unsolved(n))) == ts,
    decreases ts, 1nat,
{
    assert forall|k: int| 0 <= k < ts.len() implies (#[trigger] ts[k]).subst(
        partial_args(unsolved(n)),
    ) == ts[k] by {
        law_nothing_solved(ts[k], n);
    }
    assert(TypeView::subst_all(ts, partial_args(unsolved(n))) =~= ts);
}

/// With everything solved, it is the full substitution.
pub proof fn law_everything_solved(t: TypeView, args: Seq<TypeView>)
    ensures
        subst_partial(t, all_solved(args)) == t.subst(args),
{
    assert(partial_args(all_solved(args)) =~= args);
}

/// A solved parameter is replaced, and any other stays in place.
pub proof fn law_partial_param(i: u32, solved: Seq<Option<TypeView>>)
    requires
        i < solved.len(),
    ensures
        subst_partial(TypeView::Param(i), solved) == (match solved[i as int] {
            Some(u) => u,
            None => TypeView::Param(i),
        }),
{
}

// -- Names ------------------------------------------------------------------

/// A name that is resolved is known from then on.
proof fn lemma_resolved_again(c: CtxView, outer: Seq<CtxView>, name: Seq<char>)
    ensures
        ({
            let (c1, outer1, r) = resolve_in(c, outer, name);
            &&& outer1.len() == outer.len()
            &&& resolve_in(c1, outer1, name) == (c1, outer1, r)
            &&& r is None ==> c1 == c && outer1 == outer
        }),
    decreases outer.len(),
{
    reveal(own_var);
    if own_var(c, name) is None && c.captures is Some && outer.len() > 0 {
        let caps = c.captures->0;
        let (oc, rest, r) = resolve_in(outer.last(), outer.drop_last(), name);
        lemma_resolved_again(outer.last(), outer.drop_last(), name);
        match r {
            None => {
                assert(rest.push(oc) =~= outer);
            },
            Some((src, ty)) => {
                let more = caps.push(CaptureView { name, ty, src });
                lemma_position_last(capture_names(caps), name);
                assert(capture_names(more) =~= capture_names(caps).push(name));
            },
        }
    }
}

/// A name that stands nowhere yet is found where it is added.
proof fn lemma_position_last(names: Seq<Seq<char>>, name: Seq<char>)
    requires
        position(names, name) is None,
    ensures
        position(names.push(name), name) == Some(names.len()),
{
    lemma_position_from(names, name, 0);
    lemma_position_from(names.push(name), name, 0);
    if position(names.push(name), name) is None {
        assert(names.push(name)[names.len() as int] == name);
    }
}

/// Resolving a name again gives the same and changes nothing: nothing is
/// captured twice. A name that is not found changes nothing at all.
pub proof fn law_resolve_again(st: BodyView, name: Seq<char>)
    ensures
        ({
            let (st1, r) = resolve_var(st, name);
            &&& resolve_var(st1, name) == (st1, r)
            &&& r is None ==> st1 == st
        }),
{
    reveal(resolve_var);
    lemma_resolved_again(st.cur, st.outer, name);
}

} // verus!
