//! That instantiation leaves no type parameter: what is lowered has concrete
//! types only, and a function without type parameters is lowered as it is.
use vstd::prelude::*;

use crate::ast::{
    BlockView, CaptureView, EnumDefView, ExprKindView, ExprView, FuncDefView, LambdaDefView,
    MethodDefView, PatArgsView, PatternView, ProgramView, StmtView, StructDefView, TypeExprView,
    VariantArgsView,
};
use crate::mono::{
    instance_of, lambda_table, representatives, subst_arms, subst_binder, subst_block,
    subst_block_arms, subst_captures, subst_expr, subst_exprs, subst_inits, subst_kind,
    subst_lambda, subst_pattern, subst_payload, subst_stmt, subst_stmts, LambdaInstView, Shape,
};
use crate::rules::{
    add_prelude, check_spec, collect, collect_enums, collect_funcs, collect_methods,
    collect_structs, empty_env, func_sig, method_key, resolve_enums, resolve_fields,
    resolve_structs, resolve_variants, CheckedView,
};
use crate::text::lemma_position_from;
use crate::types::{
    law_subst_closed, law_subst_eliminates, lemma_subst_closed_all, lemma_subst_eliminates_all,
    EnumInfoView, StructInfoView, TypeView,
};
use crate::typing::{
    primitive, resolve_params, resolve_type, resolve_types, EnvView, FuncSigView, MethodView,
};
use crate::walk::lambdas_in_block;

verus! {

// -- Trees over few parameters ----------------------------------------------

/// Does the type mention only type parameters below `n`?
pub open spec fn within_type(t: TypeView, n: int) -> bool {
    !t.mentions(n, 0x1_0000_0000)
}

pub open spec fn within_types(ts: Seq<TypeView>, n: int) -> bool {
    !TypeView::any_mentions(ts, n, 0x1_0000_0000)
}

pub open spec fn within_captures(cs: Seq<CaptureView>, n: int) -> bool {
    forall|i: int| 0 <= i < cs.len() ==> within_type((#[trigger] cs[i]).ty, n)
}

pub open spec fn within_pattern(p: PatternView, n: int) -> bool {
    match p {
        PatternView::Variant { args, .. } => match args {
            PatArgsView::Bare => true,
            PatArgsView::Single(b) => within_type(b.ty, n),
            PatArgsView::Fields(fs) => forall|i: int|
                0 <= i < fs.len() ==> within_type((#[trigger] fs[i]).1.ty, n),
        },
        _ => true,
    }
}

/// Do all types in the tree mention only type parameters below `n`?
pub open spec fn within_expr(e: ExprView, n: int) -> bool
    decreases e, 0nat,
{
    within_type(e.ty, n) && within_kind(e.kind, n)
}

pub open spec fn within_exprs(es: Seq<ExprView>, n: int) -> bool
    decreases es, 1nat,
{
    forall|i: int| 0 <= i < es.len() ==> within_expr(#[trigger] es[i], n)
}

pub open spec fn within_inits(fs: Seq<(Seq<char>, ExprView, u32)>, n: int) -> bool
    decreases fs, 1nat,
{
    forall|i: int| 0 <= i < fs.len() ==> within_expr((#[trigger] fs[i]).1, n)
}

pub open spec fn within_arms(arms: Seq<(PatternView, ExprView)>, n: int) -> bool
    decreases arms, 1nat,
{
    forall|i: int|
        0 <= i < arms.len() ==> within_pattern((#[trigger] arms[i]).0, n) && within_expr(
            arms[i].1,
            n,
        )
}

pub open spec fn within_kind(k: ExprKindView, n: int) -> bool
    decreases k, 0nat,
{
    match k {
        ExprKindView::Unary(_, a) => within_expr(*a, n),
        ExprKindView::Cast(a, _) => within_expr(*a, n),
        ExprKindView::Field { obj, .. } => within_expr(*obj, n),
        ExprKindView::Binary(_, a, b) => within_expr(*a, n) && within_expr(*b, n),
        ExprKindView::Index(a, b) => within_expr(*a, n) && within_expr(*b, n),
        ExprKindView::If { cond, then, els } => within_expr(*cond, n) && within_expr(*then, n)
            && within_expr(*els, n),
        ExprKindView::Call { callee, args, inst, .. } => within_expr(*callee, n) && within_exprs(
            args,
            n,
        ) && within_types(inst, n),
        ExprKindView::Builtin(_, xs) => within_exprs(xs, n),
        ExprKindView::ArrayLit(xs) => within_exprs(xs, n),
        ExprKindView::StructLit { fields, .. } => within_inits(fields, n),
        ExprKindView::VariantStructLit { fields, .. } => within_inits(fields, n),
        ExprKindView::VariantLit { args, .. } => within_payload(args, n),
        ExprKindView::Match { scrutinee, arms } => within_expr(*scrutinee, n) && within_arms(
            arms,
            n,
        ),
        ExprKindView::Lambda(lam) => within_lambda(*lam, n),
        ExprKindView::BoundMethod { obj, inst, .. } => within_expr(*obj, n) && within_types(
            inst,
            n,
        ),
        _ => true,
    }
}

pub open spec fn within_payload(va: VariantArgsView, n: int) -> bool
    decreases va, 0nat,
{
    match va {
        VariantArgsView::Bare => true,
        VariantArgsView::Single(a) => within_expr(*a, n),
        VariantArgsView::Fields(fs) => within_inits(fs, n),
    }
}

pub open spec fn within_lambda(lam: LambdaDefView, n: int) -> bool
    decreases lam, 0nat,
{
    within_block(lam.body, n) && within_captures(lam.captures, n)
}

pub open spec fn within_block(b: BlockView, n: int) -> bool
    decreases b, 0nat,
{
    within_stmts(b.stmts, n)
}

pub open spec fn within_stmts(ss: Seq<StmtView>, n: int) -> bool
    decreases ss, 1nat,
{
    forall|i: int| 0 <= i < ss.len() ==> within_stmt(#[trigger] ss[i], n)
}

pub open spec fn within_block_arms(arms: Seq<(PatternView, BlockView)>, n: int) -> bool
    decreases arms, 1nat,
{
    forall|i: int|
        0 <= i < arms.len() ==> within_pattern((#[trigger] arms[i]).0, n) && within_block(
            arms[i].1,
            n,
        )
}

pub open spec fn within_stmt(s: StmtView, n: int) -> bool
    decreases s, 0nat,
{
    match s {
        StmtView::Let { init, ty, .. } => within_expr(init, n) && within_type(ty, n),
        StmtView::Assign { target, value, .. } => within_expr(target, n) && within_expr(value, n),
        StmtView::Expr(e) => within_expr(e, n),
        StmtView::If { cond, then, els } => within_expr(cond, n) && within_block(then, n)
            && match els {
            Some(b) => within_block(b, n),
            None => true,
        },
        StmtView::While { cond, body } => within_expr(cond, n) && within_block(body, n),
        StmtView::For { init, cond, step, body } => {
            &&& match init {
                Some(s) => within_stmt(*s, n),
                None => true,
            }
            &&& match cond {
                Some(c) => within_expr(c, n),
                None => true,
            }
            &&& match step {
                Some(s) => within_stmt(*s, n),
                None => true,
            }
            &&& within_block(body, n)
        },
        StmtView::Return { value, .. } => match value {
            Some(v) => within_expr(v, n),
            None => true,
        },
        StmtView::Block(b) => within_block(b, n),
        StmtView::Match { scrutinee, arms, .. } => within_expr(scrutinee, n) && within_block_arms(
            arms,
            n,
        ),
        _ => true,
    }
}

/// Are these types without parameters?
pub open spec fn closed_types(args: Seq<TypeView>) -> bool {
    forall|i: int| 0 <= i < args.len() ==> !(#[trigger] args[i]).generic()
}

// -- No parameter is left ---------------------------------------------------

proof fn lemma_rid_captures(cs: Seq<CaptureView>, args: Seq<TypeView>)
    requires
        closed_types(args),
        within_captures(cs, args.len() as int),
    ensures
        within_captures(subst_captures(cs, args), 0),
{
    let to = subst_captures(cs, args);
    assert forall|i: int| 0 <= i < cs.len() implies within_type((#[trigger] to[i]).ty, 0) by {
        law_subst_eliminates(cs[i].ty, args);
    }
}

proof fn lemma_rid_pattern(p: PatternView, args: Seq<TypeView>)
    requires
        closed_types(args),
        within_pattern(p, args.len() as int),
    ensures
        within_pattern(subst_pattern(p, args), 0),
{
    if let PatternView::Variant { args: pats, .. } = p {
        match pats {
            PatArgsView::Bare => {},
            PatArgsView::Single(b) => law_subst_eliminates(b.ty, args),
            PatArgsView::Fields(fs) => {
                let to = Seq::new(fs.len(), |i: int| (fs[i].0, subst_binder(fs[i].1, args), fs[i].2));
                assert forall|i: int| 0 <= i < fs.len() implies within_type((#[trigger] to[i]).1.ty, 0) by {
                    law_subst_eliminates(fs[i].1.ty, args);
                }
            },
        }
    }
}

proof fn lemma_rid_expr(e: ExprView, args: Seq<TypeView>)
    requires
        closed_types(args),
        within_expr(e, args.len() as int),
    ensures
        within_expr(subst_expr(e, args), 0),
    decreases e, 0nat,
{
    law_subst_eliminates(e.ty, args);
    lemma_rid_kind(e.kind, args);
}

proof fn lemma_rid_exprs(es: Seq<ExprView>, args: Seq<TypeView>)
    requires
        closed_types(args),
        within_exprs(es, args.len() as int),
    ensures
        within_exprs(subst_exprs(es, args), 0),
    decreases es, 1nat,
{
    let to = subst_exprs(es, args);
    assert forall|i: int| 0 <= i < es.len() implies within_expr(#[trigger] to[i], 0) by {
        assert(within_expr(es[i], args.len() as int));
        lemma_rid_expr(es[i], args);
    }
}

proof fn lemma_rid_inits(fs: Seq<(Seq<char>, ExprView, u32)>, args: Seq<TypeView>)
    requires
        closed_types(args),
        within_inits(fs, args.len() as int),
    ensures
        within_inits(subst_inits(fs, args), 0),
    decreases fs, 1nat,
{
    let to = subst_inits(fs, args);
    assert forall|i: int| 0 <= i < fs.len() implies within_expr((#[trigger] to[i]).1, 0) by {
        assert(within_expr(fs[i].1, args.len() as int));
        lemma_rid_expr(fs[i].1, args);
    }
}

proof fn lemma_rid_arms(arms: Seq<(PatternView, ExprView)>, args: Seq<TypeView>)
    requires
        closed_types(args),
        within_arms(arms, args.len() as int),
    ensures
        within_arms(subst_arms(arms, args), 0),
    decreases arms, 1nat,
{
    let to = subst_arms(arms, args);
    assert forall|i: int| 0 <= i < arms.len() implies within_pattern((#[trigger] to[i]).0, 0) && within_expr(to[i].1, 0) by {
        assert(within_pattern(arms[i].0, args.len() as int));
        lemma_rid_pattern(arms[i].0, args);
        lemma_rid_expr(arms[i].1, args);
    }
}

proof fn lemma_rid_kind(k: ExprKindView, args: Seq<TypeView>)
    requires
        closed_types(args),
        within_kind(k, args.len() as int),
    ensures
        within_kind(subst_kind(k, args), 0),
    decreases k, 0nat,
{
    match k {
        ExprKindView::Unary(_, a) => lemma_rid_expr(*a, args),
        ExprKindView::Cast(a, _) => lemma_rid_expr(*a, args),
        ExprKindView::Field { obj, .. } => lemma_rid_expr(*obj, args),
        ExprKindView::Binary(_, a, b) => {
            lemma_rid_expr(*a, args);
            lemma_rid_expr(*b, args);
        },
        ExprKindView::Index(a, b) => {
            lemma_rid_expr(*a, args);
            lemma_rid_expr(*b, args);
        },
        ExprKindView::If { cond, then, els } => {
            lemma_rid_expr(*cond, args);
            lemma_rid_expr(*then, args);
            lemma_rid_expr(*els, args);
        },
        ExprKindView::Call { callee, args: xs, inst, .. } => {
            lemma_rid_expr(*callee, args);
            lemma_rid_exprs(xs, args);
            lemma_subst_eliminates_all(inst, args);
        },
        ExprKindView::Builtin(_, xs) => lemma_rid_exprs(xs, args),
        ExprKindView::ArrayLit(xs) => lemma_rid_exprs(xs, args),
        ExprKindView::StructLit { fields, .. } => lemma_rid_inits(fields, args),
        ExprKindView::VariantStructLit { fields, .. } => lemma_rid_inits(fields, args),
        ExprKindView::VariantLit { args: va, .. } => lemma_rid_payload(va, args),
        ExprKindView::Match { scrutinee, arms } => {
            lemma_rid_expr(*scrutinee, args);
            lemma_rid_arms(arms, args);
        },
        ExprKindView::Lambda(lam) => lemma_rid_lambda(*lam, args),
        ExprKindView::BoundMethod { obj, inst, .. } => {
            lemma_rid_expr(*obj, args);
            lemma_subst_eliminates_all(inst, args);
        },
        _ => {},
    }
}

proof fn lemma_rid_payload(va: VariantArgsView, args: Seq<TypeView>)
    requires
        closed_types(args),
        within_payload(va, args.len() as int),
    ensures
        within_payload(subst_payload(va, args), 0),
    decreases va, 0nat,
{
    match va {
        VariantArgsView::Bare => {},
        VariantArgsView::Single(a) => lemma_rid_expr(*a, args),
        VariantArgsView::Fields(fs) => lemma_rid_inits(fs, args),
    }
}

proof fn lemma_rid_lambda(lam: LambdaDefView, args: Seq<TypeView>)
    requires
        closed_types(args),
        within_lambda(lam, args.len() as int),
    ensures
        within_lambda(subst_lambda(lam, args), 0),
    decreases lam, 0nat,
{
    lemma_rid_block(lam.body, args);
    lemma_rid_captures(lam.captures, args);
}

proof fn lemma_rid_block(b: BlockView, args: Seq<TypeView>)
    requires
        closed_types(args),
        within_block(b, args.len() as int),
    ensures
        within_block(subst_block(b, args), 0),
    decreases b, 0nat,
{
    lemma_rid_stmts(b.stmts, args);
}

proof fn lemma_rid_stmts(ss: Seq<StmtView>, args: Seq<TypeView>)
    requires
        closed_types(args),
        within_stmts(ss, args.len() as int),
    ensures
        within_stmts(subst_stmts(ss, args), 0),
    decreases ss, 1nat,
{
    let to = subst_stmts(ss, args);
    assert forall|i: int| 0 <= i < ss.len() implies within_stmt(#[trigger] to[i], 0) by {
        assert(within_stmt(ss[i], args.len() as int));
        lemma_rid_stmt(ss[i], args);
    }
}

proof fn lemma_rid_block_arms(arms: Seq<(PatternView, BlockView)>, args: Seq<TypeView>)
    requires
        closed_types(args),
        within_block_arms(arms, args.len() as int),
    ensures
        within_block_arms(subst_block_arms(arms, args), 0),
    decreases arms, 1nat,
{
    let to = subst_block_arms(arms, args);
    assert forall|i: int| 0 <= i < arms.len() implies within_pattern((#[trigger] to[i]).0, 0) && within_block(to[i].1, 0) by {
        assert(within_pattern(arms[i].0, args.len() as int));
        lemma_rid_pattern(arms[i].0, args);
        lemma_rid_block(arms[i].1, args);
    }
}

proof fn lemma_rid_stmt(s: StmtView, args: Seq<TypeView>)
    requires
        closed_types(args),
        within_stmt(s, args.len() as int),
    ensures
        within_stmt(subst_stmt(s, args), 0),
    decreases s, 0nat,
{
    match s {
        StmtView::Let { init, ty, .. } => {
            lemma_rid_expr(init, args);
            law_subst_eliminates(ty, args);
        },
        StmtView::Assign { target, value, .. } => {
            lemma_rid_expr(target, args);
            lemma_rid_expr(value, args);
        },
        StmtView::Expr(e) => lemma_rid_expr(e, args),
        StmtView::If { cond, then, els } => {
            lemma_rid_expr(cond, args);
            lemma_rid_block(then, args);
            if let Some(b) = els {
                lemma_rid_block(b, args);
            }
        },
        StmtView::While { cond, body } => {
            lemma_rid_expr(cond, args);
            lemma_rid_block(body, args);
        },
        StmtView::For { init, cond, step, body } => {
            if let Some(i) = init {
                lemma_rid_stmt(*i, args);
            }
            if let Some(c) = cond {
                lemma_rid_expr(c, args);
            }
            if let Some(t) = step {
                lemma_rid_stmt(*t, args);
            }
            lemma_rid_block(body, args);
        },
        StmtView::Return { value, .. } => {
            if let Some(v) = value {
                lemma_rid_expr(v, args);
            }
        },
        StmtView::Block(b) => lemma_rid_block(b, args),
        StmtView::Match { scrutinee, arms, .. } => {
            lemma_rid_expr(scrutinee, args);
            lemma_rid_block_arms(arms, args);
        },
        _ => {},
    }
}

// -- Nothing to substitute --------------------------------------------------

proof fn lemma_same_captures(cs: Seq<CaptureView>, args: Seq<TypeView>)
    requires
        within_captures(cs, 0),
    ensures
        subst_captures(cs, args) == cs,
{
    let to = subst_captures(cs, args);
    assert forall|i: int| 0 <= i < cs.len() implies #[trigger] to[i] == cs[i] by {
        law_subst_closed(cs[i].ty, args);
    }
    assert(to =~= cs);
}

proof fn lemma_same_pattern(p: PatternView, args: Seq<TypeView>)
    requires
        within_pattern(p, 0),
    ensures
        subst_pattern(p, args) == p,
{
    if let PatternView::Variant { args: pats, .. } = p {
        match pats {
            PatArgsView::Bare => {},
            PatArgsView::Single(b) => law_subst_closed(b.ty, args),
            PatArgsView::Fields(fs) => {
                let to = Seq::new(fs.len(), |i: int| (fs[i].0, subst_binder(fs[i].1, args), fs[i].2));
                assert forall|i: int| 0 <= i < fs.len() implies #[trigger] to[i] == fs[i] by {
                    law_subst_closed(fs[i].1.ty, args);
                }
                assert(to =~= fs);
            },
        }
    }
}

proof fn lemma_same_expr(e: ExprView, args: Seq<TypeView>)
    requires
        within_expr(e, 0),
    ensures
        subst_expr(e, args) == e,
    decreases e, 0nat,
{
    law_subst_closed(e.ty, args);
    lemma_same_kind(e.kind, args);
}

proof fn lemma_same_exprs(es: Seq<ExprView>, args: Seq<TypeView>)
    requires
        within_exprs(es, 0),
    ensures
        subst_exprs(es, args) == es,
    decreases es, 1nat,
{
    let to = subst_exprs(es, args);
    assert forall|i: int| 0 <= i < es.len() implies #[trigger] to[i] == es[i] by {
        assert(within_expr(es[i], 0));
        lemma_same_expr(es[i], args);
    }
    assert(to =~= es);
}

proof fn lemma_same_inits(fs: Seq<(Seq<char>, ExprView, u32)>, args: Seq<TypeView>)
    requires
        within_inits(fs, 0),
    ensures
        subst_inits(fs, args) == fs,
    decreases fs, 1nat,
{
    let to = subst_inits(fs, args);
    assert forall|i: int| 0 <= i < fs.len() implies #[trigger] to[i] == fs[i] by {
        assert(within_expr(fs[i].1, 0));
        lemma_same_expr(fs[i].1, args);
    }
    assert(to =~= fs);
}

proof fn lemma_same_arms(arms: Seq<(PatternView, ExprView)>, args: Seq<TypeView>)
    requires
        within_arms(arms, 0),
    ensures
        subst_arms(arms, args) == arms,
    decreases arms, 1nat,
{
    let to = subst_arms(arms, args);
    assert forall|i: int| 0 <= i < arms.len() implies #[trigger] to[i] == arms[i] by {
        assert(within_pattern(arms[i].0, 0));
        lemma_same_pattern(arms[i].0, args);
        lemma_same_expr(arms[i].1, args);
    }
    assert(to =~= arms);
}

proof fn lemma_same_kind(k: ExprKindView, args: Seq<TypeView>)
    requires
        within_kind(k, 0),
    ensures
        subst_kind(k, args) == k,
    decreases k, 0nat,
{
    match k {
        ExprKindView::Unary(_, a) => lemma_same_expr(*a, args),
        ExprKindView::Cast(a, _) => lemma_same_expr(*a, args),
        ExprKindView::Field { obj, .. } => lemma_same_expr(*obj, args),
        ExprKindView::Binary(_, a, b) => {
            lemma_same_expr(*a, args);
            lemma_same_expr(*b, args);
        },
        ExprKindView::Index(a, b) => {
            lemma_same_expr(*a, args);
            lemma_same_expr(*b, args);
        },
        ExprKindView::If { cond, then, els } => {
            lemma_same_expr(*cond, args);
            lemma_same_expr(*then, args);
            lemma_same_expr(*els, args);
        },
        ExprKindView::Call { callee, args: xs, inst, .. } => {
            lemma_same_expr(*callee, args);
            lemma_same_exprs(xs, args);
            lemma_subst_closed_all(inst, args);
        },
        ExprKindView::Builtin(_, xs) => lemma_same_exprs(xs, args),
        ExprKindView::ArrayLit(xs) => lemma_same_exprs(xs, args),
        ExprKindView::StructLit { fields, .. } => lemma_same_inits(fields, args),
        ExprKindView::VariantStructLit { fields, .. } => lemma_same_inits(fields, args),
        ExprKindView::VariantLit { args: va, .. } => lemma_same_payload(va, args),
        ExprKindView::Match { scrutinee, arms } => {
            lemma_same_expr(*scrutinee, args);
            lemma_same_arms(arms, args);
        },
        ExprKindView::Lambda(lam) => lemma_same_lambda(*lam, args),
        ExprKindView::BoundMethod { obj, inst, .. } => {
            lemma_same_expr(*obj, args);
            lemma_subst_closed_all(inst, args);
        },
        _ => {},
    }
}

proof fn lemma_same_payload(va: VariantArgsView, args: Seq<TypeView>)
    requires
        within_payload(va, 0),
    ensures
        subst_payload(va, args) == va,
    decreases va, 0nat,
{
    match va {
        VariantArgsView::Bare => {},
        VariantArgsView::Single(a) => lemma_same_expr(*a, args),
        VariantArgsView::Fields(fs) => lemma_same_inits(fs, args),
    }
}

proof fn lemma_same_lambda(lam: LambdaDefView, args: Seq<TypeView>)
    requires
        within_lambda(lam, 0),
    ensures
        subst_lambda(lam, args) == lam,
    decreases lam, 0nat,
{
    lemma_same_block(lam.body, args);
    lemma_same_captures(lam.captures, args);
}

proof fn lemma_same_block(b: BlockView, args: Seq<TypeView>)
    requires
        within_block(b, 0),
    ensures
        subst_block(b, args) == b,
    decreases b, 0nat,
{
    lemma_same_stmts(b.stmts, args);
}

proof fn lemma_same_stmts(ss: Seq<StmtView>, args: Seq<TypeView>)
    requires
        within_stmts(ss, 0),
    ensures
        subst_stmts(ss, args) == ss,
    decreases ss, 1nat,
{
    let to = subst_stmts(ss, args);
    assert forall|i: int| 0 <= i < ss.len() implies #[trigger] to[i] == ss[i] by {
        assert(within_stmt(ss[i], 0));
        lemma_same_stmt(ss[i], args);
    }
    assert(to =~= ss);
}

proof fn lemma_same_block_arms(arms: Seq<(PatternView, BlockView)>, args: Seq<TypeView>)
    requires
        within_block_arms(arms, 0),
    ensures
        subst_block_arms(arms, args) == arms,
    decreases arms, 1nat,
{
    let to = subst_block_arms(arms, args);
    assert forall|i: int| 0 <= i < arms.len() implies #[trigger] to[i] == arms[i] by {
        assert(within_pattern(arms[i].0, 0));
        lemma_same_pattern(arms[i].0, args);
        lemma_same_block(arms[i].1, args);
    }
    assert(to =~= arms);
}

proof fn lemma_same_stmt(s: StmtView, args: Seq<TypeView>)
    requires
        within_stmt(s, 0),
    ensures
        subst_stmt(s, args) == s,
    decreases s, 0nat,
{
    match s {
        StmtView::Let { init, ty, .. } => {
            lemma_same_expr(init, args);
            law_subst_closed(ty, args);
        },
        StmtView::Assign { target, value, .. } => {
            lemma_same_expr(target, args);
            lemma_same_expr(value, args);
        },
        StmtView::Expr(e) => lemma_same_expr(e, args),
        StmtView::If { cond, then, els } => {
            lemma_same_expr(cond, args);
            lemma_same_block(then, args);
            if let Some(b) = els {
                lemma_same_block(b, args);
            }
        },
        StmtView::While { cond, body } => {
            lemma_same_expr(cond, args);
            lemma_same_block(body, args);
        },
        StmtView::For { init, cond, step, body } => {
            if let Some(i) = init {
                lemma_same_stmt(*i, args);
            }
            if let Some(c) = cond {
                lemma_same_expr(c, args);
            }
            if let Some(t) = step {
                lemma_same_stmt(*t, args);
            }
            lemma_same_block(body, args);
        },
        StmtView::Return { value, .. } => {
            if let Some(v) = value {
                lemma_same_expr(v, args);
            }
        },
        StmtView::Block(b) => lemma_same_block(b, args),
        StmtView::Match { scrutinee, arms, .. } => {
            lemma_same_expr(scrutinee, args);
            lemma_same_block_arms(arms, args);
        },
        _ => {},
    }
}

// -- Instantiation ----------------------------------------------------------

/// Do the tables of these lambdas mention the first `n` parameters only?
pub open spec fn within_tables(lams: Seq<LambdaDefView>, checked: CheckedView, n: int) -> bool {
    forall|k: int| 0 <= k < lams.len() ==> within_table(checked, (#[trigger] lams[k]).id, n)
}

pub open spec fn within_table(checked: CheckedView, id: u32, n: int) -> bool {
    id < checked.lambda_sigs.len() && id < checked.lambda_locals.len() ==> {
        &&& within_types(checked.lambda_locals[id as int], n)
        &&& within_types(checked.lambda_sigs[id as int].0, n)
        &&& within_type(checked.lambda_sigs[id as int].1, n)
    }
}

/// Has the table of every lambda concrete types only?
pub open spec fn concrete_tables(ls: Seq<(u32, LambdaInstView)>) -> bool {
    forall|k: int|
        0 <= k < ls.len() ==> within_types((#[trigger] ls[k]).1.locals, 0) && within_types(
            ls[k].1.params,
            0,
        ) && within_type(ls[k].1.ret, 0)
}

proof fn lemma_tables_concrete(
    lams: Seq<LambdaDefView>,
    checked: CheckedView,
    args: Seq<TypeView>,
    i: nat,
)
    requires
        closed_types(args),
        within_tables(lams, checked, args.len() as int),
    ensures
        concrete_tables(lambda_table(lams, checked, args, i)),
    decreases lams.len() - i,
{
    if i < lams.len() {
        let id = lams[i as int].id;
        lemma_tables_concrete(lams, checked, args, i + 1);
        if id < checked.lambda_sigs.len() && id < checked.lambda_locals.len() {
            assert(within_table(checked, lams[i as int].id, args.len() as int));
            let (params, ret) = checked.lambda_sigs[id as int];
            lemma_subst_eliminates_all(checked.lambda_locals[id as int], args);
            lemma_subst_eliminates_all(params, args);
            law_subst_eliminates(ret, args);
            let rest = lambda_table(lams, checked, args, i + 1);
            let all = lambda_table(lams, checked, args, i);
            assert forall|k: int| 0 <= k < all.len() implies within_types(
                (#[trigger] all[k]).1.locals,
                0,
            ) && within_types(all[k].1.params, 0) && within_type(all[k].1.ret, 0) by {
                if k > 0 {
                    assert(all[k] == rest[k - 1]);
                }
            }
        }
    }
}

/// An instantiation has concrete types only: in its body, its locals, its
/// parameters, its result and the tables of its lambdas no type parameter is
/// left.
pub proof fn law_instance_is_concrete(
    fid: u32,
    def: FuncDefView,
    checked: CheckedView,
    shapes: Seq<Shape>,
)
    requires
        within_block(def.body, shapes.len() as int),
        within_types(checked.func_locals[fid as int], shapes.len() as int),
        within_types(checked.funcs[fid as int].params, shapes.len() as int),
        within_type(checked.funcs[fid as int].ret, shapes.len() as int),
        within_tables(
            lambdas_in_block(subst_block(def.body, representatives(shapes))),
            checked,
            shapes.len() as int,
        ),
    ensures
        ({
            let inst = instance_of(fid, def, checked, shapes);
            &&& within_block(inst.def.body, 0)
            &&& within_types(inst.locals, 0)
            &&& within_types(inst.params, 0)
            &&& within_type(inst.ret, 0)
            &&& concrete_tables(inst.lambdas)
        }),
{
    let args = representatives(shapes);
    assert(closed_types(args)) by {
        assert forall|i: int| 0 <= i < args.len() implies !(#[trigger] args[i]).generic() by {
            assert(args[i] == shapes[i].representative());
        }
    }
    lemma_rid_block(def.body, args);
    lemma_tables_concrete(lambdas_in_block(subst_block(def.body, args)), checked, args, 0);
    lemma_subst_eliminates_all(checked.func_locals[fid as int], args);
    lemma_subst_eliminates_all(checked.funcs[fid as int].params, args);
    law_subst_eliminates(checked.funcs[fid as int].ret, args);
}

/// A function without type parameters is lowered just as the checker left it.
pub proof fn law_instance_of_concrete_is_itself(
    fid: u32,
    def: FuncDefView,
    checked: CheckedView,
    shapes: Seq<Shape>,
)
    requires
        within_block(def.body, 0),
        within_types(checked.func_locals[fid as int], 0),
        within_types(checked.funcs[fid as int].params, 0),
        within_type(checked.funcs[fid as int].ret, 0),
    ensures
        ({
            let inst = instance_of(fid, def, checked, shapes);
            &&& inst.def == def
            &&& inst.locals == checked.func_locals[fid as int]
            &&& inst.params == checked.funcs[fid as int].params
            &&& inst.ret == checked.funcs[fid as int].ret
        }),
{
    let args = representatives(shapes);
    lemma_same_block(def.body, args);
    lemma_subst_closed_all(checked.func_locals[fid as int], args);
    lemma_subst_closed_all(checked.funcs[fid as int].params, args);
    law_subst_closed(checked.funcs[fid as int].ret, args);
}

// -- Signatures -------------------------------------------------------------

/// A type that is written in a scope mentions the scope's parameters only.
pub proof fn law_resolved_type_is_within(env: EnvView, te: TypeExprView)
    ensures
        resolve_type(env, te) matches Ok(t) ==> within_type(t, env.type_params.len() as int),
    decreases te, 1nat,
{
    let n = env.type_params.len() as int;
    match te {
        TypeExprView::Named(name, args, _) => {
            lemma_position_from(env.type_params, name, 0);
            lemma_resolved_types(env, args, 0, Seq::empty());
            if let Some(t) = primitive(name) {
                assert(within_type(t, n)) by {
                    reveal(primitive);
                }
            }
        },
        TypeExprView::Array(elem) => {
            law_resolved_type_is_within(env, *elem);
            if let Ok(t) = resolve_type(env, *elem) {
                assert(within_type(TypeView::Array(Box::new(t)), n));
            }
        },
        TypeExprView::Fn(params, ret, _) => {
            lemma_resolved_types(env, params, 0, Seq::empty());
            if let Ok(ps) = resolve_types(env, params, 0, Seq::empty()) {
                match ret {
                    None => {
                        assert(within_type(TypeView::Unit, n));
                        assert(within_type(TypeView::Fn(ps, Box::new(TypeView::Unit)), n));
                    },
                    Some(r) => {
                        law_resolved_type_is_within(env, *r);
                        if let Ok(t) = resolve_type(env, *r) {
                            assert(within_type(TypeView::Fn(ps, Box::new(t)), n));
                        }
                    },
                }
            }
        },
    }
}

proof fn lemma_within_push(ts: Seq<TypeView>, t: TypeView, n: int)
    requires
        within_types(ts, n),
        within_type(t, n),
    ensures
        within_types(ts.push(t), n),
{
    let more = ts.push(t);
    assert forall|k: int| 0 <= k < more.len() implies !(#[trigger] more[k]).mentions(
        n,
        0x1_0000_0000,
    ) by {
        if k < ts.len() {
            assert(more[k] == ts[k]);
        }
    }
}

proof fn lemma_resolved_types(
    env: EnvView,
    tes: Seq<TypeExprView>,
    i: nat,
    acc: Seq<TypeView>,
)
    requires
        within_types(acc, env.type_params.len() as int),
    ensures
        resolve_types(env, tes, i, acc) matches Ok(ts) ==> within_types(
            ts,
            env.type_params.len() as int,
        ),
    decreases tes, tes.len() - i,
{
    if i < tes.len() {
        law_resolved_type_is_within(env, tes[i as int]);
        if let Ok(t) = resolve_type(env, tes[i as int]) {
            lemma_within_push(acc, t, env.type_params.len() as int);
            lemma_resolved_types(env, tes, i + 1, acc.push(t));
        }
    }
}

proof fn lemma_resolved_params(
    env: EnvView,
    ps: Seq<(Seq<char>, TypeExprView)>,
    i: nat,
    acc: Seq<TypeView>,
)
    requires
        within_types(acc, env.type_params.len() as int),
    ensures
        resolve_params(env, ps, i, acc) matches Ok(ts) ==> within_types(
            ts,
            env.type_params.len() as int,
        ),
    decreases ps.len() - i,
{
    if i < ps.len() {
        law_resolved_type_is_within(env, ps[i as int].1);
        if let Ok(t) = resolve_type(env, ps[i as int].1) {
            lemma_within_push(acc, t, env.type_params.len() as int);
            lemma_resolved_params(env, ps, i + 1, acc.push(t));
        }
    }
}

/// Does the signature mention its own type parameters only?
pub open spec fn within_sig(sig: FuncSigView) -> bool {
    &&& within_types(sig.params, sig.type_params.len() as int)
    &&& within_type(sig.ret, sig.type_params.len() as int)
}

proof fn lemma_sig(env: EnvView, f: FuncDefView)
    ensures
        func_sig(env, f) matches Ok(sig) ==> within_sig(sig),
{
    reveal(func_sig);
    let scope = EnvView { type_params: f.type_params, ..env };
    lemma_resolved_params(scope, f.params, 0, Seq::empty());
    if let Some(t) = f.ret {
        law_resolved_type_is_within(scope, t);
    }
}

proof fn lemma_sigs(env: EnvView, defs: Seq<FuncDefView>, i: nat)
    requires
        forall|k: int| 0 <= k < env.funcs.len() ==> within_sig(#[trigger] env.funcs[k]),
    ensures
        collect_funcs(env, defs, i) matches Ok(e) ==> forall|k: int|
            0 <= k < e.funcs.len() ==> within_sig(#[trigger] e.funcs[k]),
    decreases defs.len() - i,
{
    if i < defs.len() {
        lemma_sig(env, defs[i as int]);
        if let Ok(sig) = func_sig(env, defs[i as int]) {
            let more = EnvView { funcs: env.funcs.push(sig), ..env };
            assert forall|k: int| 0 <= k < more.funcs.len() implies within_sig(
                #[trigger] more.funcs[k],
            ) by {
                if k < env.funcs.len() {
                    assert(more.funcs[k] == env.funcs[k]);
                }
            }
            lemma_sigs(more, defs, i + 1);
        }
    }
}

pub proof fn lemma_structs_keep(env: EnvView, defs: Seq<StructDefView>, i: nat)
    ensures
        collect_structs(env, defs, i) matches Ok(e) ==> e.funcs == env.funcs,
    decreases defs.len() - i,
{
    if i < defs.len() {
        let s = defs[i as int];
        let info = StructInfoView {
            name: s.name,
            type_params: s.type_params,
            fields: Seq::empty(),
            line: s.line,
        };
        lemma_structs_keep(EnvView { structs: env.structs.push(info), ..env }, defs, i + 1);
    }
}

pub proof fn lemma_enums_keep(env: EnvView, defs: Seq<EnumDefView>, i: nat)
    ensures
        collect_enums(env, defs, i) matches Ok(e) ==> e.funcs == env.funcs,
    decreases defs.len() - i,
{
    if i < defs.len() {
        let e = defs[i as int];
        let info = EnumInfoView {
            name: e.name,
            type_params: e.type_params,
            variants: Seq::empty(),
            line: e.line,
        };
        lemma_enums_keep(EnvView { enums: env.enums.push(info), ..env }, defs, i + 1);
    }
}

pub proof fn lemma_fields_keep(env: EnvView, defs: Seq<StructDefView>, i: nat)
    ensures
        resolve_structs(env, defs, i) matches Ok(e) ==> e.funcs == env.funcs,
    decreases defs.len() - i,
{
    if i < defs.len() {
        let s = defs[i as int];
        let r = resolve_fields(
            EnvView { type_params: s.type_params, ..env },
            s.fields,
            s.line,
            "' in struct '"@ + s.name + "'"@,
            0,
            Seq::empty(),
        );
        if let Ok(fields) = r {
            let info = StructInfoView { fields, ..env.structs[i as int] };
            let more = EnvView { structs: env.structs.update(i as int, info), ..env };
            lemma_fields_keep(more, defs, i + 1);
        }
    }
}

pub proof fn lemma_variants_keep(env: EnvView, defs: Seq<EnumDefView>, i: nat)
    ensures
        resolve_enums(env, defs, i) matches Ok(e) ==> e.funcs == env.funcs,
    decreases defs.len() - i,
{
    if i < defs.len() {
        let e = defs[i as int];
        let r = resolve_variants(
            EnvView { type_params: e.type_params, ..env },
            e.variants,
            e.name,
            e.line,
            0,
            Seq::empty(),
        );
        if let Ok(variants) = r {
            let info = EnumInfoView { variants, ..env.enums[i as int] };
            let more = EnvView { enums: env.enums.update(i as int, info), ..env };
            lemma_variants_keep(more, defs, i + 1);
        }
    }
}

pub proof fn lemma_methods_keep(env: EnvView, defs: Seq<MethodDefView>, i: nat)
    ensures
        collect_methods(env, defs, i) matches Ok(e) ==> e.funcs == env.funcs,
    decreases defs.len() - i,
{
    if i < defs.len() {
        let m = defs[i as int];
        if let Ok(key) = method_key(env, m) {
            let method = MethodView { key, name: m.name, fid: m.func, has_self: m.has_self };
            let more = EnvView { methods: env.methods.push(method), ..env };
            lemma_methods_keep(more, defs, i + 1);
        }
    }
}

/// In a program that the checker accepts every signature mentions the type
/// parameters of its own function only.
pub proof fn law_signatures_are_within(source: ProgramView)
    requires
        check_spec(source) is Ok,
    ensures
        ({
            let checked = check_spec(source)->Ok_0.1;
            forall|f: int|
                0 <= f < checked.funcs.len() ==> within_sig(#[trigger] checked.funcs[f])
        }),
{
    reveal(collect);
    let e1 = collect_structs(empty_env(), source.structs, 0)->Ok_0;
    let e2 = collect_enums(e1, source.enums, 0)->Ok_0;
    let e3 = resolve_structs(add_prelude(e2), source.structs, 0)->Ok_0;
    let e4 = resolve_enums(e3, source.enums, 0)->Ok_0;
    let e5 = collect_methods(e4, source.methods, 0)->Ok_0;
    lemma_structs_keep(empty_env(), source.structs, 0);
    lemma_enums_keep(e1, source.enums, 0);
    assert(add_prelude(e2).funcs == e2.funcs) by {
        reveal(add_prelude);
    }
    lemma_fields_keep(add_prelude(e2), source.structs, 0);
    lemma_variants_keep(e3, source.enums, 0);
    lemma_methods_keep(e4, source.methods, 0);
    lemma_sigs(e5, source.funcs, 0);
}

/// An instantiation of a function that the checker accepts takes and gives
/// concrete types only.
pub proof fn law_instance_signature_is_concrete(source: ProgramView, fid: u32, shapes: Seq<Shape>)
    requires
        check_spec(source) is Ok,
        fid < check_spec(source)->Ok_0.1.funcs.len(),
        shapes.len() == check_spec(source)->Ok_0.1.funcs[fid as int].type_params.len(),
    ensures
        ({
            let (program, checked) = check_spec(source)->Ok_0;
            let inst = instance_of(fid, program.funcs[fid as int], checked, shapes);
            &&& within_types(inst.params, 0)
            &&& within_type(inst.ret, 0)
        }),
{
    let checked = check_spec(source)->Ok_0.1;
    law_signatures_are_within(source);
    assert(within_sig(checked.funcs[fid as int]));
    let args = representatives(shapes);
    assert(closed_types(args)) by {
        assert forall|i: int| 0 <= i < args.len() implies !(#[trigger] args[i]).generic() by {
            assert(args[i] == shapes[i].representative());
        }
    }
    lemma_subst_eliminates_all(checked.funcs[fid as int].params, args);
    law_subst_eliminates(checked.funcs[fid as int].ret, args);
}

} // verus!
