//! Walks over checked syntax trees.
use vstd::prelude::*;

use crate::ast::{
    expr_arms_view, exprs_view, inits_view, stmt_arms_view, stmts_view, Block, BlockView, Expr,
    ExprKind, ExprKindView, ExprView, LambdaDef, LambdaDefView, Pattern, PatternView, Stmt,
    StmtView, VariantArgs, VariantArgsView,
};

verus! {

// -- Lambdas ----------------------------------------------------------------

/// The lambdas of an expression in order of appearance, an outer one before
/// those in its body.
pub open spec fn lambdas_in(e: ExprView) -> Seq<LambdaDefView>
    decreases e, 0nat,
{
    match e.kind {
        ExprKindView::Unary(_, a) => lambdas_in(*a),
        ExprKindView::Cast(a, _) => lambdas_in(*a),
        ExprKindView::Field { obj, .. } => lambdas_in(*obj),
        ExprKindView::BoundMethod { obj, .. } => lambdas_in(*obj),
        ExprKindView::Binary(_, a, b) => lambdas_in(*a) + lambdas_in(*b),
        ExprKindView::Index(a, b) => lambdas_in(*a) + lambdas_in(*b),
        ExprKindView::If { cond, then, els } => lambdas_in(*cond) + lambdas_in(*then)
            + lambdas_in(*els),
        ExprKindView::Call { callee, args, .. } => lambdas_in(*callee) + lambdas_in_list(args, 0),
        ExprKindView::Builtin(_, args) => lambdas_in_list(args, 0),
        ExprKindView::ArrayLit(args) => lambdas_in_list(args, 0),
        ExprKindView::StructLit { fields, .. } => lambdas_in_inits(fields, 0),
        ExprKindView::VariantStructLit { fields, .. } => lambdas_in_inits(fields, 0),
        ExprKindView::VariantLit { args, .. } => match args {
            VariantArgsView::Bare => Seq::empty(),
            VariantArgsView::Single(a) => lambdas_in(*a),
            VariantArgsView::Fields(fields) => lambdas_in_inits(fields, 0),
        },
        ExprKindView::Match { scrutinee, arms } => lambdas_in(*scrutinee) + lambdas_in_arms(
            arms,
            0,
        ),
        ExprKindView::Lambda(lam) => seq![*lam] + lambdas_in_block(lam.body),
        _ => Seq::empty(),
    }
}

pub open spec fn lambdas_in_list(es: Seq<ExprView>, i: nat) -> Seq<LambdaDefView>
    decreases es, es.len() - i,
{
    if i >= es.len() {
        Seq::empty()
    } else {
        lambdas_in(es[i as int]) + lambdas_in_list(es, i + 1)
    }
}

pub open spec fn lambdas_in_inits(fs: Seq<(Seq<char>, ExprView, u32)>, i: nat) -> Seq<LambdaDefView>
    decreases fs, fs.len() - i,
{
    if i >= fs.len() {
        Seq::empty()
    } else {
        lambdas_in(fs[i as int].1) + lambdas_in_inits(fs, i + 1)
    }
}

pub open spec fn lambdas_in_arms(arms: Seq<(PatternView, ExprView)>, i: nat) -> Seq<LambdaDefView>
    decreases arms, arms.len() - i,
{
    if i >= arms.len() {
        Seq::empty()
    } else {
        lambdas_in(arms[i as int].1) + lambdas_in_arms(arms, i + 1)
    }
}

pub open spec fn lambdas_in_block(b: BlockView) -> Seq<LambdaDefView>
    decreases b, 0nat,
{
    lambdas_in_stmts(b.stmts, 0)
}

pub open spec fn lambdas_in_stmts(ss: Seq<StmtView>, i: nat) -> Seq<LambdaDefView>
    decreases ss, ss.len() - i,
{
    if i >= ss.len() {
        Seq::empty()
    } else {
        lambdas_in_stmt(ss[i as int]) + lambdas_in_stmts(ss, i + 1)
    }
}

pub open spec fn lambdas_in_block_arms(arms: Seq<(PatternView, BlockView)>, i: nat) -> Seq<
    LambdaDefView,
>
    decreases arms, arms.len() - i,
{
    if i >= arms.len() {
        Seq::empty()
    } else {
        lambdas_in_block(arms[i as int].1) + lambdas_in_block_arms(arms, i + 1)
    }
}

pub open spec fn lambdas_in_stmt(s: StmtView) -> Seq<LambdaDefView>
    decreases s, 0nat,
{
    match s {
        StmtView::Let { init, .. } => lambdas_in(init),
        StmtView::Assign { target, value, .. } => lambdas_in(target) + lambdas_in(value),
        StmtView::Expr(e) => lambdas_in(e),
        StmtView::If { cond, then, els } => lambdas_in(cond) + lambdas_in_block(then) + (
        match els {
            Some(b) => lambdas_in_block(b),
            None => Seq::empty(),
        }),
        StmtView::While { cond, body } => lambdas_in(cond) + lambdas_in_block(body),
        StmtView::For { init, cond, step, body } => (match init {
            Some(s) => lambdas_in_stmt(*s),
            None => Seq::empty(),
        }) + (match cond {
            Some(c) => lambdas_in(c),
            None => Seq::empty(),
        }) + (match step {
            Some(s) => lambdas_in_stmt(*s),
            None => Seq::empty(),
        }) + lambdas_in_block(body),
        StmtView::Return { value, .. } => match value {
            Some(v) => lambdas_in(v),
            None => Seq::empty(),
        },
        StmtView::Block(b) => lambdas_in_block(b),
        StmtView::Match { scrutinee, arms, .. } => lambdas_in(scrutinee) + lambdas_in_block_arms(
            arms,
            0,
        ),
        StmtView::Break(_) => Seq::empty(),
        StmtView::Continue(_) => Seq::empty(),
    }
}

pub open spec fn lambda_refs_view(ls: Seq<&LambdaDef>) -> Seq<LambdaDefView> {
    Seq::new(ls.len(), |i: int| ls[i]@)
}

/// Collect every lambda in a block, recursively (including lambdas nested
/// inside other lambdas). A missed place here would mean lambdas that never
/// get compiled.
pub fn collect_lambdas(block: &Block) -> (r: Vec<&LambdaDef>)
    ensures
        lambda_refs_view(r@) == lambdas_in_block(block@),
{
    let mut out: Vec<&LambdaDef> = Vec::new();
    assert(lambda_refs_view(out@) =~= Seq::empty());
    collect_block(block, &mut out);
    assert(lambda_refs_view(out@) =~= lambdas_in_block(block@));
    out
}

/// The list `new` is `old` with `more` behind it.
spec fn extended(new: Seq<&LambdaDef>, old: Seq<&LambdaDef>, more: Seq<LambdaDefView>) -> bool {
    lambda_refs_view(new) == lambda_refs_view(old) + more
}

fn collect_block<'a>(block: &'a Block, out: &mut Vec<&'a LambdaDef>)
    ensures
        extended(final(out)@, old(out)@, lambdas_in_block(block@)),
    decreases block, 0nat,
{
    let ghost all = stmts_view(block.stmts@);
    assert(block@.stmts == all);
    let mut i: usize = 0;
    assert(lambda_refs_view(out@) + lambdas_in_stmts(all, 0) =~= lambda_refs_view(old(out)@)
        + lambdas_in_stmts(all, 0));
    while i < block.stmts.len()
        invariant
            i <= block.stmts.len(),
            all == stmts_view(block.stmts@),
            block@.stmts == all,
            lambda_refs_view(out@) + lambdas_in_stmts(all, i as nat) == lambda_refs_view(old(out)@)
                + lambdas_in_stmts(all, 0),
        decreases block.stmts.len() - i,
    {
        let ghost before = lambda_refs_view(out@);
        assert(all[i as int] == block.stmts@[i as int]@);
        collect_stmt(&block.stmts[i], out);
        assert(lambda_refs_view(out@) + lambdas_in_stmts(all, i as nat + 1) =~= before
            + lambdas_in_stmts(all, i as nat));
        i += 1;
    }
    assert(lambda_refs_view(out@) =~= lambda_refs_view(out@) + lambdas_in_stmts(all, i as nat));
}

fn collect_stmt<'a>(s: &'a Stmt, out: &mut Vec<&'a LambdaDef>)
    ensures
        extended(final(out)@, old(out)@, lambdas_in_stmt(s@)),
    decreases s, 0nat,
{
    let ghost start = lambda_refs_view(out@);
    match s {
        Stmt::Let { init, .. } => collect_expr(init, out),
        Stmt::Assign { target, value, .. } => {
            collect_expr(target, out);
            collect_expr(value, out);
        },
        Stmt::Expr(e) => collect_expr(e, out),
        Stmt::If { cond, then, els } => {
            collect_expr(cond, out);
            collect_block(then, out);
            match els {
                Some(b) => collect_block(b, out),
                None => {},
            }
        },
        Stmt::While { cond, body } => {
            collect_expr(cond, out);
            collect_block(body, out);
        },
        Stmt::For { init, cond, step, body } => {
            match init {
                Some(s) => collect_stmt(s, out),
                None => {},
            }
            match cond {
                Some(c) => collect_expr(c, out),
                None => {},
            }
            match step {
                Some(s) => collect_stmt(s, out),
                None => {},
            }
            collect_block(body, out);
        },
        Stmt::Return { value, .. } => match value {
            Some(v) => collect_expr(v, out),
            None => {},
        },
        Stmt::Block(b) => collect_block(b, out),
        Stmt::Match { scrutinee, arms, .. } => {
            collect_expr(scrutinee, out);
            collect_block_arms(arms, out);
        },
        Stmt::Break(_) | Stmt::Continue(_) => {},
    }
    assert(lambda_refs_view(out@) =~= start + lambdas_in_stmt(s@));
}

fn collect_block_arms<'a>(arms: &'a Vec<(Pattern, Block)>, out: &mut Vec<&'a LambdaDef>)
    ensures
        extended(final(out)@, old(out)@, lambdas_in_block_arms(stmt_arms_view(arms@), 0)),
    decreases arms@, arms@.len() + 1,
{
    let ghost all = stmt_arms_view(arms@);
    let mut i: usize = 0;
    while i < arms.len()
        invariant
            i <= arms.len(),
            all == stmt_arms_view(arms@),
            lambda_refs_view(out@) + lambdas_in_block_arms(all, i as nat) == lambda_refs_view(
                old(out)@,
            ) + lambdas_in_block_arms(all, 0),
        decreases arms.len() - i,
    {
        let ghost before = lambda_refs_view(out@);
        assert(all[i as int] == (arms@[i as int].0@, arms@[i as int].1@));
        collect_block(&arms[i].1, out);
        assert(lambda_refs_view(out@) + lambdas_in_block_arms(all, i as nat + 1) =~= before
            + lambdas_in_block_arms(all, i as nat));
        i += 1;
    }
    assert(lambda_refs_view(out@) =~= lambda_refs_view(out@) + lambdas_in_block_arms(
        all,
        i as nat,
    ));
}

fn collect_list<'a>(es: &'a Vec<Expr>, out: &mut Vec<&'a LambdaDef>)
    ensures
        extended(final(out)@, old(out)@, lambdas_in_list(exprs_view(es@), 0)),
    decreases es@, es@.len() + 1,
{
    let ghost all = exprs_view(es@);
    let mut i: usize = 0;
    while i < es.len()
        invariant
            i <= es.len(),
            all == exprs_view(es@),
            lambda_refs_view(out@) + lambdas_in_list(all, i as nat) == lambda_refs_view(old(out)@)
                + lambdas_in_list(all, 0),
        decreases es.len() - i,
    {
        let ghost before = lambda_refs_view(out@);
        assert(all[i as int] == es@[i as int]@);
        collect_expr(&es[i], out);
        assert(lambda_refs_view(out@) + lambdas_in_list(all, i as nat + 1) =~= before
            + lambdas_in_list(all, i as nat));
        i += 1;
    }
    assert(lambda_refs_view(out@) =~= lambda_refs_view(out@) + lambdas_in_list(all, i as nat));
}

fn collect_inits<'a>(fs: &'a Vec<(String, Expr, u32)>, out: &mut Vec<&'a LambdaDef>)
    ensures
        extended(final(out)@, old(out)@, lambdas_in_inits(inits_view(fs@), 0)),
    decreases fs@, fs@.len() + 1,
{
    let ghost all = inits_view(fs@);
    let mut i: usize = 0;
    while i < fs.len()
        invariant
            i <= fs.len(),
            all == inits_view(fs@),
            lambda_refs_view(out@) + lambdas_in_inits(all, i as nat) == lambda_refs_view(old(out)@)
                + lambdas_in_inits(all, 0),
        decreases fs.len() - i,
    {
        let ghost before = lambda_refs_view(out@);
        assert(all[i as int] == (fs@[i as int].0@, fs@[i as int].1@, fs@[i as int].2));
        collect_expr(&fs[i].1, out);
        assert(lambda_refs_view(out@) + lambdas_in_inits(all, i as nat + 1) =~= before
            + lambdas_in_inits(all, i as nat));
        i += 1;
    }
    assert(lambda_refs_view(out@) =~= lambda_refs_view(out@) + lambdas_in_inits(all, i as nat));
}

fn collect_arms<'a>(arms: &'a Vec<(Pattern, Expr)>, out: &mut Vec<&'a LambdaDef>)
    ensures
        extended(final(out)@, old(out)@, lambdas_in_arms(expr_arms_view(arms@), 0)),
    decreases arms@, arms@.len() + 1,
{
    let ghost all = expr_arms_view(arms@);
    let mut i: usize = 0;
    while i < arms.len()
        invariant
            i <= arms.len(),
            all == expr_arms_view(arms@),
            lambda_refs_view(out@) + lambdas_in_arms(all, i as nat) == lambda_refs_view(old(out)@)
                + lambdas_in_arms(all, 0),
        decreases arms.len() - i,
    {
        let ghost before = lambda_refs_view(out@);
        assert(all[i as int] == (arms@[i as int].0@, arms@[i as int].1@));
        collect_expr(&arms[i].1, out);
        assert(lambda_refs_view(out@) + lambdas_in_arms(all, i as nat + 1) =~= before
            + lambdas_in_arms(all, i as nat));
        i += 1;
    }
    assert(lambda_refs_view(out@) =~= lambda_refs_view(out@) + lambdas_in_arms(all, i as nat));
}

fn collect_expr<'a>(e: &'a Expr, out: &mut Vec<&'a LambdaDef>)
    ensures
        extended(final(out)@, old(out)@, lambdas_in(e@)),
    decreases e, 0nat,
{
    let ghost start = lambda_refs_view(out@);
    assert(e@.kind == e.kind@);
    match &e.kind {
        ExprKind::Unary(_, a) => collect_expr(a, out),
        ExprKind::Cast(a, _) => collect_expr(a, out),
        ExprKind::Field { obj, .. } => collect_expr(obj, out),
        ExprKind::BoundMethod { obj, .. } => collect_expr(obj, out),
        ExprKind::Binary(_, a, b) => {
            collect_expr(a, out);
            collect_expr(b, out);
        },
        ExprKind::Index(a, b) => {
            collect_expr(a, out);
            collect_expr(b, out);
        },
        ExprKind::If { cond, then, els } => {
            collect_expr(cond, out);
            collect_expr(then, out);
            collect_expr(els, out);
        },
        ExprKind::Call { callee, args, .. } => {
            collect_expr(callee, out);
            collect_list(args, out);
        },
        ExprKind::Builtin(_, args) => collect_list(args, out),
        ExprKind::ArrayLit(args) => collect_list(args, out),
        ExprKind::StructLit { fields, .. } => collect_inits(fields, out),
        ExprKind::VariantStructLit { fields, .. } => collect_inits(fields, out),
        ExprKind::VariantLit { args, .. } => match args {
            VariantArgs::Bare => {},
            VariantArgs::Single(a) => collect_expr(a, out),
            VariantArgs::Fields(fields) => collect_inits(fields, out),
        },
        ExprKind::Match { scrutinee, arms } => {
            collect_expr(scrutinee, out);
            collect_arms(arms, out);
        },
        ExprKind::Lambda(lam) => {
            let ghost before = out@;
            out.push(&**lam);
            assert(lambda_refs_view(out@) =~= lambda_refs_view(before) + seq![lam@]);
            collect_block(&lam.body, out);
        },
        ExprKind::Int(_)
        | ExprKind::Byte(_)
        | ExprKind::Float(_)
        | ExprKind::Bool(_)
        | ExprKind::Str(_)
        | ExprKind::Var { .. } => {},
    }
    assert(lambda_refs_view(out@) =~= start + lambdas_in(e@));
}

// -- Calls ------------------------------------------------------------------

/// Does the expression call into compiled code, directly or through a
/// function value? Builtins do not count, nor do the bodies of lambdas, which
/// are functions of their own.
pub open spec fn calls_in(e: ExprView) -> bool
    decreases e, 0nat,
{
    match e.kind {
        ExprKindView::Call { .. } => true,
        ExprKindView::Unary(_, a) => calls_in(*a),
        ExprKindView::Cast(a, _) => calls_in(*a),
        ExprKindView::Field { obj, .. } => calls_in(*obj),
        ExprKindView::BoundMethod { obj, .. } => calls_in(*obj),
        ExprKindView::Binary(_, a, b) => calls_in(*a) || calls_in(*b),
        ExprKindView::Index(a, b) => calls_in(*a) || calls_in(*b),
        ExprKindView::If { cond, then, els } => calls_in(*cond) || calls_in(*then) || calls_in(
            *els,
        ),
        ExprKindView::Builtin(_, args) => calls_in_list(args),
        ExprKindView::ArrayLit(args) => calls_in_list(args),
        ExprKindView::StructLit { fields, .. } => calls_in_inits(fields),
        ExprKindView::VariantStructLit { fields, .. } => calls_in_inits(fields),
        ExprKindView::VariantLit { args, .. } => match args {
            VariantArgsView::Bare => false,
            VariantArgsView::Single(a) => calls_in(*a),
            VariantArgsView::Fields(fields) => calls_in_inits(fields),
        },
        ExprKindView::Match { scrutinee, arms } => calls_in(*scrutinee) || calls_in_arms(arms),
        _ => false,
    }
}

pub open spec fn calls_in_list(es: Seq<ExprView>) -> bool
    decreases es, 1nat,
{
    exists|i: int| 0 <= i < es.len() && calls_in(#[trigger] es[i])
}

pub open spec fn calls_in_inits(fs: Seq<(Seq<char>, ExprView, u32)>) -> bool
    decreases fs, 1nat,
{
    exists|i: int| 0 <= i < fs.len() && calls_in((#[trigger] fs[i]).1)
}

pub open spec fn calls_in_arms(arms: Seq<(PatternView, ExprView)>) -> bool
    decreases arms, 1nat,
{
    exists|i: int| 0 <= i < arms.len() && calls_in((#[trigger] arms[i]).1)
}

pub open spec fn calls_in_block(b: BlockView) -> bool
    decreases b, 0nat,
{
    calls_in_stmts(b.stmts)
}

pub open spec fn calls_in_stmts(ss: Seq<StmtView>) -> bool
    decreases ss, 1nat,
{
    exists|i: int| 0 <= i < ss.len() && calls_in_stmt(#[trigger] ss[i])
}

pub open spec fn calls_in_block_arms(arms: Seq<(PatternView, BlockView)>) -> bool
    decreases arms, 1nat,
{
    exists|i: int| 0 <= i < arms.len() && calls_in_block((#[trigger] arms[i]).1)
}

pub open spec fn calls_in_stmt(s: StmtView) -> bool
    decreases s, 0nat,
{
    match s {
        StmtView::Let { init, .. } => calls_in(init),
        StmtView::Assign { target, value, .. } => calls_in(target) || calls_in(value),
        StmtView::Expr(e) => calls_in(e),
        StmtView::If { cond, then, els } => calls_in(cond) || calls_in_block(then) || (match els {
            Some(b) => calls_in_block(b),
            None => false,
        }),
        StmtView::While { cond, body } => calls_in(cond) || calls_in_block(body),
        StmtView::For { init, cond, step, body } => (match init {
            Some(s) => calls_in_stmt(*s),
            None => false,
        }) || (match cond {
            Some(c) => calls_in(c),
            None => false,
        }) || (match step {
            Some(s) => calls_in_stmt(*s),
            None => false,
        }) || calls_in_block(body),
        StmtView::Return { value, .. } => match value {
            Some(v) => calls_in(v),
            None => false,
        },
        StmtView::Block(b) => calls_in_block(b),
        StmtView::Match { scrutinee, arms, .. } => calls_in(scrutinee) || calls_in_block_arms(
            arms,
        ),
        StmtView::Break(_) => false,
        StmtView::Continue(_) => false,
    }
}

/// Does this block call into compiled code (directly or through a function
/// value)? Builtins don't count: the runtime never re-enters compiled code,
/// so its stack use is bounded. Lambda bodies are compiled as separate
/// functions with their own prologue check and are not descended into.
pub fn makes_crow_calls(block: &Block) -> (r: bool)
    ensures
        r == calls_in_block(block@),
    decreases block, 0nat,
{
    let ghost all = stmts_view(block.stmts@);
    assert(block@.stmts == all);
    let mut i: usize = 0;
    while i < block.stmts.len()
        invariant
            i <= block.stmts.len(),
            all == stmts_view(block.stmts@),
            block@.stmts == all,
            forall|j: int| 0 <= j < i ==> !calls_in_stmt(#[trigger] all[j]),
        decreases block.stmts.len() - i,
    {
        assert(all[i as int] == block.stmts@[i as int]@);
        if stmt_calls(&block.stmts[i]) {
            return true;
        }
        i += 1;
    }
    false
}

fn stmt_calls(s: &Stmt) -> (r: bool)
    ensures
        r == calls_in_stmt(s@),
    decreases s, 0nat,
{
    match s {
        Stmt::Let { init, .. } => expr_calls(init),
        Stmt::Assign { target, value, .. } => expr_calls(target) || expr_calls(value),
        Stmt::Expr(e) => expr_calls(e),
        Stmt::If { cond, then, els } => expr_calls(cond) || makes_crow_calls(then) || match els {
            Some(b) => makes_crow_calls(b),
            None => false,
        },
        Stmt::While { cond, body } => expr_calls(cond) || makes_crow_calls(body),
        Stmt::For { init, cond, step, body } => {
            let in_init = match init {
                Some(s) => stmt_calls(s),
                None => false,
            };
            let in_cond = match cond {
                Some(c) => expr_calls(c),
                None => false,
            };
            let in_step = match step {
                Some(s) => stmt_calls(s),
                None => false,
            };
            in_init || in_cond || in_step || makes_crow_calls(body)
        },
        Stmt::Return { value, .. } => match value {
            Some(v) => expr_calls(v),
            None => false,
        },
        Stmt::Block(b) => makes_crow_calls(b),
        Stmt::Match { scrutinee, arms, .. } => expr_calls(scrutinee) || block_arms_call(arms),
        Stmt::Break(_) | Stmt::Continue(_) => false,
    }
}

fn block_arms_call(arms: &Vec<(Pattern, Block)>) -> (r: bool)
    ensures
        r == calls_in_block_arms(stmt_arms_view(arms@)),
    decreases arms@, arms@.len() + 1,
{
    let ghost all = stmt_arms_view(arms@);
    let mut i: usize = 0;
    while i < arms.len()
        invariant
            i <= arms.len(),
            all == stmt_arms_view(arms@),
            forall|j: int| 0 <= j < i ==> !calls_in_block((#[trigger] all[j]).1),
        decreases arms.len() - i,
    {
        assert(all[i as int] == (arms@[i as int].0@, arms@[i as int].1@));
        if makes_crow_calls(&arms[i].1) {
            return true;
        }
        i += 1;
    }
    false
}

fn list_calls(es: &Vec<Expr>) -> (r: bool)
    ensures
        r == calls_in_list(exprs_view(es@)),
    decreases es@, es@.len() + 1,
{
    let ghost all = exprs_view(es@);
    let mut i: usize = 0;
    while i < es.len()
        invariant
            i <= es.len(),
            all == exprs_view(es@),
            forall|j: int| 0 <= j < i ==> !calls_in(#[trigger] all[j]),
        decreases es.len() - i,
    {
        assert(all[i as int] == es@[i as int]@);
        if expr_calls(&es[i]) {
            return true;
        }
        i += 1;
    }
    false
}

fn inits_call(fs: &Vec<(String, Expr, u32)>) -> (r: bool)
    ensures
        r == calls_in_inits(inits_view(fs@)),
    decreases fs@, fs@.len() + 1,
{
    let ghost all = inits_view(fs@);
    let mut i: usize = 0;
    while i < fs.len()
        invariant
            i <= fs.len(),
            all == inits_view(fs@),
            forall|j: int| 0 <= j < i ==> !calls_in((#[trigger] all[j]).1),
        decreases fs.len() - i,
    {
        assert(all[i as int] == (fs@[i as int].0@, fs@[i as int].1@, fs@[i as int].2));
        if expr_calls(&fs[i].1) {
            return true;
        }
        i += 1;
    }
    false
}

fn arms_call(arms: &Vec<(Pattern, Expr)>) -> (r: bool)
    ensures
        r == calls_in_arms(expr_arms_view(arms@)),
    decreases arms@, arms@.len() + 1,
{
    let ghost all = expr_arms_view(arms@);
    let mut i: usize = 0;
    while i < arms.len()
        invariant
            i <= arms.len(),
            all == expr_arms_view(arms@),
            forall|j: int| 0 <= j < i ==> !calls_in((#[trigger] all[j]).1),
        decreases arms.len() - i,
    {
        assert(all[i as int] == (arms@[i as int].0@, arms@[i as int].1@));
        if expr_calls(&arms[i].1) {
            return true;
        }
        i += 1;
    }
    false
}

fn expr_calls(e: &Expr) -> (r: bool)
    ensures
        r == calls_in(e@),
    decreases e, 0nat,
{
    assert(e@.kind == e.kind@);
    match &e.kind {
        ExprKind::Call { .. } => true,
        ExprKind::Unary(_, a) => expr_calls(a),
        ExprKind::Cast(a, _) => expr_calls(a),
        ExprKind::Field { obj, .. } => expr_calls(obj),
        ExprKind::BoundMethod { obj, .. } => expr_calls(obj),
        ExprKind::Binary(_, a, b) => expr_calls(a) || expr_calls(b),
        ExprKind::Index(a, b) => expr_calls(a) || expr_calls(b),
        ExprKind::If { cond, then, els } => expr_calls(cond) || expr_calls(then) || expr_calls(els),
        ExprKind::Builtin(_, args) => list_calls(args),
        ExprKind::ArrayLit(args) => list_calls(args),
        ExprKind::StructLit { fields, .. } => inits_call(fields),
        ExprKind::VariantStructLit { fields, .. } => inits_call(fields),
        ExprKind::VariantLit { args, .. } => match args {
            VariantArgs::Bare => false,
            VariantArgs::Single(a) => expr_calls(a),
            VariantArgs::Fields(fields) => inits_call(fields),
        },
        ExprKind::Match { scrutinee, arms } => expr_calls(scrutinee) || arms_call(arms),
        ExprKind::Lambda(_)
        | ExprKind::Int(_)
        | ExprKind::Byte(_)
        | ExprKind::Float(_)
        | ExprKind::Bool(_)
        | ExprKind::Str(_)
        | ExprKind::Var { .. } => false,
    }
}

} // verus!
