//! When an annotated tree is well typed, said of the tree and its tables alone.
use vstd::prelude::*;

use crate::ast::{
    BinOp, BlockView, Builtin, CaptureView, ExprKindView, ExprView, LambdaDefView, PatArgsView,
    PatBinderView, PatternView, StmtView, UnOp, VarRes, VariantArgsView,
};
use crate::checking::same_arity;
use crate::keeping::{finds, starts_with};
use crate::machine::decode;
use crate::types::{IntKind, TypeView, VariantPayloadView};
use crate::typing::{
    always_returns, resolve_params, resolve_ret, resolve_type, EnvView, FuncSigView,
};

verus! {

/// What a tree stands in: the declarations, the types of the locals, what is
/// captured, what is returned, and the locals and signatures of the lambdas.
pub struct Scope {
    pub env: EnvView,
    pub locals: Seq<TypeView>,
    pub captures: Seq<CaptureView>,
    pub ret: TypeView,
    pub lambda_locals: Seq<Seq<TypeView>>,
    pub lambda_sigs: Seq<(Seq<TypeView>, TypeView)>,
}

// -- Types ------------------------------------------------------------------

/// Is `actual` what the declared type stands for under these type arguments?
pub open spec fn stands_for(decl: TypeView, actual: TypeView, inst: Seq<TypeView>) -> bool
    decreases decl, 1nat,
{
    match decl {
        TypeView::Param(i) => i < inst.len() && actual == inst[i as int],
        TypeView::Array(a) => match actual {
            TypeView::Array(b) => stands_for(*a, *b, inst),
            _ => false,
        },
        TypeView::Struct(i, ax) => match actual {
            TypeView::Struct(j, bx) => i == j && stand_for(ax, bx, inst),
            _ => false,
        },
        TypeView::Enum(i, ax) => match actual {
            TypeView::Enum(j, bx) => i == j && stand_for(ax, bx, inst),
            _ => false,
        },
        TypeView::Fn(ap, ar) => match actual {
            TypeView::Fn(bp, br) => ap.len() == bp.len() && stand_for(ap, bp, inst) && stands_for(
                *ar,
                *br,
                inst,
            ),
            _ => false,
        },
        _ => decl == actual,
    }
}

pub open spec fn stand_for(ax: Seq<TypeView>, bx: Seq<TypeView>, inst: Seq<TypeView>) -> bool
    decreases ax, 0nat,
{
    forall|i: int| 0 <= i < ax.len() && i < bx.len() ==> stands_for(#[trigger] ax[i], bx[i], inst)
}

/// Where structs and enums carry as many arguments as they are declared with, a
/// type stands for just one other: itself, with the type arguments put in.
pub proof fn law_stands_for(decl: TypeView, actual: TypeView, inst: Seq<TypeView>)
    requires
        stands_for(decl, actual, inst),
        same_arity(decl, actual),
    ensures
        actual == decl.subst(inst),
    decreases decl, 1nat,
{
    match decl {
        TypeView::Array(a) => {
            if let TypeView::Array(b) = actual {
                law_stands_for(*a, *b, inst);
            }
        },
        TypeView::Struct(_, ax) => {
            if let TypeView::Struct(_, bx) = actual {
                lemma_stand_for(ax, bx, inst);
            }
        },
        TypeView::Enum(_, ax) => {
            if let TypeView::Enum(_, bx) = actual {
                lemma_stand_for(ax, bx, inst);
            }
        },
        TypeView::Fn(ap, ar) => {
            if let TypeView::Fn(bp, br) = actual {
                lemma_stand_for(ap, bp, inst);
                law_stands_for(*ar, *br, inst);
            }
        },
        _ => {},
    }
}

proof fn lemma_stand_for(ax: Seq<TypeView>, bx: Seq<TypeView>, inst: Seq<TypeView>)
    requires
        stand_for(ax, bx, inst),
        crate::checking::same_arities(ax, bx),
        ax.len() == bx.len(),
    ensures
        bx == TypeView::subst_all(ax, inst),
    decreases ax, 0nat,
{
    assert forall|i: int| 0 <= i < ax.len() implies bx[i] == #[trigger] TypeView::subst_all(
        ax,
        inst,
    )[i] by {
        assert(same_arity(ax[i], bx[i]));
        law_stands_for(ax[i], bx[i], inst);
    }
    assert(bx =~= TypeView::subst_all(ax, inst));
}

/// A parameter's type at the type arguments of a call; a function without type
/// parameters takes just what it declares.
pub open spec fn fits_param(decl: TypeView, actual: TypeView, inst: Seq<TypeView>) -> bool {
    if inst.len() == 0 {
        decl == actual
    } else {
        stands_for(decl, actual, inst)
    }
}

/// A type at the type arguments of a call.
pub open spec fn at_inst(t: TypeView, inst: Seq<TypeView>) -> TypeView {
    if inst.len() == 0 {
        t
    } else {
        t.subst(inst)
    }
}

pub open spec fn int_type() -> TypeView {
    TypeView::Int(IntKind::I64)
}

pub open spec fn bytes_type() -> TypeView {
    TypeView::Array(Box::new(TypeView::Int(IntKind::U8)))
}

pub open spec fn is_number(t: TypeView) -> bool {
    t is Int || t is Float
}

// -- Operators --------------------------------------------------------------

pub open spec fn unary_rule(op: UnOp, t: TypeView, ty: TypeView) -> bool {
    match op {
        UnOp::Neg => ty == t && (t is Float || t is Int && t->Int_0.is_signed()),
        UnOp::Not => t is Bool && ty is Bool,
        UnOp::BitNot => t is Int && ty == t,
    }
}

/// May values of the type be compared for equality?
pub open spec fn has_equality(env: EnvView, t: TypeView) -> bool {
    match t {
        TypeView::Param(_) => false,
        TypeView::Unit => false,
        TypeView::Enum(id, _) => id < env.enums.len() && env.enums[id as int].all_bare(),
        _ => true,
    }
}

/// May the arithmetic operator take operands of the type?
pub open spec fn takes_operands(op: BinOp, t: TypeView) -> bool {
    match op {
        BinOp::Add => t is Int || t is Float || t is Str,
        BinOp::Sub | BinOp::Mul | BinOp::Div => t is Int || t is Float,
        BinOp::Rem | BinOp::BitAnd | BinOp::BitOr | BinOp::BitXor | BinOp::Shl | BinOp::Shr =>
            t is Int,
        _ => false,
    }
}

pub open spec fn binary_rule(
    env: EnvView,
    op: BinOp,
    l: TypeView,
    r: TypeView,
    ty: TypeView,
) -> bool {
    match op {
        BinOp::And | BinOp::Or => l is Bool && r is Bool && ty is Bool,
        BinOp::Eq | BinOp::Ne => l == r && has_equality(env, l) && ty is Bool,
        BinOp::Lt | BinOp::Le | BinOp::Gt | BinOp::Ge => l == r && is_number(l) && ty is Bool,
        _ => l == r && ty == l && takes_operands(op, l),
    }
}

pub open spec fn index_rule(obj: TypeView, idx: TypeView, ty: TypeView) -> bool {
    idx == int_type() && match obj {
        TypeView::Array(elem) => ty == *elem,
        TypeView::Str => ty == TypeView::Int(IntKind::U8),
        _ => false,
    }
}

pub open spec fn builtin_rule(env: EnvView, b: Builtin, ts: Seq<TypeView>, ty: TypeView) -> bool {
    match b {
        Builtin::GcCollect => ts.len() == 0 && ty is Unit,
        Builtin::Push => ts.len() == 2 && ts[0] == TypeView::Array(Box::new(ts[1])) && ty is Unit,
        _ => ts.len() == 1 && match b {
            Builtin::Print | Builtin::Println => (ts[0] is Int || ts[0] is Float || ts[0] is Bool
                || ts[0] is Str) && ty is Unit,
            Builtin::Assert => ts[0] is Bool && ty is Unit,
            Builtin::Len => (ts[0] is Array || ts[0] is Str) && ty == int_type(),
            Builtin::Pop => ts[0] == TypeView::Array(Box::new(ty)),
            Builtin::Itos => ts[0] is Int && ty is Str,
            Builtin::Itof => ts[0] is Int && ty is Float,
            Builtin::Ftos => ts[0] is Float && ty is Str,
            Builtin::Stoi => ts[0] is Str && ty == int_type(),
            Builtin::Stof => ts[0] is Str && ty is Float,
            Builtin::Stob => ts[0] is Str && ty == bytes_type(),
            Builtin::Btos => ts[0] == bytes_type() && ty is Str,
            Builtin::Unwrap => ts[0] matches TypeView::Enum(id, targs) && env.option_enum == Some(id)
                && targs.len() > 0 && targs[0] == ty,
            _ => false,
        },
    }
}

// -- Trees ------------------------------------------------------------------

pub open spec fn types_of(es: Seq<ExprView>) -> Seq<TypeView> {
    Seq::new(es.len(), |i: int| es[i].ty)
}

/// A name: a variable of the type, or a function as a value.
pub open spec fn name_rule(
    sc: Scope,
    name: Seq<char>,
    res: Option<VarRes>,
    ty: TypeView,
) -> bool {
    match res {
        Some(VarRes::Func(f)) => {
            &&& f < sc.env.funcs.len()
            &&& sc.env.funcs[f as int].name == name
            &&& sc.env.funcs[f as int].type_params.len() == 0
            &&& ty == TypeView::Fn(
                sc.env.funcs[f as int].params,
                Box::new(sc.env.funcs[f as int].ret),
            )
        },
        Some(res) => finds(sc.locals, sc.captures, res, ty),
        None => false,
    }
}

/// A call of a function by its number: as many arguments as parameters, each of
/// the parameter's type, and a result of the declared one.
pub open spec fn function_rule(
    env: EnvView,
    direct: Option<u32>,
    inst: Seq<TypeView>,
    ts: Seq<TypeView>,
    ty: TypeView,
) -> bool {
    direct matches Some(f) && f < env.funcs.len() && {
        let sig = env.funcs[f as int];
        &&& inst.len() == sig.type_params.len()
        &&& ts.len() == sig.params.len()
        &&& forall|i: int| 0 <= i < ts.len() ==> fits_param(sig.params[i], #[trigger] ts[i], inst)
        &&& ty == at_inst(sig.ret, inst)
    }
}

/// A method as a value: a function of the other parameters.
pub open spec fn method_rule(sig: FuncSigView, obj: TypeView, inst: Seq<TypeView>, ty: TypeView) -> bool {
    &&& inst.len() == sig.type_params.len()
    &&& sig.params.len() > 0
    &&& stands_for(sig.params[0], obj, inst)
    &&& ty == TypeView::Fn(
        TypeView::subst_all(sig.params.skip(1), inst),
        Box::new(sig.ret.subst(inst)),
    )
}

/// A field of a struct, by its index.
pub open spec fn field_rule(
    env: EnvView,
    obj: TypeView,
    name: Seq<char>,
    index: u32,
    ty: TypeView,
) -> bool {
    obj matches TypeView::Struct(id, targs) && id < env.structs.len() && {
        let fields = env.structs[id as int].fields;
        &&& index < fields.len()
        &&& fields[index as int].0 == name
        &&& ty == fields[index as int].1.subst(targs)
    }
}

/// Does a literal give each declared field once, by its index and name, with a
/// value of its type?
pub open spec fn gives_fields(
    decl: Seq<(Seq<char>, TypeView)>,
    targs: Seq<TypeView>,
    fs: Seq<(Seq<char>, ExprView, u32)>,
) -> bool {
    &&& forall|i: int| 0 <= i < fs.len() ==> gives_field(decl, targs, #[trigger] fs[i])
    &&& forall|i: int, k: int|
        0 <= i < k < fs.len() ==> (#[trigger] fs[i]).2 != (#[trigger] fs[k]).2
    &&& forall|j: int| 0 <= j < decl.len() ==> #[trigger] given(fs, j)
}

pub open spec fn gives_field(
    decl: Seq<(Seq<char>, TypeView)>,
    targs: Seq<TypeView>,
    f: (Seq<char>, ExprView, u32),
) -> bool {
    f.2 < decl.len() && decl[f.2 as int].0 == f.0 && stands_for(
        decl[f.2 as int].1,
        f.1.ty,
        targs,
    )
}

pub open spec fn given(fs: Seq<(Seq<char>, ExprView, u32)>, j: int) -> bool {
    exists|i: int| 0 <= i < fs.len() && (#[trigger] fs[i]).2 == j
}

/// A binder of a pattern is a local of its type, which is the declared one.
pub open spec fn binder_rule(sc: Scope, b: PatBinderView, decl: TypeView, targs: Seq<TypeView>) -> bool {
    b.ty == decl.subst(targs) && b.local < sc.locals.len() && sc.locals[b.local as int] == b.ty
}

/// A pattern on a value of the type.
pub open spec fn pattern_rule(sc: Scope, t: TypeView, p: PatternView) -> bool {
    match p {
        PatternView::Variant { enum_name, variant, args, tag, .. } => {
            t matches TypeView::Enum(id, targs) && id < sc.env.enums.len() && {
                let variants = sc.env.enums[id as int].variants;
                sc.env.enums[id as int].name == enum_name && tag < variants.len()
                    && variants[tag as int].0 == variant && match (variants[tag as int].1, args) {
                    (VariantPayloadView::Bare, PatArgsView::Bare) => true,
                    (VariantPayloadView::Single(ty), PatArgsView::Single(b)) => binder_rule(
                        sc,
                        b,
                        ty,
                        targs,
                    ),
                    (VariantPayloadView::Fields(decl), PatArgsView::Fields(fs)) => forall|i: int|
                        0 <= i < fs.len() ==> (#[trigger] fs[i]).2 < decl.len() && fs[i].0
                            == decl[fs[i].2 as int].0 && binder_rule(
                            sc,
                            fs[i].1,
                            decl[fs[i].2 as int].1,
                            targs,
                        ),
                    _ => false,
                }
            }
        },
        PatternView::IntLit { value, .. } => t matches TypeView::Int(k) && k.holds(decode(k, value)),
        PatternView::ByteLit { .. } => t == TypeView::Int(IntKind::U8),
        PatternView::BoolLit { .. } => t is Bool,
        PatternView::Wildcard { .. } => true,
    }
}

/// Is the expression well typed: is the type of each part the one that its place
/// asks for, and its own type what they make?
pub open spec fn judged(sc: Scope, e: ExprView) -> bool
    decreases e, 9nat,
{
    match e.kind {
        ExprKindView::Int(v) => e.ty matches TypeView::Int(k) && k.holds(decode(k, v)),
        ExprKindView::Byte(_) => e.ty == TypeView::Int(IntKind::U8),
        ExprKindView::Float(_) => e.ty is Float,
        ExprKindView::Bool(_) => e.ty is Bool,
        ExprKindView::Str(_) => e.ty is Str,
        ExprKindView::Var { name, res } => name_rule(sc, name, res, e.ty),
        ExprKindView::Unary(op, a) => judged(sc, *a) && unary_rule(op, a.ty, e.ty),
        ExprKindView::Binary(op, a, b) => judged(sc, *a) && judged(sc, *b) && binary_rule(
            sc.env,
            op,
            a.ty,
            b.ty,
            e.ty,
        ),
        ExprKindView::If { cond, then, els } => {
            &&& judged(sc, *cond) && cond.ty is Bool
            &&& judged(sc, *then) && then.ty == e.ty
            &&& judged(sc, *els) && els.ty == e.ty
            &&& !(e.ty is Unit)
        },
        ExprKindView::Index(a, b) => judged(sc, *a) && judged(sc, *b) && index_rule(
            a.ty,
            b.ty,
            e.ty,
        ),
        ExprKindView::Cast(a, te) => {
            &&& judged(sc, *a) && is_number(a.ty)
            &&& is_number(e.ty)
            &&& resolve_type(sc.env, te) == Ok::<TypeView, Seq<char>>(e.ty)
        },
        ExprKindView::ArrayLit(es) => all_judged(sc, es) && match e.ty {
            TypeView::Array(t) => forall|i: int| 0 <= i < es.len() ==> (#[trigger] es[i]).ty == *t,
            _ => false,
        },
        ExprKindView::StructLit { name, fields, struct_id } => {
            &&& inits_judged(sc, fields)
            &&& e.ty matches TypeView::Struct(id, targs) && id == struct_id && id
                < sc.env.structs.len() && sc.env.structs[id as int].name == name && targs.len()
                == sc.env.structs[id as int].type_params.len() && gives_fields(
                sc.env.structs[id as int].fields,
                targs,
                fields,
            )
        },
        ExprKindView::VariantLit { args, enum_id, tag } => {
            &&& payload_judged(sc, args)
            &&& e.ty matches TypeView::Enum(id, targs) && id == enum_id && id < sc.env.enums.len()
                && targs.len() == sc.env.enums[id as int].type_params.len() && tag
                < sc.env.enums[id as int].variants.len() && payload_rule(
                sc.env.enums[id as int].variants[tag as int].1,
                targs,
                args,
            )
        },
        ExprKindView::Field { obj, name, index } => judged(sc, *obj) && field_rule(
            sc.env,
            obj.ty,
            name,
            index,
            e.ty,
        ),
        ExprKindView::BoundMethod { obj, fid, inst } => judged(sc, *obj) && fid
            < sc.env.funcs.len() && method_rule(sc.env.funcs[fid as int], obj.ty, inst, e.ty),
        ExprKindView::Call { callee, args, direct, inst } => {
            &&& all_judged(sc, args)
            &&& {
                ||| function_rule(sc.env, direct, inst, types_of(args), e.ty)
                ||| judged(sc, *callee) && callee.ty == TypeView::Fn(
                    types_of(args),
                    Box::new(e.ty),
                )
            }
        },
        ExprKindView::Builtin(b, args) => all_judged(sc, args) && builtin_rule(
            sc.env,
            b,
            types_of(args),
            e.ty,
        ),
        ExprKindView::Match { scrutinee, arms } => {
            &&& judged(sc, *scrutinee)
            &&& arms_judged(sc, scrutinee.ty, e.ty, arms)
            &&& !(e.ty is Unit)
        },
        ExprKindView::Lambda(lam) => lambda_judged(sc, *lam, e.ty),
        ExprKindView::VariantStructLit { .. } => false,
    }
}

pub open spec fn payload_rule(
    decl: VariantPayloadView,
    targs: Seq<TypeView>,
    args: VariantArgsView,
) -> bool {
    match (decl, args) {
        (VariantPayloadView::Bare, VariantArgsView::Bare) => true,
        (VariantPayloadView::Single(t), VariantArgsView::Single(x)) => stands_for(t, x.ty, targs),
        (VariantPayloadView::Fields(fs), VariantArgsView::Fields(xs)) => gives_fields(
            fs,
            targs,
            xs,
        ),
        _ => false,
    }
}

pub open spec fn all_judged(sc: Scope, es: Seq<ExprView>) -> bool
    decreases es, 0nat,
{
    forall|i: int| 0 <= i < es.len() ==> judged(sc, #[trigger] es[i])
}

pub open spec fn inits_judged(sc: Scope, fs: Seq<(Seq<char>, ExprView, u32)>) -> bool
    decreases fs, 0nat,
{
    forall|i: int| 0 <= i < fs.len() ==> judged(sc, (#[trigger] fs[i]).1)
}

pub open spec fn payload_judged(sc: Scope, args: VariantArgsView) -> bool
    decreases args, 0nat,
{
    match args {
        VariantArgsView::Bare => true,
        VariantArgsView::Single(x) => judged(sc, *x),
        VariantArgsView::Fields(fs) => inits_judged(sc, fs),
    }
}

/// Arms on values of type `t`, each of which gives a value of type `ty`.
pub open spec fn arms_judged(
    sc: Scope,
    t: TypeView,
    ty: TypeView,
    arms: Seq<(PatternView, ExprView)>,
) -> bool
    decreases arms, 0nat,
{
    forall|i: int|
        0 <= i < arms.len() ==> pattern_rule(sc, t, (#[trigger] arms[i]).0) && judged(sc, arms[i].1)
            && arms[i].1.ty == ty
}

/// The scope of a lambda's body.
pub open spec fn inside(sc: Scope, lam: LambdaDefView, ret: TypeView) -> Scope {
    Scope {
        locals: sc.lambda_locals[lam.id as int],
        captures: lam.captures,
        ret,
        ..sc
    }
}

/// A lambda: its body is well typed among its own locals, the first of which
/// are its parameters, and what it captured is there around it.
pub open spec fn lambda_judged(sc: Scope, lam: LambdaDefView, ty: TypeView) -> bool
    decreases lam, 0nat,
{
    ty matches TypeView::Fn(ps, ret) && {
        &&& lam.id < sc.lambda_locals.len() && lam.id < sc.lambda_sigs.len()
        &&& sc.lambda_sigs[lam.id as int] == (ps, *ret)
        &&& resolve_params(sc.env, lam.params, 0, Seq::empty()) == Ok::<
            Seq<TypeView>,
            Seq<char>,
        >(ps)
        &&& resolve_ret(sc.env, lam.ret) == Ok::<TypeView, Seq<char>>(*ret)
        &&& sc.lambda_locals[lam.id as int].len() == lam.num_locals
        &&& starts_with(sc.lambda_locals[lam.id as int], ps)
        &&& forall|k: int|
            0 <= k < lam.captures.len() ==> finds(
                sc.locals,
                sc.captures,
                (#[trigger] lam.captures[k]).src,
                lam.captures[k].ty,
            )
        &&& !(*ret is Unit) ==> always_returns(lam.body)
        &&& block_judged(inside(sc, lam, *ret), lam.body)
    }
}

pub open spec fn block_judged(sc: Scope, b: BlockView) -> bool
    decreases b, 1nat,
{
    stmts_judged(sc, b.stmts)
}

pub open spec fn stmts_judged(sc: Scope, ss: Seq<StmtView>) -> bool
    decreases ss, 0nat,
{
    forall|i: int| 0 <= i < ss.len() ==> stmt_judged(sc, #[trigger] ss[i])
}

pub open spec fn block_arms_judged(
    sc: Scope,
    t: TypeView,
    arms: Seq<(PatternView, BlockView)>,
) -> bool
    decreases arms, 0nat,
{
    forall|i: int|
        0 <= i < arms.len() ==> pattern_rule(sc, t, (#[trigger] arms[i]).0) && block_judged(
            sc,
            arms[i].1,
        )
}

/// What may be assigned to: a local, an element of an array, or a field.
pub open spec fn is_place(e: ExprView) -> bool {
    match e.kind {
        ExprKindView::Var { res, .. } => res matches Some(VarRes::Local(_)),
        ExprKindView::Index(a, _) => !(a.ty is Str),
        ExprKindView::Field { .. } => true,
        _ => false,
    }
}

/// Is the statement well typed?
pub open spec fn stmt_judged(sc: Scope, s: StmtView) -> bool
    decreases s, 5nat,
{
    match s {
        StmtView::Let { ann, init, local, ty, .. } => {
            &&& judged(sc, init) && init.ty == ty
            &&& local < sc.locals.len() && sc.locals[local as int] == ty
            &&& ann matches Some(te) ==> resolve_type(sc.env, te) == Ok::<TypeView, Seq<char>>(ty)
        },
        StmtView::Assign { target, op, value, .. } => {
            &&& judged(sc, target) && is_place(target)
            &&& judged(sc, value) && value.ty == target.ty
            &&& op matches Some(op) ==> takes_operands(op, target.ty)
        },
        StmtView::Expr(e) => judged(sc, e),
        StmtView::If { cond, then, els } => {
            &&& judged(sc, cond) && cond.ty is Bool
            &&& block_judged(sc, then)
            &&& match els {
                Some(b) => block_judged(sc, b),
                None => true,
            }
        },
        StmtView::While { cond, body } => judged(sc, cond) && cond.ty is Bool && block_judged(
            sc,
            body,
        ),
        StmtView::For { init, cond, step, body } => {
            &&& match init {
                Some(s) => stmt_judged(sc, *s),
                None => true,
            }
            &&& match cond {
                Some(c) => judged(sc, c) && c.ty is Bool,
                None => true,
            }
            &&& match step {
                Some(s) => stmt_judged(sc, *s),
                None => true,
            }
            &&& block_judged(sc, body)
        },
        StmtView::Return { value, .. } => match value {
            Some(v) => judged(sc, v) && v.ty == sc.ret && !(sc.ret is Unit),
            None => sc.ret is Unit,
        },
        StmtView::Break(_) => true,
        StmtView::Continue(_) => true,
        StmtView::Block(b) => block_judged(sc, b),
        StmtView::Match { scrutinee, arms, .. } => judged(sc, scrutinee) && block_arms_judged(
            sc,
            scrutinee.ty,
            arms,
        ),
    }
}

} // verus!
