//! The typing rules for expressions, statements and declarations.
use vstd::prelude::*;

use crate::ast::{
    BinOp, BlockView, Builtin, CaptureView, EnumDefView, ExprKindView, ExprView, FuncDefView,
    LambdaDefView, MethodDefView, PatternView, PayloadExprView, ProgramView, StmtView,
    StructDefView, TypeExprView, UnOp, VarRes, VariantArgsView,
};
use crate::text::{dec_text, position};
use crate::types::{
    field_names, variant_names, EnumInfoView, IntKind, StructInfoView, TypeView,
    VariantPayloadView,
};
use crate::typing::{
    all_solved, always_returns, bits_of, builtin_method, builtin_named, builtin_result,
    check_arith_op, check_patterns, check_type_params, declare, declare_binders, declare_params,
    expr_patterns, first_false, first_unsolved, internal, is_arith, leave_scope, literal_kind, ln,
    method_hint, method_surface, mismatch, none_seen, primitive, require_assignable, resolve_params,
    resolve_ret, resolve_type, resolve_var, solution, stmt_patterns, subst_partial, unify, unsolved,
    BodyView, CtxView, EnvView, FuncSigView, MethodView, TypeKey,
};

verus! {

pub open spec fn int_t() -> TypeView {
    TypeView::Int(IntKind::I64)
}

/// An expression annotated with its type.
pub open spec fn typed(kind: ExprKindView, line: u32, ty: TypeView) -> ExprView {
    ExprView { kind, line, ty }
}

// -- Values -----------------------------------------------------------------

/// A name in value position: what it refers to and its type.
#[verifier::opaque]
pub open spec fn value_of(env: EnvView, st: BodyView, name: Seq<char>, line: u32) -> Result<
    (VarRes, TypeView, BodyView),
    Seq<char>,
> {
    let (st1, r) = resolve_var(st, name);
    match r {
        Some((res, ty)) => Ok((res, ty, st1)),
        None => match env.func_id(name) {
            Some(fid) => {
                let sig = env.funcs[fid as int];
                if sig.type_params.len() > 0 {
                    Err(
                        ln(line) + ": generic function '"@ + name
                            + "' can only be called directly, not used as a value"@,
                    )
                } else {
                    Ok(
                        (
                            VarRes::Func(fid as u32),
                            TypeView::Fn(sig.params, Box::new(sig.ret)),
                            st1,
                        ),
                    )
                }
            },
            None => if builtin_named(name) is Some {
                Err(ln(line) + ": builtin '"@ + name + "' can only be called, not used as a value"@)
            } else if name == "self"@ {
                Err(ln(line) + ": 'self' is only available inside impl-block methods"@)
            } else {
                match method_hint(name) {
                    Some(hint) => Err(
                        ln(line) + ": '"@ + name + "' is now a method: write "@ + hint,
                    ),
                    None => Err(ln(line) + ": unknown variable '"@ + name + "'"@),
                }
            },
        },
    }
}

/// Does a name stand for a declared type here? Values shadow type names, so
/// it does only when it resolves to no local, capture, or function.
#[verifier::opaque]
pub open spec fn names_type(env: EnvView, st: BodyView, e: ExprView) -> (
    Option<Seq<char>>,
    BodyView,
) {
    match e.kind {
        ExprKindView::Var { name, .. } => {
            let (st1, r) = resolve_var(st, name);
            if r is None && env.func_id(name) is None && (env.enum_id(name) is Some
                || env.struct_id(name) is Some) {
                (Some(name), st1)
            } else {
                (None, st1)
            }
        },
        _ => (None, st),
    }
}

/// The key of a declared type's name.
pub open spec fn key_of(env: EnvView, name: Seq<char>) -> TypeKey {
    match env.struct_id(name) {
        Some(sid) => TypeKey::Struct(sid as u32),
        None => match env.enum_id(name) {
            Some(eid) => TypeKey::Enum(eid as u32),
            None => TypeKey::Struct(0),
        },
    }
}

/// Is `name` a variant of enum `eid`?
pub open spec fn has_variant(env: EnvView, eid: nat, name: Seq<char>) -> bool {
    position(variant_names(env.enums[eid as int].variants), name) is Some
}

/// Resolve `obj.name` with the object already checked as a plain struct field
/// access, or report that no field or method exists.
#[verifier::opaque]
pub open spec fn field_after_obj(
    env: EnvView,
    obj: ExprView,
    name: Seq<char>,
    index: u32,
    line: u32,
) -> Result<ExprView, Seq<char>> {
    match obj.ty {
        TypeView::Struct(sid, targs) => if sid >= env.structs.len() {
            Err(internal(line))
        } else {
            let info = env.structs[sid as int];
            match position(field_names(info.fields), name) {
                // Field types live in the struct's own parameter space; map
                // into the caller's.
                Some(i) => Ok(
                    typed(
                        ExprKindView::Field { obj: Box::new(obj), name, index: i as u32 },
                        line,
                        info.fields[i as int].1.subst(targs),
                    ),
                ),
                None => Err(
                    ln(line) + ": struct '"@ + info.name + "' has no field or method '"@ + name
                        + "'"@,
                ),
            }
        },
        TypeView::Enum(eid, _) => Err(
            ln(line) + ": enum '"@ + crate::types::enum_name(env.enums, eid) + "' has no method '"@
                + name + "'"@,
        ),
        other => Err(ln(line) + ": type "@ + env.show(other) + " has no method '"@ + name + "'"@),
    }
}

/// `obj.name` where `name` is a method and the object is already checked: a
/// first-class closure capturing the receiver. Every type parameter must be
/// determined by the receiver type.
#[verifier::opaque]
pub open spec fn bound_method(
    env: EnvView,
    obj: ExprView,
    name: Seq<char>,
    fid: u32,
    line: u32,
) -> Result<ExprView, Seq<char>> {
    if fid >= env.funcs.len() || env.funcs[fid as int].params.len() == 0 {
        Err(internal(line))
    } else {
        let sig = env.funcs[fid as int];
        let (ok, solved) = unify(sig.params[0], obj.ty, unsolved(sig.type_params.len()));
        if !ok {
            Err(internal(line))
        } else {
            match first_unsolved(solved, 0) {
                Some(i) => Err(
                    ln(line) + ": cannot infer type parameter '"@ + sig.type_params[i as int]
                        + "' of method '"@ + name
                        + "'; a method with its own type parameters can only be called, not bound as a value"@,
                ),
                None => {
                    let targs = solution(solved);
                    Ok(
                        typed(
                            ExprKindView::BoundMethod { obj: Box::new(obj), fid, inst: targs },
                            line,
                            TypeView::Fn(
                                TypeView::subst_all(sig.params.skip(1), targs),
                                Box::new(sig.ret.subst(targs)),
                            ),
                        ),
                    )
                },
            }
        }
    }
}

/// A type-qualified name in value position that is no variant: methods and
/// associated functions are call-only.
#[verifier::opaque]
pub open spec fn type_member_error(
    env: EnvView,
    tname: Seq<char>,
    name: Seq<char>,
    line: u32,
) -> Seq<char> {
    let key = key_of(env, tname);
    if env.method(key, name) is Some {
        ln(line) + ": '"@ + tname + "."@ + name + "' can only be called, not used as a value"@
    } else if key is Enum {
        ln(line) + ": enum '"@ + tname + "' has no variant '"@ + name + "'"@
    } else {
        ln(line) + ": struct '"@ + tname + "' has no associated function '"@ + name + "'"@
    }
}

/// `obj.name` in value position with the object already checked: a bound
/// method, a field, or an error.
#[verifier::opaque]
pub open spec fn member_value(
    env: EnvView,
    obj: ExprView,
    name: Seq<char>,
    index: u32,
    line: u32,
) -> Result<ExprView, Seq<char>> {
    let is_field = match obj.ty {
        TypeView::Struct(sid, _) => sid < env.structs.len() && position(
            field_names(env.structs[sid as int].fields),
            name,
        ) is Some,
        _ => false,
    };
    let method = env.lookup_method(obj.ty, name);
    if !is_field && method is Some {
        let (fid, has_self) = method->0;
        if !has_self {
            Err(
                ln(line) + ": '"@ + env.base_name(obj.ty) + "."@ + name
                    + "' can only be called, not used as a value"@,
            )
        } else {
            bound_method(env, obj, name, fid, line)
        }
    } else if builtin_method(obj.ty, name, env.option_enum) is Some {
        Err(
            ln(line) + ": builtin method '"@ + name
                + "' can only be called, not used as a value"@,
        )
    } else {
        field_after_obj(env, obj, name, index, line)
    }
}

// -- Operators --------------------------------------------------------------

/// The type of a unary operator on an operand of type `ty`.
#[verifier::opaque]
pub open spec fn unary_type(env: EnvView, op: UnOp, ty: TypeView, line: u32) -> Result<
    TypeView,
    Seq<char>,
> {
    match op {
        UnOp::Neg => if ty is Float || (ty is Int && ty->Int_0.is_signed()) {
            Ok(ty)
        } else {
            Err(ln(line) + ": operator '-' needs a signed int or float, found "@ + env.show(ty))
        },
        UnOp::Not => if ty is Bool {
            Ok(TypeView::Bool)
        } else {
            Err(ln(line) + ": operator '!' needs bool, found "@ + env.show(ty))
        },
        UnOp::BitNot => if ty is Int {
            Ok(ty)
        } else {
            Err(ln(line) + ": operator '~' needs an integer, found "@ + env.show(ty))
        },
    }
}

#[verifier::opaque]
pub open spec fn logical_type(env: EnvView, l: TypeView, r: TypeView, line: u32) -> Result<
    TypeView,
    Seq<char>,
> {
    if !(l is Bool) {
        Err(ln(line) + ": logical operator needs bool operands, found "@ + env.show(l))
    } else if !(r is Bool) {
        Err(ln(line) + ": logical operator needs bool operands, found "@ + env.show(r))
    } else {
        Ok(TypeView::Bool)
    }
}

/// Equality is type-directed (strings compare by content, references by
/// identity), so it is not available on an opaque type parameter, nor on an
/// enum whose variants carry values.
#[verifier::opaque]
pub open spec fn equality_type(env: EnvView, l: TypeView, r: TypeView, line: u32) -> Result<
    TypeView,
    Seq<char>,
> {
    if l is Param || r is Param {
        Err(
            ln(line) + ": cannot compare values of generic type "@ + env.show(
                if l is Param {
                    l
                } else {
                    r
                },
            ) + "; '==' is not available on type parameters"@,
        )
    } else if l != r || l is Unit {
        Err(ln(line) + ": cannot compare "@ + env.show(l) + " with "@ + env.show(r))
    } else if l is Enum && l->Enum_0 >= env.enums.len() {
        Err(internal(line))
    } else if l is Enum && !env.enums[l->Enum_0 as int].all_bare() {
        Err(
            ln(line) + ": '==' is not available on enum '"@ + env.enums[l->Enum_0 as int].name
                + "' because some variants carry values; use match"@,
        )
    } else {
        Ok(TypeView::Bool)
    }
}

#[verifier::opaque]
pub open spec fn comparison_type(env: EnvView, l: TypeView, r: TypeView, line: u32) -> Result<
    TypeView,
    Seq<char>,
> {
    if l != r || !(l is Int || l is Float) {
        Err(
            ln(line) + ": comparison needs two ints or two floats, found "@ + env.show(l) + " and "@
                + env.show(r),
        )
    } else {
        Ok(TypeView::Bool)
    }
}

#[verifier::opaque]
pub open spec fn arith_type(env: EnvView, op: BinOp, l: TypeView, r: TypeView, line: u32) -> Result<
    TypeView,
    Seq<char>,
> {
    if l != r {
        Err(ln(line) + ": arithmetic on mixed types "@ + env.show(l) + " and "@ + env.show(r))
    } else {
        match check_arith_op(env, op, l, line) {
            Err(e) => Err(e),
            Ok(_) => Ok(l),
        }
    }
}

/// The expectation that a binary operator hands its left operand. Literals
/// adopt the context: `let x: u8 = a + 1;` checks at u8.
pub open spec fn left_expected(op: BinOp, expected: Option<TypeView>) -> Option<TypeView> {
    if op is And || op is Or {
        Some(TypeView::Bool)
    } else if is_arith(op) {
        expected
    } else {
        None
    }
}

/// The expectation that a binary operator hands its right operand.
pub open spec fn right_expected(op: BinOp, left: TypeView) -> TypeView {
    if op is And || op is Or {
        TypeView::Bool
    } else {
        left
    }
}

#[verifier::opaque]
pub open spec fn binary_type(env: EnvView, op: BinOp, l: TypeView, r: TypeView, line: u32) -> Result<
    TypeView,
    Seq<char>,
> {
    if op is And || op is Or {
        logical_type(env, l, r, line)
    } else if op is Eq || op is Ne {
        equality_type(env, l, r, line)
    } else if op is Lt || op is Le || op is Gt || op is Ge {
        comparison_type(env, l, r, line)
    } else {
        arith_type(env, op, l, r, line)
    }
}

// -- Expressions ------------------------------------------------------------

pub open spec fn check_expr(
    env: EnvView,
    st: BodyView,
    e: ExprView,
    expected: Option<TypeView>,
) -> Result<(ExprView, BodyView), Seq<char>>
    decreases e, 9int,
{
    let line = e.line;
    match e.kind {
        ExprKindView::Int(digits) => match literal_kind(digits as int, expected, line) {
            Err(m) => Err(m),
            Ok(k) => Ok((typed(e.kind, line, TypeView::Int(k)), st)),
        },
        // Byte literals are exactly u8, regardless of context.
        ExprKindView::Byte(_) => Ok((typed(e.kind, line, TypeView::Int(IntKind::U8)), st)),
        ExprKindView::Float(_) => Ok((typed(e.kind, line, TypeView::Float), st)),
        ExprKindView::Bool(_) => Ok((typed(e.kind, line, TypeView::Bool), st)),
        ExprKindView::Str(_) => Ok((typed(e.kind, line, TypeView::Str), st)),
        ExprKindView::Var { name, .. } => match value_of(env, st, name, line) {
            Err(m) => Err(m),
            Ok((res, ty, st1)) => Ok(
                (typed(ExprKindView::Var { name, res: Some(res) }, line, ty), st1),
            ),
        },
        ExprKindView::Unary(op, sub) => check_unary(env, st, op, *sub, line, expected),
        ExprKindView::Binary(_, _, _) => check_binary(env, st, e, expected),
        ExprKindView::If { .. } => check_if(env, st, e, expected),
        ExprKindView::Call { .. } => check_call(env, st, e, expected),
        ExprKindView::VariantStructLit { enum_name, variant, fields } => match env.enum_id(
            enum_name,
        ) {
            None => Err(ln(line) + ": unknown enum '"@ + enum_name + "'"@),
            Some(eid) => check_variant_fields(
                env,
                st,
                eid,
                enum_name,
                variant,
                fields,
                line,
                expected,
            ),
        },
        ExprKindView::Match { .. } => check_match(env, st, e, expected),
        ExprKindView::Field { obj, name, index } => check_field(
            env,
            st,
            *obj,
            name,
            index,
            line,
            expected,
        ),
        ExprKindView::Index(_, _) => check_index(env, st, e),
        ExprKindView::Cast(sub, te) => check_cast(env, st, *sub, te, line),
        ExprKindView::ArrayLit(elems) => check_array(env, st, elems, line, expected),
        ExprKindView::StructLit { name, fields, .. } => check_struct_lit(
            env,
            st,
            name,
            fields,
            line,
            expected,
        ),
        ExprKindView::Lambda(lam) => check_lambda(env, st, *lam, line),
        // Only the checker itself makes these.
        ExprKindView::Builtin(_, _) => Err(internal(line)),
        ExprKindView::BoundMethod { .. } => Err(internal(line)),
        ExprKindView::VariantLit { .. } => Err(internal(line)),
    }
}

/// A prefix operator. `-literal` folds into a single literal so negative
/// values range-check against the expected type as a whole; this is also the
/// only way to write the most negative value of a signed type. The operand
/// of `~` adopts the expected type.
pub open spec fn check_unary(
    env: EnvView,
    st: BodyView,
    op: UnOp,
    sub: ExprView,
    line: u32,
    expected: Option<TypeView>,
) -> Result<(ExprView, BodyView), Seq<char>>
    decreases sub, 10int,
{
    if op is Neg && sub.kind is Int {
        let v = -(sub.kind->Int_0 as int);
        match literal_kind(v, expected, line) {
            Err(m) => Err(m),
            Ok(k) => Ok((typed(ExprKindView::Int(bits_of(v)), line, TypeView::Int(k)), st)),
        }
    } else {
        let want = if op is BitNot {
            expected
        } else {
            None
        };
        match check_expr(env, st, sub, want) {
            Err(m) => Err(m),
            Ok((x, st1)) => match unary_type(env, op, x.ty, line) {
                Err(m) => Err(m),
                Ok(ty) => Ok((typed(ExprKindView::Unary(op, Box::new(x)), line, ty), st1)),
            },
        }
    }
}

pub open spec fn check_binary(
    env: EnvView,
    st: BodyView,
    e: ExprView,
    expected: Option<TypeView>,
) -> Result<(ExprView, BodyView), Seq<char>>
    decreases e, 8int,
{
    let line = e.line;
    let op = e.kind->Binary_0;
    let lhs = *e.kind->Binary_1;
    let rhs = *e.kind->Binary_2;
    if !(e.kind is Binary) {
        Err(internal(line))
    } else {
        match check_expr(env, st, lhs, left_expected(op, expected)) {
            Err(m) => Err(m),
            Ok((l, st1)) => match check_expr(env, st1, rhs, Some(right_expected(op, l.ty))) {
                Err(m) => Err(m),
                Ok((r, st2)) => match binary_type(env, op, l.ty, r.ty, line) {
                    Err(m) => Err(m),
                    Ok(ty) => Ok(
                        (typed(ExprKindView::Binary(op, Box::new(l), Box::new(r)), line, ty), st2),
                    ),
                },
            },
        }
    }
}

/// A condition, which must be a bool.
pub open spec fn check_cond(env: EnvView, st: BodyView, cond: ExprView) -> Result<
    (ExprView, BodyView),
    Seq<char>,
>
    decreases cond, 10int,
{
    match check_expr(env, st, cond, Some(TypeView::Bool)) {
        Err(m) => Err(m),
        Ok((c, st1)) => if c.ty is Bool {
            Ok((c, st1))
        } else {
            Err(ln(cond.line) + ": condition must be 'bool', found "@ + env.show(c.ty))
        },
    }
}

pub open spec fn check_if(env: EnvView, st: BodyView, e: ExprView, expected: Option<TypeView>) -> Result<
    (ExprView, BodyView),
    Seq<char>,
>
    decreases e, 8int,
{
    let line = e.line;
    let cond = *e.kind->If_cond;
    let then = *e.kind->If_then;
    let els = *e.kind->If_els;
    if !(e.kind is If) {
        Err(internal(line))
    } else {
    match check_cond(env, st, cond) {
        Err(m) => Err(m),
        Ok((c, st1)) => match check_expr(env, st1, then, expected) {
            Err(m) => Err(m),
            Ok((t, st2)) => match check_expr(env, st2, els, Some(t.ty)) {
                Err(m) => Err(m),
                Ok((f, st3)) => if t.ty != f.ty {
                    Err(
                        ln(line) + ": if-expression branches have different types: "@ + env.show(
                            t.ty,
                        ) + " and "@ + env.show(f.ty),
                    )
                } else if t.ty is Unit {
                    Err(ln(line) + ": if-expression branches must produce a value"@)
                } else {
                    Ok(
                        (
                            typed(
                                ExprKindView::If {
                                    cond: Box::new(c),
                                    then: Box::new(t),
                                    els: Box::new(f),
                                },
                                line,
                                t.ty,
                            ),
                            st3,
                        ),
                    )
                },
            },
        },
    }
    }
}

pub open spec fn check_index(env: EnvView, st: BodyView, e: ExprView) -> Result<
    (ExprView, BodyView),
    Seq<char>,
>
    decreases e, 8int,
{
    let line = e.line;
    let obj = *e.kind->Index_0;
    let idx = *e.kind->Index_1;
    if !(e.kind is Index) {
        Err(internal(line))
    } else {
    match check_expr(env, st, obj, None) {
        Err(m) => Err(m),
        Ok((o, st1)) => match check_expr(env, st1, idx, Some(int_t())) {
            Err(m) => Err(m),
            Ok((i, st2)) => if i.ty != int_t() {
                Err(ln(line) + ": array index must be int, found "@ + env.show(i.ty))
            } else {
                let kind = ExprKindView::Index(Box::new(o), Box::new(i));
                match o.ty {
                    TypeView::Array(elem) => Ok((typed(kind, line, *elem), st2)),
                    // Byte access into a string: `s[i]` is the i-th byte, u8.
                    TypeView::Str => Ok((typed(kind, line, TypeView::Int(IntKind::U8)), st2)),
                    other => Err(ln(line) + ": cannot index a value of type "@ + env.show(other)),
                }
            },
        },
    }
    }
}

/// Is the expression an integer literal, optionally negated?
pub open spec fn is_literal(e: ExprView) -> bool {
    e.kind is Int || (e.kind is Unary && e.kind->Unary_0 is Neg && e.kind->Unary_1.kind is Int)
}

/// `expr as Type`. A directly cast literal adopts the target (so `300 as u8`
/// is a range error); compound expressions are inferred on their own and
/// range-checked at run time.
pub open spec fn check_cast(
    env: EnvView,
    st: BodyView,
    sub: ExprView,
    te: TypeExprView,
    line: u32,
) -> Result<(ExprView, BodyView), Seq<char>>
    decreases sub, 10int,
{
    match resolve_type(env, te) {
        Err(m) => Err(m),
        Ok(target) => if !(target is Int || target is Float) {
            Err(ln(line) + ": cast target must be a numeric type, found "@ + env.show(target))
        } else {
            let want = if is_literal(sub) {
                Some(target)
            } else {
                None
            };
            match check_expr(env, st, sub, want) {
                Err(m) => Err(m),
                Ok((x, st1)) => if !(x.ty is Int || x.ty is Float) {
                    Err(ln(line) + ": cannot cast "@ + env.show(x.ty) + " to "@ + env.show(target))
                } else {
                    Ok((typed(ExprKindView::Cast(Box::new(x), te), line, target), st1))
                },
            }
        },
    }
}

pub open spec fn check_array(
    env: EnvView,
    st: BodyView,
    elems: Seq<ExprView>,
    line: u32,
    expected: Option<TypeView>,
) -> Result<(ExprView, BodyView), Seq<char>>
    decreases elems, elems.len() + 1,
{
    let want = match expected {
        Some(TypeView::Array(elem)) => Some(*elem),
        _ => None,
    };
    match check_elems(env, st, elems, 0, want, Seq::empty()) {
        Err(m) => Err(m),
        Ok((es, ty, st1)) => match ty {
            Some(t) => Ok(
                (typed(ExprKindView::ArrayLit(es), line, TypeView::Array(Box::new(t))), st1),
            ),
            None => Err(
                ln(line)
                    + ": cannot infer the type of an empty array; add a type annotation"@,
            ),
        },
    }
}

/// Array elements from index `i` on; the first one pins the element type
/// where the context does not.
pub open spec fn check_elems(
    env: EnvView,
    st: BodyView,
    elems: Seq<ExprView>,
    i: nat,
    want: Option<TypeView>,
    acc: Seq<ExprView>,
) -> Result<(Seq<ExprView>, Option<TypeView>, BodyView), Seq<char>>
    decreases elems, elems.len() - i,
{
    if i >= elems.len() {
        Ok((acc, want, st))
    } else {
        match check_expr(env, st, elems[i as int], want) {
            Err(m) => Err(m),
            Ok((x, st1)) => match want {
                None => check_elems(env, st1, elems, i + 1, Some(x.ty), acc.push(x)),
                Some(t) => match require_assignable(env, t, x.ty, elems[i as int].line) {
                    Err(m) => Err(m),
                    Ok(_) => check_elems(env, st1, elems, i + 1, want, acc.push(x)),
                },
            },
        }
    }
}

/// Match an already checked value against its declared (possibly generic)
/// type, contributing type-argument bindings.
#[verifier::opaque]
pub open spec fn match_value(
    env: EnvView,
    decl: TypeView,
    solved: Seq<Option<TypeView>>,
    value: ExprView,
) -> Result<Seq<Option<TypeView>>, Seq<char>> {
    let want = subst_partial(decl, solved);
    if !want.generic() {
        match require_assignable(env, want, value.ty, value.line) {
            Err(m) => Err(m),
            Ok(_) => Ok(solved),
        }
    } else {
        let (ok, s) = unify(decl, value.ty, solved);
        if ok {
            Ok(s)
        } else {
            Err(mismatch(env, value.line, subst_partial(decl, s), value.ty))
        }
    }
}

/// Check one value against its declared (possibly generic) type: against the
/// type itself once it is solved, and otherwise on its own.
pub open spec fn check_against(
    env: EnvView,
    st: BodyView,
    decl: TypeView,
    solved: Seq<Option<TypeView>>,
    value: ExprView,
) -> Result<(ExprView, Seq<Option<TypeView>>, BodyView), Seq<char>>
    decreases value, 10int,
{
    let want = subst_partial(decl, solved);
    let expected = if want.generic() {
        None
    } else {
        Some(want)
    };
    match check_expr(env, st, value, expected) {
        Err(m) => Err(m),
        Ok((x, st1)) => match match_value(env, decl, solved, x) {
            Err(m) => Err(m),
            Ok(s) => Ok((x, s, st1)),
        },
    }
}

/// Field values of a literal from index `i` on, against the declared fields;
/// `what` and `owner` name the literal in diagnostics.
pub open spec fn check_inits(
    env: EnvView,
    st: BodyView,
    decl: Seq<(Seq<char>, TypeView)>,
    fields: Seq<(Seq<char>, ExprView, u32)>,
    what: Seq<char>,
    owner: Seq<char>,
    i: nat,
    seen: Seq<bool>,
    solved: Seq<Option<TypeView>>,
    acc: Seq<(Seq<char>, ExprView, u32)>,
) -> Result<
    (Seq<(Seq<char>, ExprView, u32)>, Seq<bool>, Seq<Option<TypeView>>, BodyView),
    Seq<char>,
>
    decreases fields, fields.len() - i,
{
    if i >= fields.len() {
        Ok((acc, seen, solved, st))
    } else {
        let fname = fields[i as int].0;
        let value = fields[i as int].1;
        match position(field_names(decl), fname) {
            None => Err(
                ln(value.line) + what + owner + "' has no field '"@ + fname + "'"@,
            ),
            Some(j) => if seen[j as int] {
                Err(ln(value.line) + ": duplicate field '"@ + fname + "'"@)
            } else {
                match check_against(env, st, decl[j as int].1, solved, value) {
                    Err(m) => Err(m),
                    Ok((x, s, st1)) => check_inits(
                        env,
                        st1,
                        decl,
                        fields,
                        what,
                        owner,
                        i + 1,
                        seen.update(j as int, true),
                        s,
                        acc.push((fname, x, j as u32)),
                    ),
                }
            },
        }
    }
}

/// The bindings that an expected struct type seeds a literal with.
#[verifier::opaque]
pub open spec fn struct_seed(expected: Option<TypeView>, sid: nat, n: nat) -> Seq<
    Option<TypeView>,
> {
    match expected {
        Some(TypeView::Struct(id, targs)) => if id == sid as u32 && targs.len() == n {
            all_solved(targs)
        } else {
            unsolved(n)
        },
        _ => unsolved(n),
    }
}

/// The bindings that an expected enum type seeds a construction with.
#[verifier::opaque]
pub open spec fn enum_seed(expected: Option<TypeView>, eid: nat, n: nat) -> Seq<Option<TypeView>> {
    match expected {
        Some(TypeView::Enum(id, targs)) => if id == eid as u32 && targs.len() == n {
            all_solved(targs)
        } else {
            unsolved(n)
        },
        _ => unsolved(n),
    }
}

pub open spec fn check_struct_lit(
    env: EnvView,
    st: BodyView,
    name: Seq<char>,
    fields: Seq<(Seq<char>, ExprView, u32)>,
    line: u32,
    expected: Option<TypeView>,
) -> Result<(ExprView, BodyView), Seq<char>>
    decreases fields, fields.len() + 1,
{
    match env.struct_id(name) {
        None => Err(ln(line) + ": unknown struct '"@ + name + "'"@),
        Some(sid) => {
            let info = env.structs[sid as int];
            match check_inits(
                env,
                st,
                info.fields,
                fields,
                ": struct '"@,
                name,
                0,
                none_seen(info.fields.len()),
                struct_seed(expected, sid, info.type_params.len()),
                Seq::empty(),
            ) {
                Err(m) => Err(m),
                Ok((fs, seen, solved, st1)) => match first_false(seen, 0) {
                    Some(i) => Err(
                        ln(line) + ": missing field '"@ + info.fields[i as int].0
                            + "' in struct literal '"@ + name + "'"@,
                    ),
                    None => match first_unsolved(solved, 0) {
                        Some(i) => Err(
                            ln(line) + ": cannot infer type parameter '"@
                                + info.type_params[i as int] + "' of struct '"@ + name
                                + "'; annotate the target type"@,
                        ),
                        None => Ok(
                            (
                                typed(
                                    ExprKindView::StructLit {
                                        name,
                                        fields: fs,
                                        struct_id: sid as u32,
                                    },
                                    line,
                                    TypeView::Struct(sid as u32, solution(solved)),
                                ),
                                st1,
                            ),
                        ),
                    },
                },
            }
        },
    }
}

/// A construction whose shape differs from the variant's declaration.
#[verifier::opaque]
pub open spec fn shape_text(
    payload: VariantPayloadView,
    enum_name: Seq<char>,
    variant: Seq<char>,
    line: u32,
) -> Seq<char> {
    match payload {
        VariantPayloadView::Bare => ln(line) + ": variant '"@ + variant + "' is bare; write '"@
            + enum_name + "."@ + variant + "' without arguments"@,
        VariantPayloadView::Single(_) => ln(line) + ": variant '"@ + variant
            + "' wraps a value; construct it as '"@ + enum_name + "."@ + variant + "(value)'"@,
        VariantPayloadView::Fields(_) => ln(line) + ": variant '"@ + variant
            + "' has named fields; construct it as '"@ + enum_name + "."@ + variant
            + " { field: value, ... }'"@,
    }
}

pub open spec fn no_variant(info: EnumInfoView, variant: Seq<char>, line: u32) -> Seq<char> {
    ln(line) + ": enum '"@ + info.name + "' has no variant '"@ + variant + "'"@
}

/// The construction of variant `tag` of enum `eid` from checked payload
/// values; every type argument must be solved.
#[verifier::opaque]
pub open spec fn make_variant(
    env: EnvView,
    eid: nat,
    enum_name: Seq<char>,
    tag: nat,
    args: VariantArgsView,
    solved: Seq<Option<TypeView>>,
    line: u32,
) -> Result<ExprView, Seq<char>> {
    match first_unsolved(solved, 0) {
        Some(i) => Err(
            ln(line) + ": cannot infer type parameter '"@ + env.enums[eid as int].type_params[i as int]
                + "' of enum '"@ + enum_name + "'; annotate the target type"@,
        ),
        None => Ok(
            typed(
                ExprKindView::VariantLit { args, enum_id: eid as u32, tag: tag as u32 },
                line,
                TypeView::Enum(eid as u32, solution(solved)),
            ),
        ),
    }
}

/// `Enum.Variant` without a payload. Type arguments come from the expected
/// type.
#[verifier::opaque]
pub open spec fn check_variant_bare(
    env: EnvView,
    eid: nat,
    enum_name: Seq<char>,
    variant: Seq<char>,
    line: u32,
    expected: Option<TypeView>,
) -> Result<ExprView, Seq<char>> {
    let info = env.enums[eid as int];
    match position(variant_names(info.variants), variant) {
        None => Err(no_variant(info, variant, line)),
        Some(tag) => match info.variants[tag as int].1 {
            VariantPayloadView::Bare => make_variant(
                env,
                eid,
                enum_name,
                tag,
                VariantArgsView::Bare,
                enum_seed(expected, eid, info.type_params.len()),
                line,
            ),
            p => Err(shape_text(p, enum_name, variant, line)),
        },
    }
}

/// `Enum.Variant(value)`. Type arguments are inferred from the value, seeded
/// from the expected type.
pub open spec fn check_variant_call(
    env: EnvView,
    st: BodyView,
    eid: nat,
    enum_name: Seq<char>,
    variant: Seq<char>,
    args: Seq<ExprView>,
    line: u32,
    expected: Option<TypeView>,
) -> Result<(ExprView, BodyView), Seq<char>>
    decreases args, args.len() + 1,
{
    let info = env.enums[eid as int];
    match position(variant_names(info.variants), variant) {
        None => Err(no_variant(info, variant, line)),
        Some(tag) => match info.variants[tag as int].1 {
            VariantPayloadView::Single(pty) => if args.len() != 1 {
                Err(
                    ln(line) + ": variant '"@ + variant + "' wraps exactly one value, got "@
                        + dec_text(args.len()),
                )
            } else {
                match check_against(
                    env,
                    st,
                    pty,
                    enum_seed(expected, eid, info.type_params.len()),
                    args[0],
                ) {
                    Err(m) => Err(m),
                    Ok((x, solved, st1)) => match make_variant(
                        env,
                        eid,
                        enum_name,
                        tag,
                        VariantArgsView::Single(Box::new(x)),
                        solved,
                        line,
                    ) {
                        Err(m) => Err(m),
                        Ok(v) => Ok((v, st1)),
                    },
                }
            },
            p => Err(shape_text(p, enum_name, variant, line)),
        },
    }
}

/// `Enum.Variant { field: value, ... }`. Type arguments are inferred from the
/// values, seeded from the expected type.
pub open spec fn check_variant_fields(
    env: EnvView,
    st: BodyView,
    eid: nat,
    enum_name: Seq<char>,
    variant: Seq<char>,
    fields: Seq<(Seq<char>, ExprView, u32)>,
    line: u32,
    expected: Option<TypeView>,
) -> Result<(ExprView, BodyView), Seq<char>>
    decreases fields, fields.len() + 1,
{
    let info = env.enums[eid as int];
    match position(variant_names(info.variants), variant) {
        None => Err(no_variant(info, variant, line)),
        Some(tag) => match info.variants[tag as int].1 {
            VariantPayloadView::Fields(decl) => match check_inits(
                env,
                st,
                decl,
                fields,
                ": variant '"@,
                variant,
                0,
                none_seen(decl.len()),
                enum_seed(expected, eid, info.type_params.len()),
                Seq::empty(),
            ) {
                Err(m) => Err(m),
                Ok((fs, seen, solved, st1)) => match first_false(seen, 0) {
                    Some(i) => Err(
                        ln(line) + ": missing field '"@ + decl[i as int].0
                            + "' in variant literal '"@ + enum_name + "."@ + variant + "'"@,
                    ),
                    None => match make_variant(
                        env,
                        eid,
                        enum_name,
                        tag,
                        VariantArgsView::Fields(fs),
                        solved,
                        line,
                    ) {
                        Err(m) => Err(m),
                        Ok(v) => Ok((v, st1)),
                    },
                },
            },
            p => Err(shape_text(p, enum_name, variant, line)),
        },
    }
}

/// `obj.name` in value position.
pub open spec fn check_field(
    env: EnvView,
    st: BodyView,
    obj: ExprView,
    name: Seq<char>,
    index: u32,
    line: u32,
    expected: Option<TypeView>,
) -> Result<(ExprView, BodyView), Seq<char>>
    decreases obj, 12int,
{
    let (target, st1) = names_type(env, st, obj);
    match target {
        Some(tname) => match env.enum_id(tname) {
            Some(eid) => if has_variant(env, eid, name) {
                match check_variant_bare(env, eid, tname, name, line, expected) {
                    Err(m) => Err(m),
                    Ok(x) => Ok((x, st1)),
                }
            } else {
                Err(type_member_error(env, tname, name, line))
            },
            None => Err(type_member_error(env, tname, name, line)),
        },
        None => match check_expr(env, st1, obj, None) {
            Err(m) => Err(m),
            Ok((o, st2)) => match member_value(env, o, name, index, line) {
                Err(m) => Err(m),
                Ok(x) => Ok((x, st2)),
            },
        },
    }
}

// -- Calls ------------------------------------------------------------------

pub open spec fn argc_text(line: u32, what: Seq<char>, want: nat, got: nat) -> Seq<char> {
    ln(line) + ": '"@ + what + "' expects "@ + dec_text(want) + " argument(s), got "@ + dec_text(
        got,
    )
}

/// The arguments from index `i` on, against the parameters at `off + i`.
pub open spec fn check_args_from(
    env: EnvView,
    st: BodyView,
    params: Seq<TypeView>,
    off: nat,
    args: Seq<ExprView>,
    i: nat,
    acc: Seq<ExprView>,
) -> Result<(Seq<ExprView>, BodyView), Seq<char>>
    decreases args, args.len() - i,
{
    if i >= args.len() {
        Ok((acc, st))
    } else {
        match check_expr(env, st, args[i as int], Some(params[(off + i) as int])) {
            Err(m) => Err(m),
            Ok((x, st1)) => match require_assignable(env, params[(off + i) as int], x.ty, x.line) {
                Err(m) => Err(m),
                Ok(_) => check_args_from(env, st1, params, off, args, i + 1, acc.push(x)),
            },
        }
    }
}

/// The arguments of a call against parameter types. A method receiver `recv`
/// stands first and is already checked.
pub open spec fn check_args(
    env: EnvView,
    st: BodyView,
    what: Seq<char>,
    params: Seq<TypeView>,
    recv: Option<ExprView>,
    args: Seq<ExprView>,
    line: u32,
) -> Result<(Seq<ExprView>, BodyView), Seq<char>>
    decreases args, args.len() + 1,
{
    match recv {
        None => if params.len() != args.len() {
            Err(argc_text(line, what, params.len(), args.len()))
        } else {
            check_args_from(env, st, params, 0, args, 0, Seq::empty())
        },
        Some(r) => if params.len() != args.len() + 1 {
            Err(argc_text(line, what, params.len(), args.len() + 1))
        } else {
            match require_assignable(env, params[0], r.ty, r.line) {
                Err(m) => Err(m),
                Ok(_) => check_args_from(env, st, params, 1, args, 0, seq![r]),
            }
        },
    }
}

/// The arguments of a generic call from index `i` on: each either checks
/// against the already solved parameter type or contributes new bindings.
pub open spec fn infer_args_from(
    env: EnvView,
    st: BodyView,
    params: Seq<TypeView>,
    off: nat,
    args: Seq<ExprView>,
    i: nat,
    solved: Seq<Option<TypeView>>,
    acc: Seq<ExprView>,
) -> Result<(Seq<ExprView>, Seq<Option<TypeView>>, BodyView), Seq<char>>
    decreases args, args.len() - i,
{
    if i >= args.len() {
        Ok((acc, solved, st))
    } else {
        match check_against(env, st, params[(off + i) as int], solved, args[i as int]) {
            Err(m) => Err(m),
            Ok((x, s, st1)) => infer_args_from(
                env,
                st1,
                params,
                off,
                args,
                i + 1,
                s,
                acc.push(x),
            ),
        }
    }
}

/// What an expected type says of a generic call's type arguments. An
/// unrelated expected type says nothing.
#[verifier::opaque]
pub open spec fn call_seed(ret: TypeView, expected: Option<TypeView>, n: nat) -> Seq<
    Option<TypeView>,
> {
    match expected {
        None => unsolved(n),
        Some(exp) => {
            let (ok, s) = unify(ret, exp, unsolved(n));
            if ok {
                s
            } else {
                unsolved(n)
            }
        },
    }
}

/// Check a call to a generic function, inferring its type arguments. The
/// expected return type is unified first, so parameters that only occur in
/// the return type can still be solved; arguments follow left to right.
pub open spec fn infer_call(
    env: EnvView,
    st: BodyView,
    what: Seq<char>,
    sig: FuncSigView,
    recv: Option<ExprView>,
    args: Seq<ExprView>,
    expected: Option<TypeView>,
    line: u32,
) -> Result<(Seq<ExprView>, Seq<TypeView>, BodyView), Seq<char>>
    decreases args, args.len() + 1,
{
    let seed = call_seed(sig.ret, expected, sig.type_params.len());
    match (match recv {
        None => infer_args_from(env, st, sig.params, 0, args, 0, seed, Seq::empty()),
        Some(r) => match match_value(env, sig.params[0], seed, r) {
            Err(m) => Err(m),
            Ok(s) => infer_args_from(env, st, sig.params, 1, args, 0, s, seq![r]),
        },
    }) {
        Err(m) => Err(m),
        Ok((xs, solved, st1)) => match first_unsolved(solved, 0) {
            Some(i) => Err(
                ln(line) + ": cannot infer type parameter '"@ + sig.type_params[i as int]
                    + "' of '"@ + what + "'; annotate the surrounding context"@,
            ),
            None => Ok((xs, solution(solved), st1)),
        },
    }
}

/// Finish a call to the top-level function `fid`: check the argument list
/// against its signature, inferring type arguments when it is generic. Gives
/// the callee's concrete function type, the type arguments, the result type
/// and the full argument list. A receiver is hidden from arity diagnostics.
pub open spec fn check_call_sig(
    env: EnvView,
    st: BodyView,
    what: Seq<char>,
    fid: u32,
    recv: Option<ExprView>,
    args: Seq<ExprView>,
    expected: Option<TypeView>,
    line: u32,
) -> Result<(TypeView, Seq<TypeView>, TypeView, Seq<ExprView>, BodyView), Seq<char>>
    decreases args, args.len() + 2,
{
    if fid >= env.funcs.len() {
        Err(internal(line))
    } else {
        let sig = env.funcs[fid as int];
        let skip: nat = if recv is Some {
            1
        } else {
            0
        };
        if sig.params.len() != args.len() + skip {
            Err(
                argc_text(
                    line,
                    what,
                    if sig.params.len() >= skip {
                        (sig.params.len() - skip) as nat
                    } else {
                        0
                    },
                    args.len(),
                ),
            )
        } else if sig.type_params.len() == 0 {
            match check_args(env, st, what, sig.params, recv, args, line) {
                Err(m) => Err(m),
                Ok((xs, st1)) => Ok(
                    (
                        TypeView::Fn(sig.params, Box::new(sig.ret)),
                        Seq::empty(),
                        sig.ret,
                        xs,
                        st1,
                    ),
                ),
            }
        } else {
            match infer_call(env, st, what, sig, recv, args, expected, line) {
                Err(m) => Err(m),
                Ok((xs, targs, st1)) => Ok(
                    (
                        TypeView::Fn(
                            TypeView::subst_all(sig.params, targs),
                            Box::new(sig.ret.subst(targs)),
                        ),
                        targs,
                        sig.ret.subst(targs),
                        xs,
                        st1,
                    ),
                ),
            }
        }
    }
}

/// A call whose callee names function `fid` directly.
pub open spec fn direct_call(
    env: EnvView,
    st: BodyView,
    what: Seq<char>,
    fid: u32,
    callee: ExprKindView,
    callee_line: u32,
    recv: Option<ExprView>,
    args: Seq<ExprView>,
    expected: Option<TypeView>,
    line: u32,
) -> Result<(ExprView, BodyView), Seq<char>>
    decreases args, args.len() + 3,
{
    match check_call_sig(env, st, what, fid, recv, args, expected, line) {
        Err(m) => Err(m),
        Ok((fty, targs, rty, xs, st1)) => Ok(
            (
                typed(
                    ExprKindView::Call {
                        callee: Box::new(typed(callee, callee_line, fty)),
                        args: xs,
                        direct: Some(fid),
                        inst: targs,
                    },
                    line,
                    rty,
                ),
                st1,
            ),
        ),
    }
}

/// A call through an already checked function value.
pub open spec fn indirect_call(
    env: EnvView,
    st: BodyView,
    callee: ExprView,
    args: Seq<ExprView>,
    direct: Option<u32>,
    inst: Seq<TypeView>,
    line: u32,
) -> Result<(ExprView, BodyView), Seq<char>>
    decreases args, args.len() + 2,
{
    match callee.ty {
        TypeView::Fn(params, ret) => match check_args(
            env,
            st,
            "function value"@,
            params,
            None,
            args,
            line,
        ) {
            Err(m) => Err(m),
            Ok((xs, st1)) => Ok(
                (
                    typed(
                        ExprKindView::Call { callee: Box::new(callee), args: xs, direct, inst },
                        line,
                        *ret,
                    ),
                    st1,
                ),
            ),
        },
        other => Err(ln(line) + ": cannot call a value of type "@ + env.show(other)),
    }
}

/// A call to one of the free-function builtins.
pub open spec fn check_builtin(
    env: EnvView,
    st: BodyView,
    b: Builtin,
    args: Seq<ExprView>,
    line: u32,
) -> Result<(ExprView, BodyView), Seq<char>>
    decreases args, 10int,
{
    let want: nat = if b is GcCollect {
        0
    } else {
        1
    };
    if args.len() != want {
        Err(
            ln(line) + ": builtin expects "@ + dec_text(want) + " argument(s), got "@ + dec_text(
                args.len(),
            ),
        )
    } else if b is GcCollect {
        Ok((typed(ExprKindView::Builtin(b, Seq::empty()), line, TypeView::Unit), st))
    } else {
        let expected = if b is Assert {
            Some(TypeView::Bool)
        } else {
            None
        };
        match check_expr(env, st, args[0], expected) {
            Err(m) => Err(m),
            Ok((x, st1)) => if b is Assert && !(x.ty is Bool) {
                Err(mismatch(env, line, TypeView::Bool, x.ty))
            } else if !(b is Assert) && !(x.ty is Int || x.ty is Float || x.ty is Bool
                || x.ty is Str) {
                Err(ln(line) + ": cannot print a value of type "@ + env.show(x.ty))
            } else {
                Ok((typed(ExprKindView::Builtin(b, seq![x]), line, TypeView::Unit), st1))
            },
        }
    }
}

/// A builtin method call on an already checked receiver.
pub open spec fn check_builtin_method(
    env: EnvView,
    st: BodyView,
    b: Builtin,
    recv: ExprView,
    args: Seq<ExprView>,
    line: u32,
) -> Result<(ExprView, BodyView), Seq<char>>
    decreases args, 10int,
{
    let want: nat = if b is Push {
        1
    } else {
        0
    };
    if args.len() != want {
        Err(
            ln(line) + ": method '"@ + method_surface(b) + "' expects "@ + dec_text(want)
                + " argument(s), got "@ + dec_text(args.len()),
        )
    } else if b is Push {
        match recv.ty {
            TypeView::Array(elem) => match check_expr(env, st, args[0], Some(*elem)) {
                Err(m) => Err(m),
                Ok((x, st1)) => match require_assignable(env, *elem, x.ty, line) {
                    Err(m) => Err(m),
                    Ok(_) => Ok(
                        (typed(ExprKindView::Builtin(b, seq![recv, x]), line, TypeView::Unit), st1),
                    ),
                },
            },
            _ => Err(internal(line)),
        }
    } else {
        match builtin_result(env, b, recv.ty, line) {
            Err(m) => Err(m),
            Ok(ty) => Ok((typed(ExprKindView::Builtin(b, seq![recv]), line, ty), st)),
        }
    }
}

/// `Type.name(args)`: a variant construction or an associated function.
pub open spec fn check_type_call(
    env: EnvView,
    st: BodyView,
    callee: ExprView,
    tname: Seq<char>,
    mname: Seq<char>,
    args: Seq<ExprView>,
    line: u32,
    expected: Option<TypeView>,
) -> Result<(ExprView, BodyView), Seq<char>>
    decreases args, args.len() + 12,
{
    // Variants take priority (and cannot collide with methods).
    if env.enum_id(tname) is Some && has_variant(env, env.enum_id(tname)->0, mname) {
        check_variant_call(
            env,
            st,
            env.enum_id(tname)->0,
            tname,
            mname,
            args,
            line,
            expected,
        )
    } else {
        let key = key_of(env, tname);
        match env.method(key, mname) {
            None => if key is Enum {
                Err(
                    ln(line) + ": enum '"@ + tname
                        + "' has no variant or associated function '"@ + mname + "'"@,
                )
            } else {
                Err(
                    ln(line) + ": struct '"@ + tname + "' has no associated function '"@ + mname
                        + "'"@,
                )
            },
            Some((fid, has_self)) => if has_self {
                Err(
                    ln(line) + ": '"@ + mname + "' is a method; call it as 'value."@ + mname
                        + "(...)'"@,
                )
            } else {
                direct_call(
                    env,
                    st,
                    tname + "."@ + mname,
                    fid,
                    callee.kind,
                    callee.line,
                    None,
                    args,
                    expected,
                    line,
                )
            },
        }
    }
}

/// A call to a bare name: a function value, a function, or a builtin.
pub open spec fn check_name_call(
    env: EnvView,
    st: BodyView,
    callee: ExprView,
    name: Seq<char>,
    args: Seq<ExprView>,
    direct: Option<u32>,
    inst: Seq<TypeView>,
    line: u32,
    expected: Option<TypeView>,
) -> Result<(ExprView, BodyView), Seq<char>>
    decreases args, args.len() + 11,
{
    let (st1, r) = resolve_var(st, name);
    match r {
        Some((res, ty)) => indirect_call(
            env,
            st1,
            typed(ExprKindView::Var { name, res: Some(res) }, callee.line, ty),
            args,
            direct,
            inst,
            line,
        ),
        None => match env.func_id(name) {
            Some(fid) => direct_call(
                env,
                st1,
                name,
                fid as u32,
                callee.kind,
                callee.line,
                None,
                args,
                expected,
                line,
            ),
            None => match builtin_named(name) {
                Some(b) => check_builtin(env, st1, b, args, line),
                None => match method_hint(name) {
                    Some(hint) => Err(
                        ln(line) + ": '"@ + name + "' is now a method: write "@ + hint,
                    ),
                    None => Err(ln(line) + ": unknown function '"@ + name + "'"@),
                },
            },
        },
    }
}

/// `obj.name(args)` with the object already checked: a method call, a builtin
/// method, or a call through a function-valued field.
pub open spec fn check_member_call(
    env: EnvView,
    st: BodyView,
    callee: ExprView,
    obj: ExprView,
    mname: Seq<char>,
    index: u32,
    args: Seq<ExprView>,
    direct: Option<u32>,
    inst: Seq<TypeView>,
    line: u32,
    expected: Option<TypeView>,
) -> Result<(ExprView, BodyView), Seq<char>>
    decreases args, args.len() + 11,
{
    match env.lookup_method(obj.ty, mname) {
        Some((fid, has_self)) => if !has_self {
            Err(
                ln(line) + ": '"@ + mname + "' is an associated function; call it as '"@
                    + env.base_name(obj.ty) + "."@ + mname + "(...)'"@,
            )
        } else {
            // The callee expression is dead for a direct call; a
            // resolution-free placeholder stays.
            direct_call(
                env,
                st,
                mname,
                fid,
                ExprKindView::Var { name: mname, res: None },
                callee.line,
                Some(obj),
                args,
                expected,
                line,
            )
        },
        None => match builtin_method(obj.ty, mname, env.option_enum) {
            Some(b) => check_builtin_method(env, st, b, obj, args, line),
            None => match field_after_obj(env, obj, mname, index, callee.line) {
                Err(m) => Err(m),
                Ok(f) => indirect_call(env, st, f, args, direct, inst, line),
            },
        },
    }
}

pub open spec fn check_call(
    env: EnvView,
    st: BodyView,
    e: ExprView,
    expected: Option<TypeView>,
) -> Result<(ExprView, BodyView), Seq<char>>
    decreases e, 8int,
{
    let line = e.line;
    let callee = *e.kind->Call_callee;
    let args = e.kind->Call_args;
    let direct = e.kind->Call_direct;
    let inst = e.kind->Call_inst;
    if !(e.kind is Call) {
        Err(internal(line))
    } else {
    match callee.kind {
        ExprKindView::Field { obj, name, index } => {
            let (target, st1) = names_type(env, st, *obj);
            match target {
                Some(tname) => check_type_call(
                    env,
                    st1,
                    callee,
                    tname,
                    name,
                    args,
                    line,
                    expected,
                ),
                None => match check_expr(env, st1, *obj, None) {
                    Err(m) => Err(m),
                    Ok((o, st2)) => check_member_call(
                        env,
                        st2,
                        callee,
                        o,
                        name,
                        index,
                        args,
                        direct,
                        inst,
                        line,
                        expected,
                    ),
                },
            }
        },
        ExprKindView::Var { name, .. } => check_name_call(
            env,
            st,
            callee,
            name,
            args,
            direct,
            inst,
            line,
            expected,
        ),
        _ => match check_expr(env, st, callee, None) {
            Err(m) => Err(m),
            Ok((f, st1)) => indirect_call(env, st1, f, args, direct, inst, line),
        },
    }
    }
}

// -- Match and lambda -------------------------------------------------------

/// The arms of a match expression from index `i` on. Arms must agree on one
/// result type; the first arm sees the outer expectation and pins it for the
/// rest.
pub open spec fn check_expr_arms(
    env: EnvView,
    st: BodyView,
    arms: Seq<(PatternView, ExprView)>,
    pats: Seq<PatternView>,
    i: nat,
    expected: Option<TypeView>,
    rty: Option<TypeView>,
    acc: Seq<(PatternView, ExprView)>,
) -> Result<(Seq<(PatternView, ExprView)>, Option<TypeView>, BodyView), Seq<char>>
    decreases arms, arms.len() - i,
{
    if i >= arms.len() {
        Ok((acc, rty, st))
    } else {
        let mark = st.cur.vars.len();
        let body = arms[i as int].1;
        match declare_binders(st, pats[i as int]) {
            Err(m) => Err(m),
            Ok((p, st1)) => {
                let want = if rty is Some {
                    rty
                } else {
                    expected
                };
                match check_expr(env, st1, body, want) {
                    Err(m) => Err(m),
                    Ok((x, st2)) => if rty is Some && rty != Some(x.ty) {
                        Err(
                            ln(body.line) + ": match arms have different types: "@ + env.show(
                                rty->0,
                            ) + " and "@ + env.show(x.ty),
                        )
                    } else {
                        check_expr_arms(
                            env,
                            leave_scope(st2, mark),
                            arms,
                            pats,
                            i + 1,
                            expected,
                            Some(x.ty),
                            acc.push((p, x)),
                        )
                    },
                }
            },
        }
    }
}

pub open spec fn check_match(
    env: EnvView,
    st: BodyView,
    e: ExprView,
    expected: Option<TypeView>,
) -> Result<(ExprView, BodyView), Seq<char>>
    decreases e, 8int,
{
    let line = e.line;
    let scrutinee = *e.kind->Match_scrutinee;
    let arms = e.kind->Match_arms;
    if !(e.kind is Match) {
        Err(internal(line))
    } else {
    match check_expr(env, st, scrutinee, None) {
        Err(m) => Err(m),
        Ok((s, st1)) => match check_patterns(env, s.ty, expr_patterns(arms), line) {
            Err(m) => Err(m),
            Ok(pats) => match check_expr_arms(
                env,
                st1,
                arms,
                pats,
                0,
                expected,
                None,
                Seq::empty(),
            ) {
                Err(m) => Err(m),
                Ok((xs, rty, st2)) => match rty {
                    // Exhaustiveness guarantees at least one arm.
                    None => Err(internal(line)),
                    Some(ty) => if ty is Unit {
                        Err(ln(line) + ": match arms must produce a value"@)
                    } else {
                        Ok(
                            (
                                typed(
                                    ExprKindView::Match { scrutinee: Box::new(s), arms: xs },
                                    line,
                                    ty,
                                ),
                                st2,
                            ),
                        )
                    },
                },
            },
        },
    }
    }
}

/// The context of a function or lambda before its parameters.
pub open spec fn fresh_ctx(captures: Option<Seq<CaptureView>>, ret: TypeView) -> CtxView {
    CtxView { vars: Seq::empty(), locals: Seq::empty(), captures, ret }
}

/// The state inside a lambda: a new innermost context, outside of any loop.
/// The lambda's id is its place in the tables.
#[verifier::opaque]
pub open spec fn enter_lambda(st: BodyView, params: Seq<TypeView>, ret: TypeView) -> BodyView {
    BodyView {
        cur: fresh_ctx(Some(Seq::empty()), ret),
        outer: st.outer.push(st.cur),
        in_loop: false,
        lambda_locals: st.lambda_locals.push(Seq::empty()),
        lambda_sigs: st.lambda_sigs.push((params, ret)),
    }
}

/// The state after a lambda whose place in the tables is `id`.
#[verifier::opaque]
pub open spec fn exit_lambda(st: BodyView, id: nat, in_loop: bool) -> BodyView {
    BodyView {
        cur: st.outer.last(),
        outer: st.outer.drop_last(),
        in_loop,
        lambda_locals: st.lambda_locals.update(id as int, st.cur.locals),
        lambda_sigs: st.lambda_sigs,
    }
}

/// The captures of a lambda context.
pub open spec fn captures_of(c: CtxView) -> Seq<CaptureView> {
    match c.captures {
        Some(cs) => cs,
        None => Seq::empty(),
    }
}

pub open spec fn check_lambda(env: EnvView, st: BodyView, lam: LambdaDefView, line: u32) -> Result<
    (ExprView, BodyView),
    Seq<char>,
>
    decreases lam, 10int,
{
    match resolve_params(env, lam.params, 0, Seq::empty()) {
        Err(m) => Err(m),
        Ok(params) => match resolve_ret(env, lam.ret) {
            Err(m) => Err(m),
            Ok(ret) => {
                let id = st.lambda_sigs.len();
                match declare_params(
                    enter_lambda(st, params, ret),
                    lam.params,
                    params,
                    lam.line,
                    0,
                ) {
                    Err(m) => Err(m),
                    Ok(st1) => match check_block(env, st1, lam.body) {
                        Err(m) => Err(m),
                        Ok((body, st2)) => if !(ret is Unit) && !always_returns(body) {
                            Err(ln(lam.line) + ": lambda must return a value on all paths"@)
                        } else if captures_of(st2.cur).len() > 63 {
                            Err(ln(lam.line) + ": lambda captures too many variables"@)
                        } else {
                            Ok(
                                (
                                    typed(
                                        ExprKindView::Lambda(
                                            Box::new(
                                                LambdaDefView {
                                                    params: lam.params,
                                                    ret: lam.ret,
                                                    body,
                                                    line: lam.line,
                                                    id: id as u32,
                                                    num_locals: st2.cur.locals.len() as u32,
                                                    captures: captures_of(st2.cur),
                                                },
                                            ),
                                        ),
                                        line,
                                        TypeView::Fn(params, Box::new(ret)),
                                    ),
                                    exit_lambda(st2, id, st.in_loop),
                                ),
                            )
                        },
                    },
                }
            },
        },
    }
}

// -- Statements -------------------------------------------------------------

/// A block, in a scope of its own.
pub open spec fn check_block(env: EnvView, st: BodyView, b: BlockView) -> Result<
    (BlockView, BodyView),
    Seq<char>,
>
    decreases b, 1int,
{
    match check_stmts(env, st, b.stmts, 0, Seq::empty()) {
        Err(m) => Err(m),
        Ok((stmts, st1)) => Ok((BlockView { stmts }, leave_scope(st1, st.cur.vars.len()))),
    }
}

pub open spec fn check_stmts(
    env: EnvView,
    st: BodyView,
    ss: Seq<StmtView>,
    i: nat,
    acc: Seq<StmtView>,
) -> Result<(Seq<StmtView>, BodyView), Seq<char>>
    decreases ss, ss.len() - i,
{
    if i >= ss.len() {
        Ok((acc, st))
    } else {
        match check_stmt(env, st, ss[i as int]) {
            Err(m) => Err(m),
            Ok((s, st1)) => check_stmts(env, st1, ss, i + 1, acc.push(s)),
        }
    }
}

/// The same state inside a loop, or as before one.
pub open spec fn with_loop(st: BodyView, in_loop: bool) -> BodyView {
    BodyView { in_loop, ..st }
}

pub open spec fn check_let(
    env: EnvView,
    st: BodyView,
    name: Seq<char>,
    ann: Option<TypeExprView>,
    init: ExprView,
    line: u32,
) -> Result<(StmtView, BodyView), Seq<char>>
    decreases init, 10int,
{
    match (match ann {
        None => Ok(None::<TypeView>),
        Some(te) => match resolve_type(env, te) {
            Err(m) => Err(m),
            Ok(t) => Ok(Some(t)),
        },
    }) {
        Err(m) => Err(m),
        Ok(want) => match check_expr(env, st, init, want) {
            Err(m) => Err(m),
            Ok((x, st1)) => match (match want {
                Some(t) => match require_assignable(env, t, x.ty, line) {
                    Err(m) => Err(m),
                    Ok(_) => Ok(t),
                },
                None => if x.ty is Unit {
                    Err(ln(line) + ": initializer has no value"@)
                } else {
                    Ok(x.ty)
                },
            }) {
                Err(m) => Err(m),
                Ok(ty) => match declare(st1, name, ty, line) {
                    Err(m) => Err(m),
                    Ok((local, st2)) => Ok(
                        (StmtView::Let { name, ann, init: x, line, local, ty }, st2),
                    ),
                },
            },
        },
    }
}

/// May the checked expression be assigned to?
#[verifier::opaque]
pub open spec fn check_target(t: ExprView, line: u32) -> Result<(), Seq<char>> {
    match t.kind {
        ExprKindView::Var { name, res } => match res {
            Some(VarRes::Local(_)) => Ok(()),
            Some(VarRes::Captured(_)) => Err(
                ln(line) + ": cannot assign to '"@ + name + "': closures capture by value"@,
            ),
            _ => Err(ln(line) + ": cannot assign to function '"@ + name + "'"@),
        },
        ExprKindView::Index(obj, _) => if obj.ty is Str {
            Err(ln(line) + ": strings are immutable; cannot assign to an element"@)
        } else {
            Ok(())
        },
        ExprKindView::Field { .. } => Ok(()),
        _ => Err(ln(line) + ": invalid assignment target"@),
    }
}

pub open spec fn check_assign(env: EnvView, st: BodyView, s: StmtView) -> Result<
    (StmtView, BodyView),
    Seq<char>,
>
    decreases s, 10int,
{
    let target = s->Assign_target;
    let op = s->Assign_op;
    let value = s->Assign_value;
    let line = s->Assign_line;
    if !(s is Assign) {
        Err(internal(0))
    } else {
    match check_expr(env, st, target, None) {
        Err(m) => Err(m),
        Ok((t, st1)) => match check_target(t, line) {
            Err(m) => Err(m),
            Ok(_) => match check_expr(env, st1, value, Some(t.ty)) {
                Err(m) => Err(m),
                Ok((v, st2)) => match require_assignable(env, t.ty, v.ty, line) {
                    Err(m) => Err(m),
                    // Compound assignment follows the binary operator's rules
                    // on the target's type.
                    Ok(_) => match (match op {
                        None => Ok(()),
                        Some(op) => check_arith_op(env, op, t.ty, line),
                    }) {
                        Err(m) => Err(m),
                        Ok(_) => Ok((StmtView::Assign { target: t, op, value: v, line }, st2)),
                    },
                },
            },
        },
    }
    }
}

pub open spec fn check_return(env: EnvView, st: BodyView, value: Option<ExprView>, line: u32) -> Result<
    (StmtView, BodyView),
    Seq<char>,
>
    decreases value, 10int,
{
    let ret = st.cur.ret;
    match value {
        None => if !(ret is Unit) {
            Err(ln(line) + ": this function must return a value of type "@ + env.show(ret))
        } else {
            Ok((StmtView::Return { value: None, line }, st))
        },
        Some(v) => if ret is Unit {
            Err(ln(line) + ": this function does not return a value"@)
        } else {
            match check_expr(env, st, v, Some(ret)) {
                Err(m) => Err(m),
                Ok((x, st1)) => match require_assignable(env, ret, x.ty, line) {
                    Err(m) => Err(m),
                    Ok(_) => Ok((StmtView::Return { value: Some(x), line }, st1)),
                },
            }
        },
    }
}

/// An optional statement of a `for` header.
pub open spec fn check_opt_stmt(env: EnvView, st: BodyView, s: Option<Box<StmtView>>) -> Result<
    (Option<Box<StmtView>>, BodyView),
    Seq<char>,
>
    decreases s, 10int,
{
    match s {
        None => Ok((None, st)),
        Some(s) => match check_stmt(env, st, *s) {
            Err(m) => Err(m),
            Ok((x, st1)) => Ok((Some(Box::new(x)), st1)),
        },
    }
}

pub open spec fn check_opt_cond(env: EnvView, st: BodyView, c: Option<ExprView>) -> Result<
    (Option<ExprView>, BodyView),
    Seq<char>,
>
    decreases c, 10int,
{
    match c {
        None => Ok((None, st)),
        Some(c) => match check_cond(env, st, c) {
            Err(m) => Err(m),
            Ok((x, st1)) => Ok((Some(x), st1)),
        },
    }
}

pub open spec fn check_while(env: EnvView, st: BodyView, s: StmtView) -> Result<
    (StmtView, BodyView),
    Seq<char>,
>
    decreases s, 10int,
{
    if !(s is While) {
        Err(internal(0))
    } else {
        match check_cond(env, st, s->While_cond) {
            Err(m) => Err(m),
            Ok((c, st1)) => match check_block(env, with_loop(st1, true), s->While_body) {
                Err(m) => Err(m),
                Ok((b, st2)) => Ok(
                    (StmtView::While { cond: c, body: b }, with_loop(st2, st.in_loop)),
                ),
            },
        }
    }
}

/// A `for` loop, whose header has a scope of its own.
pub open spec fn check_for(env: EnvView, st: BodyView, s: StmtView) -> Result<
    (StmtView, BodyView),
    Seq<char>,
>
    decreases s, 10int,
{
    let init = s->For_init;
    let cond = s->For_cond;
    let step = s->For_step;
    let body = s->For_body;
    if !(s is For) {
        Err(internal(0))
    } else {
    match check_opt_stmt(env, st, init) {
        Err(m) => Err(m),
        Ok((i, st1)) => match check_opt_cond(env, st1, cond) {
            Err(m) => Err(m),
            Ok((c, st2)) => match check_opt_stmt(env, st2, step) {
                Err(m) => Err(m),
                Ok((s, st3)) => match check_block(env, with_loop(st3, true), body) {
                    Err(m) => Err(m),
                    Ok((b, st4)) => Ok(
                        (
                            StmtView::For { init: i, cond: c, step: s, body: b },
                            leave_scope(with_loop(st4, st.in_loop), st.cur.vars.len()),
                        ),
                    ),
                },
            },
        },
    }
    }
}

/// The arms of a match statement from index `i` on. Binders scope to exactly
/// their arm.
pub open spec fn check_stmt_arms(
    env: EnvView,
    st: BodyView,
    arms: Seq<(PatternView, BlockView)>,
    pats: Seq<PatternView>,
    i: nat,
    acc: Seq<(PatternView, BlockView)>,
) -> Result<(Seq<(PatternView, BlockView)>, BodyView), Seq<char>>
    decreases arms, arms.len() - i,
{
    if i >= arms.len() {
        Ok((acc, st))
    } else {
        let mark = st.cur.vars.len();
        match declare_binders(st, pats[i as int]) {
            Err(m) => Err(m),
            Ok((p, st1)) => match check_block(env, st1, arms[i as int].1) {
                Err(m) => Err(m),
                Ok((b, st2)) => check_stmt_arms(
                    env,
                    leave_scope(st2, mark),
                    arms,
                    pats,
                    i + 1,
                    acc.push((p, b)),
                ),
            },
        }
    }
}

pub open spec fn check_stmt_match(env: EnvView, st: BodyView, s: StmtView) -> Result<
    (StmtView, BodyView),
    Seq<char>,
>
    decreases s, 10int,
{
    let scrutinee = s->Match_scrutinee;
    let arms = s->Match_arms;
    let line = s->Match_line;
    if !(s is Match) {
        Err(internal(0))
    } else {
    match check_expr(env, st, scrutinee, None) {
        Err(m) => Err(m),
        Ok((s, st1)) => match check_patterns(env, s.ty, stmt_patterns(arms), line) {
            Err(m) => Err(m),
            Ok(pats) => match check_stmt_arms(env, st1, arms, pats, 0, Seq::empty()) {
                Err(m) => Err(m),
                Ok((xs, st2)) => Ok((StmtView::Match { scrutinee: s, arms: xs, line }, st2)),
            },
        },
    }
    }
}

pub open spec fn check_if_stmt(env: EnvView, st: BodyView, s: StmtView) -> Result<
    (StmtView, BodyView),
    Seq<char>,
>
    decreases s, 10int,
{
    let cond = s->If_cond;
    let then = s->If_then;
    let els = s->If_els;
    if !(s is If) {
        Err(internal(0))
    } else {
    match check_cond(env, st, cond) {
        Err(m) => Err(m),
        Ok((c, st1)) => match check_block(env, st1, then) {
            Err(m) => Err(m),
            Ok((t, st2)) => match els {
                None => Ok((StmtView::If { cond: c, then: t, els: None }, st2)),
                Some(b) => match check_block(env, st2, b) {
                    Err(m) => Err(m),
                    Ok((f, st3)) => Ok((StmtView::If { cond: c, then: t, els: Some(f) }, st3)),
                },
            },
        },
    }
    }
}

pub open spec fn check_stmt(env: EnvView, st: BodyView, s: StmtView) -> Result<
    (StmtView, BodyView),
    Seq<char>,
>
    decreases s, 11int,
{
    match s {
        StmtView::Let { name, ann, init, line, .. } => check_let(env, st, name, ann, init, line),
        StmtView::Assign { .. } => check_assign(env, st, s),
        StmtView::Expr(e) => match check_expr(env, st, e, None) {
            Err(m) => Err(m),
            Ok((x, st1)) => Ok((StmtView::Expr(x), st1)),
        },
        StmtView::If { .. } => check_if_stmt(env, st, s),
        StmtView::While { .. } => check_while(env, st, s),
        StmtView::For { .. } => check_for(env, st, s),
        StmtView::Return { value, line } => check_return(env, st, value, line),
        StmtView::Break(line) => if st.in_loop {
            Ok((s, st))
        } else {
            Err(ln(line) + ": 'break'/'continue' outside of a loop"@)
        },
        StmtView::Continue(line) => if st.in_loop {
            Ok((s, st))
        } else {
            Err(ln(line) + ": 'break'/'continue' outside of a loop"@)
        },
        StmtView::Block(b) => match check_block(env, st, b) {
            Err(m) => Err(m),
            Ok((x, st1)) => Ok((StmtView::Block(x), st1)),
        },
        StmtView::Match { .. } => check_stmt_match(env, st, s),
    }
}

// -- Declarations -----------------------------------------------------------

pub open spec fn empty_env() -> EnvView {
    EnvView {
        structs: Seq::empty(),
        enums: Seq::empty(),
        option_enum: None,
        funcs: Seq::empty(),
        methods: Seq::empty(),
        type_params: Seq::empty(),
    }
}

/// The names of the structs from index `i` on, entered into the tables.
pub open spec fn collect_structs(env: EnvView, defs: Seq<StructDefView>, i: nat) -> Result<
    EnvView,
    Seq<char>,
>
    decreases defs.len() - i,
{
    if i >= defs.len() {
        Ok(env)
    } else {
        let s = defs[i as int];
        if env.struct_id(s.name) is Some {
            Err(ln(s.line) + ": duplicate struct '"@ + s.name + "'"@)
        } else if primitive(s.name) is Some {
            Err(ln(s.line) + ": struct name '"@ + s.name + "' shadows a primitive type"@)
        } else {
            match check_type_params(s.type_params, s.line, 0) {
                Err(m) => Err(m),
                Ok(_) => collect_structs(
                    EnvView {
                        structs: env.structs.push(
                            StructInfoView {
                                name: s.name,
                                type_params: s.type_params,
                                fields: Seq::empty(),
                                line: s.line,
                            },
                        ),
                        ..env
                    },
                    defs,
                    i + 1,
                ),
            }
        }
    }
}

/// The names of the enums from index `i` on, entered into the tables.
pub open spec fn collect_enums(env: EnvView, defs: Seq<EnumDefView>, i: nat) -> Result<
    EnvView,
    Seq<char>,
>
    decreases defs.len() - i,
{
    if i >= defs.len() {
        Ok(env)
    } else {
        let e = defs[i as int];
        if env.enum_id(e.name) is Some {
            Err(ln(e.line) + ": duplicate enum '"@ + e.name + "'"@)
        } else if env.struct_id(e.name) is Some {
            Err(ln(e.line) + ": enum '"@ + e.name + "' has the same name as a struct"@)
        } else if primitive(e.name) is Some {
            Err(ln(e.line) + ": enum name '"@ + e.name + "' shadows a primitive type"@)
        } else {
            match check_type_params(e.type_params, e.line, 0) {
                Err(m) => Err(m),
                Ok(_) => collect_enums(
                    EnvView {
                        enums: env.enums.push(
                            EnumInfoView {
                                name: e.name,
                                type_params: e.type_params,
                                variants: Seq::empty(),
                                line: e.line,
                            },
                        ),
                        ..env
                    },
                    defs,
                    i + 1,
                ),
            }
        }
    }
}

/// The prelude `Option<T>`.
pub open spec fn option_info() -> EnumInfoView {
    EnumInfoView {
        name: "Option"@,
        type_params: seq!["T"@],
        variants: seq![
            ("Some"@, VariantPayloadView::Single(TypeView::Param(0))),
            ("None"@, VariantPayloadView::Bare),
        ],
        line: 0,
    }
}

/// The tables with the prelude `Option<T>`, unless a user type shadows it.
#[verifier::opaque]
pub open spec fn add_prelude(env: EnvView) -> EnvView {
    if env.enum_id("Option"@) is None && env.struct_id("Option"@) is None {
        EnvView {
            enums: env.enums.push(option_info()),
            option_enum: Some(env.enums.len() as u32),
            ..env
        }
    } else {
        env
    }
}

/// Named types from index `i` on, resolved in order; `tail` closes the
/// message about a duplicate.
pub open spec fn resolve_fields(
    env: EnvView,
    fs: Seq<(Seq<char>, TypeExprView)>,
    line: u32,
    tail: Seq<char>,
    i: nat,
    acc: Seq<(Seq<char>, TypeView)>,
) -> Result<Seq<(Seq<char>, TypeView)>, Seq<char>>
    decreases fs.len() - i,
{
    if i >= fs.len() {
        Ok(acc)
    } else if position(field_names(acc), fs[i as int].0) is Some {
        Err(ln(line) + ": duplicate field '"@ + fs[i as int].0 + tail)
    } else {
        match resolve_type(env, fs[i as int].1) {
            Err(m) => Err(m),
            Ok(t) => resolve_fields(env, fs, line, tail, i + 1, acc.push((fs[i as int].0, t))),
        }
    }
}

/// The fields of the structs from index `i` on.
pub open spec fn resolve_structs(env: EnvView, defs: Seq<StructDefView>, i: nat) -> Result<
    EnvView,
    Seq<char>,
>
    decreases defs.len() - i,
{
    if i >= defs.len() {
        Ok(env)
    } else {
        let s = defs[i as int];
        match resolve_fields(
            EnvView { type_params: s.type_params, ..env },
            s.fields,
            s.line,
            "' in struct '"@ + s.name + "'"@,
            0,
            Seq::empty(),
        ) {
            Err(m) => Err(m),
            Ok(fields) => if fields.len() > 64 {
                Err(ln(s.line) + ": struct '"@ + s.name + "' has more than 64 fields"@)
            } else {
                resolve_structs(
                    EnvView {
                        structs: env.structs.update(
                            i as int,
                            StructInfoView { fields, ..env.structs[i as int] },
                        ),
                        ..env
                    },
                    defs,
                    i + 1,
                )
            },
        }
    }
}

/// The payload of a declared variant.
#[verifier::opaque]
pub open spec fn resolve_payload(
    env: EnvView,
    p: PayloadExprView,
    vname: Seq<char>,
    line: u32,
) -> Result<VariantPayloadView, Seq<char>> {
    match p {
        PayloadExprView::Bare => Ok(VariantPayloadView::Bare),
        PayloadExprView::Single(te) => match resolve_type(env, te) {
            Err(m) => Err(m),
            Ok(t) => Ok(VariantPayloadView::Single(t)),
        },
        PayloadExprView::Fields(fs) => if fs.len() == 0 {
            Err(
                ln(line) + ": variant '"@ + vname
                    + "' has an empty field list; write a bare variant instead"@,
            )
        } else if fs.len() > 64 {
            Err(ln(line) + ": variant '"@ + vname + "' has more than 64 fields"@)
        } else {
            match resolve_fields(env, fs, line, "' in variant '"@ + vname + "'"@, 0, Seq::empty()) {
                Err(m) => Err(m),
                Ok(fields) => Ok(VariantPayloadView::Fields(fields)),
            }
        },
    }
}

/// The variants of an enum from index `i` on.
pub open spec fn resolve_variants(
    env: EnvView,
    vs: Seq<(Seq<char>, PayloadExprView)>,
    owner: Seq<char>,
    line: u32,
    i: nat,
    acc: Seq<(Seq<char>, VariantPayloadView)>,
) -> Result<Seq<(Seq<char>, VariantPayloadView)>, Seq<char>>
    decreases vs.len() - i,
{
    if i >= vs.len() {
        Ok(acc)
    } else {
        let vname = vs[i as int].0;
        if position(variant_names(acc), vname) is Some {
            Err(ln(line) + ": duplicate variant '"@ + vname + "' in enum '"@ + owner + "'"@)
        } else {
            match resolve_payload(env, vs[i as int].1, vname, line) {
                Err(m) => Err(m),
                Ok(p) => resolve_variants(env, vs, owner, line, i + 1, acc.push((vname, p))),
            }
        }
    }
}

/// The variants of the enums from index `i` on.
pub open spec fn resolve_enums(env: EnvView, defs: Seq<EnumDefView>, i: nat) -> Result<
    EnvView,
    Seq<char>,
>
    decreases defs.len() - i,
{
    if i >= defs.len() {
        Ok(env)
    } else {
        let e = defs[i as int];
        if e.variants.len() == 0 {
            Err(ln(e.line) + ": enum '"@ + e.name + "' has no variants"@)
        } else {
            match resolve_variants(
                EnvView { type_params: e.type_params, ..env },
                e.variants,
                e.name,
                e.line,
                0,
                Seq::empty(),
            ) {
                Err(m) => Err(m),
                Ok(variants) => resolve_enums(
                    EnvView {
                        enums: env.enums.update(
                            i as int,
                            EnumInfoView { variants, ..env.enums[i as int] },
                        ),
                        ..env
                    },
                    defs,
                    i + 1,
                ),
            }
        }
    }
}

pub open spec fn impl_arity_text(m: MethodDefView, want: nat) -> Seq<char> {
    ln(m.line) + ": impl block for '"@ + m.target_name + "' must declare "@ + dec_text(want)
        + " type parameter(s), got "@ + dec_text(m.impl_type_params as nat)
}

/// The declared type that an impl block is for.
#[verifier::opaque]
pub open spec fn method_key(env: EnvView, m: MethodDefView) -> Result<TypeKey, Seq<char>> {
    match env.struct_id(m.target_name) {
        Some(sid) => {
            let info = env.structs[sid as int];
            if position(field_names(info.fields), m.name) is Some {
                Err(
                    ln(m.line) + ": method '"@ + m.name
                        + "' has the same name as a field of struct '"@ + m.target_name + "'"@,
                )
            } else if info.type_params.len() != m.impl_type_params {
                Err(impl_arity_text(m, info.type_params.len()))
            } else {
                Ok(TypeKey::Struct(sid as u32))
            }
        },
        None => match env.enum_id(m.target_name) {
            Some(eid) => {
                let info = env.enums[eid as int];
                if position(variant_names(info.variants), m.name) is Some {
                    Err(
                        ln(m.line) + ": method '"@ + m.name
                            + "' has the same name as a variant of enum '"@ + m.target_name + "'"@,
                    )
                } else if info.type_params.len() != m.impl_type_params {
                    Err(impl_arity_text(m, info.type_params.len()))
                } else {
                    Ok(TypeKey::Enum(eid as u32))
                }
            },
            None => Err(
                ln(m.line) + ": cannot write an impl block for '"@ + m.target_name
                    + "': impl blocks are only for structs and enums"@,
            ),
        },
    }
}

/// The methods from index `i` on, entered into the method table.
pub open spec fn collect_methods(env: EnvView, defs: Seq<MethodDefView>, i: nat) -> Result<
    EnvView,
    Seq<char>,
>
    decreases defs.len() - i,
{
    if i >= defs.len() {
        Ok(env)
    } else {
        let m = defs[i as int];
        match method_key(env, m) {
            Err(e) => Err(e),
            Ok(key) => if env.method_from(key, m.name, 0) is Some {
                Err(
                    ln(m.line) + ": duplicate method '"@ + m.name + "' on '"@ + m.target_name + "'"@,
                )
            } else {
                collect_methods(
                    EnvView {
                        methods: env.methods.push(
                            MethodView { key, name: m.name, fid: m.func, has_self: m.has_self },
                        ),
                        ..env
                    },
                    defs,
                    i + 1,
                )
            },
        }
    }
}

/// The signature of a function.
#[verifier::opaque]
pub open spec fn func_sig(env: EnvView, f: FuncDefView) -> Result<FuncSigView, Seq<char>> {
    match check_type_params(f.type_params, f.line, 0) {
        Err(m) => Err(m),
        Ok(_) => {
            let scope = EnvView { type_params: f.type_params, ..env };
            match resolve_params(scope, f.params, 0, Seq::empty()) {
                Err(m) => Err(m),
                Ok(params) => match resolve_ret(scope, f.ret) {
                    Err(m) => Err(m),
                    Ok(ret) => Ok(
                        FuncSigView { name: f.name, type_params: f.type_params, params, ret },
                    ),
                },
            }
        },
    }
}

/// The signatures of the functions from index `i` on.
pub open spec fn collect_funcs(env: EnvView, defs: Seq<FuncDefView>, i: nat) -> Result<
    EnvView,
    Seq<char>,
>
    decreases defs.len() - i,
{
    if i >= defs.len() {
        Ok(env)
    } else {
        let f = defs[i as int];
        if env.func_id(f.name) is Some {
            Err(ln(f.line) + ": duplicate function '"@ + f.name + "'"@)
        } else {
            match func_sig(env, f) {
                Err(m) => Err(m),
                Ok(sig) => collect_funcs(
                    EnvView { funcs: env.funcs.push(sig), ..env },
                    defs,
                    i + 1,
                ),
            }
        }
    }
}

/// The tables of a program. Names come first (structs, enums, the prelude),
/// then member types: struct fields and enum payloads may reference any type
/// in any order.
#[verifier::opaque]
pub open spec fn collect(p: ProgramView) -> Result<EnvView, Seq<char>> {
    match collect_structs(empty_env(), p.structs, 0) {
        Err(m) => Err(m),
        Ok(e1) => match collect_enums(e1, p.enums, 0) {
            Err(m) => Err(m),
            Ok(e2) => match resolve_structs(add_prelude(e2), p.structs, 0) {
                Err(m) => Err(m),
                Ok(e3) => match resolve_enums(e3, p.enums, 0) {
                    Err(m) => Err(m),
                    Ok(e4) => match collect_methods(e4, p.methods, 0) {
                        Err(m) => Err(m),
                        Ok(e5) => collect_funcs(e5, p.funcs, 0),
                    },
                },
            },
        },
    }
}

/// The side tables of the checked bodies so far.
#[verifier::ext_equal]
pub struct SideView {
    pub func_locals: Seq<Seq<TypeView>>,
    pub lambda_locals: Seq<Seq<TypeView>>,
    pub lambda_sigs: Seq<(Seq<TypeView>, TypeView)>,
}

/// The body of one function against its signature. A generic body is checked
/// once, with its parameters opaque.
#[verifier::opaque]
pub open spec fn check_func(env: EnvView, side: SideView, f: FuncDefView, sig: FuncSigView) -> Result<
    (FuncDefView, SideView),
    Seq<char>,
> {
    let scope = EnvView { type_params: f.type_params, ..env };
    let start = BodyView {
        cur: fresh_ctx(None, sig.ret),
        outer: Seq::empty(),
        in_loop: false,
        lambda_locals: side.lambda_locals,
        lambda_sigs: side.lambda_sigs,
    };
    match declare_params(start, f.params, sig.params, f.line, 0) {
        Err(m) => Err(m),
        Ok(st) => match check_block(scope, st, f.body) {
            Err(m) => Err(m),
            Ok((body, st1)) => if !(sig.ret is Unit) && !always_returns(body) {
                Err(
                    ln(f.line) + ": function '"@ + f.name
                        + "' must return a value on all paths"@,
                )
            } else {
                Ok(
                    (
                        FuncDefView { body, num_locals: st1.cur.locals.len() as u32, ..f },
                        SideView {
                            func_locals: side.func_locals.push(st1.cur.locals),
                            lambda_locals: st1.lambda_locals,
                            lambda_sigs: st1.lambda_sigs,
                        },
                    ),
                )
            },
        },
    }
}

/// The bodies of the functions from index `i` on.
pub open spec fn check_funcs(
    env: EnvView,
    defs: Seq<FuncDefView>,
    i: nat,
    side: SideView,
    acc: Seq<FuncDefView>,
) -> Result<(Seq<FuncDefView>, SideView), Seq<char>>
    decreases defs.len() - i,
{
    if i >= defs.len() {
        Ok((acc, side))
    } else {
        match check_func(env, side, defs[i as int], env.funcs[i as int]) {
            Err(m) => Err(m),
            Ok((f, side1)) => check_funcs(env, defs, i + 1, side1, acc.push(f)),
        }
    }
}

/// `main` must exist, take nothing and give nothing.
#[verifier::opaque]
pub open spec fn check_main(env: EnvView, defs: Seq<FuncDefView>) -> Result<(), Seq<char>> {
    match env.func_id("main"@) {
        None => Err("no 'main' function defined"@),
        Some(id) => {
            let sig = env.funcs[id as int];
            if sig.type_params.len() > 0 {
                Err(ln(defs[id as int].line) + ": 'main' cannot be generic"@)
            } else if sig.params.len() > 0 || !(sig.ret is Unit) {
                Err(
                    ln(defs[id as int].line)
                        + ": 'main' must take no parameters and return nothing"@,
                )
            } else {
                Ok(())
            }
        },
    }
}

/// What the checker knows of a program that it accepts.
#[verifier::ext_equal]
pub struct CheckedView {
    pub structs: Seq<StructInfoView>,
    pub enums: Seq<EnumInfoView>,
    pub funcs: Seq<FuncSigView>,
    pub func_locals: Seq<Seq<TypeView>>,
    pub lambda_locals: Seq<Seq<TypeView>>,
    pub lambda_sigs: Seq<(Seq<TypeView>, TypeView)>,
}

/// The annotated program and its tables, or the first diagnostic.
pub open spec fn check_spec(p: ProgramView) -> Result<(ProgramView, CheckedView), Seq<char>> {
    match collect(p) {
        Err(m) => Err(m),
        Ok(env) => match check_funcs(
            env,
            p.funcs,
            0,
            SideView {
                func_locals: Seq::empty(),
                lambda_locals: Seq::empty(),
                lambda_sigs: Seq::empty(),
            },
            Seq::empty(),
        ) {
            Err(m) => Err(m),
            Ok((funcs, side)) => match check_main(env, p.funcs) {
                Err(m) => Err(m),
                Ok(_) => Ok(
                    (
                        ProgramView { funcs, ..p },
                        CheckedView {
                            structs: env.structs,
                            enums: env.enums,
                            funcs: env.funcs,
                            func_locals: side.func_locals,
                            lambda_locals: side.lambda_locals,
                            lambda_sigs: side.lambda_sigs,
                        },
                    ),
                ),
            },
        },
    }
}

} // verus!
