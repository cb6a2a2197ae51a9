//! The typing rules of Crow: what the type checker answers.
//!
//! A rule takes the tables of declared things (`Env`), the state of the
//! function body being checked (`Body`), and a piece of syntax, and gives the
//! annotated piece with the new state, or the diagnostic.
use vstd::prelude::*;

use crate::ast::{
    BinOp, BlockView, Builtin, CaptureView, ExprView, PatArgsView, PatBinderView, PatternView,
    StmtView, TypeExprView, VarRes,
};
use crate::text::{dec_int_text, dec_text, join_text, position};
use crate::types::{
    field_names, variant_names, EnumInfoView, IntKind, StructInfoView, TypeView,
    VariantPayloadView,
};

verus! {

// -- Tables and state -------------------------------------------------------

/// Method-table key: a struct or enum definition.
#[derive(Debug, Clone, Copy, PartialEq, Eq, Structural)]
pub enum TypeKey {
    Struct(u32),
    Enum(u32),
}

/// A method or associated function of a declared type.
#[verifier::ext_equal]
pub struct MethodView {
    pub key: TypeKey,
    pub name: Seq<char>,
    pub fid: u32,
    pub has_self: bool,
}

#[verifier::ext_equal]
pub struct FuncSigView {
    pub name: Seq<char>,
    pub type_params: Seq<Seq<char>>,
    pub params: Seq<TypeView>,
    pub ret: TypeView,
}

/// What the declarations of a program say. A struct's, enum's or function's
/// id is its index.
#[verifier::ext_equal]
pub struct EnvView {
    pub structs: Seq<StructInfoView>,
    pub enums: Seq<EnumInfoView>,
    /// Id of the prelude `Option<T>`, unless shadowed by a user type.
    pub option_enum: Option<u32>,
    pub funcs: Seq<FuncSigView>,
    pub methods: Seq<MethodView>,
    /// Type parameter names of the declaration being checked;
    /// `TypeView::Param` indices point into this list.
    pub type_params: Seq<Seq<char>>,
}

/// Per-function (or per-lambda) checking context.
#[verifier::ext_equal]
pub struct CtxView {
    /// The variables in scope, innermost last: name, local index, type.
    pub vars: Seq<(Seq<char>, u32, TypeView)>,
    pub locals: Seq<TypeView>,
    /// `None` for a top-level function; what a lambda captures so far.
    pub captures: Option<Seq<CaptureView>>,
    pub ret: TypeView,
}

/// The state while a body is checked: the innermost context, the contexts
/// around it, whether a loop encloses, and the lambdas so far.
#[verifier::ext_equal]
pub struct BodyView {
    pub cur: CtxView,
    pub outer: Seq<CtxView>,
    pub in_loop: bool,
    pub lambda_locals: Seq<Seq<TypeView>>,
    pub lambda_sigs: Seq<(Seq<TypeView>, TypeView)>,
}

pub open spec fn struct_names(ss: Seq<StructInfoView>) -> Seq<Seq<char>> {
    Seq::new(ss.len(), |i: int| ss[i].name)
}

pub open spec fn enum_names(es: Seq<EnumInfoView>) -> Seq<Seq<char>> {
    Seq::new(es.len(), |i: int| es[i].name)
}

pub open spec fn func_names(fs: Seq<FuncSigView>) -> Seq<Seq<char>> {
    Seq::new(fs.len(), |i: int| fs[i].name)
}

impl EnvView {
    pub open spec fn struct_id(self, name: Seq<char>) -> Option<nat> {
        position(struct_names(self.structs), name)
    }

    pub open spec fn enum_id(self, name: Seq<char>) -> Option<nat> {
        position(enum_names(self.enums), name)
    }

    pub open spec fn func_id(self, name: Seq<char>) -> Option<nat> {
        position(func_names(self.funcs), name)
    }

    /// The index in the method table, from `from` on, of a type's method.
    pub open spec fn method_from(self, key: TypeKey, name: Seq<char>, from: nat) -> Option<nat>
        decreases self.methods.len() - from,
    {
        if from >= self.methods.len() {
            None
        } else if self.methods[from as int].key == key && self.methods[from as int].name == name {
            Some(from)
        } else {
            self.method_from(key, name, from + 1)
        }
    }

    /// A type's method: its function id, and whether it takes `self`.
    pub open spec fn method(self, key: TypeKey, name: Seq<char>) -> Option<(u32, bool)> {
        match self.method_from(key, name, 0) {
            Some(i) => Some((self.methods[i as int].fid, self.methods[i as int].has_self)),
            None => None,
        }
    }

    pub open spec fn lookup_method(self, recv: TypeView, name: Seq<char>) -> Option<(u32, bool)> {
        match recv {
            TypeView::Struct(id, _) => self.method(TypeKey::Struct(id), name),
            TypeView::Enum(id, _) => self.method(TypeKey::Enum(id), name),
            _ => None,
        }
    }

    #[verifier::opaque]
    pub open spec fn show(self, t: TypeView) -> Seq<char> {
        t.text(self.structs, self.enums, self.type_params)
    }

    /// The bare declaration name of a struct or enum type.
    pub open spec fn base_name(self, t: TypeView) -> Seq<char> {
        match t {
            TypeView::Struct(id, _) => crate::types::struct_name(self.structs, id),
            TypeView::Enum(id, _) => crate::types::enum_name(self.enums, id),
            _ => self.show(t),
        }
    }
}

// -- Messages ---------------------------------------------------------------

pub open spec fn ln(line: u32) -> Seq<char> {
    dec_text(line as nat)
}

/// The answer to a tree that the parser does not build.
pub open spec fn internal(line: u32) -> Seq<char> {
    ln(line) + ": internal error: malformed syntax tree"@
}

pub open spec fn mismatch(env: EnvView, line: u32, want: TypeView, found: TypeView) -> Seq<char> {
    ln(line) + ": type mismatch: expected "@ + env.show(want) + ", found "@ + env.show(found)
}

// -- Names of types ---------------------------------------------------------

#[verifier::opaque]
pub open spec fn primitive(name: Seq<char>) -> Option<TypeView> {
    if name == "float"@ {
        Some(TypeView::Float)
    } else if name == "bool"@ {
        Some(TypeView::Bool)
    } else if name == "string"@ {
        Some(TypeView::Str)
    } else {
        match IntKind::named(name) {
            Some(k) => Some(TypeView::Int(k)),
            None => None,
        }
    }
}

/// Validate a declaration's type parameter list, from index `i` on.
pub open spec fn check_type_params(params: Seq<Seq<char>>, line: u32, i: nat) -> Result<
    (),
    Seq<char>,
>
    decreases params.len() - i,
{
    if i >= params.len() {
        Ok(())
    } else if params.take(i as int).contains(params[i as int]) {
        Err(ln(line) + ": duplicate type parameter '"@ + params[i as int] + "'"@)
    } else if primitive(params[i as int]) is Some {
        Err(ln(line) + ": type parameter '"@ + params[i as int] + "' shadows a primitive type"@)
    } else {
        check_type_params(params, line, i + 1)
    }
}

/// The type that a type expression denotes. Type parameters in scope shadow
/// primitive and declared names.
pub open spec fn resolve_type(env: EnvView, te: TypeExprView) -> Result<TypeView, Seq<char>>
    decreases te, 1nat,
{
    match te {
        TypeExprView::Named(name, args, line) => match position(env.type_params, name) {
            Some(i) => if args.len() > 0 {
                Err(ln(line) + ": type parameter '"@ + name + "' takes no type arguments"@)
            } else {
                Ok(TypeView::Param(i as u32))
            },
            None => match primitive(name) {
                Some(t) => if args.len() > 0 {
                    Err(ln(line) + ": type '"@ + name + "' takes no type arguments"@)
                } else {
                    Ok(t)
                },
                None => match env.struct_id(name) {
                    Some(id) => {
                        let want = env.structs[id as int].type_params.len();
                        if args.len() != want {
                            Err(arity_text(line, ": struct '"@, name, want, args.len()))
                        } else {
                            match resolve_types(env, args, 0, Seq::empty()) {
                                Err(e) => Err(e),
                                Ok(ts) => Ok(TypeView::Struct(id as u32, ts)),
                            }
                        }
                    },
                    None => match env.enum_id(name) {
                        Some(id) => {
                            let want = env.enums[id as int].type_params.len();
                            if args.len() != want {
                                Err(arity_text(line, ": enum '"@, name, want, args.len()))
                            } else {
                                match resolve_types(env, args, 0, Seq::empty()) {
                                    Err(e) => Err(e),
                                    Ok(ts) => Ok(TypeView::Enum(id as u32, ts)),
                                }
                            }
                        },
                        None => Err(ln(line) + ": unknown type '"@ + name + "'"@),
                    },
                },
            },
        },
        TypeExprView::Array(elem) => match resolve_type(env, *elem) {
            Err(e) => Err(e),
            Ok(t) => Ok(TypeView::Array(Box::new(t))),
        },
        TypeExprView::Fn(params, ret, _) => match resolve_types(env, params, 0, Seq::empty()) {
            Err(e) => Err(e),
            Ok(ps) => match ret {
                None => Ok(TypeView::Fn(ps, Box::new(TypeView::Unit))),
                Some(r) => match resolve_type(env, *r) {
                    Err(e) => Err(e),
                    Ok(t) => Ok(TypeView::Fn(ps, Box::new(t))),
                },
            },
        },
    }
}

pub open spec fn arity_text(
    line: u32,
    what: Seq<char>,
    name: Seq<char>,
    want: nat,
    got: nat,
) -> Seq<char> {
    ln(line) + what + name + "' expects "@ + dec_text(want) + " type argument(s), got "@
        + dec_text(got)
}

/// The types of a list of type expressions from index `i` on, after `acc`.
pub open spec fn resolve_types(
    env: EnvView,
    tes: Seq<TypeExprView>,
    i: nat,
    acc: Seq<TypeView>,
) -> Result<Seq<TypeView>, Seq<char>>
    decreases tes, tes.len() - i,
{
    if i >= tes.len() {
        Ok(acc)
    } else {
        match resolve_type(env, tes[i as int]) {
            Err(e) => Err(e),
            Ok(t) => resolve_types(env, tes, i + 1, acc.push(t)),
        }
    }
}

/// The types of the parameters of a function, in order.
pub open spec fn resolve_params(
    env: EnvView,
    ps: Seq<(Seq<char>, TypeExprView)>,
    i: nat,
    acc: Seq<TypeView>,
) -> Result<Seq<TypeView>, Seq<char>>
    decreases ps.len() - i,
{
    if i >= ps.len() {
        Ok(acc)
    } else {
        match resolve_type(env, ps[i as int].1) {
            Err(e) => Err(e),
            Ok(t) => resolve_params(env, ps, i + 1, acc.push(t)),
        }
    }
}

pub open spec fn resolve_ret(env: EnvView, ret: Option<TypeExprView>) -> Result<
    TypeView,
    Seq<char>,
> {
    match ret {
        None => Ok(TypeView::Unit),
        Some(t) => resolve_type(env, t),
    }
}

// -- Unification ------------------------------------------------------------

/// Match a declared (possibly parameter-containing) type against an actual
/// type, binding unbound parameters in `solved` and checking already-bound
/// ones for equality. Says whether they match, and what is bound afterwards
/// either way.
pub open spec fn unify(decl: TypeView, actual: TypeView, solved: Seq<Option<TypeView>>) -> (
    bool,
    Seq<Option<TypeView>>,
)
    decreases decl, 1nat,
{
    match decl {
        TypeView::Param(i) => if actual is Unit || actual is Unknown || i >= solved.len() {
            (false, solved)
        } else {
            match solved[i as int] {
                Some(t) => (t == actual, solved),
                None => (true, solved.update(i as int, Some(actual))),
            }
        },
        TypeView::Array(a) => match actual {
            TypeView::Array(b) => unify(*a, *b, solved),
            _ => (false, solved),
        },
        TypeView::Enum(i, ax) => match actual {
            TypeView::Enum(j, bx) => if i == j {
                unify_all(ax, bx, 0, solved)
            } else {
                (false, solved)
            },
            _ => (false, solved),
        },
        TypeView::Struct(i, ax) => match actual {
            TypeView::Struct(j, bx) => if i == j {
                unify_all(ax, bx, 0, solved)
            } else {
                (false, solved)
            },
            _ => (false, solved),
        },
        TypeView::Fn(ap, ar) => match actual {
            TypeView::Fn(bp, br) => if ap.len() == bp.len() {
                let (ok, s) = unify_all(ap, bp, 0, solved);
                if ok {
                    unify(*ar, *br, s)
                } else {
                    (false, s)
                }
            } else {
                (false, solved)
            },
            _ => (false, solved),
        },
        _ => (decl == actual, solved),
    }
}

/// Unify two lists pair by pair, from index `i` to the end of the shorter.
pub open spec fn unify_all(
    ax: Seq<TypeView>,
    bx: Seq<TypeView>,
    i: nat,
    solved: Seq<Option<TypeView>>,
) -> (bool, Seq<Option<TypeView>>)
    decreases ax, ax.len() - i,
{
    if i >= ax.len() || i >= bx.len() {
        (true, solved)
    } else {
        let (ok, s) = unify(ax[i as int], bx[i as int], solved);
        if ok {
            unify_all(ax, bx, i + 1, s)
        } else {
            (false, s)
        }
    }
}

/// What the parameters stand for so far; an unsolved one stands for itself.
pub open spec fn partial_args(solved: Seq<Option<TypeView>>) -> Seq<TypeView> {
    Seq::new(
        solved.len(),
        |i: int|
            match solved[i] {
                Some(t) => t,
                None => TypeView::Param(i as u32),
            },
    )
}

/// Substitute the parameters solved so far, leaving unsolved ones in place.
pub open spec fn subst_partial(t: TypeView, solved: Seq<Option<TypeView>>) -> TypeView {
    t.subst(partial_args(solved))
}

/// No parameter bound.
pub open spec fn unsolved(n: nat) -> Seq<Option<TypeView>> {
    Seq::new(n, |i: int| None)
}

/// Every parameter bound to the type argument at its index.
pub open spec fn all_solved(ts: Seq<TypeView>) -> Seq<Option<TypeView>> {
    Seq::new(ts.len(), |i: int| Some(ts[i]))
}

/// The first index that is not bound.
pub open spec fn first_unsolved(solved: Seq<Option<TypeView>>, i: nat) -> Option<nat>
    decreases solved.len() - i,
{
    if i >= solved.len() {
        None
    } else if solved[i as int] is None {
        Some(i)
    } else {
        first_unsolved(solved, i + 1)
    }
}

/// The bound types.
pub open spec fn solution(solved: Seq<Option<TypeView>>) -> Seq<TypeView> {
    Seq::new(solved.len(), |i: int| solved[i]->0)
}

/// The first index that is false.
pub open spec fn first_false(seen: Seq<bool>, i: nat) -> Option<nat>
    decreases seen.len() - i,
{
    if i >= seen.len() {
        None
    } else if !seen[i as int] {
        Some(i)
    } else {
        first_false(seen, i + 1)
    }
}

pub open spec fn none_seen(n: nat) -> Seq<bool> {
    Seq::new(n, |i: int| false)
}

// -- Variables --------------------------------------------------------------

/// The innermost variable of a name among the first `n`.
pub open spec fn find_var(vars: Seq<(Seq<char>, u32, TypeView)>, name: Seq<char>, n: nat) -> Option<
    nat,
>
    decreases n,
{
    if n == 0 {
        None
    } else if vars[n - 1].0 == name {
        Some((n - 1) as nat)
    } else {
        find_var(vars, name, (n - 1) as nat)
    }
}

pub open spec fn capture_names(cs: Seq<CaptureView>) -> Seq<Seq<char>> {
    Seq::new(cs.len(), |i: int| cs[i].name)
}

/// A variable of a context itself: a local, or already captured.
#[verifier::opaque]
pub open spec fn own_var(c: CtxView, name: Seq<char>) -> Option<(VarRes, TypeView)> {
    match find_var(c.vars, name, c.vars.len()) {
        Some(i) => Some((VarRes::Local(c.vars[i as int].1), c.vars[i as int].2)),
        None => match c.captures {
            None => None,
            Some(caps) => match position(capture_names(caps), name) {
                Some(i) => Some((VarRes::Captured(i as u32), caps[i as int].ty)),
                None => None,
            },
        },
    }
}

/// Resolve a variable in context `c` inside the contexts `outer`, inserting
/// captures into intervening lambdas. Gives the contexts afterwards, and the
/// resolution in `c` with its type.
pub open spec fn resolve_in(c: CtxView, outer: Seq<CtxView>, name: Seq<char>) -> (
    CtxView,
    Seq<CtxView>,
    Option<(VarRes, TypeView)>,
)
    decreases outer.len(),
{
    match own_var(c, name) {
        Some(r) => (c, outer, Some(r)),
        None => match c.captures {
            None => (c, outer, None),
            Some(caps) => if outer.len() == 0 {
                (c, outer, None)
            } else {
                let (oc, rest, r) = resolve_in(outer.last(), outer.drop_last(), name);
                match r {
                    None => (c, rest.push(oc), None),
                    Some((src, ty)) => (
                        CtxView { captures: Some(caps.push(CaptureView { name, ty, src })), ..c },
                        rest.push(oc),
                        Some((VarRes::Captured(caps.len() as u32), ty)),
                    ),
                }
            },
        },
    }
}

/// Resolve a variable in the innermost context.
#[verifier::opaque]
pub open spec fn resolve_var(st: BodyView, name: Seq<char>) -> (
    BodyView,
    Option<(VarRes, TypeView)>,
) {
    let (cur, outer, r) = resolve_in(st.cur, st.outer, name);
    (BodyView { cur, outer, ..st }, r)
}

/// How many locals one function may have.
pub const MAX_LOCALS: usize = 4096;

/// Declare a local in the innermost scope.
#[verifier::opaque]
pub open spec fn declare(st: BodyView, name: Seq<char>, ty: TypeView, line: u32) -> Result<
    (u32, BodyView),
    Seq<char>,
> {
    let idx = st.cur.locals.len();
    if idx >= MAX_LOCALS {
        Err(ln(line) + ": too many locals in one function"@)
    } else {
        Ok(
            (
                idx as u32,
                BodyView {
                    cur: CtxView {
                        vars: st.cur.vars.push((name, idx as u32, ty)),
                        locals: st.cur.locals.push(ty),
                        ..st.cur
                    },
                    ..st
                },
            ),
        )
    }
}

/// Leave a scope: forget the variables after the first `mark`.
pub open spec fn leave_scope(st: BodyView, mark: nat) -> BodyView {
    if st.cur.vars.len() > mark {
        BodyView { cur: CtxView { vars: st.cur.vars.take(mark as int), ..st.cur }, ..st }
    } else {
        st
    }
}

/// Declare parameters as the first locals of a context.
pub open spec fn declare_params(
    st: BodyView,
    ps: Seq<(Seq<char>, TypeExprView)>,
    tys: Seq<TypeView>,
    line: u32,
    i: nat,
) -> Result<BodyView, Seq<char>>
    decreases ps.len() - i,
{
    if i >= ps.len() || i >= tys.len() {
        Ok(st)
    } else {
        match declare(st, ps[i as int].0, tys[i as int], line) {
            Err(e) => Err(e),
            Ok((_, st1)) => declare_params(st1, ps, tys, line, i + 1),
        }
    }
}

// -- Returning --------------------------------------------------------------

/// Conservative "all paths return" analysis.
pub open spec fn always_returns(b: BlockView) -> bool
    decreases b, 1nat,
{
    any_returns(b.stmts)
}

pub open spec fn any_returns(ss: Seq<StmtView>) -> bool
    decreases ss, 0nat,
{
    exists|i: int| 0 <= i < ss.len() && stmt_returns(#[trigger] ss[i])
}

pub open spec fn stmt_returns(s: StmtView) -> bool
    decreases s, 0nat,
{
    match s {
        StmtView::Return { .. } => true,
        StmtView::If { then, els, .. } => match els {
            Some(els) => always_returns(then) && always_returns(els),
            None => false,
        },
        // Match arms are exhaustive, so all arms returning means every path
        // returns.
        StmtView::Match { arms, .. } => arms.len() > 0 && all_arms_return(arms),
        StmtView::Block(b) => always_returns(b),
        _ => false,
    }
}

pub open spec fn all_arms_return(arms: Seq<(PatternView, BlockView)>) -> bool
    decreases arms, 0nat,
{
    forall|i: int| 0 <= i < arms.len() ==> always_returns((#[trigger] arms[i]).1)
}

// -- Operators --------------------------------------------------------------

/// Is the operator one of `+ - * / %`, a bitwise operator or a shift?
pub open spec fn is_arith(op: BinOp) -> bool {
    !(op is Eq || op is Ne || op is Lt || op is Le || op is Gt || op is Ge || op is And || op is Or)
}

pub open spec fn is_bitwise(op: BinOp) -> bool {
    op is BitAnd || op is BitOr || op is BitXor || op is Shl || op is Shr
}

/// May an arithmetic operator take operands of this type?
pub open spec fn arith_admits(op: BinOp, ty: TypeView) -> bool {
    if op is Add {
        ty is Int || ty is Float || ty is Str
    } else if op is Sub || op is Mul || op is Div {
        ty is Int || ty is Float
    } else {
        ty is Int
    }
}

/// Operand admissibility for the arithmetic / bitwise / concatenation
/// operators, given that both operands already have type `ty`.
#[verifier::opaque]
pub open spec fn check_arith_op(env: EnvView, op: BinOp, ty: TypeView, line: u32) -> Result<
    (),
    Seq<char>,
> {
    if !is_arith(op) {
        Err(internal(line))
    } else if arith_admits(op, ty) {
        Ok(())
    } else if is_bitwise(op) {
        Err(
            ln(line) + ": operator '"@ + op.symbol() + "' needs integer operands, found "@
                + env.show(ty),
        )
    } else {
        Err(ln(line) + ": invalid operand type "@ + env.show(ty) + " for arithmetic"@)
    }
}

pub open spec fn require_assignable(
    env: EnvView,
    target: TypeView,
    value: TypeView,
    line: u32,
) -> Result<(), Seq<char>> {
    if target == value {
        Ok(())
    } else {
        Err(mismatch(env, line, target, value))
    }
}

// -- Builtins ---------------------------------------------------------------

/// Free-function builtins: only the ones with no natural receiver.
#[verifier::opaque]
pub open spec fn builtin_named(name: Seq<char>) -> Option<Builtin> {
    if name == "println"@ {
        Some(Builtin::Println)
    } else if name == "print"@ {
        Some(Builtin::Print)
    } else if name == "assert"@ {
        Some(Builtin::Assert)
    } else if name == "gc_collect"@ {
        Some(Builtin::GcCollect)
    } else {
        None
    }
}

/// The method spelling of a name that is no free function.
#[verifier::opaque]
pub open spec fn method_hint(name: Seq<char>) -> Option<Seq<char>> {
    if name == "len"@ {
        Some("x.len()"@)
    } else if name == "push"@ {
        Some("arr.push(value)"@)
    } else if name == "pop"@ {
        Some("arr.pop()"@)
    } else if name == "itos"@ {
        Some("i.to_string()"@)
    } else if name == "ftos"@ {
        Some("f.to_string()"@)
    } else if name == "itof"@ {
        Some("i.to_float()"@)
    } else if name == "ftoi"@ {
        Some("f as int"@)
    } else if name == "stoi"@ {
        Some("s.to_int()"@)
    } else if name == "stof"@ {
        Some("s.to_float()"@)
    } else if name == "stob"@ {
        Some("s.to_bytes()"@)
    } else if name == "btos"@ {
        Some("bytes.to_string()"@)
    } else if name == "unwrap"@ {
        Some("opt.unwrap()"@)
    } else {
        None
    }
}

/// Which builtin (if any) the method name `name` denotes on a receiver of
/// type `recv`.
#[verifier::opaque]
pub open spec fn builtin_method(
    recv: TypeView,
    name: Seq<char>,
    option_enum: Option<u32>,
) -> Option<Builtin> {
    match recv {
        TypeView::Array(_) => if name == "len"@ {
            Some(Builtin::Len)
        } else if name == "push"@ {
            Some(Builtin::Push)
        } else if name == "pop"@ {
            Some(Builtin::Pop)
        } else if name == "to_string"@ {
            Some(Builtin::Btos)
        } else {
            None
        },
        TypeView::Str => if name == "len"@ {
            Some(Builtin::Len)
        } else if name == "to_int"@ {
            Some(Builtin::Stoi)
        } else if name == "to_float"@ {
            Some(Builtin::Stof)
        } else if name == "to_bytes"@ {
            Some(Builtin::Stob)
        } else {
            None
        },
        TypeView::Int(_) => if name == "to_string"@ {
            Some(Builtin::Itos)
        } else if name == "to_float"@ {
            Some(Builtin::Itof)
        } else {
            None
        },
        TypeView::Float => if name == "to_string"@ {
            Some(Builtin::Ftos)
        } else {
            None
        },
        TypeView::Enum(eid, _) => if name == "unwrap"@ && Some(eid) == option_enum {
            Some(Builtin::Unwrap)
        } else {
            None
        },
        _ => None,
    }
}

/// The method name that a builtin method is written with.
#[verifier::opaque]
pub open spec fn method_surface(b: Builtin) -> Seq<char> {
    match b {
        Builtin::Len => "len"@,
        Builtin::Push => "push"@,
        Builtin::Pop => "pop"@,
        Builtin::Itos | Builtin::Ftos | Builtin::Btos => "to_string"@,
        Builtin::Itof | Builtin::Stof => "to_float"@,
        Builtin::Stoi => "to_int"@,
        Builtin::Stob => "to_bytes"@,
        _ => "unwrap"@,
    }
}

/// The type of a call of a builtin method that takes no argument, on a
/// receiver of type `recv`.
#[verifier::opaque]
pub open spec fn builtin_result(env: EnvView, b: Builtin, recv: TypeView, line: u32) -> Result<
    TypeView,
    Seq<char>,
> {
    let int_t = TypeView::Int(IntKind::I64);
    let bytes_t = TypeView::Array(Box::new(TypeView::Int(IntKind::U8)));
    match b {
        Builtin::Len | Builtin::Stoi => Ok(int_t),
        Builtin::Itos | Builtin::Ftos => Ok(TypeView::Str),
        Builtin::Itof | Builtin::Stof => Ok(TypeView::Float),
        Builtin::Stob => Ok(bytes_t),
        Builtin::Btos => if recv == bytes_t {
            Ok(TypeView::Str)
        } else {
            Err(ln(line) + ": to_string() needs a [u8], found "@ + env.show(recv))
        },
        Builtin::Pop => match recv {
            TypeView::Array(elem) => Ok(*elem),
            _ => Err(internal(line)),
        },
        Builtin::Unwrap => match recv {
            TypeView::Enum(_, targs) => if targs.len() > 0 {
                Ok(targs[0])
            } else {
                Err(internal(line))
            },
            _ => Err(internal(line)),
        },
        _ => Err(internal(line)),
    }
}

// -- Literals ---------------------------------------------------------------

/// Literals adopt the expected integer type (with a range check); without
/// context they are `int`.
#[verifier::opaque]
pub open spec fn literal_kind(v: int, expected: Option<TypeView>, line: u32) -> Result<
    IntKind,
    Seq<char>,
> {
    let kind = match expected {
        Some(TypeView::Int(k)) => k,
        _ => IntKind::I64,
    };
    if kind.holds(v) {
        Ok(kind)
    } else {
        Err(out_of_range(v, kind, line))
    }
}

pub open spec fn out_of_range(v: int, kind: IntKind, line: u32) -> Seq<char> {
    ln(line) + ": integer literal "@ + dec_int_text(v) + " out of range for "@ + kind.spec_name()
}

/// The two's-complement bit pattern of a value of any integer kind.
pub open spec fn bits_of(v: int) -> u64 {
    if v < 0 {
        (v + 0x1_0000_0000_0000_0000) as u64
    } else {
        v as u64
    }
}

// -- Patterns ---------------------------------------------------------------

pub open spec fn pattern_line(p: PatternView) -> u32 {
    match p {
        PatternView::Variant { line, .. } => line,
        PatternView::IntLit { line, .. } => line,
        PatternView::ByteLit { line, .. } => line,
        PatternView::BoolLit { line, .. } => line,
        PatternView::Wildcard { line } => line,
    }
}

pub open spec fn pattern_mismatch(env: EnvView, line: u32, ty: TypeView) -> Seq<char> {
    ln(line) + ": pattern does not match the scrutinee type "@ + env.show(ty)
}

/// Everything after a `_` arm is unreachable.
pub open spec fn unreachable_text(line: u32, w: u32) -> Seq<char> {
    ln(line) + ": unreachable pattern after '_' at line "@ + dec_text(w as nat)
}

/// The binders of a field pattern from index `i` on, typed by the declared
/// fields; gives the pattern's fields so far and which declared fields they
/// name.
pub open spec fn pattern_fields(
    decl: Seq<(Seq<char>, TypeView)>,
    targs: Seq<TypeView>,
    fields: Seq<(Seq<char>, PatBinderView, u32)>,
    variant: Seq<char>,
    line: u32,
    i: nat,
    seen: Seq<bool>,
    acc: Seq<(Seq<char>, PatBinderView, u32)>,
) -> Result<(Seq<(Seq<char>, PatBinderView, u32)>, Seq<bool>), Seq<char>>
    decreases fields.len() - i,
{
    if i >= fields.len() {
        Ok((acc, seen))
    } else {
        let (fname, b, _) = fields[i as int];
        match position(field_names(decl), fname) {
            None => Err(ln(line) + ": variant '"@ + variant + "' has no field '"@ + fname + "'"@),
            Some(j) => if seen[j as int] {
                Err(ln(line) + ": duplicate field '"@ + fname + "' in pattern"@)
            } else {
                pattern_fields(
                    decl,
                    targs,
                    fields,
                    variant,
                    line,
                    i + 1,
                    seen.update(j as int, true),
                    acc.push(
                        (
                            fname,
                            PatBinderView { ty: decl[j as int].1.subst(targs), ..b },
                            j as u32,
                        ),
                    ),
                )
            },
        }
    }
}

/// The payload part of a variant pattern against the variant's declaration,
/// whose shape it must mirror.
#[verifier::opaque]
pub open spec fn pattern_payload(
    decl: VariantPayloadView,
    args: PatArgsView,
    targs: Seq<TypeView>,
    owner: Seq<char>,
    variant: Seq<char>,
    line: u32,
) -> Result<PatArgsView, Seq<char>> {
    match decl {
        VariantPayloadView::Bare => match args {
            PatArgsView::Bare => Ok(PatArgsView::Bare),
            _ => Err(
                ln(line) + ": variant '"@ + variant + "' is bare and has no value to bind"@,
            ),
        },
        VariantPayloadView::Single(pty) => match args {
            PatArgsView::Single(b) => Ok(
                PatArgsView::Single(PatBinderView { ty: pty.subst(targs), ..b }),
            ),
            _ => Err(
                ln(line) + ": variant '"@ + variant + "' wraps a value; bind it with '"@ + owner
                    + "."@ + variant + "(name)' (use '_' to ignore it)"@,
            ),
        },
        VariantPayloadView::Fields(decl) => match args {
            PatArgsView::Fields(fields) => match pattern_fields(
                decl,
                targs,
                fields,
                variant,
                line,
                0,
                none_seen(decl.len()),
                Seq::empty(),
            ) {
                Err(e) => Err(e),
                Ok((fs, seen)) => match first_false(seen, 0) {
                    Some(j) => Err(
                        ln(line) + ": pattern for variant '"@ + variant + "' is missing field '"@
                            + decl[j as int].0 + "' (bind it to '_' to ignore it)"@,
                    ),
                    None => Ok(PatArgsView::Fields(fs)),
                },
            },
            _ => Err(
                ln(line) + ": variant '"@ + variant + "' has named fields; match it with '"@
                    + owner + "."@ + variant + " { field: name, ... }'"@,
            ),
        },
    }
}

/// One variant pattern on a value of enum `eid`: the annotated pattern and
/// its tag.
#[verifier::opaque]
pub open spec fn variant_pattern(
    env: EnvView,
    eid: u32,
    targs: Seq<TypeView>,
    p: PatternView,
    seen: Seq<bool>,
) -> Result<(PatternView, nat), Seq<char>> {
    let line = pattern_line(p);
    let info = env.enums[eid as int];
    match p {
        PatternView::Variant { enum_name, variant, args, .. } => if env.enum_id(enum_name)
            != Some(eid as nat) {
            Err(pattern_mismatch(env, line, TypeView::Enum(eid, targs)))
        } else {
            match position(variant_names(info.variants), variant) {
                None => Err(
                    ln(line) + ": enum '"@ + info.name + "' has no variant '"@ + variant + "'"@,
                ),
                Some(i) => if seen[i as int] {
                    Err(ln(line) + ": duplicate pattern for variant '"@ + variant + "'"@)
                } else {
                    match pattern_payload(
                        info.variants[i as int].1,
                        args,
                        targs,
                        info.name,
                        variant,
                        line,
                    ) {
                        Err(e) => Err(e),
                        Ok(args) => Ok(
                            (
                                PatternView::Variant {
                                    enum_name,
                                    variant,
                                    args,
                                    tag: i as u32,
                                    line,
                                },
                                i,
                            ),
                        ),
                    }
                },
            }
        },
        _ => Err(pattern_mismatch(env, line, TypeView::Enum(eid, targs))),
    }
}

/// The patterns on an enum from index `i` on: which variants are covered,
/// where the wildcard stands, and the annotated patterns.
pub open spec fn enum_patterns(
    env: EnvView,
    eid: u32,
    targs: Seq<TypeView>,
    pats: Seq<PatternView>,
    i: nat,
    seen: Seq<bool>,
    wild: Option<u32>,
    acc: Seq<PatternView>,
) -> Result<(Seq<PatternView>, Seq<bool>, Option<u32>), Seq<char>>
    decreases pats.len() - i,
{
    if i >= pats.len() {
        Ok((acc, seen, wild))
    } else {
        let p = pats[i as int];
        let line = pattern_line(p);
        match p {
            PatternView::Variant { .. } => match wild {
                Some(w) => Err(unreachable_text(line, w)),
                None => match variant_pattern(env, eid, targs, p, seen) {
                    Err(e) => Err(e),
                    Ok((p2, tag)) => enum_patterns(
                        env,
                        eid,
                        targs,
                        pats,
                        i + 1,
                        seen.update(tag as int, true),
                        wild,
                        acc.push(p2),
                    ),
                },
            },
            PatternView::Wildcard { .. } => match wild {
                Some(w) => Err(unreachable_text(line, w)),
                None => if first_false(seen, 0) is None {
                    Err(
                        ln(line)
                            + ": unreachable pattern: every variant is already covered"@,
                    )
                } else {
                    enum_patterns(
                        env,
                        eid,
                        targs,
                        pats,
                        i + 1,
                        seen,
                        Some(line),
                        acc.push(p),
                    )
                },
            },
            _ => Err(pattern_mismatch(env, line, TypeView::Enum(eid, targs))),
        }
    }
}

/// The names of the variants that are not covered, from index `i` on.
pub open spec fn missing_variants(
    vs: Seq<(Seq<char>, VariantPayloadView)>,
    seen: Seq<bool>,
    i: nat,
    acc: Seq<Seq<char>>,
) -> Seq<Seq<char>>
    decreases vs.len() - i,
{
    if i >= vs.len() {
        acc
    } else if seen[i as int] {
        missing_variants(vs, seen, i + 1, acc)
    } else {
        missing_variants(vs, seen, i + 1, acc.push(vs[i as int].0))
    }
}

/// The patterns on an integer of kind `k` from index `i` on: the values
/// covered, where the wildcard stands, and the annotated patterns.
pub open spec fn int_patterns(
    env: EnvView,
    k: IntKind,
    pats: Seq<PatternView>,
    i: nat,
    seen: Seq<u64>,
    wild: Option<u32>,
    acc: Seq<PatternView>,
) -> Result<(Seq<PatternView>, Seq<u64>, Option<u32>), Seq<char>>
    decreases pats.len() - i,
{
    if i >= pats.len() {
        Ok((acc, seen, wild))
    } else {
        let p = pats[i as int];
        let line = pattern_line(p);
        match p {
            PatternView::IntLit { neg, digits, .. } => match wild {
                Some(w) => Err(unreachable_text(line, w)),
                None => {
                    let v = if neg {
                        -(digits as int)
                    } else {
                        digits as int
                    };
                    if !k.holds(v) {
                        Err(out_of_range(v, k, line))
                    } else if seen.contains(bits_of(v)) {
                        Err(ln(line) + ": duplicate pattern "@ + dec_int_text(v))
                    } else {
                        int_patterns(
                            env,
                            k,
                            pats,
                            i + 1,
                            seen.push(bits_of(v)),
                            wild,
                            acc.push(
                                PatternView::IntLit { neg, digits, value: bits_of(v), line },
                            ),
                        )
                    }
                },
            },
            PatternView::ByteLit { value, .. } => match wild {
                Some(w) => Err(unreachable_text(line, w)),
                None => if !(k is U8) {
                    Err(pattern_mismatch(env, line, TypeView::Int(k)))
                } else if seen.contains(value as u64) {
                    Err(ln(line) + ": duplicate pattern"@)
                } else {
                    int_patterns(
                        env,
                        k,
                        pats,
                        i + 1,
                        seen.push(value as u64),
                        wild,
                        acc.push(p),
                    )
                },
            },
            PatternView::Wildcard { .. } => match wild {
                Some(w) => Err(unreachable_text(line, w)),
                None => int_patterns(env, k, pats, i + 1, seen, Some(line), acc.push(p)),
            },
            _ => Err(pattern_mismatch(env, line, TypeView::Int(k))),
        }
    }
}

/// The patterns on a bool from index `i` on: whether `true` and `false` are
/// covered, and where the wildcard stands. The patterns stay as they are.
pub open spec fn bool_patterns(
    env: EnvView,
    pats: Seq<PatternView>,
    i: nat,
    t: bool,
    f: bool,
    wild: Option<u32>,
) -> Result<(bool, bool, Option<u32>), Seq<char>>
    decreases pats.len() - i,
{
    if i >= pats.len() {
        Ok((t, f, wild))
    } else {
        let p = pats[i as int];
        let line = pattern_line(p);
        match p {
            PatternView::BoolLit { value, .. } => match wild {
                Some(w) => Err(unreachable_text(line, w)),
                None => if value {
                    if t {
                        Err(ln(line) + ": duplicate pattern true"@)
                    } else {
                        bool_patterns(env, pats, i + 1, true, f, wild)
                    }
                } else {
                    if f {
                        Err(ln(line) + ": duplicate pattern false"@)
                    } else {
                        bool_patterns(env, pats, i + 1, t, true, wild)
                    }
                },
            },
            PatternView::Wildcard { .. } => match wild {
                Some(w) => Err(unreachable_text(line, w)),
                None => if t && f {
                    Err(
                        ln(line)
                            + ": unreachable pattern: both 'true' and 'false' are already covered"@,
                    )
                } else {
                    bool_patterns(env, pats, i + 1, t, f, Some(line))
                },
            },
            _ => Err(pattern_mismatch(env, line, TypeView::Bool)),
        }
    }
}

/// Check a match's patterns against the scrutinee type: variant tags and
/// binder types are resolved, foreign and duplicate patterns are rejected,
/// and the match must be exhaustive.
#[verifier::opaque]
pub open spec fn check_patterns(
    env: EnvView,
    scrut: TypeView,
    pats: Seq<PatternView>,
    line: u32,
) -> Result<Seq<PatternView>, Seq<char>> {
    match scrut {
        TypeView::Enum(eid, targs) => if eid >= env.enums.len() {
            Err(internal(line))
        } else {
            let info = env.enums[eid as int];
            match enum_patterns(
                env,
                eid,
                targs,
                pats,
                0,
                none_seen(info.variants.len()),
                None,
                Seq::empty(),
            ) {
                Err(e) => Err(e),
                Ok((ps, seen, wild)) => {
                    let missing = missing_variants(info.variants, seen, 0, Seq::empty());
                    if wild is None && missing.len() > 0 {
                        Err(
                            ln(line) + ": match on enum '"@ + info.name
                                + "' is not exhaustive; missing variant(s) "@ + join_text(
                                missing,
                                ", "@,
                            ) + " (or add a '_' arm)"@,
                        )
                    } else {
                        Ok(ps)
                    }
                },
            }
        },
        TypeView::Int(k) => match int_patterns(env, k, pats, 0, Seq::empty(), None, Seq::empty()) {
            Err(e) => Err(e),
            Ok((ps, _, wild)) => if wild is None {
                Err(ln(line) + ": match on "@ + k.spec_name() + " needs a final '_' arm"@)
            } else {
                Ok(ps)
            },
        },
        TypeView::Bool => match bool_patterns(env, pats, 0, false, false, None) {
            Err(e) => Err(e),
            Ok((t, f, wild)) => if wild is None && !(t && f) {
                Err(
                    ln(line)
                        + ": match on bool must cover both 'true' and 'false' (or add a '_' arm)"@,
                )
            } else {
                Ok(pats)
            },
        },
        TypeView::Param(_) => Err(
            ln(line) + ": cannot match on a value of generic type "@ + env.show(scrut),
        ),
        _ => Err(
            ln(line) + ": cannot match on a value of type "@ + env.show(scrut)
                + "; match works on enums, integers, and bools"@,
        ),
    }
}

/// Declare the binders of a field pattern, from index `i` on.
pub open spec fn declare_fields(
    st: BodyView,
    fs: Seq<(Seq<char>, PatBinderView, u32)>,
    line: u32,
    i: nat,
    acc: Seq<(Seq<char>, PatBinderView, u32)>,
) -> Result<(Seq<(Seq<char>, PatBinderView, u32)>, BodyView), Seq<char>>
    decreases fs.len() - i,
{
    if i >= fs.len() {
        Ok((acc, st))
    } else {
        let (fname, b, index) = fs[i as int];
        match declare(st, b.name, b.ty, line) {
            Err(e) => Err(e),
            Ok((local, st1)) => declare_fields(
                st1,
                fs,
                line,
                i + 1,
                acc.push((fname, PatBinderView { local, ..b }, index)),
            ),
        }
    }
}

/// Declare a pattern's binders as locals in the current (arm) scope.
#[verifier::opaque]
pub open spec fn declare_binders(st: BodyView, p: PatternView) -> Result<
    (PatternView, BodyView),
    Seq<char>,
> {
    match p {
        PatternView::Variant { enum_name, variant, args, tag, line } => match args {
            PatArgsView::Bare => Ok((p, st)),
            PatArgsView::Single(b) => match declare(st, b.name, b.ty, line) {
                Err(e) => Err(e),
                Ok((local, st1)) => Ok(
                    (
                        PatternView::Variant {
                            enum_name,
                            variant,
                            args: PatArgsView::Single(PatBinderView { local, ..b }),
                            tag,
                            line,
                        },
                        st1,
                    ),
                ),
            },
            PatArgsView::Fields(fs) => match declare_fields(st, fs, line, 0, Seq::empty()) {
                Err(e) => Err(e),
                Ok((fs2, st1)) => Ok(
                    (
                        PatternView::Variant {
                            enum_name,
                            variant,
                            args: PatArgsView::Fields(fs2),
                            tag,
                            line,
                        },
                        st1,
                    ),
                ),
            },
        },
        _ => Ok((p, st)),
    }
}

pub open spec fn stmt_patterns(arms: Seq<(PatternView, BlockView)>) -> Seq<PatternView> {
    Seq::new(arms.len(), |i: int| arms[i].0)
}

pub open spec fn expr_patterns(arms: Seq<(PatternView, ExprView)>) -> Seq<PatternView> {
    Seq::new(arms.len(), |i: int| arms[i].0)
}

} // verus!
