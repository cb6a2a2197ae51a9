//! Type checker: resolves names and types, infers local types, analyses
//! closure captures, and rewrites builtin calls. It gives exactly what the
//! typing rules say.
use vstd::prelude::*;

use crate::ast::{
    binders_view, captures_view, clone_opt_type_expr, clone_params, enum_defs_view, expr_arms_view,
    exprs_view, func_defs_view, inits_view, method_defs_view, opt_type_expr_view, params_view,
    payloads_view, stmt_arms_view, stmts_view, struct_defs_view, type_exprs_view, BinOp, Block,
    BlockView, Builtin, Capture, CaptureView, EnumDef, Expr, ExprKind, ExprView, FuncDef,
    FuncDefView, LambdaDef, MethodDef, PatArgs, PatArgsView, PatBinder, PatBinderView, Pattern,
    PatternView, Program, ProgramView, Stmt, StmtView, StructDef, TypeExpr, TypeExprView, UnOp,
    VarRes, VariantArgs, VariantPayloadExpr,
};
use crate::rules;
use crate::rules::{CheckedView, SideView};
use crate::text::{
    cat2, cat3, cat4, cat5, cat6, cat7, cat8, clone_names, dec, dec_int, dec_usize, find_name,
    join, names_view, owned, position, position_from, str_eq,
};
use crate::types::{
    enums_view, expect_view, field_names, opt_types_view, structs_view, typed_names_view,
    types_after_first, types_view, variant_names, variants_view, EnumInfo, IntKind, StructInfo, Type, TypeView,
    VariantPayload, VariantPayloadView,
};
use crate::typing;
use crate::typing::{
    internal, ln, partial_args, solution, unsolved, BodyView, CtxView, EnvView, FuncSigView,
    MethodView, TypeKey, MAX_LOCALS,
};

verus! {

// -- Tables and state -------------------------------------------------------

pub struct FuncSig {
    pub name: String,
    /// Type parameter names; `params`/`ret` may contain `Type::Param`
    /// indices into this list. Empty for a non-generic function.
    pub type_params: Vec<String>,
    pub params: Vec<Type>,
    pub ret: Type,
}

pub struct Checked {
    pub structs: Vec<StructInfo>,
    pub enums: Vec<EnumInfo>,
    pub funcs: Vec<FuncSig>,
    /// Types of each function's locals, indexed by `VarRes::Local`.
    pub func_locals: Vec<Vec<Type>>,
    /// Same for lambdas, indexed by lambda id.
    pub lambda_locals: Vec<Vec<Type>>,
    /// (param types, return type) per lambda id.
    pub lambda_sigs: Vec<(Vec<Type>, Type)>,
}

struct MethodEntry {
    key: TypeKey,
    name: String,
    fid: u32,
    has_self: bool,
}

/// The tables of declared things.
struct Checker {
    structs: Vec<StructInfo>,
    enums: Vec<EnumInfo>,
    option_enum: Option<u32>,
    funcs: Vec<FuncSig>,
    methods: Vec<MethodEntry>,
    type_params: Vec<String>,
}

/// Per-function (or per-lambda) checking context.
struct FnCtx {
    vars: Vec<(String, u32, Type)>,
    locals: Vec<Type>,
    captures: Option<Vec<Capture>>,
    ret: Type,
}

/// The state while a body is checked.
struct Body {
    cur: FnCtx,
    outer: Vec<FnCtx>,
    in_loop: bool,
    lambda_locals: Vec<Vec<Type>>,
    lambda_sigs: Vec<(Vec<Type>, Type)>,
}

impl FuncSig {
    pub open spec fn view(&self) -> FuncSigView {
        FuncSigView {
            name: self.name@,
            type_params: names_view(self.type_params@),
            params: types_view(self.params@),
            ret: self.ret@,
        }
    }
}

pub open spec fn sigs_view(s: Seq<FuncSig>) -> Seq<FuncSigView> {
    Seq::new(s.len(), |i: int| s[i]@)
}

pub open spec fn locals_view(s: Seq<Vec<Type>>) -> Seq<Seq<TypeView>> {
    Seq::new(s.len(), |i: int| types_view(s[i]@))
}

pub open spec fn lambda_sigs_view(s: Seq<(Vec<Type>, Type)>) -> Seq<(Seq<TypeView>, TypeView)> {
    Seq::new(s.len(), |i: int| (types_view(s[i].0@), s[i].1@))
}

impl Checked {
    pub open spec fn view(&self) -> CheckedView {
        CheckedView {
            structs: structs_view(self.structs@),
            enums: enums_view(self.enums@),
            funcs: sigs_view(self.funcs@),
            func_locals: locals_view(self.func_locals@),
            lambda_locals: locals_view(self.lambda_locals@),
            lambda_sigs: lambda_sigs_view(self.lambda_sigs@),
        }
    }
}

impl MethodEntry {
    spec fn view(&self) -> MethodView {
        MethodView {
            key: self.key,
            name: self.name@,
            fid: self.fid,
            has_self: self.has_self,
        }
    }
}

spec fn methods_view(s: Seq<MethodEntry>) -> Seq<MethodView> {
    Seq::new(s.len(), |i: int| s[i]@)
}

impl Checker {
    spec fn view(&self) -> EnvView {
        EnvView {
            structs: structs_view(self.structs@),
            enums: enums_view(self.enums@),
            option_enum: self.option_enum,
            funcs: sigs_view(self.funcs@),
            methods: methods_view(self.methods@),
            type_params: names_view(self.type_params@),
        }
    }
}

spec fn vars_view(s: Seq<(String, u32, Type)>) -> Seq<(Seq<char>, u32, TypeView)> {
    Seq::new(s.len(), |i: int| (s[i].0@, s[i].1, s[i].2@))
}

spec fn opt_captures_view(c: Option<Vec<Capture>>) -> Option<Seq<CaptureView>> {
    match c {
        Some(c) => Some(captures_view(c@)),
        None => None,
    }
}

impl FnCtx {
    spec fn view(&self) -> CtxView {
        CtxView {
            vars: vars_view(self.vars@),
            locals: types_view(self.locals@),
            captures: opt_captures_view(self.captures),
            ret: self.ret@,
        }
    }
}

spec fn ctxs_view(s: Seq<FnCtx>) -> Seq<CtxView> {
    Seq::new(s.len(), |i: int| s[i]@)
}

impl Body {
    spec fn view(&self) -> BodyView {
        BodyView {
            cur: self.cur@,
            outer: ctxs_view(self.outer@),
            in_loop: self.in_loop,
            lambda_locals: locals_view(self.lambda_locals@),
            lambda_sigs: lambda_sigs_view(self.lambda_sigs@),
        }
    }

    spec fn wf(self) -> bool {
        self.lambda_locals@.len() == self.lambda_sigs@.len()
    }

    /// The state later in the same context.
    spec fn follows(self, before: Body) -> bool {
        &&& self.wf()
        &&& self.outer@.len() == before.outer@.len()
        &&& self.lambda_locals@.len() >= before.lambda_locals@.len()
    }
}

// -- Results as values ------------------------------------------------------

/// A result and the state after it are what a rule gives.
spec fn obeys<V>(
    r: Result<V, Seq<char>>,
    want: Result<(V, BodyView), Seq<char>>,
    before: Body,
    after: Body,
) -> bool {
    match r {
        Ok(v) => want == Ok::<(V, BodyView), Seq<char>>((v, after@)) && after.follows(before),
        Err(m) => want == Err::<(V, BodyView), Seq<char>>(m),
    }
}

spec fn unit_r(r: Result<(), String>) -> Result<(), Seq<char>> {
    match r {
        Ok(()) => Ok(()),
        Err(m) => Err(m@),
    }
}

spec fn expr_r(r: Result<Expr, String>) -> Result<ExprView, Seq<char>> {
    match r {
        Ok(x) => Ok(x@),
        Err(m) => Err(m@),
    }
}

spec fn stmt_r(r: Result<Stmt, String>) -> Result<StmtView, Seq<char>> {
    match r {
        Ok(x) => Ok(x@),
        Err(m) => Err(m@),
    }
}

spec fn block_r(r: Result<Block, String>) -> Result<BlockView, Seq<char>> {
    match r {
        Ok(x) => Ok(x@),
        Err(m) => Err(m@),
    }
}

spec fn type_r(r: Result<Type, String>) -> Result<TypeView, Seq<char>> {
    match r {
        Ok(x) => Ok(x@),
        Err(m) => Err(m@),
    }
}

spec fn types_r(r: Result<Vec<Type>, String>) -> Result<Seq<TypeView>, Seq<char>> {
    match r {
        Ok(x) => Ok(types_view(x@)),
        Err(m) => Err(m@),
    }
}

// -- Small tools ------------------------------------------------------------

fn line_text(line: u32) -> (r: String)
    ensures
        r@ == ln(line),
{
    dec(line as u64)
}

fn malformed(line: u32) -> (r: String)
    ensures
        r@ == internal(line),
{
    cat2(line_text(line).as_str(), ": internal error: malformed syntax tree")
}

/// The position of a name among named types.
fn find_field(fs: &Vec<(String, Type)>, name: &str) -> (r: Option<usize>)
    ensures
        match r {
            Some(i) => i < fs.len() && position(field_names(typed_names_view(fs@)), name@) == Some(
                i as nat,
            ),
            None => position(field_names(typed_names_view(fs@)), name@) is None,
        },
{
    let ghost names = field_names(typed_names_view(fs@));
    let mut i: usize = 0;
    while i < fs.len()
        invariant
            i <= fs.len(),
            names == field_names(typed_names_view(fs@)),
            position(names, name@) == position_from(names, name@, i as nat),
        decreases fs.len() - i,
    {
        assert(names[i as int] == fs@[i as int].0@);
        if str_eq(fs[i].0.as_str(), name) {
            return Some(i);
        }
        i += 1;
    }
    None
}

/// The position of a name among variants.
fn find_variant(vs: &Vec<(String, VariantPayload)>, name: &str) -> (r: Option<usize>)
    ensures
        match r {
            Some(i) => i < vs.len() && position(variant_names(variants_view(vs@)), name@) == Some(
                i as nat,
            ),
            None => position(variant_names(variants_view(vs@)), name@) is None,
        },
{
    let ghost names = variant_names(variants_view(vs@));
    let mut i: usize = 0;
    while i < vs.len()
        invariant
            i <= vs.len(),
            names == variant_names(variants_view(vs@)),
            position(names, name@) == position_from(names, name@, i as nat),
        decreases vs.len() - i,
    {
        assert(names[i as int] == vs@[i as int].0@);
        if str_eq(vs[i].0.as_str(), name) {
            return Some(i);
        }
        i += 1;
    }
    None
}

/// The primitive type that a name denotes.
fn primitive_type(name: &str) -> (r: Option<Type>)
    ensures
        match r {
            Some(t) => typing::primitive(name@) == Some(t@),
            None => typing::primitive(name@) is None,
        },
{
    reveal(typing::primitive);
    if str_eq(name, "float") {
        Some(Type::Float)
    } else if str_eq(name, "bool") {
        Some(Type::Bool)
    } else if str_eq(name, "string") {
        Some(Type::Str)
    } else {
        match IntKind::from_name(name) {
            Some(k) => Some(Type::Int(k)),
            None => None,
        }
    }
}

/// The two's-complement bit pattern of an integer of any kind.
fn bit_pattern(v: i128) -> (r: u64)
    requires
        -0x8000_0000_0000_0000 <= v <= 0xffff_ffff_ffff_ffff,
    ensures
        r == typing::bits_of(v as int),
{
    if v < 0 {
        (v + 0x1_0000_0000_0000_0000) as u64
    } else {
        v as u64
    }
}

fn none_list(n: usize) -> (r: Vec<bool>)
    ensures
        r@ == typing::none_seen(n as nat),
{
    let mut out: Vec<bool> = Vec::new();
    let mut i: usize = 0;
    while i < n
        invariant
            i <= n,
            out@ == typing::none_seen(i as nat),
        decreases n - i,
    {
        out.push(false);
        assert(out@ =~= typing::none_seen((i + 1) as nat));
        i += 1;
    }
    out
}

fn find_false(seen: &Vec<bool>) -> (r: Option<usize>)
    ensures
        match r {
            Some(i) => i < seen.len() && typing::first_false(seen@, 0) == Some(i as nat),
            None => typing::first_false(seen@, 0) is None,
        },
{
    let mut i: usize = 0;
    while i < seen.len()
        invariant
            i <= seen.len(),
            typing::first_false(seen@, 0) == typing::first_false(seen@, i as nat),
        decreases seen.len() - i,
    {
        if !seen[i] {
            return Some(i);
        }
        i += 1;
    }
    None
}

// -- Unification ------------------------------------------------------------

/// Match a declared (possibly parameter-containing) type against an actual
/// argument type, binding unbound parameters in `solved` and checking
/// already-bound ones for equality.
fn unify(decl: &Type, actual: &Type, solved: &mut Vec<Option<Type>>) -> (r: bool)
    ensures
        (r, opt_types_view(final(solved)@)) == typing::unify(
            decl@,
            actual@,
            opt_types_view(old(solved)@),
        ),
        final(solved)@.len() == old(solved)@.len(),
    decreases decl, 1nat,
{
    match (decl, actual) {
        (Type::Param(i), _) => {
            let i: usize = *i as usize;
            if matches!(actual, Type::Unit | Type::Unknown) || i >= solved.len() {
                return false;
            }
            match &solved[i] {
                Some(t) => {
                    return t.same(actual);
                },
                None => {},
            }
            solved.set(i, Some(actual.clone()));
            assert(opt_types_view(solved@) =~= opt_types_view(old(solved)@).update(
                i as int,
                Some(actual@),
            ));
            true
        },
        (Type::Array(a), Type::Array(b)) => unify(a, b, solved),
        (Type::Enum(i, ax), Type::Enum(j, bx)) => *i == *j && unify_all(ax, bx, solved),
        (Type::Struct(i, ax), Type::Struct(j, bx)) => *i == *j && unify_all(ax, bx, solved),
        (Type::Fn(ap, ar), Type::Fn(bp, br)) => {
            ap.len() == bp.len() && unify_all(ap, bp, solved) && unify(ar, br, solved)
        },
        (Type::Array(_), _) => false,
        (Type::Enum(..), _) => false,
        (Type::Struct(..), _) => false,
        (Type::Fn(..), _) => false,
        _ => decl.same(actual),
    }
}

fn unify_all(ax: &Vec<Type>, bx: &Vec<Type>, solved: &mut Vec<Option<Type>>) -> (r: bool)
    ensures
        (r, opt_types_view(final(solved)@)) == typing::unify_all(
            types_view(ax@),
            types_view(bx@),
            0,
            opt_types_view(old(solved)@),
        ),
        final(solved)@.len() == old(solved)@.len(),
    decreases ax, 0nat,
{
    let mut i: usize = 0;
    while i < ax.len() && i < bx.len()
        invariant
            i <= ax.len(),
            i <= bx.len(),
            solved@.len() == old(solved)@.len(),
            typing::unify_all(types_view(ax@), types_view(bx@), 0, opt_types_view(old(solved)@))
                == typing::unify_all(
                types_view(ax@),
                types_view(bx@),
                i as nat,
                opt_types_view(solved@),
            ),
        decreases ax.len() - i,
    {
        if !unify(&ax[i], &bx[i], solved) {
            return false;
        }
        i += 1;
    }
    true
}

/// Substitute the parameters solved so far, leaving unsolved ones in place.
fn subst_partial(t: &Type, solved: &Vec<Option<Type>>) -> (r: Type)
    ensures
        r@ == typing::subst_partial(t@, opt_types_view(solved@)),
{
    let mut args: Vec<Type> = Vec::new();
    let mut i: usize = 0;
    while i < solved.len()
        invariant
            i <= solved.len(),
            args@.len() == i,
            forall|j: int|
                0 <= j < i ==> (#[trigger] args@[j])@ == partial_args(opt_types_view(solved@))[j],
        decreases solved.len() - i,
    {
        assert(opt_types_view(solved@)[i as int] == crate::types::opt_type_view(solved@[i as int]));
        match &solved[i] {
            Some(t) => args.push(t.clone()),
            None => args.push(Type::Param(i as u32)),
        }
        i += 1;
    }
    assert(types_view(args@) =~= partial_args(opt_types_view(solved@)));
    t.subst(args.as_slice())
}

fn unsolved_list(n: usize) -> (r: Vec<Option<Type>>)
    ensures
        opt_types_view(r@) == unsolved(n as nat),
        r@.len() == n,
{
    let mut out: Vec<Option<Type>> = Vec::new();
    let mut i: usize = 0;
    while i < n
        invariant
            i <= n,
            out@.len() == i,
            forall|j: int| 0 <= j < i ==> (#[trigger] out@[j]) is None,
        decreases n - i,
    {
        out.push(None);
        i += 1;
    }
    assert(opt_types_view(out@) =~= unsolved(n as nat));
    out
}

fn solved_list(ts: &Vec<Type>) -> (r: Vec<Option<Type>>)
    ensures
        opt_types_view(r@) == typing::all_solved(types_view(ts@)),
        r@.len() == ts@.len(),
{
    let mut out: Vec<Option<Type>> = Vec::new();
    let mut i: usize = 0;
    while i < ts.len()
        invariant
            i <= ts.len(),
            out@.len() == i,
            forall|j: int|
                0 <= j < i ==> crate::types::opt_type_view(#[trigger] out@[j]) == Some(ts@[j]@),
        decreases ts.len() - i,
    {
        out.push(Some(ts[i].clone()));
        i += 1;
    }
    assert(opt_types_view(out@) =~= typing::all_solved(types_view(ts@)));
    out
}

/// The bound types, or the first parameter that is not bound.
fn solve(solved: Vec<Option<Type>>) -> (r: Result<Vec<Type>, usize>)
    ensures
        match r {
            Ok(ts) => typing::first_unsolved(opt_types_view(solved@), 0) is None && types_view(
                ts@,
            ) == solution(opt_types_view(solved@)),
            Err(i) => i < solved@.len() && typing::first_unsolved(opt_types_view(solved@), 0)
                == Some(i as nat),
        },
{
    let ghost all = opt_types_view(solved@);
    let mut out: Vec<Type> = Vec::new();
    let mut i: usize = 0;
    while i < solved.len()
        invariant
            i <= solved.len(),
            all == opt_types_view(solved@),
            out@.len() == i,
            typing::first_unsolved(all, 0) == typing::first_unsolved(all, i as nat),
            forall|j: int| 0 <= j < i ==> (#[trigger] out@[j])@ == solution(all)[j],
        decreases solved.len() - i,
    {
        assert(all[i as int] == crate::types::opt_type_view(solved@[i as int]));
        match &solved[i] {
            Some(t) => out.push(t.clone()),
            None => return Err(i),
        }
        i += 1;
    }
    assert(types_view(out@) =~= solution(all));
    Ok(out)
}

// -- Builtins ---------------------------------------------------------------

fn free_builtin(name: &str) -> (r: Option<Builtin>)
    ensures
        r == typing::builtin_named(name@),
{
    reveal(typing::builtin_named);
    if str_eq(name, "println") {
        Some(Builtin::Println)
    } else if str_eq(name, "print") {
        Some(Builtin::Print)
    } else if str_eq(name, "assert") {
        Some(Builtin::Assert)
    } else if str_eq(name, "gc_collect") {
        Some(Builtin::GcCollect)
    } else {
        None
    }
}

/// The method spelling of a name that is no free function; used purely for a
/// helpful "unknown function" diagnostic.
fn retired_hint(name: &str) -> (r: Option<&'static str>)
    ensures
        match r {
            Some(h) => typing::method_hint(name@) == Some(h@),
            None => typing::method_hint(name@) is None,
        },
{
    reveal(typing::method_hint);
    if str_eq(name, "len") {
        Some("x.len()")
    } else if str_eq(name, "push") {
        Some("arr.push(value)")
    } else if str_eq(name, "pop") {
        Some("arr.pop()")
    } else if str_eq(name, "itos") {
        Some("i.to_string()")
    } else if str_eq(name, "ftos") {
        Some("f.to_string()")
    } else if str_eq(name, "itof") {
        Some("i.to_float()")
    } else if str_eq(name, "ftoi") {
        Some("f as int")
    } else if str_eq(name, "stoi") {
        Some("s.to_int()")
    } else if str_eq(name, "stof") {
        Some("s.to_float()")
    } else if str_eq(name, "stob") {
        Some("s.to_bytes()")
    } else if str_eq(name, "btos") {
        Some("bytes.to_string()")
    } else if str_eq(name, "unwrap") {
        Some("opt.unwrap()")
    } else {
        None
    }
}

/// Which builtin (if any) the method name `name` denotes on a receiver of
/// type `recv`. User-defined methods are looked up first by the caller, so
/// e.g. a user `unwrap` on a shadowing `Option` wins.
fn builtin_method(recv: &Type, name: &str, option_enum: Option<u32>) -> (r: Option<Builtin>)
    ensures
        r == typing::builtin_method(recv@, name@, option_enum),
{
    reveal(typing::builtin_method);
    match recv {
        Type::Array(_) => {
            if str_eq(name, "len") {
                Some(Builtin::Len)
            } else if str_eq(name, "push") {
                Some(Builtin::Push)
            } else if str_eq(name, "pop") {
                Some(Builtin::Pop)
            } else if str_eq(name, "to_string") {
                Some(Builtin::Btos)
            } else {
                None
            }
        },
        Type::Str => {
            if str_eq(name, "len") {
                Some(Builtin::Len)
            } else if str_eq(name, "to_int") {
                Some(Builtin::Stoi)
            } else if str_eq(name, "to_float") {
                Some(Builtin::Stof)
            } else if str_eq(name, "to_bytes") {
                Some(Builtin::Stob)
            } else {
                None
            }
        },
        Type::Int(_) => {
            if str_eq(name, "to_string") {
                Some(Builtin::Itos)
            } else if str_eq(name, "to_float") {
                Some(Builtin::Itof)
            } else {
                None
            }
        },
        Type::Float => {
            if str_eq(name, "to_string") {
                Some(Builtin::Ftos)
            } else {
                None
            }
        },
        Type::Enum(eid, _) => {
            let is_option = match option_enum {
                Some(o) => o == *eid,
                None => false,
            };
            if str_eq(name, "unwrap") && is_option {
                Some(Builtin::Unwrap)
            } else {
                None
            }
        },
        _ => None,
    }
}

fn surface_name(b: Builtin) -> (r: &'static str)
    ensures
        r@ == typing::method_surface(b),
{
    reveal(typing::method_surface);
    match b {
        Builtin::Len => "len",
        Builtin::Push => "push",
        Builtin::Pop => "pop",
        Builtin::Itos | Builtin::Ftos | Builtin::Btos => "to_string",
        Builtin::Itof | Builtin::Stof => "to_float",
        Builtin::Stoi => "to_int",
        Builtin::Stob => "to_bytes",
        _ => "unwrap",
    }
}

// -- Returning --------------------------------------------------------------

/// Conservative "all paths return" analysis.
fn always_returns(block: &Block) -> (r: bool)
    ensures
        r == typing::always_returns(block@),
    decreases block, 0nat,
{
    let mut i: usize = 0;
    while i < block.stmts.len()
        invariant
            i <= block.stmts.len(),
            forall|j: int| 0 <= j < i ==> !typing::stmt_returns(#[trigger] block@.stmts[j]),
        decreases block.stmts.len() - i,
    {
        assert(block@.stmts[i as int] == block.stmts@[i as int]@);
        if stmt_always_returns(&block.stmts[i]) {
            return true;
        }
        i += 1;
    }
    false
}

fn stmt_always_returns(stmt: &Stmt) -> (r: bool)
    ensures
        r == typing::stmt_returns(stmt@),
    decreases stmt, 0nat,
{
    match stmt {
        Stmt::Return { .. } => true,
        Stmt::If { then, els, .. } => match els {
            Some(els) => always_returns(then) && always_returns(els),
            None => false,
        },
        Stmt::Match { arms, .. } => arms.len() > 0 && all_arms_return(arms),
        Stmt::Block(b) => always_returns(b),
        _ => false,
    }
}

fn all_arms_return(arms: &Vec<(Pattern, Block)>) -> (r: bool)
    ensures
        r == typing::all_arms_return(stmt_arms_view(arms@)),
    decreases arms, 0nat,
{
    let mut i: usize = 0;
    while i < arms.len()
        invariant
            i <= arms.len(),
            forall|j: int|
                0 <= j < i ==> typing::always_returns((#[trigger] stmt_arms_view(arms@)[j]).1),
        decreases arms.len() - i,
    {
        assert(stmt_arms_view(arms@)[i as int] == (arms@[i as int].0@, arms@[i as int].1@));
        if !always_returns(&arms[i].1) {
            return false;
        }
        i += 1;
    }
    true
}

// -- Lookups ----------------------------------------------------------------

impl Checker {
    fn show(&self, t: &Type) -> (r: String)
        ensures
            r@ == self@.show(t@),
    {
        reveal(EnvView::show);
        t.display(
            self.structs.as_slice(),
            self.enums.as_slice(),
            self.type_params.as_slice(),
        ).to_string()
    }

    fn struct_id(&self, name: &str) -> (r: Option<usize>)
        ensures
            match r {
                Some(i) => i < self.structs.len() && self@.struct_id(name@) == Some(i as nat),
                None => self@.struct_id(name@) is None,
            },
    {
        let ghost names = typing::struct_names(self@.structs);
        let mut i: usize = 0;
        while i < self.structs.len()
            invariant
                i <= self.structs.len(),
                names == typing::struct_names(self@.structs),
                position(names, name@) == position_from(names, name@, i as nat),
            decreases self.structs.len() - i,
        {
            assert(names[i as int] == self.structs@[i as int].name@);
            if str_eq(self.structs[i].name.as_str(), name) {
                return Some(i);
            }
            i += 1;
        }
        None
    }

    fn enum_id(&self, name: &str) -> (r: Option<usize>)
        ensures
            match r {
                Some(i) => i < self.enums.len() && self@.enum_id(name@) == Some(i as nat),
                None => self@.enum_id(name@) is None,
            },
    {
        let ghost names = typing::enum_names(self@.enums);
        let mut i: usize = 0;
        while i < self.enums.len()
            invariant
                i <= self.enums.len(),
                names == typing::enum_names(self@.enums),
                position(names, name@) == position_from(names, name@, i as nat),
            decreases self.enums.len() - i,
        {
            assert(names[i as int] == self.enums@[i as int].name@);
            if str_eq(self.enums[i].name.as_str(), name) {
                return Some(i);
            }
            i += 1;
        }
        None
    }

    fn func_id(&self, name: &str) -> (r: Option<usize>)
        ensures
            match r {
                Some(i) => i < self.funcs.len() && self@.func_id(name@) == Some(i as nat),
                None => self@.func_id(name@) is None,
            },
    {
        let ghost names = typing::func_names(self@.funcs);
        let mut i: usize = 0;
        while i < self.funcs.len()
            invariant
                i <= self.funcs.len(),
                names == typing::func_names(self@.funcs),
                position(names, name@) == position_from(names, name@, i as nat),
            decreases self.funcs.len() - i,
        {
            assert(names[i as int] == self.funcs@[i as int].name@);
            if str_eq(self.funcs[i].name.as_str(), name) {
                return Some(i);
            }
            i += 1;
        }
        None
    }

    fn method_index(&self, key: TypeKey, name: &str) -> (r: Option<usize>)
        ensures
            match r {
                Some(i) => i < self.methods.len() && self@.method_from(key, name@, 0) == Some(
                    i as nat,
                ),
                None => self@.method_from(key, name@, 0) is None,
            },
    {
        let mut i: usize = 0;
        while i < self.methods.len()
            invariant
                i <= self.methods.len(),
                self@.method_from(key, name@, 0) == self@.method_from(key, name@, i as nat),
            decreases self.methods.len() - i,
        {
            assert(self@.methods[i as int] == self.methods@[i as int]@);
            if self.methods[i].key == key && str_eq(self.methods[i].name.as_str(), name) {
                return Some(i);
            }
            i += 1;
        }
        None
    }

    fn method(&self, key: TypeKey, name: &str) -> (r: Option<(u32, bool)>)
        ensures
            r == self@.method(key, name@),
    {
        match self.method_index(key, name) {
            Some(i) => {
                assert(self@.methods[i as int] == self.methods@[i as int]@);
                Some((self.methods[i].fid, self.methods[i].has_self))
            },
            None => None,
        }
    }

    fn lookup_method(&self, recv: &Type, name: &str) -> (r: Option<(u32, bool)>)
        ensures
            r == self@.lookup_method(recv@, name@),
    {
        match recv {
            Type::Struct(id, _) => self.method(TypeKey::Struct(*id), name),
            Type::Enum(id, _) => self.method(TypeKey::Enum(*id), name),
            _ => None,
        }
    }

    /// The bare declaration name of a struct or enum type, for diagnostics.
    fn type_base_name(&self, t: &Type) -> (r: String)
        ensures
            r@ == self@.base_name(t@),
    {
        match t {
            Type::Struct(id, _) => {
                if (*id as usize) < self.structs.len() {
                    assert(self@.structs[*id as int] == self.structs@[*id as int]@);
                    self.structs[*id as usize].name.clone()
                } else {
                    cat3("<struct ", dec(*id as u64).as_str(), ">")
                }
            },
            Type::Enum(id, _) => self.enum_name(*id),
            _ => self.show(t),
        }
    }

    fn enum_name(&self, id: u32) -> (r: String)
        ensures
            r@ == crate::types::enum_name(self@.enums, id),
    {
        if (id as usize) < self.enums.len() {
            assert(self@.enums[id as int] == self.enums@[id as int]@);
            self.enums[id as usize].name.clone()
        } else {
            cat3("<enum ", dec(id as u64).as_str(), ">")
        }
    }

    /// Validate a declaration's type parameter list.
    fn check_type_params(&self, params: &Vec<String>, line: u32) -> (r: Result<(), String>)
        ensures
            unit_r(r) == typing::check_type_params(names_view(params@), line, 0),
    {
        let ghost ps = names_view(params@);
        let mut i: usize = 0;
        while i < params.len()
            invariant
                i <= params.len(),
                ps == names_view(params@),
                typing::check_type_params(ps, line, 0) == typing::check_type_params(
                    ps,
                    line,
                    i as nat,
                ),
            decreases params.len() - i,
        {
            assert(ps[i as int] == params@[i as int]@);
            let p = params[i].as_str();
            let mut dup = false;
            let mut j: usize = 0;
            while j < i
                invariant
                    j <= i < params.len(),
                    ps == names_view(params@),
                    p@ == ps[i as int],
                    dup == exists|k: int| 0 <= k < j && #[trigger] ps[k] == ps[i as int],
                decreases i - j,
            {
                assert(ps[j as int] == params@[j as int]@);
                if str_eq(params[j].as_str(), p) {
                    dup = true;
                }
                j += 1;
            }
            proof {
                let before = ps.take(i as int);
                if dup {
                    let k = choose|k: int| 0 <= k < i && #[trigger] ps[k] == ps[i as int];
                    assert(before[k] == ps[i as int]);
                    assert(before.contains(ps[i as int]));
                } else {
                    assert(!before.contains(ps[i as int])) by {
                        if before.contains(ps[i as int]) {
                            let k = choose|k: int|
                                0 <= k < before.len() && before[k] == ps[i as int];
                            assert(ps[k] == ps[i as int]);
                        }
                    }
                }
            }
            if dup {
                return Err(
                    cat4(line_text(line).as_str(), ": duplicate type parameter '", p, "'"),
                );
            }
            if primitive_type(p).is_some() {
                return Err(
                    cat4(
                        line_text(line).as_str(),
                        ": type parameter '",
                        p,
                        "' shadows a primitive type",
                    ),
                );
            }
            i += 1;
        }
        Ok(())
    }

    // -- Types --------------------------------------------------------------

    fn resolve_type(&self, te: &TypeExpr) -> (r: Result<Type, String>)
        ensures
            type_r(r) == typing::resolve_type(self@, te@),
        decreases te@, 1nat,
    {
        match te {
            TypeExpr::Named(name, args, line) => {
                assert(te@ == TypeExprView::Named(name@, type_exprs_view(args@), *line));
                assert(type_exprs_view(args@).len() == args@.len());
                // Type parameters in scope shadow struct names.
                match find_name(&self.type_params, name.as_str()) {
                    Some(i) => {
                        if args.len() > 0 {
                            return Err(
                                cat4(
                                    line_text(*line).as_str(),
                                    ": type parameter '",
                                    name.as_str(),
                                    "' takes no type arguments",
                                ),
                            );
                        }
                        return Ok(Type::Param(i as u32));
                    },
                    None => {},
                }
                match primitive_type(name.as_str()) {
                    Some(t) => {
                        if args.len() > 0 {
                            return Err(
                                cat4(
                                    line_text(*line).as_str(),
                                    ": type '",
                                    name.as_str(),
                                    "' takes no type arguments",
                                ),
                            );
                        }
                        return Ok(t);
                    },
                    None => {},
                }
                match self.struct_id(name.as_str()) {
                    Some(id) => {
                        assert(self@.structs[id as int] == self.structs@[id as int]@);
                        let want = self.structs[id].type_params.len();
                        if args.len() != want {
                            return Err(
                                arity_error(*line, ": struct '", name.as_str(), want, args.len()),
                            );
                        }
                        return match self.resolve_types(args) {
                            Ok(ts) => Ok(Type::Struct(id as u32, ts)),
                            Err(m) => Err(m),
                        };
                    },
                    None => {},
                }
                match self.enum_id(name.as_str()) {
                    Some(id) => {
                        assert(self@.enums[id as int] == self.enums@[id as int]@);
                        let want = self.enums[id].type_params.len();
                        if args.len() != want {
                            return Err(
                                arity_error(*line, ": enum '", name.as_str(), want, args.len()),
                            );
                        }
                        match self.resolve_types(args) {
                            Ok(ts) => Ok(Type::Enum(id as u32, ts)),
                            Err(m) => Err(m),
                        }
                    },
                    None => Err(
                        cat4(line_text(*line).as_str(), ": unknown type '", name.as_str(), "'"),
                    ),
                }
            },
            TypeExpr::Array(elem) => {
                assert(te@ == TypeExprView::Array(Box::new(elem@)));
                match self.resolve_type(elem) {
                    Ok(t) => Ok(Type::Array(Box::new(t))),
                    Err(m) => Err(m),
                }
            },
            TypeExpr::Fn(params, ret, line) => {
                assert(te@ == TypeExprView::Fn(
                    type_exprs_view(params@),
                    match ret {
                        Some(r) => Some(Box::new(r@)),
                        None => None,
                    },
                    *line,
                ));
                let ps = match self.resolve_types(params) {
                    Ok(ps) => ps,
                    Err(m) => return Err(m),
                };
                match ret {
                    None => {
                        let unit = Type::Unit;
                        assert(unit@ == TypeView::Unit);
                        Ok(Type::Fn(ps, Box::new(unit)))
                    },
                    Some(r) => match self.resolve_type(r) {
                        Ok(t) => Ok(Type::Fn(ps, Box::new(t))),
                        Err(m) => Err(m),
                    },
                }
            },
        }
    }

    fn resolve_types(&self, tes: &Vec<TypeExpr>) -> (r: Result<Vec<Type>, String>)
        ensures
            types_r(r) == typing::resolve_types(self@, type_exprs_view(tes@), 0, Seq::empty()),
        decreases type_exprs_view(tes@), tes@.len() + 1,
    {
        let ghost all = type_exprs_view(tes@);
        let mut out: Vec<Type> = Vec::new();
        assert(types_view(out@) =~= Seq::empty());
        let mut i: usize = 0;
        while i < tes.len()
            invariant
                i <= tes.len(),
                all == type_exprs_view(tes@),
                typing::resolve_types(self@, all, 0, Seq::empty()) == typing::resolve_types(
                    self@,
                    all,
                    i as nat,
                    types_view(out@),
                ),
            decreases tes.len() - i,
        {
            let ghost before = out@;
            assert(all[i as int] == tes@[i as int]@);
            match self.resolve_type(&tes[i]) {
                Ok(t) => {
                    out.push(t);
                    assert(types_view(out@) =~= types_view(before).push(t@));
                },
                Err(m) => return Err(m),
            }
            i += 1;
        }
        Ok(out)
    }

    fn resolve_params(&self, ps: &Vec<(String, TypeExpr)>) -> (r: Result<Vec<Type>, String>)
        ensures
            types_r(r) == typing::resolve_params(self@, params_view(ps@), 0, Seq::empty()),
    {
        let ghost all = params_view(ps@);
        let mut out: Vec<Type> = Vec::new();
        assert(types_view(out@) =~= Seq::empty());
        let mut i: usize = 0;
        while i < ps.len()
            invariant
                i <= ps.len(),
                all == params_view(ps@),
                typing::resolve_params(self@, all, 0, Seq::empty()) == typing::resolve_params(
                    self@,
                    all,
                    i as nat,
                    types_view(out@),
                ),
            decreases ps.len() - i,
        {
            let ghost before = out@;
            assert(all[i as int] == (ps@[i as int].0@, ps@[i as int].1@));
            match self.resolve_type(&ps[i].1) {
                Ok(t) => {
                    out.push(t);
                    assert(types_view(out@) =~= types_view(before).push(t@));
                },
                Err(m) => return Err(m),
            }
            i += 1;
        }
        Ok(out)
    }

    fn resolve_ret(&self, ret: &Option<TypeExpr>) -> (r: Result<Type, String>)
        ensures
            type_r(r) == typing::resolve_ret(self@, crate::ast::opt_type_expr_view(*ret)),
    {
        match ret {
            Some(t) => self.resolve_type(t),
            None => Ok(Type::Unit),
        }
    }

    // -- Operators ----------------------------------------------------------

    fn check_arith_op(&self, op: BinOp, ty: &Type, line: u32) -> (r: Result<(), String>)
        ensures
            unit_r(r) == typing::check_arith_op(self@, op, ty@, line),
    {
        reveal(typing::check_arith_op);
        let ok = match op {
            BinOp::Add => matches!(ty, Type::Int(_) | Type::Float | Type::Str),
            BinOp::Sub | BinOp::Mul | BinOp::Div => matches!(ty, Type::Int(_) | Type::Float),
            BinOp::Rem | BinOp::BitAnd | BinOp::BitOr | BinOp::BitXor | BinOp::Shl
                | BinOp::Shr => matches!(ty, Type::Int(_)),
            _ => return Err(malformed(line)),
        };
        if ok {
            Ok(())
        } else if matches!(
            op,
            BinOp::BitAnd | BinOp::BitOr | BinOp::BitXor | BinOp::Shl | BinOp::Shr
        ) {
            Err(
                cat5(
                    line_text(line).as_str(),
                    ": operator '",
                    op.sym(),
                    "' needs integer operands, found ",
                    self.show(ty).as_str(),
                ),
            )
        } else {
            Err(
                cat4(
                    line_text(line).as_str(),
                    ": invalid operand type ",
                    self.show(ty).as_str(),
                    " for arithmetic",
                ),
            )
        }
    }

    fn mismatch(&self, line: u32, want: &Type, found: &Type) -> (r: String)
        ensures
            r@ == typing::mismatch(self@, line, want@, found@),
    {
        cat5(
            line_text(line).as_str(),
            ": type mismatch: expected ",
            self.show(want).as_str(),
            ", found ",
            self.show(found).as_str(),
        )
    }

    fn require_assignable(&self, target: &Type, value: &Type, line: u32) -> (r: Result<(), String>)
        ensures
            unit_r(r) == typing::require_assignable(self@, target@, value@, line),
    {
        if target.same(value) {
            Ok(())
        } else {
            Err(self.mismatch(line, target, value))
        }
    }
}

fn arity_error(line: u32, what: &str, name: &str, want: usize, got: usize) -> (r: String)
    ensures
        r@ == typing::arity_text(line, what@, name@, want as nat, got as nat),
{
    cat7(
        line_text(line).as_str(),
        what,
        name,
        "' expects ",
        dec_usize(want).as_str(),
        " type argument(s), got ",
        dec_usize(got).as_str(),
    )
}

/// The kind that an integer literal of value `v` has in context.
fn literal_kind(v: i128, expected: Option<&Type>, line: u32) -> (r: Result<IntKind, String>)
    requires
        v > i128::MIN,
    ensures
        match r {
            Ok(k) => typing::literal_kind(v as int, expect_view(expected), line) == Ok::<
                IntKind,
                Seq<char>,
            >(k) && k.holds(v as int),
            Err(m) => typing::literal_kind(v as int, expect_view(expected), line) == Err::<
                IntKind,
                Seq<char>,
            >(m@),
        },
{
    reveal(typing::literal_kind);
    let kind = match expected {
        Some(Type::Int(k)) => *k,
        _ => IntKind::I64,
    };
    if kind.contains(v) {
        Ok(kind)
    } else {
        Err(range_error(v, kind, line))
    }
}

fn range_error(v: i128, kind: IntKind, line: u32) -> (r: String)
    requires
        v > i128::MIN,
    ensures
        r@ == typing::out_of_range(v as int, kind, line),
{
    cat5(
        line_text(line).as_str(),
        ": integer literal ",
        dec_int(v).as_str(),
        " out of range for ",
        kind.name(),
    )
}

// -- Variables --------------------------------------------------------------

impl FnCtx {
    /// A variable of this context itself: a local, or already captured.
    fn own_var(&self, name: &str) -> (r: Option<(VarRes, Type)>)
        ensures
            match r {
                Some((v, t)) => typing::own_var(self@, name@) == Some((v, t@)),
                None => typing::own_var(self@, name@) is None,
            },
    {
        reveal(typing::own_var);
        let ghost vars = vars_view(self.vars@);
        let mut n: usize = self.vars.len();
        while n > 0
            invariant
                n <= self.vars.len(),
                vars == vars_view(self.vars@),
                typing::find_var(vars, name@, vars.len()) == typing::find_var(
                    vars,
                    name@,
                    n as nat,
                ),
            decreases n,
        {
            assert(vars[n - 1] == (
                self.vars@[n - 1].0@,
                self.vars@[n - 1].1,
                self.vars@[n - 1].2@,
            ));
            if str_eq(self.vars[n - 1].0.as_str(), name) {
                reveal(typing::own_var);
                return Some((VarRes::Local(self.vars[n - 1].1), self.vars[n - 1].2.clone()));
            }
            n -= 1;
        }
        match &self.captures {
            None => None,
            Some(caps) => {
                let ghost names = typing::capture_names(captures_view(caps@));
                let mut i: usize = 0;
                while i < caps.len()
                    invariant
                        i <= caps.len(),
                        self.captures == Some(*caps),
                        vars == vars_view(self.vars@),
                        typing::find_var(vars, name@, vars.len()) is None,
                        names == typing::capture_names(captures_view(caps@)),
                        position(names, name@) == position_from(names, name@, i as nat),
                    decreases caps.len() - i,
                {
                    assert(names[i as int] == caps@[i as int].name@);
                    if str_eq(caps[i].name.as_str(), name) {
                        reveal(typing::own_var);
                        assert(captures_view(caps@)[i as int] == caps@[i as int]@);
                        return Some((VarRes::Captured(i as u32), caps[i].ty.clone()));
                    }
                    i += 1;
                }
                None
            },
        }
    }
}

impl Body {
    /// Resolve a variable, inserting captures into intervening lambdas.
    /// Returns the resolution *in the innermost context* plus its type.
    fn resolve_var(&mut self, name: &str) -> (r: Option<(VarRes, Type)>)
        requires
            old(self).wf(),
        ensures
            match r {
                Some((v, t)) => typing::resolve_var(old(self)@, name@) == (
                    final(self)@,
                    Some((v, t@)),
                ),
                None => typing::resolve_var(old(self)@, name@) == (
                    final(self)@,
                    None::<(VarRes, TypeView)>,
                ),
            },
            final(self).follows(*old(self)),
    {
        reveal(typing::resolve_var);
        resolve_var_at(&mut self.cur, &mut self.outer, name)
    }

    fn declare_local(&mut self, name: &str, ty: Type, line: u32) -> (r: Result<u32, String>)
        requires
            old(self).wf(),
        ensures
            match r {
                Ok(idx) => typing::declare(old(self)@, name@, ty@, line) == Ok::<
                    (u32, BodyView),
                    Seq<char>,
                >((idx, final(self)@)) && final(self).follows(*old(self)),
                Err(m) => typing::declare(old(self)@, name@, ty@, line) == Err::<
                    (u32, BodyView),
                    Seq<char>,
                >(m@) && *final(self) == *old(self),
            },
    {
        reveal(typing::declare);
        let idx = self.cur.locals.len();
        if idx >= MAX_LOCALS {
            return Err(cat2(line_text(line).as_str(), ": too many locals in one function"));
        }
        let ghost vars = self.cur.vars@;
        let ghost locals = self.cur.locals@;
        let ghost shown = ty@;
        self.cur.locals.push(ty.clone());
        self.cur.vars.push((owned(name), idx as u32, ty));
        assert(types_view(self.cur.locals@) =~= types_view(locals).push(shown));
        assert(vars_view(self.cur.vars@) =~= vars_view(vars).push((name@, idx as u32, shown)));
        Ok(idx as u32)
    }

    /// Leave a scope: forget the variables after the first `mark`.
    fn leave_scope(&mut self, mark: usize)
        requires
            old(self).wf(),
        ensures
            final(self)@ == typing::leave_scope(old(self)@, mark as nat),
            final(self).follows(*old(self)),
    {
        let ghost vars = self.cur.vars@;
        self.cur.vars.truncate(mark);
        assert(vars.len() > mark ==> vars_view(self.cur.vars@) =~= vars_view(vars).take(
            mark as int,
        ));
    }

    fn declare_params(
        &mut self,
        ps: &Vec<(String, TypeExpr)>,
        tys: &Vec<Type>,
        line: u32,
    ) -> (r: Result<(), String>)
        requires
            old(self).wf(),
        ensures
            match r {
                Ok(()) => typing::declare_params(
                    old(self)@,
                    params_view(ps@),
                    types_view(tys@),
                    line,
                    0,
                ) == Ok::<BodyView, Seq<char>>(final(self)@) && final(self).follows(*old(self)),
                Err(m) => typing::declare_params(
                    old(self)@,
                    params_view(ps@),
                    types_view(tys@),
                    line,
                    0,
                ) == Err::<BodyView, Seq<char>>(m@),
            },
    {
        let ghost all = params_view(ps@);
        let ghost types = types_view(tys@);
        let mut i: usize = 0;
        while i < ps.len() && i < tys.len()
            invariant
                i <= ps.len(),
                i <= tys.len(),
                self.follows(*old(self)),
                all == params_view(ps@),
                types == types_view(tys@),
                typing::declare_params(old(self)@, all, types, line, 0) == typing::declare_params(
                    self@,
                    all,
                    types,
                    line,
                    i as nat,
                ),
            decreases ps.len() - i,
        {
            assert(all[i as int] == (ps@[i as int].0@, ps@[i as int].1@));
            assert(types[i as int] == tys@[i as int]@);
            match self.declare_local(ps[i].0.as_str(), tys[i].clone(), line) {
                Ok(_) => {},
                Err(m) => return Err(m),
            }
            i += 1;
        }
        Ok(())
    }
}

fn resolve_var_at(cur: &mut FnCtx, outer: &mut Vec<FnCtx>, name: &str) -> (r: Option<(VarRes, Type)>)
    ensures
        match r {
            Some((v, t)) => typing::resolve_in(old(cur)@, ctxs_view(old(outer)@), name@) == (
                final(cur)@,
                ctxs_view(final(outer)@),
                Some((v, t@)),
            ),
            None => typing::resolve_in(old(cur)@, ctxs_view(old(outer)@), name@) == (
                final(cur)@,
                ctxs_view(final(outer)@),
                None::<(VarRes, TypeView)>,
            ),
        },
        final(outer)@.len() == old(outer)@.len(),
    decreases old(outer)@.len(),
{
    match cur.own_var(name) {
        Some(r) => return Some(r),
        None => {},
    }
    if cur.captures.is_none() {
        return None;
    }
    // Not found here. This is a lambda, so try the enclosing contexts and
    // record a capture.
    match outer.pop() {
        None => {
            assert(ctxs_view(outer@) =~= ctxs_view(old(outer)@));
            None
        },
        Some(mut oc) => {
            assert(ctxs_view(outer@) =~= ctxs_view(old(outer)@).drop_last());
            assert(oc@ == ctxs_view(old(outer)@).last());
            let found = resolve_var_at(&mut oc, outer, name);
            let ghost rest = ctxs_view(outer@);
            let ghost inner = oc@;
            outer.push(oc);
            assert(ctxs_view(outer@) =~= rest.push(inner));
            match found {
                None => None,
                Some((src, ty)) => {
                    let ghost start = cur@;
                    match cur.captures.take() {
                        None => None,
                        Some(mut caps) => {
                            let ghost before = captures_view(caps@);
                            let idx: u32 = caps.len() as u32;
                            let ghost cap = CaptureView { name: name@, ty: ty@, src };
                            caps.push(Capture { name: owned(name), ty: ty.clone(), src });
                            assert(captures_view(caps@) =~= before.push(cap));
                            cur.captures = Some(caps);
                            Some((VarRes::Captured(idx), ty))
                        },
                    }
                },
            }
        },
    }
}

// -- Patterns ---------------------------------------------------------------

spec fn patterns_view(ps: Seq<Pattern>) -> Seq<PatternView> {
    Seq::new(ps.len(), |i: int| ps[i]@)
}

spec fn pattern_refs_view(ps: Seq<&Pattern>) -> Seq<PatternView> {
    Seq::new(ps.len(), |i: int| ps[i]@)
}

spec fn patterns_r(r: Result<Vec<Pattern>, String>) -> Result<Seq<PatternView>, Seq<char>> {
    match r {
        Ok(x) => Ok(patterns_view(x@)),
        Err(m) => Err(m@),
    }
}

fn pattern_line(p: &Pattern) -> (r: u32)
    ensures
        r == typing::pattern_line(p@),
{
    match p {
        Pattern::Variant { line, .. } => *line,
        Pattern::IntLit { line, .. } => *line,
        Pattern::ByteLit { line, .. } => *line,
        Pattern::BoolLit { line, .. } => *line,
        Pattern::Wildcard { line } => *line,
    }
}

fn clone_binder(b: &PatBinder, local: u32, ty: Type) -> (r: PatBinder)
    ensures
        r@ == (PatBinderView { name: b@.name, local, ty: ty@ }),
{
    PatBinder { name: b.name.clone(), local, ty }
}

/// A copy of a literal pattern or wildcard.
fn clone_plain_pattern(p: &Pattern) -> (r: Pattern)
    requires
        !(p@ is Variant),
    ensures
        r@ == p@,
{
    match p {
        Pattern::IntLit { neg, digits, value, line } => Pattern::IntLit {
            neg: *neg,
            digits: *digits,
            value: *value,
            line: *line,
        },
        Pattern::ByteLit { value, line } => Pattern::ByteLit { value: *value, line: *line },
        Pattern::BoolLit { value, line } => Pattern::BoolLit { value: *value, line: *line },
        Pattern::Variant { line, .. } => Pattern::Wildcard { line: *line },
        Pattern::Wildcard { line } => Pattern::Wildcard { line: *line },
    }
}

fn unreachable_error(line: u32, w: u32) -> (r: String)
    ensures
        r@ == typing::unreachable_text(line, w),
{
    cat3(
        line_text(line).as_str(),
        ": unreachable pattern after '_' at line ",
        dec(w as u64).as_str(),
    )
}

spec fn fields_r(r: Result<(Vec<(String, PatBinder, u32)>, Vec<bool>), String>) -> Result<
    (Seq<(Seq<char>, PatBinderView, u32)>, Seq<bool>),
    Seq<char>,
> {
    match r {
        Ok((fs, seen)) => Ok((binders_view(fs@), seen@)),
        Err(m) => Err(m@),
    }
}

fn pattern_fields(
    decl: &Vec<(String, Type)>,
    targs: &Vec<Type>,
    fields: &Vec<(String, PatBinder, u32)>,
    variant: &str,
    line: u32,
) -> (r: Result<(Vec<(String, PatBinder, u32)>, Vec<bool>), String>)
    ensures
        fields_r(r) == typing::pattern_fields(
            typed_names_view(decl@),
            types_view(targs@),
            binders_view(fields@),
            variant@,
            line,
            0,
            typing::none_seen(decl@.len()),
            Seq::empty(),
        ),
        r matches Ok((_, seen)) ==> seen@.len() == decl@.len(),
{
    let ghost d = typed_names_view(decl@);
    let ghost ts = types_view(targs@);
    let ghost all = binders_view(fields@);
    let mut seen = none_list(decl.len());
    let mut out: Vec<(String, PatBinder, u32)> = Vec::new();
    assert(binders_view(out@) =~= Seq::empty());
    let mut i: usize = 0;
    while i < fields.len()
        invariant
            i <= fields.len(),
            d == typed_names_view(decl@),
            ts == types_view(targs@),
            all == binders_view(fields@),
            seen@.len() == decl@.len(),
            typing::pattern_fields(
                d,
                ts,
                all,
                variant@,
                line,
                0,
                typing::none_seen(decl@.len()),
                Seq::empty(),
            ) == typing::pattern_fields(
                d,
                ts,
                all,
                variant@,
                line,
                i as nat,
                seen@,
                binders_view(out@),
            ),
        decreases fields.len() - i,
    {
        let ghost before = out@;
        let fname = fields[i].0.as_str();
        assert(all[i as int] == (fields@[i as int].0@, fields@[i as int].1@, fields@[i as int].2));
        match find_field(decl, fname) {
            None => {
                return Err(
                    cat6(
                        line_text(line).as_str(),
                        ": variant '",
                        variant,
                        "' has no field '",
                        fname,
                        "'",
                    ),
                );
            },
            Some(j) => {
                if seen[j] {
                    return Err(
                        cat4(line_text(line).as_str(), ": duplicate field '", fname, "' in pattern"),
                    );
                }
                seen.set(j, true);
                assert(d[j as int] == (decl@[j as int].0@, decl@[j as int].1@));
                let b = clone_binder(
                    &fields[i].1,
                    fields[i].1.local,
                    decl[j].1.subst(targs.as_slice()),
                );
                let ghost item = (fname@, b@, j as u32);
                out.push((owned(fname), b, j as u32));
                assert(binders_view(out@) =~= binders_view(before).push(item));
            },
        }
        i += 1;
    }
    Ok((out, seen))
}

spec fn pat_args_r(r: Result<PatArgs, String>) -> Result<PatArgsView, Seq<char>> {
    match r {
        Ok(x) => Ok(x@),
        Err(m) => Err(m@),
    }
}

fn pattern_payload(
    decl: &VariantPayload,
    args: &PatArgs,
    targs: &Vec<Type>,
    owner: &str,
    variant: &str,
    line: u32,
) -> (r: Result<PatArgs, String>)
    ensures
        pat_args_r(r) == typing::pattern_payload(
            decl@,
            args@,
            types_view(targs@),
            owner@,
            variant@,
            line,
        ),
{
    reveal(typing::pattern_payload);
    match decl {
        VariantPayload::Bare => match args {
            PatArgs::Bare => Ok(PatArgs::Bare),
            _ => Err(
                cat4(
                    line_text(line).as_str(),
                    ": variant '",
                    variant,
                    "' is bare and has no value to bind",
                ),
            ),
        },
        VariantPayload::Single(pty) => match args {
            PatArgs::Single(b) => Ok(
                PatArgs::Single(clone_binder(b, b.local, pty.subst(targs.as_slice()))),
            ),
            _ => Err(
                cat8(
                    line_text(line).as_str(),
                    ": variant '",
                    variant,
                    "' wraps a value; bind it with '",
                    owner,
                    ".",
                    variant,
                    "(name)' (use '_' to ignore it)",
                ),
            ),
        },
        VariantPayload::Fields(decl) => match args {
            PatArgs::Fields(fields) => {
                let (fs, seen) = match pattern_fields(decl, targs, fields, variant, line) {
                    Ok(x) => x,
                    Err(m) => return Err(m),
                };
                match find_false(&seen) {
                    Some(j) => {
                        assert(typed_names_view(decl@)[j as int] == (
                            decl@[j as int].0@,
                            decl@[j as int].1@,
                        ));
                        Err(
                            cat6(
                                line_text(line).as_str(),
                                ": pattern for variant '",
                                variant,
                                "' is missing field '",
                                decl[j].0.as_str(),
                                "' (bind it to '_' to ignore it)",
                            ),
                        )
                    },
                    None => Ok(PatArgs::Fields(fs)),
                }
            },
            _ => Err(
                cat8(
                    line_text(line).as_str(),
                    ": variant '",
                    variant,
                    "' has named fields; match it with '",
                    owner,
                    ".",
                    variant,
                    " { field: name, ... }'",
                ),
            ),
        },
    }
}

impl Checker {
    fn pattern_mismatch(&self, line: u32, ty: &Type) -> (r: String)
        ensures
            r@ == typing::pattern_mismatch(self@, line, ty@),
    {
        cat3(
            line_text(line).as_str(),
            ": pattern does not match the scrutinee type ",
            self.show(ty).as_str(),
        )
    }

    /// One variant pattern on a value of enum `eid`: the annotated pattern
    /// and its tag.
    fn variant_pattern(
        &self,
        scrut: &Type,
        eid: u32,
        targs: &Vec<Type>,
        p: &Pattern,
        seen: &Vec<bool>,
    ) -> (r: Result<(Pattern, usize), String>)
        requires
            eid < self.enums@.len(),
            scrut@ == TypeView::Enum(eid, types_view(targs@)),
            seen@.len() == self.enums@[eid as int].variants@.len(),
        ensures
            match r {
                Ok((q, tag)) => typing::variant_pattern(
                    self@,
                    eid,
                    types_view(targs@),
                    p@,
                    seen@,
                ) == Ok::<(PatternView, nat), Seq<char>>((q@, tag as nat)) && tag < seen@.len(),
                Err(m) => typing::variant_pattern(self@, eid, types_view(targs@), p@, seen@) == Err::<
                    (PatternView, nat),
                    Seq<char>,
                >(m@),
            },
    {
        reveal(typing::variant_pattern);
        let info = &self.enums[eid as usize];
        assert(self@.enums[eid as int] == info@);
        match p {
            Pattern::Variant { enum_name, variant, args, line, .. } => {
                let same = match self.enum_id(enum_name.as_str()) {
                    Some(id) => id == eid as usize,
                    None => false,
                };
                if !same {
                    return Err(self.pattern_mismatch(*line, scrut));
                }
                let i = match find_variant(&info.variants, variant.as_str()) {
                    Some(i) => i,
                    None => {
                        return Err(
                            cat6(
                                line_text(*line).as_str(),
                                ": enum '",
                                info.name.as_str(),
                                "' has no variant '",
                                variant.as_str(),
                                "'",
                            ),
                        );
                    },
                };
                if seen[i] {
                    return Err(
                        cat4(
                            line_text(*line).as_str(),
                            ": duplicate pattern for variant '",
                            variant.as_str(),
                            "'",
                        ),
                    );
                }
                assert(info@.variants[i as int] == (
                    info.variants@[i as int].0@,
                    info.variants@[i as int].1@,
                ));
                // The pattern's shape must mirror the variant's.
                match pattern_payload(
                    &info.variants[i].1,
                    args,
                    targs,
                    info.name.as_str(),
                    variant.as_str(),
                    *line,
                ) {
                    Ok(args) => Ok(
                        (
                            Pattern::Variant {
                                enum_name: enum_name.clone(),
                                variant: variant.clone(),
                                args,
                                tag: i as u32,
                                line: *line,
                            },
                            i,
                        ),
                    ),
                    Err(m) => Err(m),
                }
            },
            _ => Err(self.pattern_mismatch(pattern_line(p), scrut)),
        }
    }

    fn enum_patterns(
        &self,
        scrut: &Type,
        eid: u32,
        targs: &Vec<Type>,
        pats: &Vec<&Pattern>,
    ) -> (r: Result<(Vec<Pattern>, Vec<bool>, Option<u32>), String>)
        requires
            eid < self.enums@.len(),
            scrut@ == TypeView::Enum(eid, types_view(targs@)),
        ensures
            ({
                let want = typing::enum_patterns(
                    self@,
                    eid,
                    types_view(targs@),
                    pattern_refs_view(pats@),
                    0,
                    typing::none_seen(self.enums@[eid as int].variants@.len()),
                    None,
                    Seq::empty(),
                );
                match r {
                    Ok((ps, seen, wild)) => want == Ok::<
                        (Seq<PatternView>, Seq<bool>, Option<u32>),
                        Seq<char>,
                    >((patterns_view(ps@), seen@, wild)) && seen@.len()
                        == self.enums@[eid as int].variants@.len() && ps@.len() == pats@.len(),
                    Err(m) => want == Err::<
                        (Seq<PatternView>, Seq<bool>, Option<u32>),
                        Seq<char>,
                    >(m@),
                }
            }),
    {
        let ghost ts = types_view(targs@);
        let ghost all = pattern_refs_view(pats@);
        let n = self.enums[eid as usize].variants.len();
        let mut seen = none_list(n);
        let mut wild: Option<u32> = None;
        let mut out: Vec<Pattern> = Vec::new();
        assert(patterns_view(out@) =~= Seq::empty());
        let mut i: usize = 0;
        while i < pats.len()
            invariant
                i <= pats.len(),
                eid < self.enums@.len(),
                n == self.enums@[eid as int].variants@.len(),
                scrut@ == TypeView::Enum(eid, ts),
                ts == types_view(targs@),
                all == pattern_refs_view(pats@),
                seen@.len() == n,
                out@.len() == i,
                typing::enum_patterns(
                    self@,
                    eid,
                    ts,
                    all,
                    0,
                    typing::none_seen(n as nat),
                    None,
                    Seq::empty(),
                ) == typing::enum_patterns(
                    self@,
                    eid,
                    ts,
                    all,
                    i as nat,
                    seen@,
                    wild,
                    patterns_view(out@),
                ),
            decreases pats.len() - i,
        {
            let ghost before = out@;
            let p = pats[i];
            assert(all[i as int] == p@);
            let line: u32 = pattern_line(p);
            match p {
                Pattern::Variant { .. } => {
                    if let Some(w) = wild {
                        return Err(unreachable_error(line, w));
                    }
                    match self.variant_pattern(scrut, eid, targs, p, &seen) {
                        Ok((q, tag)) => {
                            seen.set(tag, true);
                            out.push(q);
                            assert(patterns_view(out@) =~= patterns_view(before).push(q@));
                        },
                        Err(m) => return Err(m),
                    }
                },
                Pattern::Wildcard { .. } => {
                    if let Some(w) = wild {
                        return Err(unreachable_error(line, w));
                    }
                    if find_false(&seen).is_none() {
                        return Err(
                            cat2(
                                line_text(line).as_str(),
                                ": unreachable pattern: every variant is already covered",
                            ),
                        );
                    }
                    wild = Some(line);
                    out.push(Pattern::Wildcard { line });
                    assert(patterns_view(out@) =~= patterns_view(before).push(p@));
                },
                _ => return Err(self.pattern_mismatch(line, scrut)),
            }
            i += 1;
        }
        Ok((out, seen, wild))
    }

    fn int_patterns(&self, k: IntKind, pats: &Vec<&Pattern>) -> (r: Result<
        (Vec<Pattern>, Option<u32>),
        String,
    >)
        ensures
            ({
                let want = typing::int_patterns(
                    self@,
                    k,
                    pattern_refs_view(pats@),
                    0,
                    Seq::empty(),
                    None,
                    Seq::empty(),
                );
                match r {
                    Ok((ps, wild)) => want is Ok && want->Ok_0.0 == patterns_view(ps@)
                        && want->Ok_0.2 == wild && ps@.len() == pats@.len(),
                    Err(m) => want == Err::<
                        (Seq<PatternView>, Seq<u64>, Option<u32>),
                        Seq<char>,
                    >(m@),
                }
            }),
    {
        let scrut = Type::Int(k);
        assert(scrut@ == TypeView::Int(k));
        let ghost all = pattern_refs_view(pats@);
        let mut seen: Vec<u64> = Vec::new();
        let mut wild: Option<u32> = None;
        let mut out: Vec<Pattern> = Vec::new();
        assert(patterns_view(out@) =~= Seq::empty());
        assert(seen@ =~= Seq::empty());
        let mut i: usize = 0;
        while i < pats.len()
            invariant
                i <= pats.len(),
                scrut@ == TypeView::Int(k),
                all == pattern_refs_view(pats@),
                out@.len() == i,
                typing::int_patterns(self@, k, all, 0, Seq::empty(), None, Seq::empty())
                    == typing::int_patterns(
                    self@,
                    k,
                    all,
                    i as nat,
                    seen@,
                    wild,
                    patterns_view(out@),
                ),
            decreases pats.len() - i,
        {
            let ghost before = out@;
            let p = pats[i];
            assert(all[i as int] == p@);
            let line: u32 = pattern_line(p);
            match p {
                Pattern::IntLit { neg, digits, .. } => {
                    if let Some(w) = wild {
                        return Err(unreachable_error(line, w));
                    }
                    let v: i128 = if *neg {
                        -(*digits as i128)
                    } else {
                        *digits as i128
                    };
                    if !k.contains(v) {
                        return Err(range_error(v, k, line));
                    }
                    let value: u64 = bit_pattern(v);
                    if contains_u64(&seen, value) {
                        return Err(
                            cat3(
                                line_text(line).as_str(),
                                ": duplicate pattern ",
                                dec_int(v).as_str(),
                            ),
                        );
                    }
                    seen.push(value);
                    let q = Pattern::IntLit { neg: *neg, digits: *digits, value, line };
                    out.push(q);
                    assert(patterns_view(out@) =~= patterns_view(before).push(q@));
                },
                Pattern::ByteLit { value, .. } => {
                    if let Some(w) = wild {
                        return Err(unreachable_error(line, w));
                    }
                    if k != IntKind::U8 {
                        return Err(self.pattern_mismatch(line, &scrut));
                    }
                    if contains_u64(&seen, *value as u64) {
                        return Err(cat2(line_text(line).as_str(), ": duplicate pattern"));
                    }
                    seen.push(*value as u64);
                    out.push(Pattern::ByteLit { value: *value, line });
                    assert(patterns_view(out@) =~= patterns_view(before).push(p@));
                },
                Pattern::Wildcard { .. } => {
                    if let Some(w) = wild {
                        return Err(unreachable_error(line, w));
                    }
                    wild = Some(line);
                    out.push(Pattern::Wildcard { line });
                    assert(patterns_view(out@) =~= patterns_view(before).push(p@));
                },
                _ => return Err(self.pattern_mismatch(line, &scrut)),
            }
            i += 1;
        }
        Ok((out, wild))
    }

    fn bool_patterns(&self, pats: &Vec<&Pattern>) -> (r: Result<
        (Vec<Pattern>, bool, bool, Option<u32>),
        String,
    >)
        ensures
            match r {
                Ok((ps, t, f, wild)) => typing::bool_patterns(
                    self@,
                    pattern_refs_view(pats@),
                    0,
                    false,
                    false,
                    None,
                ) == Ok::<(bool, bool, Option<u32>), Seq<char>>((t, f, wild)) && patterns_view(ps@)
                    == pattern_refs_view(pats@),
                Err(m) => typing::bool_patterns(
                    self@,
                    pattern_refs_view(pats@),
                    0,
                    false,
                    false,
                    None,
                ) == Err::<(bool, bool, Option<u32>), Seq<char>>(m@),
            },
    {
        let scrut = Type::Bool;
        assert(scrut@ == TypeView::Bool);
        let ghost all = pattern_refs_view(pats@);
        let mut t = false;
        let mut f = false;
        let mut wild: Option<u32> = None;
        let mut out: Vec<Pattern> = Vec::new();
        let mut i: usize = 0;
        while i < pats.len()
            invariant
                i <= pats.len(),
                scrut@ == TypeView::Bool,
                all == pattern_refs_view(pats@),
                out@.len() == i,
                forall|j: int| 0 <= j < i ==> (#[trigger] out@[j])@ == all[j],
                typing::bool_patterns(self@, all, 0, false, false, None) == typing::bool_patterns(
                    self@,
                    all,
                    i as nat,
                    t,
                    f,
                    wild,
                ),
            decreases pats.len() - i,
        {
            let p = pats[i];
            assert(all[i as int] == p@);
            let line: u32 = pattern_line(p);
            match p {
                Pattern::BoolLit { value, .. } => {
                    if let Some(w) = wild {
                        return Err(unreachable_error(line, w));
                    }
                    if *value {
                        if t {
                            return Err(cat2(line_text(line).as_str(), ": duplicate pattern true"));
                        }
                        t = true;
                    } else {
                        if f {
                            return Err(cat2(line_text(line).as_str(), ": duplicate pattern false"));
                        }
                        f = true;
                    }
                },
                Pattern::Wildcard { .. } => {
                    if let Some(w) = wild {
                        return Err(unreachable_error(line, w));
                    }
                    if t && f {
                        return Err(
                            cat2(
                                line_text(line).as_str(),
                                ": unreachable pattern: both 'true' and 'false' are already covered",
                            ),
                        );
                    }
                    wild = Some(line);
                },
                _ => return Err(self.pattern_mismatch(line, &scrut)),
            }
            out.push(clone_plain_pattern(p));
            i += 1;
        }
        assert(patterns_view(out@) =~= all);
        Ok((out, t, f, wild))
    }

    /// Check a match's patterns against the scrutinee type: resolves variant
    /// tags and binder types, rejects foreign or duplicate patterns, and
    /// enforces exhaustiveness.
    fn check_patterns(&self, scrut: &Type, pats: &Vec<&Pattern>, line: u32) -> (r: Result<
        Vec<Pattern>,
        String,
    >)
        ensures
            patterns_r(r) == typing::check_patterns(
                self@,
                scrut@,
                pattern_refs_view(pats@),
                line,
            ),
            r matches Ok(ps) ==> ps@.len() == pats@.len(),
    {
        reveal(typing::check_patterns);
        match scrut {
            Type::Enum(eid, targs) => {
                if (*eid as usize) >= self.enums.len() {
                    return Err(malformed(line));
                }
                let info = &self.enums[*eid as usize];
                assert(self@.enums[*eid as int] == info@);
                assert(scrut@ == TypeView::Enum(*eid, types_view(targs@)));
                let (ps, seen, wild) = match self.enum_patterns(scrut, *eid, targs, pats) {
                    Ok(x) => x,
                    Err(m) => return Err(m),
                };
                let missing = missing_variants(&info.variants, &seen);
                assert(names_view(missing@).len() == missing@.len());
                if wild.is_none() && missing.len() > 0 {
                    return Err(
                        cat6(
                            line_text(line).as_str(),
                            ": match on enum '",
                            info.name.as_str(),
                            "' is not exhaustive; missing variant(s) ",
                            join(&missing, ", ").as_str(),
                            " (or add a '_' arm)",
                        ),
                    );
                }
                Ok(ps)
            },
            Type::Int(k) => {
                let (ps, wild) = match self.int_patterns(*k, pats) {
                    Ok(x) => x,
                    Err(m) => return Err(m),
                };
                if wild.is_none() {
                    return Err(
                        cat4(
                            line_text(line).as_str(),
                            ": match on ",
                            k.name(),
                            " needs a final '_' arm",
                        ),
                    );
                }
                Ok(ps)
            },
            Type::Bool => {
                let (ps, t, f, wild) = match self.bool_patterns(pats) {
                    Ok(x) => x,
                    Err(m) => return Err(m),
                };
                assert(patterns_view(ps@).len() == pattern_refs_view(pats@).len());
                if wild.is_none() && !(t && f) {
                    return Err(
                        cat2(
                            line_text(line).as_str(),
                            ": match on bool must cover both 'true' and 'false' (or add a '_' arm)",
                        ),
                    );
                }
                Ok(ps)
            },
            Type::Param(_) => Err(
                cat3(
                    line_text(line).as_str(),
                    ": cannot match on a value of generic type ",
                    self.show(scrut).as_str(),
                ),
            ),
            _ => Err(
                cat4(
                    line_text(line).as_str(),
                    ": cannot match on a value of type ",
                    self.show(scrut).as_str(),
                    "; match works on enums, integers, and bools",
                ),
            ),
        }
    }
}

fn contains_u64(s: &Vec<u64>, v: u64) -> (r: bool)
    ensures
        r == s@.contains(v),
{
    let mut i: usize = 0;
    while i < s.len()
        invariant
            i <= s.len(),
            forall|j: int| 0 <= j < i ==> s@[j] != v,
        decreases s.len() - i,
    {
        if s[i] == v {
            return true;
        }
        i += 1;
    }
    false
}

fn missing_variants(vs: &Vec<(String, VariantPayload)>, seen: &Vec<bool>) -> (r: Vec<String>)
    requires
        seen@.len() == vs@.len(),
    ensures
        names_view(r@) == typing::missing_variants(variants_view(vs@), seen@, 0, Seq::empty()),
{
    let ghost all = variants_view(vs@);
    let mut out: Vec<String> = Vec::new();
    assert(names_view(out@) =~= Seq::empty());
    let mut i: usize = 0;
    while i < vs.len()
        invariant
            i <= vs.len(),
            seen@.len() == vs@.len(),
            all == variants_view(vs@),
            typing::missing_variants(all, seen@, 0, Seq::empty()) == typing::missing_variants(
                all,
                seen@,
                i as nat,
                names_view(out@),
            ),
        decreases vs.len() - i,
    {
        let ghost before = out@;
        assert(all[i as int] == (vs@[i as int].0@, vs@[i as int].1@));
        if !seen[i] {
            out.push(vs[i].0.clone());
            assert(names_view(out@) =~= names_view(before).push(vs@[i as int].0@));
        }
        i += 1;
    }
    out
}

impl Body {
    fn declare_fields(&mut self, fs: Vec<(String, PatBinder, u32)>, line: u32) -> (r: Result<
        Vec<(String, PatBinder, u32)>,
        String,
    >)
        requires
            old(self).wf(),
        ensures
            ({
                let want = typing::declare_fields(
                    old(self)@,
                    binders_view(fs@),
                    line,
                    0,
                    Seq::empty(),
                );
                match r {
                    Ok(out) => want == Ok::<
                        (Seq<(Seq<char>, PatBinderView, u32)>, BodyView),
                        Seq<char>,
                    >((binders_view(out@), final(self)@)) && final(self).follows(*old(self)),
                    Err(m) => want == Err::<
                        (Seq<(Seq<char>, PatBinderView, u32)>, BodyView),
                        Seq<char>,
                    >(m@),
                }
            }),
    {
        let ghost all = binders_view(fs@);
        let mut out: Vec<(String, PatBinder, u32)> = Vec::new();
        assert(binders_view(out@) =~= Seq::empty());
        let mut i: usize = 0;
        while i < fs.len()
            invariant
                i <= fs.len(),
                self.follows(*old(self)),
                all == binders_view(fs@),
                typing::declare_fields(old(self)@, all, line, 0, Seq::empty())
                    == typing::declare_fields(self@, all, line, i as nat, binders_view(out@)),
            decreases fs.len() - i,
        {
            let ghost before = out@;
            assert(all[i as int] == (fs@[i as int].0@, fs@[i as int].1@, fs@[i as int].2));
            let b = &fs[i].1;
            match self.declare_local(b.name.as_str(), b.ty.clone(), line) {
                Ok(local) => {
                    let nb = clone_binder(b, local, b.ty.clone());
                    let ghost item = (fs@[i as int].0@, nb@, fs@[i as int].2);
                    out.push((fs[i].0.clone(), nb, fs[i].2));
                    assert(binders_view(out@) =~= binders_view(before).push(item));
                },
                Err(m) => return Err(m),
            }
            i += 1;
        }
        Ok(out)
    }

    /// Declare a pattern's binders as locals in the current (arm) scope.
    fn declare_pattern_binders(&mut self, pat: Pattern) -> (r: Result<Pattern, String>)
        requires
            old(self).wf(),
        ensures
            match r {
                Ok(p) => typing::declare_binders(old(self)@, pat@) == Ok::<
                    (PatternView, BodyView),
                    Seq<char>,
                >((p@, final(self)@)) && final(self).follows(*old(self)),
                Err(m) => typing::declare_binders(old(self)@, pat@) == Err::<
                    (PatternView, BodyView),
                    Seq<char>,
                >(m@),
            },
    {
        reveal(typing::declare_binders);
        match pat {
            Pattern::Variant { enum_name, variant, args, tag, line } => match args {
                PatArgs::Bare => Ok(
                    Pattern::Variant { enum_name, variant, args: PatArgs::Bare, tag, line },
                ),
                PatArgs::Single(b) => match self.declare_local(
                    b.name.as_str(),
                    b.ty.clone(),
                    line,
                ) {
                    Ok(local) => Ok(
                        Pattern::Variant {
                            enum_name,
                            variant,
                            args: PatArgs::Single(PatBinder { name: b.name, local, ty: b.ty }),
                            tag,
                            line,
                        },
                    ),
                    Err(m) => Err(m),
                },
                PatArgs::Fields(fs) => match self.declare_fields(fs, line) {
                    Ok(fs2) => Ok(
                        Pattern::Variant {
                            enum_name,
                            variant,
                            args: PatArgs::Fields(fs2),
                            tag,
                            line,
                        },
                    ),
                    Err(m) => Err(m),
                },
            },
            other => Ok(other),
        }
    }
}

// -- Values -----------------------------------------------------------------

/// An expression annotated with its type.
fn typed(kind: ExprKind, line: u32, ty: Type) -> (r: Expr)
    ensures
        r@ == rules::typed(kind@, line, ty@),
{
    Expr { kind, line, ty }
}

fn key_of(ck: &Checker, name: &str) -> (r: TypeKey)
    ensures
        r == rules::key_of(ck@, name@),
{
    match ck.struct_id(name) {
        Some(sid) => TypeKey::Struct(sid as u32),
        None => match ck.enum_id(name) {
            Some(eid) => TypeKey::Enum(eid as u32),
            None => TypeKey::Struct(0),
        },
    }
}

/// Is the expression an integer literal, optionally negated?
fn is_literal(e: &Expr) -> (r: bool)
    ensures
        r == rules::is_literal(e@),
{
    match &e.kind {
        ExprKind::Int(_) => true,
        ExprKind::Unary(UnOp::Neg, inner) => {
            assert(inner@.kind == inner.kind@);
            matches!(inner.kind, ExprKind::Int(_))
        },
        _ => false,
    }
}

/// May the checked expression be assigned to?
fn check_target(t: &Expr, line: u32) -> (r: Result<(), String>)
    ensures
        unit_r(r) == rules::check_target(t@, line),
{
    reveal(rules::check_target);
    match &t.kind {
        ExprKind::Var { name, res } => match res {
            Some(VarRes::Local(_)) => Ok(()),
            Some(VarRes::Captured(_)) => Err(
                cat4(
                    line_text(line).as_str(),
                    ": cannot assign to '",
                    name.as_str(),
                    "': closures capture by value",
                ),
            ),
            _ => Err(
                cat4(
                    line_text(line).as_str(),
                    ": cannot assign to function '",
                    name.as_str(),
                    "'",
                ),
            ),
        },
        ExprKind::Index(obj, _) => {
            assert(obj@.ty == obj.ty@);
            if matches!(obj.ty, Type::Str) {
                Err(
                    cat2(
                        line_text(line).as_str(),
                        ": strings are immutable; cannot assign to an element",
                    ),
                )
            } else {
                Ok(())
            }
        },
        ExprKind::Field { .. } => Ok(()),
        _ => Err(cat2(line_text(line).as_str(), ": invalid assignment target")),
    }
}

fn argc_error(line: u32, what: &str, want: usize, got: usize) -> (r: String)
    ensures
        r@ == rules::argc_text(line, what@, want as nat, got as nat),
{
    cat7(
        line_text(line).as_str(),
        ": '",
        what,
        "' expects ",
        dec_usize(want).as_str(),
        " argument(s), got ",
        dec_usize(got).as_str(),
    )
}

fn struct_seed(expected: Option<&Type>, sid: usize, n: usize) -> (r: Vec<Option<Type>>)
    ensures
        opt_types_view(r@) == rules::struct_seed(expect_view(expected), sid as nat, n as nat),
        r@.len() == n,
{
    reveal(rules::struct_seed);
    match expected {
        Some(Type::Struct(id, targs)) => {
            assert(types_view(targs@).len() == targs@.len());
            if *id == sid as u32 && targs.len() == n {
                solved_list(targs)
            } else {
                unsolved_list(n)
            }
        },
        _ => unsolved_list(n),
    }
}

fn enum_seed(expected: Option<&Type>, eid: usize, n: usize) -> (r: Vec<Option<Type>>)
    ensures
        opt_types_view(r@) == rules::enum_seed(expect_view(expected), eid as nat, n as nat),
        r@.len() == n,
{
    reveal(rules::enum_seed);
    match expected {
        Some(Type::Enum(id, targs)) => {
            assert(types_view(targs@).len() == targs@.len());
            if *id == eid as u32 && targs.len() == n {
                solved_list(targs)
            } else {
                unsolved_list(n)
            }
        },
        _ => unsolved_list(n),
    }
}

/// What an expected type says of a generic call's type arguments.
fn call_seed(ret: &Type, expected: Option<&Type>, n: usize) -> (r: Vec<Option<Type>>)
    ensures
        opt_types_view(r@) == rules::call_seed(ret@, expect_view(expected), n as nat),
        r@.len() == n,
{
    reveal(rules::call_seed);
    match expected {
        None => unsolved_list(n),
        Some(exp) => {
            // Best effort: an unrelated expected type must not poison the
            // bindings, so keep them only when the whole return type unifies.
            let mut trial = unsolved_list(n);
            if unify(ret, exp, &mut trial) {
                trial
            } else {
                unsolved_list(n)
            }
        },
    }
}

fn shape_error(payload: &VariantPayload, enum_name: &str, variant: &str, line: u32) -> (r: String)
    ensures
        r@ == rules::shape_text(payload@, enum_name@, variant@, line),
{
    reveal(rules::shape_text);
    match payload {
        VariantPayload::Bare => cat8(
            line_text(line).as_str(),
            ": variant '",
            variant,
            "' is bare; write '",
            enum_name,
            ".",
            variant,
            "' without arguments",
        ),
        VariantPayload::Single(_) => cat8(
            line_text(line).as_str(),
            ": variant '",
            variant,
            "' wraps a value; construct it as '",
            enum_name,
            ".",
            variant,
            "(value)'",
        ),
        VariantPayload::Fields(_) => cat8(
            line_text(line).as_str(),
            ": variant '",
            variant,
            "' has named fields; construct it as '",
            enum_name,
            ".",
            variant,
            " { field: value, ... }'",
        ),
    }
}

fn no_variant(info: &EnumInfo, variant: &str, line: u32) -> (r: String)
    ensures
        r@ == rules::no_variant(info@, variant@, line),
{
    cat6(
        line_text(line).as_str(),
        ": enum '",
        info.name.as_str(),
        "' has no variant '",
        variant,
        "'",
    )
}

impl Checker {
    /// A name in value position: what it refers to and its type.
    fn value_of(&self, st: &mut Body, name: &str, line: u32) -> (r: Result<(VarRes, Type), String>)
        requires
            old(st).wf(),
        ensures
            match r {
                Ok((v, t)) => rules::value_of(self@, old(st)@, name@, line) == Ok::<
                    (VarRes, TypeView, BodyView),
                    Seq<char>,
                >((v, t@, final(st)@)) && final(st).follows(*old(st)),
                Err(m) => rules::value_of(self@, old(st)@, name@, line) == Err::<
                    (VarRes, TypeView, BodyView),
                    Seq<char>,
                >(m@),
            },
    {
        reveal(rules::value_of);
        if let Some((v, t)) = st.resolve_var(name) {
            return Ok((v, t));
        }
        if let Some(fid) = self.func_id(name) {
            let sig = &self.funcs[fid];
            assert(self@.funcs[fid as int] == sig@);
            if sig.type_params.len() > 0 {
                return Err(
                    cat4(
                        line_text(line).as_str(),
                        ": generic function '",
                        name,
                        "' can only be called directly, not used as a value",
                    ),
                );
            }
            let ps = Type::clone_all(&sig.params);
            let ret = sig.ret.clone();
            return Ok((VarRes::Func(fid as u32), Type::Fn(ps, Box::new(ret))));
        }
        if free_builtin(name).is_some() {
            Err(
                cat4(
                    line_text(line).as_str(),
                    ": builtin '",
                    name,
                    "' can only be called, not used as a value",
                ),
            )
        } else if str_eq(name, "self") {
            Err(
                cat2(
                    line_text(line).as_str(),
                    ": 'self' is only available inside impl-block methods",
                ),
            )
        } else {
            match retired_hint(name) {
                Some(hint) => Err(
                    cat5(
                        line_text(line).as_str(),
                        ": '",
                        name,
                        "' is now a method: write ",
                        hint,
                    ),
                ),
                None => Err(cat4(line_text(line).as_str(), ": unknown variable '", name, "'")),
            }
        }
    }

    /// The name that an expression spells where it stands for a declared
    /// type.
    fn names_type(&self, st: &mut Body, e: &Expr) -> (r: Option<String>)
        requires
            old(st).wf(),
        ensures
            match r {
                Some(n) => rules::names_type(self@, old(st)@, e@) == (Some(n@), final(st)@),
                None => rules::names_type(self@, old(st)@, e@) == (
                    None::<Seq<char>>,
                    final(st)@,
                ),
            },
            final(st).follows(*old(st)),
    {
        reveal(rules::names_type);
        match &e.kind {
            ExprKind::Var { name, .. } => {
                let n = name.as_str();
                if st.resolve_var(n).is_none() && self.func_id(n).is_none() && (self.enum_id(
                    n,
                ).is_some() || self.struct_id(n).is_some()) {
                    Some(name.clone())
                } else {
                    None
                }
            },
            _ => None,
        }
    }

    fn has_variant(&self, eid: usize, name: &str) -> (r: bool)
        requires
            eid < self.enums@.len(),
        ensures
            r == rules::has_variant(self@, eid as nat, name@),
    {
        assert(self@.enums[eid as int] == self.enums@[eid as int]@);
        find_variant(&self.enums[eid].variants, name).is_some()
    }

    /// Resolve `obj.name` with the object already checked as a plain struct
    /// field access, or report that no field or method exists.
    fn field_after_obj(&self, obj: Expr, name: &str, index: u32, line: u32) -> (r: Result<
        Expr,
        String,
    >)
        ensures
            expr_r(r) == rules::field_after_obj(self@, obj@, name@, index, line),
    {
        reveal(rules::field_after_obj);
        assert(obj@.ty == obj.ty@);
        match &obj.ty {
            Type::Struct(sid, targs) => {
                if (*sid as usize) >= self.structs.len() {
                    return Err(malformed(line));
                }
                let info = &self.structs[*sid as usize];
                assert(self@.structs[*sid as int] == info@);
                match find_field(&info.fields, name) {
                    Some(i) => {
                        // Field types live in the struct's own parameter
                        // space; map into the caller's.
                        assert(info@.fields[i as int] == (
                            info.fields@[i as int].0@,
                            info.fields@[i as int].1@,
                        ));
                        let ty = info.fields[i].1.subst(targs.as_slice());
                        Ok(
                            typed(
                                ExprKind::Field {
                                    obj: Box::new(obj),
                                    name: owned(name),
                                    index: i as u32,
                                },
                                line,
                                ty,
                            ),
                        )
                    },
                    None => Err(
                        cat6(
                            line_text(line).as_str(),
                            ": struct '",
                            info.name.as_str(),
                            "' has no field or method '",
                            name,
                            "'",
                        ),
                    ),
                }
            },
            Type::Enum(eid, _) => Err(
                cat6(
                    line_text(line).as_str(),
                    ": enum '",
                    self.enum_name(*eid).as_str(),
                    "' has no method '",
                    name,
                    "'",
                ),
            ),
            other => Err(
                cat6(
                    line_text(line).as_str(),
                    ": type ",
                    self.show(other).as_str(),
                    " has no method '",
                    name,
                    "'",
                ),
            ),
        }
    }

    /// `obj.name` where `name` is a method and the object is already checked:
    /// a first-class closure capturing the receiver. Every type parameter
    /// must be determined by the receiver type, so a method with its own type
    /// parameters cannot be bound.
    fn bound_method(&self, obj: Expr, name: &str, fid: u32, line: u32) -> (r: Result<Expr, String>)
        ensures
            expr_r(r) == rules::bound_method(self@, obj@, name@, fid, line),
    {
        reveal(rules::bound_method);
        if (fid as usize) >= self.funcs.len() {
            return Err(malformed(line));
        }
        let sig = &self.funcs[fid as usize];
        assert(self@.funcs[fid as int] == sig@);
        assert(types_view(sig.params@).len() == sig.params@.len());
        if sig.params.len() == 0 {
            return Err(malformed(line));
        }
        let mut solved = unsolved_list(sig.type_params.len());
        assert(types_view(sig.params@)[0] == sig.params@[0]@);
        assert(obj@.ty == obj.ty@);
        if !unify(&sig.params[0], &obj.ty, &mut solved) {
            return Err(malformed(line));
        }
        match solve(solved) {
            Err(i) => {
                assert(names_view(sig.type_params@)[i as int] == sig.type_params@[i as int]@);
                Err(
                    cat6(
                        line_text(line).as_str(),
                        ": cannot infer type parameter '",
                        sig.type_params[i].as_str(),
                        "' of method '",
                        name,
                        "'; a method with its own type parameters can only be called, not bound as a value",
                    ),
                )
            },
            Ok(targs) => {
                let rest = types_after_first(&sig.params);
                let bound = Type::subst_each(&rest, targs.as_slice());
                let ret = sig.ret.subst(targs.as_slice());
                let fty = Type::Fn(bound, Box::new(ret));
                Ok(typed(ExprKind::BoundMethod { obj: Box::new(obj), fid, inst: targs }, line, fty))
            },
        }
    }

    fn type_member_error(&self, tname: &str, name: &str, line: u32) -> (r: String)
        ensures
            r@ == rules::type_member_error(self@, tname@, name@, line),
    {
        reveal(rules::type_member_error);
        let key = key_of(self, tname);
        if self.method(key, name).is_some() {
            cat6(
                line_text(line).as_str(),
                ": '",
                tname,
                ".",
                name,
                "' can only be called, not used as a value",
            )
        } else if matches!(key, TypeKey::Enum(_)) {
            cat6(line_text(line).as_str(), ": enum '", tname, "' has no variant '", name, "'")
        } else {
            cat6(
                line_text(line).as_str(),
                ": struct '",
                tname,
                "' has no associated function '",
                name,
                "'",
            )
        }
    }

    /// `obj.name` in value position with the object already checked.
    fn member_value(&self, obj: Expr, name: &str, index: u32, line: u32) -> (r: Result<Expr, String>)
        ensures
            expr_r(r) == rules::member_value(self@, obj@, name@, index, line),
    {
        reveal(rules::member_value);
        assert(obj@.ty == obj.ty@);
        let is_field = match &obj.ty {
            Type::Struct(sid, _) => {
                if (*sid as usize) < self.structs.len() {
                    assert(self@.structs[*sid as int] == self.structs@[*sid as int]@);
                    find_field(&self.structs[*sid as usize].fields, name).is_some()
                } else {
                    false
                }
            },
            _ => false,
        };
        if !is_field {
            if let Some((fid, has_self)) = self.lookup_method(&obj.ty, name) {
                if !has_self {
                    return Err(
                        cat6(
                            line_text(line).as_str(),
                            ": '",
                            self.type_base_name(&obj.ty).as_str(),
                            ".",
                            name,
                            "' can only be called, not used as a value",
                        ),
                    );
                }
                return self.bound_method(obj, name, fid, line);
            }
        }
        if builtin_method(&obj.ty, name, self.option_enum).is_some() {
            return Err(
                cat4(
                    line_text(line).as_str(),
                    ": builtin method '",
                    name,
                    "' can only be called, not used as a value",
                ),
            );
        }
        self.field_after_obj(obj, name, index, line)
    }

    // -- Operators ----------------------------------------------------------

    fn unary_type(&self, op: UnOp, ty: &Type, line: u32) -> (r: Result<Type, String>)
        ensures
            type_r(r) == rules::unary_type(self@, op, ty@, line),
    {
        reveal(rules::unary_type);
        match op {
            UnOp::Neg => {
                let ok = match ty {
                    Type::Float => true,
                    Type::Int(k) => k.signed(),
                    _ => false,
                };
                if ok {
                    Ok(ty.clone())
                } else {
                    Err(
                        cat3(
                            line_text(line).as_str(),
                            ": operator '-' needs a signed int or float, found ",
                            self.show(ty).as_str(),
                        ),
                    )
                }
            },
            UnOp::Not => {
                if matches!(ty, Type::Bool) {
                    Ok(Type::Bool)
                } else {
                    Err(
                        cat3(
                            line_text(line).as_str(),
                            ": operator '!' needs bool, found ",
                            self.show(ty).as_str(),
                        ),
                    )
                }
            },
            UnOp::BitNot => {
                if matches!(ty, Type::Int(_)) {
                    Ok(ty.clone())
                } else {
                    Err(
                        cat3(
                            line_text(line).as_str(),
                            ": operator '~' needs an integer, found ",
                            self.show(ty).as_str(),
                        ),
                    )
                }
            },
        }
    }

    fn logical_type(&self, l: &Type, r: &Type, line: u32) -> (res: Result<Type, String>)
        ensures
            type_r(res) == rules::logical_type(self@, l@, r@, line),
    {
        reveal(rules::logical_type);
        if !matches!(l, Type::Bool) {
            Err(
                cat3(
                    line_text(line).as_str(),
                    ": logical operator needs bool operands, found ",
                    self.show(l).as_str(),
                ),
            )
        } else if !matches!(r, Type::Bool) {
            Err(
                cat3(
                    line_text(line).as_str(),
                    ": logical operator needs bool operands, found ",
                    self.show(r).as_str(),
                ),
            )
        } else {
            Ok(Type::Bool)
        }
    }

    fn equality_type(&self, l: &Type, r: &Type, line: u32) -> (res: Result<Type, String>)
        ensures
            type_r(res) == rules::equality_type(self@, l@, r@, line),
    {
        reveal(rules::equality_type);
        if matches!(l, Type::Param(_)) || matches!(r, Type::Param(_)) {
            let shown = if matches!(l, Type::Param(_)) {
                self.show(l)
            } else {
                self.show(r)
            };
            return Err(
                cat4(
                    line_text(line).as_str(),
                    ": cannot compare values of generic type ",
                    shown.as_str(),
                    "; '==' is not available on type parameters",
                ),
            );
        }
        if !l.same(r) || matches!(l, Type::Unit) {
            return Err(
                cat5(
                    line_text(line).as_str(),
                    ": cannot compare ",
                    self.show(l).as_str(),
                    " with ",
                    self.show(r).as_str(),
                ),
            );
        }
        // Bare-only enum values are shared static singletons, so reference
        // identity *is* structural equality. Payload-carrying variants are
        // freshly allocated, where identity would be a footgun.
        if let Type::Enum(eid, _) = l {
            if (*eid as usize) >= self.enums.len() {
                return Err(malformed(line));
            }
            let info = &self.enums[*eid as usize];
            assert(self@.enums[*eid as int] == info@);
            if !info.is_bare() {
                return Err(
                    cat4(
                        line_text(line).as_str(),
                        ": '==' is not available on enum '",
                        info.name.as_str(),
                        "' because some variants carry values; use match",
                    ),
                );
            }
        }
        Ok(Type::Bool)
    }

    fn comparison_type(&self, l: &Type, r: &Type, line: u32) -> (res: Result<Type, String>)
        ensures
            type_r(res) == rules::comparison_type(self@, l@, r@, line),
    {
        reveal(rules::comparison_type);
        if !l.same(r) || !matches!(l, Type::Int(_) | Type::Float) {
            Err(
                cat5(
                    line_text(line).as_str(),
                    ": comparison needs two ints or two floats, found ",
                    self.show(l).as_str(),
                    " and ",
                    self.show(r).as_str(),
                ),
            )
        } else {
            Ok(Type::Bool)
        }
    }

    fn arith_type(&self, op: BinOp, l: &Type, r: &Type, line: u32) -> (res: Result<Type, String>)
        ensures
            type_r(res) == rules::arith_type(self@, op, l@, r@, line),
    {
        reveal(rules::arith_type);
        if !l.same(r) {
            return Err(
                cat5(
                    line_text(line).as_str(),
                    ": arithmetic on mixed types ",
                    self.show(l).as_str(),
                    " and ",
                    self.show(r).as_str(),
                ),
            );
        }
        match self.check_arith_op(op, l, line) {
            Ok(()) => Ok(l.clone()),
            Err(m) => Err(m),
        }
    }

    fn binary_type(&self, op: BinOp, l: &Type, r: &Type, line: u32) -> (res: Result<Type, String>)
        ensures
            type_r(res) == rules::binary_type(self@, op, l@, r@, line),
    {
        reveal(rules::binary_type);
        match op {
            BinOp::And | BinOp::Or => self.logical_type(l, r, line),
            BinOp::Eq | BinOp::Ne => self.equality_type(l, r, line),
            BinOp::Lt | BinOp::Le | BinOp::Gt | BinOp::Ge => self.comparison_type(l, r, line),
            _ => self.arith_type(op, l, r, line),
        }
    }

    /// Match an already checked value against its declared (possibly generic)
    /// type, contributing type-argument bindings to `solved`.
    fn match_value(&self, decl: &Type, solved: &mut Vec<Option<Type>>, value: &Expr) -> (r: Result<
        (),
        String,
    >)
        ensures
            match r {
                Ok(()) => rules::match_value(self@, decl@, opt_types_view(old(solved)@), value@)
                    == Ok::<Seq<Option<TypeView>>, Seq<char>>(opt_types_view(final(solved)@)),
                Err(m) => rules::match_value(self@, decl@, opt_types_view(old(solved)@), value@)
                    == Err::<Seq<Option<TypeView>>, Seq<char>>(m@),
            },
            final(solved)@.len() == old(solved)@.len(),
    {
        reveal(rules::match_value);
        let want = subst_partial(decl, solved);
        if !want.has_param() {
            return self.require_assignable(&want, &value.ty, value.line);
        }
        if unify(decl, &value.ty, solved) {
            Ok(())
        } else {
            Err(self.mismatch(value.line, &subst_partial(decl, solved), &value.ty))
        }
    }

    /// The construction of variant `tag` of enum `eid` from checked payload
    /// values; every type argument must be solved.
    fn make_variant(
        &self,
        eid: usize,
        enum_name: &str,
        tag: usize,
        args: VariantArgs,
        solved: Vec<Option<Type>>,
        line: u32,
    ) -> (r: Result<Expr, String>)
        requires
            eid < self.enums@.len(),
            solved@.len() == self.enums@[eid as int].type_params@.len(),
        ensures
            expr_r(r) == rules::make_variant(
                self@,
                eid as nat,
                enum_name@,
                tag as nat,
                args@,
                opt_types_view(solved@),
                line,
            ),
    {
        reveal(rules::make_variant);
        let info = &self.enums[eid];
        assert(self@.enums[eid as int] == info@);
        match solve(solved) {
            Err(i) => {
                assert(names_view(info.type_params@)[i as int] == info.type_params@[i as int]@);
                Err(
                    cat6(
                        line_text(line).as_str(),
                        ": cannot infer type parameter '",
                        info.type_params[i].as_str(),
                        "' of enum '",
                        enum_name,
                        "'; annotate the target type",
                    ),
                )
            },
            Ok(targs) => Ok(
                typed(
                    ExprKind::VariantLit { args, enum_id: eid as u32, tag: tag as u32 },
                    line,
                    Type::Enum(eid as u32, targs),
                ),
            ),
        }
    }

    fn check_variant_bare(
        &self,
        eid: usize,
        enum_name: &str,
        variant: &str,
        line: u32,
        expected: Option<&Type>,
    ) -> (r: Result<Expr, String>)
        requires
            eid < self.enums@.len(),
        ensures
            expr_r(r) == rules::check_variant_bare(
                self@,
                eid as nat,
                enum_name@,
                variant@,
                line,
                expect_view(expected),
            ),
    {
        reveal(rules::check_variant_bare);
        let info = &self.enums[eid];
        assert(self@.enums[eid as int] == info@);
        assert(names_view(info.type_params@).len() == info.type_params@.len());
        match find_variant(&info.variants, variant) {
            None => Err(no_variant(info, variant, line)),
            Some(tag) => {
                assert(info@.variants[tag as int] == (
                    info.variants@[tag as int].0@,
                    info.variants@[tag as int].1@,
                ));
                match &info.variants[tag].1 {
                    VariantPayload::Bare => {
                        let seed = enum_seed(expected, eid, info.type_params.len());
                        self.make_variant(eid, enum_name, tag, VariantArgs::Bare, seed, line)
                    },
                    p => Err(shape_error(p, enum_name, variant, line)),
                }
            },
        }
    }
}

// -- Expressions ------------------------------------------------------------

spec fn exprs_r(r: Result<Vec<Expr>, String>) -> Result<Seq<ExprView>, Seq<char>> {
    match r {
        Ok(x) => Ok(exprs_view(x@)),
        Err(m) => Err(m@),
    }
}

spec fn opt_expr_view(e: Option<Expr>) -> Option<ExprView> {
    match e {
        Some(e) => Some(e@),
        None => None,
    }
}

spec fn opt_expr_r(r: Result<Option<Expr>, String>) -> Result<Option<ExprView>, Seq<char>> {
    match r {
        Ok(x) => Ok(opt_expr_view(x)),
        Err(m) => Err(m@),
    }
}

spec fn opt_stmt_view(s: Option<Box<Stmt>>) -> Option<Box<StmtView>> {
    match s {
        Some(s) => Some(Box::new(s@)),
        None => None,
    }
}

spec fn opt_stmt_r(r: Result<Option<Box<Stmt>>, String>) -> Result<
    Option<Box<StmtView>>,
    Seq<char>,
> {
    match r {
        Ok(x) => Ok(opt_stmt_view(x)),
        Err(m) => Err(m@),
    }
}

spec fn arms_r(r: Result<Vec<(Pattern, Block)>, String>) -> Result<
    Seq<(PatternView, BlockView)>,
    Seq<char>,
> {
    match r {
        Ok(x) => Ok(stmt_arms_view(x@)),
        Err(m) => Err(m@),
    }
}

fn expr_arm_patterns(arms: &Vec<(Pattern, Expr)>) -> (r: Vec<&Pattern>)
    ensures
        pattern_refs_view(r@) == typing::expr_patterns(expr_arms_view(arms@)),
        r@.len() == arms@.len(),
{
    let mut out: Vec<&Pattern> = Vec::new();
    let mut i: usize = 0;
    while i < arms.len()
        invariant
            i <= arms.len(),
            out@.len() == i,
            forall|j: int| 0 <= j < i ==> (#[trigger] out@[j])@ == arms@[j].0@,
        decreases arms.len() - i,
    {
        out.push(&arms[i].0);
        i += 1;
    }
    assert(pattern_refs_view(out@) =~= typing::expr_patterns(expr_arms_view(arms@)));
    out
}

fn stmt_arm_patterns(arms: &Vec<(Pattern, Block)>) -> (r: Vec<&Pattern>)
    ensures
        pattern_refs_view(r@) == typing::stmt_patterns(stmt_arms_view(arms@)),
        r@.len() == arms@.len(),
{
    let mut out: Vec<&Pattern> = Vec::new();
    let mut i: usize = 0;
    while i < arms.len()
        invariant
            i <= arms.len(),
            out@.len() == i,
            forall|j: int| 0 <= j < i ==> (#[trigger] out@[j])@ == arms@[j].0@,
        decreases arms.len() - i,
    {
        out.push(&arms[i].0);
        i += 1;
    }
    assert(pattern_refs_view(out@) =~= typing::stmt_patterns(stmt_arms_view(arms@)));
    out
}

/// A copy of `name.member` in the callee position of a call.
fn clone_type_member(e: &Expr) -> (r: ExprKind)
    requires
        e@.kind is Field,
        e@.kind->Field_obj.kind is Var,
    ensures
        r@ == e@.kind,
{
    assert(e@.kind == e.kind@);
    match &e.kind {
        ExprKind::Field { obj, name, index } => {
            assert(obj@.kind == obj.kind@);
            match &obj.kind {
                ExprKind::Var { name: target, res } => {
                    let kind = ExprKind::Var { name: target.clone(), res: *res };
                    assert(kind@ == obj@.kind);
                    let copy = Expr { kind, line: obj.line, ty: obj.ty.clone() };
                    assert(copy@ == obj@);
                    ExprKind::Field { obj: Box::new(copy), name: name.clone(), index: *index }
                },
                _ => ExprKind::Bool(false),
            }
        },
        _ => ExprKind::Bool(false),
    }
}

impl FnCtx {
    fn capture_count(&self) -> (r: usize)
        ensures
            r == rules::captures_of(self@).len(),
    {
        match &self.captures {
            Some(cs) => cs.len(),
            None => 0,
        }
    }
}

impl Body {
    /// Enter a lambda: a new innermost context, outside of any loop. The
    /// lambda's id is its place in the tables.
    fn enter_lambda(&mut self, params: &Vec<Type>, ret: &Type)
        requires
            old(self).wf(),
        ensures
            final(self)@ == rules::enter_lambda(old(self)@, types_view(params@), ret@),
            final(self).wf(),
            final(self).outer@.len() == old(self).outer@.len() + 1,
            final(self).lambda_locals@.len() == old(self).lambda_locals@.len() + 1,
    {
        reveal(rules::enter_lambda);
        let ghost before = *self;
        let no_captures: Vec<Capture> = Vec::new();
        let no_vars: Vec<(String, u32, Type)> = Vec::new();
        let no_locals: Vec<Type> = Vec::new();
        assert(captures_view(no_captures@) =~= Seq::empty());
        assert(vars_view(no_vars@) =~= Seq::empty());
        assert(types_view(no_locals@) =~= Seq::empty());
        let mut other = FnCtx {
            vars: no_vars,
            locals: no_locals,
            captures: Some(no_captures),
            ret: ret.clone(),
        };
        let ghost fresh = other@;
        std::mem::swap(&mut self.cur, &mut other);
        self.outer.push(other);
        assert(ctxs_view(self.outer@) =~= ctxs_view(before.outer@).push(before.cur@));
        self.in_loop = false;
        let none: Vec<Type> = Vec::new();
        assert(types_view(none@) =~= Seq::empty());
        self.lambda_locals.push(none);
        assert(locals_view(self.lambda_locals@) =~= locals_view(before.lambda_locals@).push(
            Seq::empty(),
        ));
        self.lambda_sigs.push((Type::clone_all(params), ret.clone()));
        assert(lambda_sigs_view(self.lambda_sigs@) =~= lambda_sigs_view(before.lambda_sigs@).push(
            (types_view(params@), ret@),
        ));
    }

    /// Leave the lambda with place `id` in the tables; gives its captures.
    fn exit_lambda(&mut self, id: usize, in_loop: bool) -> (r: Vec<Capture>)
        requires
            old(self).wf(),
            old(self).outer@.len() > 0,
            id < old(self).lambda_locals@.len(),
        ensures
            final(self)@ == rules::exit_lambda(old(self)@, id as nat, in_loop),
            captures_view(r@) == rules::captures_of(old(self)@.cur),
            final(self).wf(),
            final(self).outer@.len() == old(self).outer@.len() - 1,
            final(self).lambda_locals@.len() == old(self).lambda_locals@.len(),
    {
        reveal(rules::exit_lambda);
        let ghost before = *self;
        self.in_loop = in_loop;
        match self.outer.pop() {
            None => Vec::new(),
            Some(mut inner) => {
                assert(ctxs_view(self.outer@) =~= ctxs_view(before.outer@).drop_last());
                assert(inner@ == ctxs_view(before.outer@).last());
                std::mem::swap(&mut self.cur, &mut inner);
                self.lambda_locals.set(id, inner.locals);
                assert(locals_view(self.lambda_locals@) =~= locals_view(
                    before.lambda_locals@,
                ).update(id as int, types_view(before.cur.locals@)));
                match inner.captures {
                    Some(cs) => cs,
                    None => {
                        let none: Vec<Capture> = Vec::new();
                        assert(captures_view(none@) =~= Seq::empty());
                        none
                    },
                }
            },
        }
    }
}

impl Checker {
    fn check_expr(&self, st: &mut Body, e: &Expr, expected: Option<&Type>) -> (r: Result<
        Expr,
        String,
    >)
        requires
            old(st).wf(),
        ensures
            obeys(
                expr_r(r),
                rules::check_expr(self@, old(st)@, e@, expect_view(expected)),
                *old(st),
                *final(st),
            ),
        decreases e@, 9int,
    {
        let line: u32 = e.line;
        assert(e@.kind == e.kind@);
        match &e.kind {
            ExprKind::Int(digits) => match literal_kind(*digits as i128, expected, line) {
                Ok(k) => Ok(typed(ExprKind::Int(*digits), line, Type::Int(k))),
                Err(m) => Err(m),
            },
            ExprKind::Byte(b) => Ok(typed(ExprKind::Byte(*b), line, Type::Int(IntKind::U8))),
            ExprKind::Float(s) => Ok(typed(ExprKind::Float(s.clone()), line, Type::Float)),
            ExprKind::Bool(b) => Ok(typed(ExprKind::Bool(*b), line, Type::Bool)),
            ExprKind::Str(s) => Ok(typed(ExprKind::Str(s.clone()), line, Type::Str)),
            ExprKind::Var { name, .. } => match self.value_of(st, name.as_str(), line) {
                Ok((res, ty)) => Ok(
                    typed(ExprKind::Var { name: name.clone(), res: Some(res) }, line, ty),
                ),
                Err(m) => Err(m),
            },
            ExprKind::Unary(op, sub) => self.check_unary(st, *op, sub, line, expected),
            ExprKind::Binary(..) => self.check_binary(st, e, expected),
            ExprKind::If { .. } => self.check_if(st, e, expected),
            ExprKind::Call { .. } => self.check_call(st, e, expected),
            ExprKind::VariantStructLit { enum_name, variant, fields } => {
                match self.enum_id(enum_name.as_str()) {
                    None => Err(
                        cat4(
                            line_text(line).as_str(),
                            ": unknown enum '",
                            enum_name.as_str(),
                            "'",
                        ),
                    ),
                    Some(eid) => self.check_variant_fields(
                        st,
                        eid,
                        enum_name.as_str(),
                        variant.as_str(),
                        fields,
                        line,
                        expected,
                    ),
                }
            },
            ExprKind::Match { .. } => self.check_match(st, e, expected),
            ExprKind::Field { obj, name, index } => self.check_field(
                st,
                obj,
                name.as_str(),
                *index,
                line,
                expected,
            ),
            ExprKind::Index(..) => self.check_index(st, e),
            ExprKind::Cast(sub, te) => self.check_cast(st, sub, te, line),
            ExprKind::ArrayLit(elems) => self.check_array(st, elems, line, expected),
            ExprKind::StructLit { name, fields, .. } => self.check_struct_lit(
                st,
                name.as_str(),
                fields,
                line,
                expected,
            ),
            ExprKind::Lambda(lam) => self.check_lambda(st, lam, line),
            ExprKind::Builtin(..) => Err(malformed(line)),
            ExprKind::BoundMethod { .. } => Err(malformed(line)),
            ExprKind::VariantLit { .. } => Err(malformed(line)),
        }
    }

    fn check_unary(
        &self,
        st: &mut Body,
        op: UnOp,
        sub: &Expr,
        line: u32,
        expected: Option<&Type>,
    ) -> (r: Result<Expr, String>)
        requires
            old(st).wf(),
        ensures
            obeys(
                expr_r(r),
                rules::check_unary(self@, old(st)@, op, sub@, line, expect_view(expected)),
                *old(st),
                *final(st),
            ),
        decreases sub@, 10int,
    {
        assert(sub@.kind == sub.kind@);
        if matches!(op, UnOp::Neg) {
            if let ExprKind::Int(digits) = &sub.kind {
                let v: i128 = -(*digits as i128);
                return match literal_kind(v, expected, line) {
                    Ok(k) => Ok(typed(ExprKind::Int(bit_pattern(v)), line, Type::Int(k))),
                    Err(m) => Err(m),
                };
            }
        }
        let want = if matches!(op, UnOp::BitNot) {
            expected
        } else {
            None
        };
        let x = match self.check_expr(st, sub, want) {
            Ok(x) => x,
            Err(m) => return Err(m),
        };
        match self.unary_type(op, &x.ty, line) {
            Ok(ty) => Ok(typed(ExprKind::Unary(op, Box::new(x)), line, ty)),
            Err(m) => Err(m),
        }
    }

    fn check_binary(&self, st: &mut Body, e: &Expr, expected: Option<&Type>) -> (r: Result<
        Expr,
        String,
    >)
        requires
            old(st).wf(),
        ensures
            obeys(
                expr_r(r),
                rules::check_binary(self@, old(st)@, e@, expect_view(expected)),
                *old(st),
                *final(st),
            ),
        decreases e@, 8int,
    {
        let line: u32 = e.line;
        assert(e@.kind == e.kind@);
        let (op, lhs, rhs) = match &e.kind {
            ExprKind::Binary(op, lhs, rhs) => (*op, lhs, rhs),
            _ => return Err(malformed(line)),
        };
        let logical = matches!(op, BinOp::And | BinOp::Or);
        let compares = matches!(
            op,
            BinOp::Eq | BinOp::Ne | BinOp::Lt | BinOp::Le | BinOp::Gt | BinOp::Ge
        );
        let want_bool = Type::Bool;
        assert(want_bool@ == TypeView::Bool);
        let want = if logical {
            Some(&want_bool)
        } else if compares {
            None
        } else {
            expected
        };
        assert(expect_view(want) == rules::left_expected(op, expect_view(expected)));
        let l = match self.check_expr(st, lhs, want) {
            Ok(x) => x,
            Err(m) => return Err(m),
        };
        let want_right = if logical {
            &want_bool
        } else {
            &l.ty
        };
        assert(want_right@ == rules::right_expected(op, l@.ty));
        let r = match self.check_expr(st, rhs, Some(want_right)) {
            Ok(x) => x,
            Err(m) => return Err(m),
        };
        match self.binary_type(op, &l.ty, &r.ty, line) {
            Ok(ty) => Ok(typed(ExprKind::Binary(op, Box::new(l), Box::new(r)), line, ty)),
            Err(m) => Err(m),
        }
    }

    fn check_cond(&self, st: &mut Body, cond: &Expr) -> (r: Result<Expr, String>)
        requires
            old(st).wf(),
        ensures
            obeys(
                expr_r(r),
                rules::check_cond(self@, old(st)@, cond@),
                *old(st),
                *final(st),
            ),
        decreases cond@, 10int,
    {
        let want = Type::Bool;
        assert(want@ == TypeView::Bool);
        let c = match self.check_expr(st, cond, Some(&want)) {
            Ok(x) => x,
            Err(m) => return Err(m),
        };
        if matches!(c.ty, Type::Bool) {
            Ok(c)
        } else {
            Err(
                cat3(
                    line_text(cond.line).as_str(),
                    ": condition must be 'bool', found ",
                    self.show(&c.ty).as_str(),
                ),
            )
        }
    }

    fn check_if(&self, st: &mut Body, e: &Expr, expected: Option<&Type>) -> (r: Result<Expr, String>)
        requires
            old(st).wf(),
        ensures
            obeys(
                expr_r(r),
                rules::check_if(self@, old(st)@, e@, expect_view(expected)),
                *old(st),
                *final(st),
            ),
        decreases e@, 8int,
    {
        let line: u32 = e.line;
        assert(e@.kind == e.kind@);
        let (cond, then, els) = match &e.kind {
            ExprKind::If { cond, then, els } => (cond, then, els),
            _ => return Err(malformed(line)),
        };
        let c = match self.check_cond(st, cond) {
            Ok(x) => x,
            Err(m) => return Err(m),
        };
        let t = match self.check_expr(st, then, expected) {
            Ok(x) => x,
            Err(m) => return Err(m),
        };
        let f = match self.check_expr(st, els, Some(&t.ty)) {
            Ok(x) => x,
            Err(m) => return Err(m),
        };
        if !t.ty.same(&f.ty) {
            return Err(
                cat5(
                    line_text(line).as_str(),
                    ": if-expression branches have different types: ",
                    self.show(&t.ty).as_str(),
                    " and ",
                    self.show(&f.ty).as_str(),
                ),
            );
        }
        if matches!(t.ty, Type::Unit) {
            return Err(
                cat2(line_text(line).as_str(), ": if-expression branches must produce a value"),
            );
        }
        let ty = t.ty.clone();
        Ok(
            typed(
                ExprKind::If { cond: Box::new(c), then: Box::new(t), els: Box::new(f) },
                line,
                ty,
            ),
        )
    }

    fn check_index(&self, st: &mut Body, e: &Expr) -> (r: Result<Expr, String>)
        requires
            old(st).wf(),
        ensures
            obeys(expr_r(r), rules::check_index(self@, old(st)@, e@), *old(st), *final(st)),
        decreases e@, 8int,
    {
        let line: u32 = e.line;
        assert(e@.kind == e.kind@);
        let (obj, idx) = match &e.kind {
            ExprKind::Index(obj, idx) => (obj, idx),
            _ => return Err(malformed(line)),
        };
        let o = match self.check_expr(st, obj, None) {
            Ok(x) => x,
            Err(m) => return Err(m),
        };
        let want = Type::int_type();
        let i = match self.check_expr(st, idx, Some(&want)) {
            Ok(x) => x,
            Err(m) => return Err(m),
        };
        if !i.ty.same(&want) {
            return Err(
                cat3(
                    line_text(line).as_str(),
                    ": array index must be int, found ",
                    self.show(&i.ty).as_str(),
                ),
            );
        }
        let ty = match &o.ty {
            Type::Array(elem) => (&**elem).clone(),
            // Byte access into a string: `s[i]` is the i-th byte, u8.
            Type::Str => Type::Int(IntKind::U8),
            other => {
                return Err(
                    cat3(
                        line_text(line).as_str(),
                        ": cannot index a value of type ",
                        self.show(other).as_str(),
                    ),
                );
            },
        };
        Ok(typed(ExprKind::Index(Box::new(o), Box::new(i)), line, ty))
    }

    fn check_cast(&self, st: &mut Body, sub: &Expr, te: &TypeExpr, line: u32) -> (r: Result<
        Expr,
        String,
    >)
        requires
            old(st).wf(),
        ensures
            obeys(
                expr_r(r),
                rules::check_cast(self@, old(st)@, sub@, te@, line),
                *old(st),
                *final(st),
            ),
        decreases sub@, 10int,
    {
        let target = match self.resolve_type(te) {
            Ok(t) => t,
            Err(m) => return Err(m),
        };
        if !matches!(target, Type::Int(_) | Type::Float) {
            return Err(
                cat3(
                    line_text(line).as_str(),
                    ": cast target must be a numeric type, found ",
                    self.show(&target).as_str(),
                ),
            );
        }
        let want = if is_literal(sub) {
            Some(&target)
        } else {
            None
        };
        let x = match self.check_expr(st, sub, want) {
            Ok(x) => x,
            Err(m) => return Err(m),
        };
        if !matches!(x.ty, Type::Int(_) | Type::Float) {
            return Err(
                cat5(
                    line_text(line).as_str(),
                    ": cannot cast ",
                    self.show(&x.ty).as_str(),
                    " to ",
                    self.show(&target).as_str(),
                ),
            );
        }
        Ok(typed(ExprKind::Cast(Box::new(x), te.clone()), line, target))
    }

    fn check_array(&self, st: &mut Body, elems: &Vec<Expr>, line: u32, expected: Option<&Type>) -> (r:
        Result<Expr, String>)
        requires
            old(st).wf(),
        ensures
            obeys(
                expr_r(r),
                rules::check_array(
                    self@,
                    old(st)@,
                    exprs_view(elems@),
                    line,
                    expect_view(expected),
                ),
                *old(st),
                *final(st),
            ),
        decreases exprs_view(elems@), elems@.len() + 1,
    {
        let ghost all = exprs_view(elems@);
        let mut elem_ty: Option<Type> = match expected {
            Some(Type::Array(elem)) => Some((&**elem).clone()),
            _ => None,
        };
        let ghost want0 = crate::types::opt_type_view(elem_ty);
        let mut out: Vec<Expr> = Vec::new();
        assert(exprs_view(out@) =~= Seq::empty());
        let mut i: usize = 0;
        while i < elems.len()
            invariant
                i <= elems.len(),
                st.follows(*old(st)),
                all == exprs_view(elems@),
                want0 == (match expect_view(expected) {
                    Some(TypeView::Array(elem)) => Some(*elem),
                    _ => None,
                }),
                rules::check_elems(self@, old(st)@, all, 0, want0, Seq::empty())
                    == rules::check_elems(
                    self@,
                    st@,
                    all,
                    i as nat,
                    crate::types::opt_type_view(elem_ty),
                    exprs_view(out@),
                ),
            decreases elems.len() - i,
        {
            let ghost before = out@;
            assert(all[i as int] == elems@[i as int]@);
            let want = match &elem_ty {
                Some(t) => Some(t),
                None => None,
            };
            let x = match self.check_expr(st, &elems[i], want) {
                Ok(x) => x,
                Err(m) => return Err(m),
            };
            match &elem_ty {
                None => {
                    elem_ty = Some(x.ty.clone());
                },
                Some(t) => match self.require_assignable(t, &x.ty, elems[i].line) {
                    Ok(()) => {},
                    Err(m) => return Err(m),
                },
            }
            out.push(x);
            assert(exprs_view(out@) =~= exprs_view(before).push(x@));
            i += 1;
        }
        match elem_ty {
            Some(t) => Ok(typed(ExprKind::ArrayLit(out), line, Type::Array(Box::new(t)))),
            None => Err(
                cat2(
                    line_text(line).as_str(),
                    ": cannot infer the type of an empty array; add a type annotation",
                ),
            ),
        }
    }

    /// Check one value against its declared (possibly generic) type,
    /// contributing type-argument bindings to `solved`.
    fn check_payload_value(
        &self,
        st: &mut Body,
        decl: &Type,
        solved: &mut Vec<Option<Type>>,
        value: &Expr,
    ) -> (r: Result<Expr, String>)
        requires
            old(st).wf(),
        ensures
            ({
                let want = rules::check_against(
                    self@,
                    old(st)@,
                    decl@,
                    opt_types_view(old(solved)@),
                    value@,
                );
                match r {
                    Ok(x) => want == Ok::<
                        (ExprView, Seq<Option<TypeView>>, BodyView),
                        Seq<char>,
                    >((x@, opt_types_view(final(solved)@), final(st)@)) && final(st).follows(
                        *old(st),
                    ),
                    Err(m) => want == Err::<
                        (ExprView, Seq<Option<TypeView>>, BodyView),
                        Seq<char>,
                    >(m@),
                }
            }),
            final(solved)@.len() == old(solved)@.len(),
        decreases value@, 10int,
    {
        let want = subst_partial(decl, solved);
        let expected = if want.has_param() {
            None
        } else {
            Some(&want)
        };
        let x = match self.check_expr(st, value, expected) {
            Ok(x) => x,
            Err(m) => return Err(m),
        };
        match self.match_value(decl, solved, &x) {
            Ok(()) => Ok(x),
            Err(m) => Err(m),
        }
    }

    fn check_inits(
        &self,
        st: &mut Body,
        decl: &Vec<(String, Type)>,
        fields: &Vec<(String, Expr, u32)>,
        what: &str,
        owner: &str,
        solved: &mut Vec<Option<Type>>,
    ) -> (r: Result<(Vec<(String, Expr, u32)>, Vec<bool>), String>)
        requires
            old(st).wf(),
        ensures
            ({
                let want = rules::check_inits(
                    self@,
                    old(st)@,
                    typed_names_view(decl@),
                    inits_view(fields@),
                    what@,
                    owner@,
                    0,
                    typing::none_seen(decl@.len()),
                    opt_types_view(old(solved)@),
                    Seq::empty(),
                );
                match r {
                    Ok((fs, seen)) => want == Ok::<
                        (
                            Seq<(Seq<char>, ExprView, u32)>,
                            Seq<bool>,
                            Seq<Option<TypeView>>,
                            BodyView,
                        ),
                        Seq<char>,
                    >((inits_view(fs@), seen@, opt_types_view(final(solved)@), final(st)@))
                        && final(st).follows(*old(st)) && seen@.len() == decl@.len(),
                    Err(m) => want == Err::<
                        (
                            Seq<(Seq<char>, ExprView, u32)>,
                            Seq<bool>,
                            Seq<Option<TypeView>>,
                            BodyView,
                        ),
                        Seq<char>,
                    >(m@),
                }
            }),
            final(solved)@.len() == old(solved)@.len(),
        decreases inits_view(fields@), fields@.len(),
    {
        let ghost d = typed_names_view(decl@);
        let ghost all = inits_view(fields@);
        let mut seen = none_list(decl.len());
        let mut out: Vec<(String, Expr, u32)> = Vec::new();
        assert(inits_view(out@) =~= Seq::empty());
        let mut i: usize = 0;
        while i < fields.len()
            invariant
                i <= fields.len(),
                st.follows(*old(st)),
                d == typed_names_view(decl@),
                all == inits_view(fields@),
                seen@.len() == decl@.len(),
                solved@.len() == old(solved)@.len(),
                rules::check_inits(
                    self@,
                    old(st)@,
                    d,
                    all,
                    what@,
                    owner@,
                    0,
                    typing::none_seen(decl@.len()),
                    opt_types_view(old(solved)@),
                    Seq::empty(),
                ) == rules::check_inits(
                    self@,
                    st@,
                    d,
                    all,
                    what@,
                    owner@,
                    i as nat,
                    seen@,
                    opt_types_view(solved@),
                    inits_view(out@),
                ),
            decreases fields.len() - i,
        {
            let ghost before = out@;
            let fname = fields[i].0.as_str();
            let value = &fields[i].1;
            assert(all[i as int] == (
                fields@[i as int].0@,
                fields@[i as int].1@,
                fields@[i as int].2,
            ));
            match find_field(decl, fname) {
                None => {
                    return Err(
                        cat6(
                            line_text(value.line).as_str(),
                            what,
                            owner,
                            "' has no field '",
                            fname,
                            "'",
                        ),
                    );
                },
                Some(j) => {
                    if seen[j] {
                        return Err(
                            cat4(
                                line_text(value.line).as_str(),
                                ": duplicate field '",
                                fname,
                                "'",
                            ),
                        );
                    }
                    seen.set(j, true);
                    assert(d[j as int] == (decl@[j as int].0@, decl@[j as int].1@));
                    let x = match self.check_payload_value(st, &decl[j].1, solved, value) {
                        Ok(x) => x,
                        Err(m) => return Err(m),
                    };
                    let ghost item = (fname@, x@, j as u32);
                    out.push((owned(fname), x, j as u32));
                    assert(inits_view(out@) =~= inits_view(before).push(item));
                },
            }
            i += 1;
        }
        Ok((out, seen))
    }

    fn check_struct_lit(
        &self,
        st: &mut Body,
        name: &str,
        fields: &Vec<(String, Expr, u32)>,
        line: u32,
        expected: Option<&Type>,
    ) -> (r: Result<Expr, String>)
        requires
            old(st).wf(),
        ensures
            obeys(
                expr_r(r),
                rules::check_struct_lit(
                    self@,
                    old(st)@,
                    name@,
                    inits_view(fields@),
                    line,
                    expect_view(expected),
                ),
                *old(st),
                *final(st),
            ),
        decreases inits_view(fields@), fields@.len() + 1,
    {
        let sid = match self.struct_id(name) {
            Some(id) => id,
            None => {
                return Err(cat4(line_text(line).as_str(), ": unknown struct '", name, "'"));
            },
        };
        let info = &self.structs[sid];
        assert(self@.structs[sid as int] == info@);
        assert(names_view(info.type_params@).len() == info.type_params@.len());
        assert(typed_names_view(info.fields@).len() == info.fields@.len());
        // Type arguments are inferred from the field values, seeded from the
        // expected type (e.g. a `let` annotation).
        let mut solved = struct_seed(expected, sid, info.type_params.len());
        let (fs, seen) = match self.check_inits(
            st,
            &info.fields,
            fields,
            ": struct '",
            name,
            &mut solved,
        ) {
            Ok(x) => x,
            Err(m) => return Err(m),
        };
        if let Some(i) = find_false(&seen) {
            assert(typed_names_view(info.fields@)[i as int] == (
                info.fields@[i as int].0@,
                info.fields@[i as int].1@,
            ));
            return Err(
                cat6(
                    line_text(line).as_str(),
                    ": missing field '",
                    info.fields[i].0.as_str(),
                    "' in struct literal '",
                    name,
                    "'",
                ),
            );
        }
        match solve(solved) {
            Err(i) => {
                assert(names_view(info.type_params@)[i as int] == info.type_params@[i as int]@);
                Err(
                    cat6(
                        line_text(line).as_str(),
                        ": cannot infer type parameter '",
                        info.type_params[i].as_str(),
                        "' of struct '",
                        name,
                        "'; annotate the target type",
                    ),
                )
            },
            Ok(targs) => Ok(
                typed(
                    ExprKind::StructLit { name: owned(name), fields: fs, struct_id: sid as u32 },
                    line,
                    Type::Struct(sid as u32, targs),
                ),
            ),
        }
    }

    fn check_variant_call(
        &self,
        st: &mut Body,
        eid: usize,
        enum_name: &str,
        variant: &str,
        args: &Vec<Expr>,
        line: u32,
        expected: Option<&Type>,
    ) -> (r: Result<Expr, String>)
        requires
            old(st).wf(),
            eid < self.enums@.len(),
        ensures
            obeys(
                expr_r(r),
                rules::check_variant_call(
                    self@,
                    old(st)@,
                    eid as nat,
                    enum_name@,
                    variant@,
                    exprs_view(args@),
                    line,
                    expect_view(expected),
                ),
                *old(st),
                *final(st),
            ),
        decreases exprs_view(args@), args@.len() + 1,
    {
        let info = &self.enums[eid];
        assert(self@.enums[eid as int] == info@);
        assert(names_view(info.type_params@).len() == info.type_params@.len());
        assert(exprs_view(args@).len() == args@.len());
        let tag = match find_variant(&info.variants, variant) {
            Some(i) => i,
            None => return Err(no_variant(info, variant, line)),
        };
        assert(info@.variants[tag as int] == (
            info.variants@[tag as int].0@,
            info.variants@[tag as int].1@,
        ));
        match &info.variants[tag].1 {
            VariantPayload::Single(pty) => {
                if args.len() != 1 {
                    return Err(
                        cat5(
                            line_text(line).as_str(),
                            ": variant '",
                            variant,
                            "' wraps exactly one value, got ",
                            dec_usize(args.len()).as_str(),
                        ),
                    );
                }
                assert(exprs_view(args@)[0] == args@[0]@);
                let mut solved = enum_seed(expected, eid, info.type_params.len());
                let x = match self.check_payload_value(st, pty, &mut solved, &args[0]) {
                    Ok(x) => x,
                    Err(m) => return Err(m),
                };
                self.make_variant(
                    eid,
                    enum_name,
                    tag,
                    VariantArgs::Single(Box::new(x)),
                    solved,
                    line,
                )
            },
            p => Err(shape_error(p, enum_name, variant, line)),
        }
    }

    fn check_variant_fields(
        &self,
        st: &mut Body,
        eid: usize,
        enum_name: &str,
        variant: &str,
        fields: &Vec<(String, Expr, u32)>,
        line: u32,
        expected: Option<&Type>,
    ) -> (r: Result<Expr, String>)
        requires
            old(st).wf(),
            eid < self.enums@.len(),
        ensures
            obeys(
                expr_r(r),
                rules::check_variant_fields(
                    self@,
                    old(st)@,
                    eid as nat,
                    enum_name@,
                    variant@,
                    inits_view(fields@),
                    line,
                    expect_view(expected),
                ),
                *old(st),
                *final(st),
            ),
        decreases inits_view(fields@), fields@.len() + 1,
    {
        let info = &self.enums[eid];
        assert(self@.enums[eid as int] == info@);
        assert(names_view(info.type_params@).len() == info.type_params@.len());
        let tag = match find_variant(&info.variants, variant) {
            Some(i) => i,
            None => return Err(no_variant(info, variant, line)),
        };
        assert(info@.variants[tag as int] == (
            info.variants@[tag as int].0@,
            info.variants@[tag as int].1@,
        ));
        match &info.variants[tag].1 {
            VariantPayload::Fields(decl) => {
                assert(typed_names_view(decl@).len() == decl@.len());
                let mut solved = enum_seed(expected, eid, info.type_params.len());
                let (fs, seen) = match self.check_inits(
                    st,
                    decl,
                    fields,
                    ": variant '",
                    variant,
                    &mut solved,
                ) {
                    Ok(x) => x,
                    Err(m) => return Err(m),
                };
                if let Some(i) = find_false(&seen) {
                    assert(typed_names_view(decl@)[i as int] == (
                        decl@[i as int].0@,
                        decl@[i as int].1@,
                    ));
                    return Err(
                        cat8(
                            line_text(line).as_str(),
                            ": missing field '",
                            decl[i].0.as_str(),
                            "' in variant literal '",
                            enum_name,
                            ".",
                            variant,
                            "'",
                        ),
                    );
                }
                self.make_variant(eid, enum_name, tag, VariantArgs::Fields(fs), solved, line)
            },
            p => Err(shape_error(p, enum_name, variant, line)),
        }
    }

    fn check_field(
        &self,
        st: &mut Body,
        obj: &Expr,
        name: &str,
        index: u32,
        line: u32,
        expected: Option<&Type>,
    ) -> (r: Result<Expr, String>)
        requires
            old(st).wf(),
        ensures
            obeys(
                expr_r(r),
                rules::check_field(
                    self@,
                    old(st)@,
                    obj@,
                    name@,
                    index,
                    line,
                    expect_view(expected),
                ),
                *old(st),
                *final(st),
            ),
        decreases obj@, 12int,
    {
        match self.names_type(st, obj) {
            Some(tname) => {
                if let Some(eid) = self.enum_id(tname.as_str()) {
                    if self.has_variant(eid, name) {
                        return self.check_variant_bare(eid, tname.as_str(), name, line, expected);
                    }
                }
                Err(self.type_member_error(tname.as_str(), name, line))
            },
            None => {
                let o = match self.check_expr(st, obj, None) {
                    Ok(x) => x,
                    Err(m) => return Err(m),
                };
                self.member_value(o, name, index, line)
            },
        }
    }

    // -- Calls --------------------------------------------------------------

    /// The arguments of a call against parameter types. A method receiver
    /// stands first and is already checked.
    fn check_args(
        &self,
        st: &mut Body,
        what: &str,
        params: &Vec<Type>,
        recv: Option<Expr>,
        args: &Vec<Expr>,
        line: u32,
    ) -> (r: Result<Vec<Expr>, String>)
        requires
            old(st).wf(),
            recv is Some ==> params@.len() == args@.len() + 1,
        ensures
            obeys(
                exprs_r(r),
                rules::check_args(
                    self@,
                    old(st)@,
                    what@,
                    types_view(params@),
                    opt_expr_view(recv),
                    exprs_view(args@),
                    line,
                ),
                *old(st),
                *final(st),
            ),
        decreases exprs_view(args@), args@.len() + 1,
    {
        let ghost ps = types_view(params@);
        let ghost all = exprs_view(args@);
        assert(ps.len() == params@.len() && all.len() == args@.len());
        let mut out: Vec<Expr> = Vec::new();
        assert(exprs_view(out@) =~= Seq::empty());
        let mut off: usize = 0;
        match recv {
            None => {
                if params.len() != args.len() {
                    return Err(argc_error(line, what, params.len(), args.len()));
                }
            },
            Some(r) => {
                assert(ps[0] == params@[0]@);
                match self.require_assignable(&params[0], &r.ty, r.line) {
                    Ok(()) => {},
                    Err(m) => return Err(m),
                }
                off = 1;
                out.push(r);
                assert(exprs_view(out@) =~= seq![r@]);
            },
        }
        let ghost start = exprs_view(out@);
        let mut i: usize = 0;
        while i < args.len()
            invariant
                i <= args.len(),
                off + args.len() == params.len(),
                st.follows(*old(st)),
                ps == types_view(params@),
                all == exprs_view(args@),
                rules::check_args(self@, old(st)@, what@, ps, opt_expr_view(recv), all, line)
                    == rules::check_args_from(self@, old(st)@, ps, off as nat, all, 0, start),
                rules::check_args_from(self@, old(st)@, ps, off as nat, all, 0, start)
                    == rules::check_args_from(
                    self@,
                    st@,
                    ps,
                    off as nat,
                    all,
                    i as nat,
                    exprs_view(out@),
                ),
            decreases args.len() - i,
        {
            let ghost before = out@;
            assert(all[i as int] == args@[i as int]@);
            assert(ps[off + i] == params@[off + i]@);
            let x = match self.check_expr(st, &args[i], Some(&params[off + i])) {
                Ok(x) => x,
                Err(m) => return Err(m),
            };
            match self.require_assignable(&params[off + i], &x.ty, x.line) {
                Ok(()) => {},
                Err(m) => return Err(m),
            }
            out.push(x);
            assert(exprs_view(out@) =~= exprs_view(before).push(x@));
            i += 1;
        }
        Ok(out)
    }

    /// Check a call to a generic function, inferring its type arguments.
    fn infer_call(
        &self,
        st: &mut Body,
        what: &str,
        sig: &FuncSig,
        recv: Option<Expr>,
        args: &Vec<Expr>,
        expected: Option<&Type>,
        line: u32,
    ) -> (r: Result<(Vec<Expr>, Vec<Type>), String>)
        requires
            old(st).wf(),
            sig.params@.len() == args@.len() + (if recv is Some {
                1int
            } else {
                0
            }),
        ensures
            ({
                let want = rules::infer_call(
                    self@,
                    old(st)@,
                    what@,
                    sig@,
                    opt_expr_view(recv),
                    exprs_view(args@),
                    expect_view(expected),
                    line,
                );
                match r {
                    Ok((xs, ts)) => want == Ok::<
                        (Seq<ExprView>, Seq<TypeView>, BodyView),
                        Seq<char>,
                    >((exprs_view(xs@), types_view(ts@), final(st)@)) && final(st).follows(
                        *old(st),
                    ),
                    Err(m) => want == Err::<
                        (Seq<ExprView>, Seq<TypeView>, BodyView),
                        Seq<char>,
                    >(m@),
                }
            }),
        decreases exprs_view(args@), args@.len() + 1,
    {
        let params = &sig.params;
        let ghost ps = types_view(params@);
        let ghost all = exprs_view(args@);
        let ghost want = rules::infer_call(
            self@,
            old(st)@,
            what@,
            sig@,
            opt_expr_view(recv),
            all,
            expect_view(expected),
            line,
        );
        assert(names_view(sig.type_params@).len() == sig.type_params@.len());
        let mut solved = call_seed(&sig.ret, expected, sig.type_params.len());
        let mut out: Vec<Expr> = Vec::new();
        assert(exprs_view(out@) =~= Seq::empty());
        let mut off: usize = 0;
        if let Some(r) = recv {
            assert(ps[0] == params@[0]@);
            match self.match_value(&params[0], &mut solved, &r) {
                Ok(()) => {},
                Err(m) => return Err(m),
            }
            off = 1;
            out.push(r);
            assert(exprs_view(out@) =~= seq![r@]);
        }
        let ghost rest = rules::infer_args_from(
            self@,
            old(st)@,
            ps,
            off as nat,
            all,
            0,
            opt_types_view(solved@),
            exprs_view(out@),
        );
        assert(rest is Err ==> want == Err::<
            (Seq<ExprView>, Seq<TypeView>, BodyView),
            Seq<char>,
        >(rest->Err_0));
        let mut i: usize = 0;
        while i < args.len()
            invariant
                i <= args.len(),
                off + args.len() == params.len(),
                st.follows(*old(st)),
                ps == types_view(params@),
                all == exprs_view(args@),
                solved@.len() == sig.type_params@.len(),
                want == rules::infer_call(
                    self@,
                    old(st)@,
                    what@,
                    sig@,
                    opt_expr_view(recv),
                    all,
                    expect_view(expected),
                    line,
                ),
                rest is Err ==> want == Err::<
                    (Seq<ExprView>, Seq<TypeView>, BodyView),
                    Seq<char>,
                >(rest->Err_0),
                rest == rules::infer_args_from(
                    self@,
                    st@,
                    ps,
                    off as nat,
                    all,
                    i as nat,
                    opt_types_view(solved@),
                    exprs_view(out@),
                ),
            decreases args.len() - i,
        {
            let ghost before = out@;
            assert(all[i as int] == args@[i as int]@);
            assert(ps[off + i] == params@[off + i]@);
            let x = match self.check_payload_value(st, &params[off + i], &mut solved, &args[i]) {
                Ok(x) => x,
                Err(m) => return Err(m),
            };
            out.push(x);
            assert(exprs_view(out@) =~= exprs_view(before).push(x@));
            i += 1;
        }
        match solve(solved) {
            Err(i) => {
                assert(names_view(sig.type_params@)[i as int] == sig.type_params@[i as int]@);
                Err(
                    cat6(
                        line_text(line).as_str(),
                        ": cannot infer type parameter '",
                        sig.type_params[i].as_str(),
                        "' of '",
                        what,
                        "'; annotate the surrounding context",
                    ),
                )
            },
            Ok(targs) => Ok((out, targs)),
        }
    }

    /// A call whose callee names function `fid` directly: check the argument
    /// list against its signature, inferring type arguments when it is
    /// generic. A receiver is hidden from arity diagnostics.
    fn direct_call(
        &self,
        st: &mut Body,
        what: &str,
        fid: u32,
        callee: ExprKind,
        callee_line: u32,
        recv: Option<Expr>,
        args: &Vec<Expr>,
        expected: Option<&Type>,
        line: u32,
    ) -> (r: Result<Expr, String>)
        requires
            old(st).wf(),
        ensures
            obeys(
                expr_r(r),
                rules::direct_call(
                    self@,
                    old(st)@,
                    what@,
                    fid,
                    callee@,
                    callee_line,
                    opt_expr_view(recv),
                    exprs_view(args@),
                    expect_view(expected),
                    line,
                ),
                *old(st),
                *final(st),
            ),
        decreases exprs_view(args@), args@.len() + 3,
    {
        if (fid as usize) >= self.funcs.len() {
            return Err(malformed(line));
        }
        let sig = &self.funcs[fid as usize];
        assert(self@.funcs[fid as int] == sig@);
        assert(names_view(sig.type_params@).len() == sig.type_params@.len());
        assert(types_view(sig.params@).len() == sig.params@.len());
        assert(exprs_view(args@).len() == args@.len());
        let skip: usize = if recv.is_some() {
            1
        } else {
            0
        };
        if sig.params.len() < skip || sig.params.len() - skip != args.len() {
            let want: usize = if sig.params.len() >= skip {
                sig.params.len() - skip
            } else {
                0
            };
            return Err(argc_error(line, what, want, args.len()));
        }
        if sig.type_params.len() == 0 {
            let xs = match self.check_args(st, what, &sig.params, recv, args, line) {
                Ok(xs) => xs,
                Err(m) => return Err(m),
            };
            let rty = sig.ret.clone();
            let ps = Type::clone_all(&sig.params);
            let fty = Type::Fn(ps, Box::new(sig.ret.clone()));
            let inst: Vec<Type> = Vec::new();
            assert(types_view(inst@) =~= Seq::empty());
            let c = typed(callee, callee_line, fty);
            Ok(
                typed(
                    ExprKind::Call { callee: Box::new(c), args: xs, direct: Some(fid), inst },
                    line,
                    rty,
                ),
            )
        } else {
            let (xs, targs) = match self.infer_call(st, what, sig, recv, args, expected, line) {
                Ok(x) => x,
                Err(m) => return Err(m),
            };
            let ps = Type::subst_each(&sig.params, targs.as_slice());
            let fty = Type::Fn(ps, Box::new(sig.ret.subst(targs.as_slice())));
            let rty = sig.ret.subst(targs.as_slice());
            let c = typed(callee, callee_line, fty);
            Ok(
                typed(
                    ExprKind::Call { callee: Box::new(c), args: xs, direct: Some(fid), inst: targs },
                    line,
                    rty,
                ),
            )
        }
    }

    /// A call through an already checked function value.
    fn indirect_call(
        &self,
        st: &mut Body,
        callee: Expr,
        args: &Vec<Expr>,
        direct: Option<u32>,
        inst: &Vec<Type>,
        line: u32,
    ) -> (r: Result<Expr, String>)
        requires
            old(st).wf(),
        ensures
            obeys(
                expr_r(r),
                rules::indirect_call(
                    self@,
                    old(st)@,
                    callee@,
                    exprs_view(args@),
                    direct,
                    types_view(inst@),
                    line,
                ),
                *old(st),
                *final(st),
            ),
        decreases exprs_view(args@), args@.len() + 2,
    {
        assert(callee@.ty == callee.ty@);
        match &callee.ty {
            Type::Fn(params, ret) => {
                let rty = (&**ret).clone();
                let none: Option<Expr> = None;
                let xs = match self.check_args(st, "function value", params, none, args, line) {
                    Ok(xs) => xs,
                    Err(m) => return Err(m),
                };
                let inst2 = Type::clone_all(inst);
                Ok(
                    typed(
                        ExprKind::Call { callee: Box::new(callee), args: xs, direct, inst: inst2 },
                        line,
                        rty,
                    ),
                )
            },
            other => Err(
                cat3(
                    line_text(line).as_str(),
                    ": cannot call a value of type ",
                    self.show(other).as_str(),
                ),
            ),
        }
    }

    fn check_builtin(&self, st: &mut Body, b: Builtin, args: &Vec<Expr>, line: u32) -> (r: Result<
        Expr,
        String,
    >)
        requires
            old(st).wf(),
        ensures
            obeys(
                expr_r(r),
                rules::check_builtin(self@, old(st)@, b, exprs_view(args@), line),
                *old(st),
                *final(st),
            ),
        decreases exprs_view(args@), 10int,
    {
        assert(exprs_view(args@).len() == args@.len());
        let want: usize = if matches!(b, Builtin::GcCollect) {
            0
        } else {
            1
        };
        if args.len() != want {
            return Err(
                cat5(
                    line_text(line).as_str(),
                    ": builtin expects ",
                    dec_usize(want).as_str(),
                    " argument(s), got ",
                    dec_usize(args.len()).as_str(),
                ),
            );
        }
        let mut out: Vec<Expr> = Vec::new();
        if matches!(b, Builtin::GcCollect) {
            assert(exprs_view(out@) =~= Seq::empty());
            return Ok(typed(ExprKind::Builtin(b, out), line, Type::Unit));
        }
        assert(exprs_view(args@)[0] == args@[0]@);
        let bool_type = Type::Bool;
        assert(bool_type@ == TypeView::Bool);
        let is_assert = matches!(b, Builtin::Assert);
        let expected = if is_assert {
            Some(&bool_type)
        } else {
            None
        };
        let x = match self.check_expr(st, &args[0], expected) {
            Ok(x) => x,
            Err(m) => return Err(m),
        };
        if is_assert {
            if !matches!(x.ty, Type::Bool) {
                return Err(self.mismatch(line, &bool_type, &x.ty));
            }
        } else if !matches!(x.ty, Type::Int(_) | Type::Float | Type::Bool | Type::Str) {
            return Err(
                cat3(
                    line_text(line).as_str(),
                    ": cannot print a value of type ",
                    self.show(&x.ty).as_str(),
                ),
            );
        }
        out.push(x);
        assert(exprs_view(out@) =~= seq![x@]);
        Ok(typed(ExprKind::Builtin(b, out), line, Type::Unit))
    }

    fn builtin_result(&self, b: Builtin, recv: &Type, line: u32) -> (r: Result<Type, String>)
        ensures
            type_r(r) == typing::builtin_result(self@, b, recv@, line),
    {
        reveal(typing::builtin_result);
        let byte = Type::Int(IntKind::U8);
        assert(byte@ == TypeView::Int(IntKind::U8));
        let bytes = Type::Array(Box::new(byte));
        match b {
            Builtin::Len | Builtin::Stoi => Ok(Type::int_type()),
            Builtin::Itos | Builtin::Ftos => Ok(Type::Str),
            Builtin::Itof | Builtin::Stof => Ok(Type::Float),
            Builtin::Stob => Ok(bytes),
            Builtin::Btos => {
                if recv.same(&bytes) {
                    Ok(Type::Str)
                } else {
                    Err(
                        cat3(
                            line_text(line).as_str(),
                            ": to_string() needs a [u8], found ",
                            self.show(recv).as_str(),
                        ),
                    )
                }
            },
            Builtin::Pop => match recv {
                Type::Array(elem) => Ok((&**elem).clone()),
                _ => Err(malformed(line)),
            },
            Builtin::Unwrap => match recv {
                Type::Enum(_, targs) => {
                    assert(types_view(targs@).len() == targs@.len());
                    if targs.len() > 0 {
                        assert(types_view(targs@)[0] == targs@[0]@);
                        Ok(targs[0].clone())
                    } else {
                        Err(malformed(line))
                    }
                },
                _ => Err(malformed(line)),
            },
            _ => Err(malformed(line)),
        }
    }

    /// Check a builtin method call on an already checked receiver.
    fn check_builtin_method(
        &self,
        st: &mut Body,
        b: Builtin,
        recv: Expr,
        args: &Vec<Expr>,
        line: u32,
    ) -> (r: Result<Expr, String>)
        requires
            old(st).wf(),
        ensures
            obeys(
                expr_r(r),
                rules::check_builtin_method(
                    self@,
                    old(st)@,
                    b,
                    recv@,
                    exprs_view(args@),
                    line,
                ),
                *old(st),
                *final(st),
            ),
        decreases exprs_view(args@), 10int,
    {
        assert(exprs_view(args@).len() == args@.len());
        assert(recv@.ty == recv.ty@);
        let is_push = matches!(b, Builtin::Push);
        let want: usize = if is_push {
            1
        } else {
            0
        };
        if args.len() != want {
            return Err(
                cat7(
                    line_text(line).as_str(),
                    ": method '",
                    surface_name(b),
                    "' expects ",
                    dec_usize(want).as_str(),
                    " argument(s), got ",
                    dec_usize(args.len()).as_str(),
                ),
            );
        }
        let mut out: Vec<Expr> = Vec::new();
        if is_push {
            assert(exprs_view(args@)[0] == args@[0]@);
            let elem = match &recv.ty {
                Type::Array(elem) => (&**elem).clone(),
                _ => return Err(malformed(line)),
            };
            let x = match self.check_expr(st, &args[0], Some(&elem)) {
                Ok(x) => x,
                Err(m) => return Err(m),
            };
            match self.require_assignable(&elem, &x.ty, line) {
                Ok(()) => {},
                Err(m) => return Err(m),
            }
            out.push(recv);
            out.push(x);
            assert(exprs_view(out@) =~= seq![recv@, x@]);
            Ok(typed(ExprKind::Builtin(b, out), line, Type::Unit))
        } else {
            match self.builtin_result(b, &recv.ty, line) {
                Ok(ty) => {
                    out.push(recv);
                    assert(exprs_view(out@) =~= seq![recv@]);
                    Ok(typed(ExprKind::Builtin(b, out), line, ty))
                },
                Err(m) => Err(m),
            }
        }
    }

    /// `Type.name(args)`: a variant construction or an associated function.
    fn check_type_call(
        &self,
        st: &mut Body,
        callee: &Expr,
        tname: &str,
        mname: &str,
        args: &Vec<Expr>,
        line: u32,
        expected: Option<&Type>,
    ) -> (r: Result<Expr, String>)
        requires
            old(st).wf(),
            callee@.kind is Field,
            callee@.kind->Field_obj.kind is Var,
        ensures
            obeys(
                expr_r(r),
                rules::check_type_call(
                    self@,
                    old(st)@,
                    callee@,
                    tname@,
                    mname@,
                    exprs_view(args@),
                    line,
                    expect_view(expected),
                ),
                *old(st),
                *final(st),
            ),
        decreases exprs_view(args@), args@.len() + 12,
    {
        if let Some(eid) = self.enum_id(tname) {
            // Variants take priority (and cannot collide with methods).
            if self.has_variant(eid, mname) {
                return self.check_variant_call(st, eid, tname, mname, args, line, expected);
            }
        }
        let key = key_of(self, tname);
        match self.method(key, mname) {
            None => {
                if matches!(key, TypeKey::Enum(_)) {
                    Err(
                        cat6(
                            line_text(line).as_str(),
                            ": enum '",
                            tname,
                            "' has no variant or associated function '",
                            mname,
                            "'",
                        ),
                    )
                } else {
                    Err(
                        cat6(
                            line_text(line).as_str(),
                            ": struct '",
                            tname,
                            "' has no associated function '",
                            mname,
                            "'",
                        ),
                    )
                }
            },
            Some((fid, has_self)) => {
                if has_self {
                    return Err(
                        cat6(
                            line_text(line).as_str(),
                            ": '",
                            mname,
                            "' is a method; call it as 'value.",
                            mname,
                            "(...)'",
                        ),
                    );
                }
                let what = cat3(tname, ".", mname);
                let kind = clone_type_member(callee);
                let none: Option<Expr> = None;
                self.direct_call(
                    st,
                    what.as_str(),
                    fid,
                    kind,
                    callee.line,
                    none,
                    args,
                    expected,
                    line,
                )
            },
        }
    }

    /// A call to a bare name: a function value, a function, or a builtin.
    fn check_name_call(
        &self,
        st: &mut Body,
        callee: &Expr,
        name: &str,
        args: &Vec<Expr>,
        direct: Option<u32>,
        inst: &Vec<Type>,
        line: u32,
        expected: Option<&Type>,
    ) -> (r: Result<Expr, String>)
        requires
            old(st).wf(),
            callee@.kind is Var,
            callee@.kind->Var_name == name@,
        ensures
            obeys(
                expr_r(r),
                rules::check_name_call(
                    self@,
                    old(st)@,
                    callee@,
                    name@,
                    exprs_view(args@),
                    direct,
                    types_view(inst@),
                    line,
                    expect_view(expected),
                ),
                *old(st),
                *final(st),
            ),
        decreases exprs_view(args@), args@.len() + 11,
    {
        if let Some((res, ty)) = st.resolve_var(name) {
            let f = typed(ExprKind::Var { name: owned(name), res: Some(res) }, callee.line, ty);
            return self.indirect_call(st, f, args, direct, inst, line);
        }
        if let Some(fid) = self.func_id(name) {
            let none: Option<Expr> = None;
            let res = match &callee.kind {
                ExprKind::Var { res, .. } => *res,
                _ => None,
            };
            let kind = ExprKind::Var { name: owned(name), res };
            assert(kind@ == callee@.kind);
            return self.direct_call(
                st,
                name,
                fid as u32,
                kind,
                callee.line,
                none,
                args,
                expected,
                line,
            );
        }
        if let Some(b) = free_builtin(name) {
            return self.check_builtin(st, b, args, line);
        }
        match retired_hint(name) {
            Some(hint) => Err(
                cat5(line_text(line).as_str(), ": '", name, "' is now a method: write ", hint),
            ),
            None => Err(cat4(line_text(line).as_str(), ": unknown function '", name, "'")),
        }
    }

    /// `obj.name(args)` with the object already checked: a method call, a
    /// builtin method, or a call through a function-valued field.
    fn check_member_call(
        &self,
        st: &mut Body,
        callee: &Expr,
        obj: Expr,
        mname: &str,
        index: u32,
        args: &Vec<Expr>,
        direct: Option<u32>,
        inst: &Vec<Type>,
        line: u32,
        expected: Option<&Type>,
    ) -> (r: Result<Expr, String>)
        requires
            old(st).wf(),
        ensures
            obeys(
                expr_r(r),
                rules::check_member_call(
                    self@,
                    old(st)@,
                    callee@,
                    obj@,
                    mname@,
                    index,
                    exprs_view(args@),
                    direct,
                    types_view(inst@),
                    line,
                    expect_view(expected),
                ),
                *old(st),
                *final(st),
            ),
        decreases exprs_view(args@), args@.len() + 11,
    {
        assert(obj@.ty == obj.ty@);
        if let Some((fid, has_self)) = self.lookup_method(&obj.ty, mname) {
            if !has_self {
                return Err(
                    cat8(
                        line_text(line).as_str(),
                        ": '",
                        mname,
                        "' is an associated function; call it as '",
                        self.type_base_name(&obj.ty).as_str(),
                        ".",
                        mname,
                        "(...)'",
                    ),
                );
            }
            // The callee expression is dead for a direct call; leave a
            // resolution-free placeholder.
            let kind = ExprKind::Var { name: owned(mname), res: None };
            return self.direct_call(
                st,
                mname,
                fid,
                kind,
                callee.line,
                Some(obj),
                args,
                expected,
                line,
            );
        }
        if let Some(b) = builtin_method(&obj.ty, mname, self.option_enum) {
            return self.check_builtin_method(st, b, obj, args, line);
        }
        // An ordinary field access: the field may hold a function value.
        match self.field_after_obj(obj, mname, index, callee.line) {
            Ok(f) => self.indirect_call(st, f, args, direct, inst, line),
            Err(m) => Err(m),
        }
    }

    fn check_call(&self, st: &mut Body, e: &Expr, expected: Option<&Type>) -> (r: Result<
        Expr,
        String,
    >)
        requires
            old(st).wf(),
        ensures
            obeys(
                expr_r(r),
                rules::check_call(self@, old(st)@, e@, expect_view(expected)),
                *old(st),
                *final(st),
            ),
        decreases e@, 8int,
    {
        let line: u32 = e.line;
        assert(e@.kind == e.kind@);
        let (callee, args, direct, inst) = match &e.kind {
            ExprKind::Call { callee, args, direct, inst } => (callee, args, *direct, inst),
            _ => return Err(malformed(line)),
        };
        assert(callee@.kind == callee.kind@);
        match &callee.kind {
            ExprKind::Field { obj, name, index } => {
                assert(obj@.kind == obj.kind@);
                match self.names_type(st, obj) {
                    Some(tname) => {
                        proof {
                            reveal(rules::names_type);
                        }
                        self.check_type_call(
                            st,
                            callee,
                            tname.as_str(),
                            name.as_str(),
                            args,
                            line,
                            expected,
                        )
                    },
                    None => {
                        // The receiver is checked exactly once, here.
                        let o = match self.check_expr(st, obj, None) {
                            Ok(x) => x,
                            Err(m) => return Err(m),
                        };
                        self.check_member_call(
                            st,
                            callee,
                            o,
                            name.as_str(),
                            *index,
                            args,
                            direct,
                            inst,
                            line,
                            expected,
                        )
                    },
                }
            },
            ExprKind::Var { name, .. } => self.check_name_call(
                st,
                callee,
                name.as_str(),
                args,
                direct,
                inst,
                line,
                expected,
            ),
            _ => {
                let f = match self.check_expr(st, callee, None) {
                    Ok(x) => x,
                    Err(m) => return Err(m),
                };
                self.indirect_call(st, f, args, direct, inst, line)
            },
        }
    }

    // -- Match and lambda ---------------------------------------------------

    fn check_match(&self, st: &mut Body, e: &Expr, expected: Option<&Type>) -> (r: Result<
        Expr,
        String,
    >)
        requires
            old(st).wf(),
        ensures
            obeys(
                expr_r(r),
                rules::check_match(self@, old(st)@, e@, expect_view(expected)),
                *old(st),
                *final(st),
            ),
        decreases e@, 8int,
    {
        let line: u32 = e.line;
        assert(e@.kind == e.kind@);
        let (scrutinee, arms) = match &e.kind {
            ExprKind::Match { scrutinee, arms } => (scrutinee, arms),
            _ => return Err(malformed(line)),
        };
        let s = match self.check_expr(st, scrutinee, None) {
            Ok(x) => x,
            Err(m) => return Err(m),
        };
        let refs = expr_arm_patterns(arms);
        let pats = match self.check_patterns(&s.ty, &refs, line) {
            Ok(ps) => ps,
            Err(m) => return Err(m),
        };
        assert(typing::expr_patterns(expr_arms_view(arms@)).len() == arms@.len());
        let (xs, rty) = match self.check_expr_arms(st, arms, pats, expected) {
            Ok(x) => x,
            Err(m) => return Err(m),
        };
        match rty {
            None => Err(malformed(line)),
            Some(ty) => {
                if matches!(ty, Type::Unit) {
                    return Err(
                        cat2(line_text(line).as_str(), ": match arms must produce a value"),
                    );
                }
                Ok(
                    typed(ExprKind::Match { scrutinee: Box::new(s), arms: xs }, line, ty),
                )
            },
        }
    }

    fn check_expr_arms(
        &self,
        st: &mut Body,
        arms: &Vec<(Pattern, Expr)>,
        pats: Vec<Pattern>,
        expected: Option<&Type>,
    ) -> (r: Result<(Vec<(Pattern, Expr)>, Option<Type>), String>)
        requires
            old(st).wf(),
            pats@.len() == arms@.len(),
        ensures
            ({
                let want = rules::check_expr_arms(
                    self@,
                    old(st)@,
                    expr_arms_view(arms@),
                    patterns_view(pats@),
                    0,
                    expect_view(expected),
                    None,
                    Seq::empty(),
                );
                match r {
                    Ok((xs, t)) => want == Ok::<
                        (Seq<(PatternView, ExprView)>, Option<TypeView>, BodyView),
                        Seq<char>,
                    >((expr_arms_view(xs@), crate::types::opt_type_view(t), final(st)@)) && final(st).follows(*old(st)),
                    Err(m) => want == Err::<
                        (Seq<(PatternView, ExprView)>, Option<TypeView>, BodyView),
                        Seq<char>,
                    >(m@),
                }
            }),
        decreases expr_arms_view(arms@), arms@.len() + 1,
    {
        let ghost all = expr_arms_view(arms@);
        let ghost ps = patterns_view(pats@);
        let ghost exp = expect_view(expected);
        let mut rest = pats;
        let mut rty: Option<Type> = None;
        let mut out: Vec<(Pattern, Expr)> = Vec::new();
        assert(expr_arms_view(out@) =~= Seq::empty());
        let mut i: usize = 0;
        while i < arms.len()
            invariant
                i <= arms.len(),
                st.follows(*old(st)),
                all == expr_arms_view(arms@),
                ps == patterns_view(pats@),
                ps.len() == arms@.len(),
                rest@.len() == arms@.len() - i,
                forall|j: int| 0 <= j < rest@.len() ==> (#[trigger] rest@[j])@ == ps[i + j],
                exp == expect_view(expected),
                rules::check_expr_arms(self@, old(st)@, all, ps, 0, exp, None, Seq::empty())
                    == rules::check_expr_arms(
                    self@,
                    st@,
                    all,
                    ps,
                    i as nat,
                    exp,
                    crate::types::opt_type_view(rty),
                    expr_arms_view(out@),
                ),
            decreases arms.len() - i,
        {
            let ghost before = out@;
            let ghost tail = rest@;
            assert(all[i as int] == (arms@[i as int].0@, arms@[i as int].1@));
            let body = &arms[i].1;
            let mark = st.cur.vars.len();
            let pat = rest.remove(0);
            assert(pat@ == ps[i as int]);
            assert forall|j: int| 0 <= j < rest@.len() implies (#[trigger] rest@[j])@ == ps[i + 1 + j] by {
                assert(rest@[j] == tail[j + 1]);
            }
            let p = match st.declare_pattern_binders(pat) {
                Ok(p) => p,
                Err(m) => return Err(m),
            };
            let want = match &rty {
                Some(t) => Some(t),
                None => expected,
            };
            let x = match self.check_expr(st, body, want) {
                Ok(x) => x,
                Err(m) => return Err(m),
            };
            st.leave_scope(mark);
            match &rty {
                Some(t) => {
                    if !t.same(&x.ty) {
                        return Err(
                            cat5(
                                line_text(body.line).as_str(),
                                ": match arms have different types: ",
                                self.show(t).as_str(),
                                " and ",
                                self.show(&x.ty).as_str(),
                            ),
                        );
                    }
                },
                None => {},
            }
            rty = Some(x.ty.clone());
            let ghost arm = (p@, x@);
            out.push((p, x));
            assert(expr_arms_view(out@) =~= expr_arms_view(before).push(arm));
            i += 1;
        }
        Ok((out, rty))
    }

    fn check_lambda(&self, st: &mut Body, lam: &LambdaDef, line: u32) -> (r: Result<Expr, String>)
        requires
            old(st).wf(),
        ensures
            obeys(
                expr_r(r),
                rules::check_lambda(self@, old(st)@, lam@, line),
                *old(st),
                *final(st),
            ),
        decreases lam@, 10int,
    {
        let params = match self.resolve_params(&lam.params) {
            Ok(ps) => ps,
            Err(m) => return Err(m),
        };
        let ret = match self.resolve_ret(&lam.ret) {
            Ok(t) => t,
            Err(m) => return Err(m),
        };
        let id = st.lambda_sigs.len();
        assert(st@.lambda_sigs.len() == id);
        let saved = st.in_loop;
        st.enter_lambda(&params, &ret);
        match st.declare_params(&lam.params, &params, lam.line) {
            Ok(()) => {},
            Err(m) => return Err(m),
        }
        let body = match self.check_block(st, &lam.body) {
            Ok(b) => b,
            Err(m) => return Err(m),
        };
        if !matches!(ret, Type::Unit) && !always_returns(&body) {
            return Err(
                cat2(line_text(lam.line).as_str(), ": lambda must return a value on all paths"),
            );
        }
        // Captured references sit behind a 64-bit map, after the code pointer.
        if st.cur.capture_count() > 63 {
            return Err(
                cat2(line_text(lam.line).as_str(), ": lambda captures too many variables"),
            );
        }
        let num_locals: u32 = st.cur.locals.len() as u32;
        let captures = st.exit_lambda(id, saved);
        let def = LambdaDef {
            params: clone_params(&lam.params),
            ret: clone_opt_type_expr(&lam.ret),
            body,
            line: lam.line,
            id: id as u32,
            num_locals,
            captures,
        };
        Ok(typed(ExprKind::Lambda(Box::new(def)), line, Type::Fn(params, Box::new(ret))))
    }

    // -- Statements ---------------------------------------------------------

    fn check_block(&self, st: &mut Body, b: &Block) -> (r: Result<Block, String>)
        requires
            old(st).wf(),
        ensures
            obeys(block_r(r), rules::check_block(self@, old(st)@, b@), *old(st), *final(st)),
        decreases b@, 1int,
    {
        let ghost all = stmts_view(b.stmts@);
        assert(b@.stmts == all);
        let mark = st.cur.vars.len();
        assert(st@.cur.vars.len() == mark);
        let mut out: Vec<Stmt> = Vec::new();
        assert(stmts_view(out@) =~= Seq::empty());
        let mut i: usize = 0;
        while i < b.stmts.len()
            invariant
                i <= b.stmts.len(),
                st.follows(*old(st)),
                all == stmts_view(b.stmts@),
                b@.stmts == all,
                rules::check_stmts(self@, old(st)@, all, 0, Seq::empty()) == rules::check_stmts(
                    self@,
                    st@,
                    all,
                    i as nat,
                    stmts_view(out@),
                ),
            decreases b.stmts.len() - i,
        {
            let ghost before = out@;
            assert(all[i as int] == b.stmts@[i as int]@);
            let s = match self.check_stmt(st, &b.stmts[i]) {
                Ok(s) => s,
                Err(m) => return Err(m),
            };
            out.push(s);
            assert(stmts_view(out@) =~= stmts_view(before).push(s@));
            i += 1;
        }
        st.leave_scope(mark);
        Ok(Block { stmts: out })
    }

    fn check_let(
        &self,
        st: &mut Body,
        name: &str,
        ann: &Option<TypeExpr>,
        init: &Expr,
        line: u32,
    ) -> (r: Result<Stmt, String>)
        requires
            old(st).wf(),
        ensures
            obeys(
                stmt_r(r),
                rules::check_let(
                    self@,
                    old(st)@,
                    name@,
                    opt_type_expr_view(*ann),
                    init@,
                    line,
                ),
                *old(st),
                *final(st),
            ),
        decreases init@, 10int,
    {
        let want: Option<Type> = match ann {
            None => None,
            Some(te) => match self.resolve_type(te) {
                Ok(t) => Some(t),
                Err(m) => return Err(m),
            },
        };
        let expected = match &want {
            Some(t) => Some(t),
            None => None,
        };
        let x = match self.check_expr(st, init, expected) {
            Ok(x) => x,
            Err(m) => return Err(m),
        };
        let ty = match want {
            Some(t) => match self.require_assignable(&t, &x.ty, line) {
                Ok(()) => t,
                Err(m) => return Err(m),
            },
            None => {
                if matches!(x.ty, Type::Unit) {
                    return Err(cat2(line_text(line).as_str(), ": initializer has no value"));
                }
                x.ty.clone()
            },
        };
        match st.declare_local(name, ty.clone(), line) {
            Ok(local) => Ok(
                Stmt::Let {
                    name: owned(name),
                    ann: clone_opt_type_expr(ann),
                    init: x,
                    line,
                    local,
                    ty,
                },
            ),
            Err(m) => Err(m),
        }
    }

    fn check_assign(&self, st: &mut Body, s: &Stmt) -> (r: Result<Stmt, String>)
        requires
            old(st).wf(),
        ensures
            obeys(stmt_r(r), rules::check_assign(self@, old(st)@, s@), *old(st), *final(st)),
        decreases s@, 10int,
    {
        let (target, op, value, line) = match s {
            Stmt::Assign { target, op, value, line } => (target, *op, value, *line),
            _ => return Err(malformed(0)),
        };
        let t = match self.check_expr(st, target, None) {
            Ok(x) => x,
            Err(m) => return Err(m),
        };
        match check_target(&t, line) {
            Ok(()) => {},
            Err(m) => return Err(m),
        }
        let v = match self.check_expr(st, value, Some(&t.ty)) {
            Ok(x) => x,
            Err(m) => return Err(m),
        };
        match self.require_assignable(&t.ty, &v.ty, line) {
            Ok(()) => {},
            Err(m) => return Err(m),
        }
        // Compound assignment follows the binary operator's rules on the
        // target's type.
        if let Some(op) = op {
            match self.check_arith_op(op, &t.ty, line) {
                Ok(()) => {},
                Err(m) => return Err(m),
            }
        }
        Ok(Stmt::Assign { target: t, op, value: v, line })
    }

    fn check_return(&self, st: &mut Body, value: &Option<Expr>, line: u32) -> (r: Result<
        Stmt,
        String,
    >)
        requires
            old(st).wf(),
        ensures
            obeys(
                stmt_r(r),
                rules::check_return(self@, old(st)@, opt_expr_view(*value), line),
                *old(st),
                *final(st),
            ),
        decreases opt_expr_view(*value), 10int,
    {
        match value {
            None => {
                if !matches!(st.cur.ret, Type::Unit) {
                    return Err(
                        cat3(
                            line_text(line).as_str(),
                            ": this function must return a value of type ",
                            self.show(&st.cur.ret).as_str(),
                        ),
                    );
                }
                Ok(Stmt::Return { value: None, line })
            },
            Some(v) => {
                if matches!(st.cur.ret, Type::Unit) {
                    return Err(
                        cat2(line_text(line).as_str(), ": this function does not return a value"),
                    );
                }
                let ret = st.cur.ret.clone();
                let x = match self.check_expr(st, v, Some(&ret)) {
                    Ok(x) => x,
                    Err(m) => return Err(m),
                };
                match self.require_assignable(&ret, &x.ty, line) {
                    Ok(()) => Ok(Stmt::Return { value: Some(x), line }),
                    Err(m) => Err(m),
                }
            },
        }
    }

    fn check_opt_stmt(&self, st: &mut Body, s: &Option<Box<Stmt>>) -> (r: Result<
        Option<Box<Stmt>>,
        String,
    >)
        requires
            old(st).wf(),
        ensures
            obeys(
                opt_stmt_r(r),
                rules::check_opt_stmt(self@, old(st)@, opt_stmt_view(*s)),
                *old(st),
                *final(st),
            ),
        decreases opt_stmt_view(*s), 10int,
    {
        match s {
            None => Ok(None),
            Some(s) => match self.check_stmt(st, s) {
                Ok(x) => Ok(Some(Box::new(x))),
                Err(m) => Err(m),
            },
        }
    }

    fn check_opt_cond(&self, st: &mut Body, c: &Option<Expr>) -> (r: Result<Option<Expr>, String>)
        requires
            old(st).wf(),
        ensures
            obeys(
                opt_expr_r(r),
                rules::check_opt_cond(self@, old(st)@, opt_expr_view(*c)),
                *old(st),
                *final(st),
            ),
        decreases opt_expr_view(*c), 10int,
    {
        match c {
            None => Ok(None),
            Some(c) => match self.check_cond(st, c) {
                Ok(x) => Ok(Some(x)),
                Err(m) => Err(m),
            },
        }
    }

    fn check_for(&self, st: &mut Body, s: &Stmt) -> (r: Result<Stmt, String>)
        requires
            old(st).wf(),
        ensures
            obeys(stmt_r(r), rules::check_for(self@, old(st)@, s@), *old(st), *final(st)),
        decreases s@, 10int,
    {
        let (init, cond, step, body) = match s {
            Stmt::For { init, cond, step, body } => (init, cond, step, body),
            _ => return Err(malformed(0)),
        };
        let mark = st.cur.vars.len();
        assert(st@.cur.vars.len() == mark);
        let saved = st.in_loop;
        let i = match self.check_opt_stmt(st, init) {
            Ok(x) => x,
            Err(m) => return Err(m),
        };
        let c = match self.check_opt_cond(st, cond) {
            Ok(x) => x,
            Err(m) => return Err(m),
        };
        let p = match self.check_opt_stmt(st, step) {
            Ok(x) => x,
            Err(m) => return Err(m),
        };
        st.in_loop = true;
        let b = match self.check_block(st, body) {
            Ok(x) => x,
            Err(m) => return Err(m),
        };
        st.in_loop = saved;
        st.leave_scope(mark);
        Ok(Stmt::For { init: i, cond: c, step: p, body: b })
    }

    fn check_stmt_arms(
        &self,
        st: &mut Body,
        arms: &Vec<(Pattern, Block)>,
        pats: Vec<Pattern>,
    ) -> (r: Result<Vec<(Pattern, Block)>, String>)
        requires
            old(st).wf(),
            pats@.len() == arms@.len(),
        ensures
            obeys(
                arms_r(r),
                rules::check_stmt_arms(
                    self@,
                    old(st)@,
                    stmt_arms_view(arms@),
                    patterns_view(pats@),
                    0,
                    Seq::empty(),
                ),
                *old(st),
                *final(st),
            ),
        decreases stmt_arms_view(arms@), arms@.len() + 1,
    {
        let ghost all = stmt_arms_view(arms@);
        let ghost ps = patterns_view(pats@);
        let mut rest = pats;
        let mut out: Vec<(Pattern, Block)> = Vec::new();
        assert(stmt_arms_view(out@) =~= Seq::empty());
        let mut i: usize = 0;
        while i < arms.len()
            invariant
                i <= arms.len(),
                st.follows(*old(st)),
                all == stmt_arms_view(arms@),
                ps == patterns_view(pats@),
                ps.len() == arms@.len(),
                rest@.len() == arms@.len() - i,
                forall|j: int| 0 <= j < rest@.len() ==> (#[trigger] rest@[j])@ == ps[i + j],
                rules::check_stmt_arms(self@, old(st)@, all, ps, 0, Seq::empty())
                    == rules::check_stmt_arms(
                    self@,
                    st@,
                    all,
                    ps,
                    i as nat,
                    stmt_arms_view(out@),
                ),
            decreases arms.len() - i,
        {
            let ghost before = out@;
            let ghost tail = rest@;
            assert(all[i as int] == (arms@[i as int].0@, arms@[i as int].1@));
            let mark = st.cur.vars.len();
            assert(st@.cur.vars.len() == mark);
            let pat = rest.remove(0);
            assert(pat@ == ps[i as int]);
            assert forall|j: int| 0 <= j < rest@.len() implies (#[trigger] rest@[j])@ == ps[i + 1
                + j] by {
                assert(rest@[j] == tail[j + 1]);
            }
            let p = match st.declare_pattern_binders(pat) {
                Ok(p) => p,
                Err(m) => return Err(m),
            };
            let b = match self.check_block(st, &arms[i].1) {
                Ok(b) => b,
                Err(m) => return Err(m),
            };
            st.leave_scope(mark);
            let ghost arm = (p@, b@);
            out.push((p, b));
            assert(stmt_arms_view(out@) =~= stmt_arms_view(before).push(arm));
            i += 1;
        }
        Ok(out)
    }

    fn check_stmt_match(&self, st: &mut Body, s: &Stmt) -> (r: Result<Stmt, String>)
        requires
            old(st).wf(),
        ensures
            obeys(stmt_r(r), rules::check_stmt_match(self@, old(st)@, s@), *old(st), *final(st)),
        decreases s@, 10int,
    {
        let (scrutinee, arms, line) = match s {
            Stmt::Match { scrutinee, arms, line } => (scrutinee, arms, *line),
            _ => return Err(malformed(0)),
        };
        let x = match self.check_expr(st, scrutinee, None) {
            Ok(x) => x,
            Err(m) => return Err(m),
        };
        let refs = stmt_arm_patterns(arms);
        let pats = match self.check_patterns(&x.ty, &refs, line) {
            Ok(ps) => ps,
            Err(m) => return Err(m),
        };
        match self.check_stmt_arms(st, arms, pats) {
            Ok(xs) => Ok(Stmt::Match { scrutinee: x, arms: xs, line }),
            Err(m) => Err(m),
        }
    }

    fn check_if_stmt(&self, st: &mut Body, s: &Stmt) -> (r: Result<Stmt, String>)
        requires
            old(st).wf(),
        ensures
            obeys(stmt_r(r), rules::check_if_stmt(self@, old(st)@, s@), *old(st), *final(st)),
        decreases s@, 10int,
    {
        let (cond, then, els) = match s {
            Stmt::If { cond, then, els } => (cond, then, els),
            _ => return Err(malformed(0)),
        };
        let c = match self.check_cond(st, cond) {
            Ok(x) => x,
            Err(m) => return Err(m),
        };
        let t = match self.check_block(st, then) {
            Ok(x) => x,
            Err(m) => return Err(m),
        };
        match els {
            None => Ok(Stmt::If { cond: c, then: t, els: None }),
            Some(b) => match self.check_block(st, b) {
                Ok(f) => Ok(Stmt::If { cond: c, then: t, els: Some(f) }),
                Err(m) => Err(m),
            },
        }
    }

    fn check_while(&self, st: &mut Body, s: &Stmt) -> (r: Result<Stmt, String>)
        requires
            old(st).wf(),
        ensures
            obeys(stmt_r(r), rules::check_while(self@, old(st)@, s@), *old(st), *final(st)),
        decreases s@, 10int,
    {
        let (cond, body) = match s {
            Stmt::While { cond, body } => (cond, body),
            _ => return Err(malformed(0)),
        };
        let saved = st.in_loop;
        let c = match self.check_cond(st, cond) {
            Ok(x) => x,
            Err(m) => return Err(m),
        };
        st.in_loop = true;
        let b = match self.check_block(st, body) {
            Ok(x) => x,
            Err(m) => return Err(m),
        };
        st.in_loop = saved;
        Ok(Stmt::While { cond: c, body: b })
    }

    fn check_stmt(&self, st: &mut Body, s: &Stmt) -> (r: Result<Stmt, String>)
        requires
            old(st).wf(),
        ensures
            obeys(stmt_r(r), rules::check_stmt(self@, old(st)@, s@), *old(st), *final(st)),
        decreases s@, 11int,
    {
        match s {
            Stmt::Let { name, ann, init, line, .. } => self.check_let(
                st,
                name.as_str(),
                ann,
                init,
                *line,
            ),
            Stmt::Assign { .. } => self.check_assign(st, s),
            Stmt::Expr(e) => match self.check_expr(st, e, None) {
                Ok(x) => Ok(Stmt::Expr(x)),
                Err(m) => Err(m),
            },
            Stmt::If { .. } => self.check_if_stmt(st, s),
            Stmt::While { .. } => self.check_while(st, s),
            Stmt::For { .. } => self.check_for(st, s),
            Stmt::Return { value, line } => self.check_return(st, value, *line),
            Stmt::Break(line) => {
                if st.in_loop {
                    Ok(Stmt::Break(*line))
                } else {
                    Err(
                        cat2(
                            line_text(*line).as_str(),
                            ": 'break'/'continue' outside of a loop",
                        ),
                    )
                }
            },
            Stmt::Continue(line) => {
                if st.in_loop {
                    Ok(Stmt::Continue(*line))
                } else {
                    Err(
                        cat2(
                            line_text(*line).as_str(),
                            ": 'break'/'continue' outside of a loop",
                        ),
                    )
                }
            },
            Stmt::Block(b) => match self.check_block(st, b) {
                Ok(x) => Ok(Stmt::Block(x)),
                Err(m) => Err(m),
            },
            Stmt::Match { .. } => self.check_stmt_match(st, s),
        }
    }
}

// -- Declarations -----------------------------------------------------------

/// The tables after a step that may fail.
spec fn env_r(r: Result<(), String>, env: EnvView) -> Result<EnvView, Seq<char>> {
    match r {
        Ok(()) => Ok(env),
        Err(m) => Err(m@),
    }
}

spec fn fields_list_r(r: Result<Vec<(String, Type)>, String>) -> Result<
    Seq<(Seq<char>, TypeView)>,
    Seq<char>,
> {
    match r {
        Ok(x) => Ok(typed_names_view(x@)),
        Err(m) => Err(m@),
    }
}

impl Checker {
    fn new() -> (r: Checker)
        ensures
            r@ == rules::empty_env(),
            r.structs@.len() == 0,
            r.enums@.len() == 0,
            r.funcs@.len() == 0,
            r.type_params@.len() == 0,
    {
        let r = Checker {
            structs: Vec::new(),
            enums: Vec::new(),
            option_enum: None,
            funcs: Vec::new(),
            methods: Vec::new(),
            type_params: Vec::new(),
        };
        assert(r@ =~= rules::empty_env());
        r
    }

    /// Bring type parameters into scope.
    fn enter_params(&mut self, params: &Vec<String>)
        ensures
            final(self)@ == (EnvView { type_params: names_view(params@), ..old(self)@ }),
            final(self).structs@ == old(self).structs@,
            final(self).enums@ == old(self).enums@,
            final(self).funcs@ == old(self).funcs@,
    {
        self.type_params = clone_names(params);
    }

    /// Leave the scope of type parameters.
    fn leave_params(&mut self)
        ensures
            final(self)@ == (EnvView { type_params: Seq::empty(), ..old(self)@ }),
            final(self).type_params@.len() == 0,
            final(self).structs@ == old(self).structs@,
            final(self).enums@ == old(self).enums@,
            final(self).funcs@ == old(self).funcs@,
    {
        self.type_params = Vec::new();
        assert(names_view(self.type_params@) =~= Seq::empty());
    }

    fn collect_structs(&mut self, defs: &Vec<StructDef>) -> (r: Result<(), String>)
        ensures
            env_r(r, final(self)@) == rules::collect_structs(
                old(self)@,
                struct_defs_view(defs@),
                0,
            ),
            final(self).structs@.len() >= old(self).structs@.len(),
            r is Ok ==> final(self).structs@.len() == old(self).structs@.len() + defs@.len(),
            final(self).enums@ == old(self).enums@,
            final(self).funcs@ == old(self).funcs@,
            final(self).type_params@ == old(self).type_params@,
    {
        let ghost all = struct_defs_view(defs@);
        let mut i: usize = 0;
        while i < defs.len()
            invariant
                i <= defs.len(),
                all == struct_defs_view(defs@),
                self.structs@.len() == old(self).structs@.len() + i,
                self.enums@ == old(self).enums@,
                self.funcs@ == old(self).funcs@,
                self.type_params@ == old(self).type_params@,
                rules::collect_structs(old(self)@, all, 0) == rules::collect_structs(
                    self@,
                    all,
                    i as nat,
                ),
            decreases defs.len() - i,
        {
            let s = &defs[i];
            assert(all[i as int] == s@);
            if self.struct_id(s.name.as_str()).is_some() {
                return Err(
                    cat4(
                        line_text(s.line).as_str(),
                        ": duplicate struct '",
                        s.name.as_str(),
                        "'",
                    ),
                );
            }
            if primitive_type(s.name.as_str()).is_some() {
                return Err(
                    cat4(
                        line_text(s.line).as_str(),
                        ": struct name '",
                        s.name.as_str(),
                        "' shadows a primitive type",
                    ),
                );
            }
            match self.check_type_params(&s.type_params, s.line) {
                Ok(()) => {},
                Err(m) => return Err(m),
            }
            let ghost before = self.structs@;
            let info = StructInfo {
                name: s.name.clone(),
                type_params: clone_names(&s.type_params),
                fields: Vec::new(),
                line: s.line,
            };
            assert(typed_names_view(info.fields@) =~= Seq::empty());
            self.structs.push(info);
            assert(structs_view(self.structs@) =~= structs_view(before).push(info@));
            i += 1;
        }
        Ok(())
    }

    fn collect_enums(&mut self, defs: &Vec<EnumDef>) -> (r: Result<(), String>)
        ensures
            env_r(r, final(self)@) == rules::collect_enums(
                old(self)@,
                enum_defs_view(defs@),
                0,
            ),
            r is Ok ==> final(self).enums@.len() == old(self).enums@.len() + defs@.len(),
            final(self).structs@ == old(self).structs@,
            final(self).funcs@ == old(self).funcs@,
            final(self).type_params@ == old(self).type_params@,
    {
        let ghost all = enum_defs_view(defs@);
        let mut i: usize = 0;
        while i < defs.len()
            invariant
                i <= defs.len(),
                all == enum_defs_view(defs@),
                self.enums@.len() == old(self).enums@.len() + i,
                self.structs@ == old(self).structs@,
                self.funcs@ == old(self).funcs@,
                self.type_params@ == old(self).type_params@,
                rules::collect_enums(old(self)@, all, 0) == rules::collect_enums(
                    self@,
                    all,
                    i as nat,
                ),
            decreases defs.len() - i,
        {
            let e = &defs[i];
            assert(all[i as int] == e@);
            if self.enum_id(e.name.as_str()).is_some() {
                return Err(
                    cat4(line_text(e.line).as_str(), ": duplicate enum '", e.name.as_str(), "'"),
                );
            }
            if self.struct_id(e.name.as_str()).is_some() {
                return Err(
                    cat4(
                        line_text(e.line).as_str(),
                        ": enum '",
                        e.name.as_str(),
                        "' has the same name as a struct",
                    ),
                );
            }
            if primitive_type(e.name.as_str()).is_some() {
                return Err(
                    cat4(
                        line_text(e.line).as_str(),
                        ": enum name '",
                        e.name.as_str(),
                        "' shadows a primitive type",
                    ),
                );
            }
            match self.check_type_params(&e.type_params, e.line) {
                Ok(()) => {},
                Err(m) => return Err(m),
            }
            let ghost before = self.enums@;
            let info = EnumInfo {
                name: e.name.clone(),
                type_params: clone_names(&e.type_params),
                variants: Vec::new(),
                line: e.line,
            };
            assert(variants_view(info.variants@) =~= Seq::empty());
            self.enums.push(info);
            assert(enums_view(self.enums@) =~= enums_view(before).push(info@));
            i += 1;
        }
        Ok(())
    }

    /// Add the prelude `Option<T>`, unless a user type shadows it.
    fn add_prelude(&mut self)
        ensures
            final(self)@ == rules::add_prelude(old(self)@),
            final(self).enums@.len() >= old(self).enums@.len(),
            final(self).structs@ == old(self).structs@,
            final(self).funcs@ == old(self).funcs@,
            final(self).type_params@ == old(self).type_params@,
    {
        reveal(rules::add_prelude);
        if self.enum_id("Option").is_none() && self.struct_id("Option").is_none() {
            let ghost before = self.enums@;
            let mut type_params: Vec<String> = Vec::new();
            type_params.push(owned("T"));
            assert(names_view(type_params@) =~= seq!["T"@]);
            let payload = Type::Param(0);
            assert(payload@ == TypeView::Param(0));
            let mut variants: Vec<(String, VariantPayload)> = Vec::new();
            variants.push((owned("Some"), VariantPayload::Single(payload)));
            variants.push((owned("None"), VariantPayload::Bare));
            assert(variants_view(variants@) =~= rules::option_info().variants);
            let info = EnumInfo { name: owned("Option"), type_params, variants, line: 0 };
            assert(info@ == rules::option_info());
            self.option_enum = Some(self.enums.len() as u32);
            self.enums.push(info);
            assert(enums_view(self.enums@) =~= enums_view(before).push(info@));
        }
    }

    fn resolve_fields(&self, fs: &Vec<(String, TypeExpr)>, line: u32, tail: &str) -> (r: Result<
        Vec<(String, Type)>,
        String,
    >)
        ensures
            fields_list_r(r) == rules::resolve_fields(
                self@,
                params_view(fs@),
                line,
                tail@,
                0,
                Seq::empty(),
            ),
            r matches Ok(x) ==> x@.len() == fs@.len(),
    {
        let ghost all = params_view(fs@);
        let mut out: Vec<(String, Type)> = Vec::new();
        assert(typed_names_view(out@) =~= Seq::empty());
        let mut i: usize = 0;
        while i < fs.len()
            invariant
                i <= fs.len(),
                out@.len() == i,
                all == params_view(fs@),
                rules::resolve_fields(self@, all, line, tail@, 0, Seq::empty())
                    == rules::resolve_fields(
                    self@,
                    all,
                    line,
                    tail@,
                    i as nat,
                    typed_names_view(out@),
                ),
            decreases fs.len() - i,
        {
            assert(all[i as int] == (fs@[i as int].0@, fs@[i as int].1@));
            let name = fs[i].0.as_str();
            if find_field(&out, name).is_some() {
                return Err(cat4(line_text(line).as_str(), ": duplicate field '", name, tail));
            }
            let t = match self.resolve_type(&fs[i].1) {
                Ok(t) => t,
                Err(m) => return Err(m),
            };
            let ghost before = out@;
            let ghost shown = t@;
            out.push((owned(name), t));
            assert(typed_names_view(out@) =~= typed_names_view(before).push((name@, shown)));
            i += 1;
        }
        Ok(out)
    }

    fn resolve_structs(&mut self, defs: &Vec<StructDef>) -> (r: Result<(), String>)
        requires
            old(self).structs@.len() >= defs@.len(),
            old(self).type_params@.len() == 0,
        ensures
            env_r(r, final(self)@) == rules::resolve_structs(
                old(self)@,
                struct_defs_view(defs@),
                0,
            ),
            r is Ok ==> final(self).type_params@.len() == 0,
            final(self).enums@ == old(self).enums@,
            final(self).funcs@ == old(self).funcs@,
    {
        let ghost all = struct_defs_view(defs@);
        let mut i: usize = 0;
        while i < defs.len()
            invariant
                i <= defs.len(),
                all == struct_defs_view(defs@),
                self.structs@.len() >= defs@.len(),
                self.type_params@.len() == 0,
                self.enums@ == old(self).enums@,
                self.funcs@ == old(self).funcs@,
                rules::resolve_structs(old(self)@, all, 0) == rules::resolve_structs(
                    self@,
                    all,
                    i as nat,
                ),
            decreases defs.len() - i,
        {
            let s = &defs[i];
            assert(all[i as int] == s@);
            let ghost env = self@;
            assert(names_view(self.type_params@) =~= Seq::empty());
            self.enter_params(&s.type_params);
            let tail = cat3("' in struct '", s.name.as_str(), "'");
            let fields = match self.resolve_fields(&s.fields, s.line, tail.as_str()) {
                Ok(fs) => fs,
                Err(m) => return Err(m),
            };
            self.leave_params();
            assert(self@ == env);
            assert(typed_names_view(fields@).len() == fields@.len());
            // Every struct's reference map is one 64-bit word.
            if fields.len() > 64 {
                return Err(
                    cat4(
                        line_text(s.line).as_str(),
                        ": struct '",
                        s.name.as_str(),
                        "' has more than 64 fields",
                    ),
                );
            }
            let ghost before = self.structs@;
            assert(env.structs[i as int] == before[i as int]@);
            let info = StructInfo {
                name: self.structs[i].name.clone(),
                type_params: clone_names(&self.structs[i].type_params),
                fields,
                line: self.structs[i].line,
            };
            self.structs.set(i, info);
            assert(structs_view(self.structs@) =~= structs_view(before).update(i as int, info@));
            i += 1;
        }
        Ok(())
    }

    fn resolve_payload(&self, p: &VariantPayloadExpr, vname: &str, line: u32) -> (r: Result<
        VariantPayload,
        String,
    >)
        ensures
            payload_r(r) == rules::resolve_payload(self@, p@, vname@, line),
    {
        reveal(rules::resolve_payload);
        match p {
            VariantPayloadExpr::Bare => Ok(VariantPayload::Bare),
            VariantPayloadExpr::Single(te) => match self.resolve_type(te) {
                Ok(t) => Ok(VariantPayload::Single(t)),
                Err(m) => Err(m),
            },
            VariantPayloadExpr::Fields(fs) => {
                assert(params_view(fs@).len() == fs@.len());
                if fs.len() == 0 {
                    return Err(
                        cat4(
                            line_text(line).as_str(),
                            ": variant '",
                            vname,
                            "' has an empty field list; write a bare variant instead",
                        ),
                    );
                }
                if fs.len() > 64 {
                    return Err(
                        cat4(
                            line_text(line).as_str(),
                            ": variant '",
                            vname,
                            "' has more than 64 fields",
                        ),
                    );
                }
                let tail = cat3("' in variant '", vname, "'");
                match self.resolve_fields(fs, line, tail.as_str()) {
                    Ok(fields) => Ok(VariantPayload::Fields(fields)),
                    Err(m) => Err(m),
                }
            },
        }
    }

    fn resolve_variants(
        &self,
        vs: &Vec<(String, VariantPayloadExpr)>,
        owner: &str,
        line: u32,
    ) -> (r: Result<Vec<(String, VariantPayload)>, String>)
        ensures
            variants_r(r) == rules::resolve_variants(
                self@,
                payloads_view(vs@),
                owner@,
                line,
                0,
                Seq::empty(),
            ),
    {
        let ghost all = payloads_view(vs@);
        let mut out: Vec<(String, VariantPayload)> = Vec::new();
        assert(variants_view(out@) =~= Seq::empty());
        let mut i: usize = 0;
        while i < vs.len()
            invariant
                i <= vs.len(),
                all == payloads_view(vs@),
                rules::resolve_variants(self@, all, owner@, line, 0, Seq::empty())
                    == rules::resolve_variants(
                    self@,
                    all,
                    owner@,
                    line,
                    i as nat,
                    variants_view(out@),
                ),
            decreases vs.len() - i,
        {
            assert(all[i as int] == (vs@[i as int].0@, vs@[i as int].1@));
            let vname = vs[i].0.as_str();
            if find_variant(&out, vname).is_some() {
                return Err(
                    cat6(
                        line_text(line).as_str(),
                        ": duplicate variant '",
                        vname,
                        "' in enum '",
                        owner,
                        "'",
                    ),
                );
            }
            let p = match self.resolve_payload(&vs[i].1, vname, line) {
                Ok(p) => p,
                Err(m) => return Err(m),
            };
            let ghost before = out@;
            let ghost shown = p@;
            out.push((owned(vname), p));
            assert(variants_view(out@) =~= variants_view(before).push((vname@, shown)));
            i += 1;
        }
        Ok(out)
    }

    fn resolve_enums(&mut self, defs: &Vec<EnumDef>) -> (r: Result<(), String>)
        requires
            old(self).enums@.len() >= defs@.len(),
            old(self).type_params@.len() == 0,
        ensures
            env_r(r, final(self)@) == rules::resolve_enums(
                old(self)@,
                enum_defs_view(defs@),
                0,
            ),
            r is Ok ==> final(self).type_params@.len() == 0,
            final(self).structs@ == old(self).structs@,
            final(self).funcs@ == old(self).funcs@,
    {
        let ghost all = enum_defs_view(defs@);
        let mut i: usize = 0;
        while i < defs.len()
            invariant
                i <= defs.len(),
                all == enum_defs_view(defs@),
                self.enums@.len() >= defs@.len(),
                self.type_params@.len() == 0,
                self.structs@ == old(self).structs@,
                self.funcs@ == old(self).funcs@,
                rules::resolve_enums(old(self)@, all, 0) == rules::resolve_enums(
                    self@,
                    all,
                    i as nat,
                ),
            decreases defs.len() - i,
        {
            let e = &defs[i];
            assert(all[i as int] == e@);
            assert(payloads_view(e.variants@).len() == e.variants@.len());
            if e.variants.len() == 0 {
                return Err(
                    cat4(
                        line_text(e.line).as_str(),
                        ": enum '",
                        e.name.as_str(),
                        "' has no variants",
                    ),
                );
            }
            let ghost env = self@;
            assert(names_view(self.type_params@) =~= Seq::empty());
            self.enter_params(&e.type_params);
            let variants = match self.resolve_variants(&e.variants, e.name.as_str(), e.line) {
                Ok(vs) => vs,
                Err(m) => return Err(m),
            };
            self.leave_params();
            assert(self@ == env);
            let ghost before = self.enums@;
            assert(env.enums[i as int] == before[i as int]@);
            let info = EnumInfo {
                name: self.enums[i].name.clone(),
                type_params: clone_names(&self.enums[i].type_params),
                variants,
                line: self.enums[i].line,
            };
            self.enums.set(i, info);
            assert(enums_view(self.enums@) =~= enums_view(before).update(i as int, info@));
            i += 1;
        }
        Ok(())
    }

    fn method_key(&self, m: &MethodDef) -> (r: Result<TypeKey, String>)
        ensures
            key_r(r) == rules::method_key(self@, m@),
    {
        reveal(rules::method_key);
        if let Some(sid) = self.struct_id(m.target_name.as_str()) {
            let info = &self.structs[sid];
            assert(self@.structs[sid as int] == info@);
            assert(names_view(info.type_params@).len() == info.type_params@.len());
            if find_field(&info.fields, m.name.as_str()).is_some() {
                return Err(
                    cat6(
                        line_text(m.line).as_str(),
                        ": method '",
                        m.name.as_str(),
                        "' has the same name as a field of struct '",
                        m.target_name.as_str(),
                        "'",
                    ),
                );
            }
            if info.type_params.len() != m.impl_type_params as usize {
                return Err(impl_arity_error(m, info.type_params.len()));
            }
            return Ok(TypeKey::Struct(sid as u32));
        }
        if let Some(eid) = self.enum_id(m.target_name.as_str()) {
            let info = &self.enums[eid];
            assert(self@.enums[eid as int] == info@);
            assert(names_view(info.type_params@).len() == info.type_params@.len());
            if find_variant(&info.variants, m.name.as_str()).is_some() {
                return Err(
                    cat6(
                        line_text(m.line).as_str(),
                        ": method '",
                        m.name.as_str(),
                        "' has the same name as a variant of enum '",
                        m.target_name.as_str(),
                        "'",
                    ),
                );
            }
            if info.type_params.len() != m.impl_type_params as usize {
                return Err(impl_arity_error(m, info.type_params.len()));
            }
            return Ok(TypeKey::Enum(eid as u32));
        }
        Err(
            cat4(
                line_text(m.line).as_str(),
                ": cannot write an impl block for '",
                m.target_name.as_str(),
                "': impl blocks are only for structs and enums",
            ),
        )
    }

    fn collect_methods(&mut self, defs: &Vec<MethodDef>) -> (r: Result<(), String>)
        ensures
            env_r(r, final(self)@) == rules::collect_methods(
                old(self)@,
                method_defs_view(defs@),
                0,
            ),
            final(self).structs@ == old(self).structs@,
            final(self).enums@ == old(self).enums@,
            final(self).funcs@ == old(self).funcs@,
            final(self).type_params@ == old(self).type_params@,
    {
        let ghost all = method_defs_view(defs@);
        let mut i: usize = 0;
        while i < defs.len()
            invariant
                i <= defs.len(),
                all == method_defs_view(defs@),
                self.structs@ == old(self).structs@,
                self.enums@ == old(self).enums@,
                self.funcs@ == old(self).funcs@,
                self.type_params@ == old(self).type_params@,
                rules::collect_methods(old(self)@, all, 0) == rules::collect_methods(
                    self@,
                    all,
                    i as nat,
                ),
            decreases defs.len() - i,
        {
            let m = &defs[i];
            assert(all[i as int] == m@);
            let key = match self.method_key(m) {
                Ok(k) => k,
                Err(e) => return Err(e),
            };
            if self.method_index(key, m.name.as_str()).is_some() {
                return Err(
                    cat6(
                        line_text(m.line).as_str(),
                        ": duplicate method '",
                        m.name.as_str(),
                        "' on '",
                        m.target_name.as_str(),
                        "'",
                    ),
                );
            }
            let ghost before = self.methods@;
            let entry = MethodEntry {
                key,
                name: m.name.clone(),
                fid: m.func,
                has_self: m.has_self,
            };
            self.methods.push(entry);
            assert(methods_view(self.methods@) =~= methods_view(before).push(entry@));
            i += 1;
        }
        Ok(())
    }

    /// The signature of a function.
    fn func_sig(&mut self, f: &FuncDef) -> (r: Result<FuncSig, String>)
        requires
            old(self).type_params@.len() == 0,
        ensures
            sig_r(r) == rules::func_sig(old(self)@, f@),
            r is Ok ==> final(self)@ == old(self)@ && final(self).type_params@.len() == 0,
            final(self).structs@ == old(self).structs@,
            final(self).enums@ == old(self).enums@,
            final(self).funcs@ == old(self).funcs@,
    {
        reveal(rules::func_sig);
        match self.check_type_params(&f.type_params, f.line) {
            Ok(()) => {},
            Err(m) => return Err(m),
        }
        assert(names_view(self.type_params@) =~= Seq::empty());
        self.enter_params(&f.type_params);
        let params = match self.resolve_params(&f.params) {
            Ok(ps) => ps,
            Err(m) => return Err(m),
        };
        let ret = match self.resolve_ret(&f.ret) {
            Ok(t) => t,
            Err(m) => return Err(m),
        };
        self.leave_params();
        Ok(FuncSig { name: f.name.clone(), type_params: clone_names(&f.type_params), params, ret })
    }

    fn collect_funcs(&mut self, defs: &Vec<FuncDef>) -> (r: Result<(), String>)
        requires
            old(self).type_params@.len() == 0,
        ensures
            env_r(r, final(self)@) == rules::collect_funcs(old(self)@, func_defs_view(defs@), 0),
            r is Ok ==> final(self).funcs@.len() == old(self).funcs@.len() + defs@.len(),
            r is Ok ==> final(self).type_params@.len() == 0,
    {
        let ghost all = func_defs_view(defs@);
        let mut i: usize = 0;
        while i < defs.len()
            invariant
                i <= defs.len(),
                all == func_defs_view(defs@),
                self.funcs@.len() == old(self).funcs@.len() + i,
                self.type_params@.len() == 0,
                rules::collect_funcs(old(self)@, all, 0) == rules::collect_funcs(
                    self@,
                    all,
                    i as nat,
                ),
            decreases defs.len() - i,
        {
            let f = &defs[i];
            assert(all[i as int] == f@);
            if self.func_id(f.name.as_str()).is_some() {
                return Err(
                    cat4(
                        line_text(f.line).as_str(),
                        ": duplicate function '",
                        f.name.as_str(),
                        "'",
                    ),
                );
            }
            let sig = match self.func_sig(f) {
                Ok(s) => s,
                Err(m) => return Err(m),
            };
            let ghost before = self.funcs@;
            self.funcs.push(sig);
            assert(sigs_view(self.funcs@) =~= sigs_view(before).push(sig@));
            i += 1;
        }
        Ok(())
    }

    /// The tables of a program.
    fn collect(program: &Program) -> (r: Result<Checker, String>)
        ensures
            match r {
                Ok(ck) => rules::collect(program@) == Ok::<EnvView, Seq<char>>(ck@)
                    && ck.funcs@.len() == program.funcs@.len() && ck.type_params@.len() == 0,
                Err(m) => rules::collect(program@) == Err::<EnvView, Seq<char>>(m@),
            },
    {
        reveal(rules::collect);
        let mut ck = Checker::new();
        match ck.collect_structs(&program.structs) {
            Ok(()) => {},
            Err(m) => return Err(m),
        }
        match ck.collect_enums(&program.enums) {
            Ok(()) => {},
            Err(m) => return Err(m),
        }
        ck.add_prelude();
        match ck.resolve_structs(&program.structs) {
            Ok(()) => {},
            Err(m) => return Err(m),
        }
        match ck.resolve_enums(&program.enums) {
            Ok(()) => {},
            Err(m) => return Err(m),
        }
        match ck.collect_methods(&program.methods) {
            Ok(()) => {},
            Err(m) => return Err(m),
        }
        match ck.collect_funcs(&program.funcs) {
            Ok(()) => Ok(ck),
            Err(m) => Err(m),
        }
    }

    /// Check one function body against its signature.
    fn check_func(&mut self, side: Side, f: &FuncDef, id: usize) -> (r: Result<
        (FuncDef, Side),
        String,
    >)
        requires
            side.wf(),
            id < old(self).funcs@.len(),
            old(self).type_params@.len() == 0,
        ensures
            match r {
                Ok((def, s)) => rules::check_func(
                    old(self)@,
                    side@,
                    f@,
                    old(self)@.funcs[id as int],
                ) == Ok::<(FuncDefView, SideView), Seq<char>>((def@, s@)) && s.wf()
                    && final(self)@ == old(self)@ && final(self).type_params@.len() == 0
                    && final(self).funcs@ == old(self).funcs@,
                Err(m) => rules::check_func(
                    old(self)@,
                    side@,
                    f@,
                    old(self)@.funcs[id as int],
                ) == Err::<(FuncDefView, SideView), Seq<char>>(m@),
            },
    {
        reveal(rules::check_func);
        assert(self@.funcs[id as int] == self.funcs@[id as int]@);
        assert(names_view(self.type_params@) =~= Seq::empty());
        self.enter_params(&f.type_params);
        let mut func_locals = side.func_locals;
        let no_vars: Vec<(String, u32, Type)> = Vec::new();
        let no_locals: Vec<Type> = Vec::new();
        let no_ctxs: Vec<FnCtx> = Vec::new();
        assert(vars_view(no_vars@) =~= Seq::empty());
        assert(types_view(no_locals@) =~= Seq::empty());
        assert(ctxs_view(no_ctxs@) =~= Seq::empty());
        let mut st = Body {
            cur: FnCtx {
                vars: no_vars,
                locals: no_locals,
                captures: None,
                ret: self.funcs[id].ret.clone(),
            },
            outer: no_ctxs,
            in_loop: false,
            lambda_locals: side.lambda_locals,
            lambda_sigs: side.lambda_sigs,
        };
        match st.declare_params(&f.params, &self.funcs[id].params, f.line) {
            Ok(()) => {},
            Err(m) => return Err(m),
        }
        let body = match self.check_block(&mut st, &f.body) {
            Ok(b) => b,
            Err(m) => return Err(m),
        };
        self.leave_params();
        if !matches!(self.funcs[id].ret, Type::Unit) && !always_returns(&body) {
            return Err(
                cat4(
                    line_text(f.line).as_str(),
                    ": function '",
                    f.name.as_str(),
                    "' must return a value on all paths",
                ),
            );
        }
        let def = FuncDef {
            name: f.name.clone(),
            type_params: clone_names(&f.type_params),
            params: clone_params(&f.params),
            ret: clone_opt_type_expr(&f.ret),
            body,
            line: f.line,
            num_locals: st.cur.locals.len() as u32,
            is_method: f.is_method,
        };
        let ghost before = func_locals@;
        let ghost last = types_view(st.cur.locals@);
        func_locals.push(st.cur.locals);
        assert(locals_view(func_locals@) =~= locals_view(before).push(last));
        Ok(
            (
                def,
                Side { func_locals, lambda_locals: st.lambda_locals, lambda_sigs: st.lambda_sigs },
            ),
        )
    }

    fn check_main(&self, defs: &Vec<FuncDef>) -> (r: Result<(), String>)
        requires
            self.funcs@.len() == defs@.len(),
        ensures
            unit_r(r) == rules::check_main(self@, func_defs_view(defs@)),
    {
        reveal(rules::check_main);
        match self.func_id("main") {
            None => Err(owned("no 'main' function defined")),
            Some(id) => {
                let sig = &self.funcs[id];
                assert(self@.funcs[id as int] == sig@);
                assert(func_defs_view(defs@)[id as int] == defs@[id as int]@);
                assert(names_view(sig.type_params@).len() == sig.type_params@.len());
                assert(types_view(sig.params@).len() == sig.params@.len());
                if sig.type_params.len() > 0 {
                    return Err(
                        cat2(line_text(defs[id].line).as_str(), ": 'main' cannot be generic"),
                    );
                }
                if sig.params.len() > 0 || !matches!(sig.ret, Type::Unit) {
                    return Err(
                        cat2(
                            line_text(defs[id].line).as_str(),
                            ": 'main' must take no parameters and return nothing",
                        ),
                    );
                }
                Ok(())
            },
        }
    }
}

fn impl_arity_error(m: &MethodDef, want: usize) -> (r: String)
    ensures
        r@ == rules::impl_arity_text(m@, want as nat),
{
    cat6(
        line_text(m.line).as_str(),
        ": impl block for '",
        m.target_name.as_str(),
        "' must declare ",
        dec_usize(want).as_str(),
        cat2(" type parameter(s), got ", dec(m.impl_type_params as u64).as_str()).as_str(),
    )
}

spec fn payload_r(r: Result<VariantPayload, String>) -> Result<VariantPayloadView, Seq<char>> {
    match r {
        Ok(x) => Ok(x@),
        Err(m) => Err(m@),
    }
}

spec fn variants_r(r: Result<Vec<(String, VariantPayload)>, String>) -> Result<
    Seq<(Seq<char>, VariantPayloadView)>,
    Seq<char>,
> {
    match r {
        Ok(x) => Ok(variants_view(x@)),
        Err(m) => Err(m@),
    }
}

spec fn key_r(r: Result<TypeKey, String>) -> Result<TypeKey, Seq<char>> {
    match r {
        Ok(x) => Ok(x),
        Err(m) => Err(m@),
    }
}

spec fn sig_r(r: Result<FuncSig, String>) -> Result<FuncSigView, Seq<char>> {
    match r {
        Ok(x) => Ok(x@),
        Err(m) => Err(m@),
    }
}

/// The side tables of the checked bodies so far.
struct Side {
    func_locals: Vec<Vec<Type>>,
    lambda_locals: Vec<Vec<Type>>,
    lambda_sigs: Vec<(Vec<Type>, Type)>,
}

impl Side {
    spec fn view(&self) -> SideView {
        SideView {
            func_locals: locals_view(self.func_locals@),
            lambda_locals: locals_view(self.lambda_locals@),
            lambda_sigs: lambda_sigs_view(self.lambda_sigs@),
        }
    }

    spec fn wf(self) -> bool {
        self.lambda_locals@.len() == self.lambda_sigs@.len()
    }
}

/// Check a program. An accepted program is annotated in place with what
/// later stages need; a rejected one is left as it was.
pub fn check(program: &mut Program) -> (r: Result<Checked, String>)
    ensures
        match r {
            Ok(c) => rules::check_spec(old(program)@) == Ok::<
                (ProgramView, CheckedView),
                Seq<char>,
            >((final(program)@, c@)),
            Err(m) => rules::check_spec(old(program)@) == Err::<
                (ProgramView, CheckedView),
                Seq<char>,
            >(m@) && *final(program) == *old(program),
        },
{
    let mut ck = match Checker::collect(program) {
        Ok(ck) => ck,
        Err(m) => return Err(m),
    };
    let ghost env = ck@;
    let ghost all = func_defs_view(program.funcs@);
    let mut side = Side {
        func_locals: Vec::new(),
        lambda_locals: Vec::new(),
        lambda_sigs: Vec::new(),
    };
    assert(side@.func_locals =~= Seq::empty());
    assert(side@.lambda_locals =~= Seq::empty());
    assert(side@.lambda_sigs =~= Seq::empty());
    let ghost start = side@;
    let mut funcs: Vec<FuncDef> = Vec::new();
    assert(func_defs_view(funcs@) =~= Seq::empty());
    let mut i: usize = 0;
    while i < program.funcs.len()
        invariant
            i <= program.funcs.len(),
            *program == *old(program),
            all == func_defs_view(program.funcs@),
            ck@ == env,
            ck.funcs@.len() == program.funcs@.len(),
            ck.type_params@.len() == 0,
            side.wf(),
            rules::collect(program@) == Ok::<EnvView, Seq<char>>(env),
            start.func_locals == Seq::<Seq<TypeView>>::empty(),
            start.lambda_locals == Seq::<Seq<TypeView>>::empty(),
            start.lambda_sigs == Seq::<(Seq<TypeView>, TypeView)>::empty(),
            rules::check_funcs(env, all, 0, start, Seq::empty()) == rules::check_funcs(
                env,
                all,
                i as nat,
                side@,
                func_defs_view(funcs@),
            ),
        decreases program.funcs.len() - i,
    {
        assert(all[i as int] == program.funcs@[i as int]@);
        match ck.check_func(side, &program.funcs[i], i) {
            Ok((f, s)) => {
                let ghost before = funcs@;
                side = s;
                funcs.push(f);
                assert(func_defs_view(funcs@) =~= func_defs_view(before).push(f@));
            },
            Err(m) => return Err(m),
        }
        i += 1;
    }
    match ck.check_main(&program.funcs) {
        Ok(()) => {},
        Err(m) => return Err(m),
    }
    program.funcs = funcs;
    Ok(
        Checked {
            structs: ck.structs,
            enums: ck.enums,
            funcs: ck.funcs,
            func_locals: side.func_locals,
            lambda_locals: side.lambda_locals,
            lambda_sigs: side.lambda_sigs,
        },
    )
}

} // verus!
