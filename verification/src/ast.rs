//! The syntax tree. The parser builds it with placeholders in the `ty` and
//! resolution fields; the type checker answers with a tree in which they are
//! filled in, which is what code generation reads.
use vstd::prelude::*;

use crate::text::names_view;
use crate::types::{types_view, Type, TypeView};

verus! {

// -- Declarations -----------------------------------------------------------

#[derive(Debug)]
pub struct Program {
    pub structs: Vec<StructDef>,
    pub enums: Vec<EnumDef>,
    pub funcs: Vec<FuncDef>,
    /// One record per function in an `impl` block. The parser flattens each
    /// method into `funcs` under the name `Type.method` (unspellable as an
    /// identifier, so it cannot collide with user functions); the checker
    /// resolves `target_name` and builds the method lookup table.
    pub methods: Vec<MethodDef>,
}

/// A method or associated function, as declared in `impl Type { ... }`.
#[derive(Debug)]
pub struct MethodDef {
    /// The impl block's target type name (unresolved).
    pub target_name: String,
    /// The method's own name (`funcs[func].name` is `Type.method`).
    pub name: String,
    /// Index of the flattened definition in `Program::funcs`.
    pub func: u32,
    /// True when the first parameter is `self` (a method); false for an
    /// associated function called as `Type.name(...)`.
    pub has_self: bool,
    /// How many type parameters the impl header declared (`impl Pair<T>`
    /// declares 1); must match the target type's arity.
    pub impl_type_params: u32,
    pub line: u32,
}

#[derive(Debug)]
pub struct StructDef {
    pub name: String,
    pub type_params: Vec<String>,
    pub fields: Vec<(String, TypeExpr)>,
    pub line: u32,
}

#[derive(Debug)]
pub struct EnumDef {
    pub name: String,
    pub type_params: Vec<String>,
    pub variants: Vec<(String, VariantPayloadExpr)>,
    pub line: u32,
}

/// Syntactic variant payload: bare, `(type)`, or `{ name: type, ... }`.
#[derive(Debug)]
pub enum VariantPayloadExpr {
    Bare,
    Single(TypeExpr),
    Fields(Vec<(String, TypeExpr)>),
}

#[derive(Debug)]
pub struct FuncDef {
    pub name: String,
    pub type_params: Vec<String>,
    pub params: Vec<(String, TypeExpr)>,
    pub ret: Option<TypeExpr>,
    pub body: Block,
    pub line: u32,
    /// Total number of locals (params + lets) in this function, assigned by
    /// the checker. Lambdas inside the body have their own numbering.
    pub num_locals: u32,
    /// True for a function flattened out of an `impl` block. Methods are
    /// never plain values (bound methods build their own closures), so they
    /// get no thunk or static closure object.
    pub is_method: bool,
}

/// Syntactic type, before resolution.
#[derive(Debug)]
pub enum TypeExpr {
    Named(String, Vec<TypeExpr>, u32),
    Array(Box<TypeExpr>),
    Fn(Vec<TypeExpr>, Option<Box<TypeExpr>>, u32),
}

// -- Statements and patterns ------------------------------------------------

#[derive(Debug)]
pub struct Block {
    pub stmts: Vec<Stmt>,
}

#[derive(Debug)]
pub enum Stmt {
    Let {
        name: String,
        ann: Option<TypeExpr>,
        init: Expr,
        line: u32,
        /// Local index within the enclosing function, assigned by the checker.
        local: u32,
        ty: Type,
    },
    Assign {
        target: Expr,
        /// `Some(op)` for compound assignment (`x += v` etc.); the target's
        /// object/index subexpressions are evaluated once.
        op: Option<BinOp>,
        value: Expr,
        line: u32,
    },
    Expr(Expr),
    If { cond: Expr, then: Block, els: Option<Block> },
    While { cond: Expr, body: Block },
    For {
        init: Option<Box<Stmt>>,
        cond: Option<Expr>,
        step: Option<Box<Stmt>>,
        body: Block,
    },
    Return { value: Option<Expr>, line: u32 },
    Break(u32),
    Continue(u32),
    Block(Block),
    /// `match expr { pat => { ... }, ... }` in statement position; arms are
    /// blocks and must be exhaustive.
    Match { scrutinee: Expr, arms: Vec<(Pattern, Block)>, line: u32 },
}

/// A match pattern. One constructor deep: a qualified enum variant with its
/// payload binders, a literal, or the wildcard.
#[derive(Debug)]
pub enum Pattern {
    /// `Enum.Variant`, `Enum.Variant(binder)`, or
    /// `Enum.Variant { field: binder, ... }`.
    Variant {
        enum_name: String,
        variant: String,
        args: PatArgs,
        /// Variant tag (declaration index), set by the checker.
        tag: u32,
        line: u32,
    },
    /// Integer literal, optionally negated. `value` is the canonical
    /// two's-complement pattern, folded by the checker at the scrutinee type.
    IntLit { neg: bool, digits: u64, value: u64, line: u32 },
    /// `b'X'` byte literal; requires a u8 scrutinee.
    ByteLit { value: u8, line: u32 },
    BoolLit { value: bool, line: u32 },
    Wildcard { line: u32 },
}

/// How a variant pattern binds the payload; must mirror the variant's
/// declaration shape.
#[derive(Debug)]
pub enum PatArgs {
    Bare,
    Single(PatBinder),
    /// (field name, binder, field index set by the checker). Every declared
    /// field must appear; bind a field to `_` to ignore it.
    Fields(Vec<(String, PatBinder, u32)>),
}

/// One payload binding of a variant pattern, scoped to its arm.
#[derive(Debug)]
pub struct PatBinder {
    pub name: String,
    /// Local index, assigned by the checker.
    pub local: u32,
    /// Bound value's type in the scrutinee's instantiation, set by the checker.
    pub ty: Type,
}

// -- Expressions ------------------------------------------------------------

#[derive(Debug)]
pub struct Expr {
    pub kind: ExprKind,
    pub line: u32,
    /// Filled by the checker.
    pub ty: Type,
}

#[derive(Debug, Clone, Copy, PartialEq, Eq, Structural)]
pub enum VarRes {
    /// Local variable (params and lets share one index space per function).
    Local(u32),
    /// Variable captured from an enclosing function (closure field index).
    Captured(u32),
    /// Top-level function used as a value.
    Func(u32),
}

#[derive(Debug, Clone, Copy, PartialEq, Eq, Structural)]
pub enum UnOp {
    Neg,
    Not,
    /// `~`, bitwise complement (integers only).
    BitNot,
}

#[derive(Debug, Clone, Copy, PartialEq, Eq, Structural)]
pub enum BinOp {
    Add,
    Sub,
    Mul,
    Div,
    Rem,
    BitAnd,
    BitOr,
    BitXor,
    Shl,
    Shr,
    Eq,
    Ne,
    Lt,
    Le,
    Gt,
    Ge,
    And,
    Or,
}

#[derive(Debug, Clone, Copy, PartialEq, Eq, Structural)]
pub enum Builtin {
    Println,
    Print,
    Len,
    Push,
    Pop,
    Itos,
    Ftos,
    Itof,
    Stoi,
    Stof,
    Stob,
    Btos,
    Assert,
    GcCollect,
    Unwrap,
}

#[derive(Debug)]
pub struct LambdaDef {
    pub params: Vec<(String, TypeExpr)>,
    pub ret: Option<TypeExpr>,
    pub body: Block,
    pub line: u32,
    /// Assigned by the checker.
    pub id: u32,
    pub num_locals: u32,
    pub captures: Vec<Capture>,
}

#[derive(Debug)]
pub struct Capture {
    pub name: String,
    pub ty: Type,
    /// Where the captured value lives in the *enclosing* function.
    pub src: VarRes,
}

#[derive(Debug)]
pub enum ExprKind {
    /// The value is the literal's two's-complement bit pattern. Digits lex to
    /// their unsigned value; the checker folds `-literal` into a negative
    /// pattern and records the integer kind in `Expr::ty`.
    Int(u64),
    /// A `b'X'` byte literal. Unlike `Int`, its type is always `u8`.
    Byte(u8),
    /// A float literal, by its digits.
    Float(String),
    Bool(bool),
    Str(String),
    Var { name: String, res: Option<VarRes> },
    Unary(UnOp, Box<Expr>),
    Binary(BinOp, Box<Expr>, Box<Expr>),
    /// `if cond { a } else { b }` in expression position. `else` is
    /// mandatory and each branch is a single expression.
    If { cond: Box<Expr>, then: Box<Expr>, els: Box<Expr> },
    Call {
        callee: Box<Expr>,
        args: Vec<Expr>,
        /// Set by the checker when the callee is a direct top-level function.
        direct: Option<u32>,
        /// Inferred type arguments when the callee is generic (empty
        /// otherwise), set by the checker. In a generic caller these may
        /// mention the caller's own type parameters; instantiation
        /// substitutes them.
        inst: Vec<Type>,
    },
    Builtin(Builtin, Vec<Expr>),
    Field {
        obj: Box<Expr>,
        name: String,
        /// Field index within the struct, set by the checker.
        index: u32,
    },
    Index(Box<Expr>, Box<Expr>),
    /// `expr as Type`; the resolved target type lands in `Expr::ty`.
    Cast(Box<Expr>, TypeExpr),
    ArrayLit(Vec<Expr>),
    StructLit {
        name: String,
        /// (field name, value, resolved field index)
        fields: Vec<(String, Expr, u32)>,
        struct_id: u32,
    },
    /// `Enum.Variant { field: value, ... }`: construction of an
    /// inline-fields variant. Unlike the bare/single forms this is
    /// syntactically unambiguous, so the parser produces it directly (the
    /// enum name resolves in the type namespace, like a struct literal);
    /// the checker rewrites it into `VariantLit`.
    VariantStructLit {
        enum_name: String,
        variant: String,
        /// (field name, value, resolved field index)
        fields: Vec<(String, Expr, u32)>,
    },
    /// A checked enum variant construction. Parsed as field access / call
    /// (or `VariantStructLit`) and rewritten into this by the checker.
    VariantLit {
        args: VariantArgs,
        enum_id: u32,
        /// The variant's declaration index, which is also its runtime tag.
        tag: u32,
    },
    /// `match expr { pat => expr, ... }` in expression position; arms are
    /// single expressions of one common type and must be exhaustive.
    Match { scrutinee: Box<Expr>, arms: Vec<(Pattern, Expr)> },
    Lambda(Box<LambdaDef>),
    /// `expr.method` without a call: a bound method. Evaluates the receiver
    /// and builds a fresh closure capturing it, whose code adapts the
    /// closure calling convention to the method. Parsed as field access and
    /// rewritten into this by the checker.
    BoundMethod {
        obj: Box<Expr>,
        /// The method's flattened function id.
        fid: u32,
        /// Inferred type arguments when the method is generic (all solved
        /// from the receiver type), like `Call::inst`.
        inst: Vec<Type>,
    },
}

/// A checked variant construction's payload values.
#[derive(Debug)]
pub enum VariantArgs {
    Bare,
    Single(Box<Expr>),
    /// (field name, value, resolved field index)
    Fields(Vec<(String, Expr, u32)>),
}

// -- The tree as a mathematical value ---------------------------------------

#[verifier::ext_equal]
pub struct ProgramView {
    pub structs: Seq<StructDefView>,
    pub enums: Seq<EnumDefView>,
    pub funcs: Seq<FuncDefView>,
    pub methods: Seq<MethodDefView>,
}

#[verifier::ext_equal]
pub struct MethodDefView {
    pub target_name: Seq<char>,
    pub name: Seq<char>,
    pub func: u32,
    pub has_self: bool,
    pub impl_type_params: u32,
    pub line: u32,
}

#[verifier::ext_equal]
pub struct StructDefView {
    pub name: Seq<char>,
    pub type_params: Seq<Seq<char>>,
    pub fields: Seq<(Seq<char>, TypeExprView)>,
    pub line: u32,
}

#[verifier::ext_equal]
pub struct EnumDefView {
    pub name: Seq<char>,
    pub type_params: Seq<Seq<char>>,
    pub variants: Seq<(Seq<char>, PayloadExprView)>,
    pub line: u32,
}

#[verifier::ext_equal]
pub enum PayloadExprView {
    Bare,
    Single(TypeExprView),
    Fields(Seq<(Seq<char>, TypeExprView)>),
}

#[verifier::ext_equal]
pub struct FuncDefView {
    pub name: Seq<char>,
    pub type_params: Seq<Seq<char>>,
    pub params: Seq<(Seq<char>, TypeExprView)>,
    pub ret: Option<TypeExprView>,
    pub body: BlockView,
    pub line: u32,
    pub num_locals: u32,
    pub is_method: bool,
}

#[verifier::ext_equal]
pub enum TypeExprView {
    Named(Seq<char>, Seq<TypeExprView>, u32),
    Array(Box<TypeExprView>),
    Fn(Seq<TypeExprView>, Option<Box<TypeExprView>>, u32),
}

#[verifier::ext_equal]
pub struct BlockView {
    pub stmts: Seq<StmtView>,
}

#[verifier::ext_equal]
pub enum StmtView {
    Let {
        name: Seq<char>,
        ann: Option<TypeExprView>,
        init: ExprView,
        line: u32,
        local: u32,
        ty: TypeView,
    },
    Assign { target: ExprView, op: Option<BinOp>, value: ExprView, line: u32 },
    Expr(ExprView),
    If { cond: ExprView, then: BlockView, els: Option<BlockView> },
    While { cond: ExprView, body: BlockView },
    For {
        init: Option<Box<StmtView>>,
        cond: Option<ExprView>,
        step: Option<Box<StmtView>>,
        body: BlockView,
    },
    Return { value: Option<ExprView>, line: u32 },
    Break(u32),
    Continue(u32),
    Block(BlockView),
    Match { scrutinee: ExprView, arms: Seq<(PatternView, BlockView)>, line: u32 },
}

#[verifier::ext_equal]
pub enum PatternView {
    Variant {
        enum_name: Seq<char>,
        variant: Seq<char>,
        args: PatArgsView,
        tag: u32,
        line: u32,
    },
    IntLit { neg: bool, digits: u64, value: u64, line: u32 },
    ByteLit { value: u8, line: u32 },
    BoolLit { value: bool, line: u32 },
    Wildcard { line: u32 },
}

#[verifier::ext_equal]
pub enum PatArgsView {
    Bare,
    Single(PatBinderView),
    Fields(Seq<(Seq<char>, PatBinderView, u32)>),
}

#[verifier::ext_equal]
pub struct PatBinderView {
    pub name: Seq<char>,
    pub local: u32,
    pub ty: TypeView,
}

#[verifier::ext_equal]
pub struct ExprView {
    pub kind: ExprKindView,
    pub line: u32,
    pub ty: TypeView,
}

#[verifier::ext_equal]
pub struct LambdaDefView {
    pub params: Seq<(Seq<char>, TypeExprView)>,
    pub ret: Option<TypeExprView>,
    pub body: BlockView,
    pub line: u32,
    pub id: u32,
    pub num_locals: u32,
    pub captures: Seq<CaptureView>,
}

#[verifier::ext_equal]
pub struct CaptureView {
    pub name: Seq<char>,
    pub ty: TypeView,
    pub src: VarRes,
}

#[verifier::ext_equal]
pub enum ExprKindView {
    Int(u64),
    Byte(u8),
    Float(Seq<char>),
    Bool(bool),
    Str(Seq<char>),
    Var { name: Seq<char>, res: Option<VarRes> },
    Unary(UnOp, Box<ExprView>),
    Binary(BinOp, Box<ExprView>, Box<ExprView>),
    If { cond: Box<ExprView>, then: Box<ExprView>, els: Box<ExprView> },
    Call { callee: Box<ExprView>, args: Seq<ExprView>, direct: Option<u32>, inst: Seq<TypeView> },
    Builtin(Builtin, Seq<ExprView>),
    Field { obj: Box<ExprView>, name: Seq<char>, index: u32 },
    Index(Box<ExprView>, Box<ExprView>),
    Cast(Box<ExprView>, TypeExprView),
    ArrayLit(Seq<ExprView>),
    StructLit { name: Seq<char>, fields: Seq<(Seq<char>, ExprView, u32)>, struct_id: u32 },
    VariantStructLit {
        enum_name: Seq<char>,
        variant: Seq<char>,
        fields: Seq<(Seq<char>, ExprView, u32)>,
    },
    VariantLit { args: VariantArgsView, enum_id: u32, tag: u32 },
    Match { scrutinee: Box<ExprView>, arms: Seq<(PatternView, ExprView)> },
    Lambda(Box<LambdaDefView>),
    BoundMethod { obj: Box<ExprView>, fid: u32, inst: Seq<TypeView> },
}

#[verifier::ext_equal]
pub enum VariantArgsView {
    Bare,
    Single(Box<ExprView>),
    Fields(Seq<(Seq<char>, ExprView, u32)>),
}

// -- Views ------------------------------------------------------------------

pub open spec fn type_exprs_view(ts: Seq<TypeExpr>) -> Seq<TypeExprView>
    decreases ts,
{
    Seq::new(ts.len(), |i: int| if 0 <= i < ts.len() { ts[i].view() } else { arbitrary() })
}

pub open spec fn opt_type_expr_view(t: Option<TypeExpr>) -> Option<TypeExprView> {
    match t {
        Some(t) => Some(t@),
        None => None,
    }
}

/// Named syntactic types: parameters or fields.
pub open spec fn params_view(ps: Seq<(String, TypeExpr)>) -> Seq<(Seq<char>, TypeExprView)> {
    Seq::new(ps.len(), |i: int| (ps[i].0@, ps[i].1@))
}

impl TypeExpr {
    pub open spec fn view(&self) -> TypeExprView
        decreases self,
    {
        match self {
            TypeExpr::Named(name, args, line) => TypeExprView::Named(
                name@,
                type_exprs_view(args@),
                *line,
            ),
            TypeExpr::Array(t) => TypeExprView::Array(Box::new(t.view())),
            TypeExpr::Fn(ps, r, line) => TypeExprView::Fn(
                type_exprs_view(ps@),
                match r {
                    Some(r) => Some(Box::new(r.view())),
                    None => None,
                },
                *line,
            ),
        }
    }
}

impl VariantPayloadExpr {
    pub open spec fn view(&self) -> PayloadExprView {
        match self {
            VariantPayloadExpr::Bare => PayloadExprView::Bare,
            VariantPayloadExpr::Single(t) => PayloadExprView::Single(t@),
            VariantPayloadExpr::Fields(fs) => PayloadExprView::Fields(params_view(fs@)),
        }
    }
}

pub open spec fn payloads_view(vs: Seq<(String, VariantPayloadExpr)>) -> Seq<
    (Seq<char>, PayloadExprView),
> {
    Seq::new(vs.len(), |i: int| (vs[i].0@, vs[i].1@))
}

impl StructDef {
    pub open spec fn view(&self) -> StructDefView {
        StructDefView {
            name: self.name@,
            type_params: names_view(self.type_params@),
            fields: params_view(self.fields@),
            line: self.line,
        }
    }
}

impl EnumDef {
    pub open spec fn view(&self) -> EnumDefView {
        EnumDefView {
            name: self.name@,
            type_params: names_view(self.type_params@),
            variants: payloads_view(self.variants@),
            line: self.line,
        }
    }
}

impl MethodDef {
    pub open spec fn view(&self) -> MethodDefView {
        MethodDefView {
            target_name: self.target_name@,
            name: self.name@,
            func: self.func,
            has_self: self.has_self,
            impl_type_params: self.impl_type_params,
            line: self.line,
        }
    }
}

impl FuncDef {
    pub open spec fn view(&self) -> FuncDefView {
        FuncDefView {
            name: self.name@,
            type_params: names_view(self.type_params@),
            params: params_view(self.params@),
            ret: opt_type_expr_view(self.ret),
            body: self.body@,
            line: self.line,
            num_locals: self.num_locals,
            is_method: self.is_method,
        }
    }
}

pub open spec fn struct_defs_view(s: Seq<StructDef>) -> Seq<StructDefView> {
    Seq::new(s.len(), |i: int| s[i]@)
}

pub open spec fn enum_defs_view(s: Seq<EnumDef>) -> Seq<EnumDefView> {
    Seq::new(s.len(), |i: int| s[i]@)
}

pub open spec fn func_defs_view(s: Seq<FuncDef>) -> Seq<FuncDefView> {
    Seq::new(s.len(), |i: int| s[i]@)
}

pub open spec fn method_defs_view(s: Seq<MethodDef>) -> Seq<MethodDefView> {
    Seq::new(s.len(), |i: int| s[i]@)
}

impl Program {
    pub open spec fn view(&self) -> ProgramView {
        ProgramView {
            structs: struct_defs_view(self.structs@),
            enums: enum_defs_view(self.enums@),
            funcs: func_defs_view(self.funcs@),
            methods: method_defs_view(self.methods@),
        }
    }
}

pub open spec fn stmts_view(ss: Seq<Stmt>) -> Seq<StmtView>
    decreases ss,
{
    Seq::new(ss.len(), |i: int| if 0 <= i < ss.len() { ss[i].view() } else { arbitrary() })
}

pub open spec fn exprs_view(es: Seq<Expr>) -> Seq<ExprView>
    decreases es,
{
    Seq::new(es.len(), |i: int| if 0 <= i < es.len() { es[i].view() } else { arbitrary() })
}

/// Named values of a literal, with their resolved field indices.
pub open spec fn inits_view(fs: Seq<(String, Expr, u32)>) -> Seq<(Seq<char>, ExprView, u32)>
    decreases fs,
{
    Seq::new(
        fs.len(),
        |i: int|
            if 0 <= i < fs.len() {
                (fs[i].0@, fs[i].1.view(), fs[i].2)
            } else {
                arbitrary()
            },
    )
}

pub open spec fn stmt_arms_view(arms: Seq<(Pattern, Block)>) -> Seq<(PatternView, BlockView)>
    decreases arms,
{
    Seq::new(
        arms.len(),
        |i: int|
            if 0 <= i < arms.len() {
                (arms[i].0@, arms[i].1.view())
            } else {
                arbitrary()
            },
    )
}

pub open spec fn expr_arms_view(arms: Seq<(Pattern, Expr)>) -> Seq<(PatternView, ExprView)>
    decreases arms,
{
    Seq::new(
        arms.len(),
        |i: int|
            if 0 <= i < arms.len() {
                (arms[i].0@, arms[i].1.view())
            } else {
                arbitrary()
            },
    )
}

impl Block {
    pub open spec fn view(&self) -> BlockView
        decreases self,
    {
        BlockView { stmts: stmts_view(self.stmts@) }
    }
}

impl Stmt {
    pub open spec fn view(&self) -> StmtView
        decreases self,
    {
        match self {
            Stmt::Let { name, ann, init, line, local, ty } => StmtView::Let {
                name: name@,
                ann: opt_type_expr_view(*ann),
                init: init.view(),
                line: *line,
                local: *local,
                ty: ty@,
            },
            Stmt::Assign { target, op, value, line } => StmtView::Assign {
                target: target.view(),
                op: *op,
                value: value.view(),
                line: *line,
            },
            Stmt::Expr(e) => StmtView::Expr(e.view()),
            Stmt::If { cond, then, els } => StmtView::If {
                cond: cond.view(),
                then: then.view(),
                els: match els {
                    Some(b) => Some(b.view()),
                    None => None,
                },
            },
            Stmt::While { cond, body } => StmtView::While { cond: cond.view(), body: body.view() },
            Stmt::For { init, cond, step, body } => StmtView::For {
                init: match init {
                    Some(s) => Some(Box::new(s.view())),
                    None => None,
                },
                cond: match cond {
                    Some(e) => Some(e.view()),
                    None => None,
                },
                step: match step {
                    Some(s) => Some(Box::new(s.view())),
                    None => None,
                },
                body: body.view(),
            },
            Stmt::Return { value, line } => StmtView::Return {
                value: match value {
                    Some(e) => Some(e.view()),
                    None => None,
                },
                line: *line,
            },
            Stmt::Break(line) => StmtView::Break(*line),
            Stmt::Continue(line) => StmtView::Continue(*line),
            Stmt::Block(b) => StmtView::Block(b.view()),
            Stmt::Match { scrutinee, arms, line } => StmtView::Match {
                scrutinee: scrutinee.view(),
                arms: stmt_arms_view(arms@),
                line: *line,
            },
        }
    }
}

pub open spec fn binders_view(fs: Seq<(String, PatBinder, u32)>) -> Seq<
    (Seq<char>, PatBinderView, u32),
> {
    Seq::new(fs.len(), |i: int| (fs[i].0@, fs[i].1@, fs[i].2))
}

impl PatBinder {
    pub open spec fn view(&self) -> PatBinderView {
        PatBinderView { name: self.name@, local: self.local, ty: self.ty@ }
    }
}

impl PatArgs {
    pub open spec fn view(&self) -> PatArgsView {
        match self {
            PatArgs::Bare => PatArgsView::Bare,
            PatArgs::Single(b) => PatArgsView::Single(b@),
            PatArgs::Fields(fs) => PatArgsView::Fields(binders_view(fs@)),
        }
    }

    /// The binder at an index, in the order in which they stand: what is done
    /// to it is done to that binder, and nothing else changes.
    pub fn binder_mut(&mut self, i: usize) -> (b: &mut PatBinder)
        requires
            i < old(self)@.binders().len(),
        ensures
            b@ == old(self)@.binders()[i as int],
            final(self)@ == old(self)@.with_binder(i as nat, final(b)@),
    {
        match self {
            PatArgs::Single(b) => b,
            PatArgs::Fields(fs) => &mut fs[i].1,
            PatArgs::Bare => vstd::pervasive::unreached(),
        }
    }
}

impl PatArgsView {
    pub open spec fn binders(self) -> Seq<PatBinderView> {
        match self {
            PatArgsView::Bare => Seq::empty(),
            PatArgsView::Single(b) => seq![b],
            PatArgsView::Fields(fs) => Seq::new(fs.len(), |i: int| fs[i].1),
        }
    }

    pub open spec fn with_binder(self, i: nat, b: PatBinderView) -> PatArgsView {
        match self {
            PatArgsView::Bare => PatArgsView::Bare,
            PatArgsView::Single(_) => PatArgsView::Single(b),
            PatArgsView::Fields(fs) => PatArgsView::Fields(
                fs.update(i as int, (fs[i as int].0, b, fs[i as int].2)),
            ),
        }
    }
}

impl Pattern {
    pub open spec fn view(&self) -> PatternView {
        match self {
            Pattern::Variant { enum_name, variant, args, tag, line } => PatternView::Variant {
                enum_name: enum_name@,
                variant: variant@,
                args: args@,
                tag: *tag,
                line: *line,
            },
            Pattern::IntLit { neg, digits, value, line } => PatternView::IntLit {
                neg: *neg,
                digits: *digits,
                value: *value,
                line: *line,
            },
            Pattern::ByteLit { value, line } => PatternView::ByteLit { value: *value, line: *line },
            Pattern::BoolLit { value, line } => PatternView::BoolLit { value: *value, line: *line },
            Pattern::Wildcard { line } => PatternView::Wildcard { line: *line },
        }
    }
}

impl Capture {
    pub open spec fn view(&self) -> CaptureView {
        CaptureView { name: self.name@, ty: self.ty@, src: self.src }
    }
}

pub open spec fn captures_view(cs: Seq<Capture>) -> Seq<CaptureView> {
    Seq::new(cs.len(), |i: int| cs[i]@)
}

impl LambdaDef {
    pub open spec fn view(&self) -> LambdaDefView
        decreases self,
    {
        LambdaDefView {
            params: params_view(self.params@),
            ret: opt_type_expr_view(self.ret),
            body: self.body.view(),
            line: self.line,
            id: self.id,
            num_locals: self.num_locals,
            captures: captures_view(self.captures@),
        }
    }
}

impl VariantArgs {
    pub open spec fn view(&self) -> VariantArgsView
        decreases self,
    {
        match self {
            VariantArgs::Bare => VariantArgsView::Bare,
            VariantArgs::Single(e) => VariantArgsView::Single(Box::new(e.view())),
            VariantArgs::Fields(fs) => VariantArgsView::Fields(inits_view(fs@)),
        }
    }
}

impl ExprKind {
    pub open spec fn view(&self) -> ExprKindView
        decreases self,
    {
        match self {
            ExprKind::Int(v) => ExprKindView::Int(*v),
            ExprKind::Byte(v) => ExprKindView::Byte(*v),
            ExprKind::Float(s) => ExprKindView::Float(s@),
            ExprKind::Bool(b) => ExprKindView::Bool(*b),
            ExprKind::Str(s) => ExprKindView::Str(s@),
            ExprKind::Var { name, res } => ExprKindView::Var { name: name@, res: *res },
            ExprKind::Unary(op, e) => ExprKindView::Unary(*op, Box::new(e.view())),
            ExprKind::Binary(op, a, b) => ExprKindView::Binary(
                *op,
                Box::new(a.view()),
                Box::new(b.view()),
            ),
            ExprKind::If { cond, then, els } => ExprKindView::If {
                cond: Box::new(cond.view()),
                then: Box::new(then.view()),
                els: Box::new(els.view()),
            },
            ExprKind::Call { callee, args, direct, inst } => ExprKindView::Call {
                callee: Box::new(callee.view()),
                args: exprs_view(args@),
                direct: *direct,
                inst: types_view(inst@),
            },
            ExprKind::Builtin(b, args) => ExprKindView::Builtin(*b, exprs_view(args@)),
            ExprKind::Field { obj, name, index } => ExprKindView::Field {
                obj: Box::new(obj.view()),
                name: name@,
                index: *index,
            },
            ExprKind::Index(a, b) => ExprKindView::Index(Box::new(a.view()), Box::new(b.view())),
            ExprKind::Cast(e, t) => ExprKindView::Cast(Box::new(e.view()), t@),
            ExprKind::ArrayLit(es) => ExprKindView::ArrayLit(exprs_view(es@)),
            ExprKind::StructLit { name, fields, struct_id } => ExprKindView::StructLit {
                name: name@,
                fields: inits_view(fields@),
                struct_id: *struct_id,
            },
            ExprKind::VariantStructLit { enum_name, variant, fields } =>
                ExprKindView::VariantStructLit {
                enum_name: enum_name@,
                variant: variant@,
                fields: inits_view(fields@),
            },
            ExprKind::VariantLit { args, enum_id, tag } => ExprKindView::VariantLit {
                args: args.view(),
                enum_id: *enum_id,
                tag: *tag,
            },
            ExprKind::Match { scrutinee, arms } => ExprKindView::Match {
                scrutinee: Box::new(scrutinee.view()),
                arms: expr_arms_view(arms@),
            },
            ExprKind::Lambda(lam) => ExprKindView::Lambda(Box::new(lam.view())),
            ExprKind::BoundMethod { obj, fid, inst } => ExprKindView::BoundMethod {
                obj: Box::new(obj.view()),
                fid: *fid,
                inst: types_view(inst@),
            },
        }
    }
}

impl Expr {
    pub open spec fn view(&self) -> ExprView
        decreases self,
    {
        ExprView { kind: self.kind.view(), line: self.line, ty: self.ty@ }
    }

    pub fn new(kind: ExprKind, line: u32) -> (r: Expr)
        ensures
            r@ == ExprView::fresh(kind@, line),
    {
        Expr { kind, line, ty: Type::Unknown }
    }
}

impl ExprView {
    /// An expression that the checker has not seen yet.
    pub open spec fn fresh(kind: ExprKindView, line: u32) -> ExprView {
        ExprView { kind, line, ty: TypeView::Unknown }
    }
}

// -- Operators --------------------------------------------------------------

impl BinOp {
    pub open spec fn symbol(self) -> Seq<char> {
        match self {
            BinOp::Add => "+"@,
            BinOp::Sub => "-"@,
            BinOp::Mul => "*"@,
            BinOp::Div => "/"@,
            BinOp::Rem => "%"@,
            BinOp::BitAnd => "&"@,
            BinOp::BitOr => "|"@,
            BinOp::BitXor => "^"@,
            BinOp::Shl => "<<"@,
            BinOp::Shr => ">>"@,
            BinOp::Eq => "=="@,
            BinOp::Ne => "!="@,
            BinOp::Lt => "<"@,
            BinOp::Le => "<="@,
            BinOp::Gt => ">"@,
            BinOp::Ge => ">="@,
            BinOp::And => "&&"@,
            BinOp::Or => "||"@,
        }
    }

    /// Operator text, for diagnostics and token display.
    pub fn sym(self) -> (r: &'static str)
        ensures
            r@ == self.symbol(),
    {
        match self {
            BinOp::Add => "+",
            BinOp::Sub => "-",
            BinOp::Mul => "*",
            BinOp::Div => "/",
            BinOp::Rem => "%",
            BinOp::BitAnd => "&",
            BinOp::BitOr => "|",
            BinOp::BitXor => "^",
            BinOp::Shl => "<<",
            BinOp::Shr => ">>",
            BinOp::Eq => "==",
            BinOp::Ne => "!=",
            BinOp::Lt => "<",
            BinOp::Le => "<=",
            BinOp::Gt => ">",
            BinOp::Ge => ">=",
            BinOp::And => "&&",
            BinOp::Or => "||",
        }
    }
}

// -- Copies -----------------------------------------------------------------

impl Clone for TypeExpr {
    fn clone(&self) -> (r: TypeExpr)
        ensures
            r@ == self@,
        decreases self, 0nat,
    {
        match self {
            TypeExpr::Named(name, args, line) => TypeExpr::Named(
                name.clone(),
                clone_type_exprs(args),
                *line,
            ),
            TypeExpr::Array(t) => TypeExpr::Array(Box::new((&**t).clone())),
            TypeExpr::Fn(ps, r, line) => TypeExpr::Fn(
                clone_type_exprs(ps),
                match r {
                    Some(r) => Some(Box::new((&**r).clone())),
                    None => None,
                },
                *line,
            ),
        }
    }
}

fn clone_type_exprs(ts: &Vec<TypeExpr>) -> (r: Vec<TypeExpr>)
    ensures
        type_exprs_view(r@) == type_exprs_view(ts@),
    decreases ts, 1nat,
{
    let mut out: Vec<TypeExpr> = Vec::new();
    let mut i: usize = 0;
    while i < ts.len()
        invariant
            i <= ts.len(),
            out.len() == i,
            forall|j: int| 0 <= j < i ==> out@[j]@ == ts@[j]@,
        decreases ts.len() - i,
    {
        out.push(ts[i].clone());
        i += 1;
    }
    assert(type_exprs_view(out@) =~= type_exprs_view(ts@));
    out
}

pub fn clone_opt_type_expr(t: &Option<TypeExpr>) -> (r: Option<TypeExpr>)
    ensures
        opt_type_expr_view(r) == opt_type_expr_view(*t),
{
    match t {
        Some(t) => Some(t.clone()),
        None => None,
    }
}

pub fn clone_params(ps: &Vec<(String, TypeExpr)>) -> (r: Vec<(String, TypeExpr)>)
    ensures
        params_view(r@) == params_view(ps@),
{
    let mut out: Vec<(String, TypeExpr)> = Vec::new();
    let mut i: usize = 0;
    while i < ps.len()
        invariant
            i <= ps.len(),
            out.len() == i,
            forall|j: int|
                0 <= j < i ==> (#[trigger] out@[j]).0@ == ps@[j].0@ && out@[j].1@ == ps@[j].1@,
        decreases ps.len() - i,
    {
        out.push((ps[i].0.clone(), ps[i].1.clone()));
        i += 1;
    }
    assert(params_view(out@) =~= params_view(ps@));
    out
}

} // verus!
