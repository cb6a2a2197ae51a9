//! Shape-keyed monomorphization.
//!
//! Generic functions are compiled once per *shape* of their type arguments,
//! not once per type. A shape is exactly what code generation and the
//! collector care about: the register class (float vs word), whether the
//! value is a reference (stack maps, write barriers, descriptor refmaps), and
//! the packed storage width and signedness (struct layout, array elements).
//! Every reference type shares the `Ref` shape.
//!
//! Instantiation substitutes each type argument's *canonical type* (a
//! representative of its shape) into a copy of the checked tree. This keying
//! also makes polymorphically recursive programs compile: `f<Pair<T>>`
//! collapses to the `Ref` shape no matter how deep the nesting, so the set of
//! instantiations is finite.
use vstd::prelude::*;

use crate::ast::{
    binders_view, captures_view, clone_opt_type_expr, clone_params, expr_arms_view, exprs_view,
    inits_view, stmt_arms_view, stmts_view, Block, BlockView, Capture, CaptureView, Expr, ExprKind,
    ExprKindView, ExprView, FuncDef, FuncDefView, LambdaDef, LambdaDefView, PatArgs, PatArgsView,
    PatBinder, PatBinderView, Pattern, PatternView, Stmt, StmtView, VariantArgs, VariantArgsView,
};
use crate::rules::CheckedView;
use crate::text::{cat2, clone_names, join, join_text, join_upto, names_view, owned};
use crate::typeck::Checked;
use crate::types::{types_view, IntKind, Type, TypeView};
use crate::walk::{collect_lambdas, lambda_refs_view, lambdas_in_block};

verus! {

// -- Shapes -----------------------------------------------------------------

#[derive(Debug, Clone, Copy, PartialEq, Eq, Structural)]
pub enum Shape {
    /// Any reference: string, struct, enum, array, function.
    Ref,
    /// 64-bit float (its own register class).
    F64,
    /// Full-width word: i64/u64 (sign is irrelevant at full width).
    W64,
    I32,
    U32,
    I16,
    U16,
    I8,
    /// u8 and bool (both one zero-extended byte).
    U8,
}

impl TypeView {
    /// May the type be a type argument?
    pub open spec fn has_shape(self) -> bool {
        !(self is Unit || self is Unknown || self is Param)
    }

    /// The shape of a type that has one.
    pub open spec fn shape(self) -> Shape {
        match self {
            TypeView::Float => Shape::F64,
            TypeView::Bool => Shape::U8,
            TypeView::Int(IntKind::I64) => Shape::W64,
            TypeView::Int(IntKind::U64) => Shape::W64,
            TypeView::Int(IntKind::I32) => Shape::I32,
            TypeView::Int(IntKind::U32) => Shape::U32,
            TypeView::Int(IntKind::I16) => Shape::I16,
            TypeView::Int(IntKind::U16) => Shape::U16,
            TypeView::Int(IntKind::I8) => Shape::I8,
            TypeView::Int(IntKind::U8) => Shape::U8,
            _ => Shape::Ref,
        }
    }
}

impl Shape {
    /// The representative of a shape.
    pub open spec fn representative(self) -> TypeView {
        match self {
            Shape::Ref => TypeView::Str,
            Shape::F64 => TypeView::Float,
            Shape::W64 => TypeView::Int(IntKind::I64),
            Shape::I32 => TypeView::Int(IntKind::I32),
            Shape::U32 => TypeView::Int(IntKind::U32),
            Shape::I16 => TypeView::Int(IntKind::I16),
            Shape::U16 => TypeView::Int(IntKind::U16),
            Shape::I8 => TypeView::Int(IntKind::I8),
            Shape::U8 => TypeView::Int(IntKind::U8),
        }
    }

    /// A shape as it stands in symbol names.
    pub open spec fn spec_code(self) -> Seq<char> {
        match self {
            Shape::Ref => "r"@,
            Shape::F64 => "f"@,
            Shape::W64 => "w"@,
            Shape::I32 => "i32"@,
            Shape::U32 => "u32"@,
            Shape::I16 => "i16"@,
            Shape::U16 => "u16"@,
            Shape::I8 => "i8"@,
            Shape::U8 => "u8"@,
        }
    }

    fn code(self) -> (r: &'static str)
        ensures
            r@ == self.spec_code(),
    {
        match self {
            Shape::Ref => "r",
            Shape::F64 => "f",
            Shape::W64 => "w",
            Shape::I32 => "i32",
            Shape::U32 => "u32",
            Shape::I16 => "i16",
            Shape::U16 => "u16",
            Shape::I8 => "i8",
            Shape::U8 => "u8",
        }
    }
}

/// The shape of a type argument. The checker admits no other types there.
pub fn shape_of(t: &Type) -> (r: Shape)
    requires
        t@.has_shape(),
    ensures
        r == t@.shape(),
{
    match t {
        Type::Float => Shape::F64,
        Type::Bool => Shape::U8,
        Type::Int(IntKind::I64) => Shape::W64,
        Type::Int(IntKind::U64) => Shape::W64,
        Type::Int(IntKind::I32) => Shape::I32,
        Type::Int(IntKind::U32) => Shape::U32,
        Type::Int(IntKind::I16) => Shape::I16,
        Type::Int(IntKind::U16) => Shape::U16,
        Type::Int(IntKind::I8) => Shape::I8,
        Type::Int(IntKind::U8) => Shape::U8,
        _ => Shape::Ref,
    }
}

/// The representative type substituted into an instantiation's body. Code
/// generation decisions (size, signedness, refness, register class) depend
/// only on the shape, so compiling with the representative yields code that
/// is correct for every type of that shape.
pub fn canonical(s: Shape) -> (r: Type)
    ensures
        r@ == s.representative(),
{
    match s {
        Shape::Ref => Type::Str,
        Shape::F64 => Type::Float,
        Shape::W64 => Type::Int(IntKind::I64),
        Shape::I32 => Type::Int(IntKind::I32),
        Shape::U32 => Type::Int(IntKind::U32),
        Shape::I16 => Type::Int(IntKind::I16),
        Shape::U16 => Type::Int(IntKind::U16),
        Shape::I8 => Type::Int(IntKind::I8),
        Shape::U8 => Type::Int(IntKind::U8),
    }
}

pub open spec fn representatives(shapes: Seq<Shape>) -> Seq<TypeView> {
    Seq::new(shapes.len(), |i: int| shapes[i].representative())
}

/// The representatives of a list of shapes.
pub fn canonical_all(shapes: &Vec<Shape>) -> (r: Vec<Type>)
    ensures
        types_view(r@) == representatives(shapes@),
{
    let mut out: Vec<Type> = Vec::new();
    let mut i: usize = 0;
    while i < shapes.len()
        invariant
            i <= shapes.len(),
            out@.len() == i,
            forall|j: int|
                0 <= j < i ==> (#[trigger] out@[j])@ == shapes@[j].representative(),
        decreases shapes.len() - i,
    {
        out.push(canonical(shapes[i]));
        i += 1;
    }
    assert(types_view(out@) =~= representatives(shapes@));
    out
}

pub open spec fn codes(shapes: Seq<Shape>) -> Seq<Seq<char>> {
    Seq::new(shapes.len(), |i: int| shapes[i].spec_code())
}

pub open spec fn suffix_text(shapes: Seq<Shape>) -> Seq<char> {
    if shapes.len() == 0 {
        Seq::empty()
    } else {
        "$"@ + join_text(codes(shapes), "_"@)
    }
}

/// Symbol-name suffix for an instantiation, e.g. `$r_w` for `<string, int>`.
/// Empty for a non-generic function.
pub fn suffix(shapes: &[Shape]) -> (r: String)
    ensures
        r@ == suffix_text(shapes@),
{
    if shapes.len() == 0 {
        return String::new();
    }
    let mut parts: Vec<String> = Vec::new();
    let mut i: usize = 0;
    while i < shapes.len()
        invariant
            i <= shapes.len(),
            parts@.len() == i,
            forall|j: int| 0 <= j < i ==> (#[trigger] parts@[j])@ == shapes@[j].spec_code(),
        decreases shapes.len() - i,
    {
        parts.push(owned(shapes[i].code()));
        i += 1;
    }
    assert(names_view(parts@) =~= codes(shapes@));
    cat2("$", join(&parts, "_").as_str())
}

/// Codes tell shapes apart, and hold no `_`.
proof fn lemma_codes(x: Shape, y: Shape)
    ensures
        x.spec_code() == y.spec_code() ==> x == y,
        forall|i: int| 0 <= i < x.spec_code().len() ==> #[trigger] x.spec_code()[i] != '_',
{
    reveal_strlit("r");
    reveal_strlit("f");
    reveal_strlit("w");
    reveal_strlit("i32");
    reveal_strlit("u32");
    reveal_strlit("i16");
    reveal_strlit("u16");
    reveal_strlit("i8");
    reveal_strlit("u8");
    let (a, b) = (x.spec_code(), y.spec_code());
    if a == b {
        assert(a.len() == b.len());
        assert(a[0] == b[0]);
        if a.len() > 1 {
            assert(a[1] == b[1]);
        }
    }
}

/// Texts behind their last `_` are told apart.
proof fn lemma_split(s: Seq<char>, c: Seq<char>, t: Seq<char>, d: Seq<char>)
    requires
        s + seq!['_'] + c == t + seq!['_'] + d,
        forall|i: int| 0 <= i < c.len() ==> #[trigger] c[i] != '_',
        forall|i: int| 0 <= i < d.len() ==> #[trigger] d[i] != '_',
    ensures
        s == t,
        c == d,
{
    let all = s + seq!['_'] + c;
    let other = t + seq!['_'] + d;
    assert(all.len() == s.len() + 1 + c.len());
    assert(other.len() == t.len() + 1 + d.len());
    if s.len() < t.len() {
        assert(other[t.len() as int] == '_');
        assert(all[t.len() as int] == c[t.len() - s.len() - 1]);
    } else if t.len() < s.len() {
        assert(all[s.len() as int] == '_');
        assert(other[s.len() as int] == d[s.len() - t.len() - 1]);
    }
    assert(s =~= all.take(s.len() as int));
    assert(t =~= other.take(t.len() as int));
    assert(c =~= all.skip(s.len() as int + 1));
    assert(d =~= other.skip(t.len() as int + 1));
}

proof fn lemma_joined_codes(a: Seq<Shape>, n: nat, b: Seq<Shape>, k: nat)
    requires
        0 < n <= a.len(),
        0 < k <= b.len(),
        join_upto(codes(a), "_"@, n) == join_upto(codes(b), "_"@, k),
    ensures
        n == k,
        a.take(n as int) == b.take(k as int),
    decreases n,
{
    reveal_strlit("_");
    assert("_"@ =~= seq!['_']);
    let (x, y) = (a[n - 1], b[k - 1]);
    lemma_codes(x, y);
    lemma_codes(y, x);
    assert(codes(a)[n - 1] == x.spec_code() && codes(b)[k - 1] == y.spec_code());
    if n > 1 && k > 1 {
        lemma_split(
            join_upto(codes(a), "_"@, (n - 1) as nat),
            x.spec_code(),
            join_upto(codes(b), "_"@, (k - 1) as nat),
            y.spec_code(),
        );
        lemma_joined_codes(a, (n - 1) as nat, b, (k - 1) as nat);
        assert(a.take(n as int) =~= a.take(n - 1).push(x));
        assert(b.take(k as int) =~= b.take(k - 1).push(y));
    } else if n > 1 {
        let s = join_upto(codes(a), "_"@, (n - 1) as nat);
        assert((s + "_"@ + x.spec_code())[s.len() as int] == '_');
        assert(y.spec_code()[s.len() as int] == '_');
    } else if k > 1 {
        let s = join_upto(codes(b), "_"@, (k - 1) as nat);
        assert((s + "_"@ + y.spec_code())[s.len() as int] == '_');
        assert(x.spec_code()[s.len() as int] == '_');
    } else {
        assert(a.take(1) =~= seq![x]);
        assert(b.take(1) =~= seq![y]);
    }
}

/// Different instantiations have different suffixes.
pub proof fn law_suffixes_differ(a: Seq<Shape>, b: Seq<Shape>)
    requires
        suffix_text(a) == suffix_text(b),
    ensures
        a == b,
{
    reveal_strlit("$");
    if a.len() > 0 && b.len() > 0 {
        let (s, t) = (join_text(codes(a), "_"@), join_text(codes(b), "_"@));
        assert(s =~= ("$"@ + s).skip(1));
        assert(t =~= ("$"@ + t).skip(1));
        lemma_joined_codes(a, a.len(), b, b.len());
        assert(a.take(a.len() as int) =~= a);
        assert(b.take(b.len() as int) =~= b);
    } else if a.len() > 0 {
        assert(suffix_text(a).len() > 0);
    } else if b.len() > 0 {
        assert(suffix_text(b).len() > 0);
    } else {
        assert(a =~= b);
    }
}

/// Every shape is the shape of its representative, which may stand as a type
/// argument.
pub proof fn law_representative_has_its_shape(s: Shape)
    ensures
        s.representative().has_shape(),
        s.representative().shape() == s,
        !s.representative().generic(),
{
}

/// A shape decides everything that layout and code generation look at: two
/// types of one shape have the same storage size, refness and register
/// class, and the same signedness wherever the value is narrower than a word.
pub proof fn law_shape_decides(a: TypeView, b: TypeView)
    requires
        a.has_shape(),
        b.has_shape(),
        a.shape() == b.shape(),
    ensures
        a.storage() == b.storage(),
        a.is_reference() == b.is_reference(),
        (a is Float) == (b is Float),
        a.storage() < 8 && a is Int && b is Int ==> a->Int_0.is_signed() == b->Int_0.is_signed(),
{
}

// -- Substitution -----------------------------------------------------------

pub open spec fn subst_captures(cs: Seq<CaptureView>, args: Seq<TypeView>) -> Seq<CaptureView> {
    Seq::new(cs.len(), |i: int| CaptureView { ty: cs[i].ty.subst(args), ..cs[i] })
}

pub open spec fn subst_binder(b: PatBinderView, args: Seq<TypeView>) -> PatBinderView {
    PatBinderView { ty: b.ty.subst(args), ..b }
}

pub open spec fn subst_pattern(p: PatternView, args: Seq<TypeView>) -> PatternView {
    match p {
        PatternView::Variant { enum_name, variant, args: pats, tag, line } => PatternView::Variant {
            enum_name,
            variant,
            args: match pats {
                PatArgsView::Bare => PatArgsView::Bare,
                PatArgsView::Single(b) => PatArgsView::Single(subst_binder(b, args)),
                PatArgsView::Fields(fs) => PatArgsView::Fields(
                    Seq::new(
                        fs.len(),
                        |i: int| (fs[i].0, subst_binder(fs[i].1, args), fs[i].2),
                    ),
                ),
            },
            tag,
            line,
        },
        p => p,
    }
}

/// The tree with every type annotation substituted.
pub open spec fn subst_expr(e: ExprView, args: Seq<TypeView>) -> ExprView
    decreases e, 0nat,
{
    ExprView { kind: subst_kind(e.kind, args), line: e.line, ty: e.ty.subst(args) }
}

pub open spec fn subst_exprs(es: Seq<ExprView>, args: Seq<TypeView>) -> Seq<ExprView>
    decreases es, 1nat,
{
    Seq::new(
        es.len(),
        |i: int| if 0 <= i < es.len() { subst_expr(es[i], args) } else { arbitrary() },
    )
}

pub open spec fn subst_inits(
    fs: Seq<(Seq<char>, ExprView, u32)>,
    args: Seq<TypeView>,
) -> Seq<(Seq<char>, ExprView, u32)>
    decreases fs, 1nat,
{
    Seq::new(
        fs.len(),
        |i: int|
            if 0 <= i < fs.len() {
                (fs[i].0, subst_expr(fs[i].1, args), fs[i].2)
            } else {
                arbitrary()
            },
    )
}

pub open spec fn subst_arms(
    arms: Seq<(PatternView, ExprView)>,
    args: Seq<TypeView>,
) -> Seq<(PatternView, ExprView)>
    decreases arms, 1nat,
{
    Seq::new(
        arms.len(),
        |i: int|
            if 0 <= i < arms.len() {
                (subst_pattern(arms[i].0, args), subst_expr(arms[i].1, args))
            } else {
                arbitrary()
            },
    )
}

pub open spec fn subst_kind(k: ExprKindView, args: Seq<TypeView>) -> ExprKindView
    decreases k, 0nat,
{
    match k {
        ExprKindView::Unary(op, a) => ExprKindView::Unary(op, Box::new(subst_expr(*a, args))),
        ExprKindView::Cast(a, te) => ExprKindView::Cast(Box::new(subst_expr(*a, args)), te),
        ExprKindView::Field { obj, name, index } => ExprKindView::Field {
            obj: Box::new(subst_expr(*obj, args)),
            name,
            index,
        },
        ExprKindView::Binary(op, a, b) => ExprKindView::Binary(
            op,
            Box::new(subst_expr(*a, args)),
            Box::new(subst_expr(*b, args)),
        ),
        ExprKindView::Index(a, b) => ExprKindView::Index(
            Box::new(subst_expr(*a, args)),
            Box::new(subst_expr(*b, args)),
        ),
        ExprKindView::If { cond, then, els } => ExprKindView::If {
            cond: Box::new(subst_expr(*cond, args)),
            then: Box::new(subst_expr(*then, args)),
            els: Box::new(subst_expr(*els, args)),
        },
        ExprKindView::Call { callee, args: xs, direct, inst } => ExprKindView::Call {
            callee: Box::new(subst_expr(*callee, args)),
            args: subst_exprs(xs, args),
            direct,
            inst: TypeView::subst_all(inst, args),
        },
        ExprKindView::Builtin(b, xs) => ExprKindView::Builtin(b, subst_exprs(xs, args)),
        ExprKindView::ArrayLit(xs) => ExprKindView::ArrayLit(subst_exprs(xs, args)),
        ExprKindView::StructLit { name, fields, struct_id } => ExprKindView::StructLit {
            name,
            fields: subst_inits(fields, args),
            struct_id,
        },
        ExprKindView::VariantStructLit { enum_name, variant, fields } =>
            ExprKindView::VariantStructLit {
            enum_name,
            variant,
            fields: subst_inits(fields, args),
        },
        ExprKindView::VariantLit { args: va, enum_id, tag } => ExprKindView::VariantLit {
            args: subst_payload(va, args),
            enum_id,
            tag,
        },
        ExprKindView::Match { scrutinee, arms } => ExprKindView::Match {
            scrutinee: Box::new(subst_expr(*scrutinee, args)),
            arms: subst_arms(arms, args),
        },
        ExprKindView::Lambda(lam) => ExprKindView::Lambda(Box::new(subst_lambda(*lam, args))),
        ExprKindView::BoundMethod { obj, fid, inst } => ExprKindView::BoundMethod {
            obj: Box::new(subst_expr(*obj, args)),
            fid,
            inst: TypeView::subst_all(inst, args),
        },
        k => k,
    }
}

pub open spec fn subst_payload(va: VariantArgsView, args: Seq<TypeView>) -> VariantArgsView
    decreases va, 0nat,
{
    match va {
        VariantArgsView::Bare => VariantArgsView::Bare,
        VariantArgsView::Single(a) => VariantArgsView::Single(Box::new(subst_expr(*a, args))),
        VariantArgsView::Fields(fs) => VariantArgsView::Fields(subst_inits(fs, args)),
    }
}

pub open spec fn subst_lambda(lam: LambdaDefView, args: Seq<TypeView>) -> LambdaDefView
    decreases lam, 0nat,
{
    LambdaDefView {
        params: lam.params,
        ret: lam.ret,
        body: subst_block(lam.body, args),
        line: lam.line,
        id: lam.id,
        num_locals: lam.num_locals,
        captures: subst_captures(lam.captures, args),
    }
}

pub open spec fn subst_block(b: BlockView, args: Seq<TypeView>) -> BlockView
    decreases b, 0nat,
{
    BlockView { stmts: subst_stmts(b.stmts, args) }
}

pub open spec fn subst_stmts(ss: Seq<StmtView>, args: Seq<TypeView>) -> Seq<StmtView>
    decreases ss, 1nat,
{
    Seq::new(
        ss.len(),
        |i: int| if 0 <= i < ss.len() { subst_stmt(ss[i], args) } else { arbitrary() },
    )
}

pub open spec fn subst_block_arms(
    arms: Seq<(PatternView, BlockView)>,
    args: Seq<TypeView>,
) -> Seq<(PatternView, BlockView)>
    decreases arms, 1nat,
{
    Seq::new(
        arms.len(),
        |i: int|
            if 0 <= i < arms.len() {
                (subst_pattern(arms[i].0, args), subst_block(arms[i].1, args))
            } else {
                arbitrary()
            },
    )
}

pub open spec fn subst_stmt(s: StmtView, args: Seq<TypeView>) -> StmtView
    decreases s, 0nat,
{
    match s {
        StmtView::Let { name, ann, init, line, local, ty } => StmtView::Let {
            name,
            ann,
            init: subst_expr(init, args),
            line,
            local,
            ty: ty.subst(args),
        },
        StmtView::Assign { target, op, value, line } => StmtView::Assign {
            target: subst_expr(target, args),
            op,
            value: subst_expr(value, args),
            line,
        },
        StmtView::Expr(e) => StmtView::Expr(subst_expr(e, args)),
        StmtView::If { cond, then, els } => StmtView::If {
            cond: subst_expr(cond, args),
            then: subst_block(then, args),
            els: match els {
                Some(b) => Some(subst_block(b, args)),
                None => None,
            },
        },
        StmtView::While { cond, body } => StmtView::While {
            cond: subst_expr(cond, args),
            body: subst_block(body, args),
        },
        StmtView::For { init, cond, step, body } => StmtView::For {
            init: match init {
                Some(s) => Some(Box::new(subst_stmt(*s, args))),
                None => None,
            },
            cond: match cond {
                Some(c) => Some(subst_expr(c, args)),
                None => None,
            },
            step: match step {
                Some(s) => Some(Box::new(subst_stmt(*s, args))),
                None => None,
            },
            body: subst_block(body, args),
        },
        StmtView::Return { value, line } => StmtView::Return {
            value: match value {
                Some(v) => Some(subst_expr(v, args)),
                None => None,
            },
            line,
        },
        StmtView::Block(b) => StmtView::Block(subst_block(b, args)),
        StmtView::Match { scrutinee, arms, line } => StmtView::Match {
            scrutinee: subst_expr(scrutinee, args),
            arms: subst_block_arms(arms, args),
            line,
        },
        StmtView::Break(line) => StmtView::Break(line),
        StmtView::Continue(line) => StmtView::Continue(line),
    }
}

/// Copies trees with every type annotation substituted.
struct Subst<'a> {
    args: &'a Vec<Type>,
}

impl Subst<'_> {
    spec fn to(&self) -> Seq<TypeView> {
        types_view(self.args@)
    }

    fn ty(&self, t: &Type) -> (r: Type)
        ensures
            r@ == t@.subst(self.to()),
    {
        t.subst(self.args.as_slice())
    }

    fn types(&self, ts: &Vec<Type>) -> (r: Vec<Type>)
        ensures
            types_view(r@) == TypeView::subst_all(types_view(ts@), self.to()),
    {
        Type::subst_each(ts, self.args.as_slice())
    }

    fn block(&self, b: &Block) -> (r: Block)
        ensures
            r@ == subst_block(b@, self.to()),
        decreases b, 0nat,
    {
        let mut out: Vec<Stmt> = Vec::new();
        let mut i: usize = 0;
        while i < b.stmts.len()
            invariant
                i <= b.stmts.len(),
                out@.len() == i,
                forall|j: int|
                    0 <= j < i ==> (#[trigger] out@[j])@ == subst_stmt(b.stmts@[j]@, self.to()),
            decreases b.stmts.len() - i,
        {
            out.push(self.stmt(&b.stmts[i]));
            i += 1;
        }
        assert(stmts_view(out@) =~= subst_stmts(stmts_view(b.stmts@), self.to()));
        Block { stmts: out }
    }

    fn stmt(&self, s: &Stmt) -> (r: Stmt)
        ensures
            r@ == subst_stmt(s@, self.to()),
        decreases s, 0nat,
    {
        match s {
            Stmt::Let { name, ann, init, line, local, ty } => Stmt::Let {
                name: name.clone(),
                ann: clone_opt_type_expr(ann),
                init: self.expr(init),
                line: *line,
                local: *local,
                ty: self.ty(ty),
            },
            Stmt::Assign { target, op, value, line } => Stmt::Assign {
                target: self.expr(target),
                op: *op,
                value: self.expr(value),
                line: *line,
            },
            Stmt::Expr(e) => Stmt::Expr(self.expr(e)),
            Stmt::If { cond, then, els } => Stmt::If {
                cond: self.expr(cond),
                then: self.block(then),
                els: match els {
                    Some(b) => Some(self.block(b)),
                    None => None,
                },
            },
            Stmt::While { cond, body } => Stmt::While {
                cond: self.expr(cond),
                body: self.block(body),
            },
            Stmt::For { init, cond, step, body } => Stmt::For {
                init: match init {
                    Some(s) => Some(Box::new(self.stmt(s))),
                    None => None,
                },
                cond: match cond {
                    Some(c) => Some(self.expr(c)),
                    None => None,
                },
                step: match step {
                    Some(s) => Some(Box::new(self.stmt(s))),
                    None => None,
                },
                body: self.block(body),
            },
            Stmt::Return { value, line } => Stmt::Return {
                value: match value {
                    Some(v) => Some(self.expr(v)),
                    None => None,
                },
                line: *line,
            },
            Stmt::Block(b) => Stmt::Block(self.block(b)),
            Stmt::Match { scrutinee, arms, line } => Stmt::Match {
                scrutinee: self.expr(scrutinee),
                arms: self.block_arms(arms),
                line: *line,
            },
            Stmt::Break(line) => Stmt::Break(*line),
            Stmt::Continue(line) => Stmt::Continue(*line),
        }
    }

    fn block_arms(&self, arms: &Vec<(Pattern, Block)>) -> (r: Vec<(Pattern, Block)>)
        ensures
            stmt_arms_view(r@) == subst_block_arms(stmt_arms_view(arms@), self.to()),
        decreases arms@, arms@.len() + 1,
    {
        let mut out: Vec<(Pattern, Block)> = Vec::new();
        let mut i: usize = 0;
        while i < arms.len()
            invariant
                i <= arms.len(),
                out@.len() == i,
                forall|j: int|
                    0 <= j < i ==> (#[trigger] out@[j]).0@ == subst_pattern(
                        arms@[j].0@,
                        self.to(),
                    ) && out@[j].1@ == subst_block(arms@[j].1@, self.to()),
            decreases arms.len() - i,
        {
            out.push((self.pattern(&arms[i].0), self.block(&arms[i].1)));
            i += 1;
        }
        assert(stmt_arms_view(out@) =~= subst_block_arms(stmt_arms_view(arms@), self.to()));
        out
    }

    fn binder(&self, b: &PatBinder) -> (r: PatBinder)
        ensures
            r@ == subst_binder(b@, self.to()),
    {
        PatBinder { name: b.name.clone(), local: b.local, ty: self.ty(&b.ty) }
    }

    fn pattern(&self, p: &Pattern) -> (r: Pattern)
        ensures
            r@ == subst_pattern(p@, self.to()),
    {
        match p {
            Pattern::Variant { enum_name, variant, args, tag, line } => Pattern::Variant {
                enum_name: enum_name.clone(),
                variant: variant.clone(),
                args: match args {
                    PatArgs::Bare => PatArgs::Bare,
                    PatArgs::Single(b) => PatArgs::Single(self.binder(b)),
                    PatArgs::Fields(fs) => PatArgs::Fields(self.binders(fs)),
                },
                tag: *tag,
                line: *line,
            },
            Pattern::IntLit { neg, digits, value, line } => Pattern::IntLit {
                neg: *neg,
                digits: *digits,
                value: *value,
                line: *line,
            },
            Pattern::ByteLit { value, line } => Pattern::ByteLit { value: *value, line: *line },
            Pattern::BoolLit { value, line } => Pattern::BoolLit { value: *value, line: *line },
            Pattern::Wildcard { line } => Pattern::Wildcard { line: *line },
        }
    }

    fn binders(&self, fs: &Vec<(String, PatBinder, u32)>) -> (r: Vec<(String, PatBinder, u32)>)
        ensures
            binders_view(r@) == Seq::new(
                fs@.len(),
                |i: int|
                    (
                        binders_view(fs@)[i].0,
                        subst_binder(binders_view(fs@)[i].1, self.to()),
                        binders_view(fs@)[i].2,
                    ),
            ),
    {
        let mut out: Vec<(String, PatBinder, u32)> = Vec::new();
        let mut i: usize = 0;
        while i < fs.len()
            invariant
                i <= fs.len(),
                out@.len() == i,
                forall|j: int|
                    0 <= j < i ==> (#[trigger] out@[j]).0@ == fs@[j].0@ && out@[j].1@
                        == subst_binder(fs@[j].1@, self.to()) && out@[j].2 == fs@[j].2,
            decreases fs.len() - i,
        {
            out.push((fs[i].0.clone(), self.binder(&fs[i].1), fs[i].2));
            i += 1;
        }
        out
    }

    fn captures(&self, cs: &Vec<Capture>) -> (r: Vec<Capture>)
        ensures
            captures_view(r@) == subst_captures(captures_view(cs@), self.to()),
    {
        let mut out: Vec<Capture> = Vec::new();
        let mut i: usize = 0;
        while i < cs.len()
            invariant
                i <= cs.len(),
                out@.len() == i,
                forall|j: int|
                    0 <= j < i ==> (#[trigger] out@[j])@ == (CaptureView {
                        ty: cs@[j].ty@.subst(self.to()),
                        ..cs@[j]@
                    }),
            decreases cs.len() - i,
        {
            out.push(
                Capture { name: cs[i].name.clone(), ty: self.ty(&cs[i].ty), src: cs[i].src },
            );
            i += 1;
        }
        assert(captures_view(out@) =~= subst_captures(captures_view(cs@), self.to()));
        out
    }

    fn exprs(&self, es: &Vec<Expr>) -> (r: Vec<Expr>)
        ensures
            exprs_view(r@) == subst_exprs(exprs_view(es@), self.to()),
        decreases es@, es@.len() + 1,
    {
        let mut out: Vec<Expr> = Vec::new();
        let mut i: usize = 0;
        while i < es.len()
            invariant
                i <= es.len(),
                out@.len() == i,
                forall|j: int|
                    0 <= j < i ==> (#[trigger] out@[j])@ == subst_expr(es@[j]@, self.to()),
            decreases es.len() - i,
        {
            out.push(self.expr(&es[i]));
            i += 1;
        }
        assert(exprs_view(out@) =~= subst_exprs(exprs_view(es@), self.to()));
        out
    }

    fn inits(&self, fs: &Vec<(String, Expr, u32)>) -> (r: Vec<(String, Expr, u32)>)
        ensures
            inits_view(r@) == subst_inits(inits_view(fs@), self.to()),
        decreases fs@, fs@.len() + 1,
    {
        let mut out: Vec<(String, Expr, u32)> = Vec::new();
        let mut i: usize = 0;
        while i < fs.len()
            invariant
                i <= fs.len(),
                out@.len() == i,
                forall|j: int|
                    0 <= j < i ==> (#[trigger] out@[j]).0@ == fs@[j].0@ && out@[j].1@ == subst_expr(
                        fs@[j].1@,
                        self.to(),
                    ) && out@[j].2 == fs@[j].2,
            decreases fs.len() - i,
        {
            out.push((fs[i].0.clone(), self.expr(&fs[i].1), fs[i].2));
            i += 1;
        }
        assert(inits_view(out@) =~= subst_inits(inits_view(fs@), self.to()));
        out
    }

    fn arms(&self, arms: &Vec<(Pattern, Expr)>) -> (r: Vec<(Pattern, Expr)>)
        ensures
            expr_arms_view(r@) == subst_arms(expr_arms_view(arms@), self.to()),
        decreases arms@, arms@.len() + 1,
    {
        let mut out: Vec<(Pattern, Expr)> = Vec::new();
        let mut i: usize = 0;
        while i < arms.len()
            invariant
                i <= arms.len(),
                out@.len() == i,
                forall|j: int|
                    0 <= j < i ==> (#[trigger] out@[j]).0@ == subst_pattern(
                        arms@[j].0@,
                        self.to(),
                    ) && out@[j].1@ == subst_expr(arms@[j].1@, self.to()),
            decreases arms.len() - i,
        {
            out.push((self.pattern(&arms[i].0), self.expr(&arms[i].1)));
            i += 1;
        }
        assert(expr_arms_view(out@) =~= subst_arms(expr_arms_view(arms@), self.to()));
        out
    }

    fn lambda(&self, lam: &LambdaDef) -> (r: LambdaDef)
        ensures
            r@ == subst_lambda(lam@, self.to()),
        decreases lam, 0nat,
    {
        LambdaDef {
            params: clone_params(&lam.params),
            ret: clone_opt_type_expr(&lam.ret),
            body: self.block(&lam.body),
            line: lam.line,
            id: lam.id,
            num_locals: lam.num_locals,
            captures: self.captures(&lam.captures),
        }
    }

    fn payload(&self, va: &VariantArgs) -> (r: VariantArgs)
        ensures
            r@ == subst_payload(va@, self.to()),
        decreases va, 0nat,
    {
        match va {
            VariantArgs::Bare => VariantArgs::Bare,
            VariantArgs::Single(a) => VariantArgs::Single(Box::new(self.expr(a))),
            VariantArgs::Fields(fs) => VariantArgs::Fields(self.inits(fs)),
        }
    }

    fn expr(&self, e: &Expr) -> (r: Expr)
        ensures
            r@ == subst_expr(e@, self.to()),
        decreases e, 0nat,
    {
        let kind = self.kind(&e.kind);
        Expr { kind, line: e.line, ty: self.ty(&e.ty) }
    }

    fn kind(&self, k: &ExprKind) -> (r: ExprKind)
        ensures
            r@ == subst_kind(k@, self.to()),
        decreases k, 0nat,
    {
        match k {
            ExprKind::Unary(op, a) => ExprKind::Unary(*op, Box::new(self.expr(a))),
            ExprKind::Cast(a, te) => ExprKind::Cast(Box::new(self.expr(a)), te.clone()),
            ExprKind::Field { obj, name, index } => ExprKind::Field {
                obj: Box::new(self.expr(obj)),
                name: name.clone(),
                index: *index,
            },
            ExprKind::Binary(op, a, b) => ExprKind::Binary(
                *op,
                Box::new(self.expr(a)),
                Box::new(self.expr(b)),
            ),
            ExprKind::Index(a, b) => ExprKind::Index(
                Box::new(self.expr(a)),
                Box::new(self.expr(b)),
            ),
            ExprKind::If { cond, then, els } => ExprKind::If {
                cond: Box::new(self.expr(cond)),
                then: Box::new(self.expr(then)),
                els: Box::new(self.expr(els)),
            },
            ExprKind::Call { callee, args, direct, inst } => ExprKind::Call {
                callee: Box::new(self.expr(callee)),
                args: self.exprs(args),
                direct: *direct,
                inst: self.types(inst),
            },
            ExprKind::Builtin(b, args) => ExprKind::Builtin(*b, self.exprs(args)),
            ExprKind::ArrayLit(args) => ExprKind::ArrayLit(self.exprs(args)),
            ExprKind::StructLit { name, fields, struct_id } => ExprKind::StructLit {
                name: name.clone(),
                fields: self.inits(fields),
                struct_id: *struct_id,
            },
            ExprKind::VariantStructLit { enum_name, variant, fields } =>
                ExprKind::VariantStructLit {
                enum_name: enum_name.clone(),
                variant: variant.clone(),
                fields: self.inits(fields),
            },
            ExprKind::VariantLit { args, enum_id, tag } => ExprKind::VariantLit {
                args: self.payload(args),
                enum_id: *enum_id,
                tag: *tag,
            },
            ExprKind::Match { scrutinee, arms } => ExprKind::Match {
                scrutinee: Box::new(self.expr(scrutinee)),
                arms: self.arms(arms),
            },
            ExprKind::Lambda(lam) => ExprKind::Lambda(Box::new(self.lambda(lam))),
            ExprKind::BoundMethod { obj, fid, inst } => ExprKind::BoundMethod {
                obj: Box::new(self.expr(obj)),
                fid: *fid,
                inst: self.types(inst),
            },
            ExprKind::Int(v) => ExprKind::Int(*v),
            ExprKind::Byte(v) => ExprKind::Byte(*v),
            ExprKind::Float(s) => ExprKind::Float(s.clone()),
            ExprKind::Bool(b) => ExprKind::Bool(*b),
            ExprKind::Str(s) => ExprKind::Str(s.clone()),
            ExprKind::Var { name, res } => ExprKind::Var { name: name.clone(), res: *res },
        }
    }
}

// -- Instances --------------------------------------------------------------

/// Side-table data for one lambda occurring in an instantiated body.
pub struct LambdaInst {
    pub locals: Vec<Type>,
    pub params: Vec<Type>,
    pub ret: Type,
}

/// A function body ready for code generation: a copy of the checked tree with
/// every type annotation substituted, plus substituted copies of the
/// checker's side tables.
pub struct Instance {
    pub def: FuncDef,
    pub locals: Vec<Type>,
    pub params: Vec<Type>,
    pub ret: Type,
    pub shapes: Vec<Shape>,
    /// By the checker-assigned (global) lambda id, in order of appearance.
    pub lambdas: Vec<(u32, LambdaInst)>,
    /// Display name for diagnostics, e.g. `map$r_w`.
    pub name: String,
}

#[verifier::ext_equal]
pub struct LambdaInstView {
    pub locals: Seq<TypeView>,
    pub params: Seq<TypeView>,
    pub ret: TypeView,
}

#[verifier::ext_equal]
pub struct InstanceView {
    pub def: FuncDefView,
    pub locals: Seq<TypeView>,
    pub params: Seq<TypeView>,
    pub ret: TypeView,
    pub shapes: Seq<Shape>,
    pub lambdas: Seq<(u32, LambdaInstView)>,
    pub name: Seq<char>,
}

impl LambdaInst {
    pub open spec fn view(&self) -> LambdaInstView {
        LambdaInstView {
            locals: types_view(self.locals@),
            params: types_view(self.params@),
            ret: self.ret@,
        }
    }
}

pub open spec fn lambda_insts_view(ls: Seq<(u32, LambdaInst)>) -> Seq<(u32, LambdaInstView)> {
    Seq::new(ls.len(), |i: int| (ls[i].0, ls[i].1@))
}

impl Instance {
    pub open spec fn view(&self) -> InstanceView {
        InstanceView {
            def: self.def@,
            locals: types_view(self.locals@),
            params: types_view(self.params@),
            ret: self.ret@,
            shapes: self.shapes@,
            lambdas: lambda_insts_view(self.lambdas@),
            name: self.name@,
        }
    }
}

/// The side-table data of the lambda with the given id.
pub open spec fn lambda_inst(checked: CheckedView, id: u32, args: Seq<TypeView>) -> LambdaInstView {
    let (params, ret) = checked.lambda_sigs[id as int];
    LambdaInstView {
        locals: TypeView::subst_all(checked.lambda_locals[id as int], args),
        params: TypeView::subst_all(params, args),
        ret: ret.subst(args),
    }
}

/// The side-table data of the lambdas from index `i` on; one that the checker
/// has no tables for has none here.
pub open spec fn lambda_table(
    lams: Seq<LambdaDefView>,
    checked: CheckedView,
    args: Seq<TypeView>,
    i: nat,
) -> Seq<(u32, LambdaInstView)>
    decreases lams.len() - i,
{
    if i >= lams.len() {
        Seq::empty()
    } else {
        let id = lams[i as int].id;
        if id < checked.lambda_sigs.len() && id < checked.lambda_locals.len() {
            seq![(id, lambda_inst(checked, id, args))] + lambda_table(lams, checked, args, i + 1)
        } else {
            lambda_table(lams, checked, args, i + 1)
        }
    }
}

/// The instantiation of function `fid` at the given argument shapes.
pub open spec fn instance_of(
    fid: u32,
    def: FuncDefView,
    checked: CheckedView,
    shapes: Seq<Shape>,
) -> InstanceView {
    let args = representatives(shapes);
    let sig = checked.funcs[fid as int];
    let body = subst_block(def.body, args);
    InstanceView {
        def: FuncDefView { body, ..def },
        locals: TypeView::subst_all(checked.func_locals[fid as int], args),
        params: TypeView::subst_all(sig.params, args),
        ret: sig.ret.subst(args),
        shapes,
        lambdas: lambda_table(lambdas_in_block(body), checked, args, 0),
        name: def.name + suffix_text(shapes),
    }
}

fn lambda_tables(lams: &Vec<&LambdaDef>, checked: &Checked, args: &Vec<Type>) -> (r: Vec<
    (u32, LambdaInst),
>)
    ensures
        lambda_insts_view(r@) == lambda_table(
            lambda_refs_view(lams@),
            checked@,
            types_view(args@),
            0,
        ),
{
    let ghost all = lambda_refs_view(lams@);
    let ghost to = types_view(args@);
    let mut out: Vec<(u32, LambdaInst)> = Vec::new();
    let mut i: usize = 0;
    assert(lambda_insts_view(out@) + lambda_table(all, checked@, to, 0) =~= lambda_table(
        all,
        checked@,
        to,
        0,
    ));
    while i < lams.len()
        invariant
            i <= lams.len(),
            all == lambda_refs_view(lams@),
            to == types_view(args@),
            lambda_insts_view(out@) + lambda_table(all, checked@, to, i as nat) == lambda_table(
                all,
                checked@,
                to,
                0,
            ),
        decreases lams.len() - i,
    {
        assert(all[i as int] == lams@[i as int]@);
        let ghost before = lambda_insts_view(out@);
        let id = lams[i].id;
        if (id as usize) < checked.lambda_sigs.len() && (id as usize)
            < checked.lambda_locals.len() {
            let sig = &checked.lambda_sigs[id as usize];
            assert(checked@.lambda_sigs[id as int] == (types_view(sig.0@), sig.1@));
            assert(checked@.lambda_locals[id as int] == types_view(
                checked.lambda_locals@[id as int]@,
            ));
            let inst = LambdaInst {
                locals: Type::subst_each(&checked.lambda_locals[id as usize], args.as_slice()),
                params: Type::subst_each(&sig.0, args.as_slice()),
                ret: sig.1.subst(args.as_slice()),
            };
            let ghost entry = (id, inst@);
            out.push((id, inst));
            assert(lambda_insts_view(out@) =~= before + seq![entry]);
        }
        assert(lambda_insts_view(out@) + lambda_table(all, checked@, to, i as nat + 1) =~= before
            + lambda_table(all, checked@, to, i as nat));
        i += 1;
    }
    assert(lambda_insts_view(out@) =~= lambda_insts_view(out@) + lambda_table(
        all,
        checked@,
        to,
        i as nat,
    ));
    out
}

pub fn instantiate(fid: u32, def: &FuncDef, checked: &Checked, shapes: Vec<Shape>) -> (r: Instance)
    requires
        fid < checked@.funcs.len(),
        fid < checked@.func_locals.len(),
    ensures
        r@ == instance_of(fid, def@, checked@, shapes@),
{
    let args = canonical_all(&shapes);
    let w = Subst { args: &args };
    let body = w.block(&def.body);
    let lams = collect_lambdas(&body);
    let lambdas = lambda_tables(&lams, checked, &args);
    let sig = &checked.funcs[fid as usize];
    assert(checked@.funcs[fid as int] == sig@);
    assert(checked@.func_locals[fid as int] == types_view(checked.func_locals@[fid as int]@));
    let name = cat2(def.name.as_str(), suffix(shapes.as_slice()).as_str());
    Instance {
        locals: w.types(&checked.func_locals[fid as usize]),
        params: w.types(&sig.params),
        ret: w.ty(&sig.ret),
        name,
        lambdas,
        shapes,
        def: FuncDef {
            name: def.name.clone(),
            type_params: clone_names(&def.type_params),
            params: clone_params(&def.params),
            ret: clone_opt_type_expr(&def.ret),
            body,
            line: def.line,
            num_locals: def.num_locals,
            is_method: def.is_method,
        },
    }
}

} // verus!
