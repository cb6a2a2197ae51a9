//! Semantic types, the tables of declared types, and the layout of fields.
use vstd::prelude::*;

use crate::text::{cat3, cat4, dec, dec_text, join, join_text, names_view, owned, str_eq};

verus! {

// -- Integer kinds ----------------------------------------------------------

/// A sized integer type. `int` is an alias for `I64`.
#[derive(Debug, Clone, Copy, PartialEq, Eq, Structural)]
pub enum IntKind {
    I8,
    U8,
    I16,
    U16,
    I32,
    U32,
    I64,
    U64,
}

impl IntKind {
    pub open spec fn spec_name(self) -> Seq<char> {
        match self {
            IntKind::I8 => "i8"@,
            IntKind::U8 => "u8"@,
            IntKind::I16 => "i16"@,
            IntKind::U16 => "u16"@,
            IntKind::I32 => "i32"@,
            IntKind::U32 => "u32"@,
            IntKind::I64 => "int"@,
            IntKind::U64 => "u64"@,
        }
    }

    /// The kind that a type name denotes: each kind's own name, and `i64` for `int`.
    pub open spec fn named(name: Seq<char>) -> Option<IntKind> {
        if name == "i8"@ {
            Some(IntKind::I8)
        } else if name == "u8"@ {
            Some(IntKind::U8)
        } else if name == "i16"@ {
            Some(IntKind::I16)
        } else if name == "u16"@ {
            Some(IntKind::U16)
        } else if name == "i32"@ {
            Some(IntKind::I32)
        } else if name == "u32"@ {
            Some(IntKind::U32)
        } else if name == "int"@ || name == "i64"@ {
            Some(IntKind::I64)
        } else if name == "u64"@ {
            Some(IntKind::U64)
        } else {
            None
        }
    }

    pub open spec fn is_signed(self) -> bool {
        self is I8 || self is I16 || self is I32 || self is I64
    }

    pub open spec fn width(self) -> u32 {
        match self {
            IntKind::I8 | IntKind::U8 => 8,
            IntKind::I16 | IntKind::U16 => 16,
            IntKind::I32 | IntKind::U32 => 32,
            IntKind::I64 | IntKind::U64 => 64,
        }
    }

    pub open spec fn lowest(self) -> int {
        match self {
            IntKind::I8 => -0x80,
            IntKind::I16 => -0x8000,
            IntKind::I32 => -0x8000_0000,
            IntKind::I64 => -0x8000_0000_0000_0000,
            _ => 0,
        }
    }

    pub open spec fn highest(self) -> int {
        match self {
            IntKind::I8 => 0x7f,
            IntKind::U8 => 0xff,
            IntKind::I16 => 0x7fff,
            IntKind::U16 => 0xffff,
            IntKind::I32 => 0x7fff_ffff,
            IntKind::U32 => 0xffff_ffff,
            IntKind::I64 => 0x7fff_ffff_ffff_ffff,
            IntKind::U64 => 0xffff_ffff_ffff_ffff,
        }
    }

    /// Is `v` a value of this kind?
    pub open spec fn holds(self, v: int) -> bool {
        self.lowest() <= v <= self.highest()
    }

    pub fn from_name(name: &str) -> (r: Option<IntKind>)
        ensures
            r == IntKind::named(name@),
    {
        if str_eq(name, "i8") {
            Some(IntKind::I8)
        } else if str_eq(name, "u8") {
            Some(IntKind::U8)
        } else if str_eq(name, "i16") {
            Some(IntKind::I16)
        } else if str_eq(name, "u16") {
            Some(IntKind::U16)
        } else if str_eq(name, "i32") {
            Some(IntKind::I32)
        } else if str_eq(name, "u32") {
            Some(IntKind::U32)
        } else if str_eq(name, "int") || str_eq(name, "i64") {
            Some(IntKind::I64)
        } else if str_eq(name, "u64") {
            Some(IntKind::U64)
        } else {
            None
        }
    }

    pub fn name(self) -> (r: &'static str)
        ensures
            r@ == self.spec_name(),
    {
        match self {
            IntKind::I8 => "i8",
            IntKind::U8 => "u8",
            IntKind::I16 => "i16",
            IntKind::U16 => "u16",
            IntKind::I32 => "i32",
            IntKind::U32 => "u32",
            IntKind::I64 => "int",
            IntKind::U64 => "u64",
        }
    }

    pub fn signed(self) -> (r: bool)
        ensures
            r == self.is_signed(),
    {
        matches!(self, IntKind::I8 | IntKind::I16 | IntKind::I32 | IntKind::I64)
    }

    pub fn bits(self) -> (r: u32)
        ensures
            r == self.width(),
    {
        match self {
            IntKind::I8 | IntKind::U8 => 8,
            IntKind::I16 | IntKind::U16 => 16,
            IntKind::I32 | IntKind::U32 => 32,
            IntKind::I64 | IntKind::U64 => 64,
        }
    }

    /// Storage size in bytes (also the alignment).
    pub fn size(self) -> (r: u32)
        ensures
            r == self.width() / 8,
    {
        self.bits() / 8
    }

    /// The least value of the kind.
    pub fn min(self) -> (r: i128)
        ensures
            r == self.lowest(),
    {
        match self {
            IntKind::I8 => -0x80,
            IntKind::I16 => -0x8000,
            IntKind::I32 => -0x8000_0000,
            IntKind::I64 => -0x8000_0000_0000_0000,
            _ => 0,
        }
    }

    /// The greatest value of the kind.
    pub fn max(self) -> (r: i128)
        ensures
            r == self.highest(),
    {
        match self {
            IntKind::I8 => 0x7f,
            IntKind::U8 => 0xff,
            IntKind::I16 => 0x7fff,
            IntKind::U16 => 0xffff,
            IntKind::I32 => 0x7fff_ffff,
            IntKind::U32 => 0xffff_ffff,
            IntKind::I64 => 0x7fff_ffff_ffff_ffff,
            IntKind::U64 => 0xffff_ffff_ffff_ffff,
        }
    }

    pub fn contains(self, v: i128) -> (r: bool)
        ensures
            r == self.holds(v as int),
    {
        v >= self.min() && v <= self.max()
    }
}

/// A kind's name names that kind again.
pub proof fn law_kind_name_round_trip(k: IntKind)
    ensures
        IntKind::named(k.spec_name()) == Some(k),
{
    reveal_strlit("i8");
    reveal_strlit("u8");
    reveal_strlit("i16");
    reveal_strlit("u16");
    reveal_strlit("i32");
    reveal_strlit("u32");
    reveal_strlit("int");
    reveal_strlit("i64");
    reveal_strlit("u64");
    assert("i8"@[0] != "u8"@[0]);
    assert("i16"@[1] != "i32"@[1]);
    assert("i16"@[1] != "i64"@[1]);
    assert("u16"@[1] != "u32"@[1]);
    assert("u16"@[1] != "u64"@[1]);
    assert("i32"@[1] != "i64"@[1]);
    assert("u32"@[1] != "u64"@[1]);
    assert("i16"@[0] != "u16"@[0]);
    assert("i16"@[0] != "u32"@[0]);
    assert("i16"@[0] != "u64"@[0]);
    assert("i32"@[0] != "u16"@[0]);
    assert("i32"@[0] != "u32"@[0]);
    assert("i32"@[0] != "u64"@[0]);
    assert("int"@[1] != "i16"@[1]);
    assert("int"@[1] != "i32"@[1]);
    assert("int"@[0] != "u16"@[0]);
    assert("int"@[0] != "u32"@[0]);
    assert("int"@[0] != "u64"@[0]);
    assert("i64"@[0] != "u64"@[0]);
}

/// The range of a kind holds two to the power of its width values, and starts
/// at zero exactly for the unsigned kinds.
pub proof fn law_kind_range(k: IntKind)
    ensures
        k.highest() - k.lowest() + 1 == vstd::arithmetic::power2::pow2(k.width() as nat),
        k.is_signed() <==> k.lowest() < 0,
        k.is_signed() ==> k.lowest() == -(k.highest() + 1),
{
    vstd::arithmetic::power2::lemma2_to64();
    vstd::arithmetic::power2::lemma2_to64_rest();
}

// -- Types ------------------------------------------------------------------

#[derive(Debug, PartialEq)]
pub enum Type {
    /// Placeholder before checking.
    Unknown,
    Unit,
    Int(IntKind),
    Float,
    Bool,
    Str,
    /// Struct definition id plus type arguments (empty for a non-generic
    /// struct).
    Struct(u32, Vec<Type>),
    /// Enum definition id plus type arguments.
    Enum(u32, Vec<Type>),
    Array(Box<Type>),
    Fn(Vec<Type>, Box<Type>),
    /// A type parameter of the enclosing generic declaration, by index.
    /// Opaque during checking; instantiation substitutes it away before any
    /// layout or calling-convention decision.
    Param(u32),
}

/// A type as a mathematical value.
#[verifier::ext_equal]
pub enum TypeView {
    Unknown,
    Unit,
    Int(IntKind),
    Float,
    Bool,
    Str,
    Struct(u32, Seq<TypeView>),
    Enum(u32, Seq<TypeView>),
    Array(Box<TypeView>),
    Fn(Seq<TypeView>, Box<TypeView>),
    Param(u32),
}

pub open spec fn types_view(ts: Seq<Type>) -> Seq<TypeView>
    decreases ts,
{
    Seq::new(ts.len(), |i: int| if 0 <= i < ts.len() { ts[i].view() } else { arbitrary() })
}

pub open spec fn opt_type_view(t: Option<Type>) -> Option<TypeView> {
    match t {
        Some(t) => Some(t@),
        None => None,
    }
}

pub open spec fn opt_types_view(ts: Seq<Option<Type>>) -> Seq<Option<TypeView>> {
    Seq::new(ts.len(), |i: int| opt_type_view(ts[i]))
}

/// An expected type handed down by reference.
pub open spec fn expect_view(t: Option<&Type>) -> Option<TypeView> {
    match t {
        Some(t) => Some(t@),
        None => None,
    }
}

impl TypeView {
    /// The type of heap pointers, which the collector must track.
    pub open spec fn is_reference(self) -> bool {
        self is Str || self is Struct || self is Enum || self is Array || self is Fn
    }

    /// Storage size in bytes of a field or array element.
    pub open spec fn storage(self) -> u32 {
        match self {
            TypeView::Int(k) => (k.width() / 8) as u32,
            TypeView::Bool => 1,
            _ => 8,
        }
    }

    /// The type with each parameter replaced by the argument at its index. A
    /// parameter without an argument stays.
    pub open spec fn subst(self, args: Seq<TypeView>) -> TypeView
        decreases self, 0nat,
    {
        match self {
            TypeView::Param(i) => if i < args.len() {
                args[i as int]
            } else {
                self
            },
            TypeView::Array(elem) => TypeView::Array(Box::new(elem.subst(args))),
            TypeView::Fn(params, ret) => TypeView::Fn(
                TypeView::subst_all(params, args),
                Box::new(ret.subst(args)),
            ),
            TypeView::Struct(id, targs) => TypeView::Struct(id, TypeView::subst_all(targs, args)),
            TypeView::Enum(id, targs) => TypeView::Enum(id, TypeView::subst_all(targs, args)),
            t => t,
        }
    }

    pub open spec fn subst_all(ts: Seq<TypeView>, args: Seq<TypeView>) -> Seq<TypeView>
        decreases ts, 1nat,
    {
        Seq::new(
            ts.len(),
            |i: int| if 0 <= i < ts.len() { ts[i].subst(args) } else { arbitrary() },
        )
    }

    /// Does the type mention a parameter with an index below `hi` and not below `lo`?
    pub open spec fn mentions(self, lo: int, hi: int) -> bool
        decreases self, 0nat,
    {
        match self {
            TypeView::Param(i) => lo <= i < hi,
            TypeView::Array(elem) => elem.mentions(lo, hi),
            TypeView::Fn(params, ret) => TypeView::any_mentions(params, lo, hi) || ret.mentions(
                lo,
                hi,
            ),
            TypeView::Struct(_, targs) => TypeView::any_mentions(targs, lo, hi),
            TypeView::Enum(_, targs) => TypeView::any_mentions(targs, lo, hi),
            _ => false,
        }
    }

    pub open spec fn any_mentions(ts: Seq<TypeView>, lo: int, hi: int) -> bool
        decreases ts, 1nat,
    {
        exists|i: int| 0 <= i < ts.len() && (#[trigger] ts[i]).mentions(lo, hi)
    }

    /// Does the type mention any type parameter?
    pub open spec fn generic(self) -> bool {
        self.mentions(0, 0x1_0000_0000)
    }

    /// The type as it stands in diagnostics.
    pub open spec fn text(
        self,
        structs: Seq<StructInfoView>,
        enums: Seq<EnumInfoView>,
        params: Seq<Seq<char>>,
    ) -> Seq<char>
        decreases self, 0nat,
    {
        match self {
            TypeView::Unknown => "<unknown>"@,
            TypeView::Unit => "unit"@,
            TypeView::Int(k) => k.spec_name(),
            TypeView::Float => "float"@,
            TypeView::Bool => "bool"@,
            TypeView::Str => "string"@,
            TypeView::Param(i) => if i < params.len() {
                params[i as int]
            } else {
                "<param "@ + dec_text(i as nat) + ">"@
            },
            TypeView::Struct(id, targs) => applied_text(
                struct_name(structs, id),
                TypeView::texts(targs, structs, enums, params),
            ),
            TypeView::Enum(id, targs) => applied_text(
                enum_name(enums, id),
                TypeView::texts(targs, structs, enums, params),
            ),
            TypeView::Array(elem) => "["@ + elem.text(structs, enums, params) + "]"@,
            TypeView::Fn(ps, ret) => {
                let head = "fn("@ + join_text(TypeView::texts(ps, structs, enums, params), ", "@)
                    + ")"@;
                if *ret == TypeView::Unit {
                    head
                } else {
                    head + ": "@ + ret.text(structs, enums, params)
                }
            },
        }
    }

    pub open spec fn texts(
        ts: Seq<TypeView>,
        structs: Seq<StructInfoView>,
        enums: Seq<EnumInfoView>,
        params: Seq<Seq<char>>,
    ) -> Seq<Seq<char>>
        decreases ts, 1nat,
    {
        Seq::new(
            ts.len(),
            |i: int|
                if 0 <= i < ts.len() {
                    ts[i].text(structs, enums, params)
                } else {
                    arbitrary()
                },
        )
    }
}

/// A name applied to type arguments: `Name<a, b>`, or just `Name` without any.
pub open spec fn applied_text(name: Seq<char>, args: Seq<Seq<char>>) -> Seq<char> {
    if args.len() == 0 {
        name
    } else {
        name + "<"@ + join_text(args, ", "@) + ">"@
    }
}

/// The declared name of a struct; a placeholder for an id that no struct has.
pub open spec fn struct_name(structs: Seq<StructInfoView>, id: u32) -> Seq<char> {
    if id < structs.len() {
        structs[id as int].name
    } else {
        "<struct "@ + dec_text(id as nat) + ">"@
    }
}

/// The declared name of an enum; a placeholder for an id that no enum has.
pub open spec fn enum_name(enums: Seq<EnumInfoView>, id: u32) -> Seq<char> {
    if id < enums.len() {
        enums[id as int].name
    } else {
        "<enum "@ + dec_text(id as nat) + ">"@
    }
}

impl Type {
    /// `int`, the default integer type.
    pub fn int_type() -> (r: Type)
        ensures
            r@ == TypeView::Int(IntKind::I64),
    {
        Type::Int(IntKind::I64)
    }

    pub open spec fn view(&self) -> TypeView
        decreases self,
    {
        match self {
            Type::Unknown => TypeView::Unknown,
            Type::Unit => TypeView::Unit,
            Type::Int(k) => TypeView::Int(*k),
            Type::Float => TypeView::Float,
            Type::Bool => TypeView::Bool,
            Type::Str => TypeView::Str,
            Type::Struct(id, ts) => TypeView::Struct(*id, types_view(ts@)),
            Type::Enum(id, ts) => TypeView::Enum(*id, types_view(ts@)),
            Type::Array(t) => TypeView::Array(Box::new(t.view())),
            Type::Fn(ps, r) => TypeView::Fn(types_view(ps@), Box::new(r.view())),
            Type::Param(i) => TypeView::Param(*i),
        }
    }

    /// Reference types are heap pointers the collector must track. A bare
    /// type parameter is *not* a reference: it is opaque during checking and
    /// never survives to code generation.
    pub fn is_ref(&self) -> (r: bool)
        ensures
            r == self@.is_reference(),
    {
        matches!(
            self,
            Type::Str | Type::Struct(..) | Type::Enum(..) | Type::Array(_) | Type::Fn(..)
        )
    }

    /// May a slot of this type hold the null word? Exactly the reference
    /// slots may.
    pub fn accepts_nil(&self) -> (r: bool)
        ensures
            r == self@.is_reference(),
    {
        self.is_ref()
    }

    pub fn int_kind(&self) -> (r: Option<IntKind>)
        ensures
            r == (match self@ {
                TypeView::Int(k) => Some(k),
                _ => None,
            }),
    {
        match self {
            Type::Int(k) => Some(*k),
            _ => None,
        }
    }

    /// Storage size in bytes for a struct field or array element (also its
    /// alignment). Sized integers use their natural size, `bool` is one byte,
    /// and everything else occupies 8 bytes.
    pub fn size_bytes(&self) -> (r: u32)
        requires
            !(self@ is Param),
        ensures
            r == self@.storage(),
    {
        match self {
            Type::Int(k) => k.size(),
            Type::Bool => 1,
            _ => 8,
        }
    }

    /// Substitute type parameters with an instantiation's type arguments.
    pub fn subst(&self, args: &[Type]) -> (r: Type)
        ensures
            r@ == self@.subst(types_view(args@)),
        decreases self, 0nat,
    {
        match self {
            Type::Param(i) => {
                if (*i as usize) < args.len() {
                    args[*i as usize].clone()
                } else {
                    Type::Param(*i)
                }
            },
            Type::Array(elem) => Type::Array(Box::new(elem.subst(args))),
            Type::Fn(params, ret) => Type::Fn(
                Type::subst_each(params, args),
                Box::new(ret.subst(args)),
            ),
            Type::Struct(id, targs) => Type::Struct(*id, Type::subst_each(targs, args)),
            Type::Enum(id, targs) => Type::Enum(*id, Type::subst_each(targs, args)),
            Type::Unknown => Type::Unknown,
            Type::Unit => Type::Unit,
            Type::Int(k) => Type::Int(*k),
            Type::Float => Type::Float,
            Type::Bool => Type::Bool,
            Type::Str => Type::Str,
        }
    }

    /// Substitute in every type of a list.
    pub fn subst_each(ts: &Vec<Type>, args: &[Type]) -> (r: Vec<Type>)
        ensures
            types_view(r@) == TypeView::subst_all(types_view(ts@), types_view(args@)),
        decreases ts, 1nat,
    {
        let mut out: Vec<Type> = Vec::new();
        let mut i: usize = 0;
        while i < ts.len()
            invariant
                i <= ts.len(),
                out.len() == i,
                forall|j: int| 0 <= j < i ==> out@[j]@ == ts@[j]@.subst(types_view(args@)),
            decreases ts.len() - i,
        {
            out.push(ts[i].subst(args));
            i += 1;
        }
        assert(types_view(out@) =~= TypeView::subst_all(types_view(ts@), types_view(args@)));
        out
    }

    /// Does this type mention any type parameter?
    pub fn has_param(&self) -> (r: bool)
        ensures
            r == self@.generic(),
        decreases self, 0nat,
    {
        match self {
            Type::Param(_) => true,
            Type::Array(elem) => elem.has_param(),
            Type::Fn(params, ret) => Type::any_has_param(params) || ret.has_param(),
            Type::Struct(_, targs) => Type::any_has_param(targs),
            Type::Enum(_, targs) => Type::any_has_param(targs),
            _ => false,
        }
    }

    fn any_has_param(ts: &Vec<Type>) -> (r: bool)
        ensures
            r == TypeView::any_mentions(types_view(ts@), 0, 0x1_0000_0000),
        decreases ts, 1nat,
    {
        let mut i: usize = 0;
        while i < ts.len()
            invariant
                i <= ts.len(),
                forall|j: int| 0 <= j < i ==> !(#[trigger] types_view(ts@)[j]).generic(),
            decreases ts.len() - i,
        {
            assert(types_view(ts@)[i as int] == ts@[i as int]@);
            if ts[i].has_param() {
                return true;
            }
            i += 1;
        }
        false
    }

    pub fn display<'a>(
        &'a self,
        structs: &'a [StructInfo],
        enums: &'a [EnumInfo],
        params: &'a [String],
    ) -> (r: TypeDisplay<'a>)
        ensures
            r@ == self@.text(structs_view(structs@), enums_view(enums@), names_view(params@)),
    {
        TypeDisplay { ty: self, structs, enums, params }
    }

    /// Are two types the same?
    pub fn same(&self, other: &Type) -> (r: bool)
        ensures
            r == (self@ == other@),
        decreases self, 0nat,
    {
        match (self, other) {
            (Type::Unknown, Type::Unknown) => true,
            (Type::Unit, Type::Unit) => true,
            (Type::Int(a), Type::Int(b)) => *a == *b,
            (Type::Float, Type::Float) => true,
            (Type::Bool, Type::Bool) => true,
            (Type::Str, Type::Str) => true,
            (Type::Struct(i, a), Type::Struct(j, b)) => *i == *j && Type::same_all(a, b),
            (Type::Enum(i, a), Type::Enum(j, b)) => *i == *j && Type::same_all(a, b),
            (Type::Array(a), Type::Array(b)) => a.same(b),
            (Type::Fn(a, p), Type::Fn(b, q)) => Type::same_all(a, b) && p.same(q),
            (Type::Param(i), Type::Param(j)) => *i == *j,
            _ => false,
        }
    }

    /// Are two lists of types the same?
    pub fn same_all(a: &Vec<Type>, b: &Vec<Type>) -> (r: bool)
        ensures
            r == (types_view(a@) == types_view(b@)),
        decreases a, 1nat,
    {
        if a.len() != b.len() {
            assert(types_view(a@).len() != types_view(b@).len());
            return false;
        }
        let mut i: usize = 0;
        while i < a.len()
            invariant
                i <= a.len(),
                a.len() == b.len(),
                forall|j: int| 0 <= j < i ==> a@[j]@ == b@[j]@,
            decreases a.len() - i,
        {
            if !a[i].same(&b[i]) {
                assert(types_view(a@)[i as int] != types_view(b@)[i as int]);
                return false;
            }
            i += 1;
        }
        assert(types_view(a@) =~= types_view(b@));
        true
    }

    pub fn clone_all(ts: &Vec<Type>) -> (r: Vec<Type>)
        ensures
            types_view(r@) == types_view(ts@),
        decreases ts, 1nat,
    {
        let mut out: Vec<Type> = Vec::new();
        let mut i: usize = 0;
        while i < ts.len()
            invariant
                i <= ts.len(),
                out.len() == i,
                forall|j: int| 0 <= j < i ==> out@[j]@ == ts@[j]@,
            decreases ts.len() - i,
        {
            out.push(ts[i].clone());
            i += 1;
        }
        assert(types_view(out@) =~= types_view(ts@));
        out
    }
}

impl Clone for Type {
    fn clone(&self) -> (r: Type)
        ensures
            r@ == self@,
        decreases self, 0nat,
    {
        match self {
            Type::Unknown => Type::Unknown,
            Type::Unit => Type::Unit,
            Type::Int(k) => Type::Int(*k),
            Type::Float => Type::Float,
            Type::Bool => Type::Bool,
            Type::Str => Type::Str,
            Type::Struct(id, ts) => Type::Struct(*id, Type::clone_all(ts)),
            Type::Enum(id, ts) => Type::Enum(*id, Type::clone_all(ts)),
            Type::Array(t) => Type::Array(Box::new((&**t).clone())),
            Type::Fn(ps, r) => Type::Fn(Type::clone_all(ps), Box::new((&**r).clone())),
            Type::Param(i) => Type::Param(*i),
        }
    }
}

/// The types of a list after the first one.
pub fn types_after_first(ts: &Vec<Type>) -> (r: Vec<Type>)
    requires
        ts@.len() > 0,
    ensures
        types_view(r@) == types_view(ts@).skip(1),
{
    let mut out: Vec<Type> = Vec::new();
    let mut i: usize = 1;
    while i < ts.len()
        invariant
            1 <= i <= ts.len(),
            out@.len() == i - 1,
            forall|j: int| 0 <= j < i - 1 ==> (#[trigger] out@[j])@ == ts@[j + 1]@,
        decreases ts.len() - i,
    {
        out.push(ts[i].clone());
        i += 1;
    }
    assert(types_view(out@) =~= types_view(ts@).skip(1));
    out
}

// -- Substitution laws ------------------------------------------------------

/// Substitution leaves a type without parameters as it is.
pub proof fn law_subst_closed(t: TypeView, args: Seq<TypeView>)
    requires
        !t.generic(),
    ensures
        t.subst(args) == t,
    decreases t, 0nat,
{
    match t {
        TypeView::Array(elem) => law_subst_closed(*elem, args),
        TypeView::Fn(ps, ret) => {
            lemma_subst_closed_all(ps, args);
            law_subst_closed(*ret, args);
        },
        TypeView::Struct(_, ts) => lemma_subst_closed_all(ts, args),
        TypeView::Enum(_, ts) => lemma_subst_closed_all(ts, args),
        _ => {},
    }
}

pub proof fn lemma_subst_closed_all(ts: Seq<TypeView>, args: Seq<TypeView>)
    requires
        !TypeView::any_mentions(ts, 0, 0x1_0000_0000),
    ensures
        TypeView::subst_all(ts, args) == ts,
    decreases ts, 1nat,
{
    assert forall|i: int| 0 <= i < ts.len() implies (#[trigger] ts[i]).subst(args) == ts[i] by {
        assert(!ts[i].mentions(0, 0x1_0000_0000));
        law_subst_closed(ts[i], args);
    }
    assert(TypeView::subst_all(ts, args) =~= ts);
}

/// Substituting arguments without parameters for every parameter that occurs
/// leaves no parameter behind.
pub proof fn law_subst_eliminates(t: TypeView, args: Seq<TypeView>)
    requires
        forall|i: int| 0 <= i < args.len() ==> !(#[trigger] args[i]).generic(),
        !t.mentions(args.len() as int, 0x1_0000_0000),
    ensures
        !t.subst(args).generic(),
    decreases t, 0nat,
{
    match t {
        TypeView::Array(elem) => law_subst_eliminates(*elem, args),
        TypeView::Fn(ps, ret) => {
            lemma_subst_eliminates_all(ps, args);
            law_subst_eliminates(*ret, args);
        },
        TypeView::Struct(_, ts) => lemma_subst_eliminates_all(ts, args),
        TypeView::Enum(_, ts) => lemma_subst_eliminates_all(ts, args),
        _ => {},
    }
}

pub proof fn lemma_subst_eliminates_all(ts: Seq<TypeView>, args: Seq<TypeView>)
    requires
        forall|i: int| 0 <= i < args.len() ==> !(#[trigger] args[i]).generic(),
        !TypeView::any_mentions(ts, args.len() as int, 0x1_0000_0000),
    ensures
        !TypeView::any_mentions(TypeView::subst_all(ts, args), 0, 0x1_0000_0000),
    decreases ts, 1nat,
{
    assert forall|i: int| 0 <= i < ts.len() implies !(#[trigger] TypeView::subst_all(
        ts,
        args,
    )[i]).mentions(0, 0x1_0000_0000) by {
        assert(!ts[i].mentions(args.len() as int, 0x1_0000_0000));
        law_subst_eliminates(ts[i], args);
    }
}

// -- Declared types ---------------------------------------------------------

/// A struct *definition*. Field types may contain `Type::Param` indices
/// into `type_params`; per-instantiation layout (offsets, payload size,
/// collector descriptor) is computed during code generation.
#[derive(Debug)]
pub struct StructInfo {
    pub name: String,
    pub type_params: Vec<String>,
    pub fields: Vec<(String, Type)>,
    pub line: u32,
}

#[verifier::ext_equal]
pub struct StructInfoView {
    pub name: Seq<char>,
    pub type_params: Seq<Seq<char>>,
    pub fields: Seq<(Seq<char>, TypeView)>,
    pub line: u32,
}

pub open spec fn typed_names_view(fs: Seq<(String, Type)>) -> Seq<(Seq<char>, TypeView)> {
    Seq::new(fs.len(), |i: int| (fs[i].0@, fs[i].1@))
}

/// The names in a list of named types.
pub open spec fn field_names(fs: Seq<(Seq<char>, TypeView)>) -> Seq<Seq<char>> {
    Seq::new(fs.len(), |i: int| fs[i].0)
}

/// The types in a list of named types.
pub open spec fn field_types(fs: Seq<(Seq<char>, TypeView)>) -> Seq<TypeView> {
    Seq::new(fs.len(), |i: int| fs[i].1)
}

impl StructInfo {
    pub open spec fn view(&self) -> StructInfoView {
        StructInfoView {
            name: self.name@,
            type_params: names_view(self.type_params@),
            fields: typed_names_view(self.fields@),
            line: self.line,
        }
    }
}

pub open spec fn structs_view(ss: Seq<StructInfo>) -> Seq<StructInfoView> {
    Seq::new(ss.len(), |i: int| ss[i]@)
}

/// What a variant carries: nothing, one value, or named fields stored inline.
#[derive(Debug)]
pub enum VariantPayload {
    Bare,
    Single(Type),
    Fields(Vec<(String, Type)>),
}

#[verifier::ext_equal]
pub enum VariantPayloadView {
    Bare,
    Single(TypeView),
    Fields(Seq<(Seq<char>, TypeView)>),
}

impl VariantPayload {
    pub open spec fn view(&self) -> VariantPayloadView {
        match self {
            VariantPayload::Bare => VariantPayloadView::Bare,
            VariantPayload::Single(t) => VariantPayloadView::Single(t@),
            VariantPayload::Fields(fs) => VariantPayloadView::Fields(typed_names_view(fs@)),
        }
    }
}

/// An enum *definition*; a variant's tag is its declaration index.
#[derive(Debug)]
pub struct EnumInfo {
    pub name: String,
    pub type_params: Vec<String>,
    pub variants: Vec<(String, VariantPayload)>,
    pub line: u32,
}

#[verifier::ext_equal]
pub struct EnumInfoView {
    pub name: Seq<char>,
    pub type_params: Seq<Seq<char>>,
    pub variants: Seq<(Seq<char>, VariantPayloadView)>,
    pub line: u32,
}

pub open spec fn variants_view(vs: Seq<(String, VariantPayload)>) -> Seq<
    (Seq<char>, VariantPayloadView),
> {
    Seq::new(vs.len(), |i: int| (vs[i].0@, vs[i].1@))
}

pub open spec fn variant_names(vs: Seq<(Seq<char>, VariantPayloadView)>) -> Seq<Seq<char>> {
    Seq::new(vs.len(), |i: int| vs[i].0)
}

impl EnumInfoView {
    /// Does no variant carry a value?
    pub open spec fn all_bare(self) -> bool {
        forall|i: int| 0 <= i < self.variants.len() ==> (#[trigger] self.variants[i]).1 is Bare
    }
}

impl EnumInfo {
    pub open spec fn view(&self) -> EnumInfoView {
        EnumInfoView {
            name: self.name@,
            type_params: names_view(self.type_params@),
            variants: variants_view(self.variants@),
            line: self.line,
        }
    }

    /// Does no variant carry a value? Values of such an enum are shared
    /// singletons, so identity is equality.
    pub fn is_bare(&self) -> (r: bool)
        ensures
            r == self@.all_bare(),
    {
        let mut i: usize = 0;
        while i < self.variants.len()
            invariant
                i <= self.variants.len(),
                forall|j: int| 0 <= j < i ==> (#[trigger] self@.variants[j]).1 is Bare,
            decreases self.variants.len() - i,
        {
            assert(self@.variants[i as int] == (self.variants@[i as int].0@, self.variants@[i as int].1@));
            if !matches!(self.variants[i].1, VariantPayload::Bare) {
                return false;
            }
            i += 1;
        }
        true
    }
}

pub open spec fn enums_view(es: Seq<EnumInfo>) -> Seq<EnumInfoView> {
    Seq::new(es.len(), |i: int| es[i]@)
}

/// A copy of a list of named types.
pub fn clone_typed_names(fs: &Vec<(String, Type)>) -> (r: Vec<(String, Type)>)
    ensures
        typed_names_view(r@) == typed_names_view(fs@),
{
    let mut out: Vec<(String, Type)> = Vec::new();
    let mut i: usize = 0;
    while i < fs.len()
        invariant
            i <= fs.len(),
            out.len() == i,
            forall|j: int|
                0 <= j < i ==> (#[trigger] out@[j]).0@ == fs@[j].0@ && out@[j].1@ == fs@[j].1@,
        decreases fs.len() - i,
    {
        out.push((fs[i].0.clone(), fs[i].1.clone()));
        i += 1;
    }
    assert(typed_names_view(out@) =~= typed_names_view(fs@));
    out
}

impl Clone for VariantPayload {
    fn clone(&self) -> (r: VariantPayload)
        ensures
            r@ == self@,
    {
        match self {
            VariantPayload::Bare => VariantPayload::Bare,
            VariantPayload::Single(t) => VariantPayload::Single(t.clone()),
            VariantPayload::Fields(fs) => VariantPayload::Fields(clone_typed_names(fs)),
        }
    }
}

// -- Display ----------------------------------------------------------------

/// A type together with the tables that name what it refers to.
pub struct TypeDisplay<'a> {
    ty: &'a Type,
    structs: &'a [StructInfo],
    enums: &'a [EnumInfo],
    params: &'a [String],
}

impl<'a> TypeDisplay<'a> {
    pub closed spec fn view(&self) -> Seq<char> {
        self.ty@.text(
            structs_view(self.structs@),
            enums_view(self.enums@),
            names_view(self.params@),
        )
    }

    /// The type's text in diagnostics.
    pub fn to_string(&self) -> (r: String)
        ensures
            r@ == self@,
    {
        type_text(self.ty, self.structs, self.enums, self.params)
    }
}

fn type_text(
    t: &Type,
    structs: &[StructInfo],
    enums: &[EnumInfo],
    params: &[String],
) -> (r: String)
    ensures
        r@ == t@.text(structs_view(structs@), enums_view(enums@), names_view(params@)),
    decreases t, 0nat,
{
    match t {
        Type::Unknown => owned("<unknown>"),
        Type::Unit => owned("unit"),
        Type::Int(k) => owned(k.name()),
        Type::Float => owned("float"),
        Type::Bool => owned("bool"),
        Type::Str => owned("string"),
        Type::Param(i) => {
            if (*i as usize) < params.len() {
                params[*i as usize].clone()
            } else {
                cat3("<param ", dec(*i as u64).as_str(), ">")
            }
        },
        Type::Struct(id, targs) => {
            let name = if (*id as usize) < structs.len() {
                structs[*id as usize].name.clone()
            } else {
                cat3("<struct ", dec(*id as u64).as_str(), ">")
            };
            let args = type_texts(targs, structs, enums, params);
            applied(name, &args)
        },
        Type::Enum(id, targs) => {
            let name = if (*id as usize) < enums.len() {
                enums[*id as usize].name.clone()
            } else {
                cat3("<enum ", dec(*id as u64).as_str(), ">")
            };
            let args = type_texts(targs, structs, enums, params);
            applied(name, &args)
        },
        Type::Array(elem) => cat3("[", type_text(elem, structs, enums, params).as_str(), "]"),
        Type::Fn(ps, ret) => {
            let args = type_texts(ps, structs, enums, params);
            let head = cat3("fn(", join(&args, ", ").as_str(), ")");
            assert((ret@ is Unit) == (ret@ == TypeView::Unit));
            if matches!(**ret, Type::Unit) {
                assert(head@ == t@.text(structs_view(structs@), enums_view(enums@), names_view(params@)));
                head
            } else {
                cat3(head.as_str(), ": ", type_text(ret, structs, enums, params).as_str())
            }
        },
    }
}

fn type_texts(
    ts: &Vec<Type>,
    structs: &[StructInfo],
    enums: &[EnumInfo],
    params: &[String],
) -> (r: Vec<String>)
    ensures
        names_view(r@) == TypeView::texts(
            types_view(ts@),
            structs_view(structs@),
            enums_view(enums@),
            names_view(params@),
        ),
    decreases ts, 1nat,
{
    let mut out: Vec<String> = Vec::new();
    let mut i: usize = 0;
    while i < ts.len()
        invariant
            i <= ts.len(),
            out.len() == i,
            forall|j: int|
                0 <= j < i ==> (#[trigger] out@[j])@ == ts@[j]@.text(
                    structs_view(structs@),
                    enums_view(enums@),
                    names_view(params@),
                ),
        decreases ts.len() - i,
    {
        out.push(type_text(&ts[i], structs, enums, params));
        i += 1;
    }
    assert(names_view(out@) =~= TypeView::texts(
        types_view(ts@),
        structs_view(structs@),
        enums_view(enums@),
        names_view(params@),
    ));
    out
}

fn applied(name: String, args: &Vec<String>) -> (r: String)
    ensures
        r@ == applied_text(name@, names_view(args@)),
{
    if args.len() == 0 {
        name
    } else {
        cat4(name.as_str(), "<", join(args, ", ").as_str(), ">")
    }
}

// -- Field layout -----------------------------------------------------------

/// The least multiple of `a` that is not below `n`.
pub open spec fn align_up(n: int, a: int) -> int {
    (n + a - 1) / a * a
}

/// The end of the first `n` fields: each field starts at the next multiple of
/// its own size.
pub open spec fn fields_end(ts: Seq<TypeView>, n: nat) -> int
    decreases n, 0nat,
{
    if n == 0 {
        0
    } else {
        field_offset(ts, (n - 1) as nat) + ts[n - 1].storage()
    }
}

/// The byte offset of field `n`, relative to the payload start.
pub open spec fn field_offset(ts: Seq<TypeView>, n: nat) -> int
    decreases n, 1nat,
{
    align_up(fields_end(ts, n), ts[n as int].storage() as int)
}

/// The payload size: the end of the last field, rounded up to 8 bytes.
pub open spec fn layout_size(ts: Seq<TypeView>) -> int {
    align_up(fields_end(ts, ts.len()), 8)
}

pub proof fn lemma_align_up(n: int, a: int)
    requires
        a > 0,
        n >= 0,
    ensures
        n <= align_up(n, a) < n + a,
        align_up(n, a) % a == 0,
{
    assert(n <= (n + a - 1) / a * a < n + a) by (nonlinear_arith)
        requires
            a > 0,
            n >= 0,
    ;
    assert(((n + a - 1) / a * a) % a == 0) by (nonlinear_arith)
        requires
            a > 0,
    ;
}

proof fn lemma_storage_range(t: TypeView)
    ensures
        t.storage() == 1 || t.storage() == 2 || t.storage() == 4 || t.storage() == 8,
{
}

proof fn lemma_fields_end(ts: Seq<TypeView>, n: nat)
    requires
        n <= ts.len(),
    ensures
        0 <= fields_end(ts, n) <= 15 * n,
        n < ts.len() ==> fields_end(ts, n) <= field_offset(ts, n) <= 15 * n + 7,
    decreases n,
{
    if n > 0 {
        lemma_fields_end(ts, (n - 1) as nat);
        lemma_storage_range(ts[n - 1]);
        lemma_align_up(fields_end(ts, (n - 1) as nat), ts[n - 1].storage() as int);
    }
    if n < ts.len() {
        lemma_storage_range(ts[n as int]);
        lemma_align_up(fields_end(ts, n), ts[n as int].storage() as int);
    }
}

/// Rounding up to a size that divides a word stays within whole words.
proof fn lemma_align_within(end: int, words: int, size: int)
    requires
        0 <= end <= 8 * words,
        size == 1 || size == 2 || size == 4 || size == 8,
    ensures
        0 <= align_up(end, size) <= 8 * words,
{
    if size == 1 {
        assert(align_up(end, 1) == end);
    } else if size == 2 {
        assert((end + 1) / 2 <= 4 * words);
    } else if size == 4 {
        assert((end + 3) / 4 <= 2 * words);
    } else {
        assert((end + 7) / 8 <= words);
    }
}

/// No field starts behind the words that the fields before it could fill.
pub proof fn lemma_offset_bound(ts: Seq<TypeView>, n: nat)
    requires
        n < ts.len(),
    ensures
        0 <= field_offset(ts, n) <= 8 * n,
    decreases n,
{
    lemma_storage_range(ts[n as int]);
    if n > 0 {
        lemma_offset_bound(ts, (n - 1) as nat);
        lemma_storage_range(ts[n - 1]);
    }
    lemma_align_within(fields_end(ts, n), n as int, ts[n as int].storage() as int);
}

proof fn lemma_end_bound(ts: Seq<TypeView>, n: nat)
    requires
        n <= ts.len(),
    ensures
        0 <= fields_end(ts, n) <= 8 * n,
{
    if n > 0 {
        lemma_offset_bound(ts, (n - 1) as nat);
        lemma_storage_range(ts[n - 1]);
    }
}

/// No payload is larger than one word for each field.
pub proof fn lemma_layout_bound(ts: Seq<TypeView>)
    ensures
        0 <= layout_size(ts) <= 8 * ts.len() + 7,
{
    lemma_end_bound(ts, ts.len());
    lemma_align_up(fields_end(ts, ts.len()), 8);
}

/// Packed field layout: each field is aligned to its own size, in declaration
/// order. Returns the byte offset of each field (relative to the payload
/// start) and the total payload size rounded up to 8 bytes. Because every
/// alignment equals the field size and references are 8 bytes, reference
/// fields always land on 8-byte boundaries, which the collector relies on.
pub fn layout_fields(types: &[Type]) -> (r: (Vec<u32>, u32))
    requires
        8 * types@.len() + 7 <= u32::MAX,
        forall|i: int| 0 <= i < types@.len() ==> !((#[trigger] types@[i])@ is Param),
    ensures
        r.0@.len() == types@.len(),
        forall|i: int|
            0 <= i < types@.len() ==> #[trigger] r.0@[i] == field_offset(
                types_view(types@),
                i as nat,
            ),
        r.1 == layout_size(types_view(types@)),
{
    let ghost ts = types_view(types@);
    let mut off: u32 = 0;
    let mut offsets: Vec<u32> = Vec::new();
    let mut i: usize = 0;
    while i < types.len()
        invariant
            i <= types.len(),
            8 * types@.len() + 7 <= u32::MAX,
            ts == types_view(types@),
            forall|j: int| 0 <= j < types@.len() ==> !((#[trigger] types@[j])@ is Param),
            off == fields_end(ts, i as nat),
            offsets@.len() == i,
            forall|j: int| 0 <= j < i ==> #[trigger] offsets@[j] == field_offset(ts, j as nat),
        decreases types.len() - i,
    {
        proof {
            lemma_fields_end(ts, i as nat);
            assert(ts[i as int] == types@[i as int]@);
            lemma_storage_range(ts[i as int]);
            lemma_align_up(off as int, ts[i as int].storage() as int);
            lemma_offset_bound(ts, i as nat);
            lemma_end_bound(ts, i as nat);
        }
        let size: u32 = types[i].size_bytes();
        assert((off + size - 1) / (size as int) * size == field_offset(ts, i as nat));
        off = align(off, size);
        offsets.push(off);
        off = off + size;
        i += 1;
    }
    proof {
        lemma_fields_end(ts, ts.len());
        lemma_align_up(off as int, 8);
        lemma_end_bound(ts, ts.len());
    }
    (offsets, align(off, 8))
}

/// Round `n` up to a multiple of `a`.
fn align(n: u32, a: u32) -> (r: u32)
    requires
        a == 1 || a == 2 || a == 4 || a == 8,
        n + 7 <= u32::MAX,
    ensures
        r == align_up(n as int, a as int),
{
    proof {
        lemma_align_up(n as int, a as int);
    }
    (n + (a - 1)) / a * a
}

/// Every field is aligned to its size, fields do not overlap, all of them
/// end within the payload, and the payload is a whole number of words.
pub proof fn law_layout(ts: Seq<TypeView>)
    ensures
        forall|i: int|
            0 <= i < ts.len() ==> #[trigger] field_offset(ts, i as nat)
                % (ts[i].storage() as int) == 0,
        forall|i: int, j: int|
            0 <= i < j < ts.len() ==> #[trigger] field_offset(ts, i as nat) + ts[i].storage()
                <= #[trigger] field_offset(ts, j as nat),
        forall|i: int|
            0 <= i < ts.len() ==> #[trigger] field_offset(ts, i as nat) + ts[i].storage()
                <= layout_size(ts),
        layout_size(ts) % 8 == 0,
{
    assert forall|i: int| 0 <= i < ts.len() implies #[trigger] field_offset(ts, i as nat) % (
    ts[i].storage() as int) == 0 by {
        lemma_fields_end(ts, i as nat);
        lemma_align_up(fields_end(ts, i as nat), ts[i].storage() as int);
    }
    assert forall|i: int, j: int| 0 <= i < j < ts.len() implies #[trigger] field_offset(
        ts,
        i as nat,
    ) + ts[i].storage() <= #[trigger] field_offset(ts, j as nat) by {
        lemma_fields_ordered(ts, (i + 1) as nat, j as nat);
        lemma_fields_end(ts, j as nat);
    }
    assert forall|i: int| 0 <= i < ts.len() implies #[trigger] field_offset(ts, i as nat)
        + ts[i].storage() <= layout_size(ts) by {
        lemma_fields_ordered(ts, (i + 1) as nat, ts.len());
        lemma_fields_end(ts, ts.len());
        lemma_align_up(fields_end(ts, ts.len()), 8);
    }
    lemma_fields_end(ts, ts.len());
    lemma_align_up(fields_end(ts, ts.len()), 8);
}

proof fn lemma_fields_ordered(ts: Seq<TypeView>, i: nat, j: nat)
    requires
        i <= j <= ts.len(),
    ensures
        fields_end(ts, i) <= fields_end(ts, j),
    decreases j,
{
    if i < j {
        lemma_fields_ordered(ts, i, (j - 1) as nat);
        lemma_fields_end(ts, (j - 1) as nat);
    }
}

/// A field that is added at the end moves no earlier one, and the payload does
/// not shrink.
pub proof fn law_layout_grows(ts: Seq<TypeView>, k: nat)
    requires
        k <= ts.len(),
    ensures
        forall|i: int|
            0 <= i < k ==> #[trigger] field_offset(ts.take(k as int), i as nat) == field_offset(
                ts,
                i as nat,
            ),
        layout_size(ts.take(k as int)) <= layout_size(ts),
{
    assert forall|i: int| 0 <= i < k implies #[trigger] field_offset(ts.take(k as int), i as nat)
        == field_offset(ts, i as nat) by {
        lemma_same_fields(ts, k, i as nat);
    }
    lemma_same_fields(ts, k, k);
    lemma_fields_ordered(ts, k, ts.len());
    let (a, b) = (fields_end(ts, k), fields_end(ts, ts.len()));
    assert((a + 7) / 8 * 8 <= (b + 7) / 8 * 8);
}

proof fn lemma_same_fields(ts: Seq<TypeView>, k: nat, n: nat)
    requires
        n <= k <= ts.len(),
    ensures
        fields_end(ts.take(k as int), n) == fields_end(ts, n),
        n < k ==> field_offset(ts.take(k as int), n) == field_offset(ts, n),
    decreases n,
{
    if n > 0 {
        lemma_same_fields(ts, k, (n - 1) as nat);
    }
}

/// Reference fields stand on word boundaries.
pub proof fn law_reference_fields_word_aligned(ts: Seq<TypeView>, i: int)
    requires
        0 <= i < ts.len(),
        ts[i].is_reference(),
    ensures
        field_offset(ts, i as nat) % 8 == 0,
{
    lemma_fields_end(ts, i as nat);
    lemma_align_up(fields_end(ts, i as nat), 8);
}

} // verus!
