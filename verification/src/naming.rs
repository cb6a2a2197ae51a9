//! What names refer to: the innermost variable, the function, method, variant or
//! builtin of that name.
use vstd::prelude::*;

use crate::agreeing::{enum_sizes, table_sizes};
use crate::ast::{Builtin, CaptureView, ExprKindView, ExprView, FuncDefView, MethodDefView, VarRes};
use crate::rules::{
    captures_of, check_call, check_expr, check_field, check_member_call, check_type_call,
    check_variant_bare, check_variant_call, check_variant_fields, collect_funcs, collect_methods,
    enter_lambda, func_sig, has_variant, make_variant, method_key, names_type,
};
use crate::text::{lemma_position_from, position};
use crate::types::{variant_names, TypeView};
use crate::typing::{
    builtin_method, builtin_named, declare, enum_names, find_var, own_var, resolve_in, resolve_var,
    BodyView, EnvView, MethodView, TypeKey,
};

verus! {

// -- Variables --------------------------------------------------------------

proof fn lemma_find_below(
    vars: Seq<(Seq<char>, u32, TypeView)>,
    v: (Seq<char>, u32, TypeView),
    name: Seq<char>,
    n: nat,
)
    requires
        n <= vars.len(),
    ensures
        find_var(vars.push(v), name, n) == find_var(vars, name, n),
        find_var(vars, name, n) matches Some(i) ==> i < n,
    decreases n,
{
    if n > 0 {
        assert(vars.push(v)[n - 1] == vars[n - 1]);
        lemma_find_below(vars, v, name, (n - 1) as nat);
    }
}

/// A variable that is declared is found under its name, whatever the name meant
/// before, and every other name goes on meaning what it meant.
pub proof fn law_declared_is_found(
    st: BodyView,
    name: Seq<char>,
    ty: TypeView,
    line: u32,
    other: Seq<char>,
)
    requires
        declare(st, name, ty, line) is Ok,
    ensures
        ({
            let (i, st1) = declare(st, name, ty, line)->Ok_0;
            &&& i == st.cur.locals.len()
            &&& resolve_var(st1, name) == (st1, Some((VarRes::Local(i), ty)))
            &&& other != name ==> resolve_var(st1, other).1 == resolve_var(st, other).1
        }),
{
    reveal(declare);
    reveal(resolve_var);
    reveal(own_var);
    let (i, st1) = declare(st, name, ty, line)->Ok_0;
    let v = (name, i, ty);
    let n = st.cur.vars.len();
    assert(st1.cur.vars == st.cur.vars.push(v));
    assert(st1.cur.vars[n as int] == v);
    assert(find_var(st1.cur.vars, name, n + 1) == Some(n));
    assert(own_var(st1.cur, name) == Some((VarRes::Local(i), ty)));
    if other != name {
        lemma_find_below(st.cur.vars, v, other, n);
        assert(find_var(st1.cur.vars, other, n + 1) == find_var(st1.cur.vars, other, n));
        if let Some(k) = find_var(st.cur.vars, other, n) {
            assert(st1.cur.vars[k as int] == st.cur.vars[k as int]);
        }
        assert(own_var(st1.cur, other) == own_var(st.cur, other));
    }
}

/// A variable of the function around is captured by a lambda that names it: the
/// lambda has it with the same type, from where it is around.
pub proof fn law_captured_by_lambda(
    st: BodyView,
    params: Seq<TypeView>,
    ret: TypeView,
    name: Seq<char>,
)
    requires
        resolve_var(st, name).1 is Some,
    ensures
        ({
            let (src, ty) = resolve_var(st, name).1->0;
            let (st1, r) = resolve_var(enter_lambda(st, params, ret), name);
            &&& r == Some((VarRes::Captured(0), ty))
            &&& captures_of(st1.cur) == seq![CaptureView { name, ty, src }]
        }),
{
    reveal(resolve_var);
    reveal(enter_lambda);
    reveal(own_var);
    let within = enter_lambda(st, params, ret);
    assert(within.outer.last() == st.cur);
    assert(within.outer.drop_last() =~= st.outer);
    assert(find_var(within.cur.vars, name, 0) is None);
    lemma_position_from(crate::typing::capture_names(Seq::empty()), name, 0);
    assert(own_var(within.cur, name) is None);
    let (src, ty) = resolve_in(st.cur, st.outer, name).2->0;
    assert(Seq::<CaptureView>::empty().push(CaptureView { name, ty, src }) =~= seq![
        CaptureView { name, ty, src },
    ]);
}

// -- Functions and methods --------------------------------------------------

/// The signatures of a program are those of its functions, in their order.
pub proof fn law_functions_collected(env: EnvView, defs: Seq<FuncDefView>, i: nat)
    requires
        collect_funcs(env, defs, i) is Ok,
        i <= defs.len(),
    ensures
        ({
            let all = collect_funcs(env, defs, i)->Ok_0;
            &&& all.funcs.len() == env.funcs.len() + (defs.len() - i)
            &&& forall|f: int| 0 <= f < env.funcs.len() ==> #[trigger] all.funcs[f] == env.funcs[f]
            &&& forall|k: int|
                i <= k < defs.len() ==> {
                    let sig = all.funcs[env.funcs.len() + k - i];
                    sig.name == (#[trigger] defs[k]).name && sig.type_params == defs[k].type_params
                }
        }),
    decreases defs.len() - i,
{
    if i < defs.len() {
        reveal(func_sig);
        let sig = func_sig(env, defs[i as int])->Ok_0;
        let more = EnvView { funcs: env.funcs.push(sig), ..env };
        law_functions_collected(more, defs, i + 1);
        let all = collect_funcs(more, defs, i + 1)->Ok_0;
        assert forall|f: int| 0 <= f < env.funcs.len() implies #[trigger] all.funcs[f]
            == env.funcs[f] by {
            assert(all.funcs[f] == more.funcs[f]);
        }
        assert(all.funcs[env.funcs.len() as int] == more.funcs[env.funcs.len() as int]);
        assert forall|k: int| i <= k < defs.len() implies ({
            let sig = all.funcs[env.funcs.len() + k - i];
            sig.name == (#[trigger] defs[k]).name && sig.type_params == defs[k].type_params
        }) by {
            if k > i {
                assert(env.funcs.len() + k - i == more.funcs.len() + k - (i + 1));
            }
        }
    }
}

/// The methods of a program are those that it declares, in their order, each
/// with its function.
pub proof fn law_methods_collected(env: EnvView, defs: Seq<MethodDefView>, i: nat)
    requires
        collect_methods(env, defs, i) is Ok,
        i <= defs.len(),
    ensures
        ({
            let all = collect_methods(env, defs, i)->Ok_0;
            &&& all.methods.len() == env.methods.len() + (defs.len() - i)
            &&& forall|f: int|
                0 <= f < env.methods.len() ==> #[trigger] all.methods[f] == env.methods[f]
            &&& forall|k: int|
                i <= k < defs.len() ==> {
                    let m = all.methods[env.methods.len() + k - i];
                    m.name == (#[trigger] defs[k]).name && m.fid == defs[k].func && m.has_self
                        == defs[k].has_self
                }
        }),
    decreases defs.len() - i,
{
    if i < defs.len() {
        let m = defs[i as int];
        let key = method_key(env, m)->Ok_0;
        let method = MethodView { key, name: m.name, fid: m.func, has_self: m.has_self };
        let more = EnvView { methods: env.methods.push(method), ..env };
        law_methods_collected(more, defs, i + 1);
        let all = collect_methods(more, defs, i + 1)->Ok_0;
        assert forall|f: int| 0 <= f < env.methods.len() implies #[trigger] all.methods[f]
            == env.methods[f] by {
            assert(all.methods[f] == more.methods[f]);
        }
        assert(all.methods[env.methods.len() as int] == more.methods[env.methods.len() as int]);
        assert forall|k: int| i <= k < defs.len() implies ({
            let m = all.methods[env.methods.len() + k - i];
            m.name == (#[trigger] defs[k]).name && m.fid == defs[k].func && m.has_self
                == defs[k].has_self
        }) by {
            if k > i {
                assert(env.methods.len() + k - i == more.methods.len() + k - (i + 1));
            }
        }
    }
}

proof fn lemma_method_from(env: EnvView, key: TypeKey, name: Seq<char>, from: nat)
    ensures
        env.method_from(key, name, from) matches Some(i) ==> from <= i < env.methods.len()
            && env.methods[i as int].key == key && env.methods[i as int].name == name,
        env.method_from(key, name, from) is None ==> forall|i: int|
            from <= i < env.methods.len() ==> !((#[trigger] env.methods[i]).key == key
                && env.methods[i].name == name),
    decreases env.methods.len() - from,
{
    if from < env.methods.len() && !(env.methods[from as int].key == key
        && env.methods[from as int].name == name) {
        lemma_method_from(env, key, name, from + 1);
    }
}

/// A method of a type is found under its name, and none that is not there.
pub proof fn law_method_is_found(env: EnvView, key: TypeKey, name: Seq<char>)
    ensures
        env.method(key, name) matches Some((fid, has_self)) ==> exists|i: int|
            0 <= i < env.methods.len() && (#[trigger] env.methods[i]).key == key
                && env.methods[i].name == name && env.methods[i].fid == fid
                && env.methods[i].has_self == has_self,
        env.method(key, name) is None ==> forall|i: int|
            0 <= i < env.methods.len() ==> !((#[trigger] env.methods[i]).key == key
                && env.methods[i].name == name),
{
    lemma_method_from(env, key, name, 0);
}

/// A call `obj.name(args)` of a method that the object's type has is a call of
/// that method's function.
pub proof fn law_method_is_called(
    env: EnvView,
    st: BodyView,
    e: ExprView,
    expected: Option<TypeView>,
    o: ExprView,
    st1: BodyView,
    fid: u32,
)
    requires
        e.kind is Call,
        e.kind->Call_callee.kind is Field,
        ({
            let obj = *e.kind->Call_callee.kind->Field_obj;
            &&& names_type(env, st, obj).0 is None
            &&& check_expr(env, names_type(env, st, obj).1, obj, None) == Ok::<
                (ExprView, BodyView),
                Seq<char>,
            >((o, st1))
            &&& env.lookup_method(o.ty, e.kind->Call_callee.kind->Field_name) == Some((fid, true))
        }),
    ensures
        check_expr(env, st, e, expected) matches Ok((x, _)) ==> (x.kind matches ExprKindView::Call {
            direct,
            ..
        } && direct == Some(fid)),
{
    let callee = *e.kind->Call_callee;
    assert(check_expr(env, st, e, expected) == check_call(env, st, e, expected));
    assert(check_call(env, st, e, expected) == check_member_call(
        env,
        st1,
        callee,
        o,
        callee.kind->Field_name,
        callee.kind->Field_index,
        e.kind->Call_args,
        e.kind->Call_direct,
        e.kind->Call_inst,
        e.line,
        expected,
    ));
}

// -- Variants ---------------------------------------------------------------

/// Is this a value of the named variant of the named enum?
pub open spec fn is_variant(
    env: EnvView,
    x: ExprView,
    enum_name: Seq<char>,
    variant: Seq<char>,
) -> bool {
    x.kind matches ExprKindView::VariantLit { enum_id, tag, .. } && enum_id < env.enums.len()
        && env.enums[enum_id as int].name == enum_name && tag
        < env.enums[enum_id as int].variants.len()
        && env.enums[enum_id as int].variants[tag as int].0 == variant
}

proof fn lemma_named_variant(env: EnvView, enum_name: Seq<char>, variant: Seq<char>)
    requires
        table_sizes(env),
        env.enum_id(enum_name) is Some,
    ensures
        ({
            let eid = env.enum_id(enum_name)->0;
            let info = env.enums[eid as int];
            &&& eid < env.enums.len()
            &&& eid <= u32::MAX
            &&& info.name == enum_name
            &&& position(variant_names(info.variants), variant) matches Some(tag) ==> tag
                < info.variants.len() && tag <= u32::MAX && info.variants[tag as int].0 == variant
        }),
{
    lemma_position_from(enum_names(env.enums), enum_name, 0);
    let eid = env.enum_id(enum_name)->0;
    let info = env.enums[eid as int];
    assert(enum_sizes(info));
    assert(enum_names(env.enums)[eid as int] == info.name);
    lemma_position_from(variant_names(info.variants), variant, 0);
    if let Some(tag) = position(variant_names(info.variants), variant) {
        assert(variant_names(info.variants)[tag as int] == info.variants[tag as int].0);
    }
}

/// `Enum.Variant { .. }` is a value of that variant.
pub proof fn law_variant_with_fields(
    env: EnvView,
    st: BodyView,
    e: ExprView,
    expected: Option<TypeView>,
)
    requires
        e.kind is VariantStructLit,
        table_sizes(env),
    ensures
        check_expr(env, st, e, expected) matches Ok((x, _)) ==> is_variant(
            env,
            x,
            e.kind->VariantStructLit_enum_name,
            e.kind->VariantStructLit_variant,
        ),
{
    let enum_name = e.kind->VariantStructLit_enum_name;
    let variant = e.kind->VariantStructLit_variant;
    if check_expr(env, st, e, expected) is Ok {
        lemma_named_variant(env, enum_name, variant);
        reveal(make_variant);
        assert(check_expr(env, st, e, expected) == check_variant_fields(
            env,
            st,
            env.enum_id(enum_name)->0,
            enum_name,
            variant,
            e.kind->VariantStructLit_fields,
            e.line,
            expected,
        ));
    }
}

/// `Enum.Variant` is a value of that variant, and so is `Enum.Variant(value)`.
pub proof fn law_variant_by_name(
    env: EnvView,
    st: BodyView,
    e: ExprView,
    expected: Option<TypeView>,
    enum_name: Seq<char>,
)
    requires
        table_sizes(env),
        ({
            let f = if e.kind is Call {
                e.kind->Call_callee.kind
            } else {
                e.kind
            };
            &&& f is Field
            &&& names_type(env, st, *f->Field_obj).0 == Some(enum_name)
            &&& env.enum_id(enum_name) matches Some(eid) && has_variant(env, eid, f->Field_name)
        }),
    ensures
        ({
            let f = if e.kind is Call {
                e.kind->Call_callee.kind
            } else {
                e.kind
            };
            check_expr(env, st, e, expected) matches Ok((x, _)) ==> is_variant(
                env,
                x,
                enum_name,
                f->Field_name,
            )
        }),
{
    reveal(make_variant);
    let f = if e.kind is Call {
        e.kind->Call_callee.kind
    } else {
        e.kind
    };
    let name = f->Field_name;
    let eid = env.enum_id(enum_name)->0;
    lemma_named_variant(env, enum_name, name);
    let st1 = names_type(env, st, *f->Field_obj).1;
    if e.kind is Call {
        let args = e.kind->Call_args;
        assert(check_expr(env, st, e, expected) == check_call(env, st, e, expected));
        assert(check_call(env, st, e, expected) == check_type_call(
            env,
            st1,
            *e.kind->Call_callee,
            enum_name,
            name,
            args,
            e.line,
            expected,
        ));
        assert(check_call(env, st, e, expected) == check_variant_call(
            env,
            st1,
            eid,
            enum_name,
            name,
            args,
            e.line,
            expected,
        ));
    } else {
        reveal(check_variant_bare);
        assert(check_expr(env, st, e, expected) == check_field(
            env,
            st,
            *f->Field_obj,
            name,
            f->Field_index,
            e.line,
            expected,
        ));
    }
}

// -- Builtins ---------------------------------------------------------------

/// The builtin methods of arrays, strings, numbers and options, by their names.
pub proof fn law_builtin_methods(t: TypeView, k: crate::types::IntKind, id: u32, ts: Seq<TypeView>)
    ensures
        ({
            let array = TypeView::Array(Box::new(t));
            let option = TypeView::Enum(id, ts);
            &&& builtin_method(array, "len"@, None) == Some(Builtin::Len)
            &&& builtin_method(array, "push"@, None) == Some(Builtin::Push)
            &&& builtin_method(array, "pop"@, None) == Some(Builtin::Pop)
            &&& builtin_method(array, "to_string"@, None) == Some(Builtin::Btos)
            &&& builtin_method(TypeView::Str, "len"@, None) == Some(Builtin::Len)
            &&& builtin_method(TypeView::Str, "to_int"@, None) == Some(Builtin::Stoi)
            &&& builtin_method(TypeView::Str, "to_float"@, None) == Some(Builtin::Stof)
            &&& builtin_method(TypeView::Str, "to_bytes"@, None) == Some(Builtin::Stob)
            &&& builtin_method(TypeView::Int(k), "to_string"@, None) == Some(Builtin::Itos)
            &&& builtin_method(TypeView::Int(k), "to_float"@, None) == Some(Builtin::Itof)
            &&& builtin_method(TypeView::Float, "to_string"@, None) == Some(Builtin::Ftos)
            &&& builtin_method(option, "unwrap"@, Some(id)) == Some(Builtin::Unwrap)
        }),
{
    reveal(builtin_method);
    reveal_strlit("len");
    reveal_strlit("push");
    reveal_strlit("pop");
    reveal_strlit("to_string");
    reveal_strlit("to_int");
    reveal_strlit("to_float");
    reveal_strlit("to_bytes");
    assert("len"@[0] != "push"@[0] && "len"@[0] != "pop"@[0]);
    assert("push"@.len() != "pop"@.len());
    assert("to_string"@.len() == 9 && "to_int"@.len() == 6 && "to_float"@.len() == 8
        && "to_bytes"@.len() == 8);
    assert("to_float"@[3] != "to_bytes"@[3]);
}

/// The builtins that are called by name alone.
pub proof fn law_builtin_functions()
    ensures
        builtin_named("print"@) == Some(Builtin::Print),
        builtin_named("println"@) == Some(Builtin::Println),
        builtin_named("assert"@) == Some(Builtin::Assert),
        builtin_named("gc_collect"@) == Some(Builtin::GcCollect),
{
    reveal(builtin_named);
    reveal_strlit("print");
    reveal_strlit("println");
    reveal_strlit("assert");
    reveal_strlit("gc_collect");
    assert("print"@.len() == 5 && "println"@.len() == 7 && "assert"@.len() == 6
        && "gc_collect"@.len() == 10);
}

} // verus!
