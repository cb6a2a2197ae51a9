//! What programs are lowered to.
use crowc::cli::build;
use crowc::codegen::{finish, SafePoint, Unit};
use crowc::ir::{IrType, Linkage, Op, Reloc, Rt};

fn unit_of(src: &str) -> Unit {
    match build(src) {
        Ok(c) => c.unit,
        Err(m) => panic!("{m}"),
    }
}

fn data_names(unit: &Unit, prefix: &str) -> Vec<String> {
    let mut out: Vec<String> = unit
        .datas
        .iter()
        .filter(|d| d.name.starts_with(prefix))
        .map(|d| d.name.clone())
        .collect();
    out.sort();
    out
}

fn func_names(unit: &Unit, prefix: &str) -> Vec<String> {
    let mut out: Vec<String> = unit
        .funcs
        .iter()
        .filter(|f| f.name.starts_with(prefix))
        .map(|f| f.name.clone())
        .collect();
    out.sort();
    out
}

fn ops_of(unit: &Unit, name: &str) -> Vec<Op> {
    let f = unit.funcs.iter().position(|f| f.name == name).expect("no such function");
    let b = unit.bodies.iter().find(|b| b.func == f).expect("no body");
    b.ops.clone()
}

/// Descriptors are keyed by object shape, not by type: unrelated structs
/// with the same layout, and all reference instantiations of a generic
/// struct, share one descriptor.
#[test]
fn descriptors_dedupe_by_shape() {
    let unit = unit_of(
        r#"
struct A { s: string, n: int }
struct B { t: string, m: int }
struct Pair<T> { a: T, b: T }
fn main() {
    let a = A { s: "x", n: 1 };
    let b = B { t: "y", m: 2 };
    let p = Pair { a: "u", b: "v" };
    let q = Pair { a: a, b: a };
    let r = Pair { a: 1, b: 2 };
}
"#,
    );
    assert_eq!(
        data_names(&unit, "crow_desc."),
        vec![
            "crow_desc.k0s16r0", // Pair<int>: two scalar words
            "crow_desc.k0s16r1", // A and B: ref word + scalar word
            "crow_desc.k0s16r3", // Pair<string> and Pair<A>: two ref words
            "crow_desc.k0s8r0",  // static closure objects
        ]
    );
}

#[test]
fn descriptor_bytes() {
    let unit = unit_of("struct C { n: u8, s: string } fn main() { let c = C { n: 1, s: \"\" }; }");
    let d = unit.datas.iter().find(|d| d.name == "crow_desc.k0s16r2").expect("no descriptor");
    let mut want = vec![0u8; 24];
    want[8] = 16;
    want[16] = 2;
    assert_eq!(d.bytes, want);
    assert_eq!(d.linkage, Linkage::Local);
    assert!(!d.writable);
}

/// A string literal is a static object: header, length, padded bytes.
#[test]
fn string_literal_bytes() {
    let unit = unit_of("fn main() { println(\"hey\"); }");
    let d = unit.datas.iter().find(|d| d.name == "crow_str.0").expect("no literal");
    let mut want = vec![0u8; 24];
    want[8] = 3;
    want[16..19].copy_from_slice(b"hey");
    assert_eq!(d.bytes, want);
    assert_eq!(d.relocs, vec![Reloc::Data { at: 0, data: 0, plus: 4 }]);
    assert_eq!(unit.datas[0].name, "crow_desc_string");
}

/// Instantiations are compiled once per shape; all references share one.
#[test]
fn instantiations_by_shape() {
    let unit = unit_of(
        "struct P { v: int }
         fn id<T>(x: T): T { x }
         fn main() {
             id(1); id(2); id(\"s\"); id(P { v: 1 }); id([1]); id(1.5); id(true);
             let b: u8 = 1;
             id(b);
             let w: u64 = 1;
             id(w);
         }",
    );
    assert_eq!(func_names(&unit, "crow_fn.id"), vec![
        "crow_fn.id$f", "crow_fn.id$r", "crow_fn.id$u8", "crow_fn.id$w",
    ]);
}

/// Checked addition panics on the overflow flag; the sum is returned.
#[test]
fn checked_addition() {
    let unit = unit_of("fn add(a: int, b: int): int { return a + b; } fn main() { add(1, 2); }");
    let ops = ops_of(&unit, "crow_fn.add");
    assert!(ops.iter().any(|o| matches!(o, Op::Flagged(..))));
    assert!(ops.iter().any(|o| matches!(o, Op::PanicIf(_, Rt::PanicOverflow, 1))));
    assert!(matches!(ops[ops.len() - 1], Op::ReturnValue(_)));
    // A leaf function has no stack guard; one that calls has.
    assert!(!ops.iter().any(|o| matches!(o, Op::StackPointer)));
    assert!(ops_of(&unit, "crow_fn.main").iter().any(|o| matches!(o, Op::StackPointer)));
}

/// The entry point starts the runtime, hands over the stack maps, runs the
/// program and exits.
#[test]
fn entry_point_and_stack_maps() {
    let mut c = match build("fn main() { }") {
        Ok(c) => c,
        Err(m) => panic!("{m}"),
    };
    let points = vec![
        SafePoint { func: 40, ret_off: 7, span: 32, slots: vec![8, 16] },
        SafePoint { func: 41, ret_off: 9, span: 48, slots: vec![24] },
    ];
    let table = c.unit.datas.len();
    finish(&mut c.unit, c.main, &points);
    let d = &c.unit.datas[table];
    assert_eq!(d.name, "crow_stackmaps");
    let words: Vec<u64> = d
        .bytes
        .chunks(8)
        .map(|w| w.iter().rev().fold(0, |v, b| v << 8 | *b as u64))
        .collect();
    assert_eq!(words, vec![2, 0, 7, 32, 0, 2, 0, 9, 48, 2, 1, 8, 16, 24]);
    assert_eq!(
        d.relocs,
        vec![Reloc::Func { at: 8, func: 40 }, Reloc::Func { at: 48, func: 41 }]
    );
    let last = &c.unit.funcs[c.unit.funcs.len() - 1];
    assert_eq!(last.name, "main");
    assert_eq!(last.linkage, Linkage::Export);
    assert_eq!(last.sig.ret, Some(IrType::I32));
    let ops = ops_of(&c.unit, "main");
    assert_eq!(ops[3], Op::DataAddr(table));
    assert_eq!(ops[6], Op::Call(c.main));
    assert_eq!(ops[9], Op::CallRt(Rt::RtExit));
}

/// Compiling a program twice gives the same unit.
#[test]
fn lowering_is_deterministic() {
    let src = "fn f(x: int): int { if x < 2 { return x; } f(x - 1) } fn main() { println(f(3)); }";
    let (a, b) = (unit_of(src), unit_of(src));
    assert_eq!(format!("{:?}", a.bodies), format!("{:?}", b.bodies));
    assert_eq!(format!("{:?}", a.datas), format!("{:?}", b.datas));
}

#[test]
fn places_without_references_are_left_out() {
    assert!(crowc::codegen::tracked_point(3, 8, 16, vec![]).is_none());
    let point = crowc::codegen::tracked_point(3, 8, 16, vec![24, 32]).unwrap();
    assert_eq!((point.func, point.ret_off, point.span), (3, 8, 16));
    assert_eq!(point.slots, vec![24, 32]);
}
