use crowc::gc::Plan;
use crowc::heap::{Heap, OLD, YOUNG};
use crowc::object::{buf_desc, desc_array, desc_string, CrowDesc, KIND_STRUCT};

const BUMP: Plan = Plan::Bump { collect: false };
const TENURED: Plan = Plan::Old { collect: false };

/// { left: ref, right: ref, value: int }
fn node_desc() -> CrowDesc {
    CrowDesc { kind: KIND_STRUCT, size: 24, refmap: 3 }
}

fn node(h: &mut Heap, left: u64, right: u64, value: u64) -> u64 {
    let mut none: Vec<u64> = Vec::new();
    let v = h.allocate(node_desc(), 0, BUMP, false, &mut none).unwrap();
    h.write_ref(v, 0, left);
    h.write_ref(v, 1, right);
    h.write_word(v, 2, value);
    v
}

fn live_old(h: &Heap) -> usize {
    h.old.iter().filter(|o| o.live).count()
}

#[test]
fn new_objects_are_zero() {
    let mut h = Heap::new();
    let mut roots: Vec<u64> = Vec::new();
    let a = h.allocate(desc_array(), 0, BUMP, false, &mut roots).unwrap();
    assert_eq!(a, YOUNG);
    assert_eq!((h.read(a, 0), h.read(a, 1), h.read(a, 2)), (0, 0, 0));
    // Nine bytes take two words; eight references take eight.
    h.allocate(desc_string(), 9, BUMP, false, &mut roots).unwrap();
    h.allocate(buf_desc(1), 8, TENURED, false, &mut roots).unwrap();
    assert_eq!(h.young[1].words.len(), 2);
    assert_eq!(h.old[0].words.len(), 8);
}

#[test]
fn no_room_for_what_is_none() {
    let mut h = Heap::new();
    let mut roots: Vec<u64> = Vec::new();
    let bad = CrowDesc { kind: 9, size: 8, refmap: 0 };
    assert_eq!(h.allocate(bad, 8, BUMP, false, &mut roots), None);
    assert_eq!(h.allocate(buf_desc(1), u64::MAX, BUMP, false, &mut roots), None);
    assert!(h.young.is_empty() && h.old.is_empty());
}

#[test]
fn minor_moves_what_the_roots_reach() {
    let mut h = Heap::new();
    let a = node(&mut h, 0, 0, 7);
    let b = node(&mut h, a, a, 8);
    let _garbage = node(&mut h, b, 0, 9);
    let mut roots = vec![b, 0, a];
    h.collect(&mut roots, false);
    assert!(h.young.is_empty());
    assert_eq!(live_old(&h), 2);
    assert!(roots[0] >= OLD && roots[2] >= OLD);
    assert_eq!(roots[1], 0);
    // The graph is as it was: both fields name the one object that moved.
    assert_eq!(h.read(roots[0], 2), 8);
    assert_eq!(h.read(roots[0], 0), roots[2]);
    assert_eq!(h.read(roots[0], 1), roots[2]);
    assert_eq!(h.read(roots[2], 2), 7);
}

#[test]
fn cycles_survive() {
    let mut h = Heap::new();
    let a = node(&mut h, 0, 0, 1);
    let b = node(&mut h, a, 0, 2);
    h.write_ref(a, 0, b);
    let mut roots = vec![a];
    h.collect(&mut roots, true);
    let a = roots[0];
    let b = h.read(a, 0);
    assert_eq!((h.read(a, 2), h.read(b, 2)), (1, 2));
    assert_eq!(h.read(b, 0), a);
    assert_eq!(live_old(&h), 2);
}

#[test]
fn write_barrier_keeps_young_objects() {
    let mut h = Heap::new();
    let mut roots = vec![node(&mut h, 0, 0, 1)];
    h.collect(&mut roots, false);
    let old = roots[0];
    assert!(old >= OLD);
    // The young object is named by the old one only.
    let young = node(&mut h, 0, 0, 5);
    h.write_ref(old, 1, young);
    assert_eq!(h.remset, vec![((old - OLD) as usize, 1)]);
    h.collect(&mut roots, false);
    assert_eq!(roots[0], old);
    let moved = h.read(old, 1);
    assert!(moved >= OLD);
    assert_eq!(h.read(moved, 2), 5);
    assert!(h.remset.is_empty());
}

#[test]
fn young_stores_need_no_barrier() {
    let mut h = Heap::new();
    let a = node(&mut h, 0, 0, 1);
    let b = node(&mut h, 0, 0, 2);
    h.write_ref(a, 0, b);
    h.write_ref(b, 0, 64);
    assert!(h.remset.is_empty());
}

#[test]
fn major_frees_what_nothing_reaches() {
    let mut h = Heap::new();
    let a = node(&mut h, 0, 0, 1);
    let b = node(&mut h, 0, 0, 2);
    let c = node(&mut h, a, 0, 3);
    let mut roots = vec![b, c];
    h.collect(&mut roots, false);
    assert_eq!(live_old(&h), 3);
    // A minor collection frees no old object.
    let mut kept = vec![roots[1]];
    h.collect(&mut kept, false);
    assert_eq!(live_old(&h), 3);
    // A full one keeps `c` and what it names, at the same places.
    let c = kept[0];
    h.collect(&mut kept, true);
    assert_eq!(kept[0], c);
    assert_eq!(live_old(&h), 2);
    assert_eq!(h.read(h.read(c, 0), 2), 1);
    h.collect(&mut Vec::new(), true);
    assert_eq!(live_old(&h), 0);
}

#[test]
fn scalar_words_are_no_references() {
    let mut h = Heap::new();
    let a = node(&mut h, 0, 0, 0);
    let hidden = node(&mut h, 0, 0, 4);
    // The value looks like a reference, but the descriptor says it is none.
    h.write_word(a, 2, hidden);
    let mut roots = vec![a];
    h.collect(&mut roots, true);
    assert_eq!(live_old(&h), 1);
    assert_eq!(h.read(roots[0], 2), hidden);
}

#[test]
fn allocation_collects_when_the_plan_says_so() {
    let mut h = Heap::new();
    let mut roots = vec![node(&mut h, 0, 0, 6)];
    node(&mut h, 0, 0, 9);
    let v = h.allocate(node_desc(), 0, Plan::Bump { collect: true }, false, &mut roots).unwrap();
    assert_eq!(v, YOUNG);
    assert_eq!(h.young.len(), 1);
    assert_eq!(h.read(roots[0], 2), 6);
    let v = h.allocate(buf_desc(0), 64, Plan::Old { collect: true }, true, &mut roots).unwrap();
    assert!(v >= OLD);
    assert!(h.young.is_empty());
}

#[test]
fn strings_are_equal_if_their_bytes_are() {
    let mut h = Heap::new();
    let mut roots: Vec<u64> = vec![];
    let a = h.allocate(desc_string(), 9, BUMP, false, &mut roots).unwrap();
    let b = h.allocate(desc_string(), 9, TENURED, false, &mut roots).unwrap();
    let c = h.allocate(desc_string(), 8, BUMP, false, &mut roots).unwrap();
    h.write_word(a, 0, 0x6867_6665_6463_6261);
    h.write_word(b, 0, 0x6867_6665_6463_6261);
    h.write_word(c, 0, 0x6867_6665_6463_6261);
    assert_eq!((h.string_len(a), h.string_len(c)), (9, 8));
    assert_eq!((h.string_byte(a, 0), h.string_byte(a, 7)), (0x61, 0x68));
    assert!(h.string_eq(a, b));
    assert!(!h.string_eq(a, c));
    h.write_word(b, 1, 0x69);
    assert!(!h.string_eq(a, b));
}
