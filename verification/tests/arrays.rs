use crowc::gc::Plan;
use crowc::heap::{Heap, OLD};

const BUMP: Plan = Plan::Bump { collect: false };
const TENURED: Plan = Plan::Old { collect: false };
const COLLECT: Plan = Plan::Bump { collect: true };

fn new_array(h: &mut Heap, size: u64, is_ref: bool) -> u64 {
    h.array_new(size, is_ref, 0, BUMP, false, BUMP, false, &mut Vec::new()).unwrap()
}

fn push(h: &mut Heap, a: u64, v: u64, size: u64) {
    let r = h.array_push(a, v, size, false, BUMP, false, &mut Vec::new());
    assert_eq!(r, Some(a));
}

fn pop_all(h: &mut Heap, a: u64, size: u64, is_ref: bool) -> Vec<u64> {
    let mut out = Vec::new();
    while let Ok(v) = h.array_pop(a, size, is_ref, 1) {
        out.push(v);
    }
    out
}

#[test]
fn pop_gives_back_what_push_stored() {
    for size in [1u64, 2, 4, 8] {
        let mut h = Heap::new();
        let a = new_array(&mut h, size, false);
        for v in 0..20u64 {
            push(&mut h, a, v * 7, size);
        }
        let back: Vec<u64> = (0..20u64).rev().map(|v| v * 7).collect();
        assert_eq!(pop_all(&mut h, a, size, false), back);
        assert_eq!(
            h.array_pop(a, size, false, 7),
            Err("pop on empty array at line 7".to_string())
        );
    }
}

#[test]
fn narrow_elements_are_cut_off() {
    let mut h = Heap::new();
    let a = new_array(&mut h, 1, false);
    push(&mut h, a, 0x1ff, 1);
    push(&mut h, a, u64::MAX, 1);
    push(&mut h, a, 3, 1);
    assert_eq!(pop_all(&mut h, a, 1, false), vec![3, 0xff, 0xff]);
    let b = new_array(&mut h, 2, false);
    push(&mut h, b, 0x1_0002, 2);
    push(&mut h, b, 0xffff_fffe, 2);
    assert_eq!(pop_all(&mut h, b, 2, false), vec![0xfffe, 2]);
}

#[test]
fn capacity_starts_at_four_and_doubles() {
    let mut h = Heap::new();
    let a = new_array(&mut h, 8, false);
    assert_eq!((h.read(a, 1), h.read(a, 2)), (0, 4));
    let first = h.read(a, 0);
    for v in 0..4u64 {
        push(&mut h, a, v, 8);
    }
    assert_eq!(h.read(a, 0), first);
    push(&mut h, a, 4, 8);
    // A new buffer, but the same array.
    assert_ne!(h.read(a, 0), first);
    assert_eq!((h.read(a, 1), h.read(a, 2)), (5, 8));
    let b = h.array_new(8, false, 10, BUMP, false, BUMP, false, &mut Vec::new()).unwrap();
    assert_eq!(h.read(b, 2), 10);
}

#[test]
fn growing_survives_a_collection() {
    let mut h = Heap::new();
    let mut roots: Vec<u64> = Vec::new();
    let mut a = new_array(&mut h, 4, false);
    for v in 0..9u64 {
        a = h.array_push(a, 100 + v, 4, false, COLLECT, true, &mut roots).unwrap();
    }
    // The array moved when it grew, and took its elements with it.
    assert!(a >= OLD);
    let back: Vec<u64> = (0..9u64).rev().map(|v| 100 + v).collect();
    assert_eq!(pop_all(&mut h, a, 4, false), back);
}

#[test]
fn references_move_with_the_array() {
    let mut h = Heap::new();
    let mut roots: Vec<u64> = Vec::new();
    let mut outer = new_array(&mut h, 8, true);
    for v in 0..6u64 {
        roots.push(outer);
        let inner = h.array_new(8, false, 0, COLLECT, false, BUMP, false, &mut roots).unwrap();
        outer = roots.pop().unwrap();
        let inner = h.array_push(inner, v, 8, false, BUMP, false, &mut roots).unwrap();
        outer = h.array_push(outer, inner, 8, true, COLLECT, true, &mut roots).unwrap();
    }
    roots.push(outer);
    h.collect(&mut roots, true);
    let outer = roots.pop().unwrap();
    let mut got = Vec::new();
    while let Ok(inner) = h.array_pop(outer, 8, true, 1) {
        got.push(h.array_pop(inner, 8, false, 1).unwrap());
    }
    assert_eq!(got, vec![5, 4, 3, 2, 1, 0]);
}

#[test]
fn large_arrays_may_be_tenured() {
    let mut h = Heap::new();
    let mut roots: Vec<u64> = Vec::new();
    let a = h.array_new(8, true, 100, TENURED, false, TENURED, false, &mut roots).unwrap();
    let young = new_array(&mut h, 1, false);
    // A store into an old buffer is remembered.
    assert_eq!(h.array_push(a, young, 8, true, TENURED, false, &mut roots), Some(a));
    roots.push(a);
    h.collect(&mut roots, false);
    let moved = h.array_pop(roots[0], 8, true, 1).unwrap();
    assert!(moved >= OLD);
    assert!(h.array_pop(moved, 1, false, 1).is_err());
}

#[test]
fn no_room_for_a_huge_array() {
    let mut h = Heap::new();
    let mut roots: Vec<u64> = Vec::new();
    let r = h.array_new(8, true, 1 << 60, BUMP, false, BUMP, false, &mut roots);
    assert_eq!(r, None);
    assert!(roots.is_empty());
}
