//! The heap: objects in two generations, collected precisely.
//!
//! An object is named by a reference, a word. New objects are young; a minor
//! collection moves the ones that live into the old generation, and a major
//! one frees the old ones that nothing reaches. Words below both ranges name
//! static objects, or none, and are left alone.
use vstd::prelude::*;

use crate::counting::lemma_pigeonhole;
use crate::gc::{must_remember, Plan};
use crate::object::{
    bit, is_ref_word, known_kind, lists_in_order, payload, payload_size, ref_words, CrowDesc,
    KIND_STRUCT,
};

verus! {

/// Where references to young objects start.
pub const YOUNG: u64 = 0x4000_0000_0000_0000;

/// Where references to old objects start.
pub const OLD: u64 = 0x8000_0000_0000_0000;

/// How many objects a heap holds at most.
pub const LIMIT: u64 = 0x1000_0000_0000_0000;

pub struct Obj {
    pub desc: CrowDesc,
    pub aux: u64,
    /// The payload.
    pub words: Vec<u64>,
    /// Where a young object has moved to, or zero.
    pub moved: u64,
    pub marked: bool,
    /// Cleared when an old object is freed.
    pub live: bool,
}

#[verifier::ext_equal]
pub struct ObjView {
    pub desc: CrowDesc,
    pub aux: u64,
    pub words: Seq<u64>,
}

impl Obj {
    pub open spec fn view(&self) -> ObjView {
        ObjView { desc: self.desc, aux: self.aux, words: self.words@ }
    }
}

pub struct Heap {
    pub young: Vec<Obj>,
    pub old: Vec<Obj>,
    /// The reference words of old objects that may name young ones.
    pub remset: Vec<(usize, usize)>,
}

/// The objects of a heap by generation; freed ones are gone.
#[verifier::ext_equal]
pub struct HeapView {
    pub young: Seq<ObjView>,
    pub old: Seq<Option<ObjView>>,
}

pub open spec fn objs_view(s: Seq<Obj>) -> Seq<ObjView> {
    Seq::new(s.len(), |i: int| s[i]@)
}

pub open spec fn old_view(s: Seq<Obj>) -> Seq<Option<ObjView>> {
    Seq::new(
        s.len(),
        |i: int|
            if s[i].live {
                Some(s[i]@)
            } else {
                None
            },
    )
}

impl Heap {
    pub open spec fn view(&self) -> HeapView {
        HeapView { young: objs_view(self.young@), old: old_view(self.old@) }
    }
}

// -- References -------------------------------------------------------------

pub open spec fn is_young(v: u64) -> bool {
    YOUNG <= v < OLD
}

pub open spec fn is_old(v: u64) -> bool {
    OLD <= v
}

/// Does the word name an object of the heap, a static one, or none?
pub open spec fn ref_ok(h: HeapView, v: u64) -> bool {
    &&& is_young(v) ==> v - YOUNG < h.young.len()
    &&& is_old(v) ==> v - OLD < h.old.len() && h.old[v - OLD] is Some
}

/// Is word `w` of the object a reference?
pub open spec fn has_ref(o: ObjView, w: int) -> bool {
    0 <= w < o.words.len() && is_ref_word(o.desc, o.aux, w)
}

/// Are all references of an object within it and in order?
pub open spec fn obj_ok(h: HeapView, o: ObjView) -> bool {
    &&& forall|w: int| #[trigger] is_ref_word(o.desc, o.aux, w) ==> 0 <= w < o.words.len()
    &&& forall|w: int| #[trigger] has_ref(o, w) ==> ref_ok(h, o.words[w])
}

/// Does every reference in the heap name something?
pub open spec fn closed(h: HeapView) -> bool {
    &&& forall|i: int| 0 <= i < h.young.len() ==> obj_ok(h, #[trigger] h.young[i])
    &&& forall|j: int|
        0 <= j < h.old.len() && (#[trigger] h.old[j]) is Some ==> obj_ok(h, h.old[j]->0)
}

/// Is every edge from an old object to a young one remembered?
pub open spec fn remembers(h: HeapView, remset: Seq<(usize, usize)>) -> bool {
    &&& forall|r: int|
        0 <= r < remset.len() ==> {
            let (j, w) = #[trigger] remset[r];
            j < h.old.len() && h.old[j as int] is Some && has_ref(h.old[j as int]->0, w as int)
        }
    &&& forall|j: int, w: int|
        0 <= j < h.old.len() && h.old[j] is Some && #[trigger] has_ref(h.old[j]->0, w) && is_young(
            h.old[j]->0.words[w],
        ) ==> remset.contains((j as usize, w as usize))
}

impl Heap {
    pub open spec fn wf(self) -> bool {
        &&& closed(self@)
        &&& remembers(self@, self.remset@)
        &&& self.young@.len() + self.old@.len() <= LIMIT
        &&& forall|i: int| 0 <= i < self.young@.len() ==> (#[trigger] self.young@[i]).moved == 0
        &&& forall|j: int|
            0 <= j < self.old@.len() ==> (#[trigger] self.old@[j]).moved == 0
                && !self.old@[j].marked
    }
}

pub open spec fn roots_ok(h: HeapView, roots: Seq<u64>) -> bool {
    forall|k: int| 0 <= k < roots.len() ==> ref_ok(h, #[trigger] roots[k])
}

// -- Moving -----------------------------------------------------------------

/// A reference after young objects have moved to the old places `f` says.
pub open spec fn renamed(v: u64, f: Map<int, int>) -> u64 {
    if is_young(v) {
        (OLD + f[v - YOUNG]) as u64
    } else {
        v
    }
}

/// An object with its references renamed.
pub open spec fn renamed_obj(o: ObjView, f: Map<int, int>) -> ObjView {
    ObjView {
        words: Seq::new(
            o.words.len(),
            |w: int|
                if is_ref_word(o.desc, o.aux, w) {
                    renamed(o.words[w], f)
                } else {
                    o.words[w]
                },
        ),
        ..o
    }
}

/// Has everything that these references name moved?
pub open spec fn all_moved(o: ObjView, f: Map<int, int>) -> bool {
    forall|w: int| #[trigger] has_ref(o, w) && is_young(o.words[w]) ==> f.contains_key(
        o.words[w] - YOUNG,
    )
}

/// Is young object `i` among those that the roots and the old objects reach in
/// `n` more steps?
pub open spec fn wanted(h: HeapView, roots: Seq<u64>, n: nat, i: int) -> bool
    decreases n,
{
    if n == 0 {
        ||| exists|k: int| 0 <= k < roots.len() && #[trigger] roots[k] == YOUNG + i
        ||| exists|j: int, w: int|
            0 <= j < h.old.len() && h.old[j] is Some && #[trigger] has_ref(h.old[j]->0, w)
                && h.old[j]->0.words[w] == YOUNG + i
    } else {
        ||| wanted(h, roots, (n - 1) as nat, i)
        ||| exists|k: int, w: int|
            0 <= k < h.young.len() && #[trigger] has_ref(h.young[k], w) && h.young[k].words[w]
                == YOUNG + i && wanted(h, roots, (n - 1) as nat, k)
    }
}

/// Do the roots or the old objects reach young object `i`? A minor collection
/// takes all old objects to be alive.
pub open spec fn needed(h: HeapView, roots: Seq<u64>, i: int) -> bool {
    exists|n: nat| #[trigger] wanted(h, roots, n, i)
}

/// A minor collection: the young objects in the domain of `f`, which are those
/// that the roots and the old objects reach, have moved to
/// distinct new places behind the old ones, with all references to them
/// renamed, in the roots, in the old objects and in each other; nothing is
/// young any more, and nothing else has changed.
pub open spec fn evacuated(
    before: HeapView,
    roots: Seq<u64>,
    after: HeapView,
    new_roots: Seq<u64>,
    f: Map<int, int>,
) -> bool {
    &&& after.young.len() == 0
    &&& before.old.len() <= after.old.len()
    &&& forall|i: int| #[trigger]
        f.contains_key(i) ==> 0 <= i < before.young.len() && before.old.len() <= f[i]
            < after.old.len() && all_moved(before.young[i], f) && after.old[f[i]] == Some(
            renamed_obj(before.young[i], f),
        ) && needed(before, roots, i)
    &&& forall|i: int, k: int| #[trigger]
        f.contains_key(i) && #[trigger] f.contains_key(k) && f[i] == f[k] ==> i == k
    &&& forall|j: int|
        before.old.len() <= j < after.old.len() ==> (#[trigger] after.old[j]) is Some && exists|
            i: int,
        | #[trigger]
            f.contains_key(i) && f[i] == j
    &&& forall|j: int|
        0 <= j < before.old.len() ==> (match #[trigger] before.old[j] {
            Some(o) => all_moved(o, f) && after.old[j] == Some(renamed_obj(o, f)),
            None => after.old[j] is None,
        })
    &&& new_roots.len() == roots.len()
    &&& forall|k: int|
        0 <= k < roots.len() ==> #[trigger] new_roots[k] == renamed(roots[k], f) && (is_young(
            roots[k],
        ) ==> f.contains_key(roots[k] - YOUNG))
}

// -- A collection in progress -----------------------------------------------

/// Objects that have moved but are not scanned yet, where each one that
/// moved came from, and what the roots were.
struct Scan {
    todo: Vec<usize>,
    origin: Ghost<Seq<int>>,
    roots: Ghost<Seq<u64>>,
}

/// A reference as far as its object has moved.
spec fn forwarded(h: Heap, v: u64) -> u64 {
    if is_young(v) {
        h.young@[v - YOUNG].moved
    } else {
        v
    }
}

/// A copy, whose references are forwarded once it is scanned.
spec fn copy_ok(from: ObjView, h: Heap, j: int, done: bool) -> bool {
    let o = h.old@[j];
    &&& o.live
    &&& o.moved == 0
    &&& !o.marked
    &&& o.desc == from.desc
    &&& o.aux == from.aux
    &&& o.words@.len() == from.words.len()
    &&& forall|w: int|
        0 <= w < from.words.len() ==> #[trigger] o.words@[w] == (if done && is_ref_word(
            from.desc,
            from.aux,
            w,
        ) {
            forwarded(h, from.words[w])
        } else {
            from.words[w]
        })
    &&& done ==> forall|w: int| #[trigger] has_ref(from, w) ==> forwarded(h, from.words[w]) != 0
        || from.words[w] == 0
}

/// An object that was old, some of whose references are forwarded.
spec fn stays_ok(from: Option<ObjView>, h: Heap, j: int) -> bool {
    let o = h.old@[j];
    &&& o.moved == 0
    &&& !o.marked
    &&& o.live == (from is Some)
    &&& from matches Some(f) ==> {
        &&& o.desc == f.desc
        &&& o.aux == f.aux
        &&& o.words@.len() == f.words.len()
        &&& forall|w: int|
            0 <= w < f.words.len() ==> {
                ||| #[trigger] o.words@[w] == f.words[w]
                ||| is_ref_word(f.desc, f.aux, w) && is_young(f.words[w]) && forwarded(
                    h,
                    f.words[w],
                ) != 0 && o.words@[w] == forwarded(h, f.words[w])
            }
    }
}

/// The state of a collection that began with `h0`; object `busy` is just
/// being scanned.
spec fn midway(h0: HeapView, h: Heap, c: Scan, busy: int) -> bool {
    let n0 = h0.old.len() as int;
    let origin = c.origin@;
    &&& closed(h0)
    &&& h0.young.len() + h0.old.len() <= LIMIT
    &&& objs_view(h.young@) == h0.young
    &&& h.old@.len() == n0 + origin.len()
    &&& origin.len() <= h0.young.len()
    &&& forall|t: int|
        0 <= t < origin.len() ==> 0 <= #[trigger] origin[t] < h0.young.len()
            && h.young@[origin[t]].moved == OLD + n0 + t && needed(h0, c.roots@, origin[t])
    &&& forall|i: int|
        0 <= i < h0.young.len() ==> {
            let m = (#[trigger] h.young@[i]).moved;
            m == 0 || OLD + n0 <= m < OLD + h.old@.len() && origin[m - OLD - n0] == i
        }
    &&& forall|t: int|
        0 <= t < origin.len() && n0 + t != busy ==> copy_ok(
            h0.young[#[trigger] origin[t]],
            h,
            n0 + t,
            !c.todo@.contains((n0 + t) as usize),
        )
    &&& forall|j: int| 0 <= j < n0 ==> #[trigger] stays_ok(h0.old[j], h, j)
    &&& c.todo@.no_duplicates()
    &&& forall|k: int| 0 <= k < c.todo@.len() ==> n0 <= #[trigger] c.todo@[k] < h.old@.len()
    &&& !c.todo@.contains(busy as usize) || busy < 0
}

fn clone_words(ws: &Vec<u64>) -> (r: Vec<u64>)
    ensures
        r@ == ws@,
{
    let mut out: Vec<u64> = Vec::new();
    let mut i: usize = 0;
    while i < ws.len()
        invariant
            i <= ws.len(),
            out@ == ws@.take(i as int),
        decreases ws.len() - i,
    {
        out.push(ws[i]);
        assert(ws@.take(i as int + 1) =~= ws@.take(i as int).push(ws@[i as int]));
        i += 1;
    }
    assert(ws@.take(i as int) =~= ws@);
    out
}

/// Where each object that moved came from is all different.
proof fn lemma_room(h0: HeapView, h: Heap, c: Scan, busy: int, i: int)
    requires
        midway(h0, h, c, busy),
        0 <= i < h0.young.len(),
        h.young@[i].moved == 0,
    ensures
        c.origin@.len() < h0.young.len(),
{
    let origin = c.origin@;
    let s = origin.push(i);
    assert forall|a: int, b: int| 0 <= a < s.len() && 0 <= b < s.len() && a != b implies s[a]
        != s[b] by {
        if a < origin.len() && b < origin.len() {
            assert(h.young@[origin[a]].moved != h.young@[origin[b]].moved);
        } else if a < origin.len() {
            assert(h.young@[origin[a]].moved != 0);
        } else {
            assert(h.young@[origin[b]].moved != 0);
        }
    }
    assert forall|a: int| 0 <= a < s.len() implies 0 <= #[trigger] s[a] < h0.young.len() by {
        if a < origin.len() {
            assert(s[a] == origin[a]);
        }
    }
    lemma_pigeonhole(s, h0.young.len());
}

impl Heap {
    /// Forward a reference: copy the young object that it names into the old
    /// generation, unless that has been done.
    fn forward(&mut self, c: &mut Scan, v: u64, Ghost(h0): Ghost<HeapView>, Ghost(busy): Ghost<
        int,
    >) -> (r: u64)
        requires
            midway(h0, *old(self), *old(c), busy),
            busy < old(self).old@.len(),
            is_young(v) ==> v - YOUNG < h0.young.len() && needed(h0, old(c).roots@, v - YOUNG),
        ensures
            midway(h0, *final(self), *final(c), busy),
            r == forwarded(*final(self), v),
            is_young(v) ==> is_old(r),
            final(self).remset == old(self).remset,
            final(self).old@.len() >= old(self).old@.len(),
            forall|j: int|
                0 <= j < old(self).old@.len() ==> #[trigger] final(self).old@[j] == old(self).old@[j],
            forall|i: int|
                0 <= i < h0.young.len() && (#[trigger] old(self).young@[i]).moved != 0
                    ==> final(self).young@[i].moved == old(self).young@[i].moved,
            final(c).roots == old(c).roots,
            final(c).todo@.len() - old(c).todo@.len() == final(c).origin@.len() - old(c).origin@.len(),
            final(c).origin@.len() >= old(c).origin@.len(),
    {
        if v < YOUNG || v >= OLD {
            return v;
        }
        assert(objs_view(self.young@).len() == self.young.len());
        let i = (v - YOUNG) as usize;
        assert(h0.young[i as int] == self.young@[i as int]@);
        if self.young[i].moved != 0 {
            return self.young[i].moved;
        }
        proof {
            lemma_room(h0, *self, *c, busy, i as int);
        }
        let ghost first = *self;
        let ghost c0 = *c;
        let j = self.old.len();
        let copy = Obj {
            desc: self.young[i].desc,
            aux: self.young[i].aux,
            words: clone_words(&self.young[i].words),
            moved: 0,
            marked: false,
            live: true,
        };
        self.old.push(copy);
        let new = OLD + j as u64;
        self.young[i].moved = new;
        c.todo.push(j);
        proof {
            c.origin@ = c.origin@.push(i as int);
            let n0 = h0.old.len() as int;
            let origin = c.origin@;
            assert(objs_view(self.young@) =~= h0.young);
            assert forall|k: int| 0 <= k < h0.young.len() && k != i implies (
            #[trigger] self.young@[k]).moved == first.young@[k].moved by {}
            assert forall|t: int| 0 <= t < origin.len() implies 0 <= #[trigger] origin[t]
                < h0.young.len() && self.young@[origin[t]].moved == OLD + n0 + t && needed(
                h0,
                c.roots@,
                origin[t],
            ) by {
                if t < c0.origin@.len() {
                    assert(origin[t] == c0.origin@[t]);
                    assert(first.young@[c0.origin@[t]].moved != 0);
                }
            }
            assert forall|k: int| 0 <= k < h0.young.len() implies {
                let m = (#[trigger] self.young@[k]).moved;
                m == 0 || OLD + n0 <= m < OLD + self.old@.len() && origin[m - OLD - n0] == k
            } by {
                if k != i {
                    assert(self.young@[k].moved == first.young@[k].moved);
                }
            }
            assert forall|k: int| 0 <= k < c.todo@.len() implies n0 <= #[trigger] c.todo@[k]
                < self.old@.len() by {
                if k < c0.todo@.len() {
                    assert(c.todo@[k] == c0.todo@[k]);
                }
            }
            assert(!c0.todo@.contains(j));
            assert forall|x: usize| x != j implies c.todo@.contains(x) == #[trigger] c0.todo@.contains(
                x,
            ) by {
                if c0.todo@.contains(x) {
                    let k = choose|k: int| 0 <= k < c0.todo@.len() && c0.todo@[k] == x;
                    assert(c.todo@[k] == x);
                }
                if c.todo@.contains(x) {
                    let k = choose|k: int| 0 <= k < c.todo@.len() && c.todo@[k] == x;
                    assert(c0.todo@[k] == x);
                }
            }
            assert(c.todo@[c.todo@.len() - 1] == j);
            assert forall|t: int| 0 <= t < origin.len() && n0 + t != busy implies copy_ok(
                h0.young[#[trigger] origin[t]],
                *self,
                n0 + t,
                !c.todo@.contains((n0 + t) as usize),
            ) by {
                if t < c0.origin@.len() {
                    assert(origin[t] == c0.origin@[t]);
                    lemma_copy_kept(h0, h0.young[origin[t]], first, *self, n0 + t, !c0.todo@.contains(
                        (n0 + t) as usize,
                    ));
                }
            }
            assert forall|k: int| 0 <= k < n0 implies #[trigger] stays_ok(h0.old[k], *self, k) by {
                assert(stays_ok(h0.old[k], first, k));
                lemma_stays_kept(h0, h0.old[k], first, *self, k);
            }
        }
        new
    }
}

/// What is true of an object stays true while others move.
proof fn lemma_copy_kept(h0: HeapView, from: ObjView, a: Heap, b: Heap, j: int, done: bool)
    requires
        copy_ok(from, a, j, done),
        0 <= j < a.old@.len(),
        obj_ok(h0, from),
        b.old@.len() >= a.old@.len(),
        b.old@[j] == a.old@[j],
        forall|i: int|
            0 <= i < h0.young.len() && (#[trigger] a.young@[i]).moved != 0 ==> b.young@[i].moved
                == a.young@[i].moved,
    ensures
        copy_ok(from, b, j, done),
{
    if done {
        assert forall|w: int| #[trigger] has_ref(from, w) implies forwarded(b, from.words[w])
            == forwarded(a, from.words[w]) by {
            if is_young(from.words[w]) {
                assert(a.young@[from.words[w] - YOUNG].moved != 0);
            }
        }
        assert forall|w: int| 0 <= w < from.words.len() implies #[trigger] b.old@[j].words@[w] == (
        if done && is_ref_word(from.desc, from.aux, w) {
            forwarded(b, from.words[w])
        } else {
            from.words[w]
        }) by {
            if is_ref_word(from.desc, from.aux, w) {
                assert(has_ref(from, w));
            }
        }
    }
}

proof fn lemma_stays_kept(h0: HeapView, from: Option<ObjView>, a: Heap, b: Heap, j: int)
    requires
        stays_ok(from, a, j),
        0 <= j < a.old@.len(),
        from is Some ==> obj_ok(h0, from->0),
        b.old@.len() >= a.old@.len(),
        b.old@[j] == a.old@[j],
        forall|i: int|
            0 <= i < h0.young.len() && (#[trigger] a.young@[i]).moved != 0 ==> b.young@[i].moved
                == a.young@[i].moved,
    ensures
        stays_ok(from, b, j),
{
    if let Some(f) = from {
        assert forall|w: int| 0 <= w < f.words.len() implies {
            ||| #[trigger] b.old@[j].words@[w] == f.words[w]
            ||| is_ref_word(f.desc, f.aux, w) && is_young(f.words[w]) && forwarded(b, f.words[w])
                != 0 && b.old@[j].words@[w] == forwarded(b, f.words[w])
        } by {
            if a.old@[j].words@[w] != f.words[w] {
                assert(has_ref(f, w));
                assert(a.young@[f.words[w] - YOUNG].moved != 0);
            }
        }
    }
}

proof fn lemma_needed_more(h: HeapView, roots: Seq<u64>, k: int, w: int, i: int)
    requires
        0 <= k < h.young.len(),
        has_ref(h.young[k], w),
        h.young[k].words[w] == YOUNG + i,
        needed(h, roots, k),
    ensures
        needed(h, roots, i),
{
    let n = choose|n: nat| #[trigger] wanted(h, roots, n, k);
    assert(wanted(h, roots, n + 1, i));
}

// -- Minor collections ------------------------------------------------------

/// The object just being scanned: the references at the first `k` places of
/// the list are forwarded.
spec fn partly(from: ObjView, h: Heap, j: int, ws: Seq<u64>, k: int) -> bool {
    let o = h.old@[j];
    &&& o.live
    &&& o.moved == 0
    &&& !o.marked
    &&& o.desc == from.desc
    &&& o.aux == from.aux
    &&& o.words@.len() == from.words.len()
    &&& forall|w: int|
        0 <= w < from.words.len() ==> #[trigger] o.words@[w] == (if ws.take(k).contains(w as u64) {
            forwarded(h, from.words[w])
        } else {
            from.words[w]
        })
    &&& forall|x: int|
        0 <= x < k ==> forwarded(h, from.words[#[trigger] ws[x] as int]) != 0
            || from.words[ws[x] as int] == 0
}

/// One write to the object being scanned leaves the others as they are.
proof fn lemma_busy_write(h0: HeapView, a: Heap, b: Heap, c: Scan, j: int)
    requires
        midway(h0, a, c, j),
        0 <= j < a.old@.len(),
        b.young == a.young,
        b.old@.len() == a.old@.len(),
        forall|i: int| 0 <= i < a.old@.len() && i != j ==> #[trigger] b.old@[i] == a.old@[i],
        j >= h0.old.len() || stays_ok(h0.old[j], b, j),
    ensures
        midway(h0, b, c, j),
{
    let n0 = h0.old.len() as int;
    let origin = c.origin@;
    assert forall|t: int| 0 <= t < origin.len() && n0 + t != j implies copy_ok(
        h0.young[#[trigger] origin[t]],
        b,
        n0 + t,
        !c.todo@.contains((n0 + t) as usize),
    ) by {
        lemma_copy_kept(h0, h0.young[origin[t]], a, b, n0 + t, !c.todo@.contains(
            (n0 + t) as usize,
        ));
    }
    assert forall|k: int| 0 <= k < n0 implies #[trigger] stays_ok(h0.old[k], b, k) by {
        assert(stays_ok(h0.old[k], a, k));
        if k != j {
            lemma_stays_kept(h0, h0.old[k], a, b, k);
        }
    }
}

impl Heap {
    /// Scan one copy: forward all its references.
    fn scan(&mut self, c: &mut Scan, j: usize, Ghost(h0): Ghost<HeapView>)
        requires
            midway(h0, *old(self), *old(c), j as int),
            h0.old.len() <= j < old(self).old@.len(),
            copy_ok(
                h0.young[old(c).origin@[j - h0.old.len()]],
                *old(self),
                j as int,
                false,
            ),
        ensures
            midway(h0, *final(self), *final(c), -1),
            final(self).remset == old(self).remset,
            forall|i: int|
                0 <= i < h0.old.len() ==> #[trigger] final(self).old@[i] == old(self).old@[i],
            forall|i: int|
                0 <= i < h0.young.len() && (#[trigger] old(self).young@[i]).moved != 0
                    ==> final(self).young@[i].moved == old(self).young@[i].moved,
            final(c).roots == old(c).roots,
            final(c).todo@.len() - old(c).todo@.len() == final(c).origin@.len() - old(c).origin@.len(),
            final(c).origin@.len() >= old(c).origin@.len(),
    {
        let ws = ref_words(self.old[j].desc, self.old[j].aux);
        let ghost n0 = h0.old.len() as int;
        let ghost t = j - n0;
        let ghost from = h0.young[c.origin@[t]];
        let ghost p = |w: int| is_ref_word(from.desc, from.aux, w);
        assert(lists_in_order(ws@, p));
        assert(obj_ok(h0, from));
        let mut k: usize = 0;
        assert(ws@.take(0) =~= Seq::empty());
        while k < ws.len()
            invariant
                k <= ws.len(),
                n0 == h0.old.len(),
                t == j - n0,
                0 <= t < c.origin@.len(),
                from == h0.young[c.origin@[t]],
                obj_ok(h0, from),
                p == (|w: int| is_ref_word(from.desc, from.aux, w)),
                lists_in_order(ws@, p),
                midway(h0, *self, *c, j as int),
                n0 <= j < self.old@.len(),
                partly(from, *self, j as int, ws@, k as int),
                self.remset == old(self).remset,
                forall|i: int|
                    0 <= i < h0.old.len() ==> #[trigger] self.old@[i] == old(self).old@[i],
                forall|i: int|
                    0 <= i < h0.young.len() && (#[trigger] old(self).young@[i]).moved != 0
                        ==> self.young@[i].moved == old(self).young@[i].moved,
                c.roots == old(c).roots,
                c.todo@.len() - old(c).todo@.len() == c.origin@.len() - old(c).origin@.len(),
                c.origin@.len() >= old(c).origin@.len(),
            decreases ws.len() - k,
        {
            let ghost w = ws@[k as int] as int;
            proof {
                assert(p(w));
                assert(is_ref_word(from.desc, from.aux, w));
                assert(has_ref(from, w));
                assert(!ws@.take(k as int).contains(w as u64)) by {
                    if ws@.take(k as int).contains(w as u64) {
                        let x = choose|x: int|
                            0 <= x < k && ws@.take(k as int)[x] == w as u64;
                        assert(ws@[x] < ws@[k as int]);
                    }
                }
                assert(self.old@[j as int].words@[w] == from.words[w]);
                assert(self.old@[j as int].words@.len() == self.old@[j as int].words.len());
            }
            let at = ws[k] as usize;
            let v = self.old[j].words[at];
            let ghost a = *self;
            let ghost ca = *c;
            proof {
                assert(needed(h0, c.roots@, c.origin@[t]));
                if is_young(v) {
                    assert(ref_ok(h0, v));
                    lemma_needed_more(h0, c.roots@, c.origin@[t], w, v - YOUNG);
                }
            }
            let r = self.forward(c, v, Ghost(h0), Ghost(j as int));
            let ghost b = *self;
            assert(c.origin@[t] == ca.origin@[t]) by {
                assert(a.young@[ca.origin@[t]].moved == OLD + n0 + t);
                assert(b.young@[ca.origin@[t]].moved == OLD + n0 + t);
            }
            self.old[j].words[at] = r;
            proof {
                assert forall|i: int| 0 <= i < b.old@.len() && i != j implies
                    #[trigger] self.old@[i] == b.old@[i] by {}
                lemma_busy_write(h0, b, *self, *c, j as int);
                lemma_partly(from, h0, a, b, *self, j as int, ws@, k as int, r);
            }
            k += 1;
        }
        proof {
            assert(ws@.take(k as int) =~= ws@);
            assert forall|x: int| 0 <= x < from.words.len() implies #[trigger] self.old@[j as int].words@[x]
                == (if is_ref_word(from.desc, from.aux, x) {
                forwarded(*self, from.words[x])
            } else {
                from.words[x]
            }) by {
                assert(from.words.len() == self.old@[j as int].words.len());
                if is_ref_word(from.desc, from.aux, x) {
                    assert(p(x as u64 as int));
                } else if ws@.contains(x as u64) {
                    let y = choose|y: int| 0 <= y < ws@.len() && ws@[y] == x as u64;
                    assert(p(ws@[y] as int));
                }
            }
            assert forall|x: int| #[trigger] has_ref(from, x) implies forwarded(
                *self,
                from.words[x],
            ) != 0 || from.words[x] == 0 by {
                assert(from.words.len() == self.old@[j as int].words.len());
                assert(p(x as u64 as int));
                let y = choose|y: int| 0 <= y < ws@.len() && ws@[y] == x as u64;
                assert(ws@[y] == x);
            }
            assert(copy_ok(from, *self, j as int, true));
            assert forall|s: int| 0 <= s < c.origin@.len() && n0 + s != -1 implies copy_ok(
                h0.young[#[trigger] c.origin@[s]],
                *self,
                n0 + s,
                !c.todo@.contains((n0 + s) as usize),
            ) by {
                if s == t {
                    assert(!c.todo@.contains(j));
                }
            }
        }
    }
}

proof fn lemma_partly(
    from: ObjView,
    h0: HeapView,
    a: Heap,
    b: Heap,
    d: Heap,
    j: int,
    ws: Seq<u64>,
    k: int,
    r: u64,
)
    requires
        partly(from, a, j, ws, k),
        obj_ok(h0, from),
        0 <= j < a.old@.len() <= b.old@.len(),
        0 <= k < ws.len(),
        lists_in_order(ws, |w: int| is_ref_word(from.desc, from.aux, w)),
        b.old@[j] == a.old@[j],
        d.young == b.young,
        d.old@[j] == (Obj {
            words: d.old@[j].words,
            ..b.old@[j]
        }),
        d.old@[j].words@ == b.old@[j].words@.update(ws[k] as int, r),
        r == forwarded(b, from.words[ws[k] as int]),
        is_young(from.words[ws[k] as int]) ==> is_old(r),
        forall|i: int|
            0 <= i < h0.young.len() && (#[trigger] a.young@[i]).moved != 0 ==> b.young@[i].moved
                == a.young@[i].moved,
    ensures
        partly(from, d, j, ws, k + 1),
{
    let p = |w: int| is_ref_word(from.desc, from.aux, w);
    assert forall|x: int| 0 <= x < k implies forwarded(d, from.words[#[trigger] ws[x] as int])
        == forwarded(a, from.words[ws[x] as int]) by {
        assert(p(ws[x] as int));
        assert(has_ref(from, ws[x] as int));
        if is_young(from.words[ws[x] as int]) {
            assert(a.young@[from.words[ws[x] as int] - YOUNG].moved != 0);
        }
    }
    assert(p(ws[k] as int));
    assert forall|w: int| 0 <= w < from.words.len() implies #[trigger] d.old@[j].words@[w] == (
    if ws.take(k + 1).contains(w as u64) {
        forwarded(d, from.words[w])
    } else {
        from.words[w]
    }) by {
        assert(from.words.len() == a.old@[j].words.len());
        if ws.take(k).contains(w as u64) {
            let x = choose|x: int| 0 <= x < k && ws.take(k)[x] == w as u64;
            assert(ws.take(k + 1)[x] == w as u64);
            assert(ws[x] == w);
            assert(ws[x] < ws[k]);
        }
        if w == ws[k] {
            assert(ws.take(k + 1)[k] == w as u64);
        } else if ws.take(k + 1).contains(w as u64) {
            let upto = ws.take(k + 1);
            let x = choose|x: int| 0 <= x < upto.len() && upto[x] == w as u64;
            assert(ws.take(k)[x] == w as u64);
        }
    }
    assert forall|x: int| 0 <= x < k + 1 implies forwarded(d, from.words[#[trigger] ws[x] as int])
        != 0 || from.words[ws[x] as int] == 0 by {
        if x < k {
            assert(forwarded(a, from.words[ws[x] as int]) != 0 || from.words[ws[x] as int] == 0);
        }
    }
}

/// Has the remembered word been forwarded?
spec fn settled(h: Heap, slot: (usize, usize)) -> bool {
    !is_young(h.old@[slot.0 as int].words@[slot.1 as int])
}

impl Heap {
    /// Forward the roots.
    fn forward_roots(&mut self, c: &mut Scan, roots: &mut Vec<u64>, Ghost(h0): Ghost<HeapView>)
        requires
            midway(h0, *old(self), *old(c), -1),
            roots_ok(h0, old(roots)@),
            old(c).roots@ == old(roots)@,
        ensures
            final(c).roots == old(c).roots,
            midway(h0, *final(self), *final(c), -1),
            final(self).remset == old(self).remset,
            final(roots)@.len() == old(roots)@.len(),
            forall|k: int|
                0 <= k < old(roots)@.len() ==> #[trigger] final(roots)@[k] == forwarded(
                    *final(self),
                    old(roots)@[k],
                ) && (is_young(old(roots)@[k]) ==> is_old(final(roots)@[k])),
            forall|i: int|
                0 <= i < h0.old.len() ==> #[trigger] final(self).old@[i] == old(self).old@[i],
    {
        let mut k: usize = 0;
        let n = roots.len();
        while k < n
            invariant
                k <= n,
                n == roots@.len(),
                roots@.len() == old(roots)@.len(),
                roots_ok(h0, old(roots)@),
                c.roots == old(c).roots,
                c.roots@ == old(roots)@,
                midway(h0, *self, *c, -1),
                self.remset == old(self).remset,
                forall|x: int|
                    0 <= x < k ==> #[trigger] roots@[x] == forwarded(*self, old(roots)@[x]) && (
                    is_young(old(roots)@[x]) ==> is_old(roots@[x])),
                forall|x: int| k <= x < n ==> #[trigger] roots@[x] == old(roots)@[x],
                forall|i: int|
                    0 <= i < h0.old.len() ==> #[trigger] self.old@[i] == old(self).old@[i],
            decreases n - k,
        {
            let ghost before = *self;
            proof {
                let v = old(roots)@[k as int];
                assert(ref_ok(h0, v));
                if is_young(v) {
                    assert(wanted(h0, c.roots@, 0, v - YOUNG));
                }
            }
            let r = self.forward(c, roots[k], Ghost(h0), Ghost(-1));
            let ghost was = roots@;
            roots[k] = r;
            proof {
                assert forall|x: int| 0 <= x < k + 1 implies #[trigger] roots@[x] == forwarded(
                    *self,
                    old(roots)@[x],
                ) && (is_young(old(roots)@[x]) ==> is_old(roots@[x])) by {
                    if x < k {
                        assert(roots@[x] == was[x]);
                        assert(ref_ok(h0, old(roots)@[x]));
                        if is_young(old(roots)@[x]) {
                            assert(before.young@[old(roots)@[x] - YOUNG].moved != 0);
                        }
                    }
                }
            }
            k += 1;
        }
    }

    /// Forward the remembered words.
    fn forward_remset(&mut self, c: &mut Scan, Ghost(h0): Ghost<HeapView>)
        requires
            midway(h0, *old(self), *old(c), -1),
            remembers(h0, old(self).remset@),
        ensures
            final(c).roots == old(c).roots,
            midway(h0, *final(self), *final(c), -1),
            final(self).remset == old(self).remset,
            forall|r: int|
                0 <= r < old(self).remset@.len() ==> settled(
                    *final(self),
                    #[trigger] old(self).remset@[r],
                ),
            forall|i: int|
                0 <= i < h0.young.len() && (#[trigger] old(self).young@[i]).moved != 0
                    ==> final(self).young@[i].moved == old(self).young@[i].moved,
    {
        let mut k: usize = 0;
        while k < self.remset.len()
            invariant
                k <= self.remset@.len(),
                self.remset == old(self).remset,
                remembers(h0, self.remset@),
                c.roots == old(c).roots,
                midway(h0, *self, *c, -1),
                forall|r: int| 0 <= r < k ==> settled(*self, #[trigger] self.remset@[r]),
                forall|i: int|
                    0 <= i < h0.young.len() && (#[trigger] old(self).young@[i]).moved != 0
                        ==> self.young@[i].moved == old(self).young@[i].moved,
            decreases self.remset@.len() - k,
        {
            let (j, w) = self.remset[k];
            proof {
                assert(self.remset@[k as int] == (j, w));
                assert(has_ref(h0.old[j as int]->0, w as int));
                assert(stays_ok(h0.old[j as int], *self, j as int));
                assert(obj_ok(h0, h0.old[j as int]->0));
            }
            let ghost from = h0.old[j as int]->0;
            let v = self.old[j].words[w];
            let ghost a = *self;
            proof {
                if is_young(v) {
                    // Forwarded words are not young.
                    assert(v == from.words[w as int]) by {
                        if v != from.words[w as int] {
                            assert(a.young@[from.words[w as int] - YOUNG].moved == v);
                        }
                    }
                    assert(ref_ok(h0, v));
                    assert(wanted(h0, c.roots@, 0, v - YOUNG));
                }
            }
            let r = self.forward(c, v, Ghost(h0), Ghost(-1));
            let ghost b = *self;
            self.old[j].words[w] = r;
            proof {
                assert(stays_ok(h0.old[j as int], b, j as int));
                assert forall|x: int| 0 <= x < from.words.len() implies {
                    ||| #[trigger] self.old@[j as int].words@[x] == from.words[x]
                    ||| is_ref_word(from.desc, from.aux, x) && is_young(from.words[x])
                        && forwarded(*self, from.words[x]) != 0 && self.old@[j as int].words@[x]
                        == forwarded(*self, from.words[x])
                } by {
                    if x == w {
                        assert(b.old@[j as int].words@[w as int] == v);
                        if !is_young(v) {
                            assert(r == v);
                        }
                    } else {
                        assert(self.old@[j as int].words@[x] == b.old@[j as int].words@[x]);
                    }
                }
                assert(stays_ok(h0.old[j as int], *self, j as int));
                assert forall|i: int| 0 <= i < b.old@.len() && i != j implies
                    #[trigger] self.old@[i] == b.old@[i] by {}
                lemma_stay_write(h0, b, *self, *c, j as int);
                assert(!is_young(r));
                assert forall|x: int| 0 <= x < k + 1 implies settled(
                    *self,
                    #[trigger] self.remset@[x],
                ) by {
                    if x < k {
                        let (y, z) = self.remset@[x];
                        assert(settled(a, self.remset@[x]));
                        assert(has_ref(h0.old[y as int]->0, z as int));
                        assert(b.old@[y as int] == a.old@[y as int]);
                    }
                }
            }
            k += 1;
        }
    }

    /// Scan until everything that moved is scanned.
    fn scan_all(&mut self, c: &mut Scan, Ghost(h0): Ghost<HeapView>)
        requires
            midway(h0, *old(self), *old(c), -1),
        ensures
            midway(h0, *final(self), *final(c), -1),
            final(c).todo@.len() == 0,
            final(c).roots == old(c).roots,
            final(self).remset == old(self).remset,
            forall|i: int|
                0 <= i < h0.old.len() ==> #[trigger] final(self).old@[i] == old(self).old@[i],
            forall|i: int|
                0 <= i < h0.young.len() && (#[trigger] old(self).young@[i]).moved != 0
                    ==> final(self).young@[i].moved == old(self).young@[i].moved,
    {
        while c.todo.len() > 0
            invariant
                c.roots == old(c).roots,
                midway(h0, *self, *c, -1),
                self.remset == old(self).remset,
                forall|i: int|
                    0 <= i < h0.old.len() ==> #[trigger] self.old@[i] == old(self).old@[i],
                forall|i: int|
                    0 <= i < h0.young.len() && (#[trigger] old(self).young@[i]).moved != 0
                        ==> self.young@[i].moved == old(self).young@[i].moved,
            decreases h0.young.len() - c.origin@.len(), c.todo@.len(),
        {
            let ghost before = c.todo@;
            let ghost c0 = *c;
            let j = match c.todo.pop() {
                Some(j) => j,
                None => {
                    return;
                },
            };
            proof {
                let n0 = h0.old.len() as int;
                let last = before.len() - 1;
                assert(before[last] == j);
                assert forall|x: usize| x != j implies c.todo@.contains(x)
                    == #[trigger] before.contains(x) by {
                    if before.contains(x) {
                        let k = choose|k: int| 0 <= k < before.len() && before[k] == x;
                        assert(c.todo@[k] == x);
                    }
                    if c.todo@.contains(x) {
                        let k = choose|k: int| 0 <= k < c.todo@.len() && c.todo@[k] == x;
                        assert(before[k] == x);
                    }
                }
                assert(!c.todo@.contains(j)) by {
                    if c.todo@.contains(j) {
                        let k = choose|k: int| 0 <= k < c.todo@.len() && c.todo@[k] == j;
                        assert(before[k] == before[last]);
                    }
                }
                assert forall|k: int| 0 <= k < c.todo@.len() implies n0 <= #[trigger] c.todo@[k]
                    < self.old@.len() by {
                    assert(c.todo@[k] == before[k]);
                }
                let t = j - n0;
                assert(before.contains((n0 + t) as usize));
                assert(copy_ok(h0.young[c.origin@[t]], *self, j as int, false));
                assert forall|s: int|
                    0 <= s < c.origin@.len() && n0 + s != j implies copy_ok(
                    h0.young[#[trigger] c.origin@[s]],
                    *self,
                    n0 + s,
                    !c.todo@.contains((n0 + s) as usize),
                ) by {
                    assert(self.old@.len() == self.old.len());
                    assert((n0 + s) as usize != j);
                    assert(copy_ok(
                        h0.young[c0.origin@[s]],
                        *self,
                        n0 + s,
                        !before.contains((n0 + s) as usize),
                    ));
                }
                assert(midway(h0, *self, *c, j as int));
            }
            self.scan(c, j, Ghost(h0));
        }
    }
}

proof fn lemma_stay_write(h0: HeapView, a: Heap, b: Heap, c: Scan, j: int)
    requires
        midway(h0, a, c, -1),
        0 <= j < h0.old.len(),
        b.young == a.young,
        b.old@.len() == a.old@.len(),
        forall|i: int| 0 <= i < a.old@.len() && i != j ==> #[trigger] b.old@[i] == a.old@[i],
        stays_ok(h0.old[j], b, j),
    ensures
        midway(h0, b, c, -1),
{
    let n0 = h0.old.len() as int;
    let origin = c.origin@;
    assert forall|t: int| 0 <= t < origin.len() && n0 + t != -1 implies copy_ok(
        h0.young[#[trigger] origin[t]],
        b,
        n0 + t,
        !c.todo@.contains((n0 + t) as usize),
    ) by {
        lemma_copy_kept(h0, h0.young[origin[t]], a, b, n0 + t, !c.todo@.contains(
            (n0 + t) as usize,
        ));
    }
    assert forall|k: int| 0 <= k < n0 implies #[trigger] stays_ok(h0.old[k], b, k) by {
        assert(stays_ok(h0.old[k], a, k));
        if k != j {
            lemma_stays_kept(h0, h0.old[k], a, b, k);
        }
    }
}

/// Where the young objects that moved are now.
spec fn moves(h: Heap) -> Map<int, int> {
    Map::new(
        |i: int| 0 <= i < h.young@.len() && h.young@[i].moved != 0,
        |i: int| h.young@[i].moved - OLD,
    )
}

proof fn lemma_renamed(h: Heap, v: u64)
    requires
        is_young(v) ==> v - YOUNG < h.young@.len() && OLD <= h.young@[v - YOUNG].moved,
    ensures
        renamed(v, moves(h)) == forwarded(h, v),
        is_young(v) ==> moves(h).contains_key(v - YOUNG),
{
}

/// A copy that is scanned is the object with its references renamed.
proof fn lemma_copy_done(h0: HeapView, h: Heap, c: Scan, from: ObjView, j: int)
    requires
        midway(h0, h, c, -1),
        copy_ok(from, h, j, true),
        obj_ok(h0, from),
    ensures
        all_moved(from, moves(h)),
        h.old@[j]@ == renamed_obj(from, moves(h)),
{
    let f = moves(h);
    assert forall|w: int| #[trigger] has_ref(from, w) && is_young(from.words[w]) implies f.contains_key(
        from.words[w] - YOUNG,
    ) by {
        assert(h.young@[from.words[w] - YOUNG].moved != 0);
        lemma_renamed(h, from.words[w]);
    }
    assert(h.old@[j]@.words =~= renamed_obj(from, f).words) by {
        assert forall|w: int| 0 <= w < from.words.len() implies h.old@[j]@.words[w]
            == renamed_obj(from, f).words[w] by {
            assert(h.old@[j].words@[w] == h.old@[j]@.words[w]);
            if is_ref_word(from.desc, from.aux, w) {
                assert(has_ref(from, w));
                if is_young(from.words[w]) {
                    assert(h.young@[from.words[w] - YOUNG].moved != 0);
                }
                lemma_renamed(h, from.words[w]);
            }
        }
    }
}

/// So is an object that was old, once its remembered words are forwarded.
proof fn lemma_stay_done(
    h0: HeapView,
    h: Heap,
    c: Scan,
    from: ObjView,
    remset: Seq<(usize, usize)>,
    j: int,
)
    requires
        midway(h0, h, c, -1),
        0 <= j < h0.old.len(),
        h0.old[j] == Some(from),
        remembers(h0, remset),
        forall|r: int| 0 <= r < remset.len() ==> settled(h, #[trigger] remset[r]),
    ensures
        all_moved(from, moves(h)),
        h.old@[j]@ == renamed_obj(from, moves(h)),
{
    let f = moves(h);
    assert(obj_ok(h0, from));
    assert(stays_ok(h0.old[j], h, j));
    assert forall|w: int| #[trigger] has_ref(from, w) implies h.old@[j].words@[w] == renamed(
        from.words[w],
        f,
    ) && (is_young(from.words[w]) ==> f.contains_key(from.words[w] - YOUNG)) by {
        if is_young(from.words[w]) {
            assert(has_ref(h0.old[j]->0, w));
            let r = choose|r: int| 0 <= r < remset.len() && remset[r] == (j as usize, w as usize);
            assert(h.old@.len() == h.old.len());
            assert(h.old@[j].words@.len() == h.old@[j].words.len());
            assert(settled(h, remset[r]));
            assert(h.old@[j].words@[w] != from.words[w]);
            lemma_renamed(h, from.words[w]);
        } else {
            assert(h.old@[j].words@[w] == from.words[w]);
        }
    }
    assert(h.old@[j]@.words =~= renamed_obj(from, f).words) by {
        assert forall|w: int| 0 <= w < from.words.len() implies h.old@[j]@.words[w]
            == renamed_obj(from, f).words[w] by {
            assert(h.old@[j].words@[w] == h.old@[j]@.words[w]);
            if is_ref_word(from.desc, from.aux, w) {
                assert(has_ref(from, w));
            }
        }
    }
}

/// What is renamed names something after the collection.
proof fn lemma_renamed_ok(before: HeapView, after: HeapView, o: ObjView, f: Map<int, int>)
    requires
        obj_ok(before, o),
        all_moved(o, f),
        before.old.len() <= after.old.len() <= LIMIT,
        forall|i: int| #[trigger]
            f.contains_key(i) ==> before.old.len() <= f[i] < after.old.len() && after.old[f[i]]
                is Some,
        forall|j: int|
            0 <= j < before.old.len() && (#[trigger] before.old[j]) is Some ==> after.old[j]
                is Some,
    ensures
        obj_ok(after, renamed_obj(o, f)),
        forall|w: int| #[trigger]
            has_ref(renamed_obj(o, f), w) ==> !is_young(renamed_obj(o, f).words[w]),
{
    let n = renamed_obj(o, f);
    assert forall|w: int| #[trigger] is_ref_word(n.desc, n.aux, w) implies 0 <= w < n.words.len() by {
        assert(is_ref_word(o.desc, o.aux, w));
    }
    assert forall|w: int| #[trigger] has_ref(n, w) implies ref_ok(after, n.words[w]) && !is_young(
        n.words[w],
    ) by {
        assert(has_ref(o, w));
        assert(ref_ok(before, o.words[w]));
        if is_young(o.words[w]) {
            assert(f.contains_key(o.words[w] - YOUNG));
        } else if is_old(o.words[w]) {
            assert(before.old[o.words[w] - OLD] is Some);
        }
    }
}

impl Heap {
    /// Move all young objects that the roots reach into the old generation.
    pub fn minor_gc(&mut self, roots: &mut Vec<u64>)
        requires
            old(self).wf(),
            roots_ok(old(self)@, old(roots)@),
        ensures
            final(self).wf(),
            roots_ok(final(self)@, final(roots)@),
            exists|f: Map<int, int>|
                evacuated(old(self)@, old(roots)@, final(self)@, final(roots)@, f),
    {
        let ghost h0 = self@;
        let ghost n0 = h0.old.len() as int;
        let mut c = Scan { todo: Vec::new(), origin: Ghost(Seq::empty()), roots: Ghost(roots@) };
        proof {
            assert forall|j: int| 0 <= j < n0 implies #[trigger] stays_ok(h0.old[j], *self, j) by {
                assert(self.old@[j].moved == 0);
            }
        }
        assert(midway(h0, *self, c, -1));
        self.forward_roots(&mut c, roots, Ghost(h0));
        let ghost h1 = *self;
        self.forward_remset(&mut c, Ghost(h0));
        let ghost h2 = *self;
        self.scan_all(&mut c, Ghost(h0));
        let ghost h = *self;
        let ghost f = moves(h);
        self.young = Vec::new();
        self.remset = Vec::new();
        proof {
            let after = self@;
            let origin = c.origin@;
            assert(after.young =~= Seq::empty());
            assert forall|r: int| 0 <= r < h.remset@.len() implies settled(
                h,
                #[trigger] h.remset@[r],
            ) by {
                let (y, z) = h.remset@[r];
                assert(settled(h2, h2.remset@[r]));
                assert(h0.old[y as int] is Some);
                assert(h.old@[y as int] == h2.old@[y as int]);
            }
            assert forall|i: int| #[trigger] f.contains_key(i) implies 0 <= i < h0.young.len()
                && n0 <= f[i] < after.old.len() && all_moved(h0.young[i], f) && after.old[f[i]]
                == Some(renamed_obj(h0.young[i], f)) && needed(h0, old(roots)@, i) by {
                let t = f[i] - n0;
                assert(origin[t] == i);
                assert(copy_ok(h0.young[origin[t]], h, n0 + t, true)) by {
                    assert(!c.todo@.contains((n0 + t) as usize));
                }
                lemma_copy_done(h0, h, c, h0.young[i], n0 + t);
            }
            assert forall|i: int, k: int| #[trigger]
                f.contains_key(i) && #[trigger] f.contains_key(k) && f[i] == f[k] implies i == k by {
                assert(origin[f[i] - n0] == i);
                assert(origin[f[k] - n0] == k);
            }
            assert forall|j: int| n0 <= j < after.old.len() implies (#[trigger] after.old[j]) is Some
                && exists|i: int| #[trigger] f.contains_key(i) && f[i] == j by {
                let i = origin[j - n0];
                assert(h.young@[i].moved == OLD + j);
                assert(f.contains_key(i) && f[i] == j);
            }
            assert forall|j: int| 0 <= j < n0 implies (match #[trigger] h0.old[j] {
                Some(o) => all_moved(o, f) && after.old[j] == Some(renamed_obj(o, f)),
                None => after.old[j] is None,
            }) by {
                assert(stays_ok(h0.old[j], h, j));
                if let Some(o) = h0.old[j] {
                    lemma_stay_done(h0, h, c, o, h.remset@, j);
                }
            }
            assert forall|k: int| 0 <= k < old(roots)@.len() implies #[trigger] roots@[k] == renamed(
                old(roots)@[k],
                f,
            ) && (is_young(old(roots)@[k]) ==> f.contains_key(old(roots)@[k] - YOUNG)) by {
                let v = old(roots)@[k];
                assert(ref_ok(h0, v));
                if is_young(v) {
                    assert(h1.young@[v - YOUNG].moved == roots@[k]);
                    assert(h1.young@[v - YOUNG].moved != 0);
                    assert(h2.young@[v - YOUNG].moved == roots@[k]);
                    assert(h.young@[v - YOUNG].moved == roots@[k]);
                }
                lemma_renamed(h, v);
            }
            assert(evacuated(h0, old(roots)@, after, roots@, f));
            lemma_evacuated_wf(h0, old(roots)@, after, roots@, f);
            assert forall|j: int| 0 <= j < self.old@.len() implies (#[trigger] self.old@[j]).moved
                == 0 && !self.old@[j].marked by {
                if j < n0 {
                    assert(stays_ok(h0.old[j], h, j));
                } else {
                    let t = j - n0;
                    assert(copy_ok(h0.young[origin[t]], h, n0 + t, !c.todo@.contains(
                        (n0 + t) as usize,
                    )));
                }
            }
        }
    }
}

/// A minor collection makes no more objects than there were.
pub proof fn lemma_evacuated_room(
    before: HeapView,
    roots: Seq<u64>,
    after: HeapView,
    new_roots: Seq<u64>,
    f: Map<int, int>,
)
    requires
        evacuated(before, roots, after, new_roots, f),
    ensures
        after.old.len() <= before.young.len() + before.old.len(),
{
    let n0 = before.old.len() as int;
    let s = Seq::new(
        (after.old.len() - n0) as nat,
        |t: int| choose|i: int| #[trigger] f.contains_key(i) && f[i] == n0 + t,
    );
    assert forall|t: int| 0 <= t < s.len() implies 0 <= #[trigger] s[t] < before.young.len()
        && f.contains_key(s[t]) && f[s[t]] == n0 + t by {
        assert(after.old[n0 + t] is Some);
    }
    assert forall|a: int, b: int| 0 <= a < s.len() && 0 <= b < s.len() && a != b implies s[a]
        != s[b] by {
        assert(f[s[a]] == n0 + a && f[s[b]] == n0 + b);
    }
    lemma_pigeonhole(s, before.young.len());
}

/// A heap after a minor collection is in order.
pub proof fn lemma_evacuated_wf(
    before: HeapView,
    roots: Seq<u64>,
    after: HeapView,
    new_roots: Seq<u64>,
    f: Map<int, int>,
)
    requires
        closed(before),
        roots_ok(before, roots),
        evacuated(before, roots, after, new_roots, f),
        after.old.len() <= LIMIT,
    ensures
        closed(after),
        remembers(after, Seq::empty()),
        roots_ok(after, new_roots),
{
    let n0 = before.old.len() as int;
    assert forall|j: int| 0 <= j < n0 && (#[trigger] before.old[j]) is Some implies after.old[j]
        is Some by {}
    assert forall|j: int| 0 <= j < after.old.len() && (#[trigger] after.old[j]) is Some implies
        obj_ok(after, after.old[j]->0) && forall|w: int| #[trigger]
        has_ref(after.old[j]->0, w) ==> !is_young(after.old[j]->0.words[w]) by {
        if j < n0 {
            assert(before.old[j] is Some);
            let o = before.old[j]->0;
            lemma_renamed_ok(before, after, o, f);
        } else {
            let i = choose|i: int| #[trigger] f.contains_key(i) && f[i] == j;
            lemma_renamed_ok(before, after, before.young[i], f);
        }
    }
    assert forall|k: int| 0 <= k < new_roots.len() implies ref_ok(after, #[trigger] new_roots[k]) by {
        assert(ref_ok(before, roots[k]));
        assert(new_roots[k] == renamed(roots[k], f));
        if is_young(roots[k]) {
            assert(f.contains_key(roots[k] - YOUNG));
        } else if is_old(roots[k]) {
            assert(before.old[roots[k] - OLD] is Some);
        }
    }
}

// -- Major collections ------------------------------------------------------

/// Is old object `j` among those that the roots reach in `n` steps?
pub open spec fn reached(h: HeapView, roots: Seq<u64>, n: nat, j: int) -> bool
    decreases n,
{
    if n == 0 {
        exists|k: int| 0 <= k < roots.len() && #[trigger] roots[k] == OLD + j
    } else {
        ||| reached(h, roots, (n - 1) as nat, j)
        ||| exists|i: int, w: int|
            0 <= i < h.old.len() && h.old[i] is Some && #[trigger] has_ref(h.old[i]->0, w)
                && h.old[i]->0.words[w] == OLD + j && reached(h, roots, (n - 1) as nat, i)
    }
}

/// Is old object `j` reachable from the roots?
pub open spec fn reachable(h: HeapView, roots: Seq<u64>, j: int) -> bool {
    exists|n: nat| #[trigger] reached(h, roots, n, j)
}

/// How many of the first `n` objects are not marked.
spec fn unmarked(s: Seq<Obj>, n: int) -> nat
    decreases n,
{
    if n <= 0 {
        0
    } else {
        unmarked(s, n - 1) + if s[n - 1].marked {
            0nat
        } else {
            1nat
        }
    }
}

proof fn lemma_unmarked(a: Seq<Obj>, b: Seq<Obj>, n: int, j: int)
    requires
        0 <= n <= a.len(),
        a.len() == b.len(),
        0 <= j < a.len(),
        !a[j].marked,
        b[j].marked,
        forall|i: int| 0 <= i < a.len() && i != j ==> (#[trigger] b[i]).marked == a[i].marked,
    ensures
        unmarked(b, n) == unmarked(a, n) - if j < n {
            1int
        } else {
            0int
        },
    decreases n,
{
    if n > 0 {
        lemma_unmarked(a, b, n - 1, j);
    }
}

/// Is the reference marked, if it is one to an old object?
spec fn is_marked(h: Heap, v: u64) -> bool {
    is_old(v) ==> h.old@[v - OLD].marked
}

/// The state of marking in a heap that was `h0`; of object `busy` not all
/// references are marked yet.
spec fn marking(h0: HeapView, roots: Seq<u64>, h: Heap, stack: Seq<usize>, busy: int) -> bool {
    &&& closed(h0)
    &&& h0.young.len() == 0
    &&& h.young@.len() == 0
    &&& h@ == h0
    &&& h.old@.len() <= LIMIT
    &&& forall|j: int|
        0 <= j < h.old@.len() ==> (#[trigger] h.old@[j]).moved == 0 && (h.old@[j].marked
            ==> h.old@[j].live && reachable(h0, roots, j))
    &&& forall|k: int|
        0 <= k < stack.len() ==> #[trigger] stack[k] < h.old@.len()
            && h.old@[stack[k] as int].marked
    &&& forall|j: int, w: int|
        0 <= j < h.old@.len() && h.old@[j].marked && !stack.contains(j as usize) && j != busy
            && #[trigger] has_ref(h.old@[j]@, w) ==> is_marked(h, h.old@[j]@.words[w])
}

impl Heap {
    /// Mark the old object that a reference names, unless it is marked.
    fn mark(
        &mut self,
        stack: &mut Vec<usize>,
        v: u64,
        Ghost(h0): Ghost<HeapView>,
        Ghost(roots): Ghost<Seq<u64>>,
        Ghost(busy): Ghost<int>,
    )
        requires
            marking(h0, roots, *old(self), old(stack)@, busy),
            ref_ok(h0, v),
            is_old(v) ==> reachable(h0, roots, v - OLD),
        ensures
            marking(h0, roots, *final(self), final(stack)@, busy),
            is_marked(*final(self), v),
            final(self).remset == old(self).remset,
            final(self).old@.len() == old(self).old@.len(),
            forall|j: int|
                0 <= j < old(self).old@.len() && (#[trigger] old(self).old@[j]).marked ==> final(self).old@[j].marked,
            unmarked(final(self).old@, final(self).old@.len() as int) + (final(stack)@.len() - old(stack)@.len()) == unmarked(old(self).old@, old(self).old@.len() as int),
            final(stack)@.len() >= old(stack)@.len(),
    {
        if v < OLD {
            return ;
        }
        assert(old_view(self.old@).len() == self.old.len());
        let j = (v - OLD) as usize;
        if self.old[j].marked {
            return ;
        }
        let ghost a = *self;
        let ghost was = stack@;
        assert(h0.old[j as int] is Some);
        self.old[j].marked = true;
        stack.push(j);
        proof {
            assert(old_view(self.old@) =~= h0.old) by {
                assert forall|k: int| 0 <= k < self.old@.len() implies old_view(self.old@)[k]
                    == h0.old[k] by {
                    assert(old_view(a.old@)[k] == h0.old[k]);
                }
            }
            assert(self@ =~= h0);
            lemma_unmarked(a.old@, self.old@, self.old@.len() as int, j as int);
            assert forall|k: int| 0 <= k < stack@.len() implies #[trigger] stack@[k]
                < self.old@.len() && self.old@[stack@[k] as int].marked by {
                if k < was.len() {
                    assert(stack@[k] == was[k]);
                }
            }
            assert(stack@[was.len() as int] == j);
            assert forall|i: int, w: int|
                0 <= i < self.old@.len() && self.old@[i].marked && !stack@.contains(i as usize) && i
                    != busy && #[trigger] has_ref(self.old@[i]@, w) implies is_marked(
                *self,
                self.old@[i]@.words[w],
            ) by {
                assert(i != j);
                assert(self.old@[i] == a.old@[i]);
                assert(!was.contains(i as usize)) by {
                    if was.contains(i as usize) {
                        let k = choose|k: int| 0 <= k < was.len() && was[k] == i as usize;
                        assert(stack@[k] == i as usize);
                    }
                }
                assert(has_ref(a.old@[i]@, w));
                assert(is_marked(a, a.old@[i]@.words[w]));
                let x = a.old@[i]@.words[w];
                if is_old(x) {
                    assert(h0.old[i] == Some(a.old@[i]@)) by {
                        assert(old_view(a.old@)[i] == h0.old[i]);
                        assert(a.old@[i].live);
                    }
                    assert(ref_ok(h0, x));
                }
            }
        }
    }

    /// Mark what an object's references name.
    fn mark_fields(
        &mut self,
        stack: &mut Vec<usize>,
        j: usize,
        Ghost(h0): Ghost<HeapView>,
        Ghost(roots): Ghost<Seq<u64>>,
    )
        requires
            marking(h0, roots, *old(self), old(stack)@, j as int),
            j < old(self).old@.len(),
            old(self).old@[j as int].marked,
        ensures
            marking(h0, roots, *final(self), final(stack)@, -1),
            final(self).remset == old(self).remset,
            final(self).old@.len() == old(self).old@.len(),
            forall|i: int|
                0 <= i < old(self).old@.len() && (#[trigger] old(self).old@[i]).marked ==> final(self).old@[i].marked,
            unmarked(final(self).old@, final(self).old@.len() as int) + (final(stack)@.len() - old(stack)@.len()) == unmarked(old(self).old@, old(self).old@.len() as int),
            final(stack)@.len() >= old(stack)@.len(),
    {
        let ws = ref_words(self.old[j].desc, self.old[j].aux);
        let ghost from = h0.old[j as int]->0;
        let ghost p = |w: int| is_ref_word(from.desc, from.aux, w);
        proof {
            assert(old_view(self.old@)[j as int] == h0.old[j as int]);
            assert(from == self.old@[j as int]@);
            assert(obj_ok(h0, from));
            assert(lists_in_order(ws@, p));
        }
        let mut k: usize = 0;
        while k < ws.len()
            invariant
                k <= ws.len(),
                j < self.old@.len(),
                self.old@[j as int].marked,
                h0.old[j as int] == Some(from),
                obj_ok(h0, from),
                p == (|w: int| is_ref_word(from.desc, from.aux, w)),
                lists_in_order(ws@, p),
                marking(h0, roots, *self, stack@, j as int),
                forall|x: int|
                    0 <= x < k ==> is_marked(*self, from.words[#[trigger] ws@[x] as int]),
                self.remset == old(self).remset,
                self.old@.len() == old(self).old@.len(),
                forall|i: int|
                    0 <= i < old(self).old@.len() && (#[trigger] old(self).old@[i]).marked
                        ==> self.old@[i].marked,
                unmarked(self.old@, self.old@.len() as int) + (stack@.len() - old(stack)@.len())
                    == unmarked(old(self).old@, old(self).old@.len() as int),
                stack@.len() >= old(stack)@.len(),
            decreases ws.len() - k,
        {
            let ghost w = ws@[k as int] as int;
            proof {
                assert(p(w));
                assert(has_ref(from, w));
                assert(old_view(self.old@)[j as int] == h0.old[j as int]);
                assert(self.old@[j as int]@ == from);
                assert(self.old@[j as int].words@.len() == self.old@[j as int].words.len());
            }
            let at = ws[k] as usize;
            let v = self.old[j].words[at];
            proof {
                if is_old(v) {
                    lemma_reach_more(h0, roots, j as int, w, v - OLD);
                }
            }
            let ghost a = *self;
            self.mark(stack, v, Ghost(h0), Ghost(roots), Ghost(j as int));
            proof {
                assert forall|x: int| 0 <= x < k + 1 implies is_marked(
                    *self,
                    from.words[#[trigger] ws@[x] as int],
                ) by {
                    if x < k {
                        let u = from.words[ws@[x] as int];
                        assert(is_marked(a, u));
                        assert(p(ws@[x] as int));
                        assert(has_ref(from, ws@[x] as int));
                        assert(ref_ok(h0, u));
                        if is_old(u) {
                            assert(old_view(a.old@).len() == a.old@.len());
                            assert(a.old@[u - OLD].marked);
                        }
                    }
                }
            }
            k += 1;
        }
        proof {
            assert forall|i: int, w: int|
                0 <= i < self.old@.len() && self.old@[i].marked && !stack@.contains(i as usize) && i
                    != -1 && #[trigger] has_ref(self.old@[i]@, w) implies is_marked(
                *self,
                self.old@[i]@.words[w],
            ) by {
                if i == j {
                    assert(old_view(self.old@)[i] == h0.old[i]);
                    assert(self.old@[i]@ == from);
                    assert(from.words.len() == self.old@[i].words.len());
                    assert(p(w as u64 as int));
                    let x = choose|x: int| 0 <= x < ws@.len() && ws@[x] == w as u64;
                    assert(ws@[x] == w);
                }
            }
        }
    }

    /// Mark everything that the roots reach.
    fn mark_all(&mut self, roots: &Vec<u64>)
        requires
            old(self).wf(),
            old(self).young@.len() == 0,
            roots_ok(old(self)@, roots@),
        ensures
            marking(old(self)@, roots@, *final(self), Seq::empty(), -1),
            final(self).remset == old(self).remset,
            forall|k: int|
                0 <= k < roots@.len() ==> is_marked(*final(self), #[trigger] roots@[k]),
    {
        let ghost h0 = self@;
        let mut stack: Vec<usize> = Vec::new();
        let mut k: usize = 0;
        assert(marking(h0, roots@, *self, stack@, -1)) by {
            assert forall|j: int| 0 <= j < self.old@.len() implies (#[trigger] self.old@[j]).moved
                == 0 && !self.old@[j].marked by {}
        }
        while k < roots.len()
            invariant
                k <= roots@.len(),
                roots_ok(h0, roots@),
                marking(h0, roots@, *self, stack@, -1),
                self.remset == old(self).remset,
                forall|x: int| 0 <= x < k ==> is_marked(*self, #[trigger] roots@[x]),
            decreases roots.len() - k,
        {
            let v = roots[k];
            proof {
                assert(ref_ok(h0, roots@[k as int]));
                if is_old(v) {
                    assert(reached(h0, roots@, 0, v - OLD));
                }
            }
            let ghost a = *self;
            self.mark(&mut stack, v, Ghost(h0), Ghost(roots@), Ghost(-1));
            proof {
                assert forall|x: int| 0 <= x < k + 1 implies is_marked(
                    *self,
                    #[trigger] roots@[x],
                ) by {
                    if x < k {
                        assert(is_marked(a, roots@[x]));
                        assert(ref_ok(h0, roots@[x]));
                        if is_old(roots@[x]) {
                            assert(old_view(a.old@).len() == a.old@.len());
                            assert(a.old@[roots@[x] - OLD].marked);
                        }
                    }
                }
            }
            k += 1;
        }
        while stack.len() > 0
            invariant
                roots_ok(h0, roots@),
                marking(h0, roots@, *self, stack@, -1),
                self.remset == old(self).remset,
                forall|x: int| 0 <= x < roots@.len() ==> is_marked(*self, #[trigger] roots@[x]),
            decreases unmarked(self.old@, self.old@.len() as int), stack@.len(),
        {
            let ghost before = stack@;
            let j = match stack.pop() {
                Some(j) => j,
                None => {
                    return ;
                },
            };
            let ghost a = *self;
            proof {
                assert(before[before.len() - 1] == j);
                assert forall|k: int| 0 <= k < stack@.len() implies #[trigger] stack@[k]
                    < self.old@.len() && self.old@[stack@[k] as int].marked by {
                    assert(stack@[k] == before[k]);
                }
                assert forall|i: int, w: int|
                    0 <= i < self.old@.len() && self.old@[i].marked && !stack@.contains(i as usize)
                        && i != j && #[trigger] has_ref(self.old@[i]@, w) implies is_marked(
                    *self,
                    self.old@[i]@.words[w],
                ) by {
                    assert(self.old@.len() == self.old.len());
                    assert(!before.contains(i as usize)) by {
                        if before.contains(i as usize) {
                            let k = choose|k: int| 0 <= k < before.len() && before[k] == i as usize;
                            assert(stack@[k] == i as usize);
                        }
                    }
                }
            }
            self.mark_fields(&mut stack, j, Ghost(h0), Ghost(roots@));
            proof {
                assert forall|x: int| 0 <= x < roots@.len() implies is_marked(
                    *self,
                    #[trigger] roots@[x],
                ) by {
                    assert(is_marked(a, roots@[x]));
                    assert(ref_ok(h0, roots@[x]));
                    if is_old(roots@[x]) {
                        assert(old_view(a.old@).len() == a.old@.len());
                        assert(a.old@[roots@[x] - OLD].marked);
                    }
                }
            }
        }
        assert(stack@ =~= Seq::empty());
    }
}

pub proof fn lemma_reach_more(h: HeapView, roots: Seq<u64>, i: int, w: int, j: int)
    requires
        0 <= i < h.old.len(),
        h.old[i] is Some,
        has_ref(h.old[i]->0, w),
        h.old[i]->0.words[w] == OLD + j,
        reachable(h, roots, i),
    ensures
        reachable(h, roots, j),
{
    let n = choose|n: nat| #[trigger] reached(h, roots, n, i);
    assert(reached(h, roots, n + 1, j));
}

/// Once nothing is left to scan, what is marked is what is reachable.
proof fn lemma_marked_reachable(h0: HeapView, roots: Seq<u64>, h: Heap, n: nat, j: int)
    requires
        marking(h0, roots, h, Seq::empty(), -1),
        forall|k: int| 0 <= k < roots.len() ==> is_marked(h, #[trigger] roots[k]),
        roots_ok(h0, roots),
        0 <= j < h0.old.len(),
        reached(h0, roots, n, j),
    ensures
        h.old@[j].marked,
    decreases n,
{
    if n == 0 {
        let k = choose|k: int| 0 <= k < roots.len() && #[trigger] roots[k] == OLD + j;
        assert(is_marked(h, roots[k]));
    } else if reached(h0, roots, (n - 1) as nat, j) {
        lemma_marked_reachable(h0, roots, h, (n - 1) as nat, j);
    } else {
        let (i, w) = choose|i: int, w: int|
            0 <= i < h0.old.len() && h0.old[i] is Some && #[trigger] has_ref(h0.old[i]->0, w)
                && h0.old[i]->0.words[w] == OLD + j && reached(h0, roots, (n - 1) as nat, i);
        lemma_marked_reachable(h0, roots, h, (n - 1) as nat, i);
        assert(old_view(h.old@)[i] == h0.old[i]);
        assert(has_ref(h.old@[i]@, w));
        assert(!Seq::<usize>::empty().contains(i as usize));
        assert(is_marked(h, h.old@[i]@.words[w]));
    }
}

/// A major collection: old objects that the roots reach are as they were, and
/// all others are gone.
pub open spec fn swept(before: HeapView, roots: Seq<u64>, after: HeapView) -> bool {
    &&& after.young == before.young
    &&& after.old.len() == before.old.len()
    &&& forall|j: int|
        0 <= j < before.old.len() ==> #[trigger] after.old[j] == (if reachable(before, roots, j) {
            before.old[j]
        } else {
            None
        })
}

impl Heap {
    /// Free all old objects that the roots do not reach. The nursery must be
    /// empty: a minor collection runs first.
    pub fn major_gc(&mut self, roots: &Vec<u64>)
        requires
            old(self).wf(),
            old(self).young@.len() == 0,
            roots_ok(old(self)@, roots@),
        ensures
            final(self).wf(),
            roots_ok(final(self)@, roots@),
            swept(old(self)@, roots@, final(self)@),
    {
        let ghost h0 = self@;
        self.mark_all(roots);
        let ghost m = *self;
        let ghost n = m.old@.len() as int;
        let mut j: usize = 0;
        while j < self.old.len()
            invariant
                j <= self.old@.len(),
                n == m.old@.len(),
                self.old@.len() == n,
                self.young == m.young,
                self.remset == m.remset,
                forall|i: int| j <= i < n ==> #[trigger] self.old@[i] == m.old@[i],
                forall|i: int|
                    0 <= i < j ==> !(#[trigger] self.old@[i]).marked && self.old@[i].moved
                        == m.old@[i].moved && (if m.old@[i].marked {
                        self.old@[i].live == m.old@[i].live && self.old@[i]@ == m.old@[i]@
                    } else {
                        !self.old@[i].live
                    }),
            decreases n - j,
        {
            assert(self.old@[j as int] == m.old@[j as int]);
            if self.old[j].marked {
                self.old[j].marked = false;
            } else {
                self.old[j].live = false;
                self.old[j].words = Vec::new();
            }
            j += 1;
        }
        self.remset = Vec::new();
        proof {
            let after = self@;
            assert(after.young =~= h0.young);
            assert forall|i: int| 0 <= i < h0.old.len() implies #[trigger] after.old[i] == (
            if reachable(h0, roots@, i) {
                h0.old[i]
            } else {
                None
            }) by {
                assert(old_view(m.old@)[i] == h0.old[i]);
                if reachable(h0, roots@, i) {
                    let k = choose|k: nat| #[trigger] reached(h0, roots@, k, i);
                    lemma_marked_reachable(h0, roots@, m, k, i);
                } else {
                    assert(!m.old@[i].marked);
                }
            }
            assert forall|i: int| 0 <= i < after.old.len() && (#[trigger] after.old[i]) is Some
                implies obj_ok(after, after.old[i]->0) && forall|w: int| #[trigger]
                has_ref(after.old[i]->0, w) ==> !is_young(after.old[i]->0.words[w]) by {
                let o = h0.old[i]->0;
                assert(obj_ok(h0, o));
                assert forall|w: int| #[trigger] has_ref(o, w) implies ref_ok(after, o.words[w])
                    && !is_young(o.words[w]) by {
                    assert(ref_ok(h0, o.words[w]));
                    if is_old(o.words[w]) {
                        lemma_reach_more(h0, roots@, i, w, o.words[w] - OLD);
                        assert(after.old[o.words[w] - OLD] is Some);
                    }
                }
            }
            assert forall|k: int| 0 <= k < roots@.len() implies ref_ok(
                after,
                #[trigger] roots@[k],
            ) by {
                assert(ref_ok(h0, roots@[k]));
                if is_old(roots@[k]) {
                    assert(reached(h0, roots@, 0, roots@[k] - OLD));
                    assert(after.old[roots@[k] - OLD] is Some);
                }
            }
            assert forall|i: int| 0 <= i < self.old@.len() implies (#[trigger] self.old@[i]).moved
                == 0 && !self.old@[i].marked by {
                assert(m.old@[i].moved == 0);
            }
            assert(remembers(after, self.remset@));
        }
    }
}

// -- Objects ----------------------------------------------------------------

/// The largest payload, in bytes: as many words as an index counts on any
/// machine.
pub const MAX_PAYLOAD: u64 = 0x7_ffff_fff8;

/// The heap object that a reference names, if it names one.
pub open spec fn object(h: HeapView, v: u64) -> Option<ObjView> {
    if is_young(v) && v - YOUNG < h.young.len() {
        Some(h.young[v - YOUNG])
    } else if is_old(v) && v - OLD < h.old.len() {
        h.old[v - OLD]
    } else {
        None
    }
}

/// Are all reference words of a struct within it?
pub open spec fn desc_ok(desc: CrowDesc) -> bool {
    desc.kind == KIND_STRUCT ==> forall|w: int| #[trigger]
        bit(desc.refmap, w) ==> 8 * w + 8 <= desc.size
}

/// A new object, all zero.
pub open spec fn blank(desc: CrowDesc, aux: u64) -> ObjView {
    ObjView {
        desc,
        aux,
        words: Seq::new(((payload(desc, aux) + 7) / 8) as nat, |w: int| 0u64),
    }
}

/// Is there room for such an object?
pub open spec fn fits(h: HeapView, desc: CrowDesc, aux: u64) -> bool {
    known_kind(desc.kind) && payload(desc, aux) <= MAX_PAYLOAD && h.young.len() + h.old.len()
        < LIMIT
}

/// The heap with one more object, in the old generation or the young one.
pub open spec fn grown(h: HeapView, o: ObjView, tenured: bool) -> HeapView {
    if tenured {
        HeapView { old: h.old.push(Some(o)), ..h }
    } else {
        HeapView { young: h.young.push(o), ..h }
    }
}

/// The reference to the object that is added next.
pub open spec fn next_ref(h: HeapView, tenured: bool) -> u64 {
    if tenured {
        (OLD + h.old.len()) as u64
    } else {
        (YOUNG + h.young.len()) as u64
    }
}

/// The heap with one word of an object changed.
pub open spec fn stored(h: HeapView, holder: u64, w: int, v: u64) -> HeapView {
    let o = object(h, holder)->0;
    let new = ObjView { words: o.words.update(w, v), ..o };
    if is_young(holder) {
        HeapView { young: h.young.update(holder - YOUNG, new), ..h }
    } else {
        HeapView { old: h.old.update(holder - OLD, Some(new)), ..h }
    }
}

fn zeros(n: usize) -> (r: Vec<u64>)
    ensures
        r@ == Seq::new(n as nat, |w: int| 0u64),
{
    let mut out: Vec<u64> = Vec::new();
    let mut i: usize = 0;
    while i < n
        invariant
            i <= n,
            out@ == Seq::new(i as nat, |w: int| 0u64),
        decreases n - i,
    {
        out.push(0);
        i += 1;
        assert(out@ =~= Seq::new(i as nat, |w: int| 0u64));
    }
    out
}

/// A new object has no reference out of bounds.
proof fn lemma_blank_ok(h: HeapView, desc: CrowDesc, aux: u64)
    requires
        desc_ok(desc),
        known_kind(desc.kind),
    ensures
        obj_ok(h, blank(desc, aux)),
        forall|w: int| #[trigger] has_ref(blank(desc, aux), w) ==> blank(desc, aux).words[w] == 0,
{
    let o = blank(desc, aux);
    assert forall|w: int| #[trigger] is_ref_word(desc, aux, w) implies 0 <= w < o.words.len() by {
        if desc.kind == KIND_STRUCT {
            assert(bit(desc.refmap, w));
        }
    }
}

impl Heap {
    pub fn new() -> (r: Heap)
        ensures
            r.wf(),
            r@ == (HeapView { young: Seq::empty(), old: Seq::empty() }),
    {
        let r = Heap { young: Vec::new(), old: Vec::new(), remset: Vec::new() };
        assert(r@ =~= (HeapView { young: Seq::empty(), old: Seq::empty() }));
        r
    }

    /// Add a zeroed object without collecting; nothing where there is no room.
    fn add(&mut self, desc: CrowDesc, aux: u64, tenured: bool) -> (r: Option<u64>)
        requires
            old(self).wf(),
            desc_ok(desc),
        ensures
            final(self).wf(),
            match r {
                Some(v) => {
                    &&& fits(old(self)@, desc, aux)
                    &&& v == next_ref(old(self)@, tenured)
                    &&& final(self)@ == grown(old(self)@, blank(desc, aux), tenured)
                },
                None => !fits(old(self)@, desc, aux) && *final(self) == *old(self),
            },
    {
        let ghost h0 = self@;
        assert(objs_view(self.young@).len() == self.young.len());
        assert(old_view(self.old@).len() == self.old.len());
        let bytes = if desc.kind == KIND_STRUCT {
            desc.size
        } else {
            if aux > MAX_PAYLOAD {
                return None;
            }
            match payload_size(desc, aux) {
                Ok(n) => n,
                Err(_) => {
                    return None;
                },
            }
        };
        if bytes > MAX_PAYLOAD || self.young.len() as u64 + self.old.len() as u64 >= LIMIT {
            return None;
        }
        let words = zeros(((bytes + 7) / 8) as usize);
        let obj = Obj { desc, aux, words, moved: 0, marked: false, live: true };
        let ghost o = blank(desc, aux);
        assert(obj@ =~= o);
        let v = if tenured {
            let v = OLD + self.old.len() as u64;
            self.old.push(obj);
            v
        } else {
            let v = YOUNG + self.young.len() as u64;
            self.young.push(obj);
            v
        };
        proof {
            let h1 = grown(h0, o, tenured);
            if tenured {
                assert(old_view(self.old@) =~= h1.old);
            } else {
                assert(objs_view(self.young@) =~= h1.young);
            }
            assert(self@ =~= h1);
            lemma_blank_ok(h1, desc, aux);
            assert forall|x: u64| ref_ok(h0, x) implies #[trigger] ref_ok(h1, x) by {}
            assert forall|i: int| 0 <= i < h1.young.len() implies obj_ok(
                h1,
                #[trigger] h1.young[i],
            ) by {
                if i < h0.young.len() {
                    assert(obj_ok(h0, h0.young[i]));
                }
            }
            assert forall|j: int| 0 <= j < h1.old.len() && (#[trigger] h1.old[j]) is Some implies
                obj_ok(h1, h1.old[j]->0) by {
                if j < h0.old.len() {
                    assert(obj_ok(h0, h0.old[j]->0));
                }
            }
        }
        Some(v)
    }

    /// A word of an object.
    pub fn read(&self, holder: u64, w: usize) -> (r: u64)
        requires
            object(self@, holder) matches Some(o) && w < o.words.len(),
        ensures
            r == object(self@, holder)->0.words[w as int],
    {
        assert(objs_view(self.young@).len() == self.young.len());
        assert(old_view(self.old@).len() == self.old.len());
        if holder < OLD {
            self.young[(holder - YOUNG) as usize].words[w]
        } else {
            self.old[(holder - OLD) as usize].words[w]
        }
    }

    /// Store a word that is no reference.
    pub fn write_word(&mut self, holder: u64, w: usize, v: u64)
        requires
            old(self).wf(),
            object(old(self)@, holder) matches Some(o) && w < o.words.len() && !is_ref_word(
                o.desc,
                o.aux,
                w as int,
            ),
        ensures
            final(self).wf(),
            final(self)@ == stored(old(self)@, holder, w as int, v),
    {
        self.put(holder, w, v);
    }

    /// Store a reference. One from an old object to a young one is
    /// remembered, so that a minor collection need not look at the others.
    pub fn write_ref(&mut self, holder: u64, w: usize, v: u64)
        requires
            old(self).wf(),
            object(old(self)@, holder) matches Some(o) && has_ref(o, w as int),
            ref_ok(old(self)@, v),
        ensures
            final(self).wf(),
            final(self)@ == stored(old(self)@, holder, w as int, v),
    {
        if must_remember(holder, v, YOUNG, OLD) {
            let ghost before = self.remset@;
            assert(old_view(self.old@).len() == self.old.len());
            self.remset.push(((holder - OLD) as usize, w));
            proof {
                assert(self@ =~= old(self)@);
                assert forall|r: int| 0 <= r < self.remset@.len() implies ({
                    let (j, x) = #[trigger] self.remset@[r];
                    j < self@.old.len() && self@.old[j as int] is Some && has_ref(
                        self@.old[j as int]->0,
                        x as int,
                    )
                }) by {
                    if r < before.len() {
                        assert(self.remset@[r] == before[r]);
                    }
                }
                assert(self.remset@[before.len() as int] == ((holder - OLD) as usize, w));
                assert forall|e: (usize, usize)| #[trigger]
                    before.contains(e) implies self.remset@.contains(e) by {
                    let k = choose|k: int| 0 <= k < before.len() && before[k] == e;
                    assert(self.remset@[k] == e);
                }
            }
        }
        self.put(holder, w, v);
    }

    /// Store a word, remembered if that is needed.
    fn put(&mut self, holder: u64, w: usize, v: u64)
        requires
            old(self).wf(),
            object(old(self)@, holder) matches Some(o) && w < o.words.len() && (is_ref_word(
                o.desc,
                o.aux,
                w as int,
            ) ==> ref_ok(old(self)@, v) && (is_old(holder) && is_young(v) ==> old(self).remset@.contains(((holder - OLD) as usize, w)))),
        ensures
            final(self).wf(),
            final(self)@ == stored(old(self)@, holder, w as int, v),
    {
        let ghost h0 = self@;
        let ghost o = object(h0, holder)->0;
        let ghost new = ObjView { words: o.words.update(w as int, v), ..o };
        let ghost h1 = stored(h0, holder, w as int, v);
        assert(objs_view(self.young@).len() == self.young.len());
        assert(old_view(self.old@).len() == self.old.len());
        if holder < OLD {
            let at = (holder - YOUNG) as usize;
            assert(objs_view(self.young@)[at as int] == o);
            self.young[at].words[w] = v;
            assert(self.young@[at as int]@ =~= new);
            assert(objs_view(self.young@) =~= h1.young);
        } else {
            let at = (holder - OLD) as usize;
            assert(old_view(self.old@)[at as int] == Some(o));
            self.old[at].words[w] = v;
            assert(self.old@[at as int]@ =~= new);
            assert(old_view(self.old@) =~= h1.old);
        }
        proof {
            assert(self@ =~= h1);
            assert forall|x: u64| ref_ok(h0, x) implies #[trigger] ref_ok(h1, x) by {}
            assert(obj_ok(h0, o)) by {
                if is_young(holder) {
                    assert(h0.young[holder - YOUNG] == o);
                } else {
                    assert(h0.old[holder - OLD] == Some(o));
                }
            }
            assert(obj_ok(h1, new)) by {
                assert forall|x: int| #[trigger] has_ref(new, x) implies ref_ok(
                    h1,
                    new.words[x],
                ) by {
                    assert(has_ref(o, x));
                    assert(ref_ok(h0, o.words[x]));
                }
            }
            assert forall|i: int| 0 <= i < h1.young.len() implies obj_ok(
                h1,
                #[trigger] h1.young[i],
            ) by {
                if !(is_young(holder) && i == holder - YOUNG) {
                    assert(obj_ok(h0, h0.young[i]));
                }
            }
            assert forall|j: int| 0 <= j < h1.old.len() && (#[trigger] h1.old[j]) is Some implies
                obj_ok(h1, h1.old[j]->0) by {
                if !(is_old(holder) && j == holder - OLD) {
                    assert(h1.old[j] == h0.old[j]);
                    assert(obj_ok(h0, h0.old[j]->0));
                }
            }
            assert(remembers(h1, self.remset@)) by {
                assert forall|r: int| 0 <= r < self.remset@.len() implies ({
                    let (j, x) = #[trigger] self.remset@[r];
                    j < h1.old.len() && h1.old[j as int] is Some && has_ref(
                        h1.old[j as int]->0,
                        x as int,
                    )
                }) by {
                    let (j, x) = self.remset@[r];
                    assert(has_ref(h0.old[j as int]->0, x as int));
                }
                assert forall|j: int, x: int|
                    0 <= j < h1.old.len() && h1.old[j] is Some && #[trigger] has_ref(
                        h1.old[j]->0,
                        x,
                    ) && is_young(h1.old[j]->0.words[x]) implies self.remset@.contains(
                    (j as usize, x as usize),
                ) by {
                    assert(has_ref(h0.old[j]->0, x));
                }
            }
        }
    }
}

// -- Collecting and allocating ----------------------------------------------

/// A collection: a minor one, followed by a major one if it is full.
pub open spec fn collected(
    before: HeapView,
    roots: Seq<u64>,
    after: HeapView,
    new_roots: Seq<u64>,
    full: bool,
) -> bool {
    exists|mid: HeapView, f: Map<int, int>|
        {
            &&& #[trigger] evacuated(before, roots, mid, new_roots, f)
            &&& if full {
                swept(mid, new_roots, after)
            } else {
                after == mid
            }
        }
}

/// What an allocation does to heap and roots before the object is added.
pub open spec fn made_room(
    before: HeapView,
    roots: Seq<u64>,
    after: HeapView,
    new_roots: Seq<u64>,
    plan: Plan,
    full: bool,
) -> bool {
    let collect = match plan {
        Plan::Old { collect } => collect,
        Plan::Bump { collect } => collect,
    };
    if collect {
        collected(before, roots, after, new_roots, full)
    } else {
        after == before && new_roots == roots
    }
}

impl Heap {
    /// Collect garbage. The roots are renamed where their objects move.
    pub fn collect(&mut self, roots: &mut Vec<u64>, full: bool)
        requires
            old(self).wf(),
            roots_ok(old(self)@, old(roots)@),
        ensures
            final(self).wf(),
            roots_ok(final(self)@, final(roots)@),
            collected(old(self)@, old(roots)@, final(self)@, final(roots)@, full),
    {
        self.minor_gc(roots);
        let ghost mid = self@;
        let ghost f = choose|f: Map<int, int>|
            evacuated(old(self)@, old(roots)@, mid, roots@, f);
        assert(evacuated(old(self)@, old(roots)@, mid, roots@, f));
        assert(self.young@.len() == mid.young.len());
        if full {
            self.major_gc(roots);
        }
    }

    /// Allocate a zeroed object as the plan says, collecting first if it says
    /// so; nothing where there is no room.
    pub fn allocate(
        &mut self,
        desc: CrowDesc,
        aux: u64,
        plan: Plan,
        full: bool,
        roots: &mut Vec<u64>,
    ) -> (r: Option<u64>)
        requires
            old(self).wf(),
            desc_ok(desc),
            roots_ok(old(self)@, old(roots)@),
        ensures
            final(self).wf(),
            roots_ok(final(self)@, final(roots)@),
            exists|mid: HeapView|
                {
                    &&& #[trigger] made_room(
                        old(self)@,
                        old(roots)@,
                        mid,
                        final(roots)@,
                        plan,
                        full,
                    )
                    &&& match r {
                        Some(v) => {
                            &&& fits(mid, desc, aux)
                            &&& v == next_ref(mid, plan is Old)
                            &&& final(self)@ == grown(mid, blank(desc, aux), plan is Old)
                        },
                        None => !fits(mid, desc, aux) && final(self)@ == mid,
                    }
                },
    {
        let (collect, tenured) = match plan {
            Plan::Old { collect } => (collect, true),
            Plan::Bump { collect } => (collect, false),
        };
        if collect {
            self.collect(roots, full);
        }
        let ghost mid = self@;
        let r = self.add(desc, aux, tenured);
        proof {
            assert(made_room(old(self)@, old(roots)@, mid, roots@, plan, full));
            assert forall|k: int| 0 <= k < roots@.len() implies ref_ok(
                self@,
                #[trigger] roots@[k],
            ) by {
                assert(ref_ok(mid, roots@[k]));
            }
        }
        r
    }
}

// -- What collections keep --------------------------------------------------

/// Where a path of reference words leads from a reference.
pub open spec fn follow(h: HeapView, v: u64, path: Seq<int>) -> Option<u64>
    decreases path.len(),
{
    if path.len() == 0 {
        Some(v)
    } else {
        match object(h, v) {
            Some(o) => if has_ref(o, path[0]) {
                follow(h, o.words[path[0]], path.skip(1))
            } else {
                None
            },
            None => None,
        }
    }
}

pub proof fn lemma_evacuated_object(
    before: HeapView,
    roots: Seq<u64>,
    after: HeapView,
    new_roots: Seq<u64>,
    f: Map<int, int>,
    v: u64,
)
    requires
        evacuated(before, roots, after, new_roots, f),
        after.old.len() <= LIMIT,
        ref_ok(before, v),
        is_young(v) ==> f.contains_key(v - YOUNG),
    ensures
        object(after, renamed(v, f)) == (match object(before, v) {
            Some(o) => Some(renamed_obj(o, f)),
            None => None,
        }),
        object(before, v) matches Some(o) ==> all_moved(o, f),
{
    if is_young(v) {
        assert(f.contains_key(v - YOUNG));
    } else if is_old(v) {
        assert(before.old[v - OLD] is Some);
    }
}

proof fn lemma_evacuated_path(
    before: HeapView,
    roots: Seq<u64>,
    after: HeapView,
    new_roots: Seq<u64>,
    f: Map<int, int>,
    v: u64,
    path: Seq<int>,
)
    requires
        closed(before),
        evacuated(before, roots, after, new_roots, f),
        after.old.len() <= LIMIT,
        ref_ok(before, v),
        is_young(v) ==> f.contains_key(v - YOUNG),
    ensures
        match follow(before, v, path) {
            Some(x) => {
                &&& follow(after, renamed(v, f), path) == Some(renamed(x, f))
                &&& ref_ok(before, x)
                &&& is_young(x) ==> f.contains_key(x - YOUNG)
            },
            None => follow(after, renamed(v, f), path) is None,
        },
    decreases path.len(),
{
    if path.len() > 0 {
        lemma_evacuated_object(before, roots, after, new_roots, f, v);
        if let Some(o) = object(before, v) {
            let w = path[0];
            let n = renamed_obj(o, f);
            assert(has_ref(n, w) == has_ref(o, w));
            if has_ref(o, w) {
                assert(obj_ok(before, o)) by {
                    if is_young(v) {
                        assert(before.young[v - YOUNG] == o);
                    } else {
                        assert(before.old[v - OLD] == Some(o));
                    }
                }
                assert(n.words[w] == renamed(o.words[w], f));
                lemma_evacuated_path(
                    before,
                    roots,
                    after,
                    new_roots,
                    f,
                    o.words[w],
                    path.skip(1),
                );
            }
        }
    }
}

/// A minor collection keeps the graph: a path of references from a root leads
/// to the same object before and after, with the same contents up to the new
/// names of its references, or to none in both.
pub proof fn law_minor_keeps_graph(
    before: HeapView,
    roots: Seq<u64>,
    after: HeapView,
    new_roots: Seq<u64>,
    f: Map<int, int>,
    k: int,
    path: Seq<int>,
)
    requires
        closed(before),
        roots_ok(before, roots),
        before.young.len() + before.old.len() <= LIMIT,
        evacuated(before, roots, after, new_roots, f),
        0 <= k < roots.len(),
    ensures
        match follow(before, roots[k], path) {
            Some(x) => {
                &&& follow(after, new_roots[k], path) == Some(renamed(x, f))
                &&& object(after, renamed(x, f)) == (match object(before, x) {
                    Some(o) => Some(renamed_obj(o, f)),
                    None => None,
                })
            },
            None => follow(after, new_roots[k], path) is None,
        },
{
    lemma_evacuated_room(before, roots, after, new_roots, f);
    assert(ref_ok(before, roots[k]));
    assert(new_roots[k] == renamed(roots[k], f));
    lemma_evacuated_path(before, roots, after, new_roots, f, roots[k], path);
    if let Some(x) = follow(before, roots[k], path) {
        lemma_evacuated_object(before, roots, after, new_roots, f, x);
    }
}

/// A minor collection keeps objects apart: two paths meet after it exactly
/// where they met before.
pub proof fn law_minor_keeps_identity(
    before: HeapView,
    roots: Seq<u64>,
    after: HeapView,
    new_roots: Seq<u64>,
    f: Map<int, int>,
    k1: int,
    path1: Seq<int>,
    k2: int,
    path2: Seq<int>,
)
    requires
        closed(before),
        roots_ok(before, roots),
        before.young.len() + before.old.len() <= LIMIT,
        evacuated(before, roots, after, new_roots, f),
        0 <= k1 < roots.len(),
        0 <= k2 < roots.len(),
        follow(before, roots[k1], path1) is Some,
        follow(before, roots[k2], path2) is Some,
    ensures
        (follow(after, new_roots[k1], path1) == follow(after, new_roots[k2], path2)) == (follow(
            before,
            roots[k1],
            path1,
        ) == follow(before, roots[k2], path2)),
{
    lemma_evacuated_room(before, roots, after, new_roots, f);
    assert(ref_ok(before, roots[k1]));
    assert(ref_ok(before, roots[k2]));
    assert(new_roots[k1] == renamed(roots[k1], f));
    assert(new_roots[k2] == renamed(roots[k2], f));
    lemma_evacuated_path(before, roots, after, new_roots, f, roots[k1], path1);
    lemma_evacuated_path(before, roots, after, new_roots, f, roots[k2], path2);
    let x = follow(before, roots[k1], path1)->0;
    let y = follow(before, roots[k2], path2)->0;
    if is_young(x) {
        assert(f.contains_key(x - YOUNG));
    }
    if is_young(y) {
        assert(f.contains_key(y - YOUNG));
    }
}

proof fn lemma_swept_path(
    before: HeapView,
    roots: Seq<u64>,
    after: HeapView,
    v: u64,
    path: Seq<int>,
)
    requires
        closed(before),
        before.young.len() == 0,
        swept(before, roots, after),
        ref_ok(before, v),
        is_old(v) ==> reachable(before, roots, v - OLD),
    ensures
        follow(after, v, path) == follow(before, v, path),
        follow(before, v, path) matches Some(x) ==> object(after, x) == object(before, x),
    decreases path.len(),
{
    if path.len() > 0 {
        if let Some(o) = object(before, v) {
            let w = path[0];
            assert(before.old[v - OLD] == Some(o));
            assert(after.old[v - OLD] == before.old[v - OLD]);
            if has_ref(o, w) {
                assert(ref_ok(before, o.words[w]));
                if is_old(o.words[w]) {
                    lemma_reach_more(before, roots, v - OLD, w, o.words[w] - OLD);
                }
                lemma_swept_path(before, roots, after, o.words[w], path.skip(1));
            }
        }
    } else if is_old(v) {
        assert(after.old[v - OLD] == before.old[v - OLD]);
    }
}

/// A major collection moves nothing and keeps all that can be reached: every
/// path from a root leads to the same reference, and to the same contents.
pub proof fn law_major_keeps_graph(
    before: HeapView,
    roots: Seq<u64>,
    after: HeapView,
    k: int,
    path: Seq<int>,
)
    requires
        closed(before),
        before.young.len() == 0,
        roots_ok(before, roots),
        swept(before, roots, after),
        0 <= k < roots.len(),
    ensures
        follow(after, roots[k], path) == follow(before, roots[k], path),
        follow(before, roots[k], path) matches Some(x) ==> object(after, x) == object(before, x),
{
    assert(ref_ok(before, roots[k]));
    if is_old(roots[k]) {
        assert(reached(before, roots, 0, roots[k] - OLD));
    }
    lemma_swept_path(before, roots, after, roots[k], path);
}

/// A reachable object lies at the end of a path from a root.
proof fn lemma_reached_path(h: HeapView, roots: Seq<u64>, n: nat, j: int) -> (r: (int, Seq<int>))
    requires
        closed(h),
        0 <= j < h.old.len() <= LIMIT,
        reached(h, roots, n, j),
    ensures
        0 <= r.0 < roots.len(),
        follow(h, roots[r.0], r.1) == Some((OLD + j) as u64),
    decreases n,
{
    if n == 0 {
        let k = choose|k: int| 0 <= k < roots.len() && #[trigger] roots[k] == OLD + j;
        (k, Seq::empty())
    } else if reached(h, roots, (n - 1) as nat, j) {
        lemma_reached_path(h, roots, (n - 1) as nat, j)
    } else {
        let (i, w) = choose|i: int, w: int|
            0 <= i < h.old.len() && h.old[i] is Some && #[trigger] has_ref(h.old[i]->0, w)
                && h.old[i]->0.words[w] == OLD + j && reached(h, roots, (n - 1) as nat, i);
        let (k, path) = lemma_reached_path(h, roots, (n - 1) as nat, i);
        lemma_follow_push(h, roots[k], path, w);
        let v = (OLD + i) as u64;
        assert(object(h, v) == h.old[i]);
        let one = seq![w];
        assert(follow(h, v, one) == follow(h, h.old[i]->0.words[w], one.skip(1)));
        (k, path.push(w))
    }
}

proof fn lemma_follow_push(h: HeapView, v: u64, path: Seq<int>, w: int)
    ensures
        follow(h, v, path.push(w)) == (match follow(h, v, path) {
            Some(x) => follow(h, x, seq![w]),
            None => None,
        }),
    decreases path.len(),
{
    let long = path.push(w);
    if path.len() == 0 {
        assert(long =~= seq![w]);
    } else {
        assert(long[0] == path[0]);
        assert(long.skip(1) =~= path.skip(1).push(w));
        if let Some(o) = object(h, v) {
            if has_ref(o, path[0]) {
                lemma_follow_push(h, o.words[path[0]], path.skip(1), w);
            }
        }
    }
}

/// A major collection is complete: what is left lies at the end of a path of
/// references from a root.
pub proof fn law_major_frees_garbage(
    before: HeapView,
    roots: Seq<u64>,
    after: HeapView,
    j: int,
)
    requires
        closed(before),
        before.young.len() == 0,
        before.old.len() <= LIMIT,
        roots_ok(before, roots),
        swept(before, roots, after),
        0 <= j < after.old.len(),
        after.old[j] is Some,
    ensures
        exists|k: int, path: Seq<int>|
            0 <= k < roots.len() && #[trigger] follow(after, roots[k], path) == Some(
                (OLD + j) as u64,
            ),
{
    assert(after.old[j] == before.old[j]);
    let n = choose|n: nat| #[trigger] reached(before, roots, n, j);
    let (k, path) = lemma_reached_path(before, roots, n, j);
    law_major_keeps_graph(before, roots, after, k, path);
    assert(follow(after, roots[k], path) == Some((OLD + j) as u64));
}

} // verus!
