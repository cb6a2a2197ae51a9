//! Arrays on the heap: an object `{ buf, len, cap }` and a buffer of its own,
//! so that `push` can reallocate while references to the array stay valid.
use vstd::prelude::*;

use crate::builtins::{buf_aux, first_cap, grown_cap, pop_message};
use crate::gc::Plan;
use crate::heap::{
    blank, closed, desc_ok, evacuated, fits, grown, has_ref, is_young, lemma_evacuated_object,
    lemma_evacuated_room, lemma_evacuated_wf, lemma_reach_more, made_room, next_ref, obj_ok, object,
    objs_view, old_view, reached, ref_ok, renamed, renamed_obj, roots_ok, stored, swept, Heap,
    HeapView, ObjView, LIMIT, MAX_PAYLOAD, OLD, YOUNG,
};
use crate::object::{
    bit, buf_desc, desc_array, is_ref_word, payload, CrowDesc, KIND_BUF_REF, KIND_BUF_SCALAR,
    KIND_STRING, KIND_STRUCT,
};
use crate::text::dec_text;

verus! {

// -- Elements in words ------------------------------------------------------

/// The sizes that elements have, in bytes.
pub open spec fn is_size(size: u64) -> bool {
    size == 1 || size == 2 || size == 4 || size == 8
}

pub open spec fn mask(size: u64) -> u64 {
    if size == 1 {
        0xff
    } else if size == 2 {
        0xffff
    } else if size == 4 {
        0xffff_ffff
    } else {
        0xffff_ffff_ffff_ffff
    }
}

/// How many elements a word holds.
pub open spec fn per_word(size: u64) -> u64 {
    if size == 1 {
        8
    } else if size == 2 {
        4
    } else if size == 4 {
        2
    } else {
        1
    }
}

/// How far from the lowest bit the element at a place in a word stands.
pub open spec fn lane_start(size: u64, at: u64) -> u64 {
    if size == 1 {
        (8 * at) as u64
    } else if size == 2 {
        (16 * at) as u64
    } else {
        (32 * at) as u64
    }
}

/// The element at a place in a word, zero-extended.
pub open spec fn lane_of(w: u64, size: u64, at: u64) -> u64 {
    if size == 8 {
        w
    } else {
        (w >> lane_start(size, at)) & mask(size)
    }
}

/// The word with one element replaced; what does not fit the element is cut
/// off.
pub open spec fn with_lane(w: u64, size: u64, at: u64, v: u64) -> u64 {
    if size == 8 {
        v
    } else {
        let s = lane_start(size, at);
        (w & !(mask(size) << s)) | ((v & mask(size)) << s)
    }
}

/// Bytes, halves and quarters of a word are apart from each other.
proof fn lemma_lanes(w: u64, size: u64, at: u64, v: u64, other: u64)
    requires
        is_size(size),
        at < per_word(size),
        other < per_word(size),
    ensures
        lane_of(with_lane(w, size, at, v), size, at) == v & mask(size),
        other != at ==> lane_of(with_lane(w, size, at, v), size, other) == lane_of(w, size, other),
{
    if size == 8 {
        assert(v & 0xffff_ffff_ffff_ffff == v) by (bit_vector);
    } else {
        let m = mask(size);
        let s = lane_start(size, at);
        let t = lane_start(size, other);
        if size == 1 {
            assert(s % 8 == 0 && s < 64 && t % 8 == 0 && t < 64);
            assert((((w & !(0xffu64 << s)) | ((v & 0xff) << s)) >> s) & 0xff == v & 0xff)
                by (bit_vector)
                requires
                    s % 8 == 0 && s < 64,
            ;
            if other != at {
                assert((((w & !(0xffu64 << s)) | ((v & 0xff) << s)) >> t) & 0xff == (w >> t)
                    & 0xff) by (bit_vector)
                    requires
                        s % 8 == 0 && s < 64 && t % 8 == 0 && t < 64 && s != t,
                ;
            }
        } else if size == 2 {
            assert(s % 16 == 0 && s < 64 && t % 16 == 0 && t < 64);
            assert((((w & !(0xffffu64 << s)) | ((v & 0xffff) << s)) >> s) & 0xffff == v & 0xffff)
                by (bit_vector)
                requires
                    s % 16 == 0 && s < 64,
            ;
            if other != at {
                assert((((w & !(0xffffu64 << s)) | ((v & 0xffff) << s)) >> t) & 0xffff == (w >> t)
                    & 0xffff) by (bit_vector)
                    requires
                        s % 16 == 0 && s < 64 && t % 16 == 0 && t < 64 && s != t,
                ;
            }
        } else {
            assert(s % 32 == 0 && s < 64 && t % 32 == 0 && t < 64);
            assert((((w & !(0xffff_ffffu64 << s)) | ((v & 0xffff_ffff) << s)) >> s) & 0xffff_ffff
                == v & 0xffff_ffff) by (bit_vector)
                requires
                    s % 32 == 0 && s < 64,
            ;
            if other != at {
                assert((((w & !(0xffff_ffffu64 << s)) | ((v & 0xffff_ffff) << s)) >> t)
                    & 0xffff_ffff == (w >> t) & 0xffff_ffff) by (bit_vector)
                    requires
                        s % 32 == 0 && s < 64 && t % 32 == 0 && t < 64 && s != t,
                ;
            }
        }
    }
}

/// Element `i` of a buffer's words.
pub open spec fn elem(words: Seq<u64>, size: u64, i: int) -> u64 {
    lane_of(words[i / per_word(size) as int], size, (i % per_word(size) as int) as u64)
}

fn per_word_of(size: u64) -> (r: u64)
    requires
        is_size(size),
    ensures
        r == per_word(size),
        r > 0,
{
    if size == 1 {
        8
    } else if size == 2 {
        4
    } else if size == 4 {
        2
    } else {
        1
    }
}

fn mask_of(size: u64) -> (r: u64)
    ensures
        r == mask(size),
{
    if size == 1 {
        0xff
    } else if size == 2 {
        0xffff
    } else if size == 4 {
        0xffff_ffff
    } else {
        0xffff_ffff_ffff_ffff
    }
}

fn lane_start_of(size: u64, at: u64) -> (r: u64)
    requires
        is_size(size),
        size != 8,
        at < per_word(size),
    ensures
        r == lane_start(size, at),
        r < 64,
{
    if size == 1 {
        8 * at
    } else if size == 2 {
        16 * at
    } else {
        32 * at
    }
}

fn get_lane(w: u64, size: u64, at: u64) -> (r: u64)
    requires
        is_size(size),
        at < per_word(size),
    ensures
        r == lane_of(w, size, at),
{
    if size == 8 {
        w
    } else {
        let s = lane_start_of(size, at);
        (w >> s) & mask_of(size)
    }
}

fn put_lane(w: u64, size: u64, at: u64, v: u64) -> (r: u64)
    requires
        is_size(size),
        at < per_word(size),
    ensures
        r == with_lane(w, size, at, v),
{
    if size == 8 {
        v
    } else {
        let s = lane_start_of(size, at);
        (w & !(mask_of(size) << s)) | ((v & mask_of(size)) << s)
    }
}

/// One element of the words changes, and no other.
proof fn lemma_elem_update(words: Seq<u64>, size: u64, i: int, v: u64, k: int)
    requires
        is_size(size),
        0 <= i,
        0 <= k,
        i / (per_word(size) as int) < words.len(),
        k / (per_word(size) as int) < words.len(),
    ensures
        ({
            let n = per_word(size) as int;
            let new = words.update(
                i / n,
                with_lane(words[i / n], size, (i % n) as u64, v),
            );
            elem(new, size, k) == (if k == i {
                v & mask(size)
            } else {
                elem(words, size, k)
            })
        }),
{
    let n = per_word(size) as int;
    let (a, b) = ((i % n) as u64, (k % n) as u64);
    lemma_lanes(words[i / n], size, a, v, b);
    if k / n == i / n && a == b {
        assert(k == i) by {
            assert(i == n * (i / n) + i % n && k == n * (k / n) + k % n) by (nonlinear_arith)
                requires
                    n > 0,
            ;
        }
    }
}

// -- Arrays -----------------------------------------------------------------

pub open spec fn array_desc() -> CrowDesc {
    CrowDesc { kind: KIND_STRUCT, size: 24, refmap: 1 }
}

pub open spec fn buffer_desc(is_ref: bool) -> CrowDesc {
    CrowDesc {
        kind: if is_ref {
            KIND_BUF_REF
        } else {
            KIND_BUF_SCALAR
        },
        size: 0,
        refmap: 0,
    }
}

/// The aux word of a buffer: its capacity in elements, if these are
/// references, and else in bytes.
pub open spec fn buffer_aux(size: u64, is_ref: bool, cap: u64) -> int {
    if is_ref {
        cap as int
    } else {
        cap * size
    }
}

pub open spec fn len_of(h: HeapView, a: u64) -> u64 {
    object(h, a)->0.words[1]
}

pub open spec fn cap_of(h: HeapView, a: u64) -> u64 {
    object(h, a)->0.words[2]
}

pub open spec fn buffer_of(h: HeapView, a: u64) -> u64 {
    object(h, a)->0.words[0]
}

/// Is this a buffer for so many elements?
pub open spec fn is_buffer(h: HeapView, b: u64, size: u64, is_ref: bool, cap: u64) -> bool {
    &&& object(h, b) is Some
    &&& object(h, b)->0.desc == buffer_desc(is_ref)
    &&& object(h, b)->0.aux == buffer_aux(size, is_ref, cap)
    &&& object(h, b)->0.words.len() == (cap * size + 7) / 8
    &&& cap * size <= MAX_PAYLOAD
}

/// Is this an array with elements of the size?
pub open spec fn is_array(h: HeapView, a: u64, size: u64, is_ref: bool) -> bool {
    &&& is_size(size)
    &&& is_ref ==> size == 8
    &&& object(h, a) is Some
    &&& object(h, a)->0.desc == array_desc()
    &&& object(h, a)->0.words.len() == 3
    &&& len_of(h, a) <= cap_of(h, a)
    &&& is_buffer(h, buffer_of(h, a), size, is_ref, cap_of(h, a))
}

/// The elements of an array, zero-extended.
pub open spec fn elems(h: HeapView, a: u64, size: u64) -> Seq<u64> {
    Seq::new(
        len_of(h, a) as nat,
        |i: int| elem(object(h, buffer_of(h, a))->0.words, size, i),
    )
}

proof fn lemma_descs(is_ref: bool, aux: u64)
    ensures
        desc_ok(array_desc()),
        desc_ok(buffer_desc(is_ref)),
        forall|x: u64, w: int| #[trigger] is_ref_word(array_desc(), x, w) <==> w == 0,
        forall|w: int| #[trigger]
            is_ref_word(buffer_desc(is_ref), aux, w) <==> is_ref && 0 <= w < aux,
{
    assert forall|w: int| #[trigger] bit(1, w) <==> w == 0 by {
        if 0 <= w < 64 {
            let s = w as u64;
            assert((1u64 >> s) & 1 == 1 <==> s == 0) by (bit_vector)
                requires
                    s < 64,
            ;
        }
    }
}

/// An element stands within its buffer.
proof fn lemma_elem_within(size: u64, cap: u64, i: int)
    requires
        is_size(size),
        0 <= i < cap,
    ensures
        0 <= i / (per_word(size) as int) < (cap * size + 7) / 8,
{
    if size == 1 {
        assert(cap * size == cap);
    } else if size == 2 {
        assert(cap * size == 2 * cap);
    } else if size == 4 {
        assert(cap * size == 4 * cap);
    } else {
        assert(cap * size == 8 * cap);
    }
}

proof fn lemma_stored_object(h: HeapView, holder: u64, w: int, v: u64, x: u64)
    requires
        object(h, holder) is Some,
    ensures
        object(stored(h, holder, w, v), x) == (if x == holder {
            let o = object(h, holder)->0;
            Some(ObjView { words: o.words.update(w, v), ..o })
        } else {
            object(h, x)
        }),
{
}

proof fn lemma_grown_object(h: HeapView, o: ObjView, tenured: bool, x: u64)
    requires
        h.young.len() + h.old.len() < LIMIT,
    ensures
        object(h, x) is Some ==> object(grown(h, o, tenured), x) == object(h, x) && x != next_ref(
            h,
            tenured,
        ),
        object(grown(h, o, tenured), next_ref(h, tenured)) == Some(o),
        ref_ok(h, x) ==> ref_ok(grown(h, o, tenured), x),
{
}

/// Writing one element of an array's buffer.
proof fn lemma_elem_stored(h: HeapView, b: u64, size: u64, is_ref: bool, cap: u64, i: int, v: u64)
    requires
        is_size(size),
        is_ref ==> size == 8,
        is_buffer(h, b, size, is_ref, cap),
        0 <= i < cap,
    ensures
        ({
            let n = per_word(size) as int;
            let words = object(h, b)->0.words;
            let h1 = stored(
                h,
                b,
                i / n,
                with_lane(words[i / n], size, (i % n) as u64, v),
            );
            &&& is_buffer(h1, b, size, is_ref, cap)
            &&& forall|k: int|
                0 <= k < cap ==> #[trigger] elem(object(h1, b)->0.words, size, k) == (if k == i {
                    v & mask(size)
                } else {
                    elem(words, size, k)
                })
        }),
{
    let n = per_word(size) as int;
    let words = object(h, b)->0.words;
    let w = with_lane(words[i / n], size, (i % n) as u64, v);
    let h1 = stored(h, b, i / n, w);
    lemma_stored_object(h, b, i / n, w, b);
    lemma_elem_within(size, cap, i);
    assert forall|k: int| 0 <= k < cap implies #[trigger] elem(object(h1, b)->0.words, size, k) == (
    if k == i {
        v & mask(size)
    } else {
        elem(words, size, k)
    }) by {
        lemma_elem_within(size, cap, k);
        lemma_elem_update(words, size, i, v, k);
    }
}

impl Heap {
    /// Element `i` of a buffer.
    fn get_elem(&self, b: u64, size: u64, i: u64, Ghost(is_ref): Ghost<bool>, Ghost(cap): Ghost<
        u64,
    >) -> (r: u64)
        requires
            is_size(size),
            is_buffer(self@, b, size, is_ref, cap),
            i < cap,
        ensures
            r == elem(object(self@, b)->0.words, size, i as int),
    {
        let n = per_word_of(size);
        proof {
            lemma_elem_within(size, cap, i as int);
        }
        let w = self.read(b, (i / n) as usize);
        get_lane(w, size, i % n)
    }

    /// Store element `i` of a buffer, with the barrier if it is a reference.
    fn put_elem(&mut self, b: u64, size: u64, is_ref: bool, i: u64, v: u64, Ghost(cap): Ghost<u64>)
        requires
            old(self).wf(),
            is_size(size),
            is_ref ==> size == 8 && ref_ok(old(self)@, v),
            is_buffer(old(self)@, b, size, is_ref, cap),
            i < cap,
        ensures
            final(self).wf(),
            final(self)@ == stored(
                old(self)@,
                b,
                i as int / (per_word(size) as int),
                with_lane(
                    object(old(self)@, b)->0.words[i as int / (per_word(size) as int)],
                    size,
                    (i as int % (per_word(size) as int)) as u64,
                    v,
                ),
            ),
    {
        let n = per_word_of(size);
        let at = (i / n) as usize;
        proof {
            lemma_elem_within(size, cap, i as int);
            lemma_descs(is_ref, object(self@, b)->0.aux);
        }
        let w = self.read(b, at);
        let new = put_lane(w, size, i % n, v);
        if is_ref {
            assert(has_ref(object(self@, b)->0, at as int));
            self.write_ref(b, at, new);
        } else {
            self.write_word(b, at, new);
        }
    }

    /// Remove and return the last element; where there is none, the message of
    /// the panic at the line.
    pub fn array_pop(&mut self, a: u64, size: u64, is_ref: bool, line: u64) -> (r: Result<
        u64,
        String,
    >)
        requires
            old(self).wf(),
            is_array(old(self)@, a, size, is_ref),
        ensures
            final(self).wf(),
            match r {
                Err(m) => elems(old(self)@, a, size).len() == 0 && *final(self) == *old(self) && m@
                    == "pop on empty array at line "@ + dec_text(line as nat),
                Ok(v) => {
                    let before = elems(old(self)@, a, size);
                    &&& before.len() > 0
                    &&& v == before.last()
                    &&& is_array(final(self)@, a, size, is_ref)
                    &&& elems(final(self)@, a, size) == before.drop_last()
                    &&& forall|x: u64|
                        x != a ==> #[trigger] object(final(self)@, x) == object(old(self)@, x)
                },
            },
    {
        let ghost h0 = self@;
        let len = self.read(a, 1);
        if len == 0 {
            return Err(pop_message(line));
        }
        let buf = self.read(a, 0);
        let v = self.get_elem(buf, size, len - 1, Ghost(is_ref), Ghost(cap_of(h0, a)));
        proof {
            lemma_descs(is_ref, object(h0, a)->0.aux);
            assert(!is_ref_word(array_desc(), object(h0, a)->0.aux, 1));
        }
        self.write_word(a, 1, len - 1);
        proof {
            assert forall|x: u64| x != a implies #[trigger] object(self@, x) == object(h0, x) by {
                lemma_stored_object(h0, a, 1, (len - 1) as u64, x);
            }
            lemma_stored_object(h0, a, 1, (len - 1) as u64, a);
            assert(buffer_of(h0, a) != a);
            assert(elems(self@, a, size) =~= elems(h0, a, size).drop_last());
        }
        Ok(v)
    }
}

// -- Arrays and collections -------------------------------------------------

/// A minor collection keeps an array that a root names: it has the same
/// elements, with the new names of their objects if they are references.
pub proof fn law_minor_keeps_array(
    before: HeapView,
    roots: Seq<u64>,
    after: HeapView,
    new_roots: Seq<u64>,
    f: Map<int, int>,
    k: int,
    size: u64,
    is_ref: bool,
)
    requires
        closed(before),
        roots_ok(before, roots),
        before.young.len() + before.old.len() <= LIMIT,
        evacuated(before, roots, after, new_roots, f),
        0 <= k < roots.len(),
        is_array(before, roots[k], size, is_ref),
    ensures
        is_array(after, new_roots[k], size, is_ref),
        elems(after, new_roots[k], size).len() == elems(before, roots[k], size).len(),
        forall|i: int|
            0 <= i < elems(before, roots[k], size).len() ==> #[trigger] elems(
                after,
                new_roots[k],
                size,
            )[i] == (if is_ref {
                renamed(elems(before, roots[k], size)[i], f)
            } else {
                elems(before, roots[k], size)[i]
            }),
{
    lemma_evacuated_room(before, roots, after, new_roots, f);
    let a = roots[k];
    let o = object(before, a)->0;
    let buf = buffer_of(before, a);
    let b = object(before, buf)->0;
    assert(ref_ok(before, a));
    assert(new_roots[k] == renamed(a, f));
    lemma_evacuated_object(before, roots, after, new_roots, f, a);
    lemma_descs(is_ref, b.aux);
    assert(is_ref_word(o.desc, o.aux, 0));
    assert(has_ref(o, 0));
    assert(!is_ref_word(o.desc, o.aux, 1) && !is_ref_word(o.desc, o.aux, 2));
    assert(obj_ok(before, o)) by {
        if is_young(a) {
            assert(before.young[a - YOUNG] == o);
        } else {
            assert(before.old[a - OLD] == Some(o));
        }
    }
    assert(ref_ok(before, buf));
    lemma_evacuated_object(before, roots, after, new_roots, f, buf);
    let o1 = renamed_obj(o, f);
    let b1 = renamed_obj(b, f);
    assert(object(after, new_roots[k]) == Some(o1));
    assert(o1.words[0] == renamed(buf, f) && o1.words[1] == o.words[1] && o1.words[2]
        == o.words[2]);
    assert(object(after, renamed(buf, f)) == Some(b1));
    assert forall|i: int| 0 <= i < elems(before, a, size).len() implies #[trigger] elems(
        after,
        new_roots[k],
        size,
    )[i] == (if is_ref {
        renamed(elems(before, a, size)[i], f)
    } else {
        elems(before, a, size)[i]
    }) by {
        let n = per_word(size) as int;
        lemma_elem_within(size, cap_of(before, a), i);
        assert(b1.words[i / n] == if is_ref_word(b.desc, b.aux, i / n) {
            renamed(b.words[i / n], f)
        } else {
            b.words[i / n]
        });
    }
}

/// A major collection keeps an array that a root names as it is.
pub proof fn law_major_keeps_array(
    before: HeapView,
    roots: Seq<u64>,
    after: HeapView,
    k: int,
    size: u64,
    is_ref: bool,
)
    requires
        closed(before),
        before.young.len() == 0,
        roots_ok(before, roots),
        swept(before, roots, after),
        0 <= k < roots.len(),
        is_array(before, roots[k], size, is_ref),
    ensures
        is_array(after, roots[k], size, is_ref),
        elems(after, roots[k], size) == elems(before, roots[k], size),
{
    let a = roots[k];
    let o = object(before, a)->0;
    let buf = buffer_of(before, a);
    lemma_descs(is_ref, object(before, buf)->0.aux);
    assert(is_ref_word(o.desc, o.aux, 0));
    assert(has_ref(o, 0));
    assert(reached(before, roots, 0, a - OLD));
    assert(before.old[a - OLD] == Some(o));
    lemma_reach_more(before, roots, a - OLD, 0, buf - OLD);
    assert(after.old[a - OLD] == before.old[a - OLD]);
    assert(after.old[buf - OLD] == before.old[buf - OLD]);
    assert(elems(after, a, size) =~= elems(before, a, size));
}

/// So does making room for an allocation.
proof fn lemma_room_keeps_array(
    before: HeapView,
    roots: Seq<u64>,
    after: HeapView,
    new_roots: Seq<u64>,
    plan: Plan,
    full: bool,
    k: int,
    size: u64,
    is_ref: bool,
)
    requires
        closed(before),
        before.young.len() + before.old.len() <= LIMIT,
        roots_ok(before, roots),
        made_room(before, roots, after, new_roots, plan, full),
        0 <= k < roots.len(),
        is_array(before, roots[k], size, is_ref),
    ensures
        new_roots.len() == roots.len(),
        is_array(after, new_roots[k], size, is_ref),
        len_of(after, new_roots[k]) == len_of(before, roots[k]),
        cap_of(after, new_roots[k]) == cap_of(before, roots[k]),
{
    let collect = match plan {
        Plan::Old { collect } => collect,
        Plan::Bump { collect } => collect,
    };
    if collect {
        let (mid, f) = choose|mid: HeapView, f: Map<int, int>|
            {
                &&& #[trigger] evacuated(before, roots, mid, new_roots, f)
                &&& if full {
                    swept(mid, new_roots, after)
                } else {
                    after == mid
                }
            };
        lemma_evacuated_room(before, roots, mid, new_roots, f);
        law_minor_keeps_array(before, roots, mid, new_roots, f, k, size, is_ref);
        lemma_evacuated_object(before, roots, mid, new_roots, f, roots[k]);
        lemma_descs(is_ref, 0);
        assert(cap_of(mid, new_roots[k]) == cap_of(before, roots[k]));
        if full {
            lemma_evacuated_wf(before, roots, mid, new_roots, f);
            law_major_keeps_array(mid, new_roots, after, k, size, is_ref);
            assert(elems(after, new_roots[k], size).len() == elems(mid, new_roots[k], size).len());
            assert(reached(mid, new_roots, 0, new_roots[k] - OLD));
            assert(after.old[new_roots[k] - OLD] == mid.old[new_roots[k] - OLD]);
        }
    }
}

// -- Growing ----------------------------------------------------------------

/// The roots while an array grows: the array itself, and the value if it is a
/// reference.
pub open spec fn with_held(roots: Seq<u64>, a: u64, v: u64, is_ref: bool) -> Seq<u64> {
    if is_ref {
        roots.push(a).push(v)
    } else {
        roots.push(a)
    }
}

/// The capacity that a full array grows to.
pub open spec fn next_cap(cap: u64) -> u64 {
    if cap * 2 < 4 {
        4
    } else {
        (cap * 2) as u64
    }
}

/// What a push does to heap and roots before it stores: where the array is
/// full, room is made for a new buffer.
pub open spec fn made_way(
    h: HeapView,
    roots: Seq<u64>,
    a: u64,
    v: u64,
    is_ref: bool,
    plan: Plan,
    full: bool,
    mid: HeapView,
    held: Seq<u64>,
) -> bool {
    if len_of(h, a) == cap_of(h, a) {
        made_room(h, with_held(roots, a, v, is_ref), mid, held, plan, full)
    } else {
        mid == h && held == with_held(roots, a, v, is_ref)
    }
}

/// A new buffer is a buffer.
proof fn lemma_new_buffer(h: HeapView, size: u64, is_ref: bool, cap: u64, tenured: bool)
    requires
        is_size(size),
        is_ref ==> size == 8,
        buffer_aux(size, is_ref, cap) <= u64::MAX,
        fits(h, buffer_desc(is_ref), buffer_aux(size, is_ref, cap) as u64),
    ensures
        ({
            let o = blank(buffer_desc(is_ref), buffer_aux(size, is_ref, cap) as u64);
            is_buffer(grown(h, o, tenured), next_ref(h, tenured), size, is_ref, cap)
        }),
{
    let aux = buffer_aux(size, is_ref, cap) as u64;
    let o = blank(buffer_desc(is_ref), aux);
    lemma_grown_object(h, o, tenured, 0);
    if is_ref {
        assert(cap * size == 8 * cap);
    } else {
        assert(payload(buffer_desc(is_ref), aux) == (aux + 7) / 8 * 8);
    }
}

impl Heap {
    /// Copy the first `n` elements of a buffer into another.
    fn copy_elems(
        &mut self,
        from: u64,
        to: u64,
        size: u64,
        is_ref: bool,
        n: u64,
        Ghost(cap): Ghost<u64>,
        Ghost(more): Ghost<u64>,
    )
        requires
            old(self).wf(),
            is_size(size),
            is_ref ==> size == 8,
            from != to,
            is_buffer(old(self)@, from, size, is_ref, cap),
            is_buffer(old(self)@, to, size, is_ref, more),
            n <= cap,
            n <= more,
        ensures
            final(self).wf(),
            is_buffer(final(self)@, to, size, is_ref, more),
            forall|x: u64| x != to ==> #[trigger] object(final(self)@, x) == object(old(self)@, x),
            forall|x: u64| ref_ok(old(self)@, x) ==> #[trigger] ref_ok(final(self)@, x),
            forall|k: int|
                0 <= k < n ==> #[trigger] elem(object(final(self)@, to)->0.words, size, k) == elem(
                    object(old(self)@, from)->0.words,
                    size,
                    k,
                ),
            final(self)@.young.len() == old(self)@.young.len(),
            final(self)@.old.len() == old(self)@.old.len(),
    {
        let ghost h0 = self@;
        let ghost src = object(h0, from)->0;
        let mut i: u64 = 0;
        while i < n
            invariant
                i <= n,
                self.wf(),
                is_size(size),
                is_ref ==> size == 8,
                from != to,
                n <= cap,
                n <= more,
                h0 == old(self)@,
                object(h0, from) == Some(src),
                is_buffer(h0, from, size, is_ref, cap),
                is_buffer(self@, to, size, is_ref, more),
                forall|x: u64| x != to ==> #[trigger] object(self@, x) == object(h0, x),
                forall|x: u64| ref_ok(h0, x) ==> #[trigger] ref_ok(self@, x),
                forall|k: int|
                    0 <= k < i ==> #[trigger] elem(object(self@, to)->0.words, size, k) == elem(
                        src.words,
                        size,
                        k,
                    ),
                self@.young.len() == h0.young.len(),
                self@.old.len() == h0.old.len(),
            decreases n - i,
        {
            let ghost h = self@;
            assert(object(h, from) == object(h0, from));
            let v = self.get_elem(from, size, i, Ghost(is_ref), Ghost(cap));
            proof {
                lemma_elem_within(size, cap, i as int);
                if is_ref {
                    lemma_descs(is_ref, src.aux);
                    assert(is_ref_word(src.desc, src.aux, i as int));
                    assert(has_ref(src, i as int));
                    assert(obj_ok(h, src)) by {
                        if is_young(from) {
                            assert(h.young[from - YOUNG] == src);
                        } else {
                            assert(h.old[from - OLD] == Some(src));
                        }
                    }
                    assert(ref_ok(h, src.words[i as int]));
                }
                lemma_elem_stored(h, to, size, is_ref, more, i as int, v);
                assert(v & mask(size) == v) by {
                    lemma_masked(src.words, size, i as int);
                }
            }
            self.put_elem(to, size, is_ref, i, v, Ghost(more));
            proof {
                let n = per_word(size) as int;
                let words = object(h, to)->0.words;
                let w = with_lane(words[i as int / n], size, (i as int % n) as u64, v);
                assert forall|x: u64| x != to implies #[trigger] object(self@, x) == object(
                    h0,
                    x,
                ) by {
                    lemma_stored_object(h, to, i as int / n, w, x);
                    assert(object(h, x) == object(h0, x));
                }
                assert forall|x: u64| ref_ok(h0, x) implies #[trigger] ref_ok(self@, x) by {
                    assert(ref_ok(h, x));
                }
                assert forall|k: int| 0 <= k < i + 1 implies #[trigger] elem(
                    object(self@, to)->0.words,
                    size,
                    k,
                ) == elem(src.words, size, k) by {
                    if k < i {
                        assert(elem(words, size, k) == elem(src.words, size, k));
                    }
                }
            }
            i += 1;
        }
    }

    /// Give an array a larger buffer that nothing else names yet.
    fn install(&mut self, a: u64, new: u64, more: u64, size: u64, is_ref: bool)
        requires
            old(self).wf(),
            is_array(old(self)@, a, size, is_ref),
            is_buffer(old(self)@, new, size, is_ref, more),
            new != buffer_of(old(self)@, a),
            cap_of(old(self)@, a) <= more,
            ref_ok(old(self)@, new),
        ensures
            final(self).wf(),
            is_array(final(self)@, a, size, is_ref),
            elems(final(self)@, a, size) == elems(old(self)@, a, size),
            cap_of(final(self)@, a) == more,
            buffer_of(final(self)@, a) == new,
            forall|x: u64|
                x != a && x != new ==> #[trigger] object(final(self)@, x) == object(
                    old(self)@,
                    x,
                ),
            forall|x: u64| ref_ok(old(self)@, x) ==> #[trigger] ref_ok(final(self)@, x),
    {
        let ghost h1 = self@;
        let len = self.read(a, 1);
        let before = self.read(a, 0);
        self.copy_elems(before, new, size, is_ref, len, Ghost(cap_of(h1, a)), Ghost(more));
        let ghost h2 = self@;
        proof {
            assert(object(h2, a) == object(h1, a));
            lemma_descs(is_ref, 0);
            assert(is_ref_word(array_desc(), object(h2, a)->0.aux, 0));
            assert(!is_ref_word(array_desc(), object(h2, a)->0.aux, 2));
            assert(has_ref(object(h2, a)->0, 0));
        }
        self.write_ref(a, 0, new);
        let ghost h3 = self@;
        proof {
            lemma_stored_object(h2, a, 0, new, a);
        }
        self.write_word(a, 2, more);
        proof {
            let h4 = self@;
            lemma_stored_object(h3, a, 2, more, a);
            assert forall|y: u64| y != a implies #[trigger] object(h4, y) == object(h2, y) by {
                lemma_stored_object(h2, a, 0, new, y);
                lemma_stored_object(h3, a, 2, more, y);
            }
            assert(object(h4, new) == object(h2, new));
            assert(elems(h4, a, size) =~= elems(h1, a, size));
            assert forall|x: u64| ref_ok(h1, x) implies #[trigger] ref_ok(h4, x) by {
                assert(ref_ok(h2, x));
            }
            assert forall|x: u64| x != a && x != new implies #[trigger] object(h4, x) == object(
                h1,
                x,
            ) by {
                assert(object(h4, x) == object(h2, x));
            }
        }
    }

    /// Append a value where there is room for it.
    fn append(&mut self, a: u64, v: u64, size: u64, is_ref: bool)
        requires
            old(self).wf(),
            is_array(old(self)@, a, size, is_ref),
            len_of(old(self)@, a) < cap_of(old(self)@, a),
            is_ref ==> ref_ok(old(self)@, v),
        ensures
            final(self).wf(),
            is_array(final(self)@, a, size, is_ref),
            elems(final(self)@, a, size) == elems(old(self)@, a, size).push(v & mask(size)),
            forall|x: u64|
                x != a && x != buffer_of(old(self)@, a) ==> #[trigger] object(final(self)@, x)
                    == object(old(self)@, x),
            forall|x: u64| ref_ok(old(self)@, x) ==> #[trigger] ref_ok(final(self)@, x),
    {
        let ghost h5 = self@;
        let len = self.read(a, 1);
        let buf = self.read(a, 0);
        let ghost room = cap_of(h5, a);
        proof {
            lemma_descs(is_ref, 0);
            lemma_elem_stored(h5, buf, size, is_ref, room, len as int, v);
            assert(buf != a);
        }
        self.put_elem(buf, size, is_ref, len, v, Ghost(room));
        let ghost h6 = self@;
        proof {
            let p = per_word(size) as int;
            let words = object(h5, buf)->0.words;
            let w = with_lane(words[len as int / p], size, (len as int % p) as u64, v);
            assert forall|y: u64| y != buf implies #[trigger] object(h6, y) == object(h5, y) by {
                lemma_stored_object(h5, buf, len as int / p, w, y);
            }
            assert(object(h6, a) == object(h5, a));
            assert(!is_ref_word(array_desc(), object(h6, a)->0.aux, 1));
        }
        self.write_word(a, 1, len + 1);
        proof {
            let end = self@;
            let one = (len + 1) as u64;
            lemma_stored_object(h6, a, 1, one, a);
            lemma_stored_object(h6, a, 1, one, buf);
            assert(elems(end, a, size) =~= elems(h5, a, size).push(v & mask(size)));
            assert forall|y: u64| y != a && y != buf implies #[trigger] object(end, y) == object(
                h5,
                y,
            ) by {
                lemma_stored_object(h6, a, 1, one, y);
                assert(object(h6, y) == object(h5, y));
            }
        }
    }

    /// Make room in a full array: allocate, with the array (and the value, if
    /// it is a reference) among the roots, and install the new buffer. Gives
    /// the array and the value, whose names may be new.
    fn enlarge(
        &mut self,
        a: u64,
        v: u64,
        size: u64,
        is_ref: bool,
        plan: Plan,
        full: bool,
        roots: &mut Vec<u64>,
    ) -> (r: (u64, u64, bool))
        requires
            old(self).wf(),
            roots_ok(old(self)@, old(roots)@),
            is_array(old(self)@, a, size, is_ref),
            len_of(old(self)@, a) == cap_of(old(self)@, a),
            is_ref ==> ref_ok(old(self)@, v),
        ensures
            final(self).wf(),
            roots_ok(final(self)@, final(roots)@),
            exists|mid: HeapView, held: Seq<u64>|
                {
                    let n = old(roots)@.len() as int;
                    &&& #[trigger] made_way(
                        old(self)@,
                        old(roots)@,
                        a,
                        v,
                        is_ref,
                        plan,
                        full,
                        mid,
                        held,
                    )
                    &&& enlarged(mid, held, n, size, is_ref, v, r, *final(self), final(roots)@)
                },
    {
        let ghost h0 = self@;
        let ghost n = roots@.len() as int;
        let ghost roots0 = roots@;
        let cap = self.read(a, 2);
        let ghost first = with_held(roots0, a, v, is_ref);
        proof {
            assert(cap <= MAX_PAYLOAD) by (nonlinear_arith)
                requires
                    cap * size <= MAX_PAYLOAD,
                    size >= 1,
            ;
            assert(ref_ok(h0, a));
            lemma_held_ok(h0, roots0, a, v, is_ref);
        }
        roots.push(a);
        if is_ref {
            roots.push(v);
        }
        assert(roots@ == first);
        let more = grown_cap(cap);
        proof {
            assert(more * size <= u64::MAX) by (nonlinear_arith)
                requires
                    more <= 0x10_0000_0000,
                    size <= 8,
            ;
            lemma_descs(is_ref, 0);
        }
        let flag: u64 = if is_ref {
            1
        } else {
            0
        };
        let aux = buf_aux(size, flag, more);
        let desc = buf_desc(flag);
        let new = self.allocate(desc, aux, plan, full, roots);
        let ghost held = roots@;
        let ghost mid = choose|m: HeapView|
            {
                &&& #[trigger] made_room(h0, first, m, held, plan, full)
                &&& match new {
                    Some(x) => {
                        &&& fits(m, desc, aux)
                        &&& x == next_ref(m, plan is Old)
                        &&& self@ == grown(m, blank(desc, aux), plan is Old)
                    },
                    None => !fits(m, desc, aux) && self@ == m,
                }
            };
        proof {
            lemma_room_keeps_array(h0, first, mid, held, plan, full, n, size, is_ref);
            assert(made_way(h0, roots0, a, v, is_ref, plan, full, mid, held));
        }
        let mut val = v;
        if is_ref {
            val = match roots.pop() {
                Some(x) => x,
                None => v,
            };
        }
        let arr = match roots.pop() {
            Some(x) => x,
            None => a,
        };
        proof {
            assert(roots@ =~= held.take(n));
            assert(arr == held[n]);
            assert(is_ref ==> val == held[n + 1]);
            assert forall|k: int| 0 <= k < roots@.len() implies ref_ok(
                self@,
                #[trigger] roots@[k],
            ) by {
                assert(ref_ok(self@, held[k]));
            }
            assert(ref_ok(self@, held[n]));
            if is_ref {
                assert(ref_ok(self@, held[n + 1]));
            }
        }
        match new {
            None => {
                assert(enlarged(mid, held, n, size, is_ref, v, (arr, val, false), *self, roots@));
                (arr, val, false)
            },
            Some(buf) => {
                let ghost h1 = self@;
                proof {
                    let o = blank(desc, aux);
                    assert(mid.young.len() + mid.old.len() < LIMIT);
                    assert forall|y: u64| object(mid, y) is Some implies #[trigger] object(h1, y)
                        == object(mid, y) && y != buf by {
                        lemma_grown_object(mid, o, plan is Old, y);
                    }
                    lemma_new_buffer(mid, size, is_ref, more, plan is Old);
                    assert(object(h1, arr) == object(mid, arr));
                    let ob = buffer_of(mid, arr);
                    assert(object(h1, ob) == object(mid, ob));
                    assert(elems(h1, arr, size) =~= elems(mid, arr, size));
                }
                self.install(arr, buf, more, size, is_ref);
                proof {
                    assert forall|k: int| 0 <= k < roots@.len() implies ref_ok(
                        self@,
                        #[trigger] roots@[k],
                    ) by {
                        assert(ref_ok(h1, roots@[k]));
                    }
                    assert forall|y: u64| y != arr && object(mid, y) is Some implies
                        #[trigger] object(self@, y) == object(mid, y) by {
                        assert(object(h1, y) == object(mid, y));
                    }
                    assert(buffer_of(self@, arr) == buf);
                    assert(enlarged(
                        mid,
                        held,
                        n,
                        size,
                        is_ref,
                        v,
                        (arr, val, true),
                        *self,
                        roots@,
                    ));
                }
                (arr, val, true)
            },
        }
    }

    /// Append a value. A full array gets a new buffer of twice its capacity;
    /// the reference to it stays valid, but for its name if a collection
    /// moves it. Gives the array, or nothing where there is no room.
    pub fn array_push(
        &mut self,
        a: u64,
        v: u64,
        size: u64,
        is_ref: bool,
        plan: Plan,
        full: bool,
        roots: &mut Vec<u64>,
    ) -> (r: Option<u64>)
        requires
            old(self).wf(),
            roots_ok(old(self)@, old(roots)@),
            is_array(old(self)@, a, size, is_ref),
            is_ref ==> ref_ok(old(self)@, v),
        ensures
            final(self).wf(),
            roots_ok(final(self)@, final(roots)@),
            exists|mid: HeapView, held: Seq<u64>|
                {
                    let n = old(roots)@.len() as int;
                    let b = held[n];
                    &&& #[trigger] made_way(
                        old(self)@,
                        old(roots)@,
                        a,
                        v,
                        is_ref,
                        plan,
                        full,
                        mid,
                        held,
                    )
                    &&& final(roots)@ == held.take(n)
                    &&& is_array(mid, b, size, is_ref)
                    &&& match r {
                        Some(x) => {
                            let w = if is_ref {
                                held[n + 1]
                            } else {
                                v
                            };
                            &&& x == b
                            &&& is_array(final(self)@, b, size, is_ref)
                            &&& elems(final(self)@, b, size) == elems(mid, b, size).push(
                                w & mask(size),
                            )
                            &&& forall|y: u64|
                                y != b && y != buffer_of(mid, b) && object(mid, y) is Some
                                    ==> #[trigger] object(final(self)@, y) == object(mid, y)
                        },
                        None => {
                            &&& len_of(old(self)@, a) == cap_of(old(self)@, a)
                            &&& !fits(
                                mid,
                                buffer_desc(is_ref),
                                buffer_aux(size, is_ref, next_cap(cap_of(mid, b))) as u64,
                            )
                            &&& final(self)@ == mid
                        },
                    }
                },
    {
        let ghost h0 = self@;
        let ghost n = roots@.len() as int;
        let ghost roots0 = roots@;
        let len = self.read(a, 1);
        let cap = self.read(a, 2);
        if len < cap {
            let ghost held = with_held(roots0, a, v, is_ref);
            self.append(a, v, size, is_ref);
            proof {
                assert(made_way(h0, roots0, a, v, is_ref, plan, full, h0, held));
                assert(held.take(n) =~= roots0);
                assert forall|k: int| 0 <= k < roots@.len() implies ref_ok(
                    self@,
                    #[trigger] roots@[k],
                ) by {
                    assert(ref_ok(h0, roots@[k]));
                }
            }
            Some(a)
        } else {
            let (arr, val, done) = self.enlarge(a, v, size, is_ref, plan, full, roots);
            let ghost h1 = self@;
            let ghost (mid, held) = choose|mid: HeapView, held: Seq<u64>|
                {
                    &&& #[trigger] made_way(h0, roots0, a, v, is_ref, plan, full, mid, held)
                    &&& enlarged(mid, held, n, size, is_ref, v, (arr, val, done), *self, roots@)
                };
            assert(made_way(h0, roots0, a, v, is_ref, plan, full, mid, held));
            if !done {
                return None;
            }
            self.append(arr, val, size, is_ref);
            proof {
                assert forall|y: u64|
                    y != arr && y != buffer_of(mid, arr) && object(mid, y) is Some implies
                    #[trigger] object(self@, y) == object(mid, y) by {
                    assert(object(h1, y) == object(mid, y));
                }
                assert forall|k: int| 0 <= k < roots@.len() implies ref_ok(
                    self@,
                    #[trigger] roots@[k],
                ) by {
                    assert(ref_ok(h1, roots@[k]));
                }
            }
            Some(arr)
        }
    }
}

/// What making room in a full array leaves.
spec fn enlarged(
    mid: HeapView,
    held: Seq<u64>,
    n: int,
    size: u64,
    is_ref: bool,
    v: u64,
    r: (u64, u64, bool),
    heap: Heap,
    roots: Seq<u64>,
) -> bool {
    let (a, w, done) = r;
    &&& roots == held.take(n)
    &&& a == held[n]
    &&& w == (if is_ref {
        held[n + 1]
    } else {
        v
    })
    &&& is_array(mid, a, size, is_ref)
    &&& is_ref ==> ref_ok(heap@, w)
    &&& if done {
        &&& is_array(heap@, a, size, is_ref)
        &&& elems(heap@, a, size) == elems(mid, a, size)
        &&& len_of(heap@, a) < cap_of(heap@, a)
        &&& object(mid, buffer_of(heap@, a)) is None
        &&& forall|y: u64|
            y != a && object(mid, y) is Some ==> #[trigger] object(heap@, y) == object(mid, y)
    } else {
        &&& heap@ == mid
        &&& !fits(
            mid,
            buffer_desc(is_ref),
            buffer_aux(size, is_ref, next_cap(cap_of(mid, a))) as u64,
        )
    }
}

proof fn lemma_held_ok(h: HeapView, roots: Seq<u64>, a: u64, v: u64, is_ref: bool)
    requires
        roots_ok(h, roots),
        ref_ok(h, a),
        is_ref ==> ref_ok(h, v),
    ensures
        roots_ok(h, with_held(roots, a, v, is_ref)),
{
}

/// An element that was read has no bits beyond its size.
proof fn lemma_masked(words: Seq<u64>, size: u64, i: int)
    requires
        is_size(size),
        0 <= i,
    ensures
        elem(words, size, i) & mask(size) == elem(words, size, i),
{
    let x = words[i / per_word(size) as int];
    let m = mask(size);
    if size == 8 {
        assert(x & 0xffff_ffff_ffff_ffff == x) by (bit_vector);
    } else {
        let y = x >> lane_start(size, (i % per_word(size) as int) as u64);
        assert((y & m) & m == y & m) by (bit_vector);
    }
}

// -- New arrays -------------------------------------------------------------

/// An object without references that a root names stays as it is.
proof fn lemma_room_keeps_object(
    before: HeapView,
    roots: Seq<u64>,
    after: HeapView,
    new_roots: Seq<u64>,
    plan: Plan,
    full: bool,
    k: int,
)
    requires
        closed(before),
        before.young.len() + before.old.len() <= LIMIT,
        roots_ok(before, roots),
        made_room(before, roots, after, new_roots, plan, full),
        0 <= k < roots.len(),
        object(before, roots[k]) is Some,
        forall|w: int| #[trigger]
            has_ref(object(before, roots[k])->0, w) ==> object(before, roots[k])->0.words[w] == 0,
    ensures
        new_roots.len() == roots.len(),
        object(after, new_roots[k]) == object(before, roots[k]),
{
    let collect = match plan {
        Plan::Old { collect } => collect,
        Plan::Bump { collect } => collect,
    };
    if collect {
        let (mid, f) = choose|mid: HeapView, f: Map<int, int>|
            {
                &&& #[trigger] evacuated(before, roots, mid, new_roots, f)
                &&& if full {
                    swept(mid, new_roots, after)
                } else {
                    after == mid
                }
            };
        let o = object(before, roots[k])->0;
        lemma_evacuated_room(before, roots, mid, new_roots, f);
        assert(ref_ok(before, roots[k]));
        assert(new_roots[k] == renamed(roots[k], f));
        lemma_evacuated_object(before, roots, mid, new_roots, f, roots[k]);
        assert(renamed_obj(o, f).words =~= o.words) by {
            assert forall|w: int| 0 <= w < o.words.len() implies renamed_obj(o, f).words[w]
                == o.words[w] by {
                if is_ref_word(o.desc, o.aux, w) {
                    assert(has_ref(o, w));
                }
            }
        }
        assert(renamed_obj(o, f) =~= o);
        if full {
            assert(reached(mid, new_roots, 0, new_roots[k] - OLD));
            assert(after.old[new_roots[k] - OLD] == mid.old[new_roots[k] - OLD]);
        }
    }
}

/// The two allocations of a new array, the array itself being a root during
/// the second.
pub open spec fn made_array(
    h: HeapView,
    roots: Seq<u64>,
    plan: Plan,
    full: bool,
    buf_plan: Plan,
    buf_full: bool,
    m1: HeapView,
    r1: Seq<u64>,
    m2: HeapView,
    held: Seq<u64>,
) -> bool {
    &&& made_room(h, roots, m1, r1, plan, full)
    &&& fits(m1, array_desc(), 0)
    &&& made_room(
        grown(m1, blank(array_desc(), 0), plan is Old),
        r1.push(next_ref(m1, plan is Old)),
        m2,
        held,
        buf_plan,
        buf_full,
    )
}

pub open spec fn starting_cap(cap: u64) -> u64 {
    if cap < 4 {
        4
    } else {
        cap
    }
}

impl Heap {
    /// Give a new array its first buffer.
    fn equip(&mut self, a: u64, new: u64, cap: u64, size: u64, is_ref: bool)
        requires
            old(self).wf(),
            is_size(size),
            is_ref ==> size == 8,
            object(old(self)@, a) == Some(blank(array_desc(), 0)),
            is_buffer(old(self)@, new, size, is_ref, cap),
            ref_ok(old(self)@, new),
        ensures
            final(self).wf(),
            is_array(final(self)@, a, size, is_ref),
            elems(final(self)@, a, size) == Seq::<u64>::empty(),
            cap_of(final(self)@, a) == cap,
            forall|x: u64| x != a ==> #[trigger] object(final(self)@, x) == object(old(self)@, x),
            forall|x: u64| ref_ok(old(self)@, x) ==> #[trigger] ref_ok(final(self)@, x),
    {
        let ghost h2 = self@;
        proof {
            lemma_descs(is_ref, 0);
            assert(is_ref_word(array_desc(), 0, 0));
            assert(!is_ref_word(array_desc(), 0, 2));
            assert(has_ref(object(h2, a)->0, 0));
        }
        self.write_ref(a, 0, new);
        let ghost h3 = self@;
        proof {
            lemma_stored_object(h2, a, 0, new, a);
        }
        self.write_word(a, 2, cap);
        proof {
            let end = self@;
            lemma_stored_object(h3, a, 2, cap, a);
            assert forall|y: u64| y != a implies #[trigger] object(end, y) == object(h2, y) by {
                lemma_stored_object(h2, a, 0, new, y);
                lemma_stored_object(h3, a, 2, cap, y);
            }
            assert(object(end, new) == object(h2, new));
            assert(elems(end, a, size) =~= Seq::<u64>::empty());
        }
    }

    /// A new array without elements, with room for `cap` of them; nothing
    /// where there is no room.
    #[verifier::rlimit(60)]
    pub fn array_new(
        &mut self,
        size: u64,
        is_ref: bool,
        cap: u64,
        plan: Plan,
        full: bool,
        buf_plan: Plan,
        buf_full: bool,
        roots: &mut Vec<u64>,
    ) -> (r: Option<u64>)
        requires
            old(self).wf(),
            roots_ok(old(self)@, old(roots)@),
            is_size(size),
            is_ref ==> size == 8,
            buffer_aux(size, is_ref, starting_cap(cap)) <= u64::MAX,
        ensures
            final(self).wf(),
            roots_ok(final(self)@, final(roots)@),
            match r {
                Some(a) => exists|m1: HeapView, r1: Seq<u64>, m2: HeapView, held: Seq<u64>|
                    {
                        &&& #[trigger] made_array(
                            old(self)@,
                            old(roots)@,
                            plan,
                            full,
                            buf_plan,
                            buf_full,
                            m1,
                            r1,
                            m2,
                            held,
                        )
                        &&& final(roots)@ == held.drop_last()
                        &&& a == held.last()
                        &&& is_array(final(self)@, a, size, is_ref)
                        &&& elems(final(self)@, a, size) == Seq::<u64>::empty()
                        &&& cap_of(final(self)@, a) == starting_cap(cap)
                        &&& forall|y: u64|
                            y != a && object(m2, y) is Some ==> #[trigger] object(final(self)@, y)
                                == object(m2, y)
                    },
                None => {
                    ||| made_room(
                        old(self)@,
                        old(roots)@,
                        final(self)@,
                        final(roots)@,
                        plan,
                        full,
                    ) && !fits(final(self)@, array_desc(), 0)
                    ||| exists|m1: HeapView, r1: Seq<u64>, held: Seq<u64>|
                        {
                            &&& #[trigger] made_array(
                                old(self)@,
                                old(roots)@,
                                plan,
                                full,
                                buf_plan,
                                buf_full,
                                m1,
                                r1,
                                final(self)@,
                                held,
                            )
                            &&& final(roots)@ == held.drop_last()
                            &&& !fits(
                                final(self)@,
                                buffer_desc(is_ref),
                                buffer_aux(size, is_ref, starting_cap(cap)) as u64,
                            )
                        }
                },
            },
    {
        let ghost h0 = self@;
        let ghost roots0 = roots@;
        proof {
            lemma_descs(is_ref, 0);
        }
        let got = self.allocate(desc_array(), 0, plan, full, roots);
        let ghost r1 = roots@;
        let ghost m1 = choose|m: HeapView|
            {
                &&& #[trigger] made_room(h0, roots0, m, r1, plan, full)
                &&& match got {
                    Some(x) => {
                        &&& fits(m, array_desc(), 0)
                        &&& x == next_ref(m, plan is Old)
                        &&& self@ == grown(m, blank(array_desc(), 0), plan is Old)
                    },
                    None => !fits(m, array_desc(), 0) && self@ == m,
                }
            };
        let x = match got {
            Some(x) => x,
            None => {
                return None;
            },
        };
        let ghost h1 = self@;
        let ghost o = blank(array_desc(), 0);
        proof {
            lemma_grown_object(m1, o, plan is Old, 0);
            assert(object(h1, x) == Some(o));
            assert(ref_ok(h1, x));
            lemma_held_ok(h1, r1, x, 0, false);
        }
        roots.push(x);
        let ghost first = roots@;
        assert(first == r1.push(x));
        let want = first_cap(cap);
        let flag: u64 = if is_ref {
            1
        } else {
            0
        };
        let aux = buf_aux(size, flag, want);
        let desc = buf_desc(flag);
        let buf = self.allocate(desc, aux, buf_plan, buf_full, roots);
        let ghost held = roots@;
        let ghost m2 = choose|m: HeapView|
            {
                &&& #[trigger] made_room(h1, first, m, held, buf_plan, buf_full)
                &&& match buf {
                    Some(y) => {
                        &&& fits(m, desc, aux)
                        &&& y == next_ref(m, buf_plan is Old)
                        &&& self@ == grown(m, blank(desc, aux), buf_plan is Old)
                    },
                    None => !fits(m, desc, aux) && self@ == m,
                }
            };
        proof {
            lemma_room_keeps_object(
                h1,
                first,
                m2,
                held,
                buf_plan,
                buf_full,
                first.len() - 1,
            );
            assert(made_array(h0, roots0, plan, full, buf_plan, buf_full, m1, r1, m2, held));
        }
        let arr = match roots.pop() {
            Some(y) => y,
            None => x,
        };
        proof {
            assert(arr == held.last());
            assert(roots@ =~= held.drop_last());
            assert(object(m2, arr) == Some(o));
            assert forall|k: int| 0 <= k < roots@.len() implies ref_ok(
                self@,
                #[trigger] roots@[k],
            ) by {
                assert(ref_ok(self@, held[k]));
            }
        }
        let new = match buf {
            Some(y) => y,
            None => {
                return None;
            },
        };
        let ghost h2 = self@;
        proof {
            let b = blank(desc, aux);
            assert forall|y: u64| object(m2, y) is Some implies #[trigger] object(h2, y) == object(
                m2,
                y,
            ) && y != new by {
                lemma_grown_object(m2, b, buf_plan is Old, y);
            }
            lemma_new_buffer(m2, size, is_ref, want, buf_plan is Old);
            assert(object(h2, arr) == object(m2, arr));
            assert(ref_ok(h2, new));
        }
        self.equip(arr, new, want, size, is_ref);
        proof {
            let end = self@;
            assert forall|y: u64| y != arr && object(m2, y) is Some implies #[trigger] object(
                end,
                y,
            ) == object(m2, y) by {
                assert(object(h2, y) == object(m2, y));
            }
            assert forall|k: int| 0 <= k < roots@.len() implies ref_ok(
                end,
                #[trigger] roots@[k],
            ) by {
                assert(ref_ok(h2, roots@[k]));
            }
        }
        Some(arr)
    }
}

// -- Strings ----------------------------------------------------------------

/// Is this a string?
pub open spec fn is_text(h: HeapView, v: u64) -> bool {
    &&& object(h, v) is Some
    &&& object(h, v)->0.desc == (CrowDesc { kind: KIND_STRING, size: 0, refmap: 0 })
    &&& object(h, v)->0.words.len() == (object(h, v)->0.aux + 7) / 8
    &&& object(h, v)->0.aux <= MAX_PAYLOAD
}

/// The bytes of a string.
pub open spec fn text_of(h: HeapView, v: u64) -> Seq<u64> {
    Seq::new(object(h, v)->0.aux as nat, |i: int| elem(object(h, v)->0.words, 1, i))
}

impl Heap {
    /// How many bytes a string has.
    pub fn string_len(&self, v: u64) -> (r: u64)
        requires
            is_text(self@, v),
        ensures
            r == text_of(self@, v).len(),
    {
        assert(objs_view(self.young@).len() == self.young.len());
        assert(old_view(self.old@).len() == self.old.len());
        if v < OLD {
            self.young[(v - YOUNG) as usize].aux
        } else {
            self.old[(v - OLD) as usize].aux
        }
    }

    /// The byte of a string at an index.
    pub fn string_byte(&self, v: u64, i: u64) -> (r: u64)
        requires
            is_text(self@, v),
            i < text_of(self@, v).len(),
        ensures
            r == text_of(self@, v)[i as int],
    {
        proof {
            lemma_elem_within(1, object(self@, v)->0.aux, i as int);
        }
        let w = self.read(v, (i / 8) as usize);
        get_lane(w, 1, i % 8)
    }

    /// Strings are equal if their bytes are.
    pub fn string_eq(&self, a: u64, b: u64) -> (r: bool)
        requires
            is_text(self@, a),
            is_text(self@, b),
        ensures
            r == (text_of(self@, a) == text_of(self@, b)),
    {
        let n = self.string_len(a);
        if n != self.string_len(b) {
            return false;
        }
        let ghost (x, y) = (text_of(self@, a), text_of(self@, b));
        let mut i: u64 = 0;
        while i < n
            invariant
                is_text(self@, a),
                is_text(self@, b),
                x == text_of(self@, a),
                y == text_of(self@, b),
                x.len() == n,
                y.len() == n,
                i <= n,
                forall|k: int| 0 <= k < i ==> x[k] == y[k],
            decreases n - i,
        {
            if self.string_byte(a, i) != self.string_byte(b, i) {
                assert(x[i as int] != y[i as int]);
                return false;
            }
            i = i + 1;
        }
        assert(x =~= y);
        true
    }
}

} // verus!
