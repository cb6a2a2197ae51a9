//! The object model of the runtime.
//!
//! Every heap object starts with a 16-byte header, and object pointers point
//! at the header:
//!
//! ```text
//!   word 0 (meta): descriptor pointer | flag bits (low 3 bits)
//!   word 1 (aux):  string -> byte length,
//!                  scalar buffer -> capacity in bytes,
//!                  ref buffer -> capacity in elements (8 bytes each),
//!                  enum -> variant tag,
//!                  struct/closure -> 0
//!   offset 16:     payload (fields / bytes / elements)
//! ```
//!
//! Descriptors tell the collector which 8-byte payload words are references.
use vstd::prelude::*;

use crate::lower::refmap_upto;
use crate::text::{cat3, dec, dec_text};
use crate::types::{field_offset, lemma_offset_bound, TypeView};

verus! {

pub const FLAG_MARK: u64 = 1;

pub const FLAG_FWD: u64 = 2;

pub const FLAG_STATIC: u64 = 4;

pub const FLAG_MASK: u64 = 7;

pub const KIND_STRUCT: u64 = 0;

pub const KIND_STRING: u64 = 1;

pub const KIND_BUF_SCALAR: u64 = 2;

pub const KIND_BUF_REF: u64 = 3;

pub const HEADER_SIZE: u64 = 16;

/// Where an array object holds its buffer, length and capacity.
pub const ARR_BUF: u64 = 16;

pub const ARR_LEN: u64 = 24;

pub const ARR_CAP: u64 = 32;

#[derive(Debug, Clone, Copy, PartialEq, Eq, Structural)]
pub struct CrowDesc {
    pub kind: u64,
    /// Payload size in bytes (KIND_STRUCT only; other kinds derive size from aux).
    pub size: u64,
    /// Bit i set => payload word i is a reference (KIND_STRUCT only).
    pub refmap: u64,
}

pub fn desc_string() -> (r: CrowDesc)
    ensures
        r == (CrowDesc { kind: KIND_STRING, size: 0, refmap: 0 }),
{
    CrowDesc { kind: KIND_STRING, size: 0, refmap: 0 }
}

/// Arrays are ordinary struct-kind objects: { buf: ref, len: int, cap: int }.
pub fn desc_array() -> (r: CrowDesc)
    ensures
        r == (CrowDesc { kind: KIND_STRUCT, size: 24, refmap: 1 }),
{
    CrowDesc { kind: KIND_STRUCT, size: 24, refmap: 1 }
}

/// The descriptor of an array's buffer.
pub fn buf_desc(elem_is_ref: u64) -> (r: CrowDesc)
    ensures
        r == (CrowDesc {
            kind: if elem_is_ref != 0 {
                KIND_BUF_REF
            } else {
                KIND_BUF_SCALAR
            },
            size: 0,
            refmap: 0,
        }),
{
    if elem_is_ref != 0 {
        CrowDesc { kind: KIND_BUF_REF, size: 0, refmap: 0 }
    } else {
        CrowDesc { kind: KIND_BUF_SCALAR, size: 0, refmap: 0 }
    }
}

/// The next multiple of `m`.
pub open spec fn round_up(n: int, m: int) -> int {
    (n + m - 1) / m * m
}

pub fn round8(n: u64) -> (r: u64)
    requires
        n + 7 <= u64::MAX,
    ensures
        r == round_up(n as int, 8),
{
    (n + 7) / 8 * 8
}

/// Allocations are rounded to 16 bytes.
pub fn round16(n: u64) -> (r: u64)
    requires
        n + 15 <= u64::MAX,
    ensures
        r == round_up(n as int, 16),
{
    (n + 15) / 16 * 16
}

/// Is this a kind of object?
pub open spec fn known_kind(kind: u64) -> bool {
    kind == KIND_STRUCT || kind == KIND_STRING || kind == KIND_BUF_SCALAR || kind == KIND_BUF_REF
}

/// Payload size in bytes of an object with the given descriptor and aux word.
pub open spec fn payload(desc: CrowDesc, aux: u64) -> int {
    if desc.kind == KIND_STRUCT {
        desc.size as int
    } else if desc.kind == KIND_BUF_REF {
        8 * aux
    } else {
        round_up(aux as int, 8)
    }
}

pub open spec fn corrupt_text(kind: u64) -> Seq<char> {
    "corrupt object descriptor (kind "@ + dec_text(kind as nat) + ")"@
}

pub fn payload_size(desc: CrowDesc, aux: u64) -> (r: Result<u64, String>)
    requires
        payload(desc, aux) <= u64::MAX,
        aux + 7 <= u64::MAX,
    ensures
        match r {
            Ok(n) => known_kind(desc.kind) && n == payload(desc, aux),
            Err(m) => !known_kind(desc.kind) && m@ == corrupt_text(desc.kind),
        },
{
    if desc.kind == KIND_STRUCT {
        Ok(desc.size)
    } else if desc.kind == KIND_STRING || desc.kind == KIND_BUF_SCALAR {
        Ok(round8(aux))
    } else if desc.kind == KIND_BUF_REF {
        Ok(aux * 8)
    } else {
        Err(cat3("corrupt object descriptor (kind ", dec(desc.kind).as_str(), ")"))
    }
}

/// What an object takes up, its header and rounding included.
pub open spec fn block(desc: CrowDesc, aux: u64) -> int {
    round_up(HEADER_SIZE + round_up(payload(desc, aux), 8), 16)
}

pub fn block_size(desc: CrowDesc, aux: u64) -> (r: Result<u64, String>)
    requires
        payload(desc, aux) + 64 <= u64::MAX,
        aux + 7 <= u64::MAX,
    ensures
        match r {
            Ok(n) => known_kind(desc.kind) && n == block(desc, aux),
            Err(m) => !known_kind(desc.kind) && m@ == corrupt_text(desc.kind),
        },
{
    match payload_size(desc, aux) {
        Ok(n) => Ok(round16(HEADER_SIZE + round8(n))),
        Err(m) => Err(m),
    }
}

/// A block holds the header and the payload, and wastes less than 16 bytes
/// beyond a payload of whole words.
pub proof fn law_block_holds_payload(desc: CrowDesc, aux: u64)
    requires
        payload(desc, aux) >= 0,
    ensures
        block(desc, aux) % 16 == 0,
        HEADER_SIZE + payload(desc, aux) <= block(desc, aux) < HEADER_SIZE + payload(desc, aux)
            + 23,
{
}

// -- References -------------------------------------------------------------

pub open spec fn bit(map: u64, i: int) -> bool {
    0 <= i < 64 && (map >> (i as u64)) & 1 == 1
}

/// Is payload word `i` of such an object a reference?
pub open spec fn is_ref_word(desc: CrowDesc, aux: u64, i: int) -> bool {
    if desc.kind == KIND_STRUCT {
        bit(desc.refmap, i)
    } else if desc.kind == KIND_BUF_REF {
        0 <= i < aux
    } else {
        false
    }
}

/// Are these the words for which `p` holds, each once and in order?
pub open spec fn lists_in_order(ws: Seq<u64>, p: spec_fn(int) -> bool) -> bool {
    &&& forall|i: int, j: int| 0 <= i < j < ws.len() ==> ws[i] < ws[j]
    &&& forall|i: int| 0 <= i < ws.len() ==> p(#[trigger] ws[i] as int)
    &&& forall|w: u64| #[trigger] p(w as int) ==> ws.contains(w)
}

/// The payload words of an object that are references, in order.
pub fn ref_words(desc: CrowDesc, aux: u64) -> (r: Vec<u64>)
    ensures
        lists_in_order(r@, |i: int| is_ref_word(desc, aux, i)),
{
    let ghost p = |i: int| is_ref_word(desc, aux, i);
    let mut out: Vec<u64> = Vec::new();
    let end: u64 = if desc.kind == KIND_STRUCT {
        64
    } else if desc.kind == KIND_BUF_REF {
        aux
    } else {
        0
    };
    let mut i: u64 = 0;
    while i < end
        invariant
            i <= end,
            p == (|i: int| is_ref_word(desc, aux, i)),
            desc.kind == KIND_STRUCT ==> end == 64,
            desc.kind == KIND_BUF_REF ==> end == aux,
            desc.kind != KIND_STRUCT && desc.kind != KIND_BUF_REF ==> end == 0,
            forall|a: int, b: int| 0 <= a < b < out@.len() ==> out@[a] < out@[b],
            forall|a: int| 0 <= a < out@.len() ==> #[trigger] out@[a] < i && p(out@[a] as int),
            forall|w: u64| w < i && #[trigger] p(w as int) ==> out@.contains(w),
        decreases end - i,
    {
        let ghost before = out@;
        if desc.kind != KIND_STRUCT || (desc.refmap >> i) & 1 == 1 {
            out.push(i);
            assert(out@[before.len() as int] == i);
            assert forall|w: u64| w < i + 1 && #[trigger] p(w as int) implies out@.contains(w) by {
                if w < i {
                    let k = choose|k: int| 0 <= k < before.len() && before[k] == w;
                    assert(out@[k] == w);
                }
            }
        } else {
            assert(!p(i as int));
        }
        i += 1;
    }
    assert forall|w: u64| #[trigger] p(w as int) implies out@.contains(w) by {
        assert(w < end);
    }
    out
}

proof fn lemma_set_bit(map: u64, b: u64, i: u64)
    requires
        b < 64,
        i < 64,
    ensures
        ((map | (1u64 << b)) >> i) & 1 == if i == b {
            1u64
        } else {
            (map >> i) & 1
        },
{
    assert(((map | (1u64 << b)) >> i) & 1 == if i == b {
        1u64
    } else {
        (map >> i) & 1
    }) by (bit_vector)
        requires
            b < 64,
            i < 64,
    ;
}

/// The reference map that the compiler gives a layout marks a payload word
/// exactly if a field that holds a reference starts there.
pub proof fn law_refmap_marks_references(ts: Seq<TypeView>, n: nat, i: int)
    requires
        n <= ts.len(),
        n <= 64,
        0 <= i < 64,
    ensures
        bit(refmap_upto(ts, n), i) == exists|k: int|
            0 <= k < n && (#[trigger] ts[k]).is_reference() && field_offset(ts, k as nat) / 8 == i,
    decreases n,
{
    if n == 0 {
        let w = i as u64;
        assert((0u64 >> w) & 1 == 0) by (bit_vector);
    } else {
        let m = (n - 1) as nat;
        law_refmap_marks_references(ts, m, i);
        lemma_offset_bound(ts, m);
        let at = (field_offset(ts, m) / 8) as u64;
        if ts[m as int].is_reference() {
            lemma_set_bit(refmap_upto(ts, m), at, i as u64);
            if at == i {
                assert(ts[m as int].is_reference() && field_offset(ts, m) / 8 == i);
            }
        }
        assert forall|k: int|
            0 <= k < n && (#[trigger] ts[k]).is_reference() && field_offset(ts, k as nat) / 8
                == i implies k < m || at == i by {}
    }
}

} // verus!
