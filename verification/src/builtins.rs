//! The builtins of the runtime: numbers read from text, panic messages, and
//! the elements of array buffers.
use vstd::prelude::*;
use vstd::utf8::{decode_utf8, decode_utf8_encode_utf8, encode_utf8, valid_utf8};

use crate::ir::Rt;
use crate::lexer::{chars_of, digits_value, is_digit};
use crate::text::{cat2, cat4, dec, dec_int, dec_int_text, dec_text};

verus! {

// -- Numbers in text --------------------------------------------------------

/// Where the digits start: behind a leading minus sign.
pub open spec fn digits_start(t: Seq<char>) -> int {
    if t.len() > 0 && t[0] == '-' {
        1
    } else {
        0
    }
}

/// An optional leading `-` followed by one or more digits?
pub open spec fn is_int_text(t: Seq<char>) -> bool {
    digits_start(t) < t.len() && forall|i: int|
        digits_start(t) <= i < t.len() ==> is_digit(#[trigger] t[i])
}

/// The integer that such a text writes.
pub open spec fn int_text_value(t: Seq<char>) -> int {
    if digits_start(t) == 1 {
        -(digits_value(t, 1, t.len() as int, 10) as int)
    } else {
        digits_value(t, 0, t.len() as int, 10) as int
    }
}

pub open spec fn stoi_invalid(t: Seq<char>, line: u64) -> Seq<char> {
    "stoi: invalid integer \""@ + t + "\" at line "@ + dec_text(line as nat)
}

pub open spec fn stoi_range(t: Seq<char>, line: u64) -> Seq<char> {
    "stoi: integer \""@ + t + "\" out of range at line "@ + dec_text(line as nat)
}

/// Strict decimal integer parse: an optional leading `-` followed by one or
/// more digits, matching the whole string. Anything else is a panic message.
pub fn parse_int(txt: &str, line: u64) -> (r: Result<i64, String>)
    ensures
        match r {
            Ok(v) => is_int_text(txt@) && v == int_text_value(txt@),
            Err(m) => if is_int_text(txt@) {
                !(i64::MIN <= int_text_value(txt@) <= i64::MAX) && m@ == stoi_range(txt@, line)
            } else {
                m@ == stoi_invalid(txt@, line)
            },
        },
{
    let s = chars_of(txt);
    let from: usize = if s.len() > 0 && s[0] == '-' {
        1
    } else {
        0
    };
    if from >= s.len() {
        return Err(cat4("stoi: invalid integer \"", txt, "\" at line ", dec(line).as_str()));
    }
    let mut fits = true;
    let mut n: u64 = 0;
    let mut i: usize = from;
    while i < s.len()
        invariant
            s@ == txt@,
            from == digits_start(s@),
            from <= i <= s.len(),
            from < s.len(),
            forall|j: int| from <= j < i ==> is_digit(#[trigger] s@[j]),
            fits ==> n == digits_value(s@, from as int, i as int, 10) && n <= 0x8000_0000_0000_0000,
            !fits ==> digits_value(s@, from as int, i as int, 10) > 0x8000_0000_0000_0000,
        decreases s.len() - i,
    {
        let c = s[i] as u32;
        if c < 48 || c > 57 {
            assert(!is_digit(s@[i as int]));
            return Err(cat4("stoi: invalid integer \"", txt, "\" at line ", dec(line).as_str()));
        }
        let d: u64 = (c - 48) as u64;
        assert(digits_value(s@, from as int, i as int + 1, 10) == digits_value(
            s@,
            from as int,
            i as int,
            10,
        ) * 10 + d);
        if fits {
            if n > (0x8000_0000_0000_0000 - d) / 10 {
                fits = false;
            } else {
                n = n * 10 + d;
            }
        }
        i += 1;
    }
    if fits && from == 1 {
        if n == 0x8000_0000_0000_0000 {
            return Ok(i64::MIN);
        }
        return Ok(-(n as i64));
    }
    if fits && n <= 0x7fff_ffff_ffff_ffff {
        return Ok(n as i64);
    }
    Err(cat4("stoi: integer \"", txt, "\" out of range at line ", dec(line).as_str()))
}

/// May the text be read as a float at all: decimal or scientific notation
/// with an optional leading `-`, no leading `+`, no words?
pub open spec fn is_float_text(t: Seq<char>) -> bool {
    &&& t.len() > 0
    &&& t[0] != '+'
    &&& forall|i: int|
        0 <= i < t.len() ==> is_digit(#[trigger] t[i]) || t[i] == '.' || t[i] == 'e' || t[i] == 'E'
            || t[i] == '+' || t[i] == '-'
}

pub fn float_text(txt: &str) -> (r: bool)
    ensures
        r == is_float_text(txt@),
{
    let s = chars_of(txt);
    if s.len() == 0 || s[0] == '+' {
        return false;
    }
    let mut i: usize = 0;
    while i < s.len()
        invariant
            s@ == txt@,
            i <= s.len(),
            forall|j: int|
                0 <= j < i ==> is_digit(#[trigger] s@[j]) || s@[j] == '.' || s@[j] == 'e' || s@[j]
                    == 'E' || s@[j] == '+' || s@[j] == '-',
        decreases s.len() - i,
    {
        let c = s[i];
        if ((c as u32) < 48 || (c as u32) > 57) && c != '.' && c != 'e' && c != 'E' && c != '+' && c
            != '-' {
            assert(!is_digit(s@[i as int]));
            return false;
        }
        i += 1;
    }
    true
}

/// The message for a text that is no float, or none in range.
pub fn stof_message(txt: &str, in_range: bool, line: u64) -> (r: String)
    ensures
        r@ == if in_range {
            "stof: invalid float \""@ + txt@ + "\" at line "@ + dec_text(line as nat)
        } else {
            "stof: float \""@ + txt@ + "\" out of range at line "@ + dec_text(line as nat)
        },
{
    if in_range {
        cat4("stof: invalid float \"", txt, "\" at line ", dec(line).as_str())
    } else {
        cat4("stof: float \"", txt, "\" out of range at line ", dec(line).as_str())
    }
}

/// The text of a signed integer.
pub fn itos(v: i64) -> (r: String)
    ensures
        r@ == dec_int_text(v as int),
{
    dec_int(v as i128)
}

/// The text of an unsigned integer.
pub fn utos(v: u64) -> (r: String)
    ensures
        r@ == dec_text(v as nat),
{
    dec(v)
}

pub fn btext(v: u64) -> (r: &'static str)
    ensures
        r@ == if v != 0 {
            "true"@
        } else {
            "false"@
        },
{
    if v != 0 {
        "true"
    } else {
        "false"
    }
}

// -- Panics -----------------------------------------------------------------

/// What a runtime panic says before the line.
pub open spec fn panic_cause(rt: Rt) -> Option<Seq<char>> {
    match rt {
        Rt::PanicDiv => Some("division by zero"@),
        Rt::PanicOverflow => Some("integer overflow"@),
        Rt::PanicShift => Some("invalid shift amount"@),
        Rt::PanicCast => Some("cast out of range"@),
        Rt::PanicUnwrap => Some("unwrap of None"@),
        Rt::PanicStack => Some("stack overflow"@),
        Rt::AssertFail => Some("assertion failed"@),
        _ => None,
    }
}

/// The message of a panic that knows only its line.
pub fn panic_message(rt: Rt, line: u64) -> (r: Option<String>)
    ensures
        match r {
            Some(m) => panic_cause(rt) is Some && m@ == panic_cause(rt)->0 + " at line "@
                + dec_text(line as nat),
            None => panic_cause(rt) is None,
        },
{
    let cause = match rt {
        Rt::PanicDiv => "division by zero",
        Rt::PanicOverflow => "integer overflow",
        Rt::PanicShift => "invalid shift amount",
        Rt::PanicCast => "cast out of range",
        Rt::PanicUnwrap => "unwrap of None",
        Rt::PanicStack => "stack overflow",
        Rt::AssertFail => "assertion failed",
        _ => return None,
    };
    let line_text = dec(line);
    Some(crate::text::cat3(cause, " at line ", line_text.as_str()))
}

pub fn bounds_message(idx: i64, len: i64, line: u64) -> (r: String)
    ensures
        r@ == "index "@ + dec_int_text(idx as int) + " out of bounds (len "@ + dec_int_text(
            len as int,
        ) + ") at line "@ + dec_text(line as nat),
{
    crate::text::cat6(
        "index ",
        itos(idx).as_str(),
        " out of bounds (len ",
        itos(len).as_str(),
        ") at line ",
        dec(line).as_str(),
    )
}

/// The message of a `pop` that finds nothing to remove.
pub fn pop_message(line: u64) -> (r: String)
    ensures
        r@ == "pop on empty array at line "@ + dec_text(line as nat),
{
    cat2("pop on empty array at line ", dec(line).as_str())
}

pub fn btos_message(line: u64) -> (r: String)
    ensures
        r@ == "btos: invalid UTF-8 at line "@ + dec_text(line as nat),
{
    cat2("btos: invalid UTF-8 at line ", dec(line).as_str())
}

/// `std::str::from_utf8` gives the text that the bytes encode exactly where
/// they are valid UTF-8.
#[verifier::external_body]
fn text_of(bytes: &Vec<u8>) -> (r: Option<String>)
    ensures
        match r {
            Some(s) => valid_utf8(bytes@) && s@ == decode_utf8(bytes@),
            None => !valid_utf8(bytes@),
        },
{
    match std::str::from_utf8(bytes) {
        Ok(s) => Some(String::from(s)),
        Err(_) => None,
    }
}

/// The string that bytes make, or the message where they are no text.
pub fn btos_text(bytes: &Vec<u8>, line: u64) -> (r: Result<String, String>)
    ensures
        match r {
            Ok(s) => valid_utf8(bytes@) && encode_utf8(s@) == bytes@,
            Err(m) => !valid_utf8(bytes@) && m@ == "btos: invalid UTF-8 at line "@ + dec_text(
                line as nat,
            ),
        },
{
    match text_of(bytes) {
        Some(s) => {
            proof {
                decode_utf8_encode_utf8(bytes@);
            }
            Ok(s)
        },
        None => Err(btos_message(line)),
    }
}

// -- Array elements ---------------------------------------------------------

/// Buffer aux word for a capacity: bytes for scalar buffers, elements for
/// reference buffers.
pub fn buf_aux(elem_size: u64, elem_is_ref: u64, cap: u64) -> (r: u64)
    requires
        elem_is_ref == 0 ==> cap * elem_size <= u64::MAX,
    ensures
        r == if elem_is_ref != 0 {
            cap as int
        } else {
            cap * elem_size
        },
{
    if elem_is_ref != 0 {
        cap
    } else {
        cap * elem_size
    }
}

/// The capacity of a new array for which `cap` elements are wanted.
pub fn first_cap(cap: u64) -> (r: u64)
    ensures
        r == if cap < 4 {
            4
        } else {
            cap
        },
{
    if cap < 4 {
        4
    } else {
        cap
    }
}

/// The capacity that a full array grows to.
pub fn grown_cap(cap: u64) -> (r: u64)
    requires
        cap * 2 <= u64::MAX,
    ensures
        r == if cap * 2 < 4 {
            4
        } else {
            cap * 2
        },
        r > cap,
{
    let twice = cap * 2;
    if twice < 4 {
        4
    } else {
        twice
    }
}

/// Bytes that a read or write of an element of this size covers.
pub open spec fn width(elem_size: u64) -> nat {
    if elem_size == 1 {
        1
    } else if elem_size == 2 {
        2
    } else if elem_size == 4 {
        4
    } else {
        8
    }
}

fn width_of(elem_size: u64) -> (r: usize)
    ensures
        r == width(elem_size),
{
    match elem_size {
        1 => 1,
        2 => 2,
        4 => 4,
        _ => 8,
    }
}

/// How many values `n` bytes can hold.
pub open spec fn span(n: nat) -> nat
    decreases n,
{
    if n == 0 {
        1
    } else {
        256 * span((n - 1) as nat)
    }
}

/// The number that bytes write, the lowest first.
pub open spec fn bytes_value(s: Seq<u8>) -> nat
    decreases s.len(),
{
    if s.len() == 0 {
        0
    } else {
        s[0] as nat + 256 * bytes_value(s.skip(1))
    }
}

/// The lowest `n` bytes of a number, the lowest first.
pub open spec fn value_bytes(v: nat, n: nat) -> Seq<u8>
    decreases n,
{
    if n == 0 {
        Seq::empty()
    } else {
        seq![(v % 256) as u8] + value_bytes(v / 256, (n - 1) as nat)
    }
}

pub proof fn lemma_value_bytes_len(v: nat, n: nat)
    ensures
        value_bytes(v, n).len() == n,
    decreases n,
{
    if n > 0 {
        lemma_value_bytes_len(v / 256, (n - 1) as nat);
    }
}

proof fn lemma_span_positive(n: nat)
    ensures
        span(n) > 0,
    decreases n,
{
    if n > 0 {
        lemma_span_positive((n - 1) as nat);
    }
}

/// What is read of a number's lowest `n` bytes is the number, truncated.
pub proof fn law_bytes_round_trip(v: nat, n: nat)
    ensures
        bytes_value(value_bytes(v, n)) == v % span(n),
    decreases n,
{
    if n > 0 {
        let m = (n - 1) as nat;
        law_bytes_round_trip(v / 256, m);
        lemma_span_positive(m);
        vstd::arithmetic::div_mod::lemma_mod_breakdown(v as int, 256, span(m) as int);
        assert(value_bytes(v, n).skip(1) =~= value_bytes(v / 256, m));
    }
}

proof fn lemma_bytes_value_bound(s: Seq<u8>)
    ensures
        bytes_value(s) < span(s.len()),
    decreases s.len(),
{
    if s.len() > 0 {
        lemma_bytes_value_bound(s.skip(1));
    }
}

/// The bytes of element `idx`.
pub open spec fn lane(buf: Seq<u8>, elem_size: u64, idx: int) -> Seq<u8> {
    buf.subrange(idx * elem_size, idx * elem_size + width(elem_size))
}

/// Does the buffer hold all of element `idx`?
pub open spec fn has_lane(buf: Seq<u8>, elem_size: u64, idx: int) -> bool {
    0 <= idx && idx * elem_size + width(elem_size) <= buf.len()
}

proof fn lemma_skip_value(s: Seq<u8>, k: int)
    requires
        0 <= k < s.len(),
    ensures
        bytes_value(s.skip(k)) == s[k] as nat + 256 * bytes_value(s.skip(k + 1)),
{
    assert(s.skip(k).skip(1) =~= s.skip(k + 1));
}

proof fn lemma_span_eight()
    ensures
        span(8) == 0x1_0000_0000_0000_0000,
        span(0) == 1,
{
    reveal_with_fuel(span, 9);
}

proof fn lemma_span_monotone(m: nat, n: nat)
    requires
        m <= n,
    ensures
        span(m) <= span(n),
    decreases n,
{
    lemma_span_positive(m);
    if m < n {
        lemma_span_monotone(m, (n - 1) as nat);
    }
}

/// The raw element, zero-extended for narrow scalars.
pub fn elem_read(buf: &Vec<u8>, elem_size: u64, idx: usize) -> (r: u64)
    requires
        has_lane(buf@, elem_size, idx as int),
        elem_size <= usize::MAX,
    ensures
        r == bytes_value(lane(buf@, elem_size, idx as int)),
{
    let w = width_of(elem_size);
    let ghost s = lane(buf@, elem_size, idx as int);
    assert(buf@.len() == buf.len());
    assert(0 <= idx * elem_size) by (nonlinear_arith);
    let at: usize = idx * (elem_size as usize);
    let mut v: u64 = 0;
    let mut k: usize = w;
    proof {
        assert(s.skip(w as int) =~= Seq::empty());
        lemma_span_eight();
    }
    while k > 0
        invariant
            k <= w,
            w == width(elem_size),
            w <= 8,
            at == idx * elem_size,
            at + w <= buf.len(),
            s == lane(buf@, elem_size, idx as int),
            s.len() == w,
            has_lane(buf@, elem_size, idx as int),
            v == bytes_value(s.skip(k as int)),
        decreases k,
    {
        proof {
            lemma_skip_value(s, k as int - 1);
            lemma_bytes_value_bound(s.skip(k as int - 1));
            lemma_span_monotone(s.skip(k as int - 1).len(), 8);
            lemma_span_eight();
            assert(s[k as int - 1] == buf@[at + k - 1]);
        }
        k -= 1;
        v = v * 256 + buf[at + k] as u64;
    }
    assert(s.skip(0) =~= s);
    v
}

/// Write an element: exactly its own bytes change.
pub fn elem_write(buf: &mut Vec<u8>, elem_size: u64, idx: usize, val: u64)
    requires
        has_lane(old(buf)@, elem_size, idx as int),
        elem_size <= usize::MAX,
    ensures
        final(buf)@.len() == old(buf)@.len(),
        lane(final(buf)@, elem_size, idx as int) == value_bytes(val as nat, width(elem_size)),
        forall|i: int|
            0 <= i < old(buf)@.len() && !(idx * elem_size <= i < idx * elem_size + width(elem_size))
                ==> #[trigger] final(buf)@[i] == old(buf)@[i],
{
    let w = width_of(elem_size);
    assert(buf@.len() == buf.len());
    assert(0 <= idx * elem_size) by (nonlinear_arith);
    let at: usize = idx * (elem_size as usize);
    let ghost want = value_bytes(val as nat, w as nat);
    let mut rest: u64 = val;
    let mut k: usize = 0;
    proof {
        lemma_value_bytes_len(val as nat, w as nat);
        assert(want.skip(0) =~= want);
    }
    while k < w
        invariant
            k <= w,
            w == width(elem_size),
            at == idx * elem_size,
            at + w <= buf.len(),
            buf@.len() == old(buf)@.len(),
            want == value_bytes(val as nat, w as nat),
            want.len() == w,
            want.skip(k as int) == value_bytes(rest as nat, (w - k) as nat),
            forall|j: int| 0 <= j < k ==> #[trigger] buf@[at + j] == want[j],
            forall|i: int|
                0 <= i < buf@.len() && !(at <= i < at + w) ==> #[trigger] buf@[i] == old(buf)@[i],
        decreases w - k,
    {
        let b = (rest % 256) as u8;
        proof {
            let tail = value_bytes(rest as nat, (w - k) as nat);
            assert(tail == seq![b] + value_bytes((rest / 256) as nat, (w - k - 1) as nat));
            assert(want.skip(k as int)[0] == want[k as int]);
            assert(want.skip(k as int + 1) =~= want.skip(k as int).skip(1));
            assert(tail.skip(1) =~= value_bytes((rest / 256) as nat, (w - k - 1) as nat));
        }
        let ghost before = buf@;
        buf.set(at + k, b);
        assert forall|j: int| 0 <= j < k + 1 implies #[trigger] buf@[at + j] == want[j] by {
            if j < k {
                assert(before[at + j] == want[j]);
            }
        }
        rest = rest / 256;
        k += 1;
    }
    assert(lane(buf@, elem_size, idx as int) =~= want) by {
        assert forall|j: int| 0 <= j < w implies lane(buf@, elem_size, idx as int)[j]
            == want[j] by {
            assert(buf@[at + j] == want[j]);
        }
    }
}

/// An element read back is the value written, truncated to its width.
pub proof fn law_elem_write_read(after: Seq<u8>, elem_size: u64, idx: int, val: u64)
    requires
        has_lane(after, elem_size, idx),
        lane(after, elem_size, idx) == value_bytes(val as nat, width(elem_size)),
    ensures
        bytes_value(lane(after, elem_size, idx)) == val as nat % span(width(elem_size)),
{
    law_bytes_round_trip(val as nat, width(elem_size));
}

/// Writing one element leaves the others as they were.
pub proof fn law_elem_write_frame(
    before: Seq<u8>,
    after: Seq<u8>,
    elem_size: u64,
    idx: int,
    other: int,
)
    requires
        elem_size == 1 || elem_size == 2 || elem_size == 4 || elem_size == 8,
        idx != other,
        has_lane(before, elem_size, idx),
        has_lane(before, elem_size, other),
        after.len() == before.len(),
        forall|i: int|
            0 <= i < before.len() && !(idx * elem_size <= i < idx * elem_size + width(elem_size))
                ==> #[trigger] after[i] == before[i],
    ensures
        lane(after, elem_size, other) == lane(before, elem_size, other),
{
    let n = elem_size as int;
    assert(other * n + n <= idx * n || idx * n + n <= other * n) by (nonlinear_arith)
        requires
            idx != other,
            n > 0,
    ;
    assert(0 <= other * n) by (nonlinear_arith)
        requires
            0 <= other,
            n > 0,
    ;
    assert(lane(after, elem_size, other) =~= lane(before, elem_size, other));
}

} // verus!
