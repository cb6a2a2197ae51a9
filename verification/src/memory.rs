//! Memory as a program sees it: the bytes of objects, strings and arrays, by
//! address. Nothing is freed or moved here: a collection keeps whatever the
//! program can reach, so it cannot be seen.
use vstd::prelude::*;

use crate::builtins::{int_text_value, is_float_text, is_int_text};
use crate::floats::{decimal, float_of_text, is_infinite};
use crate::machine::{decode, low_signed, word};
use crate::types::TypeView;

verus! {

/// What a program has done so far: the text that it has printed, its memory,
/// and the address behind the last object.
#[verifier::ext_equal]
pub struct World {
    pub out: Seq<char>,
    pub mem: Map<int, u8>,
    pub free: int,
}

impl World {
    pub open spec fn print(self, text: Seq<char>) -> World {
        World { out: self.out + text, ..self }
    }
}

// -- Bytes ------------------------------------------------------------------

/// The number in the `n` bytes at an address, lowest byte first.
pub open spec fn load(mem: Map<int, u8>, a: int, n: nat) -> nat
    decreases n,
{
    if n == 0 {
        0
    } else {
        mem[a] as nat + 256 * load(mem, a + 1, (n - 1) as nat)
    }
}

/// The memory with the lowest `n` bytes of a number put at an address.
pub open spec fn store(mem: Map<int, u8>, a: int, n: nat, v: nat) -> Map<int, u8>
    decreases n,
{
    if n == 0 {
        mem
    } else {
        store(mem.insert(a, (v % 256) as u8), a + 1, (n - 1) as nat, v / 256)
    }
}

pub const STACK_LIMIT: u64 = 1;

/// What a program reads at an address. At address zero stands the limit of the
/// stack, from which its addresses are counted.
pub open spec fn fetch(mem: Map<int, u8>, a: int, n: nat) -> nat {
    if a == 0 && n > 0 {
        STACK_LIMIT as nat
    } else {
        load(mem, a, n)
    }
}

/// How many different numbers `n` bytes hold.
pub open spec fn room(n: nat) -> nat
    decreases n,
{
    if n == 0 {
        1
    } else {
        256 * room((n - 1) as nat)
    }
}

pub proof fn lemma_load_bound(mem: Map<int, u8>, a: int, n: nat)
    ensures
        load(mem, a, n) < room(n),
    decreases n,
{
    if n > 0 {
        lemma_load_bound(mem, a + 1, (n - 1) as nat);
    }
}

pub proof fn lemma_fetch_bound(mem: Map<int, u8>, a: int, n: nat)
    ensures
        fetch(mem, a, n) < room(n),
{
    lemma_load_bound(mem, a, n);
    if n > 0 {
        lemma_room_positive((n - 1) as nat);
    }
}

pub proof fn lemma_room()
    ensures
        room(1) == 0x100,
        room(2) == 0x1_0000,
        room(4) == 0x1_0000_0000,
        room(8) == 0x1_0000_0000_0000_0000,
{
    reveal_with_fuel(room, 9);
}

/// What is put at an address does not touch what stands elsewhere.
pub proof fn law_store_elsewhere(mem: Map<int, u8>, a: int, n: nat, v: nat, k: int)
    requires
        k < a || a + n <= k,
    ensures
        store(mem, a, n, v)[k] == mem[k],
    decreases n,
{
    if n > 0 {
        let mem1 = mem.insert(a, (v % 256) as u8);
        law_store_elsewhere(mem1, a + 1, (n - 1) as nat, v / 256, k);
    }
}

/// What is read at an address depends on the bytes there only.
pub proof fn lemma_load_same(m1: Map<int, u8>, m2: Map<int, u8>, a: int, n: nat)
    requires
        forall|k: int| a <= k < a + n ==> #[trigger] m1[k] == m2[k],
    ensures
        load(m1, a, n) == load(m2, a, n),
    decreases n,
{
    if n > 0 {
        lemma_load_same(m1, m2, a + 1, (n - 1) as nat);
    }
}

/// What was put at an address is read there, as far as it fits.
pub proof fn law_load_stored(mem: Map<int, u8>, a: int, n: nat, v: nat)
    ensures
        load(store(mem, a, n, v), a, n) == v % room(n),
    decreases n,
{
    if n > 0 {
        let mem1 = mem.insert(a, (v % 256) as u8);
        let k = (n - 1) as nat;
        law_load_stored(mem1, a + 1, k, v / 256);
        law_store_elsewhere(mem1, a + 1, k, v / 256, a);
        let r = room(k) as int;
        lemma_room_positive(k);
        assert(v as int % 256 + 256 * ((v as int / 256) % r) == v as int % (256 * r)) by {
            vstd::arithmetic::div_mod::lemma_mod_breakdown(v as int, 256, r);
        }
    }
}

proof fn lemma_room_positive(n: nat)
    ensures
        room(n) > 0,
    decreases n,
{
    if n > 0 {
        lemma_room_positive((n - 1) as nat);
    }
}

// -- Values -----------------------------------------------------------------

/// The value of a type that a number of its storage size stands for.
pub open spec fn value_in(ty: TypeView, raw: nat) -> Option<int> {
    match ty {
        TypeView::Int(k) => if k.width() == 64 {
            Some(decode(k, raw as u64))
        } else if k.is_signed() {
            Some(low_signed(raw as u64, k.width() as nat))
        } else {
            Some(raw as int)
        },
        TypeView::Bool => if raw <= 1 {
            Some(raw as int)
        } else {
            None
        },
        TypeView::Float => Some(raw as int),
        TypeView::Str => Some(raw as int),
        TypeView::Struct(_, _) => Some(raw as int),
        TypeView::Enum(_, _) => Some(raw as int),
        TypeView::Array(_) => Some(raw as int),
        TypeView::Fn(_, _) => Some(raw as int),
        _ => None,
    }
}

/// The value of a type at an address, if there is one.
pub open spec fn read(w: World, ty: TypeView, a: int) -> Option<int> {
    value_in(ty, fetch(w.mem, a, ty.storage() as nat))
}

/// A value of a type is put at an address.
pub open spec fn put_value(w: World, ty: TypeView, a: int, x: int) -> World {
    World { mem: store(w.mem, a, ty.storage() as nat, word(x) as nat), ..w }
}

/// The address at a distance from another one.
pub open spec fn beyond(a: int, off: int) -> int {
    word(a + off) as int
}

/// The auxiliary word of an object: the tag of a variant, the length of a
/// string, the capacity of a buffer.
pub open spec fn aux(w: World, a: int) -> nat {
    fetch(w.mem, beyond(a, 8), 8)
}

/// A new object at the end of memory, with room for `size` bytes and the
/// auxiliary word; none where memory is used up.
pub open spec fn new_object(w: World, size: nat, aux: nat) -> Option<(int, World)> {
    let a = w.free;
    if a <= 0 || a + 24 + size >= 0x4000_0000_0000_0000 {
        None
    } else {
        Some((a, World { mem: store(w.mem, a + 8, 8, aux), free: a + 24 + size - size % 8, ..w }))
    }
}

// -- Strings ----------------------------------------------------------------

/// The bytes of the string at an address.
pub open spec fn text_at(w: World, a: int) -> Seq<u8> {
    Seq::new(aux(w, a), |i: int| w.mem[a + 16 + i])
}

/// The memory with bytes put at an address.
pub open spec fn put_bytes(mem: Map<int, u8>, a: int, bytes: Seq<u8>) -> Map<int, u8>
    decreases bytes.len(),
{
    if bytes.len() == 0 {
        mem
    } else {
        put_bytes(mem, a, bytes.drop_last()).insert(a + bytes.len() - 1, bytes.last())
    }
}

proof fn lemma_put_bytes(mem: Map<int, u8>, a: int, bytes: Seq<u8>, k: int)
    ensures
        a <= k < a + bytes.len() ==> put_bytes(mem, a, bytes)[k] == bytes[k - a],
        !(a <= k < a + bytes.len()) ==> put_bytes(mem, a, bytes)[k] == mem[k],
    decreases bytes.len(),
{
    if bytes.len() > 0 {
        lemma_put_bytes(mem, a, bytes.drop_last(), k);
    }
}

/// A new string with these bytes.
pub open spec fn new_text(w: World, bytes: Seq<u8>) -> Option<(int, World)> {
    match new_object(w, bytes.len(), bytes.len()) {
        None => None,
        Some((a, w1)) => Some((a, World { mem: put_bytes(w1.mem, a + 16, bytes), ..w1 })),
    }
}

/// The characters of ASCII text, as bytes.
pub open spec fn ascii(text: Seq<char>) -> Seq<u8> {
    Seq::new(text.len(), |i: int| text[i] as u8)
}

/// The text of a string as it is printed; none where its bytes are not UTF-8.
pub open spec fn shown_text(bytes: Seq<u8>) -> Option<Seq<char>> {
    if vstd::utf8::valid_utf8(bytes) {
        Some(vstd::utf8::decode_utf8(bytes))
    } else {
        None
    }
}

// -- Arrays -----------------------------------------------------------------

pub open spec fn array_len(w: World, a: int) -> nat {
    fetch(w.mem, beyond(a, 24), 8)
}

pub open spec fn array_buf(w: World, a: int) -> int {
    fetch(w.mem, beyond(a, 16), 8) as int
}

/// The address of an element, in the buffer that the array has now.
pub open spec fn element(w: World, a: int, i: int, size: nat) -> int {
    beyond(array_buf(w, a), 16 + i * size)
}

/// A new array with room for `n` elements.
pub open spec fn new_array(w: World, size: nat, n: nat) -> Option<(int, World)> {
    match new_object(w, 16, 0) {
        None => None,
        Some((a, w1)) => match new_object(w1, n * size, n) {
            None => None,
            Some((b, w2)) => Some(
                (
                    a,
                    World { mem: store(store(w2.mem, a + 16, 8, b as nat), a + 24, 8, 0), ..w2 },
                ),
            ),
        },
    }
}

/// The bytes that an array of them holds.
pub open spec fn bytes_at(w: World, a: int) -> Seq<u8> {
    Seq::new(array_len(w, a), |i: int| fetch(w.mem, element(w, a, i, 1), 1) as u8)
}

/// A new array of bytes.
pub open spec fn new_bytes(w: World, bytes: Seq<u8>) -> Option<(int, World)> {
    match new_array(w, 1, bytes.len()) {
        None => None,
        Some((a, w1)) => {
            let mem = put_bytes(w1.mem, array_buf(w1, a) + 16, bytes);
            Some((a, World { mem: store(mem, a + 24, 8, bytes.len()), ..w1 }))
        },
    }
}

/// The integer that the text of a string writes, if it does and has 64 bits.
pub open spec fn int_in(bytes: Seq<u8>) -> Option<int> {
    match shown_text(bytes) {
        None => None,
        Some(t) => if is_int_text(t) && i64::MIN <= int_text_value(t) <= i64::MAX {
            Some(int_text_value(t))
        } else {
            None
        },
    }
}

/// The floating-point number that the text of a string writes, if it does and
/// is finite.
pub open spec fn float_in(bytes: Seq<u8>) -> Option<u64> {
    match shown_text(bytes) {
        None => None,
        Some(t) => if is_float_text(t) && decimal(t) is Some && !is_infinite(float_of_text(t)) {
            Some(float_of_text(t))
        } else {
            None
        },
    }
}

/// The array with room for one more element at least: where its buffer is full,
/// in a new one of twice the capacity.
pub open spec fn grown(w: World, a: int, size: nat) -> Option<World> {
    let b = array_buf(w, a);
    let n = array_len(w, a);
    if n < aux(w, b) {
        Some(w)
    } else {
        match new_object(w, 2 * n * size, 2 * n) {
            None => None,
            Some((c, w1)) => {
                let elems = Seq::new(n * size, |i: int| w.mem[b + 16 + i]);
                Some(
                    World {
                        mem: store(put_bytes(w1.mem, c + 16, elems), a + 16, 8, c as nat),
                        ..w1
                    },
                )
            },
        }
    }
}

/// The array with the word appended.
pub open spec fn pushed(w: World, a: int, x: u64, size: nat) -> Option<World> {
    match grown(w, a, size) {
        None => None,
        Some(w1) => {
            let n = array_len(w1, a);
            let mem1 = store(w1.mem, element(w1, a, n as int, size), size, x as nat);
            Some(World { mem: store(mem1, a + 24, 8, n + 1), ..w1 })
        },
    }
}

/// The last element, as a word, and the array without it.
pub open spec fn popped(w: World, a: int, size: nat) -> Option<(u64, World)> {
    let n = array_len(w, a);
    if n == 0 {
        None
    } else {
        Some(
            (
                fetch(w.mem, element(w, a, n - 1, size), size) as u64,
                World { mem: store(w.mem, a + 24, 8, (n - 1) as nat), ..w },
            ),
        )
    }
}

// -- What holds of it -------------------------------------------------------

/// A new string has the bytes that it was made of, and no byte before it
/// changes.
pub proof fn law_new_text(w: World, bytes: Seq<u8>)
    requires
        new_text(w, bytes) is Some,
    ensures
        ({
            let (a, w1) = new_text(w, bytes)->0;
            &&& text_at(w1, a) == bytes
            &&& forall|k: int| k < w.free ==> #[trigger] w1.mem[k] == w.mem[k]
            &&& w1.out == w.out
            &&& w1.free > w.free
        }),
{
    let (a, w1) = new_text(w, bytes)->0;
    let n = bytes.len();
    let mem1 = store(w.mem, a + 8, 8, n);
    lemma_near(a, 8);
    law_load_stored(w.mem, a + 8, 8, n);
    lemma_room();
    assert forall|k: int| a + 8 <= k < a + 16 implies #[trigger] w1.mem[k] == mem1[k] by {
        lemma_put_bytes(mem1, a + 16, bytes, k);
    }
    lemma_load_same(w1.mem, mem1, a + 8, 8);
    assert(n % room(8) == n) by {
        assert(n < 0x1_0000_0000_0000_0000);
    }
    assert forall|i: int| 0 <= i < n implies w1.mem[#[trigger] (a + 16 + i)] == bytes[i] by {
        lemma_put_bytes(mem1, a + 16, bytes, a + 16 + i);
    }
    assert(text_at(w1, a) =~= bytes);
    assert forall|k: int| k < w.free implies #[trigger] w1.mem[k] == w.mem[k] by {
        law_store_elsewhere(w.mem, a + 8, 8, n, k);
        lemma_put_bytes(mem1, a + 16, bytes, k);
    }
}

proof fn lemma_near(a: int, off: int)
    requires
        0 <= a < 0x4000_0000_0000_0000,
        0 <= off < 0x1_0000,
    ensures
        beyond(a, off) == a + off,
{
}

/// Joined strings are read as the bytes of the one and then of the other.
pub proof fn law_joined_text(w: World, a: int, b: int)
    requires
        new_text(w, text_at(w, a) + text_at(w, b)) is Some,
    ensures
        ({
            let (c, w1) = new_text(w, text_at(w, a) + text_at(w, b))->0;
            text_at(w1, c) == text_at(w, a) + text_at(w, b)
        }),
{
    law_new_text(w, text_at(w, a) + text_at(w, b));
}

/// A new array of bytes has those that it was made of, and no byte before it
/// changes.
#[verifier::rlimit(30)]
pub proof fn law_new_bytes(w: World, bytes: Seq<u8>)
    requires
        new_bytes(w, bytes) is Some,
    ensures
        ({
            let (a, w1) = new_bytes(w, bytes)->0;
            &&& bytes_at(w1, a) == bytes
            &&& forall|k: int| k < w.free ==> #[trigger] w1.mem[k] == w.mem[k]
            &&& w1.out == w.out
            &&& w1.free > w.free
        }),
{
    let n = bytes.len();
    let (a, w0) = new_object(w, 16, 0)->0;
    let (b, w2) = new_object(w0, n * 1, n)->0;
    let mem3 = store(w2.mem, a + 16, 8, b as nat);
    let mem4 = store(mem3, a + 24, 8, 0);
    let w4 = World { mem: mem4, ..w2 };
    let (_, w1) = new_bytes(w, bytes)->0;
    lemma_room();
    lemma_near(a, 16);
    lemma_near(a, 24);
    assert(b >= a + 40);
    assert(array_buf(w4, a) == b) by {
        law_load_stored(w2.mem, a + 16, 8, b as nat);
        assert forall|k: int| a + 16 <= k < a + 24 implies #[trigger] mem4[k] == mem3[k] by {
            law_store_elsewhere(mem3, a + 24, 8, 0, k);
        }
        lemma_load_same(mem4, mem3, a + 16, 8);
    }
    let mem5 = put_bytes(mem4, b + 16, bytes);
    assert(w1.mem == store(mem5, a + 24, 8, n));
    assert(array_buf(w1, a) == b) by {
        assert forall|k: int| a + 16 <= k < a + 24 implies #[trigger] w1.mem[k] == mem4[k] by {
            law_store_elsewhere(mem5, a + 24, 8, n, k);
            lemma_put_bytes(mem4, b + 16, bytes, k);
        }
        lemma_load_same(w1.mem, mem4, a + 16, 8);
    }
    assert(array_len(w1, a) == n) by {
        law_load_stored(mem5, a + 24, 8, n);
        assert(n < 0x1_0000_0000_0000_0000);
    }
    assert forall|i: int| 0 <= i < n implies #[trigger] bytes_at(w1, a)[i] == bytes[i] by {
        let k = b + 16 + i;
        assert(element(w1, a, i, 1) == k);
        law_store_elsewhere(mem5, a + 24, 8, n, k);
        lemma_put_bytes(mem4, b + 16, bytes, k);
        lemma_load_one(w1.mem, k);
    }
    assert(bytes_at(w1, a) =~= bytes);
    assert forall|k: int| k < w.free implies #[trigger] w1.mem[k] == w.mem[k] by {
        law_store_elsewhere(mem5, a + 24, 8, n, k);
        lemma_put_bytes(mem4, b + 16, bytes, k);
        law_store_elsewhere(mem3, a + 24, 8, 0, k);
        law_store_elsewhere(w2.mem, a + 16, 8, b as nat, k);
        law_store_elsewhere(w0.mem, b + 8, 8, n, k);
        law_store_elsewhere(w.mem, a + 8, 8, 0, k);
    }
}

proof fn lemma_load_one(mem: Map<int, u8>, a: int)
    ensures
        load(mem, a, 1) == mem[a],
{
    reveal_with_fuel(load, 2);
}

/// The bytes of a string, made a string again, are those of the string.
pub proof fn law_bytes_and_back(w: World, a: int)
    requires
        new_bytes(w, text_at(w, a)) is Some,
        ({
            let (b, w1) = new_bytes(w, text_at(w, a))->0;
            new_text(w1, bytes_at(w1, b)) is Some
        }),
    ensures
        ({
            let (b, w1) = new_bytes(w, text_at(w, a))->0;
            let (c, w2) = new_text(w1, bytes_at(w1, b))->0;
            text_at(w2, c) == text_at(w, a)
        }),
{
    law_new_bytes(w, text_at(w, a));
    let (b, w1) = new_bytes(w, text_at(w, a))->0;
    law_new_text(w1, bytes_at(w1, b));
}

} // verus!
