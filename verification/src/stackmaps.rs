//! Stack maps: which slots of which frames hold live references.
//!
//! The table that the compiler emits, as 64-bit words:
//!
//! ```text
//! [0]                n = number of safepoint entries
//! [1 + 5i ..]        n entries: { function address (relocated),
//!                                 return-address offset within the function,
//!                                 frame size below the frame record,
//!                                 start index into the slot array,
//!                                 slot count }
//! [1 + 5n + j]       slot array: SP-relative byte offsets, one per word
//! ```
use vstd::prelude::*;

use crate::lower::{map_words, point_table, point_words, slot_table, slots_before, SafePointView};

verus! {

/// A safepoint: the return address, the frame size below the frame record,
/// and a range of slots.
#[derive(Debug, Clone, Copy, PartialEq, Eq, Structural)]
pub struct MapEntry {
    pub pc: u64,
    pub span: u32,
    pub start: u32,
    pub count: u32,
}

/// The index of the stack-map table, sorted by return address.
pub struct StackMaps {
    pub entries: Vec<MapEntry>,
    /// SP-relative byte offsets of live references at each safepoint.
    pub slots: Vec<u32>,
}

// -- The table --------------------------------------------------------------

/// Is this a table? Its entries are all there, and so are the slots they
/// speak of.
pub open spec fn is_table(words: Seq<u64>) -> bool {
    &&& words.len() > 0
    &&& 1 + 5 * words[0] <= words.len()
    &&& words.len() <= u32::MAX
    &&& forall|i: int|
        0 <= i < words[0] ==> #[trigger] entry_end(words, i) <= words.len() - 1 - 5 * words[0]
}

/// The end of entry `i`'s range of slots.
pub open spec fn entry_end(words: Seq<u64>, i: int) -> int {
    words[4 + 5 * i] + words[5 + 5 * i]
}

/// The return address of a call: so far behind the start of its function.
pub open spec fn return_address(func: u64, off: u64) -> u64 {
    if func + off > u64::MAX {
        (func + off - u64::MAX - 1) as u64
    } else {
        (func + off) as u64
    }
}

pub open spec fn table_entry(words: Seq<u64>, i: int) -> MapEntry {
    MapEntry {
        pc: return_address(words[1 + 5 * i], words[2 + 5 * i]),
        span: words[3 + 5 * i] as u32,
        start: words[4 + 5 * i] as u32,
        count: words[5 + 5 * i] as u32,
    }
}

pub open spec fn table_entries(words: Seq<u64>) -> Seq<MapEntry> {
    Seq::new(words[0] as nat, |i: int| table_entry(words, i))
}

/// The end of the furthest range of slots among the first `n` entries.
pub open spec fn slots_end(words: Seq<u64>, n: nat) -> int
    decreases n,
{
    if n == 0 {
        0
    } else {
        let before = slots_end(words, (n - 1) as nat);
        if entry_end(words, n - 1) > before {
            entry_end(words, n - 1)
        } else {
            before
        }
    }
}

pub open spec fn table_slots(words: Seq<u64>) -> Seq<u32> {
    Seq::new(
        slots_end(words, words[0] as nat) as nat,
        |j: int| words[1 + 5 * words[0] + j] as u32,
    )
}

proof fn lemma_slots_end(words: Seq<u64>, n: nat)
    requires
        is_table(words),
        n <= words[0],
    ensures
        0 <= slots_end(words, n) <= words.len() - 1 - 5 * words[0],
        forall|i: int| 0 <= i < n ==> #[trigger] entry_end(words, i) <= slots_end(words, n),
    decreases n,
{
    if n > 0 {
        lemma_slots_end(words, (n - 1) as nat);
        assert(entry_end(words, n - 1) <= words.len() - 1 - 5 * words[0]);
    }
}

// -- The index --------------------------------------------------------------

pub open spec fn sorted(es: Seq<MapEntry>) -> bool {
    forall|i: int, j: int| 0 <= i < j < es.len() ==> (#[trigger] es[i]).pc <= (#[trigger] es[j]).pc
}

/// Is every range within the slots?
pub open spec fn within(es: Seq<MapEntry>, slots: nat) -> bool {
    forall|i: int| 0 <= i < es.len() ==> (#[trigger] es[i]).start + es[i].count <= slots
}

impl StackMaps {
    pub open spec fn wf(self) -> bool {
        sorted(self.entries@) && within(self.entries@, self.slots@.len())
    }
}

/// Put an entry where it belongs.
fn insert_sorted(es: &mut Vec<MapEntry>, e: MapEntry)
    requires
        sorted(old(es)@),
        old(es)@.len() < usize::MAX,
    ensures
        sorted(final(es)@),
        final(es)@.to_multiset() == old(es)@.to_multiset().insert(e),
        forall|i: int|
            0 <= i < final(es)@.len() ==> #[trigger] final(es)@[i] == e || old(es)@.contains(
                final(es)@[i],
            ),
{
    let mut at: usize = es.len();
    while at > 0 && es[at - 1].pc > e.pc
        invariant
            at <= es@.len(),
            es@ == old(es)@,
            forall|j: int| at <= j < es@.len() ==> (#[trigger] es@[j]).pc > e.pc,
            sorted(es@),
        decreases at,
    {
        at -= 1;
    }
    let ghost before = es@;
    es.insert(at, e);
    proof {
        let after = es@;
        assert(after.remove(at as int) =~= before);
        after.to_multiset_ensures();
        assert(after[at as int] == e);
        assert(after.contains(e));
        assert(after.to_multiset() =~= before.to_multiset().insert(e));
        assert forall|i: int, j: int| 0 <= i < j < after.len() implies (#[trigger] after[i]).pc
            <= (#[trigger] after[j]).pc by {
            if at > 0 && i < at {
                assert(before[i].pc <= before[at - 1].pc);
            }
        }
        assert forall|i: int| 0 <= i < after.len() implies #[trigger] after[i] == e
            || before.contains(after[i]) by {
            if i < at {
                assert(before[i] == after[i]);
            } else if i > at {
                assert(before[i - 1] == after[i]);
            }
        }
    }
}

/// Parse and index the compiler-emitted stack-map table.
pub fn register_stackmaps(words: &Vec<u64>) -> (r: StackMaps)
    requires
        is_table(words@),
    ensures
        r.wf(),
        r.entries@.to_multiset() == table_entries(words@).to_multiset(),
        r.slots@ == table_slots(words@),
{
    let n = words[0] as usize;
    let ghost all = table_entries(words@);
    let mut entries: Vec<MapEntry> = Vec::new();
    let mut end: u64 = 0;
    let mut i: usize = 0;
    proof {
        lemma_slots_end(words@, n as nat);
        assert(all.take(0) =~= Seq::empty());
        all.take(0).to_multiset_ensures();
    }
    while i < n
        invariant
            is_table(words@),
            n == words@[0],
            i <= n,
            all == table_entries(words@),
            sorted(entries@),
            entries@.len() == i,
            entries@.to_multiset() == all.take(i as int).to_multiset(),
            forall|k: int| 0 <= k < entries@.len() ==> all.contains(#[trigger] entries@[k]),
            end == slots_end(words@, i as nat),
            end <= u32::MAX,
        decreases n - i,
    {
        proof {
            assert(entry_end(words@, i as int) <= words@.len() - 1 - 5 * words@[0]);
        }
        let start = words[4 + 5 * i];
        let count = words[5 + 5 * i];
        let e = MapEntry {
            pc: words[1 + 5 * i].wrapping_add(words[2 + 5 * i]),
            span: words[3 + 5 * i] as u32,
            start: start as u32,
            count: count as u32,
        };
        assert(all[i as int] == e);
        let ghost before = entries@;
        insert_sorted(&mut entries, e);
        proof {
            assert(all.take(i as int + 1) =~= all.take(i as int).push(e));
            all.take(i as int).to_multiset_ensures();
            before.to_multiset_ensures();
            entries@.to_multiset_ensures();
            assert(entries@.len() == before.len() + 1) by {
                assert(entries@.to_multiset().len() == entries@.len());
                assert(before.to_multiset().len() == before.len());
            }
            assert forall|k: int| 0 <= k < entries@.len() implies all.contains(
                #[trigger] entries@[k],
            ) by {
                if entries@[k] != e {
                    let m = choose|m: int| 0 <= m < before.len() && before[m] == entries@[k];
                    assert(all.contains(before[m]));
                }
            }
        }
        if start + count > end {
            end = start + count;
        }
        i += 1;
    }
    assert(all.take(n as int) =~= all);
    let mut slots: Vec<u32> = Vec::new();
    let ghost want = table_slots(words@);
    let mut j: usize = 0;
    while j < end as usize
        invariant
            is_table(words@),
            n == words@[0],
            j <= end,
            end == slots_end(words@, n as nat),
            end <= words@.len() - 1 - 5 * words@[0],
            want == table_slots(words@),
            slots@ == want.take(j as int),
        decreases end - j,
    {
        slots.push(words[1 + 5 * n + j] as u32);
        assert(want.take(j as int + 1) =~= want.take(j as int).push(want[j as int]));
        j += 1;
    }
    assert(want.take(j as int) =~= want);
    proof {
        lemma_slots_end(words@, n as nat);
        assert forall|k: int| 0 <= k < entries@.len() implies (#[trigger] entries@[k]).start
            + entries@[k].count <= slots@.len() by {
            assert(all.contains(entries@[k]));
            let m = choose|m: int| 0 <= m < all.len() && all[m] == entries@[k];
            assert(entry_end(words@, m) <= slots_end(words@, n as nat));
        }
    }
    StackMaps { entries, slots }
}

/// The addresses of the live references of a frame: those of its safepoint
/// above its stack pointer.
pub open spec fn frame_slots(maps: StackMaps, i: int, caller_fp: u64) -> Seq<u64> {
    let e = maps.entries@[i];
    Seq::new(
        e.count as nat,
        |j: int| (caller_fp - e.span + maps.slots@[e.start + j]) as u64,
    )
}

impl StackMaps {
    /// The safepoint with this return address.
    pub fn find(&self, ret: u64) -> (r: Option<usize>)
        requires
            self.wf(),
        ensures
            match r {
                Some(i) => i < self.entries@.len() && self.entries@[i as int].pc == ret,
                None => forall|i: int|
                    0 <= i < self.entries@.len() ==> (#[trigger] self.entries@[i]).pc != ret,
            },
    {
        let mut lo: usize = 0;
        let mut hi: usize = self.entries.len();
        while lo < hi
            invariant
                self.wf(),
                lo <= hi <= self.entries@.len(),
                forall|i: int| 0 <= i < lo ==> (#[trigger] self.entries@[i]).pc < ret,
                forall|i: int|
                    hi <= i < self.entries@.len() ==> (#[trigger] self.entries@[i]).pc > ret,
            decreases hi - lo,
        {
            let mid: usize = lo + (hi - lo) / 2;
            let pc = self.entries[mid].pc;
            if pc == ret {
                return Some(mid);
            }
            if pc < ret {
                assert forall|i: int| 0 <= i < mid + 1 implies (#[trigger] self.entries@[i]).pc
                    < ret by {
                    if i < mid {
                        assert(self.entries@[i].pc <= self.entries@[mid as int].pc);
                    }
                }
                lo = mid + 1;
            } else {
                assert forall|i: int| mid <= i < self.entries@.len() implies (
                #[trigger] self.entries@[i]).pc > ret by {
                    if i > mid {
                        assert(self.entries@[mid as int].pc <= self.entries@[i].pc);
                    }
                }
                hi = mid;
            }
        }
        None
    }

    /// The slots of the frame suspended at safepoint `i`. Its own frame
    /// record stands at `caller_fp`.
    pub fn slots_of(&self, i: usize, caller_fp: u64) -> (r: Vec<u64>)
        requires
            self.wf(),
            i < self.entries@.len(),
            self.entries@[i as int].span <= caller_fp,
            caller_fp <= u64::MAX - u32::MAX,
        ensures
            r@ == frame_slots(*self, i as int, caller_fp),
    {
        let e = self.entries[i];
        let sp = caller_fp - e.span as u64;
        let ghost want = frame_slots(*self, i as int, caller_fp);
        let mut out: Vec<u64> = Vec::new();
        let mut j: u32 = 0;
        while j < e.count
            invariant
                self.wf(),
                i < self.entries@.len(),
                e == self.entries@[i as int],
                e.span <= caller_fp,
                caller_fp <= u64::MAX - u32::MAX,
                sp == caller_fp - e.span,
                want == frame_slots(*self, i as int, caller_fp),
                j <= e.count,
                out@ == want.take(j as int),
            decreases e.count - j,
        {
            assert(e.start + e.count <= self.slots.len());
            let off = self.slots[e.start as usize + j as usize];
            out.push(sp + off as u64);
            assert(want.take(j as int + 1) =~= want.take(j as int).push(want[j as int]));
            j += 1;
        }
        assert(want.take(j as int) =~= want);
        out
    }
}

/// Does the stack walk go on at this frame record?
pub fn walks_on(rec: u64, stack_base: u64) -> (r: bool)
    ensures
        r == (rec != 0 && rec < stack_base && rec % 8 == 0),
{
    rec != 0 && rec < stack_base && rec % 8 == 0
}

// -- What the compiler wrote is what the runtime reads ----------------------

proof fn lemma_point_table(ps: Seq<SafePointView>, n: nat, i: int, k: int)
    requires
        0 <= i < n <= ps.len(),
        0 <= k < 5,
    ensures
        point_table(ps, n).len() == 5 * n,
        point_table(ps, n)[5 * i + k] == point_words(ps, i as nat)[k],
    decreases n,
{
    lemma_point_table_len(ps, n);
    let m = (n - 1) as nat;
    lemma_point_table_len(ps, m);
    if i < m {
        lemma_point_table(ps, m, i, k);
    }
}

proof fn lemma_point_table_len(ps: Seq<SafePointView>, n: nat)
    ensures
        point_table(ps, n).len() == 5 * n,
    decreases n,
{
    if n > 0 {
        lemma_point_table_len(ps, (n - 1) as nat);
    }
}

proof fn lemma_slot_table_len(ps: Seq<SafePointView>, n: nat)
    ensures
        slot_table(ps, n).len() == slots_before(ps, n),
    decreases n,
{
    if n > 0 {
        lemma_slot_table_len(ps, (n - 1) as nat);
    }
}

proof fn lemma_slot_table(ps: Seq<SafePointView>, n: nat, i: int, j: int)
    requires
        0 <= i < n <= ps.len(),
        0 <= j < ps[i].slots.len(),
    ensures
        slots_before(ps, i as nat) + j < slots_before(ps, n),
        slot_table(ps, n)[slots_before(ps, i as nat) + j] == ps[i].slots[j],
    decreases n,
{
    let m = (n - 1) as nat;
    lemma_slot_table_len(ps, m);
    if i < m {
        lemma_slot_table(ps, m, i, j);
    }
}

proof fn lemma_slots_before(ps: Seq<SafePointView>, m: nat, n: nat)
    requires
        m <= n,
    ensures
        slots_before(ps, m) <= slots_before(ps, n),
    decreases n,
{
    if m < n {
        lemma_slots_before(ps, m, (n - 1) as nat);
    }
}

/// Are these the words of the compiler's table, the functions' addresses
/// filled in?
pub open spec fn relocated(words: Seq<u64>, ps: Seq<SafePointView>) -> bool {
    let plain = map_words(ps);
    &&& words.len() == plain.len()
    &&& words.len() <= u32::MAX
    &&& forall|i: int|
        0 <= i < words.len() && !(i % 5 == 1 && i < 1 + 5 * ps.len()) ==> #[trigger] words[i]
            == plain[i]
}

/// The runtime reads back every safepoint that the compiler wrote: where it
/// is, its frame size and its slots.
pub proof fn law_stack_maps_round_trip(words: Seq<u64>, ps: Seq<SafePointView>)
    requires
        relocated(words, ps),
    ensures
        is_table(words),
        words[0] == ps.len(),
        forall|i: int|
            0 <= i < ps.len() ==> {
                let e = #[trigger] table_entry(words, i);
                &&& e.pc == return_address(
                    words[1 + 5 * i],
                    ps[i].ret_off as u64,
                )
                &&& e.span == ps[i].span
                &&& e.count == ps[i].slots.len()
                &&& e.start + e.count <= table_slots(words).len()
                &&& table_slots(words).subrange(e.start as int, e.start + e.count) == ps[i].slots
            },
{
    let plain = map_words(ps);
    let n = ps.len();
    lemma_point_table_len(ps, n);
    lemma_slot_table_len(ps, n);
    assert(plain[0] == n as u64);
    assert(words[0] == n);
    assert forall|i: int| 0 <= i < n implies {
        &&& words[2 + 5 * i] == ps[i].ret_off
        &&& words[3 + 5 * i] == ps[i].span
        &&& words[4 + 5 * i] == #[trigger] slots_before(ps, i as nat)
        &&& words[5 + 5 * i] == ps[i].slots.len()
        &&& entry_end(words, i) == slots_before(ps, i as nat + 1)
        &&& slots_before(ps, i as nat + 1) <= slots_before(ps, n)
    } by {
        lemma_point_table(ps, n, i, 1);
        lemma_point_table(ps, n, i, 2);
        lemma_point_table(ps, n, i, 3);
        lemma_point_table(ps, n, i, 4);
        lemma_slots_before(ps, i as nat + 1, n);
        assert(plain[2 + 5 * i] == point_table(ps, n)[5 * i + 1]);
        assert(plain[3 + 5 * i] == point_table(ps, n)[5 * i + 2]);
        assert(plain[4 + 5 * i] == point_table(ps, n)[5 * i + 3]);
        assert(plain[5 + 5 * i] == point_table(ps, n)[5 * i + 4]);
    }
    assert forall|i: int| 0 <= i < words[0] implies #[trigger] entry_end(words, i) <= words.len()
        - 1 - 5 * words[0] by {
        assert(slots_before(ps, i as nat) >= 0);
    }
    lemma_slots_end(words, n);
    assert forall|i: int| 0 <= i < n implies {
        let e = #[trigger] table_entry(words, i);
        &&& e.pc == return_address(words[1 + 5 * i], ps[i].ret_off as u64)
        &&& e.span == ps[i].span
        &&& e.count == ps[i].slots.len()
        &&& e.start + e.count <= table_slots(words).len()
        &&& table_slots(words).subrange(e.start as int, e.start + e.count) == ps[i].slots
    } by {
        let e = table_entry(words, i);
        assert(slots_before(ps, i as nat) >= 0);
        assert(entry_end(words, i) <= slots_end(words, n));
        assert forall|j: int| 0 <= j < e.count implies #[trigger] table_slots(words)[e.start + j]
            == ps[i].slots[j] by {
            lemma_slot_table(ps, n, i, j);
            let at = 1 + 5 * n + e.start + j;
            assert(plain[at] == slot_table(ps, n)[e.start + j]);
            assert(words[at] == plain[at]);
        }
        let got = table_slots(words).subrange(e.start as int, e.start + e.count);
        assert(got.len() == ps[i].slots.len());
        assert forall|j: int| 0 <= j < got.len() implies got[j] == ps[i].slots[j] by {
            assert(got[j] == table_slots(words)[e.start + j]);
        }
        assert(got =~= ps[i].slots);
    }
}

} // verus!
