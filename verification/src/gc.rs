//! The policies of the collector: what is allocated where, when to collect,
//! which objects move and which stay, and how the nursery is sized.
//!
//! Two generations:
//! - Nursery: a contiguous block with bump allocation. A minor collection
//!   evacuates live objects into the old generation (everything that survives
//!   one minor collection is promoted), then resets the bump pointer. The
//!   block is sized adaptively from the survival ratio observed at each minor
//!   collection, unless its size is pinned.
//! - Old generation: individually allocated blocks collected by mark-sweep
//!   when the promoted volume passes a threshold.
use vstd::prelude::*;

use crate::object::{FLAG_FWD, FLAG_MARK, FLAG_MASK, FLAG_STATIC};

verus! {

// The nursery is adaptive: it starts small and cache-friendly, doubles when
// minor collections keep observing high survival, and halves again after a
// long run of near-zero survival.
pub const NURSERY_FLOOR: u64 = 524288;

pub const NURSERY_CAP: u64 = 67108864;

/// Grow after this many consecutive full minors promoting >= 1/4 of the
/// nursery; shrink after this many promoting <= 1/50.
pub const GROW_STREAK: u32 = 2;

pub const SHRINK_STREAK: u32 = 16;

pub const DEFAULT_MAJOR: u64 = 8388608;

/// Headroom above the true stack bottom when the guard fires: enough for the
/// deepest runtime path plus printing the panic itself.
pub const STACK_SLACK: u64 = 262144;

/// The platform-default stack size.
pub const DEFAULT_STACK: u64 = 8388608;

// -- Sizing the nursery -----------------------------------------------------

/// The nursery's size, and how many consecutive collections spoke for a
/// larger or a smaller one.
#[derive(Debug, Clone, Copy, PartialEq, Eq, Structural)]
pub struct Sizing {
    pub size: u64,
    pub grow_streak: u32,
    pub shrink_streak: u32,
}

pub open spec fn clamp(n: int, lo: int, hi: int) -> int {
    if n < lo {
        lo
    } else if n > hi {
        hi
    } else {
        n
    }
}

impl Sizing {
    /// The nursery's size is between its floor and its cap, and no streak has
    /// reached its end.
    pub open spec fn wf(self) -> bool {
        &&& NURSERY_FLOOR <= self.size <= NURSERY_CAP
        &&& self.grow_streak < GROW_STREAK
        &&& self.shrink_streak < SHRINK_STREAK
    }

    /// After a collection in which `promoted` of `allocated` bytes survived.
    pub open spec fn next(self, allocated: u64, promoted: u64) -> Sizing {
        if allocated < self.size / 2 {
            // A collection of a half-empty nursery was forced and says
            // nothing about the steady-state survival ratio.
            self
        } else if promoted * 4 >= allocated && self.size < NURSERY_CAP {
            if self.grow_streak + 1 >= GROW_STREAK {
                Sizing {
                    size: clamp(self.size * 2, NURSERY_FLOOR as int, NURSERY_CAP as int) as u64,
                    grow_streak: 0,
                    shrink_streak: 0,
                }
            } else {
                Sizing {
                    size: self.size,
                    grow_streak: (self.grow_streak + 1) as u32,
                    shrink_streak: 0,
                }
            }
        } else if promoted * 50 <= allocated && self.size > NURSERY_FLOOR {
            if self.shrink_streak + 1 >= SHRINK_STREAK {
                Sizing {
                    size: clamp(
                        self.size as int / 2,
                        NURSERY_FLOOR as int,
                        NURSERY_CAP as int,
                    ) as u64,
                    grow_streak: 0,
                    shrink_streak: 0,
                }
            } else {
                Sizing {
                    size: self.size,
                    grow_streak: 0,
                    shrink_streak: (self.shrink_streak + 1) as u32,
                }
            }
        } else {
            Sizing { size: self.size, grow_streak: 0, shrink_streak: 0 }
        }
    }

    /// Resize the nursery based on a collection's survival ratio.
    pub fn adapt(self, allocated: u64, promoted: u64) -> (r: Sizing)
        requires
            self.size <= u64::MAX / 2,
            self.grow_streak < u32::MAX,
            self.shrink_streak < u32::MAX,
        ensures
            r == self.next(allocated, promoted),
    {
        if allocated < self.size / 2 {
            return self;
        }
        let (a, p): (u128, u128) = (allocated as u128, promoted as u128);
        if p * 4 >= a && self.size < NURSERY_CAP {
            if self.grow_streak + 1 >= GROW_STREAK {
                Sizing { size: nursery_size(self.size * 2), grow_streak: 0, shrink_streak: 0 }
            } else {
                Sizing { size: self.size, grow_streak: self.grow_streak + 1, shrink_streak: 0 }
            }
        } else if p * 50 <= a && self.size > NURSERY_FLOOR {
            if self.shrink_streak + 1 >= SHRINK_STREAK {
                Sizing { size: nursery_size(self.size / 2), grow_streak: 0, shrink_streak: 0 }
            } else {
                Sizing { size: self.size, grow_streak: 0, shrink_streak: self.shrink_streak + 1 }
            }
        } else {
            Sizing { size: self.size, grow_streak: 0, shrink_streak: 0 }
        }
    }
}

/// The size that a nursery gets where `n` bytes are wanted.
pub fn nursery_size(n: u64) -> (r: u64)
    ensures
        r == clamp(n as int, NURSERY_FLOOR as int, NURSERY_CAP as int),
{
    if n < NURSERY_FLOOR {
        NURSERY_FLOOR
    } else if n > NURSERY_CAP {
        NURSERY_CAP
    } else {
        n
    }
}

/// An adaptive nursery never leaves its bounds, whatever survives.
pub proof fn law_nursery_stays_in_bounds(s: Sizing, allocated: u64, promoted: u64)
    requires
        s.wf(),
    ensures
        s.next(allocated, promoted).wf(),
{
}

/// Two full collections in a row with a quarter surviving double the nursery.
pub proof fn law_high_survival_doubles(s: Sizing, a1: u64, p1: u64, a2: u64, p2: u64)
    requires
        s.wf(),
        s.size * 2 <= NURSERY_CAP,
        a1 >= s.size / 2,
        a2 >= s.size / 2,
        p1 * 4 >= a1,
        p2 * 4 >= a2,
        s.grow_streak == 0,
    ensures
        s.next(a1, p1).next(a2, p2).size == s.size * 2,
{
}

/// The nursery at startup, for a pinned size in KiB if there is one: its size
/// in bytes, and whether it adapts.
pub fn first_nursery(pinned: Option<u64>) -> (r: (u64, bool))
    requires
        pinned matches Some(kb) ==> kb * 1024 <= u64::MAX,
    ensures
        r.1 == (pinned is None),
        r.0 == match pinned {
            None => NURSERY_FLOOR as int,
            Some(kb) => if kb < 16 {
                16384
            } else {
                kb * 1024
            },
        },
{
    match pinned {
        None => (NURSERY_FLOOR, true),
        Some(kb) => if kb < 16 {
            (16384, false)
        } else {
            (kb * 1024, false)
        },
    }
}

// -- Allocation -------------------------------------------------------------

/// Where an object goes, and whether to collect before.
#[derive(Debug, Clone, Copy, PartialEq, Eq, Structural)]
pub enum Plan {
    /// Into the old generation directly.
    Old { collect: bool },
    /// Into the nursery.
    Bump { collect: bool },
}

/// The plan for a block of `total` bytes. Large objects are pretenured;
/// collecting comes before allocating, since a block without a header must
/// not be swept.
pub open spec fn plan_for(total: u64, size: u64, free: u64, old_bytes: u64, threshold: u64) -> Plan {
    if total > size / 4 {
        Plan::Old { collect: old_bytes + total > threshold }
    } else {
        Plan::Bump { collect: free < total }
    }
}

pub fn plan(total: u64, size: u64, free: u64, old_bytes: u64, threshold: u64) -> (r: Plan)
    ensures
        r == plan_for(total, size, free, old_bytes, threshold),
{
    if total > size / 4 {
        Plan::Old { collect: old_bytes as u128 + total as u128 > threshold as u128 }
    } else {
        Plan::Bump { collect: free < total }
    }
}

/// What is bumped fits the nursery: at once, or once it is empty.
pub proof fn law_bump_fits(total: u64, size: u64, free: u64, old_bytes: u64, threshold: u64)
    requires
        free <= size,
    ensures
        match plan_for(total, size, free, old_bytes, threshold) {
            Plan::Bump { collect: true } => total <= size,
            Plan::Bump { collect: false } => total <= free,
            Plan::Old { .. } => true,
        },
{
}

// -- Moving, marking, sweeping ----------------------------------------------

pub fn in_nursery(p: u64, start: u64, end: u64) -> (r: bool)
    ensures
        r == (start <= p < end),
{
    p >= start && p < end
}

/// What a minor collection does about a slot.
#[derive(Debug, Clone, Copy, PartialEq, Eq, Structural)]
pub enum Forward {
    /// It does not point into the nursery.
    Leave,
    /// Its object has moved there already.
    Moved(u64),
    /// Its object is to be copied.
    Copy,
}

pub open spec fn flagged(meta: u64, flags: u64) -> bool {
    meta & flags != 0
}

/// The object with this meta word, whose value stands in a slot; `meta` is
/// looked at only where the value points into the nursery.
pub open spec fn forward_of(val: u64, young: bool, meta: u64) -> Forward {
    if val == 0 || !young {
        Forward::Leave
    } else if flagged(meta, FLAG_FWD) {
        Forward::Moved(meta & !FLAG_MASK)
    } else {
        Forward::Copy
    }
}

pub fn forward(val: u64, young: bool, meta: u64) -> (r: Forward)
    ensures
        r == forward_of(val, young, meta),
{
    if val == 0 || !young {
        Forward::Leave
    } else if meta & FLAG_FWD != 0 {
        Forward::Moved(meta & !FLAG_MASK)
    } else {
        Forward::Copy
    }
}

/// The meta word left behind by an object that moved to `new`.
pub fn forwarded_meta(new: u64) -> (r: u64)
    ensures
        r == new | FLAG_FWD,
{
    new | FLAG_FWD
}

/// A forwarding word gives back the address it was made of: addresses are
/// multiples of eight.
pub proof fn law_forwarding_round_trip(new: u64)
    requires
        new % 8 == 0,
        new != 0,
    ensures
        forward_of(new, true, new | FLAG_FWD) == Forward::Moved(new),
{
    assert((new | 2u64) & 2u64 != 0 && (new | 2u64) & !7u64 == new) by (bit_vector)
        requires
            new % 8 == 0,
    ;
}

/// Is an object with this meta word to be marked now? Static objects never
/// are, and marked ones are not marked twice.
pub fn to_mark(val: u64, meta: u64) -> (r: bool)
    ensures
        r == (val != 0 && !flagged(meta, FLAG_STATIC | FLAG_MARK)),
{
    val != 0 && meta & (FLAG_STATIC | FLAG_MARK) == 0
}

pub fn marked_meta(meta: u64) -> (r: u64)
    ensures
        r == meta | FLAG_MARK,
{
    meta | FLAG_MARK
}

/// What the sweep does with an object of the old generation: its meta word
/// without the mark if it lives, or `None` if it is freed.
pub fn sweep(meta: u64) -> (r: Option<u64>)
    ensures
        r == if flagged(meta, FLAG_MARK) {
            Some(meta & !FLAG_MARK)
        } else {
            None
        },
{
    if meta & FLAG_MARK != 0 {
        Some(meta & !FLAG_MARK)
    } else {
        None
    }
}

/// Marking and sweeping leave an unmarked meta word as it was.
pub proof fn law_mark_sweep_round_trip(meta: u64)
    requires
        !flagged(meta, FLAG_MARK),
    ensures
        flagged(meta | FLAG_MARK, FLAG_MARK),
        (meta | FLAG_MARK) & !FLAG_MARK == meta,
{
    assert(meta & 1u64 == 0 ==> (meta | 1u64) & 1u64 != 0 && (meta | 1u64) & !1u64 == meta)
        by (bit_vector);
}

/// The volume of the old generation at which the next major collection is due.
pub fn next_threshold(live: u64) -> (r: u64)
    requires
        live * 2 <= u64::MAX,
    ensures
        r == if live * 2 < DEFAULT_MAJOR {
            DEFAULT_MAJOR as int
        } else {
            live * 2
        },
{
    let twice = live * 2;
    if twice < DEFAULT_MAJOR {
        DEFAULT_MAJOR
    } else {
        twice
    }
}

/// Must a store be remembered: does an old object come to point to a young
/// one?
pub fn must_remember(holder: u64, val: u64, start: u64, end: u64) -> (r: bool)
    ensures
        r == (val != 0 && (start <= val < end) && !(start <= holder < end)),
{
    val != 0 && in_nursery(val, start, end) && !in_nursery(holder, start, end)
}

// -- The stack guard --------------------------------------------------------

pub open spec fn max(a: int, b: int) -> int {
    if a < b {
        b
    } else {
        a
    }
}

/// The guard limit: the stack bottom plus slack, or, where it is not known,
/// the platform default below main's first frame; raised where the usable
/// stack is capped to a number of KiB (64 at least).
pub open spec fn stack_limit(stack_base: u64, bottom: Option<u64>, cap_kb: Option<u64>) -> int {
    let floor = match bottom {
        Some(b) => b + STACK_SLACK,
        None => max(stack_base - DEFAULT_STACK, 0) + STACK_SLACK,
    };
    match cap_kb {
        Some(kb) => max(max(stack_base - max(kb as int, 64) * 1024, 0), floor),
        None => floor,
    }
}

pub fn stack_limit_for(stack_base: u64, bottom: Option<u64>, cap_kb: Option<u64>) -> (r: u64)
    requires
        bottom matches Some(b) ==> b + STACK_SLACK <= u64::MAX,
        cap_kb matches Some(kb) ==> kb * 1024 <= u64::MAX,
    ensures
        r == stack_limit(stack_base, bottom, cap_kb),
{
    let floor: u64 = match bottom {
        Some(b) => b + STACK_SLACK,
        None => if stack_base > DEFAULT_STACK {
            stack_base - DEFAULT_STACK + STACK_SLACK
        } else {
            STACK_SLACK
        },
    };
    match cap_kb {
        Some(kb) => {
            let bytes: u64 = if kb < 64 {
                65536
            } else {
                kb * 1024
            };
            let capped: u64 = if stack_base > bytes {
                stack_base - bytes
            } else {
                0
            };
            if capped < floor {
                floor
            } else {
                capped
            }
        },
        None => floor,
    }
}

/// Is a major collection due after a minor one: does the old generation hold
/// more bytes than the threshold?
pub fn major_due(old_bytes: u64, threshold: u64) -> (r: bool)
    ensures
        r == (old_bytes > threshold),
{
    old_bytes > threshold
}

} // verus!
