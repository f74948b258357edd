//! The engine as a mathematical state, and its two transitions.

use crate::particle::{aged_life, fate_of, SlotUpdate};
use crate::slots::{lemma_slots_none, lemma_slots_split, slots_with_life};
use vstd::prelude::*;

verus! {

/// What an engine is, apart from how it is stored.
pub struct EngineState {
    /// The remaining life of the particle in each slot.
    pub lives: Seq<u32>,
    /// The slot the next allocation takes.
    pub write_cursor: int,
    /// The engine's count of live particles.
    pub live_count: int,
    /// Where the next update starts scanning, if the engine has a guess.
    pub first_live_hint: Option<int>,
}

/// The number of slots whose particle is alive.
pub open spec fn live_slots(lives: Seq<u32>) -> int {
    slots_with_life(lives, 0, lives.len() as int, 1).len() as int
}

/// The slots with at least `min` ticks left, in the order a scan that starts
/// at `start` meets them: from `start` to the end, then from 0 up to `start`.
pub open spec fn slots_in_scan_order(lives: Seq<u32>, start: int, min: u32) -> Seq<int> {
    slots_with_life(lives, start, lives.len() as int, min) + slots_with_life(lives, 0, start, min)
}

/// How many slots a scan that starts at `start` has passed when it reaches `slot`.
pub open spec fn scan_offset(capacity: int, start: int, slot: int) -> int {
    if slot >= start {
        slot - start
    } else {
        capacity - start + slot
    }
}

/// The lives after every particle has aged by one tick.
pub open spec fn aged(lives: Seq<u32>) -> Seq<u32> {
    Seq::new(lives.len(), |i: int| aged_life(lives[i]))
}

/// The lives after the particles in slots `lo` up to `hi` have aged by one tick.
pub open spec fn aged_between(lives: Seq<u32>, lo: int, hi: int) -> Seq<u32> {
    Seq::new(
        lives.len(),
        |i: int|
            if lo <= i < hi {
                aged_life(lives[i])
            } else {
                lives[i]
            },
    )
}

/// The first of a sequence of slots, if it has one.
pub open spec fn first_slot(slots: Seq<int>) -> Option<int> {
    if slots.len() > 0 {
        Some(slots[0])
    } else {
        None
    }
}

/// The work-list entry for a slot that is alive in `lives`.
pub open spec fn update_for(lives: Seq<u32>, slot: int) -> SlotUpdate {
    SlotUpdate { slot: slot as usize, fate: fate_of(lives[slot]) }
}

/// The work-list entries for a sequence of live slots, in that order.
pub open spec fn updates_for(lives: Seq<u32>, slots: Seq<int>) -> Seq<SlotUpdate> {
    Seq::new(slots.len(), |k: int| update_for(lives, slots[k]))
}

impl EngineState {
    /// The state of an engine of `capacity` slots that has done nothing yet.
    pub open spec fn fresh(capacity: nat) -> EngineState {
        EngineState {
            lives: Seq::new(capacity, |i: int| 0u32),
            write_cursor: 0,
            live_count: 0,
            first_live_hint: None,
        }
    }

    /// The number of slots.
    pub open spec fn capacity(self) -> int {
        self.lives.len() as int
    }

    /// The ring has slots, no more than the machine can index; the cursor
    /// and the hint point into it; and the live count is at least the number
    /// of live slots.
    pub open spec fn wf(self) -> bool {
        &&& 0 < self.capacity() <= usize::MAX
        &&& 0 <= self.write_cursor < self.capacity()
        &&& self.first_live_hint matches Some(h) ==> 0 <= h < self.capacity()
        &&& self.surplus() >= 0
    }

    /// By how much the live count exceeds the number of live slots.
    pub open spec fn surplus(self) -> int {
        self.live_count - live_slots(self.lives)
    }

    /// The live count is the number of live slots, not more.
    pub open spec fn exact(self) -> bool {
        self.surplus() == 0
    }

    /// The slot at which the next update starts its scan.
    pub open spec fn scan_start(self) -> int {
        match self.first_live_hint {
            Some(h) => h,
            None => 0,
        }
    }

    /// The state after a particle with `life` ticks has been allocated: it
    /// takes the slot under the cursor, whatever was there; the cursor
    /// moves on and wraps; the live count grows by one; the hint is set to
    /// the new slot unless there already is one.
    pub open spec fn allocate(self, life: u32) -> EngineState {
        EngineState {
            lives: self.lives.update(self.write_cursor, life),
            write_cursor: if self.write_cursor + 1 == self.capacity() {
                0
            } else {
                self.write_cursor + 1
            },
            live_count: self.live_count + 1,
            first_live_hint: match self.first_live_hint {
                Some(h) => Some(h),
                None => Some(self.write_cursor),
            },
        }
    }

    /// The particles alive when an update begins, in scan order.
    pub open spec fn scanned_live(self) -> Seq<int> {
        slots_in_scan_order(self.lives, self.scan_start(), 1)
    }

    /// The particles that outlive the update, in scan order.
    pub open spec fn scanned_survivors(self) -> Seq<int> {
        slots_in_scan_order(self.lives, self.scan_start(), 2)
    }

    /// The state after one update. With a live count of zero nothing
    /// changes. Otherwise every live particle ages by one tick, the live
    /// count drops by the number of particles that expire, and the hint
    /// becomes the first survivor in scan order, or nothing.
    pub open spec fn step(self) -> EngineState {
        if self.live_count == 0 {
            self
        } else {
            EngineState {
                lives: aged(self.lives),
                write_cursor: self.write_cursor,
                live_count: self.live_count - (self.scanned_live().len()
                    - self.scanned_survivors().len()),
                first_live_hint: first_slot(self.scanned_survivors()),
            }
        }
    }

    /// The work list of one update: an entry for each particle alive when
    /// it begins, in scan order, and none if the live count is zero.
    pub open spec fn step_updates(self) -> Seq<SlotUpdate> {
        if self.live_count == 0 {
            Seq::empty()
        } else {
            updates_for(self.lives, self.scanned_live())
        }
    }

    /// The number of slots one update looks at. With a live count of zero
    /// it looks at none. With a live count above the number of live slots
    /// it never finds as many as it looks for and goes once round the ring.
    /// Otherwise it stops right after the last live slot in scan order.
    pub open spec fn step_visited(self) -> int {
        if self.live_count == 0 {
            0
        } else if self.live_count > live_slots(self.lives) {
            self.capacity()
        } else {
            scan_offset(self.capacity(), self.scan_start(), self.scanned_live().last()) + 1
        }
    }
}

/// A scan that runs from the start slot to slot `a`, and then, only if it
/// has not yet met as many live particles as the live count says, from slot 0
/// to slot `b`, stopping the moment it has met that many, has done what one
/// update is said to do: the slots it did not reach hold no live particle.
pub proof fn lemma_scan_is_step(s: EngineState, a: int, b: int)
    requires
        s.wf(),
        s.live_count > 0,
        s.scan_start() <= a <= s.capacity(),
        0 <= b <= s.scan_start(),
        ({
            let start = s.scan_start();
            let met_a = slots_with_life(s.lives, start, a, 1).len();
            let met_b = slots_with_life(s.lives, 0, b, 1).len();
            &&& met_a <= s.live_count
            &&& a < s.capacity() ==> met_a == s.live_count
            &&& met_a == s.live_count ==> a > start && s.lives[a - 1] > 0 && b == 0
            &&& met_a < s.live_count ==> {
                &&& met_a + met_b <= s.live_count
                &&& b < start ==> met_a + met_b == s.live_count
                &&& met_a + met_b == s.live_count ==> b > 0 && s.lives[b - 1] > 0
            }
        }),
    ensures
        aged_between(aged_between(s.lives, s.scan_start(), a), 0, b) == aged(s.lives),
        s.scanned_live() == slots_with_life(s.lives, s.scan_start(), a, 1) + slots_with_life(
            s.lives,
            0,
            b,
            1,
        ),
        s.scanned_survivors() == slots_with_life(s.lives, s.scan_start(), a, 2) + slots_with_life(
            s.lives,
            0,
            b,
            2,
        ),
        s.step_visited() == a - s.scan_start() + b,
{
    let start = s.scan_start();
    let n = s.capacity();
    let lives = s.lives;
    // The live slots, cut where the scan started and where it stopped.
    lemma_slots_split(lives, 0, start, n, 1);
    lemma_slots_split(lives, 0, b, start, 1);
    lemma_slots_split(lives, start, a, n, 1);
    lemma_slots_split(lives, 0, start, n, 2);
    lemma_slots_split(lives, 0, b, start, 2);
    lemma_slots_split(lives, start, a, n, 2);
    let met_a = slots_with_life(lives, start, a, 1);
    let met_b = slots_with_life(lives, 0, b, 1);
    let rest_a = slots_with_life(lives, a, n, 1);
    let rest_b = slots_with_life(lives, b, start, 1);
    assert(live_slots(lives) == met_b.len() + rest_b.len() + met_a.len() + rest_a.len());
    // Neither stretch that the scan left out holds a live particle.
    assert(rest_a.len() == 0 && rest_b.len() == 0) by {
        if a == n {
            assert(rest_a.len() == 0);
        }
        if b == start {
            assert(rest_b.len() == 0);
        }
    }
    lemma_slots_none(lives, a, n, 1);
    lemma_slots_none(lives, b, start, 1);
    lemma_slots_none(lives, a, n, 2);
    lemma_slots_none(lives, b, start, 2);
    assert(rest_a == Seq::<int>::empty());
    assert(rest_b == Seq::<int>::empty());
    assert(slots_with_life(lives, a, n, 2) == Seq::<int>::empty());
    assert(slots_with_life(lives, b, start, 2) == Seq::<int>::empty());
    assert(aged_between(aged_between(lives, start, a), 0, b) == aged(lives));
    assert(s.scanned_live() == met_a + met_b);
    assert(s.scanned_survivors() == slots_with_life(lives, start, a, 2) + slots_with_life(
        lives,
        0,
        b,
        2,
    ));
    // Where it stopped.
    if s.live_count > live_slots(lives) {
        assert(a == n && b == start);
    } else {
        assert(met_a.len() + met_b.len() == s.live_count);
        if met_a.len() == s.live_count {
            assert(met_b == Seq::<int>::empty());
            assert(met_a.last() == a - 1);
        } else {
            assert(a == n);
            assert(met_b.last() == b - 1);
            assert((met_a + met_b).last() == b - 1);
        }
    }
}

} // verus!
