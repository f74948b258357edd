//! What holds of every engine, whatever is asked of it and in whatever order.

use crate::particle::fate_of;
use crate::slots::{
    lemma_slots_aged, lemma_slots_all, lemma_slots_fewer, lemma_slots_none, lemma_slots_split,
    lemma_slots_update, lemma_slots_with_life, slots_with_life,
};
use crate::state::{aged, live_slots, scan_offset, EngineState};
use vstd::prelude::*;

verus! {

/// One request to an engine.
pub enum Command {
    /// Allocate a particle with this many ticks of life.
    Allocate(u32),
    /// Advance the simulation by one tick.
    Update,
}

/// The state after one request.
pub open spec fn apply(s: EngineState, command: Command) -> EngineState {
    match command {
        Command::Allocate(life) => s.allocate(life),
        Command::Update => s.step(),
    }
}

/// The state after a sequence of requests, carried out in order.
pub open spec fn run(s: EngineState, commands: Seq<Command>) -> EngineState
    decreases commands.len(),
{
    if commands.len() == 0 {
        s
    } else {
        apply(run(s, commands.drop_last()), commands.last())
    }
}

/// Every allocation among the requests brings a particle with life left
/// and finds a dead particle in the slot it takes.
pub open spec fn allocations_fill_free_slots(s: EngineState, commands: Seq<Command>) -> bool
    decreases commands.len(),
{
    if commands.len() == 0 {
        true
    } else {
        let before = run(s, commands.drop_last());
        &&& allocations_fill_free_slots(s, commands.drop_last())
        &&& commands.last() matches Command::Allocate(life) ==> life > 0
            && before.lives[before.write_cursor] == 0
    }
}

/// The requests are allocations only.
pub open spec fn only_allocations(commands: Seq<Command>) -> bool {
    forall|k: int| 0 <= k < commands.len() ==> commands[k] is Allocate
}

/// The requests are updates only.
pub open spec fn only_updates(commands: Seq<Command>) -> bool {
    forall|k: int| 0 <= k < commands.len() ==> commands[k] is Update
}

/// The life left of a particle that had `life` ticks, after `ticks` updates.
pub open spec fn life_after(life: u32, ticks: nat) -> int {
    if life >= ticks {
        life - ticks
    } else {
        0
    }
}

/// Moving a ring cursor on by one is adding one modulo the ring's size.
proof fn lemma_cursor_wraps(position: int, capacity: int)
    requires
        0 <= position,
        0 < capacity,
    ensures
        (position + 1) % capacity == if position % capacity + 1 == capacity {
            0
        } else {
            position % capacity + 1
        },
{
    vstd::arithmetic::div_mod::lemma_fundamental_div_mod(position, capacity);
    vstd::arithmetic::div_mod::lemma_mod_bound(position, capacity);
    let q = position / capacity;
    let r = position % capacity;
    if r + 1 == capacity {
        assert(position + 1 == (q + 1) * capacity + 0) by (nonlinear_arith)
            requires
                position == capacity * q + r,
                r + 1 == capacity,
        ;
        vstd::arithmetic::div_mod::lemma_fundamental_div_mod_converse(
            position + 1,
            capacity,
            q + 1,
            0,
        );
    } else {
        assert(position + 1 == q * capacity + (r + 1)) by (nonlinear_arith)
            requires
                position == capacity * q + r,
        ;
        vstd::arithmetic::div_mod::lemma_fundamental_div_mod_converse(
            position + 1,
            capacity,
            q,
            r + 1,
        );
    }
}

/// An engine that has done nothing yet is well formed, and its live count of
/// zero is exact.
pub proof fn lemma_fresh(capacity: nat)
    requires
        0 < capacity <= usize::MAX,
    ensures
        EngineState::fresh(capacity).wf(),
        EngineState::fresh(capacity).exact(),
{
    lemma_slots_none(EngineState::fresh(capacity).lives, 0, capacity as int, 1);
}

/// An allocation keeps a well-formed state well formed, and keeps its size.
/// The surplus of the live count stays as it was when a live particle takes
/// the place of a dead one; it grows by two when a dead particle takes the
/// place of a live one, and by one otherwise.
pub proof fn lemma_allocate_wf(s: EngineState, life: u32)
    requires
        s.wf(),
    ensures
        s.allocate(life).wf(),
        s.allocate(life).capacity() == s.capacity(),
        s.allocate(life).surplus() == s.surplus() + (if s.lives[s.write_cursor] > 0 {
            1int
        } else {
            0int
        }) + (if life > 0 {
            0int
        } else {
            1int
        }),
{
    lemma_slots_update(s.lives, s.write_cursor, life, 1);
}

/// An update ages every particle by one tick, keeps the surplus of the live
/// count over the number of live slots as it was, and so keeps a well-formed
/// state well formed.
pub proof fn lemma_step_wf(s: EngineState)
    requires
        s.wf(),
    ensures
        s.step().wf(),
        s.step().capacity() == s.capacity(),
        s.step().write_cursor == s.write_cursor,
        s.step().lives == aged(s.lives),
        s.step().surplus() == s.surplus(),
{
    let n = s.capacity();
    let start = s.scan_start();
    lemma_slots_split(s.lives, 0, start, n, 1);
    lemma_slots_split(s.lives, 0, start, n, 2);
    lemma_slots_aged(s.lives, aged(s.lives), 0, n, 1);
    lemma_slots_fewer(s.lives, 0, n, 1, 2);
    if s.live_count == 0 {
        lemma_slots_none(s.lives, 0, n, 1);
        assert(s.lives == aged(s.lives));
    } else {
        lemma_slots_with_life(s.lives, start, n, 2);
        lemma_slots_with_life(s.lives, 0, start, 2);
    }
}

/// The live count never falls below the number of live particles: a
/// well-formed state stays well formed through any requests.
pub proof fn lemma_run_wf(s: EngineState, commands: Seq<Command>)
    requires
        s.wf(),
    ensures
        run(s, commands).wf(),
        run(s, commands).capacity() == s.capacity(),
    decreases commands.len(),
{
    if commands.len() > 0 {
        lemma_run_wf(s, commands.drop_last());
        let before = run(s, commands.drop_last());
        match commands.last() {
            Command::Allocate(life) => lemma_allocate_wf(before, life),
            Command::Update => lemma_step_wf(before),
        }
    }
}

/// No allocation fails, and the ring wraps: after any number of allocations
/// the cursor has moved on by that number modulo the capacity, and the live
/// count has grown by that number.
pub proof fn lemma_allocations_wrap(s: EngineState, commands: Seq<Command>)
    requires
        s.wf(),
        only_allocations(commands),
    ensures
        run(s, commands).write_cursor == (s.write_cursor + commands.len()) % s.capacity(),
        run(s, commands).live_count == s.live_count + commands.len(),
        run(s, commands).capacity() == s.capacity(),
    decreases commands.len(),
{
    if commands.len() == 0 {
        vstd::arithmetic::div_mod::lemma_small_mod(s.write_cursor as nat, s.capacity() as nat);
    } else {
        let earlier = commands.drop_last();
        lemma_allocations_wrap(s, earlier);
        lemma_run_wf(s, earlier);
        lemma_cursor_wraps(s.write_cursor + earlier.len(), s.capacity());
    }
}

/// On an engine that has done nothing yet, the allocation that follows as
/// many allocations as the ring has slots takes slot 0 again and overwrites
/// the particle there.
pub proof fn lemma_full_ring_overwrites_slot_zero(
    capacity: nat,
    commands: Seq<Command>,
    life: u32,
)
    requires
        0 < capacity <= usize::MAX,
        only_allocations(commands),
        commands.len() == capacity,
    ensures
        run(EngineState::fresh(capacity), commands).write_cursor == 0,
        run(EngineState::fresh(capacity), commands).allocate(life).lives[0] == life,
{
    let s = EngineState::fresh(capacity);
    lemma_fresh(capacity);
    lemma_allocations_wrap(s, commands);
    lemma_run_wf(s, commands);
    vstd::arithmetic::div_mod::lemma_mod_self_0(capacity as int);
}

/// Each update takes exactly one tick from every live particle and leaves
/// every dead one dead: after any number of updates a particle has its life
/// less that number, or none.
pub proof fn lemma_life_after_updates(s: EngineState, commands: Seq<Command>, slot: int)
    requires
        s.wf(),
        only_updates(commands),
        0 <= slot < s.capacity(),
    ensures
        run(s, commands).lives[slot] == life_after(s.lives[slot], commands.len()),
    decreases commands.len(),
{
    if commands.len() > 0 {
        let earlier = commands.drop_last();
        lemma_life_after_updates(s, earlier, slot);
        lemma_run_wf(s, earlier);
        lemma_step_wf(run(s, earlier));
    }
}

/// An allocation keeps an exact live count exact if, and only if, it brings
/// a particle with life left to a slot whose particle is dead.
pub proof fn lemma_allocate_exact(s: EngineState, life: u32)
    requires
        s.wf(),
        s.exact(),
    ensures
        s.allocate(life).exact() <==> life > 0 && s.lives[s.write_cursor] == 0,
{
    lemma_allocate_wf(s, life);
}

/// An update keeps an exact live count exact.
pub proof fn lemma_step_exact(s: EngineState)
    requires
        s.wf(),
        s.exact(),
    ensures
        s.step().exact(),
{
    lemma_step_wf(s);
}

/// The live count is the number of live particles after any requests in
/// which every allocation brings a live particle to a free slot, and only
/// after such: any other allocation leaves a surplus that never goes away.
pub proof fn lemma_run_exact(s: EngineState, commands: Seq<Command>)
    requires
        s.wf(),
        s.exact(),
    ensures
        run(s, commands).exact() <==> allocations_fill_free_slots(s, commands),
    decreases commands.len(),
{
    if commands.len() > 0 {
        let earlier = commands.drop_last();
        lemma_run_exact(s, earlier);
        lemma_run_wf(s, earlier);
        let before = run(s, earlier);
        match commands.last() {
            Command::Allocate(life) => lemma_allocate_wf(before, life),
            Command::Update => lemma_step_wf(before),
        }
    }
}

/// The work list of an update names live particles only, none of them
/// twice, each with the fate its life calls for. It is as long as there are
/// live particles and never longer than the live count, and the scan never
/// looks at more slots than the ring has, or at any when the live count is
/// zero.
pub proof fn lemma_step_work(s: EngineState)
    requires
        s.wf(),
    ensures
        s.step_updates().len() == live_slots(s.lives),
        s.step_updates().len() <= s.live_count,
        0 <= s.step_visited() <= s.capacity(),
        s.live_count == 0 ==> s.step_visited() == 0,
        forall|k: int|
            0 <= k < s.step_updates().len() ==> {
                let entry = #[trigger] s.step_updates()[k];
                &&& entry.slot < s.capacity()
                &&& s.lives[entry.slot as int] > 0
                &&& entry.fate == fate_of(s.lives[entry.slot as int])
            },
        forall|j: int, k: int|
            0 <= j < k < s.step_updates().len() ==> s.step_updates()[j].slot
                != s.step_updates()[k].slot,
{
    let n = s.capacity();
    let start = s.scan_start();
    lemma_slots_split(s.lives, 0, start, n, 1);
    lemma_slots_with_life(s.lives, start, n, 1);
    lemma_slots_with_life(s.lives, 0, start, 1);
    let head = slots_with_life(s.lives, start, n, 1);
    let tail = slots_with_life(s.lives, 0, start, 1);
    if s.live_count == 0 {
        lemma_slots_none(s.lives, 0, n, 1);
    } else {
        let order = s.scanned_live();
        assert(order == head + tail);
        assert forall|k: int| 0 <= k < order.len() implies 0 <= #[trigger] order[k] < n
            && s.lives[order[k]] > 0 by {
            if k < head.len() {
                assert(order[k] == head[k]);
            } else {
                assert(order[k] == tail[k - head.len()]);
            }
        }
        assert forall|j: int, k: int| 0 <= j < k < order.len() implies order[j] != order[k] by {
            if k < head.len() {
                assert(order[j] == head[j] && order[k] == head[k]);
            } else if j < head.len() {
                assert(order[j] == head[j] && order[k] == tail[k - head.len()]);
            } else {
                assert(order[j] == tail[j - head.len()] && order[k] == tail[k - head.len()]);
            }
        }
        if s.live_count <= live_slots(s.lives) {
            let last = order.last();
            assert(0 <= last < n);
        }
    }
}

/// The work list of an update names every particle that was alive: none is
/// passed over, wherever the hint points and however the live slots lie.
pub proof fn lemma_step_lists_live_particle(s: EngineState, slot: int)
    requires
        s.wf(),
        0 <= slot < s.capacity(),
        s.lives[slot] > 0,
    ensures
        exists|k: int|
            0 <= k < s.step_updates().len() && #[trigger] s.step_updates()[k].slot == slot,
{
    let n = s.capacity();
    let start = s.scan_start();
    lemma_slots_split(s.lives, 0, start, n, 1);
    let head = slots_with_life(s.lives, start, n, 1);
    let tail = slots_with_life(s.lives, 0, start, 1);
    let order = s.scanned_live();
    assert(order == head + tail);
    if slot >= start {
        lemma_slots_with_life(s.lives, start, n, 1);
        assert(head.contains(slot));
        let k = choose|k: int| 0 <= k < head.len() && head[k] == slot;
        assert(order[k] == slot);
        assert(s.step_updates()[k].slot == slot);
    } else {
        lemma_slots_with_life(s.lives, 0, start, 1);
        assert(tail.contains(slot));
        let k = choose|k: int| 0 <= k < tail.len() && tail[k] == slot;
        assert(order[head.len() + k] == slot);
        assert(s.step_updates()[head.len() + k].slot == slot);
    }
}

/// The scan is bounded by the live count, not by the capacity: when the
/// live count is exact and the live particles sit in an unbroken arc from
/// the slot where the scan starts, the scan looks at exactly that many slots.
pub proof fn lemma_unbroken_arc_bounds_scan(s: EngineState)
    requires
        s.wf(),
        s.exact(),
        forall|slot: int|
            0 <= slot < s.capacity() && scan_offset(s.capacity(), s.scan_start(), slot)
                < s.live_count ==> s.lives[slot] > 0,
    ensures
        s.step_visited() == s.live_count,
{
    let n = s.capacity();
    let start = s.scan_start();
    let count = s.live_count;
    if count > 0 {
        lemma_slots_with_life(s.lives, 0, n, 1);
        assert(count <= n);
        lemma_slots_split(s.lives, 0, start, n, 1);
        if start + count <= n {
            let end = start + count;
            lemma_slots_split(s.lives, start, end, n, 1);
            assert forall|i: int| start <= i < end implies s.lives[i] >= 1 by {
                assert(scan_offset(n, start, i) < count);
            }
            lemma_slots_all(s.lives, start, end, 1);
            assert(slots_with_life(s.lives, end, n, 1) == Seq::<int>::empty());
            assert(slots_with_life(s.lives, 0, start, 1) == Seq::<int>::empty());
            assert(s.lives[end - 1] >= 1);
            assert(s.scanned_live() == slots_with_life(s.lives, start, end, 1));
            assert(s.scanned_live().last() == end - 1);
        } else {
            let end = start + count - n;
            lemma_slots_split(s.lives, 0, end, start, 1);
            assert forall|i: int| start <= i < n implies s.lives[i] >= 1 by {
                assert(scan_offset(n, start, i) < count);
            }
            assert forall|i: int| 0 <= i < end implies s.lives[i] >= 1 by {
                assert(scan_offset(n, start, i) < count);
            }
            lemma_slots_all(s.lives, start, n, 1);
            lemma_slots_all(s.lives, 0, end, 1);
            assert(slots_with_life(s.lives, end, start, 1) == Seq::<int>::empty());
            assert(s.lives[end - 1] >= 1);
            let tail = slots_with_life(s.lives, 0, end, 1);
            assert(tail.last() == end - 1);
            assert(s.scanned_live() == slots_with_life(s.lives, start, n, 1) + tail);
            assert(s.scanned_live().last() == end - 1);
        }
    }
}

/// A dead particle stays dead through an update, and the update's work list
/// does not name its slot: nothing is drawn for it again.
pub proof fn lemma_dead_slot_stays_dead(s: EngineState, slot: int)
    requires
        s.wf(),
        0 <= slot < s.capacity(),
        s.lives[slot] == 0,
    ensures
        s.step().lives[slot] == 0,
        forall|k: int|
            0 <= k < s.step_updates().len() ==> (#[trigger] s.step_updates()[k]).slot != slot,
{
    lemma_step_wf(s);
    lemma_step_work(s);
}

} // verus!
