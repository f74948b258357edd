//! The engine itself: a ring of particle slots with a wrapping write cursor,
//! a live count and a hint at the first live slot.

use crate::particle::{Fate, Particle, SlotUpdate, PARTICLE_LIFE, QUAD_VERTICES};
use crate::slots::{
    lemma_slots_congruent, lemma_slots_none, lemma_slots_update, lemma_slots_with_life,
    slots_with_life,
};
use crate::laws::{lemma_step_wf, lemma_step_work};
use crate::state::{
    aged, aged_between, first_slot, lemma_scan_is_step, update_for, updates_for, EngineState,
};
use vstd::prelude::*;

verus! {

/// Why an engine could not be made.
#[derive(Clone, Copy, Debug, PartialEq, Eq, Structural)]
pub enum EngineError {
    /// The engine was asked for in a shape it cannot have: with no slots.
    InvariantViolation,
}

/// The parameters of the one instanced draw that renders the ring.
#[derive(Clone, Copy, Debug, PartialEq, Eq, Structural)]
pub struct DrawCall {
    /// Vertices of the quad mesh, drawn unindexed as two triangles.
    pub vertices: usize,
    /// Instances of that mesh: one per slot, dead or alive.
    pub instances: usize,
    /// Whether nearer particles hide farther ones.
    pub depth_test: bool,
    /// Whether particles blend with what is behind them.
    pub alpha_blend: bool,
}

/// What one update did.
#[derive(Debug)]
pub struct StepReport {
    /// The particles that were alive when the update began, in the order
    /// the scan met them, each with what became of it.
    pub updates: Vec<SlotUpdate>,
    /// The number of slots the scan looked at.
    pub visited: usize,
}

/// The remaining lives of a sequence of particles.
pub open spec fn lives_of(particles: Seq<Particle>) -> Seq<u32> {
    Seq::new(particles.len(), |i: int| particles[i].life)
}

/// Stores `particle` in `slot`.
fn put(particles: &mut Vec<Particle>, slot: usize, particle: Particle)
    requires
        slot < old(particles).len(),
    ensures
        final(particles)@ == old(particles)@.update(slot as int, particle),
    no_unwind
{
    particles[slot] = particle;
}

/// A fixed ring of particle slots.
pub struct ParticleEngine {
    particles: Vec<Particle>,
    write_cursor: usize,
    live_count: usize,
    first_live_hint: Option<usize>,
}

impl View for ParticleEngine {
    type V = EngineState;

    closed spec fn view(&self) -> EngineState {
        EngineState {
            lives: lives_of(self.particles@),
            write_cursor: self.write_cursor as int,
            live_count: self.live_count as int,
            first_live_hint: match self.first_live_hint {
                Some(h) => Some(h as int),
                None => None,
            },
        }
    }
}

impl ParticleEngine {
    #[verifier::type_invariant]
    closed spec fn well_formed(&self) -> bool {
        self@.wf()
    }

    /// An engine of `capacity` dead slots, with the cursor on slot 0, nothing
    /// alive and no hint. An engine must have at least one slot.
    pub fn new(capacity: usize) -> (made: Result<ParticleEngine, EngineError>)
        ensures
            capacity == 0 ==> made matches Err(EngineError::InvariantViolation),
            capacity > 0 ==> (made matches Ok(engine) && engine@ == EngineState::fresh(
                capacity as nat,
            ) && engine@.wf()),
    {
        if capacity == 0 {
            return Err(EngineError::InvariantViolation);
        }
        let particles = vec![Particle { life: 0 }; capacity];
        proof {
            assert(lives_of(particles@) == EngineState::fresh(capacity as nat).lives);
            lemma_slots_none(lives_of(particles@), 0, capacity as int, 1);
        }
        Ok(ParticleEngine { particles, write_cursor: 0, live_count: 0, first_live_hint: None })
    }

    /// The number of slots.
    pub fn capacity(&self) -> (n: usize)
        ensures
            n == self@.capacity(),
            self@.wf(),
    {
        proof {
            use_type_invariant(self);
        }
        self.particles.len()
    }

    /// The slot the next allocation takes.
    pub fn write_cursor(&self) -> (slot: usize)
        ensures
            slot == self@.write_cursor,
            self@.wf(),
    {
        proof {
            use_type_invariant(self);
        }
        self.write_cursor
    }

    /// The engine's count of live particles.
    pub fn live_count(&self) -> (n: usize)
        ensures
            n == self@.live_count,
            self@.wf(),
    {
        proof {
            use_type_invariant(self);
        }
        self.live_count
    }

    /// Where the next update starts scanning, if the engine has a guess.
    pub fn first_live_hint(&self) -> (hint: Option<usize>)
        ensures
            self@.first_live_hint == match hint {
                Some(h) => Some(h as int),
                None => None,
            },
            self@.wf(),
    {
        proof {
            use_type_invariant(self);
        }
        self.first_live_hint
    }

    /// The particle in `slot`, or nothing if the ring has no such slot.
    pub fn particle(&self, slot: usize) -> (found: Option<Particle>)
        ensures
            slot < self@.capacity() ==> found == Some(Particle { life: self@.lives[slot as int] }),
            slot >= self@.capacity() ==> found is None,
            self@.wf(),
    {
        proof {
            use_type_invariant(self);
        }
        if slot < self.particles.len() {
            Some(self.particles[slot])
        } else {
            None
        }
    }

    /// Gives `particle` the slot under the write cursor and returns that
    /// slot. Whatever the slot held is overwritten, alive or dead: the ring
    /// is never full. The cursor moves on by one and wraps, the live count
    /// grows by one, and the hint is set to the slot if there was none.
    ///
    /// A particle with no life left is accepted; it is dead on arrival and
    /// the next update passes over it.
    pub fn allocate(&mut self, particle: Particle) -> (slot: usize)
        requires
            old(self)@.live_count < usize::MAX,
        ensures
            slot == old(self)@.write_cursor,
            final(self)@ == old(self)@.allocate(particle.life),
            old(self)@.wf(),
            final(self)@.wf(),
    {
        proof {
            use_type_invariant(&*self);
            lemma_slots_update(self@.lives, self.write_cursor as int, particle.life, 1);
        }
        let ghost before = self@;
        let slot = self.write_cursor;
        self.live_count = self.live_count + 1;
        assert(before.lives.update(slot as int, particle.life) == lives_of(
            self.particles@.update(slot as int, particle),
        ));
        put(&mut self.particles, slot, particle);
        assert(lives_of(self.particles@) == before.lives.update(slot as int, particle.life));
        if self.first_live_hint.is_none() {
            self.first_live_hint = Some(slot);
        }
        assert(slot < self.particles.len());
        self.write_cursor = if slot + 1 == self.particles.len() {
            0
        } else {
            slot + 1
        };
        slot
    }

    /// Allocates a particle with the standard life of `PARTICLE_LIFE` ticks
    /// and returns its slot.
    pub fn create_particle(&mut self) -> (slot: usize)
        requires
            old(self)@.live_count < usize::MAX,
        ensures
            slot == old(self)@.write_cursor,
            final(self)@ == old(self)@.allocate(PARTICLE_LIFE),
            old(self)@.wf(),
            final(self)@.wf(),
    {
        self.allocate(Particle { life: PARTICLE_LIFE })
    }

    /// The draw that renders the ring: the quad mesh, once for every slot,
    /// depth-tested and alpha-blended. Dead slots are drawn too, at size zero.
    pub fn render(&self) -> (draw: DrawCall)
        ensures
            draw.vertices == QUAD_VERTICES,
            draw.instances == self@.capacity(),
            draw.depth_test,
            draw.alpha_blend,
            self@.wf(),
    {
        proof {
            use_type_invariant(self);
        }
        DrawCall {
            vertices: QUAD_VERTICES,
            instances: self.particles.len(),
            depth_test: true,
            alpha_blend: true,
        }
    }

    /// Advances the simulation by one tick: every live particle loses one
    /// tick of life, and the report lists each of them with its fate, in
    /// scan order.
    ///
    /// The scan starts at the hinted slot, or at slot 0 without a hint, runs
    /// to the end of the ring and then, only if it has not yet met as many
    /// live particles as the live count said on entry, from slot 0 up to
    /// where it started. It stops the moment it has met that many. With a
    /// live count of zero it does not scan and changes nothing.
    ///
    /// The new hint is the first particle the scan met that survives; the
    /// live count drops by one for each particle that expires.
    pub fn update(&mut self) -> (report: StepReport)
        ensures
            final(self)@ == old(self)@.step(),
            final(self)@.lives == aged(old(self)@.lives),
            report.updates@ == old(self)@.step_updates(),
            report.visited == old(self)@.step_visited(),
            report.updates.len() <= old(self)@.live_count,
            report.visited <= old(self)@.capacity(),
            old(self)@.wf(),
            final(self)@.wf(),
    {
        proof {
            use_type_invariant(&*self);
            lemma_step_wf(self@);
            assert(self@.step_updates().len() <= self@.live_count && self@.step_visited()
                <= self@.capacity()) by {
                lemma_step_work(self@);
            }
        }
        let ghost entry = self@;
        let mut updates: Vec<SlotUpdate> = Vec::new();
        let target = self.live_count;
        if target == 0 {
            return StepReport { updates, visited: 0 };
        }
        let start = match self.first_live_hint {
            Some(h) => h,
            None => 0,
        };
        let capacity = self.particles.len();
        self.first_live_hint = None;
        let stop_a = self.scan(start, capacity, target, &mut updates);
        let ghost middle = self@;
        let ghost met_a = slots_with_life(entry.lives, start as int, stop_a as int, 1);
        assert(updates@ == updates_for(entry.lives, met_a));
        let mut visited = stop_a - start;
        let mut stop_b: usize = 0;
        if updates.len() < target {
            proof {
                lemma_slots_congruent(entry.lives, middle.lives, 0, start as int, 1);
                lemma_slots_congruent(entry.lives, middle.lives, 0, start as int, 2);
            }
            stop_b = self.scan(0, start, target, &mut updates);
            visited = visited + stop_b;
            proof {
                lemma_slots_congruent(entry.lives, middle.lives, 0, stop_b as int, 1);
                lemma_slots_congruent(entry.lives, middle.lives, 0, stop_b as int, 2);
                lemma_slots_with_life(entry.lives, 0, stop_b as int, 1);
            }
        }
        proof {
            let met_b = slots_with_life(entry.lives, 0, stop_b as int, 1);
            lemma_scan_is_step(entry, stop_a as int, stop_b as int);
            assert(updates@ == updates_for(entry.lives, met_a + met_b));
            use_type_invariant(&*self);
            assert(self@.lives == entry.step().lives);
        }
        StepReport { updates, visited }
    }

    /// Scans the slots from `lo` up to `hi` in order, ageing each live
    /// particle by one tick and adding its entry to `updates`, and stops as
    /// soon as `updates` holds `target` entries. Returns the slot at which
    /// it stopped.
    fn scan(&mut self, lo: usize, hi: usize, target: usize, updates: &mut Vec<SlotUpdate>) -> (stop:
        usize)
        requires
            lo <= hi <= old(self)@.capacity(),
            old(updates).len() < target,
        ensures
            lo <= stop <= hi,
            final(self)@.lives == aged_between(old(self)@.lives, lo as int, stop as int),
            final(self)@.write_cursor == old(self)@.write_cursor,
            final(self)@.live_count == old(self)@.live_count - (slots_with_life(
                old(self)@.lives,
                lo as int,
                stop as int,
                1,
            ).len() - slots_with_life(old(self)@.lives, lo as int, stop as int, 2).len()),
            final(self)@.first_live_hint == match old(self)@.first_live_hint {
                Some(h) => Some(h),
                None => first_slot(slots_with_life(old(self)@.lives, lo as int, stop as int, 2)),
            },
            final(updates)@ == old(updates)@ + updates_for(
                old(self)@.lives,
                slots_with_life(old(self)@.lives, lo as int, stop as int, 1),
            ),
            final(updates).len() <= target,
            stop < hi ==> final(updates).len() == target,
            final(updates).len() == target ==> stop > lo && old(self)@.lives[stop - 1] > 0,
    {
        let ghost entry = self@;
        let ghost listed = updates@;
        let mut i: usize = lo;
        proof {
            assert(self@.lives == aged_between(entry.lives, lo as int, i as int));
            assert(updates@ == listed + updates_for(
                entry.lives,
                slots_with_life(entry.lives, lo as int, i as int, 1),
            ));
        }
        while i < hi && updates.len() < target
            invariant
                lo <= i <= hi <= entry.capacity(),
                self@.lives == aged_between(entry.lives, lo as int, i as int),
                self@.write_cursor == entry.write_cursor,
                self@.live_count == entry.live_count - (slots_with_life(
                    entry.lives,
                    lo as int,
                    i as int,
                    1,
                ).len() - slots_with_life(entry.lives, lo as int, i as int, 2).len()),
                self@.first_live_hint == match entry.first_live_hint {
                    Some(h) => Some(h),
                    None => first_slot(slots_with_life(entry.lives, lo as int, i as int, 2)),
                },
                updates@ == listed + updates_for(
                    entry.lives,
                    slots_with_life(entry.lives, lo as int, i as int, 1),
                ),
                updates.len() <= target,
                updates.len() == target ==> i > lo && entry.lives[i - 1] > 0,
            decreases hi - i,
        {
            let ghost now = self@;
            let ghost live = slots_with_life(entry.lives, lo as int, i as int, 1);
            proof {
                use_type_invariant(&*self);
            }
            let life = self.particles[i].life;
            assert(life == entry.lives[i as int]) by {
                assert(life == lives_of(self.particles@)[i as int]);
                assert(now.lives[i as int] == aged_between(
                    entry.lives,
                    lo as int,
                    i as int,
                )[i as int]);
            }
            if life > 0 {
                let aged = Particle { life: life - 1 };
                proof {
                    lemma_slots_update(now.lives, i as int, aged.life, 1);
                    assert(lives_of(self.particles@.update(i as int, aged)) == now.lives.update(
                        i as int,
                        aged.life,
                    ));
                }
                put(&mut self.particles, i, aged);
                if aged.life > 0 {
                    if self.first_live_hint.is_none() {
                        self.first_live_hint = Some(i);
                    }
                    updates.push(SlotUpdate { slot: i, fate: Fate::Survived });
                } else {
                    self.live_count = self.live_count - 1;
                    updates.push(SlotUpdate { slot: i, fate: Fate::Expired });
                }
                proof {
                    assert(updates_for(entry.lives, live.push(i as int)) == updates_for(
                        entry.lives,
                        live,
                    ).push(update_for(entry.lives, i as int)));
                }
            }
            i = i + 1;
            proof {
                assert(self@.lives == aged_between(entry.lives, lo as int, i as int));
            }
        }
        i
    }
}

} // verus!
