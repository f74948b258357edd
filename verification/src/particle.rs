//! The records the engine keeps and hands out.

use vstd::prelude::*;

verus! {

/// Number of ticks a particle made by `ParticleEngine::create_particle` lives.
pub const PARTICLE_LIFE: u32 = 120;

/// Number of slots an engine has when the caller has no reason to pick another.
pub const MAX_PARTICLES: usize = 100000;

/// Number of unindexed vertices in the quad that is drawn once per slot.
pub const QUAD_VERTICES: usize = 6;

/// What the engine keeps of a particle: the ticks it has left.
///
/// A particle with `life == 0` is dead and its slot is free.
#[derive(Clone, Copy, Debug, PartialEq, Eq, Structural)]
pub struct Particle {
    pub life: u32,
}

/// What one update did to a particle that was alive when the update began.
#[derive(Clone, Copy, Debug, PartialEq, Eq, Structural)]
pub enum Fate {
    /// The particle has ticks left: it moves, and its projection is rewritten.
    Survived,
    /// The particle used its last tick: its drawn size is forced to zero.
    Expired,
}

/// One entry of an update's work list: a slot and what became of its particle.
#[derive(Clone, Copy, Debug, PartialEq, Eq, Structural)]
pub struct SlotUpdate {
    pub slot: usize,
    pub fate: Fate,
}

/// The life a particle has after one tick.
pub open spec fn aged_life(life: u32) -> u32 {
    if life > 0 {
        (life - 1) as u32
    } else {
        0
    }
}

/// The fate of a live particle with `life` ticks left when an update begins.
pub open spec fn fate_of(life: u32) -> Fate {
    if life > 1 {
        Fate::Survived
    } else {
        Fate::Expired
    }
}

} // verus!
