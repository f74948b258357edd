//! A verified particle lifecycle engine.
//!
//! The engine keeps a fixed ring of particle slots. New particles take the
//! slot under a wrapping write cursor, every update ages each live particle
//! by one tick, and the update scan is bounded by the number of live
//! particles rather than by the capacity of the ring.
//!
//! The engine decides which slots are touched and what becomes of them; the
//! caller owns positions, velocities, colours and the device buffer, and
//! applies the per-slot updates the engine hands back.

pub mod engine;
pub mod laws;
pub mod particle;
pub mod slots;
pub mod state;

pub use engine::{DrawCall, EngineError, ParticleEngine, StepReport};
pub use particle::{Fate, Particle, SlotUpdate, MAX_PARTICLES, PARTICLE_LIFE, QUAD_VERTICES};
