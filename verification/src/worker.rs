//! Workers: the bundle a spawned worker carries and its steady drift across
//! the world.

use vstd::prelude::*;
use crate::mapper::{WorldPoint, MAX_WORLD};

verus! {

/// World units a worker covers per second.
pub const WORKER_SPEED: i64 = 100;

/// Longest time step accepted by the worker's movement, in milliseconds.
pub const MAX_STEP_MS: u64 = 1000000000;

/// Marker for a worker.
#[derive(Clone, Copy, PartialEq, Eq, Structural, Debug)]
pub struct Worker;

/// Everything a freshly spawned worker carries: its marker and its sprite's
/// world position, at the world origin.
#[derive(Clone, Copy, PartialEq, Eq, Structural, Debug)]
pub struct SpawnedWorker {
    pub marker: Worker,
    pub position: WorldPoint,
}

/// Assembles the bundle for a new worker at the world origin, as the spawn
/// step inserts it.
pub fn spawn_worker() -> (w: SpawnedWorker)
    ensures
        w.position == (WorldPoint { x: 0, y: 0 }),
{
    SpawnedWorker { marker: Worker, position: WorldPoint { x: 0, y: 0 } }
}

/// Drifts a worker rightward at [`WORKER_SPEED`] world units per second for
/// a time step given in milliseconds, truncating to whole world units.
pub fn move_worker(position: &mut WorldPoint, dt_ms: u64)
    requires
        -MAX_WORLD <= old(position).x <= MAX_WORLD,
        dt_ms <= MAX_STEP_MS,
    ensures
        final(position).x == old(position).x + WORKER_SPEED * dt_ms / 1000,
        final(position).y == old(position).y,
{
    let step = (((WORKER_SPEED as u64) * dt_ms) / 1000) as i64;
    proof {
        assert(WORKER_SPEED * dt_ms <= WORKER_SPEED * MAX_STEP_MS) by (nonlinear_arith)
            requires 0 <= dt_ms <= MAX_STEP_MS,
        {}
        assert(WORKER_SPEED * dt_ms >= 0) by (nonlinear_arith)
            requires dt_ms >= 0,
        {}
        assert(0 <= WORKER_SPEED * dt_ms / 1000 <= WORKER_SPEED * dt_ms) by {
            vstd::arithmetic::div_mod::lemma_div_is_ordered(0, WORKER_SPEED * dt_ms, 1000);
            vstd::arithmetic::div_mod::lemma_div_is_ordered_by_denominator(
                WORKER_SPEED * dt_ms,
                1,
                1000,
            );
        }
    }
    position.x = position.x + step;
}

} // verus!
