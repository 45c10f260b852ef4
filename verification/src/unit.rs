//! Units: the bundle a spawned unit carries, the per-step movement decision
//! over its waypoint queue, and the debug segments drawn along a route.

use vstd::prelude::*;
use crate::grid::{GridCell, GridLayout};
use crate::mapper::{WorldPoint, spec_cell_to_world, cell_to_world};

verus! {

/// Marker for a spawned unit.
#[derive(Clone, Copy, PartialEq, Eq, Structural, Debug)]
pub struct Unit;

/// The waypoint queue a moving unit consumes; the last element is the next
/// target.
#[derive(PartialEq, Eq, Debug)]
pub struct TargetLocation {
    pub waypoints: Vec<WorldPoint>,
}

/// Marker for a unit whose route is drawn for debugging.
#[derive(Clone, Copy, PartialEq, Eq, Structural, Debug)]
pub struct DebugPath;

/// Everything a freshly spawned unit carries: its marker, its sprite's world
/// position, its waypoint queue, and the debug marker.
#[derive(Debug)]
pub struct SpawnedUnit {
    pub marker: Unit,
    pub position: WorldPoint,
    pub target: TargetLocation,
    pub debug: DebugPath,
}

/// One movement decision for a unit.
#[derive(Clone, Copy, PartialEq, Eq, Structural, Debug)]
pub enum UnitStep {
    /// No waypoints remain: the unit's route is done and its queue can be
    /// dropped.
    Done,
    /// The unit stands on the current waypoint, which has been consumed.
    Reached,
    /// The unit should keep moving toward this waypoint.
    Toward(WorldPoint),
}

/// Assembles the bundle for a new unit at a world position with a waypoint
/// queue, as the spawn step inserts it.
pub fn spawn_unit(position: WorldPoint, path: Vec<WorldPoint>) -> (u: SpawnedUnit)
    ensures
        u.position == position,
        u.target.waypoints@ == path@,
{
    SpawnedUnit { marker: Unit, position, target: TargetLocation { waypoints: path }, debug: DebugPath }
}

/// One step of waypoint consumption for a unit standing at `position`: the
/// route is done when no waypoint remains; a waypoint the unit stands on is
/// consumed; otherwise the unit is told to keep moving toward it. (The
/// hosting actor layer interpolates with sub-unit precision; in whole world
/// units, within one unit of a waypoint means standing on it.)
pub fn move_unit(target: &mut TargetLocation, position: WorldPoint) -> (r: UnitStep)
    ensures
        old(target).waypoints@.len() == 0 ==> r is Done && final(target).waypoints@ == old(target).waypoints@,
        old(target).waypoints@.len() > 0 && old(target).waypoints@.last() == position ==> r
            is Reached && final(target).waypoints@ == old(target).waypoints@.drop_last(),
        old(target).waypoints@.len() > 0 && old(target).waypoints@.last() != position ==> (
        r matches UnitStep::Toward(w) && w == old(target).waypoints@.last()) && final(target).waypoints@ == old(target).waypoints@,
{
    if target.waypoints.len() == 0 {
        UnitStep::Done
    } else {
        let last = target.waypoints[target.waypoints.len() - 1];
        if last == position {
            target.waypoints.pop();
            UnitStep::Reached
        } else {
            UnitStep::Toward(last)
        }
    }
}

/// The debug segments along a waypoint queue: one segment between each pair
/// of consecutive waypoints, in order.
pub fn debug_path(waypoints: &Vec<WorldPoint>) -> (segs: Vec<(WorldPoint, WorldPoint)>)
    ensures
        waypoints@.len() <= 1 ==> segs@.len() == 0,
        waypoints@.len() > 1 ==> segs@.len() == waypoints@.len() - 1,
        forall|i: int|
            0 <= i < segs@.len() ==> (#[trigger] segs@[i]) == (waypoints@[i], waypoints@[i + 1]),
{
    let mut segs: Vec<(WorldPoint, WorldPoint)> = Vec::new();
    if waypoints.len() <= 1 {
        return segs;
    }
    let mut i: usize = 1;
    while i < waypoints.len()
        invariant
            1 <= i <= waypoints@.len(),
            segs@.len() == i - 1,
            forall|k: int|
                0 <= k < segs@.len() ==> (#[trigger] segs@[k]) == (waypoints@[k], waypoints@[k
                    + 1]),
        decreases waypoints@.len() - i,
    {
        segs.push((waypoints[i - 1], waypoints[i]));
        i += 1;
    }
    segs
}

/// The debug segments along a cell path: one world-space segment between the
/// centers of each pair of consecutive cells, placed by the grid's layout.
pub fn show_path_debug(points: &Vec<GridCell>, l: GridLayout) -> (segs: Vec<(
    WorldPoint,
    WorldPoint,
)>)
    requires
        l.wf(),
        forall|i: int| 0 <= i < points@.len() ==> l.in_bounds(#[trigger] points@[i]),
    ensures
        points@.len() <= 1 ==> segs@.len() == 0,
        points@.len() > 1 ==> segs@.len() == points@.len() - 1,
        forall|i: int|
            0 <= i < segs@.len() ==> (#[trigger] segs@[i]) == (
                spec_cell_to_world(points@[i], l),
                spec_cell_to_world(points@[i + 1], l),
            ),
{
    let mut segs: Vec<(WorldPoint, WorldPoint)> = Vec::new();
    if points.len() <= 1 {
        return segs;
    }
    let mut i: usize = 1;
    while i < points.len()
        invariant
            l.wf(),
            forall|k: int| 0 <= k < points@.len() ==> l.in_bounds(#[trigger] points@[k]),
            1 <= i <= points@.len(),
            segs@.len() == i - 1,
            forall|k: int|
                0 <= k < segs@.len() ==> (#[trigger] segs@[k]) == (
                    spec_cell_to_world(points@[k], l),
                    spec_cell_to_world(points@[k + 1], l),
                ),
        decreases points@.len() - i,
    {
        let a = cell_to_world(points[i - 1], l);
        let b = cell_to_world(points[i], l);
        segs.push((a, b));
        i += 1;
    }
    segs
}

} // verus!
