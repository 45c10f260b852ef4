//! Terrain: the map's dimensions and tile size, generation of the cost grid
//! from per-cell walkability, and the hovered-tile tracker.

use vstd::prelude::*;
use crate::grid::{GridCell, GridLayout, MovementCost, TileGrid, MAX_DIM, MAX_CELL_SIZE};
use crate::mapper::{WorldPoint, spec_world_to_cell, world_to_cell};

verus! {

/// The cost of a freshly generated walkable tile.
pub const WALKABLE_COST: u32 = 0;

/// The cost of a freshly generated blocked tile: far above the impassable
/// threshold.
pub const BLOCKED_COST: u32 = 999;

/// The map's shape: dimensions in tiles and the size of one tile in world
/// units. The grid cell size always equals the tile size here, as the
/// generation step sets both from the same vector.
#[derive(Clone, Copy, PartialEq, Eq, Debug)]
pub struct Terrain {
    pub size: (u32, u32),
    pub tile_size: (i64, i64),
    pub grid_size: (i64, i64),
}

impl Terrain {
    pub open spec fn wf(self) -> bool {
        &&& 1 <= self.size.0 <= MAX_DIM
        &&& 1 <= self.size.1 <= MAX_DIM
        &&& 1 <= self.tile_size.0 <= MAX_CELL_SIZE
        &&& 1 <= self.tile_size.1 <= MAX_CELL_SIZE
        &&& self.grid_size == self.tile_size
    }

    /// The layout the generation step places the map with: the whole map
    /// centered around the world origin.
    pub open spec fn spec_layout(self) -> GridLayout {
        GridLayout {
            width: self.size.0,
            height: self.size.1,
            cell_w: self.tile_size.0,
            cell_h: self.tile_size.1,
            origin_x: (-(self.size.0 * self.tile_size.0 / 2)) as i64,
            origin_y: (-(self.size.1 * self.tile_size.1 / 2)) as i64,
        }
    }

    pub fn new(size: (u32, u32), tile_size: (i64, i64)) -> (t: Terrain)
        ensures
            t.size == size,
            t.tile_size == tile_size,
            t.grid_size == tile_size,
    {
        Terrain { size, tile_size, grid_size: tile_size }
    }

    /// Computes the centered placement of the map in world space.
    pub fn layout(&self) -> (l: GridLayout)
        requires
            self.wf(),
        ensures
            l == self.spec_layout(),
            l.wf(),
    {
        proof {
            assert(self.size.0 * self.tile_size.0 <= MAX_DIM * MAX_CELL_SIZE) by (nonlinear_arith)
                requires
                    0 <= self.size.0 <= MAX_DIM && 0 <= self.tile_size.0 <= MAX_CELL_SIZE,
            {}
            assert(self.size.1 * self.tile_size.1 <= MAX_DIM * MAX_CELL_SIZE) by (nonlinear_arith)
                requires
                    0 <= self.size.1 <= MAX_DIM && 0 <= self.tile_size.1 <= MAX_CELL_SIZE,
            {}
            assert(self.size.0 * self.tile_size.0 >= 0) by (nonlinear_arith)
                requires self.size.0 >= 0 && self.tile_size.0 >= 0,
            {}
            assert(self.size.1 * self.tile_size.1 >= 0) by (nonlinear_arith)
                requires self.size.1 >= 0 && self.tile_size.1 >= 0,
            {}
        }
        let half_x = ((self.size.0 as u64) * (self.tile_size.0 as u64) / 2) as i64;
        let half_y = ((self.size.1 as u64) * (self.tile_size.1 as u64) / 2) as i64;
        GridLayout {
            width: self.size.0,
            height: self.size.1,
            cell_w: self.tile_size.0,
            cell_h: self.tile_size.1,
            origin_x: -half_x,
            origin_y: -half_y,
        }
    }

    /// Builds the grid snapshot from per-cell walkability, one flag per cell
    /// in row-major order: a walkable cell gets [`WALKABLE_COST`], any other
    /// [`BLOCKED_COST`], as the generation step chooses.
    pub fn generate(&self, walkable: &Vec<bool>) -> (g: TileGrid)
        requires
            self.wf(),
            walkable@.len() == self.spec_layout().area(),
        ensures
            g.wf(),
            g.layout == self.spec_layout(),
            g.costs@.len() == walkable@.len(),
            forall|i: int|
                0 <= i < walkable@.len() ==> (#[trigger] g.costs@[i]).0 == (if walkable@[i] {
                    WALKABLE_COST
                } else {
                    BLOCKED_COST
                }),
    {
        let l = self.layout();
        let mut costs: Vec<MovementCost> = Vec::new();
        let mut i: usize = 0;
        while i < walkable.len()
            invariant
                i <= walkable@.len(),
                costs@.len() == i,
                forall|k: int|
                    0 <= k < i ==> (#[trigger] costs@[k]).0 == (if walkable@[k] {
                        WALKABLE_COST
                    } else {
                        BLOCKED_COST
                    }),
            decreases walkable@.len() - i,
        {
            if walkable[i] {
                costs.push(MovementCost(WALKABLE_COST));
            } else {
                costs.push(MovementCost(BLOCKED_COST));
            }
            i += 1;
        }
        TileGrid::from_costs(l, costs)
    }
}

/// Which tile the pointer hovers and which one is selected.
#[derive(Clone, Copy, PartialEq, Eq, Structural, Debug)]
pub struct CurrentTile {
    pub hovered: Option<GridCell>,
    pub selected: Option<GridCell>,
}

impl Default for CurrentTile {
    fn default() -> (r: CurrentTile)
        ensures
            r.hovered is None,
            r.selected is None,
    {
        CurrentTile { hovered: None, selected: None }
    }
}

/// Recomputes which tile the pointer hovers from the cursor's world
/// position, leaving the stored value in place when it already matches.
pub fn update_current_tile(current: &mut CurrentTile, cursor_world: WorldPoint, l: GridLayout)
    requires
        l.wf(),
    ensures
        final(current).hovered == spec_world_to_cell(cursor_world, l),
        final(current).selected == old(current).selected,
{
    let hover = world_to_cell(cursor_world, l);
    let keep = match (current.hovered, hover) {
        (Some(a), Some(b)) => a == b,
        _ => false,
    };
    if !keep {
        current.hovered = hover;
    }
}

} // verus!
