//! The coordinate mapper: world-space points to grid cells and back, and the
//! projector that turns a cell path into world-space waypoints.

use vstd::prelude::*;
use crate::grid::{GridCell, GridLayout, MAX_DIM, MAX_CELL_SIZE, MAX_ORIGIN};

verus! {

/// Largest magnitude of a world coordinate accepted by the mapper's
/// subtraction, so that `i64` arithmetic cannot overflow.
pub const MAX_WORLD: i64 = 4611686018427387904;

/// A point in world space, in integer world units.
#[derive(Clone, Copy, PartialEq, Eq, Structural, Debug)]
pub struct WorldPoint {
    pub x: i64,
    pub y: i64,
}

/// World x of the center of a cell: the grid origin plus whole cells plus
/// half a cell.
pub open spec fn spec_center_x(c: GridCell, l: GridLayout) -> int {
    l.origin_x + c.x * l.cell_w + l.cell_w / 2
}

/// World y of the center of a cell.
pub open spec fn spec_center_y(c: GridCell, l: GridLayout) -> int {
    l.origin_y + c.y * l.cell_h + l.cell_h / 2
}

/// The world point at the center of a cell.
pub open spec fn spec_cell_to_world(c: GridCell, l: GridLayout) -> WorldPoint {
    WorldPoint { x: spec_center_x(c, l) as i64, y: spec_center_y(c, l) as i64 }
}

/// The cell a world point falls in: invert the grid's translation, then
/// floor-divide by the cell size. `None` exactly when either floored index is
/// below zero or at or beyond the grid's dimensions.
pub open spec fn spec_world_to_cell(p: WorldPoint, l: GridLayout) -> Option<GridCell> {
    let lx = p.x - l.origin_x;
    let ly = p.y - l.origin_y;
    if lx < 0 || ly < 0 {
        None
    } else {
        let cx = lx / (l.cell_w as int);
        let cy = ly / (l.cell_h as int);
        if cx >= l.width || cy >= l.height {
            None
        } else {
            Some(GridCell { x: cx as u32, y: cy as u32 })
        }
    }
}

proof fn lemma_center_fits(c: GridCell, l: GridLayout)
    requires
        l.wf(),
        l.in_bounds(c),
    ensures
        c.x * l.cell_w <= MAX_DIM * MAX_CELL_SIZE,
        c.y * l.cell_h <= MAX_DIM * MAX_CELL_SIZE,
        -MAX_ORIGIN <= spec_center_x(c, l) <= MAX_ORIGIN + MAX_DIM * MAX_CELL_SIZE + MAX_CELL_SIZE,
        -MAX_ORIGIN <= spec_center_y(c, l) <= MAX_ORIGIN + MAX_DIM * MAX_CELL_SIZE + MAX_CELL_SIZE,
{
    assert(c.x * l.cell_w <= MAX_DIM * MAX_CELL_SIZE) by (nonlinear_arith)
        requires 0 <= c.x <= MAX_DIM && 1 <= l.cell_w <= MAX_CELL_SIZE,
    {}
    assert(c.y * l.cell_h <= MAX_DIM * MAX_CELL_SIZE) by (nonlinear_arith)
        requires 0 <= c.y <= MAX_DIM && 1 <= l.cell_h <= MAX_CELL_SIZE,
    {}
    assert(c.x * l.cell_w >= 0) by (nonlinear_arith)
        requires c.x >= 0 && l.cell_w >= 1,
    {}
    assert(c.y * l.cell_h >= 0) by (nonlinear_arith)
        requires c.y >= 0 && l.cell_h >= 1,
    {}
}

/// Maps a cell to the world point at its center.
pub fn cell_to_world(c: GridCell, l: GridLayout) -> (p: WorldPoint)
    requires
        l.wf(),
        l.in_bounds(c),
    ensures
        p == spec_cell_to_world(c, l),
        p.x == spec_center_x(c, l),
        p.y == spec_center_y(c, l),
{
    proof {
        lemma_center_fits(c, l);
    }
    let half_w = ((l.cell_w as u64) / 2) as i64;
    let half_h = ((l.cell_h as u64) / 2) as i64;
    let px = l.origin_x + (c.x as i64) * l.cell_w + half_w;
    let py = l.origin_y + (c.y as i64) * l.cell_h + half_h;
    WorldPoint { x: px, y: py }
}

/// Maps a world point to the cell it falls in, or `None` for a point outside
/// the grid. This is total: any point whose floored indices lie outside
/// `[0, width) x [0, height)` yields `None` rather than an error.
pub fn world_to_cell(p: WorldPoint, l: GridLayout) -> (r: Option<GridCell>)
    requires
        l.wf(),
    ensures
        r == spec_world_to_cell(p, l),
{
    let lx = match p.x.checked_sub(l.origin_x) {
        Some(v) => v,
        None => {
            proof {
                lemma_far_coordinate(p.x - l.origin_x, l.cell_w as int, l.width as int);
            }
            return None;
        },
    };
    let ly = match p.y.checked_sub(l.origin_y) {
        Some(v) => v,
        None => {
            proof {
                lemma_far_coordinate(p.y - l.origin_y, l.cell_h as int, l.height as int);
            }
            return None;
        },
    };
    if lx < 0 || ly < 0 {
        return None;
    }
    let cx = (lx as u64) / (l.cell_w as u64);
    let cy = (ly as u64) / (l.cell_h as u64);
    if cx >= l.width as u64 || cy >= l.height as u64 {
        return None;
    }
    Some(GridCell { x: cx as u32, y: cy as u32 })
}

/// A local coordinate beyond the range of `i64` floor-divides to an index
/// past any accepted grid dimension, or is negative; either way the mapper
/// yields `None`.
proof fn lemma_far_coordinate(lv: int, cell: int, dim: int)
    requires
        1 <= cell <= MAX_CELL_SIZE,
        1 <= dim <= MAX_DIM,
        lv > i64::MAX || lv < i64::MIN,
    ensures
        lv < 0 || lv / cell >= dim,
{
    if lv > i64::MAX {
        assert(cell * dim <= MAX_CELL_SIZE * MAX_DIM) by (nonlinear_arith)
            requires 1 <= cell <= MAX_CELL_SIZE && 1 <= dim <= MAX_DIM,
        {}
        assert((cell * dim) / cell == dim) by {
            vstd::arithmetic::div_mod::lemma_div_multiples_vanish(dim, cell);
        }
        assert(lv / cell >= (cell * dim) / cell) by {
            vstd::arithmetic::div_mod::lemma_div_is_ordered(cell * dim, lv, cell);
        }
    }
}

/// Inverts the grid's placement: translates a world point into the grid's
/// local space, the step a click-to-tile lookup takes before indexing.
pub fn mouse_pos_in_map(cursor_world: WorldPoint, l: GridLayout) -> (r: WorldPoint)
    requires
        l.wf(),
        -MAX_WORLD <= cursor_world.x <= MAX_WORLD,
        -MAX_WORLD <= cursor_world.y <= MAX_WORLD,
    ensures
        r.x == cursor_world.x - l.origin_x,
        r.y == cursor_world.y - l.origin_y,
{
    WorldPoint { x: cursor_world.x - l.origin_x, y: cursor_world.y - l.origin_y }
}

/// Projects a cell path to world-space waypoints: one world point per input
/// cell, in the same order, no filtering.
pub fn project(path: &Vec<GridCell>, l: GridLayout) -> (r: Vec<WorldPoint>)
    requires
        l.wf(),
        forall|i: int| 0 <= i < path@.len() ==> l.in_bounds(#[trigger] path@[i]),
    ensures
        r@.len() == path@.len(),
        forall|i: int| 0 <= i < path@.len() ==> #[trigger] r@[i] == spec_cell_to_world(path@[i], l),
{
    let mut out: Vec<WorldPoint> = Vec::new();
    let mut k: usize = 0;
    while k < path.len()
        invariant
            k <= path@.len(),
            out@.len() == k,
            l.wf(),
            forall|i: int| 0 <= i < path@.len() ==> l.in_bounds(#[trigger] path@[i]),
            forall|i: int| 0 <= i < k ==> #[trigger] out@[i] == spec_cell_to_world(path@[i], l),
        decreases path@.len() - k,
    {
        let p = cell_to_world(path[k], l);
        out.push(p);
        k += 1;
    }
    out
}

impl GridCell {
    /// The world position of this tile's center under the grid's placement.
    pub fn world_position(&self, l: GridLayout) -> (p: WorldPoint)
        requires
            l.wf(),
            l.in_bounds(*self),
        ensures
            p == spec_cell_to_world(*self, l),
    {
        cell_to_world(*self, l)
    }
}

/// Round trip: for every valid cell, mapping its center back through
/// `world_to_cell` recovers exactly that cell.
pub proof fn lemma_world_cell_round_trip(c: GridCell, l: GridLayout)
    requires
        l.wf(),
        l.in_bounds(c),
    ensures
        spec_world_to_cell(spec_cell_to_world(c, l), l) == Some(c),
{
    lemma_center_fits(c, l);
    let p = spec_cell_to_world(c, l);
    let lx = p.x - l.origin_x;
    let ly = p.y - l.origin_y;
    assert(lx == c.x * l.cell_w + l.cell_w / 2);
    assert(ly == c.y * l.cell_h + l.cell_h / 2);
    assert(0 <= l.cell_w / 2 < l.cell_w);
    assert(0 <= l.cell_h / 2 < l.cell_h);
    vstd::arithmetic::div_mod::lemma_fundamental_div_mod_converse(
        lx, l.cell_w as int, c.x as int, l.cell_w as int / 2);
    vstd::arithmetic::div_mod::lemma_fundamental_div_mod_converse(
        ly, l.cell_h as int, c.y as int, l.cell_h as int / 2);
}

} // verus!
