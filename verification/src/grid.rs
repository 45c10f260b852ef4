//! The tile grid: cells, per-cell movement cost, the grid's spatial layout,
//! and terrain generation from per-cell walkability.

use vstd::prelude::*;

verus! {

/// A cell whose movement cost is at or above this threshold cannot be entered
/// by the search.
pub const IMPASSABLE_COST: u32 = 5;

/// Largest grid dimension accepted, so that the cell array's length and all
/// index arithmetic fit comfortably in the machine's integer types.
pub const MAX_DIM: u32 = 32768;

/// Largest cell size accepted, so that world coordinates of cell centers fit
/// in `i64` arithmetic.
pub const MAX_CELL_SIZE: i64 = 1048576;

/// Largest magnitude of the grid origin accepted, so that world coordinates
/// fit in `i64` arithmetic.
pub const MAX_ORIGIN: i64 = 1099511627776;

/// One discrete addressable location in the tile grid.
#[derive(Clone, Copy, PartialEq, Eq, Structural, Hash, Debug)]
pub struct GridCell {
    pub x: u32,
    pub y: u32,
}

/// The integer cost charged for entering a cell; at or above
/// [`IMPASSABLE_COST`] the cell is non-traversable.
#[derive(Clone, Copy, PartialEq, Eq, Structural, Debug)]
pub struct MovementCost(pub u32);

/// The grid's placement in world space: dimensions in cells, the size of one
/// cell in world units, and the translation of the grid's lower-left corner.
#[derive(Clone, Copy, PartialEq, Eq, Structural, Debug)]
pub struct GridLayout {
    pub width: u32,
    pub height: u32,
    pub cell_w: i64,
    pub cell_h: i64,
    pub origin_x: i64,
    pub origin_y: i64,
}

impl GridLayout {
    /// Dimensions are positive and all fields are small enough that index and
    /// coordinate arithmetic cannot overflow.
    pub open spec fn wf(self) -> bool {
        &&& 1 <= self.width <= MAX_DIM
        &&& 1 <= self.height <= MAX_DIM
        &&& 1 <= self.cell_w <= MAX_CELL_SIZE
        &&& 1 <= self.cell_h <= MAX_CELL_SIZE
        &&& -MAX_ORIGIN <= self.origin_x <= MAX_ORIGIN
        &&& -MAX_ORIGIN <= self.origin_y <= MAX_ORIGIN
    }

    pub open spec fn in_bounds(self, c: GridCell) -> bool {
        c.x < self.width && c.y < self.height
    }

    pub open spec fn area(self) -> int {
        self.width * self.height
    }

    /// Row-major index of a cell in the dense cost array.
    pub open spec fn idx_of(self, c: GridCell) -> int {
        c.y * self.width + c.x
    }

    /// The cell stored at a row-major index.
    pub open spec fn cell_of(self, i: int) -> GridCell {
        GridCell { x: (i % (self.width as int)) as u32, y: (i / (self.width as int)) as u32 }
    }

    pub proof fn lemma_idx_of(self, c: GridCell)
        requires
            self.wf(),
            self.in_bounds(c),
        ensures
            0 <= self.idx_of(c) < self.area(),
            self.cell_of(self.idx_of(c)) == c,
    {
        let w = self.width as int;
        let h = self.height as int;
        let x = c.x as int;
        let y = c.y as int;
        assert(y * w + x < w * h) by (nonlinear_arith)
            requires 0 <= x < w && 0 <= y < h,
        {}
        vstd::arithmetic::div_mod::lemma_fundamental_div_mod_converse(y * w + x, w, y, x);
    }

    pub proof fn lemma_cell_of(self, i: int)
        requires
            self.wf(),
            0 <= i < self.area(),
        ensures
            self.in_bounds(self.cell_of(i)),
            self.idx_of(self.cell_of(i)) == i,
    {
        let w = self.width as int;
        let h = self.height as int;
        vstd::arithmetic::div_mod::lemma_fundamental_div_mod(i, w);
        let q = i / w;
        let r = i % w;
        assert(0 <= r < w) by {
            vstd::arithmetic::div_mod::lemma_mod_bound(i, w);
        }
        assert(0 <= q < h) by (nonlinear_arith)
            requires w >= 1 && 0 <= i < w * h && i == w * q + r && 0 <= r < w,
        {}
        assert(self.cell_of(i).x as int == r);
        assert(self.cell_of(i).y as int == q);
        assert(q * w == w * q) by (nonlinear_arith) {}
        assert(self.idx_of(self.cell_of(i)) == q * w + r);
    }
}

/// The read-only snapshot of the whole grid: layout plus one movement cost per
/// cell, stored row by row.
#[derive(Debug)]
pub struct TileGrid {
    pub layout: GridLayout,
    pub costs: Vec<MovementCost>,
}

impl TileGrid {
    /// The layout is well formed and every in-bounds cell has a backing cost.
    pub open spec fn wf(self) -> bool {
        self.layout.wf() && self.costs@.len() == self.layout.area()
    }

    pub open spec fn in_bounds(self, c: GridCell) -> bool {
        self.layout.in_bounds(c)
    }

    /// The movement cost stored for an in-bounds cell.
    pub open spec fn spec_cost(self, c: GridCell) -> int {
        self.costs@[self.layout.idx_of(c)].0 as int
    }

    /// A cell the search may enter: in bounds and below the impassable
    /// threshold.
    pub open spec fn traversable(self, c: GridCell) -> bool {
        self.in_bounds(c) && self.spec_cost(c) < IMPASSABLE_COST
    }

    /// Every traversable cell charges at least one unit of cost. Under this
    /// premise the truncated Euclidean heuristic never overestimates the true
    /// remaining cost, which is what the search's optimality rests on.
    pub open spec fn min_cost_positive(self) -> bool {
        forall|c: GridCell| self.traversable(c) ==> self.spec_cost(c) >= 1
    }

    /// Builds a grid from a layout and one cost per cell, row by row.
    pub fn from_costs(layout: GridLayout, costs: Vec<MovementCost>) -> (g: TileGrid)
        requires
            layout.wf(),
            costs@.len() == layout.area(),
        ensures
            g.wf(),
            g.layout == layout,
            g.costs == costs,
    {
        TileGrid { layout, costs }
    }

    /// Looks up the stored movement cost of an in-bounds cell.
    pub fn cost(&self, c: GridCell) -> (r: u32)
        requires
            self.wf(),
            self.in_bounds(c),
        ensures
            r == self.spec_cost(c),
    {
        proof {
            self.layout.lemma_idx_of(c);
            assert(c.y * self.layout.width <= (MAX_DIM - 1) * MAX_DIM) by (nonlinear_arith)
                requires 0 <= c.y <= MAX_DIM - 1 && 0 <= self.layout.width <= MAX_DIM,
            {}
        }
        let i: usize = (c.y as usize) * (self.layout.width as usize) + (c.x as usize);
        self.costs[i].0
    }
}

} // verus!
