//! The traversal graph over the grid: 4-neighbor adjacency, neighbor
//! enumeration filtered by the impassable threshold, and the truncated
//! Euclidean distance used as the search heuristic.

use vstd::prelude::*;
use crate::grid::{GridCell, TileGrid, IMPASSABLE_COST};

verus! {

/// Two cells are adjacent when they differ by exactly one step along exactly
/// one axis.
pub open spec fn adjacent(a: GridCell, b: GridCell) -> bool {
    ||| (a.x == b.x && (a.y + 1 == b.y || b.y + 1 == a.y))
    ||| (a.y == b.y && (a.x + 1 == b.x || b.x + 1 == a.x))
}

/// The floor of the square root: the largest `r` with `r * r <= n`.
pub open spec fn sqrt_floor(n: int) -> int
    decreases n,
{
    if n <= 0 {
        0
    } else {
        let r = sqrt_floor(n - 1);
        if (r + 1) * (r + 1) <= n {
            r + 1
        } else {
            r
        }
    }
}

pub proof fn lemma_sqrt_floor_bounds(n: int)
    requires
        n >= 0,
    ensures
        sqrt_floor(n) >= 0,
        sqrt_floor(n) * sqrt_floor(n) <= n,
        n < (sqrt_floor(n) + 1) * (sqrt_floor(n) + 1),
    decreases n,
{
    if n > 0 {
        lemma_sqrt_floor_bounds(n - 1);
        let r = sqrt_floor(n - 1);
        if (r + 1) * (r + 1) <= n {
            assert(n < (r + 2) * (r + 2)) by (nonlinear_arith)
                requires r >= 0 && n - 1 < (r + 1) * (r + 1),
            {}
        }
    }
}

/// `sqrt_floor(n)` stays at or below any `k` whose successor's square exceeds
/// `n`.
pub proof fn lemma_sqrt_floor_le(n: int, k: int)
    requires
        0 <= n,
        0 <= k,
        n < (k + 1) * (k + 1),
    ensures
        sqrt_floor(n) <= k,
{
    lemma_sqrt_floor_bounds(n);
    let s = sqrt_floor(n);
    if s > k {
        assert((k + 1) * (k + 1) <= s * s) by (nonlinear_arith)
            requires 0 <= k + 1 <= s,
        {}
    }
}

/// `sqrt_floor` is the unique non-negative root bracketed by consecutive
/// squares.
pub proof fn lemma_sqrt_floor_unique(n: int, r: int)
    requires
        n >= 0,
        r >= 0,
        r * r <= n,
        n < (r + 1) * (r + 1),
    ensures
        sqrt_floor(n) == r,
{
    lemma_sqrt_floor_le(n, r);
    let s = sqrt_floor(n);
    lemma_sqrt_floor_bounds(n);
    if s < r {
        assert(r * r <= s * s) by (nonlinear_arith)
            requires 0 <= s + 1 <= r && n < (s + 1) * (s + 1) && r * r <= n,
        {
            assert(r * r <= (s + 1) * (s + 1) - 1);
        }
        assert(false) by (nonlinear_arith)
            requires r * r <= s * s && 0 <= s < r,
        {}
    }
}

/// The squared cell-index-space distance between two cells.
pub open spec fn sq_dist(a: GridCell, b: GridCell) -> int {
    (a.x - b.x) * (a.x - b.x) + (a.y - b.y) * (a.y - b.y)
}

/// The search heuristic: Euclidean distance in cell-index space, truncated
/// down to an integer.
pub open spec fn heur(a: GridCell, goal: GridCell) -> int {
    sqrt_floor(sq_dist(a, goal))
}

pub proof fn lemma_sq_dist_nonneg(a: GridCell, b: GridCell)
    ensures
        sq_dist(a, b) >= 0,
        heur(a, b) >= 0,
{
    let dx = a.x - b.x;
    let dy = a.y - b.y;
    assert(dx * dx >= 0 && dy * dy >= 0) by (nonlinear_arith) {}
    lemma_sqrt_floor_bounds(sq_dist(a, b));
}

/// Stepping to a square at most `2 * t + 1` further, where `t * t` is within
/// the nearer square, moves the truncated root by at most one.
proof fn lemma_sqrt_floor_bump(da: int, db: int, t: int)
    requires
        0 <= da,
        0 <= db,
        0 <= t,
        t * t <= db,
        da <= db + 2 * t + 1,
    ensures
        sqrt_floor(da) <= sqrt_floor(db) + 1,
{
    lemma_sqrt_floor_bounds(db);
    let r = sqrt_floor(db);
    assert(t <= r) by (nonlinear_arith)
        requires t * t <= db && db < (r + 1) * (r + 1) && r >= 0 && t >= 0,
    {}
    assert(da < (r + 2) * (r + 2)) by (nonlinear_arith)
        requires da <= db + 2 * t + 1 && t <= r && db < (r + 1) * (r + 1),
    {}
    lemma_sqrt_floor_le(da, r + 1);
}

/// Consistency of the heuristic under one adjacency step: moving to a
/// neighbor changes the truncated Euclidean distance to the goal by at most
/// one.
pub proof fn lemma_heur_step(a: GridCell, b: GridCell, goal: GridCell)
    requires
        adjacent(a, b),
    ensures
        heur(a, goal) <= heur(b, goal) + 1,
{
    let da = sq_dist(a, goal);
    let db = sq_dist(b, goal);
    lemma_sq_dist_nonneg(a, goal);
    lemma_sq_dist_nonneg(b, goal);
    if a.x == b.x {
        let tt = b.y - goal.y;
        let t = if tt >= 0 { tt } else { -tt };
        assert(da <= db + 2 * t + 1) by (nonlinear_arith)
            requires
                da == (a.x - goal.x) * (a.x - goal.x) + (a.y - goal.y) * (a.y - goal.y),
                db == (a.x - goal.x) * (a.x - goal.x) + tt * tt,
                a.y == b.y + 1 || a.y + 1 == b.y,
                b.y - goal.y == tt,
                t == if tt >= 0 { tt } else { -tt },
        {}
        assert(t * t <= db) by (nonlinear_arith)
            requires
                db == (a.x - goal.x) * (a.x - goal.x) + tt * tt,
                t == tt || t == -tt,
        {}
        lemma_sqrt_floor_bump(da, db, t);
    } else {
        let tt = b.x - goal.x;
        let t = if tt >= 0 { tt } else { -tt };
        assert(da <= db + 2 * t + 1) by (nonlinear_arith)
            requires
                da == (a.x - goal.x) * (a.x - goal.x) + (a.y - goal.y) * (a.y - goal.y),
                db == tt * tt + (a.y - goal.y) * (a.y - goal.y),
                a.x == b.x + 1 || a.x + 1 == b.x,
                a.y == b.y,
                b.x - goal.x == tt,
                t == if tt >= 0 { tt } else { -tt },
        {}
        assert(t * t <= db) by (nonlinear_arith)
            requires
                db == tt * tt + (a.y - goal.y) * (a.y - goal.y),
                t == tt || t == -tt,
        {}
        lemma_sqrt_floor_bump(da, db, t);
    }
}

/// Computes the floor of the square root of `n`.
fn isqrt(n: u128) -> (r: u128)
    ensures
        r == sqrt_floor(n as int),
{
    let mut lo: u128 = 0;
    let mut hi: u128 = 0x1_0000_0000_0000_0000;
    proof {
        assert((n as int) < hi * hi) by (nonlinear_arith)
            requires n <= u128::MAX && hi == 0x1_0000_0000_0000_0000,
        {}
    }
    while hi - lo > 1
        invariant
            0 <= lo < hi <= 0x1_0000_0000_0000_0000u128,
            lo * lo <= n,
            (n as int) < hi * hi,
        decreases hi - lo,
    {
        let mid = lo + (hi - lo) / 2;
        proof {
            assert(mid * mid < 0x1_0000_0000_0000_0000u128 * 0x1_0000_0000_0000_0000u128)
                by (nonlinear_arith)
                requires 0 <= mid < 0x1_0000_0000_0000_0000u128,
            {}
        }
        let sq = mid * mid;
        if sq <= n {
            lo = mid;
        } else {
            hi = mid;
        }
    }
    proof {
        lemma_sqrt_floor_unique(n as int, lo as int);
    }
    lo
}

/// A candidate neighbor at the given index-space coordinates: a singleton if
/// it is in bounds and traversable, else empty.
pub open spec fn succ_cand(g: TileGrid, x: int, y: int) -> Seq<(GridCell, u32)> {
    if 0 <= x < g.layout.width && 0 <= y < g.layout.height {
        let n = GridCell { x: x as u32, y: y as u32 };
        if g.spec_cost(n) < IMPASSABLE_COST {
            seq![(n, g.costs@[g.layout.idx_of(n)].0)]
        } else {
            seq![]
        }
    } else {
        seq![]
    }
}

/// The neighbors offered to the search, in the fixed order up, down, left,
/// right: the axis-adjacent in-bounds cells below the impassable threshold,
/// each with its movement cost.
pub open spec fn spec_successors(g: TileGrid, c: GridCell) -> Seq<(GridCell, u32)> {
    succ_cand(g, c.x as int, c.y as int + 1) + succ_cand(g, c.x as int, c.y as int - 1)
        + succ_cand(g, c.x as int - 1, c.y as int) + succ_cand(g, c.x as int + 1, c.y as int)
}

/// Every listed successor is an adjacent traversable cell carrying its stored
/// cost, and conversely every adjacent traversable cell is listed.
pub proof fn lemma_successors_spec(g: TileGrid, c: GridCell)
    requires
        g.wf(),
        g.in_bounds(c),
    ensures
        forall|k: int| 0 <= k < spec_successors(g, c).len() ==> {
            let nw = #[trigger] spec_successors(g, c)[k];
            adjacent(c, nw.0) && g.traversable(nw.0) && nw.1 as int == g.spec_cost(nw.0)
        },
        forall|n: GridCell| #[trigger] adjacent(c, n) && g.traversable(n) ==> exists|k: int|
            0 <= k < spec_successors(g, c).len() && spec_successors(g, c)[k] == (
                n,
                g.costs@[g.layout.idx_of(n)].0,
            ),
{
    let s1 = succ_cand(g, c.x as int, c.y as int + 1);
    let s2 = succ_cand(g, c.x as int, c.y as int - 1);
    let s3 = succ_cand(g, c.x as int - 1, c.y as int);
    let s4 = succ_cand(g, c.x as int + 1, c.y as int);
    let s = spec_successors(g, c);
    assert forall|k: int| 0 <= k < s.len() implies {
        let nw = #[trigger] s[k];
        adjacent(c, nw.0) && g.traversable(nw.0) && nw.1 as int == g.spec_cost(nw.0)
    } by {
        if k < s1.len() {
            assert(s[k] == s1[0]);
        } else if k < s1.len() + s2.len() {
            assert(s[k] == s2[0]);
        } else if k < s1.len() + s2.len() + s3.len() {
            assert(s[k] == s3[0]);
        } else {
            assert(s[k] == s4[k - s1.len() - s2.len() - s3.len()]);
        }
    }
    assert forall|n: GridCell| #[trigger] adjacent(c, n) && g.traversable(n) implies exists|k: int|
        0 <= k < s.len() && s[k] == (n, g.costs@[g.layout.idx_of(n)].0) by {
        let w = g.costs@[g.layout.idx_of(n)].0;
        if c.x == n.x && c.y + 1 == n.y {
            assert(s1 == seq![(n, w)]);
            assert(s[0] == s1[0]);
            assert(0 <= 0 < s.len() && s[0] == (n, w));
        } else if c.x == n.x && n.y + 1 == c.y {
            assert(s2 == seq![(n, w)]);
            let k = s1.len() as int;
            assert(s[k] == s2[0]);
            assert(0 <= k < s.len() && s[k] == (n, w));
        } else if c.y == n.y && n.x + 1 == c.x {
            assert(s3 == seq![(n, w)]);
            let k = s1.len() + s2.len() as int;
            assert(s[k] == s3[0]);
            assert(0 <= k < s.len() && s[k] == (n, w));
        } else {
            assert(c.y == n.y && c.x + 1 == n.x);
            assert(s4 == seq![(n, w)]);
            let k = s1.len() + s2.len() + s3.len() as int;
            assert(s[k] == s4[0]);
            assert(0 <= k < s.len() && s[k] == (n, w));
        }
    }
}

impl GridCell {
    /// The heuristic distance to another cell: Euclidean distance in
    /// cell-index space, truncated down to an integer.
    pub fn distance(&self, other: &GridCell) -> (r: u64)
        ensures
            r == heur(*self, *other),
    {
        let dx: u32 = if self.x >= other.x {
            self.x - other.x
        } else {
            other.x - self.x
        };
        let dy: u32 = if self.y >= other.y {
            self.y - other.y
        } else {
            other.y - self.y
        };
        proof {
            assert((dx as int) * (dx as int) + (dy as int) * (dy as int) == sq_dist(
                *self,
                *other,
            )) by (nonlinear_arith)
                requires
                    dx == if self.x >= other.x { self.x - other.x } else { other.x - self.x },
                    dy == if self.y >= other.y { self.y - other.y } else { other.y - self.y },
                    sq_dist(*self, *other) == (self.x - other.x) * (self.x - other.x) + (self.y
                        - other.y) * (self.y - other.y),
            {}
            assert((dx as u128) * (dx as u128) + (dy as u128) * (dy as u128)
                < 0x2_0000_0000_0000_0000) by (nonlinear_arith)
                requires dx < 0x100000000 && dy < 0x100000000,
            {}
        }
        let sq: u128 = (dx as u128) * (dx as u128) + (dy as u128) * (dy as u128);
        let r = isqrt(sq);
        proof {
            assert((0x2_0000_0000 as int) * (0x2_0000_0000 as int) == 0x4_0000_0000_0000_0000)
                by (nonlinear_arith)
            {}
            lemma_sqrt_floor_le(sq as int, 0x2_0000_0000 - 1);
        }
        r as u64
    }

    /// The neighbors the search may step to from this cell, in the fixed
    /// order up, down, left, right, each with its movement cost.
    pub fn successors(&self, g: &TileGrid) -> (r: Vec<(GridCell, u32)>)
        requires
            g.wf(),
            g.in_bounds(*self),
        ensures
            r@ == spec_successors(*g, *self),
    {
        let mut out: Vec<(GridCell, u32)> = Vec::new();
        if self.y + 1 < g.layout.height {
            let n = GridCell { x: self.x, y: self.y + 1 };
            let w = g.cost(n);
            if w < IMPASSABLE_COST {
                out.push((n, w));
            }
        }
        proof {
            assert(out@ =~= succ_cand(*g, self.x as int, self.y as int + 1));
        }
        let ghost done1 = out@;
        if self.y >= 1 {
            let n = GridCell { x: self.x, y: self.y - 1 };
            let w = g.cost(n);
            if w < IMPASSABLE_COST {
                out.push((n, w));
            }
        }
        proof {
            assert(out@ =~= done1 + succ_cand(*g, self.x as int, self.y as int - 1));
        }
        let ghost done2 = out@;
        if self.x >= 1 {
            let n = GridCell { x: self.x - 1, y: self.y };
            let w = g.cost(n);
            if w < IMPASSABLE_COST {
                out.push((n, w));
            }
        }
        proof {
            assert(out@ =~= done2 + succ_cand(*g, self.x as int - 1, self.y as int));
        }
        let ghost done3 = out@;
        if self.x + 1 < g.layout.width {
            let n = GridCell { x: self.x + 1, y: self.y };
            let w = g.cost(n);
            if w < IMPASSABLE_COST {
                out.push((n, w));
            }
        }
        proof {
            assert(out@ =~= done3 + succ_cand(*g, self.x as int + 1, self.y as int));
            assert(out@ =~= spec_successors(*g, *self));
        }
        out
    }
}

} // verus!
